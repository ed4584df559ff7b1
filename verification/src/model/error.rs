use vstd::prelude::*;

verus! {

/// Why a category could not be processed.
#[derive(Debug, Clone)]
pub enum ProcessError {
    /// The folder path given is not usable.
    InvalidPath { path: String, reason: String },
    /// No source file follows the naming rule.
    NoInput { pattern: String },
    /// A workbook or sheet does not have the expected layout.
    Structure { file: String, sheet: String, detail: String },
    /// A cell holds a value that cannot be taken over.
    Data { file: String, sheet: String, row: u32, field: String, value: String, detail: String },
    /// The same export appears twice.
    Duplicate { detail: String },
    /// A workbook could not be read.
    Read(String),
    /// Writing or publishing the result failed.
    Io(String),
}

/// An error with its texts as characters.
pub enum ErrorView {
    InvalidPath { path: Seq<char>, reason: Seq<char> },
    NoInput { pattern: Seq<char> },
    Structure { file: Seq<char>, sheet: Seq<char>, detail: Seq<char> },
    Data {
        file: Seq<char>,
        sheet: Seq<char>,
        row: u32,
        field: Seq<char>,
        value: Seq<char>,
        detail: Seq<char>,
    },
    Duplicate { detail: Seq<char> },
    Read(Seq<char>),
    Io(Seq<char>),
}

impl View for ProcessError {
    type V = ErrorView;

    open spec fn view(&self) -> ErrorView {
        match self {
            ProcessError::InvalidPath { path, reason } => ErrorView::InvalidPath {
                path: path@,
                reason: reason@,
            },
            ProcessError::NoInput { pattern } => ErrorView::NoInput { pattern: pattern@ },
            ProcessError::Structure { file, sheet, detail } => ErrorView::Structure {
                file: file@,
                sheet: sheet@,
                detail: detail@,
            },
            ProcessError::Data { file, sheet, row, field, value, detail } => ErrorView::Data {
                file: file@,
                sheet: sheet@,
                row: *row,
                field: field@,
                value: value@,
                detail: detail@,
            },
            ProcessError::Duplicate { detail } => ErrorView::Duplicate { detail: detail@ },
            ProcessError::Read(m) => ErrorView::Read(m@),
            ProcessError::Io(m) => ErrorView::Io(m@),
        }
    }
}

impl ProcessError {
    /// A copy of the error.
    pub fn copied(&self) -> (res: ProcessError)
        ensures
            res@ == self@,
    {
        match self {
            ProcessError::InvalidPath { path, reason } => ProcessError::InvalidPath {
                path: path.clone(),
                reason: reason.clone(),
            },
            ProcessError::NoInput { pattern } => ProcessError::NoInput { pattern: pattern.clone() },
            ProcessError::Structure { file, sheet, detail } => ProcessError::Structure {
                file: file.clone(),
                sheet: sheet.clone(),
                detail: detail.clone(),
            },
            ProcessError::Data { file, sheet, row, field, value, detail } => ProcessError::Data {
                file: file.clone(),
                sheet: sheet.clone(),
                row: *row,
                field: field.clone(),
                value: value.clone(),
                detail: detail.clone(),
            },
            ProcessError::Duplicate { detail } => ProcessError::Duplicate { detail: detail.clone() },
            ProcessError::Read(m) => ProcessError::Read(m.clone()),
            ProcessError::Io(m) => ProcessError::Io(m.clone()),
        }
    }
}

/// A result's view: the value's view, or the error's.
pub open spec fn result_view<T: View>(r: Result<T, ProcessError>) -> Result<T::V, ErrorView> {
    match r {
        Ok(v) => Ok(v@),
        Err(e) => Err(e@),
    }
}

} // verus!
