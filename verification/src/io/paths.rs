use vstd::prelude::*;

use crate::model::error::{ErrorView, ProcessError};
use crate::utils::strings::{strip_prefix, strip_suffix, trim, trim_seq};

verus! {

/// `s` without one pair of `quote` characters around it, when it has such a pair.
pub open spec fn unquote_with(s: Seq<char>, quote: char) -> Option<Seq<char>> {
    if s.len() >= 2 && s[0] == quote && s.last() == quote {
        Some(s.subrange(1, s.len() - 1))
    } else {
        None
    }
}

/// A raw path with surrounding white space, then one pair of matching double or single quotes,
/// then the white space inside them removed.
pub open spec fn normalize_raw_path_seq(raw: Seq<char>) -> Seq<char> {
    let trimmed = trim_seq(raw);
    let unquoted = match unquote_with(trimmed, '"') {
        Some(inner) => inner,
        None => match unquote_with(trimmed, '\'') {
            Some(inner) => inner,
            None => trimmed,
        },
    };
    trim_seq(unquoted)
}

fn unquote<'a>(s: &'a str, quote: &str) -> (res: Option<&'a str>)
    requires
        quote@.len() == 1,
    ensures
        res matches Some(r) ==> unquote_with(s@, quote@[0]) == Some(r@),
        res is None ==> unquote_with(s@, quote@[0]) is None,
{
    match strip_prefix(s, quote) {
        Some(rest) => {
            let r = strip_suffix(rest, quote);
            proof {
                if r is Some {
                    assert(s@.len() >= 2);
                    assert(s@.last() == rest@.last());
                    assert(s@.subrange(1, s@.len() - 1) =~= rest@.take(rest@.len() - 1));
                } else if s@.len() >= 2 && s@.last() == quote@[0] {
                    assert(rest@.last() == s@.last());
                    assert(quote@ =~= rest@.subrange(rest@.len() - 1, rest@.len() as int));
                }
            }
            r
        },
        None => {
            proof {
                if s@.len() >= 2 && s@[0] == quote@[0] {
                    assert(quote@ =~= s@.take(1));
                }
            }
            None
        },
    }
}

/// Normalises a folder path as typed by the user: surrounding white space goes, then one
/// matching pair of double or single quotes around the whole, then white space inside them.
pub fn normalize_raw_path(raw: &str) -> (res: String)
    ensures
        res@ == normalize_raw_path_seq(raw@),
{
    proof {
        reveal_strlit("\"");
        reveal_strlit("'");
    }
    let trimmed = trim(raw);
    let unquoted = match unquote(trimmed, "\"") {
        Some(inner) => inner,
        None => match unquote(trimmed, "'") {
            Some(inner) => inner,
            None => trimmed,
        },
    };
    trim(unquoted).to_owned()
}


/// The folder path to check on disk for what the user typed: the normalised text, or the
/// invalid-path error "路径为空" when nothing is left of it.
pub open spec fn input_path_spec(raw: Seq<char>) -> Result<Seq<char>, ErrorView> {
    let p = normalize_raw_path_seq(raw);
    if p.len() == 0 {
        Err(ErrorView::InvalidPath { path: Seq::empty(), reason: "路径为空"@ })
    } else {
        Ok(p)
    }
}

/// Normalises a typed folder path and refuses an empty one; whether the folder exists, is a
/// folder and can be read is for the caller to check on disk.
pub fn check_input_path(raw: &str) -> (res: Result<String, ProcessError>)
    ensures
        match res {
            Ok(p) => input_path_spec(raw@) == Ok::<Seq<char>, ErrorView>(p@),
            Err(e) => input_path_spec(raw@) == Err::<Seq<char>, ErrorView>(e@),
        },
{
    let normalized = normalize_raw_path(raw);
    if normalized.as_str().is_empty() {
        Err(ProcessError::InvalidPath { path: String::new(), reason: "路径为空".to_owned() })
    } else {
        Ok(normalized)
    }
}


/// What the checks on disk decide of the input folder at `path`: a path that does not exist, a
/// path that is not a folder, and a folder that cannot be listed (with the system's message
/// `read_error`) are refused, in that order. `read_error` is only looked at for a folder.
pub open spec fn folder_check_spec(
    path: Seq<char>,
    exists: bool,
    is_dir: bool,
    read_error: Option<Seq<char>>,
) -> Result<(), ErrorView> {
    if !exists {
        Err(ErrorView::InvalidPath { path, reason: "路径不存在"@ })
    } else if !is_dir {
        Err(ErrorView::InvalidPath { path, reason: "不是文件夹"@ })
    } else {
        match read_error {
            Some(m) => Err(ErrorView::InvalidPath { path, reason: "不可读取："@ + m }),
            None => Ok(()),
        }
    }
}

/// An optional text, as characters.
pub open spec fn opt_text(o: Option<String>) -> Option<Seq<char>> {
    match o {
        Some(m) => Some(m@),
        None => None,
    }
}

/// Judges the input folder from the three answers of the disk: whether the path exists,
/// whether it is a folder, and the error met listing it, if any.
pub fn folder_check(path: &str, exists: bool, is_dir: bool, read_error: Option<String>) -> (res: Result<
    (),
    ProcessError,
>)
    ensures
        match res {
            Ok(_) => folder_check_spec(path@, exists, is_dir, opt_text(read_error)) == Ok::<
                (),
                ErrorView,
            >(()),
            Err(e) => folder_check_spec(path@, exists, is_dir, opt_text(read_error))
                == Err::<(), ErrorView>(e@),
        },
{
    if !exists {
        return Err(ProcessError::InvalidPath { path: path.to_owned(), reason: "路径不存在".to_owned() });
    }
    if !is_dir {
        return Err(ProcessError::InvalidPath { path: path.to_owned(), reason: "不是文件夹".to_owned() });
    }
    match read_error {
        Some(m) => {
            let mut reason = "不可读取：".to_owned();
            reason.append(m.as_str());
            Err(ProcessError::InvalidPath { path: path.to_owned(), reason })
        },
        None => Ok(()),
    }
}

/// A file name that the folder listing takes as a source workbook: it does not start with the
/// `~$` of an office lock file, and its extension is exactly `xlsx` (a name ending in `.xlsx`
/// with something before the dot).
pub open spec fn is_listed_workbook_spec(name: Seq<char>) -> bool {
    &&& !"~$"@.is_prefix_of(name)
    &&& name.len() > 5
    &&& ".xlsx"@.is_suffix_of(name)
}

/// Whether a file of the input folder with this name is listed as a source workbook.
pub fn is_listed_workbook(name: &str) -> (res: bool)
    ensures
        res == is_listed_workbook_spec(name@),
{
    proof {
        reveal_strlit(".xlsx");
    }
    strip_prefix(name, "~$").is_none() && name.unicode_len() > 5 && strip_suffix(name, ".xlsx").is_some()
}

} // verus!
