use vstd::prelude::*;

use crate::io::paths::{check_input_path, input_path_spec};
use crate::jobs::{category_number, menu_choice, parse_u32_seq, Category, MenuChoice};
use crate::model::error::ProcessError;
use crate::utils::strings::{trim, trim_seq};

verus! {

/// The categories that running everything runs, in menu order; each runs whatever became of
/// the ones before it.
pub fn run_all() -> (plan: Vec<Category>)
    ensures
        plan@.len() == 9,
        forall|i: int| 0 <= i < 9 ==> category_number(#[trigger] plan@[i]) == i + 1,
{
    Category::all()
}

/// The category that menu number `number` runs: the one in the running order that bears it.
pub fn run_one(number: u32) -> (c: Category)
    requires
        1 <= number <= 9,
    ensures
        category_number(c) == number,
{
    let plan = run_all();
    let mut i: usize = 0;
    while i < plan.len()
        invariant
            plan@.len() == 9,
            forall|k: int| 0 <= k < 9 ==> category_number(#[trigger] plan@[k]) == k + 1,
            1 <= number <= 9,
            i <= 9,
            i < number,
        decreases 9 - i,
    {
        if plan[i].number() == number {
            return plan[i];
        }
        assert(category_number(plan@[i as int]) == i + 1);
        i = i + 1;
    }
    assert(category_number(plan@[(number - 1) as int]) == number);
    plan[(number - 1) as usize]
}

/// Where the console session stands.
#[derive(Clone, Copy, Debug, PartialEq, Eq)]
pub enum SessionState {
    /// Waiting for the source folder's path.
    AwaitingPath,
    /// Waiting for the console to check the folder on disk.
    CheckingPath,
    /// Waiting for the menu choice.
    AwaitingChoice,
    /// Nothing more to do.
    Finished,
}

/// What the console hands the session.
pub enum SessionEvent {
    /// A line the user typed.
    Line(String),
    /// The input ended.
    EndOfInput,
    /// The folder exists, is a folder and can be read.
    FolderAccepted,
    /// The folder check failed.
    FolderRefused(ProcessError),
}

/// What the console is to do next.
pub enum SessionAction {
    /// Ask for the source folder's path.
    AskPath,
    /// Check on disk the folder at this path.
    CheckFolder(String),
    /// Report the error, then ask for the path again.
    ReportPathError(ProcessError),
    /// Show the menu and ask for a choice.
    AskChoice,
    /// Report this message, then show the menu and ask again.
    RejectChoice(String),
    /// Run every category, in the order `run_all` gives.
    RunAll,
    /// Run the category with this menu number.
    RunOne(u32),
    /// Stop.
    Stop,
}

pub open spec fn invalid_choice_message(choice: Seq<char>) -> Seq<char> {
    "无效编号："@ + choice
}

/// The console session: first the source folder's path, asked again until it names a folder;
/// then the menu choice, asked again until it is empty (everything) or a number from 1 to 9.
/// The end of the input stops the session at any prompt.
pub struct Session;

impl Session {
    /// The session at its start.
    pub fn start() -> (res: (SessionState, SessionAction))
        ensures
            res.0 == SessionState::AwaitingPath,
            res.1 is AskPath,
    {
        (SessionState::AwaitingPath, SessionAction::AskPath)
    }

    /// The next state and action after `event` in `state`.
    pub fn step(state: SessionState, event: SessionEvent) -> (res: (SessionState, SessionAction))
        ensures
            match (state, event) {
                (SessionState::AwaitingPath, SessionEvent::Line(raw)) => match input_path_spec(
                    trim_seq(raw@),
                ) {
                    Ok(p) => res.0 == SessionState::CheckingPath && (res.1 matches SessionAction::CheckFolder(
                        q,
                    ) && q@ == p),
                    Err(e) => res.0 == SessionState::AwaitingPath && (res.1 matches SessionAction::ReportPathError(
                        r,
                    ) && r@ == e),
                },
                (SessionState::AwaitingPath, SessionEvent::EndOfInput) => res.0 == SessionState::Finished
                    && res.1 is Stop,
                (SessionState::CheckingPath, SessionEvent::FolderAccepted) => res.0
                    == SessionState::AwaitingChoice && res.1 is AskChoice,
                (SessionState::CheckingPath, SessionEvent::FolderRefused(e)) => res.0
                    == SessionState::AwaitingPath && (res.1 matches SessionAction::ReportPathError(r)
                    && r@ == e@),
                (SessionState::AwaitingChoice, SessionEvent::Line(raw)) => {
                    let c = trim_seq(raw@);
                    if c.len() == 0 {
                        res.0 == SessionState::Finished && res.1 is RunAll
                    } else {
                        match parse_u32_seq(c) {
                            Some(n) if 1 <= n <= 9 => res.0 == SessionState::Finished && (res.1 matches SessionAction::RunOne(
                                m,
                            ) && m == n),
                            _ => res.0 == SessionState::AwaitingChoice && (res.1 matches SessionAction::RejectChoice(
                                msg,
                            ) && msg@ == invalid_choice_message(c)),
                        }
                    }
                },
                (SessionState::AwaitingChoice, SessionEvent::EndOfInput) => res.0
                    == SessionState::Finished && res.1 is Stop,
                _ => res.0 == SessionState::Finished && res.1 is Stop,
            },
    {
        match state {
            SessionState::AwaitingPath => match event {
                SessionEvent::Line(raw) => {
                    let line = trim(raw.as_str());
                    match check_input_path(line) {
                        Ok(p) => (SessionState::CheckingPath, SessionAction::CheckFolder(p)),
                        Err(e) => (SessionState::AwaitingPath, SessionAction::ReportPathError(e)),
                    }
                },
                _ => (SessionState::Finished, SessionAction::Stop),
            },
            SessionState::CheckingPath => match event {
                SessionEvent::FolderAccepted => (SessionState::AwaitingChoice, SessionAction::AskChoice),
                SessionEvent::FolderRefused(e) => (
                    SessionState::AwaitingPath,
                    SessionAction::ReportPathError(e),
                ),
                _ => (SessionState::Finished, SessionAction::Stop),
            },
            SessionState::AwaitingChoice => match event {
                SessionEvent::Line(raw) => {
                    let line = trim(raw.as_str());
                    match menu_choice(line) {
                        MenuChoice::RunAll => (SessionState::Finished, SessionAction::RunAll),
                        MenuChoice::RunOne(c) => (SessionState::Finished, SessionAction::RunOne(c.number())),
                        MenuChoice::Invalid => {
                            let mut msg = "无效编号：".to_owned();
                            msg.append(line);
                            (SessionState::AwaitingChoice, SessionAction::RejectChoice(msg))
                        },
                    }
                },
                _ => (SessionState::Finished, SessionAction::Stop),
            },
            SessionState::Finished => (SessionState::Finished, SessionAction::Stop),
        }
    }
}

} // verus!
