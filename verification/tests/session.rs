use data_cleaning::model::error::ProcessError;
use data_cleaning::session::{Session, SessionAction, SessionEvent, SessionState};

fn line(text: &str) -> SessionEvent {
    SessionEvent::Line(text.to_string())
}

#[test]
fn a_session_starts_by_asking_for_the_path() {
    let (state, action) = Session::start();
    assert_eq!(state, SessionState::AwaitingPath);
    assert!(matches!(action, SessionAction::AskPath));
}

#[test]
fn a_typed_path_is_normalised_and_checked() {
    let (state, action) = Session::step(SessionState::AwaitingPath, line("  '/data/源数据'\n"));
    assert_eq!(state, SessionState::CheckingPath);
    match action {
        SessionAction::CheckFolder(path) => assert_eq!(path, "/data/源数据"),
        _ => panic!("expected a folder check"),
    }
}

#[test]
fn an_empty_path_is_reported_and_asked_again() {
    let (state, action) = Session::step(SessionState::AwaitingPath, line("   \n"));
    assert_eq!(state, SessionState::AwaitingPath);
    match action {
        SessionAction::ReportPathError(ProcessError::InvalidPath { reason, .. }) => {
            assert_eq!(reason, "路径为空")
        }
        _ => panic!("expected the empty-path error"),
    }
}

#[test]
fn a_refused_folder_goes_back_to_the_path_prompt() {
    let refused = ProcessError::InvalidPath {
        path: "/nope".to_string(),
        reason: "路径不存在".to_string(),
    };
    let (state, action) = Session::step(
        SessionState::CheckingPath,
        SessionEvent::FolderRefused(refused),
    );
    assert_eq!(state, SessionState::AwaitingPath);
    match action {
        SessionAction::ReportPathError(ProcessError::InvalidPath { path, reason }) => {
            assert_eq!(path, "/nope");
            assert_eq!(reason, "路径不存在");
        }
        _ => panic!("expected the folder error"),
    }
}

#[test]
fn an_accepted_folder_leads_to_the_menu() {
    let (state, action) = Session::step(SessionState::CheckingPath, SessionEvent::FolderAccepted);
    assert_eq!(state, SessionState::AwaitingChoice);
    assert!(matches!(action, SessionAction::AskChoice));
}

#[test]
fn enter_alone_runs_everything() {
    let (state, action) = Session::step(SessionState::AwaitingChoice, line("\n"));
    assert_eq!(state, SessionState::Finished);
    assert!(matches!(action, SessionAction::RunAll));
}

#[test]
fn a_menu_number_runs_that_category() {
    let (state, action) = Session::step(SessionState::AwaitingChoice, line(" 8 \n"));
    assert_eq!(state, SessionState::Finished);
    assert!(matches!(action, SessionAction::RunOne(8)));
}

#[test]
fn an_invalid_choice_is_reported_and_asked_again() {
    for choice in ["0", "10", "abc", "-1"] {
        let (state, action) = Session::step(SessionState::AwaitingChoice, line(choice));
        assert_eq!(state, SessionState::AwaitingChoice);
        match action {
            SessionAction::RejectChoice(message) => {
                assert_eq!(message, format!("无效编号：{choice}"))
            }
            _ => panic!("expected a rejection"),
        }
    }
}

#[test]
fn the_end_of_input_stops_at_any_prompt() {
    for state in [SessionState::AwaitingPath, SessionState::AwaitingChoice] {
        let (next, action) = Session::step(state, SessionEvent::EndOfInput);
        assert_eq!(next, SessionState::Finished);
        assert!(matches!(action, SessionAction::Stop));
    }
}
