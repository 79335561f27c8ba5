use flashcards::direction::Direction;
use flashcards::grading::{grade, judge, Verdict};
use flashcards::import::import_set;
use flashcards::menu::{direction_choice, menu_choice, select_set, MenuChoice, SelectionError};
use flashcards::session::{Action, Event, Phase, Session};
use flashcards::store::Store;

fn capitals(store: &mut Store) -> i64 {
    let rows = vec![
        vec!["France".to_string(), "Paris".to_string()],
        vec!["Japan".to_string(), "Tokyo".to_string()],
    ];
    import_set(store, "Capitals", &rows, false).unwrap()
}

/// Performs a store action and returns the event it produces.
fn perform(store: &mut Store, set_id: i64, action: &Action) -> Option<Event> {
    match action {
        Action::CheckSession => Some(Event::SessionChecked(store.session_exists(set_id))),
        Action::CreateSnapshot => {
            store.create_session_snapshot(set_id).unwrap();
            Some(Event::SnapshotCreated)
        }
        Action::FetchUnmastered => Some(Event::Fetched(store.unmastered_entries(set_id))),
        Action::MarkMastered { term_id } => {
            store.mark_mastered(set_id, *term_id);
            Some(Event::Acknowledged)
        }
        Action::ShowAnswer { .. } => Some(Event::Acknowledged),
        Action::ClearSession => {
            store.clear_session(set_id);
            Some(Event::Cleared)
        }
        _ => None,
    }
}

#[test]
fn grading_term_to_definition() {
    let d = Direction::TermToDefinition;
    assert_eq!(grade(d, "France", "Paris", "  pARis \n"), Verdict::Correct);
    assert_eq!(grade(d, "France", "Paris", "Lyon"), Verdict::Incorrect);
    assert_eq!(grade(d, "France", "Paris", "France"), Verdict::Incorrect);
    assert_eq!(grade(d, "France", "Paris", " EXIT "), Verdict::Exit);
}

#[test]
fn grading_definition_to_term() {
    let d = Direction::DefinitionToTerm;
    assert_eq!(grade(d, "France", "Paris", "\tfrance"), Verdict::Correct);
    assert_eq!(grade(d, "France", "Paris", "Paris"), Verdict::Incorrect);
    assert_eq!(grade(d, "France", "Paris", "exit"), Verdict::Exit);
}

#[test]
fn grading_keeps_inner_whitespace() {
    let d = Direction::TermToDefinition;
    assert_eq!(grade(d, "USA", "New York", "new  york"), Verdict::Incorrect);
    assert_eq!(grade(d, "USA", "New York", "new york"), Verdict::Correct);
}

#[test]
fn judge_on_folded_text() {
    assert_eq!(judge("paris", "paris"), Verdict::Correct);
    assert_eq!(judge("lyon", "paris"), Verdict::Incorrect);
    assert_eq!(judge("exit", "exit"), Verdict::Exit);
}

#[test]
fn capitals_scenario() {
    let mut store = Store::new();
    let id = capitals(&mut store);
    let (mut session, mut action) = Session::begin(id, Direction::TermToDefinition);
    assert_eq!(action, Action::CheckSession);

    // First round: both terms are asked; France answered right, Japan wrong.
    let mut asked = Vec::new();
    loop {
        if let Action::Ask { prompt } = action.clone() {
            asked.push(prompt.clone());
            let answer = if prompt == "France" { "  PARIS " } else { "Kyoto" };
            action = session.step(Event::Answered(answer.to_string()));
            if prompt == "Japan" {
                assert_eq!(action, Action::ShowAnswer { expected: "Tokyo".to_string() });
            } else {
                assert!(matches!(action, Action::MarkMastered { .. }));
            }
            let ev = perform(&mut store, id, &action).unwrap();
            action = session.step(ev);
            if asked.len() == 2 {
                break;
            }
            continue;
        }
        let ev = perform(&mut store, id, &action).unwrap();
        action = session.step(ev);
    }
    asked.sort();
    assert_eq!(asked, vec!["France".to_string(), "Japan".to_string()]);
    assert_eq!(action, Action::FetchUnmastered);
    let left = store.unmastered_entries(id);
    assert_eq!(left.len(), 1);
    assert_eq!(left[0].term, "Japan");

    // Second round: Japan reappears and is answered right.
    let ev = perform(&mut store, id, &action).unwrap();
    action = session.step(ev);
    assert_eq!(action, Action::Ask { prompt: "Japan".to_string() });
    action = session.step(Event::Answered("tokyo".to_string()));
    assert!(matches!(action, Action::MarkMastered { .. }));
    let ev = perform(&mut store, id, &action).unwrap();
    action = session.step(ev);
    assert_eq!(action, Action::FetchUnmastered);
    let ev = perform(&mut store, id, &action).unwrap();
    action = session.step(ev);
    assert_eq!(action, Action::ClearSession);
    let ev = perform(&mut store, id, &action).unwrap();
    action = session.step(ev);
    assert_eq!(action, Action::Completed);
    assert_eq!(session.phase(), Phase::Finished);
    assert!(!store.session_exists(id));
}

#[test]
fn exit_leaves_progress_and_resume_continues() {
    let mut store = Store::new();
    let id = capitals(&mut store);
    let (mut session, action) = Session::begin(id, Direction::DefinitionToTerm);
    let ev = perform(&mut store, id, &action).unwrap();
    assert_eq!(session.step(ev), Action::CreateSnapshot);
    store.create_session_snapshot(id).unwrap();
    assert_eq!(session.step(Event::SnapshotCreated), Action::FetchUnmastered);
    let action = session.step(Event::Fetched(store.unmastered_entries(id)));
    assert!(matches!(action, Action::Ask { .. }));
    assert_eq!(session.step(Event::Answered("Exit".to_string())), Action::Exited);
    assert_eq!(session.phase(), Phase::Finished);
    assert_eq!(store.unmastered_entries(id).len(), 2);

    let (mut again, action) = Session::begin(id, Direction::DefinitionToTerm);
    let ev = perform(&mut store, id, &action).unwrap();
    assert_eq!(again.step(ev), Action::FetchUnmastered);
}

#[test]
fn out_of_phase_event_is_ignored() {
    let (mut session, _) = Session::begin(7, Direction::TermToDefinition);
    assert_eq!(session.step(Event::Cleared), Action::Ignored);
    assert_eq!(session.phase(), Phase::Checking);
    assert_eq!(session.set_id(), 7);
}

#[test]
fn empty_set_completes_at_once() {
    let mut store = Store::new();
    let id = import_set(&mut store, "Empty", &Vec::new(), false).unwrap();
    let (mut session, action) = Session::begin(id, Direction::TermToDefinition);
    let ev = perform(&mut store, id, &action).unwrap();
    assert_eq!(session.step(ev), Action::CreateSnapshot);
    assert_eq!(session.step(Event::SnapshotCreated), Action::FetchUnmastered);
    assert_eq!(session.step(Event::Fetched(Vec::new())), Action::ClearSession);
    assert_eq!(session.step(Event::Cleared), Action::Completed);
}

#[test]
fn selecting_sets() {
    let sets = vec![(4, "Capitals".to_string()), (9, "Rivers".to_string())];
    assert_eq!(select_set(&sets, "2\n"), Ok(9));
    assert_eq!(select_set(&sets, " 1 "), Ok(4));
    assert_eq!(select_set(&sets, "0"), Err(SelectionError::OutOfRange));
    assert_eq!(select_set(&sets, "3"), Err(SelectionError::OutOfRange));
    assert_eq!(select_set(&sets, "two"), Err(SelectionError::NotANumber));
    assert_eq!(select_set(&Vec::new(), "1"), Err(SelectionError::NoSets));
}

#[test]
fn menu_choices() {
    assert_eq!(menu_choice("1\n"), Some(MenuChoice::ImportSet));
    assert_eq!(menu_choice("2"), Some(MenuChoice::LearnSet));
    assert_eq!(menu_choice(" 3 "), Some(MenuChoice::Statistics));
    assert_eq!(menu_choice("4"), Some(MenuChoice::SetDirection));
    assert_eq!(menu_choice("5"), Some(MenuChoice::Quit));
    assert_eq!(menu_choice("6"), None);
    assert_eq!(direction_choice("1"), Some(Direction::TermToDefinition));
    assert_eq!(direction_choice("2\n"), Some(Direction::DefinitionToTerm));
    assert_eq!(direction_choice("x"), None);
}
