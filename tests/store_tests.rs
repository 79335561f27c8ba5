use flashcards::direction::Direction;
use flashcards::import::{import_set, import_text, ImportError};
use flashcards::store::{Store, StoreError};

fn rows(pairs: &[(&str, &str)]) -> Vec<Vec<String>> {
    pairs.iter().map(|(t, d)| vec![t.to_string(), d.to_string()]).collect()
}

fn capitals(store: &mut Store) -> i64 {
    import_set(store, "Capitals", &rows(&[("France", "Paris"), ("Japan", "Tokyo")]), false).unwrap()
}

#[test]
fn snapshot_has_one_unmastered_entry_per_term() {
    let mut store = Store::new();
    let id = capitals(&mut store);
    assert!(!store.session_exists(id));
    store.enter_session(id).unwrap();
    assert!(store.session_exists(id));
    let entries = store.unmastered_entries(id);
    assert_eq!(entries.len(), 2);
    let mut terms: Vec<String> = entries.iter().map(|e| e.term.clone()).collect();
    terms.sort();
    assert_eq!(terms, vec!["France".to_string(), "Japan".to_string()]);
}

#[test]
fn entering_twice_keeps_progress() {
    let mut store = Store::new();
    let id = capitals(&mut store);
    store.enter_session(id).unwrap();
    let france = store.unmastered_entries(id).into_iter().find(|e| e.term == "France").unwrap();
    store.mark_mastered(id, france.term_id);
    store.enter_session(id).unwrap();
    store.enter_session(id).unwrap();
    let left = store.unmastered_entries(id);
    assert_eq!(left.len(), 1);
    assert_eq!(left[0].term, "Japan");
}

#[test]
fn snapshot_refused_when_entries_exist_or_set_unknown() {
    let mut store = Store::new();
    let id = capitals(&mut store);
    assert_eq!(store.create_session_snapshot(id + 100), Err(StoreError::NotFound));
    assert_eq!(store.create_session_snapshot(id), Ok(()));
    assert_eq!(store.create_session_snapshot(id), Err(StoreError::ConstraintViolation));
    assert_eq!(store.enter_session(id + 100), Err(StoreError::NotFound));
}

#[test]
fn marking_twice_is_a_no_op() {
    let mut store = Store::new();
    let id = capitals(&mut store);
    store.enter_session(id).unwrap();
    let japan = store.unmastered_entries(id).into_iter().find(|e| e.term == "Japan").unwrap();
    store.mark_mastered(id, japan.term_id);
    store.mark_mastered(id, japan.term_id);
    assert_eq!(store.unmastered_entries(id).len(), 1);
}

#[test]
fn completion_clears_and_next_entry_starts_fresh() {
    let mut store = Store::new();
    let id = capitals(&mut store);
    store.enter_session(id).unwrap();
    for e in store.unmastered_entries(id) {
        store.mark_mastered(id, e.term_id);
    }
    assert!(store.unmastered_entries(id).is_empty());
    store.clear_session(id);
    assert!(!store.session_exists(id));
    store.enter_session(id).unwrap();
    assert_eq!(store.unmastered_entries(id).len(), 2);
}

#[test]
fn reimport_without_overwrite_is_refused() {
    let mut store = Store::new();
    let id = capitals(&mut store);
    store.enter_session(id).unwrap();
    let r = import_set(&mut store, "Capitals", &rows(&[("Italy", "Rome")]), false);
    assert_eq!(r, Err(ImportError::AlreadyExists));
    assert!(store.session_exists(id));
    assert_eq!(store.unmastered_entries(id).len(), 2);
    assert_eq!(store.list_sets().len(), 1);
}

#[test]
fn reimport_with_overwrite_replaces_set_terms_and_entries() {
    let mut store = Store::new();
    let old = capitals(&mut store);
    store.enter_session(old).unwrap();
    let new = import_set(&mut store, "Capitals", &rows(&[("Italy", "Rome")]), true).unwrap();
    assert_ne!(old, new);
    assert!(!store.contains_set(old));
    assert!(!store.session_exists(old));
    assert!(!store.session_exists(new));
    let sets = store.list_sets();
    assert_eq!(sets.len(), 1);
    assert_eq!(sets[0], (new, "Capitals".to_string()));
    store.enter_session(new).unwrap();
    let entries = store.unmastered_entries(new);
    assert_eq!(entries.len(), 1);
    assert_eq!(entries[0].term, "Italy");
    assert_eq!(entries[0].definition, "Rome");
}

#[test]
fn malformed_record_refuses_whole_import() {
    let mut store = Store::new();
    let bad = vec![
        vec!["France".to_string(), "Paris".to_string()],
        vec!["Japan".to_string(), "Tokyo".to_string(), "extra".to_string()],
    ];
    assert_eq!(import_set(&mut store, "Capitals", &bad, false), Err(ImportError::MalformedRecord));
    assert!(!store.set_exists("Capitals"));
    assert!(store.list_sets().is_empty());
}

#[test]
fn import_text_reads_caret_separated_records() {
    let mut store = Store::new();
    let id = import_text(&mut store, "Capitals", "France^Paris\nJapan^Tokyo\n", false).unwrap();
    store.enter_session(id).unwrap();
    let mut pairs: Vec<(String, String)> =
        store.unmastered_entries(id).into_iter().map(|e| (e.term, e.definition)).collect();
    pairs.sort();
    assert_eq!(
        pairs,
        vec![
            ("France".to_string(), "Paris".to_string()),
            ("Japan".to_string(), "Tokyo".to_string())
        ]
    );
}

#[test]
fn import_text_refuses_three_columns() {
    let mut store = Store::new();
    let r = import_text(&mut store, "Capitals", "France^Paris^EU\n", false);
    assert_eq!(r, Err(ImportError::MalformedRecord));
    assert!(store.list_sets().is_empty());
}

#[test]
fn import_text_refuses_existing_name() {
    let mut store = Store::new();
    capitals(&mut store);
    let r = import_text(&mut store, "Capitals", "Italy^Rome\n", false);
    assert_eq!(r, Err(ImportError::AlreadyExists));
}

#[test]
fn delete_set_cascades() {
    let mut store = Store::new();
    let id = capitals(&mut store);
    let other = import_set(&mut store, "Rivers", &rows(&[("Egypt", "Nile")]), false).unwrap();
    store.enter_session(id).unwrap();
    assert_eq!(store.delete_set(id), Ok(()));
    assert_eq!(store.delete_set(id), Err(StoreError::NotFound));
    assert!(!store.session_exists(id));
    assert!(store.unmastered_entries(id).is_empty());
    assert!(store.contains_set(other));
}

#[test]
fn create_set_and_add_term_errors() {
    let mut store = Store::new();
    let id = store.create_set("Capitals").unwrap();
    assert_eq!(store.create_set("Capitals"), Err(StoreError::ConstraintViolation));
    assert_eq!(store.add_term(id + 50, "a", "b"), Err(StoreError::NotFound));
    let t = store.add_term(id, "France", "Paris").unwrap();
    assert_eq!(t, id + 1);
    store.enter_session(id).unwrap();
    assert_eq!(store.add_term(id, "Japan", "Tokyo"), Err(StoreError::ConstraintViolation));
}

#[test]
fn default_direction_then_stored_direction() {
    let mut store = Store::new();
    assert_eq!(store.get_learning_direction(), Direction::TermToDefinition);
    store.set_learning_direction(Direction::DefinitionToTerm);
    assert_eq!(store.get_learning_direction(), Direction::DefinitionToTerm);
    store.set_learning_direction(Direction::TermToDefinition);
    assert_eq!(store.get_learning_direction(), Direction::TermToDefinition);
}

#[test]
fn direction_setting_text_round_trips() {
    assert_eq!(Direction::DefinitionToTerm.setting_value(), "definition_to_term");
    assert_eq!(Direction::TermToDefinition.setting_value(), "term_to_definition");
    assert_eq!(Direction::from_setting(None), Direction::TermToDefinition);
    assert_eq!(Direction::from_setting(Some("definition_to_term")), Direction::DefinitionToTerm);
    assert_eq!(Direction::from_setting(Some("sideways")), Direction::TermToDefinition);
}
