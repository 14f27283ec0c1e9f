use config_watcher::backend::config_file_watcher::handle_rename_both;
use config_watcher::backend::DocumentEvent;
use config_watcher::backend::DocumentHashTable;

fn s(text: &str) -> String {
    text.to_string()
}

#[test]
fn initial_scan_emits_new_document_per_file() {
    // Two files found by the initial scan each yield one NewDocument
    // carrying the full file content.
    let mut table = DocumentHashTable::new();
    let e1 = table.observe_content(&s("a.yaml"), &s("alpha: 1\n"));
    let e2 = table.observe_content(&s("b.yaml"), &s("beta: 2\n"));
    assert_eq!(
        e1,
        Some(DocumentEvent::NewDocument(s("a.yaml"), s("alpha: 1\n")))
    );
    assert_eq!(
        e2,
        Some(DocumentEvent::NewDocument(s("b.yaml"), s("beta: 2\n")))
    );
    assert_eq!(table.len(), 2);
}

#[test]
fn rewriting_identical_content_is_silent() {
    let mut table = DocumentHashTable::new();
    let first = table.observe_content(&s("a.yaml"), &s("alpha: 1\n"));
    assert!(matches!(first, Some(DocumentEvent::NewDocument(_, _))));
    let again = table.observe_content(&s("a.yaml"), &s("alpha: 1\n"));
    assert_eq!(again, None);
    let third = table.observe_content(&s("a.yaml"), &s("alpha: 1\n"));
    assert_eq!(third, None);
}

#[test]
fn changed_content_emits_content_changed() {
    let mut table = DocumentHashTable::new();
    table.observe_content(&s("a.yaml"), &s("alpha: 1\n"));
    let changed = table.observe_content(&s("a.yaml"), &s("alpha: 2\n"));
    assert_eq!(
        changed,
        Some(DocumentEvent::ContentChanged(s("a.yaml"), s("alpha: 2\n")))
    );
}

#[test]
fn deleting_a_tracked_file_emits_exactly_one_removal() {
    let mut table = DocumentHashTable::new();
    table.observe_content(&s("a.yaml"), &s("alpha: 1\n"));
    let removed = table.observe_removal(&s("a.yaml"));
    assert_eq!(removed, Some(DocumentEvent::DocumentRemoved(s("a.yaml"))));
    let again = table.observe_removal(&s("a.yaml"));
    assert_eq!(again, None);
}

#[test]
fn removing_an_untracked_id_is_silent() {
    let mut table = DocumentHashTable::new();
    assert_eq!(table.observe_removal(&s("missing.yaml")), None);
}

#[test]
fn rename_as_atomic_save_rereads_destination() {
    // A combined rename on a file with unchanged content yields exactly one
    // DocumentRemoved for the old id followed by exactly one NewDocument for
    // the new id, carrying the content read at the destination.
    let mut table = DocumentHashTable::new();
    table.observe_content(&s("a.yaml"), &s("alpha: 1\n"));
    let events = handle_rename_both(&mut table, &s("a.yaml"), &s("a2.yaml"), &s("alpha: 1\n"));
    assert_eq!(
        events,
        vec![
            DocumentEvent::DocumentRemoved(s("a.yaml")),
            DocumentEvent::NewDocument(s("a2.yaml"), s("alpha: 1\n")),
        ]
    );
    assert_eq!(table.get(&s("a.yaml")), None);
    assert!(table.get(&s("a2.yaml")).is_some());
}

#[test]
fn rename_of_untracked_source_still_records_destination() {
    let mut table = DocumentHashTable::new();
    let events = handle_rename_both(&mut table, &s("ghost.yaml"), &s("b.yaml"), &s("beta\n"));
    assert_eq!(
        events,
        vec![DocumentEvent::NewDocument(s("b.yaml"), s("beta\n"))]
    );
}

#[test]
fn remove_all_announces_each_tracked_document_in_order() {
    let mut table = DocumentHashTable::new();
    table.observe_content(&s("a"), &s("1"));
    table.observe_content(&s("b"), &s("2"));
    let events = table.remove_all();
    assert_eq!(
        events,
        vec![
            DocumentEvent::DocumentRemoved(s("a")),
            DocumentEvent::DocumentRemoved(s("b")),
        ]
    );
    assert_eq!(table.len(), 0);
}
