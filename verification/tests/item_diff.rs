use config_watcher::backend::DocumentEvent;
use config_watcher::config_item_watcher::file_removed;
use config_watcher::config_item_watcher::handle_config_file_event;
use config_watcher::config_item_watcher::process_file;
use config_watcher::config_item_watcher::ConfigItemEvent;
use config_watcher::config_item_watcher::ItemHashSet;
use config_watcher::hash_str;
use config_watcher::JsonTokenizer;
use config_watcher::Tokenizer;
use config_watcher::YamlTokenizer;

fn s(text: &str) -> String {
    text.to_string()
}

fn ok(text: &str) -> Result<String, String> {
    Ok(text.to_string())
}

#[test]
fn hash_str_is_deterministic_and_content_sensitive() {
    assert_eq!(hash_str("alpha"), hash_str("alpha"));
    assert_ne!(hash_str("alpha"), hash_str("beta"));
    assert_ne!(hash_str(""), hash_str(" "));
}

#[test]
fn yaml_tokenizer_splits_trims_and_drops_empty_items() {
    let tk = YamlTokenizer;
    assert_eq!(
        tk.tokenize("a: 1\n---\nb: 2\n"),
        vec![s("a: 1"), s("b: 2")]
    );
    assert_eq!(tk.tokenize("\n---\n---\n  x  "), vec![s("x")]);
    assert_eq!(tk.tokenize("   \n---\n  "), Vec::<String>::new());
    assert_eq!(tk.tokenize("plain"), vec![s("plain")]);
}

#[test]
fn json_tokenizer_splits_on_adjacent_object_boundaries() {
    let tk = JsonTokenizer;
    assert_eq!(
        tk.tokenize("{\n\"a\": 1\n}\n{\n\"b\": 2\n}"),
        vec![s("{\n\"a\": 1"), s("\"b\": 2\n}")]
    );
}

#[test]
fn new_document_announces_marker_then_items() {
    let mut set = ItemHashSet::new();
    let events = handle_config_file_event(
        DocumentEvent::NewDocument(s("a.yaml"), s("x: 1\n---\ny: 2\n")),
        &mut set,
        &YamlTokenizer,
        |t: &str| ok(t),
    );
    assert_eq!(events.len(), 3);
    assert!(
        matches!(&events[0], ConfigItemEvent::NewDocument(h, name)
            if *h == hash_str("a.yaml") && name == "a.yaml")
    );
    assert!(matches!(&events[1], ConfigItemEvent::New(h, v)
        if h.filename_hash() == hash_str("a.yaml")
            && h.item_hash() == hash_str("x: 1") && v == "x: 1"));
    assert!(matches!(&events[2], ConfigItemEvent::New(h, v)
        if h.item_hash() == hash_str("y: 2") && v == "y: 2"));
}

#[test]
fn partial_document_edit_removes_exactly_the_lost_item() {
    // A 3-item document loses its middle item: exactly one Removed event and
    // no events for the two unchanged items.
    let mut set = ItemHashSet::new();
    process_file(
        &s("a.yaml"),
        &s("one\n---\ntwo\n---\nthree"),
        &mut set,
        &YamlTokenizer,
        |t: &str| ok(t),
    );
    let events = process_file(
        &s("a.yaml"),
        &s("one\n---\nthree"),
        &mut set,
        &YamlTokenizer,
        |t: &str| ok(t),
    );
    assert_eq!(events.len(), 1);
    assert!(matches!(&events[0], ConfigItemEvent::Removed(h)
        if h.filename_hash() == hash_str("a.yaml") && h.item_hash() == hash_str("two")));
}

#[test]
fn reordering_items_inside_a_document_is_silent() {
    let mut set = ItemHashSet::new();
    process_file(
        &s("a.yaml"),
        &s("one\n---\ntwo"),
        &mut set,
        &YamlTokenizer,
        |t: &str| ok(t),
    );
    let events = process_file(
        &s("a.yaml"),
        &s("two\n---\none"),
        &mut set,
        &YamlTokenizer,
        |t: &str| ok(t),
    );
    assert_eq!(events.len(), 0);
}

#[test]
fn identical_items_in_distinct_documents_have_independent_lifecycles() {
    // Two documents with the same item text get distinct composite hashes,
    // and removing one document does not announce the other's hash.
    let mut set = ItemHashSet::new();
    let ea = process_file(
        &s("a.yaml"),
        &s("same"),
        &mut set,
        &YamlTokenizer,
        |t: &str| ok(t),
    );
    let eb = process_file(
        &s("b.yaml"),
        &s("same"),
        &mut set,
        &YamlTokenizer,
        |t: &str| ok(t),
    );
    let ha = match &ea[0] {
        ConfigItemEvent::New(h, _) => *h,
        other => panic!("expected New, got {:?}", other),
    };
    let hb = match &eb[0] {
        ConfigItemEvent::New(h, _) => *h,
        other => panic!("expected New, got {:?}", other),
    };
    assert_ne!(ha, hb);
    assert_eq!(ha.item_hash(), hb.item_hash());
    assert_ne!(ha.filename_hash(), hb.filename_hash());

    let removed: Vec<ConfigItemEvent<String>> = file_removed(&s("a.yaml"), &mut set);
    assert_eq!(removed.len(), 1);
    assert!(matches!(&removed[0], ConfigItemEvent::Removed(h) if *h == ha));
    // The other document's identical item is untouched: re-observing it
    // yields nothing.
    let again = process_file(
        &s("b.yaml"),
        &s("same"),
        &mut set,
        &YamlTokenizer,
        |t: &str| ok(t),
    );
    assert_eq!(again.len(), 0);
}

#[test]
fn document_removal_announces_items_then_lifecycle_marker() {
    let mut set = ItemHashSet::new();
    process_file(
        &s("a.yaml"),
        &s("one\n---\ntwo"),
        &mut set,
        &YamlTokenizer,
        |t: &str| ok(t),
    );
    let events = handle_config_file_event(
        DocumentEvent::DocumentRemoved(s("a.yaml")),
        &mut set,
        &YamlTokenizer,
        |t: &str| ok(t),
    );
    assert_eq!(events.len(), 3);
    assert!(matches!(&events[0], ConfigItemEvent::Removed(_)));
    assert!(matches!(&events[1], ConfigItemEvent::Removed(_)));
    assert!(
        matches!(&events[2], ConfigItemEvent::RemoveDocument(h) if *h == hash_str("a.yaml"))
    );
}

#[test]
fn content_change_does_not_reannounce_the_document() {
    let mut set = ItemHashSet::new();
    handle_config_file_event(
        DocumentEvent::NewDocument(s("a.yaml"), s("one")),
        &mut set,
        &YamlTokenizer,
        |t: &str| ok(t),
    );
    let events = handle_config_file_event(
        DocumentEvent::ContentChanged(s("a.yaml"), s("one\n---\ntwo")),
        &mut set,
        &YamlTokenizer,
        |t: &str| ok(t),
    );
    assert_eq!(events.len(), 1);
    assert!(matches!(&events[0], ConfigItemEvent::New(_, v) if v == "two"));
}

#[test]
fn malformed_item_is_dropped_without_aborting_its_siblings() {
    let mut set = ItemHashSet::new();
    let events = process_file(
        &s("a.yaml"),
        &s("good\n---\nbad\n---\nalso-good"),
        &mut set,
        &YamlTokenizer,
        |t: &str| {
            if t == "bad" {
                Err(s("malformed"))
            } else {
                ok(t)
            }
        },
    );
    assert_eq!(events.len(), 2);
    assert!(matches!(&events[0], ConfigItemEvent::New(_, v) if v == "good"));
    assert!(matches!(&events[1], ConfigItemEvent::New(_, v) if v == "also-good"));
}

#[test]
fn duplicate_item_texts_in_one_document_are_announced_once() {
    let mut set = ItemHashSet::new();
    let events = process_file(
        &s("a.yaml"),
        &s("dup\n---\ndup"),
        &mut set,
        &YamlTokenizer,
        |t: &str| ok(t),
    );
    assert_eq!(events.len(), 1);
    assert!(matches!(&events[0], ConfigItemEvent::New(_, v) if v == "dup"));
}

#[test]
fn item_that_fails_to_deserialize_counts_as_absent() {
    let mut set = ItemHashSet::new();
    process_file(
        &s("a.yaml"),
        &s("item"),
        &mut set,
        &YamlTokenizer,
        |t: &str| ok(t),
    );
    // The same text now fails to deserialize: its hash is treated as gone.
    let events = process_file(
        &s("a.yaml"),
        &s("item"),
        &mut set,
        &YamlTokenizer,
        |_t: &str| -> Result<String, String> { Err(s("broken")) },
    );
    assert_eq!(events.len(), 1);
    assert!(matches!(&events[0], ConfigItemEvent::Removed(h)
        if h.item_hash() == hash_str("item")));
}
