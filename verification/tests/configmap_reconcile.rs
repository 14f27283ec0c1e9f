use config_watcher::backend::config_map_watcher::combine_configmap_data;
use config_watcher::backend::config_map_watcher::handle_configmap_update;
use config_watcher::backend::config_map_watcher::KeyBytes;
use config_watcher::backend::config_map_watcher::KeyValue;
use config_watcher::backend::DocumentEvent;
use config_watcher::backend::DocumentHashTable;

fn s(text: &str) -> String {
    text.to_string()
}

fn kv(key: &str, value: &str) -> KeyValue {
    KeyValue {
        key: s(key),
        value: s(value),
    }
}

#[test]
fn key_transition_emits_removal_then_new_and_keeps_unchanged_silent() {
    // {x: "1", y: "2"} -> {x: "1", z: "3"}: the emitted sequence is
    // DocumentRemoved("y") then NewDocument("z", "3"), with no event for x.
    let mut table = DocumentHashTable::new();
    let initial = vec![kv("x", "1"), kv("y", "2")];
    let events = handle_configmap_update(&mut table, &initial);
    assert_eq!(
        events,
        vec![
            DocumentEvent::NewDocument(s("x"), s("1")),
            DocumentEvent::NewDocument(s("y"), s("2")),
        ]
    );
    let next = vec![kv("x", "1"), kv("z", "3")];
    let events = handle_configmap_update(&mut table, &next);
    assert_eq!(
        events,
        vec![
            DocumentEvent::DocumentRemoved(s("y")),
            DocumentEvent::NewDocument(s("z"), s("3")),
        ]
    );
}

#[test]
fn changed_value_emits_content_changed() {
    let mut table = DocumentHashTable::new();
    handle_configmap_update(&mut table, &vec![kv("x", "1")]);
    let events = handle_configmap_update(&mut table, &vec![kv("x", "2")]);
    assert_eq!(
        events,
        vec![DocumentEvent::ContentChanged(s("x"), s("2"))]
    );
}

#[test]
fn identical_full_state_is_silent() {
    let mut table = DocumentHashTable::new();
    handle_configmap_update(&mut table, &vec![kv("x", "1"), kv("y", "2")]);
    let events = handle_configmap_update(&mut table, &vec![kv("x", "1"), kv("y", "2")]);
    assert_eq!(events, Vec::<DocumentEvent>::new());
}

#[test]
fn binary_data_decodes_and_overrides_plain_data() {
    let data = vec![kv("a", "plain"), kv("b", "kept")];
    let binary = vec![
        KeyBytes {
            key: s("a"),
            bytes: b"binary".to_vec(),
        },
        KeyBytes {
            key: s("c"),
            bytes: b"fresh".to_vec(),
        },
    ];
    let merged = combine_configmap_data(&data, &binary);
    let pairs: Vec<(String, String)> = merged
        .iter()
        .map(|e| (e.key.clone(), e.value.clone()))
        .collect();
    assert_eq!(
        pairs,
        vec![
            (s("a"), s("binary")),
            (s("b"), s("kept")),
            (s("c"), s("fresh")),
        ]
    );
}

#[test]
fn binary_data_that_is_not_utf8_is_dropped() {
    let data = vec![kv("a", "plain")];
    let binary = vec![KeyBytes {
        key: s("bad"),
        bytes: vec![0xff, 0xfe, 0x80],
    }];
    let merged = combine_configmap_data(&data, &binary);
    assert_eq!(merged.len(), 1);
    assert_eq!(merged[0].key, s("a"));
    assert_eq!(merged[0].value, s("plain"));
}
