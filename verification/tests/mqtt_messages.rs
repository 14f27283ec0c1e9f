use config_watcher::backend::config_mqtt_watcher::mqtt_message_step;
use config_watcher::backend::DocumentEvent;
use config_watcher::backend::DocumentHashTable;

fn s(text: &str) -> String {
    text.to_string()
}

#[test]
fn empty_payload_on_seen_topic_emits_exactly_one_removal() {
    let mut table = DocumentHashTable::new();
    let published = mqtt_message_step(&mut table, &s("dev/cfg"), &b"mode: on\n".to_vec());
    assert_eq!(
        published,
        Some(DocumentEvent::NewDocument(s("dev/cfg"), s("mode: on\n")))
    );
    let deleted = mqtt_message_step(&mut table, &s("dev/cfg"), &Vec::new());
    assert_eq!(deleted, Some(DocumentEvent::DocumentRemoved(s("dev/cfg"))));
    let again = mqtt_message_step(&mut table, &s("dev/cfg"), &Vec::new());
    assert_eq!(again, None);
}

#[test]
fn empty_payload_on_unseen_topic_emits_nothing() {
    let mut table = DocumentHashTable::new();
    let r = mqtt_message_step(&mut table, &s("never/seen"), &Vec::new());
    assert_eq!(r, None);
}

#[test]
fn republished_identical_payload_is_silent() {
    let mut table = DocumentHashTable::new();
    mqtt_message_step(&mut table, &s("t"), &b"v".to_vec());
    let again = mqtt_message_step(&mut table, &s("t"), &b"v".to_vec());
    assert_eq!(again, None);
    let changed = mqtt_message_step(&mut table, &s("t"), &b"w".to_vec());
    assert_eq!(
        changed,
        Some(DocumentEvent::ContentChanged(s("t"), s("w")))
    );
}

#[test]
fn non_utf8_payload_is_dropped_without_touching_the_table() {
    let mut table = DocumentHashTable::new();
    mqtt_message_step(&mut table, &s("t"), &b"v".to_vec());
    let bad = mqtt_message_step(&mut table, &s("t"), &vec![0xff, 0x00, 0x80]);
    assert_eq!(bad, None);
    // The topic is still tracked with its old content hash.
    let same = mqtt_message_step(&mut table, &s("t"), &b"v".to_vec());
    assert_eq!(same, None);
}
