//! The MQTT source adapter's verified core: the document-diff decision for
//! one received publish message.

use crate::backend::doc_event_view_opt;
use crate::backend::observe_event;
use crate::backend::observe_table;
use crate::backend::removal_event;
use crate::backend::removal_table;
use crate::backend::DocumentEvent;
use crate::backend::DocumentHashTable;
use crate::text::decode_utf8_bytes;
use vstd::prelude::*;

verus! {

/// Applies one MQTT publish to the adapter's table.  An empty payload is the
/// deletion signal for the topic: a tracked topic is dropped and announced,
/// an untracked one is silent.  A non-empty payload that decodes as UTF-8 is
/// a content observation under the document-level diff.  A payload that is
/// not valid UTF-8 is dropped without touching the table.
pub fn mqtt_message_step(
    hashes: &mut DocumentHashTable,
    topic: &String,
    payload: &Vec<u8>,
) -> (r: Option<DocumentEvent>)
    requires
        old(hashes).wf(),
    ensures
        final(hashes).wf(),
        payload@.len() == 0 ==> {
            &&& doc_event_view_opt(r) == removal_event(old(hashes).as_map(), topic@)
            &&& final(hashes).as_map() == removal_table(old(hashes).as_map(), topic@)
        },
        payload@.len() > 0 && vstd::utf8::valid_utf8(payload@) ==> {
            &&& doc_event_view_opt(r) == observe_event(
                old(hashes).as_map(),
                topic@,
                vstd::utf8::decode_utf8(payload@),
            )
            &&& final(hashes).as_map() == observe_table(
                old(hashes).as_map(),
                topic@,
                vstd::utf8::decode_utf8(payload@),
            )
        },
        payload@.len() > 0 && !vstd::utf8::valid_utf8(payload@) ==> {
            &&& r is None
            &&& *final(hashes) == *old(hashes)
        },
{
    if payload.len() == 0 {
        hashes.observe_removal(topic)
    } else {
        match decode_utf8_bytes(payload) {
            Some(content) => hashes.observe_content(topic, &content),
            None => None,
        }
    }
}

} // verus!
