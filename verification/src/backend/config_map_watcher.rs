//! The ConfigMap source adapter's verified core: merging a ConfigMap's plain
//! and binary data into one key/value sequence, and reconciling a full-state
//! push against the adapter's hash table.

use crate::backend::doc_event_views;
use crate::backend::observe_event;
use crate::backend::DocEventSpec;
use crate::backend::DocumentEvent;
use crate::backend::DocumentHashTable;
use crate::text::decode_utf8_bytes;
use crate::watcher::hash_of;
use crate::watcher::hash_str;
use vstd::prelude::*;

verus! {

/// One ConfigMap entry whose value is text.
#[derive(Debug)]
pub struct KeyValue {
    pub key: String,
    pub value: String,
}

/// One ConfigMap entry whose value is raw bytes.
#[derive(Debug)]
pub struct KeyBytes {
    pub key: String,
    pub bytes: Vec<u8>,
}

/// The mathematical values of a key/value sequence.
pub open spec fn kv_views(s: Seq<KeyValue>) -> Seq<(Seq<char>, Seq<char>)> {
    s.map_values(|kv: KeyValue| (kv.key@, kv.value@))
}

/// The mathematical values of a key/bytes sequence.
pub open spec fn kb_views(s: Seq<KeyBytes>) -> Seq<(Seq<char>, Seq<u8>)> {
    s.map_values(|kb: KeyBytes| (kb.key@, kb.bytes@))
}

/// Some pair in `ps` has key `k`.
pub open spec fn has_key(ps: Seq<(Seq<char>, Seq<char>)>, k: Seq<char>) -> bool {
    exists|i: int| 0 <= i < ps.len() && ps[i].0 == k
}

/// No two pairs share a key.
pub open spec fn distinct_keys(ps: Seq<(Seq<char>, Seq<char>)>) -> bool {
    forall|i: int, j: int| 0 <= i < j < ps.len() ==> ps[i].0 != ps[j].0
}

/// Stores `v` under `k`: in place when the key is present, appended
/// otherwise.
pub open spec fn assoc_put(
    ps: Seq<(Seq<char>, Seq<char>)>,
    k: Seq<char>,
    v: Seq<char>,
) -> Seq<(Seq<char>, Seq<char>)> {
    if has_key(ps, k) {
        ps.map_values(
            |p: (Seq<char>, Seq<char>)|
                if p.0 == k {
                    (k, v)
                } else {
                    p
                },
        )
    } else {
        ps.push((k, v))
    }
}

/// The plain data entries followed by the binary entries that decode as
/// UTF-8, each binary entry overriding a plain entry with the same key.
pub open spec fn combine_spec(
    data: Seq<(Seq<char>, Seq<char>)>,
    binary: Seq<(Seq<char>, Seq<u8>)>,
) -> Seq<(Seq<char>, Seq<char>)>
    decreases binary.len(),
{
    if binary.len() == 0 {
        data
    } else {
        let rest = combine_spec(data, binary.drop_last());
        let last = binary.last();
        if vstd::utf8::valid_utf8(last.1) {
            assoc_put(rest, last.0, vstd::utf8::decode_utf8(last.1))
        } else {
            rest
        }
    }
}

proof fn lemma_assoc_put_distinct(ps: Seq<(Seq<char>, Seq<char>)>, k: Seq<char>, v: Seq<char>)
    requires
        distinct_keys(ps),
    ensures
        distinct_keys(assoc_put(ps, k, v)),
{
    if has_key(ps, k) {
        let r = assoc_put(ps, k, v);
        assert forall|i: int, j: int| 0 <= i < j < r.len() implies r[i].0 != r[j].0 by {
            assert(ps[i].0 != ps[j].0);
        }
    }
}

proof fn lemma_combine_distinct(
    data: Seq<(Seq<char>, Seq<char>)>,
    binary: Seq<(Seq<char>, Seq<u8>)>,
)
    requires
        distinct_keys(data),
    ensures
        distinct_keys(combine_spec(data, binary)),
    decreases binary.len(),
{
    if binary.len() != 0 {
        lemma_combine_distinct(data, binary.drop_last());
        let last = binary.last();
        if vstd::utf8::valid_utf8(last.1) {
            lemma_assoc_put_distinct(
                combine_spec(data, binary.drop_last()),
                last.0,
                vstd::utf8::decode_utf8(last.1),
            );
        }
    }
}

/// Finds the position of a key in the merged sequence, if present.
fn find_key(ps: &Vec<KeyValue>, k: &String) -> (r: Option<usize>)
    ensures
        (match r {
            Some(i) => 0 <= i < ps@.len() && kv_views(ps@)[i as int].0 == k@,
            None => !has_key(kv_views(ps@), k@),
        }),
{
    let mut i: usize = 0;
    while i < ps.len()
        invariant
            0 <= i <= ps@.len(),
            forall|j: int| 0 <= j < i ==> kv_views(ps@)[j].0 != k@,
        decreases ps@.len() - i,
    {
        if ps[i].key == *k {
            return Some(i);
        }
        i = i + 1;
    }
    None
}

/// Merges a ConfigMap's plain `data` and its `binary_data` into one
/// key/value sequence: binary values must decode as UTF-8 to take part, and
/// they override plain values under the same key.
pub fn combine_configmap_data(data: &Vec<KeyValue>, binary_data: &Vec<KeyBytes>) -> (r: Vec<
    KeyValue,
>)
    requires
        distinct_keys(kv_views(data@)),
    ensures
        kv_views(r@) == combine_spec(kv_views(data@), kb_views(binary_data@)),
        distinct_keys(kv_views(r@)),
{
    let mut result: Vec<KeyValue> = Vec::new();
    let mut i: usize = 0;
    while i < data.len()
        invariant
            0 <= i <= data@.len(),
            result@.len() == i,
            kv_views(result@) =~= kv_views(data@).take(i as int),
        decreases data@.len() - i,
    {
        let ghost pre = result@;
        result.push(KeyValue { key: data[i].key.clone(), value: data[i].value.clone() });
        proof {
            assert(result@.len() == i + 1);
            assert(result@[i as int].key@ == data@[i as int].key@);
            assert(result@[i as int].value@ == data@[i as int].value@);
            assert(kv_views(result@)[i as int] == kv_views(data@)[i as int]);
            assert(forall|q: int| 0 <= q < i ==> result@[q] == pre[q]);
            assert(forall|q: int| 0 <= q < i ==> kv_views(result@)[q] == kv_views(pre)[q]);
            assert(kv_views(result@) =~= kv_views(data@).take(i + 1));
        }
        i = i + 1;
    }
    proof {
        assert(kv_views(data@).take(data@.len() as int) =~= kv_views(data@));
    }
    let mut b: usize = 0;
    while b < binary_data.len()
        invariant
            0 <= b <= binary_data@.len(),
            distinct_keys(kv_views(data@)),
            kv_views(result@) =~= combine_spec(kv_views(data@), kb_views(binary_data@).take(
                b as int,
            )),
        decreases binary_data@.len() - b,
    {
        let ghost pre_bin = kb_views(binary_data@).take(b as int);
        let ghost cur_bin = kb_views(binary_data@).take(b + 1);
        proof {
            assert(cur_bin.drop_last() =~= pre_bin);
            assert(cur_bin.last() == kb_views(binary_data@)[b as int]);
            lemma_combine_distinct(kv_views(data@), pre_bin);
        }
        match decode_utf8_bytes(&binary_data[b].bytes) {
            Some(text) => {
                let ghost rest = kv_views(result@);
                match find_key(&result, &binary_data[b].key) {
                    Some(i) => {
                        result.remove(i);
                        result.insert(
                            i,
                            KeyValue { key: binary_data[b].key.clone(), value: text },
                        );
                        proof {
                            let k = kb_views(binary_data@)[b as int].0;
                            let v = vstd::utf8::decode_utf8(kb_views(binary_data@)[b as int].1);
                            assert(has_key(rest, k));
                            assert forall|j: int|
                                0 <= j < kv_views(result@).len() implies kv_views(result@)[j]
                                == assoc_put(rest, k, v)[j] by {
                                if j != i {
                                    assert(rest[j].0 != k);
                                }
                            }
                            assert(kv_views(result@) =~= assoc_put(rest, k, v));
                        }
                    },
                    None => {
                        result.push(KeyValue { key: binary_data[b].key.clone(), value: text });
                        proof {
                            let k = kb_views(binary_data@)[b as int].0;
                            let v = vstd::utf8::decode_utf8(kb_views(binary_data@)[b as int].1);
                            assert(kv_views(result@) =~= rest.push((k, v)));
                            assert(kv_views(result@) =~= assoc_put(rest, k, v));
                        }
                    },
                }
            },
            None => {
            },
        }
        proof {
            assert(kv_views(result@) =~= combine_spec(kv_views(data@), cur_bin));
        }
        b = b + 1;
    }
    proof {
        assert(kb_views(binary_data@).take(binary_data@.len() as int) =~= kb_views(binary_data@));
        lemma_combine_distinct(kv_views(data@), kb_views(binary_data@));
    }
    result
}

/// The removal announcements of a reconcile: one per previously tracked id
/// that is absent from the new full state, in table order.
pub open spec fn reconcile_removals(
    old_ids: Seq<Seq<char>>,
    ps: Seq<(Seq<char>, Seq<char>)>,
) -> Seq<DocEventSpec>
    decreases old_ids.len(),
{
    if old_ids.len() == 0 {
        Seq::<DocEventSpec>::empty()
    } else {
        reconcile_removals(old_ids.drop_last(), ps) + if has_key(ps, old_ids.last()) {
            Seq::<DocEventSpec>::empty()
        } else {
            seq![DocEventSpec::DocumentRemoved(old_ids.last())]
        }
    }
}

/// The new-or-changed announcements of a reconcile: the document-diff
/// decision applied to each new pair against the previous table, in pair
/// order.
pub open spec fn reconcile_updates(
    m: Map<Seq<char>, u64>,
    ps: Seq<(Seq<char>, Seq<char>)>,
) -> Seq<DocEventSpec>
    decreases ps.len(),
{
    if ps.len() == 0 {
        Seq::<DocEventSpec>::empty()
    } else {
        reconcile_updates(m, ps.drop_last()) + match observe_event(m, ps.last().0, ps.last().1) {
            Some(e) => seq![e],
            None => Seq::<DocEventSpec>::empty(),
        }
    }
}

/// The table contents after a reconcile: exactly the new pairs' hashes.
pub open spec fn pairs_hash_map(ps: Seq<(Seq<char>, Seq<char>)>) -> Map<Seq<char>, u64>
    decreases ps.len(),
{
    if ps.len() == 0 {
        Map::<Seq<char>, u64>::empty()
    } else {
        pairs_hash_map(ps.drop_last()).insert(ps.last().0, hash_of(ps.last().1))
    }
}

/// The keys of the pairs, in order.
pub open spec fn keys_of(ps: Seq<(Seq<char>, Seq<char>)>) -> Seq<Seq<char>> {
    ps.map_values(|p: (Seq<char>, Seq<char>)| p.0)
}

/// Reconciles one full-state push against the adapter's table: removals for
/// previously tracked ids absent from the new state come first, then a new or
/// changed announcement per pair whose value is unseen or changed; the table
/// is atomically replaced by the new state's hashes.  A pair whose value kept
/// its hash is silent.
pub fn handle_configmap_update(
    file_hashes: &mut DocumentHashTable,
    new_data: &Vec<KeyValue>,
) -> (events: Vec<DocumentEvent>)
    requires
        old(file_hashes).wf(),
        distinct_keys(kv_views(new_data@)),
    ensures
        final(file_hashes).wf(),
        final(file_hashes).entry_ids() == keys_of(kv_views(new_data@)),
        final(file_hashes).as_map() == pairs_hash_map(kv_views(new_data@)),
        doc_event_views(events@) == reconcile_removals(
            old(file_hashes).entry_ids(),
            kv_views(new_data@),
        ) + reconcile_updates(old(file_hashes).as_map(), kv_views(new_data@)),
{
    let ghost pairs = kv_views(new_data@);
    let mut events: Vec<DocumentEvent> = Vec::new();
    // Phase 1: announce removals for tracked ids absent from the new state.
    let n = file_hashes.len();
    let mut i: usize = 0;
    while i < n
        invariant
            0 <= i <= n,
            n == file_hashes.entry_ids().len(),
            file_hashes == old(file_hashes),
            pairs == kv_views(new_data@),
            doc_event_views(events@) =~= reconcile_removals(
                file_hashes.entry_ids().take(i as int),
                pairs,
            ),
        decreases n - i,
    {
        let ghost pre_ids = file_hashes.entry_ids().take(i as int);
        let ghost cur_ids = file_hashes.entry_ids().take(i + 1);
        proof {
            assert(cur_ids.drop_last() =~= pre_ids);
            assert(cur_ids.last() == file_hashes.entry_ids()[i as int]);
        }
        let id = file_hashes.id_at(i).clone();
        match find_key(new_data, &id) {
            Some(_) => {
                proof {
                    assert(has_key(pairs, file_hashes.entry_ids()[i as int]));
                    assert(doc_event_views(events@) + Seq::<DocEventSpec>::empty()
                        =~= doc_event_views(events@));
                }
            },
            None => {
                let ghost pre = events@;
                events.push(DocumentEvent::DocumentRemoved(id));
                proof {
                    assert(doc_event_views(events@) =~= doc_event_views(pre).push(
                        DocEventSpec::DocumentRemoved(file_hashes.entry_ids()[i as int]),
                    ));
                    assert(doc_event_views(pre) + seq![
                        DocEventSpec::DocumentRemoved(file_hashes.entry_ids()[i as int]),
                    ] =~= doc_event_views(pre).push(
                        DocEventSpec::DocumentRemoved(file_hashes.entry_ids()[i as int]),
                    ));
                }
            },
        }
        i = i + 1;
    }
    proof {
        assert(file_hashes.entry_ids().take(n as int) =~= file_hashes.entry_ids());
    }
    let ghost removals = doc_event_views(events@);
    // Phase 2: announce new or changed values against the previous table.
    let mut j: usize = 0;
    while j < new_data.len()
        invariant
            0 <= j <= new_data@.len(),
            file_hashes == old(file_hashes),
            file_hashes.wf(),
            pairs == kv_views(new_data@),
            removals == reconcile_removals(old(file_hashes).entry_ids(), pairs),
            doc_event_views(events@) =~= removals + reconcile_updates(
                file_hashes.as_map(),
                pairs.take(j as int),
            ),
        decreases new_data@.len() - j,
    {
        let ghost pre_pairs = pairs.take(j as int);
        let ghost cur_pairs = pairs.take(j + 1);
        proof {
            assert(cur_pairs.drop_last() =~= pre_pairs);
            assert(cur_pairs.last() == pairs[j as int]);
        }
        let ghost pre = events@;
        match file_hashes.get(&new_data[j].key) {
            Some(h) => {
                let new_hash = hash_str(new_data[j].value.as_str());
                if h != new_hash {
                    events.push(
                        DocumentEvent::ContentChanged(
                            new_data[j].key.clone(),
                            new_data[j].value.clone(),
                        ),
                    );
                    proof {
                        assert(doc_event_views(events@) =~= doc_event_views(pre).push(
                            DocEventSpec::ContentChanged(pairs[j as int].0, pairs[j as int].1),
                        ));
                        assert(doc_event_views(pre) + seq![
                            DocEventSpec::ContentChanged(pairs[j as int].0, pairs[j as int].1),
                        ] =~= doc_event_views(events@));
                    }
                } else {
                    proof {
                        assert(doc_event_views(events@) + Seq::<DocEventSpec>::empty()
                            =~= doc_event_views(events@));
                    }
                }
            },
            None => {
                events.push(
                    DocumentEvent::NewDocument(new_data[j].key.clone(), new_data[j].value.clone()),
                );
                proof {
                    assert(doc_event_views(events@) =~= doc_event_views(pre).push(
                        DocEventSpec::NewDocument(pairs[j as int].0, pairs[j as int].1),
                    ));
                    assert(doc_event_views(pre) + seq![
                        DocEventSpec::NewDocument(pairs[j as int].0, pairs[j as int].1),
                    ] =~= doc_event_views(events@));
                }
            },
        }
        j = j + 1;
    }
    proof {
        assert(pairs.take(new_data@.len() as int) =~= pairs);
    }
    // Phase 3: atomically replace the table with the new state's hashes.
    *file_hashes = DocumentHashTable::new();
    let mut p: usize = 0;
    while p < new_data.len()
        invariant
            0 <= p <= new_data@.len(),
            pairs == kv_views(new_data@),
            distinct_keys(pairs),
            file_hashes.wf(),
            file_hashes.entry_ids() =~= keys_of(pairs).take(p as int),
            file_hashes.as_map() == pairs_hash_map(pairs.take(p as int)),
        decreases new_data@.len() - p,
    {
        let ghost pre_pairs = pairs.take(p as int);
        let ghost cur_pairs = pairs.take(p + 1);
        proof {
            assert(cur_pairs.drop_last() =~= pre_pairs);
            assert(cur_pairs.last() == pairs[p as int]);
            if file_hashes.contains_id(pairs[p as int].0) {
                let q = choose|q: int|
                    0 <= q < file_hashes.entry_ids().len() && file_hashes.entry_ids()[q]
                        == pairs[p as int].0;
                assert(pairs[q].0 == pairs[p as int].0);
                assert(false);
            }
        }
        let _ = file_hashes.observe_content(&new_data[p].key, &new_data[p].value);
        proof {
            assert(file_hashes.entry_ids() =~= keys_of(pairs).take(p + 1));
        }
        p = p + 1;
    }
    proof {
        assert(keys_of(pairs).take(new_data@.len() as int) =~= keys_of(pairs));
        assert(pairs.take(new_data@.len() as int) =~= pairs);
    }
    events
}

} // verus!
