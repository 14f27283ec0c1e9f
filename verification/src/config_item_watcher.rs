//! The item diff engine: consumes a document event stream, tokenizes each
//! document into configuration items, and maintains the set of composite
//! item hashes to announce fine-grained additions and removals per item,
//! together with document lifecycle markers.

use crate::backend::DocumentEvent;
use crate::text::lemma_add_contains;
use crate::text::lemma_filter_push;
use crate::text::lemma_filter_preserves_distinct;
use crate::text::lemma_filter_subset;
use crate::text::clean_spec;
use crate::text::trim_and_filter;
use crate::watcher::hash_of;
use crate::watcher::hash_str;
use crate::watcher::Tokenizer;
use vstd::prelude::*;

verus! {

/// The composite key of one configuration item: the hash of its originating
/// document's id and the hash of its own text.  Mixing in the document
/// component keeps identical item texts from different documents apart.
#[derive(Debug, Clone, Copy, PartialEq, Eq, Hash, Structural)]
pub struct ConfigItemHash(u64, u64);

impl ConfigItemHash {
    /// The document component of the composite key.
    pub closed spec fn spec_filename_hash(self) -> u64 {
        self.0
    }

    /// The item-text component of the composite key.
    pub closed spec fn spec_item_hash(self) -> u64 {
        self.1
    }

    /// The composite key made of a document component and an item component.
    pub closed spec fn spec_new(fh: u64, ih: u64) -> ConfigItemHash {
        ConfigItemHash(fh, ih)
    }

    pub fn filename_hash(&self) -> (r: u64)
        ensures
            r == self.spec_filename_hash(),
    {
        self.0
    }

    pub fn item_hash(&self) -> (r: u64)
        ensures
            r == self.spec_item_hash(),
    {
        self.1
    }

    fn make(fh: u64, ih: u64) -> (r: ConfigItemHash)
        ensures
            r == ConfigItemHash::spec_new(fh, ih),
    {
        ConfigItemHash(fh, ih)
    }
}

/// Two items with identical text in different documents never share a
/// composite hash: their document components differ, so the keys differ.
pub proof fn lemma_item_isolation(fh1: u64, fh2: u64, ih: u64)
    requires
        fh1 != fh2,
    ensures
        ConfigItemHash::spec_new(fh1, ih) != ConfigItemHash::spec_new(fh2, ih),
{
}

/// A normalized change notification for one configuration item or for a
/// document's lifecycle, as handed to the consumer.
#[derive(Debug)]
pub enum ConfigItemEvent<T> {
    /// A document appeared (hash of its id, the id itself).
    NewDocument(u64, String),
    /// A document disappeared (hash of its id).
    RemoveDocument(u64),
    /// A new item and its deserialized value.
    New(ConfigItemHash, T),
    /// A known item disappeared.
    Removed(ConfigItemHash),
}

/// The mathematical value of a [`ConfigItemEvent`].
pub enum ItemEventSpec<T> {
    NewDocument(u64, Seq<char>),
    RemoveDocument(u64),
    New(ConfigItemHash, T),
    Removed(ConfigItemHash),
}

impl<T> View for ConfigItemEvent<T> {
    type V = ItemEventSpec<T>;

    open spec fn view(&self) -> ItemEventSpec<T> {
        match self {
            ConfigItemEvent::NewDocument(h, id) => ItemEventSpec::NewDocument(*h, id@),
            ConfigItemEvent::RemoveDocument(h) => ItemEventSpec::RemoveDocument(*h),
            ConfigItemEvent::New(h, v) => ItemEventSpec::New(*h, *v),
            ConfigItemEvent::Removed(h) => ItemEventSpec::Removed(*h),
        }
    }
}

/// The views of a sequence of item events.
pub open spec fn item_event_views<T>(events: Seq<ConfigItemEvent<T>>) -> Seq<ItemEventSpec<T>> {
    events.map_values(|e: ConfigItemEvent<T>| e@)
}

/// The set of currently-known composite item hashes, owned by the item
/// watcher task, kept in insertion order with each hash at most once.
pub struct ItemHashSet {
    items: Vec<ConfigItemHash>,
}

impl View for ItemHashSet {
    type V = Seq<ConfigItemHash>;

    closed spec fn view(&self) -> Seq<ConfigItemHash> {
        self.items@
    }
}

impl ItemHashSet {
    /// Each hash is known at most once.
    pub open spec fn wf(self) -> bool {
        forall|i: int, j: int| 0 <= i < j < self@.len() ==> self@[i] != self@[j]
    }

    /// An empty set, used when the engine starts.
    pub fn new() -> (r: ItemHashSet)
        ensures
            r@ == Seq::<ConfigItemHash>::empty(),
            r.wf(),
    {
        let r = ItemHashSet { items: Vec::new() };
        proof {
            assert(r@ =~= Seq::<ConfigItemHash>::empty());
        }
        r
    }

    /// Whether a composite hash is currently known.
    pub fn contains(&self, h: ConfigItemHash) -> (r: bool)
        ensures
            r == self@.contains(h),
    {
        let mut i: usize = 0;
        while i < self.items.len()
            invariant
                0 <= i <= self@.len(),
                self@ == self.items@,
                forall|j: int| 0 <= j < i ==> self@[j] != h,
            decreases self@.len() - i,
        {
            if self.items[i].filename_hash() == h.filename_hash() && self.items[i].item_hash()
                == h.item_hash() {
                proof {
                    assert(self@[i as int] == h);
                }
                return true;
            }
            proof {
                assert(self@[i as int] != h);
            }
            i = i + 1;
        }
        false
    }
}

/// The hashes that survive the removal of a document: those of other
/// documents.
pub open spec fn kept_after_removal(items: Seq<ConfigItemHash>, fh: u64) -> Seq<ConfigItemHash> {
    items.filter(|h: ConfigItemHash| h.spec_filename_hash() != fh)
}

/// The hashes dropped by the removal of a document, in insertion order.
pub open spec fn removed_for_file(items: Seq<ConfigItemHash>, fh: u64) -> Seq<ConfigItemHash> {
    items.filter(|h: ConfigItemHash| h.spec_filename_hash() == fh)
}

/// One removal announcement per dropped hash, in order.
pub open spec fn removed_item_events<T>(hs: Seq<ConfigItemHash>) -> Seq<ItemEventSpec<T>> {
    hs.map_values(|h: ConfigItemHash| ItemEventSpec::<T>::Removed(h))
}

proof fn lemma_removal_split_push(items: Seq<ConfigItemHash>, x: ConfigItemHash, fh: u64)
    ensures
        kept_after_removal(items.push(x), fh) == if x.spec_filename_hash() != fh {
            kept_after_removal(items, fh).push(x)
        } else {
            kept_after_removal(items, fh)
        },
        removed_for_file(items.push(x), fh) == if x.spec_filename_hash() == fh {
            removed_for_file(items, fh).push(x)
        } else {
            removed_for_file(items, fh)
        },
{
    lemma_filter_push(items, x, |h: ConfigItemHash| h.spec_filename_hash() != fh);
    lemma_filter_push(items, x, |h: ConfigItemHash| h.spec_filename_hash() == fh);
}

/// Drops every known hash whose document component matches the removed
/// document and announces each removal, in insertion order; hashes of other
/// documents are untouched.
pub fn file_removed<T>(filename: &String, item_hashes: &mut ItemHashSet) -> (events: Vec<
    ConfigItemEvent<T>,
>)
    requires
        old(item_hashes).wf(),
    ensures
        final(item_hashes).wf(),
        final(item_hashes)@ == kept_after_removal(old(item_hashes)@, hash_of(filename@)),
        item_event_views(events@) == removed_item_events::<T>(
            removed_for_file(old(item_hashes)@, hash_of(filename@)),
        ),
{
    let fh = hash_str(filename.as_str());
    let ghost orig = item_hashes@;
    let mut retained: Vec<ConfigItemHash> = Vec::new();
    let mut events: Vec<ConfigItemEvent<T>> = Vec::new();
    let mut i: usize = 0;
    proof {
        assert(orig.take(0) =~= Seq::<ConfigItemHash>::empty());
        assert(kept_after_removal(orig.take(0), fh) =~= Seq::<ConfigItemHash>::empty()) by {
            reveal(Seq::filter);
        }
        assert(removed_for_file(orig.take(0), fh) =~= Seq::<ConfigItemHash>::empty()) by {
            reveal(Seq::filter);
        }
    }
    while i < item_hashes.items.len()
        invariant
            0 <= i <= orig.len(),
            item_hashes@ == orig,
            item_hashes@ == item_hashes.items@,
            fh == hash_of(filename@),
            retained@ == kept_after_removal(orig.take(i as int), fh),
            item_event_views(events@) =~= removed_item_events::<T>(
                removed_for_file(orig.take(i as int), fh),
            ),
        decreases orig.len() - i,
    {
        let h = item_hashes.items[i];
        proof {
            assert(h == orig[i as int]);
            assert(orig.take(i + 1) =~= orig.take(i as int).push(orig[i as int]));
            lemma_removal_split_push(orig.take(i as int), orig[i as int], fh);
        }
        if h.filename_hash() == fh {
            let ghost pre = events@;
            events.push(ConfigItemEvent::Removed(h));
            proof {
                assert(removed_for_file(orig.take(i + 1), fh) == removed_for_file(
                    orig.take(i as int),
                    fh,
                ).push(h));
                assert(item_event_views(events@) =~= item_event_views(pre).push(
                    ItemEventSpec::<T>::Removed(h),
                ));
                assert(item_event_views(events@) =~= removed_item_events::<T>(
                    removed_for_file(orig.take(i + 1), fh),
                ));
            }
        } else {
            retained.push(h);
            proof {
                assert(kept_after_removal(orig.take(i + 1), fh) == kept_after_removal(
                    orig.take(i as int),
                    fh,
                ).push(h));
            }
        }
        i = i + 1;
    }
    proof {
        assert(orig.take(orig.len() as int) =~= orig);
    }
    item_hashes.items = retained;
    proof {
        lemma_filter_preserves_distinct(orig, |h: ConfigItemHash| h.spec_filename_hash() != fh);
    }
    events
}

/// One deserialized item together with the hash of its text.
pub struct NewItem<T> {
    pub hash: u64,
    pub value: T,
}

/// The item-text hashes of the new items, in order.
pub open spec fn new_item_hashes<T>(items: Seq<NewItem<T>>) -> Seq<u64> {
    items.map_values(|ni: NewItem<T>| ni.hash)
}

/// No two new items share an item-text hash.
pub open spec fn distinct_hashes<T>(items: Seq<NewItem<T>>) -> bool {
    forall|i: int, j: int| 0 <= i < j < items.len() ==> items[i].hash != items[j].hash
}

/// The known hashes that survive an update of one document: those of other
/// documents, and those of this document whose item text is still present.
pub open spec fn retained_after_update<T>(
    items: Seq<ConfigItemHash>,
    fh: u64,
    new_items: Seq<NewItem<T>>,
) -> Seq<ConfigItemHash> {
    items.filter(
        |h: ConfigItemHash|
            h.spec_filename_hash() != fh || new_item_hashes(new_items).contains(
                h.spec_item_hash(),
            ),
    )
}

/// The known hashes dropped by an update: those of this document whose item
/// text is gone, in insertion order.
pub open spec fn stale_for_file<T>(
    items: Seq<ConfigItemHash>,
    fh: u64,
    new_items: Seq<NewItem<T>>,
) -> Seq<ConfigItemHash> {
    items.filter(
        |h: ConfigItemHash|
            h.spec_filename_hash() == fh && !new_item_hashes(new_items).contains(
                h.spec_item_hash(),
            ),
    )
}

/// The new items whose composite hash was not yet known, in item order.
pub open spec fn fresh_for_file<T>(
    items: Seq<ConfigItemHash>,
    fh: u64,
    new_items: Seq<NewItem<T>>,
) -> Seq<NewItem<T>> {
    new_items.filter(
        |ni: NewItem<T>| !items.contains(ConfigItemHash::spec_new(fh, ni.hash)),
    )
}

/// The composite hashes of the given new items.
pub open spec fn added_hashes<T>(fh: u64, items: Seq<NewItem<T>>) -> Seq<ConfigItemHash> {
    items.map_values(|ni: NewItem<T>| ConfigItemHash::spec_new(fh, ni.hash))
}

/// One new-item announcement per given item, in order.
pub open spec fn new_item_events<T>(fh: u64, items: Seq<NewItem<T>>) -> Seq<ItemEventSpec<T>> {
    items.map_values(
        |ni: NewItem<T>| ItemEventSpec::New(ConfigItemHash::spec_new(fh, ni.hash), ni.value),
    )
}

/// The exact effect of updating one document's items: the set loses this
/// document's vanished hashes and gains the unseen new composite hashes, and
/// the removals are announced before the additions.  A hash present both
/// before and after causes no event.
pub open spec fn item_diff_post<T>(
    old_items: Seq<ConfigItemHash>,
    new_set: Seq<ConfigItemHash>,
    fh: u64,
    new_items: Seq<NewItem<T>>,
    events: Seq<ItemEventSpec<T>>,
) -> bool {
    &&& new_set == retained_after_update(old_items, fh, new_items) + added_hashes(
        fh,
        fresh_for_file(old_items, fh, new_items),
    )
    &&& events == removed_item_events::<T>(stale_for_file(old_items, fh, new_items))
        + new_item_events(fh, fresh_for_file(old_items, fh, new_items))
}

proof fn lemma_update_split_push<T>(
    items: Seq<ConfigItemHash>,
    x: ConfigItemHash,
    fh: u64,
    new_items: Seq<NewItem<T>>,
)
    ensures
        retained_after_update(items.push(x), fh, new_items) == if x.spec_filename_hash() != fh
            || new_item_hashes(new_items).contains(x.spec_item_hash()) {
            retained_after_update(items, fh, new_items).push(x)
        } else {
            retained_after_update(items, fh, new_items)
        },
        stale_for_file(items.push(x), fh, new_items) == if x.spec_filename_hash() == fh
            && !new_item_hashes(new_items).contains(x.spec_item_hash()) {
            stale_for_file(items, fh, new_items).push(x)
        } else {
            stale_for_file(items, fh, new_items)
        },
{
    lemma_filter_push(
        items,
        x,
        |h: ConfigItemHash|
            h.spec_filename_hash() != fh || new_item_hashes(new_items).contains(
                h.spec_item_hash(),
            ),
    );
    lemma_filter_push(
        items,
        x,
        |h: ConfigItemHash|
            h.spec_filename_hash() == fh && !new_item_hashes(new_items).contains(
                h.spec_item_hash(),
            ),
    );
}

proof fn lemma_fresh_push<T>(
    old_items: Seq<ConfigItemHash>,
    fh: u64,
    new_items: Seq<NewItem<T>>,
    x: NewItem<T>,
)
    ensures
        fresh_for_file(old_items, fh, new_items.push(x)) == if !old_items.contains(
            ConfigItemHash::spec_new(fh, x.hash),
        ) {
            fresh_for_file(old_items, fh, new_items).push(x)
        } else {
            fresh_for_file(old_items, fh, new_items)
        },
{
    lemma_filter_push(
        new_items,
        x,
        |ni: NewItem<T>| !old_items.contains(ConfigItemHash::spec_new(fh, ni.hash)),
    );
}

/// Whether some new item has the given item-text hash.
fn new_items_contain<T>(new_items: &Vec<NewItem<T>>, ih: u64) -> (r: bool)
    ensures
        r == new_item_hashes(new_items@).contains(ih),
{
    let mut i: usize = 0;
    while i < new_items.len()
        invariant
            0 <= i <= new_items@.len(),
            forall|j: int| 0 <= j < i ==> new_item_hashes(new_items@)[j] != ih,
        decreases new_items@.len() - i,
    {
        if new_items[i].hash == ih {
            proof {
                assert(new_item_hashes(new_items@)[i as int] == ih);
            }
            return true;
        }
        proof {
            assert(new_item_hashes(new_items@)[i as int] != ih);
        }
        i = i + 1;
    }
    false
}

/// Applies one document's current item set to the known hashes: the
/// document's vanished hashes are dropped and announced first, then every
/// unseen composite hash is inserted and announced with its value.
pub fn apply_item_diff<T>(
    item_hashes: &mut ItemHashSet,
    filename_hash: u64,
    new_items: Vec<NewItem<T>>,
) -> (events: Vec<ConfigItemEvent<T>>)
    requires
        old(item_hashes).wf(),
        distinct_hashes(new_items@),
    ensures
        final(item_hashes).wf(),
        item_diff_post(
            old(item_hashes)@,
            final(item_hashes)@,
            filename_hash,
            new_items@,
            item_event_views(events@),
        ),
{
    let fh = filename_hash;
    let ghost orig = item_hashes@;
    let ghost all_new = new_items@;
    let mut retained: Vec<ConfigItemHash> = Vec::new();
    let mut events: Vec<ConfigItemEvent<T>> = Vec::new();
    let mut i: usize = 0;
    proof {
        assert(orig.take(0) =~= Seq::<ConfigItemHash>::empty());
        assert(retained_after_update(orig.take(0), fh, all_new)
            =~= Seq::<ConfigItemHash>::empty()) by {
            reveal(Seq::filter);
        }
        assert(stale_for_file(orig.take(0), fh, all_new) =~= Seq::<ConfigItemHash>::empty()) by {
            reveal(Seq::filter);
        }
    }
    while i < item_hashes.items.len()
        invariant
            0 <= i <= orig.len(),
            item_hashes@ == orig,
            item_hashes@ == item_hashes.items@,
            all_new == new_items@,
            retained@ == retained_after_update(orig.take(i as int), fh, all_new),
            item_event_views(events@) =~= removed_item_events::<T>(
                stale_for_file(orig.take(i as int), fh, all_new),
            ),
        decreases orig.len() - i,
    {
        let h = item_hashes.items[i];
        proof {
            assert(h == orig[i as int]);
            assert(orig.take(i + 1) =~= orig.take(i as int).push(orig[i as int]));
            lemma_update_split_push(orig.take(i as int), orig[i as int], fh, all_new);
        }
        if h.filename_hash() == fh && !new_items_contain(&new_items, h.item_hash()) {
            let ghost pre = events@;
            events.push(ConfigItemEvent::Removed(h));
            proof {
                assert(stale_for_file(orig.take(i + 1), fh, all_new) == stale_for_file(
                    orig.take(i as int),
                    fh,
                    all_new,
                ).push(h));
                assert(item_event_views(events@) =~= item_event_views(pre).push(
                    ItemEventSpec::<T>::Removed(h),
                ));
                assert(item_event_views(events@) =~= removed_item_events::<T>(
                    stale_for_file(orig.take(i + 1), fh, all_new),
                ));
            }
        } else {
            retained.push(h);
            proof {
                assert(retained_after_update(orig.take(i + 1), fh, all_new)
                    == retained_after_update(orig.take(i as int), fh, all_new).push(h));
            }
        }
        i = i + 1;
    }
    proof {
        assert(orig.take(orig.len() as int) =~= orig);
    }
    item_hashes.items = retained;
    proof {
        lemma_filter_preserves_distinct(
            orig,
            |h: ConfigItemHash|
                h.spec_filename_hash() != fh || new_item_hashes(all_new).contains(
                    h.spec_item_hash(),
                ),
        );
        lemma_filter_subset(
            orig,
            |h: ConfigItemHash|
                h.spec_filename_hash() != fh || new_item_hashes(all_new).contains(
                    h.spec_item_hash(),
                ),
        );
    }
    let ghost removal_events = item_event_views(events@);
    let ghost retained_full = item_hashes@;
    let mut pending = new_items;
    let total = pending.len();
    let mut k: usize = 0;
    proof {
        assert(total == all_new.len());
        assert(pending@ =~= all_new.skip(0));
        assert(all_new.take(0) =~= Seq::<NewItem<T>>::empty());
        assert(fresh_for_file(orig, fh, all_new.take(0)) =~= Seq::<NewItem<T>>::empty()) by {
            reveal(Seq::filter);
        }
        assert(item_hashes@ =~= retained_full + added_hashes(
            fh,
            fresh_for_file(orig, fh, all_new.take(0)),
        ));
        assert(item_event_views(events@) =~= removal_events + new_item_events(
            fh,
            fresh_for_file(orig, fh, all_new.take(0)),
        ));
    }
    while pending.len() > 0
        invariant
            0 <= k <= all_new.len(),
            all_new.len() <= usize::MAX,
            pending@ == all_new.skip(k as int),
            distinct_hashes(all_new),
            item_hashes.wf(),
            retained_full == retained_after_update(orig, fh, all_new),
            forall|x: ConfigItemHash| #[trigger] retained_full.contains(x) ==> orig.contains(x),
            item_hashes@ == retained_full + added_hashes(
                fh,
                fresh_for_file(orig, fh, all_new.take(k as int)),
            ),
            item_event_views(events@) =~= removal_events + new_item_events(
                fh,
                fresh_for_file(orig, fh, all_new.take(k as int)),
            ),
        decreases pending@.len(),
    {
        let ni = pending.remove(0);
        let ghost ni_g = ni;
        proof {
            assert(all_new.skip(k as int)[0] == all_new[k as int]);
            assert(ni_g == all_new[k as int]);
            assert(pending@ =~= all_new.skip(k + 1));
            assert(all_new.take(k + 1) =~= all_new.take(k as int).push(all_new[k as int]));
            lemma_fresh_push(orig, fh, all_new.take(k as int), all_new[k as int]);
        }
        let ghost fresh_pre = fresh_for_file(orig, fh, all_new.take(k as int));
        let c = ConfigItemHash::make(fh, ni.hash);
        let known = item_hashes.contains(c);
        proof {
            lemma_add_contains(retained_full, added_hashes(fh, fresh_pre), c);
            if known {
                // A known composite hash must already have been in the set
                // before this batch: it cannot be among the batch's earlier
                // additions, whose item hashes all differ from this one's.
                if !retained_full.contains(c) {
                    assert(added_hashes(fh, fresh_pre).contains(c));
                    let j = choose|j: int|
                        0 <= j < added_hashes(fh, fresh_pre).len() && added_hashes(
                            fh,
                            fresh_pre,
                        )[j] == c;
                    assert(ConfigItemHash::spec_new(fh, fresh_pre[j].hash) == c);
                    assert(fresh_pre[j].hash == ni_g.hash);
                    lemma_filter_subset(
                        all_new.take(k as int),
                        |x: NewItem<T>| !orig.contains(ConfigItemHash::spec_new(fh, x.hash)),
                    );
                    assert(fresh_pre.contains(fresh_pre[j]));
                    assert(all_new.take(k as int).contains(fresh_pre[j]));
                    let t = choose|t: int|
                        0 <= t < all_new.take(k as int).len() && all_new.take(k as int)[t]
                            == fresh_pre[j];
                    assert(all_new[t].hash == all_new[k as int].hash);
                    assert(false);
                }
                assert(orig.contains(c));
            } else {
                if orig.contains(c) {
                    let t = choose|t: int| 0 <= t < orig.len() && orig[t] == c;
                    assert(new_item_hashes(all_new)[k as int] == c.spec_item_hash());
                    assert(new_item_hashes(all_new).contains(c.spec_item_hash()));
                    Seq::lemma_filter_contains(
                        orig,
                        |h: ConfigItemHash|
                            h.spec_filename_hash() != fh || new_item_hashes(all_new).contains(
                                h.spec_item_hash(),
                            ),
                        t,
                    );
                    assert(retained_full.contains(c));
                    assert(item_hashes@.contains(c));
                    assert(false);
                }
            }
        }
        if !known {
            let ghost pre_set = item_hashes@;
            let ghost pre = events@;
            item_hashes.items.push(c);
            events.push(ConfigItemEvent::New(c, ni.value));
            proof {
                assert(item_hashes@ =~= pre_set.push(c));
                assert(fresh_for_file(orig, fh, all_new.take(k + 1)) == fresh_pre.push(ni_g));
                assert(added_hashes(fh, fresh_pre.push(ni_g)) =~= added_hashes(
                    fh,
                    fresh_pre,
                ).push(c));
                assert(item_hashes@ =~= retained_full + added_hashes(
                    fh,
                    fresh_for_file(orig, fh, all_new.take(k + 1)),
                ));
                assert(item_event_views(events@) =~= item_event_views(pre).push(
                    ItemEventSpec::New(c, ni_g.value),
                ));
                assert(new_item_events(fh, fresh_pre.push(ni_g)) =~= new_item_events(
                    fh,
                    fresh_pre,
                ).push(ItemEventSpec::New(c, ni_g.value)));
                assert(item_event_views(events@) =~= removal_events + new_item_events(
                    fh,
                    fresh_for_file(orig, fh, all_new.take(k + 1)),
                ));
                assert forall|a: int, b: int|
                    0 <= a < b < item_hashes@.len() implies item_hashes@[a] != item_hashes@[b] by {
                    if b == item_hashes@.len() - 1 {
                        assert(item_hashes@[a] == pre_set[a]);
                        assert(pre_set.contains(pre_set[a]));
                    }
                }
            }
        } else {
            proof {
                assert(fresh_for_file(orig, fh, all_new.take(k + 1)) == fresh_pre);
            }
        }
        k = k + 1;
    }
    proof {
        assert(all_new.skip(k as int).len() == 0);
        assert(k == all_new.len());
        assert(all_new.take(k as int) =~= all_new);
    }
    events
}

/// What a deserializer can only do with a text: every outcome it admits for
/// that text is a success.
pub open spec fn must_deserialize<T, E, F: Fn(&str) -> Result<T, E>>(f: F, text: Seq<char>) -> bool {
    forall|s: &str, r: Result<T, E>| s@ == text && #[trigger] call_ensures(f, (s,), r) ==> r is Ok
}

/// The deserializer admits this success outcome for the text.
pub open spec fn may_deserialize_to<T, E, F: Fn(&str) -> Result<T, E>>(
    f: F,
    text: Seq<char>,
    v: T,
) -> bool {
    exists|s: &str| s@ == text && #[trigger] call_ensures(f, (s,), Ok::<T, E>(v))
}

/// The item is a possible successful deserialization of one of the first
/// `upto` tokens, keyed by that token's hash.
pub open spec fn kept_item_from<T, E, F: Fn(&str) -> Result<T, E>>(
    f: F,
    toks: Seq<Seq<char>>,
    upto: int,
    ni: NewItem<T>,
) -> bool {
    exists|j: int|
        0 <= j < upto && #[trigger] hash_of(toks[j]) == ni.hash && may_deserialize_to(
            f,
            toks[j],
            ni.value,
        )
}

proof fn lemma_kept_item_mono<T, E, F: Fn(&str) -> Result<T, E>>(
    f: F,
    toks: Seq<Seq<char>>,
    a: int,
    b: int,
    ni: NewItem<T>,
)
    requires
        kept_item_from(f, toks, a, ni),
        a <= b,
    ensures
        kept_item_from(f, toks, b, ni),
{
    let j = choose|j: int|
        0 <= j < a && #[trigger] hash_of(toks[j]) == ni.hash && may_deserialize_to(
            f,
            toks[j],
            ni.value,
        );
    assert(0 <= j < b && hash_of(toks[j]) == ni.hash && may_deserialize_to(f, toks[j], ni.value));
}

/// How the kept items relate to the cleaned token texts: their hashes are
/// distinct; each kept item is a possible successful deserialization of some
/// token, keyed by that token's hash; and every token that cannot fail to
/// deserialize contributes its hash.
pub open spec fn kept_matches<T, E, F: Fn(&str) -> Result<T, E>>(
    f: F,
    toks: Seq<Seq<char>>,
    kept: Seq<NewItem<T>>,
) -> bool {
    &&& distinct_hashes(kept)
    &&& forall|i: int|
        0 <= i < kept.len() ==> #[trigger] kept_item_from(f, toks, toks.len() as int, kept[i])
    &&& forall|j: int|
        0 <= j < toks.len() && #[trigger] must_deserialize(f, toks[j])
            ==> new_item_hashes(kept).contains(hash_of(toks[j]))
}

/// The full effect of one document update: for some kept item batch drawn
/// from the document's cleaned tokens by the deserializer, the set and the
/// events are exactly the item diff of that batch.
pub open spec fn file_update_post<T, E, Tk: Tokenizer, F: Fn(&str) -> Result<T, E>>(
    tokenizer: Tk,
    f: F,
    filename: Seq<char>,
    content: Seq<char>,
    old_items: Seq<ConfigItemHash>,
    new_set: Seq<ConfigItemHash>,
    events: Seq<ItemEventSpec<T>>,
) -> bool {
    exists|kept: Seq<NewItem<T>>|
        {
            &&& #[trigger] kept_matches(f, clean_spec(tokenizer.spec_tokenize(content)), kept)
            &&& item_diff_post(old_items, new_set, hash_of(filename), kept, events)
        }
}

/// Diffs one document's current content against the known item hashes:
/// tokenizes the content, trims and drops empty items, deserializes each
/// surviving item text (a malformed item is dropped alone, never aborting
/// its siblings), and updates the set, announcing this document's removals
/// before its new items.
pub fn process_file<T, E, Tk: Tokenizer, F: Fn(&str) -> Result<T, E>>(
    filename: &String,
    content: &String,
    item_hashes: &mut ItemHashSet,
    tokenizer: &Tk,
    deserialize: F,
) -> (events: Vec<ConfigItemEvent<T>>)
    requires
        old(item_hashes).wf(),
        forall|s: &str| #[trigger] call_requires(deserialize, (s,)),
    ensures
        final(item_hashes).wf(),
        file_update_post(
            *tokenizer,
            deserialize,
            filename@,
            content@,
            old(item_hashes)@,
            final(item_hashes)@,
            item_event_views(events@),
        ),
{
    let fh = hash_str(filename.as_str());
    let toks = tokenizer.tokenize(content.as_str());
    let clean = trim_and_filter(toks);
    let ghost ctoks = clean.deep_view();
    let mut kept: Vec<NewItem<T>> = Vec::new();
    let mut idx: usize = 0;
    while idx < clean.len()
        invariant
            0 <= idx <= clean@.len(),
            ctoks == clean.deep_view(),
            ctoks.len() == clean@.len(),
            forall|s: &str| #[trigger] call_requires(deserialize, (s,)),
            distinct_hashes(kept@),
            forall|i: int|
                0 <= i < kept@.len() ==> #[trigger] kept_item_from(
                    deserialize,
                    ctoks,
                    idx as int,
                    kept@[i],
                ),
            forall|j: int|
                0 <= j < idx && #[trigger] must_deserialize(deserialize, ctoks[j])
                    ==> new_item_hashes(kept@).contains(hash_of(ctoks[j])),
        decreases clean@.len() - idx,
    {
        let s = clean[idx].as_str();
        proof {
            assert(s@ == ctoks[idx as int]);
        }
        let r = deserialize(s);
        let ghost r_g = r;
        match r {
            Ok(v) => {
                let h = hash_str(s);
                if !new_items_contain(&kept, h) {
                    let ghost pre = kept@;
                    kept.push(NewItem { hash: h, value: v });
                    proof {
                        assert(kept@ =~= pre.push(NewItem { hash: h, value: v }));
                        assert(new_item_hashes(kept@) =~= new_item_hashes(pre).push(h));
                        assert forall|a: int| 0 <= a < pre.len() implies pre[a].hash != h by {
                            assert(new_item_hashes(pre)[a] == pre[a].hash);
                        }
                        assert forall|a: int, b: int|
                            0 <= a < b < kept@.len() implies kept@[a].hash != kept@[b].hash by {
                            if b == kept@.len() - 1 {
                                assert(kept@[a] == pre[a]);
                            }
                        }
                        assert forall|i: int| 0 <= i < kept@.len() implies #[trigger] kept_item_from(
                            deserialize,
                            ctoks,
                            idx + 1,
                            kept@[i],
                        ) by {
                            if i == kept@.len() - 1 {
                                assert(s@ == ctoks[idx as int] && call_ensures(
                                    deserialize,
                                    (s,),
                                    Ok::<T, E>(v),
                                ));
                                assert(may_deserialize_to(
                                    deserialize,
                                    ctoks[idx as int],
                                    kept@[i].value,
                                ));
                                assert(0 <= idx < idx + 1 && hash_of(ctoks[idx as int])
                                    == kept@[i].hash && may_deserialize_to(
                                    deserialize,
                                    ctoks[idx as int],
                                    kept@[i].value,
                                ));
                            } else {
                                assert(kept@[i] == pre[i]);
                                lemma_kept_item_mono(
                                    deserialize,
                                    ctoks,
                                    idx as int,
                                    idx + 1,
                                    kept@[i],
                                );
                            }
                        }
                        assert forall|j: int|
                            0 <= j < idx + 1 && #[trigger] must_deserialize(
                                deserialize,
                                ctoks[j],
                            ) implies new_item_hashes(kept@).contains(hash_of(ctoks[j])) by {
                            if j < idx {
                                assert(new_item_hashes(pre).contains(hash_of(ctoks[j])));
                                let t = choose|t: int|
                                    0 <= t < new_item_hashes(pre).len() && new_item_hashes(
                                        pre,
                                    )[t] == hash_of(ctoks[j]);
                                assert(new_item_hashes(kept@)[t] == hash_of(ctoks[j]));
                            } else {
                                assert(new_item_hashes(kept@)[kept@.len() - 1] == hash_of(
                                    ctoks[j],
                                ));
                            }
                        }
                    }
                } else {
                    proof {
                        assert forall|i: int| 0 <= i < kept@.len() implies #[trigger] kept_item_from(
                            deserialize,
                            ctoks,
                            idx + 1,
                            kept@[i],
                        ) by {
                            lemma_kept_item_mono(
                                deserialize,
                                ctoks,
                                idx as int,
                                idx + 1,
                                kept@[i],
                            );
                        }
                    }
                }
            },
            Err(_) => {
                proof {
                    assert(!must_deserialize(deserialize, ctoks[idx as int])) by {
                        if must_deserialize(deserialize, ctoks[idx as int]) {
                            assert(s@ == ctoks[idx as int] && call_ensures(
                                deserialize,
                                (s,),
                                r_g,
                            ));
                            assert(r_g is Ok);
                            assert(false);
                        }
                    }
                    assert forall|i: int| 0 <= i < kept@.len() implies #[trigger] kept_item_from(
                        deserialize,
                        ctoks,
                        idx + 1,
                        kept@[i],
                    ) by {
                        lemma_kept_item_mono(deserialize, ctoks, idx as int, idx + 1, kept@[i]);
                    }
                }
            },
        }
        idx = idx + 1;
    }
    let ghost kept_g = kept@;
    proof {
        assert(idx == ctoks.len());
        assert(kept_matches(deserialize, ctoks, kept@)) by {
            assert(distinct_hashes(kept@));
            assert forall|i: int| 0 <= i < kept@.len() implies #[trigger] kept_item_from(
                deserialize,
                ctoks,
                ctoks.len() as int,
                kept@[i],
            ) by {
                assert(kept_item_from(deserialize, ctoks, idx as int, kept@[i]));
            }
        }
        assert(kept_matches(deserialize, ctoks, kept_g));
    }
    let events = apply_item_diff(item_hashes, fh, kept);
    proof {
        assert(ctoks == clean_spec(tokenizer.spec_tokenize(content@)));
        assert(kept_matches(deserialize, clean_spec(tokenizer.spec_tokenize(content@)), kept_g));
    }
    events
}

/// Applies one document event to the known item hashes.  A new document is
/// announced with a lifecycle marker before its items; a changed document
/// announces only its item changes; a removed document announces its items'
/// removals and then its lifecycle marker.
pub fn handle_config_file_event<T, E, Tk: Tokenizer, F: Fn(&str) -> Result<T, E>>(
    event: DocumentEvent,
    item_hashes: &mut ItemHashSet,
    tokenizer: &Tk,
    deserialize: F,
) -> (events: Vec<ConfigItemEvent<T>>)
    requires
        old(item_hashes).wf(),
        forall|s: &str| #[trigger] call_requires(deserialize, (s,)),
    ensures
        final(item_hashes).wf(),
        (match event {
            DocumentEvent::NewDocument(filename, content) => {
                &&& events@.len() >= 1
                &&& events@[0]@ == ItemEventSpec::<T>::NewDocument(hash_of(filename@), filename@)
                &&& file_update_post(
                    *tokenizer,
                    deserialize,
                    filename@,
                    content@,
                    old(item_hashes)@,
                    final(item_hashes)@,
                    item_event_views(events@).drop_first(),
                )
            },
            DocumentEvent::ContentChanged(filename, content) => file_update_post(
                *tokenizer,
                deserialize,
                filename@,
                content@,
                old(item_hashes)@,
                final(item_hashes)@,
                item_event_views(events@),
            ),
            DocumentEvent::DocumentRemoved(filename) => {
                &&& final(item_hashes)@ == kept_after_removal(
                    old(item_hashes)@,
                    hash_of(filename@),
                )
                &&& item_event_views(events@) == removed_item_events::<T>(
                    removed_for_file(old(item_hashes)@, hash_of(filename@)),
                ).push(ItemEventSpec::RemoveDocument(hash_of(filename@)))
            },
        }),
{
    match event {
        DocumentEvent::NewDocument(filename, content) => {
            let mut events = process_file(&filename, &content, item_hashes, tokenizer, deserialize);
            let ghost pre = events@;
            let fh = hash_str(filename.as_str());
            events.insert(0, ConfigItemEvent::NewDocument(fh, filename));
            proof {
                assert(events@.drop_first() =~= pre);
                assert(item_event_views(events@).drop_first() =~= item_event_views(pre));
                assert(events@[0]@ == ItemEventSpec::<T>::NewDocument(fh, events@[0]->NewDocument_1@));
            }
            events
        },
        DocumentEvent::ContentChanged(filename, content) => {
            process_file(&filename, &content, item_hashes, tokenizer, deserialize)
        },
        DocumentEvent::DocumentRemoved(filename) => {
            let mut events = file_removed(&filename, item_hashes);
            let ghost pre = events@;
            let fh = hash_str(filename.as_str());
            events.push(ConfigItemEvent::RemoveDocument(fh));
            proof {
                assert(item_event_views(events@) =~= item_event_views(pre).push(
                    ItemEventSpec::<T>::RemoveDocument(fh),
                ));
            }
            events
        },
    }
}

/// An item present before and after a document update causes no event: it is
/// not announced as removed, no new-item announcement carries its hash, and
/// it stays in the set.
pub proof fn lemma_unchanged_item_silent<T>(
    old_items: Seq<ConfigItemHash>,
    fh: u64,
    kept: Seq<NewItem<T>>,
    h: ConfigItemHash,
)
    requires
        old_items.contains(h),
        h.spec_filename_hash() == fh,
        new_item_hashes(kept).contains(h.spec_item_hash()),
    ensures
        !stale_for_file(old_items, fh, kept).contains(h),
        forall|i: int|
            0 <= i < fresh_for_file(old_items, fh, kept).len() ==> ConfigItemHash::spec_new(
                fh,
                fresh_for_file(old_items, fh, kept)[i].hash,
            ) != h,
        retained_after_update(old_items, fh, kept).contains(h),
{
    let stale = stale_for_file(old_items, fh, kept);
    if stale.contains(h) {
        let i = choose|i: int| 0 <= i < stale.len() && stale[i] == h;
        Seq::lemma_filter_pred(
            old_items,
            |x: ConfigItemHash|
                x.spec_filename_hash() == fh && !new_item_hashes(kept).contains(
                    x.spec_item_hash(),
                ),
            i,
        );
        assert(false);
    }
    let fresh = fresh_for_file(old_items, fh, kept);
    assert forall|i: int|
        0 <= i < fresh.len() implies ConfigItemHash::spec_new(fh, fresh[i].hash) != h by {
        Seq::lemma_filter_pred(
            kept,
            |ni: NewItem<T>| !old_items.contains(ConfigItemHash::spec_new(fh, ni.hash)),
            i,
        );
        if ConfigItemHash::spec_new(fh, fresh[i].hash) == h {
            assert(old_items.contains(h));
            assert(false);
        }
    }
    let j = choose|j: int| 0 <= j < old_items.len() && old_items[j] == h;
    Seq::lemma_filter_contains(
        old_items,
        |x: ConfigItemHash|
            x.spec_filename_hash() != fh || new_item_hashes(kept).contains(x.spec_item_hash()),
        j,
    );
}

/// Removing one document never announces or disturbs another document's
/// items: a known hash with a different document component is not among the
/// removals and stays in the set.
pub proof fn lemma_removal_isolation(items: Seq<ConfigItemHash>, fh: u64, h: ConfigItemHash)
    requires
        items.contains(h),
        h.spec_filename_hash() != fh,
    ensures
        !removed_for_file(items, fh).contains(h),
        kept_after_removal(items, fh).contains(h),
{
    let removed = removed_for_file(items, fh);
    if removed.contains(h) {
        let i = choose|i: int| 0 <= i < removed.len() && removed[i] == h;
        Seq::lemma_filter_pred(items, |x: ConfigItemHash| x.spec_filename_hash() == fh, i);
        assert(false);
    }
    let j = choose|j: int| 0 <= j < items.len() && items[j] == h;
    Seq::lemma_filter_contains(items, |x: ConfigItemHash| x.spec_filename_hash() != fh, j);
}

} // verus!
