//! The in-memory engine: entries kept in the order of their keys.

use crate::engine::{within_bounds, Engine, Scanner};
use crate::request::bound_view;
use crate::response::{items_view, ItemView};
use crate::status::{Error, StatusCode};
use crate::types::{
    lemma_lex_asymmetric, lemma_lex_irreflexive, lemma_lex_total, lemma_lex_transitive, lex_lt,
    lex_order, Entry, Key, Rank, Value,
};
use vstd::prelude::*;

verus! {

/// An entry as plain values: the bytes of its key and of its value.
pub type EntryView = (Seq<u8>, Seq<u8>);

/// The plain values of an entry.
pub open spec fn entry_view(entry: Entry) -> EntryView {
    (entry.0@, entry.1@)
}

/// The plain values of a sequence of entries.
pub open spec fn entries_view(entries: Seq<Entry>) -> Seq<EntryView> {
    entries.map_values(|entry: Entry| entry_view(entry))
}

/// Whether the keys of the entries ascend strictly, so that none comes
/// twice.
pub open spec fn ascending(entries: Seq<EntryView>) -> bool {
    forall|i: int, j: int|
        0 <= i < j < entries.len() ==> lex_lt((#[trigger] entries[i]).0, (#[trigger] entries[j]).0)
}

/// Whether an entry with the given key is at index `i`.
pub open spec fn key_at(entries: Seq<EntryView>, key: Seq<u8>, i: int) -> bool {
    0 <= i < entries.len() && entries[i].0 == key
}

/// Whether an entry with the given key is among the entries.
pub open spec fn has_key(entries: Seq<EntryView>, key: Seq<u8>) -> bool {
    exists|i: int| #[trigger] key_at(entries, key, i)
}

/// An index at which an entry with the given key is.
pub open spec fn index_of(entries: Seq<EntryView>, key: Seq<u8>) -> int {
    choose|i: int| #[trigger] key_at(entries, key, i)
}

/// The mapping that the entries stand for.
pub open spec fn as_map(entries: Seq<EntryView>) -> Map<Seq<u8>, Seq<u8>> {
    Map::new(
        |key: Seq<u8>| has_key(entries, key),
        |key: Seq<u8>| entries[index_of(entries, key)].1,
    )
}

/// Among ascending entries a key is at one index only, and the mapping
/// takes it to the value at that index.
pub proof fn lemma_key_at_unique(entries: Seq<EntryView>, key: Seq<u8>, i: int)
    requires
        ascending(entries),
        key_at(entries, key, i),
    ensures
        has_key(entries, key),
        index_of(entries, key) == i,
        as_map(entries).contains_key(key),
        as_map(entries)[key] == entries[i].1,
{
    let j = index_of(entries, key);
    assert(key_at(entries, key, j));
    lemma_lex_irreflexive(key);
    if j < i {
        assert(lex_lt(entries[j].0, entries[i].0));
    } else if i < j {
        assert(lex_lt(entries[i].0, entries[j].0));
    }
}

/// Where `key` falls between the entries before `at` and those from `at`
/// on, no entry has it.
pub proof fn lemma_gap_has_no_key(entries: Seq<EntryView>, key: Seq<u8>, at: int)
    requires
        ascending(entries),
        0 <= at <= entries.len(),
        forall|i: int| 0 <= i < at ==> lex_lt((#[trigger] entries[i]).0, key),
        forall|i: int| at <= i < entries.len() ==> lex_lt(key, (#[trigger] entries[i]).0),
    ensures
        !has_key(entries, key),
        !as_map(entries).contains_key(key),
{
    lemma_lex_irreflexive(key);
    assert forall|i: int| !#[trigger] key_at(entries, key, i) by {
        if key_at(entries, key, i) {
            if i < at {
                assert(lex_lt(entries[i].0, key));
            } else {
                assert(lex_lt(key, entries[i].0));
            }
        }
    }
}

/// An entry put into the gap where its key falls keeps the entries
/// ascending and adds the key to the mapping.
pub proof fn lemma_insert_entry(entries: Seq<EntryView>, entry: EntryView, at: int)
    requires
        ascending(entries),
        0 <= at <= entries.len(),
        forall|i: int| 0 <= i < at ==> lex_lt((#[trigger] entries[i]).0, entry.0),
        forall|i: int| at <= i < entries.len() ==> lex_lt(entry.0, (#[trigger] entries[i]).0),
    ensures
        ascending(entries.insert(at, entry)),
        as_map(entries.insert(at, entry)) == as_map(entries).insert(entry.0, entry.1),
{
    let after = entries.insert(at, entry);
    assert forall|i: int, j: int| 0 <= i < j < after.len() implies lex_lt(
        (#[trigger] after[i]).0,
        (#[trigger] after[j]).0,
    ) by {
        let a = if i < at {
            i
        } else {
            i - 1
        };
        let b = if j < at {
            j
        } else {
            j - 1
        };
        if i != at && j != at {
            assert(lex_lt(entries[a].0, entries[b].0));
        } else if i == at {
            assert(lex_lt(entry.0, entries[b].0));
        } else {
            assert(lex_lt(entries[a].0, entry.0));
        }
    }
    lemma_gap_has_no_key(entries, entry.0, at);
    assert(key_at(after, entry.0, at));
    lemma_key_at_unique(after, entry.0, at);
    assert forall|key: Seq<u8>| #[trigger]
        as_map(after).contains_key(key) == as_map(entries).insert(entry.0, entry.1).contains_key(
            key,
        ) by {
        if key != entry.0 {
            if has_key(entries, key) {
                let i = index_of(entries, key);
                assert(key_at(entries, key, i));
                assert(key_at(after, key, if i < at {
                    i
                } else {
                    i + 1
                }));
            }
            if has_key(after, key) {
                let i = index_of(after, key);
                assert(key_at(after, key, i));
                assert(key_at(entries, key, if i < at {
                    i
                } else {
                    i - 1
                }));
            }
        }
    }
    assert forall|key: Seq<u8>| #[trigger] as_map(after).contains_key(key) implies as_map(
        after,
    )[key] == as_map(entries).insert(entry.0, entry.1)[key] by {
        if key != entry.0 {
            let i = index_of(entries, key);
            assert(key_at(entries, key, i));
            let j = if i < at {
                i
            } else {
                i + 1
            };
            assert(key_at(after, key, j));
            lemma_key_at_unique(after, key, j);
            lemma_key_at_unique(entries, key, i);
        }
    }
    assert(as_map(after) =~= as_map(entries).insert(entry.0, entry.1));
}

/// A value put in place of the value of an entry keeps the entries
/// ascending and changes the mapping at that key only.
pub proof fn lemma_replace_entry(entries: Seq<EntryView>, entry: EntryView, at: int)
    requires
        ascending(entries),
        key_at(entries, entry.0, at),
    ensures
        ascending(entries.update(at, entry)),
        as_map(entries.update(at, entry)) == as_map(entries).insert(entry.0, entry.1),
{
    let after = entries.update(at, entry);
    assert forall|i: int, j: int| 0 <= i < j < after.len() implies lex_lt(
        (#[trigger] after[i]).0,
        (#[trigger] after[j]).0,
    ) by {
        assert(lex_lt(entries[i].0, entries[j].0));
    }
    assert(key_at(after, entry.0, at));
    lemma_key_at_unique(after, entry.0, at);
    lemma_key_at_unique(entries, entry.0, at);
    assert forall|key: Seq<u8>| #[trigger]
        as_map(after).contains_key(key) == as_map(entries).insert(entry.0, entry.1).contains_key(
            key,
        ) by {
        if has_key(entries, key) {
            let i = index_of(entries, key);
            assert(key_at(entries, key, i));
            assert(key_at(after, key, i));
        }
        if has_key(after, key) {
            let i = index_of(after, key);
            assert(key_at(after, key, i));
            assert(key_at(entries, key, i));
        }
    }
    assert forall|key: Seq<u8>| #[trigger] as_map(after).contains_key(key) implies as_map(
        after,
    )[key] == as_map(entries).insert(entry.0, entry.1)[key] by {
        if key != entry.0 {
            let i = index_of(entries, key);
            assert(key_at(entries, key, i));
            assert(key_at(after, key, i));
            lemma_key_at_unique(after, key, i);
            lemma_key_at_unique(entries, key, i);
        }
    }
    assert(as_map(after) =~= as_map(entries).insert(entry.0, entry.1));
}

/// An entry taken out keeps the entries ascending and takes its key out
/// of the mapping.
pub proof fn lemma_remove_entry(entries: Seq<EntryView>, at: int)
    requires
        ascending(entries),
        0 <= at < entries.len(),
    ensures
        ascending(entries.remove(at)),
        as_map(entries.remove(at)) == as_map(entries).remove(entries[at].0),
{
    let after = entries.remove(at);
    let gone = entries[at].0;
    assert forall|i: int, j: int| 0 <= i < j < after.len() implies lex_lt(
        (#[trigger] after[i]).0,
        (#[trigger] after[j]).0,
    ) by {
        let a = if i < at {
            i
        } else {
            i + 1
        };
        let b = if j < at {
            j
        } else {
            j + 1
        };
        assert(lex_lt(entries[a].0, entries[b].0));
    }
    assert forall|i: int| 0 <= i < at implies lex_lt((#[trigger] after[i]).0, gone) by {
        assert(lex_lt(entries[i].0, entries[at].0));
    }
    assert forall|i: int| at <= i < after.len() implies lex_lt(gone, (#[trigger] after[i]).0) by {
        assert(lex_lt(entries[at].0, entries[i + 1].0));
    }
    lemma_gap_has_no_key(after, gone, at);
    assert forall|key: Seq<u8>| #[trigger]
        as_map(after).contains_key(key) == as_map(entries).remove(gone).contains_key(key) by {
        if key != gone {
            if has_key(entries, key) {
                let i = index_of(entries, key);
                assert(key_at(entries, key, i));
                assert(key_at(after, key, if i < at {
                    i
                } else {
                    i - 1
                }));
            }
            if has_key(after, key) {
                let i = index_of(after, key);
                assert(key_at(after, key, i));
                assert(key_at(entries, key, if i < at {
                    i
                } else {
                    i + 1
                }));
            }
        }
    }
    assert forall|key: Seq<u8>| #[trigger] as_map(after).contains_key(key) implies as_map(
        after,
    )[key] == as_map(entries).remove(gone)[key] by {
        let i = index_of(entries, key);
        assert(key_at(entries, key, i));
        let j = if i < at {
            i
        } else {
            i - 1
        };
        assert(key_at(after, key, j));
        lemma_key_at_unique(after, key, j);
        lemma_key_at_unique(entries, key, i);
    }
    assert(as_map(after) =~= as_map(entries).remove(gone));
}

/// The entries whose keys lie within the bounds, in their order.
pub open spec fn range_entries(
    entries: Seq<EntryView>,
    lower_bound: Option<Seq<u8>>,
    upper_bound: Option<Seq<u8>>,
) -> Seq<EntryView> {
    entries.filter(|entry: EntryView| within_bounds(entry.0, lower_bound, upper_bound))
}

/// The entries as items of a scan, none of which is a failure.
pub open spec fn as_items(entries: Seq<EntryView>) -> Seq<ItemView> {
    entries.map_values(|entry: EntryView| Ok::<EntryView, StatusCode>(entry))
}

/// The range of the entries with one more entry at their end: that entry
/// is added to the range where its key lies within the bounds.
pub proof fn lemma_range_push(
    entries: Seq<EntryView>,
    entry: EntryView,
    lower_bound: Option<Seq<u8>>,
    upper_bound: Option<Seq<u8>>,
)
    ensures
        range_entries(entries.push(entry), lower_bound, upper_bound) == if within_bounds(
            entry.0,
            lower_bound,
            upper_bound,
        ) {
            range_entries(entries, lower_bound, upper_bound).push(entry)
        } else {
            range_entries(entries, lower_bound, upper_bound)
        },
{
    reveal(Seq::filter);
    assert(entries.push(entry).drop_last() =~= entries);
}

/// What the range of ascending entries holds: its entries ascend, each is
/// one of the entries and lies within the bounds, and every entry within
/// the bounds is in it.
pub proof fn lemma_range_holds(
    entries: Seq<EntryView>,
    lower_bound: Option<Seq<u8>>,
    upper_bound: Option<Seq<u8>>,
)
    requires
        ascending(entries),
    ensures
        ascending(range_entries(entries, lower_bound, upper_bound)),
        forall|i: int|
            0 <= i < range_entries(entries, lower_bound, upper_bound).len() ==> {
                let entry = #[trigger] range_entries(entries, lower_bound, upper_bound)[i];
                &&& within_bounds(entry.0, lower_bound, upper_bound)
                &&& has_key(entries, entry.0)
                &&& entries[index_of(entries, entry.0)] == entry
            },
        forall|j: int|
            0 <= j < entries.len() && within_bounds(
                (#[trigger] entries[j]).0,
                lower_bound,
                upper_bound,
            ) ==> range_entries(entries, lower_bound, upper_bound).contains(entries[j]),
    decreases entries.len(),
{
    let range = range_entries(entries, lower_bound, upper_bound);
    if entries.len() == 0 {
        reveal(Seq::filter);
    } else {
        let front = entries.drop_last();
        let last = entries.last();
        let front_range = range_entries(front, lower_bound, upper_bound);
        assert(front.push(last) =~= entries);
        lemma_range_push(front, last, lower_bound, upper_bound);
        assert(ascending(front)) by {
            assert forall|i: int, j: int| 0 <= i < j < front.len() implies lex_lt(
                (#[trigger] front[i]).0,
                (#[trigger] front[j]).0,
            ) by {
                assert(lex_lt(entries[i].0, entries[j].0));
            }
        }
        lemma_range_holds(front, lower_bound, upper_bound);
        assert forall|i: int| 0 <= i < range.len() implies {
            let entry = #[trigger] range[i];
            &&& within_bounds(entry.0, lower_bound, upper_bound)
            &&& has_key(entries, entry.0)
            &&& entries[index_of(entries, entry.0)] == entry
        } by {
            let entry = range[i];
            if i < front_range.len() {
                assert(entry == front_range[i]);
                let k = index_of(front, entry.0);
                assert(key_at(front, entry.0, k));
                assert(key_at(entries, entry.0, k));
                lemma_key_at_unique(entries, entry.0, k);
            } else {
                assert(entry == last);
                assert(key_at(entries, entry.0, entries.len() - 1));
                lemma_key_at_unique(entries, entry.0, entries.len() - 1);
            }
        }
        assert forall|i: int, j: int| 0 <= i < j < range.len() implies lex_lt(
            (#[trigger] range[i]).0,
            (#[trigger] range[j]).0,
        ) by {
            if j < front_range.len() {
                assert(lex_lt(front_range[i].0, front_range[j].0));
            } else {
                let entry = front_range[i];
                let k = index_of(front, entry.0);
                assert(key_at(front, entry.0, k));
                assert(lex_lt(entries[k].0, entries[entries.len() - 1].0));
            }
        }
        assert forall|j: int|
            0 <= j < entries.len() && within_bounds(
                (#[trigger] entries[j]).0,
                lower_bound,
                upper_bound,
            ) implies range.contains(entries[j]) by {
            if j < front.len() {
                assert(front[j] == entries[j]);
                assert(front_range.contains(front[j]));
                let k = choose|k: int| 0 <= k < front_range.len() && front_range[k] == front[j];
                assert(range[k] == entries[j]);
            } else {
                assert(range[range.len() - 1] == entries[j]);
            }
        }
    }
}

/// The entries of `entries` whose keys lie within the bounds, in their
/// order.
pub fn filter_entries(
    entries: &Vec<Entry>,
    lower_bound: &Option<Key>,
    upper_bound: &Option<Key>,
) -> (filtered: Vec<Entry>)
    ensures
        entries_view(filtered@) == range_entries(
            entries_view(entries@),
            bound_view(*lower_bound),
            bound_view(*upper_bound),
        ),
{
    let ghost view = entries_view(entries@);
    let ghost lower = bound_view(*lower_bound);
    let ghost upper = bound_view(*upper_bound);
    let mut filtered: Vec<Entry> = Vec::new();
    let mut i: usize = 0;
    proof {
        reveal(Seq::filter);
        assert(view.take(0) =~= Seq::<EntryView>::empty());
        assert(entries_view(filtered@) =~= Seq::<EntryView>::empty());
    }
    while i < entries.len()
        invariant
            i <= entries@.len(),
            view == entries_view(entries@),
            lower == bound_view(*lower_bound),
            upper == bound_view(*upper_bound),
            entries_view(filtered@) == range_entries(view.take(i as int), lower, upper),
        decreases entries@.len() - i,
    {
        let entry = &entries[i];
        let above = match lower_bound {
            Some(lower_key) => lower_key.le(&entry.0),
            None => true,
        };
        let below = match upper_bound {
            Some(upper_key) => entry.0.le(upper_key),
            None => true,
        };
        proof {
            assert(view.take(i + 1) =~= view.take(i as int).push(view[i as int]));
            lemma_range_push(view.take(i as int), view[i as int], lower, upper);
        }
        if above && below {
            let ghost before = entries_view(filtered@);
            filtered.push((entry.0.clone(), entry.1.clone()));
            assert(entries_view(filtered@) =~= before.push(view[i as int]));
        }
        i += 1;
    }
    assert(view.take(i as int) =~= view);
    filtered
}

/// A scan without bounds gives every entry.
pub proof fn lemma_unbounded_range(entries: Seq<EntryView>)
    ensures
        range_entries(entries, None, None) == entries,
    decreases entries.len(),
{
    if entries.len() == 0 {
        reveal(Seq::filter);
        assert(range_entries(entries, None, None) =~= entries);
    } else {
        lemma_unbounded_range(entries.drop_last());
        lemma_range_push(entries.drop_last(), entries.last(), None, None);
        assert(entries.drop_last().push(entries.last()) =~= entries);
    }
}

/// The range of ascending entries answers a scan of the mapping that
/// the entries stand for.
pub proof fn lemma_range_answers_scan(
    entries: Seq<EntryView>,
    lower_bound: Option<Seq<u8>>,
    upper_bound: Option<Seq<u8>>,
)
    requires
        ascending(entries),
    ensures
        crate::engine::answers_scan(
            as_items(range_entries(entries, lower_bound, upper_bound)),
            as_map(entries),
            lower_bound,
            upper_bound,
        ),
{
    let range = range_entries(entries, lower_bound, upper_bound);
    let items = as_items(range);
    let contents = as_map(entries);
    lemma_range_holds(entries, lower_bound, upper_bound);
    assert forall|i: int| 0 <= i < items.len() && (#[trigger] items[i]) is Ok implies {
        let entry = items[i]->Ok_0;
        &&& contents.contains_key(entry.0)
        &&& contents[entry.0] == entry.1
        &&& within_bounds(entry.0, lower_bound, upper_bound)
    } by {
        let entry = range[i];
        let k = index_of(entries, entry.0);
        assert(key_at(entries, entry.0, k));
        lemma_key_at_unique(entries, entry.0, k);
    }
    assert forall|i: int, j: int|
        0 <= i < j < items.len() && (#[trigger] items[i]) is Ok && (#[trigger] items[j])
            is Ok implies items[i]->Ok_0.0 != items[j]->Ok_0.0 by {
        assert(lex_lt(range[i].0, range[j].0));
        lemma_lex_asymmetric(range[i].0, range[j].0);
    }
    assert forall|key: Seq<u8>|
        #![trigger contents.contains_key(key)]
        contents.contains_key(key) && within_bounds(key, lower_bound, upper_bound) implies exists|
            i: int,
        |
            0 <= i < items.len() && (#[trigger] items[i]) == Ok::<EntryView, StatusCode>(
                (key, contents[key]),
            ) by {
        let j = index_of(entries, key);
        assert(key_at(entries, key, j));
        lemma_key_at_unique(entries, key, j);
        assert(range.contains(entries[j]));
        let k = choose|k: int| 0 <= k < range.len() && range[k] == entries[j];
        assert(items[k] == Ok::<EntryView, StatusCode>((key, contents[key])));
    }
}

/// The answer of the in-memory engine to a scan: the entries as they were
/// stored when the scan was made, and the bounds, which are applied when
/// the items are given out.
pub struct GuardScanner {
    entries: Vec<Entry>,
    lower_bound: Option<Key>,
    upper_bound: Option<Key>,
    given: bool,
}

impl GuardScanner {
    /// The entries that the scan was made over.
    pub closed spec fn snapshot(&self) -> Seq<EntryView> {
        entries_view(self.entries@)
    }

    /// The lower bound of the scan.
    pub closed spec fn lower(&self) -> Option<Seq<u8>> {
        bound_view(self.lower_bound)
    }

    /// The upper bound of the scan.
    pub closed spec fn upper(&self) -> Option<Seq<u8>> {
        bound_view(self.upper_bound)
    }

    /// Whether the items have been given out.
    pub closed spec fn is_given(&self) -> bool {
        self.given
    }

    /// A scanner over `entries` between the bounds.
    pub fn new(entries: Vec<Entry>, lower_bound: Option<Key>, upper_bound: Option<Key>) -> (scanner:
        GuardScanner)
        ensures
            scanner.snapshot() == entries_view(entries@),
            scanner.lower() == bound_view(lower_bound),
            scanner.upper() == bound_view(upper_bound),
            !scanner.is_given(),
    {
        GuardScanner { entries, lower_bound, upper_bound, given: false }
    }
}

impl Scanner for GuardScanner {
    open spec fn modelled(&self) -> bool {
        true
    }

    open spec fn pending(&self) -> Seq<ItemView> {
        if self.is_given() {
            Seq::empty()
        } else {
            as_items(range_entries(self.snapshot(), self.lower(), self.upper()))
        }
    }

    fn iter(&mut self) -> (items: Vec<Result<Entry, Error>>)
        ensures
            final(self).is_given(),
            final(self).snapshot() == old(self).snapshot(),
    {
        let mut items: Vec<Result<Entry, Error>> = Vec::new();
        if self.given {
            assert(items_view(items@) =~= Seq::<ItemView>::empty());
            return items;
        }
        let filtered = filter_entries(&self.entries, &self.lower_bound, &self.upper_bound);
        let ghost range = entries_view(filtered@);
        self.given = true;
        assert(items_view(items@) =~= as_items(range.take(0)));
        for entry in taken: filtered
            invariant
                range == entries_view(taken.seq()),
                items_view(items@) == as_items(range.take(taken.index() as int)),
        {
            let ghost before = items_view(items@);
            let ghost n = taken.index() as int;
            items.push(Ok(entry));
            assert(range.take(n + 1) =~= range.take(n).push(range[n]));
            assert(items_view(items@) =~= before.push(Ok::<EntryView, StatusCode>(range[n])));
            assert(items_view(items@) =~= as_items(range.take(n + 1)));
        }
        assert(range.take(range.len() as int) =~= range);
        items
    }
}

/// The in-memory engine. It holds its entries in the order of their keys,
/// each key once.
pub struct EngineImpl {
    entries: Vec<Entry>,
}

impl EngineImpl {
    #[verifier::type_invariant]
    spec fn keys_ascend(self) -> bool {
        ascending(entries_view(self.entries@))
    }

    /// The stored entries, in the order of their keys.
    pub closed spec fn entries(&self) -> Seq<EntryView> {
        entries_view(self.entries@)
    }

    /// An engine that holds nothing.
    pub fn new() -> (engine: EngineImpl)
        ensures
            engine.entries() == Seq::<EntryView>::empty(),
            engine.contents() == Map::<Seq<u8>, Seq<u8>>::empty(),
    {
        let engine = EngineImpl { entries: Vec::new() };
        assert(engine.entries() =~= Seq::<EntryView>::empty());
        assert(engine.contents() =~= Map::<Seq<u8>, Seq<u8>>::empty()) by {
            assert forall|key: Seq<u8>| !has_key(engine.entries(), key) by {
                assert forall|i: int| !#[trigger] key_at(engine.entries(), key, i) by {}
            }
        }
        engine
    }

    /// The number of entries stored.
    pub fn len(&self) -> (len: usize)
        ensures
            len == self.entries().len(),
    {
        self.entries.len()
    }

    /// The index of the first entry whose key does not come before `key`,
    /// and whether that entry has the key.
    fn search(&self, key: &Key) -> (found: (usize, bool))
        ensures
            found.0 <= self.entries().len(),
            forall|i: int| 0 <= i < found.0 ==> lex_lt((#[trigger] self.entries()[i]).0, key@),
            found.1 ==> key_at(self.entries(), key@, found.0 as int),
            !found.1 ==> forall|i: int|
                found.0 <= i < self.entries().len() ==> lex_lt(
                    key@,
                    (#[trigger] self.entries()[i]).0,
                ),
            ascending(self.entries()),
    {
        proof {
            use_type_invariant(self);
        }
        let ghost view = self.entries();
        let mut low: usize = 0;
        let mut high: usize = self.entries.len();
        while low < high
            invariant
                low <= high <= view.len(),
                view == entries_view(self.entries@),
                ascending(view),
                forall|i: int| 0 <= i < low ==> lex_lt((#[trigger] view[i]).0, key@),
                forall|i: int| high <= i < view.len() ==> !lex_lt((#[trigger] view[i]).0, key@),
            decreases high - low,
        {
            let middle = low + (high - low) / 2;
            match lex_order(self.entries[middle].0.as_slice(), key.as_slice()) {
                Rank::Before => {
                    assert forall|i: int| 0 <= i < middle + 1 implies lex_lt(
                        (#[trigger] view[i]).0,
                        key@,
                    ) by {
                        if i < middle {
                            assert(lex_lt(view[i].0, view[middle as int].0));
                            lemma_lex_transitive(view[i].0, view[middle as int].0, key@);
                        }
                    }
                    low = middle + 1;
                },
                _ => {
                    assert forall|i: int| middle <= i < view.len() implies !lex_lt(
                        (#[trigger] view[i]).0,
                        key@,
                    ) by {
                        if i > middle && lex_lt(view[i].0, key@) {
                            assert(lex_lt(view[middle as int].0, view[i].0));
                            lemma_lex_transitive(view[middle as int].0, view[i].0, key@);
                        }
                    }
                    high = middle;
                },
            }
        }
        if low < self.entries.len() {
            match lex_order(self.entries[low].0.as_slice(), key.as_slice()) {
                Rank::Same => {
                    return (low, true);
                },
                _ => {},
            }
        }
        assert forall|i: int| low <= i < view.len() implies lex_lt(
            key@,
            (#[trigger] view[i]).0,
        ) by {
            lemma_lex_total(view[i].0, key@);
            if view[i].0 == key@ {
                if i > low {
                    assert(lex_lt(view[low as int].0, view[i].0));
                }
            }
        }
        (low, false)
    }
}

impl Engine for EngineImpl {
    type Scanner = GuardScanner;

    open spec fn modelled(&self) -> bool {
        true
    }

    open spec fn contents(&self) -> Map<Seq<u8>, Seq<u8>> {
        as_map(self.entries())
    }

    open spec fn never_fails(&self) -> bool {
        true
    }

    /// Stores `value` under `key`, and keeps the entries in the order of
    /// their keys.
    fn set(&mut self, key: Key, value: Value) -> (result: Result<(), Error>)
        ensures
            ascending(final(self).entries()),
    {
        let (at, found) = self.search(&key);
        let ghost before = self.entries();
        let ghost entry = (key@, value@);
        let mut entries: Vec<Entry> = Vec::new();
        assert(entries_view(entries@) =~= Seq::<EntryView>::empty());
        core::mem::swap(&mut self.entries, &mut entries);
        if found {
            entries.set(at, (key, value));
            proof {
                lemma_replace_entry(before, entry, at as int);
                assert(entries_view(entries@) =~= before.update(at as int, entry));
            }
        } else {
            entries.insert(at, (key, value));
            proof {
                lemma_insert_entry(before, entry, at as int);
                assert(entries_view(entries@) =~= before.insert(at as int, entry));
            }
        }
        core::mem::swap(&mut self.entries, &mut entries);
        Ok(())
    }

    /// The value stored under `key`.
    fn get(&self, key: Key) -> (result: Result<Option<Value>, Error>) {
        let (at, found) = self.search(&key);
        if found {
            proof {
                lemma_key_at_unique(self.entries(), key@, at as int);
            }
            Ok(Some(self.entries[at].1.clone()))
        } else {
            proof {
                lemma_gap_has_no_key(self.entries(), key@, at as int);
            }
            Ok(None)
        }
    }

    /// Removes what is stored under `key`, and keeps the entries in the
    /// order of their keys.
    fn delete(&mut self, key: Key) -> (result: Result<(), Error>)
        ensures
            ascending(final(self).entries()),
    {
        let (at, found) = self.search(&key);
        if found {
            let ghost before = self.entries();
            let mut entries: Vec<Entry> = Vec::new();
            assert(entries_view(entries@) =~= Seq::<EntryView>::empty());
            core::mem::swap(&mut self.entries, &mut entries);
            entries.remove(at);
            proof {
                lemma_remove_entry(before, at as int);
                assert(entries_view(entries@) =~= before.remove(at as int));
            }
            core::mem::swap(&mut self.entries, &mut entries);
        } else {
            proof {
                lemma_gap_has_no_key(self.entries(), key@, at as int);
                assert(self.contents().remove(key@) =~= self.contents());
            }
        }
        Ok(())
    }

    /// A scanner over the entries as they are stored now, which later
    /// changes to the engine do not reach. The items come in the order of
    /// their keys.
    fn scan(&self, lower_bound: Option<Key>, upper_bound: Option<Key>) -> (result: Result<
        GuardScanner,
        Error,
    >)
        ensures
            result.unwrap().pending() == as_items(
                range_entries(self.entries(), bound_view(lower_bound), bound_view(upper_bound)),
            ),
            ascending(self.entries()),
    {
        proof {
            use_type_invariant(self);
            lemma_range_answers_scan(
                self.entries(),
                bound_view(lower_bound),
                bound_view(upper_bound),
            );
        }
        let mut snapshot: Vec<Entry> = Vec::new();
        let mut i: usize = 0;
        assert(entries_view(snapshot@) =~= self.entries().take(0));
        while i < self.entries.len()
            invariant
                i <= self.entries@.len(),
                entries_view(snapshot@) == entries_view(self.entries@).take(i as int),
            decreases self.entries@.len() - i,
        {
            let ghost before = entries_view(snapshot@);
            let entry = &self.entries[i];
            snapshot.push((entry.0.clone(), entry.1.clone()));
            assert(entries_view(snapshot@) =~= before.push(entries_view(self.entries@)[i as int]));
            assert(entries_view(self.entries@).take(i + 1) =~= entries_view(self.entries@).take(
                i as int,
            ).push(entries_view(self.entries@)[i as int]));
            i += 1;
        }
        assert(entries_view(self.entries@).take(i as int) =~= entries_view(self.entries@));
        Ok(GuardScanner::new(snapshot, lower_bound, upper_bound))
    }
}

} // verus!
