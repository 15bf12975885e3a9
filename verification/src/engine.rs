//! The contract of a storage engine: what every backing store offers.

use crate::response::{items_view, ItemView};
use crate::status::{Error, StatusCode};
use crate::types::{lex_le, Entry, Key, Value};
use vstd::prelude::*;

verus! {

/// Whether `key` lies within the bounds, both of which are inclusive; a
/// bound that is absent admits every key.
pub open spec fn within_bounds(
    key: Seq<u8>,
    lower_bound: Option<Seq<u8>>,
    upper_bound: Option<Seq<u8>>,
) -> bool {
    &&& lower_bound matches Some(lower) ==> lex_le(lower, key)
    &&& upper_bound matches Some(upper) ==> lex_le(key, upper)
}

/// Whether `items` may answer a scan of `contents` between the bounds:
/// every entry among them is stored and lies within the bounds, no key
/// comes twice, and where no item is a failure every stored entry within
/// the bounds is among them. The order of the items is left open.
pub open spec fn answers_scan(
    items: Seq<ItemView>,
    contents: Map<Seq<u8>, Seq<u8>>,
    lower_bound: Option<Seq<u8>>,
    upper_bound: Option<Seq<u8>>,
) -> bool {
    &&& forall|i: int|
        0 <= i < items.len() && (#[trigger] items[i]) is Ok ==> {
            let entry = items[i]->Ok_0;
            &&& contents.contains_key(entry.0)
            &&& contents[entry.0] == entry.1
            &&& within_bounds(entry.0, lower_bound, upper_bound)
        }
    &&& forall|i: int, j: int|
        0 <= i < j < items.len() && (#[trigger] items[i]) is Ok && (#[trigger] items[j]) is Ok
            ==> items[i]->Ok_0.0 != items[j]->Ok_0.0
    &&& (forall|i: int| 0 <= i < items.len() ==> (#[trigger] items[i]) is Ok) ==> forall|
        key: Seq<u8>,
    |
        #![trigger contents.contains_key(key)]
        contents.contains_key(key) && within_bounds(key, lower_bound, upper_bound) ==> exists|
            i: int,
        |
            0 <= i < items.len() && (#[trigger] items[i]) == Ok::<(Seq<u8>, Seq<u8>), StatusCode>(
                (key, contents[key]),
            )
}

/// The answer to a scan: a sequence of items that is given out once.
///
/// The functions `modelled` and `pending` are the scanner's model. A
/// scanner written outside verified code leaves them as they are here, and
/// nothing is then claimed of it.
pub trait Scanner {
    /// Whether `pending` says what this scanner has yet to give.
    open spec fn modelled(&self) -> bool {
        false
    }

    /// The items that the scanner has yet to give.
    open spec fn pending(&self) -> Seq<ItemView> {
        Seq::empty()
    }

    /// Gives the items of the scan, in the scanner's order; after that
    /// nothing is pending.
    fn iter(&mut self) -> (items: Vec<Result<Entry, Error>>)
        ensures
            final(self).modelled() == old(self).modelled(),
            old(self).modelled() ==> items_view(items@) == old(self).pending(),
            old(self).modelled() ==> final(self).pending() == Seq::<ItemView>::empty(),
    ;
}

/// A store of values under keys.
///
/// The functions `modelled`, `contents` and `never_fails` are the engine's
/// model. What a call does to the contents, it does where the engine is
/// modelled and the call returns `Ok`; when a call fails is the engine's
/// own matter, unless the engine is one that never fails. An engine
/// written outside verified code leaves the three as they are here, and
/// nothing is then claimed of it.
pub trait Engine {
    /// The scanner that this engine answers a scan with.
    type Scanner: Scanner;

    /// Whether `contents` says what this engine holds.
    open spec fn modelled(&self) -> bool {
        false
    }

    /// The mapping that the engine holds.
    open spec fn contents(&self) -> Map<Seq<u8>, Seq<u8>> {
        Map::empty()
    }

    /// Whether no call of this engine ever fails, as it is true of a store
    /// that does no input or output and shares no lock.
    open spec fn never_fails(&self) -> bool {
        false
    }

    /// Stores `value` under `key`, in place of what was stored there.
    fn set(&mut self, key: Key, value: Value) -> (result: Result<(), Error>)
        ensures
            final(self).modelled() == old(self).modelled(),
            final(self).never_fails() == old(self).never_fails(),
            old(self).modelled() && result.is_ok() ==> final(self).contents() == old(
                self,
            ).contents().insert(key@, value@),
            old(self).never_fails() ==> result.is_ok(),
    ;

    /// The value stored under `key`, or `None` where there is none.
    fn get(&self, key: Key) -> (result: Result<Option<Value>, Error>)
        ensures
            self.modelled() && result.is_ok() ==> match result.unwrap() {
                Some(value) => self.contents().contains_key(key@) && self.contents()[key@]
                    == value@,
                None => !self.contents().contains_key(key@),
            },
            self.never_fails() ==> result.is_ok(),
    ;

    /// Removes what is stored under `key`; an absent key is no error.
    fn delete(&mut self, key: Key) -> (result: Result<(), Error>)
        ensures
            final(self).modelled() == old(self).modelled(),
            final(self).never_fails() == old(self).never_fails(),
            old(self).modelled() && result.is_ok() ==> final(self).contents() == old(
                self,
            ).contents().remove(key@),
            old(self).never_fails() ==> result.is_ok(),
    ;

    /// The stored entries whose keys lie within the bounds, as they are
    /// stored at the time of the call.
    fn scan(&self, lower_bound: Option<Key>, upper_bound: Option<Key>) -> (result: Result<
        Self::Scanner,
        Error,
    >)
        ensures
            self.modelled() && result.is_ok() ==> result.unwrap().modelled() && answers_scan(
                result.unwrap().pending(),
                self.contents(),
                crate::request::bound_view(lower_bound),
                crate::request::bound_view(upper_bound),
            ),
            self.never_fails() ==> result.is_ok(),
    ;
}

/// Idempotence of `set`: storing a value under a key a second time
/// changes nothing, and the key then holds that value.
pub proof fn lemma_set_is_idempotent(contents: Map<Seq<u8>, Seq<u8>>, key: Seq<u8>, value: Seq<u8>)
    ensures
        contents.insert(key, value).insert(key, value) == contents.insert(key, value),
        contents.insert(key, value).contains_key(key),
        contents.insert(key, value)[key] == value,
{
    assert(contents.insert(key, value).insert(key, value) =~= contents.insert(key, value));
}

/// Idempotence of `delete`: removing a key a second time changes nothing,
/// and removing a key that is absent changes nothing either.
pub proof fn lemma_delete_is_idempotent(contents: Map<Seq<u8>, Seq<u8>>, key: Seq<u8>)
    ensures
        contents.remove(key).remove(key) == contents.remove(key),
        !contents.remove(key).contains_key(key),
        !contents.contains_key(key) ==> contents.remove(key) == contents,
{
    assert(contents.remove(key).remove(key) =~= contents.remove(key));
    if !contents.contains_key(key) {
        assert(contents.remove(key) =~= contents);
    }
}

/// The bounds of a scan are inclusive: a key that is one of the bounds
/// lies within them, where the lower bound does not come after the upper.
pub proof fn lemma_bounds_are_inclusive(lower: Seq<u8>, upper: Seq<u8>)
    requires
        lex_le(lower, upper),
    ensures
        within_bounds(lower, Some(lower), Some(upper)),
        within_bounds(upper, Some(lower), Some(upper)),
{
}

} // verus!
