//! Keys, values and entries, and the order of keys.

use core::cmp::Ordering;
use vstd::prelude::*;

verus! {

/// A value: an owned byte string, on which no order is defined.
pub type Value = Vec<u8>;

/// A key with the value stored under it: the unit of a scan.
pub type Entry = (Key, Value);

/// How one byte string stands to another in the order of keys.
#[derive(Debug, Copy, Clone, PartialEq, Eq, Structural)]
pub enum Rank {
    Before,
    Same,
    After,
}

/// `a` and `b` agree on their first `i` bytes and `a` has the smaller byte
/// at index `i`.
pub open spec fn precedes_at(a: Seq<u8>, b: Seq<u8>, i: int) -> bool {
    &&& 0 <= i < a.len()
    &&& i < b.len()
    &&& a.take(i) == b.take(i)
    &&& a[i] < b[i]
}

/// `a` is `b` cut short: shorter, and equal to the start of `b`.
pub open spec fn is_strict_prefix(a: Seq<u8>, b: Seq<u8>) -> bool {
    a.len() < b.len() && b.take(a.len() as int) == a
}

/// The strict lexicographic order of byte strings: `a` comes first where
/// it is a strict prefix of `b`, or where it has the smaller byte at the
/// first index at which the two differ.
pub open spec fn lex_lt(a: Seq<u8>, b: Seq<u8>) -> bool {
    is_strict_prefix(a, b) || exists|i: int| #[trigger] precedes_at(a, b, i)
}

/// The lexicographic order of byte strings, equality included.
pub open spec fn lex_le(a: Seq<u8>, b: Seq<u8>) -> bool {
    a == b || lex_lt(a, b)
}

/// Where `a` stands to `b`.
pub open spec fn lex_rank(a: Seq<u8>, b: Seq<u8>) -> Rank {
    if a == b {
        Rank::Same
    } else if lex_lt(a, b) {
        Rank::Before
    } else {
        Rank::After
    }
}

/// Two strings that agree up to `i` and differ at `i` are ordered by
/// their bytes at `i`, and are not equal.
pub proof fn lemma_first_difference_decides(a: Seq<u8>, b: Seq<u8>, i: int)
    requires
        0 <= i < a.len(),
        i < b.len(),
        a.take(i) == b.take(i),
        a[i] != b[i],
    ensures
        a != b,
        lex_lt(a, b) <==> a[i] < b[i],
        lex_lt(b, a) <==> b[i] < a[i],
{
    lemma_difference_one_way(a, b, i);
    lemma_difference_one_way(b, a, i);
}

proof fn lemma_difference_one_way(a: Seq<u8>, b: Seq<u8>, i: int)
    requires
        0 <= i < a.len(),
        i < b.len(),
        a.take(i) == b.take(i),
        a[i] != b[i],
    ensures
        lex_lt(a, b) <==> a[i] < b[i],
{
    if a[i] < b[i] {
        assert(precedes_at(a, b, i));
    } else {
        if is_strict_prefix(a, b) {
            assert(b.take(a.len() as int)[i] == b[i]);
        }
        assert forall|j: int| !#[trigger] precedes_at(a, b, j) by {
            if precedes_at(a, b, j) {
                if j < i {
                    assert(a.take(i)[j] == a[j]);
                    assert(b.take(i)[j] == b[j]);
                } else if j > i {
                    assert(a.take(j)[i] == a[i]);
                    assert(b.take(j)[i] == b[i]);
                }
            }
        }
    }
}

/// Where one string is the start of the other, the lengths decide.
pub proof fn lemma_common_prefix_decides(a: Seq<u8>, b: Seq<u8>)
    requires
        a.len() <= b.len(),
        b.take(a.len() as int) == a,
    ensures
        a.len() == b.len() ==> a == b,
        a.len() < b.len() ==> lex_lt(a, b) && a != b,
        !lex_lt(b, a),
{
    if a.len() == b.len() {
        assert(b.take(a.len() as int) =~= b);
    }
    assert forall|j: int| !#[trigger] precedes_at(b, a, j) by {
        if precedes_at(b, a, j) {
            assert(b.take(a.len() as int)[j] == b[j]);
        }
    }
}

/// Strings that agree on their first `i` bytes agree on every shorter
/// start and at every index below `i`.
pub proof fn lemma_agreement_below(a: Seq<u8>, b: Seq<u8>, i: int, j: int)
    requires
        0 <= j <= i <= a.len(),
        i <= b.len(),
        a.take(i) == b.take(i),
    ensures
        a.take(j) == b.take(j),
        j < i ==> a[j] == b[j],
{
    assert forall|k: int| 0 <= k < i implies a[k] == b[k] by {
        assert(a.take(i)[k] == a[k]);
        assert(b.take(i)[k] == b[k]);
    }
    assert(a.take(j) =~= b.take(j));
}

proof fn lemma_rank_from(a: Seq<u8>, b: Seq<u8>, i: int)
    requires
        0 <= i <= a.len(),
        i <= b.len(),
        a.take(i) == b.take(i),
    ensures
        a == b || lex_lt(a, b) || lex_lt(b, a),
    decreases a.len() - i,
{
    if i == a.len() {
        assert(a.take(i) =~= a);
        lemma_common_prefix_decides(a, b);
    } else if i == b.len() {
        assert(b.take(i) =~= b);
        lemma_common_prefix_decides(b, a);
    } else if a[i] != b[i] {
        lemma_first_difference_decides(a, b, i);
    } else {
        assert(a.take(i + 1) =~= a.take(i).push(a[i]));
        assert(b.take(i + 1) =~= b.take(i).push(b[i]));
        lemma_rank_from(a, b, i + 1);
    }
}

/// The order is total: of two strings, one comes first or they are equal.
pub proof fn lemma_lex_total(a: Seq<u8>, b: Seq<u8>)
    ensures
        a == b || lex_lt(a, b) || lex_lt(b, a),
{
    assert(a.take(0) =~= b.take(0));
    lemma_rank_from(a, b, 0);
}

/// No string comes before itself.
pub proof fn lemma_lex_irreflexive(a: Seq<u8>)
    ensures
        !lex_lt(a, a),
{
    assert forall|i: int| !#[trigger] precedes_at(a, a, i) by {}
}

/// The order is transitive.
pub proof fn lemma_lex_transitive(a: Seq<u8>, b: Seq<u8>, c: Seq<u8>)
    requires
        lex_lt(a, b),
        lex_lt(b, c),
    ensures
        lex_lt(a, c),
{
    if is_strict_prefix(a, b) {
        let n = a.len() as int;
        assert(a.take(n) =~= a);
        if is_strict_prefix(b, c) {
            assert(b.take(b.len() as int) =~= b);
            lemma_agreement_below(c, b, b.len() as int, n);
        } else {
            let j = choose|j: int| precedes_at(b, c, j);
            if j < n {
                lemma_agreement_below(b, a, n, j);
                assert(b.take(n)[j] == b[j]);
                assert(precedes_at(a, c, j));
            } else {
                lemma_agreement_below(b, c, j, n);
            }
        }
    } else {
        let i = choose|i: int| precedes_at(a, b, i);
        if is_strict_prefix(b, c) {
            assert(b.take(b.len() as int) =~= b);
            lemma_agreement_below(c, b, b.len() as int, i);
            assert(precedes_at(a, c, i));
        } else {
            let j = choose|j: int| precedes_at(b, c, j);
            if i < j {
                lemma_agreement_below(b, c, j, i);
                assert(precedes_at(a, c, i));
            } else if i == j {
                assert(precedes_at(a, c, i));
            } else {
                lemma_agreement_below(a, b, i, j);
                assert(precedes_at(a, c, j));
            }
        }
    }
}

/// Of two strings, at most one comes before the other.
pub proof fn lemma_lex_asymmetric(a: Seq<u8>, b: Seq<u8>)
    requires
        lex_lt(a, b),
    ensures
        !lex_lt(b, a),
        a != b,
{
    lemma_lex_irreflexive(a);
    if lex_lt(b, a) {
        lemma_lex_transitive(a, b, a);
    }
}

/// A strict prefix comes before the string that it starts.
pub proof fn lemma_strict_prefix_comes_first(a: Seq<u8>, b: Seq<u8>)
    requires
        is_strict_prefix(a, b),
    ensures
        lex_lt(a, b),
        lex_rank(a, b) == Rank::Before,
{
}

/// Strings of one length are ordered by their bytes at the first index at
/// which they differ.
pub proof fn lemma_equal_length_order(a: Seq<u8>, b: Seq<u8>)
    requires
        a.len() == b.len(),
    ensures
        lex_lt(a, b) <==> exists|i: int| #[trigger] precedes_at(a, b, i),
        a == b <==> forall|i: int| 0 <= i < a.len() ==> a[i] == b[i],
{
    if a == b {
    } else if forall|i: int| 0 <= i < a.len() ==> a[i] == b[i] {
        assert(a =~= b);
    }
}

/// Compares two byte strings in the order of keys.
pub fn lex_order(a: &[u8], b: &[u8]) -> (rank: Rank)
    ensures
        rank == lex_rank(a@, b@),
        rank == Rank::After <==> lex_lt(b@, a@),
{
    let mut i: usize = 0;
    while i < a.len() && i < b.len() && a[i] == b[i]
        invariant
            i <= a.len(),
            i <= b.len(),
            a@.take(i as int) == b@.take(i as int),
        decreases a.len() - i,
    {
        assert(a@.take(i + 1) =~= a@.take(i as int).push(a@[i as int]));
        assert(b@.take(i + 1) =~= b@.take(i as int).push(b@[i as int]));
        i += 1;
    }
    if i < a.len() && i < b.len() {
        proof {
            lemma_first_difference_decides(a@, b@, i as int);
        }
        if a[i] < b[i] {
            Rank::Before
        } else {
            Rank::After
        }
    } else if a.len() == b.len() {
        proof {
            assert(a@.take(i as int) =~= a@);
            assert(b@.take(i as int) =~= b@);
            lemma_common_prefix_decides(a@, b@);
        }
        Rank::Same
    } else if a.len() < b.len() {
        proof {
            assert(a@.take(i as int) =~= a@);
            lemma_common_prefix_decides(a@, b@);
        }
        Rank::Before
    } else {
        proof {
            assert(b@.take(i as int) =~= b@);
            lemma_common_prefix_decides(b@, a@);
        }
        Rank::After
    }
}

/// A borrowed byte string, compared in the order of keys.
#[derive(Debug, Copy, Clone)]
pub struct RawKey<'a> {
    data: &'a [u8],
}

impl<'a> View for RawKey<'a> {
    type V = Seq<u8>;

    closed spec fn view(&self) -> Seq<u8> {
        self.data@
    }
}

impl<'a> RawKey<'a> {
    /// The bytes of `data`, to be compared as a key.
    pub fn new(data: &'a [u8]) -> (key: RawKey<'a>)
        ensures
            key@ == data@,
    {
        RawKey { data }
    }

    /// The bytes compared.
    pub fn as_slice(&self) -> (bytes: &'a [u8])
        ensures
            bytes@ == self@,
    {
        self.data
    }
}

impl<'a> From<&'a [u8]> for RawKey<'a> {
    fn from(data: &'a [u8]) -> (key: RawKey<'a>) {
        RawKey { data }
    }
}

impl<'a> vstd::std_specs::convert::FromSpecImpl<&'a [u8]> for RawKey<'a> {
    open spec fn obeys_from_spec() -> bool {
        true
    }

    closed spec fn from_spec(data: &'a [u8]) -> RawKey<'a> {
        RawKey { data }
    }
}

/// The raw key made from a slice holds the slice's bytes.
pub proof fn lemma_raw_key_from_bytes<'a>(data: &'a [u8])
    ensures
        <RawKey<'a> as vstd::std_specs::convert::FromSpec<&'a [u8]>>::from_spec(data)@ == data@,
{
}

impl<'a> PartialEq for RawKey<'a> {
    /// Equal lengths and equal bytes.
    fn eq(&self, other: &Self) -> (equal: bool) {
        match lex_order(self.data, other.data) {
            Rank::Same => true,
            _ => false,
        }
    }
}

impl<'a> vstd::std_specs::cmp::PartialEqSpecImpl for RawKey<'a> {
    open spec fn obeys_eq_spec() -> bool {
        true
    }

    open spec fn eq_spec(&self, other: &Self) -> bool {
        self@ == other@
    }
}

impl<'a> PartialOrd for RawKey<'a> {
    /// Byte by byte over the shared start; where that is equal, the
    /// shorter string comes first.
    fn partial_cmp(&self, other: &Self) -> (order: Option<Ordering>) {
        match lex_order(self.data, other.data) {
            Rank::Before => Some(Ordering::Less),
            Rank::Same => Some(Ordering::Equal),
            Rank::After => Some(Ordering::Greater),
        }
    }
}

impl<'a> vstd::std_specs::cmp::PartialOrdSpecImpl for RawKey<'a> {
    open spec fn obeys_partial_cmp_spec() -> bool {
        true
    }

    open spec fn partial_cmp_spec(&self, other: &Self) -> Option<Ordering> {
        match lex_rank(self@, other@) {
            Rank::Before => Some(Ordering::Less),
            Rank::Same => Some(Ordering::Equal),
            Rank::After => Some(Ordering::Greater),
        }
    }
}

/// A key: an owned byte string, immutable once made.
#[derive(Debug, Hash)]
pub struct Key {
    data: Vec<u8>,
}

impl View for Key {
    type V = Seq<u8>;

    closed spec fn view(&self) -> Seq<u8> {
        self.data@
    }
}

impl Key {
    /// The key that holds `data`.
    pub fn new(data: Vec<u8>) -> (key: Key)
        ensures
            key@ == data@,
    {
        Key { data }
    }

    /// The key's bytes.
    pub fn as_slice(&self) -> (bytes: &[u8])
        ensures
            bytes@ == self@,
    {
        self.data.as_slice()
    }

    /// The number of bytes in the key.
    pub fn len(&self) -> (len: usize)
        ensures
            len == self@.len(),
    {
        self.data.len()
    }

    /// The key's bytes, given up by the key.
    pub fn into_bytes(self) -> (bytes: Vec<u8>)
        ensures
            bytes@ == self@,
    {
        self.data
    }

    /// Whether this key comes before `other`.
    pub fn lt(&self, other: &Key) -> (before: bool)
        ensures
            before == lex_lt(self@, other@),
    {
        match lex_order(self.data.as_slice(), other.data.as_slice()) {
            Rank::Before => true,
            _ => false,
        }
    }

    /// Whether this key comes before `other` or equals it.
    pub fn le(&self, other: &Key) -> (not_after: bool)
        ensures
            not_after == lex_le(self@, other@),
    {
        match lex_order(self.data.as_slice(), other.data.as_slice()) {
            Rank::After => false,
            _ => true,
        }
    }
}

impl Clone for Key {
    fn clone(&self) -> (copy: Key)
        ensures
            copy@ == self@,
    {
        Key { data: self.data.clone() }
    }
}

impl Default for Key {
    /// The empty key.
    fn default() -> (key: Key)
        ensures
            key@ == Seq::<u8>::empty(),
    {
        Key { data: Vec::new() }
    }
}

impl From<Vec<u8>> for Key {
    fn from(data: Vec<u8>) -> (key: Key) {
        Key { data }
    }
}

impl vstd::std_specs::convert::FromSpecImpl<Vec<u8>> for Key {
    open spec fn obeys_from_spec() -> bool {
        true
    }

    closed spec fn from_spec(data: Vec<u8>) -> Key {
        Key { data }
    }
}

/// The key made from a vector holds the vector's bytes.
pub proof fn lemma_key_from_bytes(data: Vec<u8>)
    ensures
        <Key as vstd::std_specs::convert::FromSpec<Vec<u8>>>::from_spec(data)@ == data@,
{
}

impl PartialEq for Key {
    fn eq(&self, other: &Self) -> (equal: bool) {
        match lex_order(self.data.as_slice(), other.data.as_slice()) {
            Rank::Same => true,
            _ => false,
        }
    }
}

impl vstd::std_specs::cmp::PartialEqSpecImpl for Key {
    open spec fn obeys_eq_spec() -> bool {
        true
    }

    open spec fn eq_spec(&self, other: &Self) -> bool {
        self@ == other@
    }
}

impl Eq for Key {

}

impl PartialOrd for Key {
    fn partial_cmp(&self, other: &Self) -> (order: Option<Ordering>) {
        match lex_order(self.data.as_slice(), other.data.as_slice()) {
            Rank::Before => Some(Ordering::Less),
            Rank::Same => Some(Ordering::Equal),
            Rank::After => Some(Ordering::Greater),
        }
    }
}

impl vstd::std_specs::cmp::PartialOrdSpecImpl for Key {
    open spec fn obeys_partial_cmp_spec() -> bool {
        true
    }

    open spec fn partial_cmp_spec(&self, other: &Self) -> Option<Ordering> {
        match lex_rank(self@, other@) {
            Rank::Before => Some(Ordering::Less),
            Rank::Same => Some(Ordering::Equal),
            Rank::After => Some(Ordering::Greater),
        }
    }
}

} // verus!
