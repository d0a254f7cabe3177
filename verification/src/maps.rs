//! The ordered-collection codec: maps and sets travel as a dynamic sequence
//! of entries in strictly ascending key order.
//!
//! Encoding from a hash-ordered structure first materializes and sorts the
//! entries, so that two logically equal collections produce byte-identical
//! output whatever their internal iteration order. Decoding offers a strict
//! mode, which rejects any payload whose keys are not strictly ascending
//! (and with them any duplicate), and a relaxed mode, which accepts any
//! order with last-write-wins semantics.

use vstd::prelude::*;
use core::hash::Hash;
use std::collections::HashMap;
use std::collections::HashSet;
use crate::error::Error;
use crate::io::Read;
use crate::io::Write;
use crate::model::Model;
use crate::ser::BorshSerialize;
use crate::de::BorshDeserialize;

verus! {

use vstd::seq_lib::group_to_multiset_ensures;
use vstd::multiset::group_multiset_axioms;
use vstd::multiset::Multiset;
use vstd::std_specs::hash::group_hash_axioms;
use vstd::std_specs::hash::obeys_key_model;

broadcast use group_to_multiset_ensures, group_multiset_axioms, group_hash_axioms;

/// The canonical strict total order of keys: the order entries must follow
/// on the wire.
pub trait CanonicalOrd: Sized {
    /// The canonical strict order.
    spec fn lt_spec(self, other: Self) -> bool;

    /// The laws of a strict total order: transitivity, trichotomy, and
    /// mutual exclusion of the three cases.
    proof fn lemma_lt_properties(a: Self, b: Self, c: Self)
        ensures
            a.lt_spec(b) && b.lt_spec(c) ==> a.lt_spec(c),
            a.lt_spec(b) || b.lt_spec(a) || a == b,
            !(a.lt_spec(b) && b.lt_spec(a)),
            a.lt_spec(b) ==> a != b,
    ;

    /// Executable witness of the canonical order.
    fn lt(&self, other: &Self) -> (r: bool)
        ensures
            r == (*self).lt_spec(*other),
    ;
}

impl CanonicalOrd for u8 {
    open spec fn lt_spec(self, other: Self) -> bool {
        self < other
    }

    proof fn lemma_lt_properties(a: Self, b: Self, c: Self) {
    }

    fn lt(&self, other: &Self) -> (r: bool) {
        *self < *other
    }
}

impl CanonicalOrd for u16 {
    open spec fn lt_spec(self, other: Self) -> bool {
        self < other
    }

    proof fn lemma_lt_properties(a: Self, b: Self, c: Self) {
    }

    fn lt(&self, other: &Self) -> (r: bool) {
        *self < *other
    }
}

impl CanonicalOrd for u32 {
    open spec fn lt_spec(self, other: Self) -> bool {
        self < other
    }

    proof fn lemma_lt_properties(a: Self, b: Self, c: Self) {
    }

    fn lt(&self, other: &Self) -> (r: bool) {
        *self < *other
    }
}

impl CanonicalOrd for u64 {
    open spec fn lt_spec(self, other: Self) -> bool {
        self < other
    }

    proof fn lemma_lt_properties(a: Self, b: Self, c: Self) {
    }

    fn lt(&self, other: &Self) -> (r: bool) {
        *self < *other
    }
}

impl CanonicalOrd for u128 {
    open spec fn lt_spec(self, other: Self) -> bool {
        self < other
    }

    proof fn lemma_lt_properties(a: Self, b: Self, c: Self) {
    }

    fn lt(&self, other: &Self) -> (r: bool) {
        *self < *other
    }
}

impl CanonicalOrd for i8 {
    open spec fn lt_spec(self, other: Self) -> bool {
        self < other
    }

    proof fn lemma_lt_properties(a: Self, b: Self, c: Self) {
    }

    fn lt(&self, other: &Self) -> (r: bool) {
        *self < *other
    }
}

impl CanonicalOrd for i16 {
    open spec fn lt_spec(self, other: Self) -> bool {
        self < other
    }

    proof fn lemma_lt_properties(a: Self, b: Self, c: Self) {
    }

    fn lt(&self, other: &Self) -> (r: bool) {
        *self < *other
    }
}

impl CanonicalOrd for i32 {
    open spec fn lt_spec(self, other: Self) -> bool {
        self < other
    }

    proof fn lemma_lt_properties(a: Self, b: Self, c: Self) {
    }

    fn lt(&self, other: &Self) -> (r: bool) {
        *self < *other
    }
}

impl CanonicalOrd for i64 {
    open spec fn lt_spec(self, other: Self) -> bool {
        self < other
    }

    proof fn lemma_lt_properties(a: Self, b: Self, c: Self) {
    }

    fn lt(&self, other: &Self) -> (r: bool) {
        *self < *other
    }
}

impl CanonicalOrd for i128 {
    open spec fn lt_spec(self, other: Self) -> bool {
        self < other
    }

    proof fn lemma_lt_properties(a: Self, b: Self, c: Self) {
    }

    fn lt(&self, other: &Self) -> (r: bool) {
        *self < *other
    }
}

/// A shared reference is ordered as what it points at.
impl<'a, K: CanonicalOrd> CanonicalOrd for &'a K {
    open spec fn lt_spec(self, other: Self) -> bool {
        (*self).lt_spec(*other)
    }

    proof fn lemma_lt_properties(a: Self, b: Self, c: Self) {
        K::lemma_lt_properties(*a, *b, *c);
    }

    fn lt(&self, other: &Self) -> (r: bool) {
        (*self).lt(*other)
    }
}

/// Non-strictly sorted: no later element is below an earlier one.
pub open spec fn sorted_le<T: CanonicalOrd>(s: Seq<T>) -> bool {
    forall|i: int, j: int| 0 <= i < j < s.len() ==> !(#[trigger] s[j]).lt_spec(#[trigger] s[i])
}

/// Strictly ascending, checked between neighbours: exactly the canonical
/// order required of map and set payloads, which also excludes duplicates.
pub open spec fn strictly_ascending<T: CanonicalOrd>(s: Seq<T>) -> bool {
    forall|i: int, j: int|
        #![trigger s[i], s[j]]
        0 <= i && j == i + 1 && j < s.len() ==> s[i].lt_spec(s[j])
}

/// Strict ascent between neighbours carries to every pair of positions.
pub proof fn lemma_ascending_pairwise<T: CanonicalOrd>(s: Seq<T>, i: int, j: int)
    requires
        strictly_ascending(s),
        0 <= i < j < s.len(),
    ensures
        s[i].lt_spec(s[j]),
    decreases j - i,
{
    if j == i + 1 {
        assert(s[j - 1].lt_spec(s[j]));
    } else {
        lemma_ascending_pairwise(s, i, j - 1);
        assert(s[j - 1].lt_spec(s[j]));
        T::lemma_lt_properties(s[i], s[j - 1], s[j]);
    }
}

/// A strictly ascending sequence holds no element twice: enforcing the
/// canonical order on decode simultaneously rejects duplicate keys.
pub proof fn lemma_ascending_distinct<T: CanonicalOrd>(s: Seq<T>)
    requires
        strictly_ascending(s),
    ensures
        forall|i: int, j: int| 0 <= i < j < s.len() ==> (#[trigger] s[i]) != (#[trigger] s[j]),
{
    assert forall|i: int, j: int| 0 <= i < j < s.len() implies (#[trigger] s[i]) != (
    #[trigger] s[j]) by {
        lemma_ascending_pairwise(s, i, j);
        T::lemma_lt_properties(s[i], s[j], s[j]);
    }
}

/// A non-strictly sorted sequence without duplicates is strictly ascending.
pub proof fn lemma_sorted_distinct_ascending<T: CanonicalOrd>(s: Seq<T>)
    requires
        sorted_le(s),
        s.no_duplicates(),
    ensures
        strictly_ascending(s),
{
    assert forall|i: int, j: int|
        #![trigger s[i], s[j]]
        0 <= i && j == i + 1 && j < s.len() implies s[i].lt_spec(s[j]) by {
        assert(!s[j].lt_spec(s[i]));
        assert(s[i] != s[j]);
        T::lemma_lt_properties(s[i], s[j], s[j]);
    }
}

/// A sequence multiset-equal to a duplicate-free sequence is itself
/// duplicate-free.
pub proof fn lemma_no_duplicates_transfer<T>(a: Seq<T>, b: Seq<T>)
    requires
        a.no_duplicates(),
        a.to_multiset() == b.to_multiset(),
    ensures
        b.no_duplicates(),
{
    a.lemma_multiset_has_no_duplicates();
    b.lemma_multiset_has_no_duplicates_conv();
}

/// Sorts into the canonical order by repeatedly extracting a least element:
/// the result is a non-strictly sorted rearrangement of the input.
pub fn sort_canonical<T: CanonicalOrd + Copy>(src: Vec<T>) -> (out: Vec<T>)
    ensures
        out@.len() == src@.len(),
        out@.to_multiset() == src@.to_multiset(),
        sorted_le(out@),
{
    let ghost orig = src@;
    let mut v = src;
    let mut out: Vec<T> = Vec::new();
    proof {
        assert(out@.to_multiset().add(v@.to_multiset()) =~= orig.to_multiset());
    }
    while v.len() > 0
        invariant
            out@.to_multiset().add(v@.to_multiset()) == orig.to_multiset(),
            out@.len() + v@.len() == orig.len(),
            sorted_le(out@),
            forall|a: int, b: int|
                0 <= a < out@.len() && 0 <= b < v@.len() ==> !(#[trigger] v@[b]).lt_spec(
                    #[trigger] out@[a],
                ),
        decreases v@.len(),
    {
        let mut best: usize = 0;
        let mut k: usize = 1;
        proof {
            T::lemma_lt_properties(v@[0], v@[0], v@[0]);
        }
        while k < v.len()
            invariant
                v@.len() > 0,
                best < v@.len(),
                k <= v@.len(),
                forall|t: int| 0 <= t < k ==> !(#[trigger] v@[t]).lt_spec(v@[best as int]),
            decreases v@.len() - k,
        {
            if v[k].lt(&v[best]) {
                proof {
                    assert forall|t: int| 0 <= t < k + 1 implies !(#[trigger] v@[t]).lt_spec(
                        v@[k as int],
                    ) by {
                        if t < k {
                            T::lemma_lt_properties(v@[t], v@[k as int], v@[best as int]);
                        } else {
                            T::lemma_lt_properties(v@[k as int], v@[k as int], v@[best as int]);
                        }
                    }
                }
                best = k;
            }
            k = k + 1;
        }
        let ghost v_before = v@;
        let ghost out_before = out@;
        let x = v.remove(best);
        out.push(x);
        proof {
            assert(x == v_before[best as int]);
            assert(v@ =~= v_before.remove(best as int));
            assert(v@.to_multiset() =~= v_before.to_multiset().remove(x));
            assert(out@.to_multiset() =~= out_before.to_multiset().insert(x));
            assert(v_before.to_multiset().count(x) > 0);
            assert(out@.to_multiset().add(v@.to_multiset()) =~= orig.to_multiset());
            assert forall|a: int, b: int|
                0 <= a < out@.len() && 0 <= b < v@.len() implies !(#[trigger] v@[b]).lt_spec(
                #[trigger] out@[a],
            ) by {
                let b0 = if b < best as int {
                    b
                } else {
                    b + 1
                };
                assert(v@[b] == v_before[b0]);
                if a < out_before.len() {
                    assert(out@[a] == out_before[a]);
                } else {
                    assert(out@[a] == x);
                }
            }
            assert(sorted_le(out@)) by {
                assert forall|i: int, j: int| 0 <= i < j < out@.len() implies !(
                #[trigger] out@[j]).lt_spec(#[trigger] out@[i]) by {
                    if j < out_before.len() {
                        assert(out@[i] == out_before[i] && out@[j] == out_before[j]);
                    } else {
                        assert(out@[j] == x);
                        assert(out@[i] == out_before[i]);
                    }
                }
            }
        }
    }
    proof {
        assert(v@.to_multiset() =~= Multiset::<T>::empty());
        assert(out@.to_multiset() =~= out@.to_multiset().add(v@.to_multiset()));
    }
    out
}

/// The entries of the logical map `m`, as a sequence: each pair is in `m`,
/// every key of `m` appears, and the count matches.
pub open spec fn entries_match_map<K, W>(s: Seq<(K, W)>, m: Map<K, W>) -> bool {
    &&& s.len() == m.dom().len()
    &&& (forall|i: int| 0 <= i < s.len() ==> m.contains_pair((#[trigger] s[i]).0, s[i].1))
    &&& (forall|k: K|
        #[trigger] m.dom().contains(k) ==> exists|i: int| 0 <= i < s.len() && (#[trigger] s[i]).0
            == k)
}

/// The keys of a sequence of entries, position by position.
pub open spec fn entry_keys<K, W>(s: Seq<(K, W)>) -> Seq<K> {
    Seq::new(s.len(), |i: int| s[i].0)
}

/// The contents of a sequence of entries, pair by pair.
pub open spec fn entries_model<K: Model, W: Model>(es: Seq<(K, W)>) -> Seq<(K::V, W::V)> {
    Seq::new(es.len(), |i: int| (es[i].0.model(), es[i].1.model()))
}

/// The canonical entry sequence of a logical map: the unique sequence of its
/// entries in strictly ascending key order.
pub open spec fn spec_sorted_entries<K: CanonicalOrd, W>(m: Map<K, W>) -> Seq<(K, W)> {
    choose|s: Seq<(K, W)>| strictly_ascending(entry_keys(s)) && entries_match_map(s, m)
}

/// There is only one way to lay a logical map out in strictly ascending key
/// order. This is why the encoding of a map cannot depend on the iteration
/// order of its in-memory representation.
pub proof fn lemma_sorted_entries_unique<K: CanonicalOrd, W>(
    s1: Seq<(K, W)>,
    s2: Seq<(K, W)>,
    m: Map<K, W>,
)
    requires
        m.dom().finite(),
        strictly_ascending(entry_keys(s1)),
        entries_match_map(s1, m),
        strictly_ascending(entry_keys(s2)),
        entries_match_map(s2, m),
    ensures
        s1 == s2,
    decreases s1.len(),
{
    if s1.len() == 0 {
        assert(s2.len() == 0);
        assert(s1 =~= s2);
    } else {
        assert(m.dom().len() > 0);
        assert(s2.len() > 0);
        let p1 = s1[0];
        let p2 = s2[0];
        assert(m.contains_pair(p1.0, p1.1));
        assert(m.contains_pair(p2.0, p2.1));
        assert(m.dom().contains(p1.0));
        assert(m.dom().contains(p2.0));
        let j = choose|j: int| 0 <= j < s2.len() && (#[trigger] s2[j]).0 == p1.0;
        let i = choose|i: int| 0 <= i < s1.len() && (#[trigger] s1[i]).0 == p2.0;
        if j > 0 {
            lemma_ascending_pairwise(entry_keys(s2), 0, j);
            assert(p2.0.lt_spec(p1.0));
            if i > 0 {
                lemma_ascending_pairwise(entry_keys(s1), 0, i);
                assert(p1.0.lt_spec(p2.0));
                K::lemma_lt_properties(p1.0, p2.0, p1.0);
                assert(false);
            } else {
                assert(p1.0 == p2.0);
                K::lemma_lt_properties(p2.0, p1.0, p1.0);
                assert(false);
            }
        }
        assert(s2[0].0 == p1.0);
        assert(p1.1 == m[p1.0]);
        assert(p2.1 == m[p1.0]);
        assert(p1 == p2);
        let t1 = s1.drop_first();
        let t2 = s2.drop_first();
        let mr = m.remove(p1.0);
        assert(mr.dom() =~= m.dom().remove(p1.0));
        proof_entries_tail_match(s1, m);
        proof_entries_tail_match(s2, m);
        assert(strictly_ascending(entry_keys(t1))) by {
            assert forall|q: int, q2: int|
                #![trigger entry_keys(t1)[q], entry_keys(t1)[q2]]
                0 <= q && q2 == q + 1 && q2 < entry_keys(t1).len() implies entry_keys(
                t1,
            )[q].lt_spec(entry_keys(t1)[q2]) by {
                assert(entry_keys(t1)[q] == entry_keys(s1)[q + 1]);
                assert(entry_keys(t1)[q2] == entry_keys(s1)[q + 2]);
                assert(entry_keys(s1)[q + 1].lt_spec(entry_keys(s1)[q + 2]));
            }
        }
        assert(strictly_ascending(entry_keys(t2))) by {
            assert forall|q: int, q2: int|
                #![trigger entry_keys(t2)[q], entry_keys(t2)[q2]]
                0 <= q && q2 == q + 1 && q2 < entry_keys(t2).len() implies entry_keys(
                t2,
            )[q].lt_spec(entry_keys(t2)[q2]) by {
                assert(entry_keys(t2)[q] == entry_keys(s2)[q + 1]);
                assert(entry_keys(t2)[q2] == entry_keys(s2)[q + 2]);
                assert(entry_keys(s2)[q + 1].lt_spec(entry_keys(s2)[q + 2]));
            }
        }
        lemma_sorted_entries_unique(t1, t2, mr);
        assert(s1.len() == s2.len());
        assert forall|q: int| 0 <= q < s1.len() implies s1[q] == s2[q] by {
            if q > 0 {
                assert(s1[q] == t1[q - 1]);
                assert(s2[q] == t2[q - 1]);
            }
        }
        assert(s1 =~= s2);
    }
}

/// The tail of a canonical entry sequence lays out the map without its first
/// key.
proof fn proof_entries_tail_match<K: CanonicalOrd, W>(s: Seq<(K, W)>, m: Map<K, W>)
    requires
        m.dom().finite(),
        s.len() > 0,
        strictly_ascending(entry_keys(s)),
        entries_match_map(s, m),
    ensures
        entries_match_map(s.drop_first(), m.remove(s[0].0)),
{
    let t = s.drop_first();
    let mr = m.remove(s[0].0);
    assert(m.dom().contains(s[0].0));
    assert(mr.dom() =~= m.dom().remove(s[0].0));
    assert(mr.dom().len() == m.dom().len() - 1);
    assert(t.len() == mr.dom().len());
    assert forall|q: int| 0 <= q < t.len() implies mr.contains_pair((#[trigger] t[q]).0, t[q].1) by {
        assert(t[q] == s[q + 1]);
        assert(m.contains_pair(s[q + 1].0, s[q + 1].1));
        lemma_ascending_pairwise(entry_keys(s), 0, q + 1);
        K::lemma_lt_properties(s[0].0, s[q + 1].0, s[0].0);
        assert(s[q + 1].0 != s[0].0);
    }
    assert forall|k: K| #[trigger] mr.dom().contains(k) implies exists|q: int|
        0 <= q < t.len() && (#[trigger] t[q]).0 == k by {
        assert(m.dom().contains(k));
        let q0 = choose|q0: int| 0 <= q0 < s.len() && (#[trigger] s[q0]).0 == k;
        assert(k != s[0].0);
        assert(q0 != 0);
        assert(t[q0 - 1].0 == k);
    }
}

/// The logical map that a sequence of entries builds up, later entries
/// overwriting earlier ones: the last-write-wins reading of a payload.
pub open spec fn spec_map_from_entries<K, W>(s: Seq<(K, W)>) -> Map<K, W>
    decreases s.len(),
{
    if s.len() == 0 {
        Map::empty()
    } else {
        spec_map_from_entries(s.drop_last()).insert(s.last().0, s.last().1)
    }
}

/// The canonical byte image of a logical map: the 4-byte entry count, then
/// the entries in strictly ascending key order, each as key bytes followed
/// by value bytes. A pure function of the logical map: no in-memory
/// iteration order can reach it.
pub open spec fn spec_map_encoding<K: CanonicalOrd + BorshSerialize, W: BorshSerialize>(
    m: Map<K, W>,
) -> Seq<u8> {
    vstd::bytes::spec_u32_to_le_bytes(m.dom().len() as u32) + crate::ser::spec_seq_encoding(
        spec_sorted_entries(m),
    )
}

/// Whether a logical map can be encoded at all.
pub open spec fn spec_map_encodable<K: CanonicalOrd + BorshSerialize, W: BorshSerialize>(
    m: Map<K, W>,
) -> bool {
    &&& !K::spec_zero_sized()
    &&& m.dom().len() <= u32::MAX
    &&& crate::ser::spec_seq_encodable(spec_sorted_entries(m))
}

/// The error reported for a logical map that cannot be encoded.
pub open spec fn spec_map_encode_err<K: CanonicalOrd + BorshSerialize, W: BorshSerialize>(
    m: Map<K, W>,
) -> Error {
    if K::spec_zero_sized() {
        Error::ZeroSizedElement
    } else if m.dom().len() > u32::MAX {
        Error::LengthTooLarge
    } else {
        crate::ser::spec_seq_encode_err(spec_sorted_entries(m))
    }
}

/// Relies on `HashMap::keys`: it yields a borrow of each key of the map
/// exactly once, in an unspecified order.
#[verifier::external_body]
fn hash_map_keys<'a, K, W>(m: &'a HashMap<K, W>) -> (r: Vec<&'a K>)
    requires
        obeys_key_model::<K>(),
    ensures
        r@.len() == m@.dom().len(),
        r@.no_duplicates(),
        forall|i: int| 0 <= i < r@.len() ==> m@.dom().contains(*(#[trigger] r@[i])),
        forall|k: K|
            #[trigger] m@.dom().contains(k) ==> exists|i: int|
                0 <= i < r@.len() && *(#[trigger] r@[i]) == k,
{
    m.keys().collect()
}

/// Writes a hash-ordered map in canonical form: its entries are first
/// materialized and sorted by key ascending, then written as a dynamic
/// sequence of key/value pairs. Two maps with the same logical content
/// produce byte-identical output, whatever their iteration order.
pub fn serialize_hash_map<
    K: BorshSerialize + CanonicalOrd + Eq + Hash,
    W: BorshSerialize,
    Wr: Write,
>(m: &HashMap<K, W>, writer: &mut Wr) -> (r: Result<(), Error>)
    requires
        obeys_key_model::<K>(),
    ensures
        final(writer).sink_ok() == old(writer).sink_ok(),
        match r {
            Ok(()) => spec_map_encodable(m@) && final(writer).written() == old(writer).written()
                + spec_map_encoding(m@),
            Err(e) => (!spec_map_encodable(m@) && e == spec_map_encode_err(m@)) || (e == Error::Io
                && !old(writer).sink_ok()),
        },
{
    if K::zero_sized() {
        return Err(Error::ZeroSizedElement);
    }
    let keys = hash_map_keys(m);
    let ghost kv = keys@;
    let sorted = sort_canonical(keys);
    let ghost entries_g: Seq<(K, W)> = Seq::new(
        sorted@.len(),
        |q: int| (*sorted@[q], m@[*sorted@[q]]),
    );
    proof {
        lemma_no_duplicates_transfer(kv, sorted@);
        lemma_sorted_distinct_ascending(sorted@);
        assert forall|q: int| 0 <= q < sorted@.len() implies m@.dom().contains(
            *(#[trigger] sorted@[q]),
        ) by {
            assert(sorted@.contains(sorted@[q]));
            assert(sorted@.to_multiset().count(sorted@[q]) > 0);
            assert(kv.to_multiset().count(sorted@[q]) > 0);
            assert(kv.contains(sorted@[q]));
            let w = choose|w: int| 0 <= w < kv.len() && kv[w] == sorted@[q];
            assert(m@.dom().contains(*kv[w]));
        }
        assert(strictly_ascending(entry_keys(entries_g))) by {
            assert forall|q: int, q2: int|
                #![trigger entry_keys(entries_g)[q], entry_keys(entries_g)[q2]]
                0 <= q && q2 == q + 1 && q2 < entry_keys(entries_g).len() implies entry_keys(
                entries_g,
            )[q].lt_spec(entry_keys(entries_g)[q2]) by {
                assert(sorted@[q].lt_spec(sorted@[q2]));
                assert(entry_keys(entries_g)[q] == *sorted@[q]);
                assert(entry_keys(entries_g)[q2] == *sorted@[q2]);
            }
        }
        assert(entries_match_map(entries_g, m@)) by {
            assert forall|q: int| 0 <= q < entries_g.len() implies m@.contains_pair(
                (#[trigger] entries_g[q]).0,
                entries_g[q].1,
            ) by {
                assert(m@.dom().contains(*sorted@[q]));
            }
            assert forall|k: K| #[trigger] m@.dom().contains(k) implies exists|q: int|
                0 <= q < entries_g.len() && (#[trigger] entries_g[q]).0 == k by {
                let w = choose|w: int| 0 <= w < kv.len() && *(#[trigger] kv[w]) == k;
                assert(kv.contains(kv[w]));
                assert(kv.to_multiset().count(kv[w]) > 0);
                assert(sorted@.to_multiset().count(kv[w]) > 0);
                assert(sorted@.contains(kv[w]));
                let q = choose|q: int| 0 <= q < sorted@.len() && sorted@[q] == kv[w];
                assert(entries_g[q].0 == k);
            }
        }
        let cs = spec_sorted_entries(m@);
        assert(exists|s: Seq<(K, W)>|
            strictly_ascending(entry_keys(s)) && entries_match_map(s, m@)) by {
            assert(strictly_ascending(entry_keys(entries_g)) && entries_match_map(
                entries_g,
                m@,
            ));
        }
        assert(strictly_ascending(entry_keys(cs)) && entries_match_map(cs, m@));
        lemma_sorted_entries_unique(entries_g, cs, m@);
    }
    match crate::ser::serialize_len_prefix(m.len(), writer) {
        Ok(()) => {},
        Err(e) => {
            return Err(e);
        },
    }
    let mut i: usize = 0;
    while i < sorted.len()
        invariant
            i <= sorted@.len(),
            obeys_key_model::<K>(),
            writer.sink_ok() == old(writer).sink_ok(),
            m@.dom().len() <= u32::MAX,
            !K::spec_zero_sized(),
            sorted@.len() == m@.dom().len(),
            entries_g.len() == sorted@.len(),
            forall|q: int|
                0 <= q < sorted@.len() ==> (#[trigger] entries_g[q]) == (
                    *sorted@[q],
                    m@[*sorted@[q]],
                ),
            forall|q: int| 0 <= q < sorted@.len() ==> m@.dom().contains(*(#[trigger] sorted@[q])),
            spec_sorted_entries(m@) == entries_g,
            writer.written() == old(writer).written() + vstd::bytes::spec_u32_to_le_bytes(
                m@.dom().len() as u32,
            ) + crate::ser::spec_seq_encoding(entries_g.take(i as int)),
            forall|q: int| 0 <= q < i ==> (#[trigger] entries_g[q]).spec_encodable(),
        decreases sorted@.len() - i,
    {
        let k: &K = sorted[i];
        let w: &W = match m.get(k) {
            Some(w) => w,
            None => {
                proof {
                    assert(false);
                }
                return Err(Error::Io);
            },
        };
        proof {
            assert(*w == m@[*k]);
            assert(entries_g[i as int] == (*k, *w));
        }
        match k.serialize(writer) {
            Ok(()) => {},
            Err(e) => {
                proof {
                    if !k.spec_encodable() {
                        assert(!entries_g[i as int].spec_encodable());
                        crate::ser::lemma_seq_encode_err_at(entries_g, i as int);
                        assert(entries_g[i as int].spec_encode_err() == k.spec_encode_err());
                    }
                }
                return Err(e);
            },
        }
        match w.serialize(writer) {
            Ok(()) => {},
            Err(e) => {
                proof {
                    if !w.spec_encodable() {
                        assert(!entries_g[i as int].spec_encodable());
                        crate::ser::lemma_seq_encode_err_at(entries_g, i as int);
                        assert(entries_g[i as int].spec_encode_err() == w.spec_encode_err());
                    }
                }
                return Err(e);
            },
        }
        proof {
            assert(entries_g[i as int].spec_encoding() == k.spec_encoding() + w.spec_encoding());
            crate::ser::lemma_seq_encoding_take_succ(entries_g, i as int);
        }
        i = i + 1;
    }
    proof {
        assert(entries_g.take(entries_g.len() as int) =~= entries_g);
    }
    Ok(())
}

/// Strict-order decode of a map: reads the entry sequence, requires the keys
/// to arrive strictly ascending (rejecting any out-of-order or duplicate
/// key), and builds the map.
pub fn deserialize_hash_map<
    K: BorshDeserialize + CanonicalOrd + Eq + Hash + Model<V = K>,
    W: BorshDeserialize,
    R: Read,
>(reader: &mut R) -> (r: Result<HashMap<K, W>, Error>)
    requires
        obeys_key_model::<K>(),
        forall|x: K| (#[trigger] x.model()) == x,
    ensures
        final(reader).source_ok() == old(reader).source_ok(),
        match r {
            Ok(mp) => !K::spec_zero_sized() && match <Vec<(K, W)> as BorshDeserialize>::spec_decode(
                old(reader).readable(),
            ) {
                Some((dm, n)) => strictly_ascending(entry_keys(dm)) && (exists|es: Seq<(K, W)>|
                    #![trigger spec_map_from_entries(es)]
                    entries_model(es) == dm && mp@ == spec_map_from_entries(es)) && final(reader).readable()
                    == old(reader).readable().skip(n),
                None => false,
            },
            Err(e) => {
                ||| (K::spec_zero_sized() && e == Error::ZeroSizedElement)
                ||| (!K::spec_zero_sized() && match <Vec<(K, W)> as BorshDeserialize>::spec_decode(
                    old(reader).readable(),
                ) {
                    Some((dm, n)) => !strictly_ascending(entry_keys(dm)) && e
                        == Error::WrongOrderOfKeys,
                    None => e == <Vec<(K, W)> as BorshDeserialize>::spec_decode_err(
                        old(reader).readable(),
                    ),
                })
                ||| (e == Error::Io && !old(reader).source_ok())
            },
        },
{
    if K::zero_sized() {
        return Err(Error::ZeroSizedElement);
    }
    let entries = match Vec::<(K, W)>::deserialize_reader(reader) {
        Ok(v) => v,
        Err(e) => {
            return Err(e);
        },
    };
    let ghost es = entries@;
    let ghost dm = entries_model(es);
    proof {
        assert(entries.model() =~= dm);
    }
    let mut i: usize = 1;
    while i < entries.len()
        invariant
            1 <= i,
            i <= entries@.len() || entries@.len() == 0,
            es == entries@,
            dm == entries_model(es),
            forall|x: K| (#[trigger] x.model()) == x,
            !K::spec_zero_sized(),
            reader.source_ok() == old(reader).source_ok(),
            match <Vec<(K, W)> as BorshDeserialize>::spec_decode(old(reader).readable()) {
                Some((d, n)) => d == dm,
                None => false,
            },
            forall|q: int, q2: int|
                #![trigger entries@[q], entries@[q2]]
                0 <= q && q2 == q + 1 && q2 < i ==> entries@[q].0.lt_spec(entries@[q2].0),
        decreases entries@.len() - i,
    {
        if !entries[i - 1].0.lt(&entries[i].0) {
            proof {
                assert(dm[i - 1] == (es[i - 1].0.model(), es[i - 1].1.model()));
                assert(dm[i as int] == (es[i as int].0.model(), es[i as int].1.model()));
                assert(es[i - 1].0.model() == es[i - 1].0);
                assert(es[i as int].0.model() == es[i as int].0);
                assert(entry_keys(dm)[i - 1] == es[i - 1].0);
                assert(entry_keys(dm)[i as int] == es[i as int].0);
                assert(!strictly_ascending(entry_keys(dm)));
            }
            return Err(Error::WrongOrderOfKeys);
        }
        i = i + 1;
    }
    proof {
        assert(strictly_ascending(entry_keys(dm))) by {
            assert forall|q: int, q2: int|
                #![trigger entry_keys(dm)[q], entry_keys(dm)[q2]]
                0 <= q && q2 == q + 1 && q2 < entry_keys(dm).len() implies entry_keys(
                dm,
            )[q].lt_spec(entry_keys(dm)[q2]) by {
                assert(entries@[q].0.lt_spec(entries@[q2].0));
                assert(dm[q] == (es[q].0.model(), es[q].1.model()));
                assert(dm[q2] == (es[q2].0.model(), es[q2].1.model()));
                assert(es[q].0.model() == es[q].0);
                assert(es[q2].0.model() == es[q2].0);
                assert(entry_keys(dm)[q] == es[q].0);
                assert(entry_keys(dm)[q2] == es[q2].0);
            }
        }
    }
    hash_map_from_vec(entries)
}

/// Relaxed decode of a map: accepts the entries in any order, with any
/// duplicates, the last occurrence of a key winning.
pub fn deserialize_hash_map_relaxed<
    K: BorshDeserialize + CanonicalOrd + Eq + Hash + Model<V = K>,
    W: BorshDeserialize,
    R: Read,
>(reader: &mut R) -> (r: Result<HashMap<K, W>, Error>)
    requires
        obeys_key_model::<K>(),
        forall|x: K| (#[trigger] x.model()) == x,
    ensures
        final(reader).source_ok() == old(reader).source_ok(),
        match r {
            Ok(mp) => !K::spec_zero_sized() && match <Vec<(K, W)> as BorshDeserialize>::spec_decode(
                old(reader).readable(),
            ) {
                Some((dm, n)) => (exists|es: Seq<(K, W)>|
                    #![trigger spec_map_from_entries(es)]
                    entries_model(es) == dm && mp@ == spec_map_from_entries(es)) && final(reader).readable()
                    == old(reader).readable().skip(n),
                None => false,
            },
            Err(e) => {
                ||| (K::spec_zero_sized() && e == Error::ZeroSizedElement)
                ||| (!K::spec_zero_sized() && <Vec<(K, W)> as BorshDeserialize>::spec_decode(
                    old(reader).readable(),
                ) is None && e == <Vec<(K, W)> as BorshDeserialize>::spec_decode_err(
                    old(reader).readable(),
                ))
                ||| (e == Error::Io && !old(reader).source_ok())
            },
        },
{
    if K::zero_sized() {
        return Err(Error::ZeroSizedElement);
    }
    let entries = match Vec::<(K, W)>::deserialize_reader(reader) {
        Ok(v) => v,
        Err(e) => {
            return Err(e);
        },
    };
    proof {
        assert(entries.model() =~= entries_model(entries@));
    }
    hash_map_from_vec(entries)
}

/// Builds a map from a vector of entries in order, later entries
/// overwriting earlier ones.
fn hash_map_from_vec<K: CanonicalOrd + Eq + Hash, W>(entries: Vec<(K, W)>) -> (r: Result<
    HashMap<K, W>,
    Error,
>)
    requires
        obeys_key_model::<K>(),
    ensures
        r matches Ok(mp) && mp@ == spec_map_from_entries(entries@),
{
    let ghost es = entries@;
    let mut rest = entries;
    let mut mp: HashMap<K, W> = HashMap::new();
    let ghost mut gi: int = 0;
    proof {
        assert(es.take(0) =~= Seq::<(K, W)>::empty());
        assert(rest@ =~= es.skip(0));
    }
    while rest.len() > 0
        invariant
            obeys_key_model::<K>(),
            0 <= gi,
            gi + rest@.len() == es.len(),
            rest@ == es.skip(gi),
            mp@ == spec_map_from_entries(es.take(gi)),
        decreases rest@.len(),
    {
        let pair = rest.remove(0);
        proof {
            assert(pair == es[gi]);
            assert(rest@ =~= es.skip(gi + 1));
        }
        let (k, w) = pair;
        mp.insert(k, w);
        proof {
            assert(es.take(gi + 1).drop_last() =~= es.take(gi));
            assert(es.take(gi + 1).last() == es[gi]);
            gi = gi + 1;
        }
    }
    proof {
        assert(es.take(es.len() as int) =~= es);
    }
    Ok(mp)
}

/// The elements of the logical set `st`, as a sequence: no element twice,
/// nothing outside `st`, everything in `st` present.
pub open spec fn elems_match_set<K>(s: Seq<K>, st: Set<K>) -> bool {
    &&& s.no_duplicates()
    &&& (forall|i: int| 0 <= i < s.len() ==> st.contains(#[trigger] s[i]))
    &&& (forall|k: K| st.contains(k) ==> s.contains(k))
}

/// The canonical element sequence of a logical set: the unique sequence of
/// its elements in strictly ascending order.
pub open spec fn spec_sorted_elems<K: CanonicalOrd>(st: Set<K>) -> Seq<K> {
    choose|s: Seq<K>| strictly_ascending(s) && elems_match_set(s, st)
}

/// There is only one way to lay a logical set out in strictly ascending
/// order: the reason a set's encoding cannot depend on iteration order.
pub proof fn lemma_sorted_elems_unique<K: CanonicalOrd>(s1: Seq<K>, s2: Seq<K>, st: Set<K>)
    requires
        strictly_ascending(s1),
        elems_match_set(s1, st),
        strictly_ascending(s2),
        elems_match_set(s2, st),
    ensures
        s1 == s2,
    decreases s1.len(),
{
    if s1.len() == 0 {
        if s2.len() > 0 {
            assert(st.contains(s2[0]));
            assert(s1.contains(s2[0]));
            assert(false);
        }
        assert(s1 =~= s2);
    } else {
        assert(st.contains(s1[0]));
        assert(st.contains(s2[0])) by {
            if s2.len() == 0 {
                assert(s2.contains(s1[0]));
                assert(false);
            }
        }
        assert(s2.contains(s1[0]));
        assert(s1.contains(s2[0]));
        let j = choose|j: int| 0 <= j < s2.len() && s2[j] == s1[0];
        let i = choose|i: int| 0 <= i < s1.len() && s1[i] == s2[0];
        if j > 0 {
            lemma_ascending_pairwise(s2, 0, j);
            assert(s2[0].lt_spec(s1[0]));
            if i > 0 {
                lemma_ascending_pairwise(s1, 0, i);
                assert(s1[0].lt_spec(s2[0]));
                K::lemma_lt_properties(s1[0], s2[0], s1[0]);
                assert(false);
            } else {
                K::lemma_lt_properties(s2[0], s1[0], s1[0]);
                assert(false);
            }
        }
        assert(s2[0] == s1[0]);
        let t1 = s1.drop_first();
        let t2 = s2.drop_first();
        let str = st.remove(s1[0]);
        proof_elems_tail_match(s1, st);
        proof_elems_tail_match(s2, st);
        assert(strictly_ascending(t1)) by {
            assert forall|q: int, q2: int|
                #![trigger t1[q], t1[q2]]
                0 <= q && q2 == q + 1 && q2 < t1.len() implies t1[q].lt_spec(t1[q2]) by {
                assert(t1[q] == s1[q + 1]);
                assert(t1[q2] == s1[q + 2]);
                assert(s1[q + 1].lt_spec(s1[q + 2]));
            }
        }
        assert(strictly_ascending(t2)) by {
            assert forall|q: int, q2: int|
                #![trigger t2[q], t2[q2]]
                0 <= q && q2 == q + 1 && q2 < t2.len() implies t2[q].lt_spec(t2[q2]) by {
                assert(t2[q] == s2[q + 1]);
                assert(t2[q2] == s2[q + 2]);
                assert(s2[q + 1].lt_spec(s2[q + 2]));
            }
        }
        lemma_sorted_elems_unique(t1, t2, str);
        assert(s1.len() == s2.len());
        assert forall|q: int| 0 <= q < s1.len() implies s1[q] == s2[q] by {
            if q > 0 {
                assert(s1[q] == t1[q - 1]);
                assert(s2[q] == t2[q - 1]);
            }
        }
        assert(s1 =~= s2);
    }
}

/// The tail of a canonical element sequence lays out the set without its
/// first element.
proof fn proof_elems_tail_match<K: CanonicalOrd>(s: Seq<K>, st: Set<K>)
    requires
        s.len() > 0,
        strictly_ascending(s),
        elems_match_set(s, st),
    ensures
        elems_match_set(s.drop_first(), st.remove(s[0])),
{
    let t = s.drop_first();
    let str = st.remove(s[0]);
    assert(t.no_duplicates()) by {
        assert forall|a: int, b: int| 0 <= a < t.len() && 0 <= b < t.len() && a != b implies t[a]
            != t[b] by {
            assert(t[a] == s[a + 1]);
            assert(t[b] == s[b + 1]);
        }
    }
    assert forall|q: int| 0 <= q < t.len() implies str.contains(#[trigger] t[q]) by {
        assert(t[q] == s[q + 1]);
        assert(st.contains(s[q + 1]));
        lemma_ascending_pairwise(s, 0, q + 1);
        K::lemma_lt_properties(s[0], s[q + 1], s[0]);
    }
    assert forall|k: K| str.contains(k) implies t.contains(k) by {
        assert(st.contains(k));
        assert(s.contains(k));
        let q0 = choose|q0: int| 0 <= q0 < s.len() && s[q0] == k;
        assert(k != s[0]);
        assert(q0 != 0);
        assert(t[q0 - 1] == k);
    }
}

/// The logical set that a sequence of elements builds up.
pub open spec fn spec_set_from_elems<K>(s: Seq<K>) -> Set<K>
    decreases s.len(),
{
    if s.len() == 0 {
        Set::empty()
    } else {
        spec_set_from_elems(s.drop_last()).insert(s.last())
    }
}

/// The canonical byte image of a logical set: the 4-byte element count,
/// then the elements in strictly ascending order.
pub open spec fn spec_set_encoding<K: CanonicalOrd + BorshSerialize>(st: Set<K>) -> Seq<u8> {
    vstd::bytes::spec_u32_to_le_bytes(spec_sorted_elems(st).len() as u32)
        + crate::ser::spec_seq_encoding(spec_sorted_elems(st))
}

/// Whether a logical set can be encoded at all.
pub open spec fn spec_set_encodable<K: CanonicalOrd + BorshSerialize>(st: Set<K>) -> bool {
    &&& !K::spec_zero_sized()
    &&& spec_sorted_elems(st).len() <= u32::MAX
    &&& crate::ser::spec_seq_encodable(spec_sorted_elems(st))
}

/// The error reported for a logical set that cannot be encoded.
pub open spec fn spec_set_encode_err<K: CanonicalOrd + BorshSerialize>(st: Set<K>) -> Error {
    if K::spec_zero_sized() {
        Error::ZeroSizedElement
    } else if spec_sorted_elems(st).len() > u32::MAX {
        Error::LengthTooLarge
    } else {
        crate::ser::spec_seq_encode_err(spec_sorted_elems(st))
    }
}

/// Relies on `HashSet::iter`: it yields a borrow of each element of the set
/// exactly once, in an unspecified order.
#[verifier::external_body]
fn hash_set_elements<'a, K>(st: &'a HashSet<K>) -> (r: Vec<&'a K>)
    requires
        obeys_key_model::<K>(),
    ensures
        r@.len() == st@.len(),
        r@.no_duplicates(),
        forall|i: int| 0 <= i < r@.len() ==> st@.contains(*(#[trigger] r@[i])),
        forall|k: K|
            #[trigger] st@.contains(k) ==> exists|i: int| 0 <= i < r@.len() && *(#[trigger] r@[i])
                == k,
{
    st.iter().collect()
}

/// Writes a hash-ordered set in canonical form: its elements are first
/// materialized and sorted ascending, then written as a dynamic sequence.
pub fn serialize_hash_set<K: BorshSerialize + CanonicalOrd + Eq + Hash, Wr: Write>(
    st: &HashSet<K>,
    writer: &mut Wr,
) -> (r: Result<(), Error>)
    requires
        obeys_key_model::<K>(),
    ensures
        final(writer).sink_ok() == old(writer).sink_ok(),
        match r {
            Ok(()) => spec_set_encodable(st@) && final(writer).written() == old(writer).written()
                + spec_set_encoding(st@),
            Err(e) => (!spec_set_encodable(st@) && e == spec_set_encode_err(st@)) || (e
                == Error::Io && !old(writer).sink_ok()),
        },
{
    if K::zero_sized() {
        return Err(Error::ZeroSizedElement);
    }
    let elems = hash_set_elements(st);
    let ghost kv = elems@;
    let sorted = sort_canonical(elems);
    let ghost elems_g: Seq<K> = Seq::new(sorted@.len(), |q: int| *sorted@[q]);
    proof {
        lemma_no_duplicates_transfer(kv, sorted@);
        lemma_sorted_distinct_ascending(sorted@);
        assert forall|q: int| 0 <= q < sorted@.len() implies st@.contains(
            *(#[trigger] sorted@[q]),
        ) by {
            assert(sorted@.contains(sorted@[q]));
            assert(sorted@.to_multiset().count(sorted@[q]) > 0);
            assert(kv.to_multiset().count(sorted@[q]) > 0);
            assert(kv.contains(sorted@[q]));
            let w = choose|w: int| 0 <= w < kv.len() && kv[w] == sorted@[q];
            assert(st@.contains(*kv[w]));
        }
        assert(strictly_ascending(elems_g)) by {
            assert forall|q: int, q2: int|
                #![trigger elems_g[q], elems_g[q2]]
                0 <= q && q2 == q + 1 && q2 < elems_g.len() implies elems_g[q].lt_spec(
                elems_g[q2],
            ) by {
                assert(sorted@[q].lt_spec(sorted@[q2]));
            }
        }
        assert(elems_match_set(elems_g, st@)) by {
            assert(elems_g.no_duplicates()) by {
                assert forall|a: int, b: int|
                    0 <= a < elems_g.len() && 0 <= b < elems_g.len() && a != b implies elems_g[a]
                    != elems_g[b] by {
                    assert(sorted@[a] != sorted@[b]);
                }
            }
            assert forall|k: K| st@.contains(k) implies elems_g.contains(k) by {
                let w = choose|w: int| 0 <= w < kv.len() && *(#[trigger] kv[w]) == k;
                assert(kv.contains(kv[w]));
                assert(kv.to_multiset().count(kv[w]) > 0);
                assert(sorted@.to_multiset().count(kv[w]) > 0);
                assert(sorted@.contains(kv[w]));
                let q = choose|q: int| 0 <= q < sorted@.len() && sorted@[q] == kv[w];
                assert(elems_g[q] == k);
            }
        }
        let cs = spec_sorted_elems(st@);
        assert(exists|s: Seq<K>| strictly_ascending(s) && elems_match_set(s, st@)) by {
            assert(strictly_ascending(elems_g) && elems_match_set(elems_g, st@));
        }
        assert(strictly_ascending(cs) && elems_match_set(cs, st@));
        lemma_sorted_elems_unique(elems_g, cs, st@);
    }
    match crate::ser::serialize_len_prefix(st.len(), writer) {
        Ok(()) => {},
        Err(e) => {
            return Err(e);
        },
    }
    let mut i: usize = 0;
    while i < sorted.len()
        invariant
            i <= sorted@.len(),
            obeys_key_model::<K>(),
            writer.sink_ok() == old(writer).sink_ok(),
            !K::spec_zero_sized(),
            sorted@.len() == st@.len(),
            st@.len() <= u32::MAX,
            elems_g.len() == sorted@.len(),
            forall|q: int| 0 <= q < sorted@.len() ==> (#[trigger] elems_g[q]) == *sorted@[q],
            spec_sorted_elems(st@) == elems_g,
            writer.written() == old(writer).written() + vstd::bytes::spec_u32_to_le_bytes(
                st@.len() as u32,
            ) + crate::ser::spec_seq_encoding(elems_g.take(i as int)),
            forall|q: int| 0 <= q < i ==> (#[trigger] elems_g[q]).spec_encodable(),
        decreases sorted@.len() - i,
    {
        let k: &K = sorted[i];
        proof {
            assert(elems_g[i as int] == *k);
        }
        match k.serialize(writer) {
            Ok(()) => {},
            Err(e) => {
                proof {
                    if !k.spec_encodable() {
                        crate::ser::lemma_seq_encode_err_at(elems_g, i as int);
                    }
                }
                return Err(e);
            },
        }
        proof {
            crate::ser::lemma_seq_encoding_take_succ(elems_g, i as int);
        }
        i = i + 1;
    }
    proof {
        assert(elems_g.take(elems_g.len() as int) =~= elems_g);
    }
    Ok(())
}

/// Strict-order decode of a set: reads the element sequence, requires it to
/// arrive strictly ascending (rejecting any out-of-order or duplicate
/// element), and builds the set.
pub fn deserialize_hash_set<
    K: BorshDeserialize + CanonicalOrd + Eq + Hash + Model<V = K>,
    R: Read,
>(reader: &mut R) -> (r: Result<HashSet<K>, Error>)
    requires
        obeys_key_model::<K>(),
        forall|x: K| (#[trigger] x.model()) == x,
    ensures
        final(reader).source_ok() == old(reader).source_ok(),
        match r {
            Ok(hs) => match <Vec<K> as BorshDeserialize>::spec_decode(old(reader).readable()) {
                Some((es, n)) => strictly_ascending(es) && hs@ == spec_set_from_elems(es) && final(reader).readable() == old(
                    reader,
                ).readable().skip(n),
                None => false,
            },
            Err(e) => {
                ||| (match <Vec<K> as BorshDeserialize>::spec_decode(old(reader).readable()) {
                    Some((es, n)) => !strictly_ascending(es) && e == Error::WrongOrderOfKeys,
                    None => e == <Vec<K> as BorshDeserialize>::spec_decode_err(
                        old(reader).readable(),
                    ),
                })
                ||| (e == Error::Io && !old(reader).source_ok())
            },
        },
{
    let elems = match Vec::<K>::deserialize_reader(reader) {
        Ok(v) => v,
        Err(e) => {
            return Err(e);
        },
    };
    let ghost es = elems@;
    proof {
        assert(elems.model() =~= es);
    }
    let mut i: usize = 1;
    while i < elems.len()
        invariant
            1 <= i,
            es == elems@,
            reader.source_ok() == old(reader).source_ok(),
            match <Vec<K> as BorshDeserialize>::spec_decode(old(reader).readable()) {
                Some((dm, n)) => dm == es,
                None => false,
            },
            forall|q: int, q2: int|
                #![trigger elems@[q], elems@[q2]]
                0 <= q && q2 == q + 1 && q2 < i ==> elems@[q].lt_spec(elems@[q2]),
        decreases elems@.len() - i,
    {
        if !elems[i - 1].lt(&elems[i]) {
            proof {
                assert(!strictly_ascending(es));
            }
            return Err(Error::WrongOrderOfKeys);
        }
        i = i + 1;
    }
    proof {
        assert(strictly_ascending(es));
    }
    hash_set_from_vec(elems)
}

/// Relaxed decode of a set: accepts the elements in any order, duplicates
/// collapsing.
pub fn deserialize_hash_set_relaxed<
    K: BorshDeserialize + CanonicalOrd + Eq + Hash + Model<V = K>,
    R: Read,
>(reader: &mut R) -> (r: Result<HashSet<K>, Error>)
    requires
        obeys_key_model::<K>(),
        forall|x: K| (#[trigger] x.model()) == x,
    ensures
        final(reader).source_ok() == old(reader).source_ok(),
        match r {
            Ok(hs) => match <Vec<K> as BorshDeserialize>::spec_decode(old(reader).readable()) {
                Some((es, n)) => hs@ == spec_set_from_elems(es) && final(reader).readable() == old(
                    reader,
                ).readable().skip(n),
                None => false,
            },
            Err(e) => (<Vec<K> as BorshDeserialize>::spec_decode(old(reader).readable()) is None
                && e == <Vec<K> as BorshDeserialize>::spec_decode_err(old(reader).readable())) || (
            e == Error::Io && !old(reader).source_ok()),
        },
{
    let elems = match Vec::<K>::deserialize_reader(reader) {
        Ok(v) => v,
        Err(e) => {
            return Err(e);
        },
    };
    proof {
        assert(elems.model() =~= elems@);
    }
    hash_set_from_vec(elems)
}

/// Builds a set from a vector of elements in order.
fn hash_set_from_vec<K: CanonicalOrd + Eq + Hash>(elems: Vec<K>) -> (r: Result<HashSet<K>, Error>)
    requires
        obeys_key_model::<K>(),
    ensures
        r matches Ok(hs) && hs@ == spec_set_from_elems(elems@),
{
    let ghost es = elems@;
    let mut rest = elems;
    let mut hs: HashSet<K> = HashSet::new();
    let ghost mut gi: int = 0;
    proof {
        assert(es.take(0) =~= Seq::<K>::empty());
        assert(rest@ =~= es.skip(0));
    }
    while rest.len() > 0
        invariant
            obeys_key_model::<K>(),
            0 <= gi,
            gi + rest@.len() == es.len(),
            rest@ == es.skip(gi),
            hs@ == spec_set_from_elems(es.take(gi)),
        decreases rest@.len(),
    {
        let k = rest.remove(0);
        proof {
            assert(k == es[gi]);
            assert(rest@ =~= es.skip(gi + 1));
        }
        hs.insert(k);
        proof {
            assert(es.take(gi + 1).drop_last() =~= es.take(gi));
            assert(es.take(gi + 1).last() == es[gi]);
            gi = gi + 1;
        }
    }
    proof {
        assert(es.take(es.len() as int) =~= es);
    }
    Ok(hs)
}


/// A sequence of strictly ascending entries lays out exactly the map it
/// builds: the canonical entry sequence of its own last-write-wins reading.
pub proof fn lemma_map_from_entries_match<K: CanonicalOrd, W>(es: Seq<(K, W)>)
    requires
        strictly_ascending(entry_keys(es)),
    ensures
        entries_match_map(es, spec_map_from_entries(es)),
        spec_map_from_entries(es).dom().finite(),
    decreases es.len(),
{
    if es.len() == 0 {
        assert(spec_map_from_entries(es).dom() =~= Set::<K>::empty());
    } else {
        let pre = es.drop_last();
        let el = es.last();
        let m0 = spec_map_from_entries(pre);
        let m = spec_map_from_entries(es);
        assert(strictly_ascending(entry_keys(pre))) by {
            assert forall|q: int, q2: int|
                #![trigger entry_keys(pre)[q], entry_keys(pre)[q2]]
                0 <= q && q2 == q + 1 && q2 < entry_keys(pre).len() implies entry_keys(
                pre,
            )[q].lt_spec(entry_keys(pre)[q2]) by {
                assert(entry_keys(pre)[q] == entry_keys(es)[q]);
                assert(entry_keys(pre)[q2] == entry_keys(es)[q2]);
            }
        }
        lemma_map_from_entries_match(pre);
        assert(m == m0.insert(el.0, el.1));
        assert(!m0.dom().contains(el.0)) by {
            if m0.dom().contains(el.0) {
                let q = choose|q: int| 0 <= q < pre.len() && (#[trigger] pre[q]).0 == el.0;
                assert(entry_keys(es)[q] == el.0);
                assert(entry_keys(es)[es.len() - 1] == el.0);
                lemma_ascending_pairwise(entry_keys(es), q, es.len() - 1);
                K::lemma_lt_properties(el.0, el.0, el.0);
                assert(false);
            }
        }
        assert(m.dom() =~= m0.dom().insert(el.0));
        assert(m.dom().len() == es.len());
        assert forall|q: int| 0 <= q < es.len() implies m.contains_pair(
            (#[trigger] es[q]).0,
            es[q].1,
        ) by {
            if q < es.len() - 1 {
                assert(pre[q] == es[q]);
                assert(m0.contains_pair(es[q].0, es[q].1));
                assert(m0.dom().contains(es[q].0));
                assert(es[q].0 != el.0);
            } else {
                assert(es[q] == el);
            }
        }
        assert forall|k: K| #[trigger] m.dom().contains(k) implies exists|q: int|
            0 <= q < es.len() && (#[trigger] es[q]).0 == k by {
            if k == el.0 {
                assert(es[es.len() - 1].0 == k);
            } else {
                assert(m0.dom().contains(k));
                let q = choose|q: int| 0 <= q < pre.len() && (#[trigger] pre[q]).0 == k;
                assert(es[q].0 == k);
            }
        }
    }
}

/// Writing strictly ascending entries as a plain dynamic sequence is the
/// canonical map encoding: a key-ordered source needs no sort step, and its
/// output is identical to the hash-ordered path's.
pub proof fn lemma_sorted_entries_encoding<K: CanonicalOrd + BorshSerialize, W: BorshSerialize>(
    es: Seq<(K, W)>,
)
    requires
        strictly_ascending(entry_keys(es)),
    ensures
        spec_sorted_entries(spec_map_from_entries(es)) == es,
        spec_map_from_entries(es).dom().len() == es.len(),
{
    lemma_map_from_entries_match(es);
    let m = spec_map_from_entries(es);
    let cs = spec_sorted_entries(m);
    assert(exists|s: Seq<(K, W)>| strictly_ascending(entry_keys(s)) && entries_match_map(s, m))
        by {
        assert(strictly_ascending(entry_keys(es)) && entries_match_map(es, m));
    }
    assert(strictly_ascending(entry_keys(cs)) && entries_match_map(cs, m));
    lemma_sorted_entries_unique(es, cs, m);
}

/// Writes entries that already stand in strictly ascending key order, as a
/// key-ordered in-memory map iterates: no sort step, and the bytes equal the
/// canonical encoding of the map the entries describe. Entries out of order
/// are rejected.
pub fn serialize_sorted_entries<K: BorshSerialize + CanonicalOrd, W: BorshSerialize, Wr: Write>(
    entries: &Vec<(K, W)>,
    writer: &mut Wr,
) -> (r: Result<(), Error>)
    ensures
        final(writer).sink_ok() == old(writer).sink_ok(),
        match r {
            Ok(()) => {
                &&& strictly_ascending(entry_keys(entries@))
                &&& spec_map_encodable(spec_map_from_entries(entries@))
                &&& final(writer).written() == old(writer).written() + spec_map_encoding(
                    spec_map_from_entries(entries@),
                )
            },
            Err(e) => {
                ||| (K::spec_zero_sized() && e == Error::ZeroSizedElement)
                ||| (!K::spec_zero_sized() && !strictly_ascending(entry_keys(entries@)) && e
                    == Error::WrongOrderOfKeys)
                ||| (!K::spec_zero_sized() && strictly_ascending(entry_keys(entries@))
                    && !spec_map_encodable(spec_map_from_entries(entries@)) && e
                    == spec_map_encode_err(spec_map_from_entries(entries@)))
                ||| (e == Error::Io && !old(writer).sink_ok())
            },
        },
{
    if K::zero_sized() {
        return Err(Error::ZeroSizedElement);
    }
    let mut i: usize = 1;
    while i < entries.len()
        invariant
            1 <= i,
            !K::spec_zero_sized(),
            writer.sink_ok() == old(writer).sink_ok(),
            writer.written() == old(writer).written(),
            forall|q: int, q2: int|
                #![trigger entries@[q], entries@[q2]]
                0 <= q && q2 == q + 1 && q2 < i ==> entries@[q].0.lt_spec(entries@[q2].0),
        decreases entries@.len() - i,
    {
        if !entries[i - 1].0.lt(&entries[i].0) {
            proof {
                assert(entry_keys(entries@)[i - 1] == entries@[i - 1].0);
                assert(entry_keys(entries@)[i as int] == entries@[i as int].0);
                assert(!strictly_ascending(entry_keys(entries@)));
            }
            return Err(Error::WrongOrderOfKeys);
        }
        i = i + 1;
    }
    proof {
        assert(strictly_ascending(entry_keys(entries@))) by {
            assert forall|q: int, q2: int|
                #![trigger entry_keys(entries@)[q], entry_keys(entries@)[q2]]
                0 <= q && q2 == q + 1 && q2 < entry_keys(entries@).len() implies entry_keys(
                entries@,
            )[q].lt_spec(entry_keys(entries@)[q2]) by {
                assert(entries@[q].0.lt_spec(entries@[q2].0));
            }
        }
        lemma_sorted_entries_encoding::<K, W>(entries@);
    }
    match crate::ser::serialize_len_prefix(entries.len(), writer) {
        Ok(()) => {},
        Err(e) => {
            return Err(e);
        },
    }
    crate::ser::serialize_elements(entries, writer)
}

} // verus!
