//! A deduplicating store of values that issues cheaply comparable handles.
//!
//! An [`Interner`] owns a sorted, duplicate-free sequence of values and hands
//! out [`Interned`] handles: plain indices into that store. Two handles from
//! the same interner are equal exactly when they reference the same value, so
//! comparing handles replaces comparing the values themselves. Handles are
//! only meaningful against the interner that issued them; the store must not
//! be grown while handles derived from it are still in use.

use vstd::prelude::*;

use crate::order::lemma_lex_asymmetric;
use crate::order::lemma_lex_connected;
use crate::order::lemma_lex_irreflexive;
use crate::order::lemma_lex_transitive;
use crate::order::lex_lt;
use crate::order::str_compare;
use crate::order::StrOrd;

verus! {

/// A copyable handle referencing one value owned by an [`Interner`].
///
/// Handles compare equal exactly when they reference the same entry of the
/// same interner; handles of different interners are incomparable.
#[derive(Clone, Copy, Debug, PartialEq, Eq, Structural)]
pub struct Interned {
    /// Position of the referenced value in the owning interner's store.
    pub idx: usize,
}

/// Every earlier entry compares strictly below every later one; in
/// particular, no value appears twice.
pub open spec fn sorted_strict(s: Seq<Seq<char>>) -> bool {
    forall|i: int, j: int| 0 <= i < j < s.len() ==> lex_lt(#[trigger] s[i], #[trigger] s[j])
}

/// In a strictly sorted store, each value stands at one index only.
pub proof fn lemma_sorted_index_unique(s: Seq<Seq<char>>, i: int, j: int)
    requires
        sorted_strict(s),
        0 <= i < s.len(),
        0 <= j < s.len(),
        s[i] == s[j],
    ensures
        i == j,
{
    lemma_lex_irreflexive(s[i]);
}

/// Two handles into one store that dereference to the same value are the
/// same handle: in particular, inserting a value twice yields the same
/// handle both times.
pub proof fn lemma_same_value_same_handle(s: Seq<Seq<char>>, t1: Interned, t2: Interned)
    requires
        sorted_strict(s),
        t1.idx < s.len(),
        t2.idx < s.len(),
        s[t1.idx as int] == s[t2.idx as int],
    ensures
        t1 == t2,
{
    lemma_sorted_index_unique(s, t1.idx as int, t2.idx as int);
}

/// Every earlier entry compares no higher than every later one; duplicates
/// may still be present.
pub open spec fn sorted_weak(s: Seq<Seq<char>>) -> bool {
    forall|i: int, j: int| 0 <= i < j < s.len() ==> !lex_lt(#[trigger] s[j], #[trigger] s[i])
}

/// The views of a sequence of strings.
pub open spec fn string_views(s: Seq<String>) -> Seq<Seq<char>> {
    s.map_values(|v: String| v@)
}

/// Inserting into a sequence adds exactly the inserted element to its
/// contents.
pub proof fn lemma_insert_contains<A>(s: Seq<A>, v: A, idx: int)
    requires
        0 <= idx <= s.len(),
    ensures
        forall|w: A| #[trigger] s.insert(idx, v).contains(w) <==> s.contains(w) || w == v,
{
    s.insert_ensures(idx, v);
    let t = s.insert(idx, v);
    assert forall|w: A| #[trigger] t.contains(w) implies s.contains(w) || w == v by {
        let i = choose|i: int| 0 <= i < t.len() && t[i] == w;
        if i < idx {
            assert(s[i] == w);
        } else if i > idx {
            assert(s[i - 1] == w);
        }
    }
    assert forall|w: A| s.contains(w) || w == v implies #[trigger] t.contains(w) by {
        if s.contains(w) {
            let i = choose|i: int| 0 <= i < s.len() && s[i] == w;
            if i < idx {
                assert(t[i] == w);
            } else {
                assert(t[i + 1] == w);
            }
        } else {
            assert(t[idx] == w);
        }
    }
}

/// Removing the head of a sequence removes at most that one value from its
/// contents.
proof fn lemma_remove_first_contains<A>(s: Seq<A>)
    requires
        s.len() > 0,
    ensures
        forall|w: A| #[trigger] s.contains(w) <==> (w == s[0] || s.remove(0).contains(w)),
{
    s.remove_ensures(0);
    let t = s.remove(0);
    assert forall|w: A| #[trigger] s.contains(w) implies (w == s[0] || t.contains(w)) by {
        let i = choose|i: int| 0 <= i < s.len() && s[i] == w;
        if i > 0 {
            assert(t[i - 1] == w);
        }
    }
    assert forall|w: A| (w == s[0] || t.contains(w)) implies #[trigger] s.contains(w) by {
        if t.contains(w) {
            let i = choose|i: int| 0 <= i < t.len() && t[i] == w;
            assert(s[i + 1] == w);
        } else {
            assert(s[0] == w);
        }
    }
}

/// A deduplicated, ordered store of values.
#[derive(Debug, Clone, PartialEq, Eq)]
pub struct Interner {
    values: Vec<String>,
}

impl View for Interner {
    type V = Seq<Seq<char>>;

    closed spec fn view(&self) -> Seq<Seq<char>> {
        string_views(self.values@)
    }
}

impl Default for Interner {
    /// An empty interner.
    fn default() -> (r: Self)
        ensures
            r@.len() == 0,
            r.wf(),
    {
        Interner { values: Vec::new() }
    }
}

impl Interner {
    /// The backing store is always sorted ascending and free of duplicates.
    pub open spec fn wf(&self) -> bool {
        sorted_strict(self@)
    }

    /// The store holds `v`.
    pub open spec fn contains_value(&self, v: Seq<char>) -> bool {
        exists|i: int| 0 <= i < self@.len() && self@[i] == v
    }

    /// An empty interner.
    pub fn new() -> (r: Self)
        ensures
            r@.len() == 0,
            r.wf(),
    {
        Interner { values: Vec::new() }
    }

    /// The handle for position `idx` of this interner's store.
    fn interned(&self, idx: usize) -> (t: Interned)
        ensures
            t.idx == idx,
    {
        Interned { idx }
    }

    /// The value a handle references.
    pub fn value(&self, t: Interned) -> (r: &String)
        requires
            t.idx < self@.len(),
        ensures
            r@ == self@[t.idx as int],
    {
        &self.values[t.idx]
    }

    /// Binary search for `value`: the index holding it, or else the index
    /// where it would be inserted to keep the store sorted.
    fn search(&self, value: &str) -> (r: Result<usize, usize>)
        requires
            self.wf(),
        ensures
            match r {
                Ok(idx) => idx < self@.len() && self@[idx as int] == value@,
                Err(idx) => {
                    &&& idx <= self@.len()
                    &&& forall|k: int| 0 <= k < idx ==> lex_lt(#[trigger] self@[k], value@)
                    &&& forall|k: int|
                        idx <= k < self@.len() ==> lex_lt(value@, #[trigger] self@[k])
                },
            },
    {
        let mut lo: usize = 0;
        let mut hi: usize = self.values.len();
        while lo < hi
            invariant
                self.wf(),
                lo <= hi <= self.values.len(),
                self@.len() == self.values.len(),
                forall|k: int| 0 <= k < lo ==> lex_lt(#[trigger] self@[k], value@),
                forall|k: int| hi <= k < self@.len() ==> lex_lt(value@, #[trigger] self@[k]),
            decreases hi - lo,
        {
            let mid = lo + (hi - lo) / 2;
            match str_compare(self.values[mid].as_str(), value) {
                StrOrd::Equal => {
                    return Ok(mid);
                },
                StrOrd::Less => {
                    assert forall|k: int| 0 <= k < mid + 1 implies lex_lt(
                        #[trigger] self@[k],
                        value@,
                    ) by {
                        if k < mid {
                            lemma_lex_transitive(self@[k], self@[mid as int], value@);
                        }
                    }
                    lo = mid + 1;
                },
                StrOrd::Greater => {
                    assert forall|k: int| mid <= k < self@.len() implies lex_lt(
                        value@,
                        #[trigger] self@[k],
                    ) by {
                        if k > mid {
                            lemma_lex_transitive(value@, self@[mid as int], self@[k]);
                        }
                    }
                    hi = mid;
                },
            }
        }
        Err(lo)
    }

    /// The handle for `value`, if the store holds it.
    pub fn get(&self, value: &str) -> (r: Option<Interned>)
        requires
            self.wf(),
        ensures
            r is Some <==> self.contains_value(value@),
            match r {
                Some(t) => t.idx < self@.len() && self@[t.idx as int] == value@,
                None => true,
            },
    {
        match self.search(value) {
            Ok(idx) => Some(self.interned(idx)),
            Err(_) => {
                proof {
                    lemma_lex_irreflexive(value@);
                }
                None
            },
        }
    }

    /// Insert `value`, keeping the store sorted and duplicate-free.
    ///
    /// If an equal value is already stored, the store is left untouched and
    /// the existing entry's handle is returned, so inserting the same value
    /// twice yields the same handle.
    pub fn insert(&mut self, value: String) -> (t: Interned)
        requires
            old(self).wf(),
        ensures
            final(self).wf(),
            t.idx < final(self)@.len(),
            final(self)@[t.idx as int] == value@,
            old(self).contains_value(value@) ==> final(self)@ == old(self)@,
            !old(self).contains_value(value@) ==> final(self)@ == old(self)@.insert(
                t.idx as int,
                value@,
            ),
    {
        match self.search(value.as_str()) {
            Ok(idx) => self.interned(idx),
            Err(idx) => {
                proof {
                    lemma_lex_irreflexive(value@);
                    old(self)@.insert_ensures(idx as int, value@);
                    lemma_insert_keeps_sorted(old(self)@, value@, idx as int);
                }
                self.values.insert(idx, value);
                assert(self@ =~= old(self)@.insert(idx as int, value@));
                self.interned(idx)
            },
        }
    }

    /// Insert all provided values, keeping the store sorted and
    /// duplicate-free.
    ///
    /// The batch is sorted, then merged against the existing store in one
    /// linear pass; a batch value equal to an existing or already-merged
    /// value is skipped, so on a collision the pre-existing entry is kept.
    /// For large batches this is cheaper than inserting one value at a time,
    /// and by [`lemma_extend_equals_individual_inserts`] it stores exactly
    /// the same values.
    pub fn extend(&mut self, values: Vec<String>)
        requires
            old(self).wf(),
        ensures
            final(self).wf(),
            forall|w: Seq<char>| #![auto]
                final(self)@.contains(w) <==> old(self)@.contains(w) || string_views(
                    values@,
                ).contains(w),
    {
        let ghost batch = string_views(values@);
        let mut right = sort_batch(values);
        let mut left: Vec<String> = Vec::new();
        core::mem::swap(&mut self.values, &mut left);
        let ghost lv = string_views(left@);
        let mut merged: Vec<String> = Vec::new();
        while left.len() > 0 || right.len() > 0
            invariant
                sorted_strict(string_views(merged@)),
                sorted_strict(string_views(left@)),
                sorted_weak(string_views(right@)),
                left@.len() > 0 && merged@.len() > 0 ==> lex_lt(
                    string_views(merged@).last(),
                    string_views(left@)[0],
                ),
                right@.len() > 0 && merged@.len() > 0 ==> !lex_lt(
                    string_views(right@)[0],
                    string_views(merged@).last(),
                ),
                forall|w: Seq<char>| #![auto]
                    (string_views(merged@).contains(w) || string_views(left@).contains(w)
                        || string_views(right@).contains(w)) <==> (lv.contains(w)
                        || batch.contains(w)),
            decreases left@.len() + right@.len(),
        {
            let take_left: bool = if right.len() == 0 {
                true
            } else if left.len() == 0 {
                false
            } else {
                match str_compare(left[0].as_str(), right[0].as_str()) {
                    StrOrd::Greater => false,
                    _ => true,
                }
            };
            let ghost mv = string_views(merged@);
            let ghost pl = string_views(left@);
            let ghost pr = string_views(right@);
            let next: String;
            if take_left {
                proof {
                    lemma_remove_first_contains(pl);
                }
                next = left.remove(0);
                proof {
                    pl.remove_ensures(0);
                    assert(string_views(left@) =~= pl.remove(0));
                }
            } else {
                proof {
                    lemma_remove_first_contains(pr);
                }
                next = right.remove(0);
                proof {
                    pr.remove_ensures(0);
                    assert(string_views(right@) =~= pr.remove(0));
                }
            }
            let duplicate: bool = if merged.len() > 0 {
                match str_compare(merged[merged.len() - 1].as_str(), next.as_str()) {
                    StrOrd::Equal => true,
                    _ => false,
                }
            } else {
                false
            };
            if duplicate {
                proof {
                    assert(mv.contains(next@)) by {
                        assert(mv.last() == next@);
                    }
                }
            } else {
                proof {
                    if mv.len() > 0 {
                        assert(lex_lt(mv.last(), next@)) by {
                            if !take_left && !lex_lt(mv.last(), next@) {
                                lemma_lex_connected(next@, mv.last());
                            }
                        }
                        assert forall|i: int| 0 <= i < mv.len() implies lex_lt(
                            #[trigger] mv[i],
                            next@,
                        ) by {
                            if i < mv.len() - 1 {
                                lemma_lex_transitive(mv[i], mv.last(), next@);
                            }
                        }
                    }
                    lemma_push_contains(mv, next@);
                }
                merged.push(next);
                proof {
                    assert(string_views(merged@) =~= mv.push(next@));
                }
            }
            proof {
                if !duplicate {
                    assert(string_views(merged@).last() == next@);
                }
                if left@.len() > 0 && merged@.len() > 0 {
                    assert(lex_lt(string_views(merged@).last(), string_views(left@)[0])) by {
                        if take_left {
                            assert(string_views(left@)[0] == pl[1]);
                            assert(string_views(merged@).last() == pl[0]);
                            assert(lex_lt(pl[0], pl[1]));
                        } else {
                            assert(string_views(left@) == pl);
                            if !duplicate {
                                assert(lex_lt(pr[0], pl[0]));
                            }
                        }
                    }
                }
                if right@.len() > 0 && merged@.len() > 0 {
                    assert(!lex_lt(string_views(right@)[0], string_views(merged@).last())) by {
                        if take_left {
                            assert(string_views(right@) == pr);
                            if !duplicate {
                                if lex_lt(pr[0], pl[0]) {
                                    lemma_lex_asymmetric(pr[0], pl[0]);
                                }
                                lemma_lex_irreflexive(pl[0]);
                            }
                        } else {
                            assert(string_views(right@)[0] == pr[1]);
                            assert(!lex_lt(pr[1], pr[0]));
                            if duplicate {
                                assert(string_views(merged@).last() == pr[0]);
                            }
                        }
                    }
                }
            }
        }
        self.values = merged;
    }
}

/// Appending a value to a sequence adds exactly that value to its contents.
proof fn lemma_push_contains<A>(s: Seq<A>, v: A)
    ensures
        forall|w: A| #[trigger] s.push(v).contains(w) <==> s.contains(w) || w == v,
{
    let t = s.push(v);
    assert forall|w: A| #[trigger] t.contains(w) implies s.contains(w) || w == v by {
        let i = choose|i: int| 0 <= i < t.len() && t[i] == w;
        if i < s.len() {
            assert(s[i] == w);
        }
    }
    assert forall|w: A| s.contains(w) || w == v implies #[trigger] t.contains(w) by {
        if s.contains(w) {
            let i = choose|i: int| 0 <= i < s.len() && s[i] == w;
            assert(t[i] == w);
        } else {
            assert(t[s.len() as int] == w);
        }
    }
}

/// Inserting a value at a position below everything not smaller than it, and
/// above everything smaller, keeps a weakly sorted sequence weakly sorted.
proof fn lemma_insert_keeps_sorted_weak(s: Seq<Seq<char>>, v: Seq<char>, idx: int)
    requires
        sorted_weak(s),
        0 <= idx <= s.len(),
        forall|k: int| 0 <= k < idx ==> lex_lt(#[trigger] s[k], v),
        forall|k: int| idx <= k < s.len() ==> !lex_lt(#[trigger] s[k], v),
    ensures
        sorted_weak(s.insert(idx, v)),
{
    let t = s.insert(idx, v);
    s.insert_ensures(idx, v);
    assert forall|i: int, j: int| 0 <= i < j < t.len() implies !lex_lt(
        #[trigger] t[j],
        #[trigger] t[i],
    ) by {
        if i < idx {
            assert(t[i] == s[i]);
        } else if i == idx {
            assert(t[i] == v);
        } else {
            assert(t[i] == s[i - 1]);
        }
        if j < idx {
            assert(t[j] == s[j]);
        } else if j == idx {
            assert(t[j] == v);
        } else {
            assert(t[j] == s[j - 1]);
        }
        if i < idx && j == idx {
            if lex_lt(v, s[i]) {
                lemma_lex_asymmetric(s[i], v);
            }
        }
    }
}

/// Sort a batch of values ascending; duplicates are kept.
fn sort_batch(values: Vec<String>) -> (r: Vec<String>)
    ensures
        sorted_weak(string_views(r@)),
        forall|w: Seq<char>| #[trigger] string_views(r@).contains(w) <==> string_views(
            values@,
        ).contains(w),
{
    let ghost orig = string_views(values@);
    let mut rest = values;
    let mut out: Vec<String> = Vec::new();
    while rest.len() > 0
        invariant
            sorted_weak(string_views(out@)),
            forall|w: Seq<char>| #![auto]
                (string_views(out@).contains(w) || string_views(rest@).contains(w))
                    <==> orig.contains(w),
        decreases rest.len(),
    {
        let ghost prev_rest = rest@;
        let x = match rest.pop() {
            Some(x) => x,
            None => {
                proof {
                    assert(false);
                }
                return out;
            },
        };
        proof {
            assert(string_views(prev_rest) =~= string_views(rest@).push(x@));
            lemma_push_contains(string_views(rest@), x@);
        }
        let mut k: usize = 0;
        while k < out.len() && str_compare(out[k].as_str(), x.as_str()) == StrOrd::Less
            invariant
                k <= out.len(),
                forall|j: int| 0 <= j < k ==> lex_lt(#[trigger] string_views(out@)[j], x@),
            decreases out.len() - k,
        {
            k = k + 1;
        }
        let ghost prev_out = string_views(out@);
        proof {
            assert forall|j: int| k <= j < prev_out.len() implies !lex_lt(
                #[trigger] prev_out[j],
                x@,
            ) by {
                if j > k && lex_lt(prev_out[j], x@) {
                    if lex_lt(x@, prev_out[k as int]) {
                        lemma_lex_transitive(prev_out[j], x@, prev_out[k as int]);
                    } else {
                        lemma_lex_connected(prev_out[k as int], x@);
                    }
                }
            }
            lemma_insert_keeps_sorted_weak(prev_out, x@, k as int);
            lemma_insert_contains(prev_out, x@, k as int);
        }
        out.insert(k, x);
        proof {
            assert(string_views(out@) =~= prev_out.insert(k as int, x@));
            assert forall|w: Seq<char>| #![auto]
                (string_views(out@).contains(w) || string_views(rest@).contains(w))
                    <==> orig.contains(w) by {
                assert(string_views(out@).contains(w) <==> prev_out.contains(w) || w == x@);
                assert(string_views(prev_rest).contains(w) <==> string_views(rest@).contains(w)
                    || w == x@);
                assert((prev_out.contains(w) || string_views(prev_rest).contains(w))
                    <==> orig.contains(w));
            }
        }
    }
    out
}

/// A strictly sorted store is fully determined by the set of values it
/// holds: two sorted duplicate-free stores with the same contents are equal.
pub proof fn lemma_sorted_unique_by_contents(s: Seq<Seq<char>>, t: Seq<Seq<char>>)
    requires
        sorted_strict(s),
        sorted_strict(t),
        forall|w: Seq<char>| #[trigger] s.contains(w) <==> t.contains(w),
    ensures
        s == t,
    decreases s.len(),
{
    if s.len() == 0 {
        if t.len() > 0 {
            assert(t.contains(t[0]));
            assert(s.contains(t[0]));
            assert(false);
        }
        assert(s =~= t);
    } else {
        assert(s.contains(s[0]));
        assert(t.contains(s[0]));
        let i = choose|i: int| 0 <= i < t.len() && t[i] == s[0];
        assert(t.contains(t[0]));
        assert(s.contains(t[0]));
        let j = choose|j: int| 0 <= j < s.len() && s[j] == t[0];
        if i > 0 {
            assert(lex_lt(t[0], s[0]));
            if j > 0 {
                assert(lex_lt(s[0], t[0]));
                lemma_lex_asymmetric(s[0], t[0]);
            } else {
                lemma_lex_irreflexive(s[0]);
            }
            assert(false);
        }
        assert(t[0] == s[0]);
        let s1 = s.remove(0);
        let t1 = t.remove(0);
        s.remove_ensures(0);
        t.remove_ensures(0);
        lemma_remove_first_contains(s);
        lemma_remove_first_contains(t);
        assert forall|p: int, q: int| 0 <= p < q < s1.len() implies lex_lt(
            #[trigger] s1[p],
            #[trigger] s1[q],
        ) by {
            assert(s1[p] == s[p + 1]);
            assert(s1[q] == s[q + 1]);
        }
        assert forall|p: int, q: int| 0 <= p < q < t1.len() implies lex_lt(
            #[trigger] t1[p],
            #[trigger] t1[q],
        ) by {
            assert(t1[p] == t[p + 1]);
            assert(t1[q] == t[q + 1]);
        }
        assert forall|w: Seq<char>| #[trigger] s1.contains(w) <==> t1.contains(w) by {
            if s1.contains(w) {
                let k = choose|k: int| 0 <= k < s1.len() && s1[k] == w;
                assert(s[k + 1] == w);
                if w == s[0] {
                    assert(lex_lt(s[0], s[k + 1]));
                    lemma_lex_irreflexive(s[0]);
                }
                assert(s.contains(w));
                assert(t.contains(w));
            }
            if t1.contains(w) {
                let k = choose|k: int| 0 <= k < t1.len() && t1[k] == w;
                assert(t[k + 1] == w);
                if w == t[0] {
                    assert(lex_lt(t[0], t[k + 1]));
                    lemma_lex_irreflexive(t[0]);
                }
                assert(t.contains(w));
                assert(s.contains(w));
            }
        }
        lemma_sorted_unique_by_contents(s1, t1);
        assert forall|k: int| 0 <= k < s.len() implies s[k] == t[k] by {
            if k > 0 {
                assert(s[k] == s1[k - 1]);
                assert(t[k] == t1[k - 1]);
            }
        }
        assert(s =~= t);
    }
}

/// Extending in bulk builds the same store as inserting each batch element
/// individually.
///
/// `bulk` is a store as [`Interner::extend`] leaves it: sorted,
/// duplicate-free, holding exactly the prior values and the batch values.
/// `one_by_one` is a store left by a chain of [`Interner::insert`] calls, one
/// per batch element, which by [`lemma_insert_contains`] holds exactly the
/// same values. The two stores are then equal outright.
pub proof fn lemma_extend_equals_individual_inserts(
    bulk: Seq<Seq<char>>,
    one_by_one: Seq<Seq<char>>,
    before: Seq<Seq<char>>,
    batch: Seq<Seq<char>>,
)
    requires
        sorted_strict(bulk),
        sorted_strict(one_by_one),
        forall|w: Seq<char>| #![auto]
            bulk.contains(w) <==> before.contains(w) || batch.contains(w),
        forall|w: Seq<char>| #![auto]
            one_by_one.contains(w) <==> before.contains(w) || batch.contains(w),
    ensures
        bulk == one_by_one,
{
    assert forall|w: Seq<char>| #[trigger] bulk.contains(w) <==> one_by_one.contains(w) by {}
    lemma_sorted_unique_by_contents(bulk, one_by_one);
}

/// Inserting a value at its search position keeps the store strictly sorted.
proof fn lemma_insert_keeps_sorted(s: Seq<Seq<char>>, v: Seq<char>, idx: int)
    requires
        sorted_strict(s),
        0 <= idx <= s.len(),
        forall|k: int| 0 <= k < idx ==> lex_lt(#[trigger] s[k], v),
        forall|k: int| idx <= k < s.len() ==> lex_lt(v, #[trigger] s[k]),
    ensures
        sorted_strict(s.insert(idx, v)),
{
    let t = s.insert(idx, v);
    s.insert_ensures(idx, v);
    assert forall|i: int, j: int| 0 <= i < j < t.len() implies lex_lt(
        #[trigger] t[i],
        #[trigger] t[j],
    ) by {
        if i < idx {
            assert(t[i] == s[i]);
        } else if i == idx {
            assert(t[i] == v);
        } else {
            assert(t[i] == s[i - 1]);
        }
        if j < idx {
            assert(t[j] == s[j]);
        } else if j == idx {
            assert(t[j] == v);
        } else {
            assert(t[j] == s[j - 1]);
        }
    }
}

} // verus!
