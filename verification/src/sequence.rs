//! The contiguous-pattern matcher.
//!
//! A [`Sequence`] is an ordered target pattern of interner handles. Matching
//! asks whether the pattern occurs inside an observed stream of handles as
//! an exact, order-preserving, contiguous run; it is not a subsequence test.

use vstd::prelude::*;

use crate::interner::Interned;
use crate::interner::Interner;

verus! {

/// The pattern `pat` occurs at offset `o` of `stream` as a contiguous run.
pub open spec fn match_at(pat: Seq<Interned>, stream: Seq<Interned>, o: int) -> bool {
    &&& 0 <= o
    &&& o + pat.len() <= stream.len()
    &&& forall|j: int| 0 <= j < pat.len() ==> stream[o + j] == pat[j]
}

/// The pattern occurs somewhere in `stream` as a contiguous run. An empty
/// pattern never matches, nor does a stream shorter than the pattern.
pub open spec fn spec_matches(pat: Seq<Interned>, stream: Seq<Interned>) -> bool {
    pat.len() > 0 && exists|o: int| match_at(pat, stream, o)
}

/// The candidate at offset `o` is still open after the first `upto` stream
/// items: every pattern position already covered by those items matches.
spec fn cand_ok(pat: Seq<Interned>, stream: Seq<Interned>, o: int, upto: int) -> bool {
    forall|j: int| 0 <= j < pat.len() && o + j < upto ==> stream[o + j] == pat[j]
}

/// A failure when building a sequence.
#[derive(Debug, PartialEq, Eq)]
pub enum Error {
    /// A raw value with no handle in the interner.
    NotFound(String),
}

/// Convert a list of raw values into the corresponding interner handles.
///
/// Fails with [`Error::NotFound`] at the first value the interner does not
/// hold.
pub fn make_interned(interner: &Interner, items: &Vec<String>) -> (r: Result<Vec<Interned>, Error>)
    requires
        interner.wf(),
    ensures
        r is Ok <==> (forall|i: int|
            0 <= i < items@.len() ==> interner.contains_value(#[trigger] items@[i]@)),
        r matches Ok(ts) ==> {
            &&& ts@.len() == items@.len()
            &&& forall|i: int|
                0 <= i < items@.len() ==> (#[trigger] ts@[i]).idx < interner@.len()
                    && interner@[ts@[i].idx as int] == items@[i]@
        },
        r matches Err(e) ==> exists|k: int|
            {
                &&& 0 <= k < items@.len()
                &&& !interner.contains_value(#[trigger] items@[k]@)
                &&& forall|j: int| 0 <= j < k ==> interner.contains_value(#[trigger] items@[j]@)
                &&& e matches Error::NotFound(s) && s@ == items@[k]@
            },
{
    let mut out: Vec<Interned> = Vec::new();
    let mut i: usize = 0;
    while i < items.len()
        invariant
            interner.wf(),
            i <= items@.len(),
            out@.len() == i,
            forall|j: int| 0 <= j < i ==> interner.contains_value(#[trigger] items@[j]@),
            forall|j: int|
                0 <= j < i ==> (#[trigger] out@[j]).idx < interner@.len() && interner@[out@[j].idx
                    as int] == items@[j]@,
        decreases items@.len() - i,
    {
        let item = &items[i];
        match interner.get(item.as_str()) {
            Some(t) => {
                out.push(t);
            },
            None => {
                return Err(Error::NotFound(item.as_str().to_owned()));
            },
        }
        i = i + 1;
    }
    Ok(out)
}

/// An ordered target pattern of handles, with an optional display name.
pub struct Sequence {
    name: Option<String>,
    items: Vec<Interned>,
}

impl View for Sequence {
    type V = Seq<Interned>;

    closed spec fn view(&self) -> Seq<Interned> {
        self.items@
    }
}

impl Sequence {
    /// Build a sequence over raw values, resolving each against the
    /// interner.
    pub fn new(interner: &Interner, items: &Vec<String>) -> (r: Result<Self, Error>)
        requires
            interner.wf(),
        ensures
            r is Ok <==> (forall|i: int|
                0 <= i < items@.len() ==> interner.contains_value(#[trigger] items@[i]@)),
            r matches Ok(s) ==> {
                &&& s@.len() == items@.len()
                &&& forall|i: int|
                    0 <= i < items@.len() ==> (#[trigger] s@[i]).idx < interner@.len()
                        && interner@[s@[i].idx as int] == items@[i]@
            },
            r matches Err(e) ==> exists|k: int|
                {
                    &&& 0 <= k < items@.len()
                    &&& !interner.contains_value(#[trigger] items@[k]@)
                    &&& forall|j: int|
                        0 <= j < k ==> interner.contains_value(#[trigger] items@[j]@)
                    &&& e matches Error::NotFound(s) && s@ == items@[k]@
                },
    {
        match make_interned(interner, items) {
            Ok(its) => Ok(Sequence { name: None, items: its }),
            Err(e) => Err(e),
        }
    }

    /// Whether this sequence occurs in the stream as a contiguous run.
    ///
    /// One forward pass keeps a boolean candidate per start offset; a
    /// candidate survives while every consumed stream item matches the
    /// pattern position it covers. Candidates whose window would run past
    /// the end of the stream are discarded at the end: a partial match at
    /// the tail is not a match.
    pub fn is_matched(&self, stream: &Vec<Interned>) -> (r: bool)
        ensures
            r == spec_matches(self@, stream@),
    {
        let pat_len = self.items.len();
        let n = stream.len();
        if pat_len == 0 {
            return false;
        }
        if n < pat_len {
            proof {
                if spec_matches(self@, stream@) {
                    let o = choose|o: int| match_at(self@, stream@, o);
                    assert(o + self@.len() <= stream@.len());
                }
            }
            return false;
        }
        let mut cands: Vec<bool> = Vec::new();
        let mut i: usize = 0;
        while i < n
            invariant
                pat_len == self@.len(),
                n == stream@.len(),
                0 < pat_len <= n,
                i <= n,
                cands@.len() == i,
                forall|o: int| 0 <= o < i ==> cands@[o] == cand_ok(self@, stream@, o, i as int),
            decreases n - i,
        {
            let item = stream[i];
            cands.push(self.items[0] == item);
            proof {
                assert(cands@[i as int] == cand_ok(self@, stream@, i as int, i + 1)) by {
                    if self@[0] == stream@[i as int] {
                        assert forall|j: int|
                            0 <= j < self@.len() && i + j < i + 1 implies stream@[i + j]
                            == self@[j] by {
                            assert(j == 0);
                        }
                    } else {
                        assert(!cand_ok(self@, stream@, i as int, i + 1)) by {
                            assert(0 <= 0 < self@.len() && i + 0 < i + 1);
                        }
                    }
                }
            }
            let mut o: usize = 0;
            while o < i
                invariant
                    pat_len == self@.len(),
                    n == stream@.len(),
                    0 < pat_len <= n,
                    o <= i < n,
                    cands@.len() == i + 1,
                    item == stream@[i as int],
                    forall|q: int|
                        0 <= q < o ==> cands@[q] == cand_ok(self@, stream@, q, i + 1),
                    forall|q: int|
                        o <= q < i ==> cands@[q] == cand_ok(self@, stream@, q, i as int),
                    cands@[i as int] == cand_ok(self@, stream@, i as int, i + 1),
                decreases i - o,
            {
                let d = i - o;
                if d < pat_len {
                    let keep = cands[o] && self.items[d] == item;
                    cands[o] = keep;
                    proof {
                        assert(cand_ok(self@, stream@, o as int, i + 1) <==> (cand_ok(
                            self@,
                            stream@,
                            o as int,
                            i as int,
                        ) && stream@[i as int] == self@[d as int])) by {
                            if cand_ok(self@, stream@, o as int, i as int) && stream@[i as int]
                                == self@[d as int] {
                                assert forall|j: int|
                                    0 <= j < self@.len() && o + j < i + 1 implies stream@[o + j]
                                    == self@[j] by {
                                    if o + j == i {
                                        assert(j == d);
                                    }
                                }
                            }
                            if cand_ok(self@, stream@, o as int, i + 1) {
                                assert(0 <= d < self@.len() && o + d < i + 1);
                                assert(stream@[o + d] == self@[d as int]);
                            }
                        }
                    }
                } else {
                    proof {
                        assert(cand_ok(self@, stream@, o as int, i + 1) <==> cand_ok(
                            self@,
                            stream@,
                            o as int,
                            i as int,
                        )) by {
                            if cand_ok(self@, stream@, o as int, i as int) {
                                assert forall|j: int|
                                    0 <= j < self@.len() && o + j < i + 1 implies stream@[o + j]
                                    == self@[j] by {
                                    assert(j < pat_len <= d);
                                    assert(o + j < i);
                                }
                            }
                        }
                    }
                }
                o = o + 1;
            }
            i = i + 1;
        }
        // a partial match at the tail is not a match: keep only candidates
        // whose full window fits in the stream
        let keep_len = n - pat_len + 1;
        cands.truncate(keep_len);
        let mut o: usize = 0;
        while o < cands.len()
            invariant
                pat_len == self@.len(),
                n == stream@.len(),
                0 < pat_len <= n,
                cands@.len() == n - pat_len + 1,
                o <= cands@.len(),
                forall|q: int|
                    0 <= q < cands@.len() ==> cands@[q] == cand_ok(self@, stream@, q, n as int),
                forall|q: int| 0 <= q < o ==> !cand_ok(self@, stream@, q, n as int),
            decreases cands@.len() - o,
        {
            if cands[o] {
                proof {
                    assert(match_at(self@, stream@, o as int)) by {
                        assert forall|j: int| 0 <= j < self@.len() implies stream@[o + j]
                            == self@[j] by {
                            assert(o + j < o + pat_len);
                            assert(o + pat_len <= n);
                        }
                    }
                }
                return true;
            }
            o = o + 1;
        }
        proof {
            assert forall|q: int| !match_at(self@, stream@, q) by {
                if match_at(self@, stream@, q) {
                    assert(0 <= q <= n - pat_len);
                    assert(!cand_ok(self@, stream@, q, n as int));
                    let j = choose|j: int|
                        0 <= j < self@.len() && q + j < n && stream@[q + j] != self@[j];
                    assert(stream@[q + j] == self@[j]);
                }
            }
        }
        false
    }
}

} // verus!
