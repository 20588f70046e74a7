//! An exhaustive solver for the "Breach Protocol" hacking minigame.
//!
//! A player selects cells from a rectangular grid of values along an
//! alternating row/column constraint, filling a bounded buffer, and scores
//! when the buffer contains one or more target patterns as contiguous runs.
//! The object of the game is to overlap the target patterns so that as many
//! as possible are completed within one buffer.
//!
//! The crate is organised around four components:
//! - [`Interner`]: a deduplicating, ordered store of values that issues
//!   cheaply comparable handles ([`Interned`]).
//! - [`Matrix`]: the selection state machine over a [`Grid`] of handles,
//!   enforcing the alternating active-line rule.
//! - [`Sequence`]: the contiguous-pattern matcher.
//! - [`BreachProtocol::solve`]: the exhaustive backtracking search, which
//!   reports every full buffer realizing at least one target sequence.
//!
//! The caller is expected to intern every board and sequence value first,
//! then build the grid and the sequences from the handles so issued, and
//! only then search; the interner must not be grown while those handles are
//! in use.

use vstd::prelude::*;

pub mod grid;
pub mod interner;
pub mod matrix;
pub mod order;
pub mod sequence;

pub use grid::Grid;
pub use interner::{Interned, Interner};
pub use matrix::{Active, Error, Matrix};
pub use sequence::Sequence;

use crate::matrix::MatrixView;
use crate::sequence::spec_matches;

verus! {

/// One solution: a realized buffer together with the indices of the target
/// sequences it completes.
pub struct Solution {
    /// The buffer contents, captured by value: later matrix moves do not
    /// disturb it.
    pub buffer: Vec<Interned>,
    /// Indices into the caller's sequence list that matched the buffer.
    pub matches: Vec<usize>,
}

impl View for Solution {
    type V = (Seq<Interned>, Seq<usize>);

    closed spec fn view(&self) -> (Seq<Interned>, Seq<usize>) {
        (self.buffer@, self.matches@)
    }
}

/// The views of a list of sequences: their target patterns.
pub open spec fn seq_views(seqs: Seq<Sequence>) -> Seq<Seq<Interned>> {
    seqs.map_values(|s: Sequence| s@)
}

/// The views of a list of solutions.
pub open spec fn sol_views(sols: Seq<Solution>) -> Seq<(Seq<Interned>, Seq<usize>)> {
    sols.map_values(|s: Solution| s@)
}

/// The indices among the first `k` patterns that match the buffer, in
/// increasing order.
pub open spec fn matched_indices(
    pats: Seq<Seq<Interned>>,
    buffer: Seq<Interned>,
    k: int,
) -> Seq<usize>
    decreases k,
{
    if k <= 0 {
        Seq::empty()
    } else if spec_matches(pats[k - 1], buffer) {
        matched_indices(pats, buffer, k - 1).push((k - 1) as usize)
    } else {
        matched_indices(pats, buffer, k - 1)
    }
}

/// What a full buffer contributes: one solution carrying the buffer and its
/// matched indices, or nothing when no pattern matches.
pub open spec fn leaf_solutions(m: MatrixView, pats: Seq<Seq<Interned>>) -> Seq<
    (Seq<Interned>, Seq<usize>),
> {
    let idxs = matched_indices(pats, m.buffer(), pats.len() as int);
    if idxs.len() > 0 {
        seq![(m.buffer(), idxs)]
    } else {
        Seq::empty()
    }
}

/// Every solution of the exhaustive search from state `m`, in depth-first
/// pre-order: at a full buffer the leaf contribution, otherwise the
/// solutions below each legal move in enumeration order.
pub open spec fn spec_solve(m: MatrixView, pats: Seq<Seq<Interned>>, buffer_size: usize) -> Seq<
    (Seq<Interned>, Seq<usize>),
>
    decreases buffer_size - m.selections.len(), 1int, 0int,
{
    if m.selections.len() >= buffer_size {
        leaf_solutions(m, pats)
    } else {
        spec_solve_upto(m, pats, buffer_size, m.legal(), m.legal().len() as int)
    }
}

/// The solutions contributed by the first `k` legal moves of state `m`.
pub open spec fn spec_solve_upto(
    m: MatrixView,
    pats: Seq<Seq<Interned>>,
    buffer_size: usize,
    coords: Seq<(usize, usize)>,
    k: int,
) -> Seq<(Seq<Interned>, Seq<usize>)>
    decreases buffer_size - m.selections.len(), 0int, k,
{
    if k <= 0 || m.selections.len() >= buffer_size {
        Seq::empty()
    } else {
        spec_solve_upto(m, pats, buffer_size, coords, k - 1) + spec_solve(
            m.spec_select(coords[k - 1].0, coords[k - 1].1),
            pats,
            buffer_size,
        )
    }
}

/// Solving is deterministic and idempotent: the reported solutions are a
/// function of the starting position, the target patterns, and the buffer
/// size alone, and solving hands the matrix back unchanged, so repeated
/// runs on equivalent inputs report the same solutions, in the same order,
/// with the same content.
pub proof fn lemma_solve_deterministic(
    m: MatrixView,
    pats: Seq<Seq<Interned>>,
    buffer_size: usize,
    r1: Seq<Solution>,
    r2: Seq<Solution>,
)
    requires
        sol_views(r1) == spec_solve(m, pats, buffer_size),
        sol_views(r2) == spec_solve(m, pats, buffer_size),
    ensures
        sol_views(r1) == sol_views(r2),
{
}

/// The Breach Protocol minigame solver: the interner that issued every
/// handle on the board and in the targets, and the buffer capacity.
pub struct BreachProtocol {
    /// The interner every handle was issued by. It must not be grown while
    /// matrices, sequences, or solutions built against it are in use.
    pub interner: Interner,
    /// How many selections fill the buffer.
    pub buffer_size: usize,
}

impl BreachProtocol {
    /// Exhaustively search every legal buffer of exactly `buffer_size`
    /// selections and report each buffer completing at least one target
    /// sequence, in depth-first pre-order.
    ///
    /// The matrix is handed back exactly as it came.
    pub fn solve(&self, matrix: &mut Matrix, sequences: &Vec<Sequence>) -> (r: Vec<Solution>)
        requires
            old(matrix)@.wf(),
        ensures
            final(matrix)@ == old(matrix)@,
            sol_views(r@) == spec_solve(old(matrix)@, seq_views(sequences@), self.buffer_size),
    {
        let mut solutions: Vec<Solution> = Vec::new();
        proof {
            assert(sol_views(solutions@) =~= Seq::<(Seq<Interned>, Seq<usize>)>::empty());
        }
        self.solve_inner(matrix, sequences, &mut solutions);
        proof {
            assert(sol_views(solutions@) =~= spec_solve(
                old(matrix)@,
                seq_views(sequences@),
                self.buffer_size,
            ));
        }
        solutions
    }

    /// One step of the backtracking search: below `buffer_size` selections,
    /// try every legal move in order (select, recurse, deselect); at
    /// `buffer_size` selections, match every sequence against the buffer.
    fn solve_inner(
        &self,
        matrix: &mut Matrix,
        sequences: &Vec<Sequence>,
        solutions: &mut Vec<Solution>,
    )
        requires
            old(matrix)@.wf(),
        ensures
            final(matrix)@ == old(matrix)@,
            sol_views(final(solutions)@) == sol_views(old(solutions)@) + spec_solve(
                old(matrix)@,
                seq_views(sequences@),
                self.buffer_size,
            ),
        decreases self.buffer_size - old(matrix)@.selections.len(),
    {
        let ghost m0 = matrix@;
        let ghost pats = seq_views(sequences@);
        let depth = matrix.selected_len();
        if depth < self.buffer_size {
            let legal = matrix.legal_selections();
            let ghost sols0 = solutions@;
            let mut k: usize = 0;
            proof {
                assert(sol_views(solutions@) =~= sol_views(sols0) + spec_solve_upto(
                    m0,
                    pats,
                    self.buffer_size,
                    legal@,
                    0,
                ));
            }
            while k < legal.len()
                invariant
                    m0 == old(matrix)@,
                    matrix@ == m0,
                    m0.wf(),
                    legal@ == m0.legal(),
                    depth == m0.selections.len(),
                    depth < self.buffer_size,
                    pats == seq_views(sequences@),
                    k <= legal@.len(),
                    sol_views(solutions@) == sol_views(sols0) + spec_solve_upto(
                        m0,
                        pats,
                        self.buffer_size,
                        legal@,
                        k as int,
                    ),
                decreases legal@.len() - k,
            {
                let p = legal[k];
                proof {
                    crate::matrix::lemma_legal_elem(m0, k as int);
                }
                let res = matrix.select(p.0, p.1);
                proof {
                    assert(res is Ok);
                    assert(matrix@ == m0.spec_select(p.0, p.1));
                    assert(matrix@.selections.len() == m0.selections.len() + 1);
                }
                self.solve_inner(matrix, sequences, solutions);
                matrix.deselect();
                proof {
                    crate::matrix::lemma_select_then_deselect(m0, p.0, p.1);
                    assert(matrix@ == m0);
                    assert(spec_solve_upto(m0, pats, self.buffer_size, legal@, k + 1)
                        == spec_solve_upto(m0, pats, self.buffer_size, legal@, k as int)
                        + spec_solve(m0.spec_select(p.0, p.1), pats, self.buffer_size));
                    assert(sol_views(solutions@) =~= sol_views(sols0) + spec_solve_upto(
                        m0,
                        pats,
                        self.buffer_size,
                        legal@,
                        k + 1,
                    ));
                }
                k = k + 1;
            }
            proof {
                assert(spec_solve(m0, pats, self.buffer_size) == spec_solve_upto(
                    m0,
                    pats,
                    self.buffer_size,
                    legal@,
                    legal@.len() as int,
                ));
            }
        } else {
            let buffer = matrix.selected_values();
            let mut matched: Vec<usize> = Vec::new();
            let mut i: usize = 0;
            while i < sequences.len()
                invariant
                    i <= sequences@.len(),
                    pats == seq_views(sequences@),
                    buffer@ == m0.buffer(),
                    matched@ == matched_indices(pats, m0.buffer(), i as int),
                decreases sequences@.len() - i,
            {
                let hit = sequences[i].is_matched(&buffer);
                if hit {
                    matched.push(i);
                }
                proof {
                    assert(pats[i as int] == sequences@[i as int]@);
                    assert(matched@ =~= matched_indices(pats, m0.buffer(), i + 1));
                }
                i = i + 1;
            }
            if matched.len() > 0 {
                let ghost sols0 = solutions@;
                let ghost sol_view = (buffer@, matched@);
                solutions.push(Solution { buffer, matches: matched });
                proof {
                    assert(leaf_solutions(m0, pats) =~= seq![sol_view]);
                    assert(sol_views(solutions@) =~= sol_views(sols0) + leaf_solutions(m0, pats));
                }
            } else {
                proof {
                    assert(leaf_solutions(m0, pats) =~= Seq::<(Seq<Interned>, Seq<usize>)>::empty());
                    assert(sol_views(solutions@) =~= sol_views(solutions@) + leaf_solutions(
                        m0,
                        pats,
                    ));
                }
            }
        }
    }
}

} // verus!
