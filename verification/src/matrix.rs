//! The selection state machine.
//!
//! A [`Matrix`] owns a grid of cell values, a grid of chosen flags, the
//! ordered selection stack (the working buffer), and the current active
//! line. It enforces the alternating row/column rule: selecting a point of
//! the active line pivots the active line to the orthogonal line through
//! that point, and deselecting pivots it back.

use vstd::prelude::*;

use crate::grid::lemma_flat_idx_bounds;
use crate::grid::lemma_flat_idx_injective;
use crate::grid::Grid;
use crate::grid::GridView;
use crate::interner::Interned;

verus! {

/// The one line of the grid whose cells are currently selectable.
#[derive(Clone, Copy, Debug, PartialEq, Eq, Structural)]
pub enum Active {
    Row(usize),
    Column(usize),
}

/// The active line passes through `(x, y)`.
pub open spec fn on_line(a: Active, x: usize, y: usize) -> bool {
    match a {
        Active::Row(r) => y == r,
        Active::Column(c) => x == c,
    }
}

/// The orthogonal line through `(x, y)`: the active line after `(x, y)` is
/// selected.
pub open spec fn pivot(a: Active, x: usize, y: usize) -> Active {
    match a {
        Active::Row(_) => Active::Column(x),
        Active::Column(_) => Active::Row(y),
    }
}

impl Default for Active {
    /// Selection starts on the top row.
    fn default() -> (r: Self)
        ensures
            r == Active::Row(0usize),
    {
        Active::Row(0)
    }
}

impl Active {
    /// The new active line if `(x, y)` lies on the current one, or
    /// `Error::NotActive` otherwise.
    pub fn toggle(self, x: usize, y: usize) -> (r: Result<Self, Error>)
        ensures
            on_line(self, x, y) ==> r == Ok::<Active, Error>(pivot(self, x, y)),
            !on_line(self, x, y) ==> r == Err::<Active, Error>(
                Error::NotActive { x, y, active: self },
            ),
    {
        match self {
            Active::Row(row) => {
                if y != row {
                    Err(Error::NotActive { x, y, active: self })
                } else {
                    Ok(Active::Column(x))
                }
            },
            Active::Column(column) => {
                if x != column {
                    Err(Error::NotActive { x, y, active: self })
                } else {
                    Ok(Active::Row(y))
                }
            },
        }
    }
}

/// Pivoting on a point of the active line is self-inverse: pivoting again on
/// the same point restores the original active line.
pub proof fn lemma_pivot_self_inverse(a: Active, x: usize, y: usize)
    requires
        on_line(a, x, y),
    ensures
        pivot(pivot(a, x, y), x, y) == a,
{
}

/// A selection failure, surfaced to the immediate caller.
#[derive(Clone, Copy, Debug, PartialEq, Eq, Structural)]
pub enum Error {
    /// The point lies outside the grid.
    OutOfBounds { x: usize, y: usize, width: usize, height: usize },
    /// The point is in bounds but does not lie on the active line.
    NotActive { x: usize, y: usize, active: Active },
    /// The point has already been selected.
    AlreadySelected { x: usize, y: usize },
}

/// The mathematical content of a [`Matrix`].
#[verifier::ext_equal]
pub struct MatrixView {
    pub values: GridView<Interned>,
    pub chosen: GridView<bool>,
    pub selections: Seq<(usize, usize)>,
    pub active: Active,
}

/// The active line reached by starting from the top row and pivoting on each
/// selection in turn.
pub open spec fn active_after(sels: Seq<(usize, usize)>) -> Active
    decreases sels.len(),
{
    if sels.len() == 0 {
        Active::Row(0)
    } else {
        pivot(active_after(sels.drop_last()), sels.last().0, sels.last().1)
    }
}

/// Every selection lay on the active line of its moment.
pub open spec fn chain_legal(sels: Seq<(usize, usize)>) -> bool
    decreases sels.len(),
{
    if sels.len() == 0 {
        true
    } else {
        chain_legal(sels.drop_last()) && on_line(
            active_after(sels.drop_last()),
            sels.last().0,
            sels.last().1,
        )
    }
}

impl MatrixView {
    /// The selection stack matches the chosen flags and replays into the
    /// active line; the grids agree on their dimensions.
    pub open spec fn wf(self) -> bool {
        &&& self.values.wf()
        &&& self.chosen.wf()
        &&& self.chosen.width == self.values.width
        &&& self.chosen.height == self.values.height
        &&& forall|i: int|
            0 <= i < self.selections.len() ==> self.values.in_bounds(
                (#[trigger] self.selections[i]).0 as int,
                self.selections[i].1 as int,
            )
        &&& forall|i: int, j: int|
            0 <= i < j < self.selections.len() ==> #[trigger] self.selections[i]
                != #[trigger] self.selections[j]
        &&& forall|x: usize, y: usize|
            self.values.in_bounds(x as int, y as int) ==> (#[trigger] self.chosen.cell(
                x as int,
                y as int,
            ) == self.selections.contains((x, y)))
        &&& chain_legal(self.selections)
        &&& self.active == active_after(self.selections)
    }

    /// The buffer: the values at the selected coordinates, in selection
    /// order.
    pub open spec fn buffer(self) -> Seq<Interned> {
        Seq::new(
            self.selections.len(),
            |i: int|
                self.values.cell(self.selections[i].0 as int, self.selections[i].1 as int),
        )
    }

    /// The points of the active line in increasing order of the varying
    /// axis, without regard to bounds or chosen flags.
    pub open spec fn line_coords(self) -> Seq<(usize, usize)> {
        match self.active {
            Active::Row(y) => Seq::new(self.values.width as nat, |i: int| (i as usize, y)),
            Active::Column(x) => Seq::new(self.values.height as nat, |i: int| (x, i as usize)),
        }
    }

    /// A point is a legal next move: in bounds and not yet chosen.
    pub open spec fn legal_pred(self) -> spec_fn((usize, usize)) -> bool {
        |p: (usize, usize)|
            self.values.in_bounds(p.0 as int, p.1 as int) && !self.chosen.cell(
                p.0 as int,
                p.1 as int,
            )
    }

    /// The legal next moves among the first `n` points of the active line.
    pub open spec fn legal_prefix(self, n: int) -> Seq<(usize, usize)> {
        self.line_coords().take(n).filter(self.legal_pred())
    }

    /// The legal next moves: the in-bounds, not-yet-chosen points of the
    /// active line, in increasing order of the varying axis.
    pub open spec fn legal(self) -> Seq<(usize, usize)> {
        self.line_coords().filter(self.legal_pred())
    }

    /// The state after a selection of `(x, y)`.
    pub open spec fn spec_select(self, x: usize, y: usize) -> Self {
        MatrixView {
            chosen: self.chosen.update(x as int, y as int, true),
            selections: self.selections.push((x, y)),
            active: pivot(self.active, x, y),
            ..self
        }
    }

    /// The state after undoing the most recent selection.
    pub open spec fn spec_deselect(self) -> Self {
        if self.selections.len() == 0 {
            self
        } else {
            MatrixView {
                chosen: self.chosen.update(
                    self.selections.last().0 as int,
                    self.selections.last().1 as int,
                    false,
                ),
                selections: self.selections.drop_last(),
                active: pivot(self.active, self.selections.last().0, self.selections.last().1),
                ..self
            }
        }
    }
}

/// Selecting a legal point and then deselecting restores the matrix exactly:
/// the chosen flags, the selection stack, and the active line.
pub proof fn lemma_select_then_deselect(m: MatrixView, x: usize, y: usize)
    requires
        m.wf(),
        m.values.in_bounds(x as int, y as int),
        !m.chosen.cell(x as int, y as int),
        on_line(m.active, x, y),
    ensures
        m.spec_select(x, y).spec_deselect() == m,
{
    let s = m.spec_select(x, y);
    assert(s.selections.last() == (x, y));
    assert(s.selections.drop_last() =~= m.selections);
    lemma_pivot_self_inverse(m.active, x, y);
    lemma_flat_idx_bounds(m.chosen, x as int, y as int);
    assert(s.spec_deselect().chosen.cells =~= m.chosen.cells);
    assert(s.spec_deselect() =~= m);
}

/// The selection state machine over a grid of cell values.
pub struct Matrix {
    values: Grid<Interned>,
    chosen: Grid<bool>,
    selections: Vec<(usize, usize)>,
    active: Active,
}

impl View for Matrix {
    type V = MatrixView;

    closed spec fn view(&self) -> MatrixView {
        MatrixView {
            values: self.values@,
            chosen: self.chosen@,
            selections: self.selections@,
            active: self.active,
        }
    }
}

impl Matrix {
    /// A fresh matrix over the given cell values: nothing chosen, nothing
    /// selected, and the top row active.
    pub fn new(values: Grid<Interned>) -> (r: Self)
        requires
            values@.wf(),
        ensures
            r@.wf(),
            r@.values == values@,
            r@.selections.len() == 0,
            r@.active == Active::Row(0usize),
    {
        let width = values.width();
        let height = values.height();
        let chosen = Grid::new(width, height, false);
        let m = Matrix { values, chosen, selections: Vec::new(), active: Active::Row(0) };
        proof {
            assert forall|x: usize, y: usize|
                m@.values.in_bounds(x as int, y as int) implies (#[trigger] m@.chosen.cell(
                x as int,
                y as int,
            ) == m@.selections.contains((x, y))) by {
                lemma_flat_idx_bounds(m@.chosen, x as int, y as int);
                assert(!m@.selections.contains((x, y)));
            }
        }
        m
    }

    /// Check that `(x, y)` lies inside the grid.
    fn check_bounds(&self, x: usize, y: usize) -> (r: Result<(), Error>)
        ensures
            self@.values.in_bounds(x as int, y as int) ==> r == Ok::<(), Error>(()),
            !self@.values.in_bounds(x as int, y as int) ==> r == Err::<(), Error>(
                Error::OutOfBounds {
                    x,
                    y,
                    width: self@.values.width,
                    height: self@.values.height,
                },
            ),
    {
        if x < self.values.width() && y < self.values.height() {
            Ok(())
        } else {
            Err(
                Error::OutOfBounds {
                    x,
                    y,
                    width: self.values.width(),
                    height: self.values.height(),
                },
            )
        }
    }

    /// Select the point at the given coordinates if that is legal, and
    /// return the value there.
    ///
    /// Selection fails, changing nothing, if the point is out of bounds,
    /// already chosen, or off the active line. On success the point's flag
    /// is set, the point is pushed onto the selection stack, and the active
    /// line pivots to the orthogonal line through the point.
    pub fn select(&mut self, x: usize, y: usize) -> (r: Result<Interned, Error>)
        requires
            old(self)@.wf(),
        ensures
            final(self)@.wf(),
            !old(self)@.values.in_bounds(x as int, y as int) ==> final(self)@ == old(self)@ && r
                == Err::<Interned, Error>(
                Error::OutOfBounds {
                    x,
                    y,
                    width: old(self)@.values.width,
                    height: old(self)@.values.height,
                },
            ),
            old(self)@.values.in_bounds(x as int, y as int) && old(self)@.chosen.cell(
                x as int,
                y as int,
            ) ==> final(self)@ == old(self)@ && r == Err::<Interned, Error>(
                Error::AlreadySelected { x, y },
            ),
            old(self)@.values.in_bounds(x as int, y as int) && !old(self)@.chosen.cell(
                x as int,
                y as int,
            ) && !on_line(old(self)@.active, x, y) ==> final(self)@ == old(self)@ && r
                == Err::<Interned, Error>(
                Error::NotActive { x, y, active: old(self)@.active },
            ),
            old(self)@.values.in_bounds(x as int, y as int) && !old(self)@.chosen.cell(
                x as int,
                y as int,
            ) && on_line(old(self)@.active, x, y) ==> final(self)@ == old(self)@.spec_select(x, y)
                && r == Ok::<Interned, Error>(old(self)@.values.cell(x as int, y as int)),
    {
        if let Err(e) = self.check_bounds(x, y) {
            return Err(e);
        }
        if self.chosen.at(x, y) {
            return Err(Error::AlreadySelected { x, y });
        }
        let toggled = match self.active.toggle(x, y) {
            Ok(a) => a,
            Err(e) => {
                return Err(e);
            },
        };
        self.active = toggled;
        self.chosen.set(x, y, true);
        self.selections.push((x, y));
        let v = self.values.at(x, y);
        proof {
            lemma_select_preserves_wf(old(self)@, x, y);
            assert(self@ =~= old(self)@.spec_select(x, y));
        }
        Ok(v)
    }

    /// Deselect the most recently selected point.
    ///
    /// If nothing is selected this silently does nothing. Otherwise the
    /// point's flag is cleared and the active line pivots back to the line
    /// it had before that point was selected.
    pub fn deselect(&mut self)
        requires
            old(self)@.wf(),
        ensures
            final(self)@.wf(),
            final(self)@ == old(self)@.spec_deselect(),
    {
        let last = self.selections.pop();
        match last {
            None => {},
            Some(p) => {
                let (x, y) = p;
                proof {
                    let sels = old(self)@.selections;
                    assert(sels.contains((x, y))) by {
                        assert(sels[sels.len() - 1] == (x, y));
                    }
                    assert(old(self)@.chosen.cell(x as int, y as int));
                    assert(on_line(old(self)@.active, x, y)) by {
                        assert(old(self)@.active == pivot(
                            active_after(sels.drop_last()),
                            x,
                            y,
                        ));
                    }
                }
                self.chosen.set(x, y, false);
                let toggled = match self.active.toggle(x, y) {
                    Ok(a) => a,
                    Err(_) => {
                        proof {
                            assert(false);
                        }
                        return ;
                    },
                };
                self.active = toggled;
                proof {
                    lemma_deselect_preserves_wf(old(self)@);
                    assert(self@ =~= old(self)@.spec_deselect());
                }
            },
        }
    }

    /// The buffer: the selected values in selection order.
    pub fn selected_values(&self) -> (r: Vec<Interned>)
        requires
            self@.wf(),
        ensures
            r@ == self@.buffer(),
    {
        let mut out: Vec<Interned> = Vec::new();
        let mut i: usize = 0;
        while i < self.selections.len()
            invariant
                self@.wf(),
                i <= self@.selections.len(),
                out@.len() == i,
                forall|k: int| 0 <= k < i ==> out@[k] == self@.buffer()[k],
            decreases self@.selections.len() - i,
        {
            let p = self.selections[i];
            let v = self.values.at(p.0, p.1);
            out.push(v);
            i = i + 1;
        }
        proof {
            assert(out@ =~= self@.buffer());
        }
        out
    }

    /// How many points are selected.
    pub fn selected_len(&self) -> (r: usize)
        ensures
            r == self@.selections.len(),
    {
        self.selections.len()
    }

    /// The legal next moves: the in-bounds, not-yet-chosen points of the
    /// active line, in increasing order of the varying axis.
    ///
    /// Already-chosen points are excluded deliberately: a cell cannot be
    /// selected twice, so every coordinate this yields is guaranteed
    /// acceptable to `select`.
    pub fn legal_selections(&self) -> (r: Vec<(usize, usize)>)
        requires
            self@.wf(),
        ensures
            r@ == self@.legal(),
    {
        let mut out: Vec<(usize, usize)> = Vec::new();
        let height = self.values.height();
        let width = self.values.width();
        match self.active {
            Active::Row(y) => {
                let mut x: usize = 0;
                while x < width
                    invariant
                        self@.wf(),
                        self@.active == Active::Row(y),
                        width == self@.values.width,
                        height == self@.values.height,
                        x <= width,
                        out@ == self@.legal_prefix(x as int),
                    decreases width - x,
                {
                    let ghost prev = out@;
                    if y < height && !self.chosen.at(x, y) {
                        out.push((x, y));
                    }
                    proof {
                        lemma_legal_prefix_step(self@, x as int);
                        assert(self@.line_coords()[x as int] == (x, y));
                    }
                    x = x + 1;
                }
                proof {
                    lemma_legal_prefix_full(self@);
                }
            },
            Active::Column(cx) => {
                let mut y: usize = 0;
                while y < height
                    invariant
                        self@.wf(),
                        self@.active == Active::Column(cx),
                        width == self@.values.width,
                        height == self@.values.height,
                        y <= height,
                        out@ == self@.legal_prefix(y as int),
                    decreases height - y,
                {
                    if cx < width && !self.chosen.at(cx, y) {
                        out.push((cx, y));
                    }
                    proof {
                        lemma_legal_prefix_step(self@, y as int);
                        assert(self@.line_coords()[y as int] == (cx, y));
                    }
                    y = y + 1;
                }
                proof {
                    lemma_legal_prefix_full(self@);
                }
            },
        }
        out
    }
}

/// Extending the scanned prefix of the active line by one point appends that
/// point to the legal moves exactly when it is in bounds and not chosen.
proof fn lemma_legal_prefix_step(m: MatrixView, n: int)
    requires
        0 <= n < m.line_coords().len(),
    ensures
        m.legal_pred()(m.line_coords()[n]) ==> m.legal_prefix(n + 1) == m.legal_prefix(n).push(
            m.line_coords()[n],
        ),
        !m.legal_pred()(m.line_coords()[n]) ==> m.legal_prefix(n + 1) == m.legal_prefix(n),
{
    reveal(Seq::filter);
    let line = m.line_coords();
    let p = line[n];
    assert(line.take(n + 1).drop_last() =~= line.take(n));
    assert(line.take(n + 1).last() == p);
    assert(line.take(n + 1) =~= line.take(n).push(p));
}

/// Scanning the whole active line yields exactly the legal moves.
proof fn lemma_legal_prefix_full(m: MatrixView)
    ensures
        m.legal_prefix(m.line_coords().len() as int) == m.legal(),
{
    assert(m.line_coords().take(m.line_coords().len() as int) =~= m.line_coords());
}

/// Each element of a filtered sequence comes from the original sequence.
proof fn lemma_filter_is_subset<A>(s: Seq<A>, pred: spec_fn(A) -> bool, k: int)
    requires
        0 <= k < s.filter(pred).len(),
    ensures
        s.contains(s.filter(pred)[k]),
    decreases s.len(),
{
    reveal(Seq::filter);
    if s.len() > 0 {
        let t = s.drop_last().filter(pred);
        if k < t.len() {
            lemma_filter_is_subset(s.drop_last(), pred, k);
            let i = choose|i: int| 0 <= i < s.drop_last().len() && s.drop_last()[i] == s.filter(
                pred,
            )[k];
            assert(s[i] == s.filter(pred)[k]);
        } else {
            assert(s[s.len() - 1] == s.filter(pred)[k]);
        }
    }
}

/// Every legal move is in bounds, not yet chosen, and on the active line,
/// so `select` is guaranteed to accept it.
pub proof fn lemma_legal_elem(m: MatrixView, k: int)
    requires
        m.wf(),
        0 <= k < m.legal().len(),
    ensures
        m.values.in_bounds(m.legal()[k].0 as int, m.legal()[k].1 as int),
        !m.chosen.cell(m.legal()[k].0 as int, m.legal()[k].1 as int),
        on_line(m.active, m.legal()[k].0, m.legal()[k].1),
{
    let line = m.line_coords();
    let pred = m.legal_pred();
    line.lemma_filter_pred(pred, k);
    lemma_filter_is_subset(line, pred, k);
    let p = m.legal()[k];
    let i = choose|i: int| 0 <= i < line.len() && line[i] == p;
    match m.active {
        Active::Row(y) => {
            assert(line[i] == (i as usize, y));
        },
        Active::Column(x) => {
            assert(line[i] == (x, i as usize));
        },
    }
}

/// A successful selection preserves the matrix invariant.
proof fn lemma_select_preserves_wf(m: MatrixView, x: usize, y: usize)
    requires
        m.wf(),
        m.values.in_bounds(x as int, y as int),
        !m.chosen.cell(x as int, y as int),
        on_line(m.active, x, y),
    ensures
        m.spec_select(x, y).wf(),
{
    let s = m.spec_select(x, y);
    let sels = m.selections;
    lemma_flat_idx_bounds(m.chosen, x as int, y as int);
    assert(!sels.contains((x, y)));
    assert(s.selections.drop_last() =~= sels);
    assert(s.selections.last() == (x, y));
    assert forall|i: int, j: int| 0 <= i < j < s.selections.len() implies #[trigger] s
        .selections[i] != #[trigger] s.selections[j] by {
        if j == s.selections.len() - 1 {
            assert(sels.contains(sels[i])) by {
                assert(sels[i] == s.selections[i]);
            }
        }
    }
    assert forall|a: usize, b: usize| s.values.in_bounds(a as int, b as int) implies (
    #[trigger] s.chosen.cell(a as int, b as int) == s.selections.contains((a, b))) by {
        lemma_flat_idx_bounds(m.chosen, a as int, b as int);
        if (a, b) == (x, y) {
            assert(s.chosen.cell(a as int, b as int));
            assert(s.selections[s.selections.len() - 1] == (a, b));
            assert(s.selections.contains((a, b)));
        } else {
            if m.chosen.flat_idx(a as int, b as int) == m.chosen.flat_idx(x as int, y as int) {
                lemma_flat_idx_injective(m.chosen, a as int, b as int, x as int, y as int);
            }
            assert(s.chosen.cell(a as int, b as int) == m.chosen.cell(a as int, b as int));
            assert(s.selections.contains((a, b)) == sels.contains((a, b))) by {
                if sels.contains((a, b)) {
                    let k = choose|k: int| 0 <= k < sels.len() && sels[k] == (a, b);
                    assert(s.selections[k] == (a, b));
                }
                if s.selections.contains((a, b)) {
                    let k = choose|k: int|
                        0 <= k < s.selections.len() && s.selections[k] == (a, b);
                    assert(k < sels.len());
                    assert(sels[k] == (a, b));
                }
            }
        }
    }
    assert(chain_legal(s.selections));
    assert(s.active == active_after(s.selections));
}

/// Undoing the most recent selection preserves the matrix invariant.
proof fn lemma_deselect_preserves_wf(m: MatrixView)
    requires
        m.wf(),
        m.selections.len() > 0,
    ensures
        m.spec_deselect().wf(),
{
    let s = m.spec_deselect();
    let sels = m.selections;
    let p = sels.last();
    assert(sels.contains(p)) by {
        assert(sels[sels.len() - 1] == p);
    }
    assert(m.values.in_bounds(p.0 as int, p.1 as int)) by {
        assert(sels[sels.len() - 1] == p);
    }
    lemma_flat_idx_bounds(m.chosen, p.0 as int, p.1 as int);
    assert forall|a: usize, b: usize| s.values.in_bounds(a as int, b as int) implies (
    #[trigger] s.chosen.cell(a as int, b as int) == s.selections.contains((a, b))) by {
        lemma_flat_idx_bounds(m.chosen, a as int, b as int);
        if (a, b) == (p.0, p.1) {
            assert(!s.chosen.cell(a as int, b as int));
            if s.selections.contains((a, b)) {
                let k = choose|k: int| 0 <= k < s.selections.len() && s.selections[k] == (a, b);
                assert(sels[k] == (a, b));
                assert(sels[sels.len() - 1] == (a, b));
                assert(sels[k] == sels[sels.len() - 1]);
                assert(false);
            }
        } else {
            if m.chosen.flat_idx(a as int, b as int) == m.chosen.flat_idx(
                p.0 as int,
                p.1 as int,
            ) {
                lemma_flat_idx_injective(m.chosen, a as int, b as int, p.0 as int, p.1 as int);
            }
            assert(s.chosen.cell(a as int, b as int) == m.chosen.cell(a as int, b as int));
            assert(s.selections.contains((a, b)) == sels.contains((a, b))) by {
                if sels.contains((a, b)) {
                    let k = choose|k: int| 0 <= k < sels.len() && sels[k] == (a, b);
                    assert(k < sels.len() - 1);
                    assert(s.selections[k] == (a, b));
                }
                if s.selections.contains((a, b)) {
                    let k = choose|k: int|
                        0 <= k < s.selections.len() && s.selections[k] == (a, b);
                    assert(sels[k] == (a, b));
                }
            }
        }
    }
    assert(chain_legal(s.selections));
    assert(s.active == active_after(s.selections)) by {
        assert(on_line(active_after(sels.drop_last()), p.0, p.1));
        lemma_pivot_self_inverse(active_after(sels.drop_last()), p.0, p.1);
        assert(m.active == pivot(active_after(sels.drop_last()), p.0, p.1));
    }
}

} // verus!
