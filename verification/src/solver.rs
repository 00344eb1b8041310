use vstd::prelude::*;

use crate::bitset::{
    count_true, empty_view, full_view, lemma_count_true_subset, lemma_count_true_subset_strict,
    lemma_count_true_two, lemma_count_true_zero, singleton_view, union_view, PossibleValues,
};
use crate::digit::Digit;
use crate::grid::Grid;
use rayon::iter::{IntoParallelIterator, ParallelIterator};
use vstd::arithmetic::div_mod::lemma_fundamental_div_mod;
use vstd::arithmetic::div_mod::lemma_fundamental_div_mod_converse;

verus! {

broadcast use crate::bitset::lemma_pv_view_len;

/// A parsed puzzle: a filled cell holds a digit, a blank cell holds nothing.
pub type Sudoku = Grid<Option<Digit>>;

/// A completed puzzle: every cell holds a digit.
pub type SudokuSolution = Grid<Digit>;

/// The working state of the solver: one candidate set per cell.
pub type SudokuPossibilities = Grid<PossibleValues>;

/// The flat index of the cell at row `r`, column `c`.
pub open spec fn pos(r: int, c: int) -> int {
    r * 9 + c
}

/// The flat index of the cell at slot `j` of 3x3 block `i`: block `i` spans
/// rows `(i / 3) * 3 ..` and columns `(i % 3) * 3 ..`, and slot `j` walks it
/// row by row.
pub open spec fn blk(i: int, j: int) -> int {
    pos((i / 3) * 3 + j / 3, (i % 3) * 3 + j % 3)
}

/// The abstract state of a possibilities board: 81 candidate-set views in
/// row-major order.
pub open spec fn gview(g: SudokuPossibilities) -> Seq<Seq<bool>> {
    Seq::new(81, |p: int| g@[p]@)
}

/// Every cell of the board is a well-formed candidate set.
pub open spec fn wf_board(g: SudokuPossibilities) -> bool {
    g@.len() == 81 && forall|p: int| 0 <= p < 81 ==> (#[trigger] g@[p]).wf()
}

/// Every filled cell of a puzzle holds a well-formed digit.
pub open spec fn wf_sudoku(s: Sudoku) -> bool {
    s@.len() == 81 && forall|p: int| 0 <= p < 81 ==> ((#[trigger] s@[p]) matches Some(d)
        ==> d.wf())
}

/// Every cell of a completed grid holds a well-formed digit.
pub open spec fn wf_solution(s: SudokuSolution) -> bool {
    s@.len() == 81 && forall|p: int| 0 <= p < 81 ==> (#[trigger] s@[p]).wf()
}

/// The digits of a completed grid, as plain integers.
pub open spec fn sol_digits(s: SudokuSolution) -> Seq<int> {
    Seq::new(81, |p: int| s@[p]@)
}

/// An assignment of one digit to every cell, each in 1..=9.
pub open spec fn digits_ok(sol: Seq<int>) -> bool {
    sol.len() == 81 && forall|p: int| 0 <= p < 81 ==> 1 <= #[trigger] sol[p] <= 9
}

/// The assignment picks a still-possible digit in every cell of the board.
pub open spec fn admits(v: Seq<Seq<bool>>, sol: Seq<int>) -> bool {
    digits_ok(sol) && forall|p: int| 0 <= p < 81 ==> #[trigger] v[p][sol[p] - 1]
}

/// Within unit `i`, slots `j` and `k` disagree in all three unit families:
/// row `i`, column `i`, and block `i`.
pub open spec fn unit_ok(sol: Seq<int>, i: int, j: int, k: int) -> bool {
    sol[pos(i, j)] != sol[pos(i, k)] && sol[pos(j, i)] != sol[pos(k, i)] && sol[blk(i, j)]
        != sol[blk(i, k)]
}

/// A completed assignment in which no row, column or block repeats a digit.
pub open spec fn valid_solution(sol: Seq<int>) -> bool {
    digits_ok(sol) && forall|i: int, j: int, k: int|
        0 <= i < 9 && 0 <= j < k < 9 ==> #[trigger] unit_ok(sol, i, j, k)
}

/// Some cell has no candidates left.
pub open spec fn has_empty_cell(v: Seq<Seq<bool>>) -> bool {
    exists|p: int| 0 <= p < 81 && count_true(#[trigger] v[p]) == 0
}

/// Two determined cells pinned to the same digit.
pub open spec fn det_conflict(a: Seq<bool>, b: Seq<bool>) -> bool {
    count_true(a) == 1 && a == b
}

/// Within unit `i`, slots `j` and `k` collide in one of the three families.
pub open spec fn unit_conflict(v: Seq<Seq<bool>>, i: int, j: int, k: int) -> bool {
    det_conflict(v[pos(i, j)], v[pos(i, k)]) || det_conflict(v[pos(j, i)], v[pos(k, i)])
        || det_conflict(v[blk(i, j)], v[blk(i, k)])
}

/// The board is provably inconsistent: a cell ran empty, or two cells of one
/// unit are pinned to the same digit.
pub open spec fn sp_broken(v: Seq<Seq<bool>>) -> bool {
    has_empty_cell(v) || exists|i: int, j: int, k: int|
        0 <= i < 9 && 0 <= j < k < 9 && #[trigger] unit_conflict(v, i, j, k)
}

/// `v2` narrows `v1`: cell by cell, every candidate of `v2` is one of `v1`.
pub open spec fn narrows(v2: Seq<Seq<bool>>, v1: Seq<Seq<bool>>) -> bool {
    forall|p: int, i: int| 0 <= p < 81 && 0 <= i < 9 && #[trigger] v2[p][i] ==> v1[p][i]
}

/// Going from `v1` to `v2` loses no valid solution.
pub open spec fn keeps_solutions(v1: Seq<Seq<bool>>, v2: Seq<Seq<bool>>) -> bool {
    forall|sol: Seq<int>|
        valid_solution(sol) && #[trigger] admits(v1, sol) ==> #[trigger] admits(v2, sol)
}

/// A cell not pinned to a single digit (still open, or already empty).
pub open spec fn cell_undet(cv: Seq<bool>) -> bool {
    count_true(cv) != 1
}

/// The number of cells among the first `n` not pinned to a single digit.
pub open spec fn undet_below(v: Seq<Seq<bool>>, n: int) -> nat
    decreases n,
{
    if n <= 0 {
        0
    } else {
        undet_below(v, n - 1) + if cell_undet(v[n - 1]) {
            1nat
        } else {
            0nat
        }
    }
}

/// The number of cells not pinned to a single digit.
pub open spec fn undet_count(v: Seq<Seq<bool>>) -> nat {
    undet_below(v, 81)
}

/// The total number of candidates among the first `n` cells.
pub open spec fn total_below(v: Seq<Seq<bool>>, n: int) -> nat
    decreases n,
{
    if n <= 0 {
        0
    } else {
        total_below(v, n - 1) + count_true(v[n - 1])
    }
}

/// The total number of candidates on the board.
pub open spec fn total_count(v: Seq<Seq<bool>>) -> nat {
    total_below(v, 81)
}

/// The propagation sweep finds nothing to remove among the first `n` cells:
/// no remaining single-digit hypothesis on an unpinned cell there is
/// refutable by the consistency check.
pub open spec fn stable_below(v: Seq<Seq<bool>>, n: int) -> bool {
    forall|p: int, d: int|
        0 <= p < n && 1 <= d <= 9 && cell_undet(v[p]) && v[p][d - 1] ==> !sp_broken(
            #[trigger] v.update(p, singleton_view(d)),
        )
}

/// A fixed point of the propagation sweep.
pub open spec fn stable(v: Seq<Seq<bool>>) -> bool {
    stable_below(v, 81)
}

/// The views of a board always form 81 sequences of 9 flags.
pub proof fn lemma_gview_shape(g: SudokuPossibilities)
    ensures
        gview(g).len() == 81,
        forall|p: int| 0 <= p < 81 ==> (#[trigger] gview(g)[p]).len() == 9,
{
}

/// Every cell (r, c) is reached by the block enumeration: block unit
/// `(r / 3) * 3 + c / 3` at slot `(r % 3) * 3 + c % 3` maps back to it.
pub proof fn lemma_blk_of_cell(r: int, c: int)
    requires
        0 <= r < 9,
        0 <= c < 9,
    ensures
        0 <= (r / 3) * 3 + c / 3 < 9,
        0 <= (r % 3) * 3 + c % 3 < 9,
        blk((r / 3) * 3 + c / 3, (r % 3) * 3 + c % 3) == pos(r, c),
{
    lemma_fundamental_div_mod(r, 3);
    lemma_fundamental_div_mod(c, 3);
    let di = r / 3;
    let mi = r % 3;
    let dc = c / 3;
    let mc = c % 3;
    let ib = di * 3 + dc;
    let jb = mi * 3 + mc;
    lemma_fundamental_div_mod_converse(ib, 3, di, dc);
    lemma_fundamental_div_mod_converse(jb, 3, mi, mc);
}

/// A provably inconsistent board admits no valid solution.
pub proof fn lemma_broken_no_solution(v: Seq<Seq<bool>>, sol: Seq<int>)
    requires
        v.len() == 81,
        forall|p: int| 0 <= p < 81 ==> (#[trigger] v[p]).len() == 9,
        sp_broken(v),
        admits(v, sol),
    ensures
        !valid_solution(sol),
{
    if !valid_solution(sol) {
        return;
    }
    if has_empty_cell(v) {
        let p = choose|p: int| 0 <= p < 81 && count_true(#[trigger] v[p]) == 0;
        lemma_count_true_zero(v[p]);
        assert(v[p][sol[p] - 1]);
    } else {
        let (i, j, k) = choose|i: int, j: int, k: int|
            0 <= i < 9 && 0 <= j < k < 9 && #[trigger] unit_conflict(v, i, j, k);
        if det_conflict(v[pos(i, j)], v[pos(i, k)]) {
            lemma_conflict_same_digit(v, sol, pos(i, j), pos(i, k));
            assert(unit_ok(sol, i, j, k));
        } else if det_conflict(v[pos(j, i)], v[pos(k, i)]) {
            lemma_conflict_same_digit(v, sol, pos(j, i), pos(k, i));
            assert(unit_ok(sol, i, j, k));
        } else {
            assert(0 <= blk(i, j) < 81 && 0 <= blk(i, k) < 81) by {
                lemma_fundamental_div_mod(i, 3);
                lemma_fundamental_div_mod(j, 3);
                lemma_fundamental_div_mod(k, 3);
            }
            lemma_conflict_same_digit(v, sol, blk(i, j), blk(i, k));
            assert(unit_ok(sol, i, j, k));
        }
    }
}

/// Two cells pinned to the same digit force equal digits in any admitted
/// assignment.
proof fn lemma_conflict_same_digit(v: Seq<Seq<bool>>, sol: Seq<int>, p1: int, p2: int)
    requires
        v.len() == 81,
        forall|p: int| 0 <= p < 81 ==> (#[trigger] v[p]).len() == 9,
        0 <= p1 < 81,
        0 <= p2 < 81,
        det_conflict(v[p1], v[p2]),
        admits(v, sol),
    ensures
        sol[p1] == sol[p2],
{
    assert(v[p1][sol[p1] - 1]);
    assert(v[p2][sol[p2] - 1]);
    assert(v[p1][sol[p2] - 1]);
    if sol[p1] != sol[p2] {
        if sol[p1] < sol[p2] {
            lemma_count_true_two(v[p1], sol[p1] - 1, sol[p2] - 1);
        } else {
            lemma_count_true_two(v[p1], sol[p2] - 1, sol[p1] - 1);
        }
    }
}

/// The candidate cell a puzzle cell lifts to: a given digit becomes the
/// singleton set, a blank becomes the universal set.
pub open spec fn cell_lifted(c: Option<Digit>, cv: Seq<bool>) -> bool {
    match c {
        Some(d) => cv == singleton_view(d@),
        None => cv == full_view(),
    }
}

/// `sol` completes the puzzle: it keeps every given digit.
pub open spec fn extends(sol: Seq<int>, s: Sudoku) -> bool {
    digits_ok(sol) && forall|p: int|
        0 <= p < 81 ==> ((#[trigger] s@[p]) matches Some(d) ==> sol[p] == d@)
}

/// On the board a puzzle lifts to, an assignment is admitted exactly when it
/// keeps the puzzle's given digits.
pub proof fn lemma_lifted_admits(s: Sudoku, v: Seq<Seq<bool>>, sol: Seq<int>)
    requires
        wf_sudoku(s),
        v.len() == 81,
        forall|p: int| 0 <= p < 81 ==> cell_lifted(s@[p], #[trigger] v[p]),
        digits_ok(sol),
    ensures
        admits(v, sol) <==> extends(sol, s),
{
    if admits(v, sol) {
        assert forall|p: int| 0 <= p < 81 implies ((#[trigger] s@[p]) matches Some(d)
            ==> sol[p] == d@) by {
            assert(v[p][sol[p] - 1]);
        }
    }
    if extends(sol, s) {
        assert forall|p: int| 0 <= p < 81 implies #[trigger] v[p][sol[p] - 1] by {
            assert(cell_lifted(s@[p], v[p]));
        }
    }
}

/// Whether two cells are pinned to the same single digit.
fn det_clash(a: PossibleValues, b: PossibleValues) -> (r: bool)
    requires
        a.wf(),
        b.wf(),
    ensures
        r == det_conflict(a@, b@),
{
    match (a.determined(), b.determined()) {
        (Some(x), Some(y)) => {
            let eq = x.index() == y.index();
            proof {
                if eq {
                    assert forall|idx: int| 0 <= idx < 9 implies a@[idx] == b@[idx] by {
                        if a@[idx] {
                            assert(idx == x@ - 1);
                            assert(b@[y@ - 1]);
                        }
                        if b@[idx] {
                            assert(idx == y@ - 1);
                            assert(a@[x@ - 1]);
                        }
                    }
                    assert(a@ =~= b@);
                } else {
                    assert(a@[x@ - 1]);
                    if b@[x@ - 1] {
                        assert(x@ - 1 == y@ - 1);
                    }
                    assert(a@ != b@);
                }
            }
            eq
        },
        (Some(x), None) => {
            proof {
                assert(count_true(b@) != 1);
                if a@ == b@ {
                    assert(count_true(a@) == count_true(b@));
                }
            }
            false
        },
        (None, _) => {
            proof {
                assert(count_true(a@) != 1);
            }
            false
        },
    }
}

impl Grid<PossibleValues> {
    /// Lift a puzzle into its candidate representation.
    pub fn from_sudoku(sudoku: &Sudoku) -> (r: SudokuPossibilities)
        requires
            wf_sudoku(*sudoku),
        ensures
            wf_board(r),
            forall|p: int| 0 <= p < 81 ==> cell_lifted(sudoku@[p], #[trigger] gview(r)[p]),
    {
        let mut out: SudokuPossibilities = Grid::splat(PossibleValues::any());
        let mut p: usize = 0;
        while p < 81
            invariant
                p <= 81,
                out@.len() == 81,
                wf_sudoku(*sudoku),
                forall|q: int| 0 <= q < 81 ==> (#[trigger] out@[q]).wf(),
                forall|q: int| 0 <= q < p ==> cell_lifted(sudoku@[q], (#[trigger] out@[q])@),
            decreases 81 - p,
        {
            let c = sudoku.cells[p];
            proof {
                assert(c == sudoku@[p as int]);
            }
            let pv = PossibleValues::initial_state(c);
            out.cells[p] = pv;
            p = p + 1;
        }
        proof {
            assert forall|q: int| 0 <= q < 81 implies cell_lifted(sudoku@[q], #[trigger] gview(
                out)[q]) by {
                assert(gview(out)[q] == out@[q]@);
            }
        }
        out
    }

    /// The consistency check: true iff some cell has no candidates left, or
    /// two cells of one row, column or 3x3 block are pinned to the same digit.
    pub fn is_broken(&self) -> (r: bool)
        requires
            wf_board(*self),
        ensures
            r == sp_broken(gview(*self)),
    {
        let ghost v = gview(*self);
        let mut p: usize = 0;
        while p < 81
            invariant
                p <= 81,
                wf_board(*self),
                v == gview(*self),
                forall|q: int| 0 <= q < p ==> count_true(#[trigger] v[q]) != 0,
            decreases 81 - p,
        {
            let c = self.cells[p];
            proof {
                assert(c == self@[p as int]);
                assert(v[p as int] == c@);
            }
            if c.is_broken() {
                proof {
                    assert(count_true(v[p as int]) == 0);
                }
                return true;
            }
            p = p + 1;
        }
        let mut i: usize = 0;
        while i < 9
            invariant
                i <= 9,
                wf_board(*self),
                v == gview(*self),
                forall|q: int| 0 <= q < 81 ==> count_true(#[trigger] v[q]) != 0,
                forall|i2: int, j2: int, k2: int|
                    0 <= i2 < i && 0 <= j2 < k2 < 9 ==> !(#[trigger] unit_conflict(
                        v, i2, j2, k2)),
            decreases 9 - i,
        {
            let mut j: usize = 0;
            while j < 8
                invariant
                    i < 9,
                    j <= 8,
                    wf_board(*self),
                    v == gview(*self),
                    forall|i2: int, j2: int, k2: int|
                        0 <= i2 < i && 0 <= j2 < k2 < 9 ==> !(#[trigger] unit_conflict(
                            v, i2, j2, k2)),
                    forall|j2: int, k2: int|
                        0 <= j2 < j && j2 < k2 < 9 ==> !(#[trigger] unit_conflict(
                            v, i as int, j2, k2)),
                decreases 8 - j,
            {
                let mut k: usize = j + 1;
                while k < 9
                    invariant
                        i < 9,
                        j < 8,
                        j + 1 <= k <= 9,
                        wf_board(*self),
                        v == gview(*self),
                        forall|k2: int|
                            j < k2 < k ==> !(#[trigger] unit_conflict(v, i as int, j as int, k2)),
                    decreases 9 - k,
                {
                    let row_hit = det_clash(self.get(i, j), self.get(i, k));
                    let col_hit = det_clash(self.get(j, i), self.get(k, i));
                    let ax = (i / 3) * 3 + j / 3;
                    let ay = (i % 3) * 3 + j % 3;
                    let bx = (i / 3) * 3 + k / 3;
                    let by = (i % 3) * 3 + k % 3;
                    proof {
                        lemma_blk_of_cell(ax as int, ay as int);
                        assert(ax < 9 && ay < 9 && bx < 9 && by < 9);
                        assert(pos(ax as int, ay as int) == blk(i as int, j as int));
                        assert(pos(bx as int, by as int) == blk(i as int, k as int));
                        assert(0 <= blk(i as int, j as int) < 81);
                        assert(0 <= blk(i as int, k as int) < 81);
                    }
                    let blk_hit = det_clash(self.get(ax, ay), self.get(bx, by));
                    proof {
                        assert(self@[pos(i as int, j as int)]@ == v[pos(i as int, j as int)]);
                        assert(self@[pos(i as int, k as int)]@ == v[pos(i as int, k as int)]);
                        assert(self@[pos(j as int, i as int)]@ == v[pos(j as int, i as int)]);
                        assert(self@[pos(k as int, i as int)]@ == v[pos(k as int, i as int)]);
                        assert(self@[blk(i as int, j as int)]@ == v[blk(i as int, j as int)]);
                        assert(self@[blk(i as int, k as int)]@ == v[blk(i as int, k as int)]);
                    }
                    if row_hit || col_hit || blk_hit {
                        proof {
                            assert(unit_conflict(v, i as int, j as int, k as int));
                        }
                        return true;
                    }
                    proof {
                        assert(!unit_conflict(v, i as int, j as int, k as int));
                    }
                    k = k + 1;
                }
                j = j + 1;
            }
            i = i + 1;
        }
        proof {
            assert(!has_empty_cell(v));
            assert forall|i2: int, j2: int, k2: int|
                0 <= i2 < 9 && 0 <= j2 < k2 < 9 implies !(#[trigger] unit_conflict(
                v, i2, j2, k2)) by {}
            assert(!sp_broken(v));
        }
        false
    }

    /// The fully determined digit grid, iff every cell is pinned to a single
    /// digit; the caller must have ruled brokenness out first.
    pub fn solved(&self) -> (r: Option<SudokuSolution>)
        requires
            wf_board(*self),
            !sp_broken(gview(*self)),
        ensures
            r is Some <==> (forall|p: int|
                0 <= p < 81 ==> count_true(#[trigger] gview(*self)[p]) == 1),
            r matches Some(sol) ==> wf_solution(sol) && admits(gview(*self), sol_digits(sol))
                && valid_solution(sol_digits(sol)),
    {
        let ghost v = gview(*self);
        let mut out: SudokuSolution = Grid::splat(Digit::unchecked(1));
        let mut p: usize = 0;
        while p < 81
            invariant
                p <= 81,
                out@.len() == 81,
                wf_board(*self),
                v == gview(*self),
                forall|q: int| 0 <= q < p ==> count_true(#[trigger] v[q]) == 1,
                forall|q: int|
                    0 <= q < p ==> (#[trigger] out@[q]).wf() && v[q][out@[q]@ - 1],
            decreases 81 - p,
        {
            let c = self.cells[p];
            proof {
                assert(c == self@[p as int]);
                assert(v[p as int] == c@);
            }
            match c.determined() {
                Some(d) => {
                    out.cells[p] = d;
                },
                None => {
                    proof {
                        assert(count_true(v[p as int]) != 1);
                    }
                    return None;
                },
            }
            p = p + 1;
        }
        proof {
            let sd = sol_digits(out);
            assert forall|q: int| 0 <= q < 81 implies 1 <= #[trigger] sd[q] <= 9 by {
                assert(out@[q].wf());
            }
            assert forall|q: int| 0 <= q < 81 implies #[trigger] v[q][sd[q] - 1] by {
                assert(v[q][out@[q]@ - 1]);
            }
            assert(admits(v, sd));
            assert forall|i: int, j: int, k: int|
                0 <= i < 9 && 0 <= j < k < 9 implies #[trigger] unit_ok(sd, i, j, k) by {
                lemma_all_det_unit_ok(v, sd, i, j, k);
            }
            assert(valid_solution(sd));
        }
        Some(out)
    }
}

/// On an unbroken, fully determined board, any admitted assignment satisfies
/// the unit constraints at (i, j, k).
proof fn lemma_all_det_unit_ok(v: Seq<Seq<bool>>, sd: Seq<int>, i: int, j: int, k: int)
    requires
        v.len() == 81,
        forall|p: int| 0 <= p < 81 ==> (#[trigger] v[p]).len() == 9,
        forall|p: int| 0 <= p < 81 ==> count_true(#[trigger] v[p]) == 1,
        !sp_broken(v),
        admits(v, sd),
        0 <= i < 9,
        0 <= j < k < 9,
    ensures
        unit_ok(sd, i, j, k),
{
    assert(!unit_conflict(v, i, j, k));
    lemma_blk_of_cell((i / 3) * 3 + j / 3, (i % 3) * 3 + j % 3);
    lemma_det_cells_differ(v, sd, pos(i, j), pos(i, k));
    lemma_det_cells_differ(v, sd, pos(j, i), pos(k, i));
    assert(0 <= blk(i, j) < 81 && 0 <= blk(i, k) < 81) by {
        lemma_fundamental_div_mod(i, 3);
        lemma_fundamental_div_mod(j, 3);
        lemma_fundamental_div_mod(k, 3);
    }
    lemma_det_cells_differ(v, sd, blk(i, j), blk(i, k));
}

/// Two determined cells that are not in conflict carry different digits in
/// any admitted assignment.
proof fn lemma_det_cells_differ(v: Seq<Seq<bool>>, sd: Seq<int>, p1: int, p2: int)
    requires
        v.len() == 81,
        forall|p: int| 0 <= p < 81 ==> (#[trigger] v[p]).len() == 9,
        0 <= p1 < 81,
        0 <= p2 < 81,
        count_true(v[p1]) == 1,
        count_true(v[p2]) == 1,
        !det_conflict(v[p1], v[p2]),
        admits(v, sd),
    ensures
        sd[p1] != sd[p2],
{
    if sd[p1] == sd[p2] {
        assert(v[p1][sd[p1] - 1]);
        assert(v[p2][sd[p2] - 1]);
        assert forall|idx: int| 0 <= idx < 9 implies v[p1][idx] == v[p2][idx] by {
            if v[p1][idx] && idx != sd[p1] - 1 {
                if idx < sd[p1] - 1 {
                    lemma_count_true_two(v[p1], idx, sd[p1] - 1);
                } else {
                    lemma_count_true_two(v[p1], sd[p1] - 1, idx);
                }
            }
            if v[p2][idx] && idx != sd[p2] - 1 {
                if idx < sd[p2] - 1 {
                    lemma_count_true_two(v[p2], idx, sd[p2] - 1);
                } else {
                    lemma_count_true_two(v[p2], sd[p2] - 1, idx);
                }
            }
        }
        assert(v[p1] =~= v[p2]);
        assert(det_conflict(v[p1], v[p2]));
    }
}

/// Narrowing is transitive.
pub proof fn lemma_narrows_trans(v3: Seq<Seq<bool>>, v2: Seq<Seq<bool>>, v1: Seq<Seq<bool>>)
    requires
        narrows(v3, v2),
        narrows(v2, v1),
    ensures
        narrows(v3, v1),
{
    assert forall|p: int, i: int|
        0 <= p < 81 && 0 <= i < 9 && #[trigger] v3[p][i] implies v1[p][i] by {
        assert(v2[p][i]);
    }
}

/// Keeping solutions is transitive.
pub proof fn lemma_keeps_trans(v1: Seq<Seq<bool>>, v2: Seq<Seq<bool>>, v3: Seq<Seq<bool>>)
    requires
        keeps_solutions(v1, v2),
        keeps_solutions(v2, v3),
    ensures
        keeps_solutions(v1, v3),
{
    assert forall|sol: Seq<int>|
        valid_solution(sol) && #[trigger] admits(v1, sol) implies #[trigger] admits(
        v3, sol) by {
        assert(admits(v2, sol));
    }
}

/// A narrower board has no more candidates in total, cell prefix by prefix.
proof fn lemma_total_below_mono(v1: Seq<Seq<bool>>, v2: Seq<Seq<bool>>, n: int)
    requires
        v1.len() == 81,
        v2.len() == 81,
        forall|p: int| 0 <= p < 81 ==> (#[trigger] v1[p]).len() == 9,
        forall|p: int| 0 <= p < 81 ==> (#[trigger] v2[p]).len() == 9,
        narrows(v1, v2),
        n <= 81,
    ensures
        total_below(v1, n) <= total_below(v2, n),
    decreases n,
{
    if n > 0 {
        lemma_total_below_mono(v1, v2, n - 1);
        lemma_count_true_subset(v1[n - 1], v2[n - 1]);
    }
}

/// If some cell is strictly narrower, the total strictly drops.
proof fn lemma_total_below_strict(
    v1: Seq<Seq<bool>>,
    v2: Seq<Seq<bool>>,
    n: int,
    w: int,
    idx: int,
)
    requires
        v1.len() == 81,
        v2.len() == 81,
        forall|p: int| 0 <= p < 81 ==> (#[trigger] v1[p]).len() == 9,
        forall|p: int| 0 <= p < 81 ==> (#[trigger] v2[p]).len() == 9,
        narrows(v1, v2),
        0 <= w < n <= 81,
        0 <= idx < 9,
        !v1[w][idx],
        v2[w][idx],
    ensures
        total_below(v1, n) < total_below(v2, n),
    decreases n,
{
    if w == n - 1 {
        lemma_total_below_mono(v1, v2, n - 1);
        lemma_count_true_subset_strict(v1[w], v2[w], idx);
    } else {
        lemma_total_below_strict(v1, v2, n - 1, w, idx);
        lemma_count_true_subset(v1[n - 1], v2[n - 1]);
    }
}

/// The board is inconsistent; a failed node reports it and the caller
/// recovers (tries another branch, or reports the puzzle unsolvable).
#[must_use]
#[derive(Debug, Clone, Copy)]
pub struct Broken;

/// Why a search node failed: the board is inconsistent, or the depth budget
/// ran out before the node resolved, carrying the narrowed board back.
#[derive(Debug, Clone, Copy)]
pub enum CannotSolve {
    Broken,
    DepthLimit(SudokuPossibilities),
}

impl Grid<PossibleValues> {
    /// Whether two boards hold exactly the same candidate sets.
    pub fn same(&self, other: &SudokuPossibilities) -> (r: bool)
        requires
            wf_board(*self),
            wf_board(*other),
        ensures
            r == (*self == *other),
    {
        let mut p: usize = 0;
        while p < 81
            invariant
                p <= 81,
                wf_board(*self),
                wf_board(*other),
                forall|q: int| 0 <= q < p ==> self@[q] == other@[q],
            decreases 81 - p,
        {
            let a = self.cells[p];
            let b = other.cells[p];
            proof {
                assert(a == self@[p as int]);
                assert(b == other@[p as int]);
            }
            if !(a == b) {
                proof {
                    if *self == *other {
                        assert(self@[p as int] == other@[p as int]);
                    }
                }
                return false;
            }
            p = p + 1;
        }
        proof {
            assert(self.cells@ =~= other.cells@);
            assert(self.cells =~= other.cells);
            assert(*self =~= *other);
        }
        true
    }

    /// One full propagation sweep: for every unpinned cell and every remaining
    /// candidate digit, pin a copy of the board to that digit and discard the
    /// digit if the copy fails the consistency check. Fails iff the board was
    /// broken before the sweep or is broken after it.
    pub fn infer_step(&mut self) -> (r: Result<(), Broken>)
        requires
            wf_board(*old(self)),
        ensures
            wf_board(*final(self)),
            narrows(gview(*final(self)), gview(*old(self))),
            keeps_solutions(gview(*old(self)), gview(*final(self))),
            sp_broken(gview(*old(self))) ==> r is Err && *final(self) == *old(self),
            r is Ok <==> !sp_broken(gview(*final(self))),
            !sp_broken(gview(*old(self))) && stable(gview(*old(self))) ==> (*final(self)
                == *old(self) && r is Ok),
            (r is Ok && gview(*final(self)) == gview(*old(self))) ==> stable(
                gview(*final(self))),
    {
        if self.is_broken() {
            return Err(Broken);
        }
        let ghost orig = *self;
        let ghost v0 = gview(orig);
        let mut p: usize = 0;
        while p < 81
            invariant
                p <= 81,
                wf_board(*self),
                wf_board(orig),
                v0 == gview(orig),
                !sp_broken(v0),
                narrows(gview(*self), v0),
                keeps_solutions(v0, gview(*self)),
                gview(*self) == v0 ==> stable_below(v0, p as int),
                stable(v0) ==> *self == orig,
            decreases 81 - p,
        {
            let cell = self.cells[p];
            proof {
                assert(cell == self@[p as int]);
                assert(gview(*self)[p as int] == cell@);
            }
            if cell.determined().is_none() {
                let opts = cell.options();
                let ghost entry = *self;
                let ghost ev = gview(entry);
                let mut t: usize = 0;
                while t < opts.len()
                    invariant
                        t <= opts@.len(),
                        p < 81,
                        wf_board(*self),
                        wf_board(entry),
                        wf_board(orig),
                        v0 == gview(orig),
                        ev == gview(entry),
                        !sp_broken(v0),
                        cell == entry@[p as int],
                        cell.wf(),
                        count_true(cell@) != 1,
                        narrows(ev, v0),
                        narrows(gview(*self), ev),
                        keeps_solutions(v0, gview(*self)),
                        forall|u1: int, u2: int|
                            0 <= u1 < u2 < opts@.len() ==> opts@[u1]@ < opts@[u2]@,
                        forall|u: int|
                            0 <= u < opts@.len() ==> (#[trigger] opts@[u]).wf()
                                && cell@[opts@[u]@ - 1],
                        forall|d: int|
                            1 <= d <= 9 && #[trigger] cell@[d - 1] ==> exists|u: int|
                                0 <= u < opts@.len() && opts@[u]@ == d,
                        forall|u: int|
                            t <= u < opts@.len() ==> gview(*self)[p as int][(
                            #[trigger] opts@[u])@ - 1],
                        gview(*self) == v0 ==> (stable_below(v0, p as int) && forall|u: int|
                            0 <= u < t ==> !sp_broken(
                                v0.update(p as int, singleton_view((#[trigger] opts@[u])@)),
                            )),
                        stable(v0) ==> *self == orig,
                    decreases opts@.len() - t,
                {
                    let d = opts[t];
                    let mut copy = *self;
                    let ghost pre = *self;
                    copy.cells[p] = PossibleValues::from_digit(d);
                    proof {
                        assert(copy@ == pre@.update(p as int, copy@[p as int]));
                        assert(copy@[p as int]@ == singleton_view(d@));
                        assert(gview(copy) =~= gview(pre).update(
                            p as int,
                            singleton_view(d@),
                        ));
                    }
                    if copy.is_broken() {
                        let mut cur = self.cells[p];
                        proof {
                            assert(cur == pre@[p as int]);
                        }
                        cur.remove(d);
                        self.cells[p] = cur;
                        proof {
                            assert(self@ == pre@.update(p as int, cur));
                            assert(cur@ == crate::bitset::remove_view(
                                gview(pre)[p as int],
                                d@,
                            ));
                            assert(gview(*self) =~= gview(pre).update(p as int, cur@));
                            // the removal keeps the board narrowing
                            assert forall|q: int, i: int|
                                0 <= q < 81 && 0 <= i < 9 && #[trigger] gview(*self)[q][i]
                                implies ev[q][i] by {
                                assert(gview(pre)[q][i]);
                            }
                            // the removed digit takes part in no valid admitted solution
                            assert forall|sol: Seq<int>|
                                valid_solution(sol) && #[trigger] admits(v0, sol) implies
                                #[trigger] admits(gview(*self), sol) by {
                                assert(admits(gview(pre), sol));
                                if sol[p as int] == d@ {
                                    assert forall|q: int|
                                        0 <= q < 81 implies #[trigger] gview(copy)[q][sol[q]
                                        - 1] by {
                                        if q == p as int {
                                            assert(gview(copy)[q] == singleton_view(d@));
                                        } else {
                                            assert(gview(copy)[q] == gview(pre)[q]);
                                        }
                                    }
                                    assert(admits(gview(copy), sol));
                                    lemma_gview_shape(copy);
                                    lemma_broken_no_solution(gview(copy), sol);
                                    assert(false);
                                }
                                assert forall|q: int|
                                    0 <= q < 81 implies #[trigger] gview(*self)[q][sol[q]
                                    - 1] by {
                                    if q == p as int {
                                        assert(gview(*self)[q] == crate::bitset::remove_view(
                                            gview(pre)[q],
                                            d@,
                                        ));
                                        assert(gview(pre)[q][sol[q] - 1]);
                                    } else {
                                        assert(gview(*self)[q] == gview(pre)[q]);
                                    }
                                }
                            }
                            // the board now differs from its start-of-sweep state
                            assert(gview(pre)[p as int][d@ - 1]);
                            assert(narrows(gview(pre), v0));
                            assert(v0[p as int][d@ - 1]);
                            assert(!gview(*self)[p as int][d@ - 1]);
                            if gview(*self) == v0 {
                                assert(gview(*self)[p as int][d@ - 1] == v0[p as int][d@
                                    - 1]);
                                assert(false);
                            }
                            // under a stable start no removal can happen
                            if stable(v0) && !sp_broken(v0) {
                                assert(pre == orig);
                                assert(gview(pre) == v0);
                                assert(cell@ == v0[p as int]);
                                assert(cell_undet(v0[p as int]));
                                assert(v0[p as int][d@ - 1]);
                                assert(!sp_broken(v0.update(p as int, singleton_view(d@))));
                                assert(gview(copy) == v0.update(
                                    p as int,
                                    singleton_view(d@),
                                ));
                                assert(false);
                            }
                        }
                    } else {
                        proof {
                            if gview(*self) == v0 {
                                assert(gview(copy) == v0.update(
                                    p as int,
                                    singleton_view(d@),
                                ));
                            }
                        }
                    }
                    t = t + 1;
                }
                proof {
                    if gview(*self) == v0 {
                        // the whole pass left the board unchanged, so the tests
                        // above covered every candidate of the start state
                        assert forall|q: int, i: int|
                            0 <= q < 81 && 0 <= i < 9 && #[trigger] ev[q][i] implies v0[q][i]
                        by {}
                        assert forall|q: int| 0 <= q < 81 implies ev[q] == v0[q] by {
                            assert forall|i: int| 0 <= i < 9 implies ev[q][i] == v0[q][i]
                            by {
                                if v0[q][i] {
                                    assert(gview(*self)[q][i]);
                                }
                            }
                            assert(ev[q] =~= v0[q]);
                        }
                        assert(ev =~= v0);
                        assert(cell@ == v0[p as int]);
                        assert forall|d: int|
                            1 <= d <= 9 && cell_undet(v0[p as int]) && v0[p as int][d - 1]
                            implies !sp_broken(
                            #[trigger] v0.update(p as int, singleton_view(d)),
                        ) by {
                            assert(cell@[d - 1]);
                            let u = choose|u: int|
                                0 <= u < opts@.len() && (#[trigger] opts@[u])@ == d;
                            assert(!sp_broken(
                                v0.update(p as int, singleton_view(opts@[u]@)),
                            ));
                        }
                        assert(stable_below(v0, p as int + 1));
                    }
                }
            } else {
                proof {
                    if gview(*self) == v0 {
                        assert(count_true(gview(*self)[p as int]) == 1);
                        assert(!cell_undet(v0[p as int]));
                        assert forall|pp: int, d: int|
                            0 <= pp < p as int + 1 && 1 <= d <= 9 && cell_undet(v0[pp])
                                && v0[pp][d - 1] implies !sp_broken(
                            #[trigger] v0.update(pp, singleton_view(d)),
                        ) by {
                            assert(stable_below(v0, p as int));
                        }
                        assert(stable_below(v0, p as int + 1));
                    }
                }
            }
            p = p + 1;
        }
        if self.is_broken() {
            return Err(Broken);
        }
        Ok(())
    }

    /// Apply propagation sweeps until a sweep changes nothing: the result is a
    /// fixed point of the sweep. Fails iff the board turns out inconsistent.
    pub fn infer(&mut self) -> (r: Result<(), Broken>)
        requires
            wf_board(*old(self)),
        ensures
            wf_board(*final(self)),
            narrows(gview(*final(self)), gview(*old(self))),
            keeps_solutions(gview(*old(self)), gview(*final(self))),
            r is Ok <==> !sp_broken(gview(*final(self))),
            r is Ok ==> stable(gview(*final(self))),
            (!sp_broken(gview(*old(self))) && stable(gview(*old(self)))) ==> (r is Ok
                && *final(self) == *old(self)),
    {
        loop
            invariant
                wf_board(*self),
                wf_board(*old(self)),
                narrows(gview(*self), gview(*old(self))),
                keeps_solutions(gview(*old(self)), gview(*self)),
                (!sp_broken(gview(*old(self))) && stable(gview(*old(self)))) ==> *self == *old(
                    self,
                ),
            decreases total_count(gview(*self)),
        {
            let original = *self;
            let r = self.infer_step();
            proof {
                lemma_narrows_trans(gview(*self), gview(original), gview(*old(self)));
                lemma_keeps_trans(gview(*old(self)), gview(original), gview(*self));
            }
            match r {
                Err(e) => {
                    return Err(e);
                },
                Ok(()) => {
                    if self.same(&original) {
                        return Ok(());
                    }
                },
            }
            proof {
                lemma_gview_shape(*self);
                lemma_gview_shape(original);
                let gs = gview(*self);
                let go = gview(original);
                if forall|q: int| 0 <= q < 81 ==> #[trigger] self@[q] == original@[q] {
                    assert(self@ =~= original@);
                    assert(self.cells =~= original.cells);
                    assert(*self =~= original);
                    assert(false);
                }
                let q = choose|q: int| 0 <= q < 81 && #[trigger] self@[q] != original@[q];
                if gs[q] == go[q] {
                    crate::bitset::lemma_view_injective(self@[q], original@[q]);
                    assert(false);
                }
                if forall|i: int| 0 <= i < 9 ==> #[trigger] gs[q][i] == go[q][i] {
                    assert(gs[q] =~= go[q]);
                    assert(false);
                }
                let i = choose|i: int| 0 <= i < 9 && #[trigger] gs[q][i] != go[q][i];
                assert(go[q][i] && !gs[q][i]);
                lemma_total_below_strict(gs, go, 81, q, i);
            }
        }
    }
}

/// An assignment admitted by a narrower board is admitted by the wider one.
pub proof fn lemma_narrows_admits(vn: Seq<Seq<bool>>, vw: Seq<Seq<bool>>, sol: Seq<int>)
    requires
        narrows(vn, vw),
        admits(vn, sol),
    ensures
        admits(vw, sol),
{
    assert forall|p: int| 0 <= p < 81 implies #[trigger] vw[p][sol[p] - 1] by {
        assert(vn[p][sol[p] - 1]);
    }
}

/// An unbroken board has no empty cell.
proof fn lemma_not_broken_no_empty(v: Seq<Seq<bool>>)
    requires
        !sp_broken(v),
    ensures
        forall|p: int| 0 <= p < 81 ==> count_true(#[trigger] v[p]) != 0,
{
    assert forall|p: int| 0 <= p < 81 implies count_true(#[trigger] v[p]) != 0 by {
        if count_true(v[p]) == 0 {
            assert(has_empty_cell(v));
        }
    }
}

/// At most `n` of the first `n` cells are unpinned.
proof fn lemma_undet_below_le(v: Seq<Seq<bool>>, n: int)
    requires
        n >= 0,
    ensures
        undet_below(v, n) <= n,
    decreases n,
{
    if n > 0 {
        lemma_undet_below_le(v, n - 1);
    }
}

/// With no unpinned cell counted, every cell below `n` is pinned.
proof fn lemma_undet_below_zero(v: Seq<Seq<bool>>, n: int)
    requires
        undet_below(v, n) == 0,
    ensures
        forall|p: int| 0 <= p < n ==> count_true(#[trigger] v[p]) == 1,
    decreases n,
{
    if n > 0 {
        lemma_undet_below_zero(v, n - 1);
        assert(!cell_undet(v[n - 1]));
    }
}

/// Pointwise fewer unpinned cells give a smaller count.
proof fn lemma_undet_below_mono(v1: Seq<Seq<bool>>, v2: Seq<Seq<bool>>, n: int)
    requires
        n <= 81,
        forall|p: int| 0 <= p < 81 && cell_undet(#[trigger] v1[p]) ==> cell_undet(v2[p]),
    ensures
        undet_below(v1, n) <= undet_below(v2, n),
    decreases n,
{
    if n > 0 {
        lemma_undet_below_mono(v1, v2, n - 1);
    }
}

/// How pinning or unpinning a single cell moves the count.
proof fn lemma_undet_below_update(v: Seq<Seq<bool>>, p: int, cv: Seq<bool>, n: int)
    requires
        v.len() == 81,
        0 <= p < 81,
        n <= 81,
    ensures
        undet_below(v.update(p, cv), n) as int == undet_below(v, n) as int + (if p < n
            && cell_undet(cv) {
            1int
        } else {
            0int
        }) - (if p < n && cell_undet(v[p]) {
            1int
        } else {
            0int
        }),
    decreases n,
{
    if n > 0 {
        lemma_undet_below_update(v, p, cv, n - 1);
        if p == n - 1 {
            assert(v.update(p, cv)[n - 1] == cv);
        } else {
            assert(v.update(p, cv)[n - 1] == v[n - 1]);
        }
    }
}

/// A narrower, empty-free board has no more unpinned cells.
proof fn lemma_undet_narrows(v1: Seq<Seq<bool>>, v2: Seq<Seq<bool>>)
    requires
        v1.len() == 81,
        v2.len() == 81,
        forall|p: int| 0 <= p < 81 ==> (#[trigger] v1[p]).len() == 9,
        forall|p: int| 0 <= p < 81 ==> (#[trigger] v2[p]).len() == 9,
        narrows(v1, v2),
        forall|p: int| 0 <= p < 81 ==> count_true(#[trigger] v1[p]) != 0,
    ensures
        undet_count(v1) <= undet_count(v2),
{
    assert forall|p: int|
        0 <= p < 81 && cell_undet(#[trigger] v1[p]) implies cell_undet(v2[p]) by {
        lemma_count_true_subset(v1[p], v2[p]);
    }
    lemma_undet_below_mono(v1, v2, 81);
}

/// Everything a finished search node guarantees about its outcome, relative
/// to the board `g0` it started from and its depth budget: a returned
/// solution is valid and matches the board; a `Broken` failure proves the
/// board admits no valid solution; a `DepthLimit` failure carries a narrowed
/// board that keeps every valid solution; and when the budget covers all
/// unpinned cells of a board that admits a valid solution, the node succeeds.
pub open spec fn search_outcome(
    g0: SudokuPossibilities,
    depth: int,
    limit: int,
    r: Result<SudokuSolution, CannotSolve>,
) -> bool {
    &&& (r matches Ok(sol) ==> wf_solution(sol) && valid_solution(sol_digits(sol)) && admits(
        gview(g0),
        sol_digits(sol),
    ))
    &&& (r matches Err(CannotSolve::Broken) ==> (forall|sol: Seq<int>|
        #[trigger] admits(gview(g0), sol) ==> !valid_solution(sol)))
    &&& (r matches Err(CannotSolve::DepthLimit(g)) ==> wf_board(g) && narrows(
        gview(g),
        gview(g0),
    ) && keeps_solutions(gview(g0), gview(g)))
    &&& (((exists|sol: Seq<int>|
        valid_solution(sol) && #[trigger] admits(gview(g0), sol)) && undet_count(gview(g0))
        + depth <= limit + 1) ==> r is Ok)
}

/// Runs every speculative branch board in parallel and collects each
/// branch's search outcome, in input order.
///
/// Relies on rayon's `IntoParallelIterator` for `Vec`,
/// `ParallelIterator::map` and `ParallelIterator::collect`: the closure runs
/// once per element, and collecting into a `Vec` keeps the input order. The
/// closure only hands one branch board to `recursive_hypothetical`, whose
/// verified contract justifies each clause stated here.
#[verifier::external_body]
fn par_branches(
    branches: Vec<SudokuPossibilities>,
    depth: usize,
    limit: usize,
) -> (r: Vec<Result<SudokuSolution, CannotSolve>>)
    requires
        depth < usize::MAX,
        limit <= usize::MAX - 2,
        forall|u: int| 0 <= u < branches@.len() ==> wf_board(#[trigger] branches@[u]),
    ensures
        r@.len() == branches@.len(),
        forall|u: int|
            0 <= u < r@.len() ==> search_outcome(
                branches@[u],
                depth + 1,
                limit as int,
                #[trigger] r@[u],
            ),
{
    branches
        .into_par_iter()
        .map(|mut b: SudokuPossibilities| b.recursive_hypothetical(depth + 1, limit))
        .collect()
}

/// Cellwise union of two candidate sets, used to merge the boards of
/// depth-limited branches.
fn union_cells(x: PossibleValues, y: PossibleValues) -> (rr: PossibleValues)
    requires
        x.wf(),
        y.wf(),
    ensures
        rr.wf(),
        rr@ == union_view(x@, y@),
{
    x.union(y)
}

impl Grid<PossibleValues> {
    /// The first cell, row-major, not pinned to a single digit.
    fn first_undet(&self) -> (r: usize)
        requires
            wf_board(*self),
            exists|q: int| 0 <= q < 81 && cell_undet(#[trigger] gview(*self)[q]),
        ensures
            r < 81,
            cell_undet(gview(*self)[r as int]),
            forall|q: int| 0 <= q < r ==> count_true(#[trigger] gview(*self)[q]) == 1,
    {
        let mut p: usize = 0;
        while p < 81
            invariant
                p <= 81,
                wf_board(*self),
                forall|q: int| 0 <= q < p ==> count_true(#[trigger] gview(*self)[q]) == 1,
            decreases 81 - p,
        {
            let c = self.cells[p];
            proof {
                assert(c == self@[p as int]);
                assert(c@ == gview(*self)[p as int]);
            }
            if c.count() != 1 {
                return p;
            }
            p = p + 1;
        }
        proof {
            assert(false);
        }
        0
    }

    /// One node of the depth-limited search: propagate to a fixed point; if
    /// solved, succeed; if the budget is spent, fail with the narrowed board;
    /// otherwise branch the first unpinned cell over its candidates, explore
    /// the branches in parallel, return any branch's solution, and failing
    /// that, merge the boards of the depth-limited branches by cellwise union
    /// into the new state and fail with it.
    pub fn recursive_hypothetical(&mut self, depth: usize, limit: usize) -> (r: Result<
        SudokuSolution,
        CannotSolve,
    >)
        requires
            wf_board(*old(self)),
            limit <= usize::MAX - 2,
        ensures
            wf_board(*final(self)),
            narrows(gview(*final(self)), gview(*old(self))),
            keeps_solutions(gview(*old(self)), gview(*final(self))),
            search_outcome(*old(self), depth as int, limit as int, r),
            r matches Err(CannotSolve::DepthLimit(g)) ==> g == *final(self),
    {
        let ghost g0 = gview(*old(self));
        match self.infer() {
            Err(_) => {
                proof {
                    lemma_gview_shape(*self);
                    assert forall|sol: Seq<int>| #[trigger] admits(g0, sol) implies
                        !valid_solution(sol) by {
                        if valid_solution(sol) {
                            assert(admits(gview(*self), sol));
                            lemma_broken_no_solution(gview(*self), sol);
                        }
                    }
                }
                return Err(CannotSolve::Broken);
            },
            Ok(()) => {},
        }
        let ghost sv = gview(*self);
        if let Some(solution) = self.solved() {
            proof {
                lemma_narrows_admits(sv, g0, sol_digits(solution));
            }
            return Ok(solution);
        }
        if depth > limit {
            proof {
                if (exists|sol: Seq<int>| valid_solution(sol) && #[trigger] admits(g0, sol))
                    && undet_count(g0) + depth <= limit + 1 {
                    assert(undet_count(g0) == 0);
                    lemma_undet_below_zero(g0, 81);
                    lemma_gview_shape(*self);
                    lemma_not_broken_no_empty(sv);
                    assert forall|p: int| 0 <= p < 81 implies count_true(
                        #[trigger] sv[p]) == 1 by {
                        lemma_count_true_subset(sv[p], g0[p]);
                    }
                    assert(false);
                }
            }
            return Err(CannotSolve::DepthLimit(*self));
        }
        proof {
            assert(exists|q: int| 0 <= q < 81 && cell_undet(#[trigger] sv[q]));
        }
        let fp = self.first_undet();
        let cell = self.cells[fp];
        proof {
            assert(cell == self@[fp as int]);
            assert(cell@ == sv[fp as int]);
        }
        let opts = cell.options();
        let mut branches: Vec<SudokuPossibilities> = Vec::new();
        let mut t: usize = 0;
        while t < opts.len()
            invariant
                t <= opts@.len(),
                branches@.len() == t,
                fp < 81,
                wf_board(*self),
                sv == gview(*self),
                g0 == gview(*old(self)),
                narrows(sv, g0),
                keeps_solutions(g0, sv),
                cell == self@[fp as int],
                cell.wf(),
                cell_undet(sv[fp as int]),
                forall|u: int|
                    0 <= u < opts@.len() ==> (#[trigger] opts@[u]).wf() && cell@[opts@[u]@
                        - 1],
                forall|d: int|
                    1 <= d <= 9 && #[trigger] cell@[d - 1] ==> exists|u: int|
                        0 <= u < opts@.len() && opts@[u]@ == d,
                forall|u: int|
                    0 <= u < t ==> wf_board(#[trigger] branches@[u]) && gview(branches@[u])
                        == sv.update(fp as int, singleton_view(opts@[u]@)),
            decreases opts@.len() - t,
        {
            let d = opts[t];
            let mut b = *self;
            b.cells[fp] = PossibleValues::from_digit(d);
            proof {
                assert(b@ == self@.update(fp as int, b@[fp as int]));
                assert(gview(b) =~= sv.update(fp as int, singleton_view(d@)));
            }
            branches.push(b);
            t = t + 1;
        }
        let ghost bs = branches@;
        let results = par_branches(branches, depth, limit);
        let mut alts: Vec<SudokuPossibilities> = Vec::new();
        let mut t2: usize = 0;
        while t2 < results.len()
            invariant
                t2 <= results@.len(),
                results@.len() == opts@.len(),
                bs.len() == opts@.len(),
                fp < 81,
                wf_board(*self),
                sv == gview(*self),
                g0 == gview(*old(self)),
                narrows(sv, g0),
                keeps_solutions(g0, sv),
                cell == self@[fp as int],
                cell.wf(),
                cell_undet(sv[fp as int]),
                forall|u: int|
                    0 <= u < opts@.len() ==> (#[trigger] opts@[u]).wf() && cell@[opts@[u]@
                        - 1],
                forall|d: int|
                    1 <= d <= 9 && #[trigger] cell@[d - 1] ==> exists|u: int|
                        0 <= u < opts@.len() && opts@[u]@ == d,
                forall|u: int|
                    0 <= u < opts@.len() ==> wf_board(#[trigger] bs[u]) && gview(bs[u])
                        == sv.update(fp as int, singleton_view(opts@[u]@)),
                forall|u: int|
                    0 <= u < results@.len() ==> search_outcome(
                        bs[u],
                        depth + 1,
                        limit as int,
                        #[trigger] results@[u],
                    ),
                forall|u: int| 0 <= u < t2 ==> !((#[trigger] results@[u]) is Ok),
                forall|u: int|
                    0 <= u < t2 ==> ((#[trigger] results@[u]) matches Err(
                        CannotSolve::DepthLimit(g)) ==> exists|a: int|
                        0 <= a < alts@.len() && alts@[a] == g),
                forall|a: int|
                    0 <= a < alts@.len() ==> wf_board(#[trigger] alts@[a]) && narrows(
                        gview(alts@[a]),
                        sv,
                    ),
            decreases results@.len() - t2,
        {
            let res = results[t2];
            proof {
                assert(res == results@[t2 as int]);
                assert(search_outcome(bs[t2 as int], depth + 1, limit as int, res));
            }
            match res {
                Ok(solution) => {
                    proof {
                        let bv = gview(bs[t2 as int]);
                        assert forall|q: int, i: int|
                            0 <= q < 81 && 0 <= i < 9 && #[trigger] bv[q][i] implies sv[q][i]
                        by {
                            if q == fp as int {
                                assert(bv[q] == singleton_view(opts@[t2 as int]@));
                                assert(i == opts@[t2 as int]@ - 1);
                                assert(cell@[i]);
                            } else {
                                assert(bv[q] == sv[q]);
                            }
                        }
                        lemma_narrows_admits(bv, sv, sol_digits(solution));
                        lemma_narrows_admits(sv, g0, sol_digits(solution));
                    }
                    return Ok(solution);
                },
                Err(CannotSolve::Broken) => {},
                Err(CannotSolve::DepthLimit(g)) => {
                    let ghost a0 = alts@;
                    alts.push(g);
                    proof {
                        let bv = gview(bs[t2 as int]);
                        assert forall|q: int, i: int|
                            0 <= q < 81 && 0 <= i < 9 && #[trigger] bv[q][i] implies sv[q][i]
                        by {
                            if q == fp as int {
                                assert(bv[q] == singleton_view(opts@[t2 as int]@));
                                assert(i == opts@[t2 as int]@ - 1);
                                assert(cell@[i]);
                            } else {
                                assert(bv[q] == sv[q]);
                            }
                        }
                        lemma_narrows_trans(gview(g), bv, sv);
                        assert forall|u: int|
                            0 <= u < t2 + 1 implies ((#[trigger] results@[u]) matches Err(
                            CannotSolve::DepthLimit(gg)) ==> exists|a: int|
                            0 <= a < alts@.len() && alts@[a] == gg) by {
                            if u < t2 as int {
                                let ru = results@[u];
                                if ru is Err && ru->Err_0 is DepthLimit {
                                    let gg = ru->Err_0->DepthLimit_0;
                                    let a1 = choose|a: int|
                                        0 <= a < a0.len() && a0[a] == gg;
                                    assert(alts@[a1] == gg);
                                }
                            } else {
                                assert(alts@[alts@.len() - 1] == g);
                            }
                        }
                    }
                },
            }
            t2 = t2 + 1;
        }
        let ghost av = alts@;
        let mut combined: SudokuPossibilities = Grid::splat(PossibleValues::empty());
        proof {
            assert forall|q: int, i: int|
                0 <= q < 81 && 0 <= i < 9 && #[trigger] gview(combined)[q][i] implies sv[q][i]
            by {
                assert(gview(combined)[q] == empty_view());
            }
        }
        let mut a: usize = 0;
        while a < alts.len()
            invariant
                a <= alts@.len(),
                alts@ == av,
                wf_board(combined),
                combined@.len() == 81,
                narrows(gview(combined), sv),
                forall|x: int|
                    0 <= x < av.len() ==> wf_board(#[trigger] av[x]) && narrows(
                        gview(av[x]),
                        sv,
                    ),
                forall|x: int| 0 <= x < a ==> narrows(gview(#[trigger] av[x]), gview(combined)),
            decreases alts@.len() - a,
        {
            let alt = alts[a];
            let ghost cprev = combined;
            combined = combined.binop(alt, union_cells);
            proof {
                assert(alt == av[a as int]);
                assert forall|q: int|
                    0 <= q < 81 implies gview(combined)[q] == union_view(
                    gview(cprev)[q],
                    gview(av[a as int])[q],
                ) && (#[trigger] combined@[q]).wf() by {
                    assert(call_ensures(
                        union_cells,
                        (cprev@[q], av[a as int]@[q]),
                        combined@[q],
                    ));
                }
                assert forall|q: int, i: int|
                    0 <= q < 81 && 0 <= i < 9 && #[trigger] gview(combined)[q][i] implies
                    sv[q][i] by {
                    assert(gview(combined)[q][i] == (gview(cprev)[q][i] || gview(
                        av[a as int])[q][i]));
                }
                assert forall|x: int|
                    0 <= x < a + 1 implies narrows(gview(#[trigger] av[x]), gview(combined))
                by {
                    assert forall|q: int, i: int|
                        0 <= q < 81 && 0 <= i < 9 && #[trigger] gview(av[x])[q][i] implies
                        gview(combined)[q][i] by {
                        assert(gview(combined)[q][i] == (gview(cprev)[q][i] || gview(
                            av[a as int])[q][i]));
                        if x < a as int {
                            assert(gview(cprev)[q][i]);
                        }
                    }
                }
            }
            a = a + 1;
        }
        *self = combined;
        proof {
            lemma_narrows_trans(gview(combined), sv, g0);
            // every valid solution the post-propagation board admitted went
            // down some branch and came back inside some surviving alt
            assert forall|sol: Seq<int>|
                valid_solution(sol) && #[trigger] admits(sv, sol) implies #[trigger] admits(
                gview(combined),
                sol,
            ) by {
                let ds = sol[fp as int];
                assert(sv[fp as int][ds - 1]);
                assert(cell@[ds - 1]);
                let u = choose|u: int| 0 <= u < opts@.len() && (#[trigger] opts@[u])@ == ds;
                let bv = gview(bs[u]);
                assert forall|q: int| 0 <= q < 81 implies #[trigger] bv[q][sol[q] - 1] by {
                    if q == fp as int {
                        assert(bv[q] == singleton_view(ds));
                    } else {
                        assert(bv[q] == sv[q]);
                    }
                }
                assert(admits(bv, sol));
                assert(search_outcome(bs[u], depth + 1, limit as int, results@[u]));
                assert(!(results@[u] is Ok));
                if results@[u] matches Err(CannotSolve::Broken) {
                    assert(!valid_solution(sol));
                    assert(false);
                }
                let ru = results@[u];
                if ru is Err && ru->Err_0 is DepthLimit {
                    let gg = ru->Err_0->DepthLimit_0;
                    let ai = choose|ai: int| 0 <= ai < av.len() && av[ai] == gg;
                    assert(admits(gview(gg), sol));
                    assert(narrows(gview(av[ai]), gview(combined)));
                    lemma_narrows_admits(gview(gg), gview(combined), sol);
                }
            }
            lemma_keeps_trans(g0, sv, gview(combined));
            // and had the budget covered the board, some branch would have
            // solved it
            if (exists|sol: Seq<int>| valid_solution(sol) && #[trigger] admits(g0, sol))
                && undet_count(g0) + depth <= limit + 1 {
                let sol = choose|sol: Seq<int>|
                    valid_solution(sol) && #[trigger] admits(g0, sol);
                assert(admits(sv, sol));
                let ds = sol[fp as int];
                assert(sv[fp as int][ds - 1]);
                assert(cell@[ds - 1]);
                let u = choose|u: int| 0 <= u < opts@.len() && (#[trigger] opts@[u])@ == ds;
                let bv = gview(bs[u]);
                assert forall|q: int| 0 <= q < 81 implies #[trigger] bv[q][sol[q] - 1] by {
                    if q == fp as int {
                        assert(bv[q] == singleton_view(ds));
                    } else {
                        assert(bv[q] == sv[q]);
                    }
                }
                assert(admits(bv, sol));
                lemma_gview_shape(*old(self));
                lemma_gview_shape(bs[u]);
                lemma_not_broken_no_empty(sv);
                lemma_undet_narrows(sv, g0);
                crate::bitset::lemma_count_true_unique(singleton_view(ds), ds - 1);
                lemma_undet_below_update(sv, fp as int, singleton_view(ds), 81);
                assert(cell_undet(sv[fp as int]));
                assert(undet_count(bv) == undet_count(sv) - 1);
                assert(undet_count(bv) + (depth + 1) <= limit + 1);
                assert(results@[u] is Ok);
                assert(false);
            }
        }
        Err(CannotSolve::DepthLimit(*self))
    }

    /// Solve by iterative deepening: run the depth-limited search with budget
    /// 1, and after each depth-limited failure retry from the original board
    /// with a budget one larger. A budget of 81 covers every unpinned cell of
    /// any board, so a depth-limited attempt at that budget proves the board
    /// admits no valid solution.
    pub fn solve(self) -> (r: Result<SudokuSolution, Broken>)
        requires
            wf_board(self),
        ensures
            r matches Ok(sol) ==> wf_solution(sol) && valid_solution(sol_digits(sol))
                && admits(gview(self), sol_digits(sol)),
            r matches Err(_) ==> (forall|sol: Seq<int>|
                #[trigger] admits(gview(self), sol) ==> !valid_solution(sol)),
    {
        let mut limit: usize = 1;
        loop
            invariant
                wf_board(self),
                1 <= limit <= 81,
            decreases 81 - limit,
        {
            let mut attempt = self;
            let r = attempt.recursive_hypothetical(1, limit);
            match r {
                Ok(solution) => {
                    return Ok(solution);
                },
                Err(CannotSolve::Broken) => {
                    return Err(Broken);
                },
                Err(CannotSolve::DepthLimit(_)) => {
                    if limit >= 81 {
                        proof {
                            assert forall|sol: Seq<int>|
                                #[trigger] admits(gview(self), sol) implies !valid_solution(
                                sol) by {
                                if valid_solution(sol) {
                                    lemma_undet_below_le(gview(self), 81);
                                    assert(undet_count(gview(self)) + 1 <= limit + 1);
                                    assert(search_outcome(self, 1, limit as int, r));
                                    assert(r is Ok);
                                }
                            }
                        }
                        return Err(Broken);
                    }
                    limit = limit + 1;
                },
            }
        }
    }
}

impl Grid<Option<Digit>> {
    /// Solve a parsed puzzle: some completed grid that satisfies the row,
    /// column and block constraints and keeps every given digit — or nothing,
    /// exactly when no such completion exists.
    pub fn solve(&self) -> (r: Option<SudokuSolution>)
        requires
            wf_sudoku(*self),
        ensures
            r matches Some(sol) ==> wf_solution(sol) && valid_solution(sol_digits(sol))
                && extends(sol_digits(sol), *self),
            r is None ==> (forall|sol: Seq<int>| valid_solution(sol) ==> !extends(sol, *self)),
    {
        let sp = SudokuPossibilities::from_sudoku(self);
        match sp.solve() {
            Ok(solution) => {
                proof {
                    lemma_lifted_admits(*self, gview(sp), sol_digits(solution));
                }
                Some(solution)
            },
            Err(_) => {
                proof {
                    assert forall|sol: Seq<int>|
                        valid_solution(sol) implies !extends(sol, *self) by {
                        if extends(sol, *self) {
                            lemma_lifted_admits(*self, gview(sp), sol);
                            assert(admits(gview(sp), sol));
                        }
                    }
                }
                None
            },
        }
    }
}

/// Two distinct cells that share a row, a column or a 3x3 block.
pub open spec fn same_unit_cells(r1: int, c1: int, r2: int, c2: int) -> bool {
    0 <= r1 < 9 && 0 <= c1 < 9 && 0 <= r2 < 9 && 0 <= c2 < 9 && !(r1 == r2 && c1 == c2) && (r1
        == r2 || c1 == c2 || (r1 / 3 == r2 / 3 && c1 / 3 == c2 / 3))
}

/// The consistency check trips exactly when a cell ran empty or two distinct
/// cells sharing a row, a column or a block are pinned to the same digit.
pub proof fn lemma_broken_characterization(v: Seq<Seq<bool>>)
    requires
        v.len() == 81,
    ensures
        sp_broken(v) <==> (has_empty_cell(v) || exists|r1: int, c1: int, r2: int, c2: int|
            #[trigger] same_unit_cells(r1, c1, r2, c2) && det_conflict(
                v[pos(r1, c1)],
                v[pos(r2, c2)],
            )),
{
    if sp_broken(v) && !has_empty_cell(v) {
        let (i, j, k) = choose|i: int, j: int, k: int|
            0 <= i < 9 && 0 <= j < k < 9 && #[trigger] unit_conflict(v, i, j, k);
        if det_conflict(v[pos(i, j)], v[pos(i, k)]) {
            assert(same_unit_cells(i, j, i, k));
        } else if det_conflict(v[pos(j, i)], v[pos(k, i)]) {
            assert(same_unit_cells(j, i, k, i));
        } else {
            lemma_fundamental_div_mod(i, 3);
            lemma_fundamental_div_mod(j, 3);
            lemma_fundamental_div_mod(k, 3);
            let r1 = (i / 3) * 3 + j / 3;
            let c1 = (i % 3) * 3 + j % 3;
            let r2 = (i / 3) * 3 + k / 3;
            let c2 = (i % 3) * 3 + k % 3;
            lemma_fundamental_div_mod_converse(r1, 3, i / 3, j / 3);
            lemma_fundamental_div_mod_converse(r2, 3, i / 3, k / 3);
            lemma_fundamental_div_mod_converse(c1, 3, i % 3, j % 3);
            lemma_fundamental_div_mod_converse(c2, 3, i % 3, k % 3);
            if r1 == r2 && c1 == c2 {
                assert(j == 3 * (j / 3) + j % 3);
                assert(k == 3 * (k / 3) + k % 3);
                assert(false);
            }
            assert(same_unit_cells(r1, c1, r2, c2));
            assert(det_conflict(v[pos(r1, c1)], v[pos(r2, c2)]));
        }
    }
    if !sp_broken(v) && (exists|r1: int, c1: int, r2: int, c2: int|
        #[trigger] same_unit_cells(r1, c1, r2, c2) && det_conflict(
            v[pos(r1, c1)],
            v[pos(r2, c2)],
        )) {
        let (r1, c1, r2, c2) = choose|r1: int, c1: int, r2: int, c2: int|
            #[trigger] same_unit_cells(r1, c1, r2, c2) && det_conflict(
                v[pos(r1, c1)],
                v[pos(r2, c2)],
            );
        if r1 == r2 {
            if c1 < c2 {
                assert(unit_conflict(v, r1, c1, c2));
            } else {
                assert(det_conflict(v[pos(r1, c2)], v[pos(r2, c1)]));
                assert(unit_conflict(v, r1, c2, c1));
            }
        } else if c1 == c2 {
            if r1 < r2 {
                assert(unit_conflict(v, c1, r1, r2));
            } else {
                assert(det_conflict(v[pos(r2, c2)], v[pos(r1, c1)]));
                assert(unit_conflict(v, c1, r2, r1));
            }
        } else {
            lemma_fundamental_div_mod(r1, 3);
            lemma_fundamental_div_mod(c1, 3);
            lemma_fundamental_div_mod(r2, 3);
            lemma_fundamental_div_mod(c2, 3);
            let i = (r1 / 3) * 3 + c1 / 3;
            let j = (r1 % 3) * 3 + c1 % 3;
            let k = (r2 % 3) * 3 + c2 % 3;
            lemma_blk_of_cell(r1, c1);
            lemma_blk_of_cell(r2, c2);
            assert((r2 / 3) * 3 + c2 / 3 == i);
            assert(blk(i, j) == pos(r1, c1));
            assert(blk(i, k) == pos(r2, c2));
            lemma_fundamental_div_mod_converse(j, 3, r1 % 3, c1 % 3);
            lemma_fundamental_div_mod_converse(k, 3, r2 % 3, c2 % 3);
            if j == k {
                assert(r1 % 3 == r2 % 3 && c1 % 3 == c2 % 3);
                assert(r1 == 3 * (r1 / 3) + r1 % 3);
                assert(r2 == 3 * (r2 / 3) + r2 % 3);
                assert(false);
            }
            if j < k {
                assert(unit_conflict(v, i, j, k));
            } else {
                assert(det_conflict(v[blk(i, k)], v[blk(i, j)]));
                assert(unit_conflict(v, i, k, j));
            }
        }
        assert(false);
    }
}

/// The digits a fully given puzzle spells out.
pub open spec fn given_digits(s: Sudoku) -> Seq<int> {
    Seq::new(81, |p: int| match s@[p] {
        Some(d) => d@,
        None => 0,
    })
}

/// Lifting a fully given puzzle whose digits form a valid solution yields an
/// unbroken board with every cell pinned, and that board admits exactly the
/// original digits: converting a determined grid to candidates and reading it
/// back recovers the grid.
pub proof fn lemma_round_trip(s: Sudoku, b: SudokuPossibilities)
    requires
        wf_sudoku(s),
        forall|p: int| 0 <= p < 81 ==> (#[trigger] s@[p]) is Some,
        forall|p: int| 0 <= p < 81 ==> cell_lifted(s@[p], #[trigger] gview(b)[p]),
        valid_solution(given_digits(s)),
    ensures
        !sp_broken(gview(b)),
        forall|p: int| 0 <= p < 81 ==> count_true(#[trigger] gview(b)[p]) == 1,
        admits(gview(b), given_digits(s)),
        forall|sol2: Seq<int>| admits(gview(b), sol2) ==> sol2 =~= given_digits(s),
{
    let v = gview(b);
    let gd = given_digits(s);
    assert forall|p: int| 0 <= p < 81 implies count_true(#[trigger] v[p]) == 1 && v[p]
        == singleton_view(gd[p]) by {
        assert(cell_lifted(s@[p], v[p]));
        crate::bitset::lemma_count_true_unique(v[p], gd[p] - 1);
    }
    assert forall|p: int| 0 <= p < 81 implies #[trigger] v[p][gd[p] - 1] by {
        assert(v[p] == singleton_view(gd[p]));
    }
    assert(admits(v, gd));
    if sp_broken(v) {
        lemma_gview_shape(b);
        lemma_broken_no_solution(v, gd);
    }
    assert forall|sol2: Seq<int>| admits(v, sol2) implies sol2 =~= gd by {
        assert forall|p: int| 0 <= p < 81 implies sol2[p] == gd[p] by {
            assert(v[p][sol2[p] - 1]);
            assert(v[p] == singleton_view(gd[p]));
        }
    }
}

} // verus!
