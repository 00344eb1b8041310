use vstd::prelude::*;

verus! {

broadcast use vstd::array::group_array_axioms;

/// A 9x9 grid of cells, stored row-major: the cell at row `r`, column `c`
/// sits at index `r * 9 + c` of the view.
#[derive(Debug, Clone, Copy, PartialEq, Eq)]
#[verifier::ext_equal]
pub struct Grid<T> {
    pub cells: [T; 81],
}

impl<T> View for Grid<T> {
    type V = Seq<T>;

    open spec fn view(&self) -> Seq<T> {
        self.cells@
    }
}

impl<T: Copy> Grid<T> {
    /// A grid with the same value in every cell.
    pub fn splat(v: T) -> (r: Grid<T>)
        ensures
            r@.len() == 81,
            forall|i: int| 0 <= i < 81 ==> r@[i] == v,
    {
        Grid { cells: [v; 81] }
    }

    /// Read the cell at row `row`, column `col`.
    pub fn get(&self, row: usize, col: usize) -> (r: T)
        requires
            row < 9,
            col < 9,
        ensures
            r == self@[row as int * 9 + col],
    {
        self.cells[row * 9 + col]
    }

    /// Replace the cell at row `row`, column `col`.
    pub fn set(&mut self, row: usize, col: usize, v: T)
        requires
            row < 9,
            col < 9,
        ensures
            final(self)@ == old(self)@.update(row as int * 9 + col, v),
    {
        self.cells[row * 9 + col] = v;
    }

    /// Apply `f` to each cell, producing a new grid.
    pub fn map<N: Copy, F: Fn(T) -> N>(self, f: F) -> (r: Grid<N>)
        requires
            forall|i: int| 0 <= i < 81 ==> call_requires(f, (self@[i],)),
        ensures
            r@.len() == 81,
            forall|i: int| 0 <= i < 81 ==> call_ensures(f, (self@[i],), #[trigger] r@[i]),
    {
        let c0 = self.cells[0];
        proof {
            assert(c0 == self@[0]);
            assert(call_requires(f, (self@[0],)));
        }
        let mut out: Grid<N> = Grid::splat(f(c0));
        let mut i: usize = 0;
        while i < 81
            invariant
                i <= 81,
                out@.len() == 81,
                forall|j: int| 0 <= j < 81 ==> call_requires(f, (self@[j],)),
                forall|j: int| 0 <= j < i ==> call_ensures(f, (self@[j],), #[trigger] out@[j]),
            decreases 81 - i,
        {
            let c = self.cells[i];
            proof {
                assert(c == self@[i as int]);
                assert(call_requires(f, (self@[i as int],)));
            }
            let v = f(c);
            out.cells[i] = v;
            i = i + 1;
        }
        out
    }

    /// Apply `f` to each cell; fails as a whole if `f` fails on any cell.
    pub fn try_map<N: Copy, F: Fn(T) -> Option<N>>(self, f: F) -> (r: Option<Grid<N>>)
        requires
            forall|i: int| 0 <= i < 81 ==> call_requires(f, (self@[i],)),
        ensures
            r matches Some(g) ==> g@.len() == 81 && (forall|i: int|
                0 <= i < 81 ==> call_ensures(f, (self@[i],), Some(#[trigger] g@[i]))),
            r is None ==> exists|i: int|
                0 <= i < 81 && call_ensures(f, (self@[i],), None::<N>),
    {
        let c0 = self.cells[0];
        proof {
            assert(c0 == self@[0]);
            assert(call_requires(f, (self@[0],)));
        }
        let first = match f(c0) {
            Some(v) => v,
            None => {
                proof {
                    assert(call_ensures(f, (self@[0],), None::<N>));
                }
                return None;
            },
        };
        let mut out: Grid<N> = Grid::splat(first);
        let mut i: usize = 0;
        while i < 81
            invariant
                i <= 81,
                out@.len() == 81,
                forall|j: int| 0 <= j < 81 ==> call_requires(f, (self@[j],)),
                forall|j: int|
                    0 <= j < i ==> call_ensures(f, (self@[j],), Some(#[trigger] out@[j])),
            decreases 81 - i,
        {
            let c = self.cells[i];
            proof {
                assert(c == self@[i as int]);
                assert(call_requires(f, (self@[i as int],)));
            }
            match f(c) {
                Some(v) => {
                    out.cells[i] = v;
                },
                None => {
                    proof {
                        assert(call_ensures(f, (self@[i as int],), None::<N>));
                    }
                    return None;
                },
            }
            i = i + 1;
        }
        Some(out)
    }

    /// All 81 cells in row-major order.
    pub fn iter(&self) -> (r: Vec<T>)
        ensures
            r@ == self@,
    {
        let mut r: Vec<T> = Vec::new();
        let mut i: usize = 0;
        while i < 81
            invariant
                i <= 81,
                r@ == self@.take(i as int),
            decreases 81 - i,
        {
            r.push(self.cells[i]);
            proof {
                assert(r@ =~= self@.take(i + 1));
            }
            i = i + 1;
        }
        proof {
            assert(self@.take(81) =~= self@);
        }
        r
    }

    /// Combine two grids cell by cell with `op`.
    pub fn binop<F: Fn(T, T) -> T>(self, rhs: Grid<T>, op: F) -> (r: Grid<T>)
        requires
            forall|i: int| 0 <= i < 81 ==> call_requires(op, (self@[i], rhs@[i])),
        ensures
            r@.len() == 81,
            forall|i: int|
                0 <= i < 81 ==> call_ensures(op, (self@[i], rhs@[i]), #[trigger] r@[i]),
    {
        let mut out: Grid<T> = self;
        let mut i: usize = 0;
        while i < 81
            invariant
                i <= 81,
                out@.len() == 81,
                forall|j: int| 0 <= j < 81 ==> call_requires(op, (self@[j], rhs@[j])),
                forall|j: int|
                    0 <= j < i ==> call_ensures(op, (self@[j], rhs@[j]), #[trigger] out@[j]),
            decreases 81 - i,
        {
            let a = self.cells[i];
            let b = rhs.cells[i];
            proof {
                assert(a == self@[i as int] && b == rhs@[i as int]);
                assert(call_requires(op, (self@[i as int], rhs@[i as int])));
            }
            let v = op(a, b);
            out.cells[i] = v;
            i = i + 1;
        }
        out
    }
}

} // verus!
