//! Two-dimensional arrays, stored row by row.
use vstd::arithmetic::mul::lemma_mul_inequality;
use vstd::arithmetic::mul::lemma_mul_is_distributive_add_other_way;
use vstd::prelude::*;

verus! {

/// `height` rows of `width` cells each.
#[derive(Debug, Clone)]
pub struct Plane<E> {
    cells: Vec<E>,
    rows: usize,
    cols: usize,
}

/// The place of cell `(r, c)` among the cells of rows of `cols` cells.
pub open spec fn flat_index(r: int, c: int, cols: int) -> int {
    r * cols + c
}

/// Cells of a plane have places in range.
pub proof fn lemma_flat_index_bound(r: int, c: int, rows: int, cols: int)
    requires
        0 <= r < rows,
        0 <= c < cols,
    ensures
        0 <= r * cols,
        0 <= flat_index(r, c, cols) < rows * cols,
{
    lemma_mul_inequality(r + 1, rows, cols);
    lemma_mul_is_distributive_add_other_way(cols, r, 1);
    lemma_mul_inequality(0, r, cols);
}

/// Different cells of a plane have different places.
pub proof fn lemma_flat_index_injective(r1: int, c1: int, r2: int, c2: int, cols: int)
    requires
        0 <= c1 < cols,
        0 <= c2 < cols,
        flat_index(r1, c1, cols) == flat_index(r2, c2, cols),
    ensures
        r1 == r2,
        c1 == c2,
{
    if r1 < r2 {
        lemma_mul_inequality(r1 + 1, r2, cols);
        lemma_mul_is_distributive_add_other_way(cols, r1, 1);
    } else if r2 < r1 {
        lemma_mul_inequality(r2 + 1, r1, cols);
        lemma_mul_is_distributive_add_other_way(cols, r2, 1);
    }
}

/// `i`, moved to the nearer end where it lies outside `0 .. n`.
pub open spec fn clamp_index(i: int, n: int) -> int {
    if i < 0 {
        0
    } else if i >= n {
        n - 1
    } else {
        i
    }
}

/// `i + k - 2`, moved to the nearer end where it lies outside `0 .. n`.
pub fn clamped_neighbour(i: usize, k: usize, n: usize) -> (j: usize)
    requires
        n > 0,
        i + k <= usize::MAX,
    ensures
        j == clamp_index(i + k - 2, n as int),
        j < n,
{
    if i + k < 2 {
        0
    } else if i + k - 2 >= n {
        n - 1
    } else {
        i + k - 2
    }
}

impl<E> Plane<E> {
    /// The cells fill the rows.
    pub closed spec fn wf(&self) -> bool {
        self.cells@.len() == self.rows * self.cols
    }

    /// The number of rows.
    pub closed spec fn height(&self) -> nat {
        self.rows as nat
    }

    /// The number of cells in a row.
    pub closed spec fn width(&self) -> nat {
        self.cols as nat
    }

    /// All cells, row after row.
    pub closed spec fn contents(&self) -> Vec<E> {
        self.cells
    }

    /// Cell `(r, c)`.
    pub open spec fn at(&self, r: int, c: int) -> E {
        self.contents()@[flat_index(r, c, self.width() as int)]
    }

    /// Is `(r, c)` a cell of this plane?
    pub open spec fn has(&self, r: int, c: int) -> bool {
        0 <= r < self.height() && 0 <= c < self.width()
    }

    /// Both planes have the same size.
    pub open spec fn same_size<F>(&self, other: &Plane<F>) -> bool {
        self.height() == other.height() && self.width() == other.width()
    }

    /// What `wf` says, over the public view.
    pub proof fn lemma_wf(&self)
        requires
            self.wf(),
        ensures
            self.contents()@.len() == self.height() * self.width(),
            self.height() * self.width() <= usize::MAX,
            self.height() <= usize::MAX,
            self.width() <= usize::MAX,
    {
        assert(self.cells.len() <= usize::MAX);
    }

    /// The number of rows and of cells in a row.
    pub fn dim(&self) -> (d: (usize, usize))
        ensures
            d.0 == self.height(),
            d.1 == self.width(),
    {
        (self.rows, self.cols)
    }

    /// All cells, row after row.
    pub fn as_vec(&self) -> (v: &Vec<E>)
        ensures
            *v == self.contents(),
    {
        &self.cells
    }

    /// Arranges `cells` in rows, if they fill them exactly.
    pub fn from_shape_vec(rows: usize, cols: usize, cells: Vec<E>) -> (p: Option<Plane<E>>)
        ensures
            p is Some <==> cells@.len() == rows * cols,
            p matches Some(plane) ==> {
                &&& plane.wf()
                &&& plane.height() == rows
                &&& plane.width() == cols
                &&& plane.contents() == cells
            },
    {
        assert(cells.len() <= usize::MAX);
        match rows.checked_mul(cols) {
            Some(n) => {
                if n == cells.len() {
                    Some(Plane { cells, rows, cols })
                } else {
                    None
                }
            },
            None => None,
        }
    }
}

impl<E: Copy> Plane<E> {
    /// A plane of `rows * cols` cells that all hold `value`.
    pub fn filled(rows: usize, cols: usize, value: E) -> (p: Plane<E>)
        requires
            rows * cols <= usize::MAX,
        ensures
            p.wf(),
            p.height() == rows,
            p.width() == cols,
            forall|r: int, c: int| p.has(r, c) ==> #[trigger] p.at(r, c) == value,
    {
        let n: usize = rows * cols;
        let mut cells: Vec<E> = Vec::new();
        let mut i: usize = 0;
        while i < n
            invariant
                i <= n,
                cells@.len() == i,
                forall|k: int| 0 <= k < i ==> cells@[k] == value,
            decreases n - i,
        {
            cells.push(value);
            i = i + 1;
        }
        let p = Plane { cells, rows, cols };
        assert forall|r: int, c: int| p.has(r, c) implies #[trigger] p.at(r, c) == value by {
            lemma_flat_index_bound(r, c, rows as int, cols as int);
        }
        p
    }

    /// Reads cell `(r, c)`.
    pub fn get(&self, r: usize, c: usize) -> (e: E)
        requires
            self.wf(),
            self.has(r as int, c as int),
        ensures
            e == self.at(r as int, c as int),
    {
        proof {
            self.lemma_wf();
            lemma_flat_index_bound(r as int, c as int, self.rows as int, self.cols as int);
        }
        self.cells[r * self.cols + c]
    }

    /// Reads the cell that lies `dr` rows and `dc` columns away from `(r, c)`.
    pub fn get_near(&self, r: usize, c: usize, dr: i32, dc: i32) -> (e: E)
        requires
            self.wf(),
            self.has(r + dr, c + dc),
        ensures
            e == self.at(r + dr, c + dc),
    {
        self.get((r as i128 + dr as i128) as usize, (c as i128 + dc as i128) as usize)
    }

    /// Writes cell `(r, c)`.
    pub fn set(&mut self, r: usize, c: usize, value: E)
        requires
            old(self).wf(),
            old(self).has(r as int, c as int),
        ensures
            final(self).wf(),
            final(self).same_size(old(self)),
            forall|i: int, j: int|
                final(self).has(i, j) ==> #[trigger] final(self).at(i, j) == if i == r && j == c {
                    value
                } else {
                    old(self).at(i, j)
                },
    {
        proof {
            self.lemma_wf();
            lemma_flat_index_bound(r as int, c as int, self.rows as int, self.cols as int);
        }
        let k: usize = r * self.cols + c;
        self.cells.set(k, value);
        proof {
            let w = self.cols as int;
            assert forall|i: int, j: int| self.has(i, j) implies #[trigger] self.at(i, j) == if i == r
                && j == c {
                value
            } else {
                old(self).at(i, j)
            } by {
                lemma_flat_index_bound(i, j, self.rows as int, w);
                if flat_index(i, j, w) == k {
                    lemma_flat_index_injective(i, j, r as int, c as int, w);
                }
            }
        }
    }

    /// A plane with the same cells.
    pub fn duplicate(&self) -> (p: Plane<E>)
        requires
            self.wf(),
        ensures
            p.wf(),
            p.same_size(self),
            p.contents()@ == self.contents()@,
    {
        let mut cells: Vec<E> = Vec::new();
        let n: usize = self.cells.len();
        let mut i: usize = 0;
        while i < n
            invariant
                i <= n,
                n == self.cells@.len(),
                cells@ == self.cells@.take(i as int),
            decreases n - i,
        {
            cells.push(self.cells[i]);
            i = i + 1;
        }
        Plane { cells, rows: self.rows, cols: self.cols }
    }
}

} // verus!
