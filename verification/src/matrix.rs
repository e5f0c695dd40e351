//! Square matrices whose cell `(row, col)` and cell `(col, row)` are the same cell.
//!
//! `SymMatrix` stores only the upper triangle (diagonal included) in a flat vector;
//! `Matrix` stores every row but only ever reads the upper triangle.
use vstd::prelude::*;

verus! {

// ------------------------------------------------------------------------------------------
// Layout of the upper triangle in a flat vector.

/// Index in the flat vector of the first cell of row `r` of an `n x n` upper triangle:
/// row `k` holds the `n - k` cells `(k, k) .. (k, n - 1)`.
pub open spec fn row_start(r: nat, n: nat) -> int
    decreases r,
{
    if r == 0 {
        0
    } else {
        row_start((r - 1) as nat, n) + (n - (r - 1))
    }
}

/// Number of cells of the upper triangle (diagonal included) of an `n x n` matrix.
pub open spec fn triangle_len(n: nat) -> int {
    row_start(n, n)
}

/// Index in the flat vector of the cell `(r, c)`, read in the upper triangle.
pub open spec fn cell_index(r: nat, c: nat, n: nat) -> int {
    if r <= c {
        row_start(r, n) + (c - r)
    } else {
        row_start(c, n) + (r - c)
    }
}

/// The coordinates `(row, col)`, with `row <= col < n`, of the cell stored at index `i`.
pub open spec fn cell_coords(i: int, n: nat) -> (nat, nat) {
    choose|p: (nat, nat)| p.0 <= p.1 < n && cell_index(p.0, p.1, n) == i
}

proof fn lemma_row_start_closed(r: nat, n: nat)
    ensures
        2 * row_start(r, n) == r * (2 * n - r + 1),
    decreases r,
{
    if r > 0 {
        let k: nat = (r - 1) as nat;
        lemma_row_start_closed(k, n);
        let a = row_start(k, n);
        let b = row_start(r, n);
        assert(b == a + (n - k));
        assert(2 * b == r * (2 * n - r + 1)) by (nonlinear_arith)
            requires
                2 * a == k * (2 * n - k + 1),
                b == a + (n - k),
                r == k + 1,
        ;
    } else {
        assert(r * (2 * n - r + 1) == 0) by (nonlinear_arith)
            requires
                r == 0,
        ;
    }
}

proof fn lemma_row_start_nonneg(r: nat, n: nat)
    requires
        r <= n,
    ensures
        row_start(r, n) >= 0,
    decreases r,
{
    if r > 0 {
        lemma_row_start_nonneg((r - 1) as nat, n);
    }
}

proof fn lemma_row_start_mono(a: nat, b: nat, n: nat)
    requires
        a <= b <= n,
    ensures
        row_start(a, n) <= row_start(b, n),
        a < b ==> row_start(a + 1, n) <= row_start(b, n),
        row_start(a, n) >= 0,
    decreases b,
{
    if b > 0 {
        if a < b {
            lemma_row_start_mono(a, (b - 1) as nat, n);
        }
    }
    lemma_row_start_nonneg(a, n);
}

/// The number of cells of the triangle is `n * (n + 1) / 2`.
pub proof fn lemma_triangle_len(n: nat)
    ensures
        2 * triangle_len(n) == n * (n + 1),
        triangle_len(n) >= 0,
        n >= 4 ==> triangle_len(n) >= 2 * n + 1,
{
    lemma_row_start_closed(n, n);
    assert(n * (2 * n - n + 1) == n * (n + 1)) by (nonlinear_arith);
    if n >= 4 {
        assert(n * (n + 1) >= 2 * (2 * n + 1)) by (nonlinear_arith)
            requires
                n >= 4,
        ;
    }
    lemma_row_start_mono(0, n, n);
}

proof fn lemma_cell_bounds(r: nat, c: nat, n: nat)
    requires
        r <= c < n,
    ensures
        row_start(r, n) <= cell_index(r, c, n) < row_start(r + 1, n),
        row_start(r + 1, n) <= triangle_len(n),
        0 <= cell_index(r, c, n) < triangle_len(n),
{
    lemma_row_start_mono(r, n, n);
    lemma_row_start_mono(0, r, n);
}

/// Two distinct cells of the upper triangle are stored at distinct indices.
pub proof fn lemma_cell_index_injective(r1: nat, c1: nat, r2: nat, c2: nat, n: nat)
    requires
        r1 <= c1 < n,
        r2 <= c2 < n,
        cell_index(r1, c1, n) == cell_index(r2, c2, n),
    ensures
        r1 == r2,
        c1 == c2,
{
    lemma_cell_bounds(r1, c1, n);
    lemma_cell_bounds(r2, c2, n);
    if r1 < r2 {
        lemma_row_start_mono(r1, r2, n);
    } else if r2 < r1 {
        lemma_row_start_mono(r2, r1, n);
    }
}

/// Every index of the flat vector is the index of exactly one cell of the upper triangle,
/// and `cell_coords` gives it back.
pub proof fn lemma_cell_coords(r: nat, c: nat, n: nat)
    requires
        r <= c < n,
    ensures
        cell_coords(cell_index(r, c, n), n) == (r, c),
{
    let i = cell_index(r, c, n);
    let w: (nat, nat) = (r, c);
    assert(w.0 <= w.1 < n && cell_index(w.0, w.1, n) == i);
    let p = cell_coords(i, n);
    lemma_cell_index_injective(p.0, p.1, r, c, n);
}

/// `usize` holds every value the index computations of an `n x n` triangle go through.
proof fn lemma_triangle_fits(n: nat)
    requires
        triangle_len(n) <= usize::MAX,
    ensures
        2 * n + 1 <= usize::MAX,
        n <= usize::MAX,
{
    lemma_triangle_len(n);
}

/// Computes `cell_index(row, col, n)`.
fn out_to_in_index(row: usize, col: usize, n: usize) -> (i: usize)
    requires
        row < n,
        col < n,
        triangle_len(n as nat) <= usize::MAX,
    ensures
        i as int == cell_index(row as nat, col as nat, n as nat),
        i < triangle_len(n as nat),
{
    let mut row = row;
    let mut col = col;
    if row > col {
        let tmp = row;
        row = col;
        col = tmp;
    }
    proof {
        lemma_triangle_fits(n as nat);
        lemma_row_start_closed(row as nat, n as nat);
        lemma_cell_bounds(row as nat, col as nat, n as nat);
    }
    // number of cells of the rows before `row`: row * (2n - row + 1) / 2, one factor being even
    let b: usize = n + (n - row) + 1;
    let row_offset: usize = if row % 2 == 0 {
        assert((row / 2) * b == row * b / 2) by (nonlinear_arith)
            requires
                row % 2 == 0,
        ;
        (row / 2) * b
    } else {
        assert(b % 2 == 0);
        assert(row * (b / 2) == row * b / 2) by (nonlinear_arith)
            requires
                b % 2 == 0,
        ;
        row * (b / 2)
    };
    let col_offset = col - row;
    row_offset + col_offset
}

/// Computes the cell `(row, col)`, `row <= col`, stored at index `i`.
/// An index at or after the start of row `r` and inside the triangle is the index of a cell of
/// row `r` or of a later row.
proof fn lemma_cell_from_row(i: int, r: nat, n: nat)
    requires
        r < n,
        row_start(r, n) <= i < triangle_len(n),
    ensures
        exists|p: (nat, nat)| p.0 <= p.1 < n && cell_index(p.0, p.1, n) == i,
    decreases n - r,
{
    lemma_row_start_mono(r + 1, n, n);
    if i < row_start(r + 1, n) {
        let c: nat = (r + (i - row_start(r, n))) as nat;
        let w: (nat, nat) = (r, c);
        assert(w.0 <= w.1 < n && cell_index(w.0, w.1, n) == i);
    } else {
        if r + 1 == n {
            assert(false);
        }
        lemma_cell_from_row(i, r + 1, n);
    }
}

/// The two index maps of the triangle undo each other: the cell `(r, c)`, `r <= c < n`,
/// stored at `cell_index(r, c, n)` is found again there by `cell_coords`, and every index
/// `i` of the flat vector is the index of the cell `cell_coords(i, n)` of the upper triangle.
pub proof fn lemma_index_round_trip(n: nat)
    ensures
        forall|r: nat, c: nat| r <= c < n ==> #[trigger] cell_coords(cell_index(r, c, n), n) == (r, c),
        forall|i: int|
            0 <= i < triangle_len(n) ==> {
                let p = #[trigger] cell_coords(i, n);
                p.0 <= p.1 < n && cell_index(p.0, p.1, n) == i
            },
{
    assert forall|r: nat, c: nat| r <= c < n implies #[trigger] cell_coords(cell_index(r, c, n), n) == (r, c) by {
        lemma_cell_coords(r, c, n);
    }
    assert forall|i: int| 0 <= i < triangle_len(n) implies {
        let p = #[trigger] cell_coords(i, n);
        p.0 <= p.1 < n && cell_index(p.0, p.1, n) == i
    } by {
        if n == 0 {
            assert(triangle_len(0) == 0);
        }
        lemma_cell_from_row(i, 0, n);
    }
}

fn in_to_out_index(i: usize, n: usize) -> (p: (usize, usize))
    requires
        i < triangle_len(n as nat),
        triangle_len(n as nat) <= usize::MAX,
    ensures
        p.0 <= p.1 < n,
        cell_index(p.0 as nat, p.1 as nat, n as nat) == i,
{
    proof {
        lemma_row_start_mono(0, n as nat, n as nat);
        if n == 0 {
            assert(triangle_len(0) == 0);
        }
    }
    let mut row: usize = 0;
    let mut start: usize = 0;
    while i >= start + (n - row)
        invariant
            row < n,
            start == row_start(row as nat, n as nat),
            start <= i,
            i < triangle_len(n as nat),
            triangle_len(n as nat) <= usize::MAX,
            row_start(row as nat + 1, n as nat) <= triangle_len(n as nat),
        decreases n - row,
    {
        proof {
            lemma_row_start_mono(row as nat, n as nat, n as nat);
        }
        start = start + (n - row);
        row = row + 1;
        proof {
            if row >= n {
                assert(row == n);
            }
            lemma_row_start_mono(row as nat, n as nat, n as nat);
        }
    }
    proof {
        lemma_row_start_mono(row as nat, n as nat, n as nat);
    }
    (row, i - start + row)
}

/// Reading the flat vector at `cell_index(c, c', n)` for `c' = c` on the other side of the diagonal
/// gives the same index.
proof fn lemma_cell_index_sym(r: nat, c: nat, n: nat)
    ensures
        cell_index(r, c, n) == cell_index(c, r, n),
{
}

// ------------------------------------------------------------------------------------------
// SymMatrix

/// A symmetric `n x n` matrix that stores only its upper triangle.
#[derive(Clone, Debug)]
pub struct SymMatrix<T: Copy> {
    n: usize,
    data: Vec<T>,
}

impl<T: Copy> View for SymMatrix<T> {
    type V = Seq<Seq<T>>;

    /// The full matrix, row by row.
    closed spec fn view(&self) -> Seq<Seq<T>> {
        Seq::new(
            self.n as nat,
            |r: int| Seq::new(self.n as nat, |c: int| self.data@[cell_index(r as nat, c as nat, self.n as nat)]),
        )
    }
}

/// `m` is an `n x n` matrix: `n` rows of `n` cells each.
pub open spec fn is_square<T>(m: Seq<Seq<T>>, n: nat) -> bool {
    &&& m.len() == n
    &&& forall|r: int| 0 <= r < n ==> #[trigger] m[r].len() == n
}

/// `m` with the cell `(row, col)` and the cell `(col, row)` set to `v`.
pub open spec fn sym_update<T>(m: Seq<Seq<T>>, row: int, col: int, v: T) -> Seq<Seq<T>> {
    Seq::new(
        m.len(),
        |r: int|
            Seq::new(
                m[r].len(),
                |c: int|
                    if (r == row && c == col) || (r == col && c == row) {
                        v
                    } else {
                        m[r][c]
                    },
            ),
    )
}

/// `m` equals its transpose.
pub open spec fn is_symmetric<T>(m: Seq<Seq<T>>) -> bool {
    forall|r: int, c: int| 0 <= r < m.len() && 0 <= c < m.len() ==> #[trigger] m[r][c] == m[c][r]
}

impl<T: Copy> SymMatrix<T> {
    /// The flat vector holds exactly the cells of the upper triangle.
    pub closed spec fn wf(&self) -> bool {
        &&& self.data@.len() == triangle_len(self.n as nat)
        &&& triangle_len(self.n as nat) <= usize::MAX
    }

    /// The flat vector of a well-formed matrix fits in memory.
    pub proof fn lemma_wf_size(&self)
        requires
            self.wf(),
        ensures
            triangle_len(self@.len()) <= usize::MAX,
    {
    }

    /// The view of a symmetric matrix is a square, symmetric matrix.
    pub proof fn lemma_view_square_symmetric(&self)
        ensures
            is_square(self@, self@.len()),
            is_symmetric(self@),
    {
    }

    /// Builds an `n x n` symmetric matrix whose cell `(row, col)` is `f(min, max)` of the two
    /// coordinates; `f` is called once for each cell of the upper triangle, row by row.
    pub fn new_fn<F: Fn(usize, usize) -> T>(n: usize, f: F) -> (m: Self)
        requires
            triangle_len(n as nat) <= usize::MAX,
            forall|r: usize, c: usize| r <= c < n ==> #[trigger] f.requires((r, c)),
        ensures
            m.wf(),
            m@.len() == n,
            is_square(m@, n as nat),
            forall|r: int, c: int|
                0 <= r <= c < n ==> #[trigger] f.ensures((r as usize, c as usize), m@[r][c]),
    {
        proof {
            lemma_triangle_len(n as nat);
        }
        let size_vec = Self::triangle_size(n);
        let mut data: Vec<T> = Vec::new();
        let ghost mut coords: Seq<(usize, usize)> = Seq::empty();
        let mut i: usize = 0;
        while i < size_vec
            invariant
                size_vec == triangle_len(n as nat),
                triangle_len(n as nat) <= usize::MAX,
                i <= size_vec,
                data@.len() == i,
                coords.len() == i,
                forall|r: usize, c: usize| r <= c < n ==> #[trigger] f.requires((r, c)),
                forall|j: int|
                    0 <= j < i ==> {
                        &&& coords[j].0 <= coords[j].1 < n
                        &&& cell_index(coords[j].0 as nat, coords[j].1 as nat, n as nat) == j
                        &&& f.ensures(#[trigger] coords[j], data@[j])
                    },
            decreases size_vec - i,
        {
            let (row, col) = Self::in_to_out_index(i, n);
            let v = f(row, col);
            data.push(v);
            proof {
                coords = coords.push((row, col));
            }
            i = i + 1;
        }
        let m = SymMatrix { n, data };
        assert forall|r: int, c: int| 0 <= r <= c < n implies #[trigger] f.ensures(
            (r as usize, c as usize),
            m@[r][c],
        ) by {
            lemma_cell_bounds(r as nat, c as nat, n as nat);
            let j = cell_index(r as nat, c as nat, n as nat);
            assert(f.ensures(coords[j], data@[j]));
            lemma_cell_index_injective(coords[j].0 as nat, coords[j].1 as nat, r as nat, c as nat, n as nat);
        }
        m
    }

    /// `n * (n + 1) / 2`, the length of the flat vector of an `n x n` matrix.
    fn triangle_size(n: usize) -> (s: usize)
        requires
            triangle_len(n as nat) <= usize::MAX,
        ensures
            s == triangle_len(n as nat),
    {
        proof {
            lemma_triangle_len(n as nat);
            lemma_triangle_fits(n as nat);
        }
        if n % 2 == 0 {
            assert((n / 2) * (n + 1) == n * (n + 1) / 2) by (nonlinear_arith)
                requires
                    n % 2 == 0,
            ;
            (n / 2) * (n + 1)
        } else {
            assert(n * ((n + 1) / 2) == n * (n + 1) / 2) by (nonlinear_arith)
                requires
                    n % 2 == 1,
            ;
            n * ((n + 1) / 2)
        }
    }

    /// The number of rows (and of columns).
    pub fn size(&self) -> (s: usize)
        ensures
            s == self@.len(),
    {
        self.n
    }

    /// A copy of the matrix, cell for cell.
    pub fn duplicate(&self) -> (m: Self)
        requires
            self.wf(),
        ensures
            m.wf(),
            m@ == self@,
    {
        let mut data: Vec<T> = Vec::new();
        let mut i: usize = 0;
        while i < self.data.len()
            invariant
                i <= self.data@.len(),
                data@ == self.data@.subrange(0, i as int),
            decreases self.data@.len() - i,
        {
            data.push(self.data[i]);
            i = i + 1;
        }
        proof {
            assert(data@ =~= self.data@);
        }
        SymMatrix { n: self.n, data }
    }

    /// Index in the flat vector of the cell `(row, col)`.
    fn out_to_in_index(row: usize, col: usize, n: usize) -> (i: usize)
        requires
            row < n,
            col < n,
            triangle_len(n as nat) <= usize::MAX,
        ensures
            i as int == cell_index(row as nat, col as nat, n as nat),
            i < triangle_len(n as nat),
    {
        out_to_in_index(row, col, n)
    }

    /// Cell `(row, col)`, `row <= col`, stored at index `i` of the flat vector.
    fn in_to_out_index(i: usize, n: usize) -> (p: (usize, usize))
        requires
            i < triangle_len(n as nat),
            triangle_len(n as nat) <= usize::MAX,
        ensures
            p.0 <= p.1 < n,
            cell_index(p.0 as nat, p.1 as nat, n as nat) == i,
    {
        in_to_out_index(i, n)
    }

    /// The value of the cell `(row, col)`.
    pub fn get(&self, row: usize, col: usize) -> (v: T)
        requires
            self.wf(),
            row < self@.len(),
            col < self@.len(),
        ensures
            v == self@[row as int][col as int],
    {
        let i = Self::out_to_in_index(row, col, self.n);
        self.data[i]
    }

    /// Sets the cell `(row, col)`, which is also the cell `(col, row)`, to `v`.
    pub fn set(&mut self, row: usize, col: usize, v: T)
        requires
            old(self).wf(),
            row < old(self)@.len(),
            col < old(self)@.len(),
        ensures
            final(self).wf(),
            final(self)@ == sym_update(old(self)@, row as int, col as int, v),
            final(self)@.len() == old(self)@.len(),
            forall|r: int, c: int|
                0 <= r < old(self)@.len() && 0 <= c < old(self)@.len() ==> #[trigger] final(self)@[r][c]
                    == if (r == row && c == col) || (r == col && c == row) {
                    v
                } else {
                    old(self)@[r][c]
                },
    {
        let i = Self::out_to_in_index(row, col, self.n);
        let ghost old_self = *self;
        self.data.set(i, v);
        proof {
            let n = self.n as nat;
            assert forall|r: int, c: int| 0 <= r < n && 0 <= c < n implies #[trigger] self@[r][c]
                == if (r == row && c == col) || (r == col && c == row) {
                v
            } else {
                old_self@[r][c]
            } by {
                let (a, b) = if r <= c { (r as nat, c as nat) } else { (c as nat, r as nat) };
                let (x, y) = if row <= col { (row as nat, col as nat) } else { (col as nat, row as nat) };
                lemma_cell_bounds(a, b, n);
                if cell_index(r as nat, c as nat, n) == i {
                    lemma_cell_index_injective(a, b, x, y, n);
                }
            }
            assert(self@ =~~= sym_update(old_self@, row as int, col as int, v));
        }
    }

    /// A matrix of `by` more rows and columns: the cells of this matrix keep their value,
    /// each new cell `(row, col)`, `row <= col`, gets `f(row, col)`.
    pub fn grow_fn<F: Fn(usize, usize) -> T>(&self, by: usize, f: F) -> (m: Self)
        requires
            self.wf(),
            self@.len() + by <= usize::MAX,
            triangle_len((self@.len() + by) as nat) <= usize::MAX,
            forall|r: usize, c: usize|
                r <= c < self@.len() + by && c >= self@.len() ==> #[trigger] f.requires((r, c)),
        ensures
            m.wf(),
            m@.len() == self@.len() + by,
            is_square(m@, m@.len()),
            forall|r: int, c: int|
                0 <= r < self@.len() && 0 <= c < self@.len() ==> #[trigger] m@[r][c] == self@[r][c],
            forall|r: int, c: int|
                0 <= r <= c < m@.len() && c >= self@.len() ==> #[trigger] f.ensures(
                    (r as usize, c as usize),
                    m@[r][c],
                ),
    {
        let n = self.n;
        let fref = &f;
        let g = |row: usize, col: usize| -> (v: T)
            requires
                row <= col < n + by,
                col >= n ==> fref.requires((row, col)),
            ensures
                col >= n ==> fref.ensures((row, col), v),
                col < n ==> v == self@[row as int][col as int],
            {
                if row >= n || col >= n {
                    fref(row, col)
                } else {
                    self.get(row, col)
                }
            };
        let m = Self::new_fn(n + by, g);
        proof {
            m.lemma_view_square_symmetric();
            self.lemma_view_square_symmetric();
            assert forall|r: int, c: int|
                0 <= r < n && 0 <= c < n implies #[trigger] m@[r][c] == self@[r][c] by {
                if r <= c {
                    assert(g.ensures((r as usize, c as usize), m@[r][c]));
                } else {
                    assert(g.ensures((c as usize, r as usize), m@[c][r]));
                }
            }
            assert forall|r: int, c: int|
                0 <= r <= c < m@.len() && c >= n implies #[trigger] f.ensures(
                (r as usize, c as usize),
                m@[r][c],
            ) by {
                assert(g.ensures((r as usize, c as usize), m@[r][c]));
            }
        }
        m
    }

    /// The matrix without row and column `id`: the cell `(row, col)` of the result is the cell
    /// of this matrix whose coordinates are `row` and `col`, each shifted by one when it is
    /// `id` or more.
    pub fn remove_id(&self, id: usize) -> (m: Self)
        requires
            self.wf(),
            self@.len() > 0,
        ensures
            m.wf(),
            m@.len() == self@.len() - 1,
            is_square(m@, m@.len()),
            forall|r: int, c: int|
                0 <= r < m@.len() && 0 <= c < m@.len() ==> #[trigger] m@[r][c] == self@[skip_index(
                    r,
                    id as int,
                )][skip_index(c, id as int)],
    {
        proof {
            lemma_triangle_len(self.n as nat);
            lemma_triangle_len((self.n - 1) as nat);
            assert((self.n - 1) * self.n <= self.n * (self.n + 1)) by (nonlinear_arith)
                requires
                    self.n >= 1,
            ;
        }
        let n = self.n;
        let g = |row: usize, col: usize| -> (v: T)
            requires
                row <= col < n - 1,
            ensures
                v == self@[skip_index(row as int, id as int)][skip_index(col as int, id as int)],
            {
                let row = if row >= id {
                    row + 1
                } else {
                    row
                };
                let col = if col >= id {
                    col + 1
                } else {
                    col
                };
                self.get(row, col)
            };
        let m = Self::new_fn(n - 1, g);
        proof {
            m.lemma_view_square_symmetric();
            assert forall|r: int, c: int| 0 <= r < m@.len() && 0 <= c < m@.len() implies #[trigger] m@[r][c]
                == self@[skip_index(r, id as int)][skip_index(c, id as int)] by {
                if r <= c {
                    assert(g.ensures((r as usize, c as usize), m@[r][c]));
                } else {
                    assert(g.ensures((c as usize, r as usize), m@[c][r]));
                }
            }
        }
        m
    }
}

/// The coordinate, in a matrix that still has row `id`, of coordinate `k` of the matrix
/// from which row `id` was removed.
pub open spec fn skip_index(k: int, id: int) -> int {
    if k >= id {
        k + 1
    } else {
        k
    }
}

/// Growing a matrix by one row and column, then removing that last row and column, gives the
/// matrix back: `g` keeps the cells of `m` (as `grow_fn` ensures), and `r` is `g` without its
/// last index (as `remove_id` ensures for `id == m.len()`).
pub proof fn lemma_grow_then_remove_last<T>(m: Seq<Seq<T>>, g: Seq<Seq<T>>, r: Seq<Seq<T>>)
    requires
        is_square(m, m.len()),
        g.len() == m.len() + 1,
        forall|a: int, b: int| 0 <= a < m.len() && 0 <= b < m.len() ==> #[trigger] g[a][b] == m[a][b],
        is_square(r, m.len()),
        forall|a: int, b: int|
            0 <= a < r.len() && 0 <= b < r.len() ==> #[trigger] r[a][b] == g[skip_index(a, m.len() as int)][skip_index(
                b,
                m.len() as int,
            )],
    ensures
        r == m,
{
    assert forall|a: int| 0 <= a < m.len() implies #[trigger] r[a] == m[a] by {
        assert forall|b: int| 0 <= b < m.len() implies #[trigger] r[a][b] == m[a][b] by {
            assert(r[a][b] == g[a][b]);
        }
        assert(r[a] =~= m[a]);
    }
    assert(r =~= m);
}

// ------------------------------------------------------------------------------------------
// Matrix

/// An `n x n` matrix stored row by row, of which only the upper triangle is ever read:
/// the cell `(row, col)` is the cell `(min, max)` of the two coordinates.
#[derive(Clone)]
pub struct Matrix<T: Copy> {
    n: usize,
    data: Vec<Vec<T>>,
}

impl<T: Copy> View for Matrix<T> {
    type V = Seq<Seq<T>>;

    /// The matrix as it is read, row by row.
    closed spec fn view(&self) -> Seq<Seq<T>> {
        Seq::new(
            self.n as nat,
            |r: int|
                Seq::new(
                    self.n as nat,
                    |c: int|
                        if r <= c {
                            self.data@[r]@[c]
                        } else {
                            self.data@[c]@[r]
                        },
                ),
        )
    }
}

impl<T: Copy> Matrix<T> {
    /// Every row holds `n` cells.
    pub closed spec fn wf(&self) -> bool {
        &&& self.data@.len() == self.n
        &&& forall|r: int| 0 <= r < self.n ==> #[trigger] self.data@[r]@.len() == self.n
    }

    /// The view of a matrix is a square, symmetric matrix.
    pub proof fn lemma_view_square_symmetric(&self)
        ensures
            is_square(self@, self@.len()),
            is_symmetric(self@),
    {
    }

    /// Builds an `n x n` matrix: `f(row, col)` is called for every cell, row by row, and the
    /// cell `(row, col)` reads the value computed for `(min, max)` of the two coordinates.
    pub fn new_fn<F: Fn(usize, usize) -> T>(n: usize, f: F) -> (m: Self)
        requires
            forall|r: usize, c: usize| r < n && c < n ==> #[trigger] f.requires((r, c)),
        ensures
            m.wf(),
            m@.len() == n,
            is_square(m@, n as nat),
            forall|r: int, c: int|
                0 <= r <= c < n ==> #[trigger] f.ensures((r as usize, c as usize), m@[r][c]),
    {
        let mut data: Vec<Vec<T>> = Vec::new();
        let mut row: usize = 0;
        while row < n
            invariant
                row <= n,
                data@.len() == row,
                forall|r: usize, c: usize| r < n && c < n ==> #[trigger] f.requires((r, c)),
                forall|r: int| 0 <= r < row ==> #[trigger] data@[r]@.len() == n,
                forall|r: int, c: int|
                    0 <= r < row && 0 <= c < n ==> #[trigger] f.ensures(
                        (r as usize, c as usize),
                        data@[r]@[c],
                    ),
            decreases n - row,
        {
            let mut line: Vec<T> = Vec::new();
            let mut col: usize = 0;
            while col < n
                invariant
                    row < n,
                    col <= n,
                    line@.len() == col,
                    forall|r: usize, c: usize| r < n && c < n ==> #[trigger] f.requires((r, c)),
                    forall|c: int| 0 <= c < col ==> #[trigger] f.ensures((row, c as usize), line@[c]),
                decreases n - col,
            {
                let v = f(row, col);
                line.push(v);
                col = col + 1;
            }
            data.push(line);
            row = row + 1;
        }
        Matrix { n, data }
    }

    /// The number of rows (and of columns).
    pub fn size(&self) -> (s: usize)
        ensures
            s == self@.len(),
    {
        self.n
    }

    /// The value of the cell `(row, col)`.
    pub fn get(&self, row: usize, col: usize) -> (v: T)
        requires
            self.wf(),
            row < self@.len(),
            col < self@.len(),
        ensures
            v == self@[row as int][col as int],
    {
        if row > col {
            self.data[col][row]
        } else {
            self.data[row][col]
        }
    }

    /// Sets the cell `(row, col)`, which is also the cell `(col, row)`, to `v`.
    pub fn set(&mut self, row: usize, col: usize, v: T)
        requires
            old(self).wf(),
            row < old(self)@.len(),
            col < old(self)@.len(),
        ensures
            final(self).wf(),
            final(self)@ == sym_update(old(self)@, row as int, col as int, v),
            final(self)@.len() == old(self)@.len(),
            forall|r: int, c: int|
                0 <= r < old(self)@.len() && 0 <= c < old(self)@.len() ==> #[trigger] final(self)@[r][c]
                    == if (r == row && c == col) || (r == col && c == row) {
                    v
                } else {
                    old(self)@[r][c]
                },
    {
        let (a, b) = if row > col {
            (col, row)
        } else {
            (row, col)
        };
        let n = self.n;
        let mut line: Vec<T> = Vec::new();
        let mut j: usize = 0;
        while j < n
            invariant
                j <= n,
                a < n,
                b < n,
                n == self.n,
                self.data@.len() == n,
                forall|r: int| 0 <= r < n ==> #[trigger] self.data@[r]@.len() == n,
                line@.len() == j,
                forall|k: int|
                    0 <= k < j ==> #[trigger] line@[k] == if k == b {
                        v
                    } else {
                        self.data@[a as int]@[k]
                    },
            decreases n - j,
        {
            if j == b {
                line.push(v);
            } else {
                line.push(self.data[a][j]);
            }
            j = j + 1;
        }
        let ghost old_self = *self;
        self.data.set(a, line);
        proof {
            assert(self@ =~~= sym_update(old_self@, row as int, col as int, v));
        }
    }

    /// A matrix of `by` more rows and columns: the cells of this matrix keep their value,
    /// each new cell `(row, col)`, `row <= col`, gets `f(row, col)`.
    pub fn grow_fn<F: Fn(usize, usize) -> T>(&self, by: usize, f: F) -> (m: Self)
        requires
            self.wf(),
            self@.len() + by <= usize::MAX,
            forall|r: usize, c: usize|
                r < self@.len() + by && c < self@.len() + by && (r >= self@.len() || c
                    >= self@.len()) ==> #[trigger] f.requires((r, c)),
        ensures
            m.wf(),
            m@.len() == self@.len() + by,
            is_square(m@, m@.len()),
            forall|r: int, c: int|
                0 <= r < self@.len() && 0 <= c < self@.len() ==> #[trigger] m@[r][c] == self@[r][c],
            forall|r: int, c: int|
                0 <= r <= c < m@.len() && c >= self@.len() ==> #[trigger] f.ensures(
                    (r as usize, c as usize),
                    m@[r][c],
                ),
    {
        let n = self.n;
        let fref = &f;
        let g = |row: usize, col: usize| -> (v: T)
            requires
                row < n + by,
                col < n + by,
                row >= n || col >= n ==> fref.requires((row, col)),
            ensures
                row >= n || col >= n ==> fref.ensures((row, col), v),
                row < n && col < n ==> v == self@[row as int][col as int],
            {
                if row >= n || col >= n {
                    fref(row, col)
                } else {
                    self.get(row, col)
                }
            };
        let m = Self::new_fn(n + by, g);
        proof {
            assert forall|r: int, c: int|
                0 <= r < n && 0 <= c < n implies #[trigger] m@[r][c] == self@[r][c] by {
                if r <= c {
                    assert(g.ensures((r as usize, c as usize), m@[r][c]));
                } else {
                    assert(g.ensures((c as usize, r as usize), m@[c][r]));
                }
            }
            assert forall|r: int, c: int|
                0 <= r <= c < m@.len() && c >= n implies #[trigger] f.ensures(
                (r as usize, c as usize),
                m@[r][c],
            ) by {
                assert(g.ensures((r as usize, c as usize), m@[r][c]));
            }
        }
        m
    }
}

} // verus!
