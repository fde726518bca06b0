//! The mine layout of a square board and the count of mined neighbours of
//! every cell. Cells are addressed by (row, column) and stored row-major.
use vstd::arithmetic::div_mod::lemma_fundamental_div_mod_converse;
use vstd::prelude::*;

use crate::random::draw_below;

verus! {

/// Row-major position of the cell (r, c) on a board of side `n`.
pub open spec fn idx(n: int, r: int, c: int) -> int {
    r * n + c
}

pub open spec fn in_bounds(n: int, r: int, c: int) -> bool {
    0 <= r < n && 0 <= c < n
}

/// 1 when (r, c) lies on the board and holds a mine, 0 otherwise.
pub open spec fn mine_at(n: int, mines: Seq<bool>, r: int, c: int) -> int {
    if in_bounds(n, r, c) && mines[idx(n, r, c)] {
        1
    } else {
        0
    }
}

/// The number of mined cells among the (up to) eight cells around (r, c).
pub open spec fn mines_around(n: int, mines: Seq<bool>, r: int, c: int) -> int {
    mine_at(n, mines, r - 1, c - 1) + mine_at(n, mines, r - 1, c) + mine_at(n, mines, r - 1, c + 1)
        + mine_at(n, mines, r, c - 1) + mine_at(n, mines, r, c + 1) + mine_at(n, mines, r + 1, c - 1)
        + mine_at(n, mines, r + 1, c) + mine_at(n, mines, r + 1, c + 1)
}

/// The number of `true` entries of `s`.
pub open spec fn count_mines(s: Seq<bool>) -> nat
    decreases s.len(),
{
    if s.len() == 0 {
        0
    } else {
        count_mines(s.drop_last()) + if s.last() {
            1nat
        } else {
            0nat
        }
    }
}

pub proof fn lemma_count_mines_bound(s: Seq<bool>)
    ensures
        count_mines(s) <= s.len(),
    decreases s.len(),
{
    if s.len() > 0 {
        lemma_count_mines_bound(s.drop_last());
    }
}

/// Marking one unmined cell adds exactly one mine.
pub proof fn lemma_count_mines_mark(s: Seq<bool>, j: int)
    requires
        0 <= j < s.len(),
        !s[j],
    ensures
        count_mines(s.update(j, true)) == count_mines(s) + 1,
    decreases s.len(),
{
    let t = s.update(j, true);
    if j == s.len() - 1 {
        assert(t.drop_last() =~= s.drop_last());
    } else {
        assert(t.drop_last() =~= s.drop_last().update(j, true));
        lemma_count_mines_mark(s.drop_last(), j);
    }
}

/// The position of a cell lies inside the board and gives back its row and
/// column.
pub proof fn lemma_idx(n: int, r: int, c: int)
    requires
        in_bounds(n, r, c),
    ensures
        0 <= idx(n, r, c) < n * n,
        idx(n, r, c) / n == r,
        idx(n, r, c) % n == c,
{
    assert(0 <= r * n + c < n * n) by (nonlinear_arith)
        requires
            0 <= r < n,
            0 <= c < n,
    ;
    lemma_fundamental_div_mod_converse(r * n + c, n, r, c);
}

/// Two cells of the board never share a position.
pub proof fn lemma_idx_injective(n: int, r1: int, c1: int, r2: int, c2: int)
    requires
        in_bounds(n, r1, c1),
        in_bounds(n, r2, c2),
        idx(n, r1, c1) == idx(n, r2, c2),
    ensures
        r1 == r2,
        c1 == c2,
{
    lemma_idx(n, r1, c1);
    lemma_idx(n, r2, c2);
}

/// Every position below `n * n` is the position of a cell.
pub proof fn lemma_coords(n: int, i: int)
    requires
        n > 0,
        0 <= i < n * n,
    ensures
        in_bounds(n, i / n, i % n),
        idx(n, i / n, i % n) == i,
{
    vstd::arithmetic::div_mod::lemma_fundamental_div_mod(i, n);
    let q = i / n;
    let m = i % n;
    assert(0 <= m < n) by {
        vstd::arithmetic::div_mod::lemma_mod_pos_bound(i, n);
    }
    assert(0 <= q < n) by (nonlinear_arith)
        requires
            i == n * q + m,
            0 <= m < n,
            0 <= i < n * n,
    ;
    assert(i == q * n + m) by (nonlinear_arith)
        requires
            i == n * q + m,
    ;
}

pub enum GenerateError {
    /// The side is zero, or the mines would leave no cell free.
    InvalidConfiguration,
}

/// The layout of a game: which cells hold a mine and how many mines touch each
/// cell. Never changes once built.
pub struct Board {
    size: usize,
    mines: Vec<bool>,
    counts: Vec<u8>,
}

impl Board {
    /// The side of the board.
    pub closed spec fn side(&self) -> int {
        self.size as int
    }

    /// Whether each cell holds a mine, row-major.
    pub closed spec fn mine_layout(&self) -> Seq<bool> {
        self.mines@
    }

    /// The mined-neighbour count of each cell, row-major.
    pub closed spec fn counts(&self) -> Seq<u8> {
        self.counts@
    }

    pub open spec fn wf(&self) -> bool {
        &&& self.side() > 0
        &&& self.side() * self.side() <= usize::MAX
        &&& self.mine_layout().len() == self.side() * self.side()
        &&& self.counts().len() == self.side() * self.side()
        &&& forall|r: int, c: int|
            in_bounds(self.side(), r, c) ==> #[trigger] self.counts()[idx(self.side(), r, c)]
                == mines_around(self.side(), self.mine_layout(), r, c)
    }

    /// Whether the cell (r, c) holds a mine; false off the board.
    pub open spec fn mine(&self, r: int, c: int) -> bool {
        in_bounds(self.side(), r, c) && self.mine_layout()[idx(self.side(), r, c)]
    }

    /// Builds the board that has mines exactly where `mines` (row-major) is
    /// true, and counts the mined neighbours of every cell.
    pub fn from_mines(size: usize, mines: Vec<bool>) -> (b: Board)
        requires
            size > 0,
            size * size <= usize::MAX,
            mines@.len() == size * size,
        ensures
            b.wf(),
            b.side() == size,
            b.mine_layout() == mines@,
    {
        let total = size * size;
        let mut counts: Vec<u8> = Vec::new();
        let mut i: usize = 0;
        while i < total
            invariant
                size > 0,
                total == size * size,
                mines@.len() == total,
                i <= total,
                counts@.len() == i,
                forall|j: int|
                    0 <= j < i ==> #[trigger] counts@[j] == mines_around(
                        size as int,
                        mines@,
                        j / size as int,
                        j % size as int,
                    ),
            decreases total - i,
        {
            proof {
                lemma_coords(size as int, i as int);
            }
            let k = count_around(size, &mines, i / size, i % size);
            counts.push(k);
            i += 1;
        }
        let b = Board { size, mines, counts };
        assert forall|r: int, c: int| in_bounds(size as int, r, c) implies #[trigger] b.counts()[idx(
            size as int,
            r,
            c,
        )] == mines_around(size as int, b.mine_layout(), r, c) by {
            lemma_idx(size as int, r, c);
        }
        b
    }

    pub fn size(&self) -> (r: usize)
        ensures
            r == self.side(),
    {
        self.size
    }

    /// Whether (r, c) lies on the board and holds a mine.
    pub fn has_mine(&self, r: usize, c: usize) -> (m: bool)
        requires
            self.wf(),
        ensures
            m == self.mine(r as int, c as int),
    {
        if r < self.size && c < self.size {
            let i = cell_index(self.size, r, c);
            self.mines[i]
        } else {
            false
        }
    }

    /// The number of mined neighbours of (r, c); 0 off the board.
    pub fn adjacent_mine_count(&self, r: usize, c: usize) -> (k: u8)
        requires
            self.wf(),
        ensures
            in_bounds(self.side(), r as int, c as int) ==> k == mines_around(
                self.side(),
                self.mine_layout(),
                r as int,
                c as int,
            ),
            !in_bounds(self.side(), r as int, c as int) ==> k == 0,
    {
        if r < self.size && c < self.size {
            let i = cell_index(self.size, r, c);
            self.counts[i]
        } else {
            0
        }
    }

    /// The number of mines on the board.
    pub fn mine_count(&self) -> (k: usize)
        requires
            self.wf(),
        ensures
            k == count_mines(self.mine_layout()),
    {
        let mut k: usize = 0;
        let mut i: usize = 0;
        while i < self.mines.len()
            invariant
                i <= self.mines@.len(),
                k == count_mines(self.mines@.take(i as int)),
            decreases self.mines@.len() - i,
        {
            proof {
                assert(self.mines@.take(i + 1).drop_last() =~= self.mines@.take(i as int));
                lemma_count_mines_bound(self.mines@.take(i as int));
            }
            if self.mines[i] {
                k += 1;
            }
            i += 1;
        }
        assert(self.mines@.take(i as int) =~= self.mines@);
        k
    }
}

/// Row-major position of (r, c), computed without overflow.
pub(crate) fn cell_index(n: usize, r: usize, c: usize) -> (i: usize)
    requires
        r < n,
        c < n,
        n * n <= usize::MAX,
    ensures
        i == idx(n as int, r as int, c as int),
        i < n * n,
{
    proof {
        lemma_idx(n as int, r as int, c as int);
    }
    r * n + c
}

/// 1 when the cell at position (r, c) holds a mine, 0 otherwise.
fn mine_term(n: usize, mines: &Vec<bool>, r: usize, c: usize) -> (t: u8)
    requires
        r < n,
        c < n,
        n * n <= usize::MAX,
        mines@.len() == n * n,
    ensures
        t == mine_at(n as int, mines@, r as int, c as int),
{
    let i = cell_index(n, r, c);
    if mines[i] {
        1
    } else {
        0
    }
}

/// The number of mined cells around (r, c).
fn count_around(n: usize, mines: &Vec<bool>, r: usize, c: usize) -> (k: u8)
    requires
        r < n,
        c < n,
        n * n <= usize::MAX,
        mines@.len() == n * n,
    ensures
        k == mines_around(n as int, mines@, r as int, c as int),
{
    let up = r > 0;
    let down = r + 1 < n;
    let left = c > 0;
    let right = c + 1 < n;
    let mut k: u8 = 0;
    if up && left {
        k = k + mine_term(n, mines, r - 1, c - 1);
    }
    if up {
        k = k + mine_term(n, mines, r - 1, c);
    }
    if up && right {
        k = k + mine_term(n, mines, r - 1, c + 1);
    }
    if left {
        k = k + mine_term(n, mines, r, c - 1);
    }
    if right {
        k = k + mine_term(n, mines, r, c + 1);
    }
    if down && left {
        k = k + mine_term(n, mines, r + 1, c - 1);
    }
    if down {
        k = k + mine_term(n, mines, r + 1, c);
    }
    if down && right {
        k = k + mine_term(n, mines, r + 1, c + 1);
    }
    k
}

/// Marks the `k`-th unmined cell (counting from 0, row-major) as mined.
pub fn place_mine(mines: &mut Vec<bool>, k: usize)
    requires
        k + count_mines(old(mines)@) < old(mines)@.len(),
    ensures
        exists|j: int|
            0 <= j < old(mines)@.len() && !old(mines)@[j] && j - count_mines(
                old(mines)@.take(j),
            ) == k && final(mines)@ == old(mines)@.update(j, true),
        count_mines(final(mines)@) == count_mines(old(mines)@) + 1,
{
    let ghost s = mines@;
    let len = mines.len();
    let mut j: usize = 0;
    let mut seen: usize = 0;
    while j < len
        invariant
            mines@ == s,
            s == old(mines)@,
            len == s.len(),
            j <= len,
            seen <= k,
            seen + count_mines(s.take(j as int)) == j,
            k + count_mines(s) < s.len(),
        decreases len - j,
    {
        proof {
            assert(s.take(j + 1).drop_last() =~= s.take(j as int));
        }
        if !mines[j] {
            if seen == k {
                mines.set(j, true);
                proof {
                    lemma_count_mines_mark(s, j as int);
                    assert(mines@ == s.update(j as int, true));
                    assert(0 <= j < s.len() && !s[j as int] && j - count_mines(s.take(j as int))
                        == k && mines@ == s.update(j as int, true));
                }
                return;
            }
            seen += 1;
        }
        j += 1;
    }
    assert(s.take(j as int) =~= s);
    assert(false);
}

/// Places `mine_count` mines on distinct cells drawn from `rng`, without
/// replacement, and counts the neighbours of every cell.
pub fn generate(size: usize, mine_count: usize, rng: &mut rand::rngs::StdRng) -> (res: Result<
    Board,
    GenerateError,
>)
    requires
        size * size <= usize::MAX,
    ensures
        res is Err <==> (size == 0 || mine_count >= size * size),
        res matches Ok(b) ==> {
            &&& b.wf()
            &&& b.side() == size
            &&& count_mines(b.mine_layout()) == mine_count
            &&& b.mine_layout().len() - count_mines(b.mine_layout()) == size * size - mine_count
        },
{
    if size == 0 || mine_count >= size * size {
        return Err(GenerateError::InvalidConfiguration);
    }
    let total = size * size;
    let mut mines: Vec<bool> = Vec::new();
    while mines.len() < total
        invariant
            mines@.len() <= total,
            forall|j: int| 0 <= j < mines@.len() ==> !#[trigger] mines@[j],
        decreases total - mines@.len(),
    {
        mines.push(false);
    }
    proof {
        lemma_no_mines(mines@);
    }
    let mut placed: usize = 0;
    while placed < mine_count
        invariant
            mines@.len() == total,
            placed <= mine_count,
            mine_count < total,
            count_mines(mines@) == placed,
        decreases mine_count - placed,
    {
        let k = draw_below(rng, total - placed);
        place_mine(&mut mines, k);
        placed += 1;
    }
    Ok(Board::from_mines(size, mines))
}

proof fn lemma_no_mines(s: Seq<bool>)
    requires
        forall|j: int| 0 <= j < s.len() ==> !#[trigger] s[j],
    ensures
        count_mines(s) == 0,
    decreases s.len(),
{
    if s.len() > 0 {
        lemma_no_mines(s.drop_last());
    }
}

} // verus!
