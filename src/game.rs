//! The reveal engine: per-cell visibility over a fixed board, the game phase,
//! and the player's two actions.
use vstd::prelude::*;

use crate::board::{
    cell_index, idx, in_bounds, lemma_coords, lemma_idx, lemma_idx_injective, mines_around, Board,
};

verus! {

#[derive(Clone, Copy, Debug, PartialEq, Eq, Structural)]
pub enum Visibility {
    Concealed,
    Revealed,
    Flagged,
}

#[derive(Clone, Copy, Debug, PartialEq, Eq, Structural)]
pub enum Phase {
    InProgress,
    Won,
    Lost,
}

/// One cell whose state a renderer has to redraw.
#[derive(Clone, Copy, Debug, PartialEq, Eq, Structural)]
pub struct CellChange {
    pub row: usize,
    pub col: usize,
    pub visibility: Visibility,
    pub has_mine: bool,
    pub adjacent_mines: u8,
}

#[derive(Clone, Copy, Debug, PartialEq, Eq, Structural)]
pub enum PlayerAction {
    Reveal { row: usize, col: usize },
    ToggleFlag { row: usize, col: usize },
}

/// The eight cells around (r, c).
pub open spec fn neighbor(r: int, c: int, rr: int, cc: int) -> bool {
    &&& !(rr == r && cc == c)
    &&& r - 1 <= rr <= r + 1
    &&& c - 1 <= cc <= c + 1
}

/// `ch` reports the cell (r, c), with visibility `v`, as it lies on `b`.
pub open spec fn describes(ch: CellChange, b: Board, r: int, c: int, v: Visibility) -> bool {
    &&& ch.row == r
    &&& ch.col == c
    &&& ch.visibility == v
    &&& ch.has_mine == b.mine(r, c)
    &&& ch.adjacent_mines == mines_around(b.side(), b.mine_layout(), r, c)
}

/// Some entry of `ch` is about the cell (r, c).
pub open spec fn listed(ch: Seq<CellChange>, r: int, c: int) -> bool {
    exists|i: int| 0 <= i < ch.len() && #[trigger] ch[i].row == r && ch[i].col == c
}

/// No two entries of `ch` are about the same cell.
pub open spec fn cells_distinct(ch: Seq<CellChange>) -> bool {
    forall|i: int, j: int|
        0 <= i < ch.len() && 0 <= j < ch.len() && i != j ==> !(#[trigger] ch[i].row == #[trigger] ch[j].row
            && ch[i].col == ch[j].col)
}

/// Every cell without a mine is revealed; flags play no part.
pub open spec fn all_safe_revealed(b: Board, v: Seq<Visibility>) -> bool {
    forall|r: int, c: int|
        in_bounds(b.side(), r, c) && !b.mine(r, c) ==> #[trigger] v[idx(b.side(), r, c)]
            == Visibility::Revealed
}

/// (r, c) is reached from (r0, c0) in at most `k` cascade steps. A step goes
/// from a reached cell with no mined neighbour to one of its eight neighbours
/// that was concealed (`ov`) and holds no mine.
pub open spec fn reach(
    b: Board,
    ov: Seq<Visibility>,
    r0: int,
    c0: int,
    k: nat,
    r: int,
    c: int,
) -> bool
    decreases k,
{
    if k == 0 {
        r == r0 && c == c0
    } else {
        let j = (k - 1) as nat;
        ||| reach(b, ov, r0, c0, j, r, c)
        ||| reach(b, ov, r0, c0, j, r - 1, c - 1) && step(b, ov, r - 1, c - 1, r, c)
        ||| reach(b, ov, r0, c0, j, r - 1, c) && step(b, ov, r - 1, c, r, c)
        ||| reach(b, ov, r0, c0, j, r - 1, c + 1) && step(b, ov, r - 1, c + 1, r, c)
        ||| reach(b, ov, r0, c0, j, r, c - 1) && step(b, ov, r, c - 1, r, c)
        ||| reach(b, ov, r0, c0, j, r, c + 1) && step(b, ov, r, c + 1, r, c)
        ||| reach(b, ov, r0, c0, j, r + 1, c - 1) && step(b, ov, r + 1, c - 1, r, c)
        ||| reach(b, ov, r0, c0, j, r + 1, c) && step(b, ov, r + 1, c, r, c)
        ||| reach(b, ov, r0, c0, j, r + 1, c + 1) && step(b, ov, r + 1, c + 1, r, c)
    }
}

/// One more step from a reached cell reaches its neighbour.
pub proof fn lemma_reach_step(
    b: Board,
    ov: Seq<Visibility>,
    r0: int,
    c0: int,
    k: nat,
    pr: int,
    pc: int,
    r: int,
    c: int,
)
    requires
        reach(b, ov, r0, c0, k, pr, pc),
        step(b, ov, pr, pc, r, c),
    ensures
        reach(b, ov, r0, c0, k + 1, r, c),
{
    assert(pr == r - 1 || pr == r || pr == r + 1);
    assert(pc == c - 1 || pc == c || pc == c + 1);
}

/// A cell first reached at step `k` has a predecessor reached at `k - 1`.
pub proof fn lemma_reach_pred(b: Board, ov: Seq<Visibility>, r0: int, c0: int, k: nat, r: int, c: int)
    requires
        k > 0,
        reach(b, ov, r0, c0, k, r, c),
        !reach(b, ov, r0, c0, (k - 1) as nat, r, c),
    ensures
        exists|pr: int, pc: int|
            #[trigger] reach(b, ov, r0, c0, (k - 1) as nat, pr, pc) && step(b, ov, pr, pc, r, c),
{
    let j = (k - 1) as nat;
    if reach(b, ov, r0, c0, j, r - 1, c - 1) && step(b, ov, r - 1, c - 1, r, c) {
        assert(reach(b, ov, r0, c0, j, r - 1, c - 1));
    } else if reach(b, ov, r0, c0, j, r - 1, c) && step(b, ov, r - 1, c, r, c) {
        assert(reach(b, ov, r0, c0, j, r - 1, c));
    } else if reach(b, ov, r0, c0, j, r - 1, c + 1) && step(b, ov, r - 1, c + 1, r, c) {
        assert(reach(b, ov, r0, c0, j, r - 1, c + 1));
    } else if reach(b, ov, r0, c0, j, r, c - 1) && step(b, ov, r, c - 1, r, c) {
        assert(reach(b, ov, r0, c0, j, r, c - 1));
    } else if reach(b, ov, r0, c0, j, r, c + 1) && step(b, ov, r, c + 1, r, c) {
        assert(reach(b, ov, r0, c0, j, r, c + 1));
    } else if reach(b, ov, r0, c0, j, r + 1, c - 1) && step(b, ov, r + 1, c - 1, r, c) {
        assert(reach(b, ov, r0, c0, j, r + 1, c - 1));
    } else if reach(b, ov, r0, c0, j, r + 1, c) && step(b, ov, r + 1, c, r, c) {
        assert(reach(b, ov, r0, c0, j, r + 1, c));
    } else {
        assert(reach(b, ov, r0, c0, j, r + 1, c + 1));
    }
}

/// The cascade may pass from (pr, pc) to (r, c).
pub open spec fn step(b: Board, ov: Seq<Visibility>, pr: int, pc: int, r: int, c: int) -> bool {
    &&& mines_around(b.side(), b.mine_layout(), pr, pc) == 0
    &&& neighbor(pr, pc, r, c)
    &&& in_bounds(b.side(), r, c)
    &&& ov[idx(b.side(), r, c)] == Visibility::Concealed
    &&& !b.mine(r, c)
}

/// The cells that revealing (r0, c0) uncovers when the visibility was `ov`.
pub open spec fn in_region(b: Board, ov: Seq<Visibility>, r0: int, c0: int, r: int, c: int) -> bool {
    exists|k: nat| #[trigger] reach(b, ov, r0, c0, k, r, c)
}

/// The entries for the mined cells at positions below `i`, other than `skip`,
/// in row-major order, with their visibility in `v`.
pub open spec fn mine_entries(b: Board, v: Seq<Visibility>, skip: int, i: int) -> Seq<CellChange>
    decreases i,
{
    if i <= 0 {
        Seq::empty()
    } else {
        let j = i - 1;
        let r = j / b.side();
        let c = j % b.side();
        let rest = mine_entries(b, v, skip, j);
        if b.mine(r, c) && j != skip {
            rest.push(
                CellChange {
                    row: r as usize,
                    col: c as usize,
                    visibility: v[j],
                    has_mine: true,
                    adjacent_mines: mines_around(b.side(), b.mine_layout(), r, c) as u8,
                },
            )
        } else {
            rest
        }
    }
}

/// The number of concealed cells in `v`.
pub open spec fn count_concealed(v: Seq<Visibility>) -> nat
    decreases v.len(),
{
    if v.len() == 0 {
        0
    } else {
        count_concealed(v.drop_last()) + if v.last() == Visibility::Concealed {
            1nat
        } else {
            0nat
        }
    }
}

proof fn lemma_count_concealed_reveal(v: Seq<Visibility>, j: int)
    requires
        0 <= j < v.len(),
        v[j] == Visibility::Concealed,
    ensures
        count_concealed(v.update(j, Visibility::Revealed)) + 1 == count_concealed(v),
    decreases v.len(),
{
    let t = v.update(j, Visibility::Revealed);
    if j == v.len() - 1 {
        assert(t.drop_last() =~= v.drop_last());
    } else {
        assert(t.drop_last() =~= v.drop_last().update(j, Visibility::Revealed));
        lemma_count_concealed_reveal(v.drop_last(), j);
    }
}

/// Invariant of the cascade: `ch` lists distinct revealed cells of the
/// region, and `v` is `ov` with exactly those cells revealed.
spec fn bfs_inv(
    b: Board,
    ov: Seq<Visibility>,
    v: Seq<Visibility>,
    r0: int,
    c0: int,
    ch: Seq<CellChange>,
) -> bool {
    let n = b.side();
    &&& b.wf()
    &&& v.len() == n * n
    &&& ov.len() == n * n
    &&& in_bounds(n, r0, c0)
    &&& ov[idx(n, r0, c0)] == Visibility::Concealed
    &&& ch.len() >= 1
    &&& ch[0].row == r0 && ch[0].col == c0
    &&& forall|i: int|
        0 <= i < ch.len() ==> in_bounds(n, ch[i].row as int, ch[i].col as int) && in_region(
            b,
            ov,
            r0,
            c0,
            ch[i].row as int,
            ch[i].col as int,
        ) && describes(#[trigger] ch[i], b, ch[i].row as int, ch[i].col as int, Visibility::Revealed)
    &&& cells_distinct(ch)
    &&& forall|rr: int, cc: int|
        in_bounds(n, rr, cc) ==> #[trigger] v[idx(n, rr, cc)] == if listed(ch, rr, cc) {
            Visibility::Revealed
        } else {
            ov[idx(n, rr, cc)]
        }
}

/// The first `head` entries of `ch` have passed the cascade on to every
/// cell that a step reaches from them.
spec fn expanded(b: Board, ov: Seq<Visibility>, ch: Seq<CellChange>, head: int) -> bool {
    forall|i: int, rr: int, cc: int|
        0 <= i < head && #[trigger] step(b, ov, ch[i].row as int, ch[i].col as int, rr, cc)
            ==> listed(ch, rr, cc)
}

/// Once the cascade has expanded every listed cell, it has listed the whole
/// region.
proof fn lemma_region_listed(
    b: Board,
    ov: Seq<Visibility>,
    v: Seq<Visibility>,
    r0: int,
    c0: int,
    ch: Seq<CellChange>,
    k: nat,
    r: int,
    c: int,
)
    requires
        bfs_inv(b, ov, v, r0, c0, ch),
        expanded(b, ov, ch, ch.len() as int),
        reach(b, ov, r0, c0, k, r, c),
    ensures
        listed(ch, r, c),
    decreases k,
{
    if k == 0 {
        assert(ch[0].row == r && ch[0].col == c);
    } else if reach(b, ov, r0, c0, (k - 1) as nat, r, c) {
        lemma_region_listed(b, ov, v, r0, c0, ch, (k - 1) as nat, r, c);
    } else {
        lemma_reach_pred(b, ov, r0, c0, k, r, c);
        let (pr, pc) = choose|pr: int, pc: int|
            #[trigger] reach(b, ov, r0, c0, (k - 1) as nat, pr, pc) && step(b, ov, pr, pc, r, c);
        lemma_region_listed(b, ov, v, r0, c0, ch, (k - 1) as nat, pr, pc);
        let i = choose|i: int| 0 <= i < ch.len() && #[trigger] ch[i].row == pr && ch[i].col == pc;
        assert(step(b, ov, ch[i].row as int, ch[i].col as int, r, c));
    }
}

/// What `reveal_cell(r, c)` does, taking `g0` to `g1` and reporting `ch`.
pub open spec fn reveal_outcome(g0: Game, g1: Game, r: int, c: int, ch: Seq<CellChange>) -> bool {
    let b = g0.layout();
    let n = b.side();
    let ov = g0.cells();
    &&& g1.layout() == b
    &&& if g0.status() != Phase::InProgress || !in_bounds(n, r, c) || ov[idx(n, r, c)]
        != Visibility::Concealed {
        &&& ch.len() == 0
        &&& g1.cells() == ov
        &&& g1.status() == g0.status()
    } else if b.mine(r, c) {
        &&& g1.cells() == ov.update(idx(n, r, c), Visibility::Revealed)
        &&& g1.status() == Phase::Lost
        &&& ch.len() >= 1
        &&& describes(ch[0], b, r, c, Visibility::Revealed)
        &&& ch.drop_first() == mine_entries(b, g1.cells(), idx(n, r, c), n * n)
    } else {
        &&& forall|rr: int, cc: int|
            in_bounds(n, rr, cc) ==> #[trigger] g1.cells()[idx(n, rr, cc)] == if in_region(
                b,
                ov,
                r,
                c,
                rr,
                cc,
            ) {
                Visibility::Revealed
            } else {
                ov[idx(n, rr, cc)]
            }
        &&& ch.len() >= 1
        &&& ch[0].row == r && ch[0].col == c
        &&& forall|i: int|
            0 <= i < ch.len() ==> in_region(b, ov, r, c, ch[i].row as int, ch[i].col as int)
                && describes(
                #[trigger] ch[i],
                b,
                ch[i].row as int,
                ch[i].col as int,
                Visibility::Revealed,
            )
        &&& forall|rr: int, cc: int| #[trigger] in_region(b, ov, r, c, rr, cc) ==> listed(ch, rr, cc)
        &&& cells_distinct(ch)
        &&& g1.status() == (if all_safe_revealed(b, g1.cells()) {
            Phase::Won
        } else {
            Phase::InProgress
        })
    }
}

/// What `toggle_flag(r, c)` does, taking `g0` to `g1` and reporting `ch`.
pub open spec fn toggle_outcome(g0: Game, g1: Game, r: int, c: int, ch: Seq<CellChange>) -> bool {
    let b = g0.layout();
    let n = b.side();
    let ov = g0.cells();
    &&& g1.layout() == b
    &&& g1.status() == g0.status()
    &&& if g0.status() != Phase::InProgress || !in_bounds(n, r, c) || ov[idx(n, r, c)]
        == Visibility::Revealed {
        &&& ch.len() == 0
        &&& g1.cells() == ov
    } else {
        let nv = if ov[idx(n, r, c)] == Visibility::Flagged {
            Visibility::Concealed
        } else {
            Visibility::Flagged
        };
        &&& g1.cells() == ov.update(idx(n, r, c), nv)
        &&& ch.len() == 1
        &&& describes(ch[0], b, r, c, nv)
    }
}

/// What `apply(a)` does.
pub open spec fn apply_outcome(g0: Game, g1: Game, a: PlayerAction, ch: Seq<CellChange>) -> bool {
    match a {
        PlayerAction::Reveal { row, col } => reveal_outcome(g0, g1, row as int, col as int, ch),
        PlayerAction::ToggleFlag { row, col } => toggle_outcome(g0, g1, row as int, col as int, ch),
    }
}

/// Revealing the same cell twice in a row: the second reveal reports nothing
/// and changes nothing.
pub proof fn lemma_reveal_twice(
    g0: Game,
    g1: Game,
    g2: Game,
    r: int,
    c: int,
    ch1: Seq<CellChange>,
    ch2: Seq<CellChange>,
)
    requires
        g0.wf(),
        reveal_outcome(g0, g1, r, c, ch1),
        reveal_outcome(g1, g2, r, c, ch2),
    ensures
        ch2.len() == 0,
        g2.cells() == g1.cells(),
        g2.status() == g1.status(),
{
    let b = g0.layout();
    let n = b.side();
    if g0.status() == Phase::InProgress && in_bounds(n, r, c) && g0.cells()[idx(n, r, c)]
        == Visibility::Concealed && !b.mine(r, c) {
        assert(reach(b, g0.cells(), r, c, 0, r, c));
        assert(in_region(b, g0.cells(), r, c, r, c));
    }
}

/// Once the game is won or lost, every action reports nothing and changes
/// nothing.
pub proof fn lemma_finished_game_is_frozen(g0: Game, g1: Game, a: PlayerAction, ch: Seq<CellChange>)
    requires
        g0.wf(),
        g0.status() != Phase::InProgress,
        apply_outcome(g0, g1, a, ch),
    ensures
        ch.len() == 0,
        g1.cells() == g0.cells(),
        g1.status() == g0.status(),
        g1.layout() == g0.layout(),
{
}

/// Revealing a mine loses the game and leaves every other cell as it was.
pub proof fn lemma_mine_loses(g0: Game, g1: Game, r: int, c: int, ch: Seq<CellChange>)
    requires
        g0.wf(),
        g0.status() == Phase::InProgress,
        in_bounds(g0.layout().side(), r, c),
        g0.cells()[idx(g0.layout().side(), r, c)] == Visibility::Concealed,
        g0.layout().mine(r, c),
        reveal_outcome(g0, g1, r, c, ch),
    ensures
        g1.status() == Phase::Lost,
        g1.cells()[idx(g0.layout().side(), r, c)] == Visibility::Revealed,
        forall|rr: int, cc: int|
            in_bounds(g0.layout().side(), rr, cc) && !(rr == r && cc == c) ==> #[trigger] g1.cells()[idx(
                g0.layout().side(),
                rr,
                cc,
            )] == g0.cells()[idx(g0.layout().side(), rr, cc)],
{
    let n = g0.layout().side();
    lemma_idx(n, r, c);
    assert forall|rr: int, cc: int| in_bounds(n, rr, cc) && !(rr == r && cc == c) implies #[trigger] g1.cells()[idx(
        n,
        rr,
        cc,
    )] == g0.cells()[idx(n, rr, cc)] by {
        lemma_idx(n, rr, cc);
        if idx(n, rr, cc) == idx(n, r, c) {
            lemma_idx_injective(n, rr, cc, r, c);
        }
    }
}

/// After a reveal that uncovers a safe cell, the game is won exactly when
/// every cell without a mine is revealed.
pub proof fn lemma_won_iff_safe_cells_revealed(
    g0: Game,
    g1: Game,
    r: int,
    c: int,
    ch: Seq<CellChange>,
)
    requires
        g0.wf(),
        reveal_outcome(g0, g1, r, c, ch),
        ch.len() > 0,
        g1.status() != Phase::Lost,
    ensures
        g1.status() == Phase::Won <==> all_safe_revealed(g1.layout(), g1.cells()),
{
}

/// A flag on a mined cell never stands in the way of a win.
pub proof fn lemma_flags_do_not_block(b: Board, v: Seq<Visibility>, r: int, c: int)
    requires
        b.wf(),
        v.len() == b.side() * b.side(),
        all_safe_revealed(b, v),
        b.mine(r, c),
    ensures
        all_safe_revealed(b, v.update(idx(b.side(), r, c), Visibility::Flagged)),
{
    let n = b.side();
    lemma_idx(n, r, c);
    assert forall|rr: int, cc: int| in_bounds(n, rr, cc) && !b.mine(rr, cc) implies #[trigger] v.update(
        idx(n, r, c),
        Visibility::Flagged,
    )[idx(n, rr, cc)] == Visibility::Revealed by {
        lemma_idx(n, rr, cc);
        if idx(n, rr, cc) == idx(n, r, c) {
            lemma_idx_injective(n, rr, cc, r, c);
        }
    }
}

/// The state of one game: a fixed board, what the player sees of each cell,
/// and whether the game goes on.
pub struct Game {
    board: Board,
    visibility: Vec<Visibility>,
    phase: Phase,
}

impl Game {
    pub closed spec fn layout(&self) -> Board {
        self.board
    }

    /// The visibility of each cell, row-major.
    pub closed spec fn cells(&self) -> Seq<Visibility> {
        self.visibility@
    }

    pub closed spec fn status(&self) -> Phase {
        self.phase
    }

    pub open spec fn wf(&self) -> bool {
        &&& self.layout().wf()
        &&& self.cells().len() == self.layout().side() * self.layout().side()
    }

    /// A fresh game on `board`: every cell concealed, play in progress.
    pub fn new(board: Board) -> (g: Game)
        requires
            board.wf(),
        ensures
            g.wf(),
            g.layout() == board,
            g.status() == Phase::InProgress,
            forall|i: int| 0 <= i < g.cells().len() ==> g.cells()[i] == Visibility::Concealed,
    {
        let n = board.size();
        let total = n * n;
        let mut visibility: Vec<Visibility> = Vec::new();
        while visibility.len() < total
            invariant
                visibility@.len() <= total,
                forall|i: int|
                    0 <= i < visibility@.len() ==> visibility@[i] == Visibility::Concealed,
            decreases total - visibility@.len(),
        {
            visibility.push(Visibility::Concealed);
        }
        Game { board, visibility, phase: Phase::InProgress }
    }

    pub fn board(&self) -> (b: &Board)
        ensures
            *b == self.layout(),
    {
        &self.board
    }

    #[verifier::when_used_as_spec(status)]
    pub fn phase(&self) -> (p: Phase)
        ensures
            p == self.status(),
    {
        self.phase
    }

    /// The visibility of (r, c), or `None` off the board.
    pub fn cell_visibility(&self, r: usize, c: usize) -> (v: Option<Visibility>)
        requires
            self.wf(),
        ensures
            in_bounds(self.layout().side(), r as int, c as int) ==> v == Some(
                self.cells()[idx(self.layout().side(), r as int, c as int)],
            ),
            !in_bounds(self.layout().side(), r as int, c as int) ==> v is None,
    {
        let n = self.board.size();
        if r < n && c < n {
            Some(self.visibility[cell_index(n, r, c)])
        } else {
            None
        }
    }

    /// Carries out one player action.
    pub fn apply(&mut self, a: PlayerAction) -> (ch: Vec<CellChange>)
        requires
            old(self).wf(),
        ensures
            final(self).wf(),
            apply_outcome(*old(self), *final(self), a, ch@),
    {
        match a {
            PlayerAction::Reveal { row, col } => self.reveal_cell(row, col),
            PlayerAction::ToggleFlag { row, col } => self.toggle_flag(row, col),
        }
    }

    /// Reveals (r, c). A mine loses the game; a cell with no mined neighbour
    /// reveals, in a cascade, every concealed unmined cell connected to it
    /// through such cells. The game is won once every unmined cell is revealed.
    pub fn reveal_cell(&mut self, r: usize, c: usize) -> (ch: Vec<CellChange>)
        requires
            old(self).wf(),
        ensures
            final(self).wf(),
            reveal_outcome(*old(self), *final(self), r as int, c as int, ch@),
    {
        let n = self.board.size();
        if self.phase != Phase::InProgress || r >= n || c >= n {
            return Vec::new();
        }
        let i = cell_index(n, r, c);
        if self.visibility[i] != Visibility::Concealed {
            return Vec::new();
        }
        if self.board.has_mine(r, c) {
            self.visibility.set(i, Visibility::Revealed);
            self.phase = Phase::Lost;
            let mut ch: Vec<CellChange> = Vec::new();
            ch.push(self.entry(r, c, Visibility::Revealed));
            self.push_mines(&mut ch, i);
            proof {
                assert(ch@.drop_first() =~= mine_entries(
                    self.layout(),
                    self.cells(),
                    i as int,
                    n * n,
                ));
            }
            return ch;
        }
        let ghost ov = self.visibility@;
        let ghost b = self.board;
        self.visibility.set(i, Visibility::Revealed);
        let mut ch: Vec<CellChange> = Vec::new();
        ch.push(self.entry(r, c, Visibility::Revealed));
        proof {
            assert(reach(b, ov, r as int, c as int, 0, r as int, c as int));
            assert(listed(ch@, r as int, c as int)) by {
                assert(ch@[0].row == r && ch@[0].col == c);
            }
            assert forall|rr: int, cc: int| in_bounds(n as int, rr, cc) implies #[trigger] self.visibility@[idx(
                n as int,
                rr,
                cc,
            )] == if listed(ch@, rr, cc) {
                Visibility::Revealed
            } else {
                ov[idx(n as int, rr, cc)]
            } by {
                lemma_idx(n as int, rr, cc);
                if idx(n as int, rr, cc) == i {
                    lemma_idx_injective(n as int, rr, cc, r as int, c as int);
                }
            }
            lemma_count_concealed_reveal(ov, i as int);
        }
        let mut head: usize = 0;
        while head < ch.len()
            invariant
                self.wf(),
                self.layout() == b,
                n as int == b.side(),
                self.status() == Phase::InProgress,
                bfs_inv(b, ov, self.visibility@, r as int, c as int, ch@),
                head <= ch@.len(),
                expanded(b, ov, ch@, head as int),
            decreases count_concealed(self.visibility@) + ch@.len() - head,
        {
            let pr = ch[head].row;
            let pc = ch[head].col;
            let ghost h = head as int;
            proof {
                assert(in_bounds(n as int, ch@[h].row as int, ch@[h].col as int));
            }
            if self.board.adjacent_mine_count(pr, pc) == 0 {
                let up = pr > 0;
                let down = pr + 1 < n;
                let left = pc > 0;
                let right = pc + 1 < n;
                if up && left {
                    self.reveal_neighbor(&mut ch, pr - 1, pc - 1, Ghost(ov), Ghost(r as int), Ghost(c as int), Ghost(h));
                }
                if up {
                    self.reveal_neighbor(&mut ch, pr - 1, pc, Ghost(ov), Ghost(r as int), Ghost(c as int), Ghost(h));
                }
                if up && right {
                    self.reveal_neighbor(&mut ch, pr - 1, pc + 1, Ghost(ov), Ghost(r as int), Ghost(c as int), Ghost(h));
                }
                if left {
                    self.reveal_neighbor(&mut ch, pr, pc - 1, Ghost(ov), Ghost(r as int), Ghost(c as int), Ghost(h));
                }
                if right {
                    self.reveal_neighbor(&mut ch, pr, pc + 1, Ghost(ov), Ghost(r as int), Ghost(c as int), Ghost(h));
                }
                if down && left {
                    self.reveal_neighbor(&mut ch, pr + 1, pc - 1, Ghost(ov), Ghost(r as int), Ghost(c as int), Ghost(h));
                }
                if down {
                    self.reveal_neighbor(&mut ch, pr + 1, pc, Ghost(ov), Ghost(r as int), Ghost(c as int), Ghost(h));
                }
                if down && right {
                    self.reveal_neighbor(&mut ch, pr + 1, pc + 1, Ghost(ov), Ghost(r as int), Ghost(c as int), Ghost(h));
                }
            }
            proof {
                assert forall|j: int, rr: int, cc: int|
                    0 <= j < h + 1 && #[trigger] step(b, ov, ch@[j].row as int, ch@[j].col as int, rr, cc)
                    implies listed(ch@, rr, cc) by {
                    if j == h {
                        assert(ch@[j].row == pr && ch@[j].col == pc);
                    }
                }
            }
            head += 1;
        }
        proof {
            assert forall|rr: int, cc: int| #[trigger] in_region(b, ov, r as int, c as int, rr, cc) implies listed(
                ch@,
                rr,
                cc,
            ) by {
                let k = choose|k: nat| #[trigger] reach(b, ov, r as int, c as int, k, rr, cc);
                lemma_region_listed(b, ov, self.visibility@, r as int, c as int, ch@, k, rr, cc);
            }
        }
        if self.safe_cells_revealed() {
            self.phase = Phase::Won;
        }
        ch
    }

    /// Reveals (r, c), a neighbour of the listed cell `ch[parent]` that has no
    /// mined neighbour, when it is concealed and holds no mine, and lists it.
    fn reveal_neighbor(
        &mut self,
        ch: &mut Vec<CellChange>,
        r: usize,
        c: usize,
        Ghost(ov): Ghost<Seq<Visibility>>,
        Ghost(r0): Ghost<int>,
        Ghost(c0): Ghost<int>,
        Ghost(parent): Ghost<int>,
    )
        requires
            old(self).wf(),
            bfs_inv(old(self).layout(), ov, old(self).cells(), r0, c0, old(ch)@),
            0 <= parent < old(ch)@.len(),
            mines_around(
                old(self).layout().side(),
                old(self).layout().mine_layout(),
                old(ch)@[parent].row as int,
                old(ch)@[parent].col as int,
            ) == 0,
            neighbor(old(ch)@[parent].row as int, old(ch)@[parent].col as int, r as int, c as int),
            in_bounds(old(self).layout().side(), r as int, c as int),
        ensures
            final(self).wf(),
            final(self).layout() == old(self).layout(),
            final(self).status() == old(self).status(),
            bfs_inv(final(self).layout(), ov, final(self).cells(), r0, c0, final(ch)@),
            final(ch)@.len() >= old(ch)@.len(),
            forall|i: int| 0 <= i < old(ch)@.len() ==> final(ch)@[i] == old(ch)@[i],
            forall|rr: int, cc: int| listed(old(ch)@, rr, cc) ==> #[trigger] listed(final(ch)@, rr, cc),
            step(
                old(self).layout(),
                ov,
                old(ch)@[parent].row as int,
                old(ch)@[parent].col as int,
                r as int,
                c as int,
            ) ==> listed(final(ch)@, r as int, c as int),
            forall|h: int|
                0 <= h <= old(ch)@.len() && #[trigger] expanded(old(self).layout(), ov, old(ch)@, h)
                    ==> expanded(old(self).layout(), ov, final(ch)@, h),
            count_concealed(final(self).cells()) + final(ch)@.len() == count_concealed(
                old(self).cells(),
            ) + old(ch)@.len(),
    {
        let ghost b = self.board;
        let ghost v = self.visibility@;
        let ghost s = ch@;
        let n = self.board.size();
        let j = cell_index(n, r, c);
        if self.visibility[j] == Visibility::Concealed && !self.board.has_mine(r, c) {
            proof {
                assert(!listed(s, r as int, c as int));
                assert(ov[j as int] == Visibility::Concealed);
                let p = s[parent];
                let k = choose|k: nat| #[trigger] reach(b, ov, r0, c0, k, p.row as int, p.col as int);
                assert(step(b, ov, p.row as int, p.col as int, r as int, c as int));
                lemma_reach_step(b, ov, r0, c0, k, p.row as int, p.col as int, r as int, c as int);
                lemma_count_concealed_reveal(v, j as int);
            }
            self.visibility.set(j, Visibility::Revealed);
            let e = self.entry(r, c, Visibility::Revealed);
            ch.push(e);
            proof {
                let t = ch@;
                assert(t[s.len() as int] == e);
                assert(listed(t, r as int, c as int));
                assert forall|rr: int, cc: int| listed(s, rr, cc) implies #[trigger] listed(t, rr, cc) by {
                    let q = choose|q: int| 0 <= q < s.len() && #[trigger] s[q].row == rr && s[q].col == cc;
                    assert(t[q] == s[q]);
                }
                assert forall|rr: int, cc: int| in_bounds(n as int, rr, cc) implies #[trigger] self.visibility@[idx(
                    n as int,
                    rr,
                    cc,
                )] == if listed(t, rr, cc) {
                    Visibility::Revealed
                } else {
                    ov[idx(n as int, rr, cc)]
                } by {
                    lemma_idx(n as int, rr, cc);
                    if idx(n as int, rr, cc) == j {
                        lemma_idx_injective(n as int, rr, cc, r as int, c as int);
                    } else {
                        if listed(t, rr, cc) {
                            let q = choose|q: int| 0 <= q < t.len() && #[trigger] t[q].row == rr && t[q].col == cc;
                            assert(q != s.len());
                            assert(s[q] == t[q]);
                        }
                    }
                }
                assert forall|h: int|
                    0 <= h <= s.len() && #[trigger] expanded(b, ov, s, h) implies expanded(b, ov, t, h) by {
                    assert forall|i: int, rr: int, cc: int|
                        0 <= i < h && #[trigger] step(b, ov, t[i].row as int, t[i].col as int, rr, cc)
                        implies listed(t, rr, cc) by {
                        assert(t[i] == s[i]);
                    }
                }
            }
        }
    }

    /// Appends an entry for every mined cell other than position `skip`, in
    /// row-major order.
    fn push_mines(&self, ch: &mut Vec<CellChange>, skip: usize)
        requires
            self.wf(),
        ensures
            final(ch)@ == old(ch)@ + mine_entries(
                self.layout(),
                self.cells(),
                skip as int,
                self.layout().side() * self.layout().side(),
            ),
    {
        let n = self.board.size();
        let total = n * n;
        let mut j: usize = 0;
        while j < total
            invariant
                self.wf(),
                n == self.layout().side(),
                total == n * n,
                j <= total,
                ch@ == old(ch)@ + mine_entries(self.layout(), self.cells(), skip as int, j as int),
            decreases total - j,
        {
            proof {
                lemma_coords(n as int, j as int);
            }
            let ghost before = ch@;
            if j != skip && self.board.has_mine(j / n, j % n) {
                let e = CellChange {
                    row: j / n,
                    col: j % n,
                    visibility: self.visibility[j],
                    has_mine: true,
                    adjacent_mines: self.board.adjacent_mine_count(j / n, j % n),
                };
                ch.push(e);
                proof {
                    assert(ch@ =~= old(ch)@ + mine_entries(
                        self.layout(),
                        self.cells(),
                        skip as int,
                        j + 1,
                    ));
                }
            }
            j += 1;
        }
    }

    /// Flags a concealed cell or unflags a flagged one.
    pub fn toggle_flag(&mut self, r: usize, c: usize) -> (ch: Vec<CellChange>)
        requires
            old(self).wf(),
        ensures
            final(self).wf(),
            toggle_outcome(*old(self), *final(self), r as int, c as int, ch@),
    {
        let n = self.board.size();
        if self.phase != Phase::InProgress || r >= n || c >= n {
            return Vec::new();
        }
        let i = cell_index(n, r, c);
        let nv = match self.visibility[i] {
            Visibility::Revealed => {
                return Vec::new();
            },
            Visibility::Flagged => Visibility::Concealed,
            Visibility::Concealed => Visibility::Flagged,
        };
        self.visibility.set(i, nv);
        let mut ch: Vec<CellChange> = Vec::new();
        ch.push(self.entry(r, c, nv));
        ch
    }

    /// The entry that reports (r, c) with visibility `v`.
    fn entry(&self, r: usize, c: usize, v: Visibility) -> (e: CellChange)
        requires
            self.layout().wf(),
            r < self.layout().side(),
            c < self.layout().side(),
        ensures
            describes(e, self.layout(), r as int, c as int, v),
    {
        CellChange {
            row: r,
            col: c,
            visibility: v,
            has_mine: self.board.has_mine(r, c),
            adjacent_mines: self.board.adjacent_mine_count(r, c),
        }
    }

    /// Whether every cell without a mine is revealed.
    fn safe_cells_revealed(&self) -> (w: bool)
        requires
            self.wf(),
        ensures
            w == all_safe_revealed(self.layout(), self.cells()),
    {
        let n = self.board.size();
        let total = n * n;
        let mut j: usize = 0;
        while j < total
            invariant
                self.wf(),
                n == self.layout().side(),
                total == n * n,
                j <= total,
                forall|jj: int|
                    0 <= jj < j && !self.layout().mine(jj / n as int, jj % n as int)
                        ==> #[trigger] self.cells()[jj] == Visibility::Revealed,
            decreases total - j,
        {
            proof {
                lemma_coords(n as int, j as int);
            }
            if !self.board.has_mine(j / n, j % n) && self.visibility[j] != Visibility::Revealed {
                return false;
            }
            j += 1;
        }
        assert forall|r: int, c: int|
            in_bounds(n as int, r, c) && !self.layout().mine(r, c) implies #[trigger] self.cells()[idx(
            n as int,
            r,
            c,
        )] == Visibility::Revealed by {
            lemma_idx(n as int, r, c);
        }
        true
    }
}

} // verus!
