//! The simulation controller: phases, spawning, moves, rotation, gravity,
//! locking, line clears and the score.
use vstd::prelude::*;
use rand::Rng;
use crate::board::{
    Board, MAX_SIDE, ROW_BONUS, cleared, empty_row, full_count, has_cell, would_collide,
};
use crate::piece::{
    PieceKind, canonical_mask, kind_from_index, kind_mask, kind_of_index, lemma_kind_mask_wf,
    lemma_mask_rows, lemma_rotated_wf, mask_of, mask_wf, rotate_shape, rotated,
};

verus! {

#[derive(Clone, Copy, Debug, PartialEq, Eq, Structural)]
pub enum GamePhase {
    NotStarted,
    Playing,
    Over,
}

/// The falling piece: its kind, its current (possibly rotated) mask, and the
/// board coordinate `(x, y)` of the mask's top-left corner.
pub struct ActivePiece {
    pub kind: PieceKind,
    pub shape: Vec<Vec<bool>>,
    pub anchor: (i32, i32),
}

impl ActivePiece {
    pub open spec fn mask(&self) -> Seq<Seq<bool>> {
        mask_of(self.shape@)
    }

    pub open spec fn wf(&self) -> bool {
        mask_wf(self.mask())
    }
}

/// Mask `m` can stand with its top-left corner at `(ax, ay)`: the anchor is
/// representable and no occupied cell of the mask collides.
pub open spec fn fits(board: Board, m: Seq<Seq<bool>>, ax: int, ay: int) -> bool {
    &&& i32::MIN <= ax <= i32::MAX
    &&& i32::MIN <= ay <= i32::MAX
    &&& !board.collides(m, ax, ay)
}

/// The column at which a mask spawns: the board's middle less half the
/// mask's width.
pub open spec fn spawn_x(width: nat, m: Seq<Seq<bool>>) -> int {
    width as int / 2 - m[0].len() as int / 2
}

/// The piece `p` with its anchor moved to `(x, y)`.
pub open spec fn moved_to(p: ActivePiece, x: int, y: int) -> ActivePiece {
    ActivePiece { kind: p.kind, shape: p.shape, anchor: (x as i32, y as i32) }
}

/// Mask `m` placed at `(ax, ay)` occupies the board cell `(x, y)`.
pub open spec fn covers(m: Seq<Seq<bool>>, ax: int, ay: int, x: int, y: int) -> bool {
    &&& 0 <= y - ay < m.len()
    &&& 0 <= x - ax < m[y - ay].len()
    &&& m[y - ay][x - ax]
}

/// The grid with the cells of mask `m` at `(ax, ay)` that lie on it occupied.
pub open spec fn locked_piece(rows: Seq<Seq<bool>>, w: nat, h: nat, m: Seq<Seq<bool>>, ax: int, ay: int) -> Seq<
    Seq<bool>,
> {
    Seq::new(h, |y: int| Seq::new(w, |x: int| rows[y][x] || covers(m, ax, ay, x, y)))
}

/// The score after a settle event that cleared `n` rows; it stops at the
/// largest `u64`.
pub open spec fn score_after(score: u64, n: nat) -> u64 {
    if score + ROW_BONUS * n > u64::MAX {
        u64::MAX
    } else {
        (score + ROW_BONUS * n) as u64
    }
}

/// What one gravity step does from state `g` to state `n`, where a piece of
/// kind `next` spawns if one is needed: nothing unless playing; else the
/// piece moves down one row where it fits; else it locks into the board, the
/// full rows are cleared and scored, and `next` spawns.
pub open spec fn ticked(g: CrowsTetris, n: CrowsTetris, next: PieceKind) -> bool {
    if g.spec_phase() != GamePhase::Playing {
        n.same_as(g)
    } else if g.can_move(0, 1) {
        let p = g.spec_active().unwrap();
        &&& n.spec_board() == g.spec_board()
        &&& n.spec_phase() == g.spec_phase()
        &&& n.spec_score() == g.spec_score()
        &&& n.spec_active() == Some(moved_to(p, p.anchor.0 as int, p.anchor.1 + 1))
    } else {
        let p = g.spec_active().unwrap();
        let b = g.spec_board();
        let l = locked_piece(b@, b.spec_width(), b.spec_height(), p.mask(), p.anchor.0 as int, p.anchor.1 as int);
        &&& n.spec_board().spec_width() == b.spec_width()
        &&& n.spec_board().spec_height() == b.spec_height()
        &&& n.spec_board()@ == cleared(l, b.spec_width())
        &&& n.spec_score() == score_after(g.spec_score(), full_count(l))
        &&& n.spawned(next)
    }
}

/// The simulation state: the board, the falling piece if any, the phase and
/// the score.
pub struct CrowsTetris {
    board: Board,
    active: Option<ActivePiece>,
    phase: GamePhase,
    score: u64,
}

impl CrowsTetris {
    pub closed spec fn spec_board(&self) -> Board {
        self.board
    }

    pub closed spec fn spec_active(&self) -> Option<ActivePiece> {
        self.active
    }

    pub closed spec fn spec_phase(&self) -> GamePhase {
        self.phase
    }

    pub closed spec fn spec_score(&self) -> u64 {
        self.score
    }

    /// A piece falls exactly while playing, and it is well formed and fits.
    pub open spec fn wf(&self) -> bool {
        &&& self.spec_board().wf()
        &&& (self.spec_phase() == GamePhase::Playing <==> self.spec_active() is Some)
        &&& (self.spec_active() matches Some(p) ==> p.wf() && fits(
            self.spec_board(),
            p.mask(),
            p.anchor.0 as int,
            p.anchor.1 as int,
        ))
    }

    /// Nothing differs between the two states.
    pub open spec fn same_as(&self, other: CrowsTetris) -> bool {
        &&& self.spec_board() == other.spec_board()
        &&& self.spec_active() == other.spec_active()
        &&& self.spec_phase() == other.spec_phase()
        &&& self.spec_score() == other.spec_score()
    }

    /// The state is what a spawn of `kind` on this board leaves: the canonical
    /// mask at the spawn column and row 0, or, where that collides, no piece
    /// and the game over.
    pub open spec fn spawned(&self, kind: PieceKind) -> bool {
        let m = kind_mask(kind);
        let ax = spawn_x(self.spec_board().spec_width(), m);
        if self.spec_board().collides(m, ax, 0) {
            &&& self.spec_phase() == GamePhase::Over
            &&& self.spec_active() is None
        } else {
            &&& self.spec_phase() == GamePhase::Playing
            &&& self.spec_active() matches Some(p)
            &&& p.kind == kind
            &&& p.mask() == m
            &&& p.anchor.0 == ax
            &&& p.anchor.1 == 0
        }
    }

    /// The falling piece can move by `(dx, dy)`.
    pub open spec fn can_move(&self, dx: int, dy: int) -> bool {
        &&& self.spec_phase() == GamePhase::Playing
        &&& self.spec_active() matches Some(p)
        &&& fits(self.spec_board(), p.mask(), p.anchor.0 + dx, p.anchor.1 + dy)
    }

    /// A game that has not started, on an empty board of the given size.
    pub fn new(width: usize, height: usize) -> (g: CrowsTetris)
        requires
            width <= MAX_SIDE,
            height <= MAX_SIDE,
        ensures
            g.wf(),
            g.spec_phase() == GamePhase::NotStarted,
            g.spec_active() is None,
            g.spec_score() == 0,
            g.spec_board().spec_width() == width,
            g.spec_board().spec_height() == height,
            g.spec_board()@ == Seq::new(height as nat, |_y: int| empty_row(width as nat)),
    {
        CrowsTetris { board: Board::new(width, height), active: None, phase: GamePhase::NotStarted, score: 0 }
    }

    pub fn phase(&self) -> (r: GamePhase)
        ensures
            r == self.spec_phase(),
    {
        self.phase
    }

    pub fn score(&self) -> (r: u64)
        ensures
            r == self.spec_score(),
    {
        self.score
    }

    pub fn board(&self) -> (r: &Board)
        ensures
            *r == self.spec_board(),
    {
        &self.board
    }

    pub fn active(&self) -> (r: &Option<ActivePiece>)
        ensures
            *r == self.spec_active(),
    {
        &self.active
    }

    /// Spawns a piece of `kind` at the top centre of the board; where it
    /// collides there, the game is over.
    pub fn spawn_with(&mut self, kind: PieceKind)
        requires
            old(self).spec_board().wf(),
        ensures
            final(self).wf(),
            final(self).spec_board() == old(self).spec_board(),
            final(self).spec_score() == old(self).spec_score(),
            final(self).spawned(kind),
    {
        let shape = canonical_mask(kind);
        proof {
            lemma_kind_mask_wf(kind);
            lemma_mask_rows(shape@);
        }
        let x: i32 = (self.board.width() / 2) as i32 - (shape[0].len() / 2) as i32;
        if would_collide(&self.board, &shape, x, 0) {
            self.active = None;
            self.phase = GamePhase::Over;
        } else {
            self.active = Some(ActivePiece { kind, shape, anchor: (x, 0) });
            self.phase = GamePhase::Playing;
        }
    }

    /// Spawns a piece of a kind drawn at random.
    pub fn spawn(&mut self)
        requires
            old(self).spec_board().wf(),
        ensures
            final(self).wf(),
            final(self).spec_board() == old(self).spec_board(),
            final(self).spec_score() == old(self).spec_score(),
            exists|i: int| 0 <= i < 7 && final(self).spawned(#[trigger] kind_of_index(i)),
    {
        let i = draw_kind_index();
        self.spawn_with(kind_from_index(i));
    }

    /// Starts (or restarts) a game: an empty board, a zero score, and a piece
    /// of `kind`.
    pub fn reset_game_with(&mut self, kind: PieceKind)
        requires
            old(self).spec_board().wf(),
        ensures
            final(self).wf(),
            final(self).spec_board().spec_width() == old(self).spec_board().spec_width(),
            final(self).spec_board().spec_height() == old(self).spec_board().spec_height(),
            final(self).spec_board()@ == Seq::new(
                old(self).spec_board().spec_height(),
                |_y: int| empty_row(old(self).spec_board().spec_width()),
            ),
            final(self).spec_score() == 0,
            final(self).spawned(kind),
    {
        self.board = Board::new(self.board.width(), self.board.height());
        self.score = 0;
        self.spawn_with(kind);
    }

    /// Starts (or restarts) a game with a first piece of a random kind.
    pub fn reset_game(&mut self)
        requires
            old(self).spec_board().wf(),
        ensures
            final(self).wf(),
            final(self).spec_board().spec_width() == old(self).spec_board().spec_width(),
            final(self).spec_board().spec_height() == old(self).spec_board().spec_height(),
            final(self).spec_board()@ == Seq::new(
                old(self).spec_board().spec_height(),
                |_y: int| empty_row(old(self).spec_board().spec_width()),
            ),
            final(self).spec_score() == 0,
            exists|i: int| 0 <= i < 7 && final(self).spawned(#[trigger] kind_of_index(i)),
    {
        let i = draw_kind_index();
        self.reset_game_with(kind_from_index(i));
    }

    /// Moves the falling piece by `(dx, dy)` where it fits there; otherwise,
    /// and whenever the game is not being played, nothing changes. Returns
    /// whether the piece moved.
    pub fn try_move(&mut self, dx: i32, dy: i32) -> (moved: bool)
        requires
            old(self).wf(),
        ensures
            final(self).wf(),
            moved == old(self).can_move(dx as int, dy as int),
            moved ==> {
                &&& final(self).spec_board() == old(self).spec_board()
                &&& final(self).spec_phase() == old(self).spec_phase()
                &&& final(self).spec_score() == old(self).spec_score()
                &&& final(self).spec_active() == Some(
                    moved_to(
                        old(self).spec_active().unwrap(),
                        old(self).spec_active().unwrap().anchor.0 + dx,
                        old(self).spec_active().unwrap().anchor.1 + dy,
                    ),
                )
            },
            !moved ==> final(self).same_as(*old(self)),
    {
        if self.phase != GamePhase::Playing {
            return false;
        }
        let target = match &self.active {
            None => {
                return false;
            },
            Some(p) => {
                let nx: i64 = p.anchor.0 as i64 + dx as i64;
                let ny: i64 = p.anchor.1 as i64 + dy as i64;
                if nx < i32::MIN as i64 || nx > i32::MAX as i64 || ny < i32::MIN as i64 || ny
                    > i32::MAX as i64 {
                    return false;
                }
                (nx as i32, ny as i32)
            },
        };
        if self.check_collision_with_position(target) {
            return false;
        }
        if let Some(p) = &mut self.active {
            p.anchor = target;
        }
        true
    }

    /// Turns the falling piece a quarter clockwise about its anchor where the
    /// turned mask fits there; otherwise nothing changes. Returns whether it
    /// turned.
    pub fn rotate_block(&mut self) -> (turned: bool)
        requires
            old(self).wf(),
        ensures
            final(self).wf(),
            turned == {
                &&& old(self).spec_phase() == GamePhase::Playing
                &&& old(self).spec_active() matches Some(p)
                &&& fits(old(self).spec_board(), rotated(p.mask()), p.anchor.0 as int, p.anchor.1 as int)
            },
            turned ==> {
                let p = old(self).spec_active().unwrap();
                &&& final(self).spec_board() == old(self).spec_board()
                &&& final(self).spec_phase() == old(self).spec_phase()
                &&& final(self).spec_score() == old(self).spec_score()
                &&& final(self).spec_active() matches Some(q)
                &&& q.kind == p.kind
                &&& q.anchor == p.anchor
                &&& q.mask() == rotated(p.mask())
            },
            !turned ==> final(self).same_as(*old(self)),
    {
        if self.phase != GamePhase::Playing {
            return false;
        }
        let turned_shape = match &self.active {
            None => {
                return false;
            },
            Some(p) => {
                let s = rotate_shape(&p.shape);
                proof {
                    lemma_mask_rows(p.shape@);
                    lemma_rotated_wf(p.mask());
                    lemma_mask_rows(s@);
                }
                if would_collide(&self.board, &s, p.anchor.0, p.anchor.1) {
                    return false;
                }
                s
            },
        };
        if let Some(p) = &mut self.active {
            p.shape = turned_shape;
        }
        true
    }

    /// One gravity step: the piece falls a row where it can; where it cannot,
    /// it locks, full rows are cleared (each adding the row bonus to the
    /// score), and a piece of `next` spawns, which may end the game.
    pub fn move_block_down_with(&mut self, next: PieceKind)
        requires
            old(self).wf(),
        ensures
            final(self).wf(),
            ticked(*old(self), *final(self), next),
    {
        if self.try_move(0, 1) {
            return;
        }
        if self.phase != GamePhase::Playing {
            return;
        }
        self.settle(next);
    }

    /// One gravity step; a piece that spawns is of a random kind.
    pub fn move_block_down(&mut self)
        requires
            old(self).wf(),
        ensures
            final(self).wf(),
            exists|i: int| 0 <= i < 7 && ticked(*old(self), *final(self), #[trigger] kind_of_index(i)),
    {
        let i = draw_kind_index();
        self.move_block_down_with(kind_from_index(i));
    }

    /// Takes a gravity step when `elapsed_ms` since the last one has reached
    /// the drop interval `interval_ms`; returns whether it did.
    pub fn tick_if_due(&mut self, elapsed_ms: u64, interval_ms: u64) -> (stepped: bool)
        requires
            old(self).wf(),
        ensures
            final(self).wf(),
            stepped == (elapsed_ms >= interval_ms),
            stepped ==> exists|i: int| 0 <= i < 7 && ticked(*old(self), *final(self), #[trigger] kind_of_index(i)),
            !stepped ==> final(self).same_as(*old(self)),
    {
        if elapsed_ms >= interval_ms {
            self.move_block_down();
            true
        } else {
            false
        }
    }

    /// Locks the falling piece, clears and scores full rows, spawns `next`.
    fn settle(&mut self, next: PieceKind)
        requires
            old(self).wf(),
            old(self).spec_phase() == GamePhase::Playing,
        ensures
            final(self).wf(),
            ({
                let p = old(self).spec_active().unwrap();
                let b = old(self).spec_board();
                let l = locked_piece(b@, b.spec_width(), b.spec_height(), p.mask(), p.anchor.0 as int, p.anchor.1 as int);
                &&& final(self).spec_board().spec_width() == b.spec_width()
                &&& final(self).spec_board().spec_height() == b.spec_height()
                &&& final(self).spec_board()@ == cleared(l, b.spec_width())
                &&& final(self).spec_score() == score_after(old(self).spec_score(), full_count(l))
                &&& final(self).spawned(next)
            }),
    {
        self.lock_block();
        self.clear_lines();
        self.spawn_with(next);
    }

    /// Whether the falling piece's mask, with its top-left corner at
    /// `position`, would collide; `false` when no piece is falling.
    pub fn check_collision_with_position(&self, position: (i32, i32)) -> (r: bool)
        requires
            self.wf(),
        ensures
            r == (self.spec_active() matches Some(p) && self.spec_board().collides(
                p.mask(),
                position.0 as int,
                position.1 as int,
            )),
    {
        match &self.active {
            None => false,
            Some(p) => {
                proof {
                    lemma_mask_rows(p.shape@);
                }
                would_collide(&self.board, &p.shape, position.0, position.1)
            },
        }
    }

    /// Copies the falling piece's occupied cells that lie on the board into
    /// it and discards the piece. Without a falling piece, nothing changes.
    pub fn lock_block(&mut self)
        requires
            old(self).wf(),
        ensures
            final(self).spec_board().wf(),
            final(self).spec_board().spec_width() == old(self).spec_board().spec_width(),
            final(self).spec_board().spec_height() == old(self).spec_board().spec_height(),
            final(self).spec_active() is None,
            final(self).spec_phase() == old(self).spec_phase(),
            final(self).spec_score() == old(self).spec_score(),
            old(self).spec_active() is None ==> final(self).spec_board() == old(self).spec_board(),
            old(self).spec_active() matches Some(p) ==> final(self).spec_board()@ == locked_piece(
                old(self).spec_board()@,
                old(self).spec_board().spec_width(),
                old(self).spec_board().spec_height(),
                p.mask(),
                p.anchor.0 as int,
                p.anchor.1 as int,
            ),
    {
        let ghost b = self.board;
        match self.active.take() {
            None => {},
            Some(p) => {
                let cells = piece_cells(&p);
                self.board.lock_cells(&cells);
                proof {
                    let l = locked_piece(b@, b.spec_width(), b.spec_height(), p.mask(), p.anchor.0 as int, p.anchor.1 as int);
                    assert(self.board@ =~~= l);
                }
            },
        }
    }

    /// The board as it is drawn: the settled cells, and the cells of the
    /// falling piece that lie on the board.
    pub fn grid_with_block(&self) -> (r: Vec<Vec<bool>>)
        requires
            self.wf(),
        ensures
            mask_of(r@) == (match self.spec_active() {
                Some(p) => locked_piece(
                    self.spec_board()@,
                    self.spec_board().spec_width(),
                    self.spec_board().spec_height(),
                    p.mask(),
                    p.anchor.0 as int,
                    p.anchor.1 as int,
                ),
                None => self.spec_board()@,
            }),
    {
        let mut b = self.board.copy();
        match &self.active {
            None => {},
            Some(p) => {
                let cells = piece_cells(p);
                b.lock_cells(&cells);
                proof {
                    let l = locked_piece(
                        self.board@,
                        self.board.spec_width(),
                        self.board.spec_height(),
                        p.mask(),
                        p.anchor.0 as int,
                        p.anchor.1 as int,
                    );
                    assert(b@ =~~= l);
                }
            },
        }
        b.rows()
    }

    /// Removes the full rows of the board (see `Board::clear_full_rows`) and
    /// adds the row bonus to the score for each; returns how many there were.
    pub fn clear_lines(&mut self) -> (n: usize)
        requires
            old(self).spec_board().wf(),
        ensures
            final(self).spec_board().wf(),
            final(self).spec_board().spec_width() == old(self).spec_board().spec_width(),
            final(self).spec_board().spec_height() == old(self).spec_board().spec_height(),
            final(self).spec_board()@ == cleared(old(self).spec_board()@, old(self).spec_board().spec_width()),
            n == full_count(old(self).spec_board()@),
            final(self).spec_score() == score_after(old(self).spec_score(), n as nat),
            final(self).spec_active() == old(self).spec_active(),
            final(self).spec_phase() == old(self).spec_phase(),
    {
        let n = self.board.clear_full_rows();
        let bonus: u64 = ROW_BONUS * (n as u64);
        if self.score > u64::MAX - bonus {
            self.score = u64::MAX;
        } else {
            self.score = self.score + bonus;
        }
        n
    }
}

/// The board cells that the piece's occupied mask cells cover.
fn piece_cells(p: &ActivePiece) -> (cells: Vec<(i64, i64)>)
    requires
        p.wf(),
    ensures
        forall|x: int, y: int| #[trigger] has_cell(cells@, x, y) == covers(p.mask(), p.anchor.0 as int, p.anchor.1 as int, x, y),
{
    let ghost m = p.mask();
    let ghost ax = p.anchor.0 as int;
    let ghost ay = p.anchor.1 as int;
    proof {
        lemma_mask_rows(p.shape@);
    }
    let mut cells: Vec<(i64, i64)> = Vec::new();
    let mut r: usize = 0;
    while r < p.shape.len()
        invariant
            m == p.mask(),
            ax == p.anchor.0,
            ay == p.anchor.1,
            r <= p.shape.len(),
            p.shape.len() <= 4,
            forall|i: int| 0 <= i < p.shape.len() ==> #[trigger] p.shape[i].len() <= 4,
            forall|x: int, y: int| #[trigger] has_cell(cells@, x, y) == (covers(m, ax, ay, x, y) && y - ay < r),
        decreases p.shape.len() - r,
    {
        let row = &p.shape[r];
        assert(m[r as int] == row@);
        let mut c: usize = 0;
        while c < row.len()
            invariant
                m == p.mask(),
                ax == p.anchor.0,
                ay == p.anchor.1,
                r < p.shape.len(),
                row@ == m[r as int],
                row.len() <= 4,
                r <= 4,
                c <= row.len(),
                forall|x: int, y: int| #[trigger] has_cell(cells@, x, y) == (covers(m, ax, ay, x, y) && (y - ay < r || (y - ay == r && x - ax < c))),
            decreases row.len() - c,
        {
            let ghost before = cells@;
            if row[c] {
                let e: (i64, i64) = (p.anchor.0 as i64 + c as i64, p.anchor.1 as i64 + r as i64);
                cells.push(e);
                proof {
                    assert forall|x: int, y: int| #[trigger] has_cell(cells@, x, y) == (has_cell(before, x, y) || (x == e.0 && y == e.1)) by {
                        lemma_has_cell_push(before, e, x, y);
                    }
                }
            }
            c = c + 1;
        }
        r = r + 1;
    }
    cells
}

proof fn lemma_has_cell_push(cells: Seq<(i64, i64)>, e: (i64, i64), x: int, y: int)
    ensures
        has_cell(cells.push(e), x, y) == (has_cell(cells, x, y) || (x == e.0 && y == e.1)),
{
    let t = cells.push(e);
    if x == e.0 && y == e.1 {
        assert(t[cells.len() as int] == e);
    }
    if has_cell(cells, x, y) {
        let j = choose|j: int| 0 <= j < cells.len() && #[trigger] cells[j].0 == x && cells[j].1 == y;
        assert(t[j] == cells[j]);
    }
    if has_cell(t, x, y) {
        let j = choose|j: int| 0 <= j < t.len() && #[trigger] t[j].0 == x && t[j].1 == y;
        if j < cells.len() {
            assert(t[j] == cells[j]);
        }
    }
}

/// Once the game is over, no move or rotation is possible, and any number
/// of gravity steps, whatever kinds they are handed, leave the board, the
/// falling piece, the phase and the score as they were.
pub proof fn lemma_over_is_final(states: Seq<CrowsTetris>, kinds: Seq<PieceKind>, dx: int, dy: int)
    requires
        states.len() == kinds.len() + 1,
        states[0].spec_phase() == GamePhase::Over,
        forall|i: int| 0 <= i < kinds.len() ==> ticked(states[i], states[i + 1], #[trigger] kinds[i]),
    ensures
        !states[0].can_move(dx, dy),
        forall|i: int| 0 <= i < states.len() ==> #[trigger] states[i].same_as(states[0]),
    decreases kinds.len(),
{
    if kinds.len() > 0 {
        let k = kinds.len() - 1;
        lemma_over_is_final(states.drop_last(), kinds.drop_last(), dx, dy);
        assert(ticked(states[k], states[k + 1], kinds[k]));
        assert(states.drop_last()[k] == states[k]);
        assert(states.drop_last()[k].same_as(states.drop_last()[0]));
        assert(states[k].same_as(states[0]));
        assert(states[k + 1].same_as(states[k]));
        assert forall|i: int| 0 <= i < states.len() implies #[trigger] states[i].same_as(states[0]) by {
            if i < states.len() - 1 {
                assert(states.drop_last()[i] == states[i]);
            }
        }
    }
}

/// Relies on rand's `rng().random_range(0..7)`: a value in `0..7`.
#[verifier::external_body]
fn draw_kind_index() -> (r: u8)
    ensures
        r < 7,
{
    rand::rng().random_range(0..7u8)
}

} // verus!
