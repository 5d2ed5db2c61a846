//! The grid of settled cells: occupancy queries, collision of a piece mask
//! against the grid, locking cells in, and clearing full rows.
use vstd::prelude::*;
use crate::piece::mask_of;

verus! {

/// The largest width or height of a board: coordinates are `i32` values.
pub const MAX_SIDE: usize = 0x7fff_ffff;

/// The score bonus for each row that a settle event clears.
pub const ROW_BONUS: u64 = 100;

/// A grid of `width` columns and `height` rows; row 0 is the top.
pub struct Board {
    width: usize,
    height: usize,
    cells: Vec<Vec<bool>>,
}

impl View for Board {
    type V = Seq<Seq<bool>>;

    /// The rows from top to bottom, each cell `true` where it is occupied.
    closed spec fn view(&self) -> Seq<Seq<bool>> {
        mask_of(self.cells@)
    }
}

/// Every cell of `row` is occupied.
pub open spec fn row_full(row: Seq<bool>) -> bool {
    forall|i: int| 0 <= i < row.len() ==> #[trigger] row[i]
}

/// A row of `w` empty cells.
pub open spec fn empty_row(w: nat) -> Seq<bool> {
    Seq::new(w, |_i: int| false)
}

/// `rows` has `h` rows of `w` cells each.
pub open spec fn is_grid(rows: Seq<Seq<bool>>, w: int, h: int) -> bool {
    &&& rows.len() == h
    &&& forall|y: int| 0 <= y < h ==> #[trigger] rows[y].len() == w
}

/// The rows that are not full, in their top-to-bottom order.
pub open spec fn kept_rows(rows: Seq<Seq<bool>>) -> Seq<Seq<bool>>
    decreases rows.len(),
{
    if rows.len() == 0 {
        Seq::empty()
    } else {
        let rest = kept_rows(rows.drop_last());
        if row_full(rows.last()) {
            rest
        } else {
            rest.push(rows.last())
        }
    }
}

/// How many rows of `rows` are full.
pub open spec fn full_count(rows: Seq<Seq<bool>>) -> nat {
    (rows.len() - kept_rows(rows).len()) as nat
}

/// The grid after a line clear: the rows that were not full, in their order,
/// stacked at the bottom under as many empty rows as were removed.
pub open spec fn cleared(rows: Seq<Seq<bool>>, w: nat) -> Seq<Seq<bool>> {
    Seq::new(full_count(rows), |_i: int| empty_row(w)) + kept_rows(rows)
}

/// Some entry of `cells` is the coordinate `(x, y)`.
pub open spec fn has_cell(cells: Seq<(i64, i64)>, x: int, y: int) -> bool {
    exists|i: int| 0 <= i < cells.len() && #[trigger] cells[i].0 == x && cells[i].1 == y
}

/// The grid with every in-bounds coordinate of `cells` occupied.
pub open spec fn locked(rows: Seq<Seq<bool>>, w: nat, h: nat, cells: Seq<(i64, i64)>) -> Seq<
    Seq<bool>,
> {
    Seq::new(h, |y: int| Seq::new(w, |x: int| rows[y][x] || has_cell(cells, x, y)))
}

impl Board {
    pub closed spec fn spec_width(&self) -> nat {
        self.width as nat
    }

    pub closed spec fn spec_height(&self) -> nat {
        self.height as nat
    }

    /// The dimensions fit the coordinates and the rows have the board's width.
    pub open spec fn wf(&self) -> bool {
        &&& self.spec_width() <= MAX_SIDE
        &&& self.spec_height() <= MAX_SIDE
        &&& is_grid(self@, self.spec_width() as int, self.spec_height() as int)
    }

    /// The cell `(x, y)` lies outside the board or is occupied.
    pub open spec fn blocked(&self, x: int, y: int) -> bool {
        x < 0 || x >= self.spec_width() || y < 0 || y >= self.spec_height() || self@[y][x]
    }

    /// A piece cell at `(x, y)` collides: it is left, right or below the
    /// board, or on an occupied cell. Cells above the top collide with nothing
    /// but the side walls.
    pub open spec fn stops(&self, x: int, y: int) -> bool {
        x < 0 || x >= self.spec_width() || y >= self.spec_height() || (0 <= y && self@[y][x])
    }

    /// Cell `(r, c)` of mask `m`, placed with its top-left corner at
    /// `(ax, ay)`, is occupied and collides.
    pub open spec fn blocks_at(&self, m: Seq<Seq<bool>>, ax: int, ay: int, r: int, c: int) -> bool {
        &&& 0 <= r < m.len()
        &&& 0 <= c < m[r].len()
        &&& m[r][c]
        &&& self.stops(ax + c, ay + r)
    }

    /// Mask `m` with its top-left corner at `(ax, ay)` collides.
    pub open spec fn collides(&self, m: Seq<Seq<bool>>, ax: int, ay: int) -> bool {
        exists|r: int, c: int| #[trigger] self.blocks_at(m, ax, ay, r, c)
    }

    /// An empty board of the given size.
    pub fn new(width: usize, height: usize) -> (b: Board)
        requires
            width <= MAX_SIDE,
            height <= MAX_SIDE,
        ensures
            b.wf(),
            b.spec_width() == width,
            b.spec_height() == height,
            b@ == Seq::new(height as nat, |_y: int| empty_row(width as nat)),
    {
        let mut cells: Vec<Vec<bool>> = Vec::new();
        let mut y: usize = 0;
        while y < height
            invariant
                y <= height,
                cells.len() == y,
                forall|k: int| 0 <= k < y ==> #[trigger] cells[k]@ == empty_row(width as nat),
            decreases height - y,
        {
            let row = new_empty_row(width);
            cells.push(row);
            y = y + 1;
        }
        let b = Board { width, height, cells };
        assert(b@ =~= Seq::new(height as nat, |_y: int| empty_row(width as nat)));
        b
    }

    pub fn width(&self) -> (r: usize)
        ensures
            r == self.spec_width(),
    {
        self.width
    }

    pub fn height(&self) -> (r: usize)
        ensures
            r == self.spec_height(),
    {
        self.height
    }

    /// The rows, top to bottom, each cell `true` where it is occupied.
    pub fn rows(&self) -> (r: Vec<Vec<bool>>)
        requires
            self.wf(),
        ensures
            mask_of(r@) == self@,
    {
        let mut r: Vec<Vec<bool>> = Vec::new();
        let mut y: usize = 0;
        while y < self.height
            invariant
                self.wf(),
                y <= self.height,
                r.len() == y,
                forall|k: int| 0 <= k < y ==> #[trigger] r[k]@ == self@[k],
            decreases self.height - y,
        {
            assert(self@[y as int] == self.cells[y as int]@);
            r.push(copy_row(&self.cells[y]));
            y = y + 1;
        }
        assert(mask_of(r@) =~= self@);
        r
    }

    /// A board with the same size and cells.
    pub fn copy(&self) -> (b: Board)
        requires
            self.wf(),
        ensures
            b.wf(),
            b.spec_width() == self.spec_width(),
            b.spec_height() == self.spec_height(),
            b@ == self@,
    {
        Board { width: self.width, height: self.height, cells: self.rows() }
    }

    /// Whether `(x, y)` is out of bounds or holds a settled cell.
    pub fn is_occupied(&self, x: i64, y: i64) -> (r: bool)
        requires
            self.wf(),
        ensures
            r == self.blocked(x as int, y as int),
    {
        if x < 0 || y < 0 || x >= self.width as i64 || y >= self.height as i64 {
            true
        } else {
            proof {
                assert(self@[y as int] == self.cells[y as int]@);
            }
            self.cells[y as usize][x as usize]
        }
    }

    /// Removes every full row, moves the remaining rows down in their order,
    /// fills the top with empty rows, and returns how many rows were removed.
    pub fn clear_full_rows(&mut self) -> (n: usize)
        requires
            old(self).wf(),
        ensures
            final(self).wf(),
            final(self).spec_width() == old(self).spec_width(),
            final(self).spec_height() == old(self).spec_height(),
            final(self)@ == cleared(old(self)@, old(self).spec_width()),
            n == full_count(old(self)@),
            n <= old(self).spec_height(),
    {
        let ghost rows = self@;
        let ghost w = self.spec_width();
        let mut kept: Vec<Vec<bool>> = Vec::new();
        let mut y: usize = 0;
        while y < self.height
            invariant
                rows == self@,
                self.wf(),
                y <= self.height,
                mask_of(kept@) == kept_rows(rows.take(y as int)),
            decreases self.height - y,
        {
            let ghost before = kept@;
            assert(rows[y as int] == self.cells[y as int]@);
            if !row_is_full(&self.cells[y]) {
                let row = copy_row(&self.cells[y]);
                kept.push(row);
                assert(mask_of(kept@) =~= mask_of(before).push(rows[y as int]));
            }
            proof {
                let t = rows.take(y + 1);
                assert(t.drop_last() =~= rows.take(y as int));
                assert(t.last() == rows[y as int]);
            }
            y = y + 1;
        }
        assert(rows.take(self.height as int) =~= rows);
        proof {
            lemma_kept_rows_width(rows, w);
        }
        let n = self.height - kept.len();
        let mut out: Vec<Vec<bool>> = Vec::new();
        let mut i: usize = 0;
        while i < n
            invariant
                i <= n,
                out.len() == i,
                forall|k: int| 0 <= k < i ==> #[trigger] out[k]@ == empty_row(w),
                w == self.width,
            decreases n - i,
        {
            let row = new_empty_row(self.width);
            out.push(row);
            i = i + 1;
        }
        let ghost top = out@;
        out.append(&mut kept);
        self.cells = out;
        assert(mask_of(top) =~= Seq::new(full_count(rows), |_i: int| empty_row(w)));
        assert(self@ =~= cleared(rows, w));
        n
    }

    /// Marks each coordinate of `cells` that lies on the board as occupied;
    /// coordinates off the board (above the top, say) are skipped.
    pub fn lock_cells(&mut self, cells: &Vec<(i64, i64)>)
        requires
            old(self).wf(),
        ensures
            final(self).wf(),
            final(self).spec_width() == old(self).spec_width(),
            final(self).spec_height() == old(self).spec_height(),
            final(self)@ == locked(old(self)@, old(self).spec_width(), old(self).spec_height(), cells@),
    {
        let ghost rows = self@;
        let ghost w = self.spec_width();
        let ghost h = self.spec_height();
        assert(locked(rows, w, h, cells@.take(0)) =~~= rows);
        let mut i: usize = 0;
        while i < cells.len()
            invariant
                i <= cells.len(),
                self.wf(),
                self.spec_width() == w,
                self.spec_height() == h,
                self@ == locked(rows, w, h, cells@.take(i as int)),
            decreases cells.len() - i,
        {
            let (x, y) = cells[i];
            let ghost before = self@;
            if 0 <= x && x < self.width as i64 && 0 <= y && y < self.height as i64 {
                let yi = y as usize;
                let xi = x as usize;
                assert(before[y as int] == self.cells[y as int]@);
                let mut row = copy_row(&self.cells[yi]);
                row.set(xi, true);
                self.cells.set(yi, row);
                assert(self@ =~= before.update(y as int, before[y as int].update(x as int, true)));
            }
            proof {
                let t = cells@.take(i + 1);
                assert forall|cx: int, cy: int| #[trigger] has_cell(t, cx, cy) == (has_cell(
                    cells@.take(i as int),
                    cx,
                    cy,
                ) || (cx == x && cy == y)) by {
                    if cx == x && cy == y {
                        assert(t[i as int].0 == cx && t[i as int].1 == cy);
                    }
                    if has_cell(cells@.take(i as int), cx, cy) {
                        let j = choose|j: int|
                            0 <= j < i && #[trigger] cells@.take(i as int)[j].0 == cx
                                && cells@.take(i as int)[j].1 == cy;
                        assert(t[j].0 == cx && t[j].1 == cy);
                    }
                    if has_cell(t, cx, cy) {
                        let j = choose|j: int| 0 <= j < t.len() && #[trigger] t[j].0 == cx && t[j].1 == cy;
                        if j < i {
                            assert(cells@.take(i as int)[j] == t[j]);
                        }
                    }
                }
                assert(self@ =~~= locked(rows, w, h, t));
            }
            i = i + 1;
        }
        assert(cells@.take(cells.len() as int) =~= cells@);
    }
}

/// Whether mask `shape`, with its top-left corner at `(x, y)`, collides with
/// the walls, the floor or a settled cell of `board`. Cells above the top row
/// meet only the walls.
pub fn would_collide(board: &Board, shape: &Vec<Vec<bool>>, x: i32, y: i32) -> (r: bool)
    requires
        board.wf(),
        shape.len() <= MAX_SIDE,
        forall|i: int| 0 <= i < shape.len() ==> #[trigger] shape[i].len() <= MAX_SIDE,
    ensures
        r == board.collides(mask_of(shape@), x as int, y as int),
{
    let ghost m = mask_of(shape@);
    let mut r: usize = 0;
    while r < shape.len()
        invariant
            m == mask_of(shape@),
            board.wf(),
            shape.len() <= MAX_SIDE,
            forall|i: int| 0 <= i < shape.len() ==> #[trigger] shape[i].len() <= MAX_SIDE,
            r <= shape.len(),
            forall|rr: int, cc: int| 0 <= rr < r ==> !#[trigger] board.blocks_at(m, x as int, y as int, rr, cc),
        decreases shape.len() - r,
    {
        let row = &shape[r];
        assert(m[r as int] == row@);
        let mut c: usize = 0;
        while c < row.len()
            invariant
                m == mask_of(shape@),
                board.wf(),
                r < shape.len(),
                row@ == m[r as int],
                row.len() <= MAX_SIDE,
                r <= MAX_SIDE,
                c <= row.len(),
                forall|cc: int| 0 <= cc < c ==> !#[trigger] board.blocks_at(m, x as int, y as int, r as int, cc),
            decreases row.len() - c,
        {
            if row[c] {
                let gx: i64 = x as i64 + c as i64;
                let gy: i64 = y as i64 + r as i64;
                let hit = gx < 0 || gx >= board.width as i64 || gy >= board.height as i64 || (gy
                    >= 0 && board.is_occupied(gx, gy));
                if hit {
                    assert(board.blocks_at(m, x as int, y as int, r as int, c as int));
                    return true;
                }
            }
            c = c + 1;
        }
        r = r + 1;
    }
    false
}

/// `row_full` of the row, tested cell by cell.
fn row_is_full(row: &Vec<bool>) -> (r: bool)
    ensures
        r == row_full(row@),
{
    let mut x: usize = 0;
    while x < row.len()
        invariant
            x <= row.len(),
            forall|i: int| 0 <= i < x ==> #[trigger] row@[i],
        decreases row.len() - x,
    {
        if !row[x] {
            return false;
        }
        x = x + 1;
    }
    true
}

/// A copy of a row, cell for cell.
fn copy_row(row: &Vec<bool>) -> (r: Vec<bool>)
    ensures
        r@ == row@,
{
    let mut r: Vec<bool> = Vec::new();
    let mut x: usize = 0;
    while x < row.len()
        invariant
            x <= row.len(),
            r@ == row@.take(x as int),
        decreases row.len() - x,
    {
        r.push(row[x]);
        x = x + 1;
        assert(r@ =~= row@.take(x as int));
    }
    assert(row@.take(x as int) =~= row@);
    r
}

/// The kept rows are no more than the rows, and have their width.
pub proof fn lemma_kept_rows_width(rows: Seq<Seq<bool>>, w: nat)
    requires
        forall|y: int| 0 <= y < rows.len() ==> #[trigger] rows[y].len() == w,
    ensures
        kept_rows(rows).len() <= rows.len(),
        forall|i: int| 0 <= i < kept_rows(rows).len() ==> #[trigger] kept_rows(rows)[i].len() == w,
    decreases rows.len(),
{
    if rows.len() > 0 {
        lemma_kept_rows_width(rows.drop_last(), w);
    }
}

/// A row of `w` empty cells.
fn new_empty_row(w: usize) -> (r: Vec<bool>)
    ensures
        r@ == empty_row(w as nat),
{
    let mut r: Vec<bool> = Vec::new();
    let mut x: usize = 0;
    while x < w
        invariant
            x <= w,
            r@ == empty_row(x as nat),
        decreases w - x,
    {
        r.push(false);
        x = x + 1;
        assert(r@ =~= empty_row(x as nat));
    }
    r
}

} // verus!

verus! {

/// How many cells of `row` are occupied.
pub open spec fn row_count(row: Seq<bool>) -> nat
    decreases row.len(),
{
    if row.len() == 0 {
        0
    } else {
        row_count(row.drop_last()) + if row.last() {
            1nat
        } else {
            0nat
        }
    }
}

/// How many cells of `rows` are occupied.
pub open spec fn grid_count(rows: Seq<Seq<bool>>) -> nat
    decreases rows.len(),
{
    if rows.len() == 0 {
        0
    } else {
        grid_count(rows.drop_last()) + row_count(rows.last())
    }
}

/// `idx` picks rows of `big`, top to bottom, that make up `small`.
pub open spec fn picks(small: Seq<Seq<bool>>, big: Seq<Seq<bool>>, idx: Seq<int>) -> bool {
    &&& idx.len() == small.len()
    &&& forall|i: int| 0 <= i < idx.len() ==> 0 <= #[trigger] idx[i] < big.len() && small[i] == big[idx[i]]
    &&& forall|i: int, j: int| 0 <= i < j < idx.len() ==> #[trigger] idx[i] < #[trigger] idx[j]
}

proof fn lemma_row_count_full(row: Seq<bool>)
    requires
        row_full(row),
    ensures
        row_count(row) == row.len(),
    decreases row.len(),
{
    if row.len() > 0 {
        lemma_row_count_full(row.drop_last());
    }
}

proof fn lemma_row_count_empty(w: nat)
    ensures
        row_count(empty_row(w)) == 0,
    decreases w,
{
    if w > 0 {
        assert(empty_row(w).drop_last() =~= empty_row((w - 1) as nat));
        lemma_row_count_empty((w - 1) as nat);
    }
}

proof fn lemma_grid_count_empty(k: nat, w: nat)
    ensures
        grid_count(Seq::new(k, |_i: int| empty_row(w))) == 0,
    decreases k,
{
    if k > 0 {
        assert(Seq::new(k, |_i: int| empty_row(w)).drop_last() =~= Seq::new(
            (k - 1) as nat,
            |_i: int| empty_row(w),
        ));
        lemma_grid_count_empty((k - 1) as nat, w);
        lemma_row_count_empty(w);
    }
}

proof fn lemma_grid_count_append(a: Seq<Seq<bool>>, b: Seq<Seq<bool>>)
    ensures
        grid_count(a + b) == grid_count(a) + grid_count(b),
    decreases b.len(),
{
    if b.len() == 0 {
        assert(a + b =~= a);
    } else {
        assert((a + b).drop_last() =~= a + b.drop_last());
        lemma_grid_count_append(a, b.drop_last());
    }
}

/// Each full row removed takes its `w` occupied cells with it.
proof fn lemma_kept_rows_count(rows: Seq<Seq<bool>>, w: nat)
    requires
        forall|y: int| 0 <= y < rows.len() ==> #[trigger] rows[y].len() == w,
    ensures
        grid_count(kept_rows(rows)) + w * full_count(rows) == grid_count(rows),
    decreases rows.len(),
{
    if rows.len() > 0 {
        let rest = rows.drop_last();
        lemma_kept_rows_count(rest, w);
        lemma_kept_rows_width(rest, w);
        lemma_kept_rows_width(rows, w);
        let fc = full_count(rest);
        assert(grid_count(rows) == grid_count(rest) + row_count(rows.last()));
        if row_full(rows.last()) {
            lemma_row_count_full(rows.last());
            assert(full_count(rows) == fc + 1);
            assert(w * (fc + 1) == w * fc + w) by (nonlinear_arith);
        } else {
            let k = kept_rows(rest);
            assert(k.push(rows.last()).drop_last() =~= k);
            assert(grid_count(k.push(rows.last())) == grid_count(k) + row_count(rows.last()));
            assert(full_count(rows) == fc);
        }
    } else {
        assert(w * 0 == 0) by (nonlinear_arith);
    }
}

/// The rows that a clear keeps are rows of the grid, in their order.
proof fn lemma_kept_rows_order(rows: Seq<Seq<bool>>) -> (idx: Seq<int>)
    ensures
        picks(kept_rows(rows), rows, idx),
    decreases rows.len(),
{
    if rows.len() == 0 {
        Seq::empty()
    } else {
        let rest = rows.drop_last();
        let sub = lemma_kept_rows_order(rest);
        if row_full(rows.last()) {
            sub
        } else {
            let idx = sub.push(rows.len() - 1);
            assert forall|i: int| 0 <= i < idx.len() implies 0 <= #[trigger] idx[i] < rows.len()
                && kept_rows(rows)[i] == rows[idx[i]] by {
                if i < sub.len() {
                    assert(rest[sub[i]] == rows[sub[i]]);
                }
            }
            idx
        }
    }
}

/// Clearing an all-empty board of positive width removes nothing and
/// changes nothing.
pub proof fn lemma_clear_empty_board(w: nat, h: nat)
    requires
        w >= 1,
    ensures
        full_count(Seq::new(h, |_y: int| empty_row(w))) == 0,
        cleared(Seq::new(h, |_y: int| empty_row(w)), w) == Seq::new(h, |_y: int| empty_row(w)),
    decreases h,
{
    let rows = Seq::new(h, |_y: int| empty_row(w));
    if h > 0 {
        let rest = Seq::new((h - 1) as nat, |_y: int| empty_row(w));
        assert(rows.drop_last() =~= rest);
        lemma_clear_empty_board(w, (h - 1) as nat);
        assert(!rows.last()[0]);
        lemma_kept_rows_width(rest, w);
        assert(kept_rows(rest) =~= rest);
        assert(kept_rows(rows) =~= rows);
    }
    assert(kept_rows(rows) =~= rows);
    assert(cleared(rows, w) =~= rows);
}

/// Clearing a board of positive width whose one full row stands among empty
/// rows removes that row and leaves `h` empty rows.
pub proof fn lemma_clear_one_full_row(w: nat, h: nat, k: int)
    requires
        w >= 1,
        0 <= k < h,
    ensures
        full_count(Seq::new(h, |y: int| if y == k { Seq::new(w, |_x: int| true) } else { empty_row(w) })) == 1,
        cleared(Seq::new(h, |y: int| if y == k { Seq::new(w, |_x: int| true) } else { empty_row(w) }), w)
            == Seq::new(h, |_y: int| empty_row(w)),
{
    let rows = Seq::new(h, |y: int| if y == k { Seq::new(w, |_x: int| true) } else { empty_row(w) });
    lemma_kept_one_full_row(w, h, k);
    assert(kept_rows(rows).len() == h - 1);
    assert(cleared(rows, w) =~= Seq::new(h, |_y: int| empty_row(w)));
}

proof fn lemma_kept_one_full_row(w: nat, h: nat, k: int)
    requires
        w >= 1,
        h >= 0,
    ensures
        kept_rows(Seq::new(h, |y: int| if y == k { Seq::new(w, |_x: int| true) } else { empty_row(w) }))
            == Seq::new((if 0 <= k < h { h - 1 } else { h as int }) as nat, |_y: int| empty_row(w)),
    decreases h,
{
    let rows = Seq::new(h, |y: int| if y == k { Seq::new(w, |_x: int| true) } else { empty_row(w) });
    if h > 0 {
        let rest = Seq::new((h - 1) as nat, |y: int| if y == k { Seq::new(w, |_x: int| true) } else { empty_row(w) });
        assert(rows.drop_last() =~= rest);
        lemma_kept_one_full_row(w, (h - 1) as nat, k);
        if k == h - 1 {
            assert(row_full(rows.last()));
            assert(kept_rows(rows) =~= Seq::new((h - 1) as nat, |_y: int| empty_row(w)));
        } else {
            assert(!rows.last()[0]);
            assert(kept_rows(rows) =~= Seq::new((if 0 <= k < h { h - 1 } else { h as int }) as nat, |_y: int| empty_row(w)));
        }
    } else {
        assert(kept_rows(rows) =~= Seq::new(0, |_y: int| empty_row(w)));
    }
}

/// Locking cells and then clearing rows: the board keeps its height, the
/// occupied cells that remain are those of the locked board less a full
/// width for each cleared row (so never more), and the rows that remain at
/// the bottom are the locked board's non-full rows in their order.
pub proof fn lemma_lock_then_clear(rows: Seq<Seq<bool>>, w: nat, h: nat, cells: Seq<(i64, i64)>)
    requires
        is_grid(rows, w as int, h as int),
    ensures
        ({
            let l = locked(rows, w, h, cells);
            let c = cleared(l, w);
            &&& c.len() == h
            &&& grid_count(c) + w * full_count(l) == grid_count(l)
            &&& grid_count(c) <= grid_count(l)
            &&& c.subrange(full_count(l) as int, h as int) == kept_rows(l)
            &&& exists|idx: Seq<int>| picks(kept_rows(l), l, idx)
        }),
{
    let l = locked(rows, w, h, cells);
    let c = cleared(l, w);
    assert(is_grid(l, w as int, h as int));
    lemma_kept_rows_width(l, w);
    lemma_kept_rows_count(l, w);
    let top = Seq::new(full_count(l), |_i: int| empty_row(w));
    lemma_grid_count_empty(full_count(l), w);
    lemma_grid_count_append(top, kept_rows(l));
    assert(c.subrange(full_count(l) as int, h as int) =~= kept_rows(l));
    let idx = lemma_kept_rows_order(l);
    assert(picks(kept_rows(l), l, idx));
}

} // verus!
