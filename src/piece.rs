//! The seven piece kinds, their canonical masks, and quarter-turn rotation.
use vstd::prelude::*;

verus! {

/// The largest number of rows or columns of a piece mask.
pub const MAX_MASK_SIDE: usize = 4;

#[derive(Clone, Copy, Debug, PartialEq, Eq, Structural)]
pub enum PieceKind {
    I,
    O,
    T,
    S,
    Z,
    J,
    L,
}

/// A mask as rows of cells, each `true` where the piece occupies the cell.
pub open spec fn mask_of(v: Seq<Vec<bool>>) -> Seq<Seq<bool>> {
    v.map_values(|row: Vec<bool>| row@)
}

/// `m` has `rows` rows of `cols` cells each.
pub open spec fn is_rect(m: Seq<Seq<bool>>, rows: int, cols: int) -> bool {
    &&& m.len() == rows
    &&& forall|r: int| 0 <= r < rows ==> #[trigger] m[r].len() == cols
}

/// A mask that a falling piece can have: rectangular, non-empty, small.
pub open spec fn mask_wf(m: Seq<Seq<bool>>) -> bool {
    &&& 1 <= m.len() <= MAX_MASK_SIDE
    &&& 1 <= m[0].len() <= MAX_MASK_SIDE
    &&& is_rect(m, m.len() as int, m[0].len() as int)
}

/// The canonical (spawn) orientation of each kind.
pub open spec fn kind_mask(kind: PieceKind) -> Seq<Seq<bool>> {
    match kind {
        PieceKind::I => seq![seq![true, true, true, true]],
        PieceKind::O => seq![seq![true, true], seq![true, true]],
        PieceKind::T => seq![seq![false, true, false], seq![true, true, true]],
        PieceKind::S => seq![seq![false, true, true], seq![true, true, false]],
        PieceKind::Z => seq![seq![true, true, false], seq![false, true, true]],
        PieceKind::J => seq![seq![true, false, false], seq![true, true, true]],
        PieceKind::L => seq![seq![false, false, true], seq![true, true, true]],
    }
}

/// The kind that a draw from `0..7` selects; anything past the range picks `L`.
pub open spec fn kind_of_index(i: int) -> PieceKind {
    if i == 0 {
        PieceKind::I
    } else if i == 1 {
        PieceKind::O
    } else if i == 2 {
        PieceKind::T
    } else if i == 3 {
        PieceKind::S
    } else if i == 4 {
        PieceKind::Z
    } else if i == 5 {
        PieceKind::J
    } else {
        PieceKind::L
    }
}

/// A quarter turn clockwise: row `i` of the result is column `i` of `m`
/// read from the bottom row up.
pub open spec fn rotated(m: Seq<Seq<bool>>) -> Seq<Seq<bool>> {
    let rows = m.len() as int;
    let cols = m[0].len() as int;
    Seq::new(cols as nat, |i: int| Seq::new(rows as nat, |j: int| m[rows - 1 - j][i]))
}

pub proof fn lemma_kind_mask_wf(kind: PieceKind)
    ensures
        mask_wf(kind_mask(kind)),
{
}

/// Rotation keeps a mask well formed, with rows and columns exchanged.
pub proof fn lemma_rotated_wf(m: Seq<Seq<bool>>)
    requires
        mask_wf(m),
    ensures
        mask_wf(rotated(m)),
        is_rect(rotated(m), m[0].len() as int, m.len() as int),
{
}

/// The rows of a well-formed mask, read off the vectors that hold it.
pub proof fn lemma_mask_rows(v: Seq<Vec<bool>>)
    requires
        mask_wf(mask_of(v)),
    ensures
        1 <= v.len() <= MAX_MASK_SIDE,
        forall|i: int| 0 <= i < v.len() ==> #[trigger] v[i].len() == v[0].len(),
        1 <= v[0].len() <= MAX_MASK_SIDE,
{
    assert forall|i: int| 0 <= i < v.len() implies #[trigger] v[i].len() == v[0].len() by {
        assert(mask_of(v)[i] == v[i]@);
    }
    assert(mask_of(v)[0] == v[0]@);
}

/// Four quarter turns give back the mask that was turned, cell for cell.
pub proof fn lemma_rotate_four_times(m: Seq<Seq<bool>>)
    requires
        m.len() >= 1,
        m[0].len() >= 1,
        is_rect(m, m.len() as int, m[0].len() as int),
    ensures
        rotated(rotated(rotated(rotated(m)))) == m,
{
    let rows = m.len() as int;
    let cols = m[0].len() as int;
    let r1 = rotated(m);
    assert(is_rect(r1, cols, rows));
    let r2 = rotated(r1);
    assert(is_rect(r2, rows, cols));
    assert forall|i: int, j: int| 0 <= i < rows && 0 <= j < cols implies #[trigger] r2[i][j]
        == m[rows - 1 - i][cols - 1 - j] by {
        assert(r2[i][j] == r1[cols - 1 - j][i]);
    }
    let r3 = rotated(r2);
    assert(is_rect(r3, cols, rows));
    let r4 = rotated(r3);
    assert(is_rect(r4, rows, cols));
    assert forall|i: int, j: int| 0 <= i < rows && 0 <= j < cols implies #[trigger] r4[i][j]
        == m[i][j] by {
        assert(r4[i][j] == r3[cols - 1 - j][i]);
        assert(r3[cols - 1 - j][i] == r2[rows - 1 - i][cols - 1 - j]);
    }
    assert forall|i: int| 0 <= i < rows implies #[trigger] r4[i] == m[i] by {
        assert(r4[i] =~= m[i]);
    }
    assert(r4 =~= m);
}

/// The kind that a draw in `0..7` stands for.
pub fn kind_from_index(i: u8) -> (k: PieceKind)
    ensures
        k == kind_of_index(i as int),
{
    match i {
        0 => PieceKind::I,
        1 => PieceKind::O,
        2 => PieceKind::T,
        3 => PieceKind::S,
        4 => PieceKind::Z,
        5 => PieceKind::J,
        _ => PieceKind::L,
    }
}

/// The canonical mask of a kind, as the piece has it when it spawns.
pub fn canonical_mask(kind: PieceKind) -> (r: Vec<Vec<bool>>)
    ensures
        mask_of(r@) == kind_mask(kind),
{
    let r = match kind {
        PieceKind::I => vec![vec![true, true, true, true]],
        PieceKind::O => vec![vec![true, true], vec![true, true]],
        PieceKind::T => vec![vec![false, true, false], vec![true, true, true]],
        PieceKind::S => vec![vec![false, true, true], vec![true, true, false]],
        PieceKind::Z => vec![vec![true, true, false], vec![false, true, true]],
        PieceKind::J => vec![vec![true, false, false], vec![true, true, true]],
        PieceKind::L => vec![vec![false, false, true], vec![true, true, true]],
    };
    assert(mask_of(r@) =~~= kind_mask(kind));
    r
}

/// The mask turned a quarter clockwise (transpose, then reverse each row).
pub fn rotate_shape(shape: &Vec<Vec<bool>>) -> (r: Vec<Vec<bool>>)
    requires
        shape.len() >= 1,
        is_rect(mask_of(shape@), shape.len() as int, shape[0].len() as int),
    ensures
        mask_of(r@) == rotated(mask_of(shape@)),
{
    let ghost m = mask_of(shape@);
    let rows = shape.len();
    let cols = shape[0].len();
    let mut out: Vec<Vec<bool>> = Vec::new();
    let mut i: usize = 0;
    while i < cols
        invariant
            m == mask_of(shape@),
            rows == shape.len(),
            rows >= 1,
            cols == m[0].len(),
            is_rect(m, rows as int, cols as int),
            i <= cols,
            out.len() == i,
            forall|k: int| 0 <= k < i ==> #[trigger] out[k]@ == rotated(m)[k],
        decreases cols - i,
    {
        let mut row: Vec<bool> = Vec::new();
        let mut j: usize = 0;
        while j < rows
            invariant
                m == mask_of(shape@),
                rows == shape.len(),
                is_rect(m, rows as int, cols as int),
                i < cols,
                j <= rows,
                row@ == rotated(m)[i as int].take(j as int),
            decreases rows - j,
        {
            assert(m[rows - 1 - j] == shape[rows - 1 - j]@);
            row.push(shape[rows - 1 - j][i]);
            j = j + 1;
            assert(row@ =~= rotated(m)[i as int].take(j as int));
        }
        assert(row@ =~= rotated(m)[i as int]);
        out.push(row);
        i = i + 1;
    }
    assert(mask_of(out@) =~= rotated(m));
    out
}

} // verus!
