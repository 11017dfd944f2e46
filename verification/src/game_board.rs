//! The 4x4 board engine: the line merge rule, moves in the four
//! directions, scoring, and terminal-state detection.

use vstd::prelude::*;

verus! {

/// A board movement. Sentinel inputs ("no input", "quit") are kept out of
/// this type on purpose: every `Direction` value is a real move.
#[derive(Clone, Copy, Debug, PartialEq, Eq, Structural)]
pub enum Direction {
    Up,
    Down,
    Left,
    Right,
}

impl Direction {
    /// The move that undoes this one's orientation.
    pub fn opposite(&self) -> (r: Self)
        ensures
            r == (match *self {
                Direction::Up => Direction::Down,
                Direction::Down => Direction::Up,
                Direction::Left => Direction::Right,
                Direction::Right => Direction::Left,
            }),
    {
        match self {
            Direction::Up => Direction::Down,
            Direction::Down => Direction::Up,
            Direction::Left => Direction::Right,
            Direction::Right => Direction::Left,
        }
    }
}

/// The rows of a vector of rows, as a sequence of sequences.
pub open spec fn rows_view(v: Seq<Vec<u32>>) -> Seq<Seq<u32>> {
    v.map_values(|r: Vec<u32>| r@)
}

/// The board is well shaped: four rows of four cells.
pub open spec fn board_wf(t: Seq<Seq<u32>>) -> bool {
    &&& t.len() == 4
    &&& forall|i: int| 0 <= i < 4 ==> (#[trigger] t[i]).len() == 4
}

/// The sum of the values on one line.
pub open spec fn line_sum(s: Seq<u32>) -> int
    decreases s.len(),
{
    if s.len() == 0 {
        0
    } else {
        s[0] + line_sum(s.skip(1))
    }
}

/// The sum of all values on the board.
pub open spec fn board_sum(t: Seq<Seq<u32>>) -> int
    decreases t.len(),
{
    if t.len() == 0 {
        0
    } else {
        line_sum(t[0]) + board_sum(t.skip(1))
    }
}

/// The largest value on one line.
pub open spec fn line_max(s: Seq<u32>) -> u32
    decreases s.len(),
{
    if s.len() == 0 {
        0
    } else if s[0] >= line_max(s.skip(1)) {
        s[0]
    } else {
        line_max(s.skip(1))
    }
}

/// The largest value on the board.
pub open spec fn board_max(t: Seq<Seq<u32>>) -> u32
    decreases t.len(),
{
    if t.len() == 0 {
        0
    } else if line_max(t[0]) >= board_max(t.skip(1)) {
        line_max(t[0])
    } else {
        board_max(t.skip(1))
    }
}

/// Whether some cell of the board is empty.
pub open spec fn has_empty(t: Seq<Seq<u32>>) -> bool {
    exists|i: int, j: int| 0 <= i < t.len() && 0 <= j < t[i].len() && t[i][j] == 0
}

/// The non-zero values of a line, in order.
pub open spec fn nonzeros(s: Seq<u32>) -> Seq<u32>
    decreases s.len(),
{
    if s.len() == 0 {
        Seq::empty()
    } else if s[0] != 0 {
        seq![s[0]] + nonzeros(s.skip(1))
    } else {
        nonzeros(s.skip(1))
    }
}

/// One merging pass over a compacted line: each leading pair of equal
/// values becomes one doubled value, and a freshly merged value takes no
/// further part in the pass.
pub open spec fn merge_pairs(s: Seq<u32>) -> Seq<u32>
    decreases s.len(),
{
    if s.len() == 0 {
        Seq::empty()
    } else if s.len() >= 2 && s[0] == s[1] {
        seq![(s[0] + s[1]) as u32] + merge_pairs(s.skip(2))
    } else {
        seq![s[0]] + merge_pairs(s.skip(1))
    }
}

/// A run of `n` empty cells.
pub open spec fn zero_seq(n: nat) -> Seq<u32> {
    Seq::new(n, |i: int| 0u32)
}

/// The canonical leftward reduction of one line: compact the non-zero
/// values toward the leading edge, merge equal neighbours once, and pad
/// the tail with empty cells.
pub open spec fn merge_line(s: Seq<u32>) -> Seq<u32> {
    let m = merge_pairs(nonzeros(s));
    if m.len() <= s.len() {
        m + zero_seq((s.len() - m.len()) as nat)
    } else {
        m
    }
}

/// A line read from its far end.
pub open spec fn reverse_spec(s: Seq<u32>) -> Seq<u32> {
    Seq::new(s.len(), |i: int| s[s.len() - 1 - i])
}

/// Column `j` of the board, read top to bottom.
pub open spec fn col_spec(t: Seq<Seq<u32>>, j: int) -> Seq<u32> {
    Seq::new(4, |i: int| t[i][j])
}

/// The board after one move: every line oriented along the direction is
/// reduced toward that direction's leading edge by `merge_line`.
pub open spec fn spec_move(t: Seq<Seq<u32>>, d: Direction) -> Seq<Seq<u32>> {
    match d {
        Direction::Left => Seq::new(4, |i: int| merge_line(t[i])),
        Direction::Right => Seq::new(4, |i: int| reverse_spec(merge_line(reverse_spec(t[i])))),
        Direction::Up => Seq::new(4, |i: int| Seq::new(4, |j: int| merge_line(col_spec(t, j))[i])),
        Direction::Down => Seq::new(
            4,
            |i: int| Seq::new(4, |j: int| reverse_spec(merge_line(reverse_spec(col_spec(t, j))))[i]),
        ),
    }
}

/// How a spawn may change the board: on a board with an empty cell,
/// exactly one empty cell now holds a 2 or a 4; a full board is unchanged.
pub open spec fn spawn_rel(t0: Seq<Seq<u32>>, t1: Seq<Seq<u32>>) -> bool {
    if has_empty(t0) {
        exists|i: int, j: int, v: u32|
            0 <= i < 4 && 0 <= j < 4 && (v == 2 || v == 4) && t0[i][j] == 0 && t1 == t0.update(
                i,
                t0[i].update(j, v),
            )
    } else {
        t1 == t0
    }
}

/// The game is over: either some cell reached 2048, or the board is full
/// and no direction changes it.
pub open spec fn spec_game_over(t: Seq<Seq<u32>>) -> bool {
    ||| board_max(t) >= 2048
    ||| (!has_empty(t) && spec_move(t, Direction::Up) == t && spec_move(t, Direction::Down) == t
        && spec_move(t, Direction::Left) == t && spec_move(t, Direction::Right) == t)
}

// ------------------------------------------------------------------
// Facts about line sums.
// ------------------------------------------------------------------

/// A line's sum is never negative: every cell is unsigned.
pub proof fn lemma_line_sum_nonneg(s: Seq<u32>)
    ensures
        line_sum(s) >= 0,
    decreases s.len(),
{
    if s.len() > 0 {
        lemma_line_sum_nonneg(s.skip(1));
    }
}

pub proof fn lemma_line_sum_append(a: Seq<u32>, b: Seq<u32>)
    ensures
        line_sum(a + b) == line_sum(a) + line_sum(b),
    decreases a.len(),
{
    if a.len() == 0 {
        assert(a + b =~= b);
    } else {
        assert((a + b).skip(1) =~= a.skip(1) + b);
        lemma_line_sum_append(a.skip(1), b);
    }
}

proof fn lemma_line_sum_drop_last(s: Seq<u32>)
    requires
        s.len() > 0,
    ensures
        line_sum(s) == line_sum(s.drop_last()) + s.last(),
{
    assert(s =~= s.drop_last() + seq![s.last()]);
    lemma_line_sum_append(s.drop_last(), seq![s.last()]);
    assert(line_sum(seq![s.last()]) == s.last() + line_sum(seq![s.last()].skip(1)));
    assert(seq![s.last()].skip(1) =~= Seq::<u32>::empty());
}

pub proof fn lemma_line_sum_update(s: Seq<u32>, j: int, v: u32)
    requires
        0 <= j < s.len(),
    ensures
        line_sum(s.update(j, v)) == line_sum(s) - s[j] + v,
    decreases s.len(),
{
    if j == 0 {
        assert(s.update(0, v).skip(1) =~= s.skip(1));
    } else {
        assert(s.update(j, v).skip(1) =~= s.skip(1).update(j - 1, v));
        lemma_line_sum_update(s.skip(1), j - 1, v);
    }
}

pub proof fn lemma_line_sum_reverse(s: Seq<u32>)
    ensures
        line_sum(reverse_spec(s)) == line_sum(s),
    decreases s.len(),
{
    if s.len() == 0 {
        assert(reverse_spec(s) =~= Seq::<u32>::empty());
    } else {
        assert(reverse_spec(s).skip(1) =~= reverse_spec(s.drop_last()));
        lemma_line_sum_reverse(s.drop_last());
        lemma_line_sum_drop_last(s);
    }
}

proof fn lemma_nonzeros_sum(s: Seq<u32>)
    ensures
        line_sum(nonzeros(s)) == line_sum(s),
    decreases s.len(),
{
    if s.len() > 0 {
        lemma_nonzeros_sum(s.skip(1));
        if s[0] != 0 {
            lemma_line_sum_append(seq![s[0]], nonzeros(s.skip(1)));
            assert(line_sum(seq![s[0]]) == s[0] + line_sum(seq![s[0]].skip(1)));
            assert(seq![s[0]].skip(1) =~= Seq::<u32>::empty());
        }
    }
}

proof fn lemma_nonzeros_len(s: Seq<u32>)
    ensures
        nonzeros(s).len() <= s.len(),
    decreases s.len(),
{
    if s.len() > 0 {
        lemma_nonzeros_len(s.skip(1));
    }
}

proof fn lemma_merge_pairs_len(s: Seq<u32>)
    ensures
        merge_pairs(s).len() <= s.len(),
    decreases s.len(),
{
    if s.len() >= 2 && s[0] == s[1] {
        lemma_merge_pairs_len(s.skip(2));
    } else if s.len() >= 1 {
        lemma_merge_pairs_len(s.skip(1));
    }
}

proof fn lemma_merge_pairs_sum(s: Seq<u32>)
    requires
        line_sum(s) <= u32::MAX,
    ensures
        line_sum(merge_pairs(s)) == line_sum(s),
    decreases s.len(),
{
    if s.len() >= 2 && s[0] == s[1] {
        assert(s.skip(1).skip(1) =~= s.skip(2));
        lemma_line_sum_nonneg(s.skip(2));
        assert(line_sum(s) == s[0] + line_sum(s.skip(1)));
        assert(line_sum(s.skip(1)) == s.skip(1)[0] + line_sum(s.skip(1).skip(1)));
        assert(line_sum(s) == s[0] + (s[1] + line_sum(s.skip(2))));
        lemma_merge_pairs_sum(s.skip(2));
        lemma_line_sum_append(seq![(s[0] + s[1]) as u32], merge_pairs(s.skip(2)));
        assert(line_sum(seq![(s[0] + s[1]) as u32]) == (s[0] + s[1]) as u32 + line_sum(
            seq![(s[0] + s[1]) as u32].skip(1),
        ));
        assert(seq![(s[0] + s[1]) as u32].skip(1) =~= Seq::<u32>::empty());
    } else if s.len() >= 1 {
        lemma_line_sum_nonneg(s.skip(1));
        lemma_merge_pairs_sum(s.skip(1));
        lemma_line_sum_append(seq![s[0]], merge_pairs(s.skip(1)));
        assert(line_sum(seq![s[0]]) == s[0] + line_sum(seq![s[0]].skip(1)));
        assert(seq![s[0]].skip(1) =~= Seq::<u32>::empty());
    }
}

proof fn lemma_zero_seq_sum(n: nat)
    ensures
        line_sum(zero_seq(n)) == 0,
    decreases n,
{
    if n > 0 {
        assert(zero_seq(n).skip(1) =~= zero_seq((n - 1) as nat));
        lemma_zero_seq_sum((n - 1) as nat);
    }
}

/// The length of a reduced line equals the length of its input.
pub proof fn lemma_merge_line_len(s: Seq<u32>)
    ensures
        merge_line(s).len() == s.len(),
{
    lemma_nonzeros_len(s);
    lemma_merge_pairs_len(nonzeros(s));
}

/// Reducing one line never creates or destroys value.
pub proof fn lemma_merge_line_sum(s: Seq<u32>)
    requires
        line_sum(s) <= u32::MAX,
    ensures
        line_sum(merge_line(s)) == line_sum(s),
{
    lemma_nonzeros_sum(s);
    lemma_nonzeros_len(s);
    lemma_merge_pairs_len(nonzeros(s));
    lemma_merge_pairs_sum(nonzeros(s));
    let m = merge_pairs(nonzeros(s));
    lemma_line_sum_append(m, zero_seq((s.len() - m.len()) as nat));
    lemma_zero_seq_sum((s.len() - m.len()) as nat);
}

// ------------------------------------------------------------------
// The executable reduction of one line.
// ------------------------------------------------------------------

/// The canonical leftward reduction, executable form.
fn merge_row(line: &Vec<u32>) -> (r: Vec<u32>)
    requires
        line_sum(line@) <= u32::MAX,
    ensures
        r@ == merge_line(line@),
{
    let n = line.len();
    let mut kept: Vec<u32> = Vec::new();
    let mut i: usize = 0;
    proof {
        assert(line@.skip(0) =~= line@);
        assert(kept@ + nonzeros(line@) =~= nonzeros(line@));
    }
    while i < n
        invariant
            i <= n,
            n == line@.len(),
            nonzeros(line@) == kept@ + nonzeros(line@.skip(i as int)),
        decreases n - i,
    {
        proof {
            assert(line@.skip(i as int)[0] == line@[i as int]);
            assert(line@.skip(i as int).skip(1) =~= line@.skip(i as int + 1));
        }
        if line[i] != 0 {
            kept.push(line[i]);
            proof {
                assert(kept@ + nonzeros(line@.skip(i as int + 1)) =~= kept@.drop_last() + nonzeros(
                    line@.skip(i as int),
                ));
            }
        }
        i = i + 1;
    }
    proof {
        assert(line@.skip(n as int) =~= Seq::<u32>::empty());
        assert(kept@ =~= nonzeros(line@));
        lemma_nonzeros_sum(line@);
        lemma_nonzeros_len(line@);
    }
    let m = kept.len();
    let mut out: Vec<u32> = Vec::new();
    let mut i: usize = 0;
    proof {
        assert(kept@.skip(0) =~= kept@);
        assert(out@ + merge_pairs(kept@) =~= merge_pairs(kept@));
    }
    while i < m
        invariant
            i <= m,
            m == kept@.len(),
            line_sum(kept@) <= u32::MAX,
            merge_pairs(kept@) == out@ + merge_pairs(kept@.skip(i as int)),
            line_sum(kept@.skip(i as int)) <= u32::MAX,
            out@.len() <= i,
        decreases m - i,
    {
        proof {
            let rem = kept@.skip(i as int);
            assert(rem[0] == kept@[i as int]);
            assert(rem.skip(1) =~= kept@.skip(i as int + 1));
            assert(line_sum(rem) == rem[0] + line_sum(rem.skip(1)));
            lemma_line_sum_nonneg(rem.skip(1));
        }
        if i + 1 < m && kept[i] == kept[i + 1] {
            proof {
                let rem = kept@.skip(i as int);
                assert(rem.skip(1)[0] == kept@[i as int + 1]);
                assert(rem.skip(1).skip(1) =~= kept@.skip(i as int + 2));
                assert(line_sum(rem.skip(1)) == rem.skip(1)[0] + line_sum(rem.skip(1).skip(1)));
                lemma_line_sum_nonneg(kept@.skip(i as int + 2));
                assert(rem.skip(2) =~= kept@.skip(i as int + 2));
            }
            out.push(kept[i] + kept[i + 1]);
            proof {
                let rem = kept@.skip(i as int);
                assert(merge_pairs(rem) == seq![(rem[0] + rem[1]) as u32] + merge_pairs(
                    rem.skip(2),
                ));
                assert(out@ + merge_pairs(kept@.skip(i as int + 2)) =~= out@.drop_last()
                    + merge_pairs(rem));
            }
            i = i + 2;
        } else {
            out.push(kept[i]);
            proof {
                let rem = kept@.skip(i as int);
                assert(merge_pairs(rem) == seq![rem[0]] + merge_pairs(rem.skip(1)));
                assert(out@ + merge_pairs(kept@.skip(i as int + 1)) =~= out@.drop_last()
                    + merge_pairs(rem));
            }
            i = i + 1;
        }
    }
    proof {
        assert(kept@.skip(m as int) =~= Seq::<u32>::empty());
        assert(out@ =~= merge_pairs(nonzeros(line@)));
        lemma_merge_pairs_len(kept@);
        assert(out@ =~= out@ + zero_seq(0));
    }
    while out.len() < n
        invariant
            n == line@.len(),
            merge_pairs(nonzeros(line@)).len() <= out@.len() <= n,
            out@ == merge_pairs(nonzeros(line@)) + zero_seq(
                (out@.len() - merge_pairs(nonzeros(line@)).len()) as nat,
            ),
        decreases n - out.len(),
    {
        out.push(0);
        proof {
            let mp = merge_pairs(nonzeros(line@));
            assert(out@ =~= mp + zero_seq((out@.len() - mp.len()) as nat));
        }
    }
    proof {
        assert(out@ =~= merge_line(line@));
    }
    out
}

// ------------------------------------------------------------------
// Sums of a four-by-four board, row-wise and column-wise.
// ------------------------------------------------------------------

pub proof fn lemma_line_sum4(s: Seq<u32>)
    requires
        s.len() == 4,
    ensures
        line_sum(s) == s[0] + s[1] + s[2] + s[3],
{
    assert(s.skip(1)[0] == s[1] && s.skip(1).skip(1) =~= s.skip(2));
    assert(s.skip(2)[0] == s[2] && s.skip(2).skip(1) =~= s.skip(3));
    assert(s.skip(3)[0] == s[3] && s.skip(3).skip(1) =~= s.skip(4));
    assert(s.skip(4) =~= Seq::<u32>::empty());
    assert(line_sum(s.skip(4)) == 0);
    assert(line_sum(s.skip(3)) == s[3] + line_sum(s.skip(4)));
    assert(line_sum(s.skip(2)) == s[2] + line_sum(s.skip(3)));
    assert(line_sum(s.skip(1)) == s[1] + line_sum(s.skip(2)));
}

pub proof fn lemma_board_sum4(t: Seq<Seq<u32>>)
    requires
        t.len() == 4,
    ensures
        board_sum(t) == line_sum(t[0]) + line_sum(t[1]) + line_sum(t[2]) + line_sum(t[3]),
{
    assert(t.skip(1)[0] == t[1] && t.skip(1).skip(1) =~= t.skip(2));
    assert(t.skip(2)[0] == t[2] && t.skip(2).skip(1) =~= t.skip(3));
    assert(t.skip(3)[0] == t[3] && t.skip(3).skip(1) =~= t.skip(4));
    assert(t.skip(4) =~= Seq::<Seq<u32>>::empty());
    assert(board_sum(t.skip(4)) == 0);
    assert(board_sum(t.skip(3)) == line_sum(t[3]) + board_sum(t.skip(4)));
    assert(board_sum(t.skip(2)) == line_sum(t[2]) + board_sum(t.skip(3)));
    assert(board_sum(t.skip(1)) == line_sum(t[1]) + board_sum(t.skip(2)));
}

/// On a well-shaped board, every row's sum is bounded by the board's sum.
pub proof fn lemma_row_sum_le_board(t: Seq<Seq<u32>>, i: int)
    requires
        board_wf(t),
        0 <= i < 4,
    ensures
        line_sum(t[i]) <= board_sum(t),
        line_sum(t[i]) >= 0,
{
    lemma_board_sum4(t);
    lemma_line_sum_nonneg(t[0]);
    lemma_line_sum_nonneg(t[1]);
    lemma_line_sum_nonneg(t[2]);
    lemma_line_sum_nonneg(t[3]);
}

/// On a well-shaped board, every column's sum is bounded by the board's sum.
proof fn lemma_col_sum_le_board(t: Seq<Seq<u32>>, j: int)
    requires
        board_wf(t),
        0 <= j < 4,
    ensures
        line_sum(col_spec(t, j)) <= board_sum(t),
        line_sum(col_spec(t, j)) >= 0,
{
    lemma_board_sum4(t);
    lemma_line_sum4(col_spec(t, j));
    lemma_line_sum4(t[0]);
    lemma_line_sum4(t[1]);
    lemma_line_sum4(t[2]);
    lemma_line_sum4(t[3]);
}

// ------------------------------------------------------------------
// Executable helpers on tile matrices.
// ------------------------------------------------------------------

/// A fresh copy of row `i`.
pub(crate) fn copy_row(t: &Vec<Vec<u32>>, i: usize) -> (r: Vec<u32>)
    requires
        i < t@.len(),
    ensures
        r@ == t@[i as int]@,
{
    let row = &t[i];
    let n = row.len();
    let mut r: Vec<u32> = Vec::new();
    let mut j: usize = 0;
    while j < n
        invariant
            j <= n,
            n == row@.len(),
            r@ =~= row@.take(j as int),
        decreases n - j,
    {
        r.push(row[j]);
        j = j + 1;
    }
    proof {
        assert(r@ =~= row@);
    }
    r
}

/// A fresh copy of the whole matrix.
pub(crate) fn copy_tiles(t: &Vec<Vec<u32>>) -> (r: Vec<Vec<u32>>)
    ensures
        rows_view(r@) == rows_view(t@),
{
    let n = t.len();
    let mut r: Vec<Vec<u32>> = Vec::new();
    let mut i: usize = 0;
    while i < n
        invariant
            i <= n,
            n == t@.len(),
            r@.len() == i,
            forall|k: int| 0 <= k < i ==> #[trigger] r@[k]@ == t@[k]@,
        decreases n - i,
    {
        let row = copy_row(t, i);
        r.push(row);
        i = i + 1;
    }
    proof {
        assert(rows_view(r@) =~= rows_view(t@));
    }
    r
}

/// The line read from its far end.
pub(crate) fn reverse_row(v: &Vec<u32>) -> (r: Vec<u32>)
    ensures
        r@ == reverse_spec(v@),
{
    let n = v.len();
    let mut r: Vec<u32> = Vec::new();
    let mut i: usize = 0;
    while i < n
        invariant
            i <= n,
            n == v@.len(),
            r@.len() == i,
            forall|k: int| 0 <= k < i ==> #[trigger] r@[k] == v@[n - 1 - k],
        decreases n - i,
    {
        r.push(v[n - 1 - i]);
        i = i + 1;
    }
    proof {
        assert(r@ =~= reverse_spec(v@));
    }
    r
}

/// Column `j` of the matrix, top to bottom.
fn extract_col(t: &Vec<Vec<u32>>, j: usize) -> (r: Vec<u32>)
    requires
        board_wf(rows_view(t@)),
        j < 4,
    ensures
        r@ == col_spec(rows_view(t@), j as int),
{
    let mut r: Vec<u32> = Vec::new();
    let mut i: usize = 0;
    while i < 4
        invariant
            i <= 4,
            board_wf(rows_view(t@)),
            j < 4,
            r@.len() == i,
            forall|k: int| 0 <= k < i ==> #[trigger] r@[k] == rows_view(t@)[k][j as int],
        decreases 4 - i,
    {
        proof {
            assert(rows_view(t@)[i as int] == t@[i as int]@);
            assert(rows_view(t@)[i as int].len() == 4);
        }
        r.push(t[i][j]);
        i = i + 1;
    }
    proof {
        assert(r@ =~= col_spec(rows_view(t@), j as int));
    }
    r
}

/// A four-by-four matrix of empty cells.
fn zero_tiles() -> (r: Vec<Vec<u32>>)
    ensures
        board_wf(rows_view(r@)),
        forall|i: int, j: int| 0 <= i < 4 && 0 <= j < 4 ==> #[trigger] rows_view(r@)[i][j] == 0,
{
    let mut tiles: Vec<Vec<u32>> = Vec::new();
    let mut i: usize = 0;
    while i < 4
        invariant
            i <= 4,
            tiles@.len() == i,
            forall|k: int| 0 <= k < i ==> (#[trigger] tiles@[k])@.len() == 4,
            forall|k: int, j: int| 0 <= k < i && 0 <= j < 4 ==> #[trigger] tiles@[k]@[j] == 0,
        decreases 4 - i,
    {
        let mut row: Vec<u32> = Vec::new();
        let mut j: usize = 0;
        while j < 4
            invariant
                j <= 4,
                row@.len() == j,
                forall|k: int| 0 <= k < j ==> row@[k] == 0,
            decreases 4 - j,
        {
            row.push(0);
            j = j + 1;
        }
        tiles.push(row);
        i = i + 1;
    }
    tiles
}

/// Whether two well-shaped matrices hold the same values everywhere.
fn tiles_eq(a: &Vec<Vec<u32>>, b: &Vec<Vec<u32>>) -> (r: bool)
    requires
        board_wf(rows_view(a@)),
        board_wf(rows_view(b@)),
    ensures
        r == (rows_view(a@) == rows_view(b@)),
{
    let mut i: usize = 0;
    while i < 4
        invariant
            i <= 4,
            board_wf(rows_view(a@)),
            board_wf(rows_view(b@)),
            forall|k: int, l: int| 0 <= k < i && 0 <= l < 4 ==> #[trigger] rows_view(a@)[k][l]
                == rows_view(b@)[k][l],
        decreases 4 - i,
    {
        let mut j: usize = 0;
        while j < 4
            invariant
                i < 4,
                j <= 4,
                board_wf(rows_view(a@)),
                board_wf(rows_view(b@)),
                forall|l: int| 0 <= l < j ==> #[trigger] rows_view(a@)[i as int][l] == rows_view(
                    b@,
                )[i as int][l],
            decreases 4 - j,
        {
            proof {
                assert(rows_view(a@)[i as int] == a@[i as int]@);
                assert(rows_view(b@)[i as int] == b@[i as int]@);
                assert(rows_view(a@)[i as int].len() == 4);
                assert(rows_view(b@)[i as int].len() == 4);
            }
            if a[i][j] != b[i][j] {
                proof {
                    assert(rows_view(a@)[i as int][j as int] != rows_view(b@)[i as int][j as int]);
                }
                return false;
            }
            j = j + 1;
        }
        i = i + 1;
    }
    proof {
        assert forall|k: int| 0 <= k < 4 implies #[trigger] rows_view(a@)[k] == rows_view(b@)[k] by {
            assert(rows_view(a@)[k] =~= rows_view(b@)[k]);
        }
        assert(rows_view(a@) =~= rows_view(b@));
    }
    true
}

/// A move keeps the board well shaped.
pub proof fn lemma_spec_move_wf(t: Seq<Seq<u32>>, d: Direction)
    requires
        board_wf(t),
    ensures
        board_wf(spec_move(t, d)),
{
    match d {
        Direction::Left => {
            assert forall|i: int| 0 <= i < 4 implies (#[trigger] spec_move(t, d)[i]).len() == 4 by {
                lemma_merge_line_len(t[i]);
            }
        },
        Direction::Right => {
            assert forall|i: int| 0 <= i < 4 implies (#[trigger] spec_move(t, d)[i]).len() == 4 by {
                lemma_merge_line_len(reverse_spec(t[i]));
            }
        },
        Direction::Up => {
            assert forall|i: int| 0 <= i < 4 implies (#[trigger] spec_move(t, d)[i]).len() == 4 by {
            }
        },
        Direction::Down => {
            assert forall|i: int| 0 <= i < 4 implies (#[trigger] spec_move(t, d)[i]).len() == 4 by {
            }
        },
    }
}

// ------------------------------------------------------------------
// Conservation: a move never creates or destroys value.
// ------------------------------------------------------------------

/// A move redistributes tile values and never creates or destroys them:
/// the sum of all cells after a move in any direction equals the sum
/// before it.
pub proof fn lemma_move_preserves_sum(t: Seq<Seq<u32>>, d: Direction)
    requires
        board_wf(t),
        board_sum(t) <= u32::MAX,
    ensures
        board_sum(spec_move(t, d)) == board_sum(t),
{
    let r = spec_move(t, d);
    lemma_board_sum4(t);
    lemma_spec_move_wf(t, d);
    lemma_board_sum4(r);
    match d {
        Direction::Left => {
            assert forall|i: int| 0 <= i < 4 implies line_sum(#[trigger] r[i]) == line_sum(
                t[i],
            ) by {
                lemma_row_sum_le_board(t, i);
                lemma_merge_line_sum(t[i]);
            }
        },
        Direction::Right => {
            assert forall|i: int| 0 <= i < 4 implies line_sum(#[trigger] r[i]) == line_sum(
                t[i],
            ) by {
                lemma_row_sum_le_board(t, i);
                lemma_line_sum_reverse(t[i]);
                lemma_merge_line_sum(reverse_spec(t[i]));
                lemma_line_sum_reverse(merge_line(reverse_spec(t[i])));
            }
        },
        Direction::Up => {
            assert forall|j: int| 0 <= j < 4 implies line_sum(
                #[trigger] merge_line(col_spec(t, j)),
            ) == line_sum(col_spec(t, j)) by {
                lemma_col_sum_le_board(t, j);
                lemma_merge_line_sum(col_spec(t, j));
            }
            assert forall|j: int| 0 <= j < 4 implies #[trigger] line_sum(merge_line(col_spec(t, j)))
                == merge_line(col_spec(t, j))[0] + merge_line(col_spec(t, j))[1] + merge_line(
                col_spec(t, j),
            )[2] + merge_line(col_spec(t, j))[3] by {
                lemma_merge_line_len(col_spec(t, j));
                lemma_line_sum4(merge_line(col_spec(t, j)));
            }
            assert forall|j: int| 0 <= j < 4 implies #[trigger] line_sum(col_spec(t, j)) == t[0][j]
                + t[1][j] + t[2][j] + t[3][j] by {
                lemma_line_sum4(col_spec(t, j));
            }
            assert forall|i: int| 0 <= i < 4 implies #[trigger] line_sum(t[i]) == t[i][0] + t[i][1]
                + t[i][2] + t[i][3] by {
                lemma_line_sum4(t[i]);
            }
            assert forall|i: int| 0 <= i < 4 implies #[trigger] line_sum(r[i]) == merge_line(
                col_spec(t, 0),
            )[i] + merge_line(col_spec(t, 1))[i] + merge_line(col_spec(t, 2))[i] + merge_line(
                col_spec(t, 3),
            )[i] by {
                lemma_line_sum4(r[i]);
            }
        },
        Direction::Down => {
            let mc = |j: int| reverse_spec(merge_line(reverse_spec(col_spec(t, j))));
            assert forall|j: int| 0 <= j < 4 implies line_sum(#[trigger] mc(j)) == line_sum(
                col_spec(t, j),
            ) by {
                lemma_col_sum_le_board(t, j);
                lemma_line_sum_reverse(col_spec(t, j));
                lemma_merge_line_sum(reverse_spec(col_spec(t, j)));
                lemma_line_sum_reverse(merge_line(reverse_spec(col_spec(t, j))));
            }
            assert forall|j: int| 0 <= j < 4 implies #[trigger] line_sum(mc(j)) == mc(j)[0] + mc(
                j,
            )[1] + mc(j)[2] + mc(j)[3] by {
                lemma_merge_line_len(reverse_spec(col_spec(t, j)));
                lemma_line_sum4(mc(j));
            }
            assert forall|j: int| 0 <= j < 4 implies #[trigger] line_sum(col_spec(t, j)) == t[0][j]
                + t[1][j] + t[2][j] + t[3][j] by {
                lemma_line_sum4(col_spec(t, j));
            }
            assert forall|i: int| 0 <= i < 4 implies #[trigger] line_sum(t[i]) == t[i][0] + t[i][1]
                + t[i][2] + t[i][3] by {
                lemma_line_sum4(t[i]);
            }
            assert forall|i: int| 0 <= i < 4 implies #[trigger] line_sum(r[i]) == mc(0)[i] + mc(
                1,
            )[i] + mc(2)[i] + mc(3)[i] by {
                lemma_line_sum4(r[i]);
                assert(r[i][0] == mc(0)[i] && r[i][1] == mc(1)[i] && r[i][2] == mc(2)[i]
                    && r[i][3] == mc(3)[i]);
            }
        },
    }
}

// ------------------------------------------------------------------
// A settled line, and the identity of a move on a settled board.
// ------------------------------------------------------------------

/// No tile of this line can slide (no empty cell stands before a value)
/// and none can merge (no two neighbouring values are equal).
pub open spec fn line_settled(s: Seq<u32>) -> bool {
    &&& forall|i: int, j: int| 0 <= i < j < s.len() && s[j] != 0 ==> s[i] != 0
    &&& forall|i: int| 0 <= i < s.len() - 1 && #[trigger] s[i] != 0 ==> s[i] != s[i + 1]
}

/// Every line of the board, oriented along `d`, is settled: a move in
/// `d` has no slide and no merge available.
pub open spec fn dir_settled(t: Seq<Seq<u32>>, d: Direction) -> bool {
    match d {
        Direction::Left => forall|i: int| 0 <= i < 4 ==> line_settled(#[trigger] t[i]),
        Direction::Right => forall|i: int|
            0 <= i < 4 ==> line_settled(reverse_spec(#[trigger] t[i])),
        Direction::Up => forall|j: int| 0 <= j < 4 ==> line_settled(#[trigger] col_spec(t, j)),
        Direction::Down => forall|j: int|
            0 <= j < 4 ==> line_settled(reverse_spec(#[trigger] col_spec(t, j))),
    }
}

proof fn lemma_nonzeros_empty_iff(s: Seq<u32>)
    ensures
        nonzeros(s).len() == 0 <==> (forall|j: int| 0 <= j < s.len() ==> s[j] == 0),
    decreases s.len(),
{
    if s.len() > 0 {
        lemma_nonzeros_empty_iff(s.skip(1));
        assert(forall|j: int| 0 <= j < s.skip(1).len() ==> s.skip(1)[j] == s[j + 1]);
        if s[0] == 0 && nonzeros(s.skip(1)).len() == 0 {
            assert forall|j: int| 0 <= j < s.len() implies s[j] == 0 by {
                if j > 0 {
                    assert(s.skip(1)[j - 1] == 0);
                }
            }
        }
    }
}

proof fn lemma_settled_merge_identity(s: Seq<u32>)
    requires
        line_settled(s),
    ensures
        merge_line(s) == s,
    decreases s.len(),
{
    lemma_nonzeros_len(s);
    lemma_merge_pairs_len(nonzeros(s));
    if s.len() == 0 {
        assert(merge_line(s) =~= s);
    } else if s[0] == 0 {
        assert forall|j: int| 0 <= j < s.len() implies s[j] == 0 by {
            if j > 0 && s[j] != 0 {
                assert(s[0] != 0);
            }
        }
        lemma_nonzeros_empty_iff(s);
        assert(nonzeros(s).len() == 0);
        assert(merge_pairs(nonzeros(s)) =~= Seq::<u32>::empty());
        assert(merge_line(s) =~= s);
    } else {
        let s1 = s.skip(1);
        assert(forall|j: int| 0 <= j < s1.len() ==> s1[j] == s[j + 1]);
        assert(line_settled(s1));
        lemma_settled_merge_identity(s1);
        lemma_nonzeros_len(s1);
        lemma_merge_pairs_len(nonzeros(s1));
        let nz = nonzeros(s);
        assert(nz == seq![s[0]] + nonzeros(s1));
        if nonzeros(s1).len() == 0 {
            assert(nz =~= seq![s[0]]);
            assert(merge_pairs(nz) =~= seq![s[0]] + merge_pairs(nz.skip(1)));
            assert(nz.skip(1) =~= Seq::<u32>::empty());
            assert(merge_pairs(nz) =~= seq![s[0]]);
        } else {
            lemma_nonzeros_empty_iff(s1);
            let w = choose|j: int| 0 <= j < s1.len() && s1[j] != 0;
            assert(s1[0] != 0);
            assert(nonzeros(s1) == seq![s1[0]] + nonzeros(s1.skip(1)));
            assert(nz[0] == s[0] && nz[1] == s1[0]);
            assert(s[0] != s[1]);
            assert(nz.skip(1) =~= nonzeros(s1));
            assert(merge_pairs(nz) == seq![s[0]] + merge_pairs(nonzeros(s1)));
        }
        assert(merge_pairs(nz) == seq![s[0]] + merge_pairs(nonzeros(s1)));
        assert(merge_line(s) =~= seq![s[0]] + merge_line(s1));
        assert(merge_line(s) =~= s);
    }
}

proof fn lemma_reverse_reverse(s: Seq<u32>)
    ensures
        reverse_spec(reverse_spec(s)) == s,
{
    assert(reverse_spec(reverse_spec(s)) =~= s);
}

/// A move in a direction with no possible slide or merge leaves the
/// board exactly as it was.
pub proof fn lemma_settled_move_identity(t: Seq<Seq<u32>>, d: Direction)
    requires
        board_wf(t),
        dir_settled(t, d),
    ensures
        spec_move(t, d) == t,
{
    let r = spec_move(t, d);
    match d {
        Direction::Left => {
            assert forall|i: int| 0 <= i < 4 implies #[trigger] r[i] == t[i] by {
                lemma_settled_merge_identity(t[i]);
            }
            assert(r =~= t);
        },
        Direction::Right => {
            assert forall|i: int| 0 <= i < 4 implies #[trigger] r[i] == t[i] by {
                lemma_settled_merge_identity(reverse_spec(t[i]));
                lemma_reverse_reverse(t[i]);
            }
            assert(r =~= t);
        },
        Direction::Up => {
            assert forall|j: int| 0 <= j < 4 implies #[trigger] merge_line(col_spec(t, j))
                == col_spec(t, j) by {
                lemma_settled_merge_identity(col_spec(t, j));
            }
            assert forall|i: int| 0 <= i < 4 implies #[trigger] r[i] == t[i] by {
                assert(r[i] =~= t[i]);
            }
            assert(r =~= t);
        },
        Direction::Down => {
            assert forall|j: int| 0 <= j < 4 implies #[trigger] reverse_spec(
                merge_line(reverse_spec(col_spec(t, j))),
            ) == col_spec(t, j) by {
                lemma_settled_merge_identity(reverse_spec(col_spec(t, j)));
                lemma_reverse_reverse(col_spec(t, j));
            }
            assert forall|i: int| 0 <= i < 4 implies #[trigger] r[i] == t[i] by {
                assert(r[i] =~= t[i]);
            }
            assert(r =~= t);
        },
    }
}

/// Rows built by reading each entry `j` of column vector `j` at height `i`.
fn assemble_from_cols(cols: &Vec<Vec<u32>>) -> (r: Vec<Vec<u32>>)
    requires
        cols@.len() == 4,
        forall|k: int| 0 <= k < 4 ==> (#[trigger] cols@[k])@.len() == 4,
    ensures
        board_wf(rows_view(r@)),
        forall|i: int, j: int| 0 <= i < 4 && 0 <= j < 4 ==> #[trigger] rows_view(r@)[i][j]
            == cols@[j]@[i],
{
    let mut out: Vec<Vec<u32>> = Vec::new();
    let mut i: usize = 0;
    while i < 4
        invariant
            i <= 4,
            cols@.len() == 4,
            forall|k: int| 0 <= k < 4 ==> (#[trigger] cols@[k])@.len() == 4,
            out@.len() == i,
            forall|k: int| 0 <= k < i ==> (#[trigger] out@[k])@.len() == 4,
            forall|k: int, l: int| 0 <= k < i && 0 <= l < 4 ==> #[trigger] out@[k]@[l]
                == cols@[l]@[k],
        decreases 4 - i,
    {
        let mut row: Vec<u32> = Vec::new();
        let mut j: usize = 0;
        while j < 4
            invariant
                i < 4,
                j <= 4,
                cols@.len() == 4,
                forall|k: int| 0 <= k < 4 ==> (#[trigger] cols@[k])@.len() == 4,
                row@.len() == j,
                forall|l: int| 0 <= l < j ==> #[trigger] row@[l] == cols@[l]@[i as int],
            decreases 4 - j,
        {
            row.push(cols[j][i]);
            j = j + 1;
        }
        out.push(row);
        i = i + 1;
    }
    proof {
        assert(forall|k: int| 0 <= k < 4 ==> (#[trigger] rows_view(out@)[k]) == out@[k]@);
    }
    out
}

/// The board after one move in `d`, computed line by line.
fn merged_tiles(t: &Vec<Vec<u32>>, d: Direction) -> (r: Vec<Vec<u32>>)
    requires
        board_wf(rows_view(t@)),
        board_sum(rows_view(t@)) <= u32::MAX,
    ensures
        rows_view(r@) == spec_move(rows_view(t@), d),
        board_wf(rows_view(r@)),
{
    let tv: Ghost<Seq<Seq<u32>>> = Ghost(rows_view(t@));
    proof {
        lemma_spec_move_wf(tv@, d);
    }
    match d {
        Direction::Left => {
            let mut out: Vec<Vec<u32>> = Vec::new();
            let mut i: usize = 0;
            while i < 4
                invariant
                    i <= 4,
                    tv@ == rows_view(t@),
                    board_wf(tv@),
                    board_sum(tv@) <= u32::MAX,
                    out@.len() == i,
                    forall|k: int| 0 <= k < i ==> #[trigger] out@[k]@ == merge_line(tv@[k]),
                decreases 4 - i,
            {
                proof {
                    lemma_row_sum_le_board(tv@, i as int);
                    assert(tv@[i as int] == t@[i as int]@);
                }
                let row = copy_row(t, i);
                let merged = merge_row(&row);
                out.push(merged);
                i = i + 1;
            }
            proof {
                assert(rows_view(out@) =~= spec_move(tv@, d));
            }
            out
        },
        Direction::Right => {
            let mut out: Vec<Vec<u32>> = Vec::new();
            let mut i: usize = 0;
            while i < 4
                invariant
                    i <= 4,
                    tv@ == rows_view(t@),
                    board_wf(tv@),
                    board_sum(tv@) <= u32::MAX,
                    out@.len() == i,
                    forall|k: int| 0 <= k < i ==> #[trigger] out@[k]@ == reverse_spec(
                        merge_line(reverse_spec(tv@[k])),
                    ),
                decreases 4 - i,
            {
                proof {
                    lemma_row_sum_le_board(tv@, i as int);
                    lemma_line_sum_reverse(tv@[i as int]);
                    assert(tv@[i as int] == t@[i as int]@);
                }
                let row = copy_row(t, i);
                let rev = reverse_row(&row);
                let merged = merge_row(&rev);
                let back = reverse_row(&merged);
                out.push(back);
                i = i + 1;
            }
            proof {
                assert(rows_view(out@) =~= spec_move(tv@, d));
            }
            out
        },
        Direction::Up => {
            let mut cols: Vec<Vec<u32>> = Vec::new();
            let mut j: usize = 0;
            while j < 4
                invariant
                    j <= 4,
                    tv@ == rows_view(t@),
                    board_wf(tv@),
                    board_sum(tv@) <= u32::MAX,
                    cols@.len() == j,
                    forall|k: int| 0 <= k < j ==> #[trigger] cols@[k]@ == merge_line(
                        col_spec(tv@, k),
                    ),
                    forall|k: int| 0 <= k < j ==> (#[trigger] cols@[k])@.len() == 4,
                decreases 4 - j,
            {
                proof {
                    lemma_col_sum_le_board(tv@, j as int);
                    lemma_merge_line_len(col_spec(tv@, j as int));
                }
                let col = extract_col(t, j);
                let merged = merge_row(&col);
                cols.push(merged);
                j = j + 1;
            }
            let out = assemble_from_cols(&cols);
            proof {
                assert forall|i: int| 0 <= i < 4 implies #[trigger] rows_view(out@)[i]
                    == spec_move(tv@, d)[i] by {
                    assert(rows_view(out@)[i] =~= spec_move(tv@, d)[i]);
                }
                assert(rows_view(out@) =~= spec_move(tv@, d));
            }
            out
        },
        Direction::Down => {
            let mut cols: Vec<Vec<u32>> = Vec::new();
            let mut j: usize = 0;
            while j < 4
                invariant
                    j <= 4,
                    tv@ == rows_view(t@),
                    board_wf(tv@),
                    board_sum(tv@) <= u32::MAX,
                    cols@.len() == j,
                    forall|k: int| 0 <= k < j ==> #[trigger] cols@[k]@ == reverse_spec(
                        merge_line(reverse_spec(col_spec(tv@, k))),
                    ),
                    forall|k: int| 0 <= k < j ==> (#[trigger] cols@[k])@.len() == 4,
                decreases 4 - j,
            {
                proof {
                    lemma_col_sum_le_board(tv@, j as int);
                    lemma_line_sum_reverse(col_spec(tv@, j as int));
                    lemma_merge_line_len(reverse_spec(col_spec(tv@, j as int)));
                }
                let col = extract_col(t, j);
                let rev = reverse_row(&col);
                let merged = merge_row(&rev);
                let back = reverse_row(&merged);
                cols.push(back);
                j = j + 1;
            }
            let out = assemble_from_cols(&cols);
            proof {
                assert forall|i: int| 0 <= i < 4 implies #[trigger] rows_view(out@)[i]
                    == spec_move(tv@, d)[i] by {
                    assert(rows_view(out@)[i] =~= spec_move(tv@, d)[i]);
                }
                assert(rows_view(out@) =~= spec_move(tv@, d));
            }
            out
        },
    }
}

/// A copy of the matrix with one cell replaced.
fn set_cell(t: &Vec<Vec<u32>>, i: usize, j: usize, v: u32) -> (r: Vec<Vec<u32>>)
    requires
        board_wf(rows_view(t@)),
        i < 4,
        j < 4,
    ensures
        rows_view(r@) == rows_view(t@).update(
            i as int,
            rows_view(t@)[i as int].update(j as int, v),
        ),
{
    let mut out: Vec<Vec<u32>> = Vec::new();
    let mut k: usize = 0;
    while k < 4
        invariant
            k <= 4,
            board_wf(rows_view(t@)),
            i < 4,
            j < 4,
            out@.len() == k,
            forall|m: int| 0 <= m < k && m != i ==> #[trigger] out@[m]@ == rows_view(t@)[m],
            i < k ==> out@[i as int]@ == rows_view(t@)[i as int].update(j as int, v),
        decreases 4 - k,
    {
        let mut row = copy_row(t, k);
        if k == i {
            proof {
                assert(rows_view(t@)[i as int] == t@[i as int]@);
            }
            let ghost before = row@;
            row[j] = v;
            proof {
                assert(row@ =~= before.update(j as int, v));
            }
        }
        out.push(row);
        k = k + 1;
    }
    proof {
        assert(rows_view(out@) =~= rows_view(t@).update(
            i as int,
            rows_view(t@)[i as int].update(j as int, v),
        ));
    }
    out
}

proof fn lemma_line_max_props(s: Seq<u32>)
    ensures
        forall|j: int| 0 <= j < s.len() ==> #[trigger] s[j] <= line_max(s),
        line_max(s) == 0 || exists|j: int| 0 <= j < s.len() && s[j] == line_max(s),
    decreases s.len(),
{
    if s.len() > 0 {
        lemma_line_max_props(s.skip(1));
        assert(forall|j: int| 0 <= j < s.skip(1).len() ==> #[trigger] s.skip(1)[j] == s[j + 1]);
        assert forall|j: int| 0 <= j < s.len() implies #[trigger] s[j] <= line_max(s) by {
            if j > 0 {
                assert(s.skip(1)[j - 1] == s[j]);
                assert(s.skip(1)[j - 1] <= line_max(s.skip(1)));
            }
        }
        if line_max(s) != 0 {
            if s[0] >= line_max(s.skip(1)) {
                assert(s[0] == line_max(s));
            } else {
                let w = choose|j: int|
                    0 <= j < s.skip(1).len() && s.skip(1)[j] == line_max(s.skip(1));
                assert(s[w + 1] == line_max(s));
            }
        }
    }
}

proof fn lemma_board_max_props(t: Seq<Seq<u32>>)
    requires
        board_wf(t),
    ensures
        forall|i: int, j: int| 0 <= i < 4 && 0 <= j < 4 ==> #[trigger] t[i][j] <= board_max(t),
        board_max(t) == 0 || exists|i: int, j: int|
            0 <= i < 4 && 0 <= j < 4 && t[i][j] == board_max(t),
{
    assert(t.skip(1)[0] == t[1] && t.skip(1).skip(1) =~= t.skip(2));
    assert(t.skip(2)[0] == t[2] && t.skip(2).skip(1) =~= t.skip(3));
    assert(t.skip(3)[0] == t[3] && t.skip(3).skip(1) =~= t.skip(4));
    assert(t.skip(4) =~= Seq::<Seq<u32>>::empty());
    assert(board_max(t.skip(4)) == 0);
    lemma_line_max_props(t[0]);
    lemma_line_max_props(t[1]);
    lemma_line_max_props(t[2]);
    lemma_line_max_props(t[3]);
    let m3 = board_max(t.skip(3));
    let m2 = board_max(t.skip(2));
    let m1 = board_max(t.skip(1));
    let m = board_max(t);
    assert(m3 == line_max(t[3]) || m3 == 0);
    assert(m3 >= line_max(t[3]));
    assert(m2 == line_max(t[2]) || m2 == m3);
    assert(m2 >= line_max(t[2]) && m2 >= m3);
    assert(m1 == line_max(t[1]) || m1 == m2);
    assert(m1 >= line_max(t[1]) && m1 >= m2);
    assert(m == line_max(t[0]) || m == m1);
    assert(m >= line_max(t[0]) && m >= m1);
    assert(m == line_max(t[0]) || m == line_max(t[1]) || m == line_max(t[2]) || m == line_max(t[3])
        || m == 0);
    assert forall|i: int, j: int| 0 <= i < 4 && 0 <= j < 4 implies #[trigger] t[i][j]
        <= board_max(t) by {
        assert(t[i][j] <= line_max(t[i]));
    }
    if m != 0 {
        if m == line_max(t[0]) {
            let w = choose|j: int| 0 <= j < t[0].len() && t[0][j] == line_max(t[0]);
            assert(t[0][w] == m);
        } else if m == line_max(t[1]) {
            let w = choose|j: int| 0 <= j < t[1].len() && t[1][j] == line_max(t[1]);
            assert(t[1][w] == m);
        } else if m == line_max(t[2]) {
            let w = choose|j: int| 0 <= j < t[2].len() && t[2][j] == line_max(t[2]);
            assert(t[2][w] == m);
        } else {
            let w = choose|j: int| 0 <= j < t[3].len() && t[3][j] == line_max(t[3]);
            assert(t[3][w] == m);
        }
    }
}

// ------------------------------------------------------------------
// The board itself.
// ------------------------------------------------------------------

/// One player's 4x4 board, with a snapshot stack used by speculative
/// checks and a sticky win flag.
pub struct GameBoard {
    tiles: Vec<Vec<u32>>,
    history: Vec<Vec<Vec<u32>>>,
    check_should_be_used_after_spawn: bool,
    reach_2048: bool,
}

impl GameBoard {
    /// The tile matrix, as a sequence of rows.
    pub closed spec fn view_tiles(&self) -> Seq<Seq<u32>> {
        rows_view(self.tiles@)
    }

    /// The stack of saved board snapshots, oldest first.
    pub closed spec fn view_history(&self) -> Seq<Seq<Seq<u32>>> {
        self.history@.map_values(|b: Vec<Vec<u32>>| rows_view(b@))
    }

    /// Whether a value of 2048 or more has been seen by a terminal check.
    pub closed spec fn spec_reach_2048(&self) -> bool {
        self.reach_2048
    }

    /// Whether the last spawn has not yet been followed by a terminal check.
    pub closed spec fn spec_after_spawn_flag(&self) -> bool {
        self.check_should_be_used_after_spawn
    }

    /// The board is well shaped and its total value fits a `u32`.
    pub open spec fn wf(&self) -> bool {
        &&& board_wf(self.view_tiles())
        &&& board_sum(self.view_tiles()) <= u32::MAX
    }

    /// A fresh, empty board with an empty history.
    pub fn new() -> (r: Self)
        ensures
            r.wf(),
            forall|i: int, j: int| 0 <= i < 4 && 0 <= j < 4 ==> #[trigger] r.view_tiles()[i][j]
                == 0,
            board_sum(r.view_tiles()) == 0,
            r.view_history().len() == 0,
            !r.spec_reach_2048(),
            !r.spec_after_spawn_flag(),
    {
        let tiles = zero_tiles();
        proof {
            lemma_board_sum4(rows_view(tiles@));
            lemma_line_sum4(rows_view(tiles@)[0]);
            lemma_line_sum4(rows_view(tiles@)[1]);
            lemma_line_sum4(rows_view(tiles@)[2]);
            lemma_line_sum4(rows_view(tiles@)[3]);
        }
        GameBoard {
            tiles,
            history: Vec::new(),
            check_should_be_used_after_spawn: false,
            reach_2048: false,
        }
    }

    /// Whether this board has reached 2048 (the win flag).
    pub fn return_if_win(&self) -> (r: bool)
        ensures
            r == self.spec_reach_2048(),
    {
        self.reach_2048
    }

    /// Read access to the tile matrix.
    pub fn get_tiles(&self) -> (r: &Vec<Vec<u32>>)
        ensures
            rows_view(r@) == self.view_tiles(),
    {
        &self.tiles
    }

    /// Write access to the tile matrix.
    pub fn get_tiles_mut(&mut self) -> (r: &mut Vec<Vec<u32>>)
        ensures
            rows_view(r@) == old(self).view_tiles(),
            final(self).view_tiles() == rows_view(final(r)@),
            final(self).view_history() == old(self).view_history(),
            final(self).spec_reach_2048() == old(self).spec_reach_2048(),
            final(self).spec_after_spawn_flag() == old(self).spec_after_spawn_flag(),
    {
        &mut self.tiles
    }

    /// Replace the tile matrix.
    pub fn set_tiles(&mut self, tiles: Vec<Vec<u32>>)
        ensures
            final(self).view_tiles() == rows_view(tiles@),
            final(self).view_history() == old(self).view_history(),
            final(self).spec_reach_2048() == old(self).spec_reach_2048(),
            final(self).spec_after_spawn_flag() == old(self).spec_after_spawn_flag(),
    {
        self.tiles = tiles;
    }

    /// Push the current matrix onto the snapshot stack.
    pub fn save_current_state(&mut self)
        ensures
            final(self).view_tiles() == old(self).view_tiles(),
            final(self).view_history() == old(self).view_history().push(old(self).view_tiles()),
            final(self).spec_reach_2048() == old(self).spec_reach_2048(),
            final(self).spec_after_spawn_flag() == old(self).spec_after_spawn_flag(),
    {
        let snapshot = copy_tiles(&self.tiles);
        self.history.push(snapshot);
        proof {
            assert(final(self).view_history() =~= old(self).view_history().push(
                old(self).view_tiles(),
            ));
        }
    }

    /// Restore the most recently saved snapshot, if any.
    pub fn undo_move(&mut self)
        ensures
            old(self).view_history().len() > 0 ==> {
                &&& final(self).view_tiles() == old(self).view_history().last()
                &&& final(self).view_history() == old(self).view_history().drop_last()
            },
            old(self).view_history().len() == 0 ==> {
                &&& final(self).view_tiles() == old(self).view_tiles()
                &&& final(self).view_history() == old(self).view_history()
            },
            final(self).spec_reach_2048() == old(self).spec_reach_2048(),
            final(self).spec_after_spawn_flag() == old(self).spec_after_spawn_flag(),
    {
        match self.history.pop() {
            Some(previous) => {
                self.tiles = previous;
                proof {
                    assert(final(self).view_history() =~= old(self).view_history().drop_last());
                }
            },
            None => {},
        }
    }

    /// Clear the board and forget the snapshot stack.
    pub fn reset_board(&mut self)
        ensures
            final(self).wf(),
            forall|i: int, j: int|
                0 <= i < 4 && 0 <= j < 4 ==> #[trigger] final(self).view_tiles()[i][j] == 0,
            final(self).view_history().len() == 0,
            final(self).spec_reach_2048() == old(self).spec_reach_2048(),
            final(self).spec_after_spawn_flag() == old(self).spec_after_spawn_flag(),
    {
        self.tiles = zero_tiles();
        self.history = Vec::new();
        proof {
            let t = final(self).view_tiles();
            lemma_board_sum4(t);
            lemma_line_sum4(t[0]);
            lemma_line_sum4(t[1]);
            lemma_line_sum4(t[2]);
            lemma_line_sum4(t[3]);
        }
    }

    /// The total of all cells and the largest cell, in that order.
    pub fn return_score(&self) -> (r: (u32, u32))
        requires
            self.wf(),
        ensures
            r.0 == board_sum(self.view_tiles()),
            r.1 == board_max(self.view_tiles()),
    {
        let t = Ghost(self.view_tiles());
        let mut score: u32 = 0;
        let mut mx: u32 = 0;
        let mut i: usize = 0;
        proof {
            assert(t@.skip(0) =~= t@);
            lemma_board_sum4(t@);
            lemma_board_sum_nonneg(t@);
        }
        while i < 4
            invariant
                i <= 4,
                t@ == self.view_tiles(),
                self.wf(),
                board_sum(t@) == score + board_sum(t@.skip(i as int)),
                board_sum(t@.skip(i as int)) >= 0,
                score <= board_sum(t@),
                forall|a: int, b: int| 0 <= a < i && 0 <= b < 4 ==> #[trigger] t@[a][b] <= mx,
                mx == 0 || exists|a: int, b: int| 0 <= a < i && 0 <= b < 4 && t@[a][b] == mx,
            decreases 4 - i,
        {
            proof {
                assert(t@.skip(i as int)[0] == t@[i as int]);
                assert(t@.skip(i as int).skip(1) =~= t@.skip(i as int + 1));
                assert(board_sum(t@.skip(i as int)) == line_sum(t@[i as int]) + board_sum(
                    t@.skip(i as int + 1),
                ));
                lemma_line_sum_nonneg(t@[i as int]);
                let rest = t@.skip(i as int + 1);
                if i + 1 <= 4 {
                    lemma_board_sum_nonneg(rest);
                }
                assert(t@[i as int] == self.tiles@[i as int]@);
                assert(t@[i as int].skip(0) =~= t@[i as int]);
            }
            let row = &self.tiles[i];
            let mut j: usize = 0;
            let ghost row_seq = t@[i as int];
            let row_start_score: Ghost<u32> = Ghost(score);
            while j < 4
                invariant
                    j <= 4,
                    i < 4,
                    row@ == row_seq,
                    row_seq.len() == 4,
                    line_sum(row_seq) == score - row_start_score@ + line_sum(
                        row_seq.skip(j as int),
                    ),
                    line_sum(row_seq.skip(j as int)) >= 0,
                    score - row_start_score@ >= 0,
                    score + line_sum(row_seq.skip(j as int)) + board_sum(t@.skip(i as int + 1))
                        == board_sum(t@),
                    board_sum(t@.skip(i as int + 1)) >= 0,
                    board_sum(t@) <= u32::MAX,
                    forall|a: int, b: int| 0 <= a < i && 0 <= b < 4 ==> #[trigger] t@[a][b] <= mx,
                    forall|b: int| 0 <= b < j ==> #[trigger] row_seq[b] <= mx,
                    mx == 0 || (exists|a: int, b: int| 0 <= a < i && 0 <= b < 4 && t@[a][b] == mx)
                        || (exists|b: int| 0 <= b < j && row_seq[b] == mx),
                decreases 4 - j,
            {
                proof {
                    assert(row_seq.skip(j as int)[0] == row_seq[j as int]);
                    assert(row_seq.skip(j as int).skip(1) =~= row_seq.skip(j as int + 1));
                    assert(line_sum(row_seq.skip(j as int)) == row_seq[j as int] + line_sum(
                        row_seq.skip(j as int + 1),
                    ));
                    lemma_line_sum_nonneg(row_seq.skip(j as int + 1));
                }
                let v = row[j];
                score = score + v;
                if v > mx {
                    mx = v;
                }
                j = j + 1;
            }
            i = i + 1;
        }
        proof {
            assert(t@.skip(4) =~= Seq::<Seq<u32>>::empty());
            lemma_board_max_props(t@);
        }
        (score, mx)
    }

    /// Whether some cell of the board is empty.
    pub fn if_have_empty_tile(&self) -> (r: bool)
        requires
            board_wf(self.view_tiles()),
        ensures
            r == has_empty(self.view_tiles()),
    {
        let t = Ghost(self.view_tiles());
        let mut i: usize = 0;
        while i < 4
            invariant
                i <= 4,
                t@ == self.view_tiles(),
                board_wf(t@),
                forall|a: int, b: int| 0 <= a < i && 0 <= b < 4 ==> #[trigger] t@[a][b] != 0,
            decreases 4 - i,
        {
            let mut j: usize = 0;
            while j < 4
                invariant
                    i < 4,
                    j <= 4,
                    t@ == self.view_tiles(),
                    board_wf(t@),
                    forall|a: int, b: int| 0 <= a < i && 0 <= b < 4 ==> #[trigger] t@[a][b] != 0,
                    forall|b: int| 0 <= b < j ==> #[trigger] t@[i as int][b] != 0,
                decreases 4 - j,
            {
                proof {
                    assert(t@[i as int] == self.tiles@[i as int]@);
                }
                if self.tiles[i][j] == 0 {
                    proof {
                        assert(t@[i as int][j as int] == 0);
                    }
                    return true;
                }
                j = j + 1;
            }
            i = i + 1;
        }
        proof {
            assert(!has_empty(t@));
        }
        false
    }

    /// The canonical leftward reduction of one line, exposed for reuse:
    /// the non-zero values are compacted toward the leading edge, equal
    /// neighbours merge once into their doubled value, and the tail is
    /// padded with empty cells.
    pub fn move_abstract(&self, line: Vec<u32>) -> (r: Vec<u32>)
        requires
            line_sum(line@) <= u32::MAX,
        ensures
            r@ == merge_line(line@),
    {
        merge_row(&line)
    }

    /// Apply one move: every line oriented along `direction` is reduced
    /// toward that direction's leading edge. The board before the move is
    /// pushed onto the snapshot stack. The total of the cells is proved
    /// unchanged, so no runtime audit of the score is needed.
    pub fn move_tiles(&mut self, direction: Direction)
        requires
            old(self).wf(),
        ensures
            final(self).wf(),
            final(self).view_tiles() == spec_move(old(self).view_tiles(), direction),
            board_sum(final(self).view_tiles()) == board_sum(old(self).view_tiles()),
            final(self).view_history() == old(self).view_history().push(old(self).view_tiles()),
            final(self).spec_reach_2048() == old(self).spec_reach_2048(),
            final(self).spec_after_spawn_flag() == old(self).spec_after_spawn_flag(),
    {
        self.save_current_state();
        let moved = merged_tiles(&self.tiles, direction);
        self.tiles = moved;
        proof {
            lemma_move_preserves_sum(old(self).view_tiles(), direction);
        }
    }

    /// Place a 2 (nine times out of ten) or a 4 on one empty cell chosen
    /// at random; a full board is left untouched. Arms the flag that a
    /// terminal check should follow.
    pub fn spawn_tile(&mut self)
        requires
            board_wf(old(self).view_tiles()),
        ensures
            board_wf(final(self).view_tiles()),
            final(self).view_history() == old(self).view_history(),
            final(self).spec_reach_2048() == old(self).spec_reach_2048(),
            final(self).spec_after_spawn_flag(),
            spawn_rel(old(self).view_tiles(), final(self).view_tiles()),
            board_sum(final(self).view_tiles()) <= board_sum(old(self).view_tiles()) + 4,
    {
        self.check_should_be_used_after_spawn = true;
        let t = Ghost(self.view_tiles());
        proof {
            lemma_board_sum_nonneg(t@);
        }
        if !self.if_have_empty_tile() {
            return;
        }
        let draw = crate::rng::random_below(10);
        let value: u32 = if draw == 0 {
            4
        } else {
            2
        };
        let mut empties: Vec<(usize, usize)> = Vec::new();
        let mut i: usize = 0;
        while i < 4
            invariant
                i <= 4,
                t@ == self.view_tiles(),
                board_wf(t@),
                forall|k: int| 0 <= k < empties@.len() ==> {
                    &&& (#[trigger] empties@[k]).0 < 4
                    &&& empties@[k].1 < 4
                    &&& t@[empties@[k].0 as int][empties@[k].1 as int] == 0
                },
                forall|a: int, b: int|
                    0 <= a < i && 0 <= b < 4 && #[trigger] t@[a][b] == 0 ==> exists|k: int|
                        0 <= k < empties@.len() && empties@[k] == (a as usize, b as usize),
            decreases 4 - i,
        {
            let mut j: usize = 0;
            while j < 4
                invariant
                    i < 4,
                    j <= 4,
                    t@ == self.view_tiles(),
                    board_wf(t@),
                    forall|k: int| 0 <= k < empties@.len() ==> {
                        &&& (#[trigger] empties@[k]).0 < 4
                        &&& empties@[k].1 < 4
                        &&& t@[empties@[k].0 as int][empties@[k].1 as int] == 0
                    },
                    forall|a: int, b: int|
                        0 <= a < i && 0 <= b < 4 && #[trigger] t@[a][b] == 0 ==> exists|k: int|
                            0 <= k < empties@.len() && empties@[k] == (a as usize, b as usize),
                    forall|b: int|
                        0 <= b < j && #[trigger] t@[i as int][b] == 0 ==> exists|k: int|
                            0 <= k < empties@.len() && empties@[k] == (i, b as usize),
                decreases 4 - j,
            {
                proof {
                    assert(t@[i as int] == self.tiles@[i as int]@);
                }
                if self.tiles[i][j] == 0 {
                    let ghost before = empties@;
                    empties.push((i, j));
                    proof {
                        assert(empties@ == before.push((i, j)));
                        assert(empties@[before.len() as int] == (i, j));
                        assert(forall|k: int| 0 <= k < before.len() ==> #[trigger] empties@[k]
                            == before[k]);
                        assert forall|a: int, b: int|
                            0 <= a < i && 0 <= b < 4 && #[trigger] t@[a][b] == 0 implies exists|
                            k: int,
                        |
                            0 <= k < empties@.len() && empties@[k] == (a as usize, b as usize) by {
                            let k = choose|k: int|
                                0 <= k < before.len() && before[k] == (a as usize, b as usize);
                            assert(empties@[k] == (a as usize, b as usize));
                        }
                        assert forall|b: int|
                            0 <= b < j + 1 && #[trigger] t@[i as int][b] == 0 implies exists|k: int|
                            0 <= k < empties@.len() && empties@[k] == (i, b as usize) by {
                            if b < j {
                                let k = choose|k: int|
                                    0 <= k < before.len() && before[k] == (i, b as usize);
                                assert(empties@[k] == (i, b as usize));
                            } else {
                                assert(empties@[before.len() as int] == (i, b as usize));
                            }
                        }
                    }
                }
                j = j + 1;
            }
            i = i + 1;
        }
        proof {
            let (a, b) = choose|a: int, b: int|
                0 <= a < t@.len() && 0 <= b < t@[a].len() && t@[a][b] == 0;
            assert(exists|k: int| 0 <= k < empties@.len() && empties@[k] == (
                a as usize,
                b as usize,
            ));
        }
        let idx = crate::rng::random_below(empties.len());
        let cell = empties[idx];
        let ci = cell.0;
        let cj = cell.1;
        let updated = set_cell(&self.tiles, ci, cj, value);
        self.tiles = updated;
        proof {
            let old_t = t@;
            let new_t = final(self).view_tiles();
            assert(old_t[ci as int][cj as int] == 0);
            lemma_board_sum4(old_t);
            lemma_board_sum4(new_t);
            lemma_line_sum_update(old_t[ci as int], cj as int, value);
            assert(has_empty(old_t));
        }
    }

    /// Whether the game has ended on this board. Win: some cell holds
    /// 2048 or more, and the win flag latches. Loss: the board is full
    /// and a trial move in each of the four directions, made on a scratch
    /// copy, leaves it unchanged. Meaningful right after a spawn, which
    /// the flag records.
    pub fn check_game_over(&mut self) -> (r: bool)
        requires
            old(self).wf(),
        ensures
            r == spec_game_over(old(self).view_tiles()),
            final(self).view_tiles() == old(self).view_tiles(),
            final(self).view_history() == old(self).view_history(),
            final(self).spec_reach_2048() == (old(self).spec_reach_2048() || board_max(
                old(self).view_tiles(),
            ) >= 2048),
            !final(self).spec_after_spawn_flag(),
    {
        self.check_should_be_used_after_spawn = false;
        let score = self.return_score();
        if score.1 >= 2048 {
            self.reach_2048 = true;
            return true;
        }
        if self.if_have_empty_tile() {
            return false;
        }
        let trial_up = merged_tiles(&self.tiles, Direction::Up);
        if !tiles_eq(&trial_up, &self.tiles) {
            return false;
        }
        let trial_down = merged_tiles(&self.tiles, Direction::Down);
        if !tiles_eq(&trial_down, &self.tiles) {
            return false;
        }
        let trial_left = merged_tiles(&self.tiles, Direction::Left);
        if !tiles_eq(&trial_left, &self.tiles) {
            return false;
        }
        let trial_right = merged_tiles(&self.tiles, Direction::Right);
        if !tiles_eq(&trial_right, &self.tiles) {
            return false;
        }
        true
    }
}

pub proof fn lemma_board_sum_nonneg(t: Seq<Seq<u32>>)
    ensures
        board_sum(t) >= 0,
    decreases t.len(),
{
    if t.len() > 0 {
        lemma_line_sum_nonneg(t[0]);
        lemma_board_sum_nonneg(t.skip(1));
    }
}

} // verus!
