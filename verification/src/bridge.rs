//! The bridge channel: a configured conduit that pulls tiles from one
//! board's line into the other board's line, subject to direction,
//! openness and a depleting send quota.

use vstd::prelude::*;
use crate::game_board::{
    board_sum, board_wf, copy_row, lemma_board_sum4, lemma_line_sum_append, lemma_line_sum_nonneg,
    lemma_line_sum_reverse, lemma_row_sum_le_board, line_sum, nonzeros, reverse_row, reverse_spec,
    rows_view, Direction, GameBoard,
};

verus! {

/// How many empty cells the receiving line offers at its tail.
pub open spec fn trailing_zeros(s: Seq<u32>) -> nat
    decreases s.len(),
{
    if s.len() == 0 || s.last() != 0 {
        0
    } else {
        1 + trailing_zeros(s.drop_last())
    }
}

/// How many tiles a transfer may move: one per trailing empty cell of
/// the receiving line, and never more than the remaining quota.
pub open spec fn transfer_slots(recv: Seq<u32>, quota: nat) -> nat {
    if trailing_zeros(recv) <= quota {
        trailing_zeros(recv)
    } else {
        quota
    }
}

/// The ordered values a transfer moves: the sending line's leading
/// non-zero values, as many as may move.
pub open spec fn spec_transferred(recv: Seq<u32>, send: Seq<u32>, quota: nat) -> Seq<u32> {
    let k = transfer_slots(recv, quota) as int;
    let nz = nonzeros(send);
    if k <= nz.len() {
        nz.take(k)
    } else {
        nz
    }
}

/// The receiving line after a transfer: the moved values fill its
/// trailing empty run in order, starting at that run's first cell;
/// every other cell keeps its value.
pub open spec fn spec_recv_after(recv: Seq<u32>, send: Seq<u32>, quota: nat) -> Seq<u32> {
    let a = recv.len() - trailing_zeros(recv);
    let tr = spec_transferred(recv, send, quota);
    Seq::new(
        recv.len(),
        |x: int|
            if a <= x < a + tr.len() {
                tr[x - a]
            } else {
                recv[x]
            },
    )
}

/// The sending line after `t` of its values moved out: its first `t`
/// non-zero cells are emptied; every other cell keeps its value.
pub open spec fn spec_send_after(send: Seq<u32>, t: int) -> Seq<u32> {
    Seq::new(
        send.len(),
        |x: int|
            if send[x] != 0 && nonzeros(send.take(x + 1)).len() <= t {
                0u32
            } else {
                send[x]
            },
    )
}

/// A line oriented for the canonical transfer: a leftward transfer reads
/// the lines as they are, a rightward one reads them reversed.
pub open spec fn orient(s: Seq<u32>, d: Direction) -> Seq<u32> {
    if d == Direction::Left {
        s
    } else {
        reverse_spec(s)
    }
}

// ------------------------------------------------------------------
// Facts about trailing zeros and non-zero prefixes.
// ------------------------------------------------------------------

proof fn lemma_trailing_zeros_char(s: Seq<u32>)
    ensures
        trailing_zeros(s) <= s.len(),
        forall|i: int| s.len() - trailing_zeros(s) <= i < s.len() ==> s[i] == 0,
        trailing_zeros(s) < s.len() ==> s[s.len() - 1 - trailing_zeros(s)] != 0,
    decreases s.len(),
{
    if s.len() > 0 && s.last() == 0 {
        lemma_trailing_zeros_char(s.drop_last());
        assert(forall|i: int| 0 <= i < s.len() - 1 ==> #[trigger] s.drop_last()[i] == s[i]);
        let d = s.drop_last();
        assert forall|i: int| s.len() - trailing_zeros(s) <= i < s.len() implies s[i] == 0 by {
            if i < s.len() - 1 {
                assert(d.len() - trailing_zeros(d) <= i < d.len());
                assert(d[i] == 0);
            }
        }
    }
}

/// Splitting a line splits its non-zero values.
proof fn lemma_nonzeros_split(s: Seq<u32>, p: int)
    requires
        0 <= p <= s.len(),
    ensures
        nonzeros(s) == nonzeros(s.take(p)) + nonzeros(s.skip(p)),
    decreases p,
{
    if p == 0 {
        assert(s.take(0) =~= Seq::<u32>::empty());
        assert(s.skip(0) =~= s);
        assert(nonzeros(s.take(0)) =~= Seq::<u32>::empty());
        assert(nonzeros(s) =~= nonzeros(s.take(0)) + nonzeros(s.skip(0)));
    } else {
        lemma_nonzeros_split(s.skip(1), p - 1);
        assert(s.skip(1).take(p - 1) =~= s.take(p).skip(1));
        assert(s.skip(1).skip(p - 1) =~= s.skip(p));
        assert(s.take(p)[0] == s[0]);
        if s[0] != 0 {
            assert(nonzeros(s) == seq![s[0]] + nonzeros(s.skip(1)));
            assert(nonzeros(s.take(p)) == seq![s[0]] + nonzeros(s.take(p).skip(1)));
            assert(nonzeros(s) =~= nonzeros(s.take(p)) + nonzeros(s.skip(p)));
        } else {
            assert(nonzeros(s) == nonzeros(s.skip(1)));
            assert(nonzeros(s.take(p)) == nonzeros(s.take(p).skip(1)));
            assert(nonzeros(s) =~= nonzeros(s.take(p)) + nonzeros(s.skip(p)));
        }
    }
}

/// Taking one more cell keeps or grows the count of non-zero values.
proof fn lemma_nonzeros_take_step(s: Seq<u32>, x: int)
    requires
        0 <= x < s.len(),
    ensures
        s[x] != 0 ==> nonzeros(s.take(x + 1)).len() == nonzeros(s.take(x)).len() + 1,
        s[x] == 0 ==> nonzeros(s.take(x + 1)).len() == nonzeros(s.take(x)).len(),
{
    lemma_nonzeros_split(s.take(x + 1), x);
    assert(s.take(x + 1).take(x) =~= s.take(x));
    assert(s.take(x + 1).skip(x) =~= seq![s[x]]);
    if s[x] != 0 {
        assert(nonzeros(seq![s[x]]) =~= seq![s[x]] + nonzeros(seq![s[x]].skip(1)));
        assert(seq![s[x]].skip(1) =~= Seq::<u32>::empty());
        assert(nonzeros(seq![s[x]]).len() == 1);
    } else {
        assert(nonzeros(seq![s[x]]) == nonzeros(seq![s[x]].skip(1)));
        assert(seq![s[x]].skip(1) =~= Seq::<u32>::empty());
        assert(nonzeros(seq![s[x]]).len() == 0);
    }
}

/// A longer prefix never has fewer non-zero values.
proof fn lemma_nonzeros_take_monotone(s: Seq<u32>, a: int, b: int)
    requires
        0 <= a <= b <= s.len(),
    ensures
        nonzeros(s.take(a)).len() <= nonzeros(s.take(b)).len(),
{
    lemma_nonzeros_split(s.take(b), a);
    assert(s.take(b).take(a) =~= s.take(a));
}

/// What a transfer moves never exceeds the quota it was given.
pub proof fn lemma_transferred_within_quota(recv: Seq<u32>, send: Seq<u32>, quota: nat)
    ensures
        spec_transferred(recv, send, quota).len() <= quota,
        spec_transferred(recv, send, quota).len() <= transfer_slots(recv, quota),
{
}

proof fn lemma_all_zero_sum(s: Seq<u32>)
    requires
        forall|i: int| 0 <= i < s.len() ==> s[i] == 0,
    ensures
        line_sum(s) == 0,
    decreases s.len(),
{
    if s.len() > 0 {
        assert(forall|i: int| 0 <= i < s.skip(1).len() ==> #[trigger] s.skip(1)[i] == s[i + 1]);
        lemma_all_zero_sum(s.skip(1));
    }
}

/// A transfer adds to the receiving line exactly the total it moves.
proof fn lemma_recv_after_sum(recv: Seq<u32>, send: Seq<u32>, quota: nat)
    ensures
        line_sum(spec_recv_after(recv, send, quota)) == line_sum(recv) + line_sum(
            spec_transferred(recv, send, quota),
        ),
{
    let tr = spec_transferred(recv, send, quota);
    let t = tr.len() as int;
    let a = recv.len() - trailing_zeros(recv);
    lemma_trailing_zeros_char(recv);
    lemma_transferred_within_quota(recv, send, quota);
    let ra = spec_recv_after(recv, send, quota);
    assert(ra =~= ra.take(a) + ra.subrange(a, a + t) + ra.skip(a + t));
    assert(recv =~= recv.take(a) + recv.subrange(a, a + t) + recv.skip(a + t));
    lemma_line_sum_append(ra.take(a) + ra.subrange(a, a + t), ra.skip(a + t));
    lemma_line_sum_append(ra.take(a), ra.subrange(a, a + t));
    lemma_line_sum_append(recv.take(a) + recv.subrange(a, a + t), recv.skip(a + t));
    lemma_line_sum_append(recv.take(a), recv.subrange(a, a + t));
    assert(ra.take(a) =~= recv.take(a));
    assert(ra.skip(a + t) =~= recv.skip(a + t));
    assert(ra.subrange(a, a + t) =~= tr);
    assert(forall|x: int| a <= x < a + t ==> recv[x] == 0);
    lemma_all_zero_sum(recv.subrange(a, a + t));
}

/// Emptying the first `t` non-zero cells removes from the sending line
/// exactly their total.
proof fn lemma_send_after_sum(send: Seq<u32>, t: int)
    requires
        0 <= t <= nonzeros(send).len(),
    ensures
        line_sum(spec_send_after(send, t)) == line_sum(send) - line_sum(nonzeros(send).take(t)),
    decreases send.len(),
{
    let sa = spec_send_after(send, t);
    let nz = nonzeros(send);
    if send.len() == 0 {
        assert(sa =~= send);
        assert(nz.take(t) =~= Seq::<u32>::empty());
    } else if send[0] == 0 {
        let s1 = send.skip(1);
        assert(nz == nonzeros(s1));
        assert forall|x: int| 0 <= x < sa.skip(1).len() implies #[trigger] sa.skip(1)[x]
            == spec_send_after(s1, t)[x] by {
            assert(sa.skip(1)[x] == sa[x + 1]);
            assert(send.take(x + 2).skip(1) =~= s1.take(x + 1));
            assert(send.take(x + 2)[0] == 0);
            assert(nonzeros(send.take(x + 2)) == nonzeros(send.take(x + 2).skip(1)));
            assert(send[x + 1] == s1[x]);
        }
        assert(sa.skip(1) =~= spec_send_after(s1, t));
        lemma_send_after_sum(s1, t);
        assert(sa[0] == 0);
        assert(line_sum(sa) == sa[0] + line_sum(sa.skip(1)));
        assert(line_sum(send) == send[0] + line_sum(s1));
    } else {
        let s1 = send.skip(1);
        assert(nz == seq![send[0]] + nonzeros(s1));
        if t == 0 {
            assert forall|x: int| 0 <= x < send.len() implies sa[x] == send[x] by {
                if send[x] != 0 {
                    lemma_nonzeros_take_step(send, x);
                    lemma_nonzeros_take_monotone(send, 1, x + 1);
                    assert(send.take(1) =~= seq![send[0]]);
                    assert(nonzeros(seq![send[0]]) == seq![send[0]] + nonzeros(
                        seq![send[0]].skip(1),
                    ));
                    assert(seq![send[0]].skip(1) =~= Seq::<u32>::empty());
                    assert(nonzeros(send.take(x + 1)).len() >= 1);
                }
            }
            assert(sa =~= send);
            assert(nz.take(0) =~= Seq::<u32>::empty());
        } else {
            assert(send.take(1) =~= seq![send[0]]);
            assert(nonzeros(seq![send[0]]) == seq![send[0]] + nonzeros(seq![send[0]].skip(1)));
            assert(seq![send[0]].skip(1) =~= Seq::<u32>::empty());
            assert(nonzeros(send.take(1)).len() == 1);
            assert(sa[0] == 0);
            assert forall|x: int| 0 <= x < sa.skip(1).len() implies #[trigger] sa.skip(1)[x]
                == spec_send_after(s1, t - 1)[x] by {
                assert(sa.skip(1)[x] == sa[x + 1]);
                assert(send.take(x + 2).skip(1) =~= s1.take(x + 1));
                assert(send.take(x + 2)[0] == send[0]);
                assert(nonzeros(send.take(x + 2)) == seq![send[0]] + nonzeros(
                    send.take(x + 2).skip(1),
                ));
                assert(nonzeros(send.take(x + 2)).len() == 1 + nonzeros(s1.take(x + 1)).len());
                assert(send[x + 1] == s1[x]);
            }
            assert(sa.skip(1) =~= spec_send_after(s1, t - 1));
            lemma_send_after_sum(s1, t - 1);
            assert(nz.take(t) =~= seq![send[0]] + nonzeros(s1).take(t - 1));
            lemma_line_sum_append(seq![send[0]], nonzeros(s1).take(t - 1));
            assert(line_sum(seq![send[0]]) == send[0] + line_sum(seq![send[0]].skip(1)));
            assert(line_sum(sa) == sa[0] + line_sum(sa.skip(1)));
            assert(line_sum(send) == send[0] + line_sum(s1));
        }
    }
}

/// A transfer conserves value: what leaves the sending line is exactly
/// what enters the receiving line, and it is the total of the moved list.
pub proof fn lemma_transfer_sums(recv: Seq<u32>, send: Seq<u32>, quota: nat)
    ensures
        line_sum(spec_recv_after(recv, send, quota)) == line_sum(recv) + line_sum(
            spec_transferred(recv, send, quota),
        ),
        line_sum(spec_send_after(send, spec_transferred(recv, send, quota).len() as int))
            == line_sum(send) - line_sum(spec_transferred(recv, send, quota)),
        line_sum(spec_transferred(recv, send, quota)) >= 0,
{
    let tr = spec_transferred(recv, send, quota);
    lemma_recv_after_sum(recv, send, quota);
    assert(tr =~= nonzeros(send).take(tr.len() as int));
    lemma_send_after_sum(send, tr.len() as int);
    lemma_line_sum_nonneg(tr);
}

// ------------------------------------------------------------------
// The bridge itself.
// ------------------------------------------------------------------

/// The total of one line's values.
fn row_total(v: &Vec<u32>) -> (r: u32)
    requires
        line_sum(v@) <= u32::MAX,
    ensures
        r == line_sum(v@),
{
    let n = v.len();
    let mut total: u32 = 0;
    let mut j: usize = 0;
    proof {
        assert(v@.skip(0) =~= v@);
    }
    while j < n
        invariant
            j <= n,
            n == v@.len(),
            line_sum(v@) <= u32::MAX,
            line_sum(v@) == total + line_sum(v@.skip(j as int)),
            total >= 0,
        decreases n - j,
    {
        proof {
            assert(v@.skip(j as int)[0] == v@[j as int]);
            assert(v@.skip(j as int).skip(1) =~= v@.skip(j as int + 1));
            assert(line_sum(v@.skip(j as int)) == v@[j as int] + line_sum(v@.skip(j as int + 1)));
            crate::game_board::lemma_line_sum_nonneg(v@.skip(j as int + 1));
        }
        total = total + v[j];
        j = j + 1;
    }
    proof {
        assert(v@.skip(n as int) =~= Seq::<u32>::empty());
    }
    total
}

/// A channel between two boards' lines: direction-limited unless
/// bidirectional, openable, and with a depleting send quota.
pub struct Bridge {
    if_bin_direction: bool,
    direction: Direction,
    if_open: bool,
    left_index: usize,
    right_index: usize,
    sending_limit: usize,
}

impl Bridge {
    /// Whether the channel works in both directions.
    pub closed spec fn spec_bin_direction(&self) -> bool {
        self.if_bin_direction
    }

    /// The one direction a unidirectional channel allows.
    pub closed spec fn spec_direction(&self) -> Direction {
        self.direction
    }

    /// Whether the channel is open.
    pub closed spec fn spec_open(&self) -> bool {
        self.if_open
    }

    /// The receiving board's line index.
    pub closed spec fn spec_left_index(&self) -> int {
        self.left_index as int
    }

    /// The sending board's line index.
    pub closed spec fn spec_right_index(&self) -> int {
        self.right_index as int
    }

    /// The remaining send quota.
    pub closed spec fn spec_quota(&self) -> int {
        self.sending_limit as int
    }

    /// The channel's configuration, as one tuple, for stating that it is
    /// unchanged.
    pub open spec fn spec_config(&self) -> (bool, Direction, bool, int, int) {
        (
            self.spec_bin_direction(),
            self.spec_direction(),
            self.spec_open(),
            self.spec_left_index(),
            self.spec_right_index(),
        )
    }

    /// A transfer attempt in `direction` by the board whose tiles are
    /// `sender_tiles` is lawful: the direction is allowed and horizontal,
    /// quota remains, the channel is open, and the sending line holds
    /// something to send.
    pub open spec fn spec_legal(&self, sender_tiles: Seq<Seq<u32>>, direction: Direction) -> bool {
        &&& self.spec_bin_direction() || direction == self.spec_direction()
        &&& direction == Direction::Left || direction == Direction::Right
        &&& self.spec_quota() > 0
        &&& self.spec_open()
        &&& line_sum(sender_tiles[self.spec_right_index()]) != 0
    }

    /// A fresh channel with the given configuration.
    pub fn new(
        if_bin_direction: bool,
        direction: Direction,
        if_open: bool,
        left_index: usize,
        right_index: usize,
        sending_limit: usize,
    ) -> (r: Self)
        ensures
            r.spec_bin_direction() == if_bin_direction,
            r.spec_direction() == direction,
            r.spec_open() == if_open,
            r.spec_left_index() == left_index,
            r.spec_right_index() == right_index,
            r.spec_quota() == sending_limit,
    {
        Self { if_bin_direction, direction, if_open, left_index, right_index, sending_limit }
    }

    /// Reconfigure the channel in place.
    pub fn update_status(
        &mut self,
        if_bin_direction: bool,
        direction: Direction,
        if_open: bool,
        left_index: usize,
        right_index: usize,
        sending_limit: usize,
    )
        ensures
            final(self).spec_bin_direction() == if_bin_direction,
            final(self).spec_direction() == direction,
            final(self).spec_open() == if_open,
            final(self).spec_left_index() == left_index,
            final(self).spec_right_index() == right_index,
            final(self).spec_quota() == sending_limit,
    {
        self.if_bin_direction = if_bin_direction;
        self.direction = direction;
        self.if_open = if_open;
        self.left_index = left_index;
        self.right_index = right_index;
        self.sending_limit = sending_limit;
    }

    /// How many tiles the channel may still send.
    pub fn remaining_limit(&self) -> (r: usize)
        ensures
            r == self.spec_quota(),
    {
        self.sending_limit
    }

    /// The receiving board's line index.
    pub fn left_index(&self) -> (r: usize)
        ensures
            r == self.spec_left_index(),
    {
        self.left_index
    }

    /// The sending board's line index.
    pub fn right_index(&self) -> (r: usize)
        ensures
            r == self.spec_right_index(),
    {
        self.right_index
    }

    /// The canonical transfer: fill the receiving line's trailing empty
    /// run, in order from that run's first cell, with the sending line's
    /// leading non-zero values, never moving more tiles than the quota
    /// allows; empty the moved values' source cells; charge the quota
    /// exactly one per moved tile; and return the moved values in order.
    pub fn send_abstract(&mut self, receiver_line: &mut Vec<u32>, sender_line: &mut Vec<u32>) -> (r:
        Vec<u32>)
        requires
            old(receiver_line)@.len() == old(sender_line)@.len(),
        ensures
            r@ == spec_transferred(
                old(receiver_line)@,
                old(sender_line)@,
                old(self).spec_quota() as nat,
            ),
            final(receiver_line)@ == spec_recv_after(
                old(receiver_line)@,
                old(sender_line)@,
                old(self).spec_quota() as nat,
            ),
            final(sender_line)@ == spec_send_after(old(sender_line)@, r@.len() as int),
            r@.len() <= old(self).spec_quota(),
            final(self).spec_quota() == old(self).spec_quota() - r@.len(),
            final(self).spec_config() == old(self).spec_config(),
    {
        let ghost recv0 = receiver_line@;
        let ghost send0 = sender_line@;
        let len = receiver_line.len();
        proof {
            lemma_trailing_zeros_char(recv0);
        }
        // Count the trailing empty cells of the receiving line.
        let mut count: usize = 0;
        while count < len && receiver_line[len - 1 - count] == 0
            invariant
                count <= len,
                len == recv0.len(),
                receiver_line@ == recv0,
                count <= trailing_zeros(recv0),
            decreases len - count,
        {
            proof {
                lemma_trailing_zeros_char(recv0);
                if count + 1 > trailing_zeros(recv0) {
                    assert(recv0[len - 1 - count] == 0);
                    assert(trailing_zeros(recv0) < len);
                    assert(count == trailing_zeros(recv0));
                    assert(recv0[len - 1 - trailing_zeros(recv0)] != 0);
                    assert(false);
                }
            }
            count = count + 1;
        }
        proof {
            lemma_trailing_zeros_char(recv0);
            if count < trailing_zeros(recv0) {
                assert(count < len);
                assert(len - trailing_zeros(recv0) <= len - 1 - count < len);
                assert(recv0[len - 1 - count] == 0);
                assert(false);
            }
            assert(count == trailing_zeros(recv0));
        }
        // Never move more tiles than the quota allows; the placement
        // anchor stays at the start of the trailing empty run.
        let allowed = if count > self.sending_limit {
            self.sending_limit
        } else {
            count
        };
        let ghost quota0 = self.sending_limit as nat;
        proof {
            assert(allowed == transfer_slots(recv0, quota0));
        }
        // Walk the sending line, moving each non-zero value into the
        // next open slot.
        let mut moved: Vec<u32> = Vec::new();
        let mut i: usize = 0;
        let mut p: usize = 0;
        proof {
            assert(send0.take(0) =~= Seq::<u32>::empty());
            assert(nonzeros(send0.take(0)) =~= Seq::<u32>::empty());
            assert(moved@ =~= nonzeros(send0.take(0)));
        }
        while i < allowed && p < len
            invariant
                i <= allowed <= count <= len,
                count == trailing_zeros(recv0),
                i <= p <= len,
                len == recv0.len() == send0.len(),
                sender_line@.len() == len,
                receiver_line@.len() == len,
                moved@.len() == i,
                moved@ == nonzeros(send0.take(p as int)),
                forall|x: int| 0 <= x < len ==> #[trigger] receiver_line@[x] == (
                    if len - count <= x < len - count + i {
                        moved@[x - (len - count)]
                    } else {
                        recv0[x]
                    }),
                forall|x: int| 0 <= x < len ==> #[trigger] sender_line@[x] == (
                    if x < p && send0[x] != 0 {
                        0u32
                    } else {
                        send0[x]
                    }),
            decreases len - p,
        {
            let val = sender_line[p];
            proof {
                assert(send0[p as int] == val || (send0[p as int] != 0 && val == 0 && p < p));
                assert(val == send0[p as int]);
                lemma_nonzeros_take_step(send0, p as int);
            }
            if val != 0 {
                let ghost moved_before = moved@;
                let ghost recv_before = receiver_line@;
                receiver_line[len - count + i] = val;
                sender_line[p] = 0;
                moved.push(val);
                proof {
                    assert(moved@ == moved_before.push(val));
                    assert(nonzeros(send0.take(p as int + 1)) =~= nonzeros(
                        send0.take(p as int),
                    ).push(val)) by {
                        lemma_nonzeros_split(send0.take(p as int + 1), p as int);
                        assert(send0.take(p as int + 1).take(p as int) =~= send0.take(p as int));
                        assert(send0.take(p as int + 1).skip(p as int) =~= seq![val]);
                        assert(nonzeros(seq![val]) == seq![val] + nonzeros(seq![val].skip(1)));
                        assert(seq![val].skip(1) =~= Seq::<u32>::empty());
                        assert(nonzeros(seq![val]) =~= seq![val]);
                    }
                }
                i = i + 1;
            } else {
                proof {
                    assert(nonzeros(send0.take(p as int + 1)) =~= nonzeros(send0.take(p as int)))
                        by {
                        lemma_nonzeros_split(send0.take(p as int + 1), p as int);
                        assert(send0.take(p as int + 1).take(p as int) =~= send0.take(p as int));
                        assert(send0.take(p as int + 1).skip(p as int) =~= seq![val]);
                        assert(nonzeros(seq![val]) == nonzeros(seq![val].skip(1)));
                        assert(seq![val].skip(1) =~= Seq::<u32>::empty());
                    }
                }
            }
            p = p + 1;
        }
        // Charge the quota for what moved.
        self.sending_limit = self.sending_limit - moved.len();
        proof {
            let nz = nonzeros(send0);
            let t = moved@.len() as int;
            lemma_nonzeros_split(send0, p as int);
            if p < len {
                // the loop ended because every movable tile has moved
                assert(i == allowed);
                assert(nz =~= moved@ + nonzeros(send0.skip(p as int)));
                assert(nz.take(t) =~= moved@);
                assert(moved@ =~= spec_transferred(recv0, send0, quota0));
            } else {
                assert(send0.take(len as int) =~= send0);
                assert(moved@ =~= nz);
                assert(moved@ =~= spec_transferred(recv0, send0, quota0));
            }
            // the receiving line matches its specification
            assert(receiver_line@ =~= spec_recv_after(recv0, send0, quota0));
            // the sending line matches its specification
            assert forall|x: int| 0 <= x < len implies sender_line@[x] == spec_send_after(
                send0,
                t,
            )[x] by {
                if send0[x] != 0 {
                    if x < p {
                        lemma_nonzeros_take_monotone(send0, x + 1, p as int);
                    } else {
                        lemma_nonzeros_take_step(send0, x);
                        lemma_nonzeros_take_monotone(send0, p as int, x);
                    }
                }
            }
            assert(sender_line@ =~= spec_send_after(send0, t));
        }
        moved
    }

    /// Whether a transfer in `direction`, sending from `send_board`, is
    /// lawful under this channel's configuration.
    fn if_legal(&self, send_board: &GameBoard, direction: Direction) -> (r: bool)
        requires
            send_board.wf(),
            self.spec_right_index() < 4,
        ensures
            r == self.spec_legal(send_board.view_tiles(), direction),
    {
        if !self.if_bin_direction && direction != self.direction {
            return false;
        }
        match direction {
            Direction::Up => {
                return false;
            },
            Direction::Down => {
                return false;
            },
            _ => {},
        }
        if self.sending_limit == 0 {
            return false;
        }
        if !self.if_open {
            return false;
        }
        let tiles = send_board.get_tiles();
        proof {
            lemma_row_sum_le_board(send_board.view_tiles(), self.spec_right_index());
            assert(send_board.view_tiles()[self.spec_right_index()]
                == tiles@[self.spec_right_index()]@);
        }
        let total = row_total(&tiles[self.right_index]);
        if total == 0 {
            return false;
        }
        true
    }

    /// Attempt the transfer for an action in `direction`: the sending
    /// board's bridge line feeds the receiving board's bridge line, both
    /// read from the edge that the direction selects. An unlawful attempt
    /// changes nothing and returns no list; a lawful one returns the
    /// moved values in order, and charges the quota exactly one per moved
    /// tile — never more than the quota held.
    pub fn send_through_bridge(
        &mut self,
        recei_board: &mut GameBoard,
        send_board: &mut GameBoard,
        direction: Direction,
    ) -> (r: Option<Vec<u32>>)
        requires
            old(recei_board).wf(),
            old(send_board).wf(),
            old(self).spec_left_index() < 4,
            old(self).spec_right_index() < 4,
        ensures
            final(self).spec_config() == old(self).spec_config(),
            final(recei_board).view_history() == old(recei_board).view_history(),
            final(recei_board).spec_reach_2048() == old(recei_board).spec_reach_2048(),
            final(recei_board).spec_after_spawn_flag() == old(recei_board).spec_after_spawn_flag(),
            final(send_board).view_history() == old(send_board).view_history(),
            final(send_board).spec_reach_2048() == old(send_board).spec_reach_2048(),
            final(send_board).spec_after_spawn_flag() == old(send_board).spec_after_spawn_flag(),
            board_wf(final(recei_board).view_tiles()),
            board_wf(final(send_board).view_tiles()),
            !old(self).spec_legal(old(send_board).view_tiles(), direction) ==> {
                &&& r is None
                &&& final(self).spec_quota() == old(self).spec_quota()
                &&& final(recei_board).view_tiles() == old(recei_board).view_tiles()
                &&& final(send_board).view_tiles() == old(send_board).view_tiles()
            },
            old(self).spec_legal(old(send_board).view_tiles(), direction) ==> {
                let li = old(self).spec_left_index();
                let ri = old(self).spec_right_index();
                let rl = orient(old(recei_board).view_tiles()[li], direction);
                let sl = orient(old(send_board).view_tiles()[ri], direction);
                let q = old(self).spec_quota() as nat;
                let tr = spec_transferred(rl, sl, q);
                &&& r matches Some(moved) && moved@ == tr
                &&& tr.len() <= old(self).spec_quota()
                &&& final(self).spec_quota() == old(self).spec_quota() - tr.len()
                &&& final(recei_board).view_tiles() == old(recei_board).view_tiles().update(
                    li,
                    orient(spec_recv_after(rl, sl, q), direction),
                )
                &&& final(send_board).view_tiles() == old(send_board).view_tiles().update(
                    ri,
                    orient(spec_send_after(sl, tr.len() as int), direction),
                )
                &&& line_sum(tr) >= 0
                &&& board_sum(final(recei_board).view_tiles()) == board_sum(
                    old(recei_board).view_tiles(),
                ) + line_sum(tr)
                &&& board_sum(final(send_board).view_tiles()) == board_sum(
                    old(send_board).view_tiles(),
                ) - line_sum(tr)
            },
    {
        let li = self.left_index;
        let ri = self.right_index;
        if !self.if_legal(send_board, direction) {
            return None;
        }
        let ghost q = self.sending_limit as nat;
        let ghost old_recv_tiles = recei_board.view_tiles();
        let ghost old_send_tiles = send_board.view_tiles();
        match direction {
            Direction::Left => {
                let mut recv_row = copy_row(recei_board.get_tiles(), li);
                let mut send_row = copy_row(send_board.get_tiles(), ri);
                proof {
                    assert(recv_row@ == old_recv_tiles[li as int]);
                    assert(send_row@ == old_send_tiles[ri as int]);
                    assert(old_recv_tiles[li as int].len() == 4);
                    assert(old_send_tiles[ri as int].len() == 4);
                }
                let moved = self.send_abstract(&mut recv_row, &mut send_row);
                set_board_row(recei_board, li, recv_row);
                set_board_row(send_board, ri, send_row);
                proof {
                    let rl = old_recv_tiles[li as int];
                    let sl = old_send_tiles[ri as int];
                    lemma_transfer_sums(rl, sl, q);
                    lemma_board_sum_update_row(
                        old_recv_tiles,
                        li as int,
                        spec_recv_after(rl, sl, q),
                    );
                    lemma_board_sum_update_row(
                        old_send_tiles,
                        ri as int,
                        spec_send_after(sl, moved@.len() as int),
                    );
                }
                Some(moved)
            },
            Direction::Right => {
                let recv_row = copy_row(recei_board.get_tiles(), li);
                let send_row = copy_row(send_board.get_tiles(), ri);
                proof {
                    assert(recv_row@ == old_recv_tiles[li as int]);
                    assert(send_row@ == old_send_tiles[ri as int]);
                    assert(old_recv_tiles[li as int].len() == 4);
                    assert(old_send_tiles[ri as int].len() == 4);
                }
                let mut recv_rev = reverse_row(&recv_row);
                let mut send_rev = reverse_row(&send_row);
                let moved = self.send_abstract(&mut recv_rev, &mut send_rev);
                let recv_back = reverse_row(&recv_rev);
                let send_back = reverse_row(&send_rev);
                set_board_row(recei_board, li, recv_back);
                set_board_row(send_board, ri, send_back);
                proof {
                    let rl = reverse_spec(old_recv_tiles[li as int]);
                    let sl = reverse_spec(old_send_tiles[ri as int]);
                    lemma_transfer_sums(rl, sl, q);
                    lemma_line_sum_reverse(old_recv_tiles[li as int]);
                    lemma_line_sum_reverse(old_send_tiles[ri as int]);
                    lemma_line_sum_reverse(spec_recv_after(rl, sl, q));
                    lemma_line_sum_reverse(spec_send_after(sl, moved@.len() as int));
                    lemma_board_sum_update_row(
                        old_recv_tiles,
                        li as int,
                        reverse_spec(spec_recv_after(rl, sl, q)),
                    );
                    lemma_board_sum_update_row(
                        old_send_tiles,
                        ri as int,
                        reverse_spec(spec_send_after(sl, moved@.len() as int)),
                    );
                }
                Some(moved)
            },
            Direction::Up => None,
            Direction::Down => None,
        }
    }
}

/// Replacing one row changes the board's sum by the rows' difference.
proof fn lemma_board_sum_update_row(t: Seq<Seq<u32>>, i: int, row: Seq<u32>)
    requires
        board_wf(t),
        0 <= i < 4,
    ensures
        board_sum(t.update(i, row)) == board_sum(t) - line_sum(t[i]) + line_sum(row),
        t.update(i, row).len() == 4,
{
    lemma_board_sum4(t);
    lemma_board_sum4(t.update(i, row));
}

/// Replace one row of a board, leaving everything else as it was.
fn set_board_row(b: &mut GameBoard, i: usize, row: Vec<u32>)
    requires
        i < 4,
        board_wf(old(b).view_tiles()),
    ensures
        final(b).view_tiles() == old(b).view_tiles().update(i as int, row@),
        final(b).view_history() == old(b).view_history(),
        final(b).spec_reach_2048() == old(b).spec_reach_2048(),
        final(b).spec_after_spawn_flag() == old(b).spec_after_spawn_flag(),
{
    let tiles = b.get_tiles_mut();
    proof {
        assert(rows_view(tiles@).len() == 4);
    }
    tiles[i] = row;
    proof {
        assert(rows_view(final(tiles)@) =~= old(b).view_tiles().update(i as int, row@));
    }
}

} // verus!
