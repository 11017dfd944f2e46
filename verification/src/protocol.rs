//! The wire protocol's data model and framing: one encoded message per
//! frame, each frame closed by a single terminator byte that the payload
//! itself never contains.

use vstd::prelude::*;
use vstd::string::StringExecFns;
use crate::game_board::Direction;

verus! {

/// The frame terminator: a newline byte.
pub const FRAME_TERMINATOR: u8 = 10;

/// The combined state broadcast to both players after each step.
pub struct GameState {
    pub board1: Vec<Vec<u32>>,
    pub board2: Vec<Vec<u32>>,
    pub board1_reach_2048: bool,
    pub board2_reach_2048: bool,
    pub animated_vector: Option<Vec<u32>>,
    pub action1: Option<Direction>,
    pub action2: Option<Direction>,
}

/// A player's requested move.
pub struct PlayerAction {
    pub direction: Direction,
}

/// Which seat a connection was given: player 1 or player 2.
pub struct PlayerIdentity {
    pub player_number: u8,
}

/// One message of the wire protocol.
pub enum Message {
    GameState(GameState),
    PlayerAction(PlayerAction),
    PlayerIdentity(PlayerIdentity),
}

/// Close an encoded message with the frame terminator, so that
/// consecutive messages cannot stick together in the byte stream.
pub fn prevent_sticky_message(ori: String) -> (r: String)
    ensures
        r@ == ori@ + "\n"@,
{
    ori.concat("\n")
}

/// Whether the buffered bytes hold at least one complete frame.
pub open spec fn has_frame(b: Seq<u8>) -> bool {
    exists|i: int| 0 <= i < b.len() && b[i] == FRAME_TERMINATOR
}

/// The index of the first frame terminator, or the length if there is none.
pub open spec fn frame_end(b: Seq<u8>) -> int
    decreases b.len(),
{
    if b.len() == 0 {
        0
    } else if b[0] == FRAME_TERMINATOR {
        0
    } else {
        1 + frame_end(b.skip(1))
    }
}

proof fn lemma_frame_end_char(b: Seq<u8>)
    ensures
        0 <= frame_end(b) <= b.len(),
        forall|i: int| 0 <= i < frame_end(b) ==> b[i] != FRAME_TERMINATOR,
        frame_end(b) < b.len() ==> b[frame_end(b)] == FRAME_TERMINATOR,
        has_frame(b) <==> frame_end(b) < b.len(),
    decreases b.len(),
{
    if b.len() > 0 && b[0] != FRAME_TERMINATOR {
        lemma_frame_end_char(b.skip(1));
        assert(forall|i: int| 0 <= i < b.skip(1).len() ==> #[trigger] b.skip(1)[i] == b[i + 1]);
        assert forall|i: int| 0 <= i < frame_end(b) implies b[i] != FRAME_TERMINATOR by {
            if i > 0 {
                assert(b.skip(1)[i - 1] != FRAME_TERMINATOR);
            }
        }
        if has_frame(b) {
            let w = choose|i: int| 0 <= i < b.len() && b[i] == FRAME_TERMINATOR;
            assert(b.skip(1)[w - 1] == FRAME_TERMINATOR);
            assert(has_frame(b.skip(1)));
        }
        if has_frame(b.skip(1)) {
            let w = choose|i: int| 0 <= i < b.skip(1).len() && b.skip(1)[i] == FRAME_TERMINATOR;
            assert(b[w + 1] == FRAME_TERMINATOR);
            assert(has_frame(b));
        }
    }
}

proof fn lemma_frame_end_at(b: Seq<u8>, e: int)
    requires
        0 <= e < b.len(),
        forall|i: int| 0 <= i < e ==> b[i] != FRAME_TERMINATOR,
        b[e] == FRAME_TERMINATOR,
    ensures
        frame_end(b) == e,
        has_frame(b),
{
    lemma_frame_end_char(b);
    if frame_end(b) < e {
        assert(b[frame_end(b)] != FRAME_TERMINATOR);
        assert(false);
    }
    if frame_end(b) > e {
        assert(b[e] != FRAME_TERMINATOR);
        assert(false);
    }
}

/// Two messages delivered in one read come out in order: the buffered
/// bytes split at the first terminator exactly into the first payload,
/// and what remains is the second payload with its own terminator, which
/// in turn splits into exactly that payload and an empty remainder.
pub proof fn lemma_coalesced_frames(f1: Seq<u8>, f2: Seq<u8>)
    requires
        forall|i: int| 0 <= i < f1.len() ==> f1[i] != FRAME_TERMINATOR,
        forall|i: int| 0 <= i < f2.len() ==> f2[i] != FRAME_TERMINATOR,
    ensures
        ({
            let b = f1 + seq![FRAME_TERMINATOR] + f2 + seq![FRAME_TERMINATOR];
            let rest = f2 + seq![FRAME_TERMINATOR];
            &&& has_frame(b)
            &&& frame_end(b) == f1.len()
            &&& b.take(f1.len() as int) == f1
            &&& b.skip(f1.len() as int + 1) == rest
            &&& has_frame(rest)
            &&& frame_end(rest) == f2.len()
            &&& rest.take(f2.len() as int) == f2
            &&& rest.skip(f2.len() as int + 1) == Seq::<u8>::empty()
        }),
{
    let b = f1 + seq![FRAME_TERMINATOR] + f2 + seq![FRAME_TERMINATOR];
    let rest = f2 + seq![FRAME_TERMINATOR];
    assert(b[f1.len() as int] == FRAME_TERMINATOR);
    assert(forall|i: int| 0 <= i < f1.len() ==> #[trigger] b[i] == f1[i]);
    lemma_frame_end_at(b, f1.len() as int);
    assert(b.take(f1.len() as int) =~= f1);
    assert(b.skip(f1.len() as int + 1) =~= rest);
    assert(rest[f2.len() as int] == FRAME_TERMINATOR);
    assert(forall|i: int| 0 <= i < f2.len() ==> #[trigger] rest[i] == f2[i]);
    lemma_frame_end_at(rest, f2.len() as int);
    assert(rest.take(f2.len() as int) =~= f2);
    assert(rest.skip(f2.len() as int + 1) =~= Seq::<u8>::empty());
}

/// A message split across reads is produced exactly once, and only by
/// the read that supplies the terminator: a terminator-free fragment
/// holds no frame, and once the remainder and the terminator arrive, the
/// whole splits into exactly the reassembled payload and nothing else.
pub proof fn lemma_split_frame(head: Seq<u8>, tail: Seq<u8>)
    requires
        forall|i: int| 0 <= i < head.len() ==> head[i] != FRAME_TERMINATOR,
        forall|i: int| 0 <= i < tail.len() ==> tail[i] != FRAME_TERMINATOR,
    ensures
        !has_frame(head),
        ({
            let b = head + tail + seq![FRAME_TERMINATOR];
            &&& has_frame(b)
            &&& frame_end(b) == head.len() + tail.len() as int
            &&& b.take(head.len() + tail.len() as int) == head + tail
            &&& b.skip(head.len() + tail.len() + 1 as int) == Seq::<u8>::empty()
        }),
{
    let b = head + tail + seq![FRAME_TERMINATOR];
    assert(b[head.len() + tail.len() as int] == FRAME_TERMINATOR);
    assert(forall|i: int| 0 <= i < head.len() ==> #[trigger] b[i] == head[i]);
    assert(forall|i: int| head.len() <= i < head.len() + tail.len() as int ==> #[trigger] b[i] == tail[i
        - head.len()]);
    lemma_frame_end_at(b, head.len() + tail.len() as int);
    assert(b.take(head.len() + tail.len() as int) =~= head + tail);
    assert(b.skip(head.len() + tail.len() + 1 as int) =~= Seq::<u8>::empty());
}

/// What a read of zero bytes means, given what is already buffered.
#[derive(Clone, Copy, Debug, PartialEq, Eq, Structural)]
pub enum StreamEnd {
    /// Nothing was pending: the peer ended the stream between messages.
    CleanDisconnect,
    /// A partial frame was pending: the stream ended inside a message.
    TruncatedFrame,
}

/// Splits a byte stream into terminator-closed frames. Bytes may arrive
/// in chunks of any size: several frames in one read, or one frame
/// spread over many reads; what is left after a frame is kept for the
/// next call.
pub struct FrameDecoder {
    buffer: Vec<u8>,
}

impl FrameDecoder {
    /// The bytes received and not yet handed out as frames.
    pub closed spec fn view_buffer(&self) -> Seq<u8> {
        self.buffer@
    }

    /// A decoder with nothing buffered.
    pub fn new() -> (r: Self)
        ensures
            r.view_buffer().len() == 0,
    {
        FrameDecoder { buffer: Vec::new() }
    }

    /// How many bytes wait in the buffer.
    pub fn buffered_len(&self) -> (r: usize)
        ensures
            r == self.view_buffer().len(),
    {
        self.buffer.len()
    }

    /// Append one read's worth of bytes to the buffer.
    pub fn feed(&mut self, chunk: &[u8])
        ensures
            final(self).view_buffer() == old(self).view_buffer() + chunk@,
    {
        let n = chunk.len();
        let mut i: usize = 0;
        proof {
            assert(self.buffer@ =~= old(self).view_buffer() + chunk@.take(0));
        }
        while i < n
            invariant
                i <= n,
                n == chunk@.len(),
                self.buffer@ == old(self).view_buffer() + chunk@.take(i as int),
            decreases n - i,
        {
            let b = chunk[i];
            self.buffer.push(b);
            proof {
                assert(self.buffer@ =~= old(self).view_buffer() + chunk@.take(i as int + 1));
            }
            i = i + 1;
        }
        proof {
            assert(chunk@.take(n as int) =~= chunk@);
        }
    }

    /// Take the first complete frame out of the buffer: everything up to
    /// and excluding the first terminator, which is consumed with it.
    /// Returns nothing, and changes nothing, while no terminator is
    /// buffered.
    pub fn next_frame(&mut self) -> (r: Option<Vec<u8>>)
        ensures
            !has_frame(old(self).view_buffer()) ==> {
                &&& r is None
                &&& final(self).view_buffer() == old(self).view_buffer()
            },
            has_frame(old(self).view_buffer()) ==> {
                let e = frame_end(old(self).view_buffer());
                &&& r matches Some(frame) && frame@ == old(self).view_buffer().take(e)
                &&& final(self).view_buffer() == old(self).view_buffer().skip(e + 1)
                &&& forall|i: int| 0 <= i < e ==> old(self).view_buffer()[i] != FRAME_TERMINATOR
            },
    {
        proof {
            lemma_frame_end_char(self.buffer@);
        }
        let n = self.buffer.len();
        let mut pos: usize = 0;
        while pos < n && self.buffer[pos] != FRAME_TERMINATOR
            invariant
                pos <= n,
                n == self.buffer@.len(),
                self.buffer@ == old(self).view_buffer(),
                forall|i: int| 0 <= i < pos ==> self.buffer@[i] != FRAME_TERMINATOR,
            decreases n - pos,
        {
            pos = pos + 1;
        }
        proof {
            lemma_frame_end_char(self.buffer@);
            if pos < n {
                assert(pos == frame_end(self.buffer@)) by {
                    if pos < frame_end(self.buffer@) {
                        assert(self.buffer@[pos as int] != FRAME_TERMINATOR);
                    }
                    if pos > frame_end(self.buffer@) {
                        assert(self.buffer@[frame_end(self.buffer@)] != FRAME_TERMINATOR);
                    }
                }
                assert(has_frame(self.buffer@));
            } else {
                assert(!has_frame(self.buffer@));
            }
        }
        if pos == n {
            return None;
        }
        let mut frame: Vec<u8> = Vec::new();
        let mut i: usize = 0;
        while i < pos
            invariant
                i <= pos < n,
                n == self.buffer@.len(),
                self.buffer@ == old(self).view_buffer(),
                frame@ =~= self.buffer@.take(i as int),
            decreases pos - i,
        {
            let b = self.buffer[i];
            frame.push(b);
            i = i + 1;
        }
        let mut rest: Vec<u8> = Vec::new();
        let mut j: usize = pos + 1;
        proof {
            assert(rest@ =~= self.buffer@.subrange(pos as int + 1, pos as int + 1));
        }
        while j < n
            invariant
                pos + 1 <= j <= n,
                n == self.buffer@.len(),
                self.buffer@ == old(self).view_buffer(),
                rest@ == self.buffer@.subrange(pos as int + 1, j as int),
            decreases n - j,
        {
            let b = self.buffer[j];
            rest.push(b);
            proof {
                assert(rest@ =~= self.buffer@.subrange(pos as int + 1, j as int + 1));
            }
            j = j + 1;
        }
        self.buffer = rest;
        proof {
            assert(self.buffer@ =~= old(self).view_buffer().skip(pos as int + 1));
            assert(frame@ =~= old(self).view_buffer().take(pos as int));
        }
        Some(frame)
    }

    /// Classify a read that returned zero bytes: a clean end between
    /// messages, or a truncated message cut off mid-frame.
    pub fn end_of_stream(&self) -> (r: StreamEnd)
        ensures
            r == (if self.view_buffer().len() == 0 {
                StreamEnd::CleanDisconnect
            } else {
                StreamEnd::TruncatedFrame
            }),
    {
        if self.buffer.len() == 0 {
            StreamEnd::CleanDisconnect
        } else {
            StreamEnd::TruncatedFrame
        }
    }
}

} // verus!
