//! Order intake over a byte stream: framing, rate limiting, and the protocol by
//! which committed batches are acknowledged.

use vstd::prelude::*;

use crate::codec::{be, from_be, get_be, has_at, lemma_le_len, put_be};
use crate::exchange::{Command, ExecReport};
use crate::replay::report_stream;
use crate::wire::{
    command_of, commands_in, decode_frames, encode_report, WireView, MSG_LEN,
    RAFT_BATCH_MAX_COMMANDS, REPORT_LEN,
};

verus! {

/// First bytes of a committed batch.
pub const COMMITTED_BATCH_MAGIC: [u8; 4] = [84, 67, 66, 49];

/// The bytes `TCB1`.
pub open spec fn batch_mark() -> Seq<u8> {
    seq![84u8, 67, 66, 49]
}

/// Nanoseconds in a second.
pub const SECOND: u64 = 1_000_000_000;

/// Bytes of a stream that have not been consumed, cut into frames of fixed size.
pub struct FrameBuffer {
    bytes: Vec<u8>,
    at: usize,
}

impl View for FrameBuffer {
    type V = Seq<u8>;

    /// The bytes not consumed yet.
    closed spec fn view(&self) -> Seq<u8> {
        self.bytes@.skip(self.at as int)
    }
}

impl FrameBuffer {
    /// The buffer's invariant.
    pub closed spec fn wf(self) -> bool {
        self.at <= self.bytes@.len()
    }

    /// An empty buffer.
    pub fn new() -> (r: FrameBuffer)
        ensures
            r.wf(),
            r@ == Seq::<u8>::empty(),
    {
        let r = FrameBuffer { bytes: Vec::new(), at: 0 };
        assert(r@ =~= Seq::<u8>::empty());
        r
    }

    /// Adds bytes that were received. What was consumed is dropped first.
    pub fn extend(&mut self, received: &[u8])
        requires
            old(self).wf(),
        ensures
            final(self).wf(),
            final(self)@ == old(self)@ + received@,
    {
        let mut next: Vec<u8> = Vec::new();
        let n: usize = self.bytes.len();
        assert(self.bytes@.subrange(self.at as int, n as int) =~= self@);
        crate::codec::put_slice(&mut next, self.bytes.as_slice(), self.at, n - self.at);
        assert(received@.subrange(0, received@.len() as int) =~= received@);
        crate::codec::put_slice(&mut next, received, 0, received.len());
        self.bytes = next;
        self.at = 0;
        assert(self@ =~= old(self)@ + received@);
    }

    /// Consumes one frame: the command in it, or `Some(None)` if there is none in
    /// it. `None` while no whole frame has been received.
    pub fn next_frame(&mut self) -> (r: Option<Option<Command>>)
        requires
            old(self).wf(),
        ensures
            final(self).wf(),
            if old(self)@.len() >= MSG_LEN {
                &&& r == Some(command_of(old(self)@.take(MSG_LEN as int)))
                &&& final(self)@ == old(self)@.skip(MSG_LEN as int)
            } else {
                &&& r is None
                &&& final(self)@ == old(self)@
            },
    {
        let size: usize = self.bytes.len();
        if size - self.at < MSG_LEN {
            return None;
        }
        let from: usize = self.at;
        assert(self.bytes@.subrange(from as int, from + MSG_LEN) =~= self@.take(MSG_LEN as int));
        let command = match WireView::parse_at(self.bytes.as_slice(), from) {
            Some(view) => view.to_command(),
            None => None,
        };
        self.at = from + MSG_LEN;
        assert(self@ =~= old(self)@.skip(MSG_LEN as int));
        Some(command)
    }
}

/// A budget of commands that is refilled every second; 0 means no limit.
#[derive(Clone, Copy, Debug)]
pub struct TokenBucket {
    pub limit: u64,
    pub budget: u64,
    /// Start of the present second.
    pub window: u64,
}

impl TokenBucket {
    /// A full budget.
    pub fn new(limit: u64, now: u64) -> (r: TokenBucket)
        ensures
            r == (TokenBucket { limit, budget: limit, window: now }),
    {
        TokenBucket { limit, budget: limit, window: now }
    }

    /// Takes one command from the budget at time `now`. Returns how long the
    /// caller has to wait first: until the present second is over, if the budget
    /// is used up.
    pub fn take(&mut self, now: u64) -> (wait: u64)
        requires
            old(self).limit > 0 ==> old(self).window <= now <= u64::MAX - SECOND,
        ensures
            final(self).limit == old(self).limit,
            if old(self).limit == 0 {
                &&& wait == 0
                &&& *final(self) == *old(self)
            } else if old(self).budget > 0 {
                &&& wait == 0
                &&& final(self).budget == old(self).budget - 1
                &&& final(self).window == old(self).window
            } else {
                &&& wait == if now - old(self).window < SECOND {
                    SECOND - (now - old(self).window)
                } else {
                    0
                }
                &&& final(self).budget == old(self).limit - 1
                &&& final(self).window == now + wait
            },
    {
        if self.limit == 0 {
            return 0;
        }
        let mut wait: u64 = 0;
        if self.budget == 0 {
            let elapsed: u64 = now - self.window;
            if elapsed < SECOND {
                wait = SECOND - elapsed;
            }
            self.window = now + wait;
            self.budget = self.limit;
        }
        self.budget = self.budget - 1;
        wait
    }
}

/// Why a request is refused.
#[derive(Clone, Copy, Debug, PartialEq, Eq, Structural)]
pub enum RequestError {
    /// A batch without commands or with too many.
    BatchSize,
    /// More commands at once than the rate limit allows in a second.
    RateLimit,
    /// A frame without a command.
    InvalidCommand,
}

/// What the bytes received so far amount to.
#[derive(Debug)]
pub enum Request {
    /// Nothing yet: that many bytes are missing at least.
    Partial(usize),
    /// A request of `consumed` bytes.
    Complete { commands: Vec<Command>, consumed: usize },
    Refused(RequestError),
}

/// Size and number of the frames of the request that `input` starts with, and
/// where they start; `None` while the head is not complete.
pub open spec fn request_head(input: Seq<u8>) -> Option<(int, nat)> {
    if input.len() < 4 {
        None
    } else if input.take(4) == batch_mark() {
        if input.len() < 8 {
            None
        } else {
            Some((8, from_be(input.subrange(4, 8))))
        }
    } else {
        Some((0, 1))
    }
}

/// Reads the request that `input` starts with: a single frame, or the batch mark,
/// the number of frames, and the frames.
pub fn read_request(input: &[u8], max_cmds_per_sec: u64) -> (r: Request)
    ensures
        match request_head(input@) {
            None => r == Request::Partial(
                (if input@.len() < 4 {
                    4 - input@.len()
                } else {
                    8 - input@.len()
                }) as usize,
            ),
            Some((from, n)) => {
                let end = from + n * MSG_LEN;
                if n == 0 || n > RAFT_BATCH_MAX_COMMANDS {
                    r == Request::Refused(RequestError::BatchSize)
                } else if input@.len() < end {
                    r == Request::Partial((end - input@.len()) as usize)
                } else if max_cmds_per_sec > 0 && n > max_cmds_per_sec {
                    r == Request::Refused(RequestError::RateLimit)
                } else {
                    match commands_in(input@, from, n) {
                        None => r == Request::Refused(RequestError::InvalidCommand),
                        Some(want) => match r {
                            Request::Complete { commands, consumed } => commands@ == want
                                && consumed == end,
                            _ => false,
                        },
                    }
                }
            },
        },
{
    let size: usize = input.len();
    if size < 4 {
        return Request::Partial(4 - size);
    }
    let mark = COMMITTED_BATCH_MAGIC;
    assert(mark@ =~= batch_mark());
    assert(input@.subrange(0, 4) =~= input@.take(4));
    let mut from: usize = 0;
    let mut n: usize = 1;
    if has_at(input, 0, mark.as_slice()) {
        if size < 8 {
            return Request::Partial(8 - size);
        }
        let count: u64 = get_be(input, 4, 4);
        if count == 0 || count > RAFT_BATCH_MAX_COMMANDS as u64 {
            return Request::Refused(RequestError::BatchSize);
        }
        from = 8;
        n = count as usize;
    }
    let end: usize = from + n * MSG_LEN;
    if size < end {
        return Request::Partial(end - size);
    }
    if max_cmds_per_sec > 0 && n as u64 > max_cmds_per_sec {
        return Request::Refused(RequestError::RateLimit);
    }
    match decode_frames(input, from, n) {
        Some(commands) => Request::Complete { commands, consumed: end },
        None => Request::Refused(RequestError::InvalidCommand),
    }
}

/// The acknowledgement of a request that was committed at `index`.
pub open spec fn ack(index: u64) -> Seq<u8> {
    seq![1u8] + be(index as nat, 8)
}

/// Encodes the acknowledgement of a request that was committed at `index`.
pub fn encode_ack(index: u64) -> (r: Vec<u8>)
    ensures
        r@ == ack(index),
        r@.len() == 9,
{
    let mut out: Vec<u8> = Vec::new();
    out.push(1);
    put_be(&mut out, index, 8);
    proof {
        lemma_le_len(index as nat, 8);
        assert(out@ =~= ack(index));
    }
    out
}

/// Encodes reports for the peer and the market-data subscribers.
pub fn encode_reports(reports: &Vec<ExecReport>) -> (r: Vec<u8>)
    ensures
        r@ == report_stream(reports@),
{
    let mut out: Vec<u8> = Vec::new();
    let mut i: usize = 0;
    assert(reports@.take(0) =~= Seq::<ExecReport>::empty());
    while i < reports.len()
        invariant
            i <= reports@.len(),
            out@ == report_stream(reports@.take(i as int)),
        decreases reports@.len() - i,
    {
        let frame = encode_report(&reports[i]);
        assert(reports@.take(i + 1).drop_last() =~= reports@.take(i as int));
        assert(frame@.subrange(0, REPORT_LEN as int) =~= frame@);
        crate::codec::put_slice(&mut out, frame.as_slice(), 0, REPORT_LEN);
        i += 1;
    }
    assert(reports@.take(i as int) =~= reports@);
    out
}

} // verus!
