//! The log of messages that were set aside: one record for each, closed by a
//! checksum, so that a torn tail is seen and dropped.

use vstd::prelude::*;

use crate::codec::{
    fnv, fnv_extend, from_le, get_le, has_at, law_bytes_round_trip, le, lemma_le_len,
    lemma_le_of_from_le, lemma_pow256, put_le, put_slice, FNV_OFFSET,
};
use crate::journal::fnv1a;

verus! {

/// First bytes of a log.
pub const DLQ_HEADER: [u8; 8] = [84, 67, 68, 76, 81, 48, 49, 0];

/// The bytes `TCDLQ01` and a zero.
pub open spec fn header() -> Seq<u8> {
    seq![84u8, 67, 68, 76, 81, 48, 49, 0]
}

/// A message that was set aside.
#[derive(Debug, PartialEq, Eq)]
pub struct DeadLetter {
    pub ts_nanos: u64,
    pub partition: i32,
    pub offset: i64,
    /// Why, as text.
    pub reason: Vec<u8>,
    pub payload: Vec<u8>,
}

/// What a record holds.
#[verifier::ext_equal]
pub struct LetterView {
    pub ts_nanos: u64,
    pub partition: i32,
    pub offset: i64,
    pub reason: Seq<u8>,
    pub payload: Seq<u8>,
}

impl View for DeadLetter {
    type V = LetterView;

    open spec fn view(&self) -> LetterView {
        LetterView {
            ts_nanos: self.ts_nanos,
            partition: self.partition,
            offset: self.offset,
            reason: self.reason@,
            payload: self.payload@,
        }
    }
}

/// What records hold.
pub open spec fn letter_views(list: Seq<DeadLetter>) -> Seq<LetterView> {
    Seq::new(list.len(), |i: int| list[i]@)
}

/// The record fits: its lengths can be written down.
pub open spec fn fits(letter: LetterView) -> bool {
    28 + letter.reason.len() + letter.payload.len() <= u32::MAX
}

/// The body of a record.
pub open spec fn body(letter: LetterView) -> Seq<u8> {
    le(letter.ts_nanos as nat, 8) + le(letter.partition as u32 as nat, 4) + le(
        letter.offset as u64 as nat,
        8,
    ) + le(letter.reason.len(), 4) + letter.reason + le(letter.payload.len(), 4) + letter.payload
}

/// A record: the length of its body, the body, and a checksum over the body.
pub open spec fn frame(letter: LetterView) -> Seq<u8> {
    le(body(letter).len(), 4) + body(letter) + le(fnv(body(letter)) as nat, 8)
}

proof fn lemma_body_len(letter: LetterView)
    ensures
        body(letter).len() == 28 + letter.reason.len() + letter.payload.len(),
{
    lemma_le_len(letter.ts_nanos as nat, 8);
    lemma_le_len(letter.partition as u32 as nat, 4);
    lemma_le_len(letter.offset as u64 as nat, 8);
    lemma_le_len(letter.reason.len(), 4);
    lemma_le_len(letter.payload.len(), 4);
}

/// Encodes a record.
pub fn encode_dead_letter(
    ts_nanos: u64,
    partition: i32,
    offset: i64,
    reason: &[u8],
    payload: &[u8],
) -> (r: Vec<u8>)
    requires
        28 + reason@.len() + payload@.len() <= u32::MAX,
    ensures
        r@ == frame(
            LetterView { ts_nanos, partition, offset, reason: reason@, payload: payload@ },
        ),
{
    let ghost letter = LetterView {
        ts_nanos,
        partition,
        offset,
        reason: reason@,
        payload: payload@,
    };
    let mut text: Vec<u8> = Vec::new();
    put_le(&mut text, ts_nanos, 8);
    put_le(&mut text, partition as u32 as u64, 4);
    put_le(&mut text, offset as u64, 8);
    put_le(&mut text, reason.len() as u64, 4);
    assert(reason@.subrange(0, reason@.len() as int) =~= reason@);
    put_slice(&mut text, reason, 0, reason.len());
    put_le(&mut text, payload.len() as u64, 4);
    assert(payload@.subrange(0, payload@.len() as int) =~= payload@);
    put_slice(&mut text, payload, 0, payload.len());
    proof {
        lemma_body_len(letter);
        assert(text@ =~= body(letter));
    }
    let checksum: u64 = fnv1a(text.as_slice());
    let mut out: Vec<u8> = Vec::new();
    let size: usize = text.len();
    put_le(&mut out, size as u64, 4);
    assert(text@.subrange(0, size as int) =~= text@);
    put_slice(&mut out, text.as_slice(), 0, size);
    put_le(&mut out, checksum, 8);
    assert(out@ =~= frame(letter));
    out
}

/// The letter in a body, if the lengths in it agree with it.
pub open spec fn letter_in(text: Seq<u8>) -> Option<LetterView> {
    if text.len() < 28 {
        None
    } else {
        let n = from_le(text.subrange(20, 24)) as int;
        if 28 + n > text.len() {
            None
        } else {
            let m = from_le(text.subrange(24 + n, 28 + n)) as int;
            if 28 + n + m != text.len() {
                None
            } else {
                Some(
                    LetterView {
                        ts_nanos: from_le(text.subrange(0, 8)) as u64,
                        partition: from_le(text.subrange(8, 12)) as u32 as i32,
                        offset: from_le(text.subrange(12, 20)) as u64 as i64,
                        reason: text.subrange(24, 24 + n),
                        payload: text.subrange(28 + n, 28 + n + m),
                    },
                )
            }
        }
    }
}

/// The record at the start of `rest`, and its length; `None` if it is torn.
pub open spec fn record_at(rest: Seq<u8>) -> Option<(LetterView, nat)> {
    if rest.len() < 4 {
        None
    } else {
        let n = from_le(rest.subrange(0, 4));
        if rest.len() < 12 + n {
            None
        } else {
            let text = rest.subrange(4, 4 + n as int);
            if from_le(rest.subrange(4 + n as int, 12 + n as int)) != fnv(text) as nat {
                None
            } else {
                match letter_in(text) {
                    Some(letter) => Some((letter, 12 + n)),
                    None => None,
                }
            }
        }
    }
}

/// The records from the start of `rest` on, as far as they are whole.
pub open spec fn letters(rest: Seq<u8>) -> Seq<LetterView>
    decreases rest.len(),
{
    match record_at(rest) {
        Some((letter, n)) => seq![letter] + letters(rest.skip(n as int)),
        None => Seq::empty(),
    }
}

fn read_letter(bytes: &[u8], at: usize, n: usize) -> (r: Option<DeadLetter>)
    requires
        at + n <= bytes@.len(),
    ensures
        match r {
            Some(letter) => letter_in(bytes@.subrange(at as int, at + n)) == Some(letter@),
            None => letter_in(bytes@.subrange(at as int, at + n)) is None,
        },
{
    let ghost text = bytes@.subrange(at as int, at + n);
    let size: usize = bytes.len();
    if n < 28 {
        return None;
    }
    proof {
        lemma_pow256();
        assert(text.subrange(0, 8) =~= bytes@.subrange(at as int, at + 8));
        assert(text.subrange(8, 12) =~= bytes@.subrange(at + 8, at + 12));
        assert(text.subrange(12, 20) =~= bytes@.subrange(at + 12, at + 20));
        assert(text.subrange(20, 24) =~= bytes@.subrange(at + 20, at + 24));
        lemma_le_of_from_le(text.subrange(8, 12));
        lemma_le_of_from_le(text.subrange(20, 24));
    }
    let reason_len: u64 = get_le(bytes, at + 20, 4);
    if reason_len > (n - 28) as u64 {
        return None;
    }
    let k: usize = reason_len as usize;
    proof {
        assert(text.subrange(24 + k as int, 28 + k as int) =~= bytes@.subrange(
            at + 24 + k,
            at + 28 + k,
        ));
        lemma_le_of_from_le(text.subrange(24 + k as int, 28 + k as int));
    }
    let payload_len: u64 = get_le(bytes, at + 24 + k, 4);
    if payload_len != (n - 28 - k) as u64 {
        return None;
    }
    let m: usize = payload_len as usize;
    let mut reason: Vec<u8> = Vec::new();
    put_slice(&mut reason, bytes, at + 24, k);
    let mut payload: Vec<u8> = Vec::new();
    put_slice(&mut payload, bytes, at + 28 + k, m);
    proof {
        assert(reason@ =~= text.subrange(24, 24 + k as int));
        assert(payload@ =~= text.subrange(28 + k as int, 28 + k as int + m));
    }
    Some(
        DeadLetter {
            ts_nanos: get_le(bytes, at, 8),
            partition: get_le(bytes, at + 8, 4) as u32 as i32,
            offset: get_le(bytes, at + 12, 8) as i64,
            reason,
            payload,
        },
    )
}

/// The first bytes say which version of the log this is.
#[derive(Clone, Copy, Debug, PartialEq, Eq, Structural)]
pub enum HeaderError {
    /// There are not enough of them.
    Truncated,
    /// They are those of another version: the log has to be converted.
    Mismatch,
}

/// Whether a log that is there can be continued.
pub open spec fn opened(log: Seq<u8>) -> Result<Seq<u8>, HeaderError> {
    if log.len() == 0 {
        Ok(header())
    } else if log.len() < 8 {
        Err(HeaderError::Truncated)
    } else if log.take(8) == header() {
        Ok(Seq::empty())
    } else {
        Err(HeaderError::Mismatch)
    }
}

/// What is to be written to a log before its first record: the header if the log
/// is new, and nothing if it has one.
pub fn open_log(log: &[u8]) -> (r: Result<Vec<u8>, HeaderError>)
    ensures
        match r {
            Ok(start) => opened(log@) == Ok::<Seq<u8>, HeaderError>(start@),
            Err(e) => opened(log@) == Err::<Seq<u8>, HeaderError>(e),
        },
{
    let mut start: Vec<u8> = Vec::new();
    let mark = DLQ_HEADER;
    assert(mark@ =~= header());
    if log.len() == 0 {
        assert(mark@.subrange(0, 8) =~= mark@);
        put_slice(&mut start, mark.as_slice(), 0, 8);
        assert(start@ =~= header());
        return Ok(start);
    }
    if log.len() < 8 {
        return Err(HeaderError::Truncated);
    }
    assert(log@.subrange(0, 8) =~= log@.take(8));
    if has_at(log, 0, mark.as_slice()) {
        assert(start@ =~= Seq::<u8>::empty());
        Ok(start)
    } else {
        Err(HeaderError::Mismatch)
    }
}

/// The letters of a log; `None` if it has no header of this version.
pub fn read_dead_letters(log: &[u8]) -> (r: Option<Vec<DeadLetter>>)
    ensures
        match r {
            Some(list) => log@.len() >= 8 && log@.take(8) == header() && letter_views(list@)
                == letters(log@.skip(8)),
            None => log@.len() < 8 || log@.take(8) != header(),
        },
{
    let size: usize = log.len();
    if size < 8 {
        return None;
    }
    let mark = DLQ_HEADER;
    assert(mark@ =~= header());
    assert(log@.subrange(0, 8) =~= log@.take(8));
    if !has_at(log, 0, mark.as_slice()) {
        return None;
    }
    let mut out: Vec<DeadLetter> = Vec::new();
    let mut at: usize = 8;
    let ghost want = letters(log@.skip(8));
    assert(letter_views(out@) + want =~= want);
    loop
        invariant
            8 <= at <= size == log@.len(),
            want == letters(log@.skip(8)),
            log@.take(8) == header(),
            letter_views(out@) + letters(log@.skip(at as int)) == want,
        decreases size - at,
    {
        let ghost rest = log@.skip(at as int);
        let ghost was = letter_views(out@);
        proof {
            lemma_pow256();
            assert(was + Seq::<LetterView>::empty() =~= was);
        }
        if size - at < 4 {
            return Some(out);
        }
        proof {
            assert(rest.subrange(0, 4) =~= log@.subrange(at as int, at + 4));
            lemma_le_of_from_le(rest.subrange(0, 4));
        }
        let len: u64 = get_le(log, at, 4);
        if ((size - at) as u64) < 12 || len > (size - at - 12) as u64 {
            return Some(out);
        }
        let n: usize = len as usize;
        proof {
            assert(rest.subrange(4, 4 + n as int) =~= log@.subrange(at + 4, at + 4 + n));
            assert(rest.subrange(4 + n as int, 12 + n as int) =~= log@.subrange(
                at + 4 + n,
                at + 12 + n,
            ));
        }
        let checksum: u64 = fnv_extend(FNV_OFFSET, log, at + 4, n);
        if get_le(log, at + 4 + n, 8) != checksum {
            return Some(out);
        }
        match read_letter(log, at + 4, n) {
            None => {
                return Some(out);
            },
            Some(letter) => {
                out.push(letter);
                proof {
                    assert(record_at(rest) == Some((letter@, (12 + n) as nat)));
                    assert(rest.skip(12 + n as int) =~= log@.skip(at + 12 + n));
                    assert(letter_views(out@) =~= was.push(letter@));
                    assert(was.push(letter@) + letters(log@.skip(at + 12 + n)) =~= was + (seq![
                        letter@,
                    ] + letters(log@.skip(at + 12 + n))));
                }
            },
        }
        at = at + 12 + n;
    }
}

proof fn lemma_signed(partition: i32, offset: i64)
    ensures
        partition as u32 as i32 == partition,
        offset as u64 as i64 == offset,
{
    assert(partition as u32 as i32 == partition) by (bit_vector);
    assert(offset as u64 as i64 == offset) by (bit_vector);
}

proof fn lemma_letter_round_trip(letter: LetterView)
    requires
        fits(letter),
    ensures
        letter_in(body(letter)) == Some(letter),
{
    let text = body(letter);
    let n = letter.reason.len() as int;
    let m = letter.payload.len() as int;
    lemma_body_len(letter);
    lemma_signed(letter.partition, letter.offset);
    lemma_pow256();
    lemma_le_len(letter.ts_nanos as nat, 8);
    lemma_le_len(letter.partition as u32 as nat, 4);
    lemma_le_len(letter.offset as u64 as nat, 8);
    lemma_le_len(letter.reason.len(), 4);
    lemma_le_len(letter.payload.len(), 4);
    law_bytes_round_trip(letter.ts_nanos as nat, 8);
    law_bytes_round_trip(letter.partition as u32 as nat, 4);
    law_bytes_round_trip(letter.offset as u64 as nat, 8);
    law_bytes_round_trip(letter.reason.len(), 4);
    law_bytes_round_trip(letter.payload.len(), 4);
    assert(text.subrange(0, 8) =~= le(letter.ts_nanos as nat, 8));
    assert(text.subrange(8, 12) =~= le(letter.partition as u32 as nat, 4));
    assert(text.subrange(12, 20) =~= le(letter.offset as u64 as nat, 8));
    assert(text.subrange(20, 24) =~= le(letter.reason.len(), 4));
    assert(text.subrange(24 + n, 28 + n) =~= le(letter.payload.len(), 4));
    assert(text.subrange(24, 24 + n) =~= letter.reason);
    assert(text.subrange(28 + n, 28 + n + m) =~= letter.payload);
}

/// A letter that was appended is read back before whatever follows it.
pub proof fn law_letter_reads_back(letter: LetterView, rest: Seq<u8>)
    requires
        fits(letter),
    ensures
        letters(frame(letter) + rest) == seq![letter] + letters(rest),
{
    let text = body(letter);
    let n = text.len();
    let all = frame(letter) + rest;
    lemma_body_len(letter);
    lemma_pow256();
    lemma_le_len(n, 4);
    lemma_le_len(fnv(text) as nat, 8);
    law_bytes_round_trip(n, 4);
    law_bytes_round_trip(fnv(text) as nat, 8);
    lemma_letter_round_trip(letter);
    assert(all.subrange(0, 4) =~= le(n, 4));
    assert(all.subrange(4, 4 + n as int) =~= text);
    assert(all.subrange(4 + n as int, 12 + n as int) =~= le(fnv(text) as nat, 8));
    assert(all.skip(12 + n as int) =~= rest);
}

/// A record that was written only in part is dropped.
pub proof fn law_torn_tail_is_dropped(letter: LetterView, written: nat)
    requires
        fits(letter),
        written < frame(letter).len(),
    ensures
        letters(frame(letter).take(written as int)) == Seq::<LetterView>::empty(),
{
    let text = body(letter);
    let torn = frame(letter).take(written as int);
    lemma_body_len(letter);
    lemma_pow256();
    lemma_le_len(text.len(), 4);
    lemma_le_len(fnv(text) as nat, 8);
    law_bytes_round_trip(text.len(), 4);
    if written >= 4 {
        assert(torn.subrange(0, 4) =~= le(text.len(), 4));
    }
}

} // verus!
