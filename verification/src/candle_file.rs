//! The file of a candle history: a header, then one sealed record for each candle.

use vstd::prelude::*;

use crate::codec::{from_le, get_le, has_at, law_bytes_round_trip, lemma_pow256, put_le, put_slice};
use crate::kline::{Candle, CandleRow};
use crate::record::{
    bodies, intact_at, law_log_reads_back, lemma_bodies_step, log_of, seal, sealed,
};
use crate::wire::{lemma_words_at, lemma_words_len, words_le};

verus! {

/// First bytes of a candle history.
pub const CANDLE_HEADER: [u8; 8] = [84, 67, 75, 76, 1, 0, 0, 0];

/// Size of a record.
pub const CANDLE_RECORD_LEN: usize = 80;

/// The bytes `TCKL`, version 1.
pub open spec fn candle_header() -> Seq<u8> {
    seq![84u8, 67, 75, 76, 1, 0, 0, 0]
}

/// The fields of a row.
pub open spec fn row_words(row: CandleRow) -> Seq<u64> {
    seq![
        row.instrument as u64,
        row.interval as u64,
        row.candle.start,
        row.candle.open,
        row.candle.high,
        row.candle.low,
        row.candle.close,
        row.candle.volume,
        row.candle.trades as u64,
    ]
}

/// Field `k` of a record's body.
pub open spec fn field(body: Seq<u8>, k: int) -> u64 {
    from_le(body.subrange(8 * k, 8 * k + 8)) as u64
}

/// The row that a record's body holds; `None` if a field is out of its range.
pub open spec fn row_in(body: Seq<u8>) -> Option<CandleRow> {
    if field(body, 0) > u32::MAX || field(body, 1) > u32::MAX || field(body, 8) > u32::MAX {
        None
    } else {
        Some(
            CandleRow {
                instrument: field(body, 0) as u32,
                interval: field(body, 1) as u32,
                candle: Candle {
                    start: field(body, 2),
                    open: field(body, 3),
                    high: field(body, 4),
                    low: field(body, 5),
                    close: field(body, 6),
                    volume: field(body, 7),
                    trades: field(body, 8) as u32,
                },
            },
        )
    }
}

/// The rows of bodies, if each of them holds one.
pub open spec fn rows_in(list: Seq<Seq<u8>>) -> Option<Seq<CandleRow>>
    decreases list.len(),
{
    if list.len() == 0 {
        Some(Seq::empty())
    } else {
        match (rows_in(list.drop_last()), row_in(list.last())) {
            (Some(front), Some(row)) => Some(front.push(row)),
            _ => None,
        }
    }
}

/// The bodies of rows.
pub open spec fn row_bodies(rows: Seq<CandleRow>) -> Seq<Seq<u8>> {
    rows.map_values(|row: CandleRow| words_le(row_words(row)))
}

/// The records of rows, one after the other.
pub open spec fn row_records(rows: Seq<CandleRow>) -> Seq<u8>
    decreases rows.len(),
{
    if rows.len() == 0 {
        Seq::empty()
    } else {
        row_records(rows.drop_last()) + sealed(words_le(row_words(rows.last())))
    }
}

/// The file of a candle history.
pub open spec fn history_of(rows: Seq<CandleRow>) -> Seq<u8> {
    candle_header() + row_records(rows)
}

/// The rows of a file, up to the first record that is torn or corrupt; `None` if it
/// is of another format or version.
pub open spec fn history_in(file: Seq<u8>) -> Option<Seq<CandleRow>> {
    if file.len() < 8 || file.take(8) != candle_header() {
        None
    } else {
        rows_in(bodies(file.skip(8), CANDLE_RECORD_LEN as nat))
    }
}

proof fn lemma_row_body(row: CandleRow)
    ensures
        words_le(row_words(row)).len() == 72,
        row_in(words_le(row_words(row))) == Some(row),
{
    let words = row_words(row);
    let body = words_le(words);
    lemma_words_len(words);
    lemma_pow256();
    assert forall|k: int| 0 <= k < 9 implies #[trigger] field(body, k) == words[k] by {
        lemma_words_at(words, k);
        law_bytes_round_trip(words[k] as nat, 8);
    }
    assert(field(body, 0) == words[0] && field(body, 1) == words[1] && field(body, 2) == words[2]);
    assert(field(body, 3) == words[3] && field(body, 4) == words[4] && field(body, 5) == words[5]);
    assert(field(body, 6) == words[6] && field(body, 7) == words[7] && field(body, 8) == words[8]);
}

proof fn lemma_rows(rows: Seq<CandleRow>)
    ensures
        rows_in(row_bodies(rows)) == Some(rows),
        forall|i: int| 0 <= i < rows.len() ==> (#[trigger] row_bodies(rows)[i]).len() == 72,
    decreases rows.len(),
{
    let list = row_bodies(rows);
    if rows.len() == 0 {
        assert(rows =~= Seq::<CandleRow>::empty());
    } else {
        lemma_rows(rows.drop_last());
        assert(list.drop_last() =~= row_bodies(rows.drop_last()));
        lemma_row_body(rows.last());
        assert(rows =~= rows.drop_last().push(rows.last()));
        assert forall|i: int| 0 <= i < rows.len() implies (#[trigger] list[i]).len() == 72 by {
            lemma_row_body(rows[i]);
        }
    }
}

proof fn lemma_records_are_log(rows: Seq<CandleRow>)
    ensures
        row_records(rows) == log_of(row_bodies(rows)),
    decreases rows.len(),
{
    if rows.len() > 0 {
        let front = rows.drop_last();
        lemma_records_are_log(front);
        let body = words_le(row_words(rows.last()));
        assert(row_bodies(rows) =~= row_bodies(front).push(body));
        lemma_log_push(row_bodies(front), body);
    } else {
        assert(row_bodies(rows) =~= Seq::<Seq<u8>>::empty());
    }
}

proof fn lemma_log_push(list: Seq<Seq<u8>>, body: Seq<u8>)
    ensures
        log_of(list.push(body)) == log_of(list) + sealed(body),
    decreases list.len(),
{
    let longer = list.push(body);
    if list.len() == 0 {
        assert(longer.skip(1) =~= Seq::<Seq<u8>>::empty());
        assert(log_of(longer.skip(1)) =~= Seq::<u8>::empty());
        assert(longer[0] == body);
        assert(log_of(longer) =~= log_of(list) + sealed(body));
    } else {
        assert(longer.skip(1) =~= list.skip(1).push(body));
        lemma_log_push(list.skip(1), body);
        assert(log_of(longer) =~= log_of(list) + sealed(body));
    }
}

/// A history's file reads back as the history, even when it ends in a record that
/// was only partly written.
pub proof fn law_history_round_trip(rows: Seq<CandleRow>, torn: Seq<u8>)
    requires
        torn.len() < CANDLE_RECORD_LEN,
    ensures
        history_in(history_of(rows) + torn) == Some(rows),
{
    let file = history_of(rows) + torn;
    lemma_rows(rows);
    lemma_records_are_log(rows);
    law_log_reads_back(row_bodies(rows), torn, CANDLE_RECORD_LEN as nat);
    assert(file.take(8) =~= candle_header());
    assert(file.skip(8) =~= log_of(row_bodies(rows)) + torn);
}

/// The file of a candle history.
pub fn encode_history(rows: &Vec<CandleRow>) -> (r: Vec<u8>)
    ensures
        r@ == history_of(rows@),
{
    let mut out: Vec<u8> = Vec::new();
    let header = CANDLE_HEADER;
    put_slice(&mut out, header.as_slice(), 0, 8);
    assert(out@ =~= candle_header());
    assert(rows@.take(0) =~= Seq::<CandleRow>::empty());
    assert(candle_header() + row_records(rows@.take(0)) =~= candle_header());
    let mut i: usize = 0;
    while i < rows.len()
        invariant
            i <= rows@.len(),
            out@ == candle_header() + row_records(rows@.take(i as int)),
        decreases rows@.len() - i,
    {
        let row = rows[i];
        let words: [u64; 9] = [
            row.instrument as u64,
            row.interval as u64,
            row.candle.start,
            row.candle.open,
            row.candle.high,
            row.candle.low,
            row.candle.close,
            row.candle.volume,
            row.candle.trades as u64,
        ];
        assert(words@ =~= row_words(row));
        let from: usize = out.len();
        let ghost before = out@;
        let mut k: usize = 0;
        assert(words@.take(0) =~= Seq::<u64>::empty());
        assert(before + words_le(words@.take(0)) =~= before);
        while k < 9
            invariant
                k <= 9,
                out@ == before + words_le(words@.take(k as int)),
            decreases 9 - k,
        {
            put_le(&mut out, words[k], 8);
            proof {
                let next = words@.take(k + 1);
                assert(next.drop_last() =~= words@.take(k as int));
                assert(out@ =~= before + words_le(next));
            }
            k += 1;
        }
        proof {
            assert(words@.take(k as int) =~= words@);
            assert(out@.take(from as int) =~= before);
            assert(out@.skip(from as int) =~= words_le(words@));
        }
        seal(&mut out, from);
        proof {
            let next = rows@.take(i + 1);
            assert(next.drop_last() =~= rows@.take(i as int));
            assert(out@ =~= candle_header() + row_records(next));
        }
        i += 1;
    }
    assert(rows@.take(i as int) =~= rows@);
    out
}

fn read_row(file: &[u8], at: usize) -> (r: Option<CandleRow>)
    requires
        at + 72 <= file@.len(),
    ensures
        r == row_in(file@.subrange(at as int, at + 72)),
{
    let size: usize = file.len();
    assert(at + 72 <= size);
    let ghost body = file@.subrange(at as int, at + 72);
    let mut w: [u64; 9] = [0; 9];
    let mut k: usize = 0;
    while k < 9
        invariant
            k <= 9,
            at + 72 <= size == file@.len(),
            body == file@.subrange(at as int, at + 72),
            forall|j: int| 0 <= j < k ==> #[trigger] w@[j] == field(body, j),
        decreases 9 - k,
    {
        let v: u64 = get_le(file, at + 8 * k, 8);
        assert(file@.subrange(at + 8 * k, at + 8 * k + 8) =~= body.subrange(8 * k, 8 * k + 8));
        w[k] = v;
        k += 1;
    }
    assert(w@[0] == field(body, 0) && w@[1] == field(body, 1) && w@[2] == field(body, 2));
    assert(w@[3] == field(body, 3) && w@[4] == field(body, 4) && w@[5] == field(body, 5));
    assert(w@[6] == field(body, 6) && w@[7] == field(body, 7) && w@[8] == field(body, 8));
    if w[0] > 0xffff_ffff || w[1] > 0xffff_ffff || w[8] > 0xffff_ffff {
        return None;
    }
    Some(
        CandleRow {
            instrument: w[0] as u32,
            interval: w[1] as u32,
            candle: Candle {
                start: w[2],
                open: w[3],
                high: w[4],
                low: w[5],
                close: w[6],
                volume: w[7],
                trades: w[8] as u32,
            },
        },
    )
}

proof fn lemma_rows_stop(list: Seq<Seq<u8>>, k: int)
    requires
        0 <= k < list.len(),
        row_in(list[k]) is None,
    ensures
        rows_in(list) is None,
    decreases list.len(),
{
    if k < list.len() - 1 {
        assert(list.drop_last()[k] == list[k]);
        lemma_rows_stop(list.drop_last(), k);
    }
}

/// The rows of a file, up to the first record that is torn or corrupt; `None` if it
/// is of another format or version.
pub fn decode_history(file: &[u8]) -> (r: Option<Vec<CandleRow>>)
    ensures
        match r {
            Some(rows) => history_in(file@) == Some(rows@),
            None => history_in(file@) is None,
        },
{
    let size: usize = file.len();
    let header = CANDLE_HEADER;
    if size < 8 {
        return None;
    }
    proof {
        assert(file@.subrange(0, 8) =~= file@.take(8));
        assert(header@ =~= candle_header());
    }
    if !has_at(file, 0, header.as_slice()) {
        return None;
    }
    let ghost all = bodies(file@.skip(8), 80);
    let mut rows: Vec<CandleRow> = Vec::new();
    let mut at: usize = 8;
    let ghost mut done: Seq<Seq<u8>> = Seq::empty();
    assert(done + all =~= all);
    while intact_at(file, at, CANDLE_RECORD_LEN)
        invariant
            at <= size == file@.len(),
            all == bodies(file@.skip(8), 80),
            all == done + bodies(file@.skip(at as int), 80),
            rows_in(done) == Some(rows@),
            history_in(file@) == rows_in(all),
        decreases size - at,
    {
        let ghost body = file@.subrange(at as int, at + 72);
        let ghost rest = bodies(file@.skip(at + 80), 80);
        proof {
            lemma_bodies_step(file@, at as int, 80);
            assert(done + (seq![body] + rest) =~= done.push(body) + rest);
        }
        match read_row(file, at) {
            Some(row) => {
                rows.push(row);
                proof {
                    assert(done.push(body).drop_last() =~= done);
                    done = done.push(body);
                }
            },
            None => {
                proof {
                    assert(all[done.len() as int] == body);
                    lemma_rows_stop(all, done.len() as int);
                }
                return None;
            },
        }
        at = at + CANDLE_RECORD_LEN;
    }
    proof {
        lemma_bodies_step(file@, at as int, 80);
        assert(done + Seq::<Seq<u8>>::empty() =~= done);
    }
    Some(rows)
}

} // verus!
