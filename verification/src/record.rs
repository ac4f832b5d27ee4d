//! Append-only logs of fixed-size records, each closed by its checksum.

use vstd::prelude::*;

use crate::codec::{
    fnv, fnv_extend, from_le, get_le, law_bytes_round_trip, le, lemma_le_len, lemma_pow256, put_le,
    FNV_OFFSET,
};

verus! {

/// A record body closed by its checksum.
pub open spec fn sealed(body: Seq<u8>) -> Seq<u8> {
    body + le(fnv(body) as nat, 8)
}

/// A record whose checksum matches its body.
pub open spec fn intact(record: Seq<u8>) -> bool {
    &&& record.len() >= 8
    &&& from_le(record.skip(record.len() - 8)) == fnv(record.take(record.len() - 8))
}

/// The bodies of the records of `size` bytes, up to the first one that is torn
/// or corrupt.
pub open spec fn bodies(bytes: Seq<u8>, size: nat) -> Seq<Seq<u8>>
    decreases bytes.len(),
{
    if size < 8 || bytes.len() < size || size == 0 || !intact(bytes.take(size as int)) {
        Seq::empty()
    } else {
        seq![bytes.take(size - 8)] + bodies(bytes.skip(size as int), size)
    }
}

/// The log that holds `list`.
pub open spec fn log_of(list: Seq<Seq<u8>>) -> Seq<u8>
    decreases list.len(),
{
    if list.len() == 0 {
        Seq::empty()
    } else {
        sealed(list[0]) + log_of(list.skip(1))
    }
}

/// A sealed record is intact and yields its body.
pub proof fn lemma_sealed(body: Seq<u8>)
    ensures
        sealed(body).len() == body.len() + 8,
        intact(sealed(body)),
        sealed(body).take(body.len() as int) == body,
{
    lemma_le_len(fnv(body) as nat, 8);
    lemma_pow256();
    law_bytes_round_trip(fnv(body) as nat, 8);
    assert(sealed(body).skip(body.len() as int) =~= le(fnv(body) as nat, 8));
    assert(sealed(body).take(body.len() as int) =~= body);
}

/// A log reads back as what was appended to it, in order, even when it ends in
/// a record that was only partly written.
pub proof fn law_log_reads_back(list: Seq<Seq<u8>>, torn: Seq<u8>, size: nat)
    requires
        size >= 8,
        forall|i: int| 0 <= i < list.len() ==> (#[trigger] list[i]).len() == size - 8,
        torn.len() < size,
    ensures
        bodies(log_of(list) + torn, size) == list,
    decreases list.len(),
{
    let bytes = log_of(list) + torn;
    if list.len() == 0 {
        assert(bytes =~= torn);
        assert(list =~= Seq::<Seq<u8>>::empty());
    } else {
        let rest = list.skip(1);
        assert forall|i: int| 0 <= i < rest.len() implies (#[trigger] rest[i]).len() == size - 8 by {
            assert(rest[i] == list[i + 1]);
        }
        law_log_reads_back(rest, torn, size);
        lemma_sealed(list[0]);
        assert(bytes.take(size as int) =~= sealed(list[0]));
        assert(bytes.take(size - 8) =~= list[0]);
        assert(bytes.skip(size as int) =~= log_of(rest) + torn);
        assert(seq![list[0]] + rest =~= list);
    }
}

/// Cutting a log anywhere loses records only from its end: what is left reads
/// back as a prefix.
pub proof fn law_cut_log_is_prefix(bytes: Seq<u8>, cut: int, size: nat)
    requires
        0 <= cut <= bytes.len(),
    ensures
        bodies(bytes.take(cut), size).len() <= bodies(bytes, size).len(),
        bodies(bytes.take(cut), size) == bodies(bytes, size).take(
            bodies(bytes.take(cut), size).len() as int,
        ),
    decreases bytes.len(),
{
    let less = bytes.take(cut);
    if size >= 8 && less.len() >= size && intact(less.take(size as int)) {
        assert(less.take(size as int) =~= bytes.take(size as int));
        assert(less.take(size - 8) =~= bytes.take(size - 8));
        law_cut_log_is_prefix(bytes.skip(size as int), cut - size, size);
        assert(less.skip(size as int) =~= bytes.skip(size as int).take(cut - size));
        let rest = bodies(bytes.skip(size as int), size);
        let some = bodies(less.skip(size as int), size);
        assert(seq![bytes.take(size - 8)] + rest.take(some.len() as int) =~= (seq![
            bytes.take(size - 8),
        ] + rest).take(some.len() as int + 1));
    } else {
        assert(bodies(less, size) =~= bodies(bytes, size).take(0));
    }
}

/// Closes the record that starts at `from` with its checksum.
pub fn seal(out: &mut Vec<u8>, from: usize)
    requires
        from <= old(out)@.len(),
    ensures
        final(out)@ == old(out)@.take(from as int) + sealed(old(out)@.skip(from as int)),
{
    let n: usize = out.len();
    let h: u64 = fnv_extend(FNV_OFFSET, out.as_slice(), from, n - from);
    proof {
        assert(out@.subrange(from as int, n as int) =~= out@.skip(from as int));
    }
    put_le(out, h, 8);
    assert(out@ =~= old(out)@.take(from as int) + sealed(old(out)@.skip(from as int)));
}

/// Whether a whole record of `size` bytes starts at `at` and is intact.
pub fn intact_at(bytes: &[u8], at: usize, size: usize) -> (r: bool)
    requires
        at <= bytes@.len(),
        size >= 8,
    ensures
        r == (at + size <= bytes@.len() && intact(bytes@.subrange(at as int, at + size))),
{
    if bytes.len() - at < size {
        return false;
    }
    let ghost record = bytes@.subrange(at as int, at + size);
    proof {
        assert(record.skip(size - 8) =~= bytes@.subrange(at + size - 8, at + size));
        assert(record.take(size - 8) =~= bytes@.subrange(at as int, at + (size - 8)));
    }
    let stored: u64 = get_le(bytes, at + (size - 8), 8);
    fnv_extend(FNV_OFFSET, bytes, at, size - 8) == stored
}

/// One more record of a log that starts at `at`.
pub proof fn lemma_bodies_step(bytes: Seq<u8>, at: int, size: nat)
    requires
        0 <= at <= bytes.len(),
        size >= 8,
    ensures
        at + size <= bytes.len() && intact(bytes.subrange(at, at + size)) ==> bodies(
            bytes.skip(at),
            size,
        ) == seq![bytes.subrange(at, at + size - 8)] + bodies(bytes.skip(at + size), size),
        !(at + size <= bytes.len() && intact(bytes.subrange(at, at + size))) ==> bodies(
            bytes.skip(at),
            size,
        ) == Seq::<Seq<u8>>::empty(),
{
    let rest = bytes.skip(at);
    if at + size <= bytes.len() {
        assert(rest.take(size as int) =~= bytes.subrange(at, at + size));
        assert(rest.take(size - 8) =~= bytes.subrange(at, at + size - 8));
        assert(rest.skip(size as int) =~= bytes.skip(at + size));
    }
}

/// The first `n` records of a log are those of its first `n * size` bytes.
pub proof fn lemma_bodies_take(bytes: Seq<u8>, size: nat, n: nat)
    requires
        size >= 8,
        n <= bodies(bytes, size).len(),
    ensures
        n * size <= bytes.len(),
        bodies(bytes.take((n * size) as int), size) == bodies(bytes, size).take(n as int),
    decreases n,
{
    if n == 0 {
        assert(n * size == 0) by (nonlinear_arith)
            requires
                n == 0,
        ;
        assert(bytes.take(0).len() == 0);
        assert(bodies(bytes, size).take(0) =~= Seq::<Seq<u8>>::empty());
    } else {
        let rest = bytes.skip(size as int);
        let m = (n - 1) as nat;
        assert(n * size == m * size + size) by (nonlinear_arith)
            requires
                n == m + 1,
        ;
        assert(bodies(bytes, size).len() == 1 + bodies(rest, size).len());
        lemma_bodies_take(rest, size, m);
        let less = bytes.take((n * size) as int);
        assert(less.take(size as int) =~= bytes.take(size as int));
        assert(less.take(size - 8) =~= bytes.take(size - 8));
        assert(less.skip(size as int) =~= rest.take((m * size) as int));
        assert((seq![bytes.take(size - 8)] + bodies(rest, size)).take(n as int) =~= seq![
            bytes.take(size - 8),
        ] + bodies(rest, size).take(m as int));
    }
}

} // verus!
