//! Fixed-width integers in bytes, and the checksum that closes every record.

use vstd::prelude::*;

verus! {

/// `256` to the power `n`.
pub open spec fn pow256(n: nat) -> nat
    decreases n,
{
    if n == 0 {
        1
    } else {
        256 * pow256((n - 1) as nat)
    }
}

/// The `n` low bytes of `v`, least significant first.
pub open spec fn le(v: nat, n: nat) -> Seq<u8>
    decreases n,
{
    if n == 0 {
        Seq::empty()
    } else {
        seq![(v % 256) as u8] + le(v / 256, (n - 1) as nat)
    }
}

/// The number whose bytes are `s`, least significant first.
pub open spec fn from_le(s: Seq<u8>) -> nat
    decreases s.len(),
{
    if s.len() == 0 {
        0
    } else {
        s[0] as nat + 256 * from_le(s.skip(1))
    }
}

/// The `n` low bytes of `v`, most significant first.
pub open spec fn be(v: nat, n: nat) -> Seq<u8> {
    le(v, n).reverse()
}

/// The number whose bytes are `s`, most significant first.
pub open spec fn from_be(s: Seq<u8>) -> nat {
    from_le(s.reverse())
}

/// `n` bytes are `n` bytes long.
pub proof fn lemma_le_len(v: nat, n: nat)
    ensures
        le(v, n).len() == n,
        be(v, n).len() == n,
    decreases n,
{
    if n > 0 {
        lemma_le_len(v / 256, (n - 1) as nat);
    }
}

/// Reading back what was written gives the number, in either byte order.
pub proof fn law_bytes_round_trip(v: nat, n: nat)
    requires
        v < pow256(n),
    ensures
        from_le(le(v, n)) == v,
        from_be(be(v, n)) == v,
    decreases n,
{
    lemma_le_len(v, n);
    assert(be(v, n).reverse() =~= le(v, n));
    if n > 0 {
        let rest = (n - 1) as nat;
        lemma_le_len(v / 256, rest);
        assert(le(v, n).skip(1) =~= le(v / 256, rest));
        law_bytes_round_trip(v / 256, rest);
    }
}

/// Writing back what was read gives the bytes.
pub proof fn lemma_le_of_from_le(s: Seq<u8>)
    ensures
        le(from_le(s), s.len()) == s,
        from_le(s) < pow256(s.len()),
    decreases s.len(),
{
    if s.len() > 0 {
        let rest = s.skip(1);
        lemma_le_of_from_le(rest);
        let v = from_le(s);
        assert(v % 256 == s[0] && v / 256 == from_le(rest));
        assert(seq![s[0]] + rest =~= s);
        assert(rest.len() == (s.len() - 1) as nat);
    } else {
        assert(le(0, 0) =~= s);
    }
}

/// The powers that the record formats use.
pub proof fn lemma_pow256()
    ensures
        pow256(1) == 0x100,
        pow256(4) == 0x1_0000_0000,
        pow256(8) == 0x1_0000_0000_0000_0000,
{
    reveal_with_fuel(pow256, 9);
}

proof fn lemma_pow256_mono(a: nat, b: nat)
    requires
        a <= b,
    ensures
        pow256(a) <= pow256(b),
        pow256(a) >= 1,
    decreases b,
{
    if a < b {
        lemma_pow256_mono(a, (b - 1) as nat);
    } else if a > 0 {
        lemma_pow256_mono((a - 1) as nat, (a - 1) as nat);
    }
}

/// Appends the `n` low bytes of `v`, least significant first.
pub fn put_le(out: &mut Vec<u8>, v: u64, n: usize)
    ensures
        final(out)@ == old(out)@ + le(v as nat, n as nat),
{
    let mut left: u64 = v;
    let mut i: usize = 0;
    while i < n
        invariant
            i <= n,
            old(out)@ + le(v as nat, n as nat) == out@ + le(left as nat, (n - i) as nat),
        decreases n - i,
    {
        let b: u8 = (left % 256) as u8;
        proof {
            let rest = le((left / 256) as nat, (n - i - 1) as nat);
            assert(out@ + (seq![b] + rest) =~= out@.push(b) + rest);
        }
        out.push(b);
        left = left / 256;
        i = i + 1;
    }
    assert(out@ + le(left as nat, 0) =~= out@);
}

/// Appends the `n` low bytes of `v`, most significant first.
pub fn put_be(out: &mut Vec<u8>, v: u64, n: usize)
    ensures
        final(out)@ == old(out)@ + be(v as nat, n as nat),
{
    let mut low: Vec<u8> = Vec::new();
    put_le(&mut low, v, n);
    proof {
        lemma_le_len(v as nat, n as nat);
        assert(low@ =~= le(v as nat, n as nat));
    }
    let mut i: usize = n;
    while i > 0
        invariant
            i <= n,
            low@ == le(v as nat, n as nat),
            low@.len() == n,
            out@ =~= old(out)@ + be(v as nat, n as nat).take(n - i),
        decreases i,
    {
        i = i - 1;
        out.push(low[i]);
    }
    proof {
        lemma_le_len(v as nat, n as nat);
        assert(be(v as nat, n as nat).take(n as int) =~= be(v as nat, n as nat));
    }
}

/// The number in the `n` bytes from `at` on, least significant first.
pub fn get_le(bytes: &[u8], at: usize, n: usize) -> (r: u64)
    requires
        at + n <= bytes@.len(),
        n <= 8,
    ensures
        r == from_le(bytes@.subrange(at as int, at + n)),
{
    let size: usize = bytes.len();
    let mut v: u64 = 0;
    let mut i: usize = n;
    proof {
        assert(bytes@.subrange(at + n, at + n) =~= Seq::<u8>::empty());
        lemma_pow256();
    }
    while i > 0
        invariant
            size == bytes@.len(),
            i <= n <= 8,
            at + n <= bytes@.len(),
            v == from_le(bytes@.subrange(at + i, at + n)),
        decreases i,
    {
        i = i - 1;
        let ghost s = bytes@.subrange(at + i, at + n);
        proof {
            assert(s.skip(1) =~= bytes@.subrange(at + i + 1, at + n));
            lemma_le_of_from_le(s);
            lemma_pow256_mono(s.len(), 8);
            lemma_pow256();
        }
        v = bytes[at + i] as u64 + 256 * v;
    }
    v
}

/// The number in the `n` bytes from `at` on, most significant first.
pub fn get_be(bytes: &[u8], at: usize, n: usize) -> (r: u64)
    requires
        at + n <= bytes@.len(),
        n <= 8,
    ensures
        r == from_be(bytes@.subrange(at as int, at + n)),
{
    let size: usize = bytes.len();
    let mut v: u64 = 0;
    let mut i: usize = 0;
    proof {
        assert(bytes@.subrange(at as int, at as int).reverse() =~= Seq::<u8>::empty());
    }
    while i < n
        invariant
            size == bytes@.len(),
            i <= n <= 8,
            at + n <= bytes@.len(),
            v == from_be(bytes@.subrange(at as int, at + i)),
        decreases n - i,
    {
        let ghost s = bytes@.subrange(at as int, at + i + 1).reverse();
        proof {
            assert(s.skip(1) =~= bytes@.subrange(at as int, at + i).reverse());
            lemma_le_of_from_le(s);
            lemma_pow256_mono(s.len(), 8);
            lemma_pow256();
        }
        v = bytes[at + i] as u64 + 256 * v;
        i = i + 1;
    }
    v
}

/// Appends `n` bytes from `at` on.
pub fn put_slice(out: &mut Vec<u8>, bytes: &[u8], at: usize, n: usize)
    requires
        at + n <= bytes@.len(),
    ensures
        final(out)@ == old(out)@ + bytes@.subrange(at as int, at + n),
{
    let size: usize = bytes.len();
    let mut i: usize = 0;
    while i < n
        invariant
            size == bytes@.len(),
            i <= n,
            at + n <= bytes@.len(),
            out@ =~= old(out)@ + bytes@.subrange(at as int, at + i),
        decreases n - i,
    {
        out.push(bytes[at + i]);
        i = i + 1;
    }
}

/// Whether two byte strings are equal.
pub fn same_bytes(a: &[u8], b: &[u8]) -> (r: bool)
    ensures
        r == (a@ == b@),
{
    if a.len() != b.len() {
        return false;
    }
    let mut i: usize = 0;
    while i < a.len()
        invariant
            i <= a@.len(),
            a@.len() == b@.len(),
            forall|k: int| 0 <= k < i ==> a@[k] == b@[k],
        decreases a@.len() - i,
    {
        if a[i] != b[i] {
            return false;
        }
        i = i + 1;
    }
    assert(a@ =~= b@);
    true
}

/// Whether the bytes from `at` on begin with `prefix`.
pub fn has_at(bytes: &[u8], at: usize, prefix: &[u8]) -> (r: bool)
    requires
        at + prefix@.len() <= bytes@.len(),
    ensures
        r == (bytes@.subrange(at as int, at + prefix@.len()) == prefix@),
{
    let size: usize = bytes.len();
    let mut i: usize = 0;
    while i < prefix.len()
        invariant
            size == bytes@.len(),
            i <= prefix@.len(),
            at + prefix@.len() <= bytes@.len(),
            forall|k: int| 0 <= k < i ==> bytes@[at + k] == #[trigger] prefix@[k],
        decreases prefix@.len() - i,
    {
        if bytes[at + i] != prefix[i] {
            assert(bytes@.subrange(at as int, at + prefix@.len())[i as int] != prefix@[i as int]);
            return false;
        }
        i = i + 1;
    }
    assert(bytes@.subrange(at as int, at + prefix@.len()) =~= prefix@);
    true
}

/// Start value of the checksum.
pub const FNV_OFFSET: u64 = 0xcbf29ce484222325;

/// Multiplier of the checksum.
pub const FNV_PRIME: u64 = 0x100000001b3;

/// The checksum `h` extended by `bytes`: for each byte, exclusive or, then
/// multiply.
pub open spec fn fnv_from(h: u64, bytes: Seq<u8>) -> u64
    decreases bytes.len(),
{
    if bytes.len() == 0 {
        h
    } else {
        let x = fnv_from(h, bytes.drop_last()) ^ (bytes.last() as u64);
        ((x as nat * FNV_PRIME as nat) % 0x1_0000_0000_0000_0000) as u64
    }
}

/// The 64-bit FNV-1a checksum.
pub open spec fn fnv(bytes: Seq<u8>) -> u64 {
    fnv_from(FNV_OFFSET, bytes)
}

/// Extending by two runs is extending by their concatenation.
pub proof fn lemma_fnv_concat(h: u64, a: Seq<u8>, b: Seq<u8>)
    ensures
        fnv_from(h, a + b) == fnv_from(fnv_from(h, a), b),
    decreases b.len(),
{
    if b.len() == 0 {
        assert(a + b =~= a);
    } else {
        lemma_fnv_concat(h, a, b.drop_last());
        assert((a + b).drop_last() =~= a + b.drop_last());
    }
}

/// Extends the checksum `h` by `n` bytes from `at` on.
pub fn fnv_extend(h: u64, bytes: &[u8], at: usize, n: usize) -> (r: u64)
    requires
        at + n <= bytes@.len(),
    ensures
        r == fnv_from(h, bytes@.subrange(at as int, at + n)),
{
    let size: usize = bytes.len();
    let mut x: u64 = h;
    let mut i: usize = 0;
    assert(bytes@.subrange(at as int, at as int) =~= Seq::<u8>::empty());
    while i < n
        invariant
            size == bytes@.len(),
            i <= n,
            at + n <= bytes@.len(),
            x == fnv_from(h, bytes@.subrange(at as int, at + i)),
        decreases n - i,
    {
        proof {
            assert(bytes@.subrange(at as int, at + i + 1).drop_last() =~= bytes@.subrange(
                at as int,
                at + i,
            ));
        }
        let y: u64 = x ^ (bytes[at + i] as u64);
        x = y.wrapping_mul(FNV_PRIME);
        proof {
            assert((y * FNV_PRIME) as nat == y as nat * FNV_PRIME as nat);
        }
        i = i + 1;
    }
    x
}

/// Byte `i` of a number, counted from the least significant one, is its digit at that place
/// to the base 256; the other order is the same bytes backwards.
pub proof fn law_bytes_are_digits(v: nat, n: nat, i: int)
    requires
        0 <= i < n,
    ensures
        le(v, n).len() == n,
        le(v, n)[i] == (v / pow256(i as nat)) % 256,
        be(v, n).len() == n,
        be(v, n)[n - 1 - i] == le(v, n)[i],
    decreases n,
{
    lemma_le_len(v, n);
    if i == 0 {
        assert(pow256(0) == 1);
        assert(v / 1 == v);
    } else {
        law_bytes_are_digits(v / 256, (n - 1) as nat, i - 1);
        let p = pow256((i - 1) as nat);
        lemma_pow256_positive((i - 1) as nat);
        assert(pow256(i as nat) == 256 * p);
        vstd::arithmetic::div_mod::lemma_div_denominator(v as int, 256, p as int);
        assert(le(v, n)[i] == le(v / 256, (n - 1) as nat)[i - 1]);
    }
}

proof fn lemma_pow256_positive(n: nat)
    ensures
        pow256(n) > 0,
    decreases n,
{
    if n > 0 {
        lemma_pow256_positive((n - 1) as nat);
    }
}

/// The checksum of nothing is the start value, and each further byte is mixed in by exclusive
/// or before the whole is multiplied, in 64 bits.
pub proof fn law_checksum_takes_byte_by_byte(bytes: Seq<u8>, b: u8)
    ensures
        fnv(Seq::empty()) == 14695981039346656037,
        fnv(bytes.push(b)) == ((fnv(bytes) ^ (b as u64)) as nat * 1099511628211) % 18446744073709551616,
{
    assert(bytes.push(b).drop_last() =~= bytes);
    assert(FNV_PRIME == 1099511628211);
    assert(FNV_OFFSET == 14695981039346656037);
}

} // verus!
