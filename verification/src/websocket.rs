//! The server's side of a websocket: the handshake, and frames of text.

use vstd::prelude::*;
use vstd::string::StringExecFns;

use crate::codec::{be, from_be, get_be, lemma_le_len, put_be, put_slice};

verus! {

/// The five words of a SHA-1 state.
#[derive(Clone, Copy, Debug, PartialEq, Eq, Structural)]
pub struct Words {
    pub a: u32,
    pub b: u32,
    pub c: u32,
    pub d: u32,
    pub e: u32,
}

/// The state that SHA-1 starts with.
pub open spec fn initial() -> Words {
    Words { a: 0x67452301, b: 0xEFCDAB89, c: 0x98BADCFE, d: 0x10325476, e: 0xC3D2E1F0 }
}

/// A word rotated to the left.
pub open spec fn rotl(x: u32, n: u32) -> u32 {
    (x << n) | (x >> ((32 - n) as u32))
}

fn rotate(x: u32, n: u32) -> (r: u32)
    requires
        0 < n < 32,
    ensures
        r == rotl(x, n),
{
    (x << n) | (x >> (32 - n))
}

/// Word `t` of the schedule of a block: the sixteen words of the block, and then
/// words mixed from earlier ones.
pub open spec fn schedule(block: Seq<u8>, t: nat) -> u32
    decreases t,
{
    if t < 16 {
        from_be(block.subrange(4 * t as int, 4 * t as int + 4)) as u32
    } else {
        rotl(
            schedule(block, (t - 3) as nat) ^ schedule(block, (t - 8) as nat) ^ schedule(
                block,
                (t - 14) as nat,
            ) ^ schedule(block, (t - 16) as nat),
            1,
        )
    }
}

/// The function and the constant of round `t`.
pub open spec fn round_function(s: Words, t: int) -> (u32, u32) {
    if t < 20 {
        ((s.b & s.c) | (!s.b & s.d), 0x5A827999u32)
    } else if t < 40 {
        (s.b ^ s.c ^ s.d, 0x6ED9EBA1u32)
    } else if t < 60 {
        ((s.b & s.c) | (s.b & s.d) | (s.c & s.d), 0x8F1BBCDCu32)
    } else {
        (s.b ^ s.c ^ s.d, 0xCA62C1D6u32)
    }
}

/// The state after round `t` with word `w`.
pub open spec fn round(s: Words, t: int, w: u32) -> Words {
    let (f, k) = round_function(s, t);
    Words {
        a: rotl(s.a, 5).wrapping_add(f).wrapping_add(s.e).wrapping_add(k).wrapping_add(w),
        b: s.a,
        c: rotl(s.b, 30),
        d: s.c,
        e: s.d,
    }
}

/// The state after the first `n` rounds over a block.
pub open spec fn rounds(s: Words, block: Seq<u8>, n: nat) -> Words
    decreases n,
{
    if n == 0 {
        s
    } else {
        round(rounds(s, block, (n - 1) as nat), n - 1, schedule(block, (n - 1) as nat))
    }
}

/// The state after a block.
pub open spec fn compressed(s: Words, block: Seq<u8>) -> Words {
    let t = rounds(s, block, 80);
    Words {
        a: s.a.wrapping_add(t.a),
        b: s.b.wrapping_add(t.b),
        c: s.c.wrapping_add(t.c),
        d: s.d.wrapping_add(t.d),
        e: s.e.wrapping_add(t.e),
    }
}

/// The state after the first `n` blocks of a message.
pub open spec fn hashed(message: Seq<u8>, n: nat) -> Words
    decreases n,
{
    if n == 0 {
        initial()
    } else {
        compressed(
            hashed(message, (n - 1) as nat),
            message.subrange(64 * (n - 1), 64 * n as int),
        )
    }
}

/// How many zeros fill a message of `len` bytes up: with the mark before them and
/// the length behind them it is made of whole blocks.
pub open spec fn filler(len: nat) -> nat {
    ((119 - len % 64) % 64) as nat
}

/// A message with its end marked, filled up, and with its length in bits.
pub open spec fn padded(data: Seq<u8>) -> Seq<u8> {
    data + seq![0x80u8] + Seq::new(filler(data.len()), |i: int| 0u8) + be(8 * data.len(), 8)
}

/// The SHA-1 digest of a message.
pub open spec fn digest(data: Seq<u8>) -> Seq<u8> {
    let message = padded(data);
    let s = hashed(message, message.len() / 64);
    be(s.a as nat, 4) + be(s.b as nat, 4) + be(s.c as nat, 4) + be(s.d as nat, 4) + be(
        s.e as nat,
        4,
    )
}

/// A padded message is made of whole blocks.
pub proof fn law_padding_fills_blocks(data: Seq<u8>)
    ensures
        padded(data).len() % 64 == 0,
        padded(data).len() > 0,
{
    lemma_le_len(8 * data.len(), 8);
    let n = data.len();
    assert(padded(data).len() == n + 1 + filler(n) + 8);
}

fn expand(message: &Vec<u8>, at: usize) -> (r: Vec<u32>)
    requires
        at + 64 <= message@.len(),
    ensures
        r@.len() == 80,
        forall|t: int|
            0 <= t < 80 ==> #[trigger] r@[t] == schedule(
                message@.subrange(at as int, at + 64),
                t as nat,
            ),
{
    let ghost block = message@.subrange(at as int, at + 64);
    let mut w: Vec<u32> = Vec::new();
    let mut t: usize = 0;
    let size: usize = message.len();
    while t < 16
        invariant
            t <= 16,
            at + 64 <= size == message@.len(),
            block == message@.subrange(at as int, at + 64),
            w@.len() == t,
            forall|i: int| 0 <= i < t ==> #[trigger] w@[i] == schedule(block, i as nat),
        decreases 16 - t,
    {
        assert(block.subrange(4 * t as int, 4 * t + 4) =~= message@.subrange(
            at + 4 * t,
            at + 4 * t + 4,
        ));
        w.push(get_be(message.as_slice(), at + 4 * t, 4) as u32);
        t += 1;
    }
    while t < 80
        invariant
            16 <= t <= 80,
            w@.len() == t,
            forall|i: int| 0 <= i < t ==> #[trigger] w@[i] == schedule(block, i as nat),
        decreases 80 - t,
    {
        let mix: u32 = w[t - 3] ^ w[t - 8] ^ w[t - 14] ^ w[t - 16];
        w.push(rotate(mix, 1));
        t += 1;
    }
    w
}

fn compress(s: Words, message: &Vec<u8>, at: usize) -> (r: Words)
    requires
        at + 64 <= message@.len(),
    ensures
        r == compressed(s, message@.subrange(at as int, at + 64)),
{
    let ghost block = message@.subrange(at as int, at + 64);
    let w = expand(message, at);
    let mut x = s;
    let mut t: usize = 0;
    while t < 80
        invariant
            t <= 80,
            w@.len() == 80,
            forall|i: int| 0 <= i < 80 ==> #[trigger] w@[i] == schedule(block, i as nat),
            x == rounds(s, block, t as nat),
        decreases 80 - t,
    {
        let (f, k): (u32, u32) = if t < 20 {
            ((x.b & x.c) | (!x.b & x.d), 0x5A827999)
        } else if t < 40 {
            (x.b ^ x.c ^ x.d, 0x6ED9EBA1)
        } else if t < 60 {
            ((x.b & x.c) | (x.b & x.d) | (x.c & x.d), 0x8F1BBCDC)
        } else {
            (x.b ^ x.c ^ x.d, 0xCA62C1D6)
        };
        let a: u32 = rotate(x.a, 5).wrapping_add(f).wrapping_add(x.e).wrapping_add(
            k,
        ).wrapping_add(w[t]);
        x = Words { a, b: x.a, c: rotate(x.b, 30), d: x.c, e: x.d };
        t += 1;
    }
    Words {
        a: s.a.wrapping_add(x.a),
        b: s.b.wrapping_add(x.b),
        c: s.c.wrapping_add(x.c),
        d: s.d.wrapping_add(x.d),
        e: s.e.wrapping_add(x.e),
    }
}

fn pad(data: &[u8]) -> (r: Vec<u8>)
    requires
        8 * data@.len() <= u64::MAX,
        data@.len() + 72 <= usize::MAX,
    ensures
        r@ == padded(data@),
{
    let n: usize = data.len();
    let mut out: Vec<u8> = Vec::new();
    assert(data@.subrange(0, n as int) =~= data@);
    put_slice(&mut out, data, 0, n);
    out.push(0x80);
    let fill: usize = (119 - n % 64) % 64;
    let ghost head = out@;
    let mut i: usize = 0;
    assert(head + Seq::new(0, |j: int| 0u8) =~= head);
    while i < fill
        invariant
            i <= fill,
            out@ == head + Seq::new(i as nat, |j: int| 0u8),
        decreases fill - i,
    {
        out.push(0);
        i += 1;
        assert(out@ =~= head + Seq::new(i as nat, |j: int| 0u8));
    }
    put_be(&mut out, 8 * n as u64, 8);
    proof {
        assert(head =~= data@ + seq![0x80u8]);
        assert(out@ =~= padded(data@));
    }
    out
}

/// The SHA-1 digest of a message. The handshake needs it; it is no protection.
pub fn sha1(data: &[u8]) -> (r: Vec<u8>)
    requires
        8 * data@.len() <= u64::MAX,
        data@.len() + 72 <= usize::MAX,
    ensures
        r@ == digest(data@),
        r@.len() == 20,
{
    let message = pad(data);
    proof {
        law_padding_fills_blocks(data@);
    }
    let size: usize = message.len();
    let n: usize = size / 64;
    let mut s = Words {
        a: 0x67452301,
        b: 0xEFCDAB89,
        c: 0x98BADCFE,
        d: 0x10325476,
        e: 0xC3D2E1F0,
    };
    let mut i: usize = 0;
    while i < n
        invariant
            i <= n,
            64 * n <= size == message@.len(),
            s == hashed(message@, i as nat),
        decreases n - i,
    {
        s = compress(s, &message, 64 * i);
        i += 1;
    }
    let mut out: Vec<u8> = Vec::new();
    put_be(&mut out, s.a as u64, 4);
    put_be(&mut out, s.b as u64, 4);
    put_be(&mut out, s.c as u64, 4);
    put_be(&mut out, s.d as u64, 4);
    put_be(&mut out, s.e as u64, 4);
    proof {
        lemma_le_len(s.a as nat, 4);
        lemma_le_len(s.b as nat, 4);
        lemma_le_len(s.c as nat, 4);
        lemma_le_len(s.d as nat, 4);
        lemma_le_len(s.e as nat, 4);
        assert(out@ =~= digest(data@));
    }
    out
}

/// The character for six bits.
pub open spec fn letter(n: int) -> char {
    if n < 26 {
        (65 + n) as char
    } else if n < 52 {
        (71 + n) as char
    } else if n < 62 {
        (n - 4) as char
    } else if n == 62 {
        '+'
    } else {
        '/'
    }
}

fn to_letter(n: u8) -> (r: char)
    requires
        n < 64,
    ensures
        r == letter(n as int),
{
    if n < 26 {
        (65 + n) as char
    } else if n < 52 {
        (71 + n) as char
    } else if n < 62 {
        (n - 4) as char
    } else if n == 62 {
        '+'
    } else {
        '/'
    }
}

/// Four characters for up to three bytes: six bits each, and a filler for each
/// byte that is missing.
pub open spec fn quartet(part: Seq<u8>) -> Seq<char> {
    let x = part[0] as int;
    let y = if part.len() > 1 {
        part[1] as int
    } else {
        0
    };
    let z = if part.len() > 2 {
        part[2] as int
    } else {
        0
    };
    seq![
        letter(x / 4),
        letter((x % 4) * 16 + y / 16),
        if part.len() > 1 {
            letter((y % 16) * 4 + z / 64)
        } else {
            '='
        },
        if part.len() > 2 {
            letter(z % 64)
        } else {
            '='
        },
    ]
}

/// The base-64 form of bytes.
pub open spec fn encoded(data: Seq<u8>) -> Seq<char>
    decreases data.len(),
{
    if data.len() == 0 {
        Seq::empty()
    } else if data.len() <= 3 {
        quartet(data)
    } else {
        quartet(data.take(3)) + encoded(data.skip(3))
    }
}

/// The base-64 form of bytes.
pub fn base64(data: &[u8]) -> (r: String)
    ensures
        r@ == encoded(data@),
{
    let size: usize = data.len();
    let mut out = String::new();
    let mut at: usize = 0;
    proof {
        assert(data@.skip(0) =~= data@);
        assert(out@ + encoded(data@) =~= encoded(data@));
    }
    while at < size
        invariant
            at <= size == data@.len(),
            out@ + encoded(data@.skip(at as int)) == encoded(data@),
        decreases size - at,
    {
        let ghost rest = data@.skip(at as int);
        let ghost was = out@;
        let left: usize = size - at;
        let x: u8 = data[at];
        let y: u8 = if left > 1 {
            data[at + 1]
        } else {
            0
        };
        let z: u8 = if left > 2 {
            data[at + 2]
        } else {
            0
        };
        let third: char = if left > 1 {
            to_letter((y % 16) * 4 + z / 64)
        } else {
            '='
        };
        let fourth: char = if left > 2 {
            to_letter(z % 64)
        } else {
            '='
        };
        out.push(to_letter(x / 4));
        out.push(to_letter((x % 4) * 16 + y / 16));
        out.push(third);
        out.push(fourth);
        let n: usize = if left < 3 {
            left
        } else {
            3
        };
        proof {
            let part = if rest.len() <= 3 {
                rest
            } else {
                rest.take(3)
            };
            assert(out@ =~= was + quartet(part));
            if rest.len() <= 3 {
                assert(data@.skip(at + n) =~= Seq::<u8>::empty());
                assert(out@ + encoded(data@.skip(at + n)) =~= was + encoded(rest));
            } else {
                assert(rest.skip(3) =~= data@.skip(at + 3));
                assert(out@ + encoded(data@.skip(at + 3)) =~= was + (quartet(part) + encoded(
                    rest.skip(3),
                )));
            }
        }
        at += n;
    }
    proof {
        assert(data@.skip(at as int) =~= Seq::<u8>::empty());
        assert(out@ + Seq::<char>::empty() =~= out@);
    }
    out
}

/// Base 64 has four characters for every three bytes begun.
pub proof fn law_base64_length(data: Seq<u8>)
    ensures
        encoded(data).len() == 4 * ((data.len() + 2) / 3),
    decreases data.len(),
{
    if data.len() > 3 {
        law_base64_length(data.skip(3));
    }
}

/// What a server answers a key with in the handshake: the base-64 form of the
/// digest of the key and a fixed text.
pub open spec fn accepted_key(key: Seq<u8>) -> Seq<char> {
    encoded(digest(key + guid()))
}

/// The fixed text of the handshake, `258EAFA5-E914-47DA-95CA-C5AB0DC85B11`.
pub open spec fn guid() -> Seq<u8> {
    seq![
        50u8, 53, 56, 69, 65, 70, 65, 53, 45, 69, 57, 49, 52, 45, 52, 55, 68, 65, 45, 57, 53, 67,
        65, 45, 67, 53, 65, 66, 48, 68, 67, 56, 53, 66, 49, 49,
    ]
}

/// The answer to a handshake.
pub open spec fn handshake(key: Seq<u8>) -> Seq<char> {
    "HTTP/1.1 101 Switching Protocols\r\nUpgrade: websocket\r\nConnection: Upgrade\r\nSec-WebSocket-Accept: "@
        + accepted_key(key) + "\r\n\r\n"@
}

/// The answer to a handshake with this key, which is text.
pub fn handshake_reply(key: &[u8]) -> (r: String)
    requires
        8 * (key@.len() + 36) <= u64::MAX,
        key@.len() + 108 <= usize::MAX,
    ensures
        r@ == handshake(key@),
{
    let tail: [u8; 36] = [
        50, 53, 56, 69, 65, 70, 65, 53, 45, 69, 57, 49, 52, 45, 52, 55, 68, 65, 45, 57, 53, 67, 65,
        45, 67, 53, 65, 66, 48, 68, 67, 56, 53, 66, 49, 49,
    ];
    assert(tail@ =~= guid());
    let mut text: Vec<u8> = Vec::new();
    assert(key@.subrange(0, key@.len() as int) =~= key@);
    put_slice(&mut text, key, 0, key.len());
    assert(tail@.subrange(0, 36) =~= tail@);
    put_slice(&mut text, tail.as_slice(), 0, 36);
    assert(text@ =~= key@ + guid());
    let hash = sha1(text.as_slice());
    let accept = base64(hash.as_slice());
    let mut out = String::new();
    out.append(
        "HTTP/1.1 101 Switching Protocols\r\nUpgrade: websocket\r\nConnection: Upgrade\r\nSec-WebSocket-Accept: ",
    );
    assert(out@
        =~= "HTTP/1.1 101 Switching Protocols\r\nUpgrade: websocket\r\nConnection: Upgrade\r\nSec-WebSocket-Accept: "@);
    out.append(accept.as_str());
    out.append("\r\n\r\n");
    out
}

/// The head of a text frame from the server: final, of text, unmasked, and with
/// the length in the shortest form that fits.
pub open spec fn text_head(len: nat) -> Seq<u8> {
    if len <= 125 {
        seq![0x81u8, len as u8]
    } else if len <= 65535 {
        seq![0x81u8, 126u8] + be(len, 2)
    } else {
        seq![0x81u8, 127u8] + be(len, 8)
    }
}

/// The head of a text frame of `len` bytes.
pub fn text_frame_head(len: usize) -> (r: Vec<u8>)
    ensures
        r@ == text_head(len as nat),
{
    let mut out: Vec<u8> = Vec::new();
    out.push(0x81);
    if len <= 125 {
        out.push(len as u8);
    } else if len <= 65535 {
        out.push(126);
        put_be(&mut out, len as u64, 2);
    } else {
        out.push(127);
        put_be(&mut out, len as u64, 8);
    }
    assert(out@ =~= text_head(len as nat));
    out
}

/// What the first two bytes of a frame from a client say.
#[derive(Clone, Copy, Debug, PartialEq, Eq, Structural)]
pub struct ClientHead {
    /// The client closes the connection.
    pub close: bool,
    pub masked: bool,
    /// The length, or that it follows in two or in eight bytes.
    pub len: u8,
}

/// What the first two bytes of a frame say.
pub open spec fn client_head(first: u8, second: u8) -> ClientHead {
    ClientHead { close: first % 16 == 8, masked: second >= 128, len: second % 128 }
}

/// Reads the first two bytes of a frame from a client.
pub fn read_client_head(first: u8, second: u8) -> (r: ClientHead)
    ensures
        r == client_head(first, second),
{
    ClientHead { close: first % 16 == 8, masked: second >= 128, len: second % 128 }
}

impl ClientHead {
    /// How many more bytes the length takes.
    pub open spec fn extra(self) -> nat {
        if self.len == 126 {
            2
        } else if self.len == 127 {
            8
        } else {
            0
        }
    }

    /// How many more bytes the length takes.
    pub fn extra_len(&self) -> (r: usize)
        ensures
            r == self.extra(),
    {
        if self.len == 126 {
            2
        } else if self.len == 127 {
            8
        } else {
            0
        }
    }

    /// How many bytes of the frame are left behind its length: the payload, and
    /// the mask before it.
    pub fn rest_len(&self, extra: &[u8]) -> (r: u128)
        requires
            extra@.len() == self.extra(),
        ensures
            r == (if self.extra() == 0 {
                self.len as nat
            } else {
                from_be(extra@)
            }) + (if self.masked {
                4nat
            } else {
                0
            }),
    {
        assert(extra@.subrange(0, extra@.len() as int) =~= extra@);
        let len: u64 = if extra.len() == 0 {
            self.len as u64
        } else {
            get_be(extra, 0, extra.len())
        };
        if self.masked {
            len as u128 + 4
        } else {
            len as u128
        }
    }
}

/// No two six-bit numbers have one letter.
proof fn lemma_letters_differ(a: int, b: int)
    requires
        0 <= a < 64,
        0 <= b < 64,
        letter(a) == letter(b),
    ensures
        a == b,
{
    assert(0 <= a < 26 ==> letter(a) as int == 65 + a);
    assert(26 <= a < 52 ==> letter(a) as int == 71 + a);
    assert(52 <= a < 62 ==> letter(a) as int == a - 4);
    assert(0 <= b < 26 ==> letter(b) as int == 65 + b);
    assert(26 <= b < 52 ==> letter(b) as int == 71 + b);
    assert(52 <= b < 62 ==> letter(b) as int == b - 4);
}

/// Three bytes are written as four letters of six bits each, the highest first, and the
/// letters tell the bits.
pub proof fn law_letters_tell_their_bits(x: u8, y: u8, z: u8, p: int, q: int, r: int, s: int)
    requires
        0 <= p < 64,
        0 <= q < 64,
        0 <= r < 64,
        0 <= s < 64,
    ensures
        quartet(seq![x, y, z]) == seq![letter(p), letter(q), letter(r), letter(s)] <==> ((p * 64 + q)
            * 64 + r) * 64 + s == (x * 256 + y) * 256 + z,
{
    let a = x as int / 4;
    let b = (x as int % 4) * 16 + y as int / 16;
    let c = (y as int % 16) * 4 + z as int / 64;
    let d = z as int % 64;
    let four = quartet(seq![x, y, z]);
    let want = seq![letter(p), letter(q), letter(r), letter(s)];
    assert(four =~= seq![letter(a), letter(b), letter(c), letter(d)]);
    assert(((a * 64 + b) * 64 + c) * 64 + d == (x * 256 + y) * 256 + z);
    if four == want {
        assert(four[0] == want[0] && four[1] == want[1] && four[2] == want[2] && four[3] == want[3]);
        lemma_letters_differ(a, p);
        lemma_letters_differ(b, q);
        lemma_letters_differ(c, r);
        lemma_letters_differ(d, s);
    }
}

/// The head of a frame tells that it is a whole text, unmasked, and how long it is, to whoever
/// reads it as a head is read.
pub proof fn law_text_heads_tell_the_length(len: nat)
    requires
        len <= u64::MAX,
    ensures
        ({
            let head = text_head(len);
            let said = client_head(head[0], head[1]);
            &&& head[0] == 128 + 1
            &&& !said.close && !said.masked
            &&& head.len() == 2 + said.extra()
            &&& said.extra() == 0 ==> said.len == len
            &&& said.extra() > 0 ==> from_be(head.skip(2)) == len
        }),
{
    crate::codec::lemma_pow256();
    crate::codec::lemma_le_len(len, 2);
    crate::codec::lemma_le_len(len, 8);
    let head = text_head(len);
    if len > 65535 {
        crate::codec::law_bytes_round_trip(len, 8);
        assert(head.skip(2) =~= be(len, 8));
    } else if len > 125 {
        crate::codec::law_bytes_round_trip(len, 2);
        assert(head.skip(2) =~= be(len, 2));
    }
}

} // verus!
