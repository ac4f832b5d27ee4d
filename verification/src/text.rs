//! Text: characters, fields, and decimal numbers.

use vstd::prelude::*;
use vstd::slice::slice_subrange;

verus! {

/// `String::push` appends one character.
pub assume_specification[ String::push ](s: &mut String, c: char)
    ensures
        final(s)@ == old(s)@.push(c),
;

/// The characters of a string.
pub fn chars_of(s: &str) -> (r: Vec<char>)
    ensures
        r@ == s@,
{
    let mut out: Vec<char> = Vec::new();
    for c in it: s.chars()
        invariant
            it.seq() == s@,
            out@ == it.seq().take(it.index() as int),
    {
        let ghost was = out@;
        out.push(c);
        assert(it.seq().take(it.index() + 1) =~= was.push(c));
    }
    assert(out@ =~= s@);
    out
}

/// Appends characters to a string.
pub fn push_chars(out: &mut String, chars: &[char])
    ensures
        final(out)@ == old(out)@ + chars@,
{
    let mut i: usize = 0;
    assert(out@ =~= old(out)@ + chars@.take(0));
    while i < chars.len()
        invariant
            i <= chars@.len(),
            out@ == old(out)@ + chars@.take(i as int),
        decreases chars@.len() - i,
    {
        out.push(chars[i]);
        i += 1;
        assert(out@ =~= old(out)@ + chars@.take(i as int));
    }
    assert(chars@.take(i as int) =~= chars@);
}

/// The string with the given characters.
pub fn text_of(chars: &[char]) -> (r: String)
    ensures
        r@ == chars@,
{
    let mut out = String::new();
    push_chars(&mut out, chars);
    assert(out@ =~= chars@);
    out
}

/// Whether `part` stands at `at` in `chars`.
pub fn text_at(chars: &[char], at: usize, part: &[char]) -> (r: bool)
    requires
        at <= chars@.len(),
    ensures
        r == (at + part@.len() <= chars@.len() && chars@.subrange(at as int, at + part@.len())
            == part@),
{
    if chars.len() - at < part.len() {
        return false;
    }
    let mut i: usize = 0;
    while i < part.len()
        invariant
            i <= part@.len(),
            at + part@.len() <= chars@.len(),
            chars@.len() <= usize::MAX,
            forall|j: int| 0 <= j < i ==> chars@[at + j] == #[trigger] part@[j],
        decreases part@.len() - i,
    {
        if chars[at + i] != part[i] {
            assert(chars@.subrange(at as int, at + part@.len())[i as int] != part@[i as int]);
            return false;
        }
        i += 1;
    }
    assert(chars@.subrange(at as int, at + part@.len()) =~= part@);
    true
}

/// Whether `chars` is the string `text`.
pub fn is_text(chars: &[char], text: &str) -> (r: bool)
    ensures
        r == (chars@ == text@),
{
    let want = chars_of(text);
    if chars.len() != want.len() {
        return false;
    }
    assert(chars@.subrange(0, chars@.len() as int) =~= chars@);
    text_at(chars, 0, want.as_slice())
}

/// Whether `chars` starts with `prefix`.
pub open spec fn has_prefix(chars: Seq<char>, prefix: Seq<char>) -> bool {
    prefix.len() <= chars.len() && chars.take(prefix.len() as int) == prefix
}

/// What follows `prefix`, if `chars` starts with it.
pub fn strip_prefix<'a>(chars: &'a [char], prefix: &str) -> (r: Option<&'a [char]>)
    ensures
        match r {
            Some(rest) => has_prefix(chars@, prefix@) && rest@ == chars@.skip(
                prefix@.len() as int,
            ),
            None => !has_prefix(chars@, prefix@),
        },
{
    let want = chars_of(prefix);
    let n: usize = want.len();
    if text_at(chars, 0, want.as_slice()) {
        assert(chars@.subrange(0, n as int) =~= chars@.take(n as int));
        assert(chars@.subrange(n as int, chars@.len() as int) =~= chars@.skip(n as int));
        Some(slice_subrange(chars, n, chars.len()))
    } else {
        proof {
            if n <= chars@.len() {
                assert(chars@.subrange(0, n as int) =~= chars@.take(n as int));
            }
        }
        None
    }
}

/// Position of the first `c`, or the length if there is none.
pub open spec fn find(chars: Seq<char>, c: char) -> nat
    decreases chars.len(),
{
    if chars.len() == 0 || chars[0] == c {
        0
    } else {
        1 + find(chars.skip(1), c)
    }
}

/// The first `c` is where nothing before it is one.
pub proof fn lemma_find(chars: Seq<char>, c: char, at: int)
    requires
        0 <= at <= chars.len(),
        forall|i: int| 0 <= i < at ==> #[trigger] chars[i] != c,
        at == chars.len() || chars[at] == c,
    ensures
        find(chars, c) == at,
    decreases chars.len(),
{
    if at > 0 {
        let rest = chars.skip(1);
        assert(chars[0] != c);
        assert forall|i: int| 0 <= i < at - 1 implies #[trigger] rest[i] != c by {
            assert(chars[i + 1] != c);
        }
        lemma_find(rest, c, at - 1);
    }
}

/// Position of the first `c` from `from` on, or the length if there is none.
pub fn find_from(chars: &[char], from: usize, c: char) -> (r: usize)
    requires
        from <= chars@.len(),
    ensures
        r == from + find(chars@.skip(from as int), c),
        from <= r <= chars@.len(),
        r < chars@.len() ==> chars@[r as int] == c,
{
    let mut i: usize = from;
    while i < chars.len() && chars[i] != c
        invariant
            from <= i <= chars@.len(),
            forall|j: int| from <= j < i ==> #[trigger] chars@[j] != c,
        decreases chars@.len() - i,
    {
        i += 1;
    }
    proof {
        let rest = chars@.skip(from as int);
        assert forall|j: int| 0 <= j < i - from implies #[trigger] rest[j] != c by {
            assert(chars@[from + j] != c);
        }
        lemma_find(rest, c, i - from);
    }
    i
}

/// The part before the first `c` and the part after it.
pub open spec fn cut(chars: Seq<char>, c: char) -> Option<(Seq<char>, Seq<char>)> {
    let at = find(chars, c) as int;
    if at < chars.len() {
        Some((chars.take(at), chars.skip(at + 1)))
    } else {
        None
    }
}

/// Splits at the first `c`.
pub fn split_once<'a>(chars: &'a [char], c: char) -> (r: Option<(&'a [char], &'a [char])>)
    ensures
        match r {
            Some((before, after)) => cut(chars@, c) == Some((before@, after@)),
            None => cut(chars@, c) is None,
        },
{
    assert(chars@.skip(0) =~= chars@);
    let at: usize = find_from(chars, 0, c);
    if at < chars.len() {
        assert(chars@.subrange(0, at as int) =~= chars@.take(at as int));
        assert(chars@.subrange(at + 1, chars@.len() as int) =~= chars@.skip(at + 1));
        Some((slice_subrange(chars, 0, at), slice_subrange(chars, at + 1, chars.len())))
    } else {
        None
    }
}

/// The fields between `sep` characters.
pub open spec fn fields(chars: Seq<char>, sep: char) -> Seq<Seq<char>>
    decreases chars.len(),
{
    let at = find(chars, sep) as int;
    if at < chars.len() {
        seq![chars.take(at)] + fields(chars.skip(at + 1), sep)
    } else {
        seq![chars]
    }
}

/// What a list of texts holds.
pub open spec fn texts(list: Seq<Vec<char>>) -> Seq<Seq<char>> {
    Seq::new(list.len(), |i: int| list[i]@)
}

/// Copies the characters from `from` to `to`.
pub fn copy_chars(chars: &[char], from: usize, to: usize) -> (r: Vec<char>)
    requires
        from <= to <= chars@.len(),
    ensures
        r@ == chars@.subrange(from as int, to as int),
{
    let mut out: Vec<char> = Vec::new();
    let mut i: usize = from;
    while i < to
        invariant
            from <= i <= to <= chars@.len(),
            out@ == chars@.subrange(from as int, i as int),
        decreases to - i,
    {
        out.push(chars[i]);
        i += 1;
        assert(out@ =~= chars@.subrange(from as int, i as int));
    }
    out
}

/// Splits at every `sep`.
pub fn split(chars: &[char], sep: char) -> (r: Vec<Vec<char>>)
    ensures
        texts(r@) == fields(chars@, sep),
{
    let mut out: Vec<Vec<char>> = Vec::new();
    let mut from: usize = 0;
    proof {
        assert(chars@.skip(0) =~= chars@);
        assert(texts(out@) + fields(chars@, sep) =~= fields(chars@, sep));
    }
    loop
        invariant
            from <= chars@.len(),
            texts(out@) + fields(chars@.skip(from as int), sep) == fields(chars@, sep),
        decreases chars@.len() - from,
    {
        let at: usize = find_from(chars, from, sep);
        let piece = copy_chars(chars, from, at);
        let ghost was = texts(out@);
        let ghost rest = chars@.skip(from as int);
        out.push(piece);
        proof {
            assert(texts(out@) =~= was.push(piece@));
            assert(rest.take(at - from) =~= piece@);
            if at < chars@.len() {
                assert(rest.skip(at - from + 1) =~= chars@.skip(at + 1));
                assert(was.push(piece@) + fields(chars@.skip(at + 1), sep) =~= was + (seq![piece@]
                    + fields(chars@.skip(at + 1), sep)));
            } else {
                assert(rest =~= piece@);
                assert(was.push(piece@) =~= was + seq![piece@]);
            }
        }
        if at == chars.len() {
            return out;
        }
        from = at + 1;
    }
}

/// White space, as Unicode defines it.
pub open spec fn is_space(c: char) -> bool {
    ||| '\t' <= c <= '\r'
    ||| c == ' '
    ||| c == '\u{85}'
    ||| c == '\u{a0}'
    ||| c == '\u{1680}'
    ||| '\u{2000}' <= c <= '\u{200a}'
    ||| c == '\u{2028}'
    ||| c == '\u{2029}'
    ||| c == '\u{202f}'
    ||| c == '\u{205f}'
    ||| c == '\u{3000}'
}

fn space(c: char) -> (r: bool)
    ensures
        r == is_space(c),
{
    ('\t' <= c && c <= '\r') || c == ' ' || c == '\u{85}' || c == '\u{a0}' || c == '\u{1680}' || (
    '\u{2000}' <= c && c <= '\u{200a}') || c == '\u{2028}' || c == '\u{2029}' || c == '\u{202f}'
        || c == '\u{205f}' || c == '\u{3000}'
}

/// Text without the white space at its ends.
pub open spec fn trimmed(chars: Seq<char>) -> Seq<char>
    decreases chars.len(),
{
    if chars.len() > 0 && is_space(chars[0]) {
        trimmed(chars.skip(1))
    } else if chars.len() > 0 && is_space(chars.last()) {
        trimmed(chars.drop_last())
    } else {
        chars
    }
}

/// Removes the white space at both ends.
pub fn trim(chars: &[char]) -> (r: &[char])
    ensures
        r@ == trimmed(chars@),
{
    let mut from: usize = 0;
    let mut to: usize = chars.len();
    assert(chars@.subrange(0, to as int) =~= chars@);
    while from < to && space(chars[from])
        invariant
            from <= to == chars@.len(),
            trimmed(chars@.subrange(from as int, to as int)) == trimmed(chars@),
        decreases to - from,
    {
        assert(chars@.subrange(from as int, to as int).skip(1) =~= chars@.subrange(
            from + 1,
            to as int,
        ));
        from += 1;
    }
    while from < to && space(chars[to - 1])
        invariant
            from <= to <= chars@.len(),
            from < to ==> !is_space(chars@[from as int]),
            trimmed(chars@.subrange(from as int, to as int)) == trimmed(chars@),
        decreases to - from,
    {
        assert(chars@.subrange(from as int, to as int).drop_last() =~= chars@.subrange(
            from as int,
            to - 1,
        ));
        to -= 1;
    }
    slice_subrange(chars, from, to)
}

/// The digit `d`.
pub open spec fn digit(d: nat) -> char {
    (48 + d) as char
}

/// `n` in decimal, without leading zeros.
pub open spec fn decimal(n: nat) -> Seq<char>
    decreases n,
{
    if n < 10 {
        seq![digit(n)]
    } else {
        decimal(n / 10).push(digit(n % 10))
    }
}

/// The last `width` decimal digits of `n`, with leading zeros.
pub open spec fn padded(n: nat, width: nat) -> Seq<char>
    decreases width,
{
    if width == 0 {
        Seq::empty()
    } else {
        padded(n / 10, (width - 1) as nat).push(digit(n % 10))
    }
}

fn digit_char(d: u64) -> (r: char)
    requires
        d < 10,
    ensures
        r == digit(d as nat),
{
    (48 + d as u8) as char
}

/// Appends `n` in decimal.
pub fn push_decimal(out: &mut String, n: u64)
    ensures
        final(out)@ == old(out)@ + decimal(n as nat),
    decreases n,
{
    if n >= 10 {
        push_decimal(out, n / 10);
    }
    out.push(digit_char(n % 10));
    assert(out@ =~= old(out)@ + decimal(n as nat));
}

/// Appends `n` in decimal.
pub fn push_decimal_wide(out: &mut String, n: u128)
    ensures
        final(out)@ == old(out)@ + decimal(n as nat),
    decreases n,
{
    if n >= 10 {
        push_decimal_wide(out, n / 10);
    }
    out.push(digit_char((n % 10) as u64));
    assert(out@ =~= old(out)@ + decimal(n as nat));
}

/// Appends the last `width` decimal digits of `n`.
pub fn push_padded(out: &mut String, n: u64, width: usize)
    ensures
        final(out)@ == old(out)@ + padded(n as nat, width as nat),
    decreases width,
{
    if width > 0 {
        push_padded(out, n / 10, width - 1);
        out.push(digit_char(n % 10));
    }
    assert(out@ =~= old(out)@ + padded(n as nat, width as nat));
}

/// Only decimal digits.
pub open spec fn all_digits(chars: Seq<char>) -> bool {
    forall|i: int| 0 <= i < chars.len() ==> '0' <= #[trigger] chars[i] <= '9'
}

/// The value of decimal digits.
pub open spec fn value(chars: Seq<char>) -> nat
    decreases chars.len(),
{
    if chars.len() == 0 {
        0
    } else {
        (value(chars.drop_last()) * 10 + (chars.last() as nat - 48)) as nat
    }
}

/// The number that `chars` is the decimal notation of; one plus sign may lead.
pub open spec fn number(chars: Seq<char>) -> Option<nat> {
    let digits = if chars.len() > 1 && chars[0] == '+' {
        chars.skip(1)
    } else {
        chars
    };
    if digits.len() > 0 && all_digits(digits) {
        Some(value(digits))
    } else {
        None
    }
}

/// Parses a decimal number of at most `max`.
pub fn parse_number(chars: &[char], max: u64) -> (r: Option<u64>)
    ensures
        r == match number(chars@) {
            Some(n) => if n <= max {
                Some(n as u64)
            } else {
                None
            },
            None => None,
        },
{
    let size: usize = chars.len();
    let from: usize = if size > 1 && chars[0] == '+' {
        1
    } else {
        0
    };
    let ghost digits = chars@.skip(from as int);
    proof {
        assert(from == 0 ==> digits =~= chars@);
        assert(digits.take(0) =~= Seq::<char>::empty());
    }
    if from == size {
        return None;
    }
    let mut n: u64 = 0;
    let mut i: usize = from;
    let mut over: bool = false;
    while i < size
        invariant
            from <= i <= size == chars@.len(),
            digits == chars@.skip(from as int),
            digits == if chars@.len() > 1 && chars@[0] == '+' {
                chars@.skip(1)
            } else {
                chars@
            },
            all_digits(digits.take(i - from)),
            over ==> value(digits.take(i - from)) > max,
            !over ==> n == value(digits.take(i - from)) <= max,
        decreases size - i,
    {
        let c: char = chars[i];
        let ghost at = (i - from) as int;
        assert(digits[at] == c);
        if c < '0' || c > '9' {
            assert(!all_digits(digits));
            return None;
        }
        let d: u64 = c as u64 - 48;
        proof {
            let next = digits.take(at + 1);
            assert(next.drop_last() =~= digits.take(at));
            assert forall|j: int| 0 <= j < next.len() implies '0' <= #[trigger] next[j] <= '9' by {
                if j < at {
                    assert(digits.take(at)[j] == digits[j]);
                }
            }
        }
        if !over {
            let wide: u128 = n as u128 * 10 + d as u128;
            if wide <= max as u128 {
                n = wide as u64;
            } else {
                over = true;
            }
        }
        i += 1;
    }
    assert(digits.take(i - from) =~= digits);
    if over {
        None
    } else {
        Some(n)
    }
}

/// A number's decimal notation parses as the number.
pub proof fn law_decimal_parses(n: nat)
    ensures
        number(decimal(n)) == Some(n),
        decimal(n).len() > 0,
        all_digits(decimal(n)),
        value(decimal(n)) == n,
    decreases n,
{
    let d = decimal(n);
    if n >= 10 {
        law_decimal_parses(n / 10);
        assert(d.drop_last() =~= decimal(n / 10));
        assert forall|i: int| 0 <= i < d.len() implies '0' <= #[trigger] d[i] <= '9' by {
            if i < d.len() - 1 {
                assert(decimal(n / 10)[i] == d[i]);
            }
        }
    } else {
        assert(d.drop_last() =~= Seq::<char>::empty());
        assert(value(d.drop_last()) == 0);
    }
    assert('0' <= d[0] <= '9');
}

/// Ten to the power of `n`.
pub open spec fn pow10(n: nat) -> nat
    decreases n,
{
    if n == 0 {
        1
    } else {
        10 * pow10((n - 1) as nat)
    }
}

/// A number of at most `width` digits parses from its padded notation.
pub proof fn law_padded_parses(n: nat, width: nat)
    requires
        n < pow10(width),
    ensures
        padded(n, width).len() == width,
        all_digits(padded(n, width)),
        value(padded(n, width)) == n,
        width > 0 ==> number(padded(n, width)) == Some(n),
    decreases width,
{
    let p = padded(n, width);
    if width > 0 {
        law_padded_parses(n / 10, (width - 1) as nat);
        let front = padded(n / 10, (width - 1) as nat);
        assert(p.drop_last() =~= front);
        assert forall|i: int| 0 <= i < p.len() implies '0' <= #[trigger] p[i] <= '9' by {
            if i < p.len() - 1 {
                assert(front[i] == p[i]);
            }
        }
        assert('0' <= p[0] <= '9');
    }
}

/// Text without the white space at its start.
pub open spec fn unindented(chars: Seq<char>) -> Seq<char>
    decreases chars.len(),
{
    if chars.len() > 0 && is_space(chars[0]) {
        unindented(chars.skip(1))
    } else {
        chars
    }
}

/// Number of characters before the first white space.
pub open spec fn word_len(chars: Seq<char>) -> nat
    decreases chars.len(),
{
    if chars.len() == 0 || is_space(chars[0]) {
        0
    } else {
        1 + word_len(chars.skip(1))
    }
}

/// Word number `n` of a text, its words being what stands between white space.
pub open spec fn word_at(chars: Seq<char>, n: nat) -> Option<Seq<char>>
    decreases n,
{
    let text = unindented(chars);
    let len = word_len(text) as int;
    if text.len() == 0 {
        None
    } else if n == 0 {
        Some(text.take(len))
    } else {
        word_at(text.skip(len), (n - 1) as nat)
    }
}

/// Word number `n` of a text.
pub fn nth_word(chars: &[char], n: usize) -> (r: Option<&[char]>)
    ensures
        match r {
            Some(word) => word_at(chars@, n as nat) == Some(word@),
            None => word_at(chars@, n as nat) is None,
        },
    decreases n,
{
    let size: usize = chars.len();
    let mut from: usize = 0;
    assert(chars@.skip(0) =~= chars@);
    while from < size && space(chars[from])
        invariant
            from <= size == chars@.len(),
            unindented(chars@.skip(from as int)) == unindented(chars@),
        decreases size - from,
    {
        assert(chars@.skip(from as int).skip(1) =~= chars@.skip(from + 1));
        from += 1;
    }
    let ghost text = chars@.skip(from as int);
    assert(text == unindented(chars@));
    if from == size {
        return None;
    }
    let mut to: usize = from;
    assert(text.skip(0) =~= text);
    while to < size && !space(chars[to])
        invariant
            from <= to <= size == chars@.len(),
            text == chars@.skip(from as int),
            word_len(text) == (to - from) + word_len(text.skip(to - from)),
        decreases size - to,
    {
        assert(text.skip(to - from).skip(1) =~= text.skip(to - from + 1));
        to += 1;
    }
    assert(chars@.subrange(from as int, to as int) =~= text.take(to - from));
    if n == 0 {
        return Some(slice_subrange(chars, from, to));
    }
    assert(chars@.subrange(to as int, size as int) =~= text.skip(to - from));
    nth_word(slice_subrange(chars, to, size), n - 1)
}

/// Position of the first occurrence of `part`.
pub open spec fn occurrence(chars: Seq<char>, part: Seq<char>) -> Option<nat>
    decreases chars.len(),
{
    if has_prefix(chars, part) {
        Some(0)
    } else if chars.len() == 0 {
        None
    } else {
        match occurrence(chars.skip(1), part) {
            Some(n) => Some(n + 1),
            None => None,
        }
    }
}

/// Position of the first occurrence of `part`.
pub fn find_text(chars: &[char], part: &str) -> (r: Option<usize>)
    ensures
        match r {
            Some(at) => occurrence(chars@, part@) == Some(at as nat) && at + part@.len()
                <= chars@.len(),
            None => occurrence(chars@, part@) is None,
        },
{
    let want = chars_of(part);
    let size: usize = chars.len();
    let mut at: usize = 0;
    assert(chars@.skip(0) =~= chars@);
    loop
        invariant
            at <= size == chars@.len(),
            want@ == part@,
            occurrence(chars@, part@) == match occurrence(chars@.skip(at as int), part@) {
                Some(n) => Some((n + at) as nat),
                None => None,
            },
        decreases size - at,
    {
        let ghost rest = chars@.skip(at as int);
        proof {
            if at + part@.len() <= size {
                assert(chars@.subrange(at as int, at + part@.len()) =~= rest.take(
                    part@.len() as int,
                ));
            }
        }
        if text_at(chars, at, want.as_slice()) {
            return Some(at);
        }
        if at == size {
            return None;
        }
        assert(rest.skip(1) =~= chars@.skip(at + 1));
        at += 1;
    }
}

/// Number of decimal digits at the start.
pub open spec fn digit_run(chars: Seq<char>) -> nat
    decreases chars.len(),
{
    if chars.len() > 0 && '0' <= chars[0] <= '9' {
        1 + digit_run(chars.skip(1))
    } else {
        0
    }
}

/// Number of decimal digits at the start.
pub fn count_digits(chars: &[char]) -> (r: usize)
    ensures
        r == digit_run(chars@),
        r <= chars@.len(),
{
    let size: usize = chars.len();
    let mut i: usize = 0;
    assert(chars@.skip(0) =~= chars@);
    while i < size && '0' <= chars[i] && chars[i] <= '9'
        invariant
            i <= size == chars@.len(),
            digit_run(chars@) == i + digit_run(chars@.skip(i as int)),
        decreases size - i,
    {
        assert(chars@.skip(i as int).skip(1) =~= chars@.skip(i + 1));
        i += 1;
    }
    i
}

/// The run of digits at the start of digits followed by something else.
pub proof fn lemma_digit_run(digits: Seq<char>, rest: Seq<char>)
    requires
        all_digits(digits),
        rest.len() == 0 || !('0' <= rest[0] <= '9'),
    ensures
        digit_run(digits + rest) == digits.len(),
    decreases digits.len(),
{
    let all = digits + rest;
    if digits.len() > 0 {
        let tail = digits.skip(1);
        assert('0' <= digits[0] <= '9');
        assert forall|i: int| 0 <= i < tail.len() implies '0' <= #[trigger] tail[i] <= '9' by {
            assert('0' <= digits[i + 1] <= '9');
        }
        lemma_digit_run(tail, rest);
        assert(all.skip(1) =~= tail + rest);
    } else {
        assert(all =~= rest);
    }
}

/// `n` in decimal, with leading zeros up to `width` digits.
pub open spec fn at_least(n: nat, width: nat) -> Seq<char> {
    if n < pow10(width) {
        padded(n, width)
    } else {
        decimal(n)
    }
}

/// Appends `n` in decimal, with leading zeros up to `width` digits.
pub fn push_at_least(out: &mut String, n: u64, width: usize)
    requires
        width <= 19,
    ensures
        final(out)@ == old(out)@ + at_least(n as nat, width as nat),
{
    let mut p: u64 = 1;
    let mut i: usize = 0;
    proof {
        reveal_with_fuel(pow10, 20);
    }
    while i < width
        invariant
            i <= width <= 19,
            p == pow10(i as nat),
            p <= 10_000_000_000_000_000_000,
        decreases width - i,
    {
        proof {
            lemma_pow10_bound((i + 1) as nat);
        }
        p = p * 10;
        i += 1;
    }
    if n < p {
        push_padded(out, n, width);
    } else {
        push_decimal(out, n);
    }
}

proof fn lemma_pow10_bound(n: nat)
    requires
        n <= 19,
    ensures
        pow10(n) <= 10_000_000_000_000_000_000,
    decreases 19 - n,
{
    if n < 19 {
        lemma_pow10_bound((n + 1) as nat);
    } else {
        reveal_with_fuel(pow10, 20);
    }
}

/// A character with an ASCII capital turned into its small letter.
pub open spec fn lowered_char(c: char) -> char {
    if 'A' <= c <= 'Z' {
        (c as u32 + 32) as char
    } else {
        c
    }
}

/// Text with ASCII capitals turned into small letters.
pub open spec fn lowered(chars: Seq<char>) -> Seq<char> {
    Seq::new(chars.len(), |i: int| lowered_char(chars[i]))
}

/// Turns ASCII capitals into small letters.
pub fn lower(chars: &[char]) -> (r: Vec<char>)
    ensures
        r@ == lowered(chars@),
{
    let mut out: Vec<char> = Vec::new();
    let mut i: usize = 0;
    while i < chars.len()
        invariant
            i <= chars@.len(),
            out@.len() == i,
            forall|j: int| 0 <= j < i ==> #[trigger] out@[j] == lowered_char(chars@[j]),
        decreases chars@.len() - i,
    {
        let c: char = chars[i];
        let small: char = if 'A' <= c && c <= 'Z' {
            (c as u8 + 32) as char
        } else {
            c
        };
        out.push(small);
        i += 1;
    }
    assert(out@ =~= lowered(chars@));
    out
}

/// Nothing before the first `c` is `c`.
proof fn lemma_first(chars: Seq<char>, c: char)
    ensures
        find(chars, c) <= chars.len(),
        forall|i: int| 0 <= i < find(chars, c) ==> #[trigger] chars[i] != c,
        find(chars, c) < chars.len() ==> chars[find(chars, c) as int] == c,
    decreases chars.len(),
{
    if chars.len() > 0 && chars[0] != c {
        let rest = chars.skip(1);
        lemma_first(rest, c);
        assert forall|i: int| 0 <= i < find(chars, c) implies #[trigger] chars[i] != c by {
            if i > 0 {
                assert(chars[i] == rest[i - 1]);
            }
        }
    }
}

/// A text is cut at the first `c`: the two parts and the `c` between them make up the text,
/// and there is no `c` in the first part; a text without `c` is not cut.
pub proof fn law_cut_at_the_first(chars: Seq<char>, c: char)
    ensures
        match cut(chars, c) {
            Some((a, b)) => chars == a.push(c) + b && !a.contains(c),
            None => !chars.contains(c),
        },
{
    lemma_first(chars, c);
    let at = find(chars, c) as int;
    if at < chars.len() {
        assert(chars =~= chars.take(at).push(c) + chars.skip(at + 1));
        if chars.take(at).contains(c) {
            let i = choose|i: int| 0 <= i < at && chars.take(at)[i] == c;
            assert(chars[i] == c);
        }
    } else if chars.contains(c) {
        let i = choose|i: int| 0 <= i < chars.len() && chars[i] == c;
        assert(chars[i] != c);
    }
}

/// Parts with a separator between them.
pub open spec fn rejoined(parts: Seq<Seq<char>>, sep: char) -> Seq<char>
    decreases parts.len(),
{
    if parts.len() == 0 {
        Seq::empty()
    } else if parts.len() == 1 {
        parts[0]
    } else {
        parts[0].push(sep) + rejoined(parts.skip(1), sep)
    }
}

/// The fields of a text, with the separators between them, make up the text, and no field
/// holds a separator.
pub proof fn law_fields_make_up_the_text(chars: Seq<char>, sep: char)
    ensures
        fields(chars, sep).len() > 0,
        rejoined(fields(chars, sep), sep) == chars,
        forall|i: int|
            0 <= i < fields(chars, sep).len() ==> !(#[trigger] fields(chars, sep)[i]).contains(sep),
    decreases chars.len(),
{
    law_cut_at_the_first(chars, sep);
    lemma_first(chars, sep);
    let at = find(chars, sep) as int;
    let all = fields(chars, sep);
    if at < chars.len() {
        let rest = chars.skip(at + 1);
        law_fields_make_up_the_text(rest, sep);
        assert(all.skip(1) =~= fields(rest, sep));
        assert(all[0] == chars.take(at));
        assert forall|i: int| 0 <= i < all.len() implies !(#[trigger] all[i]).contains(sep) by {
            if i > 0 {
                assert(all[i] == fields(rest, sep)[i - 1]);
            }
        }
    }
}

/// `kept` stands in the text from `at` on, and all around it is white space.
pub open spec fn spaced_around(chars: Seq<char>, kept: Seq<char>, at: int) -> bool {
    &&& 0 <= at <= at + kept.len() <= chars.len()
    &&& chars.subrange(at, at + kept.len()) == kept
    &&& forall|k: int|
        0 <= k < chars.len() && !(at <= k < at + kept.len()) ==> is_space(#[trigger] chars[k])
}

/// Trimming takes white space from the ends of a text, all of it, and nothing else.
pub proof fn law_trimming_takes_the_space_at_the_ends(chars: Seq<char>)
    ensures
        trimmed(chars).len() > 0 ==> !is_space(trimmed(chars)[0]) && !is_space(
            trimmed(chars).last(),
        ),
        exists|at: int| spaced_around(chars, trimmed(chars), at),
    decreases chars.len(),
{
    let kept = trimmed(chars);
    if chars.len() > 0 && is_space(chars[0]) {
        let rest = chars.skip(1);
        law_trimming_takes_the_space_at_the_ends(rest);
        let i = choose|at: int| spaced_around(rest, kept, at);
        lemma_space_before(chars, kept, i);
    } else if chars.len() > 0 && is_space(chars.last()) {
        let rest = chars.drop_last();
        law_trimming_takes_the_space_at_the_ends(rest);
        let i = choose|at: int| spaced_around(rest, kept, at);
        lemma_space_behind(chars, kept, i);
    } else {
        assert(chars.subrange(0, chars.len() as int) =~= chars);
        assert(spaced_around(chars, kept, 0));
    }
}

proof fn lemma_space_before(chars: Seq<char>, kept: Seq<char>, i: int)
    requires
        chars.len() > 0,
        is_space(chars[0]),
        spaced_around(chars.skip(1), kept, i),
    ensures
        spaced_around(chars, kept, i + 1),
{
    let rest = chars.skip(1);
    assert(chars.subrange(i + 1, i + 1 + kept.len()) =~= rest.subrange(i, i + kept.len()));
    assert forall|k: int| 0 <= k < chars.len() && !(i + 1 <= k < i + 1 + kept.len()) implies is_space(
        #[trigger] chars[k],
    ) by {
        if k > 0 {
            assert(chars[k] == rest[k - 1]);
        }
    }
}

proof fn lemma_space_behind(chars: Seq<char>, kept: Seq<char>, i: int)
    requires
        chars.len() > 0,
        is_space(chars.last()),
        spaced_around(chars.drop_last(), kept, i),
    ensures
        spaced_around(chars, kept, i),
{
    let rest = chars.drop_last();
    assert(chars.subrange(i, i + kept.len()) =~= rest.subrange(i, i + kept.len()));
    assert forall|k: int| 0 <= k < chars.len() && !(i <= k < i + kept.len()) implies is_space(
        #[trigger] chars[k],
    ) by {
        if k < rest.len() {
            assert(chars[k] == rest[k]);
        }
    }
}

} // verus!
