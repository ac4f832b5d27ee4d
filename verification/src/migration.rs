//! Verification of a route migration: both groups must hold the same state of a
//! category, at the same applied index, before it is cut over.

use std::collections::HashMap;

use vstd::prelude::*;
use vstd::slice::slice_subrange;
use vstd::string::StringExecFns;

use crate::codec::fnv;
use crate::exchange::{chosen, fingerprint_engine_states, state_views, Snapshot};
use crate::fingerprint::state_words;
use crate::sharding::{asset_category, category};
use crate::http::{split_target, target_path, target_query};
use crate::text::{
    chars_of, count_digits, cut, decimal, digit_run, fields, find, find_from, find_text, has_prefix,
    is_text, law_decimal_parses, lemma_digit_run, nth_word, number, occurrence, parse_number,
    push_decimal, split, split_once, strip_prefix, text_of, texts, trim, trimmed, word_at,
};
use crate::types::InstrumentId;
use crate::wire::words_le;

verus! {

broadcast use vstd::std_specs::hash::group_hash_axioms;

/// Fingerprint of a category at an applied index.
#[derive(Clone, Copy, Debug, PartialEq, Eq, Structural)]
pub struct CategoryFingerprint {
    pub raft_applied_index: u64,
    pub fingerprint: u64,
}

/// A category's fingerprint from a snapshot; `None` without one.
pub fn snapshot_category_fingerprint(
    snapshot: Option<&Snapshot>,
    category_id: u32,
    category_size: u32,
) -> (r: Option<CategoryFingerprint>)
    requires
        category_size > 0,
    ensures
        r == match snapshot {
            Some(snap) => Some(
                CategoryFingerprint {
                    raft_applied_index: snap.raft_applied_index,
                    fingerprint: fnv(
                        words_le(
                            state_words(
                                chosen(
                                    state_views(snap.engines@),
                                    Some((category_id, category_size)),
                                ),
                            ),
                        ),
                    ),
                },
            ),
            None => None,
        },
{
    match snapshot {
        Some(snap) => Some(
            CategoryFingerprint {
                raft_applied_index: snap.raft_applied_index,
                fingerprint: fingerprint_engine_states(
                    &snap.engines,
                    Some((category_id, category_size)),
                ),
            },
        ),
        None => None,
    }
}

/// Why a category cannot be cut over.
#[derive(Clone, Copy, Debug, PartialEq, Eq, Structural)]
pub enum CutoverError {
    /// The source's snapshot is from before the freeze.
    SourceBehind,
    /// The target has not reached the freeze index.
    TargetBehind,
    /// The snapshots are from different indexes.
    IndexesDiffer,
    /// The states differ.
    StatesDiffer,
}

/// Holds the two sides of a migration against each other; returns what they agree
/// on.
pub fn verify_cutover(
    frozen_index: u64,
    source: CategoryFingerprint,
    target: CategoryFingerprint,
) -> (r: Result<CategoryFingerprint, CutoverError>)
    ensures
        r == if source.raft_applied_index < frozen_index {
            Err(CutoverError::SourceBehind)
        } else if target.raft_applied_index < frozen_index {
            Err(CutoverError::TargetBehind)
        } else if source.raft_applied_index != target.raft_applied_index {
            Err(CutoverError::IndexesDiffer)
        } else if source.fingerprint != target.fingerprint {
            Err(CutoverError::StatesDiffer)
        } else {
            Ok::<CategoryFingerprint, CutoverError>(source)
        },
{
    if source.raft_applied_index < frozen_index {
        return Err(CutoverError::SourceBehind);
    }
    if target.raft_applied_index < frozen_index {
        return Err(CutoverError::TargetBehind);
    }
    if source.raft_applied_index != target.raft_applied_index {
        return Err(CutoverError::IndexesDiffer);
    }
    if source.fingerprint != target.fingerprint {
        return Err(CutoverError::StatesDiffer);
    }
    Ok(source)
}

/// The category of an instrument.
pub fn category_of(instrument: InstrumentId, category_size: u32) -> (r: u32)
    requires
        category_size > 0,
    ensures
        r == category(instrument.0, category_size),
{
    asset_category(instrument, category_size)
}

/// Why a query is refused.
#[derive(Clone, Copy, Debug, PartialEq, Eq, Structural)]
pub enum QueryError {
    /// The parameter is missing.
    Missing,
    /// The parameter is not a number in range.
    Malformed,
}

/// What follows `key` in the first of `pairs` that starts with it.
pub open spec fn param(pairs: Seq<Seq<char>>, key: Seq<char>) -> Option<Seq<char>>
    decreases pairs.len(),
{
    if pairs.len() == 0 {
        None
    } else if has_prefix(pairs[0], key) {
        Some(pairs[0].skip(key.len() as int))
    } else {
        param(pairs.skip(1), key)
    }
}

/// A number up to `max`, or why there is none.
pub open spec fn bounded(text: Option<Seq<char>>, max: nat) -> Result<nat, QueryError> {
    match text {
        None => Err(QueryError::Missing),
        Some(chars) => match number(chars) {
            Some(n) => if n <= max {
                Ok(n)
            } else {
                Err(QueryError::Malformed)
            },
            None => Err(QueryError::Malformed),
        },
    }
}

/// The category that a request asks the fingerprint of; `None` if the request is
/// for something else.
pub open spec fn fingerprint_request(line: Seq<char>) -> Option<Result<nat, QueryError>> {
    match word_at(line, 1) {
        None => None,
        Some(target) => if target_path(target) != "/fingerprint"@ {
            None
        } else {
            Some(
                bounded(
                    param(fields(target_query(target), '&'), "category="@),
                    u32::MAX as nat,
                ),
            )
        },
    }
}

/// The value of a parameter in a query.
fn find_param(query: &[char], key: &str) -> (r: Option<Vec<char>>)
    ensures
        match r {
            Some(value) => param(fields(query@, '&'), key@) == Some(value@),
            None => param(fields(query@, '&'), key@) is None,
        },
{
    let pairs = split(query, '&');
    let ghost all = texts(pairs@);
    let mut i: usize = 0;
    assert(all.skip(0) =~= all);
    while i < pairs.len()
        invariant
            i <= pairs@.len(),
            all == texts(pairs@),
            all == fields(query@, '&'),
            param(all.skip(i as int), key@) == param(all, key@),
        decreases pairs@.len() - i,
    {
        assert(all.skip(i as int)[0] == pairs@[i as int]@);
        assert(all.skip(i as int).skip(1) =~= all.skip(i + 1));
        if let Some(value) = strip_prefix(pairs[i].as_slice(), key) {
            assert(value@.subrange(0, value@.len() as int) =~= value@);
            return Some(crate::text::copy_chars(value, 0, value.len()));
        }
        i += 1;
    }
    None
}

/// Reads a request line such as `GET /fingerprint?category=4 HTTP/1.1`; `None` if
/// it is for another path.
pub fn parse_fingerprint_request(line: &str) -> (r: Option<Result<u32, QueryError>>)
    ensures
        match fingerprint_request(line@) {
            None => r is None,
            Some(Ok(n)) => r == Some(Ok::<u32, QueryError>(n as u32)),
            Some(Err(error)) => r == Some(Err::<u32, QueryError>(error)),
        },
{
    let chars = chars_of(line);
    let target = match nth_word(chars.as_slice(), 1) {
        Some(target) => target,
        None => {
            return None;
        },
    };
    let (path, query) = split_target(target);
    if !is_text(path, "/fingerprint") {
        return None;
    }
    match find_param(query, "category=") {
        None => Some(Err(QueryError::Missing)),
        Some(value) => match parse_number(value.as_slice(), u32::MAX as u64) {
            Some(n) => Some(Ok(n as u32)),
            None => Some(Err(QueryError::Malformed)),
        },
    }
}

/// Whether a request line is `GET /applied-index`, with or without a query.
pub fn is_applied_index_request(line: &str) -> (r: bool)
    ensures
        r == (word_at(line@, 0) == Some("GET"@) && word_at(line@, 1) is Some && target_path(
            word_at(line@, 1)->0,
        ) == "/applied-index"@),
{
    let chars = chars_of(line);
    let asks: bool = match nth_word(chars.as_slice(), 0) {
        Some(method) => is_text(method, "GET"),
        None => false,
    };
    if !asks {
        return false;
    }
    match nth_word(chars.as_slice(), 1) {
        Some(target) => {
            let (path, _) = split_target(target);
            is_text(path, "/applied-index")
        },
        None => false,
    }
}

/// Body of the answer to a fingerprint request.
pub open spec fn fingerprint_json(category: u32, fp: CategoryFingerprint) -> Seq<char> {
    "{\"category\":"@ + decimal(category as nat) + ",\"raft_applied_index\":"@ + decimal(
        fp.raft_applied_index as nat,
    ) + ",\"fingerprint\":"@ + decimal(fp.fingerprint as nat) + "}"@
}

/// Body of the answer to a fingerprint request.
pub fn fingerprint_response_json(category_id: u32, fp: CategoryFingerprint) -> (r: String)
    ensures
        r@ == fingerprint_json(category_id, fp),
{
    let mut out = String::new();
    out.append("{\"category\":");
    assert(out@ =~= "{\"category\":"@);
    push_decimal(&mut out, category_id as u64);
    out.append(",\"raft_applied_index\":");
    push_decimal(&mut out, fp.raft_applied_index);
    out.append(",\"fingerprint\":");
    push_decimal(&mut out, fp.fingerprint);
    out.append("}");
    out
}

/// Body of the answer to an applied-index request.
pub open spec fn applied_index_json(index: u64) -> Seq<char> {
    "{\"raft_applied_index\":"@ + decimal(index as nat) + "}"@
}

/// Body of the answer to an applied-index request.
pub fn applied_index_response_json(raft_applied_index: u64) -> (r: String)
    ensures
        r@ == applied_index_json(raft_applied_index),
{
    let mut out = String::new();
    out.append("{\"raft_applied_index\":");
    assert(out@ =~= "{\"raft_applied_index\":"@);
    push_decimal(&mut out, raft_applied_index);
    out.append("}");
    out
}

/// Text without the colons and blanks at its start.
pub open spec fn after_colon(chars: Seq<char>) -> Seq<char>
    decreases chars.len(),
{
    if chars.len() > 0 && (chars[0] == ':' || chars[0] == ' ') {
        after_colon(chars.skip(1))
    } else {
        chars
    }
}

/// The number that follows the first occurrence of `key`.
pub open spec fn field(body: Seq<char>, key: Seq<char>) -> Option<u64> {
    match occurrence(body, key) {
        None => None,
        Some(at) => {
            let rest = after_colon(body.skip(at as int + key.len()));
            match number(rest.take(digit_run(rest) as int)) {
                Some(n) => if n <= u64::MAX {
                    Some(n as u64)
                } else {
                    None
                },
                None => None,
            }
        },
    }
}

fn read_field(body: &[char], key: &str) -> (r: Option<u64>)
    ensures
        r == field(body@, key@),
{
    let n: usize = chars_of(key).len();
    let size: usize = body.len();
    let at: usize = match find_text(body, key) {
        Some(at) => at,
        None => {
            return None;
        },
    };
    let mut from: usize = at + n;
    while from < size && (body[from] == ':' || body[from] == ' ')
        invariant
            at + n <= from <= size == body@.len(),
            after_colon(body@.skip(from as int)) == after_colon(body@.skip(at + n)),
        decreases size - from,
    {
        assert(body@.skip(from as int).skip(1) =~= body@.skip(from + 1));
        from += 1;
    }
    assert(body@.subrange(from as int, size as int) =~= body@.skip(from as int));
    let rest = slice_subrange(body, from, size);
    let digits: usize = count_digits(rest);
    assert(rest@.subrange(0, digits as int) =~= rest@.take(digits as int));
    parse_number(slice_subrange(rest, 0, digits), u64::MAX)
}

/// Reads the answer to an applied-index request.
pub fn parse_applied_index_response(body: &str) -> (r: Option<u64>)
    ensures
        r == field(body@, "\"raft_applied_index\""@),
{
    let chars = chars_of(body);
    read_field(chars.as_slice(), "\"raft_applied_index\"")
}

/// The fingerprint in the answer to a fingerprint request.
pub open spec fn fingerprint_in(body: Seq<char>) -> Option<CategoryFingerprint> {
    match (field(body, "\"raft_applied_index\""@), field(body, "\"fingerprint\""@)) {
        (Some(raft_applied_index), Some(fingerprint)) => Some(
            CategoryFingerprint { raft_applied_index, fingerprint },
        ),
        _ => None,
    }
}

/// Reads the answer to a fingerprint request.
pub fn parse_fingerprint_response(body: &str) -> (r: Option<CategoryFingerprint>)
    ensures
        r == fingerprint_in(body@),
{
    let chars = chars_of(body);
    match read_field(chars.as_slice(), "\"raft_applied_index\"") {
        Some(raft_applied_index) => match read_field(chars.as_slice(), "\"fingerprint\"") {
            Some(fingerprint) => Some(CategoryFingerprint { raft_applied_index, fingerprint }),
            None => None,
        },
        None => None,
    }
}

/// A first occurrence is where the text stands and does not stand before.
proof fn lemma_occurrence(s: Seq<char>, part: Seq<char>, at: nat)
    requires
        at <= s.len(),
        has_prefix(s.skip(at as int), part),
        forall|p: int| 0 <= p < at ==> !has_prefix(#[trigger] s.skip(p), part),
    ensures
        occurrence(s, part) == Some(at),
    decreases at,
{
    if at == 0 {
        assert(s.skip(0) =~= s);
    } else {
        assert(s.skip(0) =~= s);
        assert(!has_prefix(s.skip(0), part));
        let rest = s.skip(1);
        assert(rest.skip(at - 1) =~= s.skip(at as int));
        assert forall|p: int| 0 <= p < at - 1 implies !has_prefix(#[trigger] rest.skip(p), part) by {
            assert(rest.skip(p) =~= s.skip(p + 1));
        }
        lemma_occurrence(rest, part, (at - 1) as nat);
    }
}

/// `text` nowhere holds `a` but before something else than `b`.
spec fn clear(text: Seq<char>, a: char, b: char) -> bool {
    forall|p: int|
        0 <= p < text.len() && #[trigger] text[p] == a ==> p + 1 < text.len() && text[p + 1] != b
}

proof fn lemma_clear_concat(x: Seq<char>, y: Seq<char>, a: char, b: char)
    requires
        clear(x, a, b),
        clear(y, a, b),
    ensures
        clear(x + y, a, b),
{
    let s = x + y;
    assert forall|p: int| 0 <= p < s.len() && #[trigger] s[p] == a implies p + 1 < s.len() && s[p
        + 1] != b by {
        if p < x.len() {
            assert(x[p] == a);
            assert(s[p + 1] == x[p + 1]);
        } else {
            assert(y[p - x.len()] == a);
            assert(s[p + 1] == y[p - x.len() + 1]);
        }
    }
}

proof fn lemma_clear_digits(n: nat, a: char, b: char)
    requires
        a == '"',
    ensures
        clear(decimal(n), a, b),
{
    law_decimal_parses(n);
}

/// The number behind the key that follows `front`.
proof fn lemma_field(front: Seq<char>, key: Seq<char>, n: u64, tail: Seq<char>)
    requires
        key.len() >= 2,
        clear(front, key[0], key[1]),
        tail.len() > 0,
        !('0' <= tail[0] <= '9'),
    ensures
        field(front + key + (seq![':'] + (decimal(n as nat) + tail)), key) == Some(n),
{
    let digits = decimal(n as nat);
    let rest = seq![':'] + (digits + tail);
    let s = front + key + rest;
    let at = front.len() as int;
    assert(s.skip(at).take(key.len() as int) =~= key);
    assert forall|p: int| 0 <= p < at implies !has_prefix(#[trigger] s.skip(p), key) by {
        if has_prefix(s.skip(p), key) {
            assert(s.skip(p).take(key.len() as int)[0] == front[p]);
            assert(s.skip(p).take(key.len() as int)[1] == s[p + 1]);
            assert(s[p + 1] == front[p + 1]);
        }
    }
    lemma_occurrence(s, key, at as nat);
    law_decimal_parses(n as nat);
    assert(s.skip(at + key.len()) =~= rest);
    assert(rest.skip(1) =~= digits + tail);
    assert('0' <= digits[0] <= '9');
    assert((digits + tail)[0] == digits[0]);
    assert(after_colon(digits + tail) == digits + tail);
    assert(after_colon(rest) == digits + tail);
    lemma_digit_run(digits, tail);
    assert((digits + tail).take(digits.len() as int) =~= digits);
}

/// An applied index reads back.
pub proof fn law_applied_index_round_trip(index: u64)
    ensures
        field(applied_index_json(index), "\"raft_applied_index\""@) == Some(index),
{
    reveal_strlit("{\"raft_applied_index\":");
    reveal_strlit("\"raft_applied_index\"");
    reveal_strlit("}");
    let key = "\"raft_applied_index\""@;
    let front = seq!['{'];
    lemma_field(front, key, index, "}"@);
    assert(applied_index_json(index) =~= front + key + (seq![':'] + (decimal(index as nat)
        + "}"@)));
}

/// A fingerprint reads back.
pub proof fn law_fingerprint_round_trip(category: u32, fp: CategoryFingerprint)
    ensures
        fingerprint_in(fingerprint_json(category, fp)) == Some(fp),
{
    let s = fingerprint_json(category, fp);
    let c = decimal(category as nat);
    let i = decimal(fp.raft_applied_index as nat);
    let f = decimal(fp.fingerprint as nat);
    let head = "{\"category\":"@;
    let mid = ",\"raft_applied_index\":"@;
    let last = ",\"fingerprint\":"@;
    let index_key = "\"raft_applied_index\""@;
    let print_key = "\"fingerprint\""@;
    let end = "}"@;
    let comma = seq![','];
    let colon = seq![':'];
    assert(end.len() == 1 && end[0] == '}') by {
        reveal_strlit("}");
    }
    assert(mid =~= comma + index_key + colon) by {
        reveal_strlit(",\"raft_applied_index\":");
        reveal_strlit("\"raft_applied_index\"");
    }
    assert(last =~= comma + print_key + colon) by {
        reveal_strlit(",\"fingerprint\":");
        reveal_strlit("\"fingerprint\"");
    }
    assert(index_key.len() >= 2 && index_key[0] == '"' && index_key[1] == 'r') by {
        reveal_strlit("\"raft_applied_index\"");
    }
    assert(print_key.len() >= 2 && print_key[0] == '"' && print_key[1] == 'f') by {
        reveal_strlit("\"fingerprint\"");
    }
    assert(clear(head, '"', 'r') && clear(head, '"', 'f')) by {
        reveal_strlit("{\"category\":");
    }
    assert(clear(mid, '"', 'f')) by {
        reveal_strlit(",\"raft_applied_index\":");
    }
    assert(clear(comma, '"', 'r') && clear(comma, '"', 'f'));
    // The first number.
    let front = head + c + comma;
    lemma_clear_digits(category as nat, '"', 'r');
    lemma_clear_concat(head, c, '"', 'r');
    lemma_clear_concat(head + c, comma, '"', 'r');
    let tail = last + f + end;
    assert(tail[0] == ',');
    lemma_field(front, index_key, fp.raft_applied_index, tail);
    assert(s =~= front + index_key + (colon + (i + tail)));
    // The second number.
    let longer = head + c + mid + i + comma;
    lemma_clear_digits(category as nat, '"', 'f');
    lemma_clear_digits(fp.raft_applied_index as nat, '"', 'f');
    lemma_clear_concat(head, c, '"', 'f');
    lemma_clear_concat(head + c, mid, '"', 'f');
    lemma_clear_concat(head + c + mid, i, '"', 'f');
    lemma_clear_concat(head + c + mid + i, comma, '"', 'f');
    lemma_field(longer, print_key, fp.fingerprint, end);
    assert(s =~= longer + print_key + (colon + (f + end)));
}

/// Why a map of endpoints is refused.
#[derive(Clone, Copy, Debug, PartialEq, Eq, Structural)]
pub enum EndpointError {
    /// An entry without an equals sign.
    NotAPair,
    /// A group that is no number.
    InvalidGroup,
    /// An entry without an address.
    EmptyAddress,
    /// Two entries for one group.
    Duplicate { group: usize },
    /// No entry at all.
    NoEndpoints,
}

/// The addresses by group.
pub open spec fn addresses(map: Map<usize, String>) -> Map<usize, Seq<char>> {
    map.map_values(|s: String| s@)
}

/// The entries of an endpoint map, added one after the other.
pub open spec fn endpoints(tokens: Seq<Seq<char>>) -> Result<Map<usize, Seq<char>>, EndpointError>
    decreases tokens.len(),
{
    if tokens.len() == 0 {
        Ok(Map::empty())
    } else {
        match endpoints(tokens.drop_last()) {
            Err(error) => Err(error),
            Ok(map) => {
                let token = trimmed(tokens.last());
                if token.len() == 0 {
                    Ok(map)
                } else {
                    match cut(token, '=') {
                        None => Err(EndpointError::NotAPair),
                        Some((group, addr)) => match number(trimmed(group)) {
                            None => Err(EndpointError::InvalidGroup),
                            Some(n) => if n > usize::MAX {
                                Err(EndpointError::InvalidGroup)
                            } else if trimmed(addr).len() == 0 {
                                Err(EndpointError::EmptyAddress)
                            } else if map.contains_key(n as usize) {
                                Err(EndpointError::Duplicate { group: n as usize })
                            } else {
                                Ok(map.insert(n as usize, trimmed(addr)))
                            },
                        },
                    }
                }
            },
        }
    }
}

proof fn lemma_endpoints_stop(tokens: Seq<Seq<char>>, n: int)
    requires
        0 <= n <= tokens.len(),
        endpoints(tokens.take(n)) is Err,
    ensures
        endpoints(tokens) == endpoints(tokens.take(n)),
    decreases tokens.len(),
{
    if n < tokens.len() {
        assert(tokens.drop_last().take(n) =~= tokens.take(n));
        lemma_endpoints_stop(tokens.drop_last(), n);
    } else {
        assert(tokens.take(n) =~= tokens);
    }
}

/// Reads a map of groups to addresses, such as `0=10.0.0.1:9102,1=10.0.0.2:9102`.
pub fn parse_group_endpoints(spec: &str) -> (r: Result<HashMap<usize, String>, EndpointError>)
    ensures
        match endpoints(fields(spec@, ',')) {
            Err(error) => r matches Err(e) && e == error,
            Ok(map) => match r {
                Ok(found) => map == addresses(found@) && exists|k: usize| map.contains_key(k),
                Err(error) => error is NoEndpoints && map == Map::<usize, Seq<char>>::empty(),
            },
        },
{
    let chars = chars_of(spec);
    let tokens = split(chars.as_slice(), ',');
    let ghost all = texts(tokens@);
    let mut map: HashMap<usize, String> = HashMap::new();
    let mut some: bool = false;
    let mut i: usize = 0;
    proof {
        assert(all.take(0) =~= Seq::<Seq<char>>::empty());
        assert(addresses(map@) =~= Map::<usize, Seq<char>>::empty());
    }
    while i < tokens.len()
        invariant
            i <= tokens@.len(),
            all == texts(tokens@),
            all == fields(spec@, ','),
            endpoints(all.take(i as int)) == Ok::<Map<usize, Seq<char>>, EndpointError>(
                addresses(map@),
            ),
            some ==> exists|k: usize| map@.contains_key(k),
            !some ==> map@ == Map::<usize, String>::empty(),
        decreases tokens@.len() - i,
    {
        proof {
            let next = all.take(i + 1);
            assert(next.drop_last() =~= all.take(i as int));
            assert(next.last() == tokens@[i as int]@);
            if endpoints(next) is Err {
                lemma_endpoints_stop(all, i + 1);
            }
        }
        let token = trim(tokens[i].as_slice());
        if token.len() > 0 {
            let (group_text, addr_text) = match split_once(token, '=') {
                Some(pair) => pair,
                None => {
                    return Err(EndpointError::NotAPair);
                },
            };
            let group: usize = match parse_number(trim(group_text), usize::MAX as u64) {
                Some(n) => n as usize,
                None => {
                    return Err(EndpointError::InvalidGroup);
                },
            };
            let addr = trim(addr_text);
            if addr.len() == 0 {
                return Err(EndpointError::EmptyAddress);
            }
            if map.contains_key(&group) {
                return Err(EndpointError::Duplicate { group });
            }
            let ghost before = map@;
            let text = text_of(addr);
            map.insert(group, text);
            some = true;
            proof {
                assert(map@.contains_key(group));
                assert(addresses(map@) =~= addresses(before).insert(group, text@));
            }
        }
        i += 1;
    }
    assert(all.take(i as int) =~= all);
    if !some {
        assert(addresses(map@) =~= Map::<usize, Seq<char>>::empty());
        return Err(EndpointError::NoEndpoints);
    }
    proof {
        let k = choose|k: usize| map@.contains_key(k);
        assert(addresses(map@).contains_key(k));
    }
    Ok(map)
}

/// An HTTP request for `path` from `addr`.
pub fn request_text(path: &str, addr: &str) -> (r: String)
    ensures
        r@ == "GET "@ + path@ + " HTTP/1.1\r\nHost: "@ + addr@
            + "\r\nConnection: close\r\n\r\n"@,
{
    let mut out = String::new();
    out.append("GET ");
    assert(out@ =~= "GET "@);
    out.append(path);
    out.append(" HTTP/1.1\r\nHost: ");
    out.append(addr);
    out.append("\r\nConnection: close\r\n\r\n");
    out
}

/// The status code of an HTTP response: the second word of its first line.
pub open spec fn status_of(text: Seq<char>) -> Option<u16> {
    match word_at(text.take(find(text, '\n') as int), 1) {
        Some(word) => match number(word) {
            Some(n) => if n <= u16::MAX {
                Some(n as u16)
            } else {
                None
            },
            None => None,
        },
        None => None,
    }
}

/// The body of an HTTP response: what follows the first empty line.
pub open spec fn body_of(text: Seq<char>) -> Seq<char> {
    match occurrence(text, "\r\n\r\n"@) {
        Some(at) => text.skip(at as int + 4),
        None => Seq::empty(),
    }
}

/// Reads an HTTP response: its status and its body; `None` without a status.
pub fn read_response(text: &str) -> (r: Option<(u16, String)>)
    ensures
        match r {
            Some((status, body)) => status_of(text@) == Some(status) && body@ == body_of(text@),
            None => status_of(text@) is None,
        },
{
    let chars = chars_of(text);
    let all = chars.as_slice();
    assert(all@.skip(0) =~= all@);
    let end: usize = find_from(all, 0, '\n');
    assert(all@.subrange(0, end as int) =~= all@.take(end as int));
    let status: u16 = match nth_word(slice_subrange(all, 0, end), 1) {
        Some(word) => match parse_number(word, u16::MAX as u64) {
            Some(n) => n as u16,
            None => {
                return None;
            },
        },
        None => {
            return None;
        },
    };
    proof {
        reveal_strlit("\r\n\r\n");
    }
    let body = match find_text(all, "\r\n\r\n") {
        Some(at) => {
            assert(all@.subrange(at + 4, all@.len() as int) =~= all@.skip(at + 4));
            text_of(slice_subrange(all, at + 4, all.len()))
        },
        None => {
            let empty = String::new();
            assert(empty@ =~= Seq::<char>::empty());
            empty
        },
    };
    Some((status, body))
}

/// Why an answer of a group is not usable.
#[derive(Clone, Copy, Debug, PartialEq, Eq, Structural)]
pub enum FetchError {
    /// The group answered with this status.
    Status { code: u16 },
    /// The body could not be read.
    Unreadable,
}

/// What a group's answer to a fingerprint request says; `None` while the group
/// has no snapshot.
pub fn fingerprint_reply(status: u16, body: &str) -> (r: Result<
    Option<CategoryFingerprint>,
    FetchError,
>)
    ensures
        r == if status == 503 {
            Ok::<Option<CategoryFingerprint>, FetchError>(None)
        } else if status != 200 {
            Err(FetchError::Status { code: status })
        } else {
            match fingerprint_in(body@) {
                Some(fp) => Ok(Some(fp)),
                None => Err(FetchError::Unreadable),
            }
        },
{
    if status == 503 {
        return Ok(None);
    }
    if status != 200 {
        return Err(FetchError::Status { code: status });
    }
    match parse_fingerprint_response(body) {
        Some(fp) => Ok(Some(fp)),
        None => Err(FetchError::Unreadable),
    }
}

/// What a group's answer to an applied-index request says.
pub fn applied_index_reply(status: u16, body: &str) -> (r: Result<u64, FetchError>)
    ensures
        r == if status != 200 {
            Err::<u64, FetchError>(FetchError::Status { code: status })
        } else {
            match field(body@, "\"raft_applied_index\""@) {
                Some(index) => Ok(index),
                None => Err(FetchError::Unreadable),
            }
        },
{
    if status != 200 {
        return Err(FetchError::Status { code: status });
    }
    match parse_applied_index_response(body) {
        Some(index) => Ok(index),
        None => Err(FetchError::Unreadable),
    }
}

} // verus!
