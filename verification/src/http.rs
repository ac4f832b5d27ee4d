//! The parts of HTTP that the services speak: request lines, headers, query
//! parameters, and heads of responses.

use vstd::prelude::*;
use vstd::slice::slice_subrange;
use vstd::string::StringExecFns;

use crate::text::{
    chars_of, copy_chars, cut, decimal, fields, is_text, lower, lowered, nth_word, number,
    parse_number, push_decimal, split, split_once, strip_prefix, text_of, texts, trim, trimmed,
    word_at,
};

verus! {

/// The greatest body that a request may carry.
pub const MAX_BODY: usize = 1048576;

/// The path of a request target.
pub open spec fn target_path(target: Seq<char>) -> Seq<char> {
    match cut(target, '?') {
        Some((path, _)) => path,
        None => target,
    }
}

/// The query of a request target.
pub open spec fn target_query(target: Seq<char>) -> Seq<char> {
    match cut(target, '?') {
        Some((_, query)) => query,
        None => Seq::empty(),
    }
}

/// Splits a request target into path and query.
pub fn split_target(target: &[char]) -> (r: (&[char], &[char]))
    ensures
        r.0@ == target_path(target@),
        r.1@ == target_query(target@),
{
    match split_once(target, '?') {
        Some(pair) => pair,
        None => {
            let n: usize = target.len();
            assert(target@.subrange(n as int, n as int) =~= Seq::<char>::empty());
            (target, slice_subrange(target, n, n))
        },
    }
}

/// The value of the first of `pairs` whose part before the equals sign is `key`.
pub open spec fn pair_value(pairs: Seq<Seq<char>>, key: Seq<char>) -> Option<Seq<char>>
    decreases pairs.len(),
{
    if pairs.len() == 0 {
        None
    } else {
        match cut(pairs[0], '=') {
            Some((k, v)) => if k == key {
                Some(v)
            } else {
                pair_value(pairs.skip(1), key)
            },
            None => pair_value(pairs.skip(1), key),
        }
    }
}

/// The value of a parameter of a query.
pub open spec fn query_value(query: Seq<char>, key: Seq<char>) -> Option<Seq<char>> {
    pair_value(fields(query, '&'), key)
}

/// The value of a parameter of a query.
pub fn query_param(query: &[char], key: &str) -> (r: Option<Vec<char>>)
    ensures
        match r {
            Some(value) => query_value(query@, key@) == Some(value@),
            None => query_value(query@, key@) is None,
        },
{
    let pairs = split(query, '&');
    let ghost all = texts(pairs@);
    let mut i: usize = 0;
    assert(all.skip(0) =~= all);
    while i < pairs.len()
        invariant
            i <= pairs@.len(),
            all == texts(pairs@),
            all == fields(query@, '&'),
            pair_value(all.skip(i as int), key@) == pair_value(all, key@),
        decreases pairs@.len() - i,
    {
        assert(all.skip(i as int)[0] == pairs@[i as int]@);
        assert(all.skip(i as int).skip(1) =~= all.skip(i + 1));
        if let Some((k, v)) = split_once(pairs[i].as_slice(), '=') {
            if is_text(k, key) {
                assert(v@.subrange(0, v@.len() as int) =~= v@);
                return Some(copy_chars(v, 0, v.len()));
            }
        }
        i += 1;
    }
    None
}

/// A number up to `max`, or why a parameter is none.
pub open spec fn required_value(query: Seq<char>, key: Seq<char>, max: nat) -> Result<u64, Seq<char>> {
    match query_value(query, key) {
        None => Err("missing "@ + key),
        Some(chars) => match number(chars) {
            Some(n) => if n <= max {
                Ok(n as u64)
            } else {
                Err("invalid "@ + key)
            },
            None => Err("invalid "@ + key),
        },
    }
}

/// The value of a parameter that has to be a number up to `max`.
pub fn required(query: &[char], key: &str, max: u64) -> (r: Result<u64, String>)
    ensures
        match r {
            Ok(v) => required_value(query@, key@, max as nat) == Ok::<u64, Seq<char>>(v),
            Err(e) => required_value(query@, key@, max as nat) == Err::<u64, Seq<char>>(e@),
        },
        r matches Ok(v) ==> v <= max,
{
    match query_param(query, key) {
        None => {
            let mut e = String::new();
            e.append("missing ");
            assert(e@ =~= "missing "@);
            e.append(key);
            Err(e)
        },
        Some(chars) => match parse_number(chars.as_slice(), max) {
            Some(n) => Ok(n),
            None => {
                let mut e = String::new();
                e.append("invalid ");
                assert(e@ =~= "invalid "@);
                e.append(key);
                Err(e)
            },
        },
    }
}

/// The value of a parameter that is a number up to `max`, else `default`.
pub open spec fn value_or(query: Seq<char>, key: Seq<char>, max: nat, default: u64) -> u64 {
    match query_value(query, key) {
        None => default,
        Some(chars) => match number(chars) {
            Some(n) => if n <= max {
                n as u64
            } else {
                default
            },
            None => default,
        },
    }
}

/// The value of a parameter that is a number up to `max`, else `default`.
pub fn number_or(query: &[char], key: &str, max: u64, default: u64) -> (r: u64)
    ensures
        r == value_or(query@, key@, max as nat, default),
{
    match query_param(query, key) {
        None => default,
        Some(chars) => match parse_number(chars.as_slice(), max) {
            Some(n) => n,
            None => default,
        },
    }
}

/// What a line of a head says: nothing, which ends the head, or a name and a
/// value.
pub open spec fn header_pair(line: Seq<char>) -> Option<(Seq<char>, Seq<char>)> {
    match cut(line, ':') {
        Some((name, value)) => Some((lowered(name), trimmed(value))),
        None => None,
    }
}

/// Whether a line of a head is blank.
pub fn is_blank(line: &str) -> (r: bool)
    ensures
        r == (trimmed(line@).len() == 0),
{
    let chars = chars_of(line);
    trim(chars.as_slice()).len() == 0
}

/// Name in small letters, and value, of a header line.
pub fn read_header(line: &str) -> (r: Option<(Vec<char>, Vec<char>)>)
    ensures
        match r {
            Some((name, value)) => header_pair(line@) == Some((name@, value@)),
            None => header_pair(line@) is None,
        },
{
    let chars = chars_of(line);
    match split_once(chars.as_slice(), ':') {
        Some((name, value)) => {
            let value = trim(value);
            assert(value@.subrange(0, value@.len() as int) =~= value@);
            Some((lower(name), copy_chars(value, 0, value.len())))
        },
        None => None,
    }
}

/// The head of a request of the order service.
#[derive(Debug)]
pub struct RequestHead {
    pub method: String,
    pub target: String,
    pub authorized: bool,
    pub keep_alive: bool,
    pub content_length: usize,
}

/// What the head of a request says.
#[verifier::ext_equal]
pub struct RequestView {
    pub method: Seq<char>,
    pub target: Seq<char>,
    pub authorized: bool,
    pub keep_alive: bool,
    pub content_length: usize,
}

impl View for RequestHead {
    type V = RequestView;

    open spec fn view(&self) -> RequestView {
        RequestView {
            method: self.method@,
            target: self.target@,
            authorized: self.authorized,
            keep_alive: self.keep_alive,
            content_length: self.content_length,
        }
    }
}

/// A word of a line, or what stands for it if the line is shorter.
pub open spec fn word_or(line: Seq<char>, n: nat, default: Seq<char>) -> Seq<char> {
    match word_at(line, n) {
        Some(word) => word,
        None => default,
    }
}

/// A word of a line, or what stands for it if the line is shorter.
pub fn nth_word_or(line: &[char], n: usize, default: &str) -> (r: String)
    ensures
        r@ == word_or(line@, n as nat, default@),
{
    match nth_word(line, n) {
        Some(word) => text_of(word),
        None => String::from_str(default),
    }
}

/// What a request line says: connections of HTTP/1.1 are kept.
pub open spec fn first_line(line: Seq<char>) -> RequestView {
    RequestView {
        method: word_or(line, 0, ""@),
        target: word_or(line, 1, "/"@),
        authorized: false,
        keep_alive: word_or(line, 2, "HTTP/1.0"@) == "HTTP/1.1"@,
        content_length: 0,
    }
}

/// The length that a header announces; what is no number is too long.
pub open spec fn announced(value: Seq<char>) -> usize {
    match number(value) {
        Some(n) => if n <= usize::MAX {
            n as usize
        } else {
            usize::MAX
        },
        None => usize::MAX,
    }
}

/// What the head says after one more line.
pub open spec fn with_header(head: RequestView, line: Seq<char>, token: Seq<char>) -> RequestView {
    match header_pair(line) {
        None => head,
        Some((name, value)) => RequestView {
            authorized: head.authorized || name == "authorization"@ && value == "Bearer "@ + token,
            keep_alive: if name == "connection"@ {
                lowered(value) == "keep-alive"@
            } else {
                head.keep_alive
            },
            content_length: if name == "content-length"@ {
                announced(value)
            } else {
                head.content_length
            },
            ..head
        },
    }
}

/// Whether a header value presents `token`.
pub fn is_bearer(value: &[char], token: &str) -> (r: bool)
    ensures
        r == (value@ == "Bearer "@ + token@),
{
    match strip_prefix(value, "Bearer ") {
        Some(rest) => {
            proof {
                let n = "Bearer "@.len() as int;
                if value@ == "Bearer "@ + token@ {
                    assert(rest@ =~= token@);
                }
                if rest@ == token@ {
                    assert(value@ =~= value@.take(n) + value@.skip(n));
                }
            }
            is_text(rest, token)
        },
        None => {
            proof {
                if value@ == "Bearer "@ + token@ {
                    assert(value@.take("Bearer "@.len() as int) =~= "Bearer "@);
                }
            }
            false
        },
    }
}

impl RequestHead {
    /// Reads a request line.
    pub fn first(line: &str) -> (r: RequestHead)
        ensures
            r@ == first_line(line@),
    {
        let chars = chars_of(line);
        let version = nth_word_or(chars.as_slice(), 2, "HTTP/1.0");
        let words = chars_of(version.as_str());
        RequestHead {
            method: nth_word_or(chars.as_slice(), 0, ""),
            target: nth_word_or(chars.as_slice(), 1, "/"),
            authorized: false,
            keep_alive: is_text(words.as_slice(), "HTTP/1.1"),
            content_length: 0,
        }
    }

    /// Reads a header line.
    pub fn header(&mut self, line: &str, token: &str)
        ensures
            final(self)@ == with_header(old(self)@, line@, token@),
    {
        if let Some((name, value)) = read_header(line) {
            if is_text(name.as_slice(), "authorization") && is_bearer(value.as_slice(), token) {
                self.authorized = true;
            }
            if is_text(name.as_slice(), "connection") {
                let lowered = lower(value.as_slice());
                self.keep_alive = is_text(lowered.as_slice(), "keep-alive");
            }
            if is_text(name.as_slice(), "content-length") {
                self.content_length = match parse_number(value.as_slice(), usize::MAX as u64) {
                    Some(n) => n as usize,
                    None => usize::MAX,
                };
            }
        }
    }

    /// Whether the body is short enough to be read.
    pub fn fits(&self) -> (r: bool)
        ensures
            r == (self@.content_length <= MAX_BODY),
    {
        self.content_length <= MAX_BODY
    }
}

/// The head of a response.
pub open spec fn response(
    status: Seq<char>,
    content_type: Seq<char>,
    len: nat,
    connection: Seq<char>,
) -> Seq<char> {
    "HTTP/1.1 "@ + status + "\r\nContent-Type: "@ + content_type + "\r\nContent-Length: "@
        + decimal(len) + "\r\n"@ + connection + "\r\n\r\n"@
}

fn format_response(status: &str, content_type: &str, len: usize, connection: &str) -> (r: String)
    ensures
        r@ == response(status@, content_type@, len as nat, connection@),
{
    let mut out = String::new();
    out.append("HTTP/1.1 ");
    assert(out@ =~= "HTTP/1.1 "@);
    out.append(status);
    out.append("\r\nContent-Type: ");
    out.append(content_type);
    out.append("\r\nContent-Length: ");
    push_decimal(&mut out, len as u64);
    out.append("\r\n");
    out.append(connection);
    out.append("\r\n\r\n");
    out
}

/// How a response says what becomes of the connection.
pub open spec fn connection_line(keep_alive: bool) -> Seq<char> {
    if keep_alive {
        "Connection: keep-alive"@
    } else {
        "Connection: close"@
    }
}

/// The head of a response whose body has `len` bytes.
pub fn response_head(status: &str, content_type: &str, len: usize, keep_alive: bool) -> (r: String)
    ensures
        r@ == response(status@, content_type@, len as nat, connection_line(keep_alive)),
{
    if keep_alive {
        format_response(status, content_type, len, "Connection: keep-alive")
    } else {
        format_response(status, content_type, len, "Connection: close")
    }
}

/// The head of a response that any site may read and that ends its connection.
pub fn open_response_head(status: &str, content_type: &str, len: usize) -> (r: String)
    ensures
        r@ == response(
            status@,
            content_type@,
            len as nat,
            "Access-Control-Allow-Origin: *\r\nConnection: close"@,
        ),
{
    format_response(
        status,
        content_type,
        len,
        "Access-Control-Allow-Origin: *\r\nConnection: close",
    )
}

/// An error as JSON.
pub open spec fn error_json(error: Seq<char>) -> Seq<char> {
    "{\"error\":\""@ + error + "\"}"@
}

/// An error as JSON.
pub fn format_error(error: &str) -> (r: String)
    ensures
        r@ == error_json(error@),
{
    let mut out = String::new();
    out.append("{\"error\":\"");
    assert(out@ =~= "{\"error\":\""@);
    out.append(error);
    out.append("\"}");
    out
}

/// The lines of a text, as its newlines part it.
pub open spec fn lines(text: Seq<char>) -> Seq<Seq<char>> {
    fields(text, '\n')
}

/// A line gives a metric exactly this value.
pub open spec fn states(line: Seq<char>, metric: Seq<char>, value: Seq<char>) -> bool {
    match cut(line, ' ') {
        Some((name, rest)) => name == metric && trimmed(rest) == value,
        None => false,
    }
}

/// Whether an exposition gives a metric exactly this value.
pub fn has_metric(text: &[char], metric: &str, value: &str) -> (r: bool)
    ensures
        r == exists|i: int|
            0 <= i < lines(text@).len() && states(#[trigger] lines(text@)[i], metric@, value@),
{
    let all = split(text, '\n');
    let ghost every = texts(all@);
    let mut i: usize = 0;
    while i < all.len()
        invariant
            i <= all@.len(),
            every == texts(all@),
            every == lines(text@),
            forall|j: int| 0 <= j < i ==> !states(#[trigger] every[j], metric@, value@),
        decreases all@.len() - i,
    {
        assert(every[i as int] == all@[i as int]@);
        if let Some((name, rest)) = split_once(all[i].as_slice(), ' ') {
            if is_text(name, metric) && is_text(trim(rest), value) {
                assert(states(every[i as int], metric@, value@));
                return true;
            }
        }
        i += 1;
    }
    false
}

/// Whether the exposition of a node says that it leads its group and is ready.
pub fn is_ready_leader(text: &str) -> (r: bool)
    ensures
        r == ((exists|i: int|
            0 <= i < lines(text@).len() && states(
                #[trigger] lines(text@)[i],
                "tc_raft_role"@,
                "2"@,
            )) && (exists|i: int|
            0 <= i < lines(text@).len() && states(#[trigger] lines(text@)[i], "tc_ready"@, "1"@))),
{
    let chars = chars_of(text);
    has_metric(chars.as_slice(), "tc_raft_role", "2") && has_metric(
        chars.as_slice(),
        "tc_ready",
        "1",
    )
}

/// A target is its path, and its query after the first question mark if it has one.
pub proof fn law_targets_are_path_and_query(target: Seq<char>)
    ensures
        !target_path(target).contains('?'),
        target.contains('?') ==> target == target_path(target).push('?') + target_query(target),
        !target.contains('?') ==> target == target_path(target) && target_query(target).len() == 0,
{
    crate::text::law_cut_at_the_first(target, '?');
    if let Some((a, b)) = cut(target, '?') {
        assert(target[a.len() as int] == '?');
    }
}

/// The value of a parameter is what follows the equals sign of the first pair with its name.
pub proof fn law_the_first_pair_counts(pairs: Seq<Seq<char>>, key: Seq<char>)
    ensures
        match pair_value(pairs, key) {
            Some(v) => exists|k: int|
                0 <= k < pairs.len() && #[trigger] pairs[k] == key.push('=') + v && (forall|j: int|
                    0 <= j < k ==> !is_named(#[trigger] pairs[j], key)),
            None => forall|j: int| 0 <= j < pairs.len() ==> !is_named(#[trigger] pairs[j], key),
        },
    decreases pairs.len(),
{
    if pairs.len() > 0 {
        let rest = pairs.skip(1);
        law_the_first_pair_counts(rest, key);
        crate::text::law_cut_at_the_first(pairs[0], '=');
        if is_named(pairs[0], key) {
            let (_, v) = cut(pairs[0], '=')->0;
            assert(pairs[0] == key.push('=') + v);
        } else {
            match pair_value(rest, key) {
                Some(v) => {
                    let k = choose|k: int|
                        0 <= k < rest.len() && #[trigger] rest[k] == key.push('=') + v && (forall|
                            j: int,
                        |
                            0 <= j < k ==> !is_named(#[trigger] rest[j], key));
                    assert(pairs[k + 1] == rest[k]);
                    assert forall|j: int| 0 <= j < k + 1 implies !is_named(
                        #[trigger] pairs[j],
                        key,
                    ) by {
                        if j > 0 {
                            assert(pairs[j] == rest[j - 1]);
                        }
                    }
                },
                None => {
                    assert forall|j: int| 0 <= j < pairs.len() implies !is_named(
                        #[trigger] pairs[j],
                        key,
                    ) by {
                        if j > 0 {
                            assert(pairs[j] == rest[j - 1]);
                        }
                    }
                },
            }
        }
    }
}

/// The pair has this name before its equals sign.
pub open spec fn is_named(pair: Seq<char>, key: Seq<char>) -> bool {
    match cut(pair, '=') {
        Some((name, _)) => name == key,
        None => false,
    }
}

/// A parameter that is read as a number is that number, within its bound; one that is not
/// there is missing, and any other is invalid.
pub proof fn law_required_numbers(query: Seq<char>, key: Seq<char>, max: u64)
    ensures
        match required_value(query, key, max as nat) {
            Ok(n) => n <= max && query_value(query, key) is Some && number(
                query_value(query, key)->0,
            ) == Some(n as nat),
            Err(e) => {
                &&& query_value(query, key) is None ==> e == "missing "@ + key
                &&& query_value(query, key) matches Some(v) ==> e == "invalid "@ + key && (number(
                    v,
                ) is None || number(v)->0 > max)
            },
        },
{
}

/// A request is authorized by the bearer token in its authorization header and by nothing
/// else; a header of any other name changes neither that nor the length it announces.
pub proof fn law_only_the_token_authorizes(head: RequestView, line: Seq<char>, token: Seq<char>)
    ensures
        ({
            let after = with_header(head, line, token);
            &&& head.authorized ==> after.authorized
            &&& after.authorized && !head.authorized ==> header_pair(line) == Some(
                ("authorization"@, "Bearer "@ + token),
            )
            &&& header_pair(line) == Some(("authorization"@, "Bearer "@ + token))
                ==> after.authorized
            &&& after.method == head.method && after.target == head.target
            &&& after.content_length != head.content_length ==> match header_pair(line) {
                Some((name, _)) => name == "content-length"@,
                None => false,
            }
        }),
{
}

} // verus!
