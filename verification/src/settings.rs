//! How settings are read: numbers, switches, lists, and who is reached where.

use std::collections::HashMap;

use vstd::prelude::*;
use vstd::string::StringExecFns;

use crate::sharding::DEFAULT_ASSET_CATEGORY_SIZE;
use crate::sorted::{ascending, insert_ascending};
use crate::text::{
    chars_of, cut, decimal, fields, is_text, lower, lowered, number, parse_number, push_decimal,
    split, split_once, text_of, texts, trim, trimmed,
};

verus! {

broadcast use vstd::std_specs::hash::group_hash_axioms;

/// What a setting says, if it is there.
pub open spec fn setting(value: Option<&str>) -> Option<Seq<char>> {
    match value {
        Some(text) => Some(text@),
        None => None,
    }
}

/// A number of at most `max` that a setting says, else the default.
pub open spec fn numeric(value: Option<Seq<char>>, default: u64, max: u64) -> u64 {
    match value {
        Some(text) => match number(text) {
            Some(n) => if n <= max {
                n as u64
            } else {
                default
            },
            None => default,
        },
        None => default,
    }
}

/// The number that a setting says, or the default if it says none up to `max`.
pub fn env_number(value: Option<&str>, default: u64, max: u64) -> (r: u64)
    ensures
        r == numeric(setting(value), default, max),
{
    match value {
        Some(text) => {
            let chars = chars_of(text);
            match parse_number(chars.as_slice(), max) {
                Some(n) => n,
                None => default,
            }
        },
        None => default,
    }
}

/// Words that switch a setting off.
pub open spec fn is_off(word: Seq<char>) -> bool {
    word == "0"@ || word == "false"@ || word == "no"@ || word == "off"@
}

/// Whether a switch is on: it is unless it says that it is off.
pub fn env_enabled(value: Option<&str>, default: bool) -> (r: bool)
    ensures
        r == match setting(value) {
            Some(text) => !is_off(lowered(trimmed(text))),
            None => default,
        },
{
    match value {
        Some(text) => {
            let chars = chars_of(text);
            let word = lower(trim(chars.as_slice()));
            let w = word.as_slice();
            !(is_text(w, "0") || is_text(w, "false") || is_text(w, "no") || is_text(w, "off"))
        },
        None => default,
    }
}

/// What a list of strings holds.
pub open spec fn strings(list: Seq<String>) -> Seq<Seq<char>> {
    Seq::new(list.len(), |i: int| list[i]@)
}

/// The fields that are not blank, without the white space at their ends.
pub open spec fn filled(parts: Seq<Seq<char>>) -> Seq<Seq<char>>
    decreases parts.len(),
{
    if parts.len() == 0 {
        Seq::empty()
    } else {
        let head = filled(parts.drop_last());
        let last = trimmed(parts.last());
        if last.len() > 0 {
            head.push(last)
        } else {
            head
        }
    }
}

/// The entries of a list that are not blank.
pub fn env_list(value: &str) -> (r: Vec<String>)
    ensures
        strings(r@) == filled(fields(value@, ',')),
{
    let chars = chars_of(value);
    let parts = split(chars.as_slice(), ',');
    let ghost all = texts(parts@);
    let mut out: Vec<String> = Vec::new();
    let mut i: usize = 0;
    assert(all.take(0) =~= Seq::<Seq<char>>::empty());
    assert(strings(out@) =~= Seq::<Seq<char>>::empty());
    while i < parts.len()
        invariant
            i <= parts@.len(),
            all == texts(parts@),
            all == fields(value@, ','),
            strings(out@) == filled(all.take(i as int)),
        decreases parts@.len() - i,
    {
        proof {
            assert(all.take(i + 1).drop_last() =~= all.take(i as int));
            assert(all.take(i + 1).last() == parts@[i as int]@);
        }
        let part = trim(parts[i].as_slice());
        if part.len() > 0 {
            let text = text_of(part);
            let ghost was = strings(out@);
            out.push(text);
            assert(strings(out@) =~= was.push(text@));
        }
        i += 1;
    }
    assert(all.take(i as int) =~= all);
    out
}

/// The names of `n` topics.
pub open spec fn numbered(prefix: Seq<char>, n: nat) -> Seq<Seq<char>> {
    Seq::new(n, |i: int| prefix + decimal(i as nat))
}

/// The topics: those of the list, else as many as are asked for, and at least
/// one, numbered from zero on.
pub open spec fn topic_names(list: Option<Seq<char>>, count: u64, prefix: Seq<char>) -> Seq<
    Seq<char>,
> {
    let generated = numbered(
        prefix,
        if count == 0 {
            1
        } else {
            count as nat
        },
    );
    match list {
        Some(text) => if filled(fields(text, ',')).len() > 0 {
            filled(fields(text, ','))
        } else {
            generated
        },
        None => generated,
    }
}

/// The topics that commands are queued on.
pub fn topics(list: Option<&str>, count: u64, prefix: &str) -> (r: Vec<String>)
    ensures
        strings(r@) == topic_names(setting(list), count, prefix@),
        r@.len() > 0,
{
    if let Some(text) = list {
        let given = env_list(text);
        assert(strings(given@).len() == given@.len());
        if given.len() > 0 {
            return given;
        }
    }
    let n: u64 = if count == 0 {
        1
    } else {
        count
    };
    let mut out: Vec<String> = Vec::new();
    let mut i: u64 = 0;
    assert(strings(out@) =~= numbered(prefix@, 0));
    while i < n
        invariant
            i <= n,
            strings(out@) == numbered(prefix@, i as nat),
        decreases n - i,
    {
        let mut name = String::from_str(prefix);
        push_decimal(&mut name, i);
        let ghost was = strings(out@);
        out.push(name);
        i += 1;
        proof {
            assert(strings(out@) =~= was.push(name@));
            assert(strings(out@) =~= numbered(prefix@, i as nat));
        }
    }
    assert(strings(out@).len() == out@.len());
    out
}

/// A category and the group it is pinned to.
pub open spec fn pin_in(entry: Seq<char>) -> Option<(u32, usize)> {
    match cut(trimmed(entry), ':') {
        None => None,
        Some((category, group)) => match (number(category), number(group)) {
            (Some(c), Some(g)) => if c <= u32::MAX && g <= usize::MAX {
                Some((c as u32, g as usize))
            } else {
                None
            },
            _ => None,
        },
    }
}

/// The pins in a list; of two for one category the later one holds, and entries
/// that are none are passed over.
pub open spec fn pins_in(entries: Seq<Seq<char>>) -> Map<u32, usize>
    decreases entries.len(),
{
    if entries.len() == 0 {
        Map::empty()
    } else {
        let head = pins_in(entries.drop_last());
        match pin_in(entries.last()) {
            Some((category, group)) => head.insert(category, group),
            None => head,
        }
    }
}

fn read_pin(entry: &[char]) -> (r: Option<(u32, usize)>)
    ensures
        r == pin_in(entry@),
{
    match split_once(trim(entry), ':') {
        None => None,
        Some((category, group)) => {
            let c: u64 = match parse_number(category, u32::MAX as u64) {
                Some(c) => c,
                None => {
                    return None;
                },
            };
            match parse_number(group, usize::MAX as u64) {
                Some(g) => Some((c as u32, g as usize)),
                None => None,
            }
        },
    }
}

/// The pins that a setting lists; none without it.
pub open spec fn pins_set(value: Option<Seq<char>>) -> Map<u32, usize> {
    match value {
        Some(text) => pins_in(fields(text, ',')),
        None => Map::empty(),
    }
}

/// Which categories are pinned to which replication groups.
pub fn category_pins(value: Option<&str>) -> (r: HashMap<u32, usize>)
    ensures
        r@ == pins_set(setting(value)),
{
    let mut pins: HashMap<u32, usize> = HashMap::new();
    let text = match value {
        Some(text) => text,
        None => {
            return pins;
        },
    };
    let chars = chars_of(text);
    let entries = split(chars.as_slice(), ',');
    let ghost all = texts(entries@);
    let mut i: usize = 0;
    assert(all.take(0) =~= Seq::<Seq<char>>::empty());
    while i < entries.len()
        invariant
            i <= entries@.len(),
            all == texts(entries@),
            all == fields(text@, ','),
            pins@ == pins_in(all.take(i as int)),
        decreases entries@.len() - i,
    {
        proof {
            assert(all.take(i + 1).drop_last() =~= all.take(i as int));
            assert(all.take(i + 1).last() == entries@[i as int]@);
        }
        if let Some((category, group)) = read_pin(entries[i].as_slice()) {
            pins.insert(category, group);
        }
        i += 1;
    }
    assert(all.take(i as int) =~= all);
    pins
}

/// Why a list of database addresses is refused.
pub open spec fn url_count_error(db_count: nat, found: nat) -> Seq<char> {
    "TC_ORDER_MYSQL_SHARD_URLS must contain "@ + decimal(db_count)
        + " urls to match TC_DB_COUNT; got "@ + decimal(found)
}

/// There has to be one address for each database, or rows would go to one that
/// cannot be reached.
pub fn validate_shard_urls(urls: &[String], db_count: usize) -> (r: Result<(), String>)
    ensures
        match r {
            Ok(()) => urls@.len() == db_count,
            Err(e) => {
                &&& urls@.len() != db_count
                &&& e@ == url_count_error(db_count as nat, urls@.len())
            },
        },
{
    if urls.len() == db_count {
        Ok(())
    } else {
        let mut e = String::new();
        e.append("TC_ORDER_MYSQL_SHARD_URLS must contain ");
        assert(e@ =~= "TC_ORDER_MYSQL_SHARD_URLS must contain "@);
        push_decimal(&mut e, db_count as u64);
        e.append(" urls to match TC_DB_COUNT; got ");
        push_decimal(&mut e, urls.len() as u64);
        Err(e)
    }
}

/// The addresses of the databases: the list if it has one for each, else the
/// single address for all of them.
pub open spec fn database_urls(
    list: Option<Seq<char>>,
    single: Option<Seq<char>>,
    db_count: nat,
) -> Option<Seq<Seq<char>>> {
    if list is Some && filled(fields(list->0, ',')).len() == db_count {
        Some(filled(fields(list->0, ',')))
    } else {
        match single {
            Some(url) => Some(Seq::new(db_count, |i: int| url)),
            None => None,
        }
    }
}

/// The addresses of the databases; `None` if none is set.
pub fn shard_urls(list: Option<&str>, single: Option<&str>, db_count: usize) -> (r: Option<
    Vec<String>,
>)
    ensures
        match r {
            Some(urls) => database_urls(setting(list), setting(single), db_count as nat) == Some(
                strings(urls@),
            ) && urls@.len() == db_count,
            None => database_urls(setting(list), setting(single), db_count as nat) is None,
        },
{
    if let Some(text) = list {
        let urls = env_list(text);
        assert(strings(urls@).len() == urls@.len());
        if validate_shard_urls(urls.as_slice(), db_count).is_ok() {
            return Some(urls);
        }
    }
    match single {
        Some(url) => {
            let mut out: Vec<String> = Vec::new();
            let mut i: usize = 0;
            while i < db_count
                invariant
                    i <= db_count,
                    out@.len() == i,
                    forall|j: int| 0 <= j < i ==> (#[trigger] out@[j])@ == url@,
                decreases db_count - i,
            {
                out.push(String::from_str(url));
                i += 1;
            }
            assert(strings(out@) =~= Seq::new(db_count as nat, |i: int| url@));
            Some(out)
        },
        None => None,
    }
}

/// Only the roles that write to a database need one.
pub fn role_needs_mysql(db_consumers: usize, execution_consumers: usize) -> (r: bool)
    ensures
        r == (db_consumers > 0 || execution_consumers > 0),
{
    db_consumers > 0 || execution_consumers > 0
}

/// How many instruments a category has.
pub fn category_size(value: Option<&str>) -> (r: u32)
    ensures
        r == if numeric(setting(value), 0, u32::MAX as u64) > 0 {
            numeric(setting(value), 0, u32::MAX as u64) as u32
        } else {
            DEFAULT_ASSET_CATEGORY_SIZE
        },
        r > 0,
{
    let n: u64 = env_number(value, 0, u32::MAX as u64);
    if n > 0 {
        n as u32
    } else {
        DEFAULT_ASSET_CATEGORY_SIZE
    }
}

/// A member of a replication group: where it takes commands and, if its state
/// can be asked for, where.
#[derive(Debug, PartialEq, Eq)]
pub struct MatcherTarget {
    pub order_addr: String,
    pub metrics_addr: Option<String>,
}

/// What a member's addresses are.
#[verifier::ext_equal]
pub struct TargetView {
    pub order_addr: Seq<char>,
    pub metrics_addr: Option<Seq<char>>,
}

impl View for MatcherTarget {
    type V = TargetView;

    open spec fn view(&self) -> TargetView {
        TargetView {
            order_addr: self.order_addr@,
            metrics_addr: match self.metrics_addr {
                Some(addr) => Some(addr@),
                None => None,
            },
        }
    }
}

/// What the addresses of members are.
pub open spec fn target_views(list: Seq<MatcherTarget>) -> Seq<TargetView> {
    Seq::new(list.len(), |i: int| list[i]@)
}

/// What the addresses of the members of groups are.
pub open spec fn group_views(groups: Seq<Vec<MatcherTarget>>) -> Seq<Seq<TargetView>> {
    Seq::new(groups.len(), |i: int| target_views(groups[i]@))
}

/// The members in a list; entries without two addresses are passed over.
pub open spec fn members(entries: Seq<Seq<char>>) -> Seq<TargetView>
    decreases entries.len(),
{
    if entries.len() == 0 {
        Seq::empty()
    } else {
        let head = members(entries.drop_last());
        match cut(trimmed(entries.last()), '@') {
            Some((order_addr, metrics_addr)) => head.push(
                TargetView { order_addr, metrics_addr: Some(metrics_addr) },
            ),
            None => head,
        }
    }
}

/// Reads a list of members such as `a:9001@a:9102,b:9001@b:9102`.
pub fn parse_matcher_list(value: &[char]) -> (r: Vec<MatcherTarget>)
    ensures
        target_views(r@) == members(fields(value@, ',')),
{
    let entries = split(value, ',');
    let ghost all = texts(entries@);
    let mut out: Vec<MatcherTarget> = Vec::new();
    let mut i: usize = 0;
    assert(all.take(0) =~= Seq::<Seq<char>>::empty());
    assert(target_views(out@) =~= Seq::<TargetView>::empty());
    while i < entries.len()
        invariant
            i <= entries@.len(),
            all == texts(entries@),
            all == fields(value@, ','),
            target_views(out@) == members(all.take(i as int)),
        decreases entries@.len() - i,
    {
        proof {
            assert(all.take(i + 1).drop_last() =~= all.take(i as int));
            assert(all.take(i + 1).last() == entries@[i as int]@);
        }
        if let Some((order_addr, metrics_addr)) = split_once(trim(entries[i].as_slice()), '@') {
            let target = MatcherTarget {
                order_addr: text_of(order_addr),
                metrics_addr: Some(text_of(metrics_addr)),
            };
            let ghost was = target_views(out@);
            out.push(target);
            assert(target_views(out@) =~= was.push(target@));
        }
        i += 1;
    }
    assert(all.take(i as int) =~= all);
    out
}

/// The members of every group in a list of groups.
pub open spec fn listed_groups(value: Seq<char>) -> Seq<Seq<TargetView>> {
    let parts = fields(value, ';');
    Seq::new(parts.len(), |i: int| members(fields(parts[i], ',')))
}

/// No group is without members.
pub open spec fn all_manned(groups: Seq<Seq<TargetView>>) -> bool {
    forall|i: int| 0 <= i < groups.len() ==> (#[trigger] groups[i]).len() > 0
}

/// The replication groups: those of the list of groups if each has a member,
/// else one group of the members in the list of members if there are any, else
/// the single address.
pub open spec fn matchers(
    groups: Option<Seq<char>>,
    list: Option<Seq<char>>,
    single: Option<Seq<char>>,
) -> Seq<Seq<TargetView>> {
    if groups is Some && all_manned(listed_groups(groups->0)) {
        listed_groups(groups->0)
    } else if list is Some && members(fields(list->0, ',')).len() > 0 {
        seq![members(fields(list->0, ','))]
    } else {
        seq![
            seq![
                TargetView {
                    order_addr: match single {
                        Some(addr) => addr,
                        None => "trade-core:9001"@,
                    },
                    metrics_addr: None,
                },
            ],
        ]
    }
}

fn read_groups(value: &str) -> (r: Option<Vec<Vec<MatcherTarget>>>)
    ensures
        match r {
            Some(groups) => all_manned(listed_groups(value@)) && group_views(groups@)
                == listed_groups(value@),
            None => !all_manned(listed_groups(value@)),
        },
{
    let chars = chars_of(value);
    let parts = split(chars.as_slice(), ';');
    let ghost all = texts(parts@);
    let mut out: Vec<Vec<MatcherTarget>> = Vec::new();
    let mut i: usize = 0;
    assert(group_views(out@) =~= listed_groups(value@).take(0));
    while i < parts.len()
        invariant
            i <= parts@.len(),
            all == texts(parts@),
            all == fields(value@, ';'),
            group_views(out@) == listed_groups(value@).take(i as int),
            forall|j: int| 0 <= j < i ==> (#[trigger] listed_groups(value@)[j]).len() > 0,
        decreases parts@.len() - i,
    {
        let targets = parse_matcher_list(parts[i].as_slice());
        assert(listed_groups(value@)[i as int] == target_views(targets@));
        if targets.len() == 0 {
            assert(listed_groups(value@)[i as int].len() == 0);
            return None;
        }
        let ghost was = group_views(out@);
        out.push(targets);
        assert(group_views(out@) =~= was.push(target_views(targets@)));
        i += 1;
        assert(group_views(out@) =~= listed_groups(value@).take(i as int));
    }
    assert(listed_groups(value@).take(i as int) =~= listed_groups(value@));
    Some(out)
}

/// The replication groups that commands are handed to.
pub fn matcher_groups(groups: Option<&str>, list: Option<&str>, single: Option<&str>) -> (r: Vec<
    Vec<MatcherTarget>,
>)
    ensures
        group_views(r@) == matchers(setting(groups), setting(list), setting(single)),
        r@.len() > 0,
{
    if let Some(text) = groups {
        if let Some(found) = read_groups(text) {
            proof {
                assert(group_views(found@).len() == found@.len());
                assert(fields(text@, ';').len() > 0);
            }
            return found;
        }
    }
    let mut out: Vec<Vec<MatcherTarget>> = Vec::new();
    if let Some(text) = list {
        let chars = chars_of(text);
        let targets = parse_matcher_list(chars.as_slice());
        assert(target_views(targets@).len() == targets@.len());
        if targets.len() > 0 {
            out.push(targets);
            assert(group_views(out@) =~= seq![target_views(targets@)]);
            return out;
        }
    }
    let order_addr = match single {
        Some(addr) => String::from_str(addr),
        None => String::from_str("trade-core:9001"),
    };
    let target = MatcherTarget { order_addr, metrics_addr: None };
    let mut one: Vec<MatcherTarget> = Vec::new();
    one.push(target);
    assert(target_views(one@) =~= seq![target@]);
    out.push(one);
    assert(group_views(out@) =~= seq![target_views(one@)]);
    out
}

/// Why a list of instruments is refused.
#[derive(Clone, Copy, Debug, PartialEq, Eq, Structural)]
pub enum InstrumentError {
    /// A number or an end of a range is no instrument.
    Invalid,
    /// A range ends before it starts.
    Backwards,
    /// The list selects nothing.
    Empty,
}

/// The instruments from the first to the last that an entry such as `7` or `1-5`
/// selects.
pub open spec fn range_in(entry: Seq<char>) -> Result<(u32, u32), InstrumentError> {
    let (first, last) = match cut(entry, '-') {
        Some((first, last)) => (number(first), number(last)),
        None => (number(entry), number(entry)),
    };
    match (first, last) {
        (Some(a), Some(b)) => if a > u32::MAX || b > u32::MAX {
            Err(InstrumentError::Invalid)
        } else if a > b {
            Err(InstrumentError::Backwards)
        } else {
            Ok((a as u32, b as u32))
        },
        _ => Err(InstrumentError::Invalid),
    }
}

/// The ranges of entries, empty ones left out, or why the first bad one is
/// refused.
pub open spec fn ranges_in(entries: Seq<Seq<char>>) -> Result<Seq<(u32, u32)>, InstrumentError>
    decreases entries.len(),
{
    if entries.len() == 0 {
        Ok(Seq::empty())
    } else {
        match ranges_in(entries.drop_last()) {
            Err(e) => Err(e),
            Ok(head) => if entries.last().len() == 0 {
                Ok(head)
            } else {
                match range_in(entries.last()) {
                    Err(e) => Err(e),
                    Ok(range) => Ok(head.push(range)),
                }
            },
        }
    }
}

/// A range selects an instrument.
pub open spec fn selects(range: (u32, u32), id: u32) -> bool {
    range.0 <= id <= range.1
}

/// The instruments are those that the ranges select, ascending and each once.
pub open spec fn is_selection(list: Seq<u32>, ranges: Seq<(u32, u32)>) -> bool {
    &&& ascending(list)
    &&& forall|id: u32| #[trigger]
        list.contains(id) <==> exists|i: int|
            0 <= i < ranges.len() && selects(#[trigger] ranges[i], id)
}

proof fn lemma_ranges_stop(entries: Seq<Seq<char>>, n: int)
    requires
        0 <= n <= entries.len(),
        ranges_in(entries.take(n)) is Err,
    ensures
        ranges_in(entries) == ranges_in(entries.take(n)),
    decreases entries.len() - n,
{
    if n < entries.len() {
        assert(entries.take(n + 1).drop_last() =~= entries.take(n));
        lemma_ranges_stop(entries, n + 1);
    } else {
        assert(entries.take(n) =~= entries);
    }
}

fn read_range(entry: &[char]) -> (r: Result<(u32, u32), InstrumentError>)
    ensures
        r == range_in(entry@),
{
    let (first, last) = match split_once(entry, '-') {
        Some((first, last)) => (first, last),
        None => (entry, entry),
    };
    match (parse_number(first, u32::MAX as u64), parse_number(last, u32::MAX as u64)) {
        (Some(a), Some(b)) => if a > b {
            Err(InstrumentError::Backwards)
        } else {
            Ok((a as u32, b as u32))
        },
        _ => Err(InstrumentError::Invalid),
    }
}

fn is_listed(list: &Vec<u32>, id: u32) -> (r: bool)
    requires
        ascending(list@),
    ensures
        r == list@.contains(id),
{
    let n: usize = list.len();
    if n == 0 || list[n - 1] < id {
        proof {
            if list@.contains(id) {
                let i = choose|i: int| 0 <= i < list@.len() && list@[i] == id;
                if i < n - 1 {
                    assert(list@[i] < list@[n - 1]);
                }
            }
        }
        return false;
    }
    let mut i: usize = 0;
    while i < n
        invariant
            i <= n == list@.len(),
            forall|j: int| 0 <= j < i ==> #[trigger] list@[j] != id,
        decreases n - i,
    {
        if list[i] == id {
            assert(list@[i as int] == id);
            return true;
        }
        i += 1;
    }
    false
}

fn add_listed(list: &mut Vec<u32>, id: u32)
    requires
        ascending(old(list)@),
    ensures
        ascending(final(list)@),
        forall|k: u32| #[trigger] final(list)@.contains(k) <==> old(list)@.contains(k) || k == id,
{
    if !is_listed(list, id) {
        let n: usize = list.len();
        if n > 0 && list[n - 1] < id {
            let ghost was = list@;
            list.push(id);
            proof {
                let now = list@;
                assert forall|i: int, j: int| 0 <= i < j < now.len() implies #[trigger] now[i]
                    < #[trigger] now[j] by {
                    if j == was.len() && i < n - 1 {
                        assert(was[i] < was[n - 1]);
                    }
                }
                assert forall|k: u32| #[trigger] now.contains(k) <==> was.contains(k) || k
                    == id by {
                    if now.contains(k) {
                        let i = choose|i: int| 0 <= i < now.len() && now[i] == k;
                        if i < was.len() {
                            assert(was[i] == k);
                        }
                    }
                    if was.contains(k) {
                        let i = choose|i: int| 0 <= i < was.len() && was[i] == k;
                        assert(now[i] == k);
                    }
                    assert(now[was.len() as int] == id);
                }
            }
        } else {
            insert_ascending(list, id);
        }
    }
}

fn add_range(list: &mut Vec<u32>, range: (u32, u32))
    requires
        ascending(old(list)@),
        range.0 <= range.1,
    ensures
        ascending(final(list)@),
        forall|k: u32| #[trigger]
            final(list)@.contains(k) <==> old(list)@.contains(k) || selects(range, k),
{
    let ghost was = list@;
    let mut id: u32 = range.0;
    loop
        invariant
            was == old(list)@,
            ascending(list@),
            range.0 <= id <= range.1,
            forall|k: u32| #[trigger]
                list@.contains(k) <==> was.contains(k) || (range.0 <= k && k < id),
        decreases range.1 - id,
    {
        add_listed(list, id);
        if id == range.1 {
            return;
        }
        id += 1;
    }
}

/// The instruments that a node serves, such as `0-15` or `1-5,9`, ascending and
/// each once.
pub fn configured_instruments(spec: &str) -> (r: Result<Vec<u32>, InstrumentError>)
    ensures
        match ranges_in(fields(spec@, ',')) {
            Err(e) => r matches Err(found) && found == e,
            Ok(ranges) => if ranges.len() == 0 {
                r matches Err(e) && e == InstrumentError::Empty
            } else {
                r matches Ok(list) && is_selection(list@, ranges) && list@.len() > 0
            },
        },
{
    let chars = chars_of(spec);
    let entries = split(chars.as_slice(), ',');
    let ghost all = texts(entries@);
    let ghost mut ranges: Seq<(u32, u32)> = Seq::empty();
    let mut list: Vec<u32> = Vec::new();
    let mut i: usize = 0;
    assert(all.take(0) =~= Seq::<Seq<char>>::empty());
    while i < entries.len()
        invariant
            i <= entries@.len(),
            all == texts(entries@),
            all == fields(spec@, ','),
            ranges_in(all.take(i as int)) == Ok::<Seq<(u32, u32)>, InstrumentError>(ranges),
            is_selection(list@, ranges),
            ranges.len() > 0 <==> list@.len() > 0,
        decreases entries@.len() - i,
    {
        proof {
            assert(all.take(i + 1).drop_last() =~= all.take(i as int));
            assert(all.take(i + 1).last() == entries@[i as int]@);
            if ranges_in(all.take(i + 1)) is Err {
                lemma_ranges_stop(all, i + 1);
            }
        }
        if entries[i].len() > 0 {
            match read_range(entries[i].as_slice()) {
                Err(e) => {
                    return Err(e);
                },
                Ok(range) => {
                    let ghost before = list@;
                    let ghost old_ranges = ranges;
                    add_range(&mut list, range);
                    proof {
                        ranges = ranges.push(range);
                        assert forall|id: u32| #[trigger] list@.contains(id) <==> exists|j: int|
                            0 <= j < ranges.len() && selects(#[trigger] ranges[j], id) by {
                            if before.contains(id) {
                                let j = choose|j: int|
                                    0 <= j < old_ranges.len() && selects(
                                        #[trigger] old_ranges[j],
                                        id,
                                    );
                                assert(ranges[j] == old_ranges[j]);
                            }
                            assert(ranges[old_ranges.len() as int] == range);
                            if exists|j: int|
                                0 <= j < ranges.len() && selects(#[trigger] ranges[j], id) {
                                let j = choose|j: int|
                                    0 <= j < ranges.len() && selects(#[trigger] ranges[j], id);
                                if j < old_ranges.len() {
                                    assert(old_ranges[j] == ranges[j]);
                                    assert(before.contains(id));
                                }
                            }
                        }
                        assert(selects(range, range.0));
                        assert(list@.contains(range.0));
                    }
                },
            }
        }
        i += 1;
    }
    assert(all.take(i as int) =~= all);
    if list.len() == 0 {
        return Err(InstrumentError::Empty);
    }
    Ok(list)
}

} // verus!
