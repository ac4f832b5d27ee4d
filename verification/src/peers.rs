//! Replicas of a group: where they run, how they are reached, and how the
//! messages of the consensus protocol are framed between them.

use std::collections::HashMap;

use protobuf::Message as PbMessage;
use vstd::prelude::*;
use vstd::string::StringExecFns;

use crate::codec::{
    be, from_be, get_be, law_bytes_round_trip, lemma_le_len, lemma_pow256, put_be, put_slice,
};
use crate::text::{
    chars_of, copy_chars, cut, decimal, fields, number, parse_number, push_decimal, split,
    split_once, text_of, texts, trim, trimmed,
};

verus! {

broadcast use vstd::std_specs::hash::group_hash_axioms;

/// The longest message between replicas.
pub const MAX_RAFT_MESSAGE_BYTES: usize = 16777216;

/// Replicas of a group, unless configured otherwise.
pub const DEFAULT_REPLICAS: u16 = 5;

/// A replica that runs on this machine.
#[derive(Debug, PartialEq, Eq)]
pub struct GroupPlacement {
    pub group: u16,
    pub local_node: u16,
    pub peers: String,
    pub raft_port: u16,
}

/// Where a replica runs.
#[verifier::ext_equal]
pub struct PlacementView {
    pub group: u16,
    pub local_node: u16,
    pub peers: Seq<char>,
    pub raft_port: u16,
}

impl View for GroupPlacement {
    type V = PlacementView;

    open spec fn view(&self) -> PlacementView {
        PlacementView {
            group: self.group,
            local_node: self.local_node,
            peers: self.peers@,
            raft_port: self.raft_port,
        }
    }
}

/// Where replicas run.
pub open spec fn placement_views(list: Seq<GroupPlacement>) -> Seq<PlacementView> {
    Seq::new(list.len(), |i: int| list[i]@)
}

/// Why a placement is refused.
#[derive(Clone, Copy, Debug, PartialEq, Eq, Structural)]
pub enum PlacementError {
    /// The group is no number.
    InvalidGroup,
    /// There is no local node.
    MissingLocalNode,
    /// The local node is no number.
    InvalidLocalNode,
    /// There are no peers.
    MissingPeers,
    /// The local node is not among the peers.
    LocalNodeAbsent { local_node: u16, group: u16 },
    /// The address of the local node has no port.
    InvalidAddress,
}

/// The number of a port, node or group.
pub open spec fn small_number(text: Seq<char>) -> Option<u16> {
    match number(text) {
        Some(n) => if n <= u16::MAX {
            Some(n as u16)
        } else {
            None
        },
        None => None,
    }
}

fn parse_small(text: &[char]) -> (r: Option<u16>)
    ensures
        r == small_number(text@),
{
    match parse_number(text, u16::MAX as u64) {
        Some(n) => Some(n as u16),
        None => None,
    }
}

/// The address of the first of `peers` with this number.
pub open spec fn address_of(peers: Seq<Seq<char>>, node: u16) -> Option<Seq<char>>
    decreases peers.len(),
{
    if peers.len() == 0 {
        None
    } else {
        match cut(peers[0], '@') {
            Some((id, addr)) => if small_number(id) == Some(node) {
                Some(addr)
            } else {
                address_of(peers.skip(1), node)
            },
            None => address_of(peers.skip(1), node),
        }
    }
}

fn find_address(peers: &[char], node: u16) -> (r: Option<Vec<char>>)
    ensures
        match r {
            Some(addr) => address_of(fields(peers@, ','), node) == Some(addr@),
            None => address_of(fields(peers@, ','), node) is None,
        },
{
    let list = split(peers, ',');
    let ghost all = texts(list@);
    let mut i: usize = 0;
    assert(all.skip(0) =~= all);
    while i < list.len()
        invariant
            i <= list@.len(),
            all == texts(list@),
            all == fields(peers@, ','),
            address_of(all.skip(i as int), node) == address_of(all, node),
        decreases list@.len() - i,
    {
        assert(all.skip(i as int)[0] == list@[i as int]@);
        assert(all.skip(i as int).skip(1) =~= all.skip(i + 1));
        if let Some((id, addr)) = split_once(list[i].as_slice(), '@') {
            if let Some(n) = parse_small(id) {
                if n == node {
                    assert(addr@.subrange(0, addr@.len() as int) =~= addr@);
                    return Some(copy_chars(addr, 0, addr.len()));
                }
            }
        }
        i += 1;
    }
    None
}

/// What follows the last `c`.
pub open spec fn after_last(text: Seq<char>, c: char) -> Option<Seq<char>>
    decreases text.len(),
{
    match cut(text, c) {
        None => None,
        Some((_, rest)) => match after_last(rest, c) {
            Some(tail) => Some(tail),
            None => Some(rest),
        },
    }
}

fn find_after_last<'a>(text: &'a [char], c: char) -> (r: Option<&'a [char]>)
    ensures
        match r {
            Some(tail) => after_last(text@, c) == Some(tail@),
            None => after_last(text@, c) is None,
        },
{
    let mut tail: &'a [char] = match split_once(text, c) {
        None => {
            return None;
        },
        Some((_, rest)) => rest,
    };
    loop
        invariant
            after_last(text@, c) == match after_last(tail@, c) {
                Some(t) => Some(t),
                None => Some(tail@),
            },
        decreases tail@.len(),
    {
        match split_once(tail, c) {
            None => {
                return Some(tail);
            },
            Some((_, rest)) => {
                tail = rest;
            },
        }
    }
}

/// The placement that an entry such as `7|2|1@a:7071,2@b:7072` describes.
pub open spec fn placement_in(entry: Seq<char>) -> Result<PlacementView, PlacementError> {
    let text = trimmed(entry);
    let first = match cut(text, '|') {
        Some((group, _)) => group,
        None => text,
    };
    match small_number(first) {
        None => Err(PlacementError::InvalidGroup),
        Some(group) => match cut(text, '|') {
            None => Err(PlacementError::MissingLocalNode),
            Some((_, rest)) => {
                let second = match cut(rest, '|') {
                    Some((node, _)) => node,
                    None => rest,
                };
                match small_number(second) {
                    None => Err(PlacementError::InvalidLocalNode),
                    Some(local_node) => match cut(rest, '|') {
                        None => Err(PlacementError::MissingPeers),
                        Some((_, peers)) => match address_of(fields(peers, ','), local_node) {
                            None => Err(PlacementError::LocalNodeAbsent { local_node, group }),
                            Some(addr) => match after_last(addr, ':') {
                                None => Err(PlacementError::InvalidAddress),
                                Some(port) => match small_number(port) {
                                    None => Err(PlacementError::InvalidAddress),
                                    Some(raft_port) => Ok(
                                        PlacementView { group, local_node, peers, raft_port },
                                    ),
                                },
                            },
                        },
                    },
                }
            },
        },
    }
}

fn read_placement(entry: &[char]) -> (r: Result<GroupPlacement, PlacementError>)
    ensures
        match r {
            Ok(p) => placement_in(entry@) == Ok::<PlacementView, PlacementError>(p@),
            Err(e) => placement_in(entry@) == Err::<PlacementView, PlacementError>(e),
        },
{
    let text = trim(entry);
    let (first, rest) = match split_once(text, '|') {
        Some((first, rest)) => (first, Some(rest)),
        None => (text, None),
    };
    let group: u16 = match parse_small(first) {
        Some(group) => group,
        None => {
            return Err(PlacementError::InvalidGroup);
        },
    };
    let rest = match rest {
        Some(rest) => rest,
        None => {
            return Err(PlacementError::MissingLocalNode);
        },
    };
    let (second, peers) = match split_once(rest, '|') {
        Some((second, peers)) => (second, Some(peers)),
        None => (rest, None),
    };
    let local_node: u16 = match parse_small(second) {
        Some(node) => node,
        None => {
            return Err(PlacementError::InvalidLocalNode);
        },
    };
    let peers = match peers {
        Some(peers) => peers,
        None => {
            return Err(PlacementError::MissingPeers);
        },
    };
    let addr = match find_address(peers, local_node) {
        Some(addr) => addr,
        None => {
            return Err(PlacementError::LocalNodeAbsent { local_node, group });
        },
    };
    let port = match find_after_last(addr.as_slice(), ':') {
        Some(port) => port,
        None => {
            return Err(PlacementError::InvalidAddress);
        },
    };
    match parse_small(port) {
        Some(raft_port) => Ok(
            GroupPlacement { group, local_node, peers: text_of(peers), raft_port },
        ),
        None => Err(PlacementError::InvalidAddress),
    }
}

/// The placements of entries, blank ones left out, or why the first bad one is
/// refused.
pub open spec fn placements(entries: Seq<Seq<char>>) -> Result<Seq<PlacementView>, PlacementError>
    decreases entries.len(),
{
    if entries.len() == 0 {
        Ok(Seq::empty())
    } else {
        match placements(entries.drop_last()) {
            Err(e) => Err(e),
            Ok(head) => if trimmed(entries.last()).len() == 0 {
                Ok(head)
            } else {
                match placement_in(entries.last()) {
                    Err(e) => Err(e),
                    Ok(p) => Ok(head.push(p)),
                }
            },
        }
    }
}

proof fn lemma_placements_stop(entries: Seq<Seq<char>>, n: int)
    requires
        0 <= n <= entries.len(),
        placements(entries.take(n)) is Err,
    ensures
        placements(entries) == placements(entries.take(n)),
    decreases entries.len() - n,
{
    if n < entries.len() {
        assert(entries.take(n + 1).drop_last() =~= entries.take(n));
        lemma_placements_stop(entries, n + 1);
    } else {
        assert(entries.take(n) =~= entries);
    }
}

/// Reads the replicas that run on this machine, such as
/// `7|2|1@a:7071,2@b:7072;19|1|1@b:7191`.
pub fn parse_placements(value: &str) -> (r: Result<Vec<GroupPlacement>, PlacementError>)
    ensures
        match r {
            Ok(list) => placements(fields(value@, ';')) == Ok::<Seq<PlacementView>, PlacementError>(
                placement_views(list@),
            ),
            Err(e) => placements(fields(value@, ';')) == Err::<Seq<PlacementView>, PlacementError>(
                e,
            ),
        },
{
    let chars = chars_of(value);
    let entries = split(chars.as_slice(), ';');
    let ghost all = texts(entries@);
    let mut out: Vec<GroupPlacement> = Vec::new();
    let mut i: usize = 0;
    assert(all.take(0) =~= Seq::<Seq<char>>::empty());
    assert(placement_views(out@) =~= Seq::<PlacementView>::empty());
    while i < entries.len()
        invariant
            i <= entries@.len(),
            all == texts(entries@),
            all == fields(value@, ';'),
            placements(all.take(i as int)) == Ok::<Seq<PlacementView>, PlacementError>(
                placement_views(out@),
            ),
        decreases entries@.len() - i,
    {
        proof {
            assert(all.take(i + 1).drop_last() =~= all.take(i as int));
            assert(all.take(i + 1).last() == entries@[i as int]@);
            if placements(all.take(i + 1)) is Err {
                lemma_placements_stop(all, i + 1);
            }
        }
        if trim(entries[i].as_slice()).len() > 0 {
            match read_placement(entries[i].as_slice()) {
                Err(e) => {
                    return Err(e);
                },
                Ok(p) => {
                    let ghost was = placement_views(out@);
                    out.push(p);
                    assert(placement_views(out@) =~= was.push(p@));
                },
            }
        }
        i += 1;
    }
    assert(all.take(i as int) =~= all);
    Ok(out)
}

/// A placement that is accepted names its own node among its peers.
pub proof fn law_placement_names_its_node(entry: Seq<char>)
    requires
        placement_in(entry) is Ok,
    ensures
        address_of(
            fields(placement_in(entry)->Ok_0.peers, ','),
            placement_in(entry)->Ok_0.local_node,
        ) is Some,
{
}

/// The port of a replica.
pub open spec fn port_of(base: int, group: int, node: int) -> int {
    base + group * 10 + node
}

/// The port of a replica: ten for each group, one of them for each node.
pub fn group_port(base: u16, group: u16, node: u16) -> (r: u16)
    requires
        port_of(base as int, group as int, node as int) <= u16::MAX,
    ensures
        r == port_of(base as int, group as int, node as int),
{
    base + group * 10 + node
}

/// The peers of a group: nodes from one on.
pub open spec fn default_peers(group: int, replicas: nat) -> Seq<char>
    decreases replicas,
{
    if replicas == 0 {
        Seq::empty()
    } else {
        let peer = decimal(replicas) + "@raft-"@ + decimal(replicas) + ":"@ + decimal(
            port_of(7000, group, replicas as int) as nat,
        );
        if replicas == 1 {
            peer
        } else {
            default_peers(group, (replicas - 1) as nat) + ","@ + peer
        }
    }
}

fn format_peers(group: u16, replicas: u16) -> (r: String)
    requires
        port_of(7000, group as int, replicas as int) <= u16::MAX,
    ensures
        r@ == default_peers(group as int, replicas as nat),
{
    let mut out = String::new();
    let mut node: u16 = 0;
    assert(out@ =~= Seq::<char>::empty());
    while node < replicas
        invariant
            node <= replicas,
            port_of(7000, group as int, replicas as int) <= u16::MAX,
            out@ == default_peers(group as int, node as nat),
        decreases replicas - node,
    {
        node += 1;
        let mut peer = String::new();
        push_decimal(&mut peer, node as u64);
        assert(peer@ =~= decimal(node as nat));
        peer.append("@raft-");
        push_decimal(&mut peer, node as u64);
        peer.append(":");
        push_decimal(&mut peer, group_port(7000, group, node) as u64);
        if node > 1 {
            out.append(",");
        }
        let ghost was = out@;
        out.append(peer.as_str());
        proof {
            if node == 1 {
                assert(out@ =~= peer@);
            }
        }
    }
    out
}

/// The replicas of one node when every group has one on every node.
pub open spec fn default_placement(node: u16, group: u16, replicas: u16) -> PlacementView {
    PlacementView {
        group,
        local_node: node,
        peers: default_peers(group as int, replicas as nat),
        raft_port: port_of(7000, group as int, node as int) as u16,
    }
}

/// The replicas of a node when every group has one on every node.
pub fn default_placements(node: u16, groups: u16, replicas: u16) -> (r: Vec<GroupPlacement>)
    requires
        node <= replicas,
        groups > 0 ==> port_of(7000, groups - 1, replicas as int) <= u16::MAX,
    ensures
        placement_views(r@) == Seq::new(
            groups as nat,
            |g: int| default_placement(node, g as u16, replicas),
        ),
{
    let mut out: Vec<GroupPlacement> = Vec::new();
    let mut group: u16 = 0;
    while group < groups
        invariant
            group <= groups,
            node <= replicas,
            groups > 0 ==> port_of(7000, groups - 1, replicas as int) <= u16::MAX,
            out@.len() == group,
            forall|g: int|
                0 <= g < group ==> (#[trigger] out@[g])@ == default_placement(
                    node,
                    g as u16,
                    replicas,
                ),
        decreases groups - group,
    {
        out.push(
            GroupPlacement {
                group,
                local_node: node,
                peers: format_peers(group, replicas),
                raft_port: group_port(7000, group, node),
            },
        );
        group += 1;
    }
    assert(placement_views(out@) =~= Seq::new(
        groups as nat,
        |g: int| default_placement(node, g as u16, replicas),
    ));
    out
}

/// Two replicas of a machine never share a port, as long as there are at most
/// nine in a group.
pub proof fn law_ports_do_not_collide(base: int, a: (int, int), b: (int, int))
    requires
        1 <= a.1 <= 9,
        1 <= b.1 <= 9,
        port_of(base, a.0, a.1) == port_of(base, b.0, b.1),
    ensures
        a == b,
{
}

/// The addresses of peers.
pub open spec fn addresses(map: Map<u64, String>) -> Map<u64, Seq<char>> {
    map.map_values(|addr: String| addr@)
}

/// The peers in a list such as `1@a:7001,2@b:7002`; of two with one number the
/// later one holds. `None` if an entry is no peer.
pub open spec fn peers_in(entries: Seq<Seq<char>>) -> Option<Map<u64, Seq<char>>>
    decreases entries.len(),
{
    if entries.len() == 0 {
        Some(Map::empty())
    } else {
        match peers_in(entries.drop_last()) {
            None => None,
            Some(head) => match cut(entries.last(), '@') {
                None => None,
                Some((id, addr)) => match number(id) {
                    Some(n) => if n <= u64::MAX {
                        Some(head.insert(n as u64, addr))
                    } else {
                        None
                    },
                    None => None,
                },
            },
        }
    }
}

proof fn lemma_peers_stop(entries: Seq<Seq<char>>, n: int)
    requires
        0 <= n <= entries.len(),
        peers_in(entries.take(n)) is None,
    ensures
        peers_in(entries) is None,
    decreases entries.len() - n,
{
    if n < entries.len() {
        assert(entries.take(n + 1).drop_last() =~= entries.take(n));
        lemma_peers_stop(entries, n + 1);
    } else {
        assert(entries.take(n) =~= entries);
    }
}

/// Reads the peers of a group; `None` if an entry is no peer.
pub fn parse_peers(input: &str) -> (r: Option<HashMap<u64, String>>)
    ensures
        match r {
            Some(map) => peers_in(fields(input@, ',')) == Some(addresses(map@)),
            None => peers_in(fields(input@, ',')) is None,
        },
{
    let chars = chars_of(input);
    let entries = split(chars.as_slice(), ',');
    let ghost all = texts(entries@);
    let mut map: HashMap<u64, String> = HashMap::new();
    let mut i: usize = 0;
    assert(all.take(0) =~= Seq::<Seq<char>>::empty());
    assert(addresses(map@) =~= Map::<u64, Seq<char>>::empty());
    while i < entries.len()
        invariant
            i <= entries@.len(),
            all == texts(entries@),
            all == fields(input@, ','),
            peers_in(all.take(i as int)) == Some(addresses(map@)),
        decreases entries@.len() - i,
    {
        proof {
            assert(all.take(i + 1).drop_last() =~= all.take(i as int));
            assert(all.take(i + 1).last() == entries@[i as int]@);
            if peers_in(all.take(i + 1)) is None {
                lemma_peers_stop(all, i + 1);
            }
        }
        let (id, addr) = match split_once(entries[i].as_slice(), '@') {
            Some(pair) => pair,
            None => {
                return None;
            },
        };
        let n: u64 = match parse_number(id, u64::MAX) {
            Some(n) => n,
            None => {
                return None;
            },
        };
        let ghost before = map@;
        let text = text_of(addr);
        map.insert(n, text);
        assert(addresses(map@) =~= addresses(before).insert(n, text@));
        i += 1;
    }
    assert(all.take(i as int) =~= all);
    Some(map)
}

/// Sender and addressee of the consensus message that `bytes` is the protobuf
/// form of; `None` if they are the form of none.
pub uninterp spec fn message_ends(bytes: Seq<u8>) -> Option<(u64, u64)>;

/// Parses a consensus message with `protobuf::Message::parse_from_bytes` for
/// `raft::prelude::Message`, and picks its sender and its addressee. Claimed: the
/// outcome depends on the bytes alone. How the fields lie in the bytes is left
/// unsaid.
#[verifier::external_body]
fn parse_message(bytes: &[u8]) -> (r: Option<(u64, u64)>)
    ensures
        r == message_ends(bytes@),
{
    match raft::prelude::Message::parse_from_bytes(bytes) {
        Ok(message) => Some((message.from, message.to)),
        Err(_) => None,
    }
}

/// A consensus message between replicas.
#[derive(Debug, PartialEq, Eq)]
pub struct PeerMessage {
    pub from: u64,
    pub to: u64,
    /// The message in its protobuf form.
    pub bytes: Vec<u8>,
}

/// What a message between replicas is.
#[verifier::ext_equal]
pub struct PeerMessageView {
    pub from: u64,
    pub to: u64,
    pub bytes: Seq<u8>,
}

impl View for PeerMessage {
    type V = PeerMessageView;

    open spec fn view(&self) -> PeerMessageView {
        PeerMessageView { from: self.from, to: self.to, bytes: self.bytes@ }
    }
}

/// What messages from a peer are.
pub open spec fn peer_message_views(list: Seq<PeerMessage>) -> Seq<PeerMessageView> {
    Seq::new(list.len(), |i: int| list[i]@)
}

/// The length of a message that its head announces; `None` if the connection is
/// to be given up.
pub open spec fn announced_size(head: Seq<u8>) -> Option<nat> {
    let size = from_be(head);
    if size == 0 || size > MAX_RAFT_MESSAGE_BYTES {
        None
    } else {
        Some(size)
    }
}

/// The length of a message that its head announces; `None` if the connection is
/// to be given up, the message being empty or too long.
pub fn frame_size(head: &[u8]) -> (r: Option<usize>)
    requires
        head@.len() == 4,
    ensures
        match r {
            Some(n) => announced_size(head@) == Some(n as nat),
            None => announced_size(head@) is None,
        },
{
    assert(head@.subrange(0, 4) =~= head@);
    let size: u64 = get_be(head, 0, 4);
    if size == 0 || size > MAX_RAFT_MESSAGE_BYTES as u64 {
        None
    } else {
        Some(size as usize)
    }
}

/// What a message with these sender and addressee is taken for.
pub open spec fn message_with(ends: Option<(u64, u64)>, bytes: Seq<u8>) -> Option<PeerMessageView> {
    match ends {
        Some((from, to)) => Some(PeerMessageView { from, to, bytes }),
        None => None,
    }
}

/// A message, from what its bytes were parsed to.
pub fn to_message(ends: Option<(u64, u64)>, bytes: Vec<u8>) -> (r: Option<PeerMessage>)
    ensures
        match r {
            Some(m) => message_with(ends, bytes@) == Some(m@),
            None => message_with(ends, bytes@) is None,
        },
{
    match ends {
        Some((from, to)) => Some(PeerMessage { from, to, bytes }),
        None => None,
    }
}

/// Reads a message; `None` if the bytes are none, in which case it is passed
/// over.
pub fn read_message(bytes: Vec<u8>) -> (r: Option<PeerMessage>)
    ensures
        match r {
            Some(m) => message_with(message_ends(bytes@), bytes@) == Some(m@),
            None => message_with(message_ends(bytes@), bytes@) is None,
        },
{
    let ends = parse_message(bytes.as_slice());
    to_message(ends, bytes)
}

/// The messages in what a peer has sent, up to the first one that is not whole,
/// or empty, or too long. Bytes that are no message are passed over.
pub open spec fn peer_messages(stream: Seq<u8>) -> Seq<PeerMessageView>
    decreases stream.len(),
{
    if stream.len() < 4 {
        Seq::empty()
    } else {
        match announced_size(stream.subrange(0, 4)) {
            None => Seq::empty(),
            Some(n) => if stream.len() < 4 + n {
                Seq::empty()
            } else {
                let bytes = stream.subrange(4, 4 + n as int);
                let rest = peer_messages(stream.skip(4 + n as int));
                match message_with(message_ends(bytes), bytes) {
                    Some(m) => seq![m] + rest,
                    None => rest,
                }
            },
        }
    }
}

/// The messages in what a peer has sent.
pub fn read_peer_frames(stream: &[u8]) -> (r: Vec<PeerMessage>)
    ensures
        peer_message_views(r@) == peer_messages(stream@),
{
    let size: usize = stream.len();
    let mut out: Vec<PeerMessage> = Vec::new();
    let mut at: usize = 0;
    proof {
        assert(stream@.skip(0) =~= stream@);
        assert(peer_message_views(out@) + peer_messages(stream@) =~= peer_messages(stream@));
    }
    loop
        invariant
            at <= size == stream@.len(),
            peer_message_views(out@) + peer_messages(stream@.skip(at as int)) == peer_messages(
                stream@,
            ),
        decreases size - at,
    {
        let ghost rest = stream@.skip(at as int);
        let ghost was = peer_message_views(out@);
        assert(was + Seq::<PeerMessageView>::empty() =~= was);
        if size - at < 4 {
            return out;
        }
        assert(rest.subrange(0, 4) =~= stream@.subrange(at as int, at + 4));
        let len: u64 = get_be(stream, at, 4);
        if len == 0 || len > MAX_RAFT_MESSAGE_BYTES as u64 || len > (size - at - 4) as u64 {
            return out;
        }
        let n: usize = len as usize;
        let mut bytes: Vec<u8> = Vec::new();
        put_slice(&mut bytes, stream, at + 4, n);
        proof {
            assert(bytes@ =~= rest.subrange(4, 4 + n as int));
            assert(rest.skip(4 + n as int) =~= stream@.skip(at + 4 + n));
        }
        if let Some(message) = read_message(bytes) {
            out.push(message);
            proof {
                assert(peer_message_views(out@) =~= was.push(message@));
                assert(was.push(message@) + peer_messages(stream@.skip(at + 4 + n)) =~= was + (seq![
                    message@,
                ] + peer_messages(stream@.skip(at + 4 + n))));
            }
        }
        at = at + 4 + n;
    }
}

/// A message in its frame.
pub open spec fn framed_message(bytes: Seq<u8>) -> Seq<u8> {
    be(bytes.len(), 4) + bytes
}

/// Puts a message into its frame.
pub fn frame_message(bytes: &[u8]) -> (r: Vec<u8>)
    requires
        bytes@.len() <= u32::MAX,
    ensures
        r@ == framed_message(bytes@),
{
    let mut out: Vec<u8> = Vec::new();
    put_be(&mut out, bytes.len() as u64, 4);
    assert(bytes@.subrange(0, bytes@.len() as int) =~= bytes@);
    put_slice(&mut out, bytes, 0, bytes.len());
    assert(out@ =~= framed_message(bytes@));
    out
}

/// An outgoing message in its frame; `None` if its length does not fit in the head
/// of a frame, in which case it is passed over.
pub fn message_frame(message: &PeerMessage) -> (r: Option<Vec<u8>>)
    ensures
        match r {
            Some(frame) => message@.bytes.len() <= u32::MAX && frame@ == framed_message(
                message@.bytes,
            ),
            None => message@.bytes.len() > u32::MAX,
        },
{
    if message.bytes.len() > 0xffff_ffff {
        return None;
    }
    Some(frame_message(message.bytes.as_slice()))
}

/// A message that was framed is read back, and what follows it after it.
pub proof fn law_framed_message_is_read(bytes: Seq<u8>, rest: Seq<u8>)
    requires
        0 < bytes.len() <= MAX_RAFT_MESSAGE_BYTES,
    ensures
        peer_messages(framed_message(bytes) + rest) == match message_with(
            message_ends(bytes),
            bytes,
        ) {
            Some(m) => seq![m] + peer_messages(rest),
            None => peer_messages(rest),
        },
{
    let all = framed_message(bytes) + rest;
    let n = bytes.len() as int;
    lemma_le_len(bytes.len(), 4);
    lemma_pow256();
    law_bytes_round_trip(bytes.len(), 4);
    assert(all.subrange(0, 4) =~= be(bytes.len(), 4));
    assert(all.subrange(4, 4 + n) =~= bytes);
    assert(all.skip(4 + n) =~= rest);
}

/// What to do next to get a message to a peer.
#[derive(Clone, Copy, Debug, PartialEq, Eq, Structural)]
pub enum WriteAction {
    Connect,
    Write,
    /// The message was delivered.
    Delivered,
    /// Two attempts failed: the message is dropped.
    Dropped,
}

/// The attempts to get one message to a peer.
#[derive(Clone, Copy, Debug, PartialEq, Eq, Structural)]
pub struct PeerWrite {
    pub attempt: u8,
    pub connected: bool,
    pub delivered: bool,
}

impl PeerWrite {
    /// A message is to be sent, on a connection that is there or not.
    pub fn start(connected: bool) -> (r: PeerWrite)
        ensures
            r == (PeerWrite { attempt: 0, connected, delivered: false }),
    {
        PeerWrite { attempt: 0, connected, delivered: false }
    }

    /// What to do next.
    pub open spec fn next(self) -> WriteAction {
        if self.delivered {
            WriteAction::Delivered
        } else if self.attempt >= 2 {
            WriteAction::Dropped
        } else if self.connected {
            WriteAction::Write
        } else {
            WriteAction::Connect
        }
    }

    /// What to do next.
    pub fn action(&self) -> (r: WriteAction)
        ensures
            r == self.next(),
    {
        if self.delivered {
            WriteAction::Delivered
        } else if self.attempt >= 2 {
            WriteAction::Dropped
        } else if self.connected {
            WriteAction::Write
        } else {
            WriteAction::Connect
        }
    }

    /// A connection was tried: whether to wait a moment before the next attempt.
    pub fn connect_done(&mut self, ok: bool) -> (wait: bool)
        requires
            old(self).next() is Connect,
        ensures
            wait == (!ok && old(self).attempt == 0),
            final(self).delivered == old(self).delivered,
            final(self).connected == ok,
            final(self).attempt == if ok {
                old(self).attempt as int
            } else {
                old(self).attempt + 1
            },
    {
        if ok {
            self.connected = true;
            false
        } else {
            let wait: bool = self.attempt == 0;
            self.attempt = self.attempt + 1;
            wait
        }
    }

    /// The message was written, or not, in which case the connection is given up.
    pub fn write_done(&mut self, ok: bool)
        requires
            old(self).next() is Write,
        ensures
            *final(self) == if ok {
                PeerWrite { delivered: true, ..*old(self) }
            } else {
                PeerWrite { connected: false, attempt: (old(self).attempt + 1) as u8, ..*old(self) }
            },
    {
        if ok {
            self.delivered = true;
        } else {
            self.connected = false;
            self.attempt = self.attempt + 1;
        }
    }
}

/// A length between one and sixteen mebibytes is read as it was announced; any other one ends
/// the connection.
pub proof fn law_lengths_are_bounded(n: u32)
    ensures
        0 < n <= 16 * 1024 * 1024 ==> announced_size(be(n as nat, 4)) == Some(n as nat),
        n == 0 || n > 16 * 1024 * 1024 ==> announced_size(be(n as nat, 4)) is None,
{
    crate::codec::lemma_pow256();
    law_bytes_round_trip(n as nat, 4);
}

/// The replicas of a group on one machine have ports in a row, and so have the groups' first
/// ones, ten apart.
pub proof fn law_ports_are_counted(base: int, group: int, node: int)
    ensures
        port_of(base, group, node + 1) == port_of(base, group, node) + 1,
        port_of(base, group + 1, node) == port_of(base, group, node) + 10,
        port_of(base, 0, 0) == base,
{
}

} // verus!
