//! How commands are handed to the replication groups: in batches, each of one
//! category, that a group acknowledges once it has committed them.

use std::collections::HashMap;

use vstd::prelude::*;

use crate::codec::{
    be, from_be, get_be, law_bytes_round_trip, lemma_le_len, lemma_pow256, put_be, put_slice,
};
use crate::gateway::{ack, batch_mark, request_head};
use crate::ingress::{batch_views, BatchRecord, BatchView};
use crate::sharding::{group_of, raft_group_for_category_pinned};
use crate::sorted::{ascending, insert_ascending};
use crate::wire::{MSG_LEN, RAFT_BATCH_MAX_COMMANDS};

verus! {

broadcast use vstd::std_specs::hash::group_hash_axioms;

/// What one replication group is handed.
#[derive(Debug)]
pub struct ForwardJob {
    pub group: usize,
    /// The categories, in ascending order.
    pub categories: Vec<u32>,
    /// The batches, category by category.
    pub batches: Vec<Vec<[u8; MSG_LEN]>>,
}

/// The frames of arrays.
pub open spec fn frames(list: Seq<[u8; MSG_LEN]>) -> Seq<Seq<u8>> {
    Seq::new(list.len(), |i: int| list[i]@)
}

/// The frames of batches.
pub open spec fn batches(list: Seq<Vec<[u8; MSG_LEN]>>) -> Seq<Seq<Seq<u8>>> {
    Seq::new(list.len(), |i: int| frames(list[i]@))
}

/// The frames of a category, in the order of the commands.
pub open spec fn category_frames(all: Seq<BatchView>, category: u32) -> Seq<Seq<u8>>
    decreases all.len(),
{
    if all.len() == 0 {
        Seq::empty()
    } else {
        let head = category_frames(all.drop_last(), category);
        if all.last().category_id == category {
            head.push(all.last().frame)
        } else {
            head
        }
    }
}

/// Frames cut into batches that are as long as a batch may be, but for the last
/// one.
pub open spec fn cut_up(list: Seq<Seq<u8>>) -> Seq<Seq<Seq<u8>>>
    decreases list.len(),
{
    if list.len() == 0 {
        Seq::empty()
    } else if list.len() <= RAFT_BATCH_MAX_COMMANDS {
        seq![list]
    } else {
        seq![list.take(RAFT_BATCH_MAX_COMMANDS as int)] + cut_up(
            list.skip(RAFT_BATCH_MAX_COMMANDS as int),
        )
    }
}

/// The batches of categories, one category after another.
pub open spec fn batches_of(all: Seq<BatchView>, categories: Seq<u32>) -> Seq<Seq<Seq<u8>>>
    decreases categories.len(),
{
    if categories.len() == 0 {
        Seq::empty()
    } else {
        batches_of(all, categories.drop_last()) + cut_up(
            category_frames(all, categories.last()),
        )
    }
}

/// The categories of a group, in ascending order, are those of its commands.
pub open spec fn is_group_list(
    categories: Seq<u32>,
    all: Seq<BatchView>,
    group: int,
    groups: int,
    pins: Map<u32, usize>,
) -> bool {
    &&& ascending(categories)
    &&& forall|c: u32| #[trigger]
        categories.contains(c) <==> group_of(c, groups, pins) == group && exists|i: int|
            0 <= i < all.len() && (#[trigger] all[i]).category_id == c
}

/// What a group is handed: all batches of all its categories.
pub open spec fn is_job(
    job: ForwardJob,
    all: Seq<BatchView>,
    groups: int,
    pins: Map<u32, usize>,
) -> bool {
    &&& is_group_list(job.categories@, all, job.group as int, groups, pins)
    &&& job.categories@.len() > 0
    &&& batches(job.batches@) == batches_of(all, job.categories@)
}

/// A group has something to commit.
pub open spec fn is_concerned(
    all: Seq<BatchView>,
    group: int,
    groups: int,
    pins: Map<u32, usize>,
) -> bool {
    exists|i: int|
        0 <= i < all.len() && group_of((#[trigger] all[i]).category_id, groups, pins) == group
}

/// The jobs are those of the groups that have something to commit, in the order
/// of the groups.
pub open spec fn is_forward_plan(
    jobs: Seq<ForwardJob>,
    all: Seq<BatchView>,
    groups: int,
    pins: Map<u32, usize>,
) -> bool {
    &&& forall|i: int| 0 <= i < jobs.len() ==> is_job(#[trigger] jobs[i], all, groups, pins)
    &&& forall|i: int, j: int|
        0 <= i < j < jobs.len() ==> (#[trigger] jobs[i]).group < (#[trigger] jobs[j]).group
    &&& forall|i: int| 0 <= i < jobs.len() ==> (#[trigger] jobs[i]).group < groups
    &&& forall|g: int| #![trigger is_concerned(all, g, groups, pins)]
        0 <= g < groups && is_concerned(all, g, groups, pins) ==> exists|i: int|
            0 <= i < jobs.len() && (#[trigger] jobs[i]).group == g
}

fn holds(list: &Vec<u32>, v: u32) -> (r: bool)
    ensures
        r == list@.contains(v),
{
    let mut i: usize = 0;
    while i < list.len()
        invariant
            i <= list@.len(),
            forall|j: int| 0 <= j < i ==> #[trigger] list@[j] != v,
        decreases list@.len() - i,
    {
        if list[i] == v {
            assert(list@[i as int] == v);
            return true;
        }
        i += 1;
    }
    false
}

fn group_list(
    records: &Vec<BatchRecord>,
    group: usize,
    groups: usize,
    pins: &HashMap<u32, usize>,
) -> (r: Vec<u32>)
    requires
        groups > 0,
    ensures
        is_group_list(r@, batch_views(records@), group as int, groups as int, pins@),
{
    let ghost all = batch_views(records@);
    let mut out: Vec<u32> = Vec::new();
    let mut i: usize = 0;
    while i < records.len()
        invariant
            groups > 0,
            i <= records@.len(),
            all == batch_views(records@),
            is_group_list(out@, all.take(i as int), group as int, groups as int, pins@),
        decreases records@.len() - i,
    {
        let category: u32 = records[i].category_id;
        let ghost before = out@;
        if raft_group_for_category_pinned(category, groups, pins) == group && !holds(
            &out,
            category,
        ) {
            insert_ascending(&mut out, category);
        }
        proof {
            let taken = all.take(i as int);
            let more = all.take(i + 1);
            assert(more[i as int].category_id == category);
            assert forall|c: u32| #[trigger] out@.contains(c) <==> group_of(
                c,
                groups as int,
                pins@,
            ) == group && exists|j: int|
                0 <= j < more.len() && (#[trigger] more[j]).category_id == c by {
                if out@.contains(c) && c != category {
                    assert(before.contains(c));
                    let j = choose|j: int|
                        0 <= j < taken.len() && (#[trigger] taken[j]).category_id == c;
                    assert(more[j] == taken[j]);
                }
                if out@.contains(c) && c == category && before.contains(c) {
                    let j = choose|j: int|
                        0 <= j < taken.len() && (#[trigger] taken[j]).category_id == c;
                    assert(more[j] == taken[j]);
                }
                if group_of(c, groups as int, pins@) == group && exists|j: int|
                    0 <= j < more.len() && (#[trigger] more[j]).category_id == c {
                    let j = choose|j: int|
                        0 <= j < more.len() && (#[trigger] more[j]).category_id == c;
                    if j < i {
                        assert(taken[j] == more[j]);
                        assert(before.contains(c));
                    }
                }
            }
        }
        i += 1;
    }
    assert(all.take(i as int) =~= all);
    out
}

fn pick_frames(records: &Vec<BatchRecord>, category: u32) -> (r: Vec<[u8; MSG_LEN]>)
    ensures
        frames(r@) == category_frames(batch_views(records@), category),
{
    let ghost all = batch_views(records@);
    let mut out: Vec<[u8; MSG_LEN]> = Vec::new();
    let mut i: usize = 0;
    assert(frames(out@) =~= Seq::<Seq<u8>>::empty());
    while i < records.len()
        invariant
            i <= records@.len(),
            all == batch_views(records@),
            frames(out@) == category_frames(all.take(i as int), category),
        decreases records@.len() - i,
    {
        proof {
            assert(all.take(i + 1).drop_last() =~= all.take(i as int));
            assert(all.take(i + 1).last() == records@[i as int]@);
        }
        if records[i].category_id == category {
            let ghost was = frames(out@);
            out.push(records[i].frame);
            assert(frames(out@) =~= was.push(records@[i as int].frame@));
        }
        i += 1;
    }
    assert(all.take(i as int) =~= all);
    out
}

/// Cuts frames into batches and appends those.
fn push_batches(out: &mut Vec<Vec<[u8; MSG_LEN]>>, list: &Vec<[u8; MSG_LEN]>)
    ensures
        batches(final(out)@) == batches(old(out)@) + cut_up(frames(list@)),
{
    let ghost start = batches(out@);
    let ghost all = frames(list@);
    let mut from: usize = 0;
    proof {
        assert(all.skip(0) =~= all);
    }
    while from < list.len()
        invariant
            from <= list@.len(),
            all == frames(list@),
            batches(out@) + cut_up(all.skip(from as int)) == start + cut_up(all),
        decreases list@.len() - from,
    {
        let left: usize = list.len() - from;
        let n: usize = if left <= RAFT_BATCH_MAX_COMMANDS {
            left
        } else {
            RAFT_BATCH_MAX_COMMANDS
        };
        let mut batch: Vec<[u8; MSG_LEN]> = Vec::new();
        let mut i: usize = 0;
        let size: usize = list.len();
        while i < n
            invariant
                i <= n,
                from + n <= size == list@.len(),
                batch@ == list@.subrange(from as int, from + i),
            decreases n - i,
        {
            batch.push(list[from + i]);
            i += 1;
            assert(batch@ =~= list@.subrange(from as int, from + i));
        }
        let ghost was = batches(out@);
        out.push(batch);
        proof {
            let rest = all.skip(from as int);
            assert(batches(out@) =~= was.push(frames(batch@)));
            assert(frames(batch@) =~= rest.take(n as int));
            if rest.len() <= RAFT_BATCH_MAX_COMMANDS {
                assert(rest.take(n as int) =~= rest);
                assert(all.skip(from + n) =~= Seq::<Seq<u8>>::empty());
                assert(was.push(rest) + cut_up(all.skip(from + n)) =~= was + seq![rest]);
            } else {
                assert(rest.skip(n as int) =~= all.skip(from + n));
                assert(was.push(rest.take(n as int)) + cut_up(rest.skip(n as int)) =~= was + (seq![
                    rest.take(n as int),
                ] + cut_up(rest.skip(n as int))));
            }
        }
        from += n;
    }
    proof {
        assert(all.skip(from as int) =~= Seq::<Seq<u8>>::empty());
        assert(batches(out@) + Seq::<Seq<Seq<u8>>>::empty() =~= batches(out@));
    }
}

fn plan_group(
    records: &Vec<BatchRecord>,
    group: usize,
    groups: usize,
    pins: &HashMap<u32, usize>,
) -> (r: Option<ForwardJob>)
    requires
        groups > 0,
    ensures
        match r {
            Some(job) => job.group == group && is_job(
                job,
                batch_views(records@),
                groups as int,
                pins@,
            ),
            None => !is_concerned(batch_views(records@), group as int, groups as int, pins@),
        },
{
    let ghost all = batch_views(records@);
    let categories = group_list(records, group, groups, pins);
    if categories.len() == 0 {
        proof {
            if is_concerned(all, group as int, groups as int, pins@) {
                let i = choose|i: int|
                    0 <= i < all.len() && group_of(
                        (#[trigger] all[i]).category_id,
                        groups as int,
                        pins@,
                    ) == group;
                assert(categories@.contains(all[i].category_id));
            }
        }
        return None;
    }
    let mut out: Vec<Vec<[u8; MSG_LEN]>> = Vec::new();
    let mut i: usize = 0;
    assert(batches(out@) =~= Seq::<Seq<Seq<u8>>>::empty());
    while i < categories.len()
        invariant
            i <= categories@.len(),
            all == batch_views(records@),
            batches(out@) == batches_of(all, categories@.take(i as int)),
        decreases categories@.len() - i,
    {
        assert(categories@.take(i + 1).drop_last() =~= categories@.take(i as int));
        let list = pick_frames(records, categories[i]);
        push_batches(&mut out, &list);
        i += 1;
    }
    assert(categories@.take(i as int) =~= categories@);
    Some(ForwardJob { group, categories, batches: out })
}

/// Groups commands by the replication group of their category. Commands of one
/// category keep their order.
pub fn plan_forwarding(
    records: &Vec<BatchRecord>,
    groups: usize,
    pins: &HashMap<u32, usize>,
) -> (r: Vec<ForwardJob>)
    requires
        groups > 0,
        forall|c: u32| #[trigger] pins@.contains_key(c) ==> pins@[c] < groups,
    ensures
        is_forward_plan(r@, batch_views(records@), groups as int, pins@),
{
    let ghost all = batch_views(records@);
    let mut jobs: Vec<ForwardJob> = Vec::new();
    let mut g: usize = 0;
    while g < groups
        invariant
            0 < groups,
            g <= groups,
            all == batch_views(records@),
            forall|i: int|
                0 <= i < jobs@.len() ==> is_job(#[trigger] jobs@[i], all, groups as int, pins@),
            forall|i: int, j: int|
                0 <= i < j < jobs@.len() ==> (#[trigger] jobs@[i]).group < (
                #[trigger] jobs@[j]).group,
            forall|i: int| 0 <= i < jobs@.len() ==> (#[trigger] jobs@[i]).group < g,
            forall|k: int| #![trigger is_concerned(all, k, groups as int, pins@)]
                0 <= k < g && is_concerned(all, k, groups as int, pins@) ==> exists|i: int|
                    0 <= i < jobs@.len() && (#[trigger] jobs@[i]).group == k,
        decreases groups - g,
    {
        let ghost before = jobs@;
        if let Some(job) = plan_group(records, g, groups, pins) {
            jobs.push(job);
            assert(jobs@[before.len() as int].group == g);
        }
        proof {
            assert forall|k: int| #![trigger is_concerned(all, k, groups as int, pins@)]
                0 <= k < g + 1 && is_concerned(all, k, groups as int, pins@) implies exists|i: int|
                0 <= i < jobs@.len() && (#[trigger] jobs@[i]).group == k by {
                if k < g {
                    let i = choose|i: int|
                        0 <= i < before.len() && (#[trigger] before[i]).group == k;
                    assert(jobs@[i] == before[i]);
                }
            }
        }
        g += 1;
    }
    jobs
}

/// The frames of batches, one after another.
pub open spec fn joined(list: Seq<Seq<Seq<u8>>>) -> Seq<Seq<u8>>
    decreases list.len(),
{
    if list.len() == 0 {
        Seq::empty()
    } else {
        list[0] + joined(list.skip(1))
    }
}

/// Cutting frames into batches loses none and keeps their order, and no batch is
/// empty or too long.
pub proof fn law_cutting_keeps_all(list: Seq<Seq<u8>>)
    ensures
        joined(cut_up(list)) == list,
        forall|i: int|
            0 <= i < cut_up(list).len() ==> 0 < (#[trigger] cut_up(list)[i]).len()
                <= RAFT_BATCH_MAX_COMMANDS,
    decreases list.len(),
{
    let max = RAFT_BATCH_MAX_COMMANDS as int;
    let parts = cut_up(list);
    if list.len() == 0 {
    } else if list.len() <= RAFT_BATCH_MAX_COMMANDS {
        assert(parts.skip(1) =~= Seq::<Seq<Seq<u8>>>::empty());
        assert(joined(parts.skip(1)) =~= Seq::<Seq<u8>>::empty());
        assert(parts[0] == list);
        assert(joined(parts) =~= list);
    } else {
        law_cutting_keeps_all(list.skip(max));
        assert(parts.skip(1) =~= cut_up(list.skip(max)));
        assert(joined(parts) =~= list.take(max) + list.skip(max));
        assert(list.take(max) + list.skip(max) =~= list);
        assert forall|i: int| 0 <= i < parts.len() implies 0 < (#[trigger] parts[i]).len()
            <= RAFT_BATCH_MAX_COMMANDS by {
            if i > 0 {
                assert(parts[i] == cut_up(list.skip(max))[i - 1]);
            }
        }
    }
}

/// The bytes of frames.
pub open spec fn bytes_of(list: Seq<Seq<u8>>) -> Seq<u8>
    decreases list.len(),
{
    if list.len() == 0 {
        Seq::empty()
    } else {
        bytes_of(list.drop_last()) + list.last()
    }
}

/// The request that hands a batch to a group.
pub open spec fn commit_request(list: Seq<Seq<u8>>) -> Seq<u8> {
    batch_mark() + be(list.len(), 4) + bytes_of(list)
}

/// Encodes the request that hands a batch to a group; `None` if the batch is
/// empty or too long.
pub fn encode_commit_request(list: &Vec<[u8; MSG_LEN]>) -> (r: Option<Vec<u8>>)
    ensures
        r is Some <==> 0 < list@.len() <= RAFT_BATCH_MAX_COMMANDS,
        r matches Some(bytes) ==> bytes@ == commit_request(frames(list@)),
{
    if list.len() == 0 || list.len() > RAFT_BATCH_MAX_COMMANDS {
        return None;
    }
    let ghost all = frames(list@);
    let mut out: Vec<u8> = Vec::new();
    out.push(84);
    out.push(67);
    out.push(66);
    out.push(49);
    put_be(&mut out, list.len() as u64, 4);
    let ghost head = out@;
    proof {
        assert(head =~= batch_mark() + be(all.len(), 4));
        assert(all.take(0) =~= Seq::<Seq<u8>>::empty());
        assert(head + bytes_of(all.take(0)) =~= head);
    }
    let mut i: usize = 0;
    while i < list.len()
        invariant
            i <= list@.len(),
            all == frames(list@),
            out@ == head + bytes_of(all.take(i as int)),
        decreases list@.len() - i,
    {
        proof {
            assert(all.take(i + 1).drop_last() =~= all.take(i as int));
            assert(all.take(i + 1).last() == list@[i as int]@);
            assert(list@[i as int]@.subrange(0, MSG_LEN as int) =~= list@[i as int]@);
            assert(head + (bytes_of(all.take(i as int)) + list@[i as int]@) =~= head + bytes_of(
                all.take(i as int),
            ) + list@[i as int]@);
        }
        put_slice(&mut out, list[i].as_slice(), 0, MSG_LEN);
        i += 1;
    }
    assert(all.take(i as int) =~= all);
    Some(out)
}

/// The receiver of a request learns how many frames it has.
pub proof fn law_request_tells_its_size(list: Seq<Seq<u8>>)
    requires
        0 < list.len() <= RAFT_BATCH_MAX_COMMANDS,
    ensures
        request_head(commit_request(list)) == Some((8int, list.len())),
{
    let s = commit_request(list);
    lemma_le_len(list.len(), 4);
    lemma_pow256();
    law_bytes_round_trip(list.len(), 4);
    assert(be(list.len(), 4).len() == 4);
    assert(s.take(4) =~= batch_mark());
    assert(s.subrange(4, 8) =~= be(list.len(), 4));
}

/// A reply says that a batch was committed.
pub open spec fn says_committed(reply: Seq<u8>) -> bool {
    reply.len() == 9 && reply[0] == 1 && from_be(reply.subrange(1, 9)) > 0
}

/// Whether a reply says that a batch was committed, and where in the log.
pub fn is_commit_ack(reply: &[u8]) -> (r: bool)
    ensures
        r == says_committed(reply@),
{
    reply.len() == 9 && reply[0] == 1 && get_be(reply, 1, 8) > 0
}

/// An acknowledgement is taken as such exactly if it names a place in the log.
pub proof fn law_ack_is_understood(index: u64)
    ensures
        says_committed(ack(index)) == (index > 0),
{
    let s = ack(index);
    lemma_le_len(index as nat, 8);
    lemma_pow256();
    law_bytes_round_trip(index as nat, 8);
    assert(s.subrange(1, 9) =~= be(index as nat, 8));
}

/// Every command goes with its category: the frames of a category are those of its commands,
/// as many and in their order.
pub proof fn law_frames_go_with_their_category(all: Seq<BatchView>, category: u32)
    ensures
        ({
            let own = all.filter(|b: BatchView| b.category_id == category);
            &&& category_frames(all, category).len() == own.len()
            &&& forall|k: int|
                0 <= k < own.len() ==> #[trigger] category_frames(all, category)[k] == own[k].frame
        }),
    decreases all.len(),
{
    let mine = |b: BatchView| b.category_id == category;
    reveal(Seq::filter);
    if all.len() > 0 {
        let front = all.drop_last();
        law_frames_go_with_their_category(front, category);
        let own = all.filter(mine);
        let before = front.filter(mine);
        assert(own == if mine(all.last()) {
            before.push(all.last())
        } else {
            before
        });
        let list = category_frames(all, category);
        let head = category_frames(front, category);
        assert forall|k: int| 0 <= k < own.len() implies #[trigger] list[k] == own[k].frame by {
            if k < before.len() {
                assert(list[k] == head[k]);
                assert(own[k] == before[k]);
            }
        }
    }
}

/// The bytes of a request: the mark, the number of frames with the highest byte first, and the
/// frames.
pub proof fn law_request_layout(list: Seq<Seq<u8>>)
    requires
        list.len() <= u32::MAX,
    ensures
        ({
            let r = commit_request(list);
            &&& r.take(4) == seq!['T' as u8, 'C' as u8, 'B' as u8, '1' as u8]
            &&& from_be(r.subrange(4, 8)) == list.len()
            &&& r.skip(8) == bytes_of(list)
        }),
{
    let r = commit_request(list);
    crate::codec::lemma_pow256();
    crate::codec::lemma_le_len(list.len(), 4);
    crate::codec::law_bytes_round_trip(list.len(), 4);
    assert(r.take(4) =~= seq!['T' as u8, 'C' as u8, 'B' as u8, '1' as u8]);
    assert(r.subrange(4, 8) =~= be(list.len(), 4));
    assert(r.skip(8) =~= bytes_of(list));
}

/// An acknowledgement is a one and the place in the log, with the highest byte first.
pub proof fn law_ack_layout(index: u64)
    ensures
        ack(index).len() == 9,
        ack(index)[0] == 1,
        from_be(ack(index).skip(1)) == index,
{
    crate::codec::lemma_pow256();
    crate::codec::lemma_le_len(index as nat, 8);
    crate::codec::law_bytes_round_trip(index as nat, 8);
    assert(ack(index).skip(1) =~= be(index as nat, 8));
}

} // verus!
