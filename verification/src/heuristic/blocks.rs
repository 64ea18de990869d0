use vstd::prelude::*;
use crate::heuristic::interval::{TimeInterval, TimeValue, intervals_overlap};
use crate::heuristic::problem::{Problem, TrackRef, travel_of};

verus! {

/// A time interval during which a train may not use a track.
#[derive(Clone, Copy, Debug)]
pub struct Block {
    pub track: TrackRef,
    pub interval: TimeInterval,
}

/// Blocks are ordered by track, then by start, then by end.
pub open spec fn block_lt(a: Block, b: Block) -> bool {
    ||| a.track < b.track
    ||| (a.track == b.track && a.interval.time_start < b.interval.time_start)
    ||| (a.track == b.track && a.interval.time_start == b.interval.time_start
        && a.interval.time_end < b.interval.time_end)
}

/// The blocks are held in increasing order, each once.
pub open spec fn blocks_sorted(s: Seq<Block>) -> bool {
    forall|i: int, j: int| 0 <= i < j < s.len() ==> block_lt(#[trigger] s[i], #[trigger] s[j])
}

/// Every block lasts a positive time.
pub open spec fn blocks_nonempty(s: Seq<Block>) -> bool {
    forall|i: int| 0 <= i < s.len() ==> (#[trigger] s[i]).interval.time_start < s[i].interval.time_end
}

/// No block on `track` overlaps `iv`.
pub open spec fn block_free(blocks: Seq<Block>, track: int, iv: TimeInterval) -> bool {
    forall|j: int|
        0 <= j < blocks.len() && (#[trigger] blocks[j]).track == track ==> !intervals_overlap(
            blocks[j].interval,
            iv,
        )
}

/// The block sorts at or after the block `(track, [t, t))`.
pub open spec fn at_or_after(b: Block, track: int, t: int) -> bool {
    &&& b.track == track
    &&& (b.interval.time_start > t || (b.interval.time_start == t && b.interval.time_end >= t))
}

/// The start of the first block on `track` at or after `t`, if any.
pub open spec fn first_exit(blocks: Seq<Block>, track: int, t: int) -> Option<TimeValue>
    decreases blocks.len(),
{
    if blocks.len() == 0 {
        None
    } else {
        let prev = first_exit(blocks.drop_last(), track, t);
        let b = blocks.last();
        if at_or_after(b, track, t) {
            match prev {
                Some(s) => if b.interval.time_start < s {
                    Some(b.interval.time_start)
                } else {
                    Some(s)
                },
                None => Some(b.interval.time_start),
            }
        } else {
            prev
        }
    }
}

/// The candidate entry times onto `track` from `e` on: `e` itself, then the
/// end of each block on `track` at or after `e`, in the order of the blocks.
pub open spec fn transfer_candidates(blocks: Seq<Block>, track: int, e: TimeValue) -> Seq<TimeValue>
    decreases blocks.len(),
{
    if blocks.len() == 0 {
        seq![e]
    } else {
        let prev = transfer_candidates(blocks.drop_last(), track, e);
        let b = blocks.last();
        if at_or_after(b, track, e as int) {
            prev.push(b.interval.time_end)
        } else {
            prev
        }
    }
}

/// An entry onto `track` at `t2` is valid: it is no later than the latest
/// exit from the previous track, and the travel over `track` is free.
pub open spec fn transfer_ok(
    blocks: Seq<Block>,
    track: int,
    latest: int,
    travel: int,
    t2: TimeValue,
) -> bool {
    t2 <= latest && block_free(
        blocks,
        track,
        TimeInterval { time_start: t2, time_end: (t2 + travel) as u32 },
    )
}

/// The candidates that are valid entries, in their order.
pub open spec fn keep_transfers(
    c: Seq<TimeValue>,
    blocks: Seq<Block>,
    track: int,
    latest: int,
    travel: int,
) -> Seq<TimeValue>
    decreases c.len(),
{
    if c.len() == 0 {
        seq![]
    } else {
        let prev = keep_transfers(c.drop_last(), blocks, track, latest, travel);
        if transfer_ok(blocks, track, latest, travel, c.last()) {
            prev.push(c.last())
        } else {
            prev
        }
    }
}

/// The latest time at which a train on `r1` since `t1` can leave it.
pub open spec fn latest_exit_value(blocks: Seq<Block>, r1: int, t1: int) -> int {
    if r1 < 0 {
        u32::MAX as int
    } else {
        match first_exit(blocks, r1, t1) {
            Some(s) => s as int,
            None => u32::MAX as int,
        }
    }
}

/// The valid times at which a train that entered `r1` at `t1` can enter `r2`.
pub open spec fn transfer_times(p: &Problem, blocks: Seq<Block>, r1: int, t1: int, r2: int) -> Seq<
    TimeValue,
> {
    let e = (t1 + travel_of(p, r1)) as u32;
    keep_transfers(
        transfer_candidates(blocks, r2, e),
        blocks,
        r2,
        latest_exit_value(blocks, r1, t1),
        travel_of(p, r2),
    )
}

/// Whether `a` sorts before `b`.
pub fn block_less(a: &Block, b: &Block) -> (r: bool)
    ensures
        r == block_lt(*a, *b),
{
    a.track < b.track || (a.track == b.track && (a.interval.time_start < b.interval.time_start || (
    a.interval.time_start == b.interval.time_start && a.interval.time_end < b.interval.time_end)))
}

/// Whether no block on the track of `block` overlaps its interval.
pub fn block_available(blocks: &Vec<Block>, block: Block) -> (r: bool)
    ensures
        r == block_free(blocks@, block.track as int, block.interval),
{
    let mut i: usize = 0;
    while i < blocks.len()
        invariant
            i <= blocks.len(),
            forall|j: int|
                0 <= j < i && (#[trigger] blocks@[j]).track == block.track ==> !intervals_overlap(
                    blocks@[j].interval,
                    block.interval,
                ),
        decreases blocks.len() - i,
    {
        if blocks[i].track == block.track && blocks[i].interval.overlap(&block.interval) {
            return false;
        }
        i += 1;
    }
    true
}

/// The start of the first block on `r` that sorts at or after `(r, [t, t))`:
/// the latest time at which a train that is on `r` at `t` can leave it.
pub fn latest_exit(blocks: &Vec<Block>, r: TrackRef, t: TimeValue) -> (res: Option<TimeValue>)
    ensures
        res == (if r < 0 {
            None
        } else {
            first_exit(blocks@, r as int, t as int)
        }),
{
    if r < 0 {
        return None;
    }
    let mut best: Option<TimeValue> = None;
    let mut i: usize = 0;
    while i < blocks.len()
        invariant
            i <= blocks.len(),
            r >= 0,
            best == first_exit(blocks@.take(i as int), r as int, t as int),
        decreases blocks.len() - i,
    {
        proof {
            assert(blocks@.take(i + 1).drop_last() =~= blocks@.take(i as int));
        }
        let b = blocks[i];
        if b.track == r && (b.interval.time_start > t || (b.interval.time_start == t
            && b.interval.time_end >= t)) {
            best =
            match best {
                Some(s) => if b.interval.time_start < s {
                    Some(b.interval.time_start)
                } else {
                    Some(s)
                },
                None => Some(b.interval.time_start),
            };
        }
        i += 1;
    }
    proof {
        assert(blocks@.take(blocks.len() as int) =~= blocks@);
    }
    best
}

proof fn lemma_first_exit_bound(blocks: Seq<Block>, track: int, t: int, bound: int)
    requires
        forall|j: int|
            0 <= j < blocks.len() && at_or_after(#[trigger] blocks[j], track, t)
                ==> blocks[j].interval.time_start >= bound,
    ensures
        first_exit(blocks, track, t) matches Some(s) ==> s >= bound,
    decreases blocks.len(),
{
    if blocks.len() > 0 {
        let d = blocks.drop_last();
        assert forall|j: int| 0 <= j < d.len() && at_or_after(#[trigger] d[j], track, t) implies d[j].interval.time_start
            >= bound by {
            assert(d[j] == blocks[j]);
        }
        lemma_first_exit_bound(d, track, t, bound);
        assert(blocks.last() == blocks[blocks.len() - 1]);
    }
}

/// The times at which a train that entered `r1` at `t1` can enter `r2`:
/// the earliest entry `t1` plus the travel time of `r1`, then the end of each
/// block on `r2` from then on, keeping those no later than the latest exit
/// from `r1` after which the travel over `r2` is free of blocks.
pub fn valid_transfer_times(
    problem: &Problem,
    blocks: &Vec<Block>,
    r1: TrackRef,
    t1: TimeValue,
    r2: TrackRef,
) -> (res: Vec<TimeValue>)
    requires
        r1 < problem.tracks.len(),
        r2 < problem.tracks.len(),
        t1 + travel_of(problem, r1 as int) + travel_of(problem, r2 as int) <= u32::MAX,
        forall|j: int|
            0 <= j < blocks.len() && (#[trigger] blocks@[j]).track == r2 ==> blocks@[j].interval.time_end
                + travel_of(problem, r2 as int) <= u32::MAX,
        r1 >= 0 ==> forall|j: int|
            0 <= j < blocks.len() && at_or_after(#[trigger] blocks@[j], r1 as int, t1 as int)
                ==> blocks@[j].interval.time_start >= t1 + travel_of(problem, r1 as int),
        forall|j: int|
            0 <= j < blocks.len() && at_or_after(
                #[trigger] blocks@[j],
                r2 as int,
                t1 + travel_of(problem, r1 as int),
            ) ==> blocks@[j].interval.time_end >= t1 + travel_of(problem, r1 as int),
    ensures
        res@ == transfer_times(problem, blocks@, r1 as int, t1 as int, r2 as int),
        forall|k: int|
            0 <= k < res.len() ==> transfer_ok(
                blocks@,
                r2 as int,
                latest_exit_value(blocks@, r1 as int, t1 as int),
                travel_of(problem, r2 as int),
                #[trigger] res@[k],
            ),
{
    let latest_opt = latest_exit(blocks, r1, t1);
    let latest: TimeValue = match latest_opt {
        Some(s) => s,
        None => u32::MAX,
    };
    let travel_time: TimeValue = if r1 >= 0 {
        problem.tracks[r1 as usize].travel_time
    } else {
        0
    };
    let earliest_entry: TimeValue = t1 + travel_time;
    proof {
        if r1 >= 0 {
            lemma_first_exit_bound(blocks@, r1 as int, t1 as int, t1 + travel_of(problem, r1 as int));
        }
        assert(latest == latest_exit_value(blocks@, r1 as int, t1 as int));
        assert(latest >= earliest_entry);
    }
    let next_travel_time: TimeValue = if r2 >= 0 {
        problem.tracks[r2 as usize].travel_time
    } else {
        0
    };
    let ghost lv = latest as int;
    let ghost ntt = travel_of(problem, r2 as int);
    let mut res: Vec<TimeValue> = Vec::new();
    // The first candidate: entering as early as possible.
    let first_ok = block_available(
        blocks,
        Block { track: r2, interval: TimeInterval::duration(earliest_entry, next_travel_time) },
    );
    if first_ok {
        res.push(earliest_entry);
    }
    proof {
        let c0 = transfer_candidates(blocks@.take(0), r2 as int, earliest_entry);
        assert(c0 =~= seq![earliest_entry]);
        assert(c0.drop_last() =~= Seq::<TimeValue>::empty());
        assert(c0.last() == earliest_entry);
        assert(next_travel_time == ntt);
        assert(first_ok == transfer_ok(blocks@, r2 as int, lv, ntt, earliest_entry));
        assert(keep_transfers(c0.drop_last(), blocks@, r2 as int, lv, ntt) =~= Seq::<TimeValue>::empty());
        assert(res@ =~= keep_transfers(c0, blocks@, r2 as int, lv, ntt));
    }
    let mut i: usize = 0;
    while i < blocks.len()
        invariant
            i <= blocks.len(),
            earliest_entry == t1 + travel_of(problem, r1 as int),
            next_travel_time == ntt,
            ntt == travel_of(problem, r2 as int),
            lv == latest as int,
            latest >= earliest_entry,
            forall|j: int|
                0 <= j < blocks.len() && (#[trigger] blocks@[j]).track == r2 ==> blocks@[j].interval.time_end
                    + ntt <= u32::MAX,
            res@ == keep_transfers(
                transfer_candidates(blocks@.take(i as int), r2 as int, earliest_entry),
                blocks@,
                r2 as int,
                lv,
                ntt,
            ),
            forall|k: int|
                0 <= k < res.len() ==> transfer_ok(blocks@, r2 as int, lv, ntt, #[trigger] res@[k]),
        decreases blocks.len() - i,
    {
        let b = blocks[i];
        let ghost prev_c = transfer_candidates(blocks@.take(i as int), r2 as int, earliest_entry);
        proof {
            assert(blocks@.take(i + 1).drop_last() =~= blocks@.take(i as int));
            assert(blocks@.take(i + 1).last() == b);
        }
        if b.track == r2 && (b.interval.time_start > earliest_entry || (b.interval.time_start
            == earliest_entry && b.interval.time_end >= earliest_entry)) {
            let t2 = b.interval.time_end;
            proof {
                let c = prev_c.push(t2);
                assert(transfer_candidates(blocks@.take(i + 1), r2 as int, earliest_entry) == c);
                assert(c.drop_last() =~= prev_c);
                assert(c.last() == t2);
            }
            if t2 <= latest {
                let ok = block_available(
                    blocks,
                    Block { track: r2, interval: TimeInterval::duration(t2, next_travel_time) },
                );
                if ok {
                    res.push(t2);
                }
            }
        }
        i += 1;
    }
    proof {
        assert(blocks@.take(blocks.len() as int) =~= blocks@);
    }
    res
}

/// Adds a block to a sorted list of blocks, as to a set: a block already
/// there is not added twice.
pub fn insert_block(blocks: &mut Vec<Block>, b: Block)
    requires
        blocks_sorted(old(blocks)@),
    ensures
        blocks_sorted(final(blocks)@),
        forall|x: Block| final(blocks)@.contains(x) <==> (old(blocks)@.contains(x) || x == b),
{
    let mut i: usize = 0;
    while i < blocks.len() && block_less(&blocks[i], &b)
        invariant
            i <= blocks.len(),
            blocks_sorted(blocks@),
            forall|j: int| 0 <= j < i ==> block_lt(#[trigger] blocks@[j], b),
        decreases blocks.len() - i,
    {
        i += 1;
    }
    if i < blocks.len() && blocks[i].track == b.track && blocks[i].interval.time_start
        == b.interval.time_start && blocks[i].interval.time_end == b.interval.time_end {
        proof {
            assert(blocks@[i as int] == b);
        }
        return ;
    }
    let ghost old_s = blocks@;
    blocks.insert(i, b);
    proof {
        let s = blocks@;
        assert(s =~= old_s.subrange(0, i as int).push(b) + old_s.subrange(i as int, old_s.len() as int));
        assert forall|p: int, q: int| 0 <= p < q < s.len() implies block_lt(#[trigger] s[p], #[trigger] s[q]) by {
            if q < i {
                assert(s[p] == old_s[p] && s[q] == old_s[q]);
            } else if q == i {
                assert(s[p] == old_s[p]);
            } else if p > i {
                assert(s[p] == old_s[p - 1] && s[q] == old_s[q - 1]);
            } else if p == i {
                assert(s[q] == old_s[q - 1]);
                assert(!block_lt(old_s[i as int], b));
                assert(block_lt(b, old_s[i as int]));
                if q - 1 > i {
                    assert(block_lt(old_s[i as int], old_s[q - 1]));
                }
            } else {
                assert(s[p] == old_s[p] && s[q] == old_s[q - 1]);
                assert(block_lt(old_s[p], b));
                assert(!block_lt(old_s[i as int], b));
                assert(block_lt(b, old_s[i as int]));
                if q - 1 > i {
                    assert(block_lt(old_s[i as int], old_s[q - 1]));
                }
            }
        }
        assert forall|x: Block| s.contains(x) <==> (old_s.contains(x) || x == b) by {
            if s.contains(x) {
                let k = choose|k: int| 0 <= k < s.len() && s[k] == x;
                if k < i {
                    assert(old_s[k] == x);
                } else if k > i {
                    assert(old_s[k - 1] == x);
                }
            }
            if old_s.contains(x) {
                let k = choose|k: int| 0 <= k < old_s.len() && old_s[k] == x;
                if k < i {
                    assert(s[k] == x);
                } else {
                    assert(s[k + 1] == x);
                }
            }
            if x == b {
                assert(s[i as int] == x);
            }
        }
    }
}

/// Takes a block out of a sorted list of blocks that holds it.
pub fn remove_block(blocks: &mut Vec<Block>, b: Block)
    requires
        blocks_sorted(old(blocks)@),
        old(blocks)@.contains(b),
    ensures
        blocks_sorted(final(blocks)@),
        forall|x: Block| final(blocks)@.contains(x) <==> (old(blocks)@.contains(x) && x != b),
{
    let ghost old_s = blocks@;
    let ghost k = choose|k: int| 0 <= k < old_s.len() && old_s[k] == b;
    let mut i: usize = 0;
    while !(blocks[i].track == b.track && blocks[i].interval.time_start == b.interval.time_start
        && blocks[i].interval.time_end == b.interval.time_end)
        invariant
            i <= k,
            0 <= k < blocks.len(),
            blocks@ == old_s,
            old_s[k] == b,
        decreases k - i,
    {
        i += 1;
    }
    proof {
        assert(blocks@[i as int] == b);
    }
    blocks.remove(i);
    proof {
        let s = blocks@;
        assert(s =~= old_s.subrange(0, i as int) + old_s.subrange(i + 1, old_s.len() as int));
        assert forall|p: int, q: int| 0 <= p < q < s.len() implies block_lt(#[trigger] s[p], #[trigger] s[q]) by {
            let op = if p < i { p } else { p + 1 };
            let oq = if q < i { q } else { q + 1 };
            assert(s[p] == old_s[op] && s[q] == old_s[oq]);
        }
        assert forall|x: Block| s.contains(x) <==> (old_s.contains(x) && x != b) by {
            if s.contains(x) {
                let m = choose|m: int| 0 <= m < s.len() && s[m] == x;
                let om = if m < i { m } else { m + 1 };
                assert(old_s[om] == x);
                assert(om != i);
                if om < i {
                    assert(block_lt(old_s[om], old_s[i as int]));
                } else {
                    assert(block_lt(old_s[i as int], old_s[om]));
                }
            }
            if old_s.contains(x) && x != b {
                let m = choose|m: int| 0 <= m < old_s.len() && old_s[m] == x;
                if m < i {
                    assert(s[m] == x);
                } else {
                    assert(m != i);
                    assert(s[m - 1] == x);
                }
            }
        }
    }
}

} // verus!
