use vstd::prelude::*;
use tinyvec::TinyVec;
use crate::heuristic::interval::{TimeInterval, intervals_overlap};
use crate::heuristic::problem::{TrainRef, TrackRef};

verus! {

/// The occupations of one resource, held in the outside small vector type
/// `TinyVec`. Verus does not read this struct; the functions below are its
/// whole interface.
#[verifier::external_body]
pub struct OccupationVec {
    v: TinyVec<[(i32, u32, u32); 32]>,
}

/// An occupation as it is stored and ordered: train, start, end.
pub type OccupationKey = (i32, u32, u32);

/// The items the small vector holds, in order.
pub uninterp spec fn tinyvec_items(v: OccupationVec) -> Seq<(i32, u32, u32)>;

/// `TinyVec::new`: an empty vector.
#[verifier::external_body]
fn tinyvec_new() -> (v: OccupationVec)
    ensures
        tinyvec_items(v) == Seq::<(i32, u32, u32)>::empty(),
{
    OccupationVec { v: TinyVec::new() }
}

/// `TinyVec::as_slice`: the items, in order.
#[verifier::external_body]
fn tinyvec_as_slice(v: &OccupationVec) -> (s: &[(i32, u32, u32)])
    ensures
        s@ == tinyvec_items(*v),
{
    v.v.as_slice()
}

/// `TinyVec::insert`: puts `item` at `index`, moving the later items up;
/// it panics when `index` is past the end.
#[verifier::external_body]
fn tinyvec_insert(v: &mut OccupationVec, index: usize, item: (i32, u32, u32))
    requires
        index <= tinyvec_items(*old(v)).len(),
    ensures
        tinyvec_items(*final(v)) == tinyvec_items(*old(v)).insert(index as int, item),
{
    v.v.insert(index, item)
}

/// `TinyVec::remove`: takes out and returns the item at `index`, moving the
/// later items down; it panics when `index` is out of bounds.
#[verifier::external_body]
fn tinyvec_remove(v: &mut OccupationVec, index: usize) -> (r: (i32, u32, u32))
    requires
        index < tinyvec_items(*old(v)).len(),
    ensures
        r == tinyvec_items(*old(v))[index as int],
        tinyvec_items(*final(v)) == tinyvec_items(*old(v)).remove(index as int),
{
    v.v.remove(index)
}

/// A train occupying a resource during an interval.
#[derive(Clone, Copy, Debug, PartialEq, Eq, PartialOrd, Ord)]
pub struct ResourceOccupation {
    pub train: TrainRef,
    pub interval: TimeInterval,
}

/// The occupations of one resource, ordered by train and interval, and its
/// position in the set of conflicting resources (or -1).
pub struct ResourceOccupations {
    pub conflicting_resource_set_idx: i32,
    pub occupations: OccupationVec,
}

/// The occupations of all resources, and the resources found in conflict.
pub struct ResourceConflicts {
    pub conflicting_resource_set: Vec<u32>,
    pub resources: Vec<ResourceOccupations>,
}

/// The stored form of an occupation.
pub open spec fn occ_key(o: ResourceOccupation) -> OccupationKey {
    (o.train, o.interval.time_start, o.interval.time_end)
}

/// The occupation a stored key stands for.
pub open spec fn key_occ(k: OccupationKey) -> ResourceOccupation {
    ResourceOccupation { train: k.0, interval: TimeInterval { time_start: k.1, time_end: k.2 } }
}

/// Keys are ordered by train, then start, then end.
pub open spec fn key_lt(a: OccupationKey, b: OccupationKey) -> bool {
    ||| a.0 < b.0
    ||| (a.0 == b.0 && a.1 < b.1)
    ||| (a.0 == b.0 && a.1 == b.1 && a.2 < b.2)
}

/// The keys are in increasing order, each once.
pub open spec fn keys_sorted(s: Seq<OccupationKey>) -> bool {
    forall|i: int, j: int| 0 <= i < j < s.len() ==> key_lt(#[trigger] s[i], #[trigger] s[j])
}

/// The intervals of two stored occupations overlap.
pub open spec fn keys_overlap(a: OccupationKey, b: OccupationKey) -> bool {
    intervals_overlap(key_occ(a).interval, key_occ(b).interval)
}

/// The first position at which two neighbouring occupations overlap.
pub open spec fn first_conflict(s: Seq<OccupationKey>) -> Option<int> {
    if exists|i: int| 0 <= i < s.len() - 1 && keys_overlap(#[trigger] s[i], s[i + 1]) {
        Some(
            choose|i: int|
                0 <= i < s.len() - 1 && keys_overlap(#[trigger] s[i], s[i + 1]) && forall|j: int|
                    0 <= j < i ==> !keys_overlap(#[trigger] s[j], s[j + 1]),
        )
    } else {
        None
    }
}

/// Position `i` holds the first pair of neighbouring occupations that overlap.
pub open spec fn is_first_conflict(s: Seq<OccupationKey>, i: int) -> bool {
    &&& 0 <= i < s.len() - 1
    &&& keys_overlap(s[i], s[i + 1])
    &&& forall|j: int| 0 <= j < i ==> !keys_overlap(#[trigger] s[j], s[j + 1])
}

/// Two neighbouring occupations overlap somewhere.
pub open spec fn has_conflict(s: Seq<OccupationKey>) -> bool {
    exists|i: int| 0 <= i < s.len() - 1 && keys_overlap(#[trigger] s[i], s[i + 1])
}

/// Whether `a` sorts before `b`.
fn key_less(a: OccupationKey, b: OccupationKey) -> (r: bool)
    ensures
        r == key_lt(a, b),
{
    a.0 < b.0 || (a.0 == b.0 && (a.1 < b.1 || (a.1 == b.1 && a.2 < b.2)))
}

/// Binary search of `x` in sorted keys: its position, or where it would go.
fn search_key(s: &[OccupationKey], x: OccupationKey) -> (r: Result<usize, usize>)
    requires
        keys_sorted(s@),
    ensures
        r matches Ok(i) ==> i < s@.len() && s@[i as int] == x,
        r matches Err(i) ==> i <= s@.len() && (forall|j: int| 0 <= j < i ==> key_lt(#[trigger] s@[j], x))
            && (forall|j: int| i <= j < s@.len() ==> key_lt(x, #[trigger] s@[j])),
{
    let mut lo: usize = 0;
    let mut hi: usize = s.len();
    while lo < hi
        invariant
            lo <= hi <= s@.len(),
            keys_sorted(s@),
            forall|j: int| 0 <= j < lo ==> key_lt(#[trigger] s@[j], x),
            forall|j: int| hi <= j < s@.len() ==> key_lt(x, #[trigger] s@[j]),
        decreases hi - lo,
    {
        let mid = lo + (hi - lo) / 2;
        let m = s[mid];
        if key_less(m, x) {
            proof {
                assert forall|j: int| 0 <= j < mid + 1 implies key_lt(#[trigger] s@[j], x) by {
                    if j < mid {
                        assert(key_lt(s@[j], s@[mid as int]));
                    }
                }
            }
            lo = mid + 1;
        } else if m.0 == x.0 && m.1 == x.1 && m.2 == x.2 {
            return Ok(mid);
        } else {
            proof {
                assert forall|j: int| mid <= j < s@.len() implies key_lt(x, #[trigger] s@[j]) by {
                    if j > mid {
                        assert(key_lt(s@[mid as int], s@[j]));
                    }
                }
            }
            hi = mid;
        }
    }
    Err(lo)
}

/// The position of the first pair of neighbouring occupations that overlap.
fn find_conflict(s: &[OccupationKey]) -> (r: Option<usize>)
    ensures
        r is None <==> !has_conflict(s@),
        r matches Some(i) ==> i + 1 < s@.len() && keys_overlap(s@[i as int], s@[i + 1]) && forall|j: int|
            0 <= j < i ==> !keys_overlap(#[trigger] s@[j], s@[j + 1]),
{
    if s.len() < 2 {
        return None;
    }
    let mut i: usize = 0;
    while i < s.len() - 1
        invariant
            s@.len() >= 2,
            i + 1 <= s@.len(),
            forall|j: int| 0 <= j < i ==> !keys_overlap(#[trigger] s@[j], s@[j + 1]),
        decreases s@.len() - i,
    {
        let a = s[i];
        let b = s[i + 1];
        if !(a.2 <= b.1 || b.2 <= a.1) {
            return Some(i);
        }
        i += 1;
    }
    None
}

impl ResourceOccupations {
    /// The stored occupations, in order.
    pub open spec fn items(&self) -> Seq<OccupationKey> {
        tinyvec_items(self.occupations)
    }

    /// The first two neighbouring occupations (in the order of trains and
    /// intervals) whose intervals overlap. Overlaps between occupations that
    /// are not neighbours in this order are not looked for.
    pub fn get_conflict(&self) -> (r: Option<(ResourceOccupation, ResourceOccupation)>)
        ensures
            r is None <==> !has_conflict(self.items()),
            r matches Some((a, b)) ==> exists|i: int|
                #[trigger] is_first_conflict(self.items(), i) && a == key_occ(self.items()[i]) && b
                    == key_occ(self.items()[i + 1]),
    {
        let s = tinyvec_as_slice(&self.occupations);
        match find_conflict(s) {
            Some(i) => {
                let a = s[i];
                let b = s[i + 1];
                let oa = ResourceOccupation {
                    train: a.0,
                    interval: TimeInterval { time_start: a.1, time_end: a.2 },
                };
                let ob = ResourceOccupation {
                    train: b.0,
                    interval: TimeInterval { time_start: b.1, time_end: b.2 },
                };
                proof {
                    let it = self.items();
                    assert(oa == key_occ(it[i as int]) && ob == key_occ(it[i + 1]));
                    assert(is_first_conflict(it, i as int));
                }
                Some((oa, ob))
            },
            None => None,
        }
    }
}

/// What adding `occ` to resource `ri` does: the resource holds it besides
/// what it held, nothing else changes, and the resource joins the set of
/// conflicting resources, at its end, when the occupation is new, the
/// resource was not in the set and now has a conflict.
pub open spec fn add_post(old: ResourceConflicts, new: ResourceConflicts, ri: int, occ: ResourceOccupation) -> bool {
    let newly = !old.resources@[ri].items().contains(occ_key(occ)) && !old.in_set(ri)
        && has_conflict(new.resources@[ri].items());
    &&& new.resources.len() == old.resources.len()
    &&& forall|r: int|
        0 <= r < old.resources.len() && r != ri ==> #[trigger] new.resources@[r] == old.resources@[r]
    &&& forall|x: OccupationKey|
        new.resources@[ri].items().contains(x) <==> (old.resources@[ri].items().contains(x) || x
            == occ_key(occ))
    &&& new.conflicting_resource_set@ == (if newly {
        old.conflicting_resource_set@.push(ri as u32)
    } else {
        old.conflicting_resource_set@
    })
    &&& new.in_set(ri) == (old.in_set(ri) || newly)
}

/// What removing `occ` from resource `ri` does: the resource holds what it
/// held but `occ`; the resource leaves the set of conflicting resources when
/// it was in it and has no conflict any more, the last resource of the set
/// taking its place; nothing else changes.
pub open spec fn remove_post(
    old: ResourceConflicts,
    new: ResourceConflicts,
    ri: int,
    occ: ResourceOccupation,
) -> bool {
    let dropped = old.in_set(ri) && !has_conflict(new.resources@[ri].items());
    let p = old.resources@[ri].conflicting_resource_set_idx as int;
    &&& new.resources.len() == old.resources.len()
    &&& forall|r: int|
        0 <= r < old.resources.len() && r != ri ==> (#[trigger] new.resources@[r]).occupations
            == old.resources@[r].occupations && new.in_set(r) == old.in_set(r)
    &&& forall|x: OccupationKey|
        new.resources@[ri].items().contains(x) <==> (old.resources@[ri].items().contains(x) && x
            != occ_key(occ))
    &&& new.conflicting_resource_set@ == (if dropped {
        old.conflicting_resource_set@.update(p, old.conflicting_resource_set@.last()).drop_last()
    } else {
        old.conflicting_resource_set@
    })
    &&& new.in_set(ri) == (old.in_set(ri) && !dropped)
}

impl ResourceConflicts {
    /// Whether resource `r` is in the set of conflicting resources.
    pub open spec fn in_set(&self, r: int) -> bool {
        self.resources@[r].conflicting_resource_set_idx >= 0
    }

    /// The occupations of each resource are sorted, and the set of
    /// conflicting resources and the positions the resources keep in it agree.
    pub open spec fn wf(&self) -> bool {
        &&& self.resources.len() <= i32::MAX
        &&& self.conflicting_resource_set.len() <= i32::MAX
        &&& forall|r: int| 0 <= r < self.resources.len() ==> keys_sorted(#[trigger] self.resources@[r].items())
        &&& forall|k: int|
            0 <= k < self.conflicting_resource_set.len() ==> {
                &&& #[trigger] self.conflicting_resource_set@[k] < self.resources.len()
                &&& self.resources@[self.conflicting_resource_set@[k] as int].conflicting_resource_set_idx == k
            }
        &&& forall|r: int|
            0 <= r < self.resources.len() ==> {
                let idx = (#[trigger] self.resources@[r]).conflicting_resource_set_idx;
                &&& idx >= -1
                &&& idx < self.conflicting_resource_set.len()
                &&& idx >= 0 ==> self.conflicting_resource_set@[idx as int] == r
            }
    }

    /// No occupations on `n` resources, and no conflicts.
    pub fn empty(n: usize) -> (s: Self)
        requires
            n <= i32::MAX,
        ensures
            s.wf(),
            s.resources.len() == n,
            s.conflicting_resource_set@.len() == 0,
            forall|r: int| 0 <= r < n ==> (#[trigger] s.resources@[r]).items().len() == 0,
    {
        let mut resources: Vec<ResourceOccupations> = Vec::new();
        let mut i: usize = 0;
        while i < n
            invariant
                i <= n,
                resources.len() == i,
                forall|r: int|
                    0 <= r < i ==> (#[trigger] resources@[r]).items().len() == 0
                        && resources@[r].conflicting_resource_set_idx == -1,
            decreases n - i,
        {
            resources.push(ResourceOccupations { conflicting_resource_set_idx: -1, occupations: tinyvec_new() });
            i += 1;
        }
        ResourceConflicts { conflicting_resource_set: Vec::new(), resources }
    }

    /// Records that `occ` occupies resource `resource_idx`. An occupation that
    /// is already there is left as it is. The resource joins the set of
    /// conflicting resources when it was not in it and its occupations now
    /// have a conflict.
    pub fn add(&mut self, resource_idx: usize, occ: ResourceOccupation)
        requires
            old(self).wf(),
            resource_idx < old(self).resources.len(),
        ensures
            final(self).wf(),
            add_post(*old(self), *final(self), resource_idx as int, occ),
    {
        let key: OccupationKey = (occ.train, occ.interval.time_start, occ.interval.time_end);
        proof {
            assert(keys_sorted(self.resources@[resource_idx as int].items()));
        }
        let found = search_key(tinyvec_as_slice(&self.resources[resource_idx].occupations), key);
        match found {
            Ok(_) => {
                proof {
                    assert(*self == *old(self));
                    assert(self.wf());
                    assert forall|x: OccupationKey|
                        self.resources@[resource_idx as int].items().contains(x) <==> (old(
                            self,
                        ).resources@[resource_idx as int].items().contains(x) || x == key) by {}
                }
            },
            Err(idx) => {
                let ghost old_items = self.resources@[resource_idx as int].items();
                proof {
                    assert(!old_items.contains(key));
                }
                let ghost old_res = self.resources@;
                let ghost old_set = self.conflicting_resource_set@;
                let resource = &mut self.resources[resource_idx];
                tinyvec_insert(&mut resource.occupations, idx, key);
                let conflict = resource.get_conflict();
                let newly = resource.conflicting_resource_set_idx < 0 && conflict.is_some();
                proof {
                    if newly {
                        lemma_set_has_room(old_set, old_res, resource_idx as int);
                    }
                }
                if newly {
                    resource.conflicting_resource_set_idx = self.conflicting_resource_set.len() as i32;
                }
                proof {
                    lemma_insert_sorted(old_items, idx as int, key);
                }
                if newly {
                    self.conflicting_resource_set.push(resource_idx as u32);
                }
                proof {
                    let new_items = self.resources@[resource_idx as int].items();
                    assert(new_items == old_items.insert(idx as int, key));
                    assert forall|r: int|
                        0 <= r < old_res.len() && r != resource_idx implies #[trigger] self.resources@[r]
                            == old_res[r] by {}
                    assert forall|k: int|
                        0 <= k < self.conflicting_resource_set.len() implies {
                            &&& #[trigger] self.conflicting_resource_set@[k] < self.resources.len()
                            &&& self.resources@[self.conflicting_resource_set@[k] as int].conflicting_resource_set_idx
                                == k
                        } by {
                        if k < old_set.len() {
                            assert(self.conflicting_resource_set@[k] == old_set[k]);
                        }
                    }
                    assert forall|r: int| 0 <= r < self.resources.len() implies keys_sorted(
                        #[trigger] self.resources@[r].items(),
                    ) by {
                        if r != resource_idx {
                            assert(self.resources@[r] == old_res[r]);
                        }
                    }
                    assert forall|r: int| 0 <= r < self.resources.len() implies {
                        let idx = (#[trigger] self.resources@[r]).conflicting_resource_set_idx;
                        &&& idx >= -1
                        &&& idx < self.conflicting_resource_set.len()
                        &&& idx >= 0 ==> self.conflicting_resource_set@[idx as int] == r
                    } by {
                        if r != resource_idx {
                            assert(self.resources@[r] == old_res[r]);
                            let idx = old_res[r].conflicting_resource_set_idx;
                            if idx >= 0 {
                                assert(self.conflicting_resource_set@[idx as int] == old_set[idx as int]);
                            }
                        } else if !newly {
                            let idx = old_res[r].conflicting_resource_set_idx;
                            if idx >= 0 {
                                assert(self.conflicting_resource_set@[idx as int] == old_set[idx as int]);
                            }
                        }
                    }
                    assert forall|x: OccupationKey| new_items.contains(x) <==> (old_items.contains(x) || x
                        == key) by {
                        if new_items.contains(x) {
                            let m = choose|m: int| 0 <= m < new_items.len() && new_items[m] == x;
                            if m < idx {
                                assert(old_items[m] == x);
                            } else if m > idx {
                                assert(old_items[m - 1] == x);
                            }
                        }
                        if old_items.contains(x) {
                            let m = choose|m: int| 0 <= m < old_items.len() && old_items[m] == x;
                            if m < idx {
                                assert(new_items[m] == x);
                            } else {
                                assert(new_items[m + 1] == x);
                            }
                        }
                        if x == key {
                            assert(new_items[idx as int] == x);
                        }
                    }
                    assert(self.wf());
                }
            },
        }
    }

    /// Records that `occ` no longer occupies resource `resource_idx`, which
    /// it occupies.
    pub fn remove(&mut self, resource_idx: usize, occ: ResourceOccupation)
        requires
            old(self).wf(),
            resource_idx < old(self).resources.len(),
            old(self).resources@[resource_idx as int].items().contains(occ_key(occ)),
        ensures
            final(self).wf(),
            remove_post(*old(self), *final(self), resource_idx as int, occ),
    {
        let key: OccupationKey = (occ.train, occ.interval.time_start, occ.interval.time_end);
        let ghost old_items = self.resources@[resource_idx as int].items();
        let ghost old_res = self.resources@;
        let ghost old_set = self.conflicting_resource_set@;
        proof {
            assert(keys_sorted(old_items));
        }
        let found = search_key(tinyvec_as_slice(&self.resources[resource_idx].occupations), key);
        let idx: usize = match found {
            Ok(i) => i,
            Err(i) => {
                proof {
                    let m = choose|m: int| 0 <= m < old_items.len() && old_items[m] == key;
                    if m < i {
                        assert(key_lt(old_items[m], key));
                    } else {
                        assert(key_lt(key, old_items[m]));
                    }
                }
                i
            },
        };
        let resource = &mut self.resources[resource_idx];
        tinyvec_remove(&mut resource.occupations, idx);
        let pos = resource.conflicting_resource_set_idx;
        let conflict = resource.get_conflict();
        let ghost new_items = self.resources@[resource_idx as int].items();
        let ghost mid_res = self.resources@;
        proof {
            assert(new_items == old_items.remove(idx as int));
            assert forall|p: int, q: int| 0 <= p < q < new_items.len() implies key_lt(
                #[trigger] new_items[p],
                #[trigger] new_items[q],
            ) by {
                let op = if p < idx { p } else { p + 1 };
                let oq = if q < idx { q } else { q + 1 };
                assert(new_items[p] == old_items[op] && new_items[q] == old_items[oq]);
            }
            assert(keys_sorted(new_items));
            assert forall|x: OccupationKey| new_items.contains(x) <==> (old_items.contains(x) && x != key) by {
                if new_items.contains(x) {
                    let m = choose|m: int| 0 <= m < new_items.len() && new_items[m] == x;
                    let om = if m < idx { m } else { m + 1 };
                    assert(old_items[om] == x);
                    if om < idx {
                        assert(key_lt(old_items[om], old_items[idx as int]));
                    } else {
                        assert(key_lt(old_items[idx as int], old_items[om]));
                    }
                }
                if old_items.contains(x) && x != key {
                    let m = choose|m: int| 0 <= m < old_items.len() && old_items[m] == x;
                    if m < idx {
                        assert(new_items[m] == x);
                    } else {
                        assert(new_items[m - 1] == x);
                    }
                }
            }
        }
        if pos >= 0 && conflict.is_none() {
            let p = pos as usize;
            self.conflicting_resource_set.swap_remove(p);
            if p < self.conflicting_resource_set.len() {
                let other = self.conflicting_resource_set[p];
                proof {
                    assert(other == old_set[old_set.len() - 1]);
                    assert(old_res[other as int].conflicting_resource_set_idx == old_set.len() - 1);
                    assert(other != resource_idx);
                }
                self.resources[other as usize].conflicting_resource_set_idx = pos;
            }
            self.resources[resource_idx].conflicting_resource_set_idx = -1;
            proof {
                let set = self.conflicting_resource_set@;
                assert(set == old_set.update(p as int, old_set.last()).drop_last());
                assert forall|k: int| 0 <= k < set.len() implies {
                    &&& #[trigger] set[k] < self.resources.len()
                    &&& self.resources@[set[k] as int].conflicting_resource_set_idx == k
                } by {
                    if k != p {
                        assert(set[k] == old_set[k]);
                        assert(old_res[old_set[k] as int].conflicting_resource_set_idx == k);
                        assert(old_set[k] != resource_idx);
                    }
                }
                assert forall|r: int| 0 <= r < self.resources.len() implies {
                    let i = (#[trigger] self.resources@[r]).conflicting_resource_set_idx;
                    &&& i >= -1
                    &&& i < set.len()
                    &&& i >= 0 ==> set[i as int] == r
                } by {
                    let oi = old_res[r].conflicting_resource_set_idx;
                    if r != resource_idx && oi >= 0 {
                        if oi == old_set.len() - 1 {
                            assert(old_set[oi as int] == r);
                        } else {
                            assert(oi != p);
                            assert(set[oi as int] == old_set[oi as int]);
                        }
                    }
                }
                assert forall|r: int| 0 <= r < self.resources.len() implies keys_sorted(
                    #[trigger] self.resources@[r].items(),
                ) by {
                    if r != resource_idx {
                        assert(self.resources@[r].occupations == old_res[r].occupations);
                        assert(keys_sorted(old(self).resources@[r].items()));
                        assert(self.resources@[r].items() == old_res[r].items());
                    } else {
                        assert(self.resources@[r].occupations == mid_res[r].occupations);
                        assert(self.resources@[r].items() == new_items);
                    }
                }
                assert forall|r: int|
                    0 <= r < old_res.len() && r != resource_idx implies (#[trigger] self.resources@[r]).occupations
                        == old_res[r].occupations && self.in_set(r) == old(self).in_set(r) by {
                    let oi = old_res[r].conflicting_resource_set_idx;
                    if oi >= 0 && oi == old_set.len() - 1 {
                        assert(old_set[oi as int] == r);
                    }
                }
            }
        } else {
            proof {
                assert forall|r: int| 0 <= r < self.resources.len() implies keys_sorted(
                    #[trigger] self.resources@[r].items(),
                ) by {
                    if r != resource_idx {
                        assert(self.resources@[r] == old_res[r]);
                    }
                }
                assert forall|r: int| 0 <= r < self.resources.len() implies {
                    let i = (#[trigger] self.resources@[r]).conflicting_resource_set_idx;
                    &&& i >= -1
                    &&& i < self.conflicting_resource_set.len()
                    &&& i >= 0 ==> self.conflicting_resource_set@[i as int] == r
                } by {
                    assert(self.resources@[r].conflicting_resource_set_idx == old_res[r].conflicting_resource_set_idx);
                }
                assert forall|k: int| 0 <= k < self.conflicting_resource_set.len() implies {
                    &&& #[trigger] self.conflicting_resource_set@[k] < self.resources.len()
                    &&& self.resources@[self.conflicting_resource_set@[k] as int].conflicting_resource_set_idx == k
                } by {
                    let r = self.conflicting_resource_set@[k] as int;
                    assert(self.resources@[r].conflicting_resource_set_idx == old_res[r].conflicting_resource_set_idx);
                }
                assert forall|r: int|
                    0 <= r < old_res.len() && r != resource_idx implies (#[trigger] self.resources@[r]).occupations
                        == old_res[r].occupations && self.in_set(r) == old(self).in_set(r) by {
                    assert(self.resources@[r] == old_res[r]);
                }
            }
        }
    }

    /// Adds or removes the occupation of `track` by `train` during `interval`.
    pub fn add_or_remove(&mut self, add: bool, train: TrainRef, track: TrackRef, interval: TimeInterval)
        requires
            old(self).wf(),
            0 <= track < old(self).resources.len(),
            !add ==> old(self).resources@[track as int].items().contains(
                occ_key(ResourceOccupation { train, interval }),
            ),
        ensures
            final(self).wf(),
            add ==> add_post(*old(self), *final(self), track as int, ResourceOccupation { train, interval }),
            !add ==> remove_post(
                *old(self),
                *final(self),
                track as int,
                ResourceOccupation { train, interval },
            ),
    {
        let occ = ResourceOccupation { train, interval };
        if add {
            self.add(track as usize, occ);
        } else {
            self.remove(track as usize, occ);
        }
    }
}

/// A sequence without duplicates, whose items all lie in `f`, is no longer
/// than `f` is large.
proof fn lemma_distinct_len(s: Seq<u32>, f: Set<int>)
    requires
        s.no_duplicates(),
        f.finite(),
        forall|k: int| 0 <= k < s.len() ==> f.contains(#[trigger] s[k] as int),
    ensures
        s.len() <= f.len(),
    decreases s.len(),
{
    if s.len() > 0 {
        let l = s.last() as int;
        let d = s.drop_last();
        assert forall|i: int, j: int| 0 <= i < d.len() && 0 <= j < d.len() && i != j implies d[i] != d[j] by {
            assert(d[i] == s[i] && d[j] == s[j]);
        }
        assert forall|k: int| 0 <= k < d.len() implies f.remove(l).contains(#[trigger] d[k] as int) by {
            assert(d[k] == s[k]);
            assert(s[k] != s[s.len() - 1]);
        }
        assert(f.contains(s[s.len() - 1] as int));
        lemma_distinct_len(d, f.remove(l));
    }
}

/// When a resource is not in the set of conflicting resources, the set has
/// room for it: it is shorter than the number of resources.
proof fn lemma_set_has_room(set: Seq<u32>, res: Seq<ResourceOccupations>, x: int)
    requires
        0 <= x < res.len(),
        res[x].conflicting_resource_set_idx < 0,
        forall|k: int|
            0 <= k < set.len() ==> {
                &&& #[trigger] set[k] < res.len()
                &&& res[set[k] as int].conflicting_resource_set_idx == k
            },
    ensures
        set.len() < res.len(),
{
    let f = vstd::set_lib::set_int_range(0, res.len() as int).remove(x);
    vstd::set_lib::lemma_int_range(0, res.len() as int);
    assert(vstd::set_lib::set_int_range(0, res.len() as int).contains(x));
    assert forall|i: int, j: int| 0 <= i < set.len() && 0 <= j < set.len() && i != j implies set[i]
        != set[j] by {
        if set[i] == set[j] {
            assert(res[set[i] as int].conflicting_resource_set_idx == i);
            assert(res[set[j] as int].conflicting_resource_set_idx == j);
        }
    }
    assert forall|k: int| 0 <= k < set.len() implies f.contains(#[trigger] set[k] as int) by {
        assert(res[set[k] as int].conflicting_resource_set_idx == k);
    }
    lemma_distinct_len(set, f);
}

/// Inserting a key at its place keeps the keys sorted.
proof fn lemma_insert_sorted(s: Seq<OccupationKey>, i: int, x: OccupationKey)
    requires
        keys_sorted(s),
        0 <= i <= s.len(),
        forall|j: int| 0 <= j < i ==> key_lt(#[trigger] s[j], x),
        forall|j: int| i <= j < s.len() ==> key_lt(x, #[trigger] s[j]),
    ensures
        keys_sorted(s.insert(i, x)),
{
    let t = s.insert(i, x);
    assert forall|p: int, q: int| 0 <= p < q < t.len() implies key_lt(#[trigger] t[p], #[trigger] t[q]) by {
        if q < i {
            assert(t[p] == s[p] && t[q] == s[q]);
        } else if q == i {
            assert(t[p] == s[p]);
        } else if p > i {
            assert(t[p] == s[p - 1] && t[q] == s[q - 1]);
        } else if p == i {
            assert(t[q] == s[q - 1]);
        } else {
            assert(t[p] == s[p] && t[q] == s[q - 1]);
        }
    }
}

} // verus!
