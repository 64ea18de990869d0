//! The time-indexed model: each visit starts at one of a grid of times.
use vstd::prelude::*;
use vstd::string::*;
use crate::export_lp::{
    ExportStats, all_visits, all_visits_of, append_lines, gather, idx2, lemma_all_visits_valid,
    lemma_gather_step, lemma_in_all_visits, numbered, numbered_lines, packed_lines, push_i32,
    push_idx2, push_line, resource_bound, resources_bounded, texts, visit_at, write_terms,
};
use crate::problem::{DelayCostType, Problem, delay_fits, visit_cost_spec};
use crate::text::decimal;

verus! {

/// Division that rounds toward zero, as `/` on integers in Rust does.
pub open spec fn trunc_div(a: int, b: int) -> int {
    if a >= 0 {
        a / b
    } else {
        -((-a) / b)
    }
}

/// `t` rounded to the grid of step `iv`, as `((t + iv / 2) / iv) * iv`.
pub open spec fn round_to(t: int, iv: int) -> int {
    trunc_div(t + iv / 2, iv) * iv
}

/// The grid times from `t` on, in steps of `iv`, below `lim`.
pub open spec fn slots_from(t: int, lim: int, iv: int) -> Seq<int>
    decreases if t < lim {
        lim - t
    } else {
        0
    },
{
    if iv <= 0 || t >= lim {
        seq![]
    } else {
        seq![t] + slots_from(t + iv, lim, iv)
    }
}

/// The start times that visit `x` may take: the grid times from its
/// earliest time (rounded) up to `big_m` later.
pub open spec fn slots(p: Problem, x: (usize, usize), iv: int, big_m: int) -> Seq<int> {
    let e = visit_at(p, x).earliest as int;
    slots_from(round_to(e, iv), e + big_m, iv)
}

/// The name of the variable of visit `x` at time `s`.
pub open spec fn xname(x: (usize, usize), s: int) -> Seq<char> {
    "x_"@ + idx2(x.0, x.1) + "_"@ + decimal(s)
}

/// The objective term of visit `x` at time `s`, when it costs anything.
pub open spec fn ti_obj_term(p: Problem, ty: DelayCostType, x: (usize, usize), s: int) -> Seq<
    Seq<char>,
> {
    let cost = visit_cost_spec(p.trains@[x.0 as int], ty, x.1 as int, s as i32) as i32;
    if cost > 0 {
        seq![decimal(cost as int) + " "@ + xname(x, s)]
    } else {
        seq![]
    }
}

/// The variables of visit `x` at the times `ss`, joined by ` + `.
pub open spec fn xsum(x: (usize, usize), ss: Seq<int>) -> Seq<char>
    decreases ss.len(),
{
    if ss.len() == 0 {
        seq![]
    } else if ss.len() == 1 {
        xname(x, ss[0])
    } else {
        xsum(x, ss.drop_last()) + " + "@ + xname(x, ss.last())
    }
}

/// The variables of visit `x` at the times `ss`, each after ` + `.
pub open spec fn plus_xs(x: (usize, usize), ss: Seq<int>) -> Seq<char>
    decreases ss.len(),
{
    if ss.len() == 0 {
        seq![]
    } else {
        plus_xs(x, ss.drop_last()) + " + "@ + xname(x, ss.last())
    }
}

/// The times among `ss` that a visit starting at `t1` with travel time `tr`
/// cannot reach.
pub open spec fn unreachable(t1: int, tr: int, ss: Seq<int>) -> Seq<int>
    decreases ss.len(),
{
    if ss.len() == 0 {
        seq![]
    } else {
        unreachable(t1, tr, ss.drop_last()) + if t1 + tr <= ss.last() {
            seq![]
        } else {
            seq![ss.last()]
        }
    }
}

/// The parts of the model that each visit contributes lines to.
#[derive(Clone, Copy, Debug, PartialEq, Eq, Structural)]
pub enum TiPart {
    Objective,
    Selection,
    Travel,
    Resource,
    Binary,
}

/// The selection constraint of visit `x`: it starts at exactly one time.
pub open spec fn selection_body(x: (usize, usize), ss: Seq<int>) -> Seq<Seq<char>> {
    seq![" "@ + xsum(x, ss) + " = 1"@]
}

/// The travel constraint of visit `x` at time `t1`: it excludes the times
/// of the next visit that it cannot reach, when there are more than one.
pub open spec fn travel_ti_body(
    p: Problem,
    x: (usize, usize),
    t1: int,
    iv: int,
    big_m: int,
) -> Seq<Seq<char>> {
    let y = (x.0, (x.1 + 1) as usize);
    let bad = unreachable(t1, visit_at(p, x).travel_time as int, slots(p, y, iv, big_m));
    if bad.len() > 1 {
        seq![" "@ + xname(x, t1) + plus_xs(y, bad) + " <= 1"@]
    } else {
        seq![]
    }
}

/// The resources that conflict with `r`, as the conflict list gives them:
/// for each listed pair `(a, b)`, `b` when `a` is `r`, and `a` when `b` is
/// `r` and differs from `a`.
pub open spec fn conf_upto(p: Problem, r: usize, k: int) -> Seq<usize>
    decreases k,
{
    if k <= 0 {
        seq![]
    } else {
        let (a, b) = p.conflicts@[k - 1];
        conf_upto(p, r, k - 1) + (if a == r {
            seq![b]
        } else {
            seq![]
        }) + (if a != b && b == r {
            seq![a]
        } else {
            seq![]
        })
    }
}

/// The resources that conflict with `r`.
pub open spec fn conf_list(p: Problem, r: usize) -> Seq<usize> {
    conf_upto(p, r, p.conflicts@.len() as int)
}

/// The visits among the first `k` of all visits that use resource `r`.
pub open spec fn res_visits_upto(p: Problem, r: usize, k: int) -> Seq<(usize, usize)>
    decreases k,
{
    if k <= 0 {
        seq![]
    } else {
        let x = all_visits(p)[k - 1];
        res_visits_upto(p, r, k - 1) + if visit_at(p, x).resource_id == r {
            seq![x]
        } else {
            seq![]
        }
    }
}

/// The visits that use resource `r`, in the order of all visits.
pub open spec fn res_visits(p: Problem, r: usize) -> Seq<(usize, usize)> {
    res_visits_upto(p, r, all_visits(p).len() as int)
}

/// The constraint that visit `x1` at `a` and visit `x2` at `b` do not both
/// hold when their occupations overlap.
pub open spec fn overlap_line(p: Problem, x1: (usize, usize), x2: (usize, usize), a: int, b: int) -> Seq<
    Seq<char>,
> {
    let out1 = a + visit_at(p, x1).travel_time;
    let out2 = b + visit_at(p, x2).travel_time;
    let sep = if b - out1 >= a - out2 {
        b - out1
    } else {
        a - out2
    };
    if sep >= 0 {
        seq![]
    } else {
        seq![" "@ + xname(x1, a) + " + "@ + xname(x2, b) + " <= 1"@]
    }
}

/// The overlap constraints of visit `x1` with visit `x2` of another train.
pub open spec fn overlap_pair(
    p: Problem,
    x1: (usize, usize),
    x2: (usize, usize),
    iv: int,
    big_m: int,
) -> Seq<Seq<char>> {
    if x2.0 == x1.0 {
        seq![]
    } else {
        gather(
            slots(p, x1, iv, big_m),
            |a: int| gather(slots(p, x2, iv, big_m), |b: int| overlap_line(p, x1, x2, a, b)),
        )
    }
}

/// The overlap constraints of visit `x1` with the visits on resource `r2`.
pub open spec fn overlap_resource(p: Problem, x1: (usize, usize), r2: usize, iv: int, big_m: int) -> Seq<
    Seq<char>,
> {
    gather(res_visits(p, r2), |x2: (usize, usize)| overlap_pair(p, x1, x2, iv, big_m))
}

/// The lines that visit `x` contributes to a part of the model.
pub open spec fn ti_part(
    p: Problem,
    ty: DelayCostType,
    iv: int,
    big_m: int,
    part: TiPart,
    x: (usize, usize),
) -> Seq<Seq<char>> {
    let ss = slots(p, x, iv, big_m);
    match part {
        TiPart::Objective => gather(ss, |s: int| ti_obj_term(p, ty, x, s)),
        TiPart::Selection => selection_body(x, ss),
        TiPart::Travel => if x.1 + 1 < p.trains@[x.0 as int].visits@.len() {
            gather(ss, |t1: int| travel_ti_body(p, x, t1, iv, big_m))
        } else {
            seq![]
        },
        TiPart::Resource => gather(
            conf_list(p, visit_at(p, x).resource_id),
            |r2: usize| overlap_resource(p, x, r2, iv, big_m),
        ),
        TiPart::Binary => gather(ss, |s: int| seq![" "@ + xname(x, s)]),
    }
}

/// The lines that each visit gives for a part of the model.
pub open spec fn ti_lines_of(p: Problem, ty: DelayCostType, iv: int, big_m: int, part: TiPart) -> Seq<
    Seq<char>,
> {
    gather(all_visits(p), |x: (usize, usize)| ti_part(p, ty, iv, big_m, part, x))
}

/// All constraint bodies of the time-indexed model: selection, travel,
/// then resource conflicts.
pub open spec fn ti_bodies(p: Problem, ty: DelayCostType, iv: int, big_m: int) -> Seq<Seq<char>> {
    ti_lines_of(p, ty, iv, big_m, TiPart::Selection) + ti_lines_of(p, ty, iv, big_m, TiPart::Travel)
        + ti_lines_of(p, ty, iv, big_m, TiPart::Resource)
}

/// The time-indexed model of a problem as the lines of an LP file: a binary
/// variable for each visit and each time of its grid; the objective sums
/// the delay costs of the chosen times; each visit chooses one time, a
/// visit's time excludes the times of the next visit that it cannot reach,
/// and two visits on conflicting resources cannot take times at which they
/// overlap.
pub open spec fn ti_lines(p: Problem, ty: DelayCostType, iv: i32, big_m: i32) -> Seq<Seq<char>> {
    let i = iv as int;
    let m = big_m as int;
    seq![
        "\\ TRP MILP-TI, exported by export_lp.rs"@,
        "\\ interval="@ + decimal(i) + "s, big_m_range="@ + decimal(m) + "s"@,
        "Minimize"@,
        " obj:"@,
    ] + packed_lines(ti_lines_of(p, ty, i, m, TiPart::Objective)) + seq!["Subject To"@] + numbered(
        ti_bodies(p, ty, i, m),
    ) + seq!["Binary"@] + ti_lines_of(p, ty, i, m, TiPart::Binary) + seq!["End"@]
}

/// The counts of the time-indexed model: a variable and an interval for each
/// grid time of each visit, the constraints, among them the travel and the
/// resource constraints.
pub open spec fn ti_stats(p: Problem, ty: DelayCostType, iv: i32, big_m: i32) -> ExportStats {
    let i = iv as int;
    let m = big_m as int;
    let n_slots = ti_lines_of(p, ty, i, m, TiPart::Binary).len();
    ExportStats {
        n_vars: n_slots as usize,
        n_constraints: ti_bodies(p, ty, i, m).len() as usize,
        n_travel: ti_lines_of(p, ty, i, m, TiPart::Travel).len() as usize,
        n_resource: ti_lines_of(p, ty, i, m, TiPart::Resource).len() as usize,
        n_intervals: n_slots as usize,
    }
}

/// Whether `x` fits in an `i32`.
pub open spec fn fits(x: int) -> bool {
    i32::MIN <= x <= i32::MAX
}

/// The times of visit `x2` never overflow against visit `x1` at `a`.
pub open spec fn pair_fits(p: Problem, x1: (usize, usize), x2: (usize, usize), a: int, iv: int, big_m: int) -> bool {
    forall|j: int|
        0 <= j < slots(p, x2, iv, big_m).len() ==> {
            let b = #[trigger] slots(p, x2, iv, big_m)[j];
            &&& fits(b + visit_at(p, x2).travel_time)
            &&& fits(b - (a + visit_at(p, x1).travel_time))
            &&& fits(a - (b + visit_at(p, x2).travel_time))
        }
}

/// The arithmetic on visit `x`'s times fits in `i32`: its grid, its delay,
/// its travel, and its overlaps with the visits on conflicting resources.
pub open spec fn visit_fits(p: Problem, x: (usize, usize), iv: int, big_m: int) -> bool {
    let v = visit_at(p, x);
    let e = v.earliest as int;
    &&& fits(e + iv / 2)
    &&& fits(e + big_m)
    &&& forall|k: int|
        0 <= k < slots(p, x, iv, big_m).len() ==> {
            let s = #[trigger] slots(p, x, iv, big_m)[k];
            &&& fits(s + iv)
            &&& fits(s + v.travel_time)
            &&& delay_fits(p.trains@[x.0 as int], x.1 as int, s as i32)
            &&& forall|r: int, q: int|
                0 <= r < conf_list(p, v.resource_id).len() && 0 <= q < res_visits(
                    p,
                    conf_list(p, v.resource_id)[r],
                ).len() ==> pair_fits(
                    p,
                    x,
                    #[trigger] res_visits(p, conf_list(p, v.resource_id)[r])[q],
                    s,
                    iv,
                    big_m,
                )
        }
}

/// The arithmetic of the time-indexed model fits in `i32` for every visit,
/// and the grid step is positive.
pub open spec fn ti_fits(p: Problem, iv: i32, big_m: i32) -> bool {
    &&& iv > 0
    &&& forall|k: int|
        0 <= k < all_visits(p).len() ==> visit_fits(p, #[trigger] all_visits(p)[k], iv as int, big_m as int)
}

/// The times as integers.
pub open spec fn ints(v: Seq<i32>) -> Seq<int> {
    v.map_values(|s: i32| s as int)
}

/// Rounding to the grid fits in `i32` where its first step does.
proof fn lemma_round_fits(t: int, iv: int)
    requires
        iv > 0,
        fits(t + iv / 2),
    ensures
        fits(round_to(t, iv)),
        trunc_div(t + iv / 2, iv) * iv == round_to(t, iv),
{
    let a = t + iv / 2;
    if a >= 0 {
        assert(0 <= (a / iv) * iv <= a) by (nonlinear_arith)
            requires
                a >= 0,
                iv > 0,
        ;
    } else {
        let b = -a;
        assert(0 <= (b / iv) * iv <= b) by (nonlinear_arith)
            requires
                b >= 0,
                iv > 0,
        ;
        assert(-((b / iv)) * iv == -((b / iv) * iv)) by (nonlinear_arith);
    }
}

/// The grid times of a visit with earliest time `e`.
fn slots_of(e: i32, iv: i32, big_m: i32) -> (r: Vec<i32>)
    requires
        iv > 0,
        fits(e + iv / 2),
        fits(e + big_m),
        forall|k: int|
            0 <= k < slots_from(round_to(e as int, iv as int), e + big_m, iv as int).len() ==> fits(
                #[trigger] slots_from(round_to(e as int, iv as int), e + big_m, iv as int)[k] + iv,
            ),
    ensures
        ints(r@) == slots_from(round_to(e as int, iv as int), e + big_m, iv as int),
{
    let ghost lim = e + big_m;
    let ghost all = slots_from(round_to(e as int, iv as int), lim, iv as int);
    proof {
        lemma_round_fits(e as int, iv as int);
    }
    let a = e + iv / 2;
    let q = a / iv;
    proof {
        assert(q == trunc_div(a as int, iv as int));
    }
    let mut t: i32 = q * iv;
    let mut out: Vec<i32> = Vec::new();
    while t < e + big_m
        invariant
            iv > 0,
            lim == e + big_m,
            fits(lim),
            all == slots_from(round_to(e as int, iv as int), lim, iv as int),
            forall|k: int| 0 <= k < all.len() ==> fits(#[trigger] all[k] + iv),
            ints(out@) + slots_from(t as int, lim, iv as int) == all,
        decreases if t < lim {
            lim - t
        } else {
            0
        },
    {
        proof {
            assert(slots_from(t as int, lim, iv as int) == seq![t as int] + slots_from(
                t + iv,
                lim,
                iv as int,
            ));
            assert(all[out@.len() as int] == t);
        }
        let ghost before = ints(out@);
        out.push(t);
        proof {
            assert(ints(out@) =~= before.push(t as int));
        }
        t = t + iv;
        proof {
            assert(ints(out@) + slots_from(t as int, lim, iv as int) =~= all);
        }
    }
    proof {
        assert(slots_from(t as int, lim, iv as int) == Seq::<int>::empty());
        assert(ints(out@) =~= all);
    }
    out
}

/// The grid times of every visit, train by train and visit by visit.
pub open spec fn td_ok(p: Problem, td: Seq<Vec<Vec<i32>>>, iv: int, big_m: int) -> bool {
    &&& td.len() == p.trains@.len()
    &&& forall|t: int| 0 <= t < td.len() ==> (#[trigger] td[t])@.len() == p.trains@[t].visits@.len()
    &&& forall|t: int, v: int|
        0 <= t < td.len() && 0 <= v < td[t]@.len() ==> ints(#[trigger] td[t]@[v]@) == slots(
            p,
            (t as usize, v as usize),
            iv,
            big_m,
        )
}

/// Visit `v` of train `t` satisfies what `ti_fits` asks of every visit.
proof fn lemma_ti_fits_at(p: Problem, iv: i32, big_m: i32, t: int, v: int)
    requires
        ti_fits(p, iv, big_m),
        0 <= t < p.trains@.len(),
        0 <= v < p.trains@[t].visits@.len(),
    ensures
        visit_fits(p, (t as usize, v as usize), iv as int, big_m as int),
{
    lemma_in_all_visits(p, t, v);
    let k = choose|k: int| 0 <= k < all_visits(p).len() && all_visits(p)[k] == (t as usize, v as usize);
    assert(visit_fits(p, all_visits(p)[k], iv as int, big_m as int));
}

/// The grid times of every visit.
fn time_disc_of(p: &Problem, iv: i32, big_m: i32) -> (td: Vec<Vec<Vec<i32>>>)
    requires
        ti_fits(*p, iv, big_m),
    ensures
        td_ok(*p, td@, iv as int, big_m as int),
{
    let mut td: Vec<Vec<Vec<i32>>> = Vec::new();
    let mut t: usize = 0;
    while t < p.trains.len()
        invariant
            ti_fits(*p, iv, big_m),
            t <= p.trains@.len(),
            td@.len() == t,
            forall|i: int| 0 <= i < t ==> (#[trigger] td@[i])@.len() == p.trains@[i].visits@.len(),
            forall|i: int, v: int|
                0 <= i < t && 0 <= v < td@[i]@.len() ==> ints(#[trigger] td@[i]@[v]@) == slots(
                    *p,
                    (i as usize, v as usize),
                    iv as int,
                    big_m as int,
                ),
        decreases p.trains@.len() - t,
    {
        let mut row: Vec<Vec<i32>> = Vec::new();
        let mut v: usize = 0;
        while v < p.trains[t].visits.len()
            invariant
                ti_fits(*p, iv, big_m),
                t < p.trains@.len(),
                v <= p.trains@[t as int].visits@.len(),
                row@.len() == v,
                forall|w: int|
                    0 <= w < v ==> ints(#[trigger] row@[w]@) == slots(
                        *p,
                        (t as usize, w as usize),
                        iv as int,
                        big_m as int,
                    ),
            decreases p.trains@[t as int].visits@.len() - v,
        {
            let e = p.trains[t].visits[v].earliest;
            proof {
                lemma_ti_fits_at(*p, iv, big_m, t as int, v as int);
                let x = (t as usize, v as usize);
                let ss = slots_from(round_to(e as int, iv as int), e + big_m, iv as int);
                assert(slots(*p, x, iv as int, big_m as int) == ss);
                assert forall|k: int| 0 <= k < ss.len() implies fits(#[trigger] ss[k] + iv) by {
                    assert(slots(*p, x, iv as int, big_m as int)[k] == ss[k]);
                }
            }
            let ss = slots_of(e, iv, big_m);
            row.push(ss);
            v = v + 1;
        }
        td.push(row);
        t = t + 1;
    }
    td
}

/// The resources that conflict with `r`.
fn conf_list_of(p: &Problem, r: usize) -> (out: Vec<usize>)
    ensures
        out@ == conf_list(*p, r),
{
    let mut out: Vec<usize> = Vec::new();
    let mut k: usize = 0;
    while k < p.conflicts.len()
        invariant
            k <= p.conflicts@.len(),
            out@ == conf_upto(*p, r, k as int),
        decreases p.conflicts@.len() - k,
    {
        let (a, b) = p.conflicts[k];
        if a == r {
            out.push(b);
        }
        if a != b && b == r {
            out.push(a);
        }
        proof {
            assert(out@ =~= conf_upto(*p, r, k + 1));
        }
        k = k + 1;
    }
    out
}

/// No visit uses a resource at or beyond `n`: none is listed for it.
proof fn lemma_res_visits_beyond(p: Problem, r: usize, n: int, k: int)
    requires
        0 <= k <= all_visits(p).len(),
        r >= n,
        forall|t: int, v: int|
            0 <= t < p.trains@.len() && 0 <= v < p.trains@[t].visits@.len() ==> (#[trigger] p.trains@[t].visits@[v]).resource_id < n,
    ensures
        res_visits_upto(p, r, k) == Seq::<(usize, usize)>::empty(),
    decreases k,
{
    if k > 0 {
        lemma_res_visits_beyond(p, r, n, k - 1);
        lemma_all_visits_valid(p);
        let x = all_visits(p)[k - 1];
        assert(visit_at(p, x).resource_id < n);
    }
}

/// The visits on each resource below `n`.
fn res_visits_table(p: &Problem, vs: &Vec<(usize, usize)>, n: usize) -> (tab: Vec<Vec<(usize, usize)>>)
    requires
        vs@ == all_visits(*p),
        forall|t: int, v: int|
            0 <= t < p.trains@.len() && 0 <= v < p.trains@[t].visits@.len() ==> (#[trigger] p.trains@[t].visits@[v]).resource_id < n,
    ensures
        tab@.len() == n,
        forall|r: int| 0 <= r < n ==> (#[trigger] tab@[r])@ == res_visits(*p, r as usize),
{
    proof {
        lemma_all_visits_valid(*p);
    }
    let mut tab: Vec<Vec<(usize, usize)>> = Vec::new();
    let mut r: usize = 0;
    while r < n
        invariant
            r <= n,
            tab@.len() == r,
            forall|q: int| 0 <= q < r ==> (#[trigger] tab@[q])@ == Seq::<(usize, usize)>::empty(),
        decreases n - r,
    {
        tab.push(Vec::new());
        r = r + 1;
    }
    let mut k: usize = 0;
    while k < vs.len()
        invariant
            vs@ == all_visits(*p),
            forall|i: int|
                0 <= i < all_visits(*p).len() ==> (#[trigger] all_visits(*p)[i]).0 < p.trains@.len()
                    && all_visits(*p)[i].1 < p.trains@[all_visits(*p)[i].0 as int].visits@.len(),
            forall|t: int, v: int|
                0 <= t < p.trains@.len() && 0 <= v < p.trains@[t].visits@.len() ==> (#[trigger] p.trains@[t].visits@[v]).resource_id < n,
            k <= vs@.len(),
            tab@.len() == n,
            forall|q: int| 0 <= q < n ==> (#[trigger] tab@[q])@ == res_visits_upto(*p, q as usize, k as int),
        decreases vs@.len() - k,
    {
        let x = vs[k];
        let res = p.trains[x.0].visits[x.1].resource_id;
        let ghost old_tab = tab@;
        tab[res].push(x);
        proof {
            assert forall|q: int| 0 <= q < n implies (#[trigger] tab@[q])@ == res_visits_upto(
                *p,
                q as usize,
                k + 1,
            ) by {
                assert(all_visits(*p)[k as int] == x);
                if q != res {
                    assert(tab@[q] == old_tab[q]);
                }
            }
        }
        k = k + 1;
    }
    tab
}

/// Appends the name of the variable of visit `x` at time `s`.
fn push_xname(line: &mut String, x: (usize, usize), s: i32)
    ensures
        final(line)@ == old(line)@ + xname(x, s as int),
{
    let ghost l0 = line@;
    line.append("x_");
    push_idx2(line, x.0, x.1);
    line.append("_");
    push_i32(line, s);
    proof {
        assert(line@ =~= l0 + xname(x, s as int));
    }
}

/// Gathering one time more.
proof fn lemma_gather_ints_step(ss: Seq<i32>, f: spec_fn(int) -> Seq<Seq<char>>, k: int)
    requires
        0 <= k < ss.len(),
    ensures
        gather(ints(ss).take(k + 1), f) == gather(ints(ss).take(k), f) + f(ss[k] as int),
{
    lemma_gather_step(ints(ss), f, k);
}

/// The objective terms of visit `x` at its times `ss`.
fn obj_lines(p: &Problem, ty: DelayCostType, x: (usize, usize), ss: &Vec<i32>) -> (r: Vec<String>)
    requires
        x.0 < p.trains@.len(),
        x.1 < p.trains@[x.0 as int].visits@.len(),
        forall|k: int|
            0 <= k < ss@.len() ==> delay_fits(p.trains@[x.0 as int], x.1 as int, #[trigger] ss@[k]),
    ensures
        texts(r@) == gather(ints(ss@), |s: int| ti_obj_term(*p, ty, x, s)),
{
    let mut out: Vec<String> = Vec::new();
    let mut k: usize = 0;
    while k < ss.len()
        invariant
            x.0 < p.trains@.len(),
            x.1 < p.trains@[x.0 as int].visits@.len(),
            forall|j: int|
                0 <= j < ss@.len() ==> delay_fits(p.trains@[x.0 as int], x.1 as int, #[trigger] ss@[j]),
            k <= ss@.len(),
            texts(out@) == gather(ints(ss@).take(k as int), |s: int| ti_obj_term(*p, ty, x, s)),
        decreases ss@.len() - k,
    {
        let s = ss[k];
        let cost = p.trains[x.0].visit_delay_cost(ty, x.1, s) as i32;
        let mut more: Vec<String> = Vec::new();
        if cost > 0 {
            let mut line = String::new();
            push_i32(&mut line, cost);
            line.append(" ");
            push_xname(&mut line, x, s);
            more.push(line);
        }
        proof {
            assert(texts(more@) =~= ti_obj_term(*p, ty, x, s as int));
            lemma_gather_ints_step(ss@, |s: int| ti_obj_term(*p, ty, x, s), k as int);
        }
        append_lines(&mut out, more);
        k = k + 1;
    }
    proof {
        assert(ints(ss@).take(ss@.len() as int) =~= ints(ss@));
    }
    out
}

/// The selection constraint of visit `x` at its times `ss`.
fn selection_lines(x: (usize, usize), ss: &Vec<i32>) -> (r: Vec<String>)
    ensures
        texts(r@) == selection_body(x, ints(ss@)),
{
    let mut line = String::from_str(" ");
    let mut k: usize = 0;
    while k < ss.len()
        invariant
            k <= ss@.len(),
            line@ == " "@ + xsum(x, ints(ss@).take(k as int)),
        decreases ss@.len() - k,
    {
        let ghost before = line@;
        if k > 0 {
            line.append(" + ");
        }
        push_xname(&mut line, x, ss[k]);
        proof {
            let t = ints(ss@).take(k + 1);
            assert(t.drop_last() =~= ints(ss@).take(k as int));
            if k == 0 {
                assert(line@ =~= " "@ + xsum(x, t));
            } else {
                assert(line@ =~= " "@ + xsum(x, t));
            }
        }
        k = k + 1;
    }
    proof {
        assert(ints(ss@).take(ss@.len() as int) =~= ints(ss@));
    }
    line.append(" = 1");
    let mut out: Vec<String> = Vec::new();
    out.push(line);
    proof {
        assert(texts(out@) =~= selection_body(x, ints(ss@)));
    }
    out
}

/// The times among `ss` that a visit at `t1` with travel time `tr` cannot
/// reach.
fn unreachable_of(t1: i32, tr: i32, ss: &Vec<i32>) -> (r: Vec<i32>)
    requires
        fits(t1 + tr),
    ensures
        ints(r@) == unreachable(t1 as int, tr as int, ints(ss@)),
{
    let mut out: Vec<i32> = Vec::new();
    let reach = t1 + tr;
    let mut k: usize = 0;
    while k < ss.len()
        invariant
            reach == t1 + tr,
            k <= ss@.len(),
            ints(out@) == unreachable(t1 as int, tr as int, ints(ss@).take(k as int)),
        decreases ss@.len() - k,
    {
        let ghost before = ints(out@);
        if !(reach <= ss[k]) {
            out.push(ss[k]);
        }
        proof {
            assert(ints(ss@).take(k + 1).drop_last() =~= ints(ss@).take(k as int));
            assert(ints(out@) =~= unreachable(t1 as int, tr as int, ints(ss@).take(k + 1)));
        }
        k = k + 1;
    }
    proof {
        assert(ints(ss@).take(ss@.len() as int) =~= ints(ss@));
    }
    out
}

/// The travel constraints of visit `x` at its times `ss1`, against the
/// times `ss2` of the next visit.
fn travel_lines(
    p: &Problem,
    x: (usize, usize),
    ss1: &Vec<i32>,
    ss2: &Vec<i32>,
    iv: i32,
    big_m: i32,
) -> (r: Vec<String>)
    requires
        x.0 < p.trains@.len(),
        x.1 + 1 < p.trains@[x.0 as int].visits@.len(),
        ints(ss2@) == slots(*p, (x.0, (x.1 + 1) as usize), iv as int, big_m as int),
        forall|k: int|
            0 <= k < ss1@.len() ==> fits(#[trigger] ss1@[k] + visit_at(*p, x).travel_time),
    ensures
        texts(r@) == gather(ints(ss1@), |t1: int| travel_ti_body(*p, x, t1, iv as int, big_m as int)),
{
    let tr = p.trains[x.0].visits[x.1].travel_time;
    let _nv = p.trains[x.0].visits.len();
    let y = (x.0, x.1 + 1);
    let mut out: Vec<String> = Vec::new();
    let mut k: usize = 0;
    while k < ss1.len()
        invariant
            x.0 < p.trains@.len(),
            x.1 + 1 < p.trains@[x.0 as int].visits@.len(),
            y == (x.0, (x.1 + 1) as usize),
            tr == visit_at(*p, x).travel_time,
            ints(ss2@) == slots(*p, y, iv as int, big_m as int),
            forall|j: int| 0 <= j < ss1@.len() ==> fits(#[trigger] ss1@[j] + tr),
            k <= ss1@.len(),
            texts(out@) == gather(
                ints(ss1@).take(k as int),
                |t1: int| travel_ti_body(*p, x, t1, iv as int, big_m as int),
            ),
        decreases ss1@.len() - k,
    {
        let t1 = ss1[k];
        let bad = unreachable_of(t1, tr, ss2);
        let mut more: Vec<String> = Vec::new();
        if bad.len() > 1 {
            let mut line = String::from_str(" ");
            push_xname(&mut line, x, t1);
            let mut j: usize = 0;
            while j < bad.len()
                invariant
                    j <= bad@.len(),
                    line@ == " "@ + xname(x, t1 as int) + plus_xs(y, ints(bad@).take(j as int)),
                decreases bad@.len() - j,
            {
                let ghost before = line@;
                line.append(" + ");
                push_xname(&mut line, y, bad[j]);
                proof {
                    assert(ints(bad@).take(j + 1).drop_last() =~= ints(bad@).take(j as int));
                    assert(line@ =~= " "@ + xname(x, t1 as int) + plus_xs(y, ints(bad@).take(j + 1)));
                }
                j = j + 1;
            }
            proof {
                assert(ints(bad@).take(bad@.len() as int) =~= ints(bad@));
            }
            line.append(" <= 1");
            more.push(line);
        }
        proof {
            assert(texts(more@) =~= travel_ti_body(*p, x, t1 as int, iv as int, big_m as int));
            lemma_gather_ints_step(
                ss1@,
                |t1: int| travel_ti_body(*p, x, t1, iv as int, big_m as int),
                k as int,
            );
        }
        append_lines(&mut out, more);
        k = k + 1;
    }
    proof {
        assert(ints(ss1@).take(ss1@.len() as int) =~= ints(ss1@));
    }
    out
}

/// One variable line per time.
fn binary_lines(x: (usize, usize), ss: &Vec<i32>) -> (r: Vec<String>)
    ensures
        texts(r@) == gather(ints(ss@), |s: int| seq![" "@ + xname(x, s)]),
{
    let mut out: Vec<String> = Vec::new();
    let mut k: usize = 0;
    while k < ss.len()
        invariant
            k <= ss@.len(),
            texts(out@) == gather(ints(ss@).take(k as int), |s: int| seq![" "@ + xname(x, s)]),
        decreases ss@.len() - k,
    {
        let mut line = String::from_str(" ");
        push_xname(&mut line, x, ss[k]);
        let mut more: Vec<String> = Vec::new();
        more.push(line);
        proof {
            assert(texts(more@) =~= seq![" "@ + xname(x, ss@[k as int] as int)]);
            lemma_gather_ints_step(ss@, |s: int| seq![" "@ + xname(x, s)], k as int);
        }
        append_lines(&mut out, more);
        k = k + 1;
    }
    proof {
        assert(ints(ss@).take(ss@.len() as int) =~= ints(ss@));
    }
    out
}

/// Visit `x` names a train and one of its visits.
pub open spec fn valid_visit(p: Problem, x: (usize, usize)) -> bool {
    x.0 < p.trains@.len() && x.1 < p.trains@[x.0 as int].visits@.len()
}

/// The visits listed for a resource exist.
proof fn lemma_res_visits_valid(p: Problem, r: usize, k: int)
    requires
        0 <= k <= all_visits(p).len(),
    ensures
        forall|i: int| 0 <= i < res_visits_upto(p, r, k).len() ==> valid_visit(p, #[trigger] res_visits_upto(p, r, k)[i]),
    decreases k,
{
    if k > 0 {
        lemma_res_visits_valid(p, r, k - 1);
        lemma_all_visits_valid(p);
        let prev = res_visits_upto(p, r, k - 1);
        let x = all_visits(p)[k - 1];
        assert(valid_visit(p, x));
        assert forall|i: int| 0 <= i < res_visits_upto(p, r, k).len() implies valid_visit(p, #[trigger] res_visits_upto(p, r, k)[i]) by {
            if i < prev.len() {
                assert(res_visits_upto(p, r, k)[i] == prev[i]);
            }
        }
    }
}

/// The overlap constraints of visit `x1` at its times `ss1` with visit `x2`
/// at its times `ss2`.
fn overlap_pair_lines(
    p: &Problem,
    x1: (usize, usize),
    x2: (usize, usize),
    ss1: &Vec<i32>,
    ss2: &Vec<i32>,
    iv: i32,
    big_m: i32,
) -> (r: Vec<String>)
    requires
        valid_visit(*p, x1),
        valid_visit(*p, x2),
        ints(ss1@) == slots(*p, x1, iv as int, big_m as int),
        ints(ss2@) == slots(*p, x2, iv as int, big_m as int),
        forall|k: int|
            0 <= k < ss1@.len() ==> fits(#[trigger] ss1@[k] + visit_at(*p, x1).travel_time),
        forall|k: int|
            0 <= k < ss1@.len() ==> pair_fits(*p, x1, x2, #[trigger] ss1@[k] as int, iv as int, big_m as int),
    ensures
        texts(r@) == overlap_pair(*p, x1, x2, iv as int, big_m as int),
{
    let mut out: Vec<String> = Vec::new();
    if x2.0 == x1.0 {
        proof {
            assert(texts(out@) =~= overlap_pair(*p, x1, x2, iv as int, big_m as int));
        }
        return out;
    }
    let tr1 = p.trains[x1.0].visits[x1.1].travel_time;
    let tr2 = p.trains[x2.0].visits[x2.1].travel_time;
    let mut k: usize = 0;
    while k < ss1.len()
        invariant
            valid_visit(*p, x1),
            valid_visit(*p, x2),
            x2.0 != x1.0,
            tr1 == visit_at(*p, x1).travel_time,
            tr2 == visit_at(*p, x2).travel_time,
            ints(ss2@) == slots(*p, x2, iv as int, big_m as int),
            forall|j: int| 0 <= j < ss1@.len() ==> fits(#[trigger] ss1@[j] + tr1),
            forall|j: int|
                0 <= j < ss1@.len() ==> pair_fits(*p, x1, x2, #[trigger] ss1@[j] as int, iv as int, big_m as int),
            k <= ss1@.len(),
            texts(out@) == gather(
                ints(ss1@).take(k as int),
                |a: int| gather(slots(*p, x2, iv as int, big_m as int), |b: int| overlap_line(*p, x1, x2, a, b)),
            ),
        decreases ss1@.len() - k,
    {
        let a = ss1[k];
        let t1_out = a + tr1;
        proof {
            assert(pair_fits(*p, x1, x2, a as int, iv as int, big_m as int));
        }
        let mut more: Vec<String> = Vec::new();
        let mut j: usize = 0;
        while j < ss2.len()
            invariant
                valid_visit(*p, x1),
                valid_visit(*p, x2),
                tr1 == visit_at(*p, x1).travel_time,
                tr2 == visit_at(*p, x2).travel_time,
                t1_out == a + tr1,
                ints(ss2@) == slots(*p, x2, iv as int, big_m as int),
                pair_fits(*p, x1, x2, a as int, iv as int, big_m as int),
                j <= ss2@.len(),
                texts(more@) == gather(ints(ss2@).take(j as int), |b: int| overlap_line(*p, x1, x2, a as int, b)),
            decreases ss2@.len() - j,
        {
            let b = ss2[j];
            proof {
                assert(ints(ss2@)[j as int] == b as int);
                assert(slots(*p, x2, iv as int, big_m as int)[j as int] == b as int);
            }
            let t2_out = b + tr2;
            let d1 = b - t1_out;
            let d2 = a - t2_out;
            let sep = if d1 >= d2 {
                d1
            } else {
                d2
            };
            let mut lines: Vec<String> = Vec::new();
            if sep < 0 {
                let mut line = String::from_str(" ");
                push_xname(&mut line, x1, a);
                line.append(" + ");
                push_xname(&mut line, x2, b);
                line.append(" <= 1");
                lines.push(line);
            }
            proof {
                assert(texts(lines@) =~= overlap_line(*p, x1, x2, a as int, b as int));
                lemma_gather_ints_step(ss2@, |b: int| overlap_line(*p, x1, x2, a as int, b), j as int);
            }
            append_lines(&mut more, lines);
            j = j + 1;
        }
        proof {
            assert(ints(ss2@).take(ss2@.len() as int) =~= ints(ss2@));
            lemma_gather_ints_step(
                ss1@,
                |a: int| gather(slots(*p, x2, iv as int, big_m as int), |b: int| overlap_line(*p, x1, x2, a, b)),
                k as int,
            );
        }
        append_lines(&mut out, more);
        k = k + 1;
    }
    proof {
        assert(ints(ss1@).take(ss1@.len() as int) =~= ints(ss1@));
    }
    out
}

/// The overlap constraints of visit `x` with the visits on the resources
/// that conflict with its own.
#[verifier::rlimit(60)]
fn resource_lines(
    p: &Problem,
    x: (usize, usize),
    td: &Vec<Vec<Vec<i32>>>,
    tab: &Vec<Vec<(usize, usize)>>,
    iv: i32,
    big_m: i32,
) -> (r: Vec<String>)
    requires
        valid_visit(*p, x),
        td_ok(*p, td@, iv as int, big_m as int),
        visit_fits(*p, x, iv as int, big_m as int),
        forall|q: int| 0 <= q < tab@.len() ==> (#[trigger] tab@[q])@ == res_visits(*p, q as usize),
        forall|t: int, v: int|
            0 <= t < p.trains@.len() && 0 <= v < p.trains@[t].visits@.len() ==> (#[trigger] p.trains@[t].visits@[v]).resource_id < tab@.len(),
    ensures
        texts(r@) == gather(
            conf_list(*p, visit_at(*p, x).resource_id),
            |r2: usize| overlap_resource(*p, x, r2, iv as int, big_m as int),
        ),
{
    let res = p.trains[x.0].visits[x.1].resource_id;
    let conf = conf_list_of(p, res);
    let ss1 = &td[x.0][x.1];
    let tr1 = p.trains[x.0].visits[x.1].travel_time;
    proof {
        assert(ints(ss1@) == slots(*p, x, iv as int, big_m as int));
        assert forall|k: int| 0 <= k < ss1@.len() implies fits(#[trigger] ss1@[k] + tr1) by {
            assert(slots(*p, x, iv as int, big_m as int)[k] == ss1@[k] as int);
        }
    }
    let mut out: Vec<String> = Vec::new();
    let mut c: usize = 0;
    while c < conf.len()
        invariant
            valid_visit(*p, x),
            td_ok(*p, td@, iv as int, big_m as int),
            visit_fits(*p, x, iv as int, big_m as int),
            forall|q: int| 0 <= q < tab@.len() ==> (#[trigger] tab@[q])@ == res_visits(*p, q as usize),
            forall|t: int, v: int|
                0 <= t < p.trains@.len() && 0 <= v < p.trains@[t].visits@.len() ==> (#[trigger] p.trains@[t].visits@[v]).resource_id < tab@.len(),
            res == visit_at(*p, x).resource_id,
            conf@ == conf_list(*p, res),
            ss1 == td@[x.0 as int]@[x.1 as int],
            ints(ss1@) == slots(*p, x, iv as int, big_m as int),
            tr1 == visit_at(*p, x).travel_time,
            forall|k: int| 0 <= k < ss1@.len() ==> fits(#[trigger] ss1@[k] + tr1),
            c <= conf@.len(),
            texts(out@) == gather(
                conf@.take(c as int),
                |r2: usize| overlap_resource(*p, x, r2, iv as int, big_m as int),
            ),
        decreases conf@.len() - c,
    {
        let r2 = conf[c];
        let mut more: Vec<String> = Vec::new();
        if r2 < tab.len() {
            let list = &tab[r2];
            proof {
                lemma_res_visits_valid(*p, r2, all_visits(*p).len() as int);
            }
            let mut q: usize = 0;
            while q < list.len()
                invariant
                    valid_visit(*p, x),
                    td_ok(*p, td@, iv as int, big_m as int),
                    visit_fits(*p, x, iv as int, big_m as int),
                    res == visit_at(*p, x).resource_id,
                    conf@ == conf_list(*p, res),
                    c < conf@.len(),
                    r2 == conf@[c as int],
                    list@ == res_visits(*p, r2),
                    forall|i: int| 0 <= i < list@.len() ==> valid_visit(*p, #[trigger] list@[i]),
                    ss1 == td@[x.0 as int]@[x.1 as int],
                    ints(ss1@) == slots(*p, x, iv as int, big_m as int),
                    tr1 == visit_at(*p, x).travel_time,
                    forall|k: int| 0 <= k < ss1@.len() ==> fits(#[trigger] ss1@[k] + tr1),
                    q <= list@.len(),
                    texts(more@) == gather(
                        list@.take(q as int),
                        |x2: (usize, usize)| overlap_pair(*p, x, x2, iv as int, big_m as int),
                    ),
                decreases list@.len() - q,
            {
                let x2 = list[q];
                proof {
                    assert(valid_visit(*p, x2));
                }
                let ss2 = &td[x2.0][x2.1];
                proof {
                    assert(ints(ss2@) == slots(*p, x2, iv as int, big_m as int));
                    assert forall|k: int| 0 <= k < ss1@.len() implies pair_fits(
                        *p,
                        x,
                        x2,
                        #[trigger] ss1@[k] as int,
                        iv as int,
                        big_m as int,
                    ) by {
                        let s = slots(*p, x, iv as int, big_m as int)[k];
                        assert(s == ss1@[k] as int);
                        assert(res_visits(*p, conf_list(*p, res)[c as int])[q as int] == x2);
                    }
                }
                let lines = overlap_pair_lines(p, x, x2, ss1, ss2, iv, big_m);
                proof {
                    lemma_gather_step(
                        list@,
                        |x2: (usize, usize)| overlap_pair(*p, x, x2, iv as int, big_m as int),
                        q as int,
                    );
                }
                append_lines(&mut more, lines);
                q = q + 1;
            }
            proof {
                assert(list@.take(list@.len() as int) =~= list@);
            }
        } else {
            proof {
                lemma_res_visits_beyond(*p, r2, tab@.len() as int, all_visits(*p).len() as int);
                assert(texts(more@) =~= gather(
                    res_visits(*p, r2),
                    |x2: (usize, usize)| overlap_pair(*p, x, x2, iv as int, big_m as int),
                ));
            }
        }
        proof {
            assert(texts(more@) == overlap_resource(*p, x, r2, iv as int, big_m as int));
            lemma_gather_step(
                conf@,
                |r2: usize| overlap_resource(*p, x, r2, iv as int, big_m as int),
                c as int,
            );
        }
        append_lines(&mut out, more);
        c = c + 1;
    }
    proof {
        assert(conf@.take(conf@.len() as int) =~= conf@);
    }
    out
}

/// The lines that visit `x` contributes to a part of the model.
fn ti_part_of(
    p: &Problem,
    ty: DelayCostType,
    iv: i32,
    big_m: i32,
    part: TiPart,
    x: (usize, usize),
    td: &Vec<Vec<Vec<i32>>>,
    tab: &Vec<Vec<(usize, usize)>>,
) -> (r: Vec<String>)
    requires
        valid_visit(*p, x),
        td_ok(*p, td@, iv as int, big_m as int),
        visit_fits(*p, x, iv as int, big_m as int),
        forall|q: int| 0 <= q < tab@.len() ==> (#[trigger] tab@[q])@ == res_visits(*p, q as usize),
        forall|t: int, v: int|
            0 <= t < p.trains@.len() && 0 <= v < p.trains@[t].visits@.len() ==> (#[trigger] p.trains@[t].visits@[v]).resource_id < tab@.len(),
    ensures
        texts(r@) == ti_part(*p, ty, iv as int, big_m as int, part, x),
{
    let ss = &td[x.0][x.1];
    proof {
        assert(ints(ss@) == slots(*p, x, iv as int, big_m as int));
    }
    match part {
        TiPart::Objective => {
            proof {
                assert forall|k: int| 0 <= k < ss@.len() implies delay_fits(
                    p.trains@[x.0 as int],
                    x.1 as int,
                    #[trigger] ss@[k],
                ) by {
                    assert(slots(*p, x, iv as int, big_m as int)[k] == ss@[k] as int);
                    assert((ss@[k] as int) as i32 == ss@[k]);
                }
            }
            obj_lines(p, ty, x, ss)
        },
        TiPart::Selection => selection_lines(x, ss),
        TiPart::Travel => {
            let nv = p.trains[x.0].visits.len();
            if x.1 + 1 < nv {
                let ss2 = &td[x.0][x.1 + 1];
                proof {
                    assert forall|k: int| 0 <= k < ss@.len() implies fits(
                        #[trigger] ss@[k] + visit_at(*p, x).travel_time,
                    ) by {
                        assert(slots(*p, x, iv as int, big_m as int)[k] == ss@[k] as int);
                    }
                }
                travel_lines(p, x, ss, ss2, iv, big_m)
            } else {
                let out: Vec<String> = Vec::new();
                proof {
                    assert(texts(out@) =~= ti_part(*p, ty, iv as int, big_m as int, part, x));
                }
                out
            }
        },
        TiPart::Resource => resource_lines(p, x, td, tab, iv, big_m),
        TiPart::Binary => binary_lines(x, ss),
    }
}

/// The lines that each visit gives for a part of the model.
fn ti_section(
    p: &Problem,
    ty: DelayCostType,
    iv: i32,
    big_m: i32,
    part: TiPart,
    vs: &Vec<(usize, usize)>,
    td: &Vec<Vec<Vec<i32>>>,
    tab: &Vec<Vec<(usize, usize)>>,
) -> (r: Vec<String>)
    requires
        vs@ == all_visits(*p),
        ti_fits(*p, iv, big_m),
        td_ok(*p, td@, iv as int, big_m as int),
        forall|q: int| 0 <= q < tab@.len() ==> (#[trigger] tab@[q])@ == res_visits(*p, q as usize),
        forall|t: int, v: int|
            0 <= t < p.trains@.len() && 0 <= v < p.trains@[t].visits@.len() ==> (#[trigger] p.trains@[t].visits@[v]).resource_id < tab@.len(),
    ensures
        texts(r@) == ti_lines_of(*p, ty, iv as int, big_m as int, part),
{
    proof {
        lemma_all_visits_valid(*p);
    }
    let mut out: Vec<String> = Vec::new();
    let mut k: usize = 0;
    while k < vs.len()
        invariant
            vs@ == all_visits(*p),
            ti_fits(*p, iv, big_m),
            forall|i: int|
                0 <= i < all_visits(*p).len() ==> (#[trigger] all_visits(*p)[i]).0 < p.trains@.len()
                    && all_visits(*p)[i].1 < p.trains@[all_visits(*p)[i].0 as int].visits@.len(),
            td_ok(*p, td@, iv as int, big_m as int),
            forall|q: int| 0 <= q < tab@.len() ==> (#[trigger] tab@[q])@ == res_visits(*p, q as usize),
            forall|t: int, v: int|
                0 <= t < p.trains@.len() && 0 <= v < p.trains@[t].visits@.len() ==> (#[trigger] p.trains@[t].visits@[v]).resource_id < tab@.len(),
            k <= vs@.len(),
            texts(out@) == gather(
                vs@.take(k as int),
                |x: (usize, usize)| ti_part(*p, ty, iv as int, big_m as int, part, x),
            ),
        decreases vs@.len() - k,
    {
        let x = vs[k];
        proof {
            assert(all_visits(*p)[k as int] == x);
            assert(visit_fits(*p, all_visits(*p)[k as int], iv as int, big_m as int));
        }
        let more = ti_part_of(p, ty, iv, big_m, part, x, td, tab);
        proof {
            lemma_gather_step(
                vs@,
                |x: (usize, usize)| ti_part(*p, ty, iv as int, big_m as int, part, x),
                k as int,
            );
        }
        append_lines(&mut out, more);
        k = k + 1;
    }
    proof {
        assert(vs@.take(vs@.len() as int) =~= vs@);
    }
    out
}

/// The time-indexed model of `problem` with grid step `interval` and
/// horizon `big_m` after each earliest time, as the lines of an LP file
/// (`ti_lines`), with its counts; the caller writes the lines.
pub fn write_ti_lp(problem: &Problem, cost_type: DelayCostType, interval: i32, big_m: i32) -> (r: (
    Vec<String>,
    ExportStats,
))
    requires
        resources_bounded(*problem),
        ti_fits(*problem, interval, big_m),
    ensures
        texts(r.0@) == ti_lines(*problem, cost_type, interval, big_m),
        r.1 == ti_stats(*problem, cost_type, interval, big_m),
{
    let p = problem;
    let ty = cost_type;
    let iv = interval;
    let td = time_disc_of(p, iv, big_m);
    let vs = all_visits_of(p);
    let n = resource_bound(p);
    let tab = res_visits_table(p, &vs, n);
    let obj = ti_section(p, ty, iv, big_m, TiPart::Objective, &vs, &td, &tab);
    let sel = ti_section(p, ty, iv, big_m, TiPart::Selection, &vs, &td, &tab);
    let travel = ti_section(p, ty, iv, big_m, TiPart::Travel, &vs, &td, &tab);
    let resource = ti_section(p, ty, iv, big_m, TiPart::Resource, &vs, &td, &tab);
    let binary = ti_section(p, ty, iv, big_m, TiPart::Binary, &vs, &td, &tab);
    let n_travel = travel.len();
    let n_resource = resource.len();
    let n_slots = binary.len();
    let mut bodies: Vec<String> = Vec::new();
    append_lines(&mut bodies, sel);
    append_lines(&mut bodies, travel);
    append_lines(&mut bodies, resource);
    let n_constraints = bodies.len();
    let mut out: Vec<String> = Vec::new();
    push_line(&mut out, "\\ TRP MILP-TI, exported by export_lp.rs");
    let mut info = String::from_str("\\ interval=");
    push_i32(&mut info, iv);
    info.append("s, big_m_range=");
    push_i32(&mut info, big_m);
    info.append("s");
    let ghost info_text = info@;
    let ghost before = texts(out@);
    out.push(info);
    proof {
        assert(texts(out@) =~= before.push(info_text));
    }
    push_line(&mut out, "Minimize");
    push_line(&mut out, " obj:");
    append_lines(&mut out, write_terms(obj.as_slice()));
    push_line(&mut out, "Subject To");
    append_lines(&mut out, numbered_lines(&bodies));
    push_line(&mut out, "Binary");
    append_lines(&mut out, binary);
    push_line(&mut out, "End");
    proof {
        assert(info_text =~= "\\ interval="@ + decimal(iv as int) + "s, big_m_range="@ + decimal(
            big_m as int,
        ) + "s"@);
        assert(texts(out@) =~= ti_lines(*p, ty, iv, big_m));
    }
    (
        out,
        ExportStats { n_vars: n_slots, n_constraints, n_travel, n_resource, n_intervals: n_slots },
    )
}


/// Wide times as integers.
pub open spec fn wide(v: Seq<i64>) -> Seq<int> {
    v.map_values(|s: i64| s as int)
}

/// Rounding to the grid moves a time by less than one step.
proof fn lemma_round_near(t: int, iv: int)
    requires
        iv > 0,
    ensures
        t + iv / 2 - iv < round_to(t, iv) <= t + iv / 2 || t + iv / 2 <= round_to(t, iv) < t + iv / 2 + iv,
{
    let a = t + iv / 2;
    if a >= 0 {
        assert(a - iv < (a / iv) * iv <= a) by (nonlinear_arith)
            requires
                a >= 0,
                iv > 0,
        ;
    } else {
        let b = -a;
        assert(b - iv < (b / iv) * iv <= b) by (nonlinear_arith)
            requires
                b >= 0,
                iv > 0,
        ;
        assert(-((b / iv)) * iv == -((b / iv) * iv)) by (nonlinear_arith);
    }
}

/// The grid times of a visit with earliest time `e`, computed wide.
fn wide_slots(e: i32, iv: i32, big_m: i32) -> (r: Vec<i64>)
    requires
        iv > 0,
    ensures
        wide(r@) == slots_from(round_to(e as int, iv as int), e + big_m, iv as int),
        forall|k: int| 0 <= k < r@.len() ==> -0x2_0000_0000 <= #[trigger] r@[k] <= 0x2_0000_0000,
{
    let ghost lim = e + big_m;
    let ghost all = slots_from(round_to(e as int, iv as int), lim, iv as int);
    proof {
        lemma_round_near(e as int, iv as int);
    }
    let a: i64 = e as i64 + (iv / 2) as i64;
    let q: i64 = a / iv as i64;
    proof {
        assert(q == trunc_div(a as int, iv as int));
        assert(q * iv == round_to(e as int, iv as int));
    }
    let mut t: i64 = q * iv as i64;
    let lim_x: i64 = e as i64 + big_m as i64;
    let mut out: Vec<i64> = Vec::new();
    while t < lim_x
        invariant
            iv > 0,
            lim == e + big_m,
            lim_x == lim,
            all == slots_from(round_to(e as int, iv as int), lim, iv as int),
            -0x2_0000_0000 <= t <= 0x2_0000_0000,
            wide(out@) + slots_from(t as int, lim, iv as int) == all,
            forall|k: int| 0 <= k < out@.len() ==> -0x2_0000_0000 <= #[trigger] out@[k] <= 0x2_0000_0000,
        decreases if t < lim {
            lim - t
        } else {
            0
        },
    {
        proof {
            assert(slots_from(t as int, lim, iv as int) == seq![t as int] + slots_from(
                t + iv,
                lim,
                iv as int,
            ));
        }
        let ghost before = wide(out@);
        out.push(t);
        proof {
            assert(wide(out@) =~= before.push(t as int));
        }
        t = t + iv as i64;
        proof {
            assert(wide(out@) + slots_from(t as int, lim, iv as int) =~= all);
        }
    }
    proof {
        assert(slots_from(t as int, lim, iv as int) == Seq::<int>::empty());
        assert(wide(out@) =~= all);
    }
    out
}

/// The grid times of every visit, computed wide, and within bounds.
pub open spec fn wide_ok(p: Problem, td: Seq<Vec<Vec<i64>>>, iv: int, big_m: int) -> bool {
    &&& td.len() == p.trains@.len()
    &&& forall|t: int| 0 <= t < td.len() ==> (#[trigger] td[t])@.len() == p.trains@[t].visits@.len()
    &&& forall|t: int, v: int|
        0 <= t < td.len() && 0 <= v < td[t]@.len() ==> wide(#[trigger] td[t]@[v]@) == slots(
            p,
            (t as usize, v as usize),
            iv,
            big_m,
        )
    &&& forall|t: int, v: int, k: int|
        0 <= t < td.len() && 0 <= v < td[t]@.len() && 0 <= k < td[t]@[v]@.len() ==> -0x2_0000_0000
            <= #[trigger] td[t]@[v]@[k] <= 0x2_0000_0000
}

/// The grid times of every visit, computed wide.
fn wide_time_disc(p: &Problem, iv: i32, big_m: i32) -> (td: Vec<Vec<Vec<i64>>>)
    requires
        iv > 0,
    ensures
        wide_ok(*p, td@, iv as int, big_m as int),
{
    let mut td: Vec<Vec<Vec<i64>>> = Vec::new();
    let mut t: usize = 0;
    while t < p.trains.len()
        invariant
            iv > 0,
            t <= p.trains@.len(),
            td@.len() == t,
            forall|i: int| 0 <= i < t ==> (#[trigger] td@[i])@.len() == p.trains@[i].visits@.len(),
            forall|i: int, v: int|
                0 <= i < t && 0 <= v < td@[i]@.len() ==> wide(#[trigger] td@[i]@[v]@) == slots(
                    *p,
                    (i as usize, v as usize),
                    iv as int,
                    big_m as int,
                ),
            forall|i: int, v: int, k: int|
                0 <= i < t && 0 <= v < td@[i]@.len() && 0 <= k < td@[i]@[v]@.len() ==> -0x2_0000_0000
                    <= #[trigger] td@[i]@[v]@[k] <= 0x2_0000_0000,
        decreases p.trains@.len() - t,
    {
        let mut row: Vec<Vec<i64>> = Vec::new();
        let mut v: usize = 0;
        while v < p.trains[t].visits.len()
            invariant
                iv > 0,
                t < p.trains@.len(),
                v <= p.trains@[t as int].visits@.len(),
                row@.len() == v,
                forall|w: int|
                    0 <= w < v ==> wide(#[trigger] row@[w]@) == slots(
                        *p,
                        (t as usize, w as usize),
                        iv as int,
                        big_m as int,
                    ),
                forall|w: int, k: int|
                    0 <= w < v && 0 <= k < row@[w]@.len() ==> -0x2_0000_0000 <= #[trigger] row@[w]@[k]
                        <= 0x2_0000_0000,
            decreases p.trains@[t as int].visits@.len() - v,
        {
            let e = p.trains[t].visits[v].earliest;
            let ss = wide_slots(e, iv, big_m);
            row.push(ss);
            v = v + 1;
        }
        td.push(row);
        t = t + 1;
    }
    td
}

/// Whether an integer fits in `i32`.
fn fits_i32(x: i64) -> (b: bool)
    ensures
        b == fits(x as int),
{
    -0x8000_0000 <= x && x <= 0x7fff_ffff
}

/// The times of visit `x2` never overflow against visit `x1` at `a` (see
/// `pair_fits`).
fn pair_in_range(
    p: &Problem,
    td: &Vec<Vec<Vec<i64>>>,
    x1: (usize, usize),
    x2: (usize, usize),
    a: i64,
    iv: i32,
    big_m: i32,
) -> (b: bool)
    requires
        wide_ok(*p, td@, iv as int, big_m as int),
        valid_visit(*p, x1),
        valid_visit(*p, x2),
        -0x2_0000_0000 <= a <= 0x2_0000_0000,
    ensures
        b == pair_fits(*p, x1, x2, a as int, iv as int, big_m as int),
{
    let ss = &td[x2.0][x2.1];
    let ghost sv = slots(*p, x2, iv as int, big_m as int);
    proof {
        assert(wide(ss@) == sv);
        assert(sv.len() == ss@.len());
    }
    let t1 = p.trains[x1.0].visits[x1.1].travel_time as i64;
    let t2 = p.trains[x2.0].visits[x2.1].travel_time as i64;
    let mut j: usize = 0;
    while j < ss.len()
        invariant
            wide_ok(*p, td@, iv as int, big_m as int),
            valid_visit(*p, x2),
            *ss == td@[x2.0 as int]@[x2.1 as int],
            sv == slots(*p, x2, iv as int, big_m as int),
            wide(ss@) == sv,
            j <= ss@.len(),
            t1 == visit_at(*p, x1).travel_time,
            t2 == visit_at(*p, x2).travel_time,
            -0x2_0000_0000 <= a <= 0x2_0000_0000,
            forall|i: int|
                0 <= i < j ==> {
                    let b = #[trigger] sv[i];
                    &&& fits(b + t2)
                    &&& fits(b - (a + t1))
                    &&& fits(a - (b + t2))
                },
        decreases ss@.len() - j,
    {
        let b = ss[j];
        proof {
            assert(sv[j as int] == b);
            assert(-0x2_0000_0000 <= td@[x2.0 as int]@[x2.1 as int]@[j as int] <= 0x2_0000_0000);
        }
        if !(fits_i32(b + t2) && fits_i32(b - (a + t1)) && fits_i32(a - (b + t2))) {
            return false;
        }
        j = j + 1;
    }
    true
}

/// What `visit_fits` asks of visit `x` at its grid time `s`.
pub open spec fn slot_fits(p: Problem, x: (usize, usize), s: int, iv: int, big_m: int) -> bool {
    let v = visit_at(p, x);
    &&& fits(s + iv)
    &&& fits(s + v.travel_time)
    &&& delay_fits(p.trains@[x.0 as int], x.1 as int, s as i32)
    &&& forall|r: int, q: int|
        0 <= r < conf_list(p, v.resource_id).len() && 0 <= q < res_visits(
            p,
            conf_list(p, v.resource_id)[r],
        ).len() ==> pair_fits(
            p,
            x,
            #[trigger] res_visits(p, conf_list(p, v.resource_id)[r])[q],
            s,
            iv,
            big_m,
        )
}

/// What `visit_fits` asks of visit `x` at its grid time `s` (see
/// `slot_fits`).
fn slot_in_range(
    p: &Problem,
    td: &Vec<Vec<Vec<i64>>>,
    tab: &Vec<Vec<(usize, usize)>>,
    n: usize,
    confs: &Vec<usize>,
    x: (usize, usize),
    s: i64,
    iv: i32,
    big_m: i32,
) -> (b: bool)
    requires
        wide_ok(*p, td@, iv as int, big_m as int),
        valid_visit(*p, x),
        -0x2_0000_0000 <= s <= 0x2_0000_0000,
        confs@ == conf_list(*p, visit_at(*p, x).resource_id),
        tab@.len() == n,
        forall|r: int| 0 <= r < n ==> (#[trigger] tab@[r])@ == res_visits(*p, r as usize),
        forall|t: int, v: int|
            0 <= t < p.trains@.len() && 0 <= v < p.trains@[t].visits@.len() ==> (#[trigger] p.trains@[t].visits@[v]).resource_id < n,
    ensures
        b == slot_fits(*p, x, s as int, iv as int, big_m as int),
{
    let v = p.trains[x.0].visits[x.1];
    if !fits_i32(s + iv as i64) || !fits_i32(s + v.travel_time as i64) {
        return false;
    }
    let si: i32 = #[verifier::truncate] (s as i32);
    if let Some(a) = v.aimed {
        if !fits_i32(si as i64 - a as i64) {
            return false;
        }
    }
    let mut r: usize = 0;
    while r < confs.len()
        invariant
            wide_ok(*p, td@, iv as int, big_m as int),
            valid_visit(*p, x),
            v == visit_at(*p, x),
            -0x2_0000_0000 <= s <= 0x2_0000_0000,
            confs@ == conf_list(*p, v.resource_id),
            tab@.len() == n,
            forall|r: int| 0 <= r < n ==> (#[trigger] tab@[r])@ == res_visits(*p, r as usize),
            forall|t: int, v: int|
                0 <= t < p.trains@.len() && 0 <= v < p.trains@[t].visits@.len() ==> (#[trigger] p.trains@[t].visits@[v]).resource_id < n,
            r <= confs@.len(),
            forall|i: int, q: int|
                0 <= i < r && 0 <= q < res_visits(*p, confs@[i]).len() ==> pair_fits(
                    *p,
                    x,
                    #[trigger] res_visits(*p, confs@[i])[q],
                    s as int,
                    iv as int,
                    big_m as int,
                ),
        decreases confs@.len() - r,
    {
        let c = confs[r];
        if c < n {
            let xs = &tab[c];
            proof {
                lemma_res_visits_valid(*p, c, all_visits(*p).len() as int);
            }
            let mut q: usize = 0;
            while q < xs.len()
                invariant
                    wide_ok(*p, td@, iv as int, big_m as int),
                    valid_visit(*p, x),
                    -0x2_0000_0000 <= s <= 0x2_0000_0000,
                    r < confs@.len(),
                    confs@[r as int] == c,
                    confs@ == conf_list(*p, visit_at(*p, x).resource_id),
                    xs@ == res_visits(*p, c),
                    forall|i: int| 0 <= i < res_visits(*p, c).len() ==> valid_visit(*p, #[trigger] res_visits(*p, c)[i]),
                    q <= xs@.len(),
                    forall|i: int|
                        0 <= i < q ==> pair_fits(*p, x, #[trigger] res_visits(*p, c)[i], s as int, iv as int, big_m as int),
                decreases xs@.len() - q,
            {
                proof {
                    assert(valid_visit(*p, res_visits(*p, c)[q as int]));
                }
                if !pair_in_range(p, td, x, xs[q], s, iv, big_m) {
                    proof {
                        assert(xs@[q as int] == res_visits(*p, c)[q as int]);
                        let cl = conf_list(*p, visit_at(*p, x).resource_id);
                        assert(cl[r as int] == c);
                        assert(!pair_fits(*p, x, res_visits(*p, cl[r as int])[q as int], s as int, iv as int, big_m as int));
                    }
                    return false;
                }
                q = q + 1;
            }
        } else {
            proof {
                lemma_res_visits_beyond(*p, c, n as int, all_visits(*p).len() as int);
            }
        }
        r = r + 1;
    }
    true
}


/// What `ti_fits` asks of visit `x` (see `visit_fits`).
fn visit_in_range(
    p: &Problem,
    td: &Vec<Vec<Vec<i64>>>,
    tab: &Vec<Vec<(usize, usize)>>,
    n: usize,
    x: (usize, usize),
    iv: i32,
    big_m: i32,
) -> (b: bool)
    requires
        iv > 0,
        wide_ok(*p, td@, iv as int, big_m as int),
        valid_visit(*p, x),
        tab@.len() == n,
        forall|r: int| 0 <= r < n ==> (#[trigger] tab@[r])@ == res_visits(*p, r as usize),
        forall|t: int, v: int|
            0 <= t < p.trains@.len() && 0 <= v < p.trains@[t].visits@.len() ==> (#[trigger] p.trains@[t].visits@[v]).resource_id < n,
    ensures
        b == visit_fits(*p, x, iv as int, big_m as int),
{
    let v = p.trains[x.0].visits[x.1];
    let e = v.earliest as i64;
    if !fits_i32(e + (iv / 2) as i64) || !fits_i32(e + big_m as i64) {
        return false;
    }
    let confs = conf_list_of(p, v.resource_id);
    let ss = &td[x.0][x.1];
    let ghost sv = slots(*p, x, iv as int, big_m as int);
    proof {
        assert(wide(ss@) == sv);
        assert(sv.len() == ss@.len());
    }
    let mut k: usize = 0;
    while k < ss.len()
        invariant
            iv > 0,
            wide_ok(*p, td@, iv as int, big_m as int),
            valid_visit(*p, x),
            v == visit_at(*p, x),
            fits(v.earliest + iv / 2),
            fits(v.earliest + big_m),
            confs@ == conf_list(*p, v.resource_id),
            *ss == td@[x.0 as int]@[x.1 as int],
            sv == slots(*p, x, iv as int, big_m as int),
            wide(ss@) == sv,
            tab@.len() == n,
            forall|r: int| 0 <= r < n ==> (#[trigger] tab@[r])@ == res_visits(*p, r as usize),
            forall|t: int, v: int|
                0 <= t < p.trains@.len() && 0 <= v < p.trains@[t].visits@.len() ==> (#[trigger] p.trains@[t].visits@[v]).resource_id < n,
            k <= ss@.len(),
            forall|j: int| 0 <= j < k ==> slot_fits(*p, x, #[trigger] sv[j], iv as int, big_m as int),
        decreases ss@.len() - k,
    {
        proof {
            assert(sv[k as int] == ss@[k as int]);
            assert(-0x2_0000_0000 <= td@[x.0 as int]@[x.1 as int]@[k as int] <= 0x2_0000_0000);
        }
        if !slot_in_range(p, td, tab, n, &confs, x, ss[k], iv, big_m) {
            return false;
        }
        k = k + 1;
    }
    proof {
        assert forall|j: int| 0 <= j < sv.len() implies {
            let s = #[trigger] sv[j];
            &&& fits(s + iv)
            &&& fits(s + v.travel_time)
            &&& delay_fits(p.trains@[x.0 as int], x.1 as int, s as i32)
            &&& forall|r: int, q: int|
                0 <= r < conf_list(*p, v.resource_id).len() && 0 <= q < res_visits(
                    *p,
                    conf_list(*p, v.resource_id)[r],
                ).len() ==> pair_fits(
                    *p,
                    x,
                    #[trigger] res_visits(*p, conf_list(*p, v.resource_id)[r])[q],
                    s,
                    iv as int,
                    big_m as int,
                )
        } by {
            assert(slot_fits(*p, x, sv[j], iv as int, big_m as int));
        }
    }
    true
}

/// Whether the arithmetic of the time-indexed model fits in `i32` (see
/// `ti_fits`).
pub fn ti_in_range(p: &Problem, iv: i32, big_m: i32) -> (b: bool)
    requires
        resources_bounded(*p),
    ensures
        b == ti_fits(*p, iv, big_m),
{
    if iv <= 0 {
        return false;
    }
    let vs = all_visits_of(p);
    proof {
        lemma_all_visits_valid(*p);
    }
    // The grids are built only where every visit's grid ends within range.
    let mut k: usize = 0;
    while k < vs.len()
        invariant
            vs@ == all_visits(*p),
            forall|j: int|
                0 <= j < all_visits(*p).len() ==> (#[trigger] all_visits(*p)[j]).0 < p.trains@.len()
                    && all_visits(*p)[j].1 < p.trains@[all_visits(*p)[j].0 as int].visits@.len(),
            k <= vs@.len(),
        decreases vs@.len() - k,
    {
        let x = vs[k];
        let e = p.trains[x.0].visits[x.1].earliest as i64;
        if !fits_i32(e + (iv / 2) as i64) || !fits_i32(e + big_m as i64) {
            proof {
                assert(all_visits(*p)[k as int] == x);
                assert(!visit_fits(*p, all_visits(*p)[k as int], iv as int, big_m as int));
            }
            return false;
        }
        k = k + 1;
    }
    let td = wide_time_disc(p, iv, big_m);
    let n = resource_bound(p);
    let tab = res_visits_table(p, &vs, n);
    let mut k: usize = 0;
    while k < vs.len()
        invariant
            iv > 0,
            wide_ok(*p, td@, iv as int, big_m as int),
            vs@ == all_visits(*p),
            forall|j: int|
                0 <= j < all_visits(*p).len() ==> (#[trigger] all_visits(*p)[j]).0 < p.trains@.len()
                    && all_visits(*p)[j].1 < p.trains@[all_visits(*p)[j].0 as int].visits@.len(),
            tab@.len() == n,
            forall|r: int| 0 <= r < n ==> (#[trigger] tab@[r])@ == res_visits(*p, r as usize),
            forall|t: int, v: int|
                0 <= t < p.trains@.len() && 0 <= v < p.trains@[t].visits@.len() ==> (#[trigger] p.trains@[t].visits@[v]).resource_id < n,
            k <= vs@.len(),
            forall|j: int| 0 <= j < k ==> visit_fits(*p, #[trigger] all_visits(*p)[j], iv as int, big_m as int),
        decreases vs@.len() - k,
    {
        let x = vs[k];
        proof {
            assert(all_visits(*p)[k as int] == x);
            assert(valid_visit(*p, x));
        }
        if !visit_in_range(p, &td, &tab, n, x, iv, big_m) {
            return false;
        }
        k = k + 1;
    }
    true
}

} // verus!
