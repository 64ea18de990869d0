//! The problem as an OPL model and its data, for a constraint solver.
use vstd::prelude::*;
use vstd::string::*;
use crate::export_lp::{
    all_visits, all_visits_of, lemma_all_visits_valid, lemma_visits_of_trains_grow,
    lemma_visits_of_trains_index, resource_bound, resources_bounded, visit_at, visits_of_trains,
};
use crate::export_lp::{push_line, texts};
use crate::problem::{delay_cost_spec, thresholds_eval, DelayCostThresholds, DelayCostType, Problem, finite_table, infinite_interval};
use crate::text::{decimal, push_decimal_i64, push_decimal_u64};

verus! {

/// The texts that `f` gives for `0..n`, one after the other.
pub open spec fn cat_upto(n: int, f: spec_fn(int) -> Seq<char>) -> Seq<char>
    decreases n,
{
    if n <= 0 {
        seq![]
    } else {
        cat_upto(n - 1, f) + f(n - 1)
    }
}

/// Item `i` of an array of numbers: after a comma but for the first, and
/// on a new line after every twenty.
pub open spec fn array_item(i: int, value: int) -> Seq<char> {
    (if i > 0 {
        ", "@
    } else {
        ""@
    }) + (if i % 20 == 0 && i > 0 {
        "\n  "@
    } else {
        ""@
    }) + decimal(value)
}

/// The number of a visit that an array of the data lists.
#[derive(Clone, Copy, Debug, PartialEq, Eq, Structural)]
pub enum VisitField {
    TravelTime,
    Earliest,
    Aimed,
}

/// The value of a visit that an array lists: its travel time, its earliest
/// time, or its aimed time (0 for none).
pub open spec fn field_value(p: Problem, x: (usize, usize), f: VisitField) -> int {
    match f {
        VisitField::TravelTime => visit_at(p, x).travel_time as int,
        VisitField::Earliest => visit_at(p, x).earliest as int,
        VisitField::Aimed => match visit_at(p, x).aimed {
            Some(a) => a as int,
            None => 0,
        },
    }
}

/// The items of the array of a field over all visits.
pub open spec fn array_text(p: Problem, f: VisitField) -> Seq<char> {
    cat_upto(
        all_visits(p).len() as int,
        |i: int| array_item(i, field_value(p, all_visits(p)[i], f)),
    )
}

/// Item `j` of a list joined by `, `.
pub open spec fn list_item(j: int, value: Seq<char>) -> Seq<char> {
    (if j > 0 {
        ", "@
    } else {
        ""@
    }) + value
}

/// The 1-based numbers of the first `k` visits that have an aimed time.
pub open spec fn aimed_upto(p: Problem, k: int) -> Seq<int>
    decreases k,
{
    if k <= 0 {
        seq![]
    } else {
        aimed_upto(p, k - 1) + if visit_at(p, all_visits(p)[k - 1]).aimed is Some {
            seq![k]
        } else {
            seq![]
        }
    }
}

/// The visits of one train follow each other: the arcs `<i, i + 1>` (1-based)
/// for each of the first `k` visits that is not its train's last.
pub open spec fn arcs_upto(p: Problem, k: int) -> Seq<int>
    decreases k,
{
    if k <= 0 {
        seq![]
    } else {
        let x = all_visits(p)[k - 1];
        arcs_upto(p, k - 1) + if x.1 + 1 < p.trains@[x.0 as int].visits@.len() {
            seq![k]
        } else {
            seq![]
        }
    }
}

/// The 1-based numbers of the first `k` visits that use resource `r`.
pub open spec fn on_resource_upto(p: Problem, r: usize, k: int) -> Seq<int>
    decreases k,
{
    if k <= 0 {
        seq![]
    } else {
        on_resource_upto(p, r, k - 1) + if visit_at(p, all_visits(p)[k - 1]).resource_id == r {
            seq![k]
        } else {
            seq![]
        }
    }
}

/// The 1-based numbers of the visits that use resource `r`.
pub open spec fn on_resource(p: Problem, r: usize) -> Seq<int> {
    on_resource_upto(p, r, all_visits(p).len() as int)
}

/// The resources below `n` that exclude themselves and are used by two
/// visits or more, in increasing order.
pub open spec fn groups_upto(p: Problem, n: int) -> Seq<usize>
    decreases n,
{
    if n <= 0 {
        seq![]
    } else {
        let r = (n - 1) as usize;
        groups_upto(p, n - 1) + if p.conflicts@.contains((r, r)) && on_resource(p, r).len() >= 2 {
            seq![r]
        } else {
            seq![]
        }
    }
}

/// A group of visits, as `{a, b, ...}`.
pub open spec fn group_text(vs: Seq<int>) -> Seq<char> {
    "  {"@ + cat_upto(vs.len() as int, |j: int| list_item(j, decimal(vs[j])))
}

/// One more than the largest resource among the first `k` visits (0 for none).
pub open spec fn resource_count_upto(p: Problem, k: int) -> int
    decreases k,
{
    if k <= 0 {
        0
    } else {
        let prev = resource_count_upto(p, k - 1);
        let r = visit_at(p, all_visits(p)[k - 1]).resource_id + 1;
        if r > prev {
            r
        } else {
            prev
        }
    }
}

/// One more than the largest resource that a visit uses (0 for none).
pub open spec fn resource_count(p: Problem) -> int {
    resource_count_upto(p, all_visits(p).len() as int)
}

/// The data of the problem for the OPL model: the visits numbered from 1,
/// train by train, with their travel, earliest and aimed times (0 for none);
/// the visits with an aimed time; the arcs from each visit to the next of
/// its train; and, for each resource that excludes itself and that two
/// visits or more use (in increasing order), the group of those visits.
pub open spec fn opl_dat_text(p: Problem) -> Seq<char> {
    let vs = all_visits(p);
    let nv = vs.len() as int;
    let aimed = aimed_upto(p, nv);
    let arcs = arcs_upto(p, nv);
    let groups = groups_upto(p, resource_count(p));
    "// TRP instance data, exported by export_opl.rs\n"@ + "\n"@ + "nVisits = "@ + decimal(nv)
        + ";\n"@ + "travelTime = ["@ + array_text(p, VisitField::TravelTime) + "];\n"@
        + "earliest = ["@ + array_text(p, VisitField::Earliest) + "];\n"@ + "aimed = ["@
        + array_text(p, VisitField::Aimed) + "];\n"@ + "\n"@ + "VisitsWithAimed = {"@ + cat_upto(
        aimed.len() as int,
        |j: int| list_item(j, decimal(aimed[j])),
    ) + "};\n"@ + "\n"@ + "// Precedence within train: visit i \u{2192} visit i+1\n"@
        + "PrecArcs = {"@ + cat_upto(
        arcs.len() as int,
        |j: int| list_item(j, "<"@ + decimal(arcs[j]) + ", "@ + decimal(arcs[j] + 1) + ">"@),
    ) + "};\n"@ + "\n"@ + "// Disjunctive resource groups (one noOverlap each)\n"@
        + "nResourceGroups = "@ + decimal(groups.len() as int) + ";\n"@ + "VisitsOnResource = [\n"@
        + cat_upto(
        groups.len() as int,
        |g: int|
            group_text(on_resource(p, groups[g])) + if g + 1 < groups.len() {
                "},\n"@
            } else {
                "}\n"@
            },
    ) + "];\n"@
}

/// Concatenating one text more.
proof fn lemma_cat_step(n: int, f: spec_fn(int) -> Seq<char>)
    requires
        0 <= n,
    ensures
        cat_upto(n + 1, f) == cat_upto(n, f) + f(n),
{
}

/// Appends the decimal form of a count.
fn push_count(s: &mut String, n: usize)
    ensures
        final(s)@ == old(s)@ + decimal(n as int),
{
    push_decimal_u64(s, n as u64);
    proof {
        assert(decimal(n as int) == crate::text::decimal_nat(n as nat));
    }
}

/// Appends the decimal form of an `i32`.
fn push_int(s: &mut String, n: i32)
    ensures
        final(s)@ == old(s)@ + decimal(n as int),
{
    push_decimal_i64(s, n as i64);
}

/// Appends the array of a field over all visits.
fn push_array(out: &mut String, p: &Problem, vs: &Vec<(usize, usize)>, f: VisitField)
    requires
        vs@ == all_visits(*p),
    ensures
        final(out)@ == old(out)@ + array_text(*p, f),
{
    proof {
        lemma_all_visits_valid(*p);
    }
    let ghost o0 = out@;
    let mut i: usize = 0;
    while i < vs.len()
        invariant
            vs@ == all_visits(*p),
            forall|j: int|
                0 <= j < all_visits(*p).len() ==> (#[trigger] all_visits(*p)[j]).0 < p.trains@.len()
                    && all_visits(*p)[j].1 < p.trains@[all_visits(*p)[j].0 as int].visits@.len(),
            i <= vs@.len(),
            out@ == o0 + cat_upto(i as int, |j: int| array_item(j, field_value(*p, all_visits(*p)[j], f))),
        decreases vs@.len() - i,
    {
        let ghost before = out@;
        let x = vs[i];
        let visit = p.trains[x.0].visits[x.1];
        let value: i32 = match f {
            VisitField::TravelTime => visit.travel_time,
            VisitField::Earliest => visit.earliest,
            VisitField::Aimed => match visit.aimed {
                Some(a) => a,
                None => 0,
            },
        };
        if i > 0 {
            out.append(", ");
        }
        if i % 20 == 0 && i > 0 {
            out.append("\n  ");
        }
        push_int(out, value);
        proof {
            assert(value as int == field_value(*p, all_visits(*p)[i as int], f));
            lemma_cat_step(i as int, |j: int| array_item(j, field_value(*p, all_visits(*p)[j], f)));
            reveal_strlit("");
            assert(out@ =~= before + array_item(i as int, value as int));
            assert(out@ =~= o0 + cat_upto(i + 1, |j: int| array_item(j, field_value(*p, all_visits(*p)[j], f))));
        }
        i = i + 1;
    }
}

/// Counts as integers.
pub open spec fn nums(v: Seq<usize>) -> Seq<int> {
    v.map_values(|x: usize| x as int)
}

/// The 1-based numbers of the visits with an aimed time.
fn aimed_list_of(p: &Problem, vs: &Vec<(usize, usize)>) -> (r: Vec<usize>)
    requires
        vs@ == all_visits(*p),
    ensures
        nums(r@) == aimed_upto(*p, vs@.len() as int),
{
    proof {
        lemma_all_visits_valid(*p);
    }
    let mut out: Vec<usize> = Vec::new();
    let mut k: usize = 0;
    while k < vs.len()
        invariant
            vs@ == all_visits(*p),
            forall|j: int|
                0 <= j < all_visits(*p).len() ==> (#[trigger] all_visits(*p)[j]).0 < p.trains@.len()
                    && all_visits(*p)[j].1 < p.trains@[all_visits(*p)[j].0 as int].visits@.len(),
            k <= vs@.len(),
            nums(out@) == aimed_upto(*p, k as int),
        decreases vs@.len() - k,
    {
        let x = vs[k];
        let ghost before = nums(out@);
        if p.trains[x.0].visits[x.1].aimed.is_some() {
            out.push(k + 1);
        }
        proof {
            assert(nums(out@) =~= aimed_upto(*p, k + 1));
        }
        k = k + 1;
    }
    out
}

/// The 1-based numbers of the visits that are not their train's last.
fn arcs_list_of(p: &Problem, vs: &Vec<(usize, usize)>) -> (r: Vec<usize>)
    requires
        vs@ == all_visits(*p),
    ensures
        nums(r@) == arcs_upto(*p, vs@.len() as int),
        forall|j: int| 0 <= j < r@.len() ==> #[trigger] r@[j] < vs@.len(),
{
    proof {
        lemma_all_visits_valid(*p);
    }
    let mut out: Vec<usize> = Vec::new();
    let mut k: usize = 0;
    while k < vs.len()
        invariant
            vs@ == all_visits(*p),
            forall|j: int|
                0 <= j < all_visits(*p).len() ==> (#[trigger] all_visits(*p)[j]).0 < p.trains@.len()
                    && all_visits(*p)[j].1 < p.trains@[all_visits(*p)[j].0 as int].visits@.len(),
            k <= vs@.len(),
            nums(out@) == arcs_upto(*p, k as int),
            forall|j: int| 0 <= j < out@.len() ==> #[trigger] out@[j] < vs@.len(),
        decreases vs@.len() - k,
    {
        let x = vs[k];
        let nv = p.trains[x.0].visits.len();
        let ghost before = out@;
        if x.1 + 1 < nv {
            proof {
                lemma_visits_of_trains_index(*p, p.trains@.len() as int, k as int);
                lemma_visits_of_trains_grow(*p, x.0 + 1, p.trains@.len() as int);
            }
            out.push(k + 1);
            proof {
                assert forall|j: int| 0 <= j < out@.len() implies #[trigger] out@[j] < vs@.len() by {
                    if j < before.len() {
                        assert(out@[j] == before[j]);
                    }
                }
            }
        }
        proof {
            assert(nums(out@) =~= arcs_upto(*p, k + 1));
        }
        k = k + 1;
    }
    out
}

/// The 1-based numbers of the visits on each resource below `n`.
fn on_resource_table(p: &Problem, vs: &Vec<(usize, usize)>, n: usize) -> (tab: Vec<Vec<usize>>)
    requires
        vs@ == all_visits(*p),
        forall|t: int, v: int|
            0 <= t < p.trains@.len() && 0 <= v < p.trains@[t].visits@.len() ==> (#[trigger] p.trains@[t].visits@[v]).resource_id < n,
    ensures
        tab@.len() == n,
        forall|r: int| 0 <= r < n ==> nums((#[trigger] tab@[r])@) == on_resource(*p, r as usize),
{
    proof {
        lemma_all_visits_valid(*p);
    }
    let mut tab: Vec<Vec<usize>> = Vec::new();
    let mut r: usize = 0;
    while r < n
        invariant
            r <= n,
            tab@.len() == r,
            forall|q: int| 0 <= q < r ==> (#[trigger] tab@[q])@ == Seq::<usize>::empty(),
        decreases n - r,
    {
        tab.push(Vec::new());
        r = r + 1;
    }
    proof {
        assert forall|q: int| 0 <= q < n implies nums((#[trigger] tab@[q])@) == on_resource_upto(*p, q as usize, 0) by {
            assert(nums(tab@[q]@) =~= Seq::<int>::empty());
        }
    }
    let mut k: usize = 0;
    while k < vs.len()
        invariant
            vs@ == all_visits(*p),
            forall|j: int|
                0 <= j < all_visits(*p).len() ==> (#[trigger] all_visits(*p)[j]).0 < p.trains@.len()
                    && all_visits(*p)[j].1 < p.trains@[all_visits(*p)[j].0 as int].visits@.len(),
            forall|t: int, v: int|
                0 <= t < p.trains@.len() && 0 <= v < p.trains@[t].visits@.len() ==> (#[trigger] p.trains@[t].visits@[v]).resource_id < n,
            k <= vs@.len(),
            tab@.len() == n,
            forall|q: int| 0 <= q < n ==> nums((#[trigger] tab@[q])@) == on_resource_upto(*p, q as usize, k as int),
        decreases vs@.len() - k,
    {
        let x = vs[k];
        let res = p.trains[x.0].visits[x.1].resource_id;
        let ghost old_tab = tab@;
        tab[res].push(k + 1);
        proof {
            assert forall|q: int| 0 <= q < n implies nums((#[trigger] tab@[q])@) == on_resource_upto(
                *p,
                q as usize,
                k + 1,
            ) by {
                assert(all_visits(*p)[k as int] == x);
                if q != res {
                    assert(tab@[q] == old_tab[q]);
                } else {
                    assert(nums(tab@[q]@) =~= nums(old_tab[q]@).push(k + 1));
                }
            }
        }
        k = k + 1;
    }
    tab
}

/// Whether `(r, r)` is among the conflicts.
fn excludes_itself(p: &Problem, r: usize) -> (b: bool)
    ensures
        b == p.conflicts@.contains((r, r)),
{
    let mut k: usize = 0;
    while k < p.conflicts.len()
        invariant
            k <= p.conflicts@.len(),
            forall|j: int| 0 <= j < k ==> p.conflicts@[j] != (r, r),
        decreases p.conflicts@.len() - k,
    {
        let (a, b) = p.conflicts[k];
        if a == r && b == r {
            proof {
                assert(p.conflicts@[k as int] == (r, r));
            }
            return true;
        }
        k = k + 1;
    }
    false
}

/// The resources below `n` that exclude themselves and that two visits or
/// more use.
fn groups_of(p: &Problem, tab: &Vec<Vec<usize>>) -> (g: Vec<usize>)
    requires
        forall|r: int| 0 <= r < tab@.len() ==> nums((#[trigger] tab@[r])@) == on_resource(*p, r as usize),
    ensures
        g@ == groups_upto(*p, tab@.len() as int),
{
    let mut out: Vec<usize> = Vec::new();
    let mut r: usize = 0;
    while r < tab.len()
        invariant
            forall|q: int| 0 <= q < tab@.len() ==> nums((#[trigger] tab@[q])@) == on_resource(*p, q as usize),
            r <= tab@.len(),
            out@ == groups_upto(*p, r as int),
        decreases tab@.len() - r,
    {
        proof {
            assert(nums(tab@[r as int]@).len() == tab@[r as int]@.len());
        }
        if excludes_itself(p, r) && tab[r].len() >= 2 {
            out.push(r);
        }
        proof {
            assert(out@ =~= groups_upto(*p, r + 1));
        }
        r = r + 1;
    }
    out
}

/// Appends a list of numbers joined by `, `.
fn push_list(out: &mut String, vals: &Vec<usize>)
    ensures
        final(out)@ == old(out)@ + cat_upto(vals@.len() as int, |j: int| list_item(j, decimal(nums(vals@)[j]))),
{
    let ghost o0 = out@;
    let mut j: usize = 0;
    while j < vals.len()
        invariant
            j <= vals@.len(),
            out@ == o0 + cat_upto(j as int, |q: int| list_item(q, decimal(nums(vals@)[q]))),
        decreases vals@.len() - j,
    {
        let ghost before = out@;
        if j > 0 {
            out.append(", ");
        }
        push_count(out, vals[j]);
        proof {
            reveal_strlit("");
            lemma_cat_step(j as int, |q: int| list_item(q, decimal(nums(vals@)[q])));
            assert(out@ =~= before + list_item(j as int, decimal(nums(vals@)[j as int])));
            assert(out@ =~= o0 + cat_upto(j + 1, |q: int| list_item(q, decimal(nums(vals@)[q]))));
        }
        j = j + 1;
    }
}

/// Appends the arcs `<a, a + 1>` joined by `, `.
fn push_arcs(out: &mut String, arcs: &Vec<usize>, nv: usize)
    requires
        forall|j: int| 0 <= j < arcs@.len() ==> #[trigger] arcs@[j] < nv,
    ensures
        final(out)@ == old(out)@ + cat_upto(
            arcs@.len() as int,
            |j: int| list_item(j, "<"@ + decimal(nums(arcs@)[j]) + ", "@ + decimal(nums(arcs@)[j] + 1) + ">"@),
        ),
{
    let ghost o0 = out@;
    let mut j: usize = 0;
    while j < arcs.len()
        invariant
            forall|q: int| 0 <= q < arcs@.len() ==> #[trigger] arcs@[q] < nv,
            j <= arcs@.len(),
            out@ == o0 + cat_upto(
                j as int,
                |q: int| list_item(q, "<"@ + decimal(nums(arcs@)[q]) + ", "@ + decimal(nums(arcs@)[q] + 1) + ">"@),
            ),
        decreases arcs@.len() - j,
    {
        let ghost before = out@;
        if j > 0 {
            out.append(", ");
        }
        out.append("<");
        push_count(out, arcs[j]);
        out.append(", ");
        push_count(out, arcs[j] + 1);
        out.append(">");
        proof {
            reveal_strlit("");
            lemma_cat_step(
                j as int,
                |q: int| list_item(q, "<"@ + decimal(nums(arcs@)[q]) + ", "@ + decimal(nums(arcs@)[q] + 1) + ">"@),
            );
            assert(out@ =~= before + list_item(
                j as int,
                "<"@ + decimal(nums(arcs@)[j as int]) + ", "@ + decimal(nums(arcs@)[j as int] + 1) + ">"@,
            ));
        }
        j = j + 1;
    }
}

/// Every visit's resource is below the resource count.
proof fn lemma_resource_count_above(p: Problem, k: int)
    requires
        0 <= k <= all_visits(p).len(),
    ensures
        forall|j: int| 0 <= j < k ==> visit_at(p, #[trigger] all_visits(p)[j]).resource_id < resource_count_upto(p, k),
    decreases k,
{
    if k > 0 {
        lemma_resource_count_above(p, k - 1);
    }
}

/// The resource count is at most any bound of every visit's resource.
proof fn lemma_resource_count(p: Problem, n: int, k: int)
    requires
        0 <= k <= all_visits(p).len(),
        forall|t: int, v: int|
            0 <= t < p.trains@.len() && 0 <= v < p.trains@[t].visits@.len() ==> (#[trigger] p.trains@[t].visits@[v]).resource_id < n,
        0 <= n,
    ensures
        resource_count_upto(p, k) <= n,
    decreases k,
{
    if k > 0 {
        lemma_resource_count(p, n, k - 1);
        lemma_all_visits_valid(p);
        let x = all_visits(p)[k - 1];
        assert(visit_at(p, x).resource_id < n);
    }
}

/// No visit among the first `k` uses a resource at or beyond the count.
proof fn lemma_on_resource_none(p: Problem, r: usize, k: int)
    requires
        0 <= k <= all_visits(p).len(),
        forall|j: int| 0 <= j < k ==> visit_at(p, #[trigger] all_visits(p)[j]).resource_id != r,
    ensures
        on_resource_upto(p, r, k) == Seq::<int>::empty(),
    decreases k,
{
    if k > 0 {
        lemma_on_resource_none(p, r, k - 1);
    }
}

/// Groups are only found below the resource count.
proof fn lemma_groups_beyond(p: Problem, n: int)
    requires
        resource_count(p) <= n <= usize::MAX,
    ensures
        groups_upto(p, n) == groups_upto(p, resource_count(p)),
    decreases n,
{
    if n > resource_count(p) {
        lemma_groups_beyond(p, n - 1);
        let r = (n - 1) as usize;
        lemma_resource_count_above(p, all_visits(p).len() as int);
        lemma_on_resource_none(p, r, all_visits(p).len() as int);
    }
}

/// Appends the groups of visits, one per line.
fn push_groups(out: &mut String, groups: &Vec<usize>, tab: &Vec<Vec<usize>>, ghost_p: &Problem)
    requires
        forall|g: int| 0 <= g < groups@.len() ==> #[trigger] groups@[g] < tab@.len(),
        forall|r: int| 0 <= r < tab@.len() ==> nums((#[trigger] tab@[r])@) == on_resource(*ghost_p, r as usize),
    ensures
        final(out)@ == old(out)@ + cat_upto(
            groups@.len() as int,
            |g: int|
                group_text(on_resource(*ghost_p, groups@[g])) + if g + 1 < groups@.len() {
                    "},\n"@
                } else {
                    "}\n"@
                },
        ),
{
    let ghost o0 = out@;
    let ghost f = |g: int|
        group_text(on_resource(*ghost_p, groups@[g])) + if g + 1 < groups@.len() {
            "},\n"@
        } else {
            "}\n"@
        };
    let mut g: usize = 0;
    while g < groups.len()
        invariant
            forall|q: int| 0 <= q < groups@.len() ==> #[trigger] groups@[q] < tab@.len(),
            forall|r: int| 0 <= r < tab@.len() ==> nums((#[trigger] tab@[r])@) == on_resource(*ghost_p, r as usize),
            g <= groups@.len(),
            out@ == o0 + cat_upto(
                g as int,
                |q: int|
                    group_text(on_resource(*ghost_p, groups@[q])) + if q + 1 < groups@.len() {
                        "},\n"@
                    } else {
                        "}\n"@
                    },
            ),
        decreases groups@.len() - g,
    {
        let ghost before = out@;
        let r = groups[g];
        let vals = &tab[r];
        out.append("  {");
        push_list(out, vals);
        if g + 1 < groups.len() {
            out.append("},\n");
        } else {
            out.append("}\n");
        }
        proof {
            assert(nums(vals@) == on_resource(*ghost_p, groups@[g as int]));
            lemma_cat_step(
                g as int,
                |q: int|
                    group_text(on_resource(*ghost_p, groups@[q])) + if q + 1 < groups@.len() {
                        "},\n"@
                    } else {
                        "}\n"@
                    },
            );
            assert(out@ =~= o0 + cat_upto(
                g + 1,
                |q: int|
                    group_text(on_resource(*ghost_p, groups@[q])) + if q + 1 < groups@.len() {
                        "},\n"@
                    } else {
                        "}\n"@
                    },
            ));
        }
        g = g + 1;
    }
}

/// The data of the problem for the OPL model, as `opl_dat_text` says; the
/// caller writes it.
pub fn write_opl_dat(problem: &Problem) -> (r: String)
    requires
        resources_bounded(*problem),
    ensures
        r@ == opl_dat_text(*problem),
{
    let p = problem;
    let vs = all_visits_of(p);
    let nv = vs.len();
    let aimed = aimed_list_of(p, &vs);
    let arcs = arcs_list_of(p, &vs);
    let n = resource_bound(p);
    let tab = on_resource_table(p, &vs, n);
    let groups = groups_of(p, &tab);
    proof {
        lemma_resource_count(*p, n as int, all_visits(*p).len() as int);
        lemma_groups_beyond(*p, n as int);
        assert(groups@ == groups_upto(*p, resource_count(*p)));
        assert forall|g: int| 0 <= g < groups@.len() implies #[trigger] groups@[g] < tab@.len() by {
            lemma_groups_below(*p, n as int, g);
        }
    }
    let mut out = String::from_str("// TRP instance data, exported by export_opl.rs\n");
    out.append("\n");
    out.append("nVisits = ");
    push_count(&mut out, nv);
    out.append(";\n");
    out.append("travelTime = [");
    push_array(&mut out, p, &vs, VisitField::TravelTime);
    out.append("];\n");
    out.append("earliest = [");
    push_array(&mut out, p, &vs, VisitField::Earliest);
    out.append("];\n");
    out.append("aimed = [");
    push_array(&mut out, p, &vs, VisitField::Aimed);
    out.append("];\n");
    out.append("\n");
    out.append("VisitsWithAimed = {");
    push_list(&mut out, &aimed);
    out.append("};\n");
    out.append("\n");
    out.append("// Precedence within train: visit i \u{2192} visit i+1\n");
    out.append("PrecArcs = {");
    push_arcs(&mut out, &arcs, nv);
    out.append("};\n");
    out.append("\n");
    out.append("// Disjunctive resource groups (one noOverlap each)\n");
    out.append("nResourceGroups = ");
    push_count(&mut out, groups.len());
    out.append(";\n");
    out.append("VisitsOnResource = [\n");
    push_groups(&mut out, &groups, &tab, p);
    out.append("];\n");
    proof {
        assert(out@ =~= opl_dat_text(*p));
    }
    out
}

/// The groups found below `n` are resources below `n`.
proof fn lemma_groups_below(p: Problem, n: int, g: int)
    requires
        0 <= g < groups_upto(p, n).len(),
    ensures
        groups_upto(p, n)[g] < n,
    decreases n,
{
    if n > 0 {
        let prev = groups_upto(p, n - 1);
        if g < prev.len() {
            lemma_groups_below(p, n - 1, g);
            assert(groups_upto(p, n)[g] == prev[g]);
        }
    }
}

/// The name of a delay cost type.
pub open spec fn cost_type_name(ty: DelayCostType) -> Seq<char> {
    match ty {
        DelayCostType::FiniteSteps1_3Min => "FiniteSteps1_3Min"@,
        DelayCostType::FiniteSteps1_5Min => "FiniteSteps1_5Min"@,
        DelayCostType::FiniteSteps123 => "FiniteSteps123"@,
        DelayCostType::FiniteSteps12345 => "FiniteSteps12345"@,
        DelayCostType::FiniteSteps139 => "FiniteSteps139"@,
        DelayCostType::InfiniteSteps60 => "InfiniteSteps60"@,
        DelayCostType::InfiniteSteps180 => "InfiniteSteps180"@,
        DelayCostType::InfiniteSteps360 => "InfiniteSteps360"@,
        DelayCostType::Continuous => "Continuous"@,
    }
}

/// The largest cost of one visit under a cost type, within the horizon.
pub open spec fn cost_upper(ty: DelayCostType) -> int {
    match ty {
        DelayCostType::Continuous => 43200int,
        DelayCostType::InfiniteSteps60 => 43200int / 60 + 1,
        DelayCostType::InfiniteSteps180 => 43200int / 180 + 1,
        DelayCostType::InfiniteSteps360 => 43200int / 360 + 1,
        DelayCostType::FiniteSteps1_3Min => 1,
        DelayCostType::FiniteSteps1_5Min => 1,
        DelayCostType::FiniteSteps123 => 3,
        DelayCostType::FiniteSteps12345 => 5,
        DelayCostType::FiniteSteps139 => 9,
    }
}

/// The constraints that bind a visit's cost to its delay: the cost is the
/// delay, the number of steps begun, or at least the cost of each
/// threshold that the delay exceeds.
pub open spec fn binding_lines(ty: DelayCostType) -> Seq<Seq<char>> {
    match finite_table(ty) {
        Some(th) => cat_lines(
            th.len() as int,
            |i: int|
                seq![
                    "  forall(i in VisitsWithAimed)"@,
                    "    (delay[i] > "@ + decimal(th[i].0 as int) + ") => (cost[i] >= "@ + decimal(
                        th[i].1 as int,
                    ) + ");"@,
                ],
        ),
        None => match infinite_interval(ty) {
            Some(iv) => seq![
                "  forall(i in VisitsWithAimed)"@,
                "    cost[i] * "@ + decimal(iv as int) + " >= delay[i];"@,
            ],
            None => seq!["  forall(i in VisitsWithAimed)"@, "    cost[i] >= delay[i];"@],
        },
    }
}

/// The lines that `f` gives for `0..n`, one after the other.
pub open spec fn cat_lines(n: int, f: spec_fn(int) -> Seq<Seq<char>>) -> Seq<Seq<char>>
    decreases n,
{
    if n <= 0 {
        seq![]
    } else {
        cat_lines(n - 1, f) + f(n - 1)
    }
}

/// The OPL model for a cost type, as lines: the solver's parameters (its
/// number of workers and its time limit), the data it reads, an interval
/// per visit within the horizon, a delay and a cost per visit with an aimed
/// time, the sum of the costs to minimize, and the constraints that bind
/// the costs, keep each train's visits in order and keep the visits of a
/// resource group from overlapping.
pub open spec fn opl_mod_lines(ty: DelayCostType, time_limit: i32, workers: i32) -> Seq<Seq<char>> {
    opl_mod_part1(ty, time_limit, workers) + opl_mod_part2(ty, time_limit, workers) + opl_mod_part3(ty, time_limit, workers) + opl_mod_part4(ty, time_limit, workers) + opl_mod_part5(ty, time_limit, workers) + binding_lines(ty) + opl_mod_part6(ty, time_limit, workers) + opl_mod_part7(ty, time_limit, workers)
}

/// Part 1 of the OPL model's text, in runs of up to twelve lines (the
/// cost binding lies between the fifth and the sixth).
pub open spec fn opl_mod_part1(ty: DelayCostType, time_limit: i32, workers: i32) -> Seq<Seq<char>> {
    seq![
        "// TRP CP Model, exported by export_opl.rs"@,
        "// Cost type: "@ + cost_type_name(ty),
        ""@,
        "using CP;"@,
        ""@,
        "// CP Optimizer parameters (set before solve)"@,
        "execute SETTINGS {"@,
        "  cp.param.Workers = "@ + decimal(workers as int) + ";"@,
        "  cp.param.TimeLimit = "@ + decimal(time_limit as int) + ";"@,
        "  cp.param.OptimalityTolerance = 0.001;"@,
        "  // Stronger inference for scheduling propagation"@,
        "  cp.param.NoOverlapInferenceLevel = \"Extended\";"@,
    ]
}

/// Part 2 of the OPL model's text, in runs of up to twelve lines (the
/// cost binding lies between the fifth and the sixth).
pub open spec fn opl_mod_part2(ty: DelayCostType, time_limit: i32, workers: i32) -> Seq<Seq<char>> {
    seq![
        "  cp.param.PrecedenceInferenceLevel = \"Extended\";"@,
        "  cp.param.IntervalSequenceInferenceLevel = \"Extended\";"@,
        "}"@,
        ""@,
        "// Data (from .dat file)"@,
        "int nVisits = ...;"@,
        "range Visits = 1..nVisits;"@,
        "int travelTime[Visits] = ...;"@,
        "int earliest[Visits] = ...;"@,
        "int aimed[Visits] = ...;  // aimed time (c\u{f3} th\u{1ec3} \u{e2}m), 0 n\u{1ebf}u kh\u{f4}ng t\u{ed}nh cost"@,
        "{int} VisitsWithAimed = ...;  // set visits c\u{f3} aimed (cost contribution)"@,
        ""@,
    ]
}

/// Part 3 of the OPL model's text, in runs of up to twelve lines (the
/// cost binding lies between the fifth and the sixth).
pub open spec fn opl_mod_part3(ty: DelayCostType, time_limit: i32, workers: i32) -> Seq<Seq<char>> {
    seq![
        "// Precedence within train"@,
        "tuple Edge { int u; int v; }"@,
        "{Edge} PrecArcs = ...;"@,
        ""@,
        "// Disjunctive resource grouping"@,
        "int nResourceGroups = ...;"@,
        "range ResGroups = 1..nResourceGroups;"@,
        "{int} VisitsOnResource[ResGroups] = ...;"@,
        ""@,
        "// Decision variables: interval per visit"@,
        "dvar interval visit[i in Visits] in earliest[i]..43200 size travelTime[i];"@,
        ""@,
    ]
}

/// Part 4 of the OPL model's text, in runs of up to twelve lines (the
/// cost binding lies between the fifth and the sixth).
pub open spec fn opl_mod_part4(ty: DelayCostType, time_limit: i32, workers: i32) -> Seq<Seq<char>> {
    seq![
        "// Auxiliary delay vars (CH\u{1ec8} cho visits c\u{f3} aimed)"@,
        "dvar int delay[i in VisitsWithAimed] in 0..43200;"@,
        ""@,
        "// Cost per visit (max cost = "@ + decimal(cost_upper(ty)) + ")"@,
        "dvar int cost[i in VisitsWithAimed] in 0.."@ + decimal(cost_upper(ty)) + ";"@,
        ""@,
        "// Objective: minimize sum of cost vars"@,
        "minimize sum(i in VisitsWithAimed) cost[i];"@,
        ""@,
        "subject to {"@,
        "  // Delay bound: delay[i] >= startOf(visit[i]) - aimed[i]"@,
        "  // (delay's lower bound 0 implicitly enforces max(0, ...))"@,
    ]
}

/// Part 5 of the OPL model's text, in runs of up to twelve lines (the
/// cost binding lies between the fifth and the sixth).
pub open spec fn opl_mod_part5(ty: DelayCostType, time_limit: i32, workers: i32) -> Seq<Seq<char>> {
    seq![
        "  forall(i in VisitsWithAimed)"@,
        "    delay[i] >= startOf(visit[i]) - aimed[i];"@,
        ""@,
        "  // Cost binding (linear/implication theo cost type)"@,
    ]
}

/// Part 6 of the OPL model's text, in runs of up to twelve lines (the
/// cost binding lies between the fifth and the sixth).
pub open spec fn opl_mod_part6(ty: DelayCostType, time_limit: i32, workers: i32) -> Seq<Seq<char>> {
    seq![
        ""@,
        "  // Precedence within train"@,
        "  forall(<i, j> in PrecArcs)"@,
        "    endBeforeStart(visit[i], visit[j]);"@,
        ""@,
        "  // Disjunctive resource constraints"@,
        "  forall(r in ResGroups)"@,
        "    noOverlap(all(i in VisitsOnResource[r]) visit[i]);"@,
        "}"@,
        ""@,
        "// Print solution variables"@,
        "execute {"@,
    ]
}

/// Part 7 of the OPL model's text, in runs of up to twelve lines (the
/// cost binding lies between the fifth and the sixth).
pub open spec fn opl_mod_part7(ty: DelayCostType, time_limit: i32, workers: i32) -> Seq<Seq<char>> {
    seq![
        "  writeln(\"OBJECTIVE: \", cp.getObjValue());"@,
        "  for (var i in Visits) {"@,
        "    writeln(\"v[\", i, \"]: start=\", visit[i].start, \" end=\", visit[i].end);"@,
        "  }"@,
        "}"@,
    ]
}

/// The name of a delay cost type.
fn cost_type_name_of(ty: DelayCostType) -> (r: &'static str)
    ensures
        r@ == cost_type_name(ty),
{
    match ty {
        DelayCostType::FiniteSteps1_3Min => "FiniteSteps1_3Min",
        DelayCostType::FiniteSteps1_5Min => "FiniteSteps1_5Min",
        DelayCostType::FiniteSteps123 => "FiniteSteps123",
        DelayCostType::FiniteSteps12345 => "FiniteSteps12345",
        DelayCostType::FiniteSteps139 => "FiniteSteps139",
        DelayCostType::InfiniteSteps60 => "InfiniteSteps60",
        DelayCostType::InfiniteSteps180 => "InfiniteSteps180",
        DelayCostType::InfiniteSteps360 => "InfiniteSteps360",
        DelayCostType::Continuous => "Continuous",
    }
}

/// Appends one line.
fn push_string(out: &mut Vec<String>, line: String)
    ensures
        texts(final(out)@) == texts(old(out)@).push(line@),
{
    let ghost l = line@;
    out.push(line);
    proof {
        assert(texts(out@) =~= texts(old(out)@).push(l));
    }
}

/// The constraints that bind a visit's cost to its delay.
fn push_binding(out: &mut Vec<String>, ty: DelayCostType)
    ensures
        texts(final(out)@) == texts(old(out)@) + binding_lines(ty),
{
    let ghost o0 = texts(out@);
    let tab: Option<DelayCostThresholds> = match ty {
        DelayCostType::FiniteSteps1_3Min => Some(DelayCostThresholds::f1_3min()),
        DelayCostType::FiniteSteps1_5Min => Some(DelayCostThresholds::f1_5min()),
        DelayCostType::FiniteSteps123 => Some(DelayCostThresholds::f123()),
        DelayCostType::FiniteSteps12345 => Some(DelayCostThresholds::f12345()),
        DelayCostType::FiniteSteps139 => Some(DelayCostThresholds::f139()),
        _ => None,
    };
    match tab {
        Some(th) => {
            let n = th.thresholds.len();
            let mut i: usize = 0;
            while i < n
                invariant
                    n == th.thresholds@.len(),
                    finite_table(ty) == Some(th.thresholds@),
                    i <= n,
                    texts(out@) == o0 + cat_lines(
                        i as int,
                        |q: int|
                            seq![
                                "  forall(i in VisitsWithAimed)"@,
                                "    (delay[i] > "@ + decimal(th.thresholds@[q].0 as int) + ") => (cost[i] >= "@
                                    + decimal(th.thresholds@[q].1 as int) + ");"@,
                            ],
                    ),
                decreases n - i,
            {
                let ghost before = texts(out@);
                let (thr, c) = th.thresholds[i];
                push_line(out, "  forall(i in VisitsWithAimed)");
                let mut line = String::from_str("    (delay[i] > ");
                push_int(&mut line, thr);
                line.append(") => (cost[i] >= ");
                push_count(&mut line, c);
                line.append(");");
                push_string(out, line);
                proof {
                    assert(texts(out@) =~= o0 + cat_lines(
                        i + 1,
                        |q: int|
                            seq![
                                "  forall(i in VisitsWithAimed)"@,
                                "    (delay[i] > "@ + decimal(th.thresholds@[q].0 as int) + ") => (cost[i] >= "@
                                    + decimal(th.thresholds@[q].1 as int) + ");"@,
                            ],
                    ));
                }
                i = i + 1;
            }
        },
        None => {
            let iv: Option<i32> = match ty {
                DelayCostType::InfiniteSteps60 => Some(60),
                DelayCostType::InfiniteSteps180 => Some(180),
                DelayCostType::InfiniteSteps360 => Some(360),
                _ => None,
            };
            push_line(out, "  forall(i in VisitsWithAimed)");
            match iv {
                Some(iv) => {
                    let mut line = String::from_str("    cost[i] * ");
                    push_int(&mut line, iv);
                    line.append(" >= delay[i];");
                    push_string(out, line);
                },
                None => {
                    push_line(out, "    cost[i] >= delay[i];");
                },
            }
            proof {
                assert(texts(out@) =~= o0 + binding_lines(ty));
            }
        },
    }
}

/// Appends part 1 of the OPL model's text.
fn push_part1(out: &mut Vec<String>, ty: DelayCostType, time_limit: i32, workers: i32, upper: i32)
    requires
        upper == cost_upper(ty),
    ensures
        texts(final(out)@) == texts(old(out)@) + opl_mod_part1(ty, time_limit, workers),
{
    let ghost o0 = texts(out@);
    push_line(out, "// TRP CP Model, exported by export_opl.rs");
    let mut line = String::from_str("// Cost type: ");
    line.append(cost_type_name_of(ty));
    push_string(out, line);
    push_line(out, "");
    push_line(out, "using CP;");
    push_line(out, "");
    push_line(out, "// CP Optimizer parameters (set before solve)");
    push_line(out, "execute SETTINGS {");
    let mut line = String::from_str("  cp.param.Workers = ");
    push_int(&mut line, workers);
    line.append(";");
    push_string(out, line);
    let mut line = String::from_str("  cp.param.TimeLimit = ");
    push_int(&mut line, time_limit);
    line.append(";");
    push_string(out, line);
    push_line(out, "  cp.param.OptimalityTolerance = 0.001;");
    push_line(out, "  // Stronger inference for scheduling propagation");
    push_line(out, "  cp.param.NoOverlapInferenceLevel = \"Extended\";");
    proof {
        assert(texts(out@) =~= o0 + opl_mod_part1(ty, time_limit, workers));
    }
}

/// Appends part 2 of the OPL model's text.
fn push_part2(out: &mut Vec<String>, ty: DelayCostType, time_limit: i32, workers: i32, upper: i32)
    requires
        upper == cost_upper(ty),
    ensures
        texts(final(out)@) == texts(old(out)@) + opl_mod_part2(ty, time_limit, workers),
{
    let ghost o0 = texts(out@);
    push_line(out, "  cp.param.PrecedenceInferenceLevel = \"Extended\";");
    push_line(out, "  cp.param.IntervalSequenceInferenceLevel = \"Extended\";");
    push_line(out, "}");
    push_line(out, "");
    push_line(out, "// Data (from .dat file)");
    push_line(out, "int nVisits = ...;");
    push_line(out, "range Visits = 1..nVisits;");
    push_line(out, "int travelTime[Visits] = ...;");
    push_line(out, "int earliest[Visits] = ...;");
    push_line(out, "int aimed[Visits] = ...;  // aimed time (c\u{f3} th\u{1ec3} \u{e2}m), 0 n\u{1ebf}u kh\u{f4}ng t\u{ed}nh cost");
    push_line(out, "{int} VisitsWithAimed = ...;  // set visits c\u{f3} aimed (cost contribution)");
    push_line(out, "");
    proof {
        assert(texts(out@) =~= o0 + opl_mod_part2(ty, time_limit, workers));
    }
}

/// Appends part 3 of the OPL model's text.
fn push_part3(out: &mut Vec<String>, ty: DelayCostType, time_limit: i32, workers: i32, upper: i32)
    requires
        upper == cost_upper(ty),
    ensures
        texts(final(out)@) == texts(old(out)@) + opl_mod_part3(ty, time_limit, workers),
{
    let ghost o0 = texts(out@);
    push_line(out, "// Precedence within train");
    push_line(out, "tuple Edge { int u; int v; }");
    push_line(out, "{Edge} PrecArcs = ...;");
    push_line(out, "");
    push_line(out, "// Disjunctive resource grouping");
    push_line(out, "int nResourceGroups = ...;");
    push_line(out, "range ResGroups = 1..nResourceGroups;");
    push_line(out, "{int} VisitsOnResource[ResGroups] = ...;");
    push_line(out, "");
    push_line(out, "// Decision variables: interval per visit");
    push_line(out, "dvar interval visit[i in Visits] in earliest[i]..43200 size travelTime[i];");
    push_line(out, "");
    proof {
        assert(texts(out@) =~= o0 + opl_mod_part3(ty, time_limit, workers));
    }
}

/// Appends part 4 of the OPL model's text.
fn push_part4(out: &mut Vec<String>, ty: DelayCostType, time_limit: i32, workers: i32, upper: i32)
    requires
        upper == cost_upper(ty),
    ensures
        texts(final(out)@) == texts(old(out)@) + opl_mod_part4(ty, time_limit, workers),
{
    let ghost o0 = texts(out@);
    push_line(out, "// Auxiliary delay vars (CH\u{1ec8} cho visits c\u{f3} aimed)");
    push_line(out, "dvar int delay[i in VisitsWithAimed] in 0..43200;");
    push_line(out, "");
    let mut line = String::from_str("// Cost per visit (max cost = ");
    push_int(&mut line, upper);
    line.append(")");
    push_string(out, line);
    let mut line = String::from_str("dvar int cost[i in VisitsWithAimed] in 0..");
    push_int(&mut line, upper);
    line.append(";");
    push_string(out, line);
    push_line(out, "");
    push_line(out, "// Objective: minimize sum of cost vars");
    push_line(out, "minimize sum(i in VisitsWithAimed) cost[i];");
    push_line(out, "");
    push_line(out, "subject to {");
    push_line(out, "  // Delay bound: delay[i] >= startOf(visit[i]) - aimed[i]");
    push_line(out, "  // (delay's lower bound 0 implicitly enforces max(0, ...))");
    proof {
        assert(texts(out@) =~= o0 + opl_mod_part4(ty, time_limit, workers));
    }
}

/// Appends part 5 of the OPL model's text.
fn push_part5(out: &mut Vec<String>, ty: DelayCostType, time_limit: i32, workers: i32, upper: i32)
    requires
        upper == cost_upper(ty),
    ensures
        texts(final(out)@) == texts(old(out)@) + opl_mod_part5(ty, time_limit, workers),
{
    let ghost o0 = texts(out@);
    push_line(out, "  forall(i in VisitsWithAimed)");
    push_line(out, "    delay[i] >= startOf(visit[i]) - aimed[i];");
    push_line(out, "");
    push_line(out, "  // Cost binding (linear/implication theo cost type)");
    proof {
        assert(texts(out@) =~= o0 + opl_mod_part5(ty, time_limit, workers));
    }
}

/// Appends part 6 of the OPL model's text.
fn push_part6(out: &mut Vec<String>, ty: DelayCostType, time_limit: i32, workers: i32, upper: i32)
    requires
        upper == cost_upper(ty),
    ensures
        texts(final(out)@) == texts(old(out)@) + opl_mod_part6(ty, time_limit, workers),
{
    let ghost o0 = texts(out@);
    push_line(out, "");
    push_line(out, "  // Precedence within train");
    push_line(out, "  forall(<i, j> in PrecArcs)");
    push_line(out, "    endBeforeStart(visit[i], visit[j]);");
    push_line(out, "");
    push_line(out, "  // Disjunctive resource constraints");
    push_line(out, "  forall(r in ResGroups)");
    push_line(out, "    noOverlap(all(i in VisitsOnResource[r]) visit[i]);");
    push_line(out, "}");
    push_line(out, "");
    push_line(out, "// Print solution variables");
    push_line(out, "execute {");
    proof {
        assert(texts(out@) =~= o0 + opl_mod_part6(ty, time_limit, workers));
    }
}

/// Appends part 7 of the OPL model's text.
fn push_part7(out: &mut Vec<String>, ty: DelayCostType, time_limit: i32, workers: i32, upper: i32)
    requires
        upper == cost_upper(ty),
    ensures
        texts(final(out)@) == texts(old(out)@) + opl_mod_part7(ty, time_limit, workers),
{
    let ghost o0 = texts(out@);
    push_line(out, "  writeln(\"OBJECTIVE: \", cp.getObjValue());");
    push_line(out, "  for (var i in Visits) {");
    push_line(out, "    writeln(\"v[\", i, \"]: start=\", visit[i].start, \" end=\", visit[i].end);");
    push_line(out, "  }");
    push_line(out, "}");
    proof {
        assert(texts(out@) =~= o0 + opl_mod_part7(ty, time_limit, workers));
    }
}

/// The OPL model for a cost type, as `opl_mod_lines` says; the caller
/// writes the lines.
pub fn write_opl_mod(cost_type: DelayCostType, time_limit: i32, workers: i32) -> (r: Vec<String>)
    ensures
        texts(r@) == opl_mod_lines(cost_type, time_limit, workers),
{
    let ty = cost_type;
    let upper: i32 = match ty {
        DelayCostType::Continuous => 43200,
        DelayCostType::InfiniteSteps60 => 43200 / 60 + 1,
        DelayCostType::InfiniteSteps180 => 43200 / 180 + 1,
        DelayCostType::InfiniteSteps360 => 43200 / 360 + 1,
        DelayCostType::FiniteSteps1_3Min => 1,
        DelayCostType::FiniteSteps1_5Min => 1,
        DelayCostType::FiniteSteps123 => 3,
        DelayCostType::FiniteSteps12345 => 5,
        DelayCostType::FiniteSteps139 => 9,
    };
    let mut out: Vec<String> = Vec::new();
    push_part1(&mut out, ty, time_limit, workers, upper);
    push_part2(&mut out, ty, time_limit, workers, upper);
    push_part3(&mut out, ty, time_limit, workers, upper);
    push_part4(&mut out, ty, time_limit, workers, upper);
    push_part5(&mut out, ty, time_limit, workers, upper);
    push_binding(&mut out, ty);
    push_part6(&mut out, ty, time_limit, workers, upper);
    push_part7(&mut out, ty, time_limit, workers, upper);
    proof {
        assert(texts(out@) =~= opl_mod_lines(ty, time_limit, workers));
    }
    out
}


/// The cost variable of the model can hold every cost that the objective
/// charges: under a finite staircase its bound is the largest cost of the
/// table, and under every cost type no delay within the horizon costs more
/// than the bound.
pub proof fn cost_bound_holds_every_cost(ty: DelayCostType, d: int)
    ensures
        finite_table(ty) matches Some(th) ==> (forall|i: int| 0 <= i < th.len() ==> (#[trigger] th[i]).1 <= cost_upper(ty))
            && exists|i: int| 0 <= i < th.len() && (#[trigger] th[i]).1 == cost_upper(ty),
        0 <= d <= 43200 ==> delay_cost_spec(ty, d) <= cost_upper(ty),
{
    reveal_with_fuel(thresholds_eval, 6);
    if let Some(th) = finite_table(ty) {
        assert(th[0].1 == cost_upper(ty));
    }
    if 0 < d <= 43200 {
        match ty {
            DelayCostType::InfiniteSteps60 => {
                vstd::arithmetic::div_mod::lemma_div_is_ordered(d + 59, 43259int, 60int);
            },
            DelayCostType::InfiniteSteps180 => {
                vstd::arithmetic::div_mod::lemma_div_is_ordered(d + 179, 43379int, 180int);
            },
            DelayCostType::InfiniteSteps360 => {
                vstd::arithmetic::div_mod::lemma_div_is_ordered(d + 359, 43559int, 360int);
            },
            _ => {},
        }
    }
}

} // verus!
