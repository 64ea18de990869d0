//! Decoding of command-line option values and of panic messages.
use vstd::prelude::*;
use vstd::string::*;
use crate::problem::{infinite_interval, DelayCostType};
use crate::ddd::settings::SatObjectiveEncoding;

verus! {

/// The code point of `c` after ASCII lowercasing.
pub open spec fn lower_code(c: char) -> u32 {
    if 'A' <= c && c <= 'Z' {
        (c as u32 + 32) as u32
    } else {
        c as u32
    }
}

/// The code points of `s` after ASCII lowercasing.
pub open spec fn lower_codes(s: Seq<char>) -> Seq<u32> {
    s.map_values(|c: char| lower_code(c))
}

/// The code points of `s`.
pub open spec fn codes(s: Seq<char>) -> Seq<u32> {
    s.map_values(|c: char| c as u32)
}

/// `s`, lowercased, equals `lit`.
pub open spec fn lower_is(s: Seq<char>, lit: Seq<char>) -> bool {
    lower_codes(s) == codes(lit)
}

/// `needle` occurs in `hay`.
pub open spec fn contains_sub(hay: Seq<u32>, needle: Seq<u32>) -> bool {
    exists|i: int| 0 <= i && i + needle.len() <= hay.len() && #[trigger] hay.subrange(i, i + needle.len()) == needle
}

fn lower_code_of(c: char) -> (r: u32)
    ensures
        r == lower_code(c),
{
    if c >= 'A' && c <= 'Z' {
        (c as u32) + 32
    } else {
        c as u32
    }
}

/// The ASCII-lowercased code points of `s`.
fn lowered(s: &str) -> (r: Vec<u32>)
    ensures
        r@ == lower_codes(s@),
{
    let n: usize = s.unicode_len();
    let mut out: Vec<u32> = Vec::new();
    let mut i: usize = 0;
    while i < n
        invariant
            n == s@.len(),
            i <= n,
            out@ =~= lower_codes(s@).take(i as int),
        decreases n - i,
    {
        out.push(lower_code_of(s.get_char(i)));
        i = i + 1;
    }
    out
}

/// The code points of `s`.
fn code_points(s: &str) -> (r: Vec<u32>)
    ensures
        r@ == codes(s@),
{
    let n: usize = s.unicode_len();
    let mut out: Vec<u32> = Vec::new();
    let mut i: usize = 0;
    while i < n
        invariant
            n == s@.len(),
            i <= n,
            out@ =~= codes(s@).take(i as int),
        decreases n - i,
    {
        out.push(s.get_char(i) as u32);
        i = i + 1;
    }
    out
}

fn same_codes(a: &Vec<u32>, b: &Vec<u32>) -> (r: bool)
    ensures
        r == (a@ == b@),
{
    if a.len() != b.len() {
        return false;
    }
    let mut i: usize = 0;
    while i < a.len()
        invariant
            a@.len() == b@.len(),
            i <= a@.len(),
            a@.take(i as int) == b@.take(i as int),
        decreases a@.len() - i,
    {
        if a[i] != b[i] {
            assert(a@[i as int] != b@[i as int]);
            return false;
        }
        assert(a@.take(i + 1) =~= a@.take(i as int).push(a@[i as int]));
        assert(b@.take(i + 1) =~= b@.take(i as int).push(b@[i as int]));
        i = i + 1;
    }
    assert(a@ =~= a@.take(i as int));
    assert(b@ =~= b@.take(i as int));
    true
}

/// `s`, ASCII-lowercased, equals `lit`.
fn eq_lower(s: &Vec<u32>, lit: &str) -> (r: bool)
    ensures
        r == (s@ == codes(lit@)),
{
    let l = code_points(lit);
    same_codes(s, &l)
}

/// The delay cost type named by a (case-insensitive) option value.
pub open spec fn delay_cost_by_name(v: Seq<u32>) -> Option<DelayCostType> {
    if v == codes("finsteps1_5min"@) {
        Some(DelayCostType::FiniteSteps1_5Min)
    } else if v == codes("finsteps1_3min"@) {
        Some(DelayCostType::FiniteSteps1_3Min)
    } else if v == codes("finsteps123"@) {
        Some(DelayCostType::FiniteSteps123)
    } else if v == codes("finsteps12345"@) {
        Some(DelayCostType::FiniteSteps12345)
    } else if v == codes("finsteps139"@) {
        Some(DelayCostType::FiniteSteps139)
    } else if v == codes("infsteps60"@) {
        Some(DelayCostType::InfiniteSteps60)
    } else if v == codes("infsteps180"@) {
        Some(DelayCostType::InfiniteSteps180)
    } else if v == codes("infsteps360"@) {
        Some(DelayCostType::InfiniteSteps360)
    } else if v == codes("infsteps123"@) {
        Some(DelayCostType::InfiniteSteps180)
    } else if v == codes("cont"@) {
        Some(DelayCostType::Continuous)
    } else {
        None
    }
}

/// Texts whose code points differ at position `k` have different code
/// points.
proof fn lemma_codes_differ(a: Seq<char>, b: Seq<char>, k: int)
    requires
        0 <= k < a.len(),
        k < b.len(),
        a[k] as u32 != b[k] as u32,
    ensures
        codes(a) != codes(b),
{
    assert(codes(a)[k] == a[k] as u32);
    assert(codes(b)[k] == b[k] as u32);
}

/// Texts of different lengths have different code points.
proof fn lemma_codes_len_differ(a: Seq<char>, b: Seq<char>)
    requires
        a.len() != b.len(),
    ensures
        codes(a) != codes(b),
{
    assert(codes(a).len() == a.len());
    assert(codes(b).len() == b.len());
}

/// Each objective name selects the cost type of that name: the finite
/// staircases by their names, `infsteps60`, `infsteps180` and `infsteps360`
/// the uncapped staircases of 60, 180 and 360 seconds, the alias
/// `infsteps123` the one of 180 seconds, and `cont` the continuous cost.
pub proof fn cost_names_select_their_types(v: Seq<u32>)
    ensures
        v == codes("finsteps1_5min"@) ==> delay_cost_by_name(v) == Some(DelayCostType::FiniteSteps1_5Min),
        v == codes("finsteps1_3min"@) ==> delay_cost_by_name(v) == Some(DelayCostType::FiniteSteps1_3Min),
        v == codes("finsteps123"@) ==> delay_cost_by_name(v) == Some(DelayCostType::FiniteSteps123),
        v == codes("finsteps12345"@) ==> delay_cost_by_name(v) == Some(DelayCostType::FiniteSteps12345),
        v == codes("finsteps139"@) ==> delay_cost_by_name(v) == Some(DelayCostType::FiniteSteps139),
        v == codes("infsteps60"@) ==> delay_cost_by_name(v) == Some(DelayCostType::InfiniteSteps60)
            && infinite_interval(DelayCostType::InfiniteSteps60) == Some(60nat),
        v == codes("infsteps180"@) ==> delay_cost_by_name(v) == Some(DelayCostType::InfiniteSteps180)
            && infinite_interval(DelayCostType::InfiniteSteps180) == Some(180nat),
        v == codes("infsteps360"@) ==> delay_cost_by_name(v) == Some(DelayCostType::InfiniteSteps360)
            && infinite_interval(DelayCostType::InfiniteSteps360) == Some(360nat),
        v == codes("infsteps123"@) ==> delay_cost_by_name(v) == Some(DelayCostType::InfiniteSteps180),
        v == codes("cont"@) ==> delay_cost_by_name(v) == Some(DelayCostType::Continuous),
        delay_cost_by_name(v) is Some ==> v == codes("finsteps1_5min"@) || v == codes("finsteps1_3min"@) || v == codes(
            "finsteps123"@) || v == codes("finsteps12345"@) || v == codes("finsteps139"@) || v == codes("infsteps60"@)
            || v == codes("infsteps180"@) || v == codes("infsteps360"@) || v == codes("infsteps123"@) || v == codes("cont"@),
{
    reveal_strlit("finsteps1_5min");
    reveal_strlit("finsteps1_3min");
    reveal_strlit("finsteps123");
    reveal_strlit("finsteps12345");
    reveal_strlit("finsteps139");
    reveal_strlit("infsteps60");
    reveal_strlit("infsteps180");
    reveal_strlit("infsteps360");
    reveal_strlit("infsteps123");
    reveal_strlit("cont");
    lemma_codes_differ("finsteps1_3min"@, "finsteps1_5min"@, 10);
    lemma_codes_differ("finsteps123"@, "finsteps1_5min"@, 9);
    lemma_codes_differ("finsteps123"@, "finsteps1_3min"@, 9);
    lemma_codes_differ("finsteps12345"@, "finsteps1_5min"@, 9);
    lemma_codes_differ("finsteps12345"@, "finsteps1_3min"@, 9);
    lemma_codes_len_differ("finsteps12345"@, "finsteps123"@);
    lemma_codes_len_differ("infsteps180"@, "infsteps60"@);
    lemma_codes_differ("finsteps139"@, "finsteps1_5min"@, 9);
    lemma_codes_differ("finsteps139"@, "finsteps1_3min"@, 9);
    lemma_codes_differ("finsteps139"@, "finsteps123"@, 9);
    lemma_codes_differ("finsteps139"@, "finsteps12345"@, 9);
    lemma_codes_differ("infsteps60"@, "finsteps1_5min"@, 0);
    lemma_codes_differ("infsteps60"@, "finsteps1_3min"@, 0);
    lemma_codes_differ("infsteps60"@, "finsteps123"@, 0);
    lemma_codes_differ("infsteps60"@, "finsteps12345"@, 0);
    lemma_codes_differ("infsteps60"@, "finsteps139"@, 0);
    lemma_codes_differ("infsteps180"@, "finsteps1_5min"@, 0);
    lemma_codes_differ("infsteps180"@, "finsteps1_3min"@, 0);
    lemma_codes_differ("infsteps180"@, "finsteps123"@, 0);
    lemma_codes_differ("infsteps180"@, "finsteps12345"@, 0);
    lemma_codes_differ("infsteps180"@, "finsteps139"@, 0);
    lemma_codes_differ("infsteps360"@, "finsteps1_5min"@, 0);
    lemma_codes_differ("infsteps360"@, "finsteps1_3min"@, 0);
    lemma_codes_differ("infsteps360"@, "finsteps123"@, 0);
    lemma_codes_differ("infsteps360"@, "finsteps12345"@, 0);
    lemma_codes_differ("infsteps360"@, "finsteps139"@, 0);
    lemma_codes_differ("infsteps360"@, "infsteps60"@, 8);
    lemma_codes_differ("infsteps360"@, "infsteps180"@, 8);
    lemma_codes_differ("infsteps123"@, "finsteps1_5min"@, 0);
    lemma_codes_differ("infsteps123"@, "finsteps1_3min"@, 0);
    lemma_codes_differ("infsteps123"@, "finsteps123"@, 0);
    lemma_codes_differ("infsteps123"@, "finsteps12345"@, 0);
    lemma_codes_differ("infsteps123"@, "finsteps139"@, 0);
    lemma_codes_differ("infsteps123"@, "infsteps60"@, 8);
    lemma_codes_differ("infsteps123"@, "infsteps180"@, 9);
    lemma_codes_differ("infsteps123"@, "infsteps360"@, 8);
    lemma_codes_differ("cont"@, "finsteps1_5min"@, 0);
    lemma_codes_differ("cont"@, "finsteps1_3min"@, 0);
    lemma_codes_differ("cont"@, "finsteps123"@, 0);
    lemma_codes_differ("cont"@, "finsteps12345"@, 0);
    lemma_codes_differ("cont"@, "finsteps139"@, 0);
    lemma_codes_differ("cont"@, "infsteps60"@, 0);
    lemma_codes_differ("cont"@, "infsteps180"@, 0);
    lemma_codes_differ("cont"@, "infsteps360"@, 0);
    lemma_codes_differ("cont"@, "infsteps123"@, 0);
}

/// The delay cost type named by lowercased code points.
fn cost_type_of_codes(key: &Vec<u32>) -> (r: Option<DelayCostType>)
    ensures
        r == delay_cost_by_name(key@),
{
    if eq_lower(key, "finsteps1_5min") {
        Some(DelayCostType::FiniteSteps1_5Min)
    } else if eq_lower(key, "finsteps1_3min") {
        Some(DelayCostType::FiniteSteps1_3Min)
    } else if eq_lower(key, "finsteps123") {
        Some(DelayCostType::FiniteSteps123)
    } else if eq_lower(key, "finsteps12345") {
        Some(DelayCostType::FiniteSteps12345)
    } else if eq_lower(key, "finsteps139") {
        Some(DelayCostType::FiniteSteps139)
    } else if eq_lower(key, "infsteps60") {
        Some(DelayCostType::InfiniteSteps60)
    } else if eq_lower(key, "infsteps180") {
        Some(DelayCostType::InfiniteSteps180)
    } else if eq_lower(key, "infsteps360") {
        Some(DelayCostType::InfiniteSteps360)
    } else if eq_lower(key, "infsteps123") {
        Some(DelayCostType::InfiniteSteps180)
    } else if eq_lower(key, "cont") {
        Some(DelayCostType::Continuous)
    } else {
        None
    }
}

/// The delay cost type named by an option value, ignoring ASCII case. The
/// alias `infsteps123` names the uncapped 180-second staircase.
pub fn parse_delay_cost_type(value: &str) -> (r: Option<DelayCostType>)
    ensures
        r == delay_cost_by_name(lower_codes(value@)),
{
    let key = lowered(value);
    cost_type_of_codes(&key)
}

/// What `str::to_lowercase` gives for a text: its lower case by Unicode's
/// rules.
pub uninterp spec fn unicode_lowercase(s: Seq<char>) -> Seq<char>;

/// `str::to_lowercase`: the text in lower case by Unicode's rules (a
/// character may become several); the contract names the result and states
/// nothing more of it.
#[verifier::external_body]
fn to_lowercase(s: &str) -> (r: String)
    ensures
        r@ == unicode_lowercase(s@),
{
    s.to_lowercase()
}

/// The delay cost type named by an option value of the model export, in
/// any case by Unicode's rules. The alias `infsteps123` names the uncapped
/// 180-second staircase.
pub fn parse_cost_type(s: &str) -> (r: Option<DelayCostType>)
    ensures
        r == delay_cost_by_name(codes(unicode_lowercase(s@))),
{
    let low = to_lowercase(s);
    let key = code_points(low.as_str());
    cost_type_of_codes(&key)
}

/// The SAT objective encoding named by a (case-insensitive) option value.
pub open spec fn sat_objective_encoding_by_name(v: Seq<u32>) -> Option<SatObjectiveEncoding> {
    if v == codes("scpb"@) || v == codes("nsc"@) {
        Some(SatObjectiveEncoding::Scpb)
    } else if v == codes("totalizer"@) || v == codes("incremental_totalizer"@) || v == codes("inc_totalizer"@) {
        Some(SatObjectiveEncoding::IncrementalTotalizer)
    } else if v == codes("bit_totalizer"@) || v == codes("binary_totalizer"@) || v == codes("bit"@) || v
        == codes("binary"@) {
        Some(SatObjectiveEncoding::BitTotalizer)
    } else {
        None
    }
}

/// Each encoding name selects its encoding: `scpb` and `nsc` the sequential
/// counter, `totalizer`, `incremental_totalizer` and `inc_totalizer` the
/// incremental totalizer, and `bit_totalizer`, `binary_totalizer`, `bit` and
/// `binary` the binary totalizer; no other name selects one.
pub proof fn encoding_names_select_their_encodings(v: Seq<u32>)
    ensures
        v == codes("scpb"@) || v == codes("nsc"@) ==> sat_objective_encoding_by_name(v) == Some(SatObjectiveEncoding::Scpb),
        v == codes("totalizer"@) || v == codes("incremental_totalizer"@) || v == codes("inc_totalizer"@)
            ==> sat_objective_encoding_by_name(v) == Some(SatObjectiveEncoding::IncrementalTotalizer),
        v == codes("bit_totalizer"@) || v == codes("binary_totalizer"@) || v == codes("bit"@) || v == codes("binary"@)
            ==> sat_objective_encoding_by_name(v) == Some(SatObjectiveEncoding::BitTotalizer),
        sat_objective_encoding_by_name(v) is Some ==> v == codes("scpb"@) || v == codes("nsc"@) || v == codes("totalizer"@)
            || v == codes("incremental_totalizer"@) || v == codes("inc_totalizer"@) || v == codes("bit_totalizer"@) || v == codes(
            "binary_totalizer"@) || v == codes("bit"@) || v == codes("binary"@),
{
    reveal_strlit("scpb");
    reveal_strlit("nsc");
    reveal_strlit("totalizer");
    reveal_strlit("incremental_totalizer");
    reveal_strlit("inc_totalizer");
    reveal_strlit("bit_totalizer");
    reveal_strlit("binary_totalizer");
    reveal_strlit("bit");
    reveal_strlit("binary");
    lemma_codes_len_differ("totalizer"@, "scpb"@);
    lemma_codes_len_differ("totalizer"@, "nsc"@);
    lemma_codes_len_differ("incremental_totalizer"@, "scpb"@);
    lemma_codes_len_differ("incremental_totalizer"@, "nsc"@);
    lemma_codes_len_differ("inc_totalizer"@, "scpb"@);
    lemma_codes_len_differ("inc_totalizer"@, "nsc"@);
    lemma_codes_len_differ("bit_totalizer"@, "scpb"@);
    lemma_codes_len_differ("bit_totalizer"@, "nsc"@);
    lemma_codes_len_differ("bit_totalizer"@, "totalizer"@);
    lemma_codes_len_differ("bit_totalizer"@, "incremental_totalizer"@);
    lemma_codes_differ("bit_totalizer"@, "inc_totalizer"@, 0);
    lemma_codes_len_differ("binary_totalizer"@, "scpb"@);
    lemma_codes_len_differ("binary_totalizer"@, "nsc"@);
    lemma_codes_len_differ("binary_totalizer"@, "totalizer"@);
    lemma_codes_len_differ("binary_totalizer"@, "incremental_totalizer"@);
    lemma_codes_len_differ("binary_totalizer"@, "inc_totalizer"@);
    lemma_codes_len_differ("bit"@, "scpb"@);
    lemma_codes_differ("bit"@, "nsc"@, 0);
    lemma_codes_len_differ("bit"@, "totalizer"@);
    lemma_codes_len_differ("bit"@, "incremental_totalizer"@);
    lemma_codes_len_differ("bit"@, "inc_totalizer"@);
    lemma_codes_len_differ("binary"@, "scpb"@);
    lemma_codes_len_differ("binary"@, "nsc"@);
    lemma_codes_len_differ("binary"@, "totalizer"@);
    lemma_codes_len_differ("binary"@, "incremental_totalizer"@);
    lemma_codes_len_differ("binary"@, "inc_totalizer"@);
}

/// The SAT objective encoding named by an option value, ignoring ASCII case.
pub fn parse_sat_objective_encoding(value: &str) -> (r: Option<SatObjectiveEncoding>)
    ensures
        r == sat_objective_encoding_by_name(lower_codes(value@)),
{
    let key = lowered(value);
    if eq_lower(&key, "scpb") || eq_lower(&key, "nsc") {
        Some(SatObjectiveEncoding::Scpb)
    } else if eq_lower(&key, "totalizer") || eq_lower(&key, "incremental_totalizer") || eq_lower(
        &key,
        "inc_totalizer",
    ) {
        Some(SatObjectiveEncoding::IncrementalTotalizer)
    } else if eq_lower(&key, "bit_totalizer") || eq_lower(&key, "binary_totalizer") || eq_lower(&key, "bit")
        || eq_lower(&key, "binary") {
        Some(SatObjectiveEncoding::BitTotalizer)
    } else {
        None
    }
}

/// `needle` occurs in `hay`.
fn contains_codes(hay: &Vec<u32>, needle: &str) -> (r: bool)
    ensures
        r == contains_sub(hay@, codes(needle@)),
{
    let nd = code_points(needle);
    let hl: usize = hay.len();
    if nd.len() == 0 {
        assert(hay@.subrange(0, 0int + codes(needle@).len()) =~= codes(needle@));
        return true;
    }
    if nd.len() > hay.len() {
        proof {
            assert forall|i: int| 0 <= i && i + nd@.len() <= hay@.len() implies #[trigger] hay@.subrange(i, i + nd@.len()) != nd@ by {}
        }
        return false;
    }
    let last: usize = hay.len() - nd.len();
    let mut i: usize = 0;
    while i <= last
        invariant
            last == hay@.len() - nd@.len(),
            hl == hay@.len(),
            nd@.len() >= 1,
            nd@ == codes(needle@),
            i <= last + 1,
            forall|k: int| 0 <= k < i ==> #[trigger] hay@.subrange(k, k + nd@.len()) != nd@,
        decreases last + 1 - i,
    {
        let mut j: usize = 0;
        let mut same: bool = true;
        assert(hay@.subrange(i as int, i as int) =~= nd@.take(0));
        while j < nd.len()
            invariant
                last == hay@.len() - nd@.len(),
                hl == hay@.len(),
                i <= last,
                j <= nd@.len(),
                same == (hay@.subrange(i as int, i + j) == nd@.take(j as int)),
            decreases nd@.len() - j,
        {
            if hay[i + j] != nd[j] {
                same = false;
            }
            proof {
                assert(hay@.subrange(i as int, i + j + 1) =~= hay@.subrange(i as int, i + j).push(hay@[i + j]));
                assert(nd@.take(j + 1) =~= nd@.take(j as int).push(nd@[j as int]));
                if !same {
                    assert(hay@.subrange(i as int, i + j + 1)[j as int] != nd@.take(j + 1)[j as int]
                        || hay@.subrange(i as int, i + j) != nd@.take(j as int));
                    if hay@.subrange(i as int, i + j + 1) == nd@.take(j + 1) {
                        assert(hay@.subrange(i as int, i + j + 1).drop_last() =~= hay@.subrange(i as int, i + j));
                        assert(nd@.take(j + 1).drop_last() =~= nd@.take(j as int));
                    }
                }
            }
            j = j + 1;
        }
        assert(nd@.take(j as int) =~= nd@);
        if same {
            assert(hay@.subrange(i as int, i + codes(needle@).len()) == codes(needle@));
            return true;
        }
        i = i + 1;
    }
    false
}

/// The panic message, lowercased, names an out-of-memory condition of the
/// solvers.
pub open spec fn oom_message(m: Seq<char>) -> bool {
    let l = lower_codes(m);
    ||| contains_sub(l, codes("failed to extend generalizedtotalizer encoding"@))
    ||| contains_sub(l, codes("glucose reserve failed"@))
    ||| contains_sub(l, codes("glucose add_clause_ref failed"@))
    ||| contains_sub(l, codes("outofmemory"@))
    ||| contains_sub(l, codes("out of memory"@))
    ||| contains_sub(l, codes("memory allocation"@))
}

/// A message is taken for running out of memory whenever, in any case, it
/// holds one of the phrases of the solvers' allocation failures; and the
/// case of its letters never changes the verdict.
pub proof fn oom_phrases_recognised(m: Seq<char>, m2: Seq<char>)
    ensures
        contains_sub(lower_codes(m), codes("failed to extend generalizedtotalizer encoding"@)) ==> oom_message(m),
        contains_sub(lower_codes(m), codes("glucose reserve failed"@)) ==> oom_message(m),
        contains_sub(lower_codes(m), codes("glucose add_clause_ref failed"@)) ==> oom_message(m),
        contains_sub(lower_codes(m), codes("outofmemory"@)) ==> oom_message(m),
        contains_sub(lower_codes(m), codes("out of memory"@)) ==> oom_message(m),
        contains_sub(lower_codes(m), codes("memory allocation"@)) ==> oom_message(m),
        lower_codes(m) == lower_codes(m2) ==> oom_message(m) == oom_message(m2),
{
}

/// Whether a panic message (when the panic carried one) looks like the
/// solvers ran out of memory.
pub fn is_likely_oom_panic(message: Option<&str>) -> (r: bool)
    ensures
        r == match message {
            Some(m) => oom_message(m@),
            None => false,
        },
{
    let message = match message {
        Some(m) => m,
        None => return false,
    };
    let l = lowered(message);
    contains_codes(&l, "failed to extend generalizedtotalizer encoding") || contains_codes(
        &l,
        "glucose reserve failed",
    ) || contains_codes(&l, "glucose add_clause_ref failed") || contains_codes(&l, "outofmemory")
        || contains_codes(&l, "out of memory") || contains_codes(&l, "memory allocation")
}

} // verus!
