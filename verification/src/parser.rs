use vstd::prelude::*;
use vstd::string::*;
use crate::problem::{DelayMeasurementType, NamedProblem, Problem, Train, Visit};
use crate::text::{
    blank,
    char_is_white,
    chars_of,
    decimal,
    fields,
    fields_of,
    key_value,
    lines,
    lines_of,
    parse_i32,
    parse_i32_chars,
    push_decimal_i64,
    split_key_value,
    string_of,
};

verus! {

/// A solution file that cannot be read.
#[derive(Clone, Copy, Debug, PartialEq, Eq, Structural)]
pub struct TxtParseError;

/// A train of a solution file: its name, its delays and its visits.
#[derive(Debug)]
pub struct TxtTrain {
    pub name: String,
    pub delay: i32,
    pub final_delay: i32,
    pub visits: Vec<TxtVisit>,
}

/// A visit of a solution file.
#[derive(Debug)]
pub struct TxtVisit {
    pub track_name: String,
    pub aimed_departure_time: i32,
    pub wait_time: i32,
    pub delay: i32,
    pub run_time: i32,
    pub final_time_scheduled: i32,
}

/// A visit as values: track name, aimed departure, wait time, delay, run
/// time, final time.
pub type VisitView = (Seq<char>, i32, i32, i32, i32, i32);

/// A train as values: name, delay, final delay, visits.
pub type TrainView = (Seq<char>, i32, i32, Seq<VisitView>);

/// A train header as values: name, delay, final delay.
pub type HeaderView = (Seq<char>, i32, i32);

impl TxtVisit {
    pub open spec fn view_of(&self) -> VisitView {
        (
            self.track_name@,
            self.aimed_departure_time,
            self.wait_time,
            self.delay,
            self.run_time,
            self.final_time_scheduled,
        )
    }
}

impl TxtTrain {
    pub open spec fn view_of(&self) -> TrainView {
        (self.name@, self.delay, self.final_delay, self.visits@.map_values(|v: TxtVisit| v.view_of()))
    }
}

/// What reading a part gives: `None` when the reading stops on a failed
/// check of the file's layout, `Some(None)` when the file is refused, and
/// `Some(Some(x))` when `x` is read.
pub type Outcome<T> = Option<Option<T>>;

/// The field `i` read as `key=value` with the given key: refused when the
/// field is missing or has no `=`, stopped when the key is another one.
pub open spec fn keyed_field(fs: Seq<Seq<char>>, i: int, key: Seq<char>) -> Outcome<Seq<char>> {
    if i >= fs.len() {
        Some(None)
    } else {
        match key_value(fs[i]) {
            None => Some(None),
            Some((k, v)) => if k == key {
                Some(Some(v))
            } else {
                None
            },
        }
    }
}

/// A train header line `Train=<name> <any> Delay=<n> FinalDelay=<n>`.
#[verifier::opaque]
pub open spec fn header_line(l: Seq<char>) -> Outcome<HeaderView> {
    let fs = fields(l);
    match keyed_field(fs, 0, "Train"@) {
        None => None,
        Some(None) => Some(None),
        Some(Some(name)) => if fs.len() < 2 {
            Some(None)
        } else {
            match keyed_field(fs, 2, "Delay"@) {
                None => None,
                Some(None) => Some(None),
                Some(Some(d)) => match keyed_field(fs, 3, "FinalDelay"@) {
                    None => None,
                    Some(None) => Some(None),
                    Some(Some(fd)) => match (parse_i32(d), parse_i32(fd)) {
                        (Some(dv), Some(fdv)) => Some(Some((name, dv, fdv))),
                        _ => Some(None),
                    },
                },
            }
        },
    }
}

/// A visit line `<track> TrainID=<name> AimedDepartureTime=<n> WaitTime=<n>
/// Delay=0 RunTime=<n> FinalTimeScheduled=<n>` of the train `name`; a line
/// without fields, another train or a delay other than `0` stops the reading.
#[verifier::opaque]
pub open spec fn visit_line(l: Seq<char>, name: Seq<char>) -> Outcome<VisitView> {
    let fs = fields(l);
    if fs.len() == 0 {
        None
    } else {
        match keyed_field(fs, 1, "TrainID"@) {
            None => None,
            Some(None) => Some(None),
            Some(Some(t)) => if t != name {
                None
            } else {
                match keyed_field(fs, 2, "AimedDepartureTime"@) {
                    None => None,
                    Some(None) => Some(None),
                    Some(Some(a)) => match keyed_field(fs, 3, "WaitTime"@) {
                        None => None,
                        Some(None) => Some(None),
                        Some(Some(w)) => match keyed_field(fs, 4, "Delay"@) {
                            None => None,
                            Some(None) => Some(None),
                            Some(Some(d)) => if d != "0"@ {
                                None
                            } else {
                                match keyed_field(fs, 5, "RunTime"@) {
                                    None => None,
                                    Some(None) => Some(None),
                                    Some(Some(r)) => match keyed_field(fs, 6, "FinalTimeScheduled"@) {
                                        None => None,
                                        Some(None) => Some(None),
                                        Some(Some(f)) => match (
                                            parse_i32(a),
                                            parse_i32(w),
                                            parse_i32(d),
                                            parse_i32(r),
                                            parse_i32(f),
                                        ) {
                                            (Some(av), Some(wv), Some(dv), Some(rv), Some(fv)) => Some(
                                                Some((fs[0], av, wv, dv, rv, fv)),
                                            ),
                                            _ => Some(None),
                                        },
                                    },
                                }
                            },
                        },
                    },
                }
            }
        }
    }
}

/// Reading one line: a header when no train is being read, else a visit of
/// the train being read.
pub open spec fn read_line(l: Seq<char>, header: Option<HeaderView>, visits: Seq<VisitView>) -> Outcome<
    (HeaderView, Seq<VisitView>),
> {
    match header {
        None => match header_line(l) {
            None => None,
            Some(None) => Some(None),
            Some(Some(h)) => Some(Some((h, visits))),
        },
        Some(h) => match visit_line(l, h.0) {
            None => None,
            Some(None) => Some(None),
            Some(Some(v)) => Some(Some((h, visits.push(v)))),
        },
    }
}

/// Reading the lines from `k` on, with the header and visits of the train
/// being read and the trains read so far: a train header, then its visit
/// lines; a train ends before an empty line (which is passed over) or at the
/// end of the file.
pub open spec fn read_trains(
    ls: Seq<Seq<char>>,
    k: int,
    header: Option<HeaderView>,
    visits: Seq<VisitView>,
    trains: Seq<TrainView>,
) -> Outcome<Seq<TrainView>>
    decreases ls.len() + 2 - k,
{
    if k < 0 || k >= ls.len() {
        Some(Some(trains))
    } else {
        match read_line(ls[k], header, visits) {
            None => None,
            Some(None) => Some(None),
            Some(Some((h, vs))) => if k + 1 >= ls.len() || ls[k + 1].len() == 0 {
                read_trains(ls, k + 2, None, seq![], trains.push((h.0, h.1, h.2, vs)))
            } else {
                read_trains(ls, k + 1, Some(h), vs, trains)
            },
        }
    }
}

/// Reading a solution file: two lines of preamble, then the trains.
pub open spec fn solution_txt(txt: Seq<char>) -> Outcome<Seq<TrainView>> {
    let ls = lines(txt);
    if ls.len() < 2 {
        None
    } else {
        read_trains(ls, 2, None, seq![], seq![])
    }
}

/// The header being read, as values.
pub open spec fn header_view(h: Option<(String, i32, i32)>) -> Option<HeaderView> {
    match h {
        Some((n, d, fd)) => Some((n@, d, fd)),
        None => None,
    }
}

/// The fields of a line, as texts.
pub open spec fn field_texts(fs: Seq<Vec<char>>) -> Seq<Seq<char>> {
    fs.map_values(|f: Vec<char>| f@)
}

/// Field `i` read as `key=value` with the key `key`, as `keyed_field`
/// says.
fn keyed(fs: &Vec<Vec<char>>, i: usize, key: &str) -> (r: Option<Option<Vec<char>>>)
    ensures
        match r {
            None => keyed_field(field_texts(fs@), i as int, key@) is None,
            Some(None) => keyed_field(field_texts(fs@), i as int, key@) == Some(None::<Seq<char>>),
            Some(Some(v)) => keyed_field(field_texts(fs@), i as int, key@) == Some(Some(v@)),
        },
{
    if i >= fs.len() {
        return Some(None);
    }
    assert(field_texts(fs@)[i as int] == fs@[i as int]@);
    match split_key_value(fs[i].as_slice()) {
        None => Some(None),
        Some((k, v)) => {
            let kc = chars_of(key);
            if same_chars(k.as_slice(), kc.as_slice()) {
                Some(Some(v))
            } else {
                None
            }
        },
    }
}

/// Reads a train header line, as `header_line` says.
fn parse_header_line(l: &Vec<char>) -> (r: Option<Option<(String, i32, i32)>>)
    ensures
        match r {
            None => header_line(l@) is None,
            Some(None) => header_line(l@) == Some(None::<HeaderView>),
            Some(Some((n, d, fd))) => header_line(l@) == Some(Some((n@, d, fd))),
        },
{
    proof {
        reveal(header_line);
    }
    let fs = fields_of(l);
    proof {
        assert(field_texts(fs@) == fields(l@));
    }
    let name = match keyed(&fs, 0, "Train") {
        None => {
            return None;
        },
        Some(None) => {
            return Some(None);
        },
        Some(Some(v)) => v,
    };
    if fs.len() < 2 {
        return Some(None);
    }
    let d = match keyed(&fs, 2, "Delay") {
        None => {
            return None;
        },
        Some(None) => {
            return Some(None);
        },
        Some(Some(v)) => v,
    };
    let fd = match keyed(&fs, 3, "FinalDelay") {
        None => {
            return None;
        },
        Some(None) => {
            return Some(None);
        },
        Some(Some(v)) => v,
    };
    let dv = parse_i32_chars(d.as_slice());
    let fdv = parse_i32_chars(fd.as_slice());
    match (dv, fdv) {
        (Some(dv), Some(fdv)) => Some(Some((string_of(name.as_slice()), dv, fdv))),
        _ => Some(None),
    }
}

/// Reads a visit line of train `name`, as `visit_line` says.
#[verifier::rlimit(50)]
fn parse_visit_line(l: &Vec<char>, name: &String) -> (r: Option<Option<TxtVisit>>)
    ensures
        match r {
            None => visit_line(l@, name@) is None,
            Some(None) => visit_line(l@, name@) == Some(None::<VisitView>),
            Some(Some(v)) => visit_line(l@, name@) == Some(Some(v.view_of())),
        },
{
    proof {
        reveal(visit_line);
    }
    let fs = fields_of(l);
    proof {
        assert(field_texts(fs@) == fields(l@));
    }
    if fs.len() == 0 {
        return None;
    }
    assert(field_texts(fs@)[0] == fs@[0]@);
    let t = match keyed(&fs, 1, "TrainID") {
        None => {
            return None;
        },
        Some(None) => {
            return Some(None);
        },
        Some(Some(v)) => v,
    };
    let name_chars = chars_of(name.as_str());
    if !same_chars(t.as_slice(), name_chars.as_slice()) {
        return None;
    }
    let a = match keyed(&fs, 2, "AimedDepartureTime") {
        None => {
            return None;
        },
        Some(None) => {
            return Some(None);
        },
        Some(Some(v)) => v,
    };
    let w = match keyed(&fs, 3, "WaitTime") {
        None => {
            return None;
        },
        Some(None) => {
            return Some(None);
        },
        Some(Some(v)) => v,
    };
    let d = match keyed(&fs, 4, "Delay") {
        None => {
            return None;
        },
        Some(None) => {
            return Some(None);
        },
        Some(Some(v)) => v,
    };
    let zero = chars_of("0");
    if !same_chars(d.as_slice(), zero.as_slice()) {
        return None;
    }
    let r = match keyed(&fs, 5, "RunTime") {
        None => {
            return None;
        },
        Some(None) => {
            return Some(None);
        },
        Some(Some(v)) => v,
    };
    let f = match keyed(&fs, 6, "FinalTimeScheduled") {
        None => {
            return None;
        },
        Some(None) => {
            return Some(None);
        },
        Some(Some(v)) => v,
    };
    let av = parse_i32_chars(a.as_slice());
    let wv = parse_i32_chars(w.as_slice());
    let dv = parse_i32_chars(d.as_slice());
    let rv = parse_i32_chars(r.as_slice());
    let fv = parse_i32_chars(f.as_slice());
    match (av, wv, dv, rv, fv) {
        (Some(av), Some(wv), Some(dv), Some(rv), Some(fv)) => {
            let visit = TxtVisit {
                track_name: string_of(fs[0].as_slice()),
                aimed_departure_time: av,
                wait_time: wv,
                delay: dv,
                run_time: rv,
                final_time_scheduled: fv,
            };
            Some(Some(visit))
        },
        _ => Some(None),
    }
}

/// Reads a solution file: after two lines of preamble, each train is a
/// header line `Train=<name> <any> Delay=<n> FinalDelay=<n>` followed by its
/// visit lines, and trains are separated by an empty line. A missing field,
/// a field without `=` or a value that is not an `i32` refuses the file.
/// `None` where the file cannot be read at all: fewer than two lines, a key
/// other than the one expected, a visit line of another train or without
/// fields, or a visit delay other than `0`.
pub fn try_parse_solution_txt(txt: &str) -> (r: Option<Result<Vec<TxtTrain>, TxtParseError>>)
    ensures
        r is None <==> solution_txt(txt@) is None,
        r matches Some(x) ==> match x {
            Ok(ts) => solution_txt(txt@) == Some(Some(ts@.map_values(|t: TxtTrain| t.view_of()))),
            Err(_) => solution_txt(txt@) == Some(None::<Seq<TrainView>>),
        },
{
    let chars = chars_of(txt);
    let ls = lines_of(&chars);
    if ls.len() < 2 {
        return None;
    }
    let ghost lv = ls@.map_values(|l: Vec<char>| l@);
    proof {
        assert(lv == lines(txt@));
        assert forall|i: int| 0 <= i < ls@.len() implies #[trigger] lv[i] == ls@[i]@ by {}
    }
    let ghost total = read_trains(lv, 2, None, seq![], seq![]);
    let mut trains: Vec<TxtTrain> = Vec::new();
    let mut header: Option<(String, i32, i32)> = None;
    let mut visits: Vec<TxtVisit> = Vec::new();
    let mut k: usize = 2;
    proof {
        assert(trains@.map_values(|t: TxtTrain| t.view_of()) =~= Seq::<TrainView>::empty());
        assert(visits@.map_values(|v: TxtVisit| v.view_of()) =~= Seq::<VisitView>::empty());
    }
    while k < ls.len()
        invariant
            2 <= k,
            lv == ls@.map_values(|l: Vec<char>| l@),
            total == solution_txt(txt@),
            read_trains(
                lv,
                k as int,
                header_view(header),
                visits@.map_values(|v: TxtVisit| v.view_of()),
                trains@.map_values(|t: TxtTrain| t.view_of()),
            ) == total,
        decreases ls.len() + 2 - k,
    {
        let ghost vv = visits@.map_values(|v: TxtVisit| v.view_of());
        let ghost tv = trains@.map_values(|t: TxtTrain| t.view_of());
        let ghost hv0 = header_view(header);
        let ghost k0 = k as int;
        proof {
            assert(lv[k as int] == ls@[k as int]@);
        }
        let h: (String, i32, i32) = match header {
            None => {
                match parse_header_line(&ls[k]) {
                    Some(Some(h)) => h,
                    Some(None) => {
                        return Some(Err(TxtParseError));
                    },
                    None => {
                        return None;
                    },
                }
            },
            Some(h) => {
                match parse_visit_line(&ls[k], &h.0) {
                    Some(Some(v)) => {
                        visits.push(v);
                        proof {
                            assert(visits@.map_values(|v: TxtVisit| v.view_of()) =~= vv.push(v.view_of()));
                        }
                        h
                    },
                    Some(None) => {
                        return Some(Err(TxtParseError));
                    },
                    None => {
                        return None;
                    },
                }
            },
        };
        let ghost hh: HeaderView = (h.0@, h.1, h.2);
        let ghost vs = visits@.map_values(|v: TxtVisit| v.view_of());
        proof {
            assert(read_line(lv[k0], hv0, vv) == Some(Some((hh, vs))));
        }
        let ends = k + 1 >= ls.len() || ls[k + 1].len() == 0;
        proof {
            if k + 1 < ls.len() {
                assert(lv[k + 1] == ls@[k + 1]@);
            }
        }
        if ends {
            let mut done: Vec<TxtVisit> = Vec::new();
            std::mem::swap(&mut done, &mut visits);
            let ghost dv = done@.map_values(|v: TxtVisit| v.view_of());
            let train = TxtTrain { name: h.0, delay: h.1, final_delay: h.2, visits: done };
            trains.push(train);
            header = None;
            proof {
                assert(dv == vs);
                assert(train.view_of() == (hh.0, hh.1, hh.2, vs));
                assert(trains@.map_values(|t: TxtTrain| t.view_of()) =~= tv.push(train.view_of()));
                assert(visits@.map_values(|v: TxtVisit| v.view_of()) =~= Seq::<VisitView>::empty());
                assert(read_trains(lv, k0, hv0, vv, tv) == read_trains(
                    lv,
                    k0 + 2,
                    None,
                    seq![],
                    tv.push((hh.0, hh.1, hh.2, vs)),
                ));
            }
            if k + 1 >= ls.len() {
                k = ls.len();
                proof {
                    assert(read_trains(
                        lv,
                        k as int,
                        header_view(header),
                        visits@.map_values(|v: TxtVisit| v.view_of()),
                        trains@.map_values(|t: TxtTrain| t.view_of()),
                    ) == Some(Some(trains@.map_values(|t: TxtTrain| t.view_of()))));
                }
            } else {
                k = k + 2;
            }
        } else {
            header = Some(h);
            proof {
                assert(header_view(header) == Some(hh));
                assert(read_trains(lv, k0, hv0, vv, tv) == read_trains(lv, k0 + 1, Some(hh), vs, tv));
            }
            k = k + 1;
        }
    }
    Some(Ok(trains))
}

/// Reads a solution file whose layout `try_parse_solution_txt` can read.
pub fn parse_solution_txt(txt: &str) -> (r: Result<Vec<TxtTrain>, TxtParseError>)
    requires
        solution_txt(txt@) is Some,
    ensures
        match r {
            Ok(ts) => solution_txt(txt@) == Some(Some(ts@.map_values(|t: TxtTrain| t.view_of()))),
            Err(_) => solution_txt(txt@) == Some(None::<Seq<TrainView>>),
        },
{
    match try_parse_solution_txt(txt) {
        Some(x) => x,
        None => Err(TxtParseError),
    }
}


// ---------------------------------------------------------------------------
// Instance files
// ---------------------------------------------------------------------------

/// What reading an instance file has built so far: the visits of the train
/// being read, the earliest time of its next visit, the names of the trains
/// and of the resources, the solution read along, the trains read and the
/// lines written out.
pub struct TxtRead {
    pub cur: Option<Seq<Visit>>,
    pub next_earliest: Option<i32>,
    pub train_names: Seq<Seq<char>>,
    pub resource_names: Seq<Seq<char>>,
    pub solution: Seq<Seq<i32>>,
    pub trains: Seq<Seq<Visit>>,
    pub written: Seq<Seq<char>>,
}

/// Whether `x` fits in an `i32`.
pub open spec fn i32_ok(x: int) -> bool {
    i32::MIN <= x <= i32::MAX
}

/// Field `i` read as `key=value` with the given key and an `i32` value;
/// `None` where the field is missing, has no `=`, has another key or a value
/// that is no `i32`.
pub open spec fn keyed_value(fs: Seq<Seq<char>>, i: int, key: Seq<char>) -> Option<i32> {
    if 0 <= i < fs.len() {
        match key_value(fs[i]) {
            Some((k, v)) => if k == key {
                parse_i32(v)
            } else {
                None
            },
            None => None,
        }
    } else {
        None
    }
}

/// The first position from `from` on where `names` holds `x`, or the length
/// of `names` where there is none.
pub open spec fn find_name(names: Seq<Seq<char>>, from: int, x: Seq<char>) -> int
    decreases names.len() - from,
{
    if from < 0 || from >= names.len() {
        names.len() as int
    } else if names[from] == x {
        from
    } else {
        find_name(names, from + 1, x)
    }
}

/// The name of the train with the given number.
pub open spec fn train_name_text(id: i32) -> Seq<char> {
    "Train"@ + decimal(id as int)
}

/// A visit line written back with its time from a given solution.
pub open spec fn visit_out_text(
    track: Seq<char>,
    train: Seq<char>,
    a: i32,
    w: i32,
    b: i32,
    r: i32,
    t: i32,
) -> Seq<char> {
    track + " "@ + train + " AimedDepartureTime="@ + decimal(a as int) + " WaitTime="@ + decimal(
        w as int,
    ) + " BaseTime="@ + decimal(b as int) + " RunTime="@ + decimal(r as int) + "\tOptSolTime="@
        + decimal(t as int)
}

/// The aimed times of the station visit and of the track visit of a visit
/// line: `None` where the measurement is not supported or the arrival time
/// does not fit.
pub open spec fn visit_aims(m: DelayMeasurementType, a: i32, w: i32, last: bool) -> Option<
    (Option<i32>, Option<i32>),
> {
    match m {
        DelayMeasurementType::AllStationArrivals => if i32_ok(a - w) {
            Some((Some((a - w) as i32), None))
        } else {
            None
        },
        DelayMeasurementType::AllStationDepartures => Some((None, Some(a))),
        DelayMeasurementType::FinalStationArrival => Some(
            (None, if last {
                Some(a)
            } else {
                None
            }),
        ),
        DelayMeasurementType::EverywhereEarliest => None,
    }
}

/// The solution after a visit with time `t`, wait time `w` and run time `r`:
/// the last row gets the arrival time if it is empty, then `t` and `t + r`.
pub open spec fn solution_after_visit(sol: Seq<Seq<i32>>, t: i32, w: i32, r: i32) -> Seq<Seq<i32>> {
    let row = sol.last();
    let row1 = if row.len() == 0 {
        row.push((t - w) as i32)
    } else {
        row
    };
    sol.update(sol.len() - 1, row1.push(t).push((t + r) as i32))
}

/// Reading a train header `TrainId=<n> Delay=<n> FreeRun=<n>`, which is
/// written out as it is.
pub open spec fn txt_header(st: TxtRead, fs: Seq<Seq<char>>, l: Seq<char>, ws: bool) -> Option<
    TxtRead,
> {
    match (
        keyed_value(fs, 0, "TrainId"@),
        keyed_value(fs, 1, "Delay"@),
        keyed_value(fs, 2, "FreeRun"@),
    ) {
        (Some(id), Some(_), Some(_)) => Some(
            TxtRead {
                cur: Some(Seq::empty()),
                next_earliest: None,
                train_names: st.train_names.push(train_name_text(id)),
                resource_names: st.resource_names,
                solution: if ws {
                    st.solution.push(Seq::empty())
                } else {
                    st.solution
                },
                trains: st.trains,
                written: st.written.push(l),
            },
        ),
        _ => None,
    }
}

/// Reading a visit line `<track> <train> AimedDepartureTime=<n> WaitTime=<n>
/// BaseTime=<n> RunTime=<n>` (and `OptSolTime=<n>` when a solution is read)
/// of the train being read: a visit to the station, then one to the track,
/// which becomes a resource when it is new. `last` tells whether the line
/// is the train's last.
pub open spec fn txt_visit(
    st: TxtRead,
    train: Seq<Visit>,
    fs: Seq<Seq<char>>,
    last: bool,
    m: DelayMeasurementType,
    ws: bool,
    out: Option<Seq<Seq<i32>>>,
) -> Option<TxtRead> {
    let a = keyed_value(fs, 2, "AimedDepartureTime"@);
    let w = keyed_value(fs, 3, "WaitTime"@);
    let b = keyed_value(fs, 4, "BaseTime"@);
    let r = keyed_value(fs, 5, "RunTime"@);
    let s = keyed_value(fs, 6, "OptSolTime"@);
    if fs.len() < 2 || st.train_names.len() == 0 || st.train_names.last() != fs[1] || a is None
        || w is None || b is None || r is None || (ws && s is None) {
        None
    } else {
        let a = a->0;
        let w = w->0;
        let b = b->0;
        let r = r->0;
        let ti = st.trains.len() as int;
        let vi = train.len() + 1int;
        let aims = visit_aims(m, a, w, last);
        let rid = find_name(st.resource_names, 1, fs[0]);
        if (out matches Some(o) && !(ti < o.len() && vi < o[ti].len())) || aims is None || !i32_ok(
            b - w,
        ) || !i32_ok(b + r) || (ws && (st.solution.len() == 0 || (st.solution.last().len() == 0
            && !i32_ok(s->0 - w)) || !i32_ok(s->0 + r))) {
            None
        } else {
            let ein = match st.next_earliest {
                Some(e) => e,
                None => (b - w) as i32,
            };
            let (aim_in, aim_out) = aims->0;
            let v_in = Visit { resource_id: 0, earliest: ein, aimed: aim_in, travel_time: w };
            let v_out = Visit {
                resource_id: rid as usize,
                earliest: b,
                aimed: aim_out,
                travel_time: r,
            };
            Some(
                TxtRead {
                    cur: Some(train.push(v_in).push(v_out)),
                    next_earliest: Some((b + r) as i32),
                    train_names: st.train_names,
                    resource_names: if rid == st.resource_names.len() {
                        st.resource_names.push(fs[0])
                    } else {
                        st.resource_names
                    },
                    solution: if ws {
                        solution_after_visit(st.solution, s->0, w, r)
                    } else {
                        st.solution
                    },
                    trains: st.trains,
                    written: match out {
                        Some(o) => st.written.push(
                            visit_out_text(fs[0], fs[1], a, w, b, r, o[ti][vi]),
                        ),
                        None => st.written,
                    },
                },
            )
        }
    }
}

/// Ending the train being read: a last visit to the station, after the
/// travel time of the last track, and, in the solution, the last time once
/// more.
pub open spec fn txt_close(st: TxtRead, ws: bool) -> Option<TxtRead> {
    match st.cur {
        None => Some(st),
        Some(vs) => {
            if vs.len() == 0 {
                None
            } else {
                let prev = vs.last();
                if !i32_ok(prev.earliest + prev.travel_time) || (ws && (st.solution.len() == 0
                    || st.solution.last().len() == 0)) {
                    None
                } else {
                    let fin = Visit {
                        resource_id: 0,
                        earliest: (prev.earliest + prev.travel_time) as i32,
                        aimed: None,
                        travel_time: 0,
                    };
                    let row = st.solution.last();
                    Some(
                        TxtRead {
                            cur: None,
                            next_earliest: st.next_earliest,
                            train_names: st.train_names,
                            resource_names: st.resource_names,
                            solution: if ws {
                                st.solution.update(st.solution.len() - 1, row.push(row.last()))
                            } else {
                                st.solution
                            },
                            trains: st.trains.push(vs.push(fin)),
                            written: st.written,
                        },
                    )
                }
            }
        },
    }
}

/// Reading line `k`: a blank line is written out and ends the train being
/// read; another is a header when no train is being read and a visit line
/// otherwise; the last line ends the train too.
#[verifier::opaque]
pub open spec fn txt_line(
    st: TxtRead,
    ls: Seq<Seq<char>>,
    k: int,
    m: DelayMeasurementType,
    ws: bool,
    out: Option<Seq<Seq<i32>>>,
) -> Option<TxtRead> {
    let l = ls[k];
    let last_line = k + 1 >= ls.len();
    let next_blank = last_line || blank(ls[k + 1]);
    let st1 = if blank(l) {
        Some(
            TxtRead {
                cur: st.cur,
                next_earliest: st.next_earliest,
                train_names: st.train_names,
                resource_names: st.resource_names,
                solution: st.solution,
                trains: st.trains,
                written: st.written.push(l),
            },
        )
    } else {
        match st.cur {
            None => txt_header(st, fields(l), l, ws),
            Some(train) => txt_visit(st, train, fields(l), next_blank, m, ws, out),
        }
    };
    match st1 {
        None => None,
        Some(s1) => if blank(l) || last_line {
            txt_close(s1, ws)
        } else {
            Some(s1)
        },
    }
}

/// Reading the lines from `k` on; `None` where the reading stops on a line
/// it cannot take.
pub open spec fn txt_run(
    ls: Seq<Seq<char>>,
    k: int,
    st: TxtRead,
    m: DelayMeasurementType,
    ws: bool,
    out: Option<Seq<Seq<i32>>>,
) -> Option<TxtRead>
    decreases ls.len() - k,
{
    if k < 0 || k >= ls.len() {
        Some(st)
    } else {
        match txt_line(st, ls, k, m, ws, out) {
            None => None,
            Some(s) => txt_run(ls, k + 1, s, m, ws, out),
        }
    }
}

/// Nothing read yet: the one resource is the station.
pub open spec fn txt_start() -> TxtRead {
    TxtRead {
        cur: None,
        next_earliest: None,
        train_names: Seq::empty(),
        resource_names: seq!["Any station"@],
        solution: Seq::empty(),
        trains: Seq::empty(),
        written: Seq::empty(),
    }
}

/// Reading an instance text.
pub open spec fn txt_instance(
    txt: Seq<char>,
    m: DelayMeasurementType,
    ws: bool,
    out: Option<Seq<Seq<i32>>>,
) -> Option<TxtRead> {
    txt_run(lines(txt), 0, txt_start(), m, ws, out)
}

/// A solution given as rows of times, as values.
pub open spec fn rows_view(o: Option<Vec<Vec<i32>>>) -> Option<Seq<Seq<i32>>> {
    match o {
        Some(v) => Some(v@.map_values(|row: Vec<i32>| row@)),
        None => None,
    }
}

/// The conflicts of an instance: each track excludes itself.
pub open spec fn self_conflicts(n: int) -> Seq<(usize, usize)> {
    Seq::new((n - 1) as nat, |i: int| ((i + 1) as usize, (i + 1) as usize))
}

/// Whether the characters are all white space.
fn all_white(l: &[char]) -> (r: bool)
    ensures
        r == blank(l@),
{
    let mut i: usize = 0;
    while i < l.len()
        invariant
            i <= l@.len(),
            forall|j: int| 0 <= j < i ==> crate::text::is_white(#[trigger] l@[j]),
        decreases l@.len() - i,
    {
        if !char_is_white(l[i]) {
            return false;
        }
        i = i + 1;
    }
    true
}

/// Whether two texts are equal.
fn same_chars(a: &[char], b: &[char]) -> (r: bool)
    ensures
        r == (a@ == b@),
{
    if a.len() != b.len() {
        return false;
    }
    let mut i: usize = 0;
    while i < a.len()
        invariant
            a@.len() == b@.len(),
            i <= a@.len(),
            forall|j: int| 0 <= j < i ==> a@[j] == b@[j],
        decreases a@.len() - i,
    {
        if a[i] != b[i] {
            return false;
        }
        i = i + 1;
    }
    proof {
        assert(a@ =~= b@);
    }
    true
}

/// Field `i` read as `key=value` with the given key and an `i32` value.
fn keyed_value_of(fs: &Vec<Vec<char>>, i: usize, key: &Vec<char>) -> (r: Option<i32>)
    ensures
        r == keyed_value(field_texts(fs@), i as int, key@),
{
    if i >= fs.len() {
        return None;
    }
    proof {
        assert(field_texts(fs@)[i as int] == fs@[i as int]@);
    }
    match split_key_value(fs[i].as_slice()) {
        Some((k, v)) => {
            if same_chars(k.as_slice(), key.as_slice()) {
                parse_i32_chars(v.as_slice())
            } else {
                None
            }
        },
        None => None,
    }
}

/// The first position from 1 on where `names` holds `x`, or the length of
/// `names`.
fn find_name_of(names: &Vec<Vec<char>>, x: &[char]) -> (r: usize)
    ensures
        r as int == find_name(field_texts(names@), 1, x@),
{
    let ghost nv = field_texts(names@);
    let mut i: usize = 1;
    if names.len() == 0 {
        return 0;
    }
    while i < names.len()
        invariant
            1 <= i <= names@.len(),
            nv == field_texts(names@),
            find_name(nv, 1, x@) == find_name(nv, i as int, x@),
        decreases names@.len() - i,
    {
        proof {
            assert(nv[i as int] == names@[i as int]@);
        }
        if same_chars(names[i].as_slice(), x) {
            return i;
        }
        i = i + 1;
    }
    i
}

/// The name of the train with the given number.
fn train_name(id: i32) -> (s: String)
    ensures
        s@ == train_name_text(id),
{
    let mut s = String::from_str("Train");
    push_decimal_i64(&mut s, id as i64);
    s
}

/// A visit line written back with its time from a given solution.
fn visit_out_line(track: &[char], train: &[char], a: i32, w: i32, b: i32, r: i32, t: i32) -> (s:
    String)
    ensures
        s@ == visit_out_text(track@, train@, a, w, b, r, t),
{
    let mut s = string_of(track);
    s.append(" ");
    let tr = string_of(train);
    s.append(tr.as_str());
    s.append(" AimedDepartureTime=");
    push_decimal_i64(&mut s, a as i64);
    s.append(" WaitTime=");
    push_decimal_i64(&mut s, w as i64);
    s.append(" BaseTime=");
    push_decimal_i64(&mut s, b as i64);
    s.append(" RunTime=");
    push_decimal_i64(&mut s, r as i64);
    s.append("\tOptSolTime=");
    push_decimal_i64(&mut s, t as i64);
    s
}

/// The state of reading an instance file.
struct TxtReader {
    cur: Option<Vec<Visit>>,
    next_earliest: Option<i32>,
    train_names: Vec<String>,
    last_name: Vec<char>,
    resource_names: Vec<Vec<char>>,
    solution: Vec<Vec<i32>>,
    trains: Vec<Train>,
    written: Vec<String>,
}

impl TxtReader {
    spec fn view_of(&self) -> TxtRead {
        TxtRead {
            cur: match self.cur {
                Some(v) => Some(v@),
                None => None,
            },
            next_earliest: self.next_earliest,
            train_names: self.train_names@.map_values(|s: String| s@),
            resource_names: field_texts(self.resource_names@),
            solution: self.solution@.map_values(|row: Vec<i32>| row@),
            trains: self.trains@.map_values(|t: Train| t.visits@),
            written: self.written@.map_values(|s: String| s@),
        }
    }

    spec fn inv(&self) -> bool {
        self.train_names@.len() > 0 ==> self.last_name@ == self.train_names@.last()@
    }

    /// Reads a train header; `false` where the reading stops on it.
    fn header(&mut self, l: &Vec<char>, fs: &Vec<Vec<char>>, ws: bool) -> (ok: bool)
        requires
            old(self).inv(),
        ensures
            ok == txt_header(old(self).view_of(), field_texts(fs@), l@, ws) is Some,
            ok ==> final(self).inv(),
            ok ==> final(self).view_of() == txt_header(
                old(self).view_of(),
                field_texts(fs@),
                l@,
                ws,
            )->0,
    {
        let ghost st = self.view_of();
        let ghost ft = field_texts(fs@);
        let k_id = chars_of("TrainId");
        let k_delay = chars_of("Delay");
        let k_free = chars_of("FreeRun");
        let id = keyed_value_of(fs, 0, &k_id);
        let delay = keyed_value_of(fs, 1, &k_delay);
        let free = keyed_value_of(fs, 2, &k_free);
        let id = match (id, delay, free) {
            (Some(id), Some(_), Some(_)) => id,
            _ => {
                return false;
            },
        };
        let line = string_of(l.as_slice());
        self.written.push(line);
        let name = train_name(id);
        self.last_name = chars_of(name.as_str());
        self.train_names.push(name);
        if ws {
            self.solution.push(Vec::new());
        }
        self.cur = Some(Vec::new());
        self.next_earliest = None;
        proof {
            let r = txt_header(st, ft, l@, ws)->0;
            assert(self.view_of().written =~= r.written);
            assert(self.view_of().train_names =~= r.train_names);
            assert(self.view_of().solution =~= r.solution);
            assert(self.view_of().cur == r.cur);
        }
        true
    }

    /// The aimed times of a visit line, as `visit_aims` gives them.
    fn aims_of(m: DelayMeasurementType, a: i32, w: i32, last: bool) -> (r: Option<
        (Option<i32>, Option<i32>),
    >)
        ensures
            r == visit_aims(m, a, w, last),
    {
        match m {
            DelayMeasurementType::AllStationArrivals => match a.checked_sub(w) {
                Some(x) => Some((Some(x), None)),
                None => None,
            },
            DelayMeasurementType::AllStationDepartures => Some((None, Some(a))),
            DelayMeasurementType::FinalStationArrival => Some(
                (None, if last {
                    Some(a)
                } else {
                    None
                }),
            ),
            DelayMeasurementType::EverywhereEarliest => None,
        }
    }

    /// Reads a visit line of the train being read; `false` where the
    /// reading stops on it.
    #[verifier::rlimit(40)]
    fn visit(
        &mut self,
        fs: &Vec<Vec<char>>,
        last: bool,
        m: DelayMeasurementType,
        ws: bool,
        out: &Option<Vec<Vec<i32>>>,
    ) -> (ok: bool)
        requires
            old(self).inv(),
            old(self).cur is Some,
        ensures
            ok == txt_visit(
                old(self).view_of(),
                old(self).view_of().cur->0,
                field_texts(fs@),
                last,
                m,
                ws,
                rows_view(*out),
            ) is Some,
            ok ==> final(self).inv(),
            ok ==> final(self).view_of() == txt_visit(
                old(self).view_of(),
                old(self).view_of().cur->0,
                field_texts(fs@),
                last,
                m,
                ws,
                rows_view(*out),
            )->0,
    {
        let ghost st = self.view_of();
        let ghost ft = field_texts(fs@);
        let ghost train0 = st.cur->0;
        let ghost spec_r = txt_visit(st, train0, ft, last, m, ws, rows_view(*out));
        if fs.len() < 2 || self.train_names.len() == 0 {
            return false;
        }
        proof {
            assert(ft[0] == fs@[0]@);
            assert(ft[1] == fs@[1]@);
        }
        if !same_chars(self.last_name.as_slice(), fs[1].as_slice()) {
            return false;
        }
        let k_a = chars_of("AimedDepartureTime");
        let k_w = chars_of("WaitTime");
        let k_b = chars_of("BaseTime");
        let k_r = chars_of("RunTime");
        let k_s = chars_of("OptSolTime");
        let (a, w, b, r) = match (
            keyed_value_of(fs, 2, &k_a),
            keyed_value_of(fs, 3, &k_w),
            keyed_value_of(fs, 4, &k_b),
            keyed_value_of(fs, 5, &k_r),
        ) {
            (Some(a), Some(w), Some(b), Some(r)) => (a, w, b, r),
            _ => {
                return false;
            },
        };
        let s = keyed_value_of(fs, 6, &k_s);
        if ws && s.is_none() {
            return false;
        }
        let ti = self.trains.len();
        let mut train = match self.cur.take() {
            Some(v) => v,
            None => Vec::new(),
        };
        proof {
            assert(train@ == train0);
        }
        let t_out: Option<i32> = match out {
            Some(o) => {
                proof {
                    let ov = rows_view(*out)->0;
                    if ti < o@.len() {
                        assert(ov[ti as int] == o@[ti as int]@);
                    }
                }
                if ti >= o.len() {
                    return false;
                }
                let row = &o[ti];
                if row.len() == 0 || train.len() >= row.len() - 1 {
                    return false;
                }
                Some(row[train.len() + 1])
            },
            None => None,
        };
        let aims = match Self::aims_of(m, a, w, last) {
            Some(x) => x,
            None => {
                return false;
            },
        };
        let (default_in, next) = match (b.checked_sub(w), b.checked_add(r)) {
            (Some(x), Some(y)) => (x, y),
            _ => {
                return false;
            },
        };
        let mut sol_row: Option<Vec<i32>> = None;
        if ws {
            let t = s.unwrap();
            let mut row = match self.solution.pop() {
                Some(row) => row,
                None => {
                    return false;
                },
            };
            if row.len() == 0 {
                match t.checked_sub(w) {
                    Some(x) => row.push(x),
                    None => {
                        return false;
                    },
                }
            }
            match t.checked_add(r) {
                Some(x) => {
                    row.push(t);
                    row.push(x);
                },
                None => {
                    return false;
                },
            }
            sol_row = Some(row);
        }
        proof {
            assert(spec_r is Some);
        }
        match t_out {
            Some(t) => {
                let line = visit_out_line(fs[0].as_slice(), fs[1].as_slice(), a, w, b, r, t);
                self.written.push(line);
            },
            None => {},
        }
        let rid = find_name_of(&self.resource_names, fs[0].as_slice());
        if rid == self.resource_names.len() {
            self.resource_names.push(fs[0].clone());
        }
        let earliest_in = match self.next_earliest {
            Some(e) => e,
            None => default_in,
        };
        self.next_earliest = Some(next);
        train.push(Visit { resource_id: 0, earliest: earliest_in, aimed: aims.0, travel_time: w });
        train.push(Visit { resource_id: rid, earliest: b, aimed: aims.1, travel_time: r });
        self.cur = Some(train);
        match sol_row {
            Some(row) => self.solution.push(row),
            None => {},
        }
        proof {
            let res = spec_r->0;
            assert(self.view_of().resource_names =~= res.resource_names);
            assert(self.view_of().written =~= res.written);
            assert(self.view_of().solution =~= res.solution);
            assert(self.view_of().train_names =~= res.train_names);
            assert(self.view_of().trains =~= res.trains);
            assert(self.view_of().cur == res.cur);
        }
        true
    }

    /// Ends the train being read, if there is one; `false` where the
    /// reading stops there.
    fn close(&mut self, ws: bool) -> (ok: bool)
        requires
            old(self).inv(),
        ensures
            ok == txt_close(old(self).view_of(), ws) is Some,
            ok ==> final(self).inv(),
            ok ==> final(self).view_of() == txt_close(old(self).view_of(), ws)->0,
    {
        let ghost st = self.view_of();
        let ghost res = txt_close(st, ws)->0;
        match self.cur.take() {
            None => {},
            Some(mut visits) => {
                if visits.len() == 0 {
                    return false;
                }
                let prev = visits[visits.len() - 1];
                let fin = match prev.earliest.checked_add(prev.travel_time) {
                    Some(x) => x,
                    None => {
                        return false;
                    },
                };
                if ws {
                    let mut row = match self.solution.pop() {
                        Some(row) => row,
                        None => {
                            return false;
                        },
                    };
                    if row.len() == 0 {
                        return false;
                    }
                    let prev_time = row[row.len() - 1];
                    row.push(prev_time);
                    self.solution.push(row);
                }
                visits.push(Visit { resource_id: 0, earliest: fin, aimed: None, travel_time: 0 });
                self.trains.push(Train { visits });
                proof {
                    assert(self.view_of().solution =~= res.solution);
                    assert(self.view_of().trains =~= res.trains);
                }
            },
        }
        true
    }
}

/// The names of the resources as strings, and the conflicts of each track
/// with itself.
fn names_and_conflicts(names: &Vec<Vec<char>>) -> (r: (Vec<String>, Vec<(usize, usize)>))
    requires
        names@.len() >= 1,
    ensures
        r.0@.map_values(|s: String| s@) == field_texts(names@),
        r.1@ == self_conflicts(names@.len() as int),
{
    let ghost rn = field_texts(names@);
    let mut out: Vec<String> = Vec::new();
    let mut conflicts: Vec<(usize, usize)> = Vec::new();
    out.push(string_of(names[0].as_slice()));
    let mut i: usize = 1;
    proof {
        assert(rn[0] == names@[0]@);
        assert(out@.map_values(|s: String| s@) =~= rn.take(1));
        assert(conflicts@ =~= self_conflicts(1));
    }
    while i < names.len()
        invariant
            rn == field_texts(names@),
            1 <= i <= names@.len(),
            out@.map_values(|s: String| s@) == rn.take(i as int),
            conflicts@ == self_conflicts(i as int),
        decreases names@.len() - i,
    {
        let ghost before = out@.map_values(|s: String| s@);
        out.push(string_of(names[i].as_slice()));
        conflicts.push((i, i));
        proof {
            assert(rn[i as int] == names@[i as int]@);
            assert(rn.take(i + 1) =~= rn.take(i as int).push(rn[i as int]));
            assert(out@.map_values(|s: String| s@) =~= before.push(rn[i as int]));
            assert(conflicts@ =~= self_conflicts(i + 1));
        }
        i = i + 1;
    }
    proof {
        assert(rn.take(i as int) =~= rn);
    }
    (out, conflicts)
}

/// Reads line `k` of the lines `ls`; `false` where the reading stops on it.
fn read_txt_line(
    rd: &mut TxtReader,
    ls: &Vec<Vec<char>>,
    k: usize,
    m: DelayMeasurementType,
    ws: bool,
    out: &Option<Vec<Vec<i32>>>,
) -> (ok: bool)
    requires
        k < ls@.len(),
        old(rd).inv(),
    ensures
        ok == txt_line(old(rd).view_of(), field_texts(ls@), k as int, m, ws, rows_view(*out)) is Some,
        ok ==> final(rd).inv(),
        ok ==> final(rd).view_of().resource_names.len() >= old(rd).view_of().resource_names.len(),
        ok ==> final(rd).view_of() == txt_line(
            old(rd).view_of(),
            field_texts(ls@),
            k as int,
            m,
            ws,
            rows_view(*out),
        )->0,
{
    let ghost st = rd.view_of();
    let ghost lv = field_texts(ls@);
    proof {
        reveal(txt_line);
        assert(lv[k as int] == ls@[k as int]@);
        if k + 1 < ls.len() {
            assert(lv[k + 1] == ls@[k + 1]@);
        }
    }
    let l = &ls[k];
    let blank_l = all_white(l.as_slice());
    let last_line = k + 1 >= ls.len();
    let next_blank = last_line || all_white(ls[k + 1].as_slice());
    if blank_l {
        rd.written.push(string_of(l.as_slice()));
        proof {
            assert(rd.view_of().written =~= st.written.push(l@));
        }
    } else {
        let fs = fields_of(l);
        proof {
            assert(field_texts(fs@) == fields(l@));
        }
        let ok = if rd.cur.is_none() {
            rd.header(l, &fs, ws)
        } else {
            rd.visit(&fs, next_blank, m, ws, out)
        };
        if !ok {
            return false;
        }
    }
    if blank_l || last_line {
        rd.close(ws)
    } else {
        true
    }
}

/// What reading an instance text gives: the problem, the solution read
/// along, and the lines written out.
pub type TxtInstance = (NamedProblem, Option<Vec<Vec<i32>>>, Vec<String>);

/// Whether `r` is what reading the instance text gives, named `name`.
pub open spec fn is_txt_instance(
    r: TxtInstance,
    name: Seq<char>,
    st: TxtRead,
    with_solution: bool,
) -> bool {
    &&& r.0.problem.name@ == name
    &&& r.0.problem.trains@.map_values(|t: Train| t.visits@) == st.trains
    &&& r.0.problem.conflicts@ == self_conflicts(st.resource_names.len() as int)
    &&& r.0.train_names@.map_values(|s: String| s@) == st.train_names
    &&& r.0.resource_names@.map_values(|s: String| s@) == st.resource_names
    &&& with_solution ==> (r.1 matches Some(sol) && sol@.map_values(|row: Vec<i32>| row@)
        == st.solution)
    &&& !with_solution ==> r.1 is None
    &&& r.2@.map_values(|s: String| s@) == st.written
}

/// Reads the text of the instance file named `instance_fn`, or `None` where
/// a line cannot be read (see `read_txt_file`).
pub fn try_read_txt_file(
    instance_fn: &str,
    instance_txt: &str,
    measurement: DelayMeasurementType,
    with_solution: bool,
    output_solution: Option<Vec<Vec<i32>>>,
) -> (r: Option<TxtInstance>)
    ensures
        r is None <==> txt_instance(
            instance_txt@,
            measurement,
            with_solution,
            rows_view(output_solution),
        ) is None,
        r matches Some(x) ==> is_txt_instance(
            x,
            instance_fn@,
            txt_instance(instance_txt@, measurement, with_solution, rows_view(output_solution))->0,
            with_solution,
        ),
{
    let ghost out = rows_view(output_solution);
    let chars = chars_of(instance_txt);
    let ls = lines_of(&chars);
    let ghost lv = field_texts(ls@);
    proof {
        assert(lv == lines(instance_txt@));
    }
    let ghost total = txt_instance(instance_txt@, measurement, with_solution, out);
    let station = chars_of("Any station");
    let mut rd = TxtReader {
        cur: None,
        next_earliest: None,
        train_names: Vec::new(),
        last_name: Vec::new(),
        resource_names: vec![station],
        solution: Vec::new(),
        trains: Vec::new(),
        written: Vec::new(),
    };
    proof {
        assert(rd.view_of().resource_names =~= seq!["Any station"@]);
        assert(rd.view_of().train_names =~= Seq::<Seq<char>>::empty());
        assert(rd.view_of().solution =~= Seq::<Seq<i32>>::empty());
        assert(rd.view_of().trains =~= Seq::<Seq<Visit>>::empty());
        assert(rd.view_of().written =~= Seq::<Seq<char>>::empty());
        assert(rd.view_of() == txt_start());
    }
    let mut k: usize = 0;
    while k < ls.len()
        invariant
            lv == field_texts(ls@),
            txt_run(lv, k as int, rd.view_of(), measurement, with_solution, out) == total,
            total == txt_instance(instance_txt@, measurement, with_solution, out),
            rd.inv(),
            rd.view_of().resource_names.len() >= 1,
            out == rows_view(output_solution),
        decreases ls@.len() - k,
    {
        let ghost st = rd.view_of();
        proof {
            assert(txt_run(lv, k as int, st, measurement, with_solution, out) == match txt_line(
                st,
                lv,
                k as int,
                measurement,
                with_solution,
                out,
            ) {
                None => None,
                Some(s) => txt_run(lv, k + 1, s, measurement, with_solution, out),
            });
        }
        if !read_txt_line(&mut rd, &ls, k, measurement, with_solution, &output_solution) {
            return None;
        }
        k = k + 1;
    }
    let (resource_names, conflicts) = names_and_conflicts(&rd.resource_names);
    let solution = if with_solution {
        Some(rd.solution)
    } else {
        None
    };
    let problem = Problem { name: String::from_str(instance_fn), trains: rd.trains, conflicts };
    Some((NamedProblem { problem, train_names: rd.train_names, resource_names }, solution, rd.written))
}

/// Reads the text of the instance file named `instance_fn`: trains, each a
/// header line and then a line per track it runs on, separated by blank
/// lines. Each train visits a station before each track and after the last
/// one; the tracks become resources, numbered from 1 as they first occur
/// (0 is the station), and each track excludes itself. With `with_solution`
/// the times of the solution in the file are read too. The lines that are
/// written out (headers, blank lines, and, given a solution, the visit lines
/// with their times) come back as the last part of the result.
pub fn read_txt_file(
    instance_fn: &str,
    instance_txt: &str,
    measurement: DelayMeasurementType,
    with_solution: bool,
    output_solution: Option<Vec<Vec<i32>>>,
) -> (r: TxtInstance)
    requires
        txt_instance(instance_txt@, measurement, with_solution, rows_view(output_solution)) is Some,
    ensures
        is_txt_instance(
            r,
            instance_fn@,
            txt_instance(instance_txt@, measurement, with_solution, rows_view(output_solution))->0,
            with_solution,
        ),
{
    let r = try_read_txt_file(instance_fn, instance_txt, measurement, with_solution, output_solution);
    r.unwrap()
}

} // verus!
