use vstd::prelude::*;
use crate::problem::{DelayMeasurementType, NamedProblem, Problem, Train, Visit};
use crate::text::{all_digits, chars_of, is_digit};

verus! {

/// A node of an XML document. A document is held as its nodes in document
/// order, each naming its parent by position.
pub struct XmlNode {
    pub parent: Option<usize>,
    pub element: bool,
    pub name: String,
    pub attrs: Vec<(String, String)>,
}

/// What a node holds, as text.
pub struct XmlNodeView {
    pub parent: Option<usize>,
    pub element: bool,
    pub name: Seq<char>,
    pub attrs: Seq<(Seq<char>, Seq<char>)>,
}

impl View for XmlNode {
    type V = XmlNodeView;

    open spec fn view(&self) -> XmlNodeView {
        XmlNodeView {
            parent: self.parent,
            element: self.element,
            name: self.name@,
            attrs: self.attrs@.map_values(|a: (String, String)| (a.0@, a.1@)),
        }
    }
}

/// The nodes of a document, as text.
pub open spec fn nodes_view(ns: Seq<XmlNode>) -> Seq<XmlNodeView> {
    ns.map_values(|n: XmlNode| n@)
}

/// The nodes of a parsed document, as text.
pub open spec fn parsed_view(r: Option<Vec<XmlNode>>) -> Option<Seq<XmlNodeView>> {
    match r {
        Some(v) => Some(nodes_view(v@)),
        None => None,
    }
}

/// The nodes that `roxmltree` reads from a text, or `None` where the text is
/// no well-formed document.
pub uninterp spec fn xml_document(text: Seq<char>) -> Option<Seq<XmlNodeView>>;

/// `roxmltree::Document::parse`, with the document's nodes listed as its
/// `descendants` list them: the root first, then every node in document
/// order, so that a node's position is its id. Each node keeps its parent's
/// id, whether it is an element, its local tag name (empty for other nodes)
/// and its attributes' local names and values. The contract names the
/// result only; `None` where parsing fails.
#[verifier::external_body]
fn parse_xml(text: &str) -> (r: Option<Vec<XmlNode>>)
    ensures
        parsed_view(r) == xml_document(text@),
{
    let doc = match roxmltree::Document::parse(text) {
        Ok(d) => d,
        Err(_) => return None,
    };
    Some(doc.descendants().map(|n| XmlNode {
        parent: n.parent().map(|p| p.id().get_usize()),
        element: n.is_element(),
        name: n.tag_name().name().to_string(),
        attrs: n.attributes().map(|a| (a.name().to_string(), a.value().to_string())).collect(),
    }).collect())
}

/// The seconds since the epoch of the date and time that `chrono` reads
/// from a text in a format, or `None` where the text does not match.
pub uninterp spec fn naive_datetime_seconds(text: Seq<char>, format: Seq<char>) -> Option<int>;

/// An `i64` as a mathematical integer.
pub open spec fn opt_int(r: Option<i64>) -> Option<int> {
    match r {
        Some(x) => Some(x as int),
        None => None,
    }
}

/// `chrono::NaiveDateTime::parse_from_str`, taken as seconds since the epoch
/// (`and_utc().timestamp()`). The contract names the result only; `None`
/// where the text does not match the format.
#[verifier::external_body]
fn parse_datetime(text: &str, format: &str) -> (r: Option<i64>)
    ensures
        opt_int(r) == naive_datetime_seconds(text@, format@),
{
    chrono::NaiveDateTime::parse_from_str(text, format).ok().map(|d| d.and_utc().timestamp())
}

/// The format of dates and times in an instance.
pub open spec fn date_format() -> Seq<char> {
    "%Y-%m-%dT%H:%M:%S"@
}

/// Node `j` is a child of node `p`.
pub open spec fn is_child(ns: Seq<XmlNodeView>, j: int, p: int) -> bool {
    ns[j].parent matches Some(q) && q == p
}

/// The first child of `p` from position `j` on with the given tag name.
pub open spec fn child_named_from(ns: Seq<XmlNodeView>, p: int, name: Seq<char>, j: int) -> Option<
    int,
>
    decreases ns.len() - j,
{
    if j < 0 || j >= ns.len() {
        None
    } else if is_child(ns, j, p) && ns[j].name == name {
        Some(j)
    } else {
        child_named_from(ns, p, name, j + 1)
    }
}

/// The first child of `p` with the given tag name.
pub open spec fn child_named(ns: Seq<XmlNodeView>, p: int, name: Seq<char>) -> Option<int> {
    child_named_from(ns, p, name, 0)
}

/// The element children of `p` among the first `k` nodes, in document order.
pub open spec fn elem_children_upto(ns: Seq<XmlNodeView>, p: int, k: int) -> Seq<int>
    decreases k,
{
    if k <= 0 {
        Seq::empty()
    } else {
        let r = elem_children_upto(ns, p, k - 1);
        if is_child(ns, k - 1, p) && ns[k - 1].element {
            r.push(k - 1)
        } else {
            r
        }
    }
}

/// The element children of `p`, in document order.
pub open spec fn elem_children(ns: Seq<XmlNodeView>, p: int) -> Seq<int> {
    elem_children_upto(ns, p, ns.len() as int)
}

/// Positions as integers.
pub open spec fn positions(v: Seq<usize>) -> Seq<int> {
    v.map_values(|j: usize| j as int)
}

/// The value of the first attribute from position `k` on with the given
/// name.
pub open spec fn attr_from(attrs: Seq<(Seq<char>, Seq<char>)>, key: Seq<char>, k: int) -> Option<
    Seq<char>,
>
    decreases attrs.len() - k,
{
    if k < 0 || k >= attrs.len() {
        None
    } else if attrs[k].0 == key {
        Some(attrs[k].1)
    } else {
        attr_from(attrs, key, k + 1)
    }
}

/// The value of a node's attribute with the given name.
pub open spec fn attr(n: XmlNodeView, key: Seq<char>) -> Option<Seq<char>> {
    attr_from(n.attrs, key, 0)
}

/// A node's attribute read as a date and time, in seconds.
pub open spec fn date_attr(n: XmlNodeView, key: Seq<char>) -> Option<int> {
    match attr(n, key) {
        Some(v) => naive_datetime_seconds(v, date_format()),
        None => None,
    }
}

/// A node's attribute read as an `i32`.
pub open spec fn i32_attr(n: XmlNodeView, key: Seq<char>) -> Option<i32> {
    match attr(n, key) {
        Some(v) => crate::text::parse_i32(v),
        None => None,
    }
}

/// A node's attribute read as a `u32`.
pub open spec fn u32_attr(n: XmlNodeView, key: Seq<char>) -> Option<u32> {
    match attr(n, key) {
        Some(v) => crate::text::parse_u32(v),
        None => None,
    }
}

/// A text as an owned string.
fn owned(s: &str) -> (r: String)
    ensures
        r@ == s@,
{
    s.to_owned()
}

/// The element children of node `p`, in document order.
fn element_children(nodes: &Vec<XmlNode>, p: usize) -> (r: Vec<usize>)
    ensures
        positions(r@) == elem_children(nodes_view(nodes@), p as int),
        forall|i: int| 0 <= i < r@.len() ==> r@[i] < nodes@.len(),
{
    let ghost ns = nodes_view(nodes@);
    let mut r: Vec<usize> = Vec::new();
    let mut j: usize = 0;
    while j < nodes.len()
        invariant
            j <= nodes@.len(),
            ns == nodes_view(nodes@),
            positions(r@) == elem_children_upto(ns, p as int, j as int),
            forall|i: int| 0 <= i < r@.len() ==> r@[i] < nodes@.len(),
        decreases nodes@.len() - j,
    {
        let n = &nodes[j];
        proof {
            assert(ns[j as int] == n@);
        }
        let child = match n.parent {
            Some(q) => q == p,
            None => false,
        };
        if child && n.element {
            r.push(j);
            proof {
                assert(positions(r@) =~= positions(r@.drop_last()).push(j as int));
            }
        }
        j = j + 1;
    }
    r
}

/// The first child of node `p` with the given tag name.
fn child_named_node(nodes: &Vec<XmlNode>, p: usize, name: &str) -> (r: Option<usize>)
    ensures
        opt_pos(r) == child_named(nodes_view(nodes@), p as int, name@),
        r matches Some(j) ==> j < nodes@.len(),
{
    let ghost ns = nodes_view(nodes@);
    let key = owned(name);
    let mut j: usize = 0;
    while j < nodes.len()
        invariant
            j <= nodes@.len(),
            ns == nodes_view(nodes@),
            key@ == name@,
            child_named_from(ns, p as int, name@, j as int) == child_named(ns, p as int, name@),
        decreases nodes@.len() - j,
    {
        let n = &nodes[j];
        proof {
            assert(ns[j as int] == n@);
        }
        let child = match n.parent {
            Some(q) => q == p,
            None => false,
        };
        if child && n.name == key {
            return Some(j);
        }
        j = j + 1;
    }
    None
}

/// A position as an integer.
pub open spec fn opt_pos(r: Option<usize>) -> Option<int> {
    match r {
        Some(j) => Some(j as int),
        None => None,
    }
}

/// A string as text.
pub open spec fn opt_text(r: Option<String>) -> Option<Seq<char>> {
    match r {
        Some(s) => Some(s@),
        None => None,
    }
}

/// The value of a node's attribute with the given name.
fn attribute(n: &XmlNode, key: &str) -> (r: Option<String>)
    ensures
        opt_text(r) == attr(n@, key@),
{
    let k = owned(key);
    let ghost attrs = n@.attrs;
    let mut i: usize = 0;
    while i < n.attrs.len()
        invariant
            i <= n.attrs@.len(),
            attrs == n@.attrs,
            k@ == key@,
            attr_from(attrs, key@, i as int) == attr(n@, key@),
        decreases n.attrs@.len() - i,
    {
        proof {
            assert(attrs[i as int] == (n.attrs@[i as int].0@, n.attrs@[i as int].1@));
        }
        if n.attrs[i].0 == k {
            return Some(n.attrs[i].1.clone());
        }
        i = i + 1;
    }
    None
}

/// A node's attribute read as a date and time, in seconds.
fn date_attribute(n: &XmlNode, key: &str) -> (r: Option<i64>)
    ensures
        opt_int(r) == date_attr(n@, key@),
{
    match attribute(n, key) {
        Some(v) => parse_datetime(v.as_str(), "%Y-%m-%dT%H:%M:%S"),
        None => None,
    }
}

/// A node's attribute read as an `i32`.
fn i32_attribute(n: &XmlNode, key: &str) -> (r: Option<i32>)
    ensures
        r == i32_attr(n@, key@),
{
    match attribute(n, key) {
        Some(v) => crate::text::parse_i32_chars(crate::text::chars_of(v.as_str()).as_slice()),
        None => None,
    }
}

/// A node's attribute read as a `u32`.
fn u32_attribute(n: &XmlNode, key: &str) -> (r: Option<u32>)
    ensures
        r == u32_attr(n@, key@),
{
    match attribute(n, key) {
        Some(v) => crate::text::parse_u32_chars(crate::text::chars_of(v.as_str()).as_slice()),
        None => None,
    }
}


/// A track of the network: its id and the two stations it joins.
pub struct Track {
    pub id: String,
    pub a: String,
    pub b: String,
}

/// A track, as text.
pub struct TrackView {
    pub id: Seq<char>,
    pub a: Seq<char>,
    pub b: Seq<char>,
}

impl View for Track {
    type V = TrackView;

    open spec fn view(&self) -> TrackView {
        TrackView { id: self.id@, a: self.a@, b: self.b@ }
    }
}

/// Tracks, as text.
pub open spec fn tracks_view(ts: Seq<Track>) -> Seq<TrackView> {
    ts.map_values(|t: Track| t@)
}

/// The track at node `j`: its `TrackId`, `StationA` and `StationB`, all
/// required; a track holds no elements.
pub open spec fn track_at(ns: Seq<XmlNodeView>, j: int) -> Option<TrackView> {
    match (attr(ns[j], "TrackId"@), attr(ns[j], "StationA"@), attr(ns[j], "StationB"@)) {
        (Some(id), Some(a), Some(b)) => if elem_children(ns, j).len() == 0 {
            Some(TrackView { id, a, b })
        } else {
            None
        },
        _ => None,
    }
}

/// The tracks at the nodes `cs` from position `k` on, after `acc`.
pub open spec fn tracks_from(ns: Seq<XmlNodeView>, cs: Seq<int>, k: int, acc: Seq<TrackView>) -> Option<
    Seq<TrackView>,
>
    decreases cs.len() - k,
{
    if k >= cs.len() {
        Some(acc)
    } else {
        match track_at(ns, cs[k]) {
            Some(t) => tracks_from(ns, cs, k + 1, acc.push(t)),
            None => None,
        }
    }
}

/// No two tracks join the same stations in the same direction.
pub open spec fn pairs_distinct(ts: Seq<TrackView>) -> bool {
    forall|i: int, j: int|
        0 <= i < j < ts.len() ==> !(#[trigger] ts[i].a == #[trigger] ts[j].a && ts[i].b == ts[j].b)
}

/// The tracks under node `t`, which must join distinct pairs of stations.
pub open spec fn network_tracks(ns: Seq<XmlNodeView>, t: int) -> Option<Seq<TrackView>> {
    match tracks_from(ns, elem_children(ns, t), 0, Seq::empty()) {
        Some(ts) => if pairs_distinct(ts) {
            Some(ts)
        } else {
            None
        },
        None => None,
    }
}

/// The first track from position `k` on going from `a` to `b`.
pub open spec fn forward_from(ts: Seq<TrackView>, a: Seq<char>, b: Seq<char>, k: int) -> Option<
    Seq<char>,
>
    decreases ts.len() - k,
{
    if k < 0 || k >= ts.len() {
        None
    } else if ts[k].a == a && ts[k].b == b {
        Some(ts[k].id)
    } else {
        forward_from(ts, a, b, k + 1)
    }
}

/// The first track from position `k` on going from `b` to `a`.
pub open spec fn backward_from(ts: Seq<TrackView>, a: Seq<char>, b: Seq<char>, k: int) -> Option<
    Seq<char>,
>
    decreases ts.len() - k,
{
    if k < 0 || k >= ts.len() {
        None
    } else if ts[k].b == a && ts[k].a == b {
        Some(ts[k].id)
    } else {
        backward_from(ts, a, b, k + 1)
    }
}

/// The track between stations `a` and `b`: one that goes from `a` to `b`,
/// else the first that goes from `b` to `a`.
pub open spec fn connection(ts: Seq<TrackView>, a: Seq<char>, b: Seq<char>) -> Option<Seq<char>> {
    match forward_from(ts, a, b, 0) {
        Some(id) => Some(id),
        None => backward_from(ts, a, b, 0),
    }
}

/// The tracks under node `t`: each with its id and stations and no element
/// inside, and no two joining the same stations in the same direction.
fn read_tracks(nodes: &Vec<XmlNode>, t: usize) -> (r: Option<Vec<Track>>)
    ensures
        match r {
            Some(v) => network_tracks(nodes_view(nodes@), t as int) == Some(tracks_view(v@)),
            None => network_tracks(nodes_view(nodes@), t as int) is None,
        },
{
    let ghost ns = nodes_view(nodes@);
    let cs = element_children(nodes, t);
    let ghost cv = positions(cs@);
    let mut v: Vec<Track> = Vec::new();
    proof {
        assert(tracks_view(v@) =~= Seq::<TrackView>::empty());
    }
    let mut k: usize = 0;
    while k < cs.len()
        invariant
            k <= cs@.len(),
            ns == nodes_view(nodes@),
            cv == positions(cs@),
            cv == elem_children(ns, t as int),
            forall|i: int| 0 <= i < cs@.len() ==> cs@[i] < nodes@.len(),
            tracks_from(ns, cv, k as int, tracks_view(v@)) == tracks_from(ns, cv, 0, Seq::empty()),
        decreases cs@.len() - k,
    {
        let j = cs[k];
        let n = &nodes[j];
        proof {
            assert(ns[j as int] == n@);
            assert(cv[k as int] == j as int);
            assert(tracks_view(Seq::<Track>::empty()) =~= Seq::<TrackView>::empty());
        }
        let id = attribute(n, "TrackId");
        let a = attribute(n, "StationA");
        let b = attribute(n, "StationB");
        let inner = element_children(nodes, j);
        match (id, a, b) {
            (Some(id), Some(a), Some(b)) => {
                if inner.len() != 0 {
                    proof {
                        assert(positions(inner@).len() == inner@.len());
                    }
                    return None;
                }
                proof {
                    assert(positions(inner@).len() == inner@.len());
                }
                let tr = Track { id, a, b };
                let ghost old_tv = tracks_view(v@);
                proof {
                    assert(track_at(ns, j as int) == Some(tr@));
                    assert(cv.len() == cs@.len());
                    assert(tracks_from(ns, cv, k as int, old_tv) == tracks_from(ns, cv, k + 1, old_tv.push(tr@)));
                }
                v.push(tr);
                proof {
                    assert(tracks_view(v@) =~= old_tv.push(tr@));
                }
            },
            _ => {
                return None;
            },
        }
        k = k + 1;
    }
    let ghost tv = tracks_view(v@);
    assert(tracks_from(ns, cv, 0, Seq::empty()) == Some(tv));
    let mut i: usize = 0;
    while i < v.len()
        invariant
            i <= v@.len(),
            tv == tracks_view(v@),
            ns == nodes_view(nodes@),
            cv == elem_children(ns, t as int),
            tracks_from(ns, cv, 0, Seq::empty()) == Some(tv),
            forall|x: int, y: int|
                0 <= x < y < tv.len() && x < i ==> !(#[trigger] tv[x].a == #[trigger] tv[y].a
                    && tv[x].b == tv[y].b),
        decreases v@.len() - i,
    {
        let mut j: usize = i + 1;
        while j < v.len()
            invariant
                i < j <= v@.len(),
                tv == tracks_view(v@),
                ns == nodes_view(nodes@),
                cv == elem_children(ns, t as int),
                tracks_from(ns, cv, 0, Seq::empty()) == Some(tv),
                forall|x: int, y: int|
                    0 <= x < y < tv.len() && x < i ==> !(#[trigger] tv[x].a == #[trigger] tv[y].a
                        && tv[x].b == tv[y].b),
                forall|y: int| i < y < j ==> !(tv[i as int].a == #[trigger] tv[y].a && tv[i as int].b == tv[y].b),
            decreases v@.len() - j,
        {
            if v[i].a == v[j].a && v[i].b == v[j].b {
                proof {
                    assert(tv[i as int].a == tv[j as int].a && tv[i as int].b == tv[j as int].b);
                    assert(!pairs_distinct(tv));
                }
                return None;
            }
            j = j + 1;
        }
        i = i + 1;
    }
    Some(v)
}

/// The track between stations `a` and `b`: one that goes from `a` to `b`,
/// else the first that goes from `b` to `a`.
fn connection_between(ts: &Vec<Track>, a: &String, b: &String) -> (r: Option<String>)
    ensures
        opt_text(r) == connection(tracks_view(ts@), a@, b@),
{
    let ghost tv = tracks_view(ts@);
    let mut k: usize = 0;
    while k < ts.len()
        invariant
            k <= ts@.len(),
            tv == tracks_view(ts@),
            forward_from(tv, a@, b@, k as int) == forward_from(tv, a@, b@, 0),
        decreases ts@.len() - k,
    {
        if ts[k].a == *a && ts[k].b == *b {
            return Some(ts[k].id.clone());
        }
        k = k + 1;
    }
    let mut k: usize = 0;
    while k < ts.len()
        invariant
            k <= ts@.len(),
            tv == tracks_view(ts@),
            forward_from(tv, a@, b@, 0) is None,
            backward_from(tv, a@, b@, k as int) == backward_from(tv, a@, b@, 0),
        decreases ts@.len() - k,
    {
        if ts[k].b == *a && ts[k].a == *b {
            return Some(ts[k].id.clone());
        }
        k = k + 1;
    }
    None
}


/// A resource of the network: a station, or a track.
pub struct Resource {
    pub track: bool,
    pub name: String,
}

impl View for Resource {
    type V = (bool, Seq<char>);

    open spec fn view(&self) -> (bool, Seq<char>) {
        (self.track, self.name@)
    }
}

/// Resources, as text.
pub open spec fn resources_view(rs: Seq<Resource>) -> Seq<(bool, Seq<char>)> {
    rs.map_values(|r: Resource| r@)
}

/// Resources, as text, where there are any.
pub open spec fn opt_resources(r: Option<Vec<Resource>>) -> Option<Seq<(bool, Seq<char>)>> {
    match r {
        Some(v) => Some(resources_view(v@)),
        None => None,
    }
}

/// The stations at the nodes `cs` from position `k` on (their `StationId`),
/// after `acc`.
pub open spec fn stations_from(
    ns: Seq<XmlNodeView>,
    cs: Seq<int>,
    k: int,
    acc: Seq<(bool, Seq<char>)>,
) -> Option<Seq<(bool, Seq<char>)>>
    decreases cs.len() - k,
{
    if k >= cs.len() {
        Some(acc)
    } else {
        match attr(ns[cs[k]], "StationId"@) {
            Some(id) => stations_from(ns, cs, k + 1, acc.push((false, id))),
            None => None,
        }
    }
}

/// Where a track joining stations `a` and `b` goes: after the first position
/// `i`, from `i` on, whose station is next to, or one apart from, the other
/// station. `None` where there is none, or where looking one apart runs past
/// the end.
pub open spec fn slot_from(ro: Seq<(bool, Seq<char>)>, a: Seq<char>, b: Seq<char>, i: int) -> Option<
    int,
>
    decreases ro.len() - i,
{
    if i < 0 || i + 1 >= ro.len() {
        None
    } else {
        let sa = (false, a);
        let sb = (false, b);
        if (ro[i] == sa && ro[i + 1] == sb) || (ro[i] == sb && ro[i + 1] == sa) {
            Some(i)
        } else if (ro[i] == sa || ro[i] == sb) && i + 2 >= ro.len() {
            None
        } else if (ro[i] == sa && ro[i + 2] == sb) || (ro[i] == sb && ro[i + 2] == sa) {
            Some(i)
        } else {
            slot_from(ro, a, b, i + 1)
        }
    }
}

/// The resources after putting the tracks from position `k` on, one by one,
/// behind their slots.
pub open spec fn insert_tracks_from(ro: Seq<(bool, Seq<char>)>, ts: Seq<TrackView>, k: int) -> Option<
    Seq<(bool, Seq<char>)>,
>
    decreases ts.len() - k,
{
    if k < 0 || k >= ts.len() {
        Some(ro)
    } else {
        match slot_from(ro, ts[k].a, ts[k].b, 0) {
            Some(i) => insert_tracks_from(ro.insert(i + 1, (true, ts[k].id)), ts, k + 1),
            None => None,
        }
    }
}

/// The resources of the network in order: the stations under node `st`,
/// with each track put between the stations it joins.
pub open spec fn resource_order(ns: Seq<XmlNodeView>, st: int, ts: Seq<TrackView>) -> Option<
    Seq<(bool, Seq<char>)>,
> {
    match stations_from(ns, elem_children(ns, st), 0, Seq::empty()) {
        Some(ro) => insert_tracks_from(ro, ts, 0),
        None => None,
    }
}

/// The stations under node `st`, in order.
fn read_stations(nodes: &Vec<XmlNode>, st: usize) -> (r: Option<Vec<Resource>>)
    ensures
        opt_resources(r) == stations_from(nodes_view(nodes@), elem_children(nodes_view(nodes@), st as int), 0, Seq::empty()),
{
    let ghost ns = nodes_view(nodes@);
    let cs = element_children(nodes, st);
    let ghost cv = positions(cs@);
    let mut v: Vec<Resource> = Vec::new();
    proof {
        assert(resources_view(v@) =~= Seq::<(bool, Seq<char>)>::empty());
    }
    let mut k: usize = 0;
    while k < cs.len()
        invariant
            k <= cs@.len(),
            ns == nodes_view(nodes@),
            cv == positions(cs@),
            cv == elem_children(ns, st as int),
            forall|i: int| 0 <= i < cs@.len() ==> cs@[i] < nodes@.len(),
            stations_from(ns, cv, k as int, resources_view(v@)) == stations_from(ns, cv, 0, Seq::empty()),
        decreases cs@.len() - k,
    {
        let j = cs[k];
        proof {
            assert(ns[j as int] == nodes@[j as int]@);
            assert(cv[k as int] == j as int);
            assert(cv.len() == cs@.len());
        }
        match attribute(&nodes[j], "StationId") {
            Some(id) => {
                let ghost old_v = resources_view(v@);
                let r = Resource { track: false, name: id };
                v.push(r);
                proof {
                    assert(resources_view(v@) =~= old_v.push(r@));
                }
            },
            None => {
                return None;
            },
        }
        k = k + 1;
    }
    Some(v)
}

/// Whether resource `r` is the station `s`.
fn is_station(r: &Resource, s: &String) -> (b: bool)
    ensures
        b == (r@ == (false, s@)),
{
    !r.track && r.name == *s
}

/// Where a track joining stations `a` and `b` goes (see `slot_from`).
fn track_slot(ro: &Vec<Resource>, a: &String, b: &String) -> (r: Option<usize>)
    ensures
        opt_pos(r) == slot_from(resources_view(ro@), a@, b@, 0),
        r matches Some(i) ==> i + 1 < ro@.len() <= usize::MAX,
{
    let ghost rv = resources_view(ro@);
    let n = ro.len();
    if n == 0 {
        return None;
    }
    let mut i: usize = 0;
    while i < n - 1
        invariant
            n == ro@.len(),
            n > 0,
            rv == resources_view(ro@),
            slot_from(rv, a@, b@, i as int) == slot_from(rv, a@, b@, 0),
        decreases n - i,
    {
        let is_a = is_station(&ro[i], a);
        let is_b = is_station(&ro[i], b);
        let next_a = is_station(&ro[i + 1], a);
        let next_b = is_station(&ro[i + 1], b);
        proof {
            assert(rv[i as int] == ro@[i as int]@);
            assert(rv[i + 1] == ro@[i + 1]@);
        }
        if (is_a && next_b) || (is_b && next_a) {
            return Some(i);
        }
        if (is_a || is_b) && i + 2 >= n {
            return None;
        }
        if is_a || is_b {
            let after_a = is_station(&ro[i + 2], a);
            let after_b = is_station(&ro[i + 2], b);
            proof {
                assert(rv[i + 2] == ro@[i + 2]@);
            }
            if (is_a && after_b) || (is_b && after_a) {
                return Some(i);
            }
        }
        i = i + 1;
    }
    None
}

/// The resources after putting each track, in order, behind its slot.
fn insert_tracks(order: Vec<Resource>, ts: &Vec<Track>) -> (r: Option<Vec<Resource>>)
    ensures
        opt_resources(r) == insert_tracks_from(resources_view(order@), tracks_view(ts@), 0),
{
    let ghost tv = tracks_view(ts@);
    let ghost start = resources_view(order@);
    let mut ro = order;
    let mut k: usize = 0;
    while k < ts.len()
        invariant
            k <= ts@.len(),
            tv == tracks_view(ts@),
            start == resources_view(order@),
            insert_tracks_from(resources_view(ro@), tv, k as int) == insert_tracks_from(start, tv, 0),
        decreases ts@.len() - k,
    {
        proof {
            assert(tv[k as int] == ts@[k as int]@);
        }
        let slot = track_slot(&ro, &ts[k].a, &ts[k].b);
        proof {
            assert(insert_tracks_from(resources_view(ro@), tv, k as int) == match slot_from(
                resources_view(ro@),
                tv[k as int].a,
                tv[k as int].b,
                0,
            ) {
                Some(i) => insert_tracks_from(resources_view(ro@).insert(i + 1, (true, tv[k as int].id)), tv, k + 1),
                None => None,
            });
        }
        match slot {
            Some(i) => {
                let ghost old_rv = resources_view(ro@);
                let r = Resource { track: true, name: ts[k].id.clone() };
                ro.insert(i + 1, r);
                proof {
                    assert(resources_view(ro@) =~= old_rv.insert(i + 1, (true, tv[k as int].id)));
                }
            },
            None => {
                return None;
            },
        }
        k = k + 1;
    }
    Some(ro)
}


/// The least running time of a speed class on a track, in seconds.
pub struct RunningTime {
    pub class: String,
    pub track: String,
    pub seconds: u32,
}

impl View for RunningTime {
    type V = (Seq<char>, Seq<char>, u32);

    open spec fn view(&self) -> (Seq<char>, Seq<char>, u32) {
        (self.class@, self.track@, self.seconds)
    }
}

/// Running times, as text.
pub open spec fn times_view(es: Seq<RunningTime>) -> Seq<(Seq<char>, Seq<char>, u32)> {
    es.map_values(|e: RunningTime| e@)
}

/// The running time of class `c` on track `t` from position `k` on.
pub open spec fn running_time_from(es: Seq<(Seq<char>, Seq<char>, u32)>, c: Seq<char>, t: Seq<char>, k: int) -> Option<
    u32,
>
    decreases es.len() - k,
{
    if k < 0 || k >= es.len() {
        None
    } else if es[k].0 == c && es[k].1 == t {
        Some(es[k].2)
    } else {
        running_time_from(es, c, t, k + 1)
    }
}

/// The running time of class `c` on track `t`.
pub open spec fn running_time(es: Seq<(Seq<char>, Seq<char>, u32)>, c: Seq<char>, t: Seq<char>) -> Option<u32> {
    running_time_from(es, c, t, 0)
}

/// The running times of class `c` at the nodes `cs` from position `m` on
/// (`TrackId` and `MinimumRunningTimeInSeconds`), after `acc`; a track may
/// have one time per class only.
pub open spec fn class_times_from(
    ns: Seq<XmlNodeView>,
    c: Seq<char>,
    cs: Seq<int>,
    m: int,
    acc: Seq<(Seq<char>, Seq<char>, u32)>,
) -> Option<Seq<(Seq<char>, Seq<char>, u32)>>
    decreases cs.len() - m,
{
    if m >= cs.len() {
        Some(acc)
    } else {
        match (attr(ns[cs[m]], "TrackId"@), u32_attr(ns[cs[m]], "MinimumRunningTimeInSeconds"@)) {
            (Some(t), Some(x)) => if running_time(acc, c, t) is Some {
                None
            } else {
                class_times_from(ns, c, cs, m + 1, acc.push((c, t, x)))
            },
            _ => None,
        }
    }
}

/// The running times of the speed classes at the nodes `cs` from position
/// `k` on (each with an `Id` and a `Tracks` child), after `acc`.
pub open spec fn running_times_from(
    ns: Seq<XmlNodeView>,
    cs: Seq<int>,
    k: int,
    acc: Seq<(Seq<char>, Seq<char>, u32)>,
) -> Option<Seq<(Seq<char>, Seq<char>, u32)>>
    decreases cs.len() - k,
{
    if k >= cs.len() {
        Some(acc)
    } else {
        match (attr(ns[cs[k]], "Id"@), child_named(ns, cs[k], "Tracks"@)) {
            (Some(c), Some(t)) => match class_times_from(ns, c, elem_children(ns, t), 0, acc) {
                Some(acc2) => running_times_from(ns, cs, k + 1, acc2),
                None => None,
            },
            _ => None,
        }
    }
}

/// The running times under the `RunningTimes` child of node `root`.
pub open spec fn running_times(ns: Seq<XmlNodeView>, root: int) -> Option<Seq<(Seq<char>, Seq<char>, u32)>> {
    match child_named(ns, root, "RunningTimes"@) {
        Some(r) => running_times_from(ns, elem_children(ns, r), 0, Seq::empty()),
        None => None,
    }
}

/// Running times, as text, where there are any.
pub open spec fn opt_times(r: Option<Vec<RunningTime>>) -> Option<Seq<(Seq<char>, Seq<char>, u32)>> {
    match r {
        Some(v) => Some(times_view(v@)),
        None => None,
    }
}

/// The running time of class `c` on track `t`.
fn lookup_running_time(es: &Vec<RunningTime>, c: &String, t: &String) -> (r: Option<u32>)
    ensures
        r == running_time(times_view(es@), c@, t@),
{
    let ghost ev = times_view(es@);
    let mut k: usize = 0;
    while k < es.len()
        invariant
            k <= es@.len(),
            ev == times_view(es@),
            running_time_from(ev, c@, t@, k as int) == running_time(ev, c@, t@),
        decreases es@.len() - k,
    {
        proof {
            assert(ev[k as int] == es@[k as int]@);
        }
        if es[k].class == *c && es[k].track == *t {
            return Some(es[k].seconds);
        }
        k = k + 1;
    }
    None
}

/// The running times of class `c` under node `tracks`, added to `es`.
fn read_class_times(nodes: &Vec<XmlNode>, c: &String, tracks: usize, es: &mut Vec<RunningTime>) -> (ok: bool)
    ensures
        ok ==> class_times_from(nodes_view(nodes@), c@, elem_children(nodes_view(nodes@), tracks as int), 0, times_view(old(es)@))
            == Some(times_view(final(es)@)),
        !ok ==> class_times_from(nodes_view(nodes@), c@, elem_children(nodes_view(nodes@), tracks as int), 0, times_view(old(es)@))
            is None,
{
    let ghost ns = nodes_view(nodes@);
    let ghost start = times_view(es@);
    let cs = element_children(nodes, tracks);
    let ghost cv = positions(cs@);
    let mut m: usize = 0;
    while m < cs.len()
        invariant
            m <= cs@.len(),
            ns == nodes_view(nodes@),
            cv == positions(cs@),
            cv == elem_children(ns, tracks as int),
            start == times_view(old(es)@),
            forall|i: int| 0 <= i < cs@.len() ==> cs@[i] < nodes@.len(),
            class_times_from(ns, c@, cv, m as int, times_view(es@)) == class_times_from(ns, c@, cv, 0, start),
        decreases cs@.len() - m,
    {
        let j = cs[m];
        let n = &nodes[j];
        proof {
            assert(ns[j as int] == n@);
            assert(cv[m as int] == j as int);
            assert(cv.len() == cs@.len());
        }
        let t = attribute(n, "TrackId");
        let x = u32_attribute(n, "MinimumRunningTimeInSeconds");
        match (t, x) {
            (Some(t), Some(x)) => {
                if lookup_running_time(es, c, &t).is_some() {
                    return false;
                }
                let ghost old_ev = times_view(es@);
                let e = RunningTime { class: c.clone(), track: t, seconds: x };
                es.push(e);
                proof {
                    assert(times_view(es@) =~= old_ev.push(e@));
                }
            },
            _ => {
                return false;
            },
        }
        m = m + 1;
    }
    true
}

/// The running times under the `RunningTimes` child of node `root`.
fn read_running_times(nodes: &Vec<XmlNode>, root: usize) -> (r: Option<Vec<RunningTime>>)
    ensures
        opt_times(r) == running_times(nodes_view(nodes@), root as int),
{
    let ghost ns = nodes_view(nodes@);
    let rt = match child_named_node(nodes, root, "RunningTimes") {
        Some(rt) => rt,
        None => {
            return None;
        },
    };
    let cs = element_children(nodes, rt);
    let ghost cv = positions(cs@);
    let mut es: Vec<RunningTime> = Vec::new();
    proof {
        assert(times_view(es@) =~= Seq::<(Seq<char>, Seq<char>, u32)>::empty());
    }
    let mut k: usize = 0;
    while k < cs.len()
        invariant
            k <= cs@.len(),
            ns == nodes_view(nodes@),
            cv == positions(cs@),
            cv == elem_children(ns, rt as int),
            child_named(ns, root as int, "RunningTimes"@) == Some(rt as int),
            forall|i: int| 0 <= i < cs@.len() ==> cs@[i] < nodes@.len(),
            running_times_from(ns, cv, k as int, times_view(es@)) == running_times_from(ns, cv, 0, Seq::empty()),
        decreases cs@.len() - k,
    {
        let j = cs[k];
        proof {
            assert(ns[j as int] == nodes@[j as int]@);
            assert(cv[k as int] == j as int);
            assert(cv.len() == cs@.len());
        }
        let c = attribute(&nodes[j], "Id");
        let t = child_named_node(nodes, j, "Tracks");
        match (c, t) {
            (Some(c), Some(t)) => {
                if !read_class_times(nodes, &c, t, &mut es) {
                    return None;
                }
            },
            _ => {
                return None;
            },
        }
        k = k + 1;
    }
    Some(es)
}

/// Character `c` is `t` up to ASCII case (`t` in lower case).
pub open spec fn ci(c: char, t: char) -> bool {
    c == t || ('A' <= c <= 'Z' && c as u32 + 32 == t as u32)
}

/// Text `s` is `w` up to ASCII case (`w` in lower case).
pub open spec fn ci_text(s: Seq<char>, w: Seq<char>) -> bool {
    s.len() == w.len() && forall|i: int| 0 <= i < s.len() ==> ci(#[trigger] s[i], w[i])
}

/// The position of the first `e` or `E` from `k` on, or the length.
pub open spec fn exp_pos(s: Seq<char>, k: int) -> int
    decreases s.len() - k,
{
    if k < 0 || k >= s.len() {
        s.len() as int
    } else if ci(s[k], 'e') {
        k
    } else {
        exp_pos(s, k + 1)
    }
}

/// Digits with at most one `.` among them, and at least one digit.
pub open spec fn mantissa_text(m: Seq<char>) -> bool {
    &&& forall|i: int| 0 <= i < m.len() ==> is_digit(#[trigger] m[i]) || m[i] == '.'
    &&& forall|i: int, j: int| 0 <= i < j < m.len() ==> !(#[trigger] m[i] == '.' && #[trigger] m[j] == '.')
    &&& exists|i: int| 0 <= i < m.len() && is_digit(#[trigger] m[i])
}

/// An optional sign and at least one digit.
pub open spec fn exponent_text(x: Seq<char>) -> bool {
    let d = if x.len() > 0 && (x[0] == '+' || x[0] == '-') {
        x.skip(1)
    } else {
        x
    };
    d.len() > 0 && all_digits(d)
}

/// Text that `f32::from_str` reads as a number, by the grammar its
/// documentation gives (with ASCII case ignored): an optional sign, then
/// `inf`, `infinity`, `nan`, or digits with at most one `.` and at least one
/// digit, followed by an optional exponent `e`, an optional sign and digits.
pub open spec fn float_text(s: Seq<char>) -> bool {
    let t = if s.len() > 0 && (s[0] == '+' || s[0] == '-') {
        s.skip(1)
    } else {
        s
    };
    let k = exp_pos(t, 0);
    ||| ci_text(t, "inf"@)
    ||| ci_text(t, "infinity"@)
    ||| ci_text(t, "nan"@)
    ||| (mantissa_text(t.take(k)) && (k == t.len() || exponent_text(t.skip(k + 1))))
}

/// A node's attribute that is there and reads as a number.
pub open spec fn float_attr(n: XmlNodeView, key: Seq<char>) -> bool {
    attr(n, key) matches Some(v) && float_text(v)
}

/// Character `c` is `t` up to ASCII case.
fn ci_char(c: char, t: char) -> (b: bool)
    ensures
        b == ci(c, t),
{
    c == t || ('A' <= c && c <= 'Z' && (c as u32) + 32 == (t as u32))
}

/// The characters `s[from..]` are `w` up to ASCII case.
fn ci_text_at(s: &Vec<char>, from: usize, w: &str) -> (b: bool)
    requires
        from <= s@.len(),
    ensures
        b == ci_text(s@.skip(from as int), w@),
{
    let wv = chars_of(w);
    let ghost t = s@.skip(from as int);
    if s.len() - from != wv.len() {
        return false;
    }
    let mut i: usize = 0;
    while i < wv.len()
        invariant
            t == s@.skip(from as int),
            t.len() == wv@.len(),
            wv@ == w@,
            from <= s@.len(),
            from + wv@.len() == s@.len(),
            s@.len() <= usize::MAX,
            i <= wv@.len(),
            forall|j: int| 0 <= j < i ==> ci(#[trigger] t[j], wv@[j]),
        decreases wv@.len() - i,
    {
        if !ci_char(s[from + i], wv[i]) {
            proof {
                assert(t[i as int] == s@[from + i]);
            }
            return false;
        }
        i = i + 1;
    }
    true
}

/// Digits with at most one `.` and at least one digit, at `s[from..to]`.
fn mantissa_at(s: &Vec<char>, from: usize, to: usize) -> (b: bool)
    requires
        from <= to <= s@.len(),
    ensures
        b == mantissa_text(s@.subrange(from as int, to as int)),
{
    let ghost m = s@.subrange(from as int, to as int);
    let mut dot: Option<usize> = None;
    let mut has_digit = false;
    let mut i: usize = from;
    while i < to
        invariant
            from <= i <= to <= s@.len(),
            m == s@.subrange(from as int, to as int),
            forall|j: int| 0 <= j < i - from ==> is_digit(#[trigger] m[j]) || m[j] == '.',
            dot is None ==> forall|j: int| 0 <= j < i - from ==> #[trigger] m[j] != '.',
            dot matches Some(d) ==> from <= d < i && m[d - from] == '.' && forall|j: int|
                0 <= j < i - from && j != d - from ==> #[trigger] m[j] != '.',
            has_digit == exists|j: int| 0 <= j < i - from && is_digit(#[trigger] m[j]),
        decreases to - i,
    {
        let c = s[i];
        proof {
            assert(m[i - from] == c);
        }
        let cu = c as u32;
        if 48 <= cu && cu <= 57 {
            has_digit = true;
        } else if c == '.' {
            if let Some(d) = dot {
                proof {
                    assert(m[d - from] == '.' && m[i - from] == '.');
                }
                return false;
            }
            dot = Some(i);
        } else {
            proof {
                assert(!(is_digit(m[i - from]) || m[i - from] == '.'));
            }
            return false;
        }
        i = i + 1;
    }
    proof {
        assert forall|a: int, b: int| 0 <= a < b < m.len() implies !(#[trigger] m[a] == '.' && #[trigger] m[b] == '.') by {
            if m[a] == '.' && m[b] == '.' {
                assert(dot is Some);
            }
        }
    }
    has_digit
}

/// An optional sign and at least one digit, at `s[from..]`.
fn exponent_at(s: &Vec<char>, from: usize) -> (b: bool)
    requires
        from <= s@.len(),
    ensures
        b == exponent_text(s@.skip(from as int)),
{
    let ghost x = s@.skip(from as int);
    let start: usize = if from < s.len() && (s[from] == '+' || s[from] == '-') {
        from + 1
    } else {
        from
    };
    let ghost d = s@.skip(start as int);
    proof {
        if start == from + 1 {
            assert(x.skip(1) =~= d);
        } else {
            assert(x =~= d);
        }
        assert(d == (if x.len() > 0 && (x[0] == '+' || x[0] == '-') {
            x.skip(1)
        } else {
            x
        }));
    }
    if start == s.len() {
        return false;
    }
    let mut i: usize = start;
    while i < s.len()
        invariant
            start <= i <= s@.len(),
            d == s@.skip(start as int),
            x == s@.skip(from as int),
            d == (if x.len() > 0 && (x[0] == '+' || x[0] == '-') {
                x.skip(1)
            } else {
                x
            }),
            forall|j: int| 0 <= j < i - start ==> is_digit(#[trigger] d[j]),
        decreases s@.len() - i,
    {
        let cu = s[i] as u32;
        proof {
            assert(d[i - start] == s@[i as int]);
        }
        if !(48 <= cu && cu <= 57) {
            proof {
                assert(!is_digit(d[i - start]));
                assert(!all_digits(d));
            }
            return false;
        }
        i = i + 1;
    }
    true
}

/// Whether `f32::from_str` reads the text as a number (see `float_text`).
fn float_text_ok(s: &String) -> (b: bool)
    ensures
        b == float_text(s@),
{
    let cs = chars_of(s.as_str());
    let start: usize = if cs.len() > 0 && (cs[0] == '+' || cs[0] == '-') {
        1
    } else {
        0
    };
    let ghost t = cs@.skip(start as int);
    proof {
        if start == 0 {
            assert(cs@.skip(0) =~= cs@);
        }
    }
    if ci_text_at(&cs, start, "inf") || ci_text_at(&cs, start, "infinity") || ci_text_at(&cs, start, "nan") {
        return true;
    }
    let mut k: usize = start;
    while k < cs.len() && !ci_char(cs[k], 'e')
        invariant
            start <= k <= cs@.len(),
            t == cs@.skip(start as int),
            exp_pos(t, k - start) == exp_pos(t, 0),
        decreases cs@.len() - k,
    {
        proof {
            assert(t[k - start] == cs@[k as int]);
        }
        k = k + 1;
    }
    proof {
        if k < cs.len() {
            assert(t[k - start] == cs@[k as int]);
        }
        assert(exp_pos(t, k - start) == k - start);
        assert(t.take(k - start) =~= cs@.subrange(start as int, k as int));
        if k < cs.len() {
            assert(t.skip(k - start + 1) =~= cs@.skip(k + 1));
        }
    }
    if !mantissa_at(&cs, start, k) {
        return false;
    }
    if k == cs.len() {
        return true;
    }
    exponent_at(&cs, k + 1)
}

/// A node's attribute that is there and reads as a number.
fn float_attribute(n: &XmlNode, key: &str) -> (b: bool)
    ensures
        b == float_attr(n@, key@),
{
    match attribute(n, key) {
        Some(v) => float_text_ok(&v),
        None => false,
    }
}

/// A delay penalty: a `DelayPenalty` with a station, integer bounds and a
/// value and slope that read as numbers.
pub open spec fn penalty_ok(n: XmlNodeView) -> bool {
    &&& n.name == "DelayPenalty"@
    &&& attr(n, "StationId"@) is Some
    &&& i32_attr(n, "FromSeconds"@) is Some
    &&& i32_attr(n, "ToSeconds"@) is Some
    &&& float_attr(n, "FromValue"@)
    &&& float_attr(n, "Slope"@)
}

/// The delay penalties of a train: `TrainDelayPenalties` with a train and
/// delay penalties only.
pub open spec fn penalties_ok(ns: Seq<XmlNodeView>, j: int) -> bool {
    &&& ns[j].name == "TrainDelayPenalties"@
    &&& attr(ns[j], "TrainId"@) is Some
    &&& forall|i: int|
        0 <= i < elem_children(ns, j).len() ==> #[trigger] penalty_ok(ns[elem_children(ns, j)[i]])
}

/// The objective under node `root`: a `PiecewiseLinear` one, made of delay
/// penalties of trains.
pub open spec fn objective_ok(ns: Seq<XmlNodeView>, root: int) -> bool {
    match child_named(ns, root, "Objective"@) {
        Some(o) => {
            &&& attr(ns[o], "Name"@) == Some("PiecewiseLinear"@)
            &&& forall|i: int|
                0 <= i < elem_children(ns, o).len() ==> #[trigger] penalties_ok(ns, elem_children(ns, o)[i])
        },
        None => false,
    }
}

/// Whether the text of an optional string is the given text.
fn is_text(s: &Option<String>, t: &str) -> (b: bool)
    ensures
        b == (opt_text(*s) == Some(t@)),
{
    match s {
        Some(v) => *v == owned(t),
        None => false,
    }
}

/// Whether a node has the given tag name.
fn has_name(n: &XmlNode, t: &str) -> (b: bool)
    ensures
        b == (n@.name == t@),
{
    n.name == owned(t)
}

/// The delay penalties of the train at node `j`.
fn check_penalties(nodes: &Vec<XmlNode>, j: usize) -> (ok: bool)
    requires
        j < nodes@.len(),
    ensures
        ok == penalties_ok(nodes_view(nodes@), j as int),
{
    let ghost ns = nodes_view(nodes@);
    proof {
        assert(ns[j as int] == nodes@[j as int]@);
    }
    if !has_name(&nodes[j], "TrainDelayPenalties") || attribute(&nodes[j], "TrainId").is_none() {
        return false;
    }
    let cs = element_children(nodes, j);
    let ghost cv = positions(cs@);
    let mut k: usize = 0;
    while k < cs.len()
        invariant
            k <= cs@.len(),
            ns == nodes_view(nodes@),
            cv == positions(cs@),
            cv == elem_children(ns, j as int),
            forall|i: int| 0 <= i < cs@.len() ==> cs@[i] < nodes@.len(),
            forall|i: int| 0 <= i < k ==> #[trigger] penalty_ok(ns[cv[i]]),
        decreases cs@.len() - k,
    {
        let d = &nodes[cs[k]];
        proof {
            assert(ns[cs@[k as int] as int] == d@);
            assert(cv[k as int] == cs@[k as int] as int);
            assert(cv.len() == cs@.len());
        }
        if !(has_name(d, "DelayPenalty") && attribute(d, "StationId").is_some() && i32_attribute(
            d,
            "FromSeconds",
        ).is_some() && i32_attribute(d, "ToSeconds").is_some() && float_attribute(d, "FromValue")
            && float_attribute(d, "Slope")) {
            proof {
                assert(!penalty_ok(ns[cv[k as int]]));
            }
            return false;
        }
        k = k + 1;
    }
    proof {
        assert(cv.len() == cs@.len());
    }
    true
}

/// Whether the objective under node `root` is a `PiecewiseLinear` one made
/// of delay penalties of trains.
fn check_objective(nodes: &Vec<XmlNode>, root: usize) -> (ok: bool)
    ensures
        ok == objective_ok(nodes_view(nodes@), root as int),
{
    let ghost ns = nodes_view(nodes@);
    let o = match child_named_node(nodes, root, "Objective") {
        Some(o) => o,
        None => {
            return false;
        },
    };
    proof {
        assert(ns[o as int] == nodes@[o as int]@);
    }
    if !is_text(&attribute(&nodes[o], "Name"), "PiecewiseLinear") {
        return false;
    }
    let cs = element_children(nodes, o);
    let ghost cv = positions(cs@);
    let mut k: usize = 0;
    while k < cs.len()
        invariant
            k <= cs@.len(),
            ns == nodes_view(nodes@),
            cv == positions(cs@),
            cv == elem_children(ns, o as int),
            child_named(ns, root as int, "Objective"@) == Some(o as int),
            attr(ns[o as int], "Name"@) == Some("PiecewiseLinear"@),
            forall|i: int| 0 <= i < cs@.len() ==> cs@[i] < nodes@.len(),
            forall|i: int| 0 <= i < k ==> #[trigger] penalties_ok(ns, cv[i]),
        decreases cs@.len() - k,
    {
        proof {
            assert(cv[k as int] == cs@[k as int] as int);
            assert(cv.len() == cs@.len());
        }
        if !check_penalties(nodes, cs[k]) {
            return false;
        }
        k = k + 1;
    }
    proof {
        assert(cv.len() == cs@.len());
    }
    true
}


/// Where a train is when the instance begins.
pub enum TrainPos {
    /// On a track since the given time (seconds).
    OnTrack(String, i64),
    /// In a station since the given time (seconds).
    InStation(String, i64),
    /// Not started yet, with the given delay (seconds).
    NotStarted(i32),
}

/// Where a train is, as text.
pub enum PosView {
    OnTrack(Seq<char>, int),
    InStation(Seq<char>, int),
    NotStarted(i32),
}

impl View for TrainPos {
    type V = PosView;

    open spec fn view(&self) -> PosView {
        match self {
            TrainPos::OnTrack(t, x) => PosView::OnTrack(t@, *x as int),
            TrainPos::InStation(s, x) => PosView::InStation(s@, *x as int),
            TrainPos::NotStarted(d) => PosView::NotStarted(*d),
        }
    }
}

/// Trains and where they are, as text.
pub open spec fn positions_view(ps: Seq<(String, TrainPos)>) -> Seq<(Seq<char>, PosView)> {
    ps.map_values(|p: (String, TrainPos)| (p.0@, p.1@))
}

/// Where train `train` is, by the first entry from position `k` on.
pub open spec fn position_from(ps: Seq<(Seq<char>, PosView)>, train: Seq<char>, k: int) -> Option<PosView>
    decreases ps.len() - k,
{
    if k < 0 || k >= ps.len() {
        None
    } else if ps[k].0 == train {
        Some(ps[k].1)
    } else {
        position_from(ps, train, k + 1)
    }
}

/// Where train `train` is.
pub open spec fn position_of(ps: Seq<(Seq<char>, PosView)>, train: Seq<char>) -> Option<PosView> {
    position_from(ps, train, 0)
}

/// The positions with one more train, which must be new.
pub open spec fn add_pos(ps: Seq<(Seq<char>, PosView)>, train: Seq<char>, p: PosView) -> Option<
    Seq<(Seq<char>, PosView)>,
> {
    if position_of(ps, train) is Some {
        None
    } else {
        Some(ps.push((train, p)))
    }
}

/// The positions after reading the `TrainInfo` at node `j` (with a train,
/// a position and a delay): a train that has left is skipped, one on a
/// track or in a station comes with the place and the time it entered, one
/// offline with its delay, which may not be negative. A train that has stood
/// in a station for over an hour before `now` is taken as cancelled.
pub open spec fn info_step(ns: Seq<XmlNodeView>, j: int, now: int, acc: Seq<(Seq<char>, PosView)>) -> Option<
    Seq<(Seq<char>, PosView)>,
> {
    let n = ns[j];
    match (attr(n, "TrainId"@), attr(n, "Position"@), i32_attr(n, "DelayInSeconds"@)) {
        (Some(train), Some(pos), Some(delay)) => if n.name != "TrainInfo"@ {
            None
        } else if pos == "HasLeftTheNetwork"@ {
            Some(acc)
        } else if pos == "OnConnection"@ {
            match (attr(n, "TrackId"@), date_attr(n, "TimeIn"@)) {
                (Some(t), Some(tin)) => add_pos(acc, train, PosView::OnTrack(t, tin)),
                _ => None,
            }
        } else if pos == "InStation"@ {
            match (attr(n, "StationId"@), date_attr(n, "TimeIn"@)) {
                (Some(st), Some(tin)) => if now - tin > 3600 {
                    Some(acc)
                } else {
                    add_pos(acc, train, PosView::InStation(st, tin))
                },
                _ => None,
            }
        } else if pos == "Offline"@ {
            if delay < 0 {
                None
            } else {
                add_pos(acc, train, PosView::NotStarted(delay))
            }
        } else {
            None
        },
        _ => None,
    }
}

/// The positions after reading the train infos at the nodes `cs` from
/// position `k` on.
pub open spec fn infos_from(
    ns: Seq<XmlNodeView>,
    cs: Seq<int>,
    k: int,
    now: int,
    acc: Seq<(Seq<char>, PosView)>,
) -> Option<Seq<(Seq<char>, PosView)>>
    decreases cs.len() - k,
{
    if k >= cs.len() {
        Some(acc)
    } else {
        match info_step(ns, cs[k], now, acc) {
            Some(acc2) => infos_from(ns, cs, k + 1, now, acc2),
            None => None,
        }
    }
}

/// The time the instance begins and where the trains are then: from the
/// one `Snapshot` (with index 0) under `Snapshots`, whose one element holds
/// the train infos.
pub open spec fn train_positions(ns: Seq<XmlNodeView>, root: int) -> Option<(int, Seq<(Seq<char>, PosView)>)> {
    match child_named(ns, root, "Snapshots"@) {
        None => None,
        Some(sn) => {
            let snaps = elem_children(ns, sn);
            if snaps.len() != 1 {
                None
            } else {
                let sp = snaps[0];
                if ns[sp].name != "Snapshot"@ || attr(ns[sp], "Index"@) != Some("0"@) {
                    None
                } else {
                    match date_attr(ns[sp], "Now"@) {
                        None => None,
                        Some(now) => {
                            let infos = elem_children(ns, sp);
                            if infos.len() != 1 {
                                None
                            } else {
                                match infos_from(ns, elem_children(ns, infos[0]), 0, now, Seq::empty()) {
                                    Some(ps) => Some((now, ps)),
                                    None => None,
                                }
                            }
                        },
                    }
                }
            }
        },
    }
}

/// The entry for train `train`, if there is one.
fn find_position(ps: &Vec<(String, TrainPos)>, train: &String) -> (r: Option<usize>)
    ensures
        match r {
            Some(i) => i < ps@.len() && position_of(positions_view(ps@), train@) == Some(ps@[i as int].1@),
            None => position_of(positions_view(ps@), train@) is None,
        },
{
    let ghost pv = positions_view(ps@);
    let mut k: usize = 0;
    while k < ps.len()
        invariant
            k <= ps@.len(),
            pv == positions_view(ps@),
            position_from(pv, train@, k as int) == position_of(pv, train@),
        decreases ps@.len() - k,
    {
        proof {
            assert(pv[k as int] == (ps@[k as int].0@, ps@[k as int].1@));
        }
        if ps[k].0 == *train {
            return Some(k);
        }
        k = k + 1;
    }
    None
}

/// Adds a train and its position, unless the train has one already.
fn push_position(ps: &mut Vec<(String, TrainPos)>, train: String, p: TrainPos) -> (ok: bool)
    ensures
        ok ==> add_pos(positions_view(old(ps)@), train@, p@) == Some(positions_view(final(ps)@)),
        !ok ==> add_pos(positions_view(old(ps)@), train@, p@) is None,
{
    if find_position(ps, &train).is_some() {
        return false;
    }
    let ghost old_pv = positions_view(ps@);
    let ghost e = (train@, p@);
    ps.push((train, p));
    proof {
        assert(positions_view(ps@) =~= old_pv.push(e));
    }
    true
}

/// Reads the train info at node `j` into `ps` (see `info_step`).
fn read_info(nodes: &Vec<XmlNode>, j: usize, now: i64, ps: &mut Vec<(String, TrainPos)>) -> (ok: bool)
    requires
        j < nodes@.len(),
    ensures
        ok ==> info_step(nodes_view(nodes@), j as int, now as int, positions_view(old(ps)@)) == Some(
            positions_view(final(ps)@),
        ),
        !ok ==> info_step(nodes_view(nodes@), j as int, now as int, positions_view(old(ps)@)) is None,
{
    let ghost ns = nodes_view(nodes@);
    let n = &nodes[j];
    proof {
        assert(ns[j as int] == n@);
    }
    let train = attribute(n, "TrainId");
    let pos = attribute(n, "Position");
    let delay = i32_attribute(n, "DelayInSeconds");
    let (train, pos, delay) = match (train, pos, delay) {
        (Some(t), Some(p), Some(d)) => (t, p, d),
        _ => {
            return false;
        },
    };
    if !has_name(n, "TrainInfo") {
        return false;
    }
    let pos = Some(pos);
    if is_text(&pos, "HasLeftTheNetwork") {
        return true;
    }
    if is_text(&pos, "OnConnection") {
        let t = attribute(n, "TrackId");
        let tin = date_attribute(n, "TimeIn");
        return match (t, tin) {
            (Some(t), Some(tin)) => push_position(ps, train, TrainPos::OnTrack(t, tin)),
            _ => false,
        };
    }
    if is_text(&pos, "InStation") {
        let st = attribute(n, "StationId");
        let tin = date_attribute(n, "TimeIn");
        return match (st, tin) {
            (Some(st), Some(tin)) => {
                let inactive: i128 = now as i128 - tin as i128;
                if inactive > 3600 {
                    true
                } else {
                    push_position(ps, train, TrainPos::InStation(st, tin))
                }
            },
            _ => false,
        };
    }
    if is_text(&pos, "Offline") {
        if delay < 0 {
            return false;
        }
        return push_position(ps, train, TrainPos::NotStarted(delay));
    }
    false
}

/// Where the trains are when the instance begins (see `train_positions`).
fn read_positions(nodes: &Vec<XmlNode>, root: usize) -> (r: Option<(i64, Vec<(String, TrainPos)>)>)
    ensures
        match r {
            Some((now, ps)) => train_positions(nodes_view(nodes@), root as int) == Some(
                (now as int, positions_view(ps@)),
            ),
            None => train_positions(nodes_view(nodes@), root as int) is None,
        },
{
    let ghost ns = nodes_view(nodes@);
    let sn = match child_named_node(nodes, root, "Snapshots") {
        Some(sn) => sn,
        None => {
            return None;
        },
    };
    let snaps = element_children(nodes, sn);
    proof {
        assert(positions(snaps@).len() == snaps@.len());
    }
    if snaps.len() != 1 {
        return None;
    }
    let sp = snaps[0];
    proof {
        assert(positions(snaps@)[0] == sp as int);
        assert(ns[sp as int] == nodes@[sp as int]@);
    }
    if !has_name(&nodes[sp], "Snapshot") || !is_text(&attribute(&nodes[sp], "Index"), "0") {
        return None;
    }
    let now = match date_attribute(&nodes[sp], "Now") {
        Some(now) => now,
        None => {
            return None;
        },
    };
    let infos = element_children(nodes, sp);
    proof {
        assert(positions(infos@).len() == infos@.len());
    }
    if infos.len() != 1 {
        return None;
    }
    proof {
        assert(positions(infos@)[0] == infos@[0] as int);
    }
    let cs = element_children(nodes, infos[0]);
    let ghost cv = positions(cs@);
    proof {
        assert(train_positions(ns, root as int) == match infos_from(ns, cv, 0, now as int, Seq::empty()) {
            Some(ps) => Some((now as int, ps)),
            None => None,
        });
    }
    let mut ps: Vec<(String, TrainPos)> = Vec::new();
    proof {
        assert(positions_view(ps@) =~= Seq::<(Seq<char>, PosView)>::empty());
    }
    let mut k: usize = 0;
    while k < cs.len()
        invariant
            k <= cs@.len(),
            ns == nodes_view(nodes@),
            cv == positions(cs@),
            forall|i: int| 0 <= i < cs@.len() ==> cs@[i] < nodes@.len(),
            train_positions(ns, root as int) == match infos_from(ns, cv, 0, now as int, Seq::empty()) {
                Some(ps) => Some((now as int, ps)),
                None => None,
            },
            infos_from(ns, cv, k as int, now as int, positions_view(ps@)) == infos_from(
                ns,
                cv,
                0,
                now as int,
                Seq::empty(),
            ),
        decreases cs@.len() - k,
    {
        proof {
            assert(cv[k as int] == cs@[k as int] as int);
            assert(cv.len() == cs@.len());
        }
        if !read_info(nodes, cs[k], now, &mut ps) {
            return None;
        }
        k = k + 1;
    }
    proof {
        assert(cv.len() == cs@.len());
    }
    Some((now, ps))
}


/// A visit of a train as read: to a track or a station, the earliest time
/// and the least time it takes (seconds), and the time it is aimed at.
pub struct RawVisit {
    pub track: bool,
    pub name: String,
    pub earliest: i128,
    pub travel: u32,
    pub aimed: Option<i64>,
}

/// A visit as read, as text and integers.
pub struct RawVisitView {
    pub track: bool,
    pub name: Seq<char>,
    pub earliest: int,
    pub travel: int,
    pub aimed: Option<int>,
}

impl View for RawVisit {
    type V = RawVisitView;

    open spec fn view(&self) -> RawVisitView {
        RawVisitView {
            track: self.track,
            name: self.name@,
            earliest: self.earliest as int,
            travel: self.travel as int,
            aimed: opt_int(self.aimed),
        }
    }
}

/// Visits as read.
pub open spec fn raw_view(vs: Seq<RawVisit>) -> Seq<RawVisitView> {
    vs.map_values(|v: RawVisit| v@)
}

/// The earliest times of visits are within the bounds that reading keeps.
pub open spec fn raw_bounded(vs: Seq<RawVisit>) -> bool {
    forall|i: int| 0 <= i < vs.len() ==> i64::MIN + i32::MIN <= #[trigger] vs[i].earliest <= cursor_bound(usize::MAX + 1)
}

/// The station of the stop at node `j`.
pub open spec fn station_of(ns: Seq<XmlNodeView>, j: int) -> Option<Seq<char>> {
    attr(ns[j], "StationId"@)
}

/// The first pair of stops from position `s` on that track `track` joins;
/// `None` where there is none, or where a stop before it has no station or
/// two stops before it are joined by no track.
pub open spec fn track_start_from(
    ns: Seq<XmlNodeView>,
    stops: Seq<int>,
    ts: Seq<TrackView>,
    track: Seq<char>,
    s: int,
) -> Option<int>
    decreases stops.len() - s,
{
    if s < 0 || s + 1 >= stops.len() {
        None
    } else {
        match (station_of(ns, stops[s]), station_of(ns, stops[s + 1])) {
            (Some(a), Some(b)) => match connection(ts, a, b) {
                Some(c) => if c == track {
                    Some(s)
                } else {
                    track_start_from(ns, stops, ts, track, s + 1)
                },
                None => None,
            },
            _ => None,
        }
    }
}

/// The first stop from position `s` on at station `st`; `None` where there
/// is none, or where a stop before it has no station.
pub open spec fn station_start_from(ns: Seq<XmlNodeView>, stops: Seq<int>, st: Seq<char>, s: int) -> Option<int>
    decreases stops.len() - s,
{
    if s < 0 || s >= stops.len() {
        None
    } else {
        match station_of(ns, stops[s]) {
            Some(x) => if x == st {
                Some(s)
            } else {
                station_start_from(ns, stops, st, s + 1)
            },
            None => None,
        }
    }
}

/// The visits of the stops from position `k` on, after `acc`, when the
/// train can enter the first of them at time `cursor`: each stop is a visit
/// to its station aimed at its arrival time, which the train leaves no
/// earlier than its departure time, then a visit to the track to the next
/// stop aimed at the departure time and lasting the class's running time.
pub open spec fn stop_visits_from(
    ns: Seq<XmlNodeView>,
    stops: Seq<int>,
    ts: Seq<TrackView>,
    es: Seq<(Seq<char>, Seq<char>, u32)>,
    class: Seq<char>,
    k: int,
    cursor: int,
    acc: Seq<RawVisitView>,
) -> Option<Seq<RawVisitView>>
    decreases stops.len() - k,
{
    if k < 0 || k >= stops.len() {
        Some(acc)
    } else {
        let n = ns[stops[k]];
        match (attr(n, "StationId"@), date_attr(n, "AimedArrivalTime"@), date_attr(n, "AimedDepartureTime"@)) {
            (Some(st), Some(arr), Some(dep)) => {
                let acc1 = acc.push(
                    RawVisitView { track: false, name: st, earliest: cursor, travel: 0, aimed: Some(arr) },
                );
                let c1 = if cursor >= dep {
                    cursor
                } else {
                    dep
                };
                if k + 1 < stops.len() {
                    match station_of(ns, stops[k + 1]) {
                        Some(next) => match connection(ts, st, next) {
                            Some(t) => match running_time(es, class, t) {
                                Some(tt) => stop_visits_from(
                                    ns,
                                    stops,
                                    ts,
                                    es,
                                    class,
                                    k + 1,
                                    c1 + tt,
                                    acc1.push(
                                        RawVisitView {
                                            track: true,
                                            name: t,
                                            earliest: c1,
                                            travel: tt as int,
                                            aimed: Some(dep),
                                        },
                                    ),
                                ),
                                None => None,
                            },
                            None => None,
                        },
                        None => None,
                    }
                } else {
                    Some(acc1)
                }
            },
            _ => None,
        }
    }
}

/// The visits of a train of class `class` with the given stops (at least
/// two) from where it is: a train on a track first finishes the track, from
/// the first pair of stops it joins; one in a station starts at its first
/// stop there, when it entered; one not started starts at its first stop at
/// the aimed arrival time plus its delay.
pub open spec fn train_visits(
    ns: Seq<XmlNodeView>,
    stops: Seq<int>,
    ts: Seq<TrackView>,
    es: Seq<(Seq<char>, Seq<char>, u32)>,
    class: Seq<char>,
    p: PosView,
) -> Option<Seq<RawVisitView>> {
    match p {
        PosView::OnTrack(track, enter) => match track_start_from(ns, stops, ts, track, 0) {
            Some(s) => match running_time(es, class, track) {
                Some(mrt) => stop_visits_from(
                    ns,
                    stops,
                    ts,
                    es,
                    class,
                    s + 1,
                    enter + mrt,
                    seq![RawVisitView { track: true, name: track, earliest: enter, travel: mrt as int, aimed: None }],
                ),
                None => None,
            },
            None => None,
        },
        PosView::InStation(st, enter) => match station_start_from(ns, stops, st, 0) {
            Some(s) => stop_visits_from(ns, stops, ts, es, class, s, enter, Seq::empty()),
            None => None,
        },
        PosView::NotStarted(delay) => match date_attr(ns[stops[0]], "AimedArrivalTime"@) {
            Some(a) => stop_visits_from(ns, stops, ts, es, class, 0, a + delay, Seq::empty()),
            None => None,
        },
    }
}

/// The bound on a time after `k` running times.
pub open spec fn cursor_bound(k: int) -> int {
    i64::MAX + (k + 1) * 0x1_0000_0000
}

proof fn lemma_cursor_bound(k: int)
    requires
        0 <= k <= usize::MAX + 1,
    ensures
        cursor_bound(k) + 0x1_0000_0000 == cursor_bound(k + 1),
        cursor_bound(k) + 0x1_0000_0000 < 0x1_0000_0000_0000_0000_0000_0000_0000,
{
    assert((k + 1) * 0x1_0000_0000 <= (usize::MAX + 2) * 0x1_0000_0000) by (nonlinear_arith)
        requires
            0 <= k <= usize::MAX + 1,
    ;
    assert((k + 2) * 0x1_0000_0000 == (k + 1) * 0x1_0000_0000 + 0x1_0000_0000) by (nonlinear_arith);
}

/// The first pair of stops joined by track `track` (see `track_start_from`).
fn find_track_start(nodes: &Vec<XmlNode>, stops: &Vec<usize>, ts: &Vec<Track>, track: &String) -> (r: Option<usize>)
    requires
        forall|i: int| 0 <= i < stops@.len() ==> stops@[i] < nodes@.len(),
    ensures
        opt_pos(r) == track_start_from(nodes_view(nodes@), positions(stops@), tracks_view(ts@), track@, 0),
        r matches Some(s) ==> s + 1 < stops@.len() <= usize::MAX,
{
    let ghost ns = nodes_view(nodes@);
    let ghost sv = positions(stops@);
    let mut s: usize = 0;
    while s < stops.len() && s + 1 < stops.len()
        invariant
            ns == nodes_view(nodes@),
            sv == positions(stops@),
            s <= stops@.len(),
            forall|i: int| 0 <= i < stops@.len() ==> stops@[i] < nodes@.len(),
            track_start_from(ns, sv, tracks_view(ts@), track@, s as int) == track_start_from(
                ns,
                sv,
                tracks_view(ts@),
                track@,
                0,
            ),
        decreases stops@.len() - s,
    {
        proof {
            assert(sv.len() == stops@.len());
            assert(sv[s as int] == stops@[s as int] as int);
            assert(sv[s + 1] == stops@[s + 1] as int);
            assert(ns[stops@[s as int] as int] == nodes@[stops@[s as int] as int]@);
            assert(ns[stops@[s + 1] as int] == nodes@[stops@[s + 1] as int]@);
        }
        let a = attribute(&nodes[stops[s]], "StationId");
        let b = attribute(&nodes[stops[s + 1]], "StationId");
        match (a, b) {
            (Some(a), Some(b)) => match connection_between(ts, &a, &b) {
                Some(c) => {
                    if c == *track {
                        return Some(s);
                    }
                },
                None => {
                    return None;
                },
            },
            _ => {
                return None;
            },
        }
        s = s + 1;
    }
    proof {
        assert(sv.len() == stops@.len());
    }
    None
}

/// The first stop at station `st` (see `station_start_from`).
fn find_station_start(nodes: &Vec<XmlNode>, stops: &Vec<usize>, st: &String) -> (r: Option<usize>)
    requires
        forall|i: int| 0 <= i < stops@.len() ==> stops@[i] < nodes@.len(),
    ensures
        opt_pos(r) == station_start_from(nodes_view(nodes@), positions(stops@), st@, 0),
        r matches Some(s) ==> s < stops@.len(),
{
    let ghost ns = nodes_view(nodes@);
    let ghost sv = positions(stops@);
    let mut s: usize = 0;
    while s < stops.len()
        invariant
            ns == nodes_view(nodes@),
            sv == positions(stops@),
            s <= stops@.len(),
            forall|i: int| 0 <= i < stops@.len() ==> stops@[i] < nodes@.len(),
            station_start_from(ns, sv, st@, s as int) == station_start_from(ns, sv, st@, 0),
        decreases stops@.len() - s,
    {
        proof {
            assert(sv.len() == stops@.len());
            assert(sv[s as int] == stops@[s as int] as int);
            assert(ns[stops@[s as int] as int] == nodes@[stops@[s as int] as int]@);
        }
        match attribute(&nodes[stops[s]], "StationId") {
            Some(x) => {
                if x == *st {
                    return Some(s);
                }
            },
            None => {
                return None;
            },
        }
        s = s + 1;
    }
    proof {
        assert(sv.len() == stops@.len());
    }
    None
}


/// Visits as read, where there are any.
pub open spec fn opt_raw(r: Option<Vec<RawVisit>>) -> Option<Seq<RawVisitView>> {
    match r {
        Some(v) => Some(raw_view(v@)),
        None => None,
    }
}

/// The visits of the stops from position `k0` on (see `stop_visits_from`).
fn read_stop_visits(
    nodes: &Vec<XmlNode>,
    stops: &Vec<usize>,
    ts: &Vec<Track>,
    es: &Vec<RunningTime>,
    class: &String,
    k0: usize,
    cursor0: i128,
    acc0: Vec<RawVisit>,
) -> (r: Option<Vec<RawVisit>>)
    requires
        forall|i: int| 0 <= i < stops@.len() ==> stops@[i] < nodes@.len(),
        k0 <= stops@.len(),
        i64::MIN + i32::MIN <= cursor0 <= cursor_bound(k0 as int),
        raw_bounded(acc0@),
    ensures
        r matches Some(v) ==> raw_bounded(v@),
        opt_raw(r) == stop_visits_from(
            nodes_view(nodes@),
            positions(stops@),
            tracks_view(ts@),
            times_view(es@),
            class@,
            k0 as int,
            cursor0 as int,
            raw_view(acc0@),
        ),
{
    let ghost ns = nodes_view(nodes@);
    let ghost sv = positions(stops@);
    let ghost tv = tracks_view(ts@);
    let ghost ev = times_view(es@);
    let ghost goal = stop_visits_from(ns, sv, tv, ev, class@, k0 as int, cursor0 as int, raw_view(acc0@));
    let mut k = k0;
    let mut cursor = cursor0;
    let mut acc = acc0;
    while k < stops.len()
        invariant
            ns == nodes_view(nodes@),
            sv == positions(stops@),
            tv == tracks_view(ts@),
            ev == times_view(es@),
            forall|i: int| 0 <= i < stops@.len() ==> stops@[i] < nodes@.len(),
            k0 <= k <= stops@.len(),
            i64::MIN + i32::MIN <= cursor <= cursor_bound(k as int),
            raw_bounded(acc@),
            goal == stop_visits_from(ns, sv, tv, ev, class@, k0 as int, cursor0 as int, raw_view(acc0@)),
            stop_visits_from(ns, sv, tv, ev, class@, k as int, cursor as int, raw_view(acc@)) == goal,
        decreases stops@.len() - k,
    {
        proof {
            assert(sv.len() == stops@.len());
            assert(sv[k as int] == stops@[k as int] as int);
            assert(ns[stops@[k as int] as int] == nodes@[stops@[k as int] as int]@);
            lemma_cursor_bound(k as int);
        }
        let n = &nodes[stops[k]];
        let st = attribute(n, "StationId");
        let arr = date_attribute(n, "AimedArrivalTime");
        let dep = date_attribute(n, "AimedDepartureTime");
        let (st, arr, dep) = match (st, arr, dep) {
            (Some(st), Some(arr), Some(dep)) => (st, arr, dep),
            _ => {
                return None;
            },
        };
        let c1: i128 = if cursor >= dep as i128 {
            cursor
        } else {
            dep as i128
        };
        let ghost old_acc = raw_view(acc@);
        let sv1 = RawVisit { track: false, name: st, earliest: cursor, travel: 0, aimed: Some(arr) };
        let ghost sv1_view = sv1@;
        if k + 1 < stops.len() {
            proof {
                assert(sv[k + 1] == stops@[k + 1] as int);
                assert(ns[stops@[k + 1] as int] == nodes@[stops@[k + 1] as int]@);
            }
            let next = match attribute(&nodes[stops[k + 1]], "StationId") {
                Some(x) => x,
                None => {
                    return None;
                },
            };
            let t = match connection_between(ts, &sv1.name, &next) {
                Some(t) => t,
                None => {
                    return None;
                },
            };
            let tt = match lookup_running_time(es, class, &t) {
                Some(tt) => tt,
                None => {
                    return None;
                },
            };
            let tv1 = RawVisit { track: true, name: t, earliest: c1, travel: tt, aimed: Some(dep) };
            let ghost tv1_view = tv1@;
            acc.push(sv1);
            acc.push(tv1);
            proof {
                assert(raw_view(acc@) =~= old_acc.push(sv1_view).push(tv1_view));
            }
            cursor = c1 + tt as i128;
        } else {
            acc.push(sv1);
            proof {
                assert(raw_view(acc@) =~= old_acc.push(sv1_view));
            }
        }
        k = k + 1;
    }
    Some(acc)
}

/// The visits of a train of class `class` from where it is (see
/// `train_visits`).
fn read_train_visits(
    nodes: &Vec<XmlNode>,
    stops: &Vec<usize>,
    ts: &Vec<Track>,
    es: &Vec<RunningTime>,
    class: &String,
    p: &TrainPos,
) -> (r: Option<Vec<RawVisit>>)
    requires
        forall|i: int| 0 <= i < stops@.len() ==> stops@[i] < nodes@.len(),
        stops@.len() > 0,
    ensures
        r matches Some(v) ==> raw_bounded(v@),
        opt_raw(r) == train_visits(
            nodes_view(nodes@),
            positions(stops@),
            tracks_view(ts@),
            times_view(es@),
            class@,
            p@,
        ),
{
    proof {
        lemma_cursor_bound(0);
    }
    match p {
        TrainPos::OnTrack(track, enter) => {
            let s = match find_track_start(nodes, stops, ts, track) {
                Some(s) => s,
                None => {
                    return None;
                },
            };
            let mrt = match lookup_running_time(es, class, track) {
                Some(x) => x,
                None => {
                    return None;
                },
            };
            let mut acc: Vec<RawVisit> = Vec::new();
            let first = RawVisit { track: true, name: track.clone(), earliest: *enter as i128, travel: mrt, aimed: None };
            acc.push(first);
            proof {
                assert(raw_view(acc@) =~= seq![
                    RawVisitView { track: true, name: track@, earliest: *enter as int, travel: mrt as int, aimed: None },
                ]);
                lemma_cursor_bound(s as int);
            }
            read_stop_visits(nodes, stops, ts, es, class, s + 1, *enter as i128 + mrt as i128, acc)
        },
        TrainPos::InStation(st, enter) => {
            let s = match find_station_start(nodes, stops, st) {
                Some(s) => s,
                None => {
                    return None;
                },
            };
            let acc: Vec<RawVisit> = Vec::new();
            proof {
                assert(raw_view(acc@) =~= Seq::<RawVisitView>::empty());
                lemma_cursor_bound(s as int);
                assert(cursor_bound(0) <= cursor_bound(s as int)) by (nonlinear_arith)
                    requires
                        s >= 0,
                ;
            }
            read_stop_visits(nodes, stops, ts, es, class, s, *enter as i128, acc)
        },
        TrainPos::NotStarted(delay) => {
            proof {
                assert(positions(stops@)[0] == stops@[0] as int);
                assert(nodes_view(nodes@)[stops@[0] as int] == nodes@[stops@[0] as int]@);
            }
            let a = match date_attribute(&nodes[stops[0]], "AimedArrivalTime") {
                Some(a) => a,
                None => {
                    return None;
                },
            };
            let acc: Vec<RawVisit> = Vec::new();
            proof {
                assert(raw_view(acc@) =~= Seq::<RawVisitView>::empty());
            }
            read_stop_visits(nodes, stops, ts, es, class, 0, a as i128 + *delay as i128, acc)
        },
    }
}


/// A train as read: its id, its visits and its last station.
pub struct ReadTrain {
    pub id: String,
    pub visits: Vec<RawVisit>,
    pub last: String,
}

impl View for ReadTrain {
    type V = (Seq<char>, Seq<RawVisitView>, Seq<char>);

    open spec fn view(&self) -> (Seq<char>, Seq<RawVisitView>, Seq<char>) {
        (self.id@, raw_view(self.visits@), self.last@)
    }
}

/// Trains as read.
pub open spec fn read_trains_view(ts: Seq<ReadTrain>) -> Seq<(Seq<char>, Seq<RawVisitView>, Seq<char>)> {
    ts.map_values(|t: ReadTrain| t@)
}

/// The trains after reading the `TrainSchedule` at node `j`, which has an
/// id, a speed class, a type, an origin, a destination and a length: one
/// with fewer than two stops is skipped, as is one with no position; the
/// others come with their visits and last station.
pub open spec fn schedule_step(
    ns: Seq<XmlNodeView>,
    j: int,
    ps: Seq<(Seq<char>, PosView)>,
    ts: Seq<TrackView>,
    es: Seq<(Seq<char>, Seq<char>, u32)>,
    acc: Seq<(Seq<char>, Seq<RawVisitView>, Seq<char>)>,
) -> Option<Seq<(Seq<char>, Seq<RawVisitView>, Seq<char>)>> {
    let n = ns[j];
    match (attr(n, "TrainId"@), attr(n, "SpeedClass"@)) {
        (Some(id), Some(class)) => if n.name != "TrainSchedule"@ || attr(n, "Type"@) is None || attr(
            n,
            "OriginId"@,
        ) is None || attr(n, "DestinationId"@) is None || u32_attr(n, "Length"@) is None {
            None
        } else {
            let stops = elem_children(ns, j);
            if stops.len() <= 1 {
                Some(acc)
            } else {
                match station_of(ns, stops.last()) {
                    None => None,
                    Some(last) => match position_of(ps, id) {
                        None => Some(acc),
                        Some(p) => match train_visits(ns, stops, ts, es, class, p) {
                            Some(vs) => Some(acc.push((id, vs, last))),
                            None => None,
                        },
                    },
                }
            }
        },
        _ => None,
    }
}

/// The trains after reading the schedules at the nodes `cs` from position
/// `k` on.
pub open spec fn schedules_from(
    ns: Seq<XmlNodeView>,
    cs: Seq<int>,
    k: int,
    ps: Seq<(Seq<char>, PosView)>,
    ts: Seq<TrackView>,
    es: Seq<(Seq<char>, Seq<char>, u32)>,
    acc: Seq<(Seq<char>, Seq<RawVisitView>, Seq<char>)>,
) -> Option<Seq<(Seq<char>, Seq<RawVisitView>, Seq<char>)>>
    decreases cs.len() - k,
{
    if k >= cs.len() {
        Some(acc)
    } else {
        match schedule_step(ns, cs[k], ps, ts, es, acc) {
            Some(acc2) => schedules_from(ns, cs, k + 1, ps, ts, es, acc2),
            None => None,
        }
    }
}

/// Reads the schedule at node `j` into `out` (see `schedule_step`).
fn read_schedule(
    nodes: &Vec<XmlNode>,
    j: usize,
    ps: &Vec<(String, TrainPos)>,
    ts: &Vec<Track>,
    es: &Vec<RunningTime>,
    out: &mut Vec<ReadTrain>,
) -> (ok: bool)
    requires
        j < nodes@.len(),
        forall|i: int| 0 <= i < old(out)@.len() ==> raw_bounded(#[trigger] old(out)@[i].visits@),
    ensures
        forall|i: int| 0 <= i < final(out)@.len() ==> raw_bounded(#[trigger] final(out)@[i].visits@),
        ok ==> schedule_step(
            nodes_view(nodes@),
            j as int,
            positions_view(ps@),
            tracks_view(ts@),
            times_view(es@),
            read_trains_view(old(out)@),
        ) == Some(read_trains_view(final(out)@)),
        !ok ==> schedule_step(
            nodes_view(nodes@),
            j as int,
            positions_view(ps@),
            tracks_view(ts@),
            times_view(es@),
            read_trains_view(old(out)@),
        ) is None,
{
    let ghost ns = nodes_view(nodes@);
    let n = &nodes[j];
    proof {
        assert(ns[j as int] == n@);
    }
    let (id, class) = match (attribute(n, "TrainId"), attribute(n, "SpeedClass")) {
        (Some(id), Some(class)) => (id, class),
        _ => {
            return false;
        },
    };
    if !has_name(n, "TrainSchedule") || attribute(n, "Type").is_none() || attribute(n, "OriginId").is_none()
        || attribute(n, "DestinationId").is_none() || u32_attribute(n, "Length").is_none() {
        return false;
    }
    let stops = element_children(nodes, j);
    proof {
        assert(positions(stops@).len() == stops@.len());
    }
    if stops.len() <= 1 {
        return true;
    }
    let lj = stops[stops.len() - 1];
    proof {
        assert(positions(stops@).last() == lj as int);
        assert(ns[lj as int] == nodes@[lj as int]@);
    }
    let last = match attribute(&nodes[lj], "StationId") {
        Some(x) => x,
        None => {
            return false;
        },
    };
    let pi = match find_position(ps, &id) {
        Some(pi) => pi,
        None => {
            return true;
        },
    };
    match read_train_visits(nodes, &stops, ts, es, &class, &ps[pi].1) {
        Some(vs) => {
            let ghost old_v = read_trains_view(out@);
            let t = ReadTrain { id, visits: vs, last };
            let ghost tv = t@;
            out.push(t);
            proof {
                assert(read_trains_view(out@) =~= old_v.push(tv));
            }
            true
        },
        None => false,
    }
}

/// The last position of resource `key` among the first `k` resources.
pub open spec fn last_index_upto(ro: Seq<(bool, Seq<char>)>, key: (bool, Seq<char>), k: int) -> Option<int>
    decreases k,
{
    if k <= 0 {
        None
    } else if ro[k - 1] == key {
        Some(k - 1)
    } else {
        last_index_upto(ro, key, k - 1)
    }
}

/// The id of resource `key`: its last position.
pub open spec fn last_index(ro: Seq<(bool, Seq<char>)>, key: (bool, Seq<char>)) -> Option<int> {
    last_index_upto(ro, key, ro.len() as int)
}

/// The conflicts of the tracks among the first `k` resources: each track,
/// at its id, conflicts with itself.
pub open spec fn track_conflicts_upto(ro: Seq<(bool, Seq<char>)>, k: int) -> Seq<(usize, usize)>
    decreases k,
{
    if k <= 0 {
        Seq::empty()
    } else {
        let r = track_conflicts_upto(ro, k - 1);
        if ro[k - 1].0 && last_index(ro, ro[k - 1]) == Some(k - 1) {
            r.push(((k - 1) as usize, (k - 1) as usize))
        } else {
            r
        }
    }
}

/// The time a visit is aimed at under a way of measuring delays.
pub open spec fn visit_aim(m: DelayMeasurementType, v: RawVisitView, last: Seq<char>) -> Option<int> {
    match m {
        DelayMeasurementType::AllStationArrivals => if !v.track {
            v.aimed
        } else {
            None
        },
        DelayMeasurementType::AllStationDepartures => if v.track {
            v.aimed
        } else {
            None
        },
        DelayMeasurementType::FinalStationArrival => if !v.track && v.name == last {
            v.aimed
        } else {
            None
        },
        DelayMeasurementType::EverywhereEarliest => Some(v.earliest),
    }
}

/// A visit of the problem: to the resource's id, with times counted from
/// `now` and cut to `i32`.
pub open spec fn problem_visit(
    ro: Seq<(bool, Seq<char>)>,
    v: RawVisitView,
    now: int,
    m: DelayMeasurementType,
    last: Seq<char>,
) -> Option<Visit> {
    match last_index(ro, (v.track, v.name)) {
        Some(rid) => Some(
            Visit {
                resource_id: rid as usize,
                earliest: (v.earliest - now) as i32,
                aimed: match visit_aim(m, v, last) {
                    Some(a) => Some((a - now) as i32),
                    None => None,
                },
                travel_time: v.travel as i32,
            },
        ),
        None => None,
    }
}

/// The visits of the problem for the visits from position `k` on.
pub open spec fn problem_visits_from(
    ro: Seq<(bool, Seq<char>)>,
    vs: Seq<RawVisitView>,
    now: int,
    m: DelayMeasurementType,
    last: Seq<char>,
    k: int,
    acc: Seq<Visit>,
) -> Option<Seq<Visit>>
    decreases vs.len() - k,
{
    if k >= vs.len() {
        Some(acc)
    } else {
        match problem_visit(ro, vs[k], now, m, last) {
            Some(v) => problem_visits_from(ro, vs, now, m, last, k + 1, acc.push(v)),
            None => None,
        }
    }
}

/// The trains of the problem for the trains from position `k` on.
pub open spec fn problem_trains_from(
    ro: Seq<(bool, Seq<char>)>,
    trs: Seq<(Seq<char>, Seq<RawVisitView>, Seq<char>)>,
    now: int,
    m: DelayMeasurementType,
    k: int,
    acc: Seq<Seq<Visit>>,
) -> Option<Seq<Seq<Visit>>>
    decreases trs.len() - k,
{
    if k >= trs.len() {
        Some(acc)
    } else {
        match problem_visits_from(ro, trs[k].1, now, m, trs[k].2, 0, Seq::empty()) {
            Some(t) => problem_trains_from(ro, trs, now, m, k + 1, acc.push(t)),
            None => None,
        }
    }
}


/// The id of resource `(track, name)`: its last position.
fn resource_index(ro: &Vec<Resource>, track: bool, name: &String) -> (r: Option<usize>)
    ensures
        opt_pos(r) == last_index(resources_view(ro@), (track, name@)),
        r matches Some(i) ==> i < ro@.len(),
{
    let ghost rv = resources_view(ro@);
    let mut k: usize = ro.len();
    while k > 0
        invariant
            k <= ro@.len(),
            rv == resources_view(ro@),
            last_index_upto(rv, (track, name@), k as int) == last_index(rv, (track, name@)),
        decreases k,
    {
        proof {
            assert(rv[k - 1] == ro@[k - 1]@);
        }
        if ro[k - 1].track == track && ro[k - 1].name == *name {
            return Some(k - 1);
        }
        k = k - 1;
    }
    None
}

/// The conflicts of the tracks: each track, at its id, with itself.
fn track_conflicts(ro: &Vec<Resource>) -> (r: Vec<(usize, usize)>)
    ensures
        r@ == track_conflicts_upto(resources_view(ro@), ro@.len() as int),
{
    let ghost rv = resources_view(ro@);
    let mut r: Vec<(usize, usize)> = Vec::new();
    let mut k: usize = 0;
    while k < ro.len()
        invariant
            k <= ro@.len(),
            rv == resources_view(ro@),
            r@ == track_conflicts_upto(rv, k as int),
        decreases ro@.len() - k,
    {
        proof {
            assert(rv[k as int] == ro@[k as int]@);
        }
        if ro[k].track {
            let last = resource_index(ro, true, &ro[k].name);
            if last == Some(k) {
                r.push((k, k));
            }
        }
        k = k + 1;
    }
    r
}

/// A visit of the problem (see `problem_visit`).
fn make_visit(ro: &Vec<Resource>, v: &RawVisit, now: i64, m: DelayMeasurementType, last: &String) -> (r: Option<Visit>)
    requires
        i64::MIN + i32::MIN <= v.earliest <= cursor_bound(usize::MAX as int + 1),
    ensures
        r == problem_visit(resources_view(ro@), v@, now as int, m, last@),
{
    let rid = match resource_index(ro, v.track, &v.name) {
        Some(rid) => rid,
        None => {
            return None;
        },
    };
    proof {
        lemma_cursor_bound(usize::MAX as int + 1);
    }
    let aim: Option<i128> = match m {
        DelayMeasurementType::AllStationArrivals => if !v.track {
            match v.aimed {
                Some(a) => Some(a as i128),
                None => None,
            }
        } else {
            None
        },
        DelayMeasurementType::AllStationDepartures => if v.track {
            match v.aimed {
                Some(a) => Some(a as i128),
                None => None,
            }
        } else {
            None
        },
        DelayMeasurementType::FinalStationArrival => if !v.track && v.name == *last {
            match v.aimed {
                Some(a) => Some(a as i128),
                None => None,
            }
        } else {
            None
        },
        DelayMeasurementType::EverywhereEarliest => Some(v.earliest),
    };
    let aimed: Option<i32> = match aim {
        Some(a) => Some(#[verifier::truncate] ((a - now as i128) as i32)),
        None => None,
    };
    Some(
        Visit {
            resource_id: rid,
            earliest: #[verifier::truncate] ((v.earliest - now as i128) as i32),
            aimed,
            travel_time: #[verifier::truncate] (v.travel as i32),
        },
    )
}


/// The visits of the problem for the visits of a train read.
fn make_visits(ro: &Vec<Resource>, t: &ReadTrain, now: i64, m: DelayMeasurementType) -> (r: Option<Vec<Visit>>)
    requires
        raw_bounded(t.visits@),
    ensures
        match r {
            Some(v) => problem_visits_from(resources_view(ro@), raw_view(t.visits@), now as int, m, t.last@, 0, Seq::empty())
                == Some(v@),
            None => problem_visits_from(resources_view(ro@), raw_view(t.visits@), now as int, m, t.last@, 0, Seq::empty())
                is None,
        },
{
    let ghost rv = resources_view(ro@);
    let ghost vv = raw_view(t.visits@);
    let mut out: Vec<Visit> = Vec::new();
    let mut k: usize = 0;
    while k < t.visits.len()
        invariant
            k <= t.visits@.len(),
            rv == resources_view(ro@),
            vv == raw_view(t.visits@),
            raw_bounded(t.visits@),
            problem_visits_from(rv, vv, now as int, m, t.last@, k as int, out@) == problem_visits_from(
                rv,
                vv,
                now as int,
                m,
                t.last@,
                0,
                Seq::empty(),
            ),
        decreases t.visits@.len() - k,
    {
        proof {
            assert(vv[k as int] == t.visits@[k as int]@);
            assert(vv.len() == t.visits@.len());
        }
        match make_visit(ro, &t.visits[k], now, m, &t.last) {
            Some(v) => {
                out.push(v);
            },
            None => {
                return None;
            },
        }
        k = k + 1;
    }
    proof {
        assert(vv.len() == t.visits@.len());
    }
    Some(out)
}

/// The visits of each train.
pub open spec fn trains_visits(v: Seq<Train>) -> Seq<Seq<Visit>> {
    v.map_values(|t: Train| t.visits@)
}

/// The trains of the problem for the trains read.
fn make_trains(ro: &Vec<Resource>, trs: &Vec<ReadTrain>, now: i64, m: DelayMeasurementType) -> (r: Option<Vec<Train>>)
    requires
        forall|i: int| 0 <= i < trs@.len() ==> raw_bounded(#[trigger] trs@[i].visits@),
    ensures
        match r {
            Some(v) => problem_trains_from(resources_view(ro@), read_trains_view(trs@), now as int, m, 0, Seq::empty())
                == Some(trains_visits(v@)),
            None => problem_trains_from(resources_view(ro@), read_trains_view(trs@), now as int, m, 0, Seq::empty())
                is None,
        },
{
    let ghost rv = resources_view(ro@);
    let ghost tv = read_trains_view(trs@);
    let mut out: Vec<Train> = Vec::new();
    proof {
        assert(trains_visits(out@) =~= Seq::<Seq<Visit>>::empty());
    }
    let mut k: usize = 0;
    while k < trs.len()
        invariant
            k <= trs@.len(),
            rv == resources_view(ro@),
            tv == read_trains_view(trs@),
            forall|i: int| 0 <= i < trs@.len() ==> raw_bounded(#[trigger] trs@[i].visits@),
            problem_trains_from(rv, tv, now as int, m, k as int, trains_visits(out@))
                == problem_trains_from(rv, tv, now as int, m, 0, Seq::empty()),
        decreases trs@.len() - k,
    {
        proof {
            assert(tv[k as int] == trs@[k as int]@);
            assert(tv.len() == trs@.len());
        }
        match make_visits(ro, &trs[k], now, m) {
            Some(v) => {
                let ghost old_out = trains_visits(out@);
                let ghost vs = v@;
                out.push(Train { visits: v });
                proof {
                    assert(trains_visits(out@) =~= old_out.push(vs));
                }
            },
            None => {
                return None;
            },
        }
        k = k + 1;
    }
    proof {
        assert(tv.len() == trs@.len());
    }
    Some(out)
}

/// The trains of the schedules under node `sch`, as read.
fn read_schedules(
    nodes: &Vec<XmlNode>,
    sch: usize,
    ps: &Vec<(String, TrainPos)>,
    ts: &Vec<Track>,
    es: &Vec<RunningTime>,
) -> (r: Option<Vec<ReadTrain>>)
    ensures
        r matches Some(v) ==> forall|i: int| 0 <= i < v@.len() ==> raw_bounded(#[trigger] v@[i].visits@),
        match r {
            Some(v) => schedules_from(
                nodes_view(nodes@),
                elem_children(nodes_view(nodes@), sch as int),
                0,
                positions_view(ps@),
                tracks_view(ts@),
                times_view(es@),
                Seq::empty(),
            ) == Some(read_trains_view(v@)),
            None => schedules_from(
                nodes_view(nodes@),
                elem_children(nodes_view(nodes@), sch as int),
                0,
                positions_view(ps@),
                tracks_view(ts@),
                times_view(es@),
                Seq::empty(),
            ) is None,
        },
{
    let ghost ns = nodes_view(nodes@);
    let ghost pv = positions_view(ps@);
    let ghost tv = tracks_view(ts@);
    let ghost ev = times_view(es@);
    let cs = element_children(nodes, sch);
    let ghost cv = positions(cs@);
    let mut out: Vec<ReadTrain> = Vec::new();
    proof {
        assert(read_trains_view(out@) =~= Seq::<(Seq<char>, Seq<RawVisitView>, Seq<char>)>::empty());
    }
    let mut k: usize = 0;
    while k < cs.len()
        invariant
            k <= cs@.len(),
            ns == nodes_view(nodes@),
            pv == positions_view(ps@),
            tv == tracks_view(ts@),
            ev == times_view(es@),
            cv == positions(cs@),
            cv == elem_children(ns, sch as int),
            forall|i: int| 0 <= i < cs@.len() ==> cs@[i] < nodes@.len(),
            forall|i: int| 0 <= i < out@.len() ==> raw_bounded(#[trigger] out@[i].visits@),
            schedules_from(ns, cv, k as int, pv, tv, ev, read_trains_view(out@)) == schedules_from(
                ns,
                cv,
                0,
                pv,
                tv,
                ev,
                Seq::empty(),
            ),
        decreases cs@.len() - k,
    {
        proof {
            assert(cv[k as int] == cs@[k as int] as int);
            assert(cv.len() == cs@.len());
        }
        if !read_schedule(nodes, cs[k], ps, ts, es, &mut out) {
            return None;
        }
        k = k + 1;
    }
    proof {
        assert(cv.len() == cs@.len());
    }
    Some(out)
}


/// The network of an instance under its root element `root`: its tracks
/// and its resources in order.
pub open spec fn xml_network(ns: Seq<XmlNodeView>, root: int) -> Option<(Seq<TrackView>, Seq<(bool, Seq<char>)>)> {
    match child_named(ns, root, "Network"@) {
        None => None,
        Some(net) => match (child_named(ns, net, "Stations"@), child_named(ns, net, "Tracks"@)) {
            (Some(st), Some(tr)) => match network_tracks(ns, tr) {
                None => None,
                Some(ts) => match resource_order(ns, st, ts) {
                    Some(ro) => Some((ts, ro)),
                    None => None,
                },
            },
            _ => None,
        },
    }
}

/// The trains read from the schedules of an instance under its root
/// element `root`, with the time it begins.
pub open spec fn xml_trains(
    ns: Seq<XmlNodeView>,
    root: int,
    ts: Seq<TrackView>,
    es: Seq<(Seq<char>, Seq<char>, u32)>,
) -> Option<(int, Seq<(Seq<char>, Seq<RawVisitView>, Seq<char>)>)> {
    match train_positions(ns, root) {
        None => None,
        Some((now, ps)) => match child_named(ns, root, "TimeTable"@) {
            None => None,
            Some(tt) => match child_named(ns, tt, "TrainSchedules"@) {
                None => None,
                Some(sch) => match schedules_from(ns, elem_children(ns, sch), 0, ps, ts, es, Seq::empty()) {
                    Some(trs) => Some((now, trs)),
                    None => None,
                },
            },
        },
    }
}

/// A problem read from an instance: the visits of each train, the trains'
/// ids, the names of the resources and their conflicts.
pub struct XmlInstance {
    pub trains: Seq<Seq<Visit>>,
    pub train_names: Seq<Seq<char>>,
    pub resources: Seq<Seq<char>>,
    pub conflicts: Seq<(usize, usize)>,
}

/// The problem of an instance document, or `None` where the document lacks
/// what it needs or holds what cannot be read. Its root element holds the
/// network, the running times, the objective, the snapshot of where the
/// trains are, and the time table; the trains are those with at least two
/// stops and a position.
pub open spec fn xml_instance(ns: Seq<XmlNodeView>, m: DelayMeasurementType) -> Option<XmlInstance> {
    let tops = elem_children(ns, 0);
    if tops.len() == 0 {
        None
    } else {
        let root = tops[0];
        match xml_network(ns, root) {
            None => None,
            Some((ts, ro)) => match running_times(ns, root) {
                None => None,
                Some(es) => if !objective_ok(ns, root) {
                    None
                } else {
                    match xml_trains(ns, root, ts, es) {
                        None => None,
                        Some((now, trs)) => match problem_trains_from(ro, trs, now, m, 0, Seq::empty()) {
                            None => None,
                            Some(trains) => Some(
                                XmlInstance {
                                    trains,
                                    train_names: trs.map_values(
                                        |t: (Seq<char>, Seq<RawVisitView>, Seq<char>)| t.0,
                                    ),
                                    resources: ro.map_values(|r: (bool, Seq<char>)| r.1),
                                    conflicts: track_conflicts_upto(ro, ro.len() as int),
                                },
                            ),
                        },
                    }
                },
            },
        }
    }
}

/// `r` is the named problem `name` of instance `inst`.
pub open spec fn is_xml_instance(r: NamedProblem, name: Seq<char>, inst: XmlInstance) -> bool {
    &&& r.problem.name@ == name
    &&& trains_visits(r.problem.trains@) == inst.trains
    &&& r.problem.conflicts@ == inst.conflicts
    &&& r.train_names@.map_values(|s: String| s@) == inst.train_names
    &&& r.resource_names@.map_values(|s: String| s@) == inst.resources
}

/// `r` is what reading the instance document `ns` named `name` gives.
pub open spec fn xml_read(r: Option<NamedProblem>, name: Seq<char>, ns: Seq<XmlNodeView>, m: DelayMeasurementType) -> bool {
    match r {
        Some(p) => xml_instance(ns, m) matches Some(inst) && is_xml_instance(p, name, inst),
        None => xml_instance(ns, m) is None,
    }
}

/// The names of the trains read.
fn train_ids(trs: &Vec<ReadTrain>) -> (r: Vec<String>)
    ensures
        r@.map_values(|s: String| s@) == read_trains_view(trs@).map_values(
            |t: (Seq<char>, Seq<RawVisitView>, Seq<char>)| t.0,
        ),
{
    let mut r: Vec<String> = Vec::new();
    let mut k: usize = 0;
    while k < trs.len()
        invariant
            k <= trs@.len(),
            r@.len() == k,
            forall|i: int| 0 <= i < k ==> #[trigger] r@[i]@ == trs@[i].id@,
        decreases trs@.len() - k,
    {
        r.push(trs[k].id.clone());
        k = k + 1;
    }
    proof {
        let a = r@.map_values(|s: String| s@);
        let b = read_trains_view(trs@).map_values(|t: (Seq<char>, Seq<RawVisitView>, Seq<char>)| t.0);
        assert forall|i: int| 0 <= i < a.len() implies a[i] == b[i] by {
            assert(read_trains_view(trs@)[i] == trs@[i]@);
            assert(r@[i]@ == trs@[i].id@);
        }
        assert(a =~= b);
    }
    r
}

/// The names of the resources.
fn resource_names(ro: &Vec<Resource>) -> (r: Vec<String>)
    ensures
        r@.map_values(|s: String| s@) == resources_view(ro@).map_values(|x: (bool, Seq<char>)| x.1),
{
    let mut r: Vec<String> = Vec::new();
    let mut k: usize = 0;
    while k < ro.len()
        invariant
            k <= ro@.len(),
            r@.len() == k,
            forall|i: int| 0 <= i < k ==> #[trigger] r@[i]@ == ro@[i].name@,
        decreases ro@.len() - k,
    {
        r.push(ro[k].name.clone());
        k = k + 1;
    }
    proof {
        let a = r@.map_values(|s: String| s@);
        let b = resources_view(ro@).map_values(|x: (bool, Seq<char>)| x.1);
        assert forall|i: int| 0 <= i < a.len() implies a[i] == b[i] by {
            assert(resources_view(ro@)[i] == ro@[i]@);
            assert(r@[i]@ == ro@[i].name@);
        }
        assert(a =~= b);
    }
    r
}

/// The problem of an instance document given by its nodes (see
/// `xml_instance`), named `instance_fn`; `None` where the document cannot be
/// read.
pub fn xml_problem(instance_fn: &str, nodes: &Vec<XmlNode>, measurement: DelayMeasurementType) -> (r: Option<
    NamedProblem,
>)
    ensures
        xml_read(r, instance_fn@, nodes_view(nodes@), measurement),
{
    let ghost ns = nodes_view(nodes@);
    let tops = element_children(nodes, 0);
    proof {
        assert(positions(tops@).len() == tops@.len());
    }
    if tops.len() == 0 {
        return None;
    }
    let root = tops[0];
    proof {
        assert(positions(tops@)[0] == root as int);
    }
    let net = match child_named_node(nodes, root, "Network") {
        Some(x) => x,
        None => {
            return None;
        },
    };
    let (st, tr) = match (child_named_node(nodes, net, "Stations"), child_named_node(nodes, net, "Tracks")) {
        (Some(st), Some(tr)) => (st, tr),
        _ => {
            return None;
        },
    };
    let ts = match read_tracks(nodes, tr) {
        Some(ts) => ts,
        None => {
            return None;
        },
    };
    let stations = match read_stations(nodes, st) {
        Some(x) => x,
        None => {
            return None;
        },
    };
    let ro = match insert_tracks(stations, &ts) {
        Some(ro) => ro,
        None => {
            return None;
        },
    };
    proof {
        assert(xml_network(ns, root as int) == Some((tracks_view(ts@), resources_view(ro@))));
    }
    let es = match read_running_times(nodes, root) {
        Some(es) => es,
        None => {
            return None;
        },
    };
    if !check_objective(nodes, root) {
        return None;
    }
    let (now, ps) = match read_positions(nodes, root) {
        Some(x) => x,
        None => {
            return None;
        },
    };
    let tt = match child_named_node(nodes, root, "TimeTable") {
        Some(x) => x,
        None => {
            return None;
        },
    };
    let sch = match child_named_node(nodes, tt, "TrainSchedules") {
        Some(x) => x,
        None => {
            return None;
        },
    };
    let trs = match read_schedules(nodes, sch, &ps, &ts, &es) {
        Some(x) => x,
        None => {
            return None;
        },
    };
    proof {
        assert(xml_trains(ns, root as int, tracks_view(ts@), times_view(es@)) == Some(
            (now as int, read_trains_view(trs@)),
        ));
    }
    let trains = match make_trains(&ro, &trs, now, measurement) {
        Some(x) => x,
        None => {
            return None;
        },
    };
    let conflicts = track_conflicts(&ro);
    let train_names = train_ids(&trs);
    let resource_names = resource_names(&ro);
    proof {
        assert(resources_view(ro@).len() == ro@.len());
    }
    Some(
        NamedProblem {
            problem: Problem { name: owned(instance_fn), trains, conflicts },
            train_names,
            resource_names,
        },
    )
}

/// Reads an instance document from its text (see `xml_instance`), named
/// `instance_fn`; `None` where the text is no well-formed document or the
/// document cannot be read.
pub fn read_xml_file(instance_fn: &str, instance_xml: &str, measurement: DelayMeasurementType) -> (r: Option<
    NamedProblem,
>)
    ensures
        match xml_document(instance_xml@) {
            Some(ns) => xml_read(r, instance_fn@, ns, measurement),
            None => r is None,
        },
{
    match parse_xml(instance_xml) {
        Some(nodes) => xml_problem(instance_fn, &nodes, measurement),
        None => None,
    }
}

} // verus!
