//! The tree data model: internal `Node`s and leaf `Event`s, the 1-based
//! path addressing scheme, and the preorder streams (events, nodes, depths,
//! transforms, lines) that project the tree into linear sequences.

use crate::dates::{expanded_hi, expanded_lo, Dates};
use crate::edit::{EvalError, EvalResult};
use crate::saga::Color;
use crate::scalar::{sat64, Scalar, MICROS};
use vstd::prelude::*;

verus! {

/// A named, dated leaf with an ordered list of descriptions.
#[derive(Clone, Debug)]
pub struct Event {
    pub name: String,
    pub descriptions: Vec<String>,
    pub datetime: Dates,
}

/// The tri-state horizontal-line setting of a node: no line, a line, or a
/// line subdivided at a stated interval.
#[derive(Clone, Copy, Debug, PartialEq, Eq, Structural)]
pub enum LineSetting {
    Off,
    On,
    OnWith(Scalar),
}

/// An internal tree element: an ordered list of child values and the
/// presentation state it imposes on them.
pub struct Node {
    pub children: Vec<Value>,
    pub name: Option<String>,
    pub style_override: Option<String>,
    pub color_override: Option<Color>,
    pub offset: Scalar,
    pub y_scale: Scalar,
    pub line: LineSetting,
    pub graphs: Vec<Graph>,
}

/// Tagged union of the two kinds of tree element.
pub enum Value {
    Event(Event),
    Node(Node),
}

/// A reserved data series attached to a node; the renderer ignores it.
pub struct Graph {
    pub data: Vec<(crate::dates::DateTime, Scalar)>,
    pub y_scale: Scalar,
    pub color: Color,
    pub draw_type: GraphType,
}

#[derive(Clone, Copy, Debug, PartialEq, Eq, Structural)]
pub enum GraphType {
    Scatter,
    Line,
    LineArea,
}

/// What a successful query points at.
#[derive(Clone, Copy, Debug, PartialEq, Eq, Structural)]
pub enum Query {
    Node,
    Event,
}

/// Produced when following a path through the tree fails: the suffix of the
/// path that was not consumed, and its length.
#[derive(Debug)]
pub struct PathFail {
    pub path: Vec<usize>,
    pub at: usize,
}

/// One horizontal rule to draw: fractions of the global range, an optional
/// tick interval, and a vertical position.
pub struct Line {
    pub start: Scalar,
    pub end: Scalar,
    pub interval: Option<Scalar>,
    pub y: Scalar,
}

/// A path is valid when every index is 1-based and in range, every step but
/// the last lands on a node, and the last lands on a node or an event.
pub open spec fn path_valid(n: Node, path: Seq<usize>) -> bool
    decreases path.len(),
{
    path.len() == 0 || {
        &&& 1 <= path[0] <= n.children@.len()
        &&& match n.children@[path[0] - 1] {
            Value::Node(m) => path_valid(m, path.drop_first()),
            Value::Event(_) => path.len() == 1,
        }
    }
}

/// What a query returns: the kind of the addressed element, or nothing when
/// the path is invalid.
pub open spec fn query_spec(n: Node, path: Seq<usize>) -> Option<Query>
    decreases path.len(),
{
    if path.len() == 0 {
        Some(Query::Node)
    } else if 1 <= path[0] <= n.children@.len() {
        match n.children@[path[0] - 1] {
            Value::Node(m) => query_spec(m, path.drop_first()),
            Value::Event(_) => if path.len() == 1 {
                Some(Query::Event)
            } else {
                None
            },
        }
    } else {
        None
    }
}

/// The suffix of the path left when the lookup fails.
pub open spec fn query_fail_suffix(n: Node, path: Seq<usize>) -> Seq<usize>
    decreases path.len(),
{
    if path.len() == 0 {
        path
    } else if 1 <= path[0] <= n.children@.len() {
        match n.children@[path[0] - 1] {
            Value::Node(m) => query_fail_suffix(m, path.drop_first()),
            Value::Event(_) => path,
        }
    } else {
        path
    }
}

/// Queries are total over valid paths: a lookup finds an element exactly
/// when the path satisfies the validity clauses, and fails otherwise.
pub proof fn lemma_query_total(n: Node, path: Seq<usize>)
    ensures
        query_spec(n, path) is Some <==> path_valid(n, path),
    decreases path.len(),
{
    if path.len() > 0 && 1 <= path[0] <= n.children@.len() {
        match n.children@[path[0] - 1] {
            Value::Node(m) => {
                lemma_query_total(m, path.drop_first());
            },
            Value::Event(_) => {},
        }
    }
}

/// The `Event` leaves of a value, in preorder.
pub open spec fn events_of_value(v: Value) -> Seq<Event>
    decreases v, 0int,
{
    match v {
        Value::Event(e) => seq![e],
        Value::Node(n) => events_of_children(n.children@),
    }
}

pub open spec fn events_of_children(s: Seq<Value>) -> Seq<Event>
    decreases s, s.len(),
{
    if s.len() == 0 {
        Seq::empty()
    } else {
        events_of_value(s[0]) + events_of_children(s.drop_first())
    }
}

/// The `Event` leaves under a node, in preorder.
pub open spec fn events_of(n: Node) -> Seq<Event> {
    events_of_children(n.children@)
}

/// How many `Event` leaves a value holds.
pub open spec fn count_events_value(v: Value) -> nat
    decreases v, 0int,
{
    match v {
        Value::Event(_) => 1,
        Value::Node(n) => count_events_children(n.children@),
    }
}

pub open spec fn count_events_children(s: Seq<Value>) -> nat
    decreases s, s.len(),
{
    if s.len() == 0 {
        0
    } else {
        count_events_value(s[0]) + count_events_children(s.drop_first())
    }
}

/// How many `Node` interiors a value holds (a node counts itself).
pub open spec fn count_nodes_value(v: Value) -> nat
    decreases v, 0int,
{
    match v {
        Value::Event(_) => 0,
        Value::Node(n) => 1 + count_nodes_children(n.children@),
    }
}

pub open spec fn count_nodes_children(s: Seq<Value>) -> nat
    decreases s, s.len(),
{
    if s.len() == 0 {
        0
    } else {
        count_nodes_value(s[0]) + count_nodes_children(s.drop_first())
    }
}

/// The `Node` interiors under (and including) a node, in preorder.
pub open spec fn nodes_of(n: Node) -> Seq<Node>
    decreases n, 1int,
{
    seq![n] + nodes_of_children(n.children@)
}

pub open spec fn nodes_of_children(s: Seq<Value>) -> Seq<Node>
    decreases s, s.len() + 2,
{
    if s.len() == 0 {
        Seq::empty()
    } else {
        (match s[0] {
            Value::Node(m) => nodes_of(m),
            Value::Event(_) => Seq::empty(),
        }) + nodes_of_children(s.drop_first())
    }
}

/// One more level of depth, saturating at the machine limit.
pub open spec fn sat_inc(d: int) -> int {
    if d >= usize::MAX {
        d
    } else {
        d + 1
    }
}

/// One depth entry per node in preorder: the root gets `d`, each child node
/// one more.
pub open spec fn depths_of(n: Node, d: int) -> Seq<int>
    decreases n, 1int,
{
    seq![d] + depths_of_children(n.children@, sat_inc(d))
}

pub open spec fn depths_of_children(s: Seq<Value>, d: int) -> Seq<int>
    decreases s, s.len() + 2,
{
    if s.len() == 0 {
        Seq::empty()
    } else {
        (match s[0] {
            Value::Node(m) => depths_of(m, d),
            Value::Event(_) => Seq::empty(),
        }) + depths_of_children(s.drop_first(), d)
    }
}

/// The offset a node passes down to its child nodes (in micros).
pub open spec fn child_offset(n: Node, o: int, s: int) -> int {
    sat64(sat64(o + n.offset.micros) * s / (MICROS as int))
}

/// The scale a node passes down to its child nodes (in micros).
pub open spec fn child_scale(n: Node, s: int) -> int {
    sat64(s * n.y_scale.micros / (MICROS as int))
}

/// One `(offset, scale)` pair per node in preorder: a node's entry is the
/// context it was placed in, not the one it imposes on its children.
pub open spec fn trans_of(n: Node, o: int, s: int) -> Seq<(int, int)>
    decreases n, 1int,
{
    seq![(o, s)] + trans_of_children(n.children@, child_offset(n, o, s), child_scale(n, s))
}

pub open spec fn trans_of_children(s: Seq<Value>, o: int, sc: int) -> Seq<(int, int)>
    decreases s, s.len() + 2,
{
    if s.len() == 0 {
        Seq::empty()
    } else {
        (match s[0] {
            Value::Node(m) => trans_of(m, o, sc),
            Value::Event(_) => Seq::empty(),
        }) + trans_of_children(s.drop_first(), o, sc)
    }
}

/// The streams agree: each stream is exactly as long as what it counts,
/// and the per-node streams all have one entry per node interior.
pub proof fn lemma_stream_lengths(n: Node, d: int, o: int, s: int)
    ensures
        events_of(n).len() == count_events_children(n.children@),
        nodes_of(n).len() == 1 + count_nodes_children(n.children@),
        depths_of(n, d).len() == nodes_of(n).len(),
        trans_of(n, o, s).len() == nodes_of(n).len(),
    decreases n, 1int,
{
    lemma_stream_lengths_children(n.children@, sat_inc(d), child_offset(n, o, s), child_scale(n, s));
}

proof fn lemma_stream_lengths_children(s: Seq<Value>, d: int, o: int, sc: int)
    ensures
        events_of_children(s).len() == count_events_children(s),
        nodes_of_children(s).len() == count_nodes_children(s),
        depths_of_children(s, d).len() == nodes_of_children(s).len(),
        trans_of_children(s, o, sc).len() == nodes_of_children(s).len(),
    decreases s, s.len() + 2,
{
    if s.len() > 0 {
        match s[0] {
            Value::Node(m) => {
                lemma_stream_lengths(m, d, o, sc);
                assert(events_of_value(s[0]) == events_of_children(m.children@));
                assert(count_events_value(s[0]) == count_events_children(m.children@));
                assert(events_of(m) == events_of_children(m.children@));
            },
            Value::Event(e) => {
                assert(events_of_value(s[0]) == seq![e]);
                assert(count_events_value(s[0]) == 1);
            },
        }
        lemma_stream_lengths_children(s.drop_first(), d, o, sc);
        assert(events_of_children(s) == events_of_value(s[0]) + events_of_children(
            s.drop_first(),
        ));
        assert(count_events_children(s) == count_events_value(s[0]) + count_events_children(
            s.drop_first(),
        ));
        assert(nodes_of_children(s) == (match s[0] {
            Value::Node(m) => nodes_of(m),
            Value::Event(_) => Seq::<Node>::empty(),
        }) + nodes_of_children(s.drop_first()));
        assert(depths_of_children(s, d) == (match s[0] {
            Value::Node(m) => depths_of(m, d),
            Value::Event(_) => Seq::<int>::empty(),
        }) + depths_of_children(s.drop_first(), d));
        assert(trans_of_children(s, o, sc) == (match s[0] {
            Value::Node(m) => trans_of(m, o, sc),
            Value::Event(_) => Seq::<(int, int)>::empty(),
        }) + trans_of_children(s.drop_first(), o, sc));
        match s[0] {
            Value::Node(m) => {
                assert(count_nodes_value(s[0]) == 1 + count_nodes_children(m.children@));
                assert(nodes_of(m).len() == 1 + count_nodes_children(m.children@));
            },
            Value::Event(_) => {
                assert(count_nodes_value(s[0]) == 0);
            },
        }
    }
}

impl Node {
    /// Collects the event leaves under `self` in preorder.
    fn events_into<'a>(&'a self, out: &mut Vec<&'a Event>)
        ensures
            final(out)@.len() == old(out)@.len() + events_of(*self).len(),
            forall|j: int| 0 <= j < old(out)@.len() ==> final(out)@[j] == old(out)@[j],
            forall|j: int|
                0 <= j < events_of(*self).len() ==> *final(out)@[old(out)@.len() + j] == events_of(
                    *self,
                )[j],
        decreases *self, 0int,
    {
        events_into_children(&self.children, 0, out);
        proof {
            assert(self.children@.skip(0) =~= self.children@);
        }
    }
}

/// Collects the event leaves of `s[i ..]` in preorder.
fn events_into_children<'a>(s: &'a Vec<Value>, i: usize, out: &mut Vec<&'a Event>)
    requires
        i <= s@.len(),
    ensures
        final(out)@.len() == old(out)@.len() + events_of_children(s@.skip(i as int)).len(),
        forall|j: int| 0 <= j < old(out)@.len() ==> final(out)@[j] == old(out)@[j],
        forall|j: int|
            0 <= j < events_of_children(s@.skip(i as int)).len() ==> *final(out)@[old(out)@.len()
                + j] == events_of_children(s@.skip(i as int))[j],
    decreases *s, s@.len() - i,
{
    let ghost whole = events_of_children(s@.skip(i as int));
    if i == s.len() {
        return ;
    }
    let ghost pre = out@;
    let ghost part1 = events_of_value(s@[i as int]);
    proof {
        assert(s@.skip(i as int).drop_first() =~= s@.skip(i + 1));
        assert(s@.skip(i as int)[0] == s@[i as int]);
        assert(whole == part1 + events_of_children(s@.skip(i + 1)));
    }
    match &s[i] {
        Value::Event(e) => {
            out.push(e);
        },
        Value::Node(m) => {
            m.events_into(out);
        },
    }
    proof {
        assert(out@.len() == pre.len() + part1.len());
        assert(forall|j: int| 0 <= j < part1.len() ==> *out@[pre.len() + j] == part1[j]);
    }
    events_into_children(s, i + 1, out);
}

impl Node {
    /// Collects the node interiors under (and including) `self` in preorder.
    fn nodes_into<'a>(&'a self, out: &mut Vec<&'a Node>)
        ensures
            final(out)@.len() == old(out)@.len() + nodes_of(*self).len(),
            forall|j: int| 0 <= j < old(out)@.len() ==> final(out)@[j] == old(out)@[j],
            forall|j: int|
                0 <= j < nodes_of(*self).len() ==> *final(out)@[old(out)@.len() + j] == nodes_of(
                    *self,
                )[j],
        decreases *self, 0int,
    {
        let ghost pre = out@;
        out.push(self);
        nodes_into_children(&self.children, 0, out);
        proof {
            assert(self.children@.skip(0) =~= self.children@);
            assert(nodes_of(*self) == seq![*self] + nodes_of_children(self.children@));
        }
    }
}

/// Collects the node interiors of `s[i ..]` in preorder.
fn nodes_into_children<'a>(s: &'a Vec<Value>, i: usize, out: &mut Vec<&'a Node>)
    requires
        i <= s@.len(),
    ensures
        final(out)@.len() == old(out)@.len() + nodes_of_children(s@.skip(i as int)).len(),
        forall|j: int| 0 <= j < old(out)@.len() ==> final(out)@[j] == old(out)@[j],
        forall|j: int|
            0 <= j < nodes_of_children(s@.skip(i as int)).len() ==> *final(out)@[old(out)@.len()
                + j] == nodes_of_children(s@.skip(i as int))[j],
    decreases *s, s@.len() - i,
{
    let ghost whole = nodes_of_children(s@.skip(i as int));
    if i == s.len() {
        return ;
    }
    let ghost pre = out@;
    let ghost part1 = match s@[i as int] {
        Value::Node(m) => nodes_of(m),
        Value::Event(_) => Seq::<Node>::empty(),
    };
    proof {
        assert(s@.skip(i as int).drop_first() =~= s@.skip(i + 1));
        assert(s@.skip(i as int)[0] == s@[i as int]);
        assert(whole == part1 + nodes_of_children(s@.skip(i + 1)));
    }
    match &s[i] {
        Value::Event(_) => {},
        Value::Node(m) => {
            m.nodes_into(out);
        },
    }
    proof {
        assert(out@.len() == pre.len() + part1.len());
        assert(forall|j: int| 0 <= j < part1.len() ==> *out@[pre.len() + j] == part1[j]);
    }
    nodes_into_children(s, i + 1, out);
}

impl Node {
    /// Collects one depth entry per node interior in preorder.
    fn depths_into(&self, d: usize, out: &mut Vec<usize>)
        ensures
            final(out)@.len() == old(out)@.len() + depths_of(*self, d as int).len(),
            forall|j: int| 0 <= j < old(out)@.len() ==> final(out)@[j] == old(out)@[j],
            forall|j: int|
                0 <= j < depths_of(*self, d as int).len() ==> final(out)@[old(out)@.len() + j]
                    == depths_of(*self, d as int)[j],
        decreases *self, 0int,
    {
        let ghost pre = out@;
        out.push(d);
        let d2: usize = if d == usize::MAX {
            d
        } else {
            d + 1
        };
        depths_into_children(&self.children, 0, d2, out);
        proof {
            assert(self.children@.skip(0) =~= self.children@);
            assert(depths_of(*self, d as int) == seq![d as int] + depths_of_children(
                self.children@,
                sat_inc(d as int),
            ));
        }
    }
}

/// Collects the depth entries of `s[i ..]` in preorder.
fn depths_into_children(s: &Vec<Value>, i: usize, d: usize, out: &mut Vec<usize>)
    requires
        i <= s@.len(),
    ensures
        final(out)@.len() == old(out)@.len() + depths_of_children(s@.skip(i as int), d as int).len(),
        forall|j: int| 0 <= j < old(out)@.len() ==> final(out)@[j] == old(out)@[j],
        forall|j: int|
            0 <= j < depths_of_children(s@.skip(i as int), d as int).len() ==> final(out)@[old(out)@.len() + j] == depths_of_children(s@.skip(i as int), d as int)[j],
    decreases *s, s@.len() - i,
{
    let ghost whole = depths_of_children(s@.skip(i as int), d as int);
    if i == s.len() {
        return ;
    }
    let ghost pre = out@;
    let ghost part1 = match s@[i as int] {
        Value::Node(m) => depths_of(m, d as int),
        Value::Event(_) => Seq::<int>::empty(),
    };
    proof {
        assert(s@.skip(i as int).drop_first() =~= s@.skip(i + 1));
        assert(s@.skip(i as int)[0] == s@[i as int]);
        assert(whole == part1 + depths_of_children(s@.skip(i + 1), d as int));
    }
    match &s[i] {
        Value::Event(_) => {},
        Value::Node(m) => {
            m.depths_into(d, out);
        },
    }
    proof {
        assert(out@.len() == pre.len() + part1.len());
        assert(forall|j: int| 0 <= j < part1.len() ==> out@[pre.len() + j] == part1[j]);
    }
    depths_into_children(s, i + 1, d, out);
}

impl Node {
    /// Collects one `(offset, scale)` entry per node interior in preorder.
    fn trans_into(&self, o: Scalar, sc: Scalar, out: &mut Vec<(Scalar, Scalar)>)
        ensures
            final(out)@.len() == old(out)@.len() + trans_of(*self, o.micros as int, sc.micros as int).len(),
            forall|j: int| 0 <= j < old(out)@.len() ==> final(out)@[j] == old(out)@[j],
            forall|j: int|
                0 <= j < trans_of(*self, o.micros as int, sc.micros as int).len() ==> (final(out)@[old(out)@.len() + j].0.micros as int, final(out)@[old(out)@.len() + j].1.micros as int)
                    == trans_of(*self, o.micros as int, sc.micros as int)[j],
        decreases *self, 0int,
    {
        let ghost pre = out@;
        out.push((o, sc));
        let o2 = o.sat_add(self.offset).sat_mul(sc);
        let s2 = sc.sat_mul(self.y_scale);
        proof {
            assert(o2.micros as int == child_offset(*self, o.micros as int, sc.micros as int));
            assert(s2.micros as int == child_scale(*self, sc.micros as int));
        }
        trans_into_children(&self.children, 0, o2, s2, out);
        proof {
            assert(self.children@.skip(0) =~= self.children@);
            assert(trans_of(*self, o.micros as int, sc.micros as int) == seq![
                (o.micros as int, sc.micros as int),
            ] + trans_of_children(
                self.children@,
                child_offset(*self, o.micros as int, sc.micros as int),
                child_scale(*self, sc.micros as int),
            ));
        }
    }
}

/// Collects the transform entries of `s[i ..]` in preorder.
fn trans_into_children(
    s: &Vec<Value>,
    i: usize,
    o: Scalar,
    sc: Scalar,
    out: &mut Vec<(Scalar, Scalar)>,
)
    requires
        i <= s@.len(),
    ensures
        final(out)@.len() == old(out)@.len() + trans_of_children(
            s@.skip(i as int),
            o.micros as int,
            sc.micros as int,
        ).len(),
        forall|j: int| 0 <= j < old(out)@.len() ==> final(out)@[j] == old(out)@[j],
        forall|j: int|
            0 <= j < trans_of_children(s@.skip(i as int), o.micros as int, sc.micros as int).len()
                ==> (final(out)@[old(out)@.len() + j].0.micros as int, final(out)@[old(out)@.len()
                + j].1.micros as int) == trans_of_children(
                s@.skip(i as int),
                o.micros as int,
                sc.micros as int,
            )[j],
    decreases *s, s@.len() - i,
{
    let ghost whole = trans_of_children(s@.skip(i as int), o.micros as int, sc.micros as int);
    if i == s.len() {
        return ;
    }
    let ghost pre = out@;
    let ghost part1 = match s@[i as int] {
        Value::Node(m) => trans_of(m, o.micros as int, sc.micros as int),
        Value::Event(_) => Seq::<(int, int)>::empty(),
    };
    proof {
        assert(s@.skip(i as int).drop_first() =~= s@.skip(i + 1));
        assert(s@.skip(i as int)[0] == s@[i as int]);
        assert(whole == part1 + trans_of_children(
            s@.skip(i + 1),
            o.micros as int,
            sc.micros as int,
        ));
    }
    match &s[i] {
        Value::Event(_) => {},
        Value::Node(m) => {
            m.trans_into(o, sc, out);
        },
    }
    proof {
        assert(out@.len() == pre.len() + part1.len());
        assert(forall|j: int|
            0 <= j < part1.len() ==> (out@[pre.len() + j].0.micros as int, out@[pre.len()
                + j].1.micros as int) == part1[j]);
    }
    trans_into_children(s, i + 1, o, sc, out);
}

impl Node {
    /// Follows `path` from cursor `k`; on failure returns the cursor where
    /// the remaining suffix begins.
    fn query_cursor(&self, path: &[usize], k: usize) -> (r: Result<Query, usize>)
        requires
            k <= path@.len(),
        ensures
            match r {
                Ok(q) => query_spec(*self, path@.skip(k as int)) == Some(q),
                Err(k2) => {
                    &&& k <= k2 <= path@.len()
                    &&& query_spec(*self, path@.skip(k as int)) is None
                    &&& query_fail_suffix(*self, path@.skip(k as int)) == path@.skip(k2 as int)
                },
            },
        decreases path@.len() - k,
    {
        let ghost suffix = path@.skip(k as int);
        if k == path.len() {
            proof {
                assert(suffix.len() == 0);
            }
            return Ok(Query::Node);
        }
        let i = path[k];
        proof {
            assert(suffix[0] == path@[k as int]);
            assert(suffix.drop_first() =~= path@.skip(k + 1));
        }
        if 1 <= i && i <= self.children.len() {
            match &self.children[i - 1] {
                Value::Node(m) => m.query_cursor(path, k + 1),
                Value::Event(_) => {
                    if k + 1 == path.len() {
                        Ok(Query::Event)
                    } else {
                        Err(k)
                    }
                },
            }
        } else {
            Err(k)
        }
    }

    /// Searches the tree for the element the 1-based `path` addresses. On
    /// failure the error carries the unconsumed suffix of the path and its
    /// length; faithful to `query_spec` and `query_fail_suffix`.
    pub fn query(&self, path: &[usize]) -> (r: Result<Query, PathFail>)
        ensures
            match r {
                Ok(q) => query_spec(*self, path@) == Some(q),
                Err(pf) => {
                    &&& query_spec(*self, path@) is None
                    &&& pf.path@ == query_fail_suffix(*self, path@)
                    &&& pf.at == pf.path@.len()
                },
            },
    {
        proof {
            assert(path@.skip(0) =~= path@);
        }
        match self.query_cursor(path, 0) {
            Ok(q) => Ok(q),
            Err(k2) => {
                let mut suffix: Vec<usize> = Vec::new();
                let mut j: usize = k2;
                while j < path.len()
                    invariant
                        k2 <= j <= path@.len(),
                        suffix@ =~= path@.subrange(k2 as int, j as int),
                    decreases path@.len() - j,
                {
                    suffix.push(path[j]);
                    j = j + 1;
                }
                proof {
                    assert(suffix@ =~= path@.skip(k2 as int));
                }
                let at = suffix.len();
                Err(PathFail { path: suffix, at })
            },
        }
    }
}


/// One stream entry per event leaf: the event together with the depth and
/// transform entry of its enclosing node.
pub struct EventRow {
    pub event: Event,
    pub depth: int,
    pub offset: int,
    pub scale: int,
}

/// The per-event rows of the subtree of `n`, which itself has the stream
/// entry `(d, o, s)`: events directly under `n` carry that entry, child
/// nodes are visited with the entry `n` imposes on them.
pub open spec fn erows_of(n: Node, d: int, o: int, s: int) -> Seq<EventRow>
    decreases n, 1int,
{
    erows_children(n.children@, d, o, s, sat_inc(d), child_offset(n, o, s), child_scale(n, s))
}

pub open spec fn erows_children(
    cs: Seq<Value>,
    ed: int,
    eo: int,
    es: int,
    nd: int,
    no: int,
    ns: int,
) -> Seq<EventRow>
    decreases cs, cs.len() + 2,
{
    if cs.len() == 0 {
        Seq::empty()
    } else {
        (match cs[0] {
            Value::Event(e) => seq![EventRow { event: e, depth: ed, offset: eo, scale: es }],
            Value::Node(m) => erows_of(m, nd, no, ns),
        }) + erows_children(cs.drop_first(), ed, eo, es, nd, no, ns)
    }
}

/// An exec row agrees with a spec row.
pub open spec fn row_matches(r: (&Event, usize, Scalar, Scalar), row: EventRow) -> bool {
    &&& *r.0 == row.event
    &&& r.1 as int == row.depth
    &&& r.2.micros as int == row.offset
    &&& r.3.micros as int == row.scale
}

impl Node {
    /// The fused preorder walk: one `(event, depth, offset, scale)` row per
    /// event leaf, where the entry is the one of the event's enclosing
    /// node. The root is visited with depth zero and the given transform.
    pub fn event_rows<'a>(&'a self, offset: Scalar, scale: Scalar) -> (r: Vec<
        (&'a Event, usize, Scalar, Scalar),
    >)
        ensures
            r@.len() == erows_of(*self, 0, offset.micros as int, scale.micros as int).len(),
            forall|j: int|
                0 <= j < r@.len() ==> row_matches(
                    r@[j],
                    erows_of(*self, 0, offset.micros as int, scale.micros as int)[j],
                ),
    {
        let mut out: Vec<(&Event, usize, Scalar, Scalar)> = Vec::new();
        self.erows_into(0, offset, scale, &mut out);
        out
    }

    /// Collects the event rows under `self`, whose own entry is `(d, o, sc)`.
    fn erows_into<'a>(
        &'a self,
        d: usize,
        o: Scalar,
        sc: Scalar,
        out: &mut Vec<(&'a Event, usize, Scalar, Scalar)>,
    )
        ensures
            final(out)@.len() == old(out)@.len() + erows_of(
                *self,
                d as int,
                o.micros as int,
                sc.micros as int,
            ).len(),
            forall|j: int| 0 <= j < old(out)@.len() ==> final(out)@[j] == old(out)@[j],
            forall|j: int|
                0 <= j < erows_of(*self, d as int, o.micros as int, sc.micros as int).len()
                    ==> row_matches(
                    final(out)@[old(out)@.len() + j],
                    erows_of(*self, d as int, o.micros as int, sc.micros as int)[j],
                ),
        decreases *self, 0int,
    {
        let d2: usize = if d == usize::MAX {
            d
        } else {
            d + 1
        };
        let o2 = o.sat_add(self.offset).sat_mul(sc);
        let s2 = sc.sat_mul(self.y_scale);
        erows_into_children(&self.children, 0, d, o, sc, d2, o2, s2, out);
        proof {
            assert(self.children@.skip(0) =~= self.children@);
        }
    }
}

/// Collects the event rows of `s[i ..]`.
fn erows_into_children<'a>(
    s: &'a Vec<Value>,
    i: usize,
    ed: usize,
    eo: Scalar,
    es: Scalar,
    nd: usize,
    no: Scalar,
    ns: Scalar,
    out: &mut Vec<(&'a Event, usize, Scalar, Scalar)>,
)
    requires
        i <= s@.len(),
    ensures
        final(out)@.len() == old(out)@.len() + erows_children(
            s@.skip(i as int),
            ed as int,
            eo.micros as int,
            es.micros as int,
            nd as int,
            no.micros as int,
            ns.micros as int,
        ).len(),
        forall|j: int| 0 <= j < old(out)@.len() ==> final(out)@[j] == old(out)@[j],
        forall|j: int|
            0 <= j < erows_children(
                s@.skip(i as int),
                ed as int,
                eo.micros as int,
                es.micros as int,
                nd as int,
                no.micros as int,
                ns.micros as int,
            ).len() ==> row_matches(
                final(out)@[old(out)@.len() + j],
                erows_children(
                    s@.skip(i as int),
                    ed as int,
                    eo.micros as int,
                    es.micros as int,
                    nd as int,
                    no.micros as int,
                    ns.micros as int,
                )[j],
            ),
    decreases *s, s@.len() - i,
{
    let ghost whole = erows_children(
        s@.skip(i as int),
        ed as int,
        eo.micros as int,
        es.micros as int,
        nd as int,
        no.micros as int,
        ns.micros as int,
    );
    if i == s.len() {
        return ;
    }
    let ghost pre = out@;
    let ghost part1 = match s@[i as int] {
        Value::Event(e) => seq![
            EventRow {
                event: e,
                depth: ed as int,
                offset: eo.micros as int,
                scale: es.micros as int,
            },
        ],
        Value::Node(m) => erows_of(m, nd as int, no.micros as int, ns.micros as int),
    };
    proof {
        assert(s@.skip(i as int).drop_first() =~= s@.skip(i + 1));
        assert(s@.skip(i as int)[0] == s@[i as int]);
        assert(whole == part1 + erows_children(
            s@.skip(i + 1),
            ed as int,
            eo.micros as int,
            es.micros as int,
            nd as int,
            no.micros as int,
            ns.micros as int,
        ));
    }
    match &s[i] {
        Value::Event(e) => {
            out.push((e, ed, eo, es));
        },
        Value::Node(m) => {
            m.erows_into(nd, no, ns, out);
        },
    }
    proof {
        assert(out@.len() == pre.len() + part1.len());
        assert(forall|j: int| 0 <= j < part1.len() ==> row_matches(out@[pre.len() + j], part1[j]));
    }
    erows_into_children(s, i + 1, ed, eo, es, nd, no, ns, out);
}

/// What the fold that computes `range()` can produce: it only widens the
/// accumulator, it stays within the stamps any instant can have, and with
/// at least one event the result brackets that event's start.
pub proof fn lemma_range_fold_bounds(events: Seq<Event>, a: int, b: int)
    ensures
        range_fold(events, a, b).0 <= a,
        range_fold(events, a, b).1 >= b,
        range_fold(events, a, b).0 >= if a < crate::dates::STAMP_LO {
            a
        } else {
            crate::dates::STAMP_LO as int
        },
        range_fold(events, a, b).1 <= if b > crate::dates::STAMP_HI {
            b
        } else {
            crate::dates::STAMP_HI as int
        },
        events.len() > 0 ==> range_fold(events, a, b).0 <= crate::dates::stamp_of(
            events[0].datetime.start,
        ) <= range_fold(events, a, b).1,
    decreases events.len(),
{
    if events.len() > 0 {
        let d = events[0].datetime;
        crate::dates::lemma_stamp_bounds(d.start);
        match d.end {
            Some(e) => {
                crate::dates::lemma_stamp_bounds(e);
            },
            None => {},
        }
        lemma_range_fold_bounds(events.drop_first(), expanded_lo(d, a), expanded_hi(d, b));
    }
}


/// What appending a value under the node at `path` does to the tree:
/// everything off the path is untouched, and the addressed node gains the
/// value as its last child.
pub open spec fn push_at_rel(before: Node, after: Node, path: Seq<usize>, value: Value) -> bool
    decreases path.len(),
{
    if path.len() == 0 {
        after.children@ == before.children@.push(value) && eq_except_children(after, before)
    } else {
        let i = path[0] as int;
        &&& 1 <= i <= before.children@.len()
        &&& after.children@.len() == before.children@.len()
        &&& eq_except_children(after, before)
        &&& forall|j: int|
            0 <= j < before.children@.len() && j != i - 1 ==> after.children@[j]
                == before.children@[j]
        &&& match (before.children@[i - 1], after.children@[i - 1]) {
            (Value::Node(b), Value::Node(a)) => push_at_rel(b, a, path.drop_first(), value),
            _ => false,
        }
    }
}

impl Node {
    /// Appends `value` to the children of the node the path addresses; the
    /// caller must have looked the path up and found a node.
    pub fn push_at(&mut self, path: &[usize], value: Value)
        requires
            query_spec(*old(self), path@) == Some(Query::Node),
        ensures
            push_at_rel(*old(self), *final(self), path@, value),
    {
        proof {
            assert(path@.skip(0) =~= path@);
        }
        self.push_go(path, 0, value)
    }

    /// Walks down to the addressed node and pushes there.
    fn push_go(&mut self, path: &[usize], k: usize, value: Value)
        requires
            k <= path@.len(),
            query_spec(*old(self), path@.skip(k as int)) == Some(Query::Node),
        ensures
            push_at_rel(*old(self), *final(self), path@.skip(k as int), value),
        decreases path@.len() - k,
    {
        let ghost suffix = path@.skip(k as int);
        if k == path.len() {
            proof {
                assert(suffix.len() == 0);
            }
            self.children.push(value);
            return ;
        }
        let i = path[k];
        proof {
            assert(suffix[0] == path@[k as int]);
            assert(suffix.drop_first() =~= path@.skip(k + 1));
        }
        match &mut self.children[i - 1] {
            Value::Node(m) => m.push_go(path, k + 1, value),
            Value::Event(_) => {
                proof {
                    assert(false);
                }
            },
        }
    }
}

/// Fold of `expand_range` over a list of events, left to right.
pub open spec fn range_fold(events: Seq<Event>, lo: int, hi: int) -> (int, int)
    decreases events.len(),
{
    if events.len() == 0 {
        (lo, hi)
    } else {
        range_fold(
            events.drop_first(),
            expanded_lo(events[0].datetime, lo),
            expanded_hi(events[0].datetime, hi),
        )
    }
}

/// Whether a node draws its horizontal line.
pub open spec fn line_on(ls: LineSetting) -> bool {
    !(ls is Off)
}

/// The tick interval of a drawn line, if one was stated.
pub open spec fn line_interval(ls: LineSetting) -> Option<Scalar> {
    match ls {
        LineSetting::Off => None,
        LineSetting::On => None,
        LineSetting::OnWith(x) => Some(x),
    }
}

/// Vertical position of a node's line: offset times scale times depth.
pub open spec fn row_y(o: int, s: int, d: int) -> int {
    sat64(sat64(o * s / (MICROS as int)) * d)
}

/// One `(interval, y)` entry per node whose line is present, in preorder,
/// with the depth and transform entries of that node.
pub open spec fn linerows_of(n: Node, d: int, o: int, s: int) -> Seq<(Option<Scalar>, int)>
    decreases n, 1int,
{
    (if line_on(n.line) {
        seq![(line_interval(n.line), row_y(o, s, d))]
    } else {
        Seq::empty()
    }) + linerows_children(n.children@, sat_inc(d), child_offset(n, o, s), child_scale(n, s))
}

pub open spec fn linerows_children(s: Seq<Value>, d: int, o: int, sc: int) -> Seq<
    (Option<Scalar>, int),
>
    decreases s, s.len() + 2,
{
    if s.len() == 0 {
        Seq::empty()
    } else {
        (match s[0] {
            Value::Node(m) => linerows_of(m, d, o, sc),
            Value::Event(_) => Seq::empty(),
        }) + linerows_children(s.drop_first(), d, o, sc)
    }
}

impl Node {
    /// Collects the line rows under `self` in preorder.
    fn lines_into(&self, d: usize, o: Scalar, sc: Scalar, out: &mut Vec<Line>)
        ensures
            final(out)@.len() == old(out)@.len() + linerows_of(
                *self,
                d as int,
                o.micros as int,
                sc.micros as int,
            ).len(),
            forall|j: int| 0 <= j < old(out)@.len() ==> final(out)@[j] == old(out)@[j],
            forall|j: int|
                0 <= j < linerows_of(*self, d as int, o.micros as int, sc.micros as int).len()
                    ==> line_matches_row(
                    final(out)@[old(out)@.len() + j],
                    linerows_of(*self, d as int, o.micros as int, sc.micros as int)[j],
                ),
        decreases *self, 0int,
    {
        let ghost pre = out@;
        let ghost rows = linerows_of(*self, d as int, o.micros as int, sc.micros as int);
        match &self.line {
            LineSetting::Off => {},
            LineSetting::On => {
                let y = o.sat_mul(sc).sat_mul_count(d);
                out.push(Line { start: Scalar::zero(), end: Scalar::one(), interval: None, y });
            },
            LineSetting::OnWith(x) => {
                let y = o.sat_mul(sc).sat_mul_count(d);
                out.push(
                    Line { start: Scalar::zero(), end: Scalar::one(), interval: Some(*x), y },
                );
            },
        }
        let d2: usize = if d == usize::MAX {
            d
        } else {
            d + 1
        };
        let o2 = o.sat_add(self.offset).sat_mul(sc);
        let s2 = sc.sat_mul(self.y_scale);
        lines_into_children(&self.children, 0, d2, o2, s2, out);
        proof {
            assert(self.children@.skip(0) =~= self.children@);
        }
    }
}

/// A built `Line` agrees with a spec line row: whole-range fractions, the
/// row's interval and the row's vertical position.
pub open spec fn line_matches_row(l: Line, row: (Option<Scalar>, int)) -> bool {
    &&& l.start.micros == 0
    &&& l.end.micros == MICROS
    &&& l.interval == row.0
    &&& l.y.micros as int == row.1
}

/// Collects the line rows of `s[i ..]` in preorder.
fn lines_into_children(
    s: &Vec<Value>,
    i: usize,
    d: usize,
    o: Scalar,
    sc: Scalar,
    out: &mut Vec<Line>,
)
    requires
        i <= s@.len(),
    ensures
        final(out)@.len() == old(out)@.len() + linerows_children(
            s@.skip(i as int),
            d as int,
            o.micros as int,
            sc.micros as int,
        ).len(),
        forall|j: int| 0 <= j < old(out)@.len() ==> final(out)@[j] == old(out)@[j],
        forall|j: int|
            0 <= j < linerows_children(
                s@.skip(i as int),
                d as int,
                o.micros as int,
                sc.micros as int,
            ).len() ==> line_matches_row(
                final(out)@[old(out)@.len() + j],
                linerows_children(s@.skip(i as int), d as int, o.micros as int, sc.micros as int)[j],
            ),
    decreases *s, s@.len() - i,
{
    let ghost whole = linerows_children(
        s@.skip(i as int),
        d as int,
        o.micros as int,
        sc.micros as int,
    );
    if i == s.len() {
        return ;
    }
    let ghost pre = out@;
    let ghost part1 = match s@[i as int] {
        Value::Node(m) => linerows_of(m, d as int, o.micros as int, sc.micros as int),
        Value::Event(_) => Seq::<(Option<Scalar>, int)>::empty(),
    };
    proof {
        assert(s@.skip(i as int).drop_first() =~= s@.skip(i + 1));
        assert(s@.skip(i as int)[0] == s@[i as int]);
        assert(whole == part1 + linerows_children(
            s@.skip(i + 1),
            d as int,
            o.micros as int,
            sc.micros as int,
        ));
    }
    match &s[i] {
        Value::Event(_) => {},
        Value::Node(m) => {
            m.lines_into(d, o, sc, out);
        },
    }
    proof {
        assert(out@.len() == pre.len() + part1.len());
        assert(forall|j: int|
            0 <= j < part1.len() ==> line_matches_row(out@[pre.len() + j], part1[j]));
    }
    lines_into_children(s, i + 1, d, o, sc, out);
}

impl Node {
    /// Makes a new node with default presentation state.
    pub fn new(name: Option<String>, children: Vec<Value>) -> (r: Node)
        ensures
            r.name == name,
            r.children == children,
            r.style_override is None,
            r.color_override is None,
            r.offset.micros == 0,
            r.y_scale.micros == MICROS,
            r.line is Off,
            r.graphs@.len() == 0,
    {
        Node {
            name,
            children,
            style_override: None,
            color_override: None,
            offset: Scalar::zero(),
            y_scale: Scalar::one(),
            line: LineSetting::Off,
            graphs: Vec::new(),
        }
    }

    /// Wraps a list of values into one nameless node.
    pub fn from_vec(list: Vec<Value>) -> (r: Node)
        ensures
            r.name is None,
            r.children == list,
            r.style_override is None,
            r.color_override is None,
            r.offset.micros == 0,
            r.y_scale.micros == MICROS,
            r.line is Off,
            r.graphs@.len() == 0,
    {
        Node::new(None, list)
    }

    pub fn into_value(self) -> (r: Value)
        ensures
            r == Value::Node(self),
    {
        Value::Node(self)
    }

    /// The event leaves under `self`, in preorder.
    pub fn iter_events<'a>(&'a self) -> (r: Vec<&'a Event>)
        ensures
            r@.len() == events_of(*self).len(),
            forall|j: int| 0 <= j < r@.len() ==> *r@[j] == events_of(*self)[j],
    {
        let mut out: Vec<&Event> = Vec::new();
        self.events_into(&mut out);
        out
    }

    /// The node interiors under (and including) `self`, in preorder.
    pub fn iter_nodes<'a>(&'a self) -> (r: Vec<&'a Node>)
        ensures
            r@.len() == nodes_of(*self).len(),
            forall|j: int| 0 <= j < r@.len() ==> *r@[j] == nodes_of(*self)[j],
    {
        let mut out: Vec<&Node> = Vec::new();
        self.nodes_into(&mut out);
        out
    }

    /// One depth per node interior in preorder, the root at zero.
    pub fn depth(&self) -> (r: Vec<usize>)
        ensures
            r@.len() == depths_of(*self, 0).len(),
            forall|j: int| 0 <= j < r@.len() ==> r@[j] as int == depths_of(*self, 0)[j],
    {
        let mut out: Vec<usize> = Vec::new();
        self.depths_into(0, &mut out);
        out
    }

    /// One `(offset, scale)` pair per node interior in preorder; a node's
    /// entry is the context it was placed in.
    pub fn transform_iter(&self, offset: Scalar, scale: Scalar) -> (r: Vec<(Scalar, Scalar)>)
        ensures
            r@.len() == trans_of(*self, offset.micros as int, scale.micros as int).len(),
            forall|j: int|
                0 <= j < r@.len() ==> (r@[j].0.micros as int, r@[j].1.micros as int) == trans_of(
                    *self,
                    offset.micros as int,
                    scale.micros as int,
                )[j],
    {
        let mut out: Vec<(Scalar, Scalar)> = Vec::new();
        self.trans_into(offset, scale, &mut out);
        out
    }

    /// True when `self` holds no event leaf.
    pub fn is_empty(&self) -> (r: bool)
        ensures
            r == (events_of(*self).len() == 0),
    {
        self.iter_events().len() == 0
    }

    /// The narrowest stamp range that covers every event under `self`,
    /// folded from `(i64::MAX, i64::MIN)`.
    #[verifier::rlimit(50)]
    pub fn range(&self) -> (r: (i64, i64))
        ensures
            (r.0 as int, r.1 as int) == range_fold(
                events_of(*self),
                i64::MAX as int,
                i64::MIN as int,
            ),
    {
        let ghost full = events_of(*self);
        let events = self.iter_events();
        let mut lo: i64 = i64::MAX;
        let mut hi: i64 = i64::MIN;
        let mut i: usize = 0;
        proof {
            assert(full.skip(0) =~= full);
        }
        while i < events.len()
            invariant
                i <= events@.len(),
                events@.len() == full.len(),
                forall|j: int| 0 <= j < full.len() ==> *events@[j] == full[j],
                range_fold(full, i64::MAX as int, i64::MIN as int) == range_fold(
                    full.skip(i as int),
                    lo as int,
                    hi as int,
                ),
            decreases events@.len() - i,
        {
            let e: &Event = events[i];
            let next = e.datetime.expand_range((lo, hi));
            proof {
                assert(full.skip(i as int).drop_first() =~= full.skip(i + 1));
                assert(full.skip(i as int)[0] == full[i as int]);
                assert(e.datetime == full[i as int].datetime);
                assert(next.0 as int == expanded_lo(full[i as int].datetime, lo as int));
                assert(next.1 as int == expanded_hi(full[i as int].datetime, hi as int));
                assert(range_fold(full.skip(i as int), lo as int, hi as int) == range_fold(
                    full.skip(i + 1),
                    next.0 as int,
                    next.1 as int,
                ));
            }
            lo = next.0;
            hi = next.1;
            i = i + 1;
        }
        proof {
            assert(full.skip(full.len() as int) =~= Seq::<Event>::empty());
        }
        (lo, hi)
    }

    /// One `Line` per node whose line setting is present, spanning the whole
    /// range, when the global range has any width; none otherwise.
    pub fn lines(&self, grand_range: &(i64, i64)) -> (r: Vec<Line>)
        ensures
            grand_range.0 == grand_range.1 ==> r@.len() == 0,
            grand_range.0 != grand_range.1 ==> {
                &&& r@.len() == linerows_of(*self, 0, 0, MICROS as int).len()
                &&& forall|j: int|
                    0 <= j < r@.len() ==> line_matches_row(
                        r@[j],
                        linerows_of(*self, 0, 0, MICROS as int)[j],
                    )
            },
    {
        let mut out: Vec<Line> = Vec::new();
        if grand_range.0 != grand_range.1 {
            self.lines_into(0, Scalar::zero(), Scalar::one(), &mut out);
        }
        out
    }

    /// Appends `value` to the children.
    pub fn push(&mut self, value: Value)
        ensures
            final(self).children@ == old(self).children@.push(value),
            eq_except_children(*final(self), *old(self)),
    {
        self.children.push(value);
    }

    /// Sets or clears the name.
    pub fn set_name(&mut self, name: Option<&str>)
        ensures
            match name {
                Some(s) => final(self).name matches Some(t) && t@ == s@,
                None => final(self).name is None,
            },
            eq_except_name(*final(self), *old(self)),
    {
        self.name = match name {
            Some(s) => Some(s.to_owned()),
            None => None,
        };
    }

    /// Sets the vertical offset contributed to descendants.
    pub fn set_offset(&mut self, y: &Scalar)
        ensures
            *final(self) == (Node { offset: *y, ..*old(self) }),
    {
        self.offset = *y;
    }

    /// Sets the scaling factor contributed to descendants.
    pub fn set_scale(&mut self, y: &Scalar)
        ensures
            *final(self) == (Node { y_scale: *y, ..*old(self) }),
    {
        self.y_scale = *y;
    }

    /// Sets the line setting.
    pub fn set_line(&mut self, line: LineSetting)
        ensures
            *final(self) == (Node { line: line, ..*old(self) }),
    {
        self.line = line;
    }

    /// Builder form of `set_line`.
    pub fn with_line(self, line: LineSetting) -> (r: Node)
        ensures
            r == (Node { line: line, ..self }),
    {
        Node { line, ..self }
    }
}

/// Fraction of the way through `[t0, t1]`, in millionths, rounded down.
pub open spec fn frac_of(stamp: int, t0: int, t1: int) -> int {
    (stamp - t0) * (MICROS as int) / (t1 - t0)
}

proof fn lemma_div_in_range(x: int, d: int, a: int)
    requires
        d != 0,
        -a <= x <= a,
        0 <= a,
    ensures
        -(a + 1) <= x / d <= a + 1,
{
    vstd::arithmetic::div_mod::lemma_fundamental_div_mod(x, d);
    let q = x / d;
    let r = x % d;
    if d >= 1 {
        vstd::arithmetic::div_mod::lemma_mod_bound(x, d);
        assert(-a <= q <= a) by (nonlinear_arith)
            requires
                x == d * q + r,
                0 <= r < d,
                d >= 1,
                -a <= x <= a,
                0 <= a,
        ;
    } else {
        assert(0 <= r < -d) by {
            vstd::arithmetic::div_mod::lemma_mod_bound(x, -d);
            assert(x % d == x % (-d)) by (nonlinear_arith)
                requires
                    d <= -1,
            ;
        }
        assert(-(a + 1) <= q <= a + 1) by (nonlinear_arith)
            requires
                x == d * q + r,
                0 <= r < -d,
                d <= -1,
                -a <= x <= a,
                0 <= a,
        ;
    }
}

impl Event {
    /// Creates a new event with a name and dates and no descriptions.
    pub fn new(name: &str, dt: Dates) -> (r: Event)
        ensures
            r.name@ == name@,
            r.descriptions@.len() == 0,
            r.datetime == dt,
    {
        Event { name: name.to_owned(), descriptions: Vec::new(), datetime: dt }
    }

    pub fn into_value(self) -> (r: Value)
        ensures
            r == Value::Event(self),
    {
        Value::Event(self)
    }

    /// Getter for the name.
    pub fn name(&self) -> (r: &str)
        ensures
            r@ == self.name@,
    {
        self.name.as_str()
    }

    /// Replaces the name.
    pub fn set_name(&mut self, new: &str)
        ensures
            final(self).name@ == new@,
            final(self).descriptions == old(self).descriptions,
            final(self).datetime == old(self).datetime,
    {
        self.name = new.to_owned();
    }

    /// Replaces the dates.
    pub fn set_dates(&mut self, new: &Dates)
        ensures
            final(self).datetime == *new,
            final(self).name == old(self).name,
            final(self).descriptions == old(self).descriptions,
    {
        self.datetime = *new;
    }

    /// The canonical text of the dates.
    pub fn date_string(&self) -> (r: String)
        ensures
            r@ == crate::dates::dates_text(self.datetime),
    {
        self.datetime.format()
    }

    /// Appends a description (builder form).
    pub fn with_desc(&mut self, desc: &str)
        ensures
            final(self).descriptions@.len() == old(self).descriptions@.len() + 1,
            forall|j: int|
                0 <= j < old(self).descriptions@.len() ==> final(self).descriptions@[j] == old(self).descriptions@[j],
            final(self).descriptions@.last()@ == desc@,
            final(self).name == old(self).name,
            final(self).datetime == old(self).datetime,
    {
        self.descriptions.push(desc.to_owned());
    }

    /// Appends a description.
    pub fn add_description(&mut self, new: &str)
        ensures
            final(self).descriptions@.len() == old(self).descriptions@.len() + 1,
            forall|j: int|
                0 <= j < old(self).descriptions@.len() ==> final(self).descriptions@[j] == old(self).descriptions@[j],
            final(self).descriptions@.last()@ == new@,
            final(self).name == old(self).name,
            final(self).datetime == old(self).datetime,
    {
        self.descriptions.push(new.to_owned());
    }

    /// Replaces the description at `index`; `Ok` exactly when `index` is in
    /// range, else an `IndexError` with the index and the length, and the
    /// event unchanged.
    pub fn change_description(&mut self, index: usize, new: &str) -> (r: EvalResult)
        ensures
            index < old(self).descriptions@.len() ==> {
                &&& r is Ok
                &&& final(self).descriptions@.len() == old(self).descriptions@.len()
                &&& final(self).descriptions@[index as int]@ == new@
                &&& forall|j: int|
                    0 <= j < old(self).descriptions@.len() && j != index ==> final(self).descriptions@[j] == old(self).descriptions@[j]
                &&& final(self).name == old(self).name
                &&& final(self).datetime == old(self).datetime
            },
            index >= old(self).descriptions@.len() ==> {
                &&& (r matches Err(EvalError::IndexError { index: i2, len: l2 }) && i2 == index
                    && l2 == old(self).descriptions@.len())
                &&& *final(self) == *old(self)
            },
    {
        if index < self.descriptions.len() {
            self.descriptions[index] = new.to_owned();
            Ok(())
        } else {
            Err(EvalError::IndexError { index, len: self.descriptions.len() })
        }
    }

    /// Deletes the description at `index`; `Ok` exactly when `index` is in
    /// range, else an `IndexError` with the index and the length, and the
    /// event unchanged.
    pub fn delete_description(&mut self, index: usize) -> (r: EvalResult)
        ensures
            index < old(self).descriptions@.len() ==> {
                &&& r is Ok
                &&& final(self).descriptions@ == old(self).descriptions@.remove(index as int)
                &&& final(self).name == old(self).name
                &&& final(self).datetime == old(self).datetime
            },
            index >= old(self).descriptions@.len() ==> {
                &&& (r matches Err(EvalError::IndexError { index: i2, len: l2 }) && i2 == index
                    && l2 == old(self).descriptions@.len())
                &&& *final(self) == *old(self)
            },
    {
        if index < self.descriptions.len() {
            self.descriptions.remove(index);
            Ok(())
        } else {
            Err(EvalError::IndexError { index, len: self.descriptions.len() })
        }
    }

    /// Where this event lies within a range of stamps, as fractions in
    /// millionths: `0` at `range.0`, one million at `range.1`. The range
    /// must have width (the fractions are undefined on a zero-width range)
    /// and lie within the stamps of instants.
    pub fn location(&self, range: (i64, i64)) -> (r: (Scalar, Option<Scalar>))
        requires
            range.0 != range.1,
            crate::dates::STAMP_LO <= range.0 <= crate::dates::STAMP_HI,
            crate::dates::STAMP_LO <= range.1 <= crate::dates::STAMP_HI,
        ensures
            r.0.micros as int == frac_of(
                crate::dates::stamp_of(self.datetime.start),
                range.0 as int,
                range.1 as int,
            ),
            match self.datetime.end {
                Some(e) => r.1 matches Some(f) && f.micros as int == frac_of(
                    crate::dates::stamp_of(e),
                    range.0 as int,
                    range.1 as int,
                ),
                None => r.1 is None,
            },
    {
        let (t0, t1) = range;
        let u = frac_within(self.start_stamp_checked(), t0, t1);
        let v = match &self.datetime.end {
            Some(e) => {
                proof {
                    crate::dates::lemma_stamp_bounds(*e);
                }
                Some(frac_within(e.stamp(), t0, t1))
            },
            None => None,
        };
        (u, v)
    }

    /// The start stamp, with its bounds established.
    fn start_stamp_checked(&self) -> (r: i64)
        ensures
            r == crate::dates::stamp_of(self.datetime.start),
            crate::dates::STAMP_LO <= r <= crate::dates::STAMP_HI,
    {
        proof {
            crate::dates::lemma_stamp_bounds(self.datetime.start);
        }
        self.datetime.start.stamp()
    }
}

/// The fraction `(stamp - t0) / (t1 - t0)` in millionths, rounded down.
fn frac_within(stamp: i64, t0: i64, t1: i64) -> (r: Scalar)
    requires
        t0 != t1,
        crate::dates::STAMP_LO <= stamp <= crate::dates::STAMP_HI,
        crate::dates::STAMP_LO <= t0 <= crate::dates::STAMP_HI,
        crate::dates::STAMP_LO <= t1 <= crate::dates::STAMP_HI,
    ensures
        r.micros as int == frac_of(stamp as int, t0 as int, t1 as int),
{
    let num: i64 = stamp - t0;
    let den: i64 = t1 - t0;
    let prod: i128 = (num as i128) * (MICROS as i128);
    proof {
        let span = crate::dates::STAMP_HI - crate::dates::STAMP_LO;
        let bound = span * (MICROS as int);
        assert(-bound <= prod <= bound) by (nonlinear_arith)
            requires
                prod == num * (MICROS as int),
                -span <= num <= span,
                span > 0,
                bound == span * (MICROS as int),
        ;
        lemma_div_in_range(prod as int, den as int, bound);
    }
    let q: i128 = prod.checked_div_euclid(den as i128).unwrap();
    Scalar { micros: q as i64 }
}

/// Equal in every field but the children.
pub open spec fn eq_except_children(a: Node, b: Node) -> bool {
    &&& a.name == b.name
    &&& a.style_override == b.style_override
    &&& a.color_override == b.color_override
    &&& a.offset == b.offset
    &&& a.y_scale == b.y_scale
    &&& a.line == b.line
    &&& a.graphs == b.graphs
}

/// Equal in every field but the name.
pub open spec fn eq_except_name(a: Node, b: Node) -> bool {
    &&& a.children == b.children
    &&& a.style_override == b.style_override
    &&& a.color_override == b.color_override
    &&& a.offset == b.offset
    &&& a.y_scale == b.y_scale
    &&& a.line == b.line
    &&& a.graphs == b.graphs
}

/// Two spaces per level of depth.
pub open spec fn pad_text(depth: int) -> Seq<char>
    decreases depth,
{
    if depth <= 0 {
        Seq::empty()
    } else {
        seq![' ', ' '] + pad_text(depth - 1)
    }
}

/// The text of an event in the tree view: a header line with the name and
/// the dates, and, verbosely, one line per description.
pub open spec fn event_print_text(e: Event, depth: int, verbose: bool) -> Seq<char> {
    let pad = pad_text(depth);
    let head = pad + "<Event> "@ + e.name@ + ", ["@ + crate::dates::dates_text(e.datetime)
        + "]"@;
    if verbose {
        head + desc_lines_from(e.descriptions@, pad, 0)
    } else {
        head
    }
}

/// One `  - description` line per description, from index `i` on.
pub open spec fn desc_lines_from(ds: Seq<String>, pad: Seq<char>, i: int) -> Seq<char>
    decreases ds.len() - i when 0 <= i <= ds.len()
{
    if i >= ds.len() {
        Seq::empty()
    } else {
        seq!['\n'] + pad + "  - "@ + ds[i]@ + desc_lines_from(ds, pad, i + 1)
    }
}

/// The text of a node in the tree view: a header line, verbose sublines
/// for the offset, the scaling and a present line setting, and the blocks
/// of the children one level deeper.
pub open spec fn node_print_text(n: Node, depth: int, verbose: bool) -> Seq<char>
    decreases n, 1int,
{
    let pad = pad_text(depth);
    let head = pad + "<Node> "@ + (match n.name {
        Some(nm) => nm@,
        None => "(No name)"@,
    });
    let stats = if verbose {
        node_stats_text(n, depth)
    } else {
        Seq::empty()
    };
    head + stats + children_print_from(n.children@, 0, sat_inc(depth), verbose)
}

/// The verbose sublines of a node: its offset, its scaling, and its line
/// setting when present.
pub open spec fn node_stats_text(n: Node, depth: int) -> Seq<char> {
    let pad = pad_text(depth);
    (seq!['\n'] + pad + "  Offset:  "@ + crate::scalar::scalar_text(n.offset.micros as int)
        + seq!['\n'] + pad + "  Scaling: "@ + crate::scalar::scalar_text(n.y_scale.micros as int))
        + (if line_on(n.line) {
        seq!['\n'] + pad + "  Line: "@ + (match n.line {
            LineSetting::OnWith(x) => crate::scalar::scalar_text(x.micros as int),
            _ => "(no interval)"@,
        })
    } else {
        Seq::empty()
    })
}

/// The child blocks from index `i` on, each on a fresh line.
pub open spec fn children_print_from(s: Seq<Value>, i: int, depth: int, verbose: bool) -> Seq<
    char,
>
    decreases s, s.len() - i, 0int,
{
    if i < 0 || i >= s.len() {
        Seq::empty()
    } else {
        seq!['\n'] + (match s[i] {
            Value::Event(e) => event_print_text(e, depth, verbose),
            Value::Node(m) => node_print_text(m, depth, verbose),
        }) + children_print_from(s, i + 1, depth, verbose)
    }
}

/// Two spaces repeated `depth` times.
fn pad_string(depth: usize) -> (r: String)
    ensures
        r@ == pad_text(depth as int),
    decreases depth,
{
    if depth == 0 {
        let r = String::new();
        proof {
            assert(r@ =~= pad_text(0));
        }
        r
    } else {
        let mut r = String::new();
        r.append("  ");
        let tail = pad_string(depth - 1);
        r.append(tail.as_str());
        proof {
            reveal_strlit("  ");
            assert(r@ =~= pad_text(depth as int));
        }
        r
    }
}

impl Event {
    /// The tree view of this event, faithful to `event_print_text`.
    pub fn print(&self, depth: usize, verbose: bool) -> (r: String)
        ensures
            r@ == event_print_text(*self, depth as int, verbose),
    {
        let pad = pad_string(depth);
        let mut out = String::new();
        out.append(pad.as_str());
        out.append("<Event> ");
        out.append(self.name.as_str());
        out.append(", [");
        let ds = self.datetime.format();
        out.append(ds.as_str());
        out.append("]");
        if verbose {
            desc_lines_into(&self.descriptions, 0, &pad, &mut out);
        }
        out
    }
}

/// Appends the description lines from index `i` on.
fn desc_lines_into(ds: &Vec<String>, i: usize, pad: &String, out: &mut String)
    requires
        i <= ds@.len(),
    ensures
        final(out)@ == old(out)@ + desc_lines_from(ds@, pad@, i as int),
    decreases ds@.len() - i,
{
    if i == ds.len() {
        proof {
            assert(old(out)@ + desc_lines_from(ds@, pad@, i as int) =~= out@);
        }
        return ;
    }
    let ghost pre = out@;
    out.append("\n");
    out.append(pad.as_str());
    out.append("  - ");
    out.append(ds[i].as_str());
    desc_lines_into(ds, i + 1, pad, out);
    proof {
        reveal_strlit("\n");
        assert(out@ =~= pre + desc_lines_from(ds@, pad@, i as int));
    }
}

impl Node {
    /// The tree view of this node, faithful to `node_print_text`.
    pub fn print(&self, depth: usize, verbose: bool) -> (r: String)
        ensures
            r@ == node_print_text(*self, depth as int, verbose),
        decreases *self, 1int,
    {
        let pad = pad_string(depth);
        let mut out = pad.clone();
        out.append("<Node> ");
        match &self.name {
            Some(nm) => {
                out.append(nm.as_str());
            },
            None => {
                out.append("(No name)");
            },
        }
        if verbose {
            let mut stats = String::new();
            stats.append("\n");
            stats.append(pad.as_str());
            stats.append("  Offset:  ");
            let o = self.offset.to_text();
            stats.append(o.as_str());
            stats.append("\n");
            stats.append(pad.as_str());
            stats.append("  Scaling: ");
            let sc = self.y_scale.to_text();
            stats.append(sc.as_str());
            match &self.line {
                LineSetting::Off => {},
                LineSetting::On => {
                    stats.append("\n");
                    stats.append(pad.as_str());
                    stats.append("  Line: ");
                    stats.append("(no interval)");
                },
                LineSetting::OnWith(x) => {
                    stats.append("\n");
                    stats.append(pad.as_str());
                    stats.append("  Line: ");
                    let t = x.to_text();
                    stats.append(t.as_str());
                },
            }
            proof {
                reveal_strlit("\n");
                assert(stats@ =~= node_stats_text(*self, depth as int));
            }
            out.append(stats.as_str());
        }
        let d2: usize = if depth == usize::MAX {
            depth
        } else {
            depth + 1
        };
        children_print_into(&self.children, 0, d2, verbose, &mut out);
        out
    }
}

/// Appends the child blocks from index `i` on.
fn children_print_into(s: &Vec<Value>, i: usize, depth: usize, verbose: bool, out: &mut String)
    requires
        i <= s@.len(),
    ensures
        final(out)@ == old(out)@ + children_print_from(s@, i as int, depth as int, verbose),
    decreases *s, s@.len() - i, 1int,
{
    if i == s.len() {
        proof {
            assert(old(out)@ + children_print_from(s@, i as int, depth as int, verbose) =~= out@);
        }
        return ;
    }
    let ghost pre = out@;
    out.append("\n");
    match &s[i] {
        Value::Event(e) => {
            let t = e.print(depth, verbose);
            out.append(t.as_str());
        },
        Value::Node(m) => {
            let t = m.print(depth, verbose);
            out.append(t.as_str());
        },
    }
    children_print_into(s, i + 1, depth, verbose, out);
    proof {
        reveal_strlit("\n");
        assert(out@ =~= pre + children_print_from(s@, i as int, depth as int, verbose));
    }
}

} // verus!
