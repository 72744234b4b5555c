//! The document wrapper: canvas and styling fields around a root node,
//! concatenation of documents, and the layout of the tree into scene
//! primitives.

use crate::dates::{stamp_of, STAMP_HI, STAMP_LO};
use crate::events::{
    erows_of, events_of, frac_of, line_matches_row, linerows_of, query_fail_suffix, query_spec,
    range_fold, row_matches, Event, EventRow, Node, PathFail, Query, Value,
};
use crate::scalar::{sat64, Scalar, MICROS};
use crate::text::{find_char, find_from, to_chars, trim_from, trimmed};
use vstd::prelude::*;

verus! {

/// An RGB color.
#[derive(Clone, Copy, Debug, PartialEq, Eq, Structural)]
pub struct Color {
    pub r: u8,
    pub g: u8,
    pub b: u8,
}

pub type Colors = Vec<Color>;

/// Why a document operation failed: a malformed path (with the offending
/// segment), a path the tree does not contain, an attempt to add a child
/// under an event, or a date that would not parse.
#[derive(Debug)]
pub enum SagaDocError {
    PathParse(String),
    PathFind(PathFail),
    AddToEvent,
    DtParse(String),
}

/// Root-level wrapper for a node tree, with canvas and styling data.
/// `color_schemes` is an ordered map as a list of pairs; the library keeps
/// its keys pairwise distinct (`schemes_wf`): `blank` starts it empty and
/// `catenate` merges by replacing an existing key in place.
pub struct SagaDoc {
    pub x: Scalar,
    pub y: Scalar,
    pub padding: Scalar,
    pub color_schemes: Vec<(String, Colors)>,
    pub data: Node,
}

/// No two color schemes share a key.
pub open spec fn schemes_wf(m: Seq<(String, Colors)>) -> bool {
    forall|i: int, j: int| 0 <= i < j < m.len() ==> m[i].0@ != m[j].0@
}

/// One drawing primitive of the rendered scene, in micro-pixel
/// coordinates with the origin at the top left.
pub enum ScenePrim {
    /// A closed rectangle for an event that spans an interval.
    Span { x_start: Scalar, x_end: Scalar, y_top: Scalar, height: Scalar },
    /// A vertical segment for an instantaneous event.
    Mark { x: Scalar, y_top: Scalar, height: Scalar },
    /// A horizontal rule for a node's line setting.
    Rule { x_start: Scalar, x_end: Scalar, y: Scalar },
}

/// The primitive an event row becomes, inside the global range `lo .. hi`
/// on a canvas of `x` by `y` micro-pixels.
pub open spec fn prim_of_row(r: EventRow, lo: int, hi: int, x: int, y: int) -> ScenePrim {
    let slide = sat64(100_000 * y / (MICROS as int));
    let h = sat64(200_000 * y / (MICROS as int));
    let u = frac_of(stamp_of(r.event.datetime.start), lo, hi);
    let xs = sat64(u * x / (MICROS as int));
    let yt = sat64(
        sat64(sat64(sat64(r.offset * r.scale / (MICROS as int)) * y / (MICROS as int)) * r.depth)
            + slide,
    );
    match r.event.datetime.end {
        Some(e) => ScenePrim::Span {
            x_start: Scalar { micros: xs as i64 },
            x_end: Scalar { micros: sat64(frac_of(stamp_of(e), lo, hi) * x / (MICROS as int)) as i64 },
            y_top: Scalar { micros: yt as i64 },
            height: Scalar { micros: h as i64 },
        },
        None => ScenePrim::Mark {
            x: Scalar { micros: xs as i64 },
            y_top: Scalar { micros: yt as i64 },
            height: Scalar { micros: h as i64 },
        },
    }
}

/// The primitive a line row becomes.
pub open spec fn rule_of_row(row: (Option<Scalar>, int), x: int, y: int) -> ScenePrim {
    let slide = sat64(100_000 * y / (MICROS as int));
    ScenePrim::Rule {
        x_start: Scalar { micros: sat64(0 * x / (MICROS as int)) as i64 },
        x_end: Scalar { micros: sat64((MICROS as int) * x / (MICROS as int)) as i64 },
        y: Scalar { micros: sat64(sat64(row.1 * y / (MICROS as int)) + sat64(100_000 * y / (MICROS as int))) as i64 },
    }
}

/// The scene of a document: nothing when the tree has no event or when the
/// global range has no width; otherwise one primitive per event row, then
/// one rule per drawn line.
pub open spec fn scene_of(doc: SagaDoc) -> Seq<ScenePrim> {
    let events = events_of(doc.data);
    if events.len() == 0 {
        Seq::empty()
    } else {
        let r = range_fold(events, i64::MAX as int, i64::MIN as int);
        if r.0 == r.1 {
            Seq::empty()
        } else {
            erows_of(doc.data, 0, 0, MICROS as int).map(
                |i: int, row: EventRow| prim_of_row(row, r.0, r.1, doc.x.micros as int, doc.y.micros as int),
            ) + linerows_of(doc.data, 0, 0, MICROS as int).map(
                |i: int, row: (Option<Scalar>, int)| rule_of_row(row, doc.x.micros as int, doc.y.micros as int),
            )
        }
    }
}

impl SagaDoc {
    /// A blank document: the default canvas around an empty root.
    pub fn blank() -> (r: SagaDoc)
        ensures
            r.x.micros == 1_920_000_000,
            r.y.micros == 1_080_000_000,
            r.padding.micros == 0,
            r.color_schemes@.len() == 0,
            schemes_wf(r.color_schemes@),
            r.data.children@.len() == 0,
            r.data.name is None,
            r.data.line is Off,
            r.data.offset.micros == 0,
            r.data.y_scale.micros == MICROS,
    {
        SagaDoc {
            x: Scalar::from_micros(1_920_000_000),
            y: Scalar::from_micros(1_080_000_000),
            padding: Scalar::zero(),
            color_schemes: Vec::new(),
            data: Node::from_vec(Vec::new()),
        }
    }

    /// A mutable borrow of the root node.
    pub fn get_data_mut(&mut self) -> (r: &mut Node)
        ensures
            *r == old(self).data,
            final(self).data == *final(r),
            final(self).x == old(self).x,
            final(self).y == old(self).y,
            final(self).padding == old(self).padding,
            final(self).color_schemes == old(self).color_schemes,
    {
        &mut self.data
    }

    /// Looks the path up in the root node.
    pub fn query_mut(&self, path: &[usize]) -> (r: Result<Query, PathFail>)
        ensures
            match r {
                Ok(q) => query_spec(self.data, path@) == Some(q),
                Err(pf) => {
                    &&& query_spec(self.data, path@) is None
                    &&& pf.path@ == query_fail_suffix(self.data, path@)
                    &&& pf.at == pf.path@.len()
                },
            },
    {
        self.data.query(path)
    }

    /// The indented tree view of the root.
    pub fn print(&self, verbose: bool) -> (r: String)
        ensures
            r@ == crate::events::node_print_text(self.data, 0, verbose),
    {
        self.data.print(0, verbose)
    }

    /// Lays the tree out as scene primitives; faithful to `scene_of`. In
    /// particular a document with no event, or whose global range has no
    /// width, renders as the empty scene.
    pub fn draw(&self) -> (r: Vec<ScenePrim>)
        ensures
            r@ == scene_of(*self),
            events_of(self.data).len() == 0 ==> r@.len() == 0,
            range_fold(events_of(self.data), i64::MAX as int, i64::MIN as int).0 == range_fold(
                events_of(self.data),
                i64::MAX as int,
                i64::MIN as int,
            ).1 ==> r@.len() == 0,
    {
        let ghost events = events_of(self.data);
        if self.data.is_empty() {
            let r: Vec<ScenePrim> = Vec::new();
            proof {
                assert(r@ =~= scene_of(*self));
            }
            return r;
        }
        let range = self.data.range();
        if range.0 == range.1 {
            let r: Vec<ScenePrim> = Vec::new();
            proof {
                assert(r@ =~= scene_of(*self));
            }
            return r;
        }
        proof {
            crate::events::lemma_range_fold_bounds(events, i64::MAX as int, i64::MIN as int);
        }
        let ghost prims = erows_of(self.data, 0, 0, MICROS as int).map(
            |i: int, row: EventRow| prim_of_row(
                row,
                range.0 as int,
                range.1 as int,
                self.x.micros as int,
                self.y.micros as int,
            ),
        );
        let y_slide = Scalar::from_micros(100_000).sat_mul(self.y);
        let height = Scalar::from_micros(200_000).sat_mul(self.y);
        let rows = self.data.event_rows(Scalar::zero(), Scalar::one());
        let mut out: Vec<ScenePrim> = Vec::new();
        let mut i: usize = 0;
        while i < rows.len()
            invariant
                i <= rows@.len(),
                rows@.len() == prims.len(),
                out@.len() == i,
                forall|j: int| 0 <= j < i ==> out@[j] == prims[j],
                STAMP_LO <= range.0 < range.1 <= STAMP_HI,
                y_slide.micros as int == sat64(100_000 * self.y.micros / (MICROS as int)),
                height.micros as int == sat64(200_000 * self.y.micros / (MICROS as int)),
                prims == erows_of(self.data, 0, 0, MICROS as int).map(
                    |k: int, row: EventRow| prim_of_row(
                        row,
                        range.0 as int,
                        range.1 as int,
                        self.x.micros as int,
                        self.y.micros as int,
                    ),
                ),
                forall|j: int|
                    0 <= j < rows@.len() ==> row_matches(
                        rows@[j],
                        erows_of(self.data, 0, 0, MICROS as int)[j],
                    ),
            decreases rows@.len() - i,
        {
            let (e, d, o, s) = rows[i];
            let locs = e.location(range);
            let x_start = locs.0.sat_mul(self.x);
            let y_top = o.sat_mul(s).sat_mul(self.y).sat_mul_count(d).sat_add(y_slide);
            match locs.1 {
                Some(v) => {
                    out.push(
                        ScenePrim::Span {
                            x_start,
                            x_end: v.sat_mul(self.x),
                            y_top,
                            height,
                        },
                    );
                },
                None => {
                    out.push(ScenePrim::Mark { x: x_start, y_top, height });
                },
            }
            proof {
                assert(out@[i as int] == prims[i as int]);
            }
            i = i + 1;
        }
        let ghost rules = linerows_of(self.data, 0, 0, MICROS as int).map(
            |k: int, row: (Option<Scalar>, int)| rule_of_row(
                row,
                self.x.micros as int,
                self.y.micros as int,
            ),
        );
        let ls = self.data.lines(&range);
        let mut j: usize = 0;
        while j < ls.len()
            invariant
                j <= ls@.len(),
                ls@.len() == rules.len(),
                out@.len() == prims.len() + j,
                forall|k: int| 0 <= k < prims.len() ==> out@[k] == prims[k],
                forall|k: int| 0 <= k < j ==> out@[prims.len() + k] == rules[k],
                rules == linerows_of(self.data, 0, 0, MICROS as int).map(
                    |k: int, row: (Option<Scalar>, int)| rule_of_row(
                        row,
                        self.x.micros as int,
                        self.y.micros as int,
                    ),
                ),
                y_slide.micros as int == sat64(100_000 * self.y.micros / (MICROS as int)),
                forall|k: int|
                    0 <= k < ls@.len() ==> line_matches_row(
                        ls@[k],
                        linerows_of(self.data, 0, 0, MICROS as int)[k],
                    ),
            decreases ls@.len() - j,
        {
            let l = &ls[j];
            out.push(
                ScenePrim::Rule {
                    x_start: l.start.sat_mul(self.x),
                    x_end: l.end.sat_mul(self.x),
                    y: l.y.sat_mul(self.y).sat_add(y_slide),
                },
            );
            proof {
                assert(out@[prims.len() + j] == rules[j as int]);
            }
            j = j + 1;
        }
        proof {
            assert(out@ =~= scene_of(*self));
        }
        out
    }
}

/// The path grammar, after the emptiness check: segments split on `:`,
/// each trimmed and read as an unsigned index; the error carries the first
/// segment that would not read.
pub open spec fn segs_parse(s: Seq<char>) -> Result<Seq<usize>, Seq<char>>
    decreases s.len() via segs_parse_decreases
{
    let d = find_char(s, ':');
    if d < s.len() {
        match crate::edit::index_of_text(trimmed(s.take(d))) {
            None => Err(trimmed(s.take(d))),
            Some(n) => match segs_parse(s.subrange(d + 1, s.len() as int)) {
                Ok(rest) => Ok(seq![n as usize] + rest),
                Err(e) => Err(e),
            },
        }
    } else {
        match crate::edit::index_of_text(trimmed(s)) {
            None => Err(trimmed(s)),
            Some(n) => Ok(seq![n as usize]),
        }
    }
}

#[via_fn]
proof fn segs_parse_decreases(s: Seq<char>) {
    crate::text::lemma_find_char(s, ':');
}

/// The whole path grammar: whitespace-only text is the empty path,
/// anything else must be colon-separated indices.
pub open spec fn path_of_text(s: Seq<char>) -> Result<Seq<usize>, Seq<char>> {
    if trimmed(s).len() == 0 {
        Ok(Seq::empty())
    } else {
        segs_parse(s)
    }
}

/// Reads the window `lo .. hi` of `v` as colon-separated indices; faithful
/// to `segs_parse` on that window.
fn parse_segs(v: &Vec<char>, lo: usize, hi: usize) -> (r: Result<Vec<usize>, String>)
    requires
        lo <= hi <= v@.len(),
    ensures
        match r {
            Ok(p) => segs_parse(v@.subrange(lo as int, hi as int)) == Ok::<Seq<usize>, Seq<char>>(
                p@,
            ),
            Err(t) => segs_parse(v@.subrange(lo as int, hi as int)) == Err::<
                Seq<usize>,
                Seq<char>,
            >(t@),
        },
    decreases hi - lo,
{
    let ghost s = v@.subrange(lo as int, hi as int);
    let d = find_from(v, lo, hi, ':');
    proof {
        crate::text::lemma_find_char(s, ':');
        assert(s.take(d - lo) =~= v@.subrange(lo as int, d as int));
    }
    let (a, b) = trim_from(v, lo, d);
    let head = match crate::edit::parse_index(v, a, b) {
        Some(n) => n,
        None => {
            return Err(crate::text::string_of_range(v, a, b));
        },
    };
    if d < hi {
        proof {
            assert(s.subrange(d - lo + 1, s.len() as int) =~= v@.subrange(d + 1, hi as int));
        }
        match parse_segs(v, d + 1, hi) {
            Ok(mut rest) => {
                let ghost tail = rest@;
                rest.insert(0, head);
                proof {
                    assert(rest@ =~= seq![head] + tail);
                }
                Ok(rest)
            },
            Err(e) => Err(e),
        }
    } else {
        let mut one: Vec<usize> = Vec::new();
        one.push(head);
        proof {
            assert(one@ =~= seq![head]);
        }
        Ok(one)
    }
}

/// Reads a colon-separated 1-based path; whitespace-only input is the
/// empty path. Faithful to `path_of_text`; the error carries the first
/// segment that is not an index.
pub fn parse_to_int_path(query: &str) -> (r: Result<Vec<usize>, SagaDocError>)
    ensures
        match r {
            Ok(p) => path_of_text(query@) == Ok::<Seq<usize>, Seq<char>>(p@),
            Err(e) => e matches SagaDocError::PathParse(t) && path_of_text(query@) == Err::<
                Seq<usize>,
                Seq<char>,
            >(t@),
        },
{
    let v = to_chars(query);
    let n = v.len();
    let (a, b) = trim_from(&v, 0, n);
    proof {
        assert(v@.subrange(0, n as int) =~= v@);
    }
    if a == b {
        return Ok(Vec::new());
    }
    match parse_segs(&v, 0, n) {
        Ok(p) => Ok(p),
        Err(t) => Err(SagaDocError::PathParse(t)),
    }
}

impl SagaDoc {
    /// Adds an event under the node the path text addresses.
    pub fn add_event(&mut self, query: &str, event: Event) -> (r: Result<(), SagaDocError>)
        ensures
            match path_of_text(query@) {
                Err(seg) => (r matches Err(SagaDocError::PathParse(t)) && t@ == seg) && *final(self)
                    == *old(self),
                Ok(p) => match query_spec(old(self).data, p) {
                    None => (r matches Err(SagaDocError::PathFind(pf)) && pf.path@
                        == query_fail_suffix(old(self).data, p) && pf.at == pf.path@.len())
                        && *final(self) == *old(self),
                    Some(Query::Event) => (r matches Err(SagaDocError::AddToEvent)) && *final(self)
                        == *old(self),
                    Some(Query::Node) => r is Ok && crate::events::push_at_rel(
                        old(self).data,
                        final(self).data,
                        p,
                        Value::Event(event),
                    ) && final(self).x == old(self).x && final(self).y == old(self).y && final(self).padding == old(self).padding && final(self).color_schemes == old(self).color_schemes,
                },
            },
    {
        let path = match parse_to_int_path(query) {
            Ok(p) => p,
            Err(e) => {
                return Err(e);
            },
        };
        match self.data.query(path.as_slice()) {
            Err(pf) => Err(SagaDocError::PathFind(pf)),
            Ok(Query::Event) => Err(SagaDocError::AddToEvent),
            Ok(Query::Node) => {
                self.data.push_at(path.as_slice(), Value::Event(event));
                Ok(())
            },
        }
    }

    /// Adds a node under the node the path text addresses.
    pub fn add_node(&mut self, query: &str, node: Node) -> (r: Result<(), SagaDocError>)
        ensures
            match path_of_text(query@) {
                Err(seg) => (r matches Err(SagaDocError::PathParse(t)) && t@ == seg) && *final(self)
                    == *old(self),
                Ok(p) => match query_spec(old(self).data, p) {
                    None => (r matches Err(SagaDocError::PathFind(pf)) && pf.path@
                        == query_fail_suffix(old(self).data, p) && pf.at == pf.path@.len())
                        && *final(self) == *old(self),
                    Some(Query::Event) => (r matches Err(SagaDocError::AddToEvent)) && *final(self)
                        == *old(self),
                    Some(Query::Node) => r is Ok && crate::events::push_at_rel(
                        old(self).data,
                        final(self).data,
                        p,
                        Value::Node(node),
                    ) && final(self).x == old(self).x && final(self).y == old(self).y && final(self).padding == old(self).padding && final(self).color_schemes == old(self).color_schemes,
                },
            },
    {
        let path = match parse_to_int_path(query) {
            Ok(p) => p,
            Err(e) => {
                return Err(e);
            },
        };
        match self.data.query(path.as_slice()) {
            Err(pf) => Err(SagaDocError::PathFind(pf)),
            Ok(Query::Event) => Err(SagaDocError::AddToEvent),
            Ok(Query::Node) => {
                self.data.push_at(path.as_slice(), Value::Node(node));
                Ok(())
            },
        }
    }
}

/// The canvas fields of a concatenation: the running element-wise maximum.
pub open spec fn canvas_fold(docs: Seq<SagaDoc>, x: int, y: int, p: int) -> (int, int, int)
    decreases docs.len(),
{
    if docs.len() == 0 {
        (x, y, p)
    } else {
        canvas_fold(
            docs.drop_first(),
            if x >= docs[0].x.micros {
                x
            } else {
                docs[0].x.micros as int
            },
            if y >= docs[0].y.micros {
                y
            } else {
                docs[0].y.micros as int
            },
            if p >= docs[0].padding.micros {
                p
            } else {
                docs[0].padding.micros as int
            },
        )
    }
}

/// Inserting one color scheme: the first entry with the same key is
/// replaced, else the scheme is appended; the scan starts at `j`.
pub open spec fn scheme_insert(
    m: Seq<(String, Colors)>,
    j: int,
    k: String,
    v: Colors,
) -> Seq<(String, Colors)>
    decreases m.len() - j when 0 <= j <= m.len()
{
    if j >= m.len() {
        m.push((k, v))
    } else if m[j].0@ == k@ {
        m.update(j, (k, v))
    } else {
        scheme_insert(m, j + 1, k, v)
    }
}

/// Folding a document's schemes into the accumulator, entry by entry.
pub open spec fn schemes_merge(
    acc: Seq<(String, Colors)>,
    entries: Seq<(String, Colors)>,
) -> Seq<(String, Colors)>
    decreases entries.len(),
{
    if entries.len() == 0 {
        acc
    } else {
        schemes_merge(scheme_insert(acc, 0, entries[0].0, entries[0].1), entries.drop_first())
    }
}

/// The schemes of a concatenation: each document's map folded in order,
/// later entries overriding earlier ones with the same key.
pub open spec fn schemes_fold(
    docs: Seq<SagaDoc>,
    acc: Seq<(String, Colors)>,
) -> Seq<(String, Colors)>
    decreases docs.len(),
{
    if docs.len() == 0 {
        acc
    } else {
        schemes_fold(docs.drop_first(), schemes_merge(acc, docs[0].color_schemes@))
    }
}

/// The root children of a concatenation: the inputs' roots' children, one
/// level flattened, in input order.
pub open spec fn children_fold(docs: Seq<SagaDoc>, acc: Seq<Value>) -> Seq<Value>
    decreases docs.len(),
{
    if docs.len() == 0 {
        acc
    } else {
        children_fold(docs.drop_first(), acc + docs[0].data.children@)
    }
}

/// Inserting keeps the keys pairwise distinct: the scan from `j` replaces
/// the first match in place, or appends a key that matches nothing.
proof fn lemma_scheme_insert_wf(m: Seq<(String, Colors)>, j: int, k: String, v: Colors)
    requires
        schemes_wf(m),
        0 <= j <= m.len(),
        forall|i: int| 0 <= i < j ==> m[i].0@ != k@,
    ensures
        schemes_wf(scheme_insert(m, j, k, v)),
    decreases m.len() - j,
{
    if j >= m.len() {
        let r = m.push((k, v));
        assert forall|a: int, b: int| 0 <= a < b < r.len() implies r[a].0@ != r[b].0@ by {
            if b == m.len() {
                assert(r[a] == m[a]);
                assert(r[b].0@ == k@);
            } else {
                assert(r[a] == m[a] && r[b] == m[b]);
            }
        }
    } else if m[j].0@ == k@ {
        let r = m.update(j, (k, v));
        assert forall|a: int, b: int| 0 <= a < b < r.len() implies r[a].0@ != r[b].0@ by {
            if a == j {
                assert(r[a].0@ == m[j].0@ && r[b] == m[b]);
            } else if b == j {
                assert(r[a] == m[a] && r[b].0@ == m[j].0@);
            } else {
                assert(r[a] == m[a] && r[b] == m[b]);
            }
        }
    } else {
        lemma_scheme_insert_wf(m, j + 1, k, v);
    }
}

proof fn lemma_schemes_merge_wf(acc: Seq<(String, Colors)>, entries: Seq<(String, Colors)>)
    requires
        schemes_wf(acc),
    ensures
        schemes_wf(schemes_merge(acc, entries)),
    decreases entries.len(),
{
    if entries.len() > 0 {
        lemma_scheme_insert_wf(acc, 0, entries[0].0, entries[0].1);
        lemma_schemes_merge_wf(
            scheme_insert(acc, 0, entries[0].0, entries[0].1),
            entries.drop_first(),
        );
    }
}

proof fn lemma_schemes_fold_wf(docs: Seq<SagaDoc>, acc: Seq<(String, Colors)>)
    requires
        schemes_wf(acc),
    ensures
        schemes_wf(schemes_fold(docs, acc)),
    decreases docs.len(),
{
    if docs.len() > 0 {
        lemma_schemes_merge_wf(acc, docs[0].color_schemes@);
        lemma_schemes_fold_wf(docs.drop_first(), schemes_merge(acc, docs[0].color_schemes@));
    }
}

/// Replaces the first scheme with the given key, or appends one; faithful
/// to `scheme_insert` from position zero.
fn insert_scheme(m: &mut Vec<(String, Colors)>, k: String, v: Colors)
    ensures
        final(m)@ == scheme_insert(old(m)@, 0, k, v),
{
    let ghost orig = m@;
    let mut j: usize = 0;
    while j < m.len()
        invariant
            j <= m@.len(),
            m@ == orig,
            orig == old(m)@,
            scheme_insert(orig, 0, k, v) == scheme_insert(orig, j as int, k, v),
        decreases m@.len() - j,
    {
        if string_eq_strings(&m[j].0, &k) {
            proof {
                assert(scheme_insert(orig, j as int, k, v) == orig.update(j as int, (k, v)));
            }
            m[j] = (k, v);
            return ;
        }
        j = j + 1;
    }
    m.push((k, v));
}

/// Whether two strings hold the same characters.
fn string_eq_strings(a: &String, b: &String) -> (r: bool)
    ensures
        r == (a@ == b@),
{
    a.eq(b)
}

impl SagaDoc {
    /// Concatenates documents: the canvas and the padding are the
    /// element-wise maximum over the blank defaults, the color schemes are
    /// the union with later documents overriding earlier ones, and the new
    /// root's children are the inputs' roots' children in input order.
    pub fn catenate(list: Vec<SagaDoc>) -> (r: SagaDoc)
        ensures
            ({
                let canvas = canvas_fold(list@, 1_920_000_000, 1_080_000_000, 0);
                &&& r.x.micros as int == canvas.0
                &&& r.y.micros as int == canvas.1
                &&& r.padding.micros as int == canvas.2
                &&& r.color_schemes@ == schemes_fold(list@, Seq::empty())
                &&& schemes_wf(r.color_schemes@)
                &&& r.data.children@ == children_fold(list@, Seq::empty())
                &&& r.data.name is None
                &&& r.data.line is Off
                &&& r.data.offset.micros == 0
                &&& r.data.y_scale.micros == MICROS
            }),
    {
        let ghost orig = list@;
        let mut list = list;
        let mut doc = SagaDoc::blank();
        proof {
            assert(list@ =~= orig.skip(0));
            assert(doc.color_schemes@ =~= Seq::<(String, Colors)>::empty());
            assert(doc.data.children@ =~= Seq::<Value>::empty());
        }
        let ghost mut gi: int = 0;
        while list.len() > 0
            invariant
                0 <= gi <= orig.len(),
                list@ == orig.skip(gi),
                canvas_fold(orig, 1_920_000_000, 1_080_000_000, 0) == canvas_fold(
                    orig.skip(gi),
                    doc.x.micros as int,
                    doc.y.micros as int,
                    doc.padding.micros as int,
                ),
                schemes_fold(orig, Seq::empty()) == schemes_fold(orig.skip(gi), doc.color_schemes@),
                children_fold(orig, Seq::empty()) == children_fold(
                    orig.skip(gi),
                    doc.data.children@,
                ),
                doc.data.name is None,
                doc.data.line is Off,
                doc.data.offset.micros == 0,
                doc.data.y_scale.micros == MICROS,
            decreases list@.len(),
        {
            let mut item = list.remove(0);
            proof {
                assert(orig.skip(gi)[0] == orig[gi]);
                assert(orig.skip(gi).drop_first() =~= orig.skip(gi + 1));
                assert(list@ =~= orig.skip(gi + 1));
            }
            doc.x = doc.x.max(item.x);
            doc.y = doc.y.max(item.y);
            doc.padding = doc.padding.max(item.padding);
            let ghost entries = item.color_schemes@;
            let ghost acc0 = doc.color_schemes@;
            let ghost x_snap = doc.x;
            let ghost y_snap = doc.y;
            let ghost p_snap = doc.padding;
            let ghost data_snap = doc.data;
            let ghost item_data_snap = item.data;
            let ghost mut ei: int = 0;
            proof {
                assert(entries.skip(0) =~= entries);
            }
            while item.color_schemes.len() > 0
                invariant
                    0 <= ei <= entries.len(),
                    item.color_schemes@ == entries.skip(ei),
                    schemes_merge(acc0, entries) == schemes_merge(
                        doc.color_schemes@,
                        entries.skip(ei),
                    ),
                    doc.x == x_snap,
                    doc.y == y_snap,
                    doc.padding == p_snap,
                    doc.data == data_snap,
                    item.data == item_data_snap,
                decreases item.color_schemes@.len(),
            {
                let (k, v) = item.color_schemes.remove(0);
                proof {
                    assert(entries.skip(ei)[0] == entries[ei]);
                    assert(entries.skip(ei).drop_first() =~= entries.skip(ei + 1));
                    assert(item.color_schemes@ =~= entries.skip(ei + 1));
                }
                insert_scheme(&mut doc.color_schemes, k, v);
                proof {
                    ei = ei + 1;
                }
            }
            proof {
                assert(entries.skip(entries.len() as int) =~= Seq::<(String, Colors)>::empty());
            }
            doc.data.children.append(&mut item.data.children);
            proof {
                gi = gi + 1;
            }
        }
        proof {
            assert(orig.skip(orig.len() as int) =~= Seq::<SagaDoc>::empty());
            lemma_schemes_fold_wf(orig, Seq::empty());
        }
        doc
    }
}

} // verus!
