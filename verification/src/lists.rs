//! List-normalize detection: the shape of every list item, and the blocks
//! sitting in the gaps between sibling items.
use vstd::prelude::*;
use crate::ast::{MdNode, NodeKind, Pos, has_kids, has_children_kind, line0, line0_exec};
use crate::types::ListItemShape;
use crate::text::{lv, is_blank, is_blank_line, trim_start, trim_start_vec, starts_with, starts_with_vec};
use crate::lines::{fence_of, is_code_fence_line, marker_width, list_marker_width};
use crate::rules::{sat_add, item_marker_width};

verus! {

// ---------------------------------------------------------------------------
// List item shapes
// ---------------------------------------------------------------------------

/// Summary of one list item's content classification and position.
#[derive(Debug, Clone)]
pub struct ListItemDetection {
    /// Content classification.
    pub shape: ListItemShape,
    /// 0-indexed line of the item's marker.
    pub start_line: usize,
    /// 0-indexed end line (inclusive) of the item's body.
    pub end_line: usize,
    /// 0-indexed start line of the first child block.
    pub first_child_line: Option<usize>,
    /// 0-indexed end line (inclusive) of the last child block.
    pub last_child_line: Option<usize>,
    /// Nesting depth (0 = top-level item).
    pub depth: usize,
    /// 0-indexed column of the marker character.
    pub marker_column: usize,
    /// Width of marker plus space.
    pub marker_width: usize,
    /// Column where the item's children begin.
    pub continuation_indent: usize,
    /// 0-indexed blank lines between adjacent paragraph children.
    pub inner_blank_gap_lines: Vec<usize>,
}

/// A detection, with its gap lines as a sequence.
pub struct DetView {
    pub shape: ListItemShape,
    pub start_line: usize,
    pub end_line: usize,
    pub first_child_line: Option<usize>,
    pub last_child_line: Option<usize>,
    pub depth: usize,
    pub marker_column: usize,
    pub marker_width: usize,
    pub continuation_indent: usize,
    pub gaps: Seq<usize>,
}

pub open spec fn det_view(d: ListItemDetection) -> DetView {
    DetView {
        shape: d.shape,
        start_line: d.start_line,
        end_line: d.end_line,
        first_child_line: d.first_child_line,
        last_child_line: d.last_child_line,
        depth: d.depth,
        marker_column: d.marker_column,
        marker_width: d.marker_width,
        continuation_indent: d.continuation_indent,
        gaps: d.inner_blank_gap_lines@,
    }
}

pub open spec fn det_views(ds: Seq<ListItemDetection>) -> Seq<DetView> {
    ds.map_values(|d: ListItemDetection| det_view(d))
}

/// Which kinds of children an item has: (paragraph, code, table, sublist, other).
pub open spec fn child_flags(cs: Seq<MdNode>) -> (bool, bool, bool, bool, bool)
    decreases cs.len(),
{
    if cs.len() == 0 {
        (false, false, false, false, false)
    } else {
        let (p, c, t, l, o) = child_flags(cs.drop_last());
        let k = cs.last().kind;
        if k == NodeKind::Paragraph {
            (true, c, t, l, o)
        } else if k == NodeKind::Code {
            (p, true, t, l, o)
        } else if k == NodeKind::Table {
            (p, c, true, l, o)
        } else if k == NodeKind::List {
            (p, c, t, true, o)
        } else {
            (p, c, t, l, true)
        }
    }
}

pub open spec fn count3(a: bool, b: bool, c: bool) -> nat {
    (if a { 1nat } else { 0nat }) + (if b { 1nat } else { 0nat }) + (if c { 1nat } else { 0nat })
}

/// Classify an item by the kinds of its children.
pub open spec fn shape_of(f: (bool, bool, bool, bool, bool)) -> ListItemShape {
    let (p, c, t, l, o) = f;
    if count3(c, t, l) >= 2 {
        ListItemShape::Mixed
    } else if c {
        if p || o { ListItemShape::Mixed } else { ListItemShape::HasCodeFence }
    } else if t {
        if p || o { ListItemShape::Mixed } else { ListItemShape::HasTable }
    } else if l {
        if p || o { ListItemShape::Mixed } else { ListItemShape::HasSublist }
    } else if o {
        ListItemShape::Mixed
    } else {
        ListItemShape::ParagraphsOnly
    }
}

/// Marker width as seen from the first paragraph child's column (2 otherwise).
pub open spec fn width_from_children(cs: Seq<MdNode>, marker_column: nat) -> nat {
    if cs.len() > 0 && cs[0].kind == NodeKind::Paragraph && cs[0].position is Some {
        let fcc = line0(cs[0].position.unwrap().start_column);
        if fcc > marker_column { (fcc - marker_column) as nat } else { 2 }
    } else {
        2
    }
}

pub open spec fn range_seq(a: nat, b: nat) -> Seq<usize>
    decreases b - a,
{
    if a >= b { Seq::empty() } else { seq![a as usize] + range_seq(a + 1, b) }
}

/// Blank-gap lines between adjacent paragraph children (children `0..i`),
/// with the end line of the last positioned child when it is a paragraph
/// (a positioned child of another kind breaks the adjacency).
pub open spec fn gap_scan(cs: Seq<MdNode>, i: int) -> (Seq<usize>, Option<nat>)
    decreases i,
{
    if i <= 0 || i > cs.len() {
        (Seq::empty(), None)
    } else {
        let (gaps, prev) = gap_scan(cs, i - 1);
        let c = cs[i - 1];
        match c.position {
            None => (gaps, prev),
            Some(p) => {
                let s = line0(p.start_line);
                let e = line0(p.end_line);
                if c.kind == NodeKind::Paragraph {
                    match prev {
                        Some(pe) => if s > pe + 1 {
                            (gaps + range_seq(pe + 1, s), Some(e))
                        } else {
                            (gaps, Some(e))
                        },
                        None => (gaps, Some(e)),
                    }
                } else {
                    (gaps, None)
                }
            },
        }
    }
}

/// Children `a` and `b` are paragraphs with positions, and no child between
/// them has a position: they are adjacent paragraphs.
pub open spec fn adjacent_paragraphs(cs: Seq<MdNode>, a: int, b: int) -> bool {
    &&& 0 <= a < b < cs.len()
    &&& cs[a].kind == NodeKind::Paragraph && cs[a].position is Some
    &&& cs[b].kind == NodeKind::Paragraph && cs[b].position is Some
    &&& forall|m: int| a < m < b ==> (#[trigger] cs[m]).position is None
}

proof fn lemma_range_seq(a: nat, b: nat)
    requires
        b <= usize::MAX,
    ensures
        range_seq(a, b).len() == if a < b { b - a } else { 0 },
        forall|k: int| 0 <= k < range_seq(a, b).len() ==> #[trigger] range_seq(a, b)[k] == a + k,
    decreases b - a,
{
    if a < b {
        lemma_range_seq(a + 1, b);
        assert forall|k: int| 0 <= k < range_seq(a, b).len() implies #[trigger] range_seq(a, b)[k] == a + k by {
            if k > 0 {
                assert(range_seq(a, b)[k] == range_seq(a + 1, b)[k - 1]);
            }
        }
    }
}

/// Line `g` lies strictly between adjacent paragraph children `a` and `b`.
pub open spec fn between_adjacent(cs: Seq<MdNode>, a: int, b: int, g: int) -> bool {
    &&& adjacent_paragraphs(cs, a, b)
    &&& line0(cs[a].position.unwrap().end_line) < g < line0(cs[b].position.unwrap().start_line)
}

/// Line `g` lies strictly between some two adjacent paragraph children.
pub open spec fn in_paragraph_gap(cs: Seq<MdNode>, g: int) -> bool {
    exists|a: int, b: int| #[trigger] between_adjacent(cs, a, b, g)
}

/// The last positioned child before `i` is the paragraph `a`.
pub open spec fn last_positioned_paragraph(cs: Seq<MdNode>, a: int, i: int) -> bool {
    &&& 0 <= a < i
    &&& cs[a].kind == NodeKind::Paragraph && cs[a].position is Some
    &&& forall|m: int| a < m < i ==> (#[trigger] cs[m]).position is None
}

proof fn lemma_gap_scan_sound(cs: Seq<MdNode>, i: int)
    requires
        0 <= i <= cs.len(),
    ensures
        gap_scan(cs, i).1 matches Some(pe) ==> exists|a: int| #[trigger] last_positioned_paragraph(cs, a, i)
            && line0(cs[a].position.unwrap().end_line) == pe,
        forall|k: int| 0 <= k < gap_scan(cs, i).0.len() ==> in_paragraph_gap(cs, #[trigger] gap_scan(cs, i).0[k] as int),
    decreases i,
{
    if i > 0 {
        lemma_gap_scan_sound(cs, i - 1);
        let (gaps, prev) = gap_scan(cs, i - 1);
        let c = cs[i - 1];
        let out = gap_scan(cs, i).0;
        match c.position {
            None => {
                if let Some(pe) = prev {
                    let a = choose|a: int| #[trigger] last_positioned_paragraph(cs, a, i - 1)
                        && line0(cs[a].position.unwrap().end_line) == pe;
                    assert(last_positioned_paragraph(cs, a, i));
                }
                assert(out == gaps);
            },
            Some(p) => {
                let s = line0(p.start_line);
                if c.kind == NodeKind::Paragraph {
                    assert(last_positioned_paragraph(cs, i - 1, i));
                    match prev {
                        Some(pe) => {
                            let a = choose|a: int| #[trigger] last_positioned_paragraph(cs, a, i - 1)
                                && line0(cs[a].position.unwrap().end_line) == pe;
                            assert(adjacent_paragraphs(cs, a, i - 1));
                            if s > pe + 1 {
                                lemma_range_seq(pe + 1, s);
                                let r = range_seq(pe + 1, s);
                                assert(out == gaps + r);
                                assert forall|k: int| 0 <= k < out.len() implies in_paragraph_gap(cs, #[trigger] out[k] as int) by {
                                    if k < gaps.len() {
                                        assert(out[k] == gaps[k]);
                                    } else {
                                        assert(out[k] == r[k - gaps.len()]);
                                        assert(between_adjacent(cs, a, i - 1, out[k] as int));
                                    }
                                }
                            } else {
                                assert(out == gaps);
                            }
                        },
                        None => {
                            assert(out == gaps);
                        },
                    }
                } else {
                    assert(out == gaps);
                }
            },
        }
    }
}

/// Every gap line of a list item lies strictly between two adjacent
/// paragraph children: after the end line of one and before the start line
/// of the next, with no positioned child between them.
pub proof fn lemma_gaps_between_adjacent_paragraphs(cs: Seq<MdNode>)
    ensures
        forall|k: int| 0 <= k < gap_scan(cs, cs.len() as int).0.len()
            ==> in_paragraph_gap(cs, #[trigger] gap_scan(cs, cs.len() as int).0[k] as int),
{
    lemma_gap_scan_sound(cs, cs.len() as int);
}

/// The detection of a list item with a position.
pub open spec fn detection(item: MdNode, depth: usize) -> DetView {
    let p = item.position.unwrap();
    let cs = item.children@;
    let mc = line0(p.start_column);
    let mw = width_from_children(cs, mc);
    DetView {
        shape: shape_of(child_flags(cs)),
        start_line: line0(p.start_line) as usize,
        end_line: line0(p.end_line) as usize,
        first_child_line: if cs.len() > 0 && cs[0].position is Some {
            Some(line0(cs[0].position.unwrap().start_line) as usize)
        } else {
            None
        },
        last_child_line: if cs.len() > 0 && cs.last().position is Some {
            Some(line0(cs.last().position.unwrap().end_line) as usize)
        } else {
            None
        },
        depth,
        marker_column: mc as usize,
        marker_width: mw as usize,
        continuation_indent: sat_add(mc as usize, mw as usize),
        gaps: gap_scan(cs, cs.len() as int).0,
    }
}

/// Detections of every list item with a position, in document order.
pub open spec fn item_shapes(n: MdNode, depth: usize) -> Seq<DetView>
    decreases n, 2nat, 0int,
{
    if n.kind == NodeKind::List {
        shapes_items(n, depth, n.children@.len() as int)
    } else if has_kids(n.kind) {
        shapes_kids(n, depth, n.children@.len() as int)
    } else {
        Seq::empty()
    }
}

pub open spec fn shapes_kids(n: MdNode, depth: usize, i: int) -> Seq<DetView>
    decreases n, 1nat, i,
{
    if i <= 0 || i > n.children@.len() {
        Seq::empty()
    } else {
        shapes_kids(n, depth, i - 1) + item_shapes(n.children@[i - 1], depth)
    }
}

pub open spec fn shapes_items(n: MdNode, depth: usize, i: int) -> Seq<DetView>
    decreases n, 1nat, i,
{
    if i <= 0 || i > n.children@.len() {
        Seq::empty()
    } else {
        let c = n.children@[i - 1];
        shapes_items(n, depth, i - 1) + if c.kind == NodeKind::ListItem && c.position is Some {
            seq![detection(c, depth)] + shapes_kids(c, sat_add(depth, 1), c.children@.len() as int)
        } else {
            Seq::empty()
        }
    }
}

fn child_flags_exec(cs: &Vec<MdNode>) -> (r: (bool, bool, bool, bool, bool))
    ensures
        r == child_flags(cs@),
{
    let mut f = (false, false, false, false, false);
    let mut i: usize = 0;
    while i < cs.len()
        invariant
            i <= cs.len(),
            f == child_flags(cs@.take(i as int)),
        decreases cs.len() - i,
    {
        assert(cs@.take(i + 1).drop_last() =~= cs@.take(i as int));
        let k = cs[i].kind;
        if k == NodeKind::Paragraph {
            f.0 = true;
        } else if k == NodeKind::Code {
            f.1 = true;
        } else if k == NodeKind::Table {
            f.2 = true;
        } else if k == NodeKind::List {
            f.3 = true;
        } else {
            f.4 = true;
        }
        i += 1;
    }
    assert(cs@.take(cs.len() as int) =~= cs@);
    f
}

fn shape_exec(f: (bool, bool, bool, bool, bool)) -> (r: ListItemShape)
    ensures
        r == shape_of(f),
{
    let (p, c, t, l, o) = f;
    let n = (if c { 1usize } else { 0 }) + (if t { 1usize } else { 0 }) + (if l { 1usize } else { 0 });
    if n >= 2 {
        ListItemShape::Mixed
    } else if c {
        if p || o { ListItemShape::Mixed } else { ListItemShape::HasCodeFence }
    } else if t {
        if p || o { ListItemShape::Mixed } else { ListItemShape::HasTable }
    } else if l {
        if p || o { ListItemShape::Mixed } else { ListItemShape::HasSublist }
    } else if o {
        ListItemShape::Mixed
    } else {
        ListItemShape::ParagraphsOnly
    }
}

fn push_range(out: &mut Vec<usize>, a: usize, b: usize)
    ensures
        final(out)@ == old(out)@ + range_seq(a as nat, b as nat),
{
    let ghost o0 = out@;
    let mut k = a;
    while k < b
        invariant
            a <= k <= b || (a >= b && k == a),
            out@ + range_seq(k as nat, b as nat) == o0 + range_seq(a as nat, b as nat),
        decreases b - k,
    {
        let ghost before = out@;
        out.push(k);
        assert(range_seq(k as nat, b as nat) == seq![k] + range_seq(k as nat + 1, b as nat));
        assert(out@ + range_seq(k as nat + 1, b as nat) =~= before + range_seq(k as nat, b as nat));
        k += 1;
    }
    assert(range_seq(k as nat, b as nat) =~= Seq::<usize>::empty());
}

fn gap_lines(cs: &Vec<MdNode>) -> (r: Vec<usize>)
    ensures
        r@ == gap_scan(cs@, cs@.len() as int).0,
{
    let mut gaps: Vec<usize> = Vec::new();
    let mut prev: Option<usize> = None;
    let mut i: usize = 0;
    while i < cs.len()
        invariant
            i <= cs.len(),
            (gaps@, match prev { Some(x) => Some(x as nat), None => None::<nat> }) == gap_scan(cs@, i as int),
        decreases cs.len() - i,
    {
        if let Some(p) = &cs[i].position {
            let s = line0_exec(p.start_line);
            let e = line0_exec(p.end_line);
            if cs[i].kind == NodeKind::Paragraph {
                if let Some(pe) = prev {
                    if pe < s && s - pe > 1 {
                        push_range(&mut gaps, pe + 1, s);
                    }
                }
                prev = Some(e);
            } else {
                prev = None;
            }
        }
        i += 1;
    }
    gaps
}

/// Classify one list item (`None` without a position).
pub fn build_item_detection(item: &MdNode, depth: usize) -> (r: Option<ListItemDetection>)
    ensures
        item.position is None ==> r is None,
        item.position is Some ==> r is Some && det_view(r.unwrap()) == detection(*item, depth),
{
    let p = match &item.position {
        Some(p) => p,
        None => {
            return None;
        },
    };
    let cs = &item.children;
    let mc = line0_exec(p.start_column);
    let mw = if cs.len() > 0 && cs[0].kind == NodeKind::Paragraph && cs[0].position.is_some() {
        let fcc = match &cs[0].position {
            Some(q) => line0_exec(q.start_column),
            None => 0,
        };
        if fcc > mc { fcc - mc } else { 2 }
    } else {
        2
    };
    let first_child_line = if cs.len() > 0 {
        match &cs[0].position {
            Some(q) => Some(line0_exec(q.start_line)),
            None => None,
        }
    } else {
        None
    };
    let last_child_line = if cs.len() > 0 {
        match &cs[cs.len() - 1].position {
            Some(q) => Some(line0_exec(q.end_line)),
            None => None,
        }
    } else {
        None
    };
    let d = ListItemDetection {
        shape: shape_exec(child_flags_exec(cs)),
        start_line: line0_exec(p.start_line),
        end_line: line0_exec(p.end_line),
        first_child_line,
        last_child_line,
        depth,
        marker_column: mc,
        marker_width: mw,
        continuation_indent: mc.saturating_add(mw),
        inner_blank_gap_lines: gap_lines(cs),
    };
    Some(d)
}

fn push_det(out: &mut Vec<ListItemDetection>, d: ListItemDetection)
    ensures
        det_views(final(out)@) == det_views(old(out)@).push(det_view(d)),
{
    let ghost prev = out@;
    out.push(d);
    assert(det_views(out@) =~= det_views(prev).push(det_view(d)));
}

fn walk_shape_kids(n: &MdNode, depth: usize, out: &mut Vec<ListItemDetection>)
    ensures
        det_views(final(out)@) == det_views(old(out)@) + shapes_kids(*n, depth, n.children@.len() as int),
    decreases n, 1nat, n.children@.len(),
{
    let ghost o0 = det_views(out@);
    let mut i: usize = 0;
    while i < n.children.len()
        invariant
            i <= n.children.len(),
            det_views(out@) == o0 + shapes_kids(*n, depth, i as int),
        decreases n.children.len() - i,
    {
        walk_list_items(&n.children[i], depth, out);
        assert(det_views(out@) =~= o0 + shapes_kids(*n, depth, i + 1));
        i += 1;
    }
}

fn walk_shape_items(n: &MdNode, depth: usize, out: &mut Vec<ListItemDetection>)
    ensures
        det_views(final(out)@) == det_views(old(out)@) + shapes_items(*n, depth, n.children@.len() as int),
    decreases n, 1nat, n.children@.len(),
{
    let ghost o0 = det_views(out@);
    let mut i: usize = 0;
    while i < n.children.len()
        invariant
            i <= n.children.len(),
            det_views(out@) == o0 + shapes_items(*n, depth, i as int),
        decreases n.children.len() - i,
    {
        let c = &n.children[i];
        if c.kind == NodeKind::ListItem {
            if let Some(d) = build_item_detection(c, depth) {
                push_det(out, d);
                walk_shape_kids(c, depth.saturating_add(1), out);
            }
        }
        assert(det_views(out@) =~= o0 + shapes_items(*n, depth, i + 1));
        i += 1;
    }
}

/// Depth-first walk producing one detection per positioned list item.
pub fn walk_list_items(n: &MdNode, depth: usize, out: &mut Vec<ListItemDetection>)
    ensures
        det_views(final(out)@) == det_views(old(out)@) + item_shapes(*n, depth),
    decreases n, 2nat, 0int,
{
    if n.kind == NodeKind::List {
        walk_shape_items(n, depth, out);
    } else if has_children_kind(&n.kind) {
        walk_shape_kids(n, depth, out);
    } else {
        assert(det_views(out@) =~= det_views(old(out)@) + item_shapes(*n, depth));
    }
}

/// Detections of every list item of a tree.
pub fn collect_list_item_shapes(n: &MdNode) -> (r: Vec<ListItemDetection>)
    ensures
        det_views(r@) == item_shapes(*n, 0),
{
    let mut out: Vec<ListItemDetection> = Vec::new();
    walk_list_items(n, 0, &mut out);
    assert(det_views(out@) =~= item_shapes(*n, 0));
    out
}


// ---------------------------------------------------------------------------
// Escaped block candidates
// ---------------------------------------------------------------------------

/// Which recover rule a candidate block probably belongs to.
#[derive(Debug, Clone, Copy, PartialEq, Eq, Structural)]
pub enum EscapedBlockKind {
    Code,
    Table,
    Paragraph,
}

/// A block in the gap between two sibling list items.
#[derive(Debug, Clone, Copy, PartialEq, Eq, Structural)]
pub struct EscapedBlockCandidate {
    /// 0-indexed first line of the block.
    pub start_line: usize,
    /// 0-indexed last line (inclusive) of the block.
    pub end_line: usize,
    pub kind: EscapedBlockKind,
    /// Continuation indent the enclosing item would require.
    pub expected_continuation_indent: usize,
    /// Nesting depth of the enclosing list.
    pub depth: usize,
}

/// First and last non-blank line in `a..=b` (`b` clamped to the last line).
pub open spec fn nonblank_bounds(ls: Seq<Seq<char>>, a: int, b: int) -> Option<(nat, nat)>
    decreases b + 1 - a,
{
    if a > b || a < 0 || a >= ls.len() {
        None
    } else {
        let rest = nonblank_bounds(ls, a + 1, b);
        if is_blank(ls[a]) {
            rest
        } else {
            match rest {
                Some((_f, l)) => Some((a as nat, l)),
                None => Some((a as nat, a as nat)),
            }
        }
    }
}

/// Classify the gap `gs..=ge` by its first non-blank line.
pub open spec fn classify(ls: Seq<Seq<char>>, gs: nat, ge: nat, expected: usize, depth: usize) -> Option<EscapedBlockCandidate> {
    let last = if ls.len() == 0 { 0 } else { ls.len() - 1 };
    let hi = if ge < last { ge as int } else { last as int };
    if ls.len() == 0 {
        None
    } else {
        match nonblank_bounds(ls, gs as int, hi) {
            None => None,
            Some((s, e)) => {
                let t = trim_start(ls[s as int]);
                let kind = if fence_of(t) is Some {
                    Some(EscapedBlockKind::Code)
                } else if starts_with(t, seq!['|']) {
                    Some(EscapedBlockKind::Table)
                } else if t.len() > 0 {
                    Some(EscapedBlockKind::Paragraph)
                } else {
                    None
                };
                match kind {
                    Some(k) => Some(EscapedBlockCandidate {
                        start_line: s as usize,
                        end_line: e as usize,
                        kind: k,
                        expected_continuation_indent: expected,
                        depth,
                    }),
                    None => None,
                }
            },
        }
    }
}

/// (start, end, continuation column) of each positioned item of a list.
pub open spec fn item_spans(n: MdNode, ls: Seq<Seq<char>>, i: int) -> Seq<(nat, nat, usize)>
    decreases i,
{
    if i <= 0 || i > n.children@.len() {
        Seq::empty()
    } else {
        let c = n.children@[i - 1];
        item_spans(n, ls, i - 1) + if c.kind == NodeKind::ListItem && c.position is Some {
            let p = c.position.unwrap();
            seq![(line0(p.start_line), line0(p.end_line), sat_add(line0(p.start_column) as usize, item_marker_width(p, ls) as usize))]
        } else {
            Seq::empty()
        }
    }
}

/// Candidates from the gaps between consecutive spans `0..=i`.
pub open spec fn gap_candidates(sp: Seq<(nat, nat, usize)>, ls: Seq<Seq<char>>, depth: usize, i: int) -> Seq<EscapedBlockCandidate>
    decreases i,
{
    if i <= 0 || i >= sp.len() {
        Seq::empty()
    } else {
        let (_ps, pe, exp) = sp[i - 1];
        let (ns, _ne, _w) = sp[i];
        gap_candidates(sp, ls, depth, i - 1) + if ns <= pe + 1 {
            Seq::empty()
        } else {
            match classify(ls, pe + 1, (ns - 1) as nat, exp, depth) {
                Some(c) => seq![c],
                None => Seq::empty(),
            }
        }
    }
}

/// Gap candidates of every list in the tree, in document order.
pub open spec fn escape_candidates(n: MdNode, ls: Seq<Seq<char>>, depth: usize) -> Seq<EscapedBlockCandidate>
    decreases n, 2nat, 0int,
{
    if n.kind == NodeKind::List {
        let sp = item_spans(n, ls, n.children@.len() as int);
        gap_candidates(sp, ls, depth, sp.len() - 1) + cand_items(n, ls, depth, n.children@.len() as int)
    } else if has_kids(n.kind) {
        cand_kids(n, ls, depth, n.children@.len() as int)
    } else {
        Seq::empty()
    }
}

pub open spec fn cand_kids(n: MdNode, ls: Seq<Seq<char>>, depth: usize, i: int) -> Seq<EscapedBlockCandidate>
    decreases n, 1nat, i,
{
    if i <= 0 || i > n.children@.len() {
        Seq::empty()
    } else {
        cand_kids(n, ls, depth, i - 1) + escape_candidates(n.children@[i - 1], ls, depth)
    }
}

pub open spec fn cand_items(n: MdNode, ls: Seq<Seq<char>>, depth: usize, i: int) -> Seq<EscapedBlockCandidate>
    decreases n, 1nat, i,
{
    if i <= 0 || i > n.children@.len() {
        Seq::empty()
    } else {
        let c = n.children@[i - 1];
        cand_items(n, ls, depth, i - 1) + if c.kind == NodeKind::ListItem && c.position is Some {
            cand_kids(c, ls, sat_add(depth, 1), c.children@.len() as int)
        } else {
            Seq::empty()
        }
    }
}

fn nonblank_bounds_exec(ls: &Vec<Vec<char>>, a: usize, b: usize) -> (r: Option<(usize, usize)>)
    requires
        b < ls.len(),
    ensures
        match r {
            Some((f, l)) => nonblank_bounds(lv(ls@), a as int, b as int) == Some((f as nat, l as nat)),
            None => nonblank_bounds(lv(ls@), a as int, b as int) is None,
        },
{
    let ghost l = lv(ls@);
    if a > b {
        return None;
    }
    let mut first: Option<usize> = None;
    let mut last: Option<usize> = None;
    let mut k = b + 1;
    // Scan backwards so the recursion's shape is followed.
    while k > a
        invariant
            a <= k <= b + 1,
            b < ls.len(),
            l == lv(ls@),
            match (first, last) {
                (Some(f), Some(x)) => nonblank_bounds(l, k as int, b as int) == Some((f as nat, x as nat)),
                (None, None) => nonblank_bounds(l, k as int, b as int) is None,
                _ => false,
            },
        decreases k,
    {
        k -= 1;
        if !is_blank_line(&ls[k]) {
            if last.is_none() {
                last = Some(k);
            }
            first = Some(k);
        }
    }
    match (first, last) {
        (Some(f), Some(x)) => Some((f, x)),
        _ => None,
    }
}

/// Classify the lines of a gap as a code / table / paragraph candidate.
pub fn classify_gap(ls: &Vec<Vec<char>>, gs: usize, ge: usize, expected: usize, depth: usize) -> (r: Option<EscapedBlockCandidate>)
    ensures
        r == classify(lv(ls@), gs as nat, ge as nat, expected, depth),
{
    if ls.len() == 0 {
        return None;
    }
    let last = ls.len() - 1;
    let hi = if ge < last { ge } else { last };
    let (s, e) = match nonblank_bounds_exec(ls, gs, hi) {
        Some(x) => x,
        None => {
            return None;
        },
    };
    proof {
        lemma_nonblank_bounds(lv(ls@), gs as int, hi as int);
    }
    let t = trim_start_vec(&ls[s]);
    let bar: Vec<char> = vec!['|'];
    assert(bar@ =~= seq!['|']);
    let kind = if is_code_fence_line(&t) {
        EscapedBlockKind::Code
    } else if starts_with_vec(&t, &bar) {
        EscapedBlockKind::Table
    } else if t.len() > 0 {
        EscapedBlockKind::Paragraph
    } else {
        return None;
    };
    Some(EscapedBlockCandidate { start_line: s, end_line: e, kind, expected_continuation_indent: expected, depth })
}

pub proof fn lemma_nonblank_bounds(ls: Seq<Seq<char>>, a: int, b: int)
    ensures
        nonblank_bounds(ls, a, b) matches Some((f, l)) ==> a <= f <= l <= b && f < ls.len(),
    decreases b + 1 - a,
{
    if !(a > b || a < 0 || a >= ls.len()) {
        lemma_nonblank_bounds(ls, a + 1, b);
    }
}

fn item_spans_exec(n: &MdNode, ls: &Vec<Vec<char>>) -> (r: Vec<(usize, usize, usize)>)
    ensures
        r@.map_values(|t: (usize, usize, usize)| (t.0 as nat, t.1 as nat, t.2)) == item_spans(*n, lv(ls@), n.children@.len() as int),
{
    let ghost l = lv(ls@);
    let mut out: Vec<(usize, usize, usize)> = Vec::new();
    let mut i: usize = 0;
    while i < n.children.len()
        invariant
            i <= n.children.len(),
            l == lv(ls@),
            out@.map_values(|t: (usize, usize, usize)| (t.0 as nat, t.1 as nat, t.2)) == item_spans(*n, l, i as int),
        decreases n.children.len() - i,
    {
        let c = &n.children[i];
        let ghost before = out@;
        if c.kind == NodeKind::ListItem {
            if let Some(p) = &c.position {
                let w = crate::rules::item_marker_width_exec(p, ls);
                out.push((line0_exec(p.start_line), line0_exec(p.end_line), line0_exec(p.start_column).saturating_add(w)));
            }
        }
        assert(out@.map_values(|t: (usize, usize, usize)| (t.0 as nat, t.1 as nat, t.2)) =~= item_spans(*n, l, i + 1));
        i += 1;
    }
    out
}

fn walk_cand_kids(n: &MdNode, ls: &Vec<Vec<char>>, depth: usize, out: &mut Vec<EscapedBlockCandidate>)
    ensures
        final(out)@ == old(out)@ + cand_kids(*n, lv(ls@), depth, n.children@.len() as int),
    decreases n, 1nat, n.children@.len(),
{
    let ghost o0 = out@;
    let mut i: usize = 0;
    while i < n.children.len()
        invariant
            i <= n.children.len(),
            out@ == o0 + cand_kids(*n, lv(ls@), depth, i as int),
        decreases n.children.len() - i,
    {
        walk_escape_candidates(&n.children[i], ls, depth, out);
        assert(out@ =~= o0 + cand_kids(*n, lv(ls@), depth, i + 1));
        i += 1;
    }
}

fn walk_cand_items(n: &MdNode, ls: &Vec<Vec<char>>, depth: usize, out: &mut Vec<EscapedBlockCandidate>)
    ensures
        final(out)@ == old(out)@ + cand_items(*n, lv(ls@), depth, n.children@.len() as int),
    decreases n, 1nat, n.children@.len(),
{
    let ghost o0 = out@;
    let mut i: usize = 0;
    while i < n.children.len()
        invariant
            i <= n.children.len(),
            out@ == o0 + cand_items(*n, lv(ls@), depth, i as int),
        decreases n.children.len() - i,
    {
        let c = &n.children[i];
        if c.kind == NodeKind::ListItem && c.position.is_some() {
            walk_cand_kids(c, ls, depth.saturating_add(1), out);
        }
        assert(out@ =~= o0 + cand_items(*n, lv(ls@), depth, i + 1));
        i += 1;
    }
}

/// Walk the lists of a tree, collecting blocks in the gaps between sibling items.
pub fn walk_escape_candidates(n: &MdNode, ls: &Vec<Vec<char>>, depth: usize, out: &mut Vec<EscapedBlockCandidate>)
    ensures
        final(out)@ == old(out)@ + escape_candidates(*n, lv(ls@), depth),
    decreases n, 2nat, 0int,
{
    let ghost l = lv(ls@);
    if n.kind == NodeKind::List {
        let ghost o0 = out@;
        let sp = item_spans_exec(n, ls);
        let ghost spv = sp@.map_values(|t: (usize, usize, usize)| (t.0 as nat, t.1 as nat, t.2));
        let mut i: usize = 1;
        while i < sp.len()
            invariant
                1 <= i,
                i <= sp.len() || sp.len() == 0,
                l == lv(ls@),
                spv == sp@.map_values(|t: (usize, usize, usize)| (t.0 as nat, t.1 as nat, t.2)),
                out@ == o0 + gap_candidates(spv, l, depth, i - 1),
            decreases sp.len() - i,
        {
            let (_ps, pe, exp) = sp[i - 1];
            let (ns, _ne, _w) = sp[i];
            assert(spv[i - 1] == (pe as nat, sp@[i - 1].1 as nat, exp) || true);
            if !(ns <= pe || ns - pe <= 1) {
                match classify_gap(ls, pe + 1, ns - 1, exp, depth) {
                    Some(c) => out.push(c),
                    None => {},
                }
            }
            assert(out@ =~= o0 + gap_candidates(spv, l, depth, i as int));
            i += 1;
        }
        assert(out@ =~= o0 + gap_candidates(spv, l, depth, spv.len() - 1));
        walk_cand_items(n, ls, depth, out);
    } else if has_children_kind(&n.kind) {
        walk_cand_kids(n, ls, depth, out);
    } else {
        assert(out@ =~= old(out)@ + escape_candidates(*n, l, depth));
    }
}

/// Blocks in the gaps between sibling list items, anywhere in the tree.
pub fn collect_escaped_block_candidates(n: &MdNode, ls: &Vec<Vec<char>>) -> (r: Vec<EscapedBlockCandidate>)
    ensures
        r@ == escape_candidates(*n, lv(ls@), 0),
{
    let mut out: Vec<EscapedBlockCandidate> = Vec::new();
    walk_escape_candidates(n, ls, 0, &mut out);
    assert(out@ =~= escape_candidates(*n, lv(ls@), 0));
    out
}

} // verus!
