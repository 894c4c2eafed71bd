//! The two box-combination algorithms: list flow (a vertical stack) and
//! inline flow (line-wrapped packing of boxes and text), each specified by
//! a fold over the children and implemented against that fold.

use crate::geometry::{point2, size2, LogicalSideOffsets, LogicalSize, MAX_ACC, MAX_DIM};
use crate::text::{imax, spec_text_step, text_step, words_wf, MeasuredWord};
use crate::tree::{
    lemma_resolve_text_bounds, spec_resolve_text, LayoutChild, LayoutOptions, LayoutText,
    LayoutTreeNode, UnresolvedLayout,
};
use std::rc::Rc;
use vstd::prelude::*;

verus! {

/// A fragment placed by inline flow: the source child's index, the line it
/// was placed on, its position (padding included), and what it holds.
pub enum GFragKind {
    Boxed { node: Rc<LayoutTreeNode> },
    TextRun { bytes: Seq<u8>, start: int, end: int, width: int, height: int, size: int },
}

pub struct GFrag {
    pub index: int,
    pub line: int,
    pub x: int,
    pub y: int,
    pub kind: GFragKind,
}

impl GFrag {
    pub open spec fn width(self) -> int {
        match self.kind {
            GFragKind::Boxed { node } => node.size.width as int,
            GFragKind::TextRun { width, .. } => width,
        }
    }
}

/// Running state of inline flow: cursor x, accumulated height of committed
/// lines, current line height, widest committed line, number of committed
/// lines, and the fragments placed so far.
pub struct GInline {
    pub x: int,
    pub height: int,
    pub line_height: int,
    pub longest: int,
    pub line: int,
    pub frags: Seq<GFrag>,
}

pub open spec fn inline_init() -> GInline {
    GInline { x: 0, height: 0, line_height: 0, longest: 0, line: 0, frags: Seq::empty() }
}

/// Commit the current line: advance the total height, remember the widest
/// line, reset the cursor and the line height.
pub open spec fn commit_state(st: GInline) -> GInline {
    GInline {
        x: 0,
        height: st.height + st.line_height,
        line_height: 0,
        longest: imax(st.longest, st.x),
        line: st.line + 1,
        frags: st.frags,
    }
}

/// Place a resolved box child: wrap first if it would exceed the max
/// width, then place at the cursor and grow the line.
pub open spec fn inline_box_step(
    st: GInline,
    index: int,
    node: Rc<LayoutTreeNode>,
    max_w: int,
    pad: LogicalSideOffsets,
) -> GInline {
    let st0 = if st.x + node.size.width > max_w {
        commit_state(st)
    } else {
        st
    };
    let frag = GFrag {
        index,
        line: st0.line,
        x: pad.left + st0.x,
        y: pad.top + st0.height,
        kind: GFragKind::Boxed { node },
    };
    GInline {
        x: st0.x + node.size.width,
        height: st0.height,
        line_height: imax(st0.line_height, node.size.height as int),
        longest: st0.longest,
        line: st0.line,
        frags: st0.frags.push(frag),
    }
}

/// Place one text fragment as `spec_text_step` cut it: commit the line
/// first when the step says so, then place at the cursor.
pub open spec fn inline_text_frag(
    st: GInline,
    committed: bool,
    start: int,
    end: int,
    width: int,
    height: int,
    index: int,
    tsize: int,
    bytes: Seq<u8>,
    pad: LogicalSideOffsets,
) -> GInline {
    let st0 = if committed {
        commit_state(st)
    } else {
        st
    };
    let frag = GFrag {
        index,
        line: st0.line,
        x: pad.left + st0.x,
        y: pad.top + st0.height,
        kind: GFragKind::TextRun { bytes, start, end, width, height, size: tsize },
    };
    GInline {
        x: st0.x + width,
        height: st0.height,
        line_height: imax(st0.line_height, height),
        longest: st0.longest,
        line: st0.line,
        frags: st0.frags.push(frag),
    }
}

/// Break a pending text child into fragments, advancing the offset until
/// the whole string is consumed.
pub open spec fn inline_text_loop(
    st: GInline,
    ws: Seq<MeasuredWord>,
    bytes: Seq<u8>,
    tsize: int,
    max_w: int,
    pad: LogicalSideOffsets,
    index: int,
    offset: int,
) -> GInline
    decreases bytes.len() - offset,
    when 0 <= offset <= bytes.len() && words_wf(ws, bytes.len() as int)
    via lemma_inline_text_loop_decreases
{
    if offset >= bytes.len() {
        st
    } else {
        let tst = spec_text_step(ws, bytes.len() as int, max_w, st.x, offset);
        let st2 = inline_text_frag(
            st,
            tst.committed,
            tst.start,
            tst.end,
            tst.width,
            tst.height,
            index,
            tsize,
            bytes,
            pad,
        );
        inline_text_loop(st2, ws, bytes, tsize, max_w, pad, index, tst.end)
    }
}

#[via_fn]
proof fn lemma_inline_text_loop_decreases(
    st: GInline,
    ws: Seq<MeasuredWord>,
    bytes: Seq<u8>,
    tsize: int,
    max_w: int,
    pad: LogicalSideOffsets,
    index: int,
    offset: int,
) {
    if offset < bytes.len() {
        crate::text::lemma_forward_progress(ws, bytes.len() as int, max_w, st.x, offset);
    }
}

/// Place one deferred child.
pub open spec fn inline_step(
    st: GInline,
    index: int,
    c: UnresolvedLayout,
    max_w: int,
    pad: LogicalSideOffsets,
) -> GInline {
    match c {
        UnresolvedLayout::Resolved(node) => inline_box_step(st, index, node, max_w, pad),
        UnresolvedLayout::Text(t) => inline_text_loop(
            st,
            t.text.words@,
            t.text.text@,
            t.size as int,
            max_w,
            pad,
            index,
            0,
        ),
    }
}

pub open spec fn inline_children(
    cs: Seq<UnresolvedLayout>,
    st: GInline,
    max_w: int,
    pad: LogicalSideOffsets,
    index: int,
) -> GInline
    decreases cs.len(),
{
    if cs.len() == 0 {
        st
    } else {
        inline_children(cs.drop_first(), inline_step(st, index, cs[0], max_w, pad), max_w, pad, index + 1)
    }
}

/// The whole inline flow of a child list, from a fresh state.
pub open spec fn spec_inline_flow(
    cs: Seq<UnresolvedLayout>,
    max_w: int,
    pad: LogicalSideOffsets,
) -> GInline {
    inline_children(cs, inline_init(), max_w, pad, 0)
}

/// An item stacked by list flow.
pub enum GListKind {
    Boxed { node: Rc<LayoutTreeNode> },
    TextBlock { width: int, height: int },
}

pub struct GListItem {
    pub index: int,
    pub x: int,
    pub y: int,
    pub kind: GListKind,
}

pub struct GList {
    pub width: int,
    pub height: int,
    pub items: Seq<GListItem>,
}

/// The size a deferred child resolves to.
pub open spec fn child_resolved_size(c: UnresolvedLayout) -> (int, int) {
    match c {
        UnresolvedLayout::Resolved(n) => (n.size.width as int, n.size.height as int),
        UnresolvedLayout::Text(t) => spec_resolve_text(
            t.text.words@,
            t.text.text@.len() as int,
            t.max_width as int,
            0,
        ),
    }
}

/// Stack one child: place it at the padding-adjusted origin below the
/// children before it; the content grows by its height and widens to the
/// widest child.
pub open spec fn list_step(
    st: GList,
    index: int,
    c: UnresolvedLayout,
    pad: LogicalSideOffsets,
) -> GList {
    let sz = child_resolved_size(c);
    let kind = match c {
        UnresolvedLayout::Resolved(n) => GListKind::Boxed { node: n },
        UnresolvedLayout::Text(t) => GListKind::TextBlock { width: sz.0, height: sz.1 },
    };
    GList {
        width: imax(st.width, sz.0),
        height: st.height + sz.1,
        items: st.items.push(
            GListItem { index, x: pad.left as int, y: pad.top + st.height, kind },
        ),
    }
}

pub open spec fn list_children(
    cs: Seq<UnresolvedLayout>,
    st: GList,
    pad: LogicalSideOffsets,
    index: int,
) -> GList
    decreases cs.len(),
{
    if cs.len() == 0 {
        st
    } else {
        list_children(cs.drop_first(), list_step(st, index, cs[0], pad), pad, index + 1)
    }
}

/// The whole list flow of a child list.
pub open spec fn spec_list_flow(cs: Seq<UnresolvedLayout>, pad: LogicalSideOffsets) -> GList {
    list_children(cs, GList { width: 0, height: 0, items: Seq::empty() }, pad, 0)
}

/// What the flows ask of each deferred child: resolved sizes are
/// non-negative and bounded, pending texts are well-formed.
pub open spec fn child_ok(c: UnresolvedLayout) -> bool {
    match c {
        UnresolvedLayout::Resolved(n) => {
            &&& 0 <= n.size.width <= MAX_ACC
            &&& 0 <= n.size.height <= MAX_ACC
        },
        UnresolvedLayout::Text(t) => t.wf(),
    }
}

pub open spec fn children_ok(cs: Seq<UnresolvedLayout>) -> bool {
    forall|i: int| 0 <= i < cs.len() ==> child_ok(#[trigger] cs[i])
}

/// An upper bound on what a child can add to the accumulated height.
pub open spec fn child_height_budget(c: UnresolvedLayout) -> int {
    match c {
        UnresolvedLayout::Resolved(n) => n.size.height as int,
        UnresolvedLayout::Text(t) => t.text.text@.len() * MAX_DIM,
    }
}

pub open spec fn children_height_budget(cs: Seq<UnresolvedLayout>) -> int
    decreases cs.len(),
{
    if cs.len() == 0 {
        0
    } else {
        child_height_budget(cs[0]) + children_height_budget(cs.drop_first())
    }
}

pub proof fn lemma_budget_nonneg(cs: Seq<UnresolvedLayout>)
    requires
        children_ok(cs),
    ensures
        children_height_budget(cs) >= 0,
    decreases cs.len(),
{
    if cs.len() > 0 {
        assert(child_ok(cs[0]));
        assert(forall|i: int|
            0 <= i < cs.drop_first().len() ==> cs.drop_first()[i] == cs[i + 1]);
        lemma_budget_nonneg(cs.drop_first());
    }
}

/// How an output child of inline flow realises a fragment of the fold.
pub open spec fn frag_matches(c: LayoutChild, f: GFrag) -> bool {
    &&& c.index == f.index
    &&& c.position.x == f.x
    &&& c.position.y == f.y
    &&& match f.kind {
        GFragKind::Boxed { node } => c.layout == node,
        GFragKind::TextRun { bytes, start, end, width, height, size } => {
            &&& c.layout.size.width == width
            &&& c.layout.size.height == height
            &&& (c.layout.render_text matches Some(lt) && lt.text@ == bytes.subrange(start, end)
                && lt.size == size)
            &&& c.layout.children@.len() == 0
        },
    }
}

/// How an output child of list flow realises an item of the fold.
pub open spec fn list_item_matches(c: LayoutChild, it: GListItem) -> bool {
    &&& c.index == it.index
    &&& c.position.x == it.x
    &&& c.position.y == it.y
    &&& match it.kind {
        GListKind::Boxed { node } => c.layout == node,
        GListKind::TextBlock { width, height } => {
            &&& c.layout.size.width == width
            &&& c.layout.size.height == height
            &&& c.layout.render_text is None
            &&& c.layout.children@.len() == 0
        },
    }
}

/// Copy of a byte range of a text, for a rendered fragment.
fn bytes_range(v: &Vec<u8>, start: usize, end: usize) -> (r: Vec<u8>)
    requires
        start <= end <= v@.len(),
    ensures
        r@ == v@.subrange(start as int, end as int),
{
    let mut r: Vec<u8> = Vec::new();
    let mut i: usize = start;
    while i < end
        invariant
            start <= i <= end <= v@.len(),
            r@ == v@.subrange(start as int, i as int),
        decreases end - i,
    {
        r.push(v[i]);
        proof {
            assert(r@ =~= v@.subrange(start as int, i as int + 1));
        }
        i = i + 1;
    }
    r
}

/// List flow: every child is forced to a resolved state and the children
/// are stacked top to bottom in source order at the padding-adjusted
/// origin; the content is as wide as the widest child and as tall as the
/// heights' sum.
pub fn list_flow(opts: &LayoutOptions, children: Vec<UnresolvedLayout>) -> (r: (
    Vec<LayoutChild>,
    LogicalSize,
))
    requires
        opts.wf(),
        children_ok(children@),
        children_height_budget(children@) <= MAX_ACC,
    ensures
        ({
            let fin = spec_list_flow(children@, opts.padding);
            &&& r.1.width == fin.width
            &&& r.1.height == fin.height
            &&& r.0@.len() == fin.items.len()
            &&& forall|i: int|
                0 <= i < fin.items.len() ==> list_item_matches(#[trigger] r.0@[i], fin.items[i])
            &&& 0 <= r.1.width <= MAX_ACC
            &&& 0 <= r.1.height <= MAX_ACC
        }),
{
    let pad = opts.padding;
    let ghost cs0 = children@;
    let ghost fin = spec_list_flow(cs0, pad);
    let mut children = children;
    let mut out: Vec<LayoutChild> = Vec::new();
    let mut width: i64 = 0;
    let mut height: i64 = 0;
    let mut index: usize = 0;
    let ghost mut st = GList { width: 0, height: 0, items: Seq::empty() };
    let n0 = children.len();
    proof {
        assert(cs0.len() == n0 as int);
        lemma_budget_nonneg(cs0);
    }
    while children.len() > 0
        invariant
            opts.wf(),
            pad == opts.padding,
            children_ok(children@),
            0 <= width <= MAX_ACC,
            0 <= height,
            height as int + children_height_budget(children@) <= MAX_ACC,
            st.width == width as int,
            st.height == height as int,
            out@.len() == st.items.len(),
            forall|i: int| 0 <= i < st.items.len() ==> list_item_matches(#[trigger] out@[i], st.items[i]),
            index as int + children@.len() == cs0.len(),
            cs0.len() <= usize::MAX,
            list_children(children@, st, pad, index as int) == fin,
        decreases children@.len(),
    {
        let ghost cs_before = children@;
        let ghost st_before = st;
        let c = children.remove(0);
        proof {
            assert(children@ =~= cs_before.drop_first());
            assert(forall|i: int|
                0 <= i < children@.len() ==> children@[i] == cs_before[i + 1]);
            assert(children_ok(children@));
            lemma_budget_nonneg(children@);
            match &c {
                UnresolvedLayout::Text(t) => lemma_resolve_text_bounds(
                    t.text.words@,
                    t.text.text@.len() as int,
                    t.max_width as int,
                    0,
                ),
                _ => (),
            }
        }
        let node = c.resolve();
        let size = node.size;
        if size.width > width {
            width = size.width;
        }
        out.push(LayoutChild { index, position: point2(pad.left, height + pad.top), layout: node });
        proof {
            st = list_step(st_before, index as int, c, pad);
        }
        height = height + size.height;
        index = index + 1;
    }
    (out, size2(width, height))
}

/// Inline flow: mixed box/text line packing. A box that would exceed the
/// max width wraps to a fresh line; a pending text child is broken word by
/// word into positioned fragments; an over-wide word overflows on its own
/// line rather than looping. The content is as wide as the widest line and
/// as tall as the stacked line heights — the last line counts even if
/// never explicitly committed.
#[verifier::rlimit(60)]
pub fn inline_flow(
    opts: &LayoutOptions,
    max_size: LogicalSize,
    children: Vec<UnresolvedLayout>,
) -> (r: (Vec<LayoutChild>, LogicalSize))
    requires
        opts.wf(),
        -MAX_ACC <= max_size.width <= MAX_ACC,
        children_ok(children@),
        children_height_budget(children@) <= MAX_ACC,
    ensures
        ({
            let fin = spec_inline_flow(children@, max_size.width as int, opts.padding);
            &&& r.1.width == imax(fin.longest, fin.x)
            &&& r.1.height == fin.height + fin.line_height
            &&& r.0@.len() == fin.frags.len()
            &&& forall|i: int|
                0 <= i < fin.frags.len() ==> frag_matches(#[trigger] r.0@[i], fin.frags[i])
            &&& 0 <= r.1.width <= 3 * MAX_ACC
            &&& 0 <= r.1.height <= MAX_ACC
        }),
{
    let max_w = max_size.width;
    let pad = opts.padding;
    let ghost cs0 = children@;
    let ghost gmw = max_w as int;
    let ghost fin = spec_inline_flow(cs0, gmw, pad);
    let mut children = children;
    let mut out: Vec<LayoutChild> = Vec::new();
    let mut x: i64 = 0;
    let mut height: i64 = 0;
    let mut line_height: i64 = 0;
    let mut longest: i64 = 0;
    let mut index: usize = 0;
    let ghost mut st = inline_init();
    let n0 = children.len();
    proof {
        assert(cs0.len() == n0 as int);
        lemma_budget_nonneg(cs0);
    }
    while children.len() > 0
        invariant
            opts.wf(),
            pad == opts.padding,
            max_w == max_size.width,
            gmw == max_w as int,
            -MAX_ACC <= max_w <= MAX_ACC,
            children_ok(children@),
            0 <= x <= imax(gmw, 0) + MAX_ACC,
            0 <= longest <= imax(gmw, 0) + MAX_ACC,
            0 <= height,
            0 <= line_height,
            children_height_budget(children@) >= 0,
            height as int + line_height as int + children_height_budget(children@) <= MAX_ACC,
            st.x == x as int,
            st.height == height as int,
            st.line_height == line_height as int,
            st.longest == longest as int,
            out@.len() == st.frags.len(),
            forall|i: int| 0 <= i < st.frags.len() ==> frag_matches(#[trigger] out@[i], st.frags[i]),
            index as int + children@.len() == cs0.len(),
            cs0.len() <= usize::MAX,
            inline_children(children@, st, gmw, pad, index as int) == fin,
        decreases children@.len(),
    {
        let ghost cs_before = children@;
        let ghost st_entry = st;
        let c = children.remove(0);
        proof {
            assert(children@ =~= cs_before.drop_first());
            assert(forall|i: int| 0 <= i < children@.len() ==> children@[i] == cs_before[i + 1]);
            lemma_budget_nonneg(children@);
        }
        match c {
            UnresolvedLayout::Resolved(node) => {
                let ghost gnode = node;
                let size = node.size;
                if x + size.width > max_w {
                    height = height + line_height;
                    if x > longest {
                        longest = x;
                    }
                    x = 0;
                    line_height = 0;
                }
                out.push(
                    LayoutChild {
                        index,
                        position: point2(pad.left + x, pad.top + height),
                        layout: node,
                    },
                );
                x = x + size.width;
                if size.height > line_height {
                    line_height = size.height;
                }
                proof {
                    st = inline_box_step(st_entry, index as int, gnode, gmw, pad);
                    assert(cs_before[0] == UnresolvedLayout::Resolved(gnode));
                }
                index = index + 1;
            },
            UnresolvedLayout::Text(t) => {
                let len = t.text.text.len();
                let ghost ws = t.text.words@;
                let ghost bytes = t.text.text@;
                let ghost tsize = t.size as int;
                proof {
                    assert(cs_before[0] == UnresolvedLayout::Text(t));
                }
                let mut offset: usize = 0;
                while offset < len
                    invariant
                        t.wf(),
                        ws == t.text.words@,
                        bytes == t.text.text@,
                        tsize == t.size as int,
                        len == t.text.text@.len(),
                        0 <= offset <= len,
                        opts.wf(),
                        pad == opts.padding,
                        max_w == max_size.width,
                        gmw == max_w as int,
                        -MAX_ACC <= max_w <= MAX_ACC,
                        children_ok(children@),
                        0 <= x <= imax(gmw, 0) + MAX_ACC,
                        0 <= longest <= imax(gmw, 0) + MAX_ACC,
                        0 <= height,
                        0 <= line_height,
                        children_height_budget(children@) >= 0,
                        height as int + line_height as int + (len - offset) * MAX_DIM
                            + children_height_budget(children@) <= MAX_ACC,
                        st.x == x as int,
                        st.height == height as int,
                        st.line_height == line_height as int,
                        st.longest == longest as int,
                        out@.len() == st.frags.len(),
                        forall|i: int|
                            0 <= i < st.frags.len() ==> frag_matches(
                                #[trigger] out@[i],
                                st.frags[i],
                            ),
                        index as int + 1 + children@.len() == cs0.len(),
                        cs0.len() <= usize::MAX,
                        inline_children(
                            children@,
                            inline_text_loop(st, ws, bytes, tsize, gmw, pad, index as int, offset as int),
                            gmw,
                            pad,
                            index as int + 1,
                        ) == fin,
                    decreases len - offset,
                {
                    let ghost st_t = st;
                    let (committed, start, end, w, h) = text_step(&*t, max_w, x, offset);
                    if committed {
                        height = height + line_height;
                        if x > longest {
                            longest = x;
                        }
                        x = 0;
                        line_height = 0;
                    }
                    let bytes_frag = bytes_range(&t.text.text, start, end);
                    let node = Rc::new(
                        LayoutTreeNode {
                            size: size2(w, h),
                            render_text: Some(LayoutText { text: bytes_frag, size: t.size }),
                            children: Vec::new(),
                        },
                    );
                    out.push(
                        LayoutChild {
                            index,
                            position: point2(pad.left + x, pad.top + height),
                            layout: node,
                        },
                    );
                    x = x + w;
                    if h > line_height {
                        line_height = h;
                    }
                    proof {
                        let tst = spec_text_step(ws, len as int, gmw, st_t.x, offset as int);
                        st = inline_text_frag(
                            st_t,
                            tst.committed,
                            tst.start,
                            tst.end,
                            tst.width,
                            tst.height,
                            index as int,
                            tsize,
                            bytes,
                            pad,
                        );
                        assert(inline_text_loop(st_t, ws, bytes, tsize, gmw, pad, index as int, offset as int)
                            == inline_text_loop(st, ws, bytes, tsize, gmw, pad, index as int, tst.end));
                    }
                    offset = end;
                }
                proof {
                    assert(inline_text_loop(st, ws, bytes, tsize, gmw, pad, index as int, offset as int) == st);
                }
                index = index + 1;
            },
        }
    }
    let width = if longest > x {
        longest
    } else {
        x
    };
    (out, size2(width, height + line_height))
}

} // verus!
