//! General laws of the engine, stated over the specification functions
//! that the executable contracts use, and proved once and for all.

use crate::engine::{
    combined_matches, deferred_matches, layout_ok, resolve_post, spec_max_h, spec_max_w,
    spec_outer_h, spec_outer_w, Element,
};
use crate::flow::{
    child_ok, child_resolved_size, children_ok, commit_state, inline_box_step, inline_children,
    inline_init, inline_step, inline_text_frag, inline_text_loop, list_children, list_step,
    list_item_matches, spec_inline_flow, spec_list_flow, GFrag, GFragKind, GInline, GList,
    GListItem, GListKind,
};
use crate::geometry::{LogicalSideOffsets, LogicalSize};
use crate::text::{imax, lemma_forward_progress, spec_text_step, words_wf, MeasuredWord};
use crate::tree::{LayoutOptions, LayoutTreeNode, LayoutType, UnresolvedLayout};
use vstd::prelude::*;

verus! {

/// Sum of the resolved heights of a child list.
pub open spec fn sum_heights(cs: Seq<UnresolvedLayout>) -> int
    decreases cs.len(),
{
    if cs.len() == 0 {
        0
    } else {
        child_resolved_size(cs[0]).1 + sum_heights(cs.drop_first())
    }
}

/// Greatest resolved width of a child list.
pub open spec fn max_width_of(cs: Seq<UnresolvedLayout>) -> int
    decreases cs.len(),
{
    if cs.len() == 0 {
        0
    } else {
        imax(child_resolved_size(cs[0]).0, max_width_of(cs.drop_first()))
    }
}

proof fn lemma_list_children(
    cs: Seq<UnresolvedLayout>,
    st: GList,
    pad: LogicalSideOffsets,
    idx: int,
)
    requires
        st.width >= 0,
    ensures
        list_children(cs, st, pad, idx).height == st.height + sum_heights(cs),
        list_children(cs, st, pad, idx).width == imax(st.width, max_width_of(cs)),
        list_children(cs, st, pad, idx).items.len() == st.items.len() + cs.len(),
        forall|i: int|
            0 <= i < st.items.len() ==> list_children(cs, st, pad, idx).items[i] == st.items[i],
        forall|j: int| #![trigger list_children(cs, st, pad, idx).items[st.items.len() + j]]
            0 <= j < cs.len() ==> list_children(cs, st, pad, idx).items[st.items.len() + j].index
                == idx + j,
        forall|j: int| #![trigger list_children(cs, st, pad, idx).items[st.items.len() + j]]
            0 <= j < cs.len() ==> list_children(cs, st, pad, idx).items[st.items.len() + j].x
                == pad.left,
        forall|j: int| #![trigger list_children(cs, st, pad, idx).items[st.items.len() + j]]
            0 <= j < cs.len() ==> list_children(cs, st, pad, idx).items[st.items.len() + j].y
                == pad.top + st.height + sum_heights(cs.take(j)),
    decreases cs.len(),
{
    if cs.len() > 0 {
        let st2 = list_step(st, idx, cs[0], pad);
        let fold = list_children(cs, st, pad, idx);
        assert(fold == list_children(cs.drop_first(), st2, pad, idx + 1));
        lemma_list_children(cs.drop_first(), st2, pad, idx + 1);
        assert(max_width_of(cs) == imax(child_resolved_size(cs[0]).0, max_width_of(cs.drop_first())));
        assert(st2.width == imax(st.width, child_resolved_size(cs[0]).0));
        assert(fold.width == imax(st2.width, max_width_of(cs.drop_first())));
        assert(cs.take(0) =~= Seq::<UnresolvedLayout>::empty());
        assert forall|i: int| 0 <= i < st.items.len() implies fold.items[i] == st.items[i] by {
            assert(fold.items[i] == st2.items[i]);
            assert(st2.items[i] == st.items[i]);
        }
        assert forall|j: int| #![trigger list_children(cs, st, pad, idx).items[st.items.len() + j]] 0 <= j < cs.len() implies {
            &&& list_children(cs, st, pad, idx).items[st.items.len() + j].index == idx + j
            &&& list_children(cs, st, pad, idx).items[st.items.len() + j].x == pad.left
            &&& list_children(cs, st, pad, idx).items[st.items.len() + j].y == pad.top + st.height
                + sum_heights(cs.take(j))
        } by {
            if j == 0 {
                assert(fold.items[st.items.len() as int] == st2.items[st.items.len() as int]);
                assert(st2.items[st.items.len() as int].index == idx);
                assert(st2.items[st.items.len() as int].x == pad.left);
                assert(st2.items[st.items.len() as int].y == pad.top + st.height);
            } else {
                let jj = j - 1;
                let tr = cs.drop_first().take(jj);
                assert(fold.items[st2.items.len() + jj].y == pad.top + st2.height + sum_heights(
                    tr,
                ));
                assert(fold.items[st2.items.len() + jj].index == idx + 1 + jj);
                assert(fold.items[st2.items.len() + jj].x == pad.left);
                assert(cs.take(j)[0] == cs[0]);
                assert(cs.take(j).drop_first() =~= tr);
                assert(sum_heights(cs.take(j)) == child_resolved_size(cs[0]).1 + sum_heights(tr));
            }
        }
    }
}

/// List flow additivity: for children with resolved heights h1..hn and
/// widths w1..wn, the content height is the sum of the heights, the
/// content width is the greatest width, and child i's top is the sum of
/// the heights before it plus the top padding; every child sits at the
/// left padding, in source order.
pub proof fn lemma_list_flow_additivity(cs: Seq<UnresolvedLayout>, pad: LogicalSideOffsets)
    ensures
        spec_list_flow(cs, pad).height == sum_heights(cs),
        spec_list_flow(cs, pad).width == max_width_of(cs),
        spec_list_flow(cs, pad).items.len() == cs.len(),
        forall|i: int| #![trigger spec_list_flow(cs, pad).items[i]]
            0 <= i < cs.len() ==> spec_list_flow(cs, pad).items[i].index == i,
        forall|i: int| #![trigger spec_list_flow(cs, pad).items[i]]
            0 <= i < cs.len() ==> spec_list_flow(cs, pad).items[i].x == pad.left,
        forall|i: int| #![trigger spec_list_flow(cs, pad).items[i]]
            0 <= i < cs.len() ==> spec_list_flow(cs, pad).items[i].y == pad.top + sum_heights(
                cs.take(i),
            ),
{
    lemma_max_width_nonneg(cs);
    let st0 = GList { width: 0, height: 0, items: Seq::empty() };
    lemma_list_children(cs, st0, pad, 0);
    assert forall|i: int| #![trigger spec_list_flow(cs, pad).items[i]] 0 <= i < cs.len() implies {
        &&& spec_list_flow(cs, pad).items[i].index == i
        &&& spec_list_flow(cs, pad).items[i].x == pad.left
        &&& spec_list_flow(cs, pad).items[i].y == pad.top + sum_heights(cs.take(i))
    } by {
        assert(list_children(cs, st0, pad, 0).items[st0.items.len() + i].index == 0 + i);
        assert(list_children(cs, st0, pad, 0).items[st0.items.len() + i].x == pad.left);
        assert(list_children(cs, st0, pad, 0).items[st0.items.len() + i].y == pad.top + st0.height
            + sum_heights(cs.take(i)));
        assert(st0.items.len() + i == i);
    }
}

proof fn lemma_max_width_nonneg(cs: Seq<UnresolvedLayout>)
    ensures
        max_width_of(cs) >= 0,
    decreases cs.len(),
{
    if cs.len() > 0 {
        lemma_max_width_nonneg(cs.drop_first());
    }
}

/// Padding invariant, outer half: with no explicit width or height, the
/// outer size is the content size plus the padding sums on each axis.
pub proof fn lemma_padding_outer(opts: LayoutOptions, content_w: int, content_h: int)
    requires
        opts.width is None,
        opts.height is None,
    ensures
        spec_outer_w(opts, content_w) == content_w + opts.padding.left + opts.padding.right,
        spec_outer_h(opts, content_h) == content_h + opts.padding.top + opts.padding.bottom,
{
}

/// Explicit-size override: when an explicit width or height is set, the
/// outer size's corresponding axis equals it, whatever the content size.
pub proof fn lemma_explicit_override(opts: LayoutOptions, content_w: int, content_h: int)
    ensures
        opts.width matches Some(w) ==> spec_outer_w(opts, content_w) == w,
        opts.height matches Some(h) ==> spec_outer_h(opts, content_h) == h,
{
}

/// Explicit-size override at the node level: any resolved combination
/// result of an element with an explicit width or height has exactly that
/// outer extent, whatever its children.
pub proof fn lemma_explicit_override_node(
    opts: LayoutOptions,
    max_w: int,
    cvals: Seq<UnresolvedLayout>,
    n: std::rc::Rc<LayoutTreeNode>,
)
    requires
        combined_matches(opts, max_w, cvals, UnresolvedLayout::Resolved(n)),
        !(opts.layout_ty is Text),
    ensures
        opts.width matches Some(w) ==> n.size.width == w,
        opts.height matches Some(h) ==> n.size.height == h,
{
}

/// `b` carries `a`'s fragments unchanged as a prefix, on lines at or
/// before `b`'s current line.
pub open spec fn extends_frags(a: GInline, b: GInline) -> bool {
    &&& b.frags.len() >= a.frags.len()
    &&& forall|i: int| #![trigger b.frags[i]] 0 <= i < a.frags.len() ==> b.frags[i] == a.frags[i]
    &&& b.line >= a.line
}

proof fn lemma_text_loop_extends(
    st: GInline,
    ws: Seq<MeasuredWord>,
    bytes: Seq<u8>,
    tsize: int,
    max_w: int,
    pad: LogicalSideOffsets,
    index: int,
    offset: int,
)
    requires
        0 <= offset <= bytes.len(),
        words_wf(ws, bytes.len() as int),
    ensures
        extends_frags(st, inline_text_loop(st, ws, bytes, tsize, max_w, pad, index, offset)),
    decreases bytes.len() - offset,
{
    if offset < bytes.len() {
        lemma_forward_progress(ws, bytes.len() as int, max_w, st.x, offset);
        let tst = spec_text_step(ws, bytes.len() as int, max_w, st.x, offset);
        let st2 = inline_text_frag(
            st,
            tst.committed,
            tst.start,
            tst.end,
            tst.width,
            tst.height,
            index,
            tsize,
            bytes,
            pad,
        );
        lemma_text_loop_extends(st2, ws, bytes, tsize, max_w, pad, index, tst.end);
    }
}

proof fn lemma_step_extends(
    st: GInline,
    index: int,
    c: UnresolvedLayout,
    max_w: int,
    pad: LogicalSideOffsets,
)
    requires
        child_ok(c),
    ensures
        extends_frags(st, inline_step(st, index, c, max_w, pad)),
{
    match c {
        UnresolvedLayout::Resolved(node) => {},
        UnresolvedLayout::Text(t) => {
            lemma_text_loop_extends(
                st,
                t.text.words@,
                t.text.text@,
                t.size as int,
                max_w,
                pad,
                index,
                0,
            );
        },
    }
}

proof fn lemma_children_extends(
    cs: Seq<UnresolvedLayout>,
    st: GInline,
    max_w: int,
    pad: LogicalSideOffsets,
    index: int,
)
    requires
        children_ok(cs),
    ensures
        extends_frags(st, inline_children(cs, st, max_w, pad, index)),
    decreases cs.len(),
{
    if cs.len() > 0 {
        assert(child_ok(cs[0]));
        let st2 = inline_step(st, index, cs[0], max_w, pad);
        lemma_step_extends(st, index, cs[0], max_w, pad);
        assert(forall|i: int|
            0 <= i < cs.drop_first().len() ==> child_ok(#[trigger] cs.drop_first()[i]));
        lemma_children_extends(cs.drop_first(), st2, max_w, pad, index + 1);
    }
}

/// Padding invariant, origin half: when the first child of an inline flow
/// is a box, or a text with at least one byte, the first fragment's origin
/// is exactly (padding.left, padding.top).
pub proof fn lemma_inline_first_origin(
    cs: Seq<UnresolvedLayout>,
    max_w: int,
    pad: LogicalSideOffsets,
)
    requires
        cs.len() > 0,
        children_ok(cs),
        match cs[0] {
            UnresolvedLayout::Resolved(_) => true,
            UnresolvedLayout::Text(t) => t.text.text@.len() > 0,
        },
    ensures
        spec_inline_flow(cs, max_w, pad).frags.len() > 0,
        spec_inline_flow(cs, max_w, pad).frags[0].x == pad.left,
        spec_inline_flow(cs, max_w, pad).frags[0].y == pad.top,
{
    let st1 = inline_step(inline_init(), 0, cs[0], max_w, pad);
    assert(child_ok(cs[0]));
    match cs[0] {
        UnresolvedLayout::Resolved(node) => {
            assert(st1.frags.len() == 1);
            assert(st1.frags[0].x == pad.left);
            assert(st1.frags[0].y == pad.top);
        },
        UnresolvedLayout::Text(t) => {
            let ws = t.text.words@;
            let bytes = t.text.text@;
            lemma_forward_progress(ws, bytes.len() as int, max_w, 0, 0);
            let tst = spec_text_step(ws, bytes.len() as int, max_w, 0, 0);
            let st2 = inline_text_frag(
                inline_init(),
                tst.committed,
                tst.start,
                tst.end,
                tst.width,
                tst.height,
                0,
                t.size as int,
                bytes,
                pad,
            );
            assert(st2.frags.len() == 1);
            assert(st2.frags[0].x == pad.left);
            assert(st2.frags[0].y == pad.top);
            lemma_text_loop_extends(st2, ws, bytes, t.size as int, max_w, pad, 0, tst.end);
            assert(st1.frags[0] == st2.frags[0]);
        },
    }
    assert(forall|i: int|
        0 <= i < cs.drop_first().len() ==> child_ok(#[trigger] cs.drop_first()[i]));
    lemma_children_extends(cs.drop_first(), st1, max_w, pad, 1);
    assert(spec_inline_flow(cs, max_w, pad) == inline_children(cs.drop_first(), st1, max_w, pad, 1));
    assert(spec_inline_flow(cs, max_w, pad).frags[0] == st1.frags[0]);
}

/// No two fragments on the same committed line overlap: the later one
/// starts at or after the end of the earlier one.
pub open spec fn frags_disjoint(frags: Seq<GFrag>) -> bool {
    forall|i: int, j: int| #![trigger frags[i], frags[j]]
        0 <= i < j < frags.len() && frags[i].line == frags[j].line ==> frags[i].x
            + frags[i].width() <= frags[j].x
}

/// The inductive shape of an inline state: fragments are disjoint per
/// line, sit on committed lines at or before the current one, and those on
/// the current line end at or before the cursor.
pub open spec fn inline_inv(st: GInline, pad: LogicalSideOffsets) -> bool {
    &&& frags_disjoint(st.frags)
    &&& 0 <= st.x
    &&& forall|i: int| #![trigger st.frags[i]]
        0 <= i < st.frags.len() ==> st.frags[i].line <= st.line
    &&& forall|i: int| #![trigger st.frags[i]]
        0 <= i < st.frags.len() && st.frags[i].line == st.line ==> st.frags[i].x
            + st.frags[i].width() <= pad.left + st.x
}

proof fn lemma_text_loop_inv(
    st: GInline,
    ws: Seq<MeasuredWord>,
    bytes: Seq<u8>,
    tsize: int,
    max_w: int,
    pad: LogicalSideOffsets,
    index: int,
    offset: int,
)
    requires
        0 <= offset <= bytes.len(),
        words_wf(ws, bytes.len() as int),
        inline_inv(st, pad),
    ensures
        inline_inv(inline_text_loop(st, ws, bytes, tsize, max_w, pad, index, offset), pad),
    decreases bytes.len() - offset,
{
    if offset < bytes.len() {
        lemma_forward_progress(ws, bytes.len() as int, max_w, st.x, offset);
        let tst = spec_text_step(ws, bytes.len() as int, max_w, st.x, offset);
        let st0 = if tst.committed {
            commit_state(st)
        } else {
            st
        };
        let st2 = inline_text_frag(
            st,
            tst.committed,
            tst.start,
            tst.end,
            tst.width,
            tst.height,
            index,
            tsize,
            bytes,
            pad,
        );
        assert(inline_inv(st0, pad));
        assert(inline_inv(st2, pad));
        lemma_text_loop_inv(st2, ws, bytes, tsize, max_w, pad, index, tst.end);
    }
}

proof fn lemma_children_inv(
    cs: Seq<UnresolvedLayout>,
    st: GInline,
    max_w: int,
    pad: LogicalSideOffsets,
    index: int,
)
    requires
        children_ok(cs),
        inline_inv(st, pad),
    ensures
        inline_inv(inline_children(cs, st, max_w, pad, index), pad),
    decreases cs.len(),
{
    if cs.len() > 0 {
        assert(child_ok(cs[0]));
        let st2 = inline_step(st, index, cs[0], max_w, pad);
        match cs[0] {
            UnresolvedLayout::Resolved(node) => {
                let st0 = if st.x + node.size.width > max_w {
                    commit_state(st)
                } else {
                    st
                };
                assert(inline_inv(st0, pad));
                assert(inline_inv(st2, pad));
            },
            UnresolvedLayout::Text(t) => {
                lemma_text_loop_inv(
                    st,
                    t.text.words@,
                    t.text.text@,
                    t.size as int,
                    max_w,
                    pad,
                    index,
                    0,
                );
            },
        }
        assert(forall|i: int|
            0 <= i < cs.drop_first().len() ==> child_ok(#[trigger] cs.drop_first()[i]));
        lemma_children_inv(cs.drop_first(), st2, max_w, pad, index + 1);
    }
}

/// Inline flow non-overlap: among the fragments an inline flow places, no
/// two on the same committed line overlap — each later fragment on a line
/// starts at or after the end of every earlier one.
pub proof fn lemma_inline_nonoverlap(
    cs: Seq<UnresolvedLayout>,
    max_w: int,
    pad: LogicalSideOffsets,
)
    requires
        children_ok(cs),
    ensures
        frags_disjoint(spec_inline_flow(cs, max_w, pad).frags),
{
    lemma_children_inv(cs, inline_init(), max_w, pad, 0);
}

/// Observable equality of two output nodes: equal sizes, equal rendered
/// text, and observably equal children at equal positions — "bit-identical
/// sizes and positions" all the way down.
pub open spec fn node_obs_eq(a: LayoutTreeNode, b: LayoutTreeNode) -> bool
    decreases a,
{
    &&& a.size == b.size
    &&& match (a.render_text, b.render_text) {
        (None, None) => true,
        (Some(x), Some(y)) => x.text@ == y.text@ && x.size == y.size,
        _ => false,
    }
    &&& a.children@.len() == b.children@.len()
    &&& forall|i: int| #![trigger a.children@[i]]
        0 <= i < a.children@.len() ==> {
            &&& a.children@[i].index == b.children@[i].index
            &&& a.children@[i].position == b.children@[i].position
            &&& node_obs_eq(*a.children@[i].layout, *b.children@[i].layout)
        }
}

/// Observable equality of two deferred results.
pub open spec fn deferred_obs_eq(a: UnresolvedLayout, b: UnresolvedLayout) -> bool {
    match (a, b) {
        (UnresolvedLayout::Resolved(na), UnresolvedLayout::Resolved(nb)) => node_obs_eq(*na, *nb),
        (UnresolvedLayout::Text(ta), UnresolvedLayout::Text(tb)) => {
            &&& ta.text.text@ == tb.text.text@
            &&& ta.text.words@ == tb.text.words@
            &&& ta.size == tb.size
            &&& ta.max_width == tb.max_width
        },
        _ => false,
    }
}

pub open spec fn frag_obs_eq(f: GFrag, g: GFrag) -> bool {
    &&& f.index == g.index
    &&& f.line == g.line
    &&& f.x == g.x
    &&& f.y == g.y
    &&& match (f.kind, g.kind) {
        (GFragKind::Boxed { node: na }, GFragKind::Boxed { node: nb }) => node_obs_eq(*na, *nb),
        (
            GFragKind::TextRun { bytes: ba, start: sa, end: ea, width: wa, height: ha, size: za },
            GFragKind::TextRun { bytes: bb, start: sb, end: eb, width: wb, height: hb, size: zb },
        ) => ba == bb && sa == sb && ea == eb && wa == wb && ha == hb && za == zb,
        _ => false,
    }
}

pub open spec fn st_obs_eq(a: GInline, b: GInline) -> bool {
    &&& a.x == b.x
    &&& a.height == b.height
    &&& a.line_height == b.line_height
    &&& a.longest == b.longest
    &&& a.line == b.line
    &&& a.frags.len() == b.frags.len()
    &&& forall|i: int| #![trigger a.frags[i]]
        0 <= i < a.frags.len() ==> frag_obs_eq(a.frags[i], b.frags[i])
}

proof fn lemma_text_loop_congr(
    sta: GInline,
    stb: GInline,
    ws: Seq<MeasuredWord>,
    bytes: Seq<u8>,
    tsize: int,
    max_w: int,
    pad: LogicalSideOffsets,
    index: int,
    offset: int,
)
    requires
        st_obs_eq(sta, stb),
        words_wf(ws, bytes.len() as int),
        0 <= offset <= bytes.len(),
    ensures
        st_obs_eq(
            inline_text_loop(sta, ws, bytes, tsize, max_w, pad, index, offset),
            inline_text_loop(stb, ws, bytes, tsize, max_w, pad, index, offset),
        ),
    decreases bytes.len() - offset,
{
    if offset < bytes.len() {
        lemma_forward_progress(ws, bytes.len() as int, max_w, sta.x, offset);
        let tst = spec_text_step(ws, bytes.len() as int, max_w, sta.x, offset);
        let sta2 = inline_text_frag(
            sta,
            tst.committed,
            tst.start,
            tst.end,
            tst.width,
            tst.height,
            index,
            tsize,
            bytes,
            pad,
        );
        let stb2 = inline_text_frag(
            stb,
            tst.committed,
            tst.start,
            tst.end,
            tst.width,
            tst.height,
            index,
            tsize,
            bytes,
            pad,
        );
        assert(st_obs_eq(sta2, stb2));
        lemma_text_loop_congr(sta2, stb2, ws, bytes, tsize, max_w, pad, index, tst.end);
    }
}

proof fn lemma_step_congr(
    sta: GInline,
    stb: GInline,
    index: int,
    ca: UnresolvedLayout,
    cb: UnresolvedLayout,
    max_w: int,
    pad: LogicalSideOffsets,
)
    requires
        st_obs_eq(sta, stb),
        deferred_obs_eq(ca, cb),
        ca matches UnresolvedLayout::Text(t) ==> words_wf(
            t.text.words@,
            t.text.text@.len() as int,
        ),
    ensures
        st_obs_eq(inline_step(sta, index, ca, max_w, pad), inline_step(stb, index, cb, max_w, pad)),
{
    match (ca, cb) {
        (UnresolvedLayout::Resolved(na), UnresolvedLayout::Resolved(nb)) => {
            assert(na.size == nb.size);
            assert(st_obs_eq(
                inline_box_step(sta, index, na, max_w, pad),
                inline_box_step(stb, index, nb, max_w, pad),
            ));
        },
        (UnresolvedLayout::Text(ta), UnresolvedLayout::Text(tb)) => {
            lemma_text_loop_congr(
                sta,
                stb,
                ta.text.words@,
                ta.text.text@,
                ta.size as int,
                max_w,
                pad,
                index,
                0,
            );
        },
        _ => {},
    }
}

proof fn lemma_children_congr(
    csa: Seq<UnresolvedLayout>,
    csb: Seq<UnresolvedLayout>,
    sta: GInline,
    stb: GInline,
    max_w: int,
    pad: LogicalSideOffsets,
    index: int,
)
    requires
        st_obs_eq(sta, stb),
        csa.len() == csb.len(),
        forall|j: int| 0 <= j < csa.len() ==> deferred_obs_eq(#[trigger] csa[j], csb[j]),
        forall|j: int|
            0 <= j < csa.len() ==> ((#[trigger] csa[j]) matches UnresolvedLayout::Text(t)
                ==> words_wf(t.text.words@, t.text.text@.len() as int)),
    ensures
        st_obs_eq(
            inline_children(csa, sta, max_w, pad, index),
            inline_children(csb, stb, max_w, pad, index),
        ),
    decreases csa.len(),
{
    if csa.len() > 0 {
        assert(deferred_obs_eq(csa[0], csb[0]));
        lemma_step_congr(sta, stb, index, csa[0], csb[0], max_w, pad);
        assert(forall|j: int|
            0 <= j < csa.drop_first().len() ==> (#[trigger] csa.drop_first()[j]) == csa[j + 1]
                && csb.drop_first()[j] == csb[j + 1]);
        lemma_children_congr(
            csa.drop_first(),
            csb.drop_first(),
            inline_step(sta, index, csa[0], max_w, pad),
            inline_step(stb, index, csb[0], max_w, pad),
            max_w,
            pad,
            index + 1,
        );
    }
}

proof fn lemma_list_congr(
    csa: Seq<UnresolvedLayout>,
    csb: Seq<UnresolvedLayout>,
    pad: LogicalSideOffsets,
)
    requires
        csa.len() == csb.len(),
        forall|j: int| 0 <= j < csa.len() ==> deferred_obs_eq(#[trigger] csa[j], csb[j]),
    ensures
        spec_list_flow(csa, pad).width == spec_list_flow(csb, pad).width,
        spec_list_flow(csa, pad).height == spec_list_flow(csb, pad).height,
        spec_list_flow(csa, pad).items.len() == spec_list_flow(csb, pad).items.len(),
        forall|i: int| #![trigger spec_list_flow(csa, pad).items[i]]
            0 <= i < csa.len() ==> {
                let ia = spec_list_flow(csa, pad).items[i];
                let ib = spec_list_flow(csb, pad).items[i];
                &&& ia.index == ib.index
                &&& ia.x == ib.x
                &&& ia.y == ib.y
                &&& match (ia.kind, ib.kind) {
                    (GListKind::Boxed { node: na }, GListKind::Boxed { node: nb }) => node_obs_eq(
                        *na,
                        *nb,
                    ),
                    (
                        GListKind::TextBlock { width: wa, height: ha },
                        GListKind::TextBlock { width: wb, height: hb },
                    ) => wa == wb && ha == hb,
                    _ => false,
                }
            },
{
    lemma_list_flow_additivity(csa, pad);
    lemma_list_flow_additivity(csb, pad);
    lemma_sum_heights_congr(csa, csb);
    lemma_max_width_congr(csa, csb);
    assert forall|i: int| #![trigger spec_list_flow(csa, pad).items[i]] 0 <= i < csa.len() implies {
        let ia = spec_list_flow(csa, pad).items[i];
        let ib = spec_list_flow(csb, pad).items[i];
        &&& ia.index == ib.index
        &&& ia.x == ib.x
        &&& ia.y == ib.y
        &&& match (ia.kind, ib.kind) {
            (GListKind::Boxed { node: na }, GListKind::Boxed { node: nb }) => node_obs_eq(*na, *nb),
            (
                GListKind::TextBlock { width: wa, height: ha },
                GListKind::TextBlock { width: wb, height: hb },
            ) => wa == wb && ha == hb,
            _ => false,
        }
    } by {
        lemma_sum_heights_congr(csa.take(i), csb.take(i));
        assert(csa.take(i).len() == csb.take(i).len());
        lemma_list_items_kind(csa, pad, i);
        lemma_list_items_kind(csb, pad, i);
        assert(deferred_obs_eq(csa[i], csb[i]));
    }
}

/// The kind and extent of list item `i` come from child `i` alone.
proof fn lemma_list_items_kind(cs: Seq<UnresolvedLayout>, pad: LogicalSideOffsets, i: int)
    requires
        0 <= i < cs.len(),
    ensures
        ({
            let it = spec_list_flow(cs, pad).items[i];
            match cs[i] {
                UnresolvedLayout::Resolved(n) => it.kind matches GListKind::Boxed { node }
                    && node == n,
                UnresolvedLayout::Text(t) => it.kind matches GListKind::TextBlock { width, height }
                    && width == child_resolved_size(cs[i]).0 && height == child_resolved_size(
                    cs[i],
                ).1,
            }
        }),
{
    lemma_list_children_kind(cs, GList { width: 0, height: 0, items: Seq::empty() }, pad, 0, i);
}

proof fn lemma_list_children_kind(
    cs: Seq<UnresolvedLayout>,
    st: GList,
    pad: LogicalSideOffsets,
    idx: int,
    i: int,
)
    requires
        0 <= i < cs.len(),
    ensures
        ({
            let it = list_children(cs, st, pad, idx).items[st.items.len() + i];
            match cs[i] {
                UnresolvedLayout::Resolved(n) => it.kind matches GListKind::Boxed { node }
                    && node == n,
                UnresolvedLayout::Text(t) => it.kind matches GListKind::TextBlock { width, height }
                    && width == child_resolved_size(cs[i]).0 && height == child_resolved_size(
                    cs[i],
                ).1,
            }
        }),
    decreases cs.len(),
{
    let st2 = list_step(st, idx, cs[0], pad);
    if i == 0 {
        lemma_list_children_prefix(cs.drop_first(), st2, pad, idx + 1);
        assert(list_children(cs, st, pad, idx).items[st.items.len() as int] == st2.items[st.items.len() as int]);
    } else {
        lemma_list_children_kind(cs.drop_first(), st2, pad, idx + 1, i - 1);
        assert(cs.drop_first()[i - 1] == cs[i]);
        assert(st2.items.len() + (i - 1) == st.items.len() + i);
    }
}

proof fn lemma_list_children_prefix(
    cs: Seq<UnresolvedLayout>,
    st: GList,
    pad: LogicalSideOffsets,
    idx: int,
)
    ensures
        list_children(cs, st, pad, idx).items.len() == st.items.len() + cs.len(),
        forall|i: int|
            0 <= i < st.items.len() ==> list_children(cs, st, pad, idx).items[i] == st.items[i],
    decreases cs.len(),
{
    if cs.len() > 0 {
        let st2 = list_step(st, idx, cs[0], pad);
        lemma_list_children_prefix(cs.drop_first(), st2, pad, idx + 1);
        assert forall|i: int|
            0 <= i < st.items.len() implies list_children(cs, st, pad, idx).items[i]
            == st.items[i] by {
            assert(list_children(cs, st, pad, idx).items[i] == st2.items[i]);
            assert(st2.items[i] == st.items[i]);
        }
    }
}

proof fn lemma_sum_heights_congr(csa: Seq<UnresolvedLayout>, csb: Seq<UnresolvedLayout>)
    requires
        csa.len() == csb.len(),
        forall|j: int| 0 <= j < csa.len() ==> deferred_obs_eq(#[trigger] csa[j], csb[j]),
    ensures
        sum_heights(csa) == sum_heights(csb),
    decreases csa.len(),
{
    if csa.len() > 0 {
        assert(deferred_obs_eq(csa[0], csb[0]));
        assert(forall|j: int|
            0 <= j < csa.drop_first().len() ==> deferred_obs_eq(
                #[trigger] csa.drop_first()[j],
                csb.drop_first()[j],
            ));
        lemma_sum_heights_congr(csa.drop_first(), csb.drop_first());
    }
}

proof fn lemma_max_width_congr(csa: Seq<UnresolvedLayout>, csb: Seq<UnresolvedLayout>)
    requires
        csa.len() == csb.len(),
        forall|j: int| 0 <= j < csa.len() ==> deferred_obs_eq(#[trigger] csa[j], csb[j]),
    ensures
        max_width_of(csa) == max_width_of(csb),
    decreases csa.len(),
{
    if csa.len() > 0 {
        assert(deferred_obs_eq(csa[0], csb[0]));
        assert(forall|j: int|
            0 <= j < csa.drop_first().len() ==> deferred_obs_eq(
                #[trigger] csa.drop_first()[j],
                csb.drop_first()[j],
            ));
        lemma_max_width_congr(csa.drop_first(), csb.drop_first());
    }
}

/// Any two results of one combination step on observably equal deferred
/// children are observably equal.
proof fn lemma_combined_unique(
    opts: LayoutOptions,
    cw: int,
    cva: Seq<UnresolvedLayout>,
    cvb: Seq<UnresolvedLayout>,
    ra: UnresolvedLayout,
    rb: UnresolvedLayout,
)
    requires
        combined_matches(opts, cw, cva, ra),
        combined_matches(opts, cw, cvb, rb),
        cva.len() == cvb.len(),
        forall|j: int| 0 <= j < cva.len() ==> deferred_obs_eq(#[trigger] cva[j], cvb[j]),
        forall|j: int|
            0 <= j < cva.len() ==> ((#[trigger] cva[j]) matches UnresolvedLayout::Text(t)
                ==> words_wf(t.text.words@, t.text.text@.len() as int)),
    ensures
        deferred_obs_eq(ra, rb),
{
    match opts.layout_ty {
        LayoutType::Text(mt) => {},
        LayoutType::Inline => {
            let fa = spec_inline_flow(cva, cw, opts.padding);
            let fb = spec_inline_flow(cvb, cw, opts.padding);
            lemma_children_congr(cva, cvb, inline_init(), inline_init(), cw, opts.padding, 0);
            assert(st_obs_eq(fa, fb));
            let na = ra->Resolved_0;
            let nb = rb->Resolved_0;
            assert(na.size == nb.size);
            assert forall|i: int| #![trigger na.children@[i]]
                0 <= i < na.children@.len() implies {
                &&& na.children@[i].index == nb.children@[i].index
                &&& na.children@[i].position == nb.children@[i].position
                &&& node_obs_eq(*na.children@[i].layout, *nb.children@[i].layout)
            } by {
                assert(crate::flow::frag_matches(na.children@[i], fa.frags[i]));
                assert(crate::flow::frag_matches(nb.children@[i], fb.frags[i]));
                assert(frag_obs_eq(fa.frags[i], fb.frags[i]));
            }
            assert(node_obs_eq(*na, *nb));
        },
        LayoutType::List => {
            let fa = spec_list_flow(cva, opts.padding);
            let fb = spec_list_flow(cvb, opts.padding);
            lemma_list_congr(cva, cvb, opts.padding);
            lemma_list_flow_additivity(cva, opts.padding);
            lemma_list_flow_additivity(cvb, opts.padding);
            let na = ra->Resolved_0;
            let nb = rb->Resolved_0;
            assert(na.size == nb.size);
            assert forall|i: int| #![trigger na.children@[i]]
                0 <= i < na.children@.len() implies {
                &&& na.children@[i].index == nb.children@[i].index
                &&& na.children@[i].position == nb.children@[i].position
                &&& node_obs_eq(*na.children@[i].layout, *nb.children@[i].layout)
            } by {
                assert(list_item_matches(na.children@[i], fa.items[i]));
                assert(list_item_matches(nb.children@[i], fb.items[i]));
                assert(fa.items.len() == cva.len());
                let ia = fa.items[i];
                let ib = fb.items[i];
                assert(ia.index == ib.index && ia.x == ib.x && ia.y == ib.y);
                match (ia.kind, ib.kind) {
                    (GListKind::Boxed { node: ka }, GListKind::Boxed { node: kb }) => {
                        assert(node_obs_eq(*ka, *kb));
                    },
                    (
                        GListKind::TextBlock { width: wa, height: ha },
                        GListKind::TextBlock { width: wb, height: hb },
                    ) => {
                        assert(wa == wb && ha == hb);
                        assert(node_obs_eq(*na.children@[i].layout, *nb.children@[i].layout));
                    },
                    _ => {
                        assert(false);
                    },
                }
            }
            assert(node_obs_eq(*na, *nb));
        },
    }
}

/// Any two deferred layouts of the same element against the same max
/// content size are observably equal.
proof fn lemma_deferred_unique(e: Element, pw: int, ph: int, a: UnresolvedLayout, b: UnresolvedLayout)
    requires
        deferred_matches(e, pw, ph, a),
        deferred_matches(e, pw, ph, b),
    ensures
        deferred_obs_eq(a, b),
    decreases e,
{
    let cw = spec_max_w(e.opts, pw);
    let ch = spec_max_h(e.opts, ph);
    match e.opts.layout_ty {
        LayoutType::Text(mt) => {},
        _ => {
            let cva = choose|cv: Seq<UnresolvedLayout>|
                {
                    &&& cv.len() == e.children@.len()
                    &&& (forall|i: int|
                        0 <= i < cv.len() ==> deferred_matches(
                            #[trigger] e.children@[i],
                            cw,
                            ch,
                            cv[i],
                        ))
                    &&& combined_matches(e.opts, cw, cv, a)
                };
            let cvb = choose|cv: Seq<UnresolvedLayout>|
                {
                    &&& cv.len() == e.children@.len()
                    &&& (forall|i: int|
                        0 <= i < cv.len() ==> deferred_matches(
                            #[trigger] e.children@[i],
                            cw,
                            ch,
                            cv[i],
                        ))
                    &&& combined_matches(e.opts, cw, cv, b)
                };
            assert(cva.len() == e.children@.len() && combined_matches(e.opts, cw, cva, a));
            assert(cvb.len() == e.children@.len() && combined_matches(e.opts, cw, cvb, b));
            assert forall|j: int| 0 <= j < cva.len() implies deferred_obs_eq(
                #[trigger] cva[j],
                cvb[j],
            ) by {
                assert(deferred_matches(e.children@[j], cw, ch, cva[j]));
                assert(deferred_matches(e.children@[j], cw, ch, cvb[j]));
                lemma_deferred_unique(e.children@[j], cw, ch, cva[j], cvb[j]);
            }
            assert forall|j: int|
                0 <= j < cva.len() implies ((#[trigger] cva[j]) matches UnresolvedLayout::Text(t)
                ==> words_wf(t.text.words@, t.text.text@.len() as int)) by {
                assert(deferred_matches(e.children@[j], cw, ch, cva[j]));
                match cva[j] {
                    UnresolvedLayout::Text(t) => {
                        assert(e.children@[j].opts.wf());
                    },
                    _ => {},
                }
            }
            lemma_combined_unique(e.opts, cw, cva, cvb, a, b);
        },
    }
}

/// Idempotence: an unchanged element tree and viewport produce
/// bit-identical sizes and positions — any two successful passes yield
/// observably equal output trees, at every node.
pub proof fn lemma_layout_idempotent(
    root: Element,
    size: LogicalSize,
    a: LayoutTreeNode,
    b: LayoutTreeNode,
)
    requires
        layout_ok(root, size, a),
        layout_ok(root, size, b),
    ensures
        node_obs_eq(a, b),
{
    assert forall|i: int| #![trigger a.children@[i]]
        0 <= i < a.children@.len() implies {
        &&& a.children@[i].index == b.children@[i].index
        &&& a.children@[i].position == b.children@[i].position
        &&& node_obs_eq(*a.children@[i].layout, *b.children@[i].layout)
    } by {
        assert(a.children@[i].index == i && b.children@[i].index == i);
        let da = choose|d: UnresolvedLayout|
            deferred_matches(root.children@[i], size.width as int, size.height as int, d)
                && resolve_post(d, a.children@[i].layout);
        let db = choose|d: UnresolvedLayout|
            deferred_matches(root.children@[i], size.width as int, size.height as int, d)
                && resolve_post(d, b.children@[i].layout);
        lemma_deferred_unique(
            root.children@[i],
            size.width as int,
            size.height as int,
            da,
            db,
        );
        match (da, db) {
            (UnresolvedLayout::Resolved(ma), UnresolvedLayout::Resolved(mb)) => {
                assert(node_obs_eq(*ma, *mb));
            },
            (UnresolvedLayout::Text(ta), UnresolvedLayout::Text(tb)) => {
                assert(node_obs_eq(*a.children@[i].layout, *b.children@[i].layout));
            },
            _ => {},
        }
    }
}

} // verus!
