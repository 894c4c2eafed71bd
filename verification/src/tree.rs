//! The data model: per-element layout options, the immutable output tree,
//! and the deferred layout result that lets a text child escape to an
//! enclosing inline flow for line breaking.

use crate::geometry::{LogicalPoint, LogicalSideOffsets, LogicalSize, MAX_ACC, MAX_DIM};
use crate::text::{
    imax, lemma_forward_progress, spec_text_step, text_step, words_wf, MeasuredText,
    MeasuredWord, TextLayoutInfo,
};
use std::rc::Rc;
use vstd::prelude::*;

verus! {

/// Which flow an element arranges its children with.
#[derive(Clone, Debug)]
pub enum LayoutType {
    List,
    Inline,
    /// Text is special because a parent Inline flow can break it into
    /// multiple pieces. It carries the measured text of the element.
    Text(MeasuredText),
}

/// Options that each element hands to the layout engine.
#[derive(Clone, Debug)]
pub struct LayoutOptions {
    pub padding: LogicalSideOffsets,
    pub width: Option<i64>,
    pub height: Option<i64>,
    pub text_size: i64,
    pub layout_ty: LayoutType,
}

impl LayoutOptions {
    pub open spec fn wf(self) -> bool {
        &&& self.padding.wf()
        &&& match self.width {
            Some(w) => 0 <= w <= MAX_DIM,
            None => true,
        }
        &&& match self.height {
            Some(h) => 0 <= h <= MAX_DIM,
            None => true,
        }
        &&& 0 < self.text_size <= MAX_DIM
        &&& match self.layout_ty {
            LayoutType::Text(t) => t.wf(),
            _ => true,
        }
    }
}

impl Default for LayoutOptions {
    /// No padding, no explicit size, a default text size, list flow.
    fn default() -> (r: LayoutOptions)
        ensures
            r.padding.top == 0 && r.padding.right == 0 && r.padding.bottom == 0 && r.padding.left
                == 0,
            r.width is None,
            r.height is None,
            r.text_size == 16,
            r.layout_ty is List,
            r.wf(),
    {
        LayoutOptions {
            padding: LogicalSideOffsets::new_all_same(0),
            width: None,
            height: None,
            text_size: 16,
            layout_ty: LayoutType::List,
        }
    }
}

/// A piece of text for the renderer: roughly one line, with its text size.
#[derive(Debug)]
pub struct LayoutText {
    pub text: Vec<u8>,
    pub size: i64,
}

/// One node of the immutable output tree. Child positions are relative to
/// this node's origin; overflow beyond the node's own size is permitted.
#[derive(Debug)]
pub struct LayoutTreeNode {
    pub size: LogicalSize,
    pub render_text: Option<LayoutText>,
    pub children: Vec<LayoutChild>,
}

/// Binds a child's index in the source element's child list to its
/// position and its (possibly shared) sub-tree.
#[derive(Debug)]
pub struct LayoutChild {
    pub index: usize,
    pub position: LogicalPoint,
    pub layout: Rc<LayoutTreeNode>,
}

/// A deferred layout result: either a fully resolved sub-tree, or a
/// pending text whose line breaking waits for an enclosing inline flow —
/// or for a forced resolution.
#[derive(Debug)]
pub enum UnresolvedLayout {
    Resolved(Rc<LayoutTreeNode>),
    Text(Rc<TextLayoutInfo>),
}

impl UnresolvedLayout {
    pub open spec fn wf(self) -> bool {
        match self {
            UnresolvedLayout::Resolved(n) => true,
            UnresolvedLayout::Text(t) => t.wf(),
        }
    }
}

/// Size of a forced text resolution from `offset` on: lines are filled at
/// the full `max_w` and stacked; the width is the longest line, the height
/// the stacked total.
pub open spec fn spec_resolve_text(ws: Seq<MeasuredWord>, len: int, max_w: int, offset: int) -> (
    int,
    int,
)
    decreases len - offset,
    when 0 <= offset <= len && words_wf(ws, len)
    via lemma_resolve_text_decreases
{
    if offset >= len {
        (0, 0)
    } else {
        let st = spec_text_step(ws, len, max_w, 0, offset);
        let rest = spec_resolve_text(ws, len, max_w, st.end);
        (imax(st.width, rest.0), st.height + rest.1)
    }
}

#[via_fn]
proof fn lemma_resolve_text_decreases(ws: Seq<MeasuredWord>, len: int, max_w: int, offset: int) {
    if offset < len {
        lemma_forward_progress(ws, len, max_w, 0, offset);
    }
}

pub proof fn lemma_resolve_text_bounds(ws: Seq<MeasuredWord>, len: int, max_w: int, offset: int)
    requires
        words_wf(ws, len),
        0 <= offset <= len,
        -MAX_ACC <= max_w <= MAX_ACC,
    ensures
        0 <= spec_resolve_text(ws, len, max_w, offset).0 <= MAX_ACC,
        0 <= spec_resolve_text(ws, len, max_w, offset).1 <= (len - offset) * MAX_DIM,
    decreases len - offset,
{
    if offset < len {
        lemma_forward_progress(ws, len, max_w, 0, offset);
        lemma_resolve_text_bounds(ws, len, max_w, spec_text_step(ws, len, max_w, 0, offset).end);
    }
}

impl UnresolvedLayout {
    /// Force a deferred result to a resolved sub-tree. A pending text is
    /// broken into stacked lines against its own max width, as a
    /// self-contained single-column inline block; per-line fragments are
    /// not retained on this path.
    pub fn resolve(self) -> (r: Rc<LayoutTreeNode>)
        requires
            self.wf(),
        ensures
            self matches UnresolvedLayout::Resolved(n) ==> r == n,
            self matches UnresolvedLayout::Text(t) ==> {
                let sz = spec_resolve_text(
                    t.text.words@,
                    t.text.text@.len() as int,
                    t.max_width as int,
                    0,
                );
                &&& r.size.width == sz.0
                &&& r.size.height == sz.1
                &&& r.render_text is None
                &&& r.children@.len() == 0
            },
    {
        match self {
            UnresolvedLayout::Resolved(layout) => layout,
            UnresolvedLayout::Text(text) => {
                let ghost ws = text.text.words@;
                let ghost glen = text.text.text@.len() as int;
                let ghost gmw = text.max_width as int;
                let len = text.text.text.len();
                proof {
                    lemma_resolve_text_bounds(ws, glen, gmw, 0);
                }
                let mut offset: usize = 0;
                let mut longest: i64 = 0;
                let mut height: i64 = 0;
                while offset < len
                    invariant
                        text.wf(),
                        ws == text.text.words@,
                        glen == text.text.text@.len() as int,
                        gmw == text.max_width as int,
                        len == text.text.text@.len(),
                        0 <= offset <= len,
                        0 <= longest <= MAX_ACC,
                        0 <= height <= offset as int * MAX_DIM,
                        spec_resolve_text(ws, glen, gmw, 0).0 == imax(
                            longest as int,
                            spec_resolve_text(ws, glen, gmw, offset as int).0,
                        ),
                        spec_resolve_text(ws, glen, gmw, 0).1 == height + spec_resolve_text(
                            ws,
                            glen,
                            gmw,
                            offset as int,
                        ).1,
                    decreases len - offset,
                {
                    proof {
                        lemma_forward_progress(ws, glen, gmw, 0, offset as int);
                    }
                    let (_committed, _start, next, w, h) = text_step(
                        &*text,
                        text.max_width,
                        0,
                        offset,
                    );
                    proof {
                        let st = spec_text_step(ws, glen, gmw, 0, offset as int);
                        assert(spec_resolve_text(ws, glen, gmw, offset as int) == (
                        imax(st.width, spec_resolve_text(ws, glen, gmw, st.end).0),
                        st.height + spec_resolve_text(ws, glen, gmw, st.end).1,
                        ));
                    }
                    if w > longest {
                        longest = w;
                    }
                    height = height + h;
                    offset = next;
                }
                let size = LogicalSize { width: longest, height };
                Rc::new(LayoutTreeNode { size, render_text: None, children: Vec::new() })
            },
        }
    }
}

} // verus!
