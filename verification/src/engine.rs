//! The recursive layout builder and the engine entry point: walks the
//! element tree, resolves max sizes top-down, combines child results
//! bottom-up through the flow selected by each node's options.

use crate::flow::{
    child_height_budget, child_ok, children_height_budget, children_ok, frag_matches,
    inline_flow, list_flow, list_item_matches, spec_inline_flow, spec_list_flow,
};
use crate::geometry::{point2, LogicalSize, MAX_ACC, MAX_DIM};
use crate::text::{imax, words_wf, MeasuredText, MeasuredWord, TextLayoutInfo, MAX_TEXT};
use crate::tree::{
    spec_resolve_text, LayoutChild, LayoutOptions, LayoutTreeNode, LayoutType, UnresolvedLayout,
};
use std::rc::Rc;
use vstd::prelude::*;

verus! {

/// The element tree input: each element carries the layout options that
/// options resolution produced for it, and its ordered children.
#[derive(Debug)]
pub struct Element {
    pub opts: LayoutOptions,
    pub children: Vec<Element>,
}

/// The engine's recoverable failures: options outside the representable
/// range, or accumulated geometry too large for the machine integers.
#[derive(Clone, Copy, PartialEq, Eq, Structural, Debug)]
pub enum LayoutError {
    InvalidOptions,
    TooLarge,
}

/// Max content width of a node: the inherited max width, overridden by an
/// explicit width, minus the horizontal padding.
pub open spec fn spec_max_w(opts: LayoutOptions, parent_w: int) -> int {
    (match opts.width {
        Some(w) => w as int,
        None => parent_w,
    }) - opts.padding.spec_horizontal()
}

pub open spec fn spec_max_h(opts: LayoutOptions, parent_h: int) -> int {
    (match opts.height {
        Some(h) => h as int,
        None => parent_h,
    }) - opts.padding.spec_vertical()
}

/// Outer width of a node: content plus padding, overridden by an explicit
/// width if present.
pub open spec fn spec_outer_w(opts: LayoutOptions, content_w: int) -> int {
    match opts.width {
        Some(w) => w as int,
        None => content_w + opts.padding.spec_horizontal(),
    }
}

pub open spec fn spec_outer_h(opts: LayoutOptions, content_h: int) -> int {
    match opts.height {
        Some(h) => h as int,
        None => content_h + opts.padding.spec_vertical(),
    }
}

/// What one combination step produces from the options, the node's own max
/// content size, and the deferred children: a pending text for a text
/// node, else a resolved node whose content comes from the selected flow.
pub open spec fn combined_matches(
    opts: LayoutOptions,
    max_w: int,
    cvals: Seq<UnresolvedLayout>,
    r: UnresolvedLayout,
) -> bool {
    match opts.layout_ty {
        LayoutType::Text(mt) => (r matches UnresolvedLayout::Text(t) && t.text.text@ == mt.text@
            && t.text.words@ == mt.words@ && t.size == opts.text_size && t.max_width == max_w),
        LayoutType::Inline => (r matches UnresolvedLayout::Resolved(n) && {
            let fin = spec_inline_flow(cvals, max_w, opts.padding);
            &&& n.size.width == spec_outer_w(opts, imax(fin.longest, fin.x))
            &&& n.size.height == spec_outer_h(opts, fin.height + fin.line_height)
            &&& n.render_text is None
            &&& n.children@.len() == fin.frags.len()
            &&& forall|i: int|
                0 <= i < fin.frags.len() ==> frag_matches(#[trigger] n.children@[i], fin.frags[i])
        }),
        LayoutType::List => (r matches UnresolvedLayout::Resolved(n) && {
            let fin = spec_list_flow(cvals, opts.padding);
            &&& n.size.width == spec_outer_w(opts, fin.width)
            &&& n.size.height == spec_outer_h(opts, fin.height)
            &&& n.render_text is None
            &&& n.children@.len() == fin.items.len()
            &&& forall|i: int|
                0 <= i < fin.items.len() ==> list_item_matches(
                    #[trigger] n.children@[i],
                    fin.items[i],
                )
        }),
    }
}

/// The layout of one element against its parent's max content size: the
/// deferred children are obtained recursively against this node's own max
/// size, then combined by the node's flow.
pub open spec fn deferred_matches(e: Element, pw: int, ph: int, r: UnresolvedLayout) -> bool
    decreases e,
{
    let cw = spec_max_w(e.opts, pw);
    let ch = spec_max_h(e.opts, ph);
    &&& e.opts.wf()
    &&& match e.opts.layout_ty {
        LayoutType::Text(mt) => combined_matches(e.opts, cw, Seq::empty(), r),
        _ => exists|cvals: Seq<UnresolvedLayout>|
            {
                &&& cvals.len() == e.children@.len()
                &&& (forall|i: int|
                    0 <= i < cvals.len() ==> deferred_matches(
                        #[trigger] e.children@[i],
                        cw,
                        ch,
                        cvals[i],
                    ))
                &&& combined_matches(e.opts, cw, cvals, r)
            },
    }
}

/// How a resolved sub-tree relates to the deferred result it came from.
pub open spec fn resolve_post(d: UnresolvedLayout, n: Rc<LayoutTreeNode>) -> bool {
    match d {
        UnresolvedLayout::Resolved(m) => n == m,
        UnresolvedLayout::Text(t) => {
            let sz = spec_resolve_text(
                t.text.words@,
                t.text.text@.len() as int,
                t.max_width as int,
                0,
            );
            &&& n.size.width == sz.0
            &&& n.size.height == sz.1
            &&& n.render_text is None
            &&& n.children@.len() == 0
        },
    }
}

/// What a successful whole pass returns: a node sized to the viewport
/// whose children are the root's children laid out against it, each
/// force-resolved and placed at the origin.
pub open spec fn layout_ok(root: Element, size: LogicalSize, n: LayoutTreeNode) -> bool {
    &&& opts_wf_rec(root)
    &&& n.size == size
    &&& n.render_text is None
    &&& n.children@.len() == root.children@.len()
    &&& forall|i: int|
        0 <= i < root.children@.len() ==> {
            &&& (#[trigger] n.children@[i]).index == i
            &&& n.children@[i].position.x == 0
            &&& n.children@[i].position.y == 0
            &&& exists|d: UnresolvedLayout|
                deferred_matches(root.children@[i], size.width as int, size.height as int, d)
                    && resolve_post(d, n.children@[i].layout)
        }
}

/// Every element of the tree carries well-formed options.
pub open spec fn opts_wf_rec(e: Element) -> bool
    decreases e,
{
    &&& e.opts.wf()
    &&& forall|i: int|
        0 <= i < e.children@.len() ==> opts_wf_rec(#[trigger] e.children@[i])
}

/// Number of elements in a tree, counting the root.
pub open spec fn tree_size(e: Element) -> nat
    decreases e,
{
    1 + forest_size(e.children@)
}

pub open spec fn forest_size(s: Seq<Element>) -> nat
    decreases s,
{
    if s.len() == 0 {
        0nat
    } else {
        tree_size(s[0]) + forest_size(s.drop_first())
    }
}

/// Bound on the child count per element under which success is owed.
pub const MAX_CHILDREN: usize = 0x1000_0000;

/// A tree on which layout is guaranteed to succeed: well-formed options,
/// an explicit width and height on every element, no text, and a bounded
/// child count. Success is owed on such trees because every computed
/// extent is pinned by an explicit size.
pub open spec fn sized_tree(e: Element) -> bool
    decreases e,
{
    &&& e.opts.wf()
    &&& e.opts.width is Some
    &&& e.opts.height is Some
    &&& !(e.opts.layout_ty is Text)
    &&& e.children@.len() <= MAX_CHILDREN
    &&& forall|i: int| 0 <= i < e.children@.len() ==> sized_tree(#[trigger] e.children@[i])
}

/// Runtime check of `words_wf`.
fn check_words(ws: &Vec<MeasuredWord>, len: usize) -> (b: bool)
    ensures
        b == words_wf(ws@, len as int),
{
    let mut i: usize = 0;
    while i < ws.len()
        invariant
            0 <= i <= ws@.len(),
            forall|j: int|
                0 <= j < i ==> (#[trigger] ws@[j]).start < ws@[j].end <= len,
            forall|j: int| 0 < j < i ==> (#[trigger] ws@[j]).start >= ws@[j - 1].end,
            forall|j: int| 0 <= j < i ==> 0 <= (#[trigger] ws@[j]).width <= MAX_DIM,
            forall|j: int| 0 <= j < i ==> 0 <= (#[trigger] ws@[j]).height <= MAX_DIM,
        decreases ws@.len() - i,
    {
        let w = ws[i];
        if !(w.start < w.end && w.end <= len) {
            return false;
        }
        if i > 0 && w.start < ws[i - 1].end {
            return false;
        }
        if !(0 <= w.width && w.width <= MAX_DIM) {
            return false;
        }
        if !(0 <= w.height && w.height <= MAX_DIM) {
            return false;
        }
        i = i + 1;
    }
    true
}

/// Runtime check of `MeasuredText::wf`.
fn check_text(t: &MeasuredText) -> (b: bool)
    ensures
        b == t.wf(),
{
    if t.text.len() > MAX_TEXT {
        return false;
    }
    check_words(&t.words, t.text.len())
}

/// Runtime check of `LayoutOptions::wf`.
fn check_options(opts: &LayoutOptions) -> (b: bool)
    ensures
        b == opts.wf(),
{
    let p = opts.padding;
    if !(0 <= p.top && p.top <= MAX_DIM && 0 <= p.right && p.right <= MAX_DIM && 0 <= p.bottom
        && p.bottom <= MAX_DIM && 0 <= p.left && p.left <= MAX_DIM) {
        return false;
    }
    match opts.width {
        Some(w) => {
            if !(0 <= w && w <= MAX_DIM) {
                return false;
            }
        },
        None => {},
    }
    match opts.height {
        Some(h) => {
            if !(0 <= h && h <= MAX_DIM) {
                return false;
            }
        },
        None => {},
    }
    if !(0 < opts.text_size && opts.text_size <= MAX_DIM) {
        return false;
    }
    match &opts.layout_ty {
        LayoutType::Text(mt) => check_text(mt),
        _ => true,
    }
}

/// Runtime check of `opts_wf_rec` over the whole element tree.
pub fn validate_element(e: &Element) -> (b: bool)
    ensures
        b == opts_wf_rec(*e),
    decreases *e,
{
    if !check_options(&e.opts) {
        return false;
    }
    let mut i: usize = 0;
    while i < e.children.len()
        invariant
            0 <= i <= e.children@.len(),
            e.opts.wf(),
            forall|j: int| 0 <= j < i ==> opts_wf_rec(#[trigger] e.children@[j]),
        decreases e.children@.len() - i,
    {
        if !validate_element(&e.children[i]) {
            return false;
        }
        i = i + 1;
    }
    true
}

fn clone_bytes(v: &Vec<u8>) -> (r: Vec<u8>)
    ensures
        r@ == v@,
{
    let mut r: Vec<u8> = Vec::new();
    let mut i: usize = 0;
    while i < v.len()
        invariant
            0 <= i <= v@.len(),
            r@ == v@.subrange(0, i as int),
        decreases v@.len() - i,
    {
        r.push(v[i]);
        proof {
            assert(r@ =~= v@.subrange(0, i as int + 1));
        }
        i = i + 1;
    }
    proof {
        assert(r@ =~= v@);
    }
    r
}

fn clone_words(v: &Vec<MeasuredWord>) -> (r: Vec<MeasuredWord>)
    ensures
        r@ == v@,
{
    let mut r: Vec<MeasuredWord> = Vec::new();
    let mut i: usize = 0;
    while i < v.len()
        invariant
            0 <= i <= v@.len(),
            r@ == v@.subrange(0, i as int),
        decreases v@.len() - i,
    {
        r.push(v[i]);
        proof {
            assert(r@ =~= v@.subrange(0, i as int + 1));
        }
        i = i + 1;
    }
    proof {
        assert(r@ =~= v@);
    }
    r
}

fn clone_measured(mt: &MeasuredText) -> (r: MeasuredText)
    ensures
        r.text@ == mt.text@,
        r.words@ == mt.words@,
{
    MeasuredText { text: clone_bytes(&mt.text), words: clone_words(&mt.words) }
}

fn clone_options(o: &LayoutOptions) -> (r: LayoutOptions)
    ensures
        opts_matches(r, *o),
        opts_matches(*o, r),
{
    let layout_ty = match &o.layout_ty {
        LayoutType::List => LayoutType::List,
        LayoutType::Inline => LayoutType::Inline,
        LayoutType::Text(mt) => LayoutType::Text(clone_measured(mt)),
    };
    LayoutOptions {
        padding: o.padding,
        width: o.width,
        height: o.height,
        text_size: o.text_size,
        layout_ty,
    }
}

/// Well-formedness of options depends only on what `opts_matches`
/// compares.
proof fn lemma_opts_wf_congruence(a: LayoutOptions, b: LayoutOptions)
    requires
        opts_matches(a, b),
        a.wf(),
    ensures
        b.wf(),
{
}

pub proof fn lemma_budget_snoc(s: Seq<UnresolvedLayout>, c: UnresolvedLayout)
    ensures
        children_height_budget(s.push(c)) == children_height_budget(s) + child_height_budget(c),
    decreases s.len(),
{
    assert(s.push(c).len() == s.len() + 1);
    if s.len() == 0 {
        assert(s.push(c).drop_first() =~= Seq::<UnresolvedLayout>::empty());
        assert(s.push(c)[0] == c);
        assert(children_height_budget(s.push(c)) == child_height_budget(c)
            + children_height_budget(s.push(c).drop_first()));
        assert(children_height_budget(Seq::<UnresolvedLayout>::empty()) == 0);
    } else {
        assert(s.push(c)[0] == s[0]);
        assert(s.push(c).drop_first() =~= s.drop_first().push(c));
        lemma_budget_snoc(s.drop_first(), c);
        assert(children_height_budget(s.push(c)) == child_height_budget(s[0])
            + children_height_budget(s.drop_first().push(c)));
        assert(children_height_budget(s) == child_height_budget(s[0])
            + children_height_budget(s.drop_first()));
    }
}

fn bytes_eq(a: &Vec<u8>, b: &Vec<u8>) -> (r: bool)
    ensures
        r == (a@ == b@),
{
    if a.len() != b.len() {
        proof {
            assert(a@ != b@);
        }
        return false;
    }
    let mut i: usize = 0;
    while i < a.len()
        invariant
            0 <= i <= a@.len(),
            a@.len() == b@.len(),
            forall|j: int| 0 <= j < i ==> a@[j] == b@[j],
        decreases a@.len() - i,
    {
        if a[i] != b[i] {
            proof {
                assert(a@ != b@);
            }
            return false;
        }
        i = i + 1;
    }
    proof {
        assert(a@ =~= b@);
    }
    true
}

fn words_eq(a: &Vec<MeasuredWord>, b: &Vec<MeasuredWord>) -> (r: bool)
    ensures
        r == (a@ == b@),
{
    if a.len() != b.len() {
        proof {
            assert(a@ != b@);
        }
        return false;
    }
    let mut i: usize = 0;
    while i < a.len()
        invariant
            0 <= i <= a@.len(),
            a@.len() == b@.len(),
            forall|j: int| 0 <= j < i ==> a@[j] == b@[j],
        decreases a@.len() - i,
    {
        if !(a[i] == b[i]) {
            proof {
                assert(a@ != b@);
            }
            return false;
        }
        i = i + 1;
    }
    proof {
        assert(a@ =~= b@);
    }
    true
}

fn ids_eq(a: &Vec<u64>, b: &Vec<u64>) -> (r: bool)
    ensures
        r == (a@ == b@),
{
    if a.len() != b.len() {
        proof {
            assert(a@ != b@);
        }
        return false;
    }
    let mut i: usize = 0;
    while i < a.len()
        invariant
            0 <= i <= a@.len(),
            a@.len() == b@.len(),
            forall|j: int| 0 <= j < i ==> a@[j] == b@[j],
        decreases a@.len() - i,
    {
        if a[i] != b[i] {
            proof {
                assert(a@ != b@);
            }
            return false;
        }
        i = i + 1;
    }
    proof {
        assert(a@ =~= b@);
    }
    true
}

/// Value equality of two sets of layout options, down to the views of a
/// text's measurement. The combination step reads its options only
/// through what this relation compares.
pub open spec fn opts_matches(a: LayoutOptions, b: LayoutOptions) -> bool {
    &&& a.padding == b.padding
    &&& a.width == b.width
    &&& a.height == b.height
    &&& a.text_size == b.text_size
    &&& match (a.layout_ty, b.layout_ty) {
        (LayoutType::List, LayoutType::List) => true,
        (LayoutType::Inline, LayoutType::Inline) => true,
        (LayoutType::Text(ta), LayoutType::Text(tb)) => ta.text@ == tb.text@ && ta.words@
            == tb.words@,
        _ => false,
    }
}

fn options_eq(a: &LayoutOptions, b: &LayoutOptions) -> (r: bool)
    ensures
        r == opts_matches(*a, *b),
{
    if !(a.padding == b.padding) {
        return false;
    }
    let w_eq = match (a.width, b.width) {
        (None, None) => true,
        (Some(x), Some(y)) => x == y,
        _ => false,
    };
    if !w_eq {
        return false;
    }
    let h_eq = match (a.height, b.height) {
        (None, None) => true,
        (Some(x), Some(y)) => x == y,
        _ => false,
    };
    if !h_eq {
        return false;
    }
    if a.text_size != b.text_size {
        return false;
    }
    match (&a.layout_ty, &b.layout_ty) {
        (LayoutType::List, LayoutType::List) => true,
        (LayoutType::Inline, LayoutType::Inline) => true,
        (LayoutType::Text(ta), LayoutType::Text(tb)) => {
            if !bytes_eq(&ta.text, &tb.text) {
                return false;
            }
            words_eq(&ta.words, &tb.words)
        },
        _ => false,
    }
}

/// The memoization key of one combination step: the options and max size
/// by value, the deferred children by the identity of their cache handle,
/// as structural sharing makes equal handles stand for equal results.
pub struct LayoutInputs {
    pub opts: LayoutOptions,
    pub max_size: LogicalSize,
    pub children: Vec<u64>,
}

impl LayoutInputs {
    pub open spec fn key_matches(self, other: LayoutInputs) -> bool {
        &&& opts_matches(self.opts, other.opts)
        &&& self.max_size == other.max_size
        &&& self.children@ == other.children@
    }

    /// Key equality for a cache probe.
    pub fn eq(&self, other: &LayoutInputs) -> (r: bool)
        ensures
            r == self.key_matches(*other),
    {
        if !options_eq(&self.opts, &other.opts) {
            return false;
        }
        if !(self.max_size == other.max_size) {
            return false;
        }
        ids_eq(&self.children, &other.children)
    }
}

/// The combination step reads its options only through what
/// `opts_matches` compares, so matching options combine alike.
proof fn lemma_combined_congruence(
    a: LayoutOptions,
    b: LayoutOptions,
    max_w: int,
    cvals: Seq<UnresolvedLayout>,
    r: UnresolvedLayout,
)
    requires
        opts_matches(a, b),
        combined_matches(a, max_w, cvals, r),
    ensures
        combined_matches(b, max_w, cvals, r),
{
}

/// One remembered combination step: its key, its result, and the stable
/// handle that identifies the result across passes.
struct MemoEntry {
    inputs: LayoutInputs,
    result: UnresolvedLayout,
    result_id: u64,
}

/// Relies on std's Rc::clone: the returned handle shares the same
/// allocation, so it carries the same value.
#[verifier::external_body]
fn rc_share<T>(rc: &Rc<T>) -> (r: Rc<T>)
    ensures
        r == *rc,
{
    Rc::clone(rc)
}

fn share_deferred(d: &UnresolvedLayout) -> (r: UnresolvedLayout)
    ensures
        r == *d,
{
    match d {
        UnresolvedLayout::Resolved(n) => UnresolvedLayout::Resolved(rc_share(n)),
        UnresolvedLayout::Text(t) => UnresolvedLayout::Text(rc_share(t)),
    }
}

/// Builds the layout tree, with internal caching for performance: each
/// combination step is remembered under its `LayoutInputs` key, and an
/// unchanged key returns the previous result — and its previous handle —
/// without recomputation.
pub struct LayoutEngine {
    entries: Vec<MemoEntry>,
    next_id: u64,
    registry: Ghost<Map<int, UnresolvedLayout>>,
}

impl LayoutEngine {
    /// The registered deferred values a key's child handles stand for.
    pub closed spec fn key_values(self, ids: Seq<u64>) -> Seq<UnresolvedLayout> {
        Seq::new(ids.len(), |j: int| self.registry@[ids[j] as int])
    }

    /// The engine after a pass carries everything the engine before it
    /// had registered, under the same handles.
    pub closed spec fn extends(self, other: LayoutEngine) -> bool {
        &&& forall|k: int| #[trigger]
            self.registry@.contains_key(k) ==> other.registry@.contains_key(k)
                && other.registry@[k] == self.registry@[k]
        &&& self.next_id <= other.next_id
    }

    /// How many handles the engine has issued so far.
    pub closed spec fn id_count(self) -> nat {
        self.next_id as nat
    }

    /// The deferred result `d` is registered under the handle `id`.
    pub closed spec fn registered(self, id: u64, d: UnresolvedLayout) -> bool {
        &&& id < self.next_id
        &&& self.registry@.contains_key(id as int)
        &&& self.registry@[id as int] == d
    }

    /// The cache's invariant: every remembered result is registered under
    /// its handle, its key's child handles are registered, and the result
    /// is exactly what combining the key gives.
    pub closed spec fn wf(self) -> bool {
        &&& forall|k: int| #[trigger]
            self.registry@.contains_key(k) ==> 0 <= k < self.next_id
        &&& forall|k: int| 0 <= k < self.entries@.len() ==> {
            let e = #[trigger] self.entries@[k];
            &&& e.result_id < self.next_id
            &&& self.registry@.contains_key(e.result_id as int)
            &&& self.registry@[e.result_id as int] == e.result
            &&& (forall|j: int|
                0 <= j < e.inputs.children@.len() ==> self.registry@.contains_key(
                    (#[trigger] e.inputs.children@[j]) as int,
                ) && e.inputs.children@[j] < self.next_id)
            &&& e.inputs.opts.wf()
            &&& combined_matches(
                e.inputs.opts,
                e.inputs.max_size.width as int,
                self.key_values(e.inputs.children@),
                e.result,
            )
            &&& child_ok(e.result)
            &&& e.result.wf()
        }
    }

    pub fn new() -> (r: LayoutEngine)
        ensures
            r.wf(),
    {
        LayoutEngine { entries: Vec::new(), next_id: 0, registry: Ghost(Map::empty()) }
    }

    /// Max content size of a node: the inherited max size, overridden per
    /// axis by an explicit width or height, minus the node's own padding.
    pub fn calc_max_size(opts: &LayoutOptions, parent_size: LogicalSize) -> (r: LogicalSize)
        requires
            opts.wf(),
            -MAX_ACC <= parent_size.width <= MAX_ACC,
            -MAX_ACC <= parent_size.height <= MAX_ACC,
        ensures
            r.width == spec_max_w(*opts, parent_size.width as int),
            r.height == spec_max_h(*opts, parent_size.height as int),
            -MAX_ACC - 2 * MAX_DIM <= r.width <= MAX_ACC,
            -MAX_ACC - 2 * MAX_DIM <= r.height <= MAX_ACC,
    {
        let mut w = parent_size.width;
        let mut h = parent_size.height;
        match opts.width {
            Some(ww) => {
                w = ww;
            },
            None => {},
        }
        match opts.height {
            Some(hh) => {
                h = hh;
            },
            None => {},
        }
        LogicalSize {
            width: w - opts.padding.horizontal(),
            height: h - opts.padding.vertical(),
        }
    }

    /// One combination step: a text node defers its line breaking; a list
    /// or inline node runs its flow over the deferred children and wraps
    /// the content in its padding and explicit size overrides. Fails only
    /// when the combined geometry leaves the machine-representable range.
    pub fn calc_layout(
        opts: &LayoutOptions,
        max_size: LogicalSize,
        children: Vec<UnresolvedLayout>,
    ) -> (r: Result<UnresolvedLayout, LayoutError>)
        requires
            opts.wf(),
            -MAX_ACC <= max_size.width <= MAX_ACC,
            -MAX_ACC <= max_size.height <= MAX_ACC,
            children_ok(children@),
            children_height_budget(children@) <= MAX_ACC,
        ensures
            r matches Ok(d) ==> {
                &&& combined_matches(*opts, max_size.width as int, children@, d)
                &&& child_ok(d)
                &&& d.wf()
            },
            r matches Err(e) ==> e == LayoutError::TooLarge,
            opts.width is Some && opts.height is Some ==> r is Ok,
    {
        match &opts.layout_ty {
            LayoutType::Text(mt) => {
                let info = TextLayoutInfo {
                    text: clone_measured(mt),
                    size: opts.text_size,
                    max_width: max_size.width,
                };
                Ok(UnresolvedLayout::Text(Rc::new(info)))
            },
            LayoutType::Inline => {
                let (kids, content) = inline_flow(opts, max_size, children);
                let mut outer_w = content.width + opts.padding.horizontal();
                let mut outer_h = content.height + opts.padding.vertical();
                match opts.width {
                    Some(w) => {
                        outer_w = w;
                    },
                    None => {},
                }
                match opts.height {
                    Some(h) => {
                        outer_h = h;
                    },
                    None => {},
                }
                if outer_w > MAX_ACC || outer_h > MAX_ACC {
                    return Err(LayoutError::TooLarge);
                }
                Ok(
                    UnresolvedLayout::Resolved(
                        Rc::new(
                            LayoutTreeNode {
                                size: LogicalSize { width: outer_w, height: outer_h },
                                render_text: None,
                                children: kids,
                            },
                        ),
                    ),
                )
            },
            LayoutType::List => {
                let (kids, content) = list_flow(opts, children);
                let mut outer_w = content.width + opts.padding.horizontal();
                let mut outer_h = content.height + opts.padding.vertical();
                match opts.width {
                    Some(w) => {
                        outer_w = w;
                    },
                    None => {},
                }
                match opts.height {
                    Some(h) => {
                        outer_h = h;
                    },
                    None => {},
                }
                if outer_w > MAX_ACC || outer_h > MAX_ACC {
                    return Err(LayoutError::TooLarge);
                }
                Ok(
                    UnresolvedLayout::Resolved(
                        Rc::new(
                            LayoutTreeNode {
                                size: LogicalSize { width: outer_w, height: outer_h },
                                render_text: None,
                                children: kids,
                            },
                        ),
                    ),
                )
            },
        }
    }

    /// Recursively lay out one element against its parent's max content
    /// size: resolve this node's max size, obtain each child's deferred
    /// result, and combine them through the node's flow. The combination
    /// step is memoized: an unchanged key returns the remembered result
    /// under its remembered handle, without recomputation.
    pub fn layout_child(&mut self, node: &Element, parent_max_size: LogicalSize) -> (r: Result<
        (UnresolvedLayout, u64),
        LayoutError,
    >)
        requires
            old(self).wf(),
            opts_wf_rec(*node),
            -MAX_ACC <= parent_max_size.width <= MAX_ACC,
            -MAX_ACC <= parent_max_size.height <= MAX_ACC,
        ensures
            final(self).wf(),
            old(self).extends(*final(self)),
            r matches Ok(p) ==> {
                &&& deferred_matches(
                    *node,
                    parent_max_size.width as int,
                    parent_max_size.height as int,
                    p.0,
                )
                &&& child_ok(p.0)
                &&& p.0.wf()
                &&& final(self).registered(p.1, p.0)
            },
            r matches Err(e) ==> e == LayoutError::TooLarge,
            final(self).id_count() <= old(self).id_count() + tree_size(*node),
            sized_tree(*node) && old(self).id_count() + tree_size(*node) <= u64::MAX ==> r is Ok,
        decreases *node,
    {
        let opts = &node.opts;
        let max_size = Self::calc_max_size(opts, parent_max_size);
        if max_size.width < -MAX_ACC || max_size.height < -MAX_ACC {
            return Err(LayoutError::TooLarge);
        }
        let ghost cw = max_size.width as int;
        let ghost ch = max_size.height as int;
        let mut cvec: Vec<UnresolvedLayout> = Vec::new();
        let mut ids: Vec<u64> = Vec::new();
        let is_text = match &opts.layout_ty {
            LayoutType::Text(_) => true,
            _ => false,
        };
        proof {
            assert(node.children@.skip(0) =~= node.children@);
        }
        if !is_text {
            let mut budget: i64 = 0;
            let mut i: usize = 0;
            while i < node.children.len()
                invariant
                    self.wf(),
                    opts_wf_rec(*node),
                    old(self).extends(*self),
                    self.next_id + forest_size(node.children@.skip(i as int)) <= old(
                        self,
                    ).next_id + forest_size(node.children@),
                    sized_tree(*node) ==> budget <= i as int * MAX_DIM,
                    cw == max_size.width as int,
                    ch == max_size.height as int,
                    -MAX_ACC <= max_size.width <= MAX_ACC,
                    -MAX_ACC <= max_size.height <= MAX_ACC,
                    0 <= i <= node.children@.len(),
                    cvec@.len() == i,
                    ids@.len() == i,
                    forall|j: int|
                        0 <= j < i ==> deferred_matches(
                            #[trigger] node.children@[j],
                            cw,
                            ch,
                            cvec@[j],
                        ),
                    children_ok(cvec@),
                    forall|j: int| 0 <= j < i ==> (#[trigger] cvec@[j]).wf(),
                    forall|j: int| 0 <= j < i ==> self.registered(#[trigger] ids@[j], cvec@[j]),
                    budget == children_height_budget(cvec@),
                    0 <= budget <= MAX_ACC,
                decreases node.children@.len() - i,
            {
                let ghost pre = *self;
                proof {
                    assert(node.children@.skip(i as int)[0] == node.children@[i as int]);
                    assert(node.children@.skip(i as int).drop_first() =~= node.children@.skip(
                        i as int + 1,
                    ));
                    if sized_tree(*node) {
                        assert(sized_tree(node.children@[i as int]));
                    }
                }
                let (d, id) = match self.layout_child(&node.children[i], max_size) {
                    Ok(p) => p,
                    Err(e) => {
                        proof {
                            if sized_tree(*node) && old(self).id_count() + tree_size(*node)
                                <= u64::MAX {
                                assert(pre.next_id + tree_size(node.children@[i as int])
                                    <= u64::MAX);
                                assert(false);
                            }
                        }
                        return Err(e);
                    },
                };
                proof {
                    assert forall|j: int| 0 <= j < i implies self.registered(
                        #[trigger] ids@[j],
                        cvec@[j],
                    ) by {
                        assert(pre.registered(ids@[j], cvec@[j]));
                        assert(pre.registry@.contains_key(ids@[j] as int));
                    }
                }
                let b: i64 = match &d {
                    UnresolvedLayout::Resolved(n) => n.size.height,
                    UnresolvedLayout::Text(t) => (t.text.text.len() as i64) * MAX_DIM,
                };
                proof {
                    if sized_tree(*node) {
                        let child = node.children@[i as int];
                        let cwc = spec_max_w(child.opts, cw);
                        let chc = spec_max_h(child.opts, ch);
                        let cv = choose|cv: Seq<UnresolvedLayout>|
                            {
                                &&& cv.len() == child.children@.len()
                                &&& (forall|j: int|
                                    0 <= j < cv.len() ==> deferred_matches(
                                        #[trigger] child.children@[j],
                                        cwc,
                                        chc,
                                        cv[j],
                                    ))
                                &&& combined_matches(child.opts, cwc, cv, d)
                            };
                        assert(combined_matches(child.opts, cwc, cv, d));
                        assert(b <= MAX_DIM);
                    }
                }
                budget = budget + b;
                if budget > MAX_ACC {
                    proof {
                        if sized_tree(*node) && old(self).id_count() + tree_size(*node)
                            <= u64::MAX {
                            assert(budget <= (i as int + 1) * MAX_DIM);
                            assert((i as int + 1) * MAX_DIM <= MAX_CHILDREN as int * MAX_DIM);
                            assert(false);
                        }
                    }
                    return Err(LayoutError::TooLarge);
                }
                proof {
                    lemma_budget_snoc(cvec@, d);
                }
                cvec.push(d);
                ids.push(id);
                i = i + 1;
            }
        }
        let ghost cvals = cvec@;
        let ghost gids = ids@;
        let key = LayoutInputs { opts: clone_options(opts), max_size, children: ids };
        let ghost gkey = key;
        let mut k: usize = 0;
        while k < self.entries.len()
            invariant
                self.wf(),
                opts_wf_rec(*node),
                old(self).extends(*self),
                cw == max_size.width as int,
                ch == max_size.height as int,
                -MAX_ACC <= max_size.width <= MAX_ACC,
                -MAX_ACC <= max_size.height <= MAX_ACC,
                0 <= k <= self.entries@.len(),
                !is_text ==> self.next_id <= old(self).next_id + forest_size(node.children@),
                is_text ==> self.next_id <= old(self).next_id,
                cw == spec_max_w(node.opts, parent_max_size.width as int),
                ch == spec_max_h(node.opts, parent_max_size.height as int),
                key == gkey,
                gkey.max_size == max_size,
                gkey.children@ == gids,
                opts_matches(gkey.opts, node.opts),
                opts_matches(node.opts, gkey.opts),
                is_text == (node.opts.layout_ty is Text),
                !is_text ==> cvals.len() == node.children@.len(),
                is_text ==> cvals.len() == 0,
                forall|j: int|
                    0 <= j < cvals.len() ==> deferred_matches(
                        #[trigger] node.children@[j],
                        cw,
                        ch,
                        cvals[j],
                    ),
                children_ok(cvals),
                forall|j: int| 0 <= j < cvals.len() ==> (#[trigger] cvals[j]).wf(),
                gids.len() == cvals.len(),
                forall|j: int| 0 <= j < gids.len() ==> self.registered(#[trigger] gids[j], cvals[j]),
                children_height_budget(cvals) <= MAX_ACC,
            decreases self.entries@.len() - k,
        {
            if self.entries[k].inputs.eq(&key) {
                let d = share_deferred(&self.entries[k].result);
                let rid = self.entries[k].result_id;
                proof {
                    let e = self.entries@[k as int];
                    assert(e.inputs.children@ == gids);
                    assert(self.key_values(e.inputs.children@) =~= cvals);
                    assert(opts_matches(e.inputs.opts, node.opts));
                    lemma_combined_congruence(e.inputs.opts, node.opts, cw, cvals, e.result);
                    assert(combined_matches(node.opts, cw, cvals, d));
                    if is_text {
                        assert(cvals =~= Seq::<UnresolvedLayout>::empty());
                        assert(combined_matches(node.opts, cw, Seq::empty(), d));
                    } else {
                        assert(cvals.len() == node.children@.len() && (forall|j: int|
                            0 <= j < cvals.len() ==> deferred_matches(
                                #[trigger] node.children@[j],
                                cw,
                                ch,
                                cvals[j],
                            )) && combined_matches(node.opts, cw, cvals, d));
                    }
                    assert(node.opts.wf());
                    assert(cw == spec_max_w(node.opts, parent_max_size.width as int));
                    assert(ch == spec_max_h(node.opts, parent_max_size.height as int));
                    assert(deferred_matches(
                        *node,
                        parent_max_size.width as int,
                        parent_max_size.height as int,
                        d,
                    ));
                }
                return Ok((d, rid));
            }
            k = k + 1;
        }
        if self.next_id == u64::MAX {
            proof {
                if sized_tree(*node) && old(self).id_count() + tree_size(*node) <= u64::MAX {
                    assert(self.next_id <= old(self).next_id + forest_size(node.children@));
                    assert(false);
                }
            }
            return Err(LayoutError::TooLarge);
        }
        let r = match Self::calc_layout(opts, max_size, cvec) {
            Ok(r) => r,
            Err(e) => {
                proof {
                    if sized_tree(*node) {
                        assert(false);
                    }
                }
                return Err(e);
            },
        };
        let ghost eng_pre = *self;
        let rid = self.next_id;
        self.next_id = self.next_id + 1;
        let stored = share_deferred(&r);
        proof {
            self.registry@ = self.registry@.insert(rid as int, r);
        }
        self.entries.push(MemoEntry { inputs: key, result: stored, result_id: rid });
        proof {
            let reg_pre = eng_pre.registry@;
            let reg_new = self.registry@;
            assert(reg_new == reg_pre.insert(rid as int, r));
            assert(self.entries@ =~= eng_pre.entries@.push(
                MemoEntry { inputs: gkey, result: stored, result_id: rid },
            ));
            assert forall|kk: int| 0 <= kk < self.entries@.len() implies {
                let e = #[trigger] self.entries@[kk];
                &&& e.result_id < self.next_id
                &&& self.registry@.contains_key(e.result_id as int)
                &&& self.registry@[e.result_id as int] == e.result
                &&& (forall|j: int|
                    0 <= j < e.inputs.children@.len() ==> self.registry@.contains_key(
                        (#[trigger] e.inputs.children@[j]) as int,
                    ) && e.inputs.children@[j] < self.next_id)
                &&& e.inputs.opts.wf()
                &&& combined_matches(
                    e.inputs.opts,
                    e.inputs.max_size.width as int,
                    self.key_values(e.inputs.children@),
                    e.result,
                )
                &&& child_ok(e.result)
                &&& e.result.wf()
            } by {
                let e = self.entries@[kk];
                if kk < eng_pre.entries@.len() {
                    assert(e == eng_pre.entries@[kk]);
                    assert(forall|j: int|
                        0 <= j < e.inputs.children@.len() ==> reg_pre.contains_key(
                            (#[trigger] e.inputs.children@[j]) as int,
                        ) && e.inputs.children@[j] < eng_pre.next_id);
                    assert(self.key_values(e.inputs.children@) =~= eng_pre.key_values(
                        e.inputs.children@,
                    ));
                    assert(combined_matches(
                        e.inputs.opts,
                        e.inputs.max_size.width as int,
                        eng_pre.key_values(e.inputs.children@),
                        e.result,
                    ));
                } else {
                    assert(e.inputs == gkey);
                    assert(e.result == stored);
                    assert(e.result_id == rid);
                    assert(e.inputs.children@ == gids);
                    assert forall|j: int| 0 <= j < gids.len() implies reg_new.contains_key(
                        (#[trigger] gids[j]) as int,
                    ) && gids[j] < self.next_id && reg_new[gids[j] as int] == cvals[j] by {
                        assert(eng_pre.registered(gids[j], cvals[j]));
                    }
                    assert(self.key_values(gids) =~= cvals);
                    lemma_combined_congruence(node.opts, gkey.opts, cw, cvals, r);
                    lemma_opts_wf_congruence(node.opts, gkey.opts);
                    assert(combined_matches(gkey.opts, cw, cvals, stored));
                }
            }
            assert forall|kx: int| #[trigger]
                self.registry@.contains_key(kx) implies 0 <= kx < self.next_id by {
                if kx != rid as int {
                    assert(eng_pre.registry@.contains_key(kx));
                }
            }
            assert(self.wf());
            if is_text {
                assert(cvals =~= Seq::<UnresolvedLayout>::empty());
                assert(combined_matches(node.opts, cw, Seq::empty(), r));
            }
            assert(cw == spec_max_w(node.opts, parent_max_size.width as int));
            assert(ch == spec_max_h(node.opts, parent_max_size.height as int));
            assert(deferred_matches(
                *node,
                parent_max_size.width as int,
                parent_max_size.height as int,
                r,
            ));
            assert(self.registered(rid, r));
        }
        Ok((r, rid))
    }

    /// One full pass: lay out every direct child of the root against the
    /// viewport's size, force-resolve any pending text (the root never
    /// participates in a line), and wrap the children in a node whose own
    /// size is the viewport, independent of content.
    pub fn run_layout(&mut self, root: &Element, size: LogicalSize) -> (r: Result<
        Rc<LayoutTreeNode>,
        LayoutError,
    >)
        requires
            old(self).wf(),
            -MAX_ACC <= size.width <= MAX_ACC,
            -MAX_ACC <= size.height <= MAX_ACC,
        ensures
            final(self).wf(),
            r == Err::<Rc<LayoutTreeNode>, LayoutError>(LayoutError::InvalidOptions)
                <==> !opts_wf_rec(*root),
            r matches Ok(n) ==> layout_ok(*root, size, *n),
            opts_wf_rec(*root) && (forall|i: int|
                0 <= i < root.children@.len() ==> sized_tree(#[trigger] root.children@[i]))
                && old(self).id_count() + forest_size(root.children@) <= u64::MAX ==> r is Ok,
    {
        if !validate_element(root) {
            return Err(LayoutError::InvalidOptions);
        }
        let mut kids: Vec<LayoutChild> = Vec::new();
        proof {
            assert(root.children@.skip(0) =~= root.children@);
        }
        let mut i: usize = 0;
        while i < root.children.len()
            invariant
                self.wf(),
                opts_wf_rec(*root),
                self.next_id + forest_size(root.children@.skip(i as int)) <= old(self).next_id
                    + forest_size(root.children@),
                -MAX_ACC <= size.width <= MAX_ACC,
                -MAX_ACC <= size.height <= MAX_ACC,
                0 <= i <= root.children@.len(),
                kids@.len() == i,
                forall|j: int|
                    0 <= j < i ==> {
                        &&& (#[trigger] kids@[j]).index == j
                        &&& kids@[j].position.x == 0
                        &&& kids@[j].position.y == 0
                        &&& exists|d: UnresolvedLayout|
                            deferred_matches(
                                root.children@[j],
                                size.width as int,
                                size.height as int,
                                d,
                            ) && resolve_post(d, kids@[j].layout)
                    },
            decreases root.children@.len() - i,
        {
            let ghost pre = *self;
            proof {
                assert(root.children@.skip(i as int)[0] == root.children@[i as int]);
                assert(root.children@.skip(i as int).drop_first() =~= root.children@.skip(
                    i as int + 1,
                ));
            }
            let d = match self.layout_child(&root.children[i], size) {
                Ok(p) => p.0,
                Err(e) => {
                    proof {
                        if (forall|j: int|
                            0 <= j < root.children@.len() ==> sized_tree(
                                #[trigger] root.children@[j],
                            )) && old(self).id_count() + forest_size(root.children@) <= u64::MAX {
                            assert(sized_tree(root.children@[i as int]));
                            assert(pre.id_count() + tree_size(root.children@[i as int])
                                <= u64::MAX);
                            assert(false);
                        }
                    }
                    return Err(e);
                },
            };
            let ghost dg = d;
            let sub = d.resolve();
            kids.push(LayoutChild { index: i, position: point2(0, 0), layout: sub });
            proof {
                assert(resolve_post(dg, kids@[i as int].layout));
            }
            i = i + 1;
        }
        Ok(Rc::new(LayoutTreeNode { size, render_text: None, children: kids }))
    }

    /// Perform a layout pass on the element tree against the viewport size
    /// and return a fresh (possibly shared) layout tree.
    pub fn layout(&mut self, node: &Element, size: LogicalSize) -> (r: Result<
        Rc<LayoutTreeNode>,
        LayoutError,
    >)
        requires
            old(self).wf(),
            -MAX_ACC <= size.width <= MAX_ACC,
            -MAX_ACC <= size.height <= MAX_ACC,
        ensures
            final(self).wf(),
            r == Err::<Rc<LayoutTreeNode>, LayoutError>(LayoutError::InvalidOptions)
                <==> !opts_wf_rec(*node),
            r matches Ok(n) ==> layout_ok(*node, size, *n),
            opts_wf_rec(*node) && (forall|i: int|
                0 <= i < node.children@.len() ==> sized_tree(#[trigger] node.children@[i]))
                && old(self).id_count() + forest_size(node.children@) <= u64::MAX ==> r is Ok,
    {
        self.run_layout(node, size)
    }
}

} // verus!
