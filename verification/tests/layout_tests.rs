use boxflow::engine::{Element, LayoutEngine, LayoutError, LayoutInputs};
use boxflow::geometry::{LogicalSideOffsets, LogicalSize};
use boxflow::text::{MeasuredText, MeasuredWord, TextLayoutInfo};
use boxflow::tree::{LayoutOptions, LayoutTreeNode, LayoutType, UnresolvedLayout};
use std::rc::Rc;

fn opts(layout_ty: LayoutType) -> LayoutOptions {
    LayoutOptions { layout_ty, ..LayoutOptions::default() }
}

fn boxed(width: i64, height: i64) -> Element {
    Element {
        opts: LayoutOptions {
            width: Some(width),
            height: Some(height),
            ..LayoutOptions::default()
        },
        children: vec![],
    }
}

fn word(start: usize, end: usize, width: i64, height: i64) -> MeasuredWord {
    MeasuredWord { start, end, width, height }
}

fn text_element(text: &[u8], words: Vec<MeasuredWord>) -> Element {
    Element {
        opts: opts(LayoutType::Text(MeasuredText { text: text.to_vec(), words })),
        children: vec![],
    }
}

fn viewport(w: i64, h: i64) -> LogicalSize {
    LogicalSize { width: w, height: h }
}

fn layout_root(root: Element, w: i64, h: i64) -> Rc<LayoutTreeNode> {
    let mut engine = LayoutEngine::new();
    engine.layout(&root, viewport(w, h)).expect("layout should succeed")
}

#[test]
fn default_options() {
    let d = LayoutOptions::default();
    assert_eq!(d.padding.top, 0);
    assert_eq!(d.padding.left, 0);
    assert!(d.width.is_none());
    assert!(d.height.is_none());
    assert_eq!(d.text_size, 16);
    assert!(matches!(d.layout_ty, LayoutType::List));
}

#[test]
fn root_node_keeps_viewport_size() {
    let root = Element { opts: LayoutOptions::default(), children: vec![boxed(100, 20)] };
    let tree = layout_root(root, 640, 480);
    assert_eq!(tree.size, viewport(640, 480));
    assert!(tree.render_text.is_none());
    assert_eq!(tree.children.len(), 1);
    assert_eq!(tree.children[0].index, 0);
    assert_eq!(tree.children[0].position.x, 0);
    assert_eq!(tree.children[0].position.y, 0);
}

#[test]
fn list_flow_stacks_children() {
    // List parent, zero padding, children sized 100 by 20 and 50 by 30:
    // the parent content is (100, 50) and the second child sits at (0, 20).
    let parent = Element {
        opts: opts(LayoutType::List),
        children: vec![boxed(100, 20), boxed(50, 30)],
    };
    let root = Element { opts: LayoutOptions::default(), children: vec![parent] };
    let tree = layout_root(root, 1000, 1000);
    let parent_node = &tree.children[0].layout;
    assert_eq!(parent_node.size, viewport(100, 50));
    assert_eq!(parent_node.children.len(), 2);
    assert_eq!(parent_node.children[0].position.x, 0);
    assert_eq!(parent_node.children[0].position.y, 0);
    assert_eq!(parent_node.children[0].layout.size, viewport(100, 20));
    assert_eq!(parent_node.children[1].index, 1);
    assert_eq!(parent_node.children[1].position.x, 0);
    assert_eq!(parent_node.children[1].position.y, 20);
    assert_eq!(parent_node.children[1].layout.size, viewport(50, 30));
}

#[test]
fn list_flow_additivity_three_children() {
    let mut o = opts(LayoutType::List);
    o.padding = LogicalSideOffsets { top: 7, right: 7, bottom: 7, left: 7 };
    let parent = Element { opts: o, children: vec![boxed(10, 5), boxed(30, 6), boxed(20, 7)] };
    let root = Element { opts: LayoutOptions::default(), children: vec![parent] };
    let tree = layout_root(root, 1000, 1000);
    let parent_node = &tree.children[0].layout;
    // Content is (30, 18); the outer size adds the padding on both axes.
    assert_eq!(parent_node.size, viewport(30 + 14, 18 + 14));
    // First child's origin is (padding.left, padding.top); each next child
    // moves down by the heights before it.
    assert_eq!(parent_node.children[0].position.x, 7);
    assert_eq!(parent_node.children[0].position.y, 7);
    assert_eq!(parent_node.children[1].position.y, 7 + 5);
    assert_eq!(parent_node.children[2].position.y, 7 + 11);
}

#[test]
fn inline_flow_wraps_boxes() {
    // Inline parent, max width 100, two boxes of width 60: the second
    // wraps, since 60 + 60 exceeds 100.
    let mut o = opts(LayoutType::Inline);
    o.width = Some(100);
    let parent = Element { opts: o, children: vec![boxed(60, 10), boxed(60, 12)] };
    let root = Element { opts: LayoutOptions::default(), children: vec![parent] };
    let tree = layout_root(root, 1000, 1000);
    let parent_node = &tree.children[0].layout;
    assert_eq!(parent_node.children.len(), 2);
    assert_eq!(parent_node.children[0].position.x, 0);
    assert_eq!(parent_node.children[0].position.y, 0);
    assert_eq!(parent_node.children[1].position.x, 0);
    assert_eq!(parent_node.children[1].position.y, 10);
    // Width is pinned by the explicit option; the content height stacks
    // the two lines.
    assert_eq!(parent_node.size.width, 100);
    assert_eq!(parent_node.size.height, 22);
}

#[test]
fn inline_flow_single_line_text() {
    // Inline parent, max width 1000, text "a b c" where each word
    // measures 20 units with no inter-word gap: a single line, one
    // fragment spanning the string, width 60.
    let mut o = opts(LayoutType::Inline);
    o.width = Some(1000);
    let words = vec![word(0, 1, 20, 10), word(2, 3, 20, 10), word(4, 5, 20, 10)];
    let parent = Element { opts: o, children: vec![text_element(b"a b c", words)] };
    let root = Element { opts: LayoutOptions::default(), children: vec![parent] };
    let tree = layout_root(root, 2000, 2000);
    let parent_node = &tree.children[0].layout;
    assert_eq!(parent_node.children.len(), 1);
    let frag = &parent_node.children[0];
    assert_eq!(frag.index, 0);
    assert_eq!(frag.position.x, 0);
    assert_eq!(frag.position.y, 0);
    assert_eq!(frag.layout.size, viewport(60, 10));
    let rt = frag.layout.render_text.as_ref().expect("text fragment");
    assert_eq!(rt.text, b"a b c".to_vec());
    assert_eq!(rt.size, 16);
    assert_eq!(parent_node.size.height, 10);
}

#[test]
fn forced_resolution_wraps_and_overflows_overwide_word() {
    // A text node under a list parent is force-resolved: it wraps across
    // stacked lines, each within the max width except the one unbreakable
    // over-wide word, which overflows on its own line without looping.
    let mut o = opts(LayoutType::List);
    o.width = Some(50);
    let words =
        vec![word(0, 2, 30, 10), word(3, 5, 30, 10), word(6, 11, 90, 10), word(12, 14, 30, 10)];
    let parent = Element { opts: o, children: vec![text_element(b"aa bb ccccc dd", words)] };
    let root = Element { opts: LayoutOptions::default(), children: vec![parent] };
    let tree = layout_root(root, 1000, 1000);
    let parent_node = &tree.children[0].layout;
    let text_block = &parent_node.children[0].layout;
    // Four lines: 30, 30, 90 (overflow), 30; the widest is the forced
    // over-wide word.
    assert_eq!(text_block.size, viewport(90, 40));
    assert!(text_block.render_text.is_none());
    assert!(text_block.children.is_empty());
}

#[test]
fn inline_text_wraps_between_boxes() {
    // A box, then text that no longer fits on the line: the text fragment
    // drops to a fresh line below the box.
    let mut o = opts(LayoutType::Inline);
    o.width = Some(100);
    let words = vec![word(0, 4, 60, 8)];
    let parent = Element { opts: o, children: vec![boxed(80, 12), text_element(b"word", words)] };
    let root = Element { opts: LayoutOptions::default(), children: vec![parent] };
    let tree = layout_root(root, 1000, 1000);
    let parent_node = &tree.children[0].layout;
    assert_eq!(parent_node.children.len(), 2);
    assert_eq!(parent_node.children[1].position.x, 0);
    assert_eq!(parent_node.children[1].position.y, 12);
    assert_eq!(parent_node.size.height, 12 + 8);
}

#[test]
fn explicit_size_overrides_content() {
    let mut o = opts(LayoutType::List);
    o.width = Some(123);
    o.height = Some(45);
    let parent = Element { opts: o, children: vec![boxed(300, 300)] };
    let root = Element { opts: LayoutOptions::default(), children: vec![parent] };
    let tree = layout_root(root, 1000, 1000);
    let parent_node = &tree.children[0].layout;
    assert_eq!(parent_node.size, viewport(123, 45));
}

#[test]
fn padding_without_explicit_size() {
    let mut o = opts(LayoutType::Inline);
    o.padding = LogicalSideOffsets { top: 3, right: 4, bottom: 5, left: 6 };
    let parent = Element { opts: o, children: vec![boxed(10, 20)] };
    let root = Element { opts: LayoutOptions::default(), children: vec![parent] };
    let tree = layout_root(root, 1000, 1000);
    let parent_node = &tree.children[0].layout;
    // First child's origin is (padding.left, padding.top); the outer size
    // is the content plus the padding sums.
    assert_eq!(parent_node.children[0].position.x, 6);
    assert_eq!(parent_node.children[0].position.y, 3);
    assert_eq!(parent_node.size, viewport(10 + 6 + 4, 20 + 3 + 5));
}

#[test]
fn degenerate_padding_propagates() {
    // Padding exceeding the available space is not rejected; it produces
    // degenerate geometry (the content max width becomes negative and
    // every box wraps onto its own line).
    let mut o = opts(LayoutType::Inline);
    o.width = Some(10);
    o.padding = LogicalSideOffsets { top: 0, right: 20, bottom: 0, left: 20 };
    let parent = Element { opts: o, children: vec![boxed(5, 5), boxed(5, 5)] };
    let root = Element { opts: LayoutOptions::default(), children: vec![parent] };
    let tree = layout_root(root, 1000, 1000);
    let parent_node = &tree.children[0].layout;
    assert_eq!(parent_node.children[0].position.y, 0);
    assert_eq!(parent_node.children[1].position.y, 5);
}

#[test]
fn idempotent_layout_passes() {
    // An unchanged element tree and viewport produce bit-identical sizes
    // and positions on repeated calls of the same engine.
    let mut o = opts(LayoutType::Inline);
    o.width = Some(100);
    let words = vec![word(0, 1, 20, 10), word(2, 3, 20, 10)];
    let parent = Element {
        opts: o,
        children: vec![boxed(60, 10), text_element(b"a b", words), boxed(30, 4)],
    };
    let root = Element { opts: LayoutOptions::default(), children: vec![parent] };
    let mut engine = LayoutEngine::new();
    let first = engine.layout(&root, viewport(500, 500)).expect("first pass");
    let second = engine.layout(&root, viewport(500, 500)).expect("second pass");
    assert_eq!(first.size, second.size);
    let a = &first.children[0].layout;
    let b = &second.children[0].layout;
    assert_eq!(a.size, b.size);
    assert_eq!(a.children.len(), b.children.len());
    for (ca, cb) in a.children.iter().zip(b.children.iter()) {
        assert_eq!(ca.index, cb.index);
        assert_eq!(ca.position, cb.position);
        assert_eq!(ca.layout.size, cb.layout.size);
    }
}

#[test]
fn invalid_options_are_reported() {
    let mut o = opts(LayoutType::List);
    o.padding = LogicalSideOffsets { top: -1, right: 0, bottom: 0, left: 0 };
    let root = Element { opts: LayoutOptions::default(), children: vec![Element {
        opts: o,
        children: vec![],
    }] };
    let mut engine = LayoutEngine::new();
    let r = engine.layout(&root, viewport(100, 100));
    assert_eq!(r.unwrap_err(), LayoutError::InvalidOptions);
}

#[test]
fn zero_text_size_is_invalid() {
    let mut o = opts(LayoutType::Text(MeasuredText { text: vec![], words: vec![] }));
    o.text_size = 0;
    let root =
        Element { opts: LayoutOptions::default(), children: vec![Element { opts: o, children: vec![] }] };
    let mut engine = LayoutEngine::new();
    assert_eq!(engine.layout(&root, viewport(100, 100)).unwrap_err(), LayoutError::InvalidOptions);
}

#[test]
fn empty_text_produces_no_fragments() {
    let mut o = opts(LayoutType::Inline);
    o.width = Some(100);
    let parent = Element { opts: o, children: vec![text_element(b"", vec![])] };
    let root = Element { opts: LayoutOptions::default(), children: vec![parent] };
    let tree = layout_root(root, 1000, 1000);
    let parent_node = &tree.children[0].layout;
    assert_eq!(parent_node.children.len(), 0);
    assert_eq!(parent_node.size.height, 0);
}

#[test]
fn trailing_whitespace_terminates() {
    // Text ending in whitespace must not loop; the tail becomes one empty
    // fragment on a committed line.
    let mut o = opts(LayoutType::Inline);
    o.width = Some(100);
    let parent = Element { opts: o, children: vec![text_element(b"a   ", vec![word(0, 1, 20, 10)])] };
    let root = Element { opts: LayoutOptions::default(), children: vec![parent] };
    let tree = layout_root(root, 1000, 1000);
    let parent_node = &tree.children[0].layout;
    assert_eq!(parent_node.children.len(), 2);
    let rt = parent_node.children[0].layout.render_text.as_ref().unwrap();
    assert_eq!(rt.text, b"a".to_vec());
    let tail = parent_node.children[1].layout.render_text.as_ref().unwrap();
    assert_eq!(tail.text, Vec::<u8>::new());
}

#[test]
fn memo_key_equality() {
    let a = LayoutInputs {
        opts: LayoutOptions::default(),
        max_size: viewport(100, 200),
        children: vec![1, 2, 3],
    };
    let b = LayoutInputs {
        opts: LayoutOptions::default(),
        max_size: viewport(100, 200),
        children: vec![1, 2, 3],
    };
    let c = LayoutInputs {
        opts: LayoutOptions::default(),
        max_size: viewport(100, 200),
        children: vec![1, 2, 4],
    };
    let mut d = LayoutInputs {
        opts: LayoutOptions::default(),
        max_size: viewport(100, 201),
        children: vec![1, 2, 3],
    };
    assert!(a.eq(&b));
    assert!(!a.eq(&c));
    assert!(!a.eq(&d));
    d.max_size = viewport(100, 200);
    d.opts.text_size = 17;
    assert!(!a.eq(&d));
}

#[test]
fn resolve_breaks_pending_text() {
    let info = TextLayoutInfo {
        text: MeasuredText {
            text: b"aa bb".to_vec(),
            words: vec![word(0, 2, 30, 10), word(3, 5, 30, 10)],
        },
        size: 16,
        max_width: 40,
    };
    let node = UnresolvedLayout::Text(Rc::new(info)).resolve();
    // One word per line: two stacked lines of height 10, widest 30.
    assert_eq!(node.size.width, 30);
    assert_eq!(node.size.height, 20);
    assert!(node.render_text.is_none());
    assert!(node.children.is_empty());
}

#[test]
fn inline_text_continues_on_same_line() {
    // A box, then text that still fits: the fragment is placed at the
    // cursor, on the same line, and the fragments do not overlap.
    let mut o = opts(LayoutType::Inline);
    o.width = Some(100);
    let words = vec![word(0, 4, 20, 8)];
    let parent = Element { opts: o, children: vec![boxed(30, 12), text_element(b"word", words)] };
    let root = Element { opts: LayoutOptions::default(), children: vec![parent] };
    let tree = layout_root(root, 1000, 1000);
    let parent_node = &tree.children[0].layout;
    assert_eq!(parent_node.children.len(), 2);
    assert_eq!(parent_node.children[1].position.x, 30);
    assert_eq!(parent_node.children[1].position.y, 0);
    // The line's height is the tallest member; the content width is the
    // cursor after both.
    assert_eq!(parent_node.size.height, 12);
    assert_eq!(parent_node.size.width, 100);
}
