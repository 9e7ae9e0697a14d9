//! Nesting chunks by depth.

use locus::nest::{nest_chunks, ChunkPointer};

fn ptr(chunk_id: u32, byte_start: u32, byte_end: u32, depth: u8, label: &str) -> ChunkPointer {
    ChunkPointer {
        chunk_id,
        kind: "Section".to_string(),
        byte_start,
        byte_end,
        label: Some(label.to_string()),
        depth,
        children: vec![],
    }
}

fn ptr_kind(chunk_id: u32, byte_start: u32, byte_end: u32, depth: u8, kind: &str) -> ChunkPointer {
    ChunkPointer {
        chunk_id,
        kind: kind.to_string(),
        byte_start,
        byte_end,
        label: None,
        depth,
        children: vec![],
    }
}

#[test]
fn empty_input() {
    let result = nest_chunks(vec![]);
    assert!(result.is_empty());
}

#[test]
fn only_body_chunks_are_flat_roots() {
    // All depth-0 chunks → all remain roots, no nesting
    let flat = vec![
        ptr_kind(1, 0, 100, 0, "Frontmatter"),
        ptr_kind(2, 100, 500, 0, "Body"),
    ];
    let nested = nest_chunks(flat);
    assert_eq!(nested.len(), 2);
    assert!(nested[0].children.is_empty());
    assert!(nested[1].children.is_empty());
}

#[test]
fn simple_h1_h2_h3_hierarchy() {
    // H1 → H2 → H3
    let flat = vec![
        ptr(1, 0, 400, 1, "Intro"),
        ptr(2, 50, 300, 2, "Sub"),
        ptr(3, 100, 200, 3, "SubSub"),
    ];
    let nested = nest_chunks(flat);
    assert_eq!(nested.len(), 1, "one root");
    assert_eq!(nested[0].chunk_id, 1);
    assert_eq!(nested[0].children.len(), 1);
    assert_eq!(nested[0].children[0].chunk_id, 2);
    assert_eq!(nested[0].children[0].children.len(), 1);
    assert_eq!(nested[0].children[0].children[0].chunk_id, 3);
}

#[test]
fn skipped_levels_h1_then_h3() {
    // H1 at depth 1, then H3 at depth 3 (no H2) — H3 is child of H1
    let flat = vec![
        ptr(1, 0, 400, 1, "Title"),
        ptr(2, 50, 300, 3, "Deep"),
    ];
    let nested = nest_chunks(flat);
    assert_eq!(nested.len(), 1);
    assert_eq!(nested[0].children.len(), 1);
    assert_eq!(nested[0].children[0].chunk_id, 2);
}

#[test]
fn depth_drops_by_more_than_one() {
    // H3 then H1 — H1 becomes a new root
    let flat = vec![
        ptr(1, 0, 50, 1, "A"),
        ptr(2, 50, 150, 3, "Deep"),
        ptr(3, 150, 300, 1, "B"),
    ];
    let nested = nest_chunks(flat);
    assert_eq!(nested.len(), 2, "two roots");
    assert_eq!(nested[0].chunk_id, 1);
    assert_eq!(nested[0].children.len(), 1);
    assert_eq!(nested[0].children[0].chunk_id, 2);
    assert_eq!(nested[1].chunk_id, 3);
    assert!(nested[1].children.is_empty());
}

#[test]
fn multiple_same_depth_roots() {
    // Three H1 sections — all become roots
    let flat = vec![
        ptr(1, 0, 100, 1, "A"),
        ptr(2, 100, 200, 1, "B"),
        ptr(3, 200, 300, 1, "C"),
    ];
    let nested = nest_chunks(flat);
    assert_eq!(nested.len(), 3);
    for n in &nested {
        assert!(n.children.is_empty());
    }
}

#[test]
fn equal_depths_are_siblings() {
    // H1 containing two H2 siblings
    let flat = vec![
        ptr(1, 0, 500, 1, "Root"),
        ptr(2, 50, 200, 2, "Child A"),
        ptr(3, 200, 400, 2, "Child B"),
    ];
    let nested = nest_chunks(flat);
    assert_eq!(nested.len(), 1);
    assert_eq!(nested[0].children.len(), 2);
    assert_eq!(nested[0].children[0].chunk_id, 2);
    assert_eq!(nested[0].children[1].chunk_id, 3);
}

#[test]
fn code_file_class_and_methods() {
    // The code parser starts scope depth at 0: a top-level impl/class is
    // depth 0 and its methods are depth 1. Structural depth-0 chunks CAN
    // parent (unlike Frontmatter/Body).
    let flat = vec![
        ptr_kind(1, 0, 500, 0, "Class"),
        ptr_kind(2, 50, 200, 1, "Method"),
        ptr_kind(3, 200, 400, 1, "Method"),
    ];
    let nested = nest_chunks(flat);
    assert_eq!(nested.len(), 1, "class is root");
    assert_eq!(nested[0].children.len(), 2, "two methods as children");
}

#[test]
fn code_file_toplevel_item_after_methods_is_new_root() {
    // impl block (depth 0) with two methods (depth 1), then a top-level
    // function (depth 0) — the function must close the impl scope and
    // become a sibling root, not a child.
    let flat = vec![
        ptr_kind(1, 0, 300, 0, "Class"),
        ptr_kind(2, 50, 150, 1, "Method"),
        ptr_kind(3, 150, 290, 1, "Method"),
        ptr_kind(4, 300, 400, 0, "Function"),
    ];
    let nested = nest_chunks(flat);
    assert_eq!(nested.len(), 2, "impl and function are sibling roots");
    assert_eq!(nested[0].children.len(), 2);
    assert_eq!(nested[1].chunk_id, 4);
    assert!(nested[1].children.is_empty());
}

#[test]
fn body_never_parents_sections() {
    // Pre-heading Body prose (depth 0) followed by an H1 — the H1 must be
    // a root, not a child of the Body chunk.
    let flat = vec![
        ptr_kind(1, 0, 50, 0, "Body"),
        ptr(2, 50, 400, 1, "Title"),
    ];
    let nested = nest_chunks(flat);
    assert_eq!(nested.len(), 2);
    assert!(nested[0].children.is_empty());
    assert_eq!(nested[1].chunk_id, 2);
}

#[test]
fn unsorted_input_gets_sorted_by_byte_start() {
    // Provide input out of order — output must be in document order
    let flat = vec![
        ptr(3, 200, 300, 2, "Sub"),
        ptr(1, 0, 400, 1, "Root"),
        ptr(2, 50, 200, 2, "Sub2"),
    ];
    let nested = nest_chunks(flat);
    // After sorting: chunk 1 (0..400) → root; chunk 2 (50..200) → child;
    // chunk 3 (200..300) → sibling child
    assert_eq!(nested.len(), 1);
    assert_eq!(nested[0].chunk_id, 1);
    assert_eq!(nested[0].children.len(), 2);
    assert_eq!(nested[0].children[0].chunk_id, 2);
    assert_eq!(nested[0].children[1].chunk_id, 3);
}

#[test]
fn frontmatter_plus_sections() {
    // Frontmatter (depth 0) then H1 (depth 1) then H2 (depth 2)
    let flat = vec![
        ptr_kind(1, 0, 30, 0, "Frontmatter"),
        ptr(2, 30, 400, 1, "Title"),
        ptr(3, 60, 300, 2, "Sub"),
    ];
    let nested = nest_chunks(flat);
    // Frontmatter: root (depth 0, never parent)
    // Title (H1): root
    // Sub (H2): child of Title
    assert_eq!(nested.len(), 2);
    assert_eq!(nested[0].chunk_id, 1);
    assert!(nested[0].children.is_empty());
    assert_eq!(nested[1].chunk_id, 2);
    assert_eq!(nested[1].children.len(), 1);
    assert_eq!(nested[1].children[0].chunk_id, 3);
}
