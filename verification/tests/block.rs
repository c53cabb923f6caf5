use ags::mermaid::block::parser::parse;
use ags::mermaid::block::types::{Diagram, Edge};

fn placed(source: &str) -> Vec<(String, String, usize, usize)> {
    parse(source)
        .blocks
        .into_iter()
        .map(|b| (b.id, b.label, b.col, b.row))
        .collect()
}

#[test]
fn a_row_fills_its_cells_left_to_right() {
    assert_eq!(
        placed("block-beta\nA[\"First\"] B[\"Second\"]"),
        [
            ("A".into(), "First".into(), 0, 0),
            ("B".into(), "Second".into(), 1, 0),
        ]
    );
}

#[test]
fn a_space_holds_its_slot_open_without_drawing() {
    let blocks = placed("block-beta\nA space B");
    assert_eq!(blocks.len(), 2);
    // B is in the third cell, not the second.
    assert_eq!(blocks[1].2, 2);
}

#[test]
fn a_bare_id_is_its_own_label() {
    assert_eq!(
        placed("block-beta\nAlpha"),
        [("Alpha".into(), "Alpha".into(), 0, 0)]
    );
}

#[test]
fn rows_advance_only_on_cell_lines() {
    let blocks = placed("block-beta\ncolumns 2\nA B\nA --> B\nC D");
    assert_eq!(blocks[2].3, 1, "the edge line is not a row: {blocks:?}");
}

#[test]
fn columns_reads_and_never_falls_below_one() {
    assert_eq!(parse("block-beta\ncolumns 4").columns, 4);
    assert_eq!(parse("block-beta\ncolumns 0").columns, 1);
    assert_eq!(parse("block-beta").columns, 1);
}

#[test]
fn an_edge_reads_by_id_with_any_spacing() {
    assert_eq!(
        parse("block-beta\nA-->B\nC --> D").edges,
        [
            Edge {
                source: "A".into(),
                target: "B".into()
            },
            Edge {
                source: "C".into(),
                target: "D".into()
            },
        ]
    );
}

#[test]
fn a_half_written_wire_is_a_row_of_cells_rather_than_an_edge() {
    assert!(parse("block-beta\nA -->").edges.is_empty());
    assert!(parse("block-beta\n--> B").edges.is_empty());
    assert!(parse("block-beta\nA -- B").edges.is_empty());
    assert_eq!(placed("block-beta\nA -->")[0].0, "A");
}

#[test]
fn a_named_block_called_space_is_still_a_block() {
    assert_eq!(placed("block-beta\nspace[\"Gap\"]").len(), 1);
}

#[test]
fn an_unclosed_label_falls_back_to_the_bare_id() {
    let blocks = placed("block-beta\nA[\"unterminated");
    assert_eq!(blocks.len(), 2);
    assert_eq!(blocks[0].0, "A");
    assert_eq!(blocks[1].0, "unterminated");
}

#[test]
fn a_comment_is_stripped_before_the_line_is_read() {
    assert_eq!(placed("block-beta\nA B %% two cells").len(), 2);
    assert!(placed("block-beta\n%% nothing here").is_empty());
}

#[test]
fn the_header_is_skipped_but_a_word_starting_with_block_is_not() {
    assert!(parse("block-beta").blocks.is_empty());
    assert!(parse("block").blocks.is_empty());
    assert_eq!(placed("block-beta\nblocks")[0].0, "blocks");
}

#[test]
fn nothing_in_yields_an_empty_grid() {
    assert_eq!(parse(""), Diagram::default());
}

#[test]
fn a_hole_is_told_apart_from_a_block_whatever_its_case() {
    let blocks = placed("block-beta\nA SPACE Space B");
    assert_eq!(blocks.len(), 2);
    assert_eq!(blocks[1], ("B".into(), "B".into(), 3, 0));
}

#[test]
fn blocks_come_out_row_by_row_and_left_to_right() {
    let blocks = placed("block-beta\ncolumns 3\nA space B\nC\nD E[\"Five\"]");
    let at: Vec<(usize, usize)> = blocks.iter().map(|b| (b.3, b.2)).collect();
    assert_eq!(at, [(0, 0), (0, 2), (1, 0), (2, 0), (2, 1)]);
    assert_eq!(blocks[4].1, "Five");
}

#[test]
fn a_width_that_is_not_a_number_leaves_the_line_to_the_cells() {
    let d = parse("block-beta\ncolumns x");
    assert_eq!(d.columns, 1);
    assert_eq!(d.blocks.len(), 2);
    assert_eq!(parse("block-beta\ncolumns +3").columns, 3);
}
