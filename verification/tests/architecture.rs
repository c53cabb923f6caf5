use ags::mermaid::architecture::grid::{free_near, place, Cell, Link};
use ags::mermaid::architecture::layout::{
    children_of, depth_of, links, parent_of, step_of, under,
};
use ags::mermaid::architecture::parser::{
    after_keyword, bracketed, declaration, edge, endpoint, find_arrow, name, parse,
};
use ags::mermaid::architecture::route::{landings, sides, total};
use ags::mermaid::architecture::types::{Diagram, Edge, Item, Kind, Side};

#[test]
fn a_keyword_has_to_be_a_whole_word() {
    assert_eq!(after_keyword("group cloud", "group"), Some("cloud"));
    assert_eq!(after_keyword("grouped cloud", "group"), None);
    assert_eq!(after_keyword("group", "group"), None);
}

#[test]
fn a_name_stops_at_the_first_character_it_cannot_hold() {
    assert_eq!(
        name("cloud(cloud)[Cloud]"),
        Some(("cloud", "(cloud)[Cloud]"))
    );
    assert_eq!(name("web_1 in net"), Some(("web_1", "in net")));
    assert_eq!(name("(nothing)"), None);
    assert_eq!(name(""), None);
}

#[test]
fn a_bracketed_run_is_taken_only_when_it_opens_the_text() {
    assert_eq!(bracketed("(cloud)[Cloud]", '(', ')'), ("cloud", "[Cloud]"));
    assert_eq!(bracketed("[Cloud]", '(', ')'), ("", "[Cloud]"));
    assert_eq!(bracketed("(cloud", '(', ')'), ("", "(cloud"));
    assert_eq!(bracketed("()rest", '(', ')'), ("", "rest"));
}

#[test]
fn a_group_is_read_with_its_glyph_its_title_and_its_parent() {
    let item = declaration(
        "group region(server)[Region A] in cloud",
        "group",
        Kind::Group,
    )
    .expect("a group");
    assert_eq!(item.id, "region");
    assert_eq!(item.kind, Kind::Group);
    assert_eq!(item.icon, "server");
    assert_eq!(item.title, "Region A");
    assert_eq!(item.parent, "cloud");
}

#[test]
fn everything_after_the_name_is_optional() {
    let bare = declaration("group cloud", "group", Kind::Group).expect("a group");
    assert_eq!(bare.icon, "");
    assert_eq!(bare.title, "cloud");
    assert_eq!(bare.parent, "");
    let titled = declaration("service db[DB]", "service", Kind::Service).expect("a service");
    assert_eq!(titled.title, "DB");
    assert_eq!(titled.icon, "");
    let junction = declaration("junction j in net", "junction", Kind::Junction).expect("one");
    assert_eq!(junction.id, "j");
    assert_eq!(junction.parent, "net");
}

#[test]
fn a_declaration_of_another_kind_is_not_read_as_this_one() {
    assert_eq!(declaration("service web", "group", Kind::Group), None);
    assert_eq!(declaration("group", "group", Kind::Group), None);
}

#[test]
fn every_arrow_is_found_and_the_longest_wins() {
    assert_eq!(find_arrow("a:R -- L:b"), Some((4, "--")));
    assert_eq!(find_arrow("a:R --> L:b"), Some((4, "-->")));
    assert_eq!(find_arrow("a <--> b"), Some((2, "<-->")));
    assert_eq!(find_arrow("a:R<--L:b"), Some((3, "<--")));
    assert_eq!(find_arrow("a b"), None);
}

#[test]
fn an_endpoint_reads_its_side_from_whichever_end_it_is() {
    assert_eq!(
        endpoint("web:R", false),
        Some(("web".to_string(), Some(Side::Right)))
    );
    assert_eq!(
        endpoint(" L:db", true),
        Some(("db".to_string(), Some(Side::Left)))
    );
    assert_eq!(endpoint("web", false), Some(("web".to_string(), None)));
    assert_eq!(endpoint("db", true), Some(("db".to_string(), None)));
    assert_eq!(
        endpoint("web{cloud}:R", false),
        Some(("web".to_string(), Some(Side::Right)))
    );
    assert_eq!(endpoint("", false), None);
}

#[test]
fn an_edge_carries_both_sides_and_both_arrowheads() {
    let plain = edge("web:R -- L:db").expect("an edge");
    assert_eq!(plain.from, "web");
    assert_eq!(plain.from_side, Some(Side::Right));
    assert_eq!(plain.to, "db");
    assert_eq!(plain.to_side, Some(Side::Left));
    assert!(!plain.arrow_start);
    assert!(!plain.arrow_end);
    let directed = edge("cdn:L --> T:web").expect("an edge");
    assert!(directed.arrow_end);
    assert!(!directed.arrow_start);
    let back = edge("a <-- b").expect("an edge");
    assert!(back.arrow_start);
    assert!(!back.arrow_end);
    let both = edge("a <--> b").expect("an edge");
    assert!(both.arrow_start && both.arrow_end);
}

#[test]
fn a_line_with_no_arrow_is_not_an_edge() {
    assert_eq!(edge("service web"), None);
    assert_eq!(edge("web db"), None);
}

#[test]
fn a_whole_diagram_reads_in_declaration_order() {
    let diagram = parse(
        "architecture-beta\n    group cloud(cloud)[Cloud]\n    service web(server)[Web] in cloud\n    service db(database)[DB] in cloud\n    web:R -- L:db",
    );
    assert_eq!(
        diagram
            .items
            .iter()
            .map(|item| item.id.clone())
            .collect::<Vec<String>>(),
        ["cloud", "web", "db"]
    );
    assert_eq!(diagram.items.first().expect("a group").kind, Kind::Group);
    assert_eq!(diagram.edges.len(), 1);
}

#[test]
fn the_header_is_skipped_with_or_without_its_suffix() {
    assert_eq!(parse("architecture-beta\n  service a").items.len(), 1);
    assert_eq!(parse("architecture\n  service a").items.len(), 1);
}

#[test]
fn comments_blank_lines_and_nonsense_are_stepped_over() {
    let diagram = parse(
        "architecture-beta\n\n  %% a note\n  service a\n  ??? nothing ???\n  service b\n  a -- b",
    );
    assert_eq!(diagram.items.len(), 2);
    assert_eq!(diagram.edges.len(), 1);
}

#[test]
fn every_side_is_read_from_the_letter_it_is_written_as() {
    for (letter, side) in [
        ('L', Side::Left),
        ('r', Side::Right),
        ('T', Side::Top),
        ('b', Side::Bottom),
    ] {
        assert_eq!(Side::from_letter(letter), Some(side));
    }
    assert_eq!(Side::from_letter('x'), None);
    assert_eq!(Side::Left.token(), "L");
    assert_eq!(Side::Right.token(), "R");
    assert_eq!(Side::Top.token(), "T");
    assert_eq!(Side::Bottom.token(), "B");
}

#[test]
fn a_side_faces_away_from_the_box_it_belongs_to() {
    assert_eq!(Side::Left.step(), (-1, 0));
    assert_eq!(Side::Right.step(), (1, 0));
    assert_eq!(Side::Top.step(), (0, -1));
    assert_eq!(Side::Bottom.step(), (0, 1));
}

#[test]
fn opposite_sides_face_opposite_ways_and_come_back_round() {
    for side in [Side::Left, Side::Right, Side::Top, Side::Bottom] {
        assert_eq!(side.opposite().opposite(), side);
        let (dx, dy) = side.step();
        assert_eq!(side.opposite().step(), (-dx, -dy));
        assert_eq!(side.across(), side.opposite().across());
    }
    assert!(Side::Left.across());
    assert!(!Side::Top.across());
}

fn item(id: &str, kind: Kind, parent: &str) -> Item {
    Item {
        id: id.into(),
        kind,
        icon: String::new(),
        title: id.into(),
        parent: parent.into(),
    }
}

#[test]
fn a_diagram_finds_a_thing_by_the_name_it_was_given() {
    let diagram = Diagram {
        items: vec![
            Item {
                id: "cloud".into(),
                kind: Kind::Group,
                icon: "cloud".into(),
                title: "Cloud".into(),
                parent: String::new(),
            },
            Item {
                id: "web".into(),
                kind: Kind::Service,
                icon: "server".into(),
                title: "Web".into(),
                parent: "cloud".into(),
            },
        ],
        edges: Vec::new(),
    };
    assert_eq!(diagram.index_of("web"), Some(1));
    assert_eq!(diagram.index_of("db"), None);
}

fn side_edge(from: Option<Side>, to: Option<Side>) -> Edge {
    Edge {
        from: "a".into(),
        from_side: from,
        to: "b".into(),
        to_side: to,
        arrow_start: false,
        arrow_end: false,
    }
}

#[test]
fn two_sides_that_face_each_other_say_one_thing() {
    assert_eq!(step_of(&side_edge(Some(Side::Right), Some(Side::Left))), (1, 0));
    assert_eq!(step_of(&side_edge(Some(Side::Bottom), Some(Side::Top))), (0, 1));
    assert_eq!(step_of(&side_edge(Some(Side::Left), Some(Side::Right))), (-1, 0));
    assert_eq!(step_of(&side_edge(Some(Side::Top), Some(Side::Bottom))), (0, -1));
}

#[test]
fn two_sides_that_do_not_face_each_other_say_two() {
    assert_eq!(step_of(&side_edge(Some(Side::Left), Some(Side::Top))), (-1, 1));
    assert_eq!(step_of(&side_edge(Some(Side::Right), Some(Side::Top))), (1, 1));
    assert_eq!(
        step_of(&side_edge(Some(Side::Right), Some(Side::Bottom))),
        (1, -1)
    );
}

#[test]
fn one_side_alone_is_enough_and_none_at_all_reads_left_to_right() {
    assert_eq!(step_of(&side_edge(Some(Side::Bottom), None)), (0, 1));
    assert_eq!(step_of(&side_edge(None, Some(Side::Left))), (1, 0));
    assert_eq!(step_of(&side_edge(None, Some(Side::Top))), (0, 1));
    assert_eq!(step_of(&side_edge(None, None)), (1, 0));
}

fn link(from: usize, to: usize, step: (i64, i64)) -> Link {
    Link { from, to, step }
}

#[test]
fn one_thing_sits_at_the_origin() {
    assert_eq!(place(1, &[]), [Cell::new(0, 0)]);
    assert!(place(0, &[]).is_empty());
}

#[test]
fn a_link_puts_the_second_thing_where_it_says() {
    assert_eq!(
        place(2, &[link(0, 1, (1, 0))]),
        [Cell::new(0, 0), Cell::new(1, 0)]
    );
    assert_eq!(
        place(2, &[link(0, 1, (0, 1))]),
        [Cell::new(0, 0), Cell::new(0, 1)]
    );
}

#[test]
fn a_link_read_backwards_places_the_first_thing_too() {
    let cells = place(2, &[link(1, 0, (1, 0))]);
    assert_eq!(cells, [Cell::new(1, 0), Cell::new(0, 0)]);
}

#[test]
fn a_grid_always_starts_at_nought() {
    let cells = place(3, &[link(0, 1, (-1, 0)), link(1, 2, (-1, 0))]);
    assert_eq!(cells, [Cell::new(2, 0), Cell::new(1, 0), Cell::new(0, 0)]);
}

#[test]
fn two_things_sent_to_one_square_are_stacked_across_the_step() {
    let cells = place(3, &[link(0, 1, (1, 0)), link(0, 2, (1, 0))]);
    assert_eq!(cells, [Cell::new(0, 0), Cell::new(1, 0), Cell::new(1, 1)]);
    let below = place(3, &[link(0, 1, (0, 1)), link(0, 2, (0, 1))]);
    assert_eq!(below, [Cell::new(0, 0), Cell::new(0, 1), Cell::new(1, 1)]);
}

#[test]
fn a_thing_nothing_reaches_gets_a_row_to_itself() {
    let cells = place(3, &[link(0, 1, (1, 0))]);
    assert_eq!(cells, [Cell::new(0, 0), Cell::new(1, 0), Cell::new(0, 1)]);
}

#[test]
fn a_diagonal_step_places_a_fan_either_side() {
    let cells = place(3, &[link(0, 1, (-1, 1)), link(0, 2, (1, 1))]);
    assert_eq!(cells, [Cell::new(1, 0), Cell::new(0, 1), Cell::new(2, 1)]);
}

#[test]
fn a_link_between_two_things_already_placed_is_left_alone() {
    let cells = place(
        3,
        &[link(0, 1, (1, 0)), link(0, 2, (1, 0)), link(1, 2, (1, 0))],
    );
    assert_eq!(cells.len(), 3);
    for (at, cell) in cells.iter().enumerate() {
        for other in cells.iter().skip(at + 1) {
            assert_ne!(cell, other);
        }
    }
}

#[test]
fn nothing_ever_shares_a_square() {
    let links: Vec<Link> = (1..9).map(|to| link(0, to, (1, 0))).collect();
    let cells = place(9, &links);
    for (at, cell) in cells.iter().enumerate() {
        for other in cells.iter().skip(at + 1) {
            assert_ne!(cell, other, "two things in one square");
        }
    }
}

#[test]
fn the_same_links_twice_give_the_same_grid() {
    let links = [link(0, 1, (1, 0)), link(0, 2, (1, 0)), link(2, 3, (0, 1))];
    assert_eq!(place(4, &links), place(4, &links));
}

#[test]
fn a_link_naming_something_that_is_not_there_is_ignored() {
    let cells = place(2, &[link(0, 9, (1, 0)), link(0, 1, (1, 0))]);
    assert_eq!(cells, [Cell::new(0, 0), Cell::new(1, 0)]);
}

#[test]
fn a_square_with_nowhere_free_across_it_falls_back_to_the_one_it_wanted() {
    let taken: Vec<Cell> = (-32..=32).map(|row| Cell::new(1, row)).collect();
    assert_eq!(free_near(&taken, Cell::new(1, 0), (1, 0)), Cell::new(1, 0));
}

#[test]
fn a_free_square_next_door_is_taken_first() {
    let taken = vec![Cell::new(1, 0)];
    assert_eq!(free_near(&taken, Cell::new(1, 0), (1, 0)), Cell::new(1, 1));
    assert_eq!(free_near(&taken, Cell::new(1, 0), (0, 1)), Cell::new(2, 0));
}

fn nested() -> Diagram {
    Diagram {
        items: vec![
            item("cloud", Kind::Group, ""),
            item("region", Kind::Group, "cloud"),
            item("web", Kind::Service, "region"),
            item("db", Kind::Service, "cloud"),
            item("cdn", Kind::Service, ""),
            item("odd", Kind::Service, "web"),
        ],
        edges: vec![
            Edge {
                from: "web".into(),
                from_side: Some(Side::Right),
                to: "db".into(),
                to_side: Some(Side::Left),
                arrow_start: false,
                arrow_end: false,
            },
            Edge {
                from: "cdn".into(),
                from_side: None,
                to: "web".into(),
                to_side: None,
                arrow_start: false,
                arrow_end: false,
            },
        ],
    }
}

#[test]
fn a_thing_sits_in_the_group_it_names_and_nowhere_else() {
    let d = nested();
    assert_eq!(parent_of(&d, 0), None);
    assert_eq!(parent_of(&d, 1), Some(0));
    assert_eq!(parent_of(&d, 2), Some(1));
    // Naming a service as a parent puts a thing at the top.
    assert_eq!(parent_of(&d, 5), None);
    assert_eq!(parent_of(&d, 9), None);
    assert_eq!(children_of(&d, None), vec![0, 4, 5]);
    assert_eq!(children_of(&d, Some(0)), vec![1, 3]);
    assert_eq!(children_of(&d, Some(1)), vec![2]);
}

#[test]
fn an_edge_constrains_the_children_its_ends_sit_under() {
    let d = nested();
    assert_eq!(under(&d, 2, Some(0)), Some(1));
    assert_eq!(under(&d, 2, None), Some(0));
    assert_eq!(under(&d, 4, Some(0)), None);
    let kids = children_of(&d, Some(0));
    let inside = links(&d, &kids, Some(0));
    assert_eq!(inside, vec![link(0, 1, (1, 0))]);
    let top = children_of(&d, None);
    assert_eq!(links(&d, &top, None), vec![link(1, 0, (1, 0))]);
    assert_eq!(depth_of(&d, 2), 2);
    assert_eq!(depth_of(&d, 4), 0);
}

#[test]
fn a_group_that_names_itself_does_not_loop_forever() {
    let d = parse("architecture-beta\n  group a(cloud)[A] in a\n  service s(server)[S] in a");
    assert_eq!(d.items.len(), 2);
    assert_eq!(parent_of(&d, 0), Some(0));
    assert_eq!(depth_of(&d, 1), 3);
    assert!(children_of(&d, None).is_empty());
}

#[test]
fn a_thing_held_by_a_group_that_holds_itself_is_under_nothing() {
    let diagram =
        parse("architecture-beta\n  group a(cloud)[A] in a\n  service s(server)[S] in a");
    assert_eq!(under(&diagram, 1, None), None);
    assert_eq!(under(&diagram, 0, None), None);
    let plain = parse("architecture-beta\n  service s(server)[S]");
    assert_eq!(under(&plain, 0, None), Some(0));
}

#[test]
fn a_thing_that_names_a_group_nobody_declared_sits_at_the_top() {
    let d = parse("architecture-beta\n  service web(server)[Web] in nowhere");
    assert_eq!(d.items.len(), 1);
    assert_eq!(depth_of(&d, 0), 0);
    assert_eq!(parent_of(&d, 0), None);
}

#[test]
fn every_end_of_a_line_is_counted_on_its_side() {
    let ends = vec![
        Some((0, Side::Right, 1, Side::Left)),
        None,
        Some((0, Side::Right, 2, Side::Left)),
    ];
    let landed = landings(&ends);
    assert_eq!(
        landed,
        vec![
            (0, 0, Side::Right, 1),
            (1, 1, Side::Left, 0),
            (4, 0, Side::Right, 2),
            (5, 2, Side::Left, 0),
        ]
    );
    assert_eq!(
        sides(&landed),
        vec![(0, Side::Right), (1, Side::Left), (2, Side::Left)]
    );
    assert_eq!(total(&[(0, Side::Right, 2)], 0, Side::Right), 2);
    assert_eq!(total(&[(0, Side::Right, 2)], 0, Side::Left), 1);
}

#[test]
fn a_side_letter_decides_where_a_thing_goes() {
    let d = parse(
        "architecture-beta\n  service web(server)[Web]\n  service db(database)[DB]\n  web:R -- L:db",
    );
    let kids = children_of(&d, None);
    assert_eq!(kids, [0, 1]);
    let cells = place(kids.len(), &links(&d, &kids, None));
    let (web, db) = (cells[0], cells[1]);
    assert!(db.col > web.col, "db is to the right of web");
    assert_eq!(db.row, web.row, "and level with it");
}

#[test]
fn a_thing_named_below_another_goes_below_it() {
    let d = parse(
        "architecture-beta\n  service db(database)[DB]\n  service disk(disk)[Storage]\n  db:B -- T:disk",
    );
    let kids = children_of(&d, None);
    assert_eq!(kids, [0, 1]);
    let cells = place(kids.len(), &links(&d, &kids, None));
    let (db, disk) = (cells[0], cells[1]);
    assert!(disk.row > db.row);
    assert_eq!(disk.col, db.col);
}

#[test]
fn nesting_depth_counts_the_groups_round_a_thing() {
    let d = parse(
        "architecture-beta\n  group cloud(cloud)[Cloud]\n  group region(server)[Region A] in cloud\n  service web(server)[Web] in region\n  service cdn(internet)[CDN] in cloud\n  cdn:L --> T:web",
    );
    assert_eq!(depth_of(&d, 0), 0);
    assert_eq!(depth_of(&d, 1), 1);
    assert_eq!(depth_of(&d, 2), 2);
    assert_eq!(depth_of(&d, 3), 1);
    assert_eq!(children_of(&d, None), [0]);
    assert_eq!(children_of(&d, Some(0)), [1, 3]);
    assert_eq!(children_of(&d, Some(1)), [2]);
    // The line from cdn to web constrains the squares of cdn and of region.
    assert_eq!(under(&d, 2, Some(0)), Some(1));
    let kids = children_of(&d, Some(0));
    let constraints = links(&d, &kids, Some(0));
    assert_eq!(constraints.len(), 1);
    assert_eq!((constraints[0].from, constraints[0].to), (1, 0));
}

#[test]
fn no_cell_is_placed_at_a_negative_coordinate() {
    let d = parse(
        "architecture-beta\n  service j(server)[J]\n  service a(server)[A]\n  service b(server)[B]\n  j:L -- T:a\n  j:R -- T:b",
    );
    let kids = children_of(&d, None);
    let cells = place(kids.len(), &links(&d, &kids, None));
    assert_eq!(cells.len(), 3);
    for cell in &cells {
        assert!(cell.col >= 0 && cell.row >= 0, "{cell:?}");
    }
}

#[test]
fn the_same_source_twice_gives_the_same_cells() {
    let source = "architecture-beta\n  group cloud(cloud)[Cloud]\n  service web(server)[Web] in cloud\n  service db(database)[DB] in cloud\n  service disk(disk)[S] in cloud\n  web:R -- L:db\n  db:B -- T:disk";
    let once = parse(source);
    let twice = parse(source);
    let kids = children_of(&once, Some(0));
    assert_eq!(kids, children_of(&twice, Some(0)));
    assert_eq!(
        place(kids.len(), &links(&once, &kids, Some(0))),
        place(kids.len(), &links(&twice, &kids, Some(0)))
    );
}

#[test]
fn a_long_step_is_honoured_as_written() {
    let far: i64 = 1 << 40;
    assert_eq!(
        place(2, &[link(0, 1, (far, 0))]),
        [Cell::new(0, 0), Cell::new(far, 0)]
    );
}

#[test]
fn a_step_to_the_edge_of_the_grid_is_still_taken() {
    assert_eq!(
        place(2, &[link(0, 1, (i64::MAX, 0))]),
        [Cell::new(0, 0), Cell::new(i64::MAX, 0)]
    );
}
