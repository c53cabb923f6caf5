use ags::mermaid::c4::geom::{legs, Axis, Side, SidePair};
use ags::mermaid::c4::labels::{marked_step, step_of};
use ags::mermaid::c4::parser::{
    clean_arg, is_boundary, parse, parse_call, read_config_value, rel_direction, split_args,
    strip_keyword,
};
use ags::mermaid::c4::place::{kind_tag, nest_depth, take, Shell, Tree};
use ags::mermaid::c4::style::{style, OUTLINE_CLASS};
use ags::mermaid::c4::types::{Diagram, ElementKind, LayoutConfig, RelDirection, Variant};

#[test]
fn a_relationship_suffix_names_the_way_it_is_drawn() {
    for (name, want) in [
        ("Rel_U", RelDirection::Up),
        ("Rel_Up", RelDirection::Up),
        ("rel_d", RelDirection::Down),
        ("Rel_Down", RelDirection::Down),
        ("Rel_L", RelDirection::Left),
        ("REL_LEFT", RelDirection::Left),
        ("Rel_R", RelDirection::Right),
        ("Rel_Right", RelDirection::Right),
    ] {
        assert_eq!(rel_direction(name), Some(want), "{name}");
    }
}

#[test]
fn a_relationship_without_a_direction_suffix_has_none() {
    assert_eq!(rel_direction("Rel"), None, "nothing after an underscore");
    assert_eq!(rel_direction("Rel_Back"), None, "not a direction");
    assert_eq!(rel_direction("BiRel_x"), None, "an unknown letter");
}

#[test]
fn reads_elements_with_their_parts() {
    let d = parse(
        "C4Container\n\
         Container(web, \"Web App\", \"Java, Spring\", \"Serves pages\")",
    );
    assert_eq!(d.elements.len(), 1);
    let el = &d.elements[0];
    assert_eq!(el.alias, "web");
    assert_eq!(el.kind, ElementKind::Container);
    assert_eq!(el.label, "Web App");
    assert_eq!(el.techn.as_deref(), Some("Java, Spring"));
    assert_eq!(el.descr.as_deref(), Some("Serves pages"));
    assert!(!el.external);
}

#[test]
fn a_person_has_no_technology_field() {
    let d = parse("C4Context\nPerson(u, \"User\", \"Buys things\")");
    let el = &d.elements[0];
    assert_eq!(el.kind, ElementKind::Person);
    assert_eq!(el.techn, None);
    assert_eq!(el.descr.as_deref(), Some("Buys things"));
}

#[test]
fn external_and_storage_forms_are_recognised() {
    let d = parse(
        "C4Container\n\
         System_Ext(mail, \"Mail\")\n\
         ContainerDb(db, \"Store\", \"Postgres\")\n\
         ContainerQueue_Ext(bus, \"Bus\", \"Kafka\")",
    );
    assert!(d.elements[0].external);
    assert_eq!(d.elements[0].kind, ElementKind::System);
    assert_eq!(d.elements[1].variant, Some(Variant::Db));
    assert_eq!(d.elements[1].kind, ElementKind::Container);
    assert_eq!(d.elements[2].variant, Some(Variant::Queue));
    assert!(d.elements[2].external);
}

#[test]
fn an_element_with_no_label_falls_back_to_its_alias() {
    let d = parse("C4Context\nSystem(lonely)");
    assert_eq!(d.elements[0].label, "lonely");
}

#[test]
fn boundaries_nest_and_claim_their_members() {
    let d = parse(
        "C4Deployment\n\
         Deployment_Node(host, \"Workstation\") {\n\
           Deployment_Node(shell, \"Session\") {\n\
             Container(proc, \"Process\", \"Rust\")\n\
           }\n\
         }",
    );
    assert_eq!(d.boundaries.len(), 2);
    assert_eq!(d.boundaries[0].parent, None);
    assert_eq!(d.boundaries[1].parent.as_deref(), Some("host"));
    assert_eq!(d.elements[0].boundary.as_deref(), Some("shell"));
}

#[test]
fn a_brace_on_the_following_line_still_opens_the_block() {
    let d = parse(
        "C4Container\n\
         System_Boundary(s, \"Sys\")\n\
         {\n\
           Container(c, \"C\", \"Rust\")\n\
         }",
    );
    assert_eq!(d.boundaries.len(), 1);
    assert_eq!(d.elements[0].boundary.as_deref(), Some("s"));
}

#[test]
fn relationships_carry_their_direction_and_arity() {
    let d = parse(
        "C4Context\n\
         Rel(a, b, \"calls\", \"HTTPS\")\n\
         BiRel(b, c, \"syncs\")\n\
         Rel_U(c, a, \"reports\")",
    );
    assert_eq!(d.relationships.len(), 3);
    assert_eq!(d.relationships[0].techn.as_deref(), Some("HTTPS"));
    assert!(!d.relationships[0].bidirectional);
    assert!(d.relationships[1].bidirectional);
    assert_eq!(d.relationships[2].direction, Some(RelDirection::Up));
}

#[test]
fn rel_index_shifts_its_positional_arguments() {
    let d = parse("C4Dynamic\nRelIndex(1, a, b, \"first\")");
    let rel = &d.relationships[0];
    assert_eq!(rel.from, "a");
    assert_eq!(rel.to, "b");
    assert_eq!(rel.label, "first");
}

#[test]
fn layout_config_is_read_and_bad_values_are_ignored() {
    let d = parse("C4Component\nUpdateLayoutConfig($c4ShapeInRow=\"3\", $c4BoundaryInRow=\"1\")");
    assert_eq!(d.config.shape_in_row, 3);
    assert_eq!(d.config.boundary_in_row, 1);
    let bad = parse("C4Component\nUpdateLayoutConfig($c4ShapeInRow=\"0\")");
    assert_eq!(
        bad.config.shape_in_row,
        LayoutConfig::default().shape_in_row
    );
}

#[test]
fn styling_directives_are_consumed_not_mistaken_for_elements() {
    let d = parse(
        "C4Context\n\
         UpdateRelStyle(a, b, $offsetY=\"10\")\n\
         UpdateElementStyle(a, $bgColor=\"red\")\n\
         System(a, \"A\")",
    );
    assert_eq!(d.elements.len(), 1);
    assert_eq!(d.relationships.len(), 0);
}

#[test]
fn named_arguments_do_not_become_descriptions() {
    let d = parse("C4Container\nContainer(a, \"A\", \"Rust\", $tags=\"x\")");
    assert_eq!(d.elements[0].descr, None);
}

#[test]
fn the_title_is_kept() {
    let d = parse("C4Context\ntitle Système de paiement\nSystem(a, \"A\")");
    assert_eq!(d.title.as_deref(), Some("Système de paiement"));
}

#[test]
fn comments_and_blank_lines_are_skipped() {
    let d = parse("C4Context\n\n  %% a note\n\nSystem(a, \"A\")\n");
    assert_eq!(d.elements.len(), 1);
}

#[test]
fn a_line_that_is_not_a_call_is_ignored_rather_than_fatal() {
    let d = parse("C4Context\nthis is not a call\nSystem(a, \"A\")");
    assert_eq!(d.elements.len(), 1);
}

#[test]
fn empty_source_parses_to_an_empty_diagram() {
    let d = parse("");
    assert_eq!(d, Diagram::default());
}

#[test]
fn a_closing_brace_with_nothing_open_is_harmless() {
    let d = parse("C4Context\n}\nSystem_Boundary(s, \"S\") {\n}\n}\nSystem(a, \"A\")");
    assert_eq!(d.boundaries.len(), 1);
    assert_eq!(d.elements[0].boundary, None);
}

#[test]
fn quoted_commas_are_content_and_empty_lists_have_no_arguments() {
    assert_eq!(split_args("a, \"b, c\", 'd'"), vec!["a", "b, c", "d"]);
    assert!(split_args("  ").is_empty());
    assert_eq!(split_args(","), vec!["", ""]);
}

#[test]
fn a_named_argument_is_not_a_value() {
    assert_eq!(clean_arg(Some(&"$tags=\"x\"".to_string())), None);
    assert_eq!(clean_arg(Some(&"  ".to_string())), None);
    assert_eq!(clean_arg(Some(&" a b=c ".to_string())), Some("a b=c".into()));
    assert_eq!(clean_arg(None), None);
}

#[test]
fn a_call_needs_a_name_and_its_parentheses() {
    let call = parse_call("System_Boundary(s, \"S\") {").expect("a call");
    assert_eq!(call.name, "System_Boundary");
    assert_eq!(call.args, vec!["s", "S"]);
    assert!(call.open_brace);
    assert!(parse_call("(a)").is_none());
    assert!(parse_call("9lives(a)").is_none());
    assert!(parse_call("Rel(a, b) trailing").is_none());
    assert!(parse_call("Rel(a").is_none());
}

#[test]
fn a_config_value_is_read_case_blind_and_must_be_positive() {
    assert_eq!(read_config_value("$C4SHAPEINROW = '5'", "c4ShapeInRow"), Some(5));
    assert_eq!(read_config_value("$c4ShapeInRow=\"0\"", "c4ShapeInRow"), None);
    assert_eq!(read_config_value("$c4ShapeInRow=\"x\"", "c4ShapeInRow"), None);
    assert_eq!(read_config_value("nothing here", "c4ShapeInRow"), None);
}

#[test]
fn a_keyword_needs_space_and_something_after_it() {
    assert_eq!(strip_keyword("Title  Hello", "title"), Some("Hello"));
    assert_eq!(strip_keyword("title", "title"), None);
    assert_eq!(strip_keyword("titles x", "title"), None);
    assert!(is_boundary("Enterprise_Boundary"));
    assert!(is_boundary("node_l"));
    assert!(!is_boundary("System"));
}

#[test]
fn facing_pairs_are_the_ones_that_look_across_a_gutter() {
    assert!(SidePair {
        start: Side::Bottom,
        end: Side::Top
    }
    .facing());
    assert!(SidePair {
        start: Side::Left,
        end: Side::Right
    }
    .facing());
    assert!(!SidePair {
        start: Side::Top,
        end: Side::Left
    }
    .facing());
    assert!(Side::Top.is_horizontal_face());
    assert!(!Side::Left.is_horizontal_face());
    assert_eq!(Axis::H.other(), Axis::V);
    assert_eq!(Axis::V.other(), Axis::H);
}

#[test]
fn a_polyline_has_one_leg_fewer_than_points() {
    assert_eq!(legs(&[1, 2, 3]), vec![(1, 2), (2, 3)]);
    assert!(legs::<i32>(&[7]).is_empty());
    assert!(legs::<i32>(&[]).is_empty());
}

#[test]
fn an_authors_own_numbering_survives() {
    assert_eq!(
        step_of("3a. Spawns workspace-wide", None, 7),
        ("3a".to_string(), "Spawns workspace-wide".to_string())
    );
    assert_eq!(
        step_of("  12)  Reads", None, 0),
        ("12".to_string(), "Reads".to_string())
    );
}

#[test]
fn an_unnumbered_label_takes_its_declaration_order() {
    assert_eq!(
        step_of("Reads the graph", None, 4),
        ("5".to_string(), "Reads the graph".to_string())
    );
    assert_eq!(
        step_of("3 retries", None, 0),
        ("1".to_string(), "3 retries".to_string())
    );
    assert_eq!(step_of("", None, 0), ("1".to_string(), String::new()));
}

#[test]
fn a_technology_is_appended_for_the_legend() {
    assert_eq!(
        step_of("1. Indexes", Some("CLI"), 0),
        ("1".to_string(), "Indexes [CLI]".to_string())
    );
    assert_eq!(
        step_of("1.", Some("CLI"), 0),
        ("1".to_string(), "[CLI]".to_string())
    );
}

#[test]
fn a_marker_followed_by_a_second_line_is_not_a_marker() {
    assert_eq!(
        step_of("1. first\nsecond", None, 0),
        ("1".to_string(), "1. first\nsecond".to_string())
    );
}

#[test]
fn a_marker_is_digits_one_letter_and_a_stop() {
    assert_eq!(marked_step("\t7b)x"), Some(("7b".into(), "x".into())));
    assert_eq!(marked_step("12 . twelve"), Some(("12".into(), "twelve".into())));
    assert_eq!(marked_step("12ab. no"), None);
    assert_eq!(marked_step("x1. no"), None);
    assert_eq!(step_of("Reads", None, 41).0, "42");
}

#[test]
fn the_derived_tokens_come_first_so_the_rules_can_read_them() {
    let css = style("svg{--_text:red;}", &[]);
    assert!(css.starts_with("svg{--_text:red;}"), "{css}");
    assert!(css.contains(".c4-label{fill:var(--_text)}"), "{css}");
}

#[test]
fn no_rule_names_a_literal_colour() {
    let css = style("", &["1".into()]);
    assert!(!css.contains('#'), "{css}");
    assert!(!css.contains("rgb("), "{css}");
}

#[test]
fn hovering_either_member_of_a_step_selects_both() {
    let css = style("", &["3".into()]);
    assert!(
        css.contains(
            "svg:has(.c4-step[data-step=\"3\"]:hover) .c4-step[data-step=\"3\"] .c4-badge{"
        ),
        "{css}"
    );
    assert!(
        css.contains("svg:has(.c4-step[data-step=\"3\"]:hover) .c4-edge[data-step=\"3\"]"),
        "{css}"
    );
}

#[test]
fn a_bubble_is_revealed_by_the_target_it_belongs_to() {
    let css = style("", &["1".into()]);
    assert!(css.contains("[data-at=\"badge\"]"), "{css}");
    assert!(css.contains("[data-at=\"tip\"]"), "{css}");
}

#[test]
fn an_authors_own_marker_survives_into_the_selector() {
    let css = style("", &["3a".into()]);
    assert!(css.contains("[data-step=\"3a\"]"), "{css}");
}

#[test]
fn a_marker_that_could_break_a_selector_is_stripped_or_dropped() {
    let css = style("", &["a\"]:hover){}".into()]);
    assert!(css.contains("[data-step=\"ahover\"]"), "{css}");
    assert!(!css.contains("a\"]:hover"), "{css}");
    assert_eq!(style("", &["<>".into()]), style("", &[]));
}

#[test]
fn a_step_named_twice_emits_one_group_of_rules() {
    let once = style("", &["1".into()]);
    let twice = style("", &["1".into(), "1".into()]);
    assert_eq!(once, twice);
}

#[test]
fn a_diagram_with_no_steps_still_carries_its_class_rules() {
    let css = style("", &[]);
    assert!(css.contains(".c4-box{"), "{css}");
    assert!(!css.contains(":has("), "{css}");
}

#[test]
fn the_outline_glyphs_have_their_ends_rounded() {
    let css = style("", &[]);
    assert!(css.contains(&format!(
        ".{OUTLINE_CLASS}{{stroke-linecap:round;stroke-linejoin:round}}"
    )));
}

#[test]
fn a_kind_tag_says_what_a_box_is_and_whether_it_is_outside() {
    let d = parse(
        "C4Container\nPerson(p)\nPerson_Ext(q)\nSystem(s)\nSystem_Ext(t)\nContainer_Ext(c)\nComponent(k)",
    );
    let tags: Vec<&str> = d.elements.iter().map(kind_tag).collect();
    assert_eq!(
        tags,
        [
            "«Person»",
            "«External Person»",
            "«System»",
            "«External System»",
            "«Container»",
            "«Component»"
        ]
    );
}

#[test]
fn nesting_is_counted_once_however_the_source_names_it() {
    let d = parse(
        "C4Deployment\n\
         Deployment_Node(a, \"A\") {\n\
           Deployment_Node(b, \"B\") {\n\
             Deployment_Node(c, \"C\") {\n\
             }\n\
           }\n\
           Deployment_Node(d, \"D\") {\n\
           }\n\
         }",
    );
    assert_eq!(nest_depth(&d.boundaries, None, &mut Vec::new()), 3);
    let b = "b".to_string();
    assert_eq!(nest_depth(&d.boundaries, Some(&b), &mut Vec::new()), 1);
    // A boundary that names itself as its parent is walked once, not for ever.
    let mut looped = d.boundaries.clone();
    looped[0].parent = Some("a".into());
    let a = "a".to_string();
    assert_eq!(nest_depth(&looped, Some(&a), &mut Vec::new()), 3);
    assert_eq!(nest_depth(&looped, None, &mut Vec::new()), 0);
}

#[test]
fn a_tag_names_the_kind_and_marks_the_external_ones() {
    let d = parse(
        "C4Context\nPerson(a,\"A\")\nPerson_Ext(b,\"B\")\nSystem(c,\"C\")\nSystem_Ext(d,\"D\")\nContainer(e,\"E\",\"Rust\")\nComponent(f,\"F\",\"Rust\")",
    );
    let tags: Vec<&str> = d.elements.iter().map(kind_tag).collect();
    assert_eq!(
        tags,
        vec![
            "«Person»",
            "«External Person»",
            "«System»",
            "«External System»",
            "«Container»",
            "«Component»"
        ]
    );
}

fn shells_of(d: &Diagram) -> Vec<Shell> {
    (0..d.elements.len())
        .map(|index| Shell {
            index,
            tag: kind_tag(&d.elements[index]),
            descr: Vec::new(),
        })
        .collect()
}

#[test]
fn an_element_naming_an_undeclared_boundary_lands_at_the_root() {
    let mut d = parse("C4Context\nSystem(a,\"A\")");
    d.elements[0].boundary = Some("nowhere".into());
    let tree = Tree::build(&d, &shells_of(&d));
    assert_eq!(tree.members.len(), 1);
    assert_eq!(take(&tree.members, None), [0]);
    assert!(take(&tree.members, Some("nowhere")).is_empty());
    assert!(tree.children.is_empty());
}

#[test]
fn members_and_frames_are_filed_under_the_boundary_that_holds_them() {
    let d = parse(
        "C4Context\nSystem(loose,\"Loose\")\nSystem_Boundary(outer,\"Outer\"){\nSystem(a,\"A\")\nSystem_Boundary(inner,\"Inner\"){\nSystem(b,\"B\")\n}\nSystem(c,\"C\")\n}",
    );
    let tree = Tree::build(&d, &shells_of(&d));
    assert_eq!(take(&tree.members, None), [0]);
    assert_eq!(take(&tree.members, Some("outer")), [1, 3]);
    assert_eq!(take(&tree.members, Some("inner")), [2]);
    assert_eq!(take(&tree.children, None), [0]);
    assert_eq!(take(&tree.children, Some("outer")), [1]);
    assert!(take(&tree.children, Some("inner")).is_empty());
    // Groups are listed in the order their first member appeared.
    let keys: Vec<Option<String>> = tree.members.iter().map(|(k, _)| k.clone()).collect();
    assert_eq!(keys, [None, Some("outer".into()), Some("inner".into())]);
}

#[test]
fn a_run_of_steps_named_again_changes_nothing_and_keeps_each_selector() {
    let steps: Vec<String> = vec!["1".into(), "3a".into(), "<>".into()];
    let doubled: Vec<String> = [steps.clone(), steps.clone()].concat();
    let css = style(":root{--x:1}", &steps);
    assert!(css.starts_with(":root{--x:1}"));
    assert_eq!(style(":root{--x:1}", &doubled), css);
    assert!(css.contains("svg:has(.c4-step[data-step=\"3a\"]:hover)"));
    assert!(css.contains("[data-step=\"1\"]"));
}

#[test]
fn nothing_read_goes_without_a_name() {
    let d = parse(
        "C4Context\nSystem(, \"Nameless\")\nSystem(a, \"A\")\nSystem_Boundary(, \"B\"){\n}\nRel(a, )\nRel(, a)\nRel(a, b, \"uses\")",
    );
    assert_eq!(d.elements.len(), 1);
    assert_eq!(d.elements[0].alias, "a");
    assert!(d.boundaries.iter().all(|b| !b.alias.is_empty()));
    assert_eq!(d.relationships.len(), 1);
    assert_eq!((d.relationships[0].from.as_str(), d.relationships[0].to.as_str()), ("a", "b"));
}
