use ags::mermaid::class::parser::{
    after_keyword, annotation, classifier, declaration, find_arrow, generic, inline_member,
    member, parse, relationship, visibility_of, Declaration,
};
use ags::mermaid::class::types::{
    Class, Diagram, End, Member, Relation, Visibility, ARROWS,
};

#[test]
fn every_visibility_is_written_as_the_character_it_is_read_from() {
    for (mark, visibility) in [
        ('+', Visibility::Public),
        ('-', Visibility::Private),
        ('#', Visibility::Protected),
        ('~', Visibility::Package),
    ] {
        assert_eq!(Visibility::from_mark(mark), Some(visibility));
        assert_eq!(visibility.mark(), mark.to_string());
    }
    assert_eq!(Visibility::from_mark('x'), None);
    assert_eq!(Visibility::default(), Visibility::Unstated);
    assert_eq!(Visibility::Unstated.mark(), "");
}

#[test]
fn a_field_is_written_as_name_and_type() {
    let field = Member {
        visibility: Visibility::Public,
        name: "name".into(),
        kind: "String".into(),
        ..Member::default()
    };
    assert!(!field.is_method());
    assert_eq!(field.written(), "name");
    assert_eq!(field.line(), "+ name: String");
}

#[test]
fn a_method_is_written_with_its_parentheses_even_when_they_are_empty() {
    let method = Member {
        visibility: Visibility::Private,
        name: "hash".into(),
        kind: "String".into(),
        params: Some(String::new()),
        ..Member::default()
    };
    assert!(method.is_method());
    assert_eq!(method.written(), "hash()");
    assert_eq!(method.line(), "- hash(): String");
}

#[test]
fn a_member_with_nothing_written_about_it_is_just_its_name() {
    let bare = Member {
        name: "ACTIVE".into(),
        ..Member::default()
    };
    assert_eq!(bare.line(), "ACTIVE");
}

#[test]
fn a_method_carries_its_parameters_into_the_box() {
    let method = Member {
        name: "setData".into(),
        params: Some("key, val".into()),
        ..Member::default()
    };
    assert_eq!(method.line(), "setData(key, val)");
}

#[test]
fn every_relation_is_named_and_knows_how_it_is_drawn() {
    for relation in [
        Relation::Inheritance,
        Relation::Composition,
        Relation::Aggregation,
        Relation::Association,
        Relation::Dependency,
        Relation::Realization,
    ] {
        assert!(!relation.token().is_empty(), "{relation:?}");
        assert!(!relation.marker().is_empty(), "{relation:?}");
    }
    assert!(Relation::Dependency.dashed());
    assert!(Relation::Realization.dashed());
    assert!(!Relation::Inheritance.dashed());
    assert!(!Relation::Composition.dashed());
    assert!(!Relation::Aggregation.dashed());
    assert!(!Relation::Association.dashed());
    assert_eq!(
        Relation::Inheritance.marker(),
        Relation::Realization.marker()
    );
    assert_eq!(
        Relation::Association.marker(),
        Relation::Dependency.marker()
    );
    assert_ne!(
        Relation::Composition.marker(),
        Relation::Aggregation.marker()
    );
}

#[test]
fn the_arrow_table_is_longest_first_so_no_arrow_hides_a_longer_one() {
    for (at, (arrow, _, _)) in ARROWS.iter().enumerate() {
        for (later, _, _) in ARROWS.iter().skip(at + 1) {
            assert!(
                !arrow.starts_with(later) || arrow.len() >= later.len(),
                "{later} comes after {arrow} but is a prefix of it"
            );
        }
    }
    assert_eq!(ARROWS.len(), 13);
}

#[test]
fn a_diagram_finds_a_class_by_the_name_it_was_given() {
    let diagram = Diagram {
        classes: vec![
            Class {
                id: "A".into(),
                label: "A".into(),
                ..Class::default()
            },
            Class {
                id: "B".into(),
                label: "B".into(),
                ..Class::default()
            },
        ],
        relationships: Vec::new(),
    };
    assert_eq!(diagram.index_of("B"), Some(1));
    assert_eq!(diagram.index_of("C"), None);
}

#[test]
fn parser_a_keyword_has_to_be_a_whole_word() {
    assert_eq!(after_keyword("class Animal", "class"), Some("Animal"));
    assert_eq!(after_keyword("class   Animal  ", "class"), Some("Animal"));
    assert_eq!(after_keyword("classy Animal", "class"), None);
    assert_eq!(after_keyword("Animal", "class"), None);
    assert_eq!(after_keyword("class", "class"), None);
}

#[test]
fn a_stereotype_is_read_from_its_brackets() {
    assert_eq!(annotation("<<interface>>"), Some("interface"));
    assert_eq!(annotation("<< abstract >>"), Some("abstract"));
    assert_eq!(annotation("<<>>"), None);
    assert_eq!(annotation("<interface>"), None);
    assert_eq!(annotation("interface"), None);
}

#[test]
fn a_generic_is_drawn_with_angle_brackets() {
    assert_eq!(
        generic("Box~Item~"),
        ("Box".to_string(), "Box<Item>".to_string())
    );
    assert_eq!(generic("Box"), ("Box".to_string(), "Box".to_string()));
    assert_eq!(generic("Box~~"), ("Box~~".to_string(), "Box~~".to_string()));
    assert_eq!(
        generic("~Item~"),
        ("~Item~".to_string(), "~Item~".to_string())
    );
}

#[test]
fn a_class_line_is_read_in_every_form_it_is_written() {
    assert_eq!(
        declaration("class Animal"),
        Some(Declaration {
            id: "Animal".into(),
            label: "Animal".into(),
            opens: false,
            annotation: String::new(),
        })
    );
    assert_eq!(
        declaration("class Animal {"),
        Some(Declaration {
            id: "Animal".into(),
            label: "Animal".into(),
            opens: true,
            annotation: String::new(),
        })
    );
    assert_eq!(
        declaration("class Shape { <<abstract>> }"),
        Some(Declaration {
            id: "Shape".into(),
            label: "Shape".into(),
            opens: false,
            annotation: "abstract".into(),
        })
    );
    assert_eq!(
        declaration("class Box~Item~ {"),
        Some(Declaration {
            id: "Box".into(),
            label: "Box<Item>".into(),
            opens: true,
            annotation: String::new(),
        })
    );
    assert_eq!(
        declaration("class Box {}"),
        Some(Declaration {
            id: "Box".into(),
            label: "Box".into(),
            opens: false,
            annotation: String::new(),
        })
    );
}

#[test]
fn a_class_line_that_says_something_else_is_not_read_as_one() {
    assert_eq!(declaration("class A { +int x }"), None);
    assert_eq!(declaration("class A B"), None);
    assert_eq!(declaration("class { }"), None);
    assert_eq!(declaration("Animal <|-- Dog"), None);
}

#[test]
fn a_trailing_marker_says_static_or_abstract() {
    assert_eq!(classifier("count$"), ("count", true, false));
    assert_eq!(classifier("area*"), ("area", false, true));
    assert_eq!(classifier("name"), ("name", false, false));
}

#[test]
fn a_leading_character_says_who_may_see_a_member() {
    assert_eq!(visibility_of("+name"), (Visibility::Public, "name"));
    assert_eq!(visibility_of("- name"), (Visibility::Private, "name"));
    assert_eq!(visibility_of("#x"), (Visibility::Protected, "x"));
    assert_eq!(visibility_of("~x"), (Visibility::Package, "x"));
    assert_eq!(visibility_of("name"), (Visibility::Unstated, "name"));
    assert_eq!(visibility_of(""), (Visibility::Unstated, ""));
}

#[test]
fn a_field_is_read_as_a_type_and_a_name() {
    let parsed = member("+String name").unwrap();
    assert_eq!(parsed.visibility, Visibility::Public);
    assert_eq!(parsed.name, "name");
    assert_eq!(parsed.kind, "String");
    assert!(!parsed.is_method());
}

#[test]
fn a_field_with_no_type_is_just_a_name() {
    let parsed = member("ACTIVE").unwrap();
    assert_eq!(parsed.name, "ACTIVE");
    assert_eq!(parsed.kind, "");
    assert_eq!(parsed.visibility, Visibility::Unstated);
}

#[test]
fn a_generic_field_type_is_kept_whole() {
    let parsed = member("-List~Observer~ observers").unwrap();
    assert_eq!(parsed.kind, "List~Observer~");
    assert_eq!(parsed.name, "observers");
}

#[test]
fn a_method_is_read_as_a_name_parameters_and_a_return_type() {
    let parsed = member("+setData(key, val) void").unwrap();
    assert_eq!(parsed.name, "setData");
    assert_eq!(parsed.params.as_deref(), Some("key, val"));
    assert_eq!(parsed.kind, "void");
    assert!(parsed.is_method());
}

#[test]
fn a_method_with_no_parameters_is_still_a_method() {
    let parsed = member("+eat() void").unwrap();
    assert_eq!(parsed.params.as_deref(), Some(""));
    assert!(parsed.is_method());
}

#[test]
fn a_classifier_is_read_wherever_it_is_written() {
    let counted = member("+int count$").unwrap();
    assert!(counted.is_static);
    assert_eq!(counted.name, "count");
    assert_eq!(counted.kind, "int");
    let named = member("+of$() Thing").unwrap();
    assert!(named.is_static);
    let after = member("+area()* double").unwrap();
    assert!(after.is_abstract);
    assert_eq!(after.kind, "double");
}

#[test]
fn a_trailing_semicolon_and_an_empty_line_are_not_members() {
    assert_eq!(member("+int age;").unwrap().name, "age");
    assert_eq!(member("   "), None);
    assert_eq!(member("+"), None);
}

#[test]
fn an_unclosed_parenthesis_reads_as_a_field_rather_than_failing() {
    let parsed = member("+broken(void").unwrap();
    assert!(!parsed.is_method());
    assert_eq!(parsed.kind, "");
    assert_eq!(parsed.name, "broken(void");
}

#[test]
fn an_arrow_is_found_only_when_it_stands_alone() {
    let (at, len, kind, end) = find_arrow("Animal <|-- Dog").unwrap();
    assert_eq!(at, 7);
    assert_eq!(len, 4);
    assert_eq!(kind, Relation::Inheritance);
    assert_eq!(end, End::From);
    assert_eq!(find_arrow("Animal<|--Dog"), None);
    assert_eq!(find_arrow("Animal Dog"), None);
}

#[test]
fn a_long_arrow_is_not_read_as_the_short_one_inside_it() {
    let (_, len, kind, end) = find_arrow("Bird ..|> Flyable").unwrap();
    assert_eq!(len, 4);
    assert_eq!(kind, Relation::Realization);
    assert_eq!(end, End::To);
    let (_, len, kind, _) = find_arrow("A --|> B").unwrap();
    assert_eq!(len, 4);
    assert_eq!(kind, Relation::Inheritance);
    let (_, len, kind, _) = find_arrow("A -- B").unwrap();
    assert_eq!(len, 2);
    assert_eq!(kind, Relation::Association);
}

#[test]
fn every_arrow_in_the_table_is_read_back_as_what_it_means() {
    for (arrow, kind, end) in ARROWS {
        let line = format!("A {arrow} B");
        let rel = relationship(&line).unwrap_or_else(|| panic!("{arrow}"));
        assert_eq!(rel.kind, kind, "{arrow}");
        assert_eq!(rel.marker_at, end, "{arrow}");
        assert_eq!(rel.from, "A");
        assert_eq!(rel.to, "B");
    }
}

#[test]
fn a_relationship_carries_its_label() {
    let rel = relationship("Teacher --> Course : teaches").unwrap();
    assert_eq!(rel.from, "Teacher");
    assert_eq!(rel.to, "Course");
    assert_eq!(rel.label, "teaches");
    let rel = relationship("Student --> Course : enrolled in").unwrap();
    assert_eq!(rel.label, "enrolled in");
}

#[test]
fn a_relationship_carries_the_multiplicity_at_each_end() {
    let rel = relationship(r#"Order "1" --> "*" Item : holds"#).unwrap();
    assert_eq!(rel.from, "Order");
    assert_eq!(rel.to, "Item");
    assert_eq!(rel.from_cardinality, "1");
    assert_eq!(rel.to_cardinality, "*");
    assert_eq!(rel.label, "holds");
}

#[test]
fn a_line_with_two_names_on_one_side_is_not_a_relationship() {
    assert_eq!(relationship("A B --> C"), None);
    assert_eq!(relationship("A --> B C"), None);
    assert_eq!(relationship("--> B"), None);
}

#[test]
fn a_multiplicity_is_read_from_either_end_alone() {
    let from = relationship(r#"A "1" --> B"#).unwrap();
    assert_eq!(from.from_cardinality, "1");
    assert_eq!(from.to_cardinality, "");
    let to = relationship(r#"A --> "0..*" B"#).unwrap();
    assert_eq!(to.from_cardinality, "");
    assert_eq!(to.to_cardinality, "0..*");
}

#[test]
fn an_unbalanced_quote_is_not_a_relationship() {
    assert_eq!(relationship(r#"A 1" --> B"#), None);
    assert_eq!(relationship(r#"A --> "1 B"#), None);
}

#[test]
fn an_inline_member_names_the_class_it_belongs_to() {
    let (id, parsed) = inline_member("Animal : +String name").unwrap();
    assert_eq!(id, "Animal");
    assert_eq!(parsed.name, "name");
    assert_eq!(inline_member("Animal <|-- Dog"), None);
    assert_eq!(inline_member(": +String name"), None);
}

fn names(members: &[Member]) -> Vec<String> {
    members.iter().map(|m| m.name.clone()).collect()
}

fn ids(diagram: &Diagram) -> Vec<String> {
    diagram.classes.iter().map(|c| c.id.clone()).collect()
}

#[test]
fn a_class_body_becomes_fields_and_methods_in_the_order_written() {
    let diagram = parse(
        "classDiagram\n  class Animal {\n    +String name\n    +int age\n    +eat() void\n    +sleep() void\n  }",
    );
    let animal = diagram.classes.first().unwrap();
    assert_eq!(animal.id, "Animal");
    assert_eq!(names(&animal.attributes), ["name", "age"]);
    assert_eq!(names(&animal.methods), ["eat", "sleep"]);
}

#[test]
fn a_stereotype_written_on_the_class_line_lands_on_the_class() {
    let diagram = parse("classDiagram\n  class Shape { <<abstract>> }\n  Shape <|-- Circle");
    let shape = diagram.classes.first().unwrap();
    assert_eq!(shape.id, "Shape");
    assert_eq!(shape.annotation, "abstract");
    let named = parse("classDiagram\n  class Shape { <<abstract>> }\n  class Shape");
    assert_eq!(named.classes.first().unwrap().annotation, "abstract");
}

#[test]
fn a_stereotype_inside_a_body_lands_on_the_class() {
    let diagram = parse(
        "classDiagram\n  class Serializable {\n    <<interface>>\n    +serialize() String\n  }",
    );
    let first = diagram.classes.first().unwrap();
    assert_eq!(first.annotation, "interface");
    assert_eq!(first.methods.len(), 1);
}

#[test]
fn a_relationship_declares_the_classes_it_names() {
    let diagram = parse("classDiagram\n  A <|-- B : inheritance\n  C *-- D");
    assert_eq!(ids(&diagram), ["A", "B", "C", "D"]);
    assert_eq!(diagram.relationships.len(), 2);
    assert_eq!(diagram.relationships.first().unwrap().label, "inheritance");
}

#[test]
fn a_class_named_twice_is_one_class() {
    let diagram = parse(
        "classDiagram\n  Animal <|-- Dog\n  class Animal {\n    +String name\n  }\n  class Dog\n",
    );
    assert_eq!(diagram.classes.len(), 2);
    assert_eq!(diagram.classes.first().unwrap().attributes.len(), 1);
}

#[test]
fn a_namespace_block_is_stepped_over_and_its_classes_kept() {
    let diagram = parse(
        "classDiagram\n  namespace Shapes {\n    class Circle\n    class Square\n  }\n  Circle --> Square",
    );
    assert_eq!(ids(&diagram), ["Circle", "Square"]);
    assert_eq!(diagram.relationships.len(), 1);
}

#[test]
fn parser_comments_and_blank_lines_are_skipped() {
    let diagram = parse("classDiagram\n\n  %% a note to a reader\n  class A\n");
    assert_eq!(diagram.classes.len(), 1);
}

#[test]
fn a_source_with_no_header_still_reads() {
    let diagram = parse("class A\nclass B");
    assert_eq!(diagram.classes.len(), 2);
}

#[test]
fn a_line_nobody_recognises_is_dropped_rather_than_stopping_the_read() {
    let diagram = parse("classDiagram\n  class A\n  ??? nonsense ???\n  class B");
    assert_eq!(diagram.classes.len(), 2);
}

#[test]
fn an_inline_member_line_lands_on_its_class() {
    let diagram = parse("classDiagram\n  Animal : +String name\n  Animal : +eat() void");
    let animal = diagram.classes.first().unwrap();
    assert_eq!(animal.attributes.len(), 1);
    assert_eq!(animal.methods.len(), 1);
}

#[test]
fn a_generic_class_is_labelled_with_its_parameter() {
    let diagram = parse("classDiagram\n  class Box~Item~\n  Box --> Item");
    assert_eq!(ids(&diagram), ["Box", "Item"]);
    assert_eq!(diagram.classes[0].label, "Box<Item>");
    assert_eq!(diagram.classes[1].label, "Item");
}
