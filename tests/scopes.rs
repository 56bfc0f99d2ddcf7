use rsproto::environment::{GenerationError, GeneratorEnvironment};
use rsproto::equality::eq_decl;
use rsproto::hierarchy::{ProtoTypeHierarchy, HEAD};
use rsproto::naming::IdentifierQualifier;
use rsproto::types::{Program, ProtoEnum, ProtoIdentifierPath, ProtoMessage, ProtoType};

fn message(name: &str, nested: Vec<ProtoType>) -> ProtoType {
    let mut m = ProtoMessage::new(name.to_string());
    m.types = nested;
    ProtoType::Message(m)
}

fn enumeration(name: &str) -> ProtoType {
    ProtoType::Enum(ProtoEnum::new(name.to_string()))
}

fn program_of(types: Vec<ProtoType>) -> Program {
    let mut p = Program::new();
    p.types = types;
    p
}

fn fqn(h: &ProtoTypeHierarchy<'_, IdentifierQualifier>, i: usize) -> String {
    h.nodes[i].fully_qualified_identifier.clone().unwrap()
}

fn node_named(h: &ProtoTypeHierarchy<'_, IdentifierQualifier>, fq: &str) -> usize {
    (0..h.nodes.len())
        .find(|&i| h.nodes[i].fully_qualified_identifier.as_deref() == Some(fq))
        .unwrap()
}

fn resolve(h: &ProtoTypeHierarchy<'_, IdentifierQualifier>, from: usize, p: &str) -> Result<String, GenerationError> {
    let root = GeneratorEnvironment::new(h);
    let env = root.child_for(from);
    env.resolve_identifier_path(&ProtoIdentifierPath::Path(p.to_string()))
}

#[test]
fn three_levels_concatenate_ancestor_names() {
    let program = program_of(vec![message(
        "A",
        vec![message("B", vec![message("C", vec![])])],
    )]);
    let h = ProtoTypeHierarchy::from_program(&program, IdentifierQualifier::underscore());
    assert_eq!(h.nodes.len(), 4);
    assert!(h.nodes[HEAD].fully_qualified_identifier.is_none());
    assert_eq!(fqn(&h, 1), "A");
    assert_eq!(fqn(&h, 2), "A_B");
    assert_eq!(fqn(&h, 3), "A_B_C");
}

#[test]
fn custom_separator_is_used() {
    let program = program_of(vec![message("A", vec![enumeration("E")])]);
    let h = ProtoTypeHierarchy::from_program(&program, IdentifierQualifier::new("::".to_string()));
    assert_eq!(fqn(&h, 2), "A::E");
}

#[test]
fn distinct_places_get_distinct_identifiers() {
    let program = program_of(vec![
        message("A", vec![enumeration("X"), message("B", vec![enumeration("X")])]),
        message("B", vec![enumeration("X")]),
    ]);
    let h = ProtoTypeHierarchy::from_program(&program, IdentifierQualifier::underscore());
    let mut names: Vec<String> = (1..h.nodes.len()).map(|i| fqn(&h, i)).collect();
    let total = names.len();
    names.sort();
    names.dedup();
    assert_eq!(names.len(), total);
    assert_eq!(total, 6);
}

#[test]
fn nodes_are_numbered_in_pre_order() {
    let program = program_of(vec![
        message("Foo", vec![message("Bar", vec![enumeration("Baz")]), enumeration("Qux")]),
        enumeration("Top"),
    ]);
    let h = ProtoTypeHierarchy::from_program(&program, IdentifierQualifier::underscore());
    let order: Vec<String> = (1..h.nodes.len()).map(|i| fqn(&h, i)).collect();
    assert_eq!(order, vec!["Foo", "Foo_Bar", "Foo_Bar_Baz", "Foo_Qux", "Top"]);
    assert_eq!(h.nodes[HEAD].children, vec![1, 5]);
    assert_eq!(h.nodes[1].children, vec![2, 4]);
    assert_eq!(h.nodes[2].parent, Some(1));
}

#[test]
fn nearest_scope_wins() {
    // Outer declares X; so does the nested M, which shadows it inside M.
    let program = program_of(vec![message(
        "Outer",
        vec![enumeration("X"), message("M", vec![enumeration("X"), message("Deep", vec![])])],
    )]);
    let h = ProtoTypeHierarchy::from_program(&program, IdentifierQualifier::underscore());
    let m = node_named(&h, "Outer_M");
    let deep = node_named(&h, "Outer_M_Deep");
    let outer = node_named(&h, "Outer");
    assert_eq!(resolve(&h, m, "X"), Ok("Outer_M_X".to_string()));
    assert_eq!(resolve(&h, deep, "X"), Ok("Outer_M_X".to_string()));
    assert_eq!(resolve(&h, outer, "X"), Ok("Outer_X".to_string()));
}

#[test]
fn top_level_name_found_from_deep_scope() {
    let program = program_of(vec![
        message("A", vec![message("B", vec![message("C", vec![message("D", vec![])])])]),
        enumeration("Target"),
    ]);
    let h = ProtoTypeHierarchy::from_program(&program, IdentifierQualifier::underscore());
    let d = node_named(&h, "A_B_C_D");
    assert_eq!(resolve(&h, d, "Target"), Ok("Target".to_string()));
    assert_eq!(resolve(&h, HEAD, "Target"), Ok("Target".to_string()));
}

#[test]
fn dotted_path_descends_after_first_match() {
    let program = program_of(vec![
        message("A", vec![message("B", vec![enumeration("C")])]),
        message("Z", vec![]),
    ]);
    let h = ProtoTypeHierarchy::from_program(&program, IdentifierQualifier::underscore());
    let z = node_named(&h, "Z");
    assert_eq!(resolve(&h, z, "A.B.C"), Ok("A_B_C".to_string()));
    assert_eq!(
        resolve(&h, z, "A.C"),
        Err(GenerationError::UnresolvedReference("A.C".to_string()))
    );
}

#[test]
fn later_segments_never_walk_upward() {
    let program = program_of(vec![message(
        "Foo",
        vec![message("Bar", vec![]), message("Baz", vec![])],
    )]);
    let h = ProtoTypeHierarchy::from_program(&program, IdentifierQualifier::underscore());
    let bar = node_named(&h, "Foo_Bar");
    assert_eq!(
        resolve(&h, bar, "Bar.Baz"),
        Err(GenerationError::UnresolvedReference("Bar.Baz".to_string()))
    );
    assert_eq!(resolve(&h, bar, "Baz"), Ok("Foo_Baz".to_string()));
    assert_eq!(resolve(&h, bar, "Foo.Baz"), Ok("Foo_Baz".to_string()));
}

#[test]
fn scope_own_name_is_found_through_its_parent() {
    // A type referring to itself: found as a child of the enclosing scope.
    let program = program_of(vec![message("Node", vec![])]);
    let h = ProtoTypeHierarchy::from_program(&program, IdentifierQualifier::underscore());
    assert_eq!(resolve(&h, 1, "Node"), Ok("Node".to_string()));
}

#[test]
fn child_sharing_scope_name_wins_over_scope_itself() {
    let program = program_of(vec![message("N", vec![enumeration("N")])]);
    let h = ProtoTypeHierarchy::from_program(&program, IdentifierQualifier::underscore());
    assert_eq!(resolve(&h, 1, "N"), Ok("N_N".to_string()));
}

#[test]
fn unknown_name_is_unresolved() {
    let program = program_of(vec![message("A", vec![])]);
    let h = ProtoTypeHierarchy::from_program(&program, IdentifierQualifier::underscore());
    assert_eq!(
        resolve(&h, 1, "B"),
        Err(GenerationError::UnresolvedReference("B".to_string()))
    );
    assert_eq!(
        resolve(&h, 1, "A.Missing"),
        Err(GenerationError::UnresolvedReference("A.Missing".to_string()))
    );
}

#[test]
fn flush_deep_orders_own_queue_before_children() {
    let program = program_of(vec![message(
        "Foo",
        vec![message("Bar", vec![enumeration("Baz")]), enumeration("Qux")],
    )]);
    let h = ProtoTypeHierarchy::from_program(&program, IdentifierQualifier::underscore());
    let mut root = GeneratorEnvironment::new(&h);
    let mut foo = root.child_for(1);
    let mut bar = foo.child_for(2);
    let mut baz = bar.child_for(3);
    baz.queue_output("Foo_Bar_Baz".to_string());
    bar.queue_output("Foo_Bar".to_string());
    bar.add_child(baz);
    let mut qux = foo.child_for(4);
    qux.queue_output("Foo_Qux".to_string());
    foo.queue_output("Foo".to_string());
    foo.add_child(bar);
    foo.add_child(qux);
    root.add_child(foo);

    let out = root.flush_queued_outputs_deep();
    assert_eq!(out, vec!["Foo", "Foo_Bar", "Foo_Bar_Baz", "Foo_Qux"]);
    assert!(root.flush_queued_outputs_deep().is_empty());
}

#[test]
fn flush_local_keeps_registration_order() {
    let program = program_of(vec![message("A", vec![])]);
    let h = ProtoTypeHierarchy::from_program(&program, IdentifierQualifier::underscore());
    let mut env = GeneratorEnvironment::new(&h);
    env.queue_output("one".to_string());
    env.queue_output("two".to_string());
    assert_eq!(env.flush_queued_outputs(), vec!["one", "two"]);
    assert!(env.flush_queued_outputs().is_empty());
    assert_eq!(env.get_fully_qualified_identifier(), None);
    assert_eq!(env.child_for(1).get_fully_qualified_identifier(), Some("A".to_string()));
}

#[test]
fn find_type_node_matches_by_equality() {
    let program = program_of(vec![message("A", vec![message("B", vec![enumeration("E")])])]);
    let h = ProtoTypeHierarchy::from_program(&program, IdentifierQualifier::underscore());
    assert_eq!(h.find_type_node(&message("B", vec![enumeration("E")])), Some(2));
    assert_eq!(h.find_type_node(&enumeration("E")), Some(3));
    assert_eq!(h.find_type_node(&message("B", vec![])), None);
    assert_eq!(h.find_type_node(&enumeration("Nope")), None);
}

#[test]
fn find_type_node_returns_first_equal_declaration() {
    let program = program_of(vec![
        message("A", vec![enumeration("E")]),
        message("B", vec![enumeration("E")]),
    ]);
    let h = ProtoTypeHierarchy::from_program(&program, IdentifierQualifier::underscore());
    assert_eq!(h.find_type_node(&enumeration("E")), Some(2));
}

#[test]
fn new_child_registers_an_environment_for_the_declaration() {
    let program = program_of(vec![message("A", vec![message("B", vec![])]), enumeration("C")]);
    let h = ProtoTypeHierarchy::from_program(&program, IdentifierQualifier::underscore());
    let mut root = GeneratorEnvironment::new(&h);
    root.queue_output("root".to_string());
    let b = root.new_child(&message("B", vec![]));
    let c = root.new_child(&enumeration("C"));
    assert_eq!((b, c), (0, 1));
    root.queue_child_output(c, "C unit".to_string());
    root.queue_child_output(b, "B unit".to_string());
    root.queue_child_output(b, "B again".to_string());
    assert_eq!(
        root.flush_queued_outputs_deep(),
        vec!["root", "B unit", "B again", "C unit"]
    );
    assert!(root.flush_queued_outputs_deep().is_empty());
}

#[test]
fn queued_child_output_precedes_grandchildren() {
    let program = program_of(vec![message("A", vec![enumeration("E")])]);
    let h = ProtoTypeHierarchy::from_program(&program, IdentifierQualifier::underscore());
    let mut root = GeneratorEnvironment::new(&h);
    let mut a = root.child_for(1);
    let mut e = a.child_for(2);
    e.queue_output("E".to_string());
    a.add_child(e);
    root.add_child(a);
    root.queue_child_output(0, "A".to_string());
    assert_eq!(root.flush_queued_outputs_deep(), vec!["A", "E"]);
}

#[test]
fn declaration_equality_is_structural() {
    assert!(eq_decl(&message("M", vec![enumeration("E")]), &message("M", vec![enumeration("E")])));
    assert!(!eq_decl(&message("M", vec![enumeration("E")]), &message("M", vec![enumeration("F")])));
    assert!(!eq_decl(&message("M", vec![]), &enumeration("M")));
    let mut with_field = ProtoMessage::new("M".to_string());
    with_field.fields.push(rsproto::types::ProtoMessageField {
        modifier: None,
        field_type: rsproto::types::ProtoFieldType::Primitive(rsproto::types::ProtoPrimitiveType::Int32),
        name: "x".to_string(),
        options: vec![],
        position: 1,
    });
    assert!(!eq_decl(&ProtoType::Message(with_field), &message("M", vec![])));
}
