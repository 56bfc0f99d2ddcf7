use rsproto::code_gen::{generator_for, CodeGenerator, Language};
use rsproto::dart::DartCodeGenerator;
use rsproto::environment::GenerationError;
use rsproto::types::{
    Program, ProtoEnum, ProtoEnumValue, ProtoFieldType, ProtoIdentifierPath, ProtoMessage,
    ProtoMessageField, ProtoPrimitiveType, ProtoType,
};

fn field(name: &str, field_type: ProtoFieldType, position: u32) -> ProtoMessageField {
    ProtoMessageField {
        modifier: None,
        field_type,
        name: name.to_string(),
        options: vec![],
        position,
    }
}

fn path(p: &str) -> ProtoFieldType {
    ProtoFieldType::IdentifierPath(ProtoIdentifierPath::Path(p.to_string()))
}

fn empty_enum(name: &str) -> ProtoType {
    ProtoType::Enum(ProtoEnum::new(name.to_string()))
}

fn nested_program() -> Program {
    let mut bar = ProtoMessage::new("Bar".to_string());
    bar.fields.push(field("bar", path("Bar"), 1));
    bar.types.push(empty_enum("Baz"));

    let mut baz = ProtoMessage::new("Baz".to_string());
    baz.fields.push(field("bar", path("Bar"), 1));
    baz.fields.push(field("bar2", path("Baz.Bar"), 2));
    baz.fields.push(field("baz", path("Foo.Bar.Baz"), 3));
    baz.types.push(empty_enum("Bar"));

    let mut foo = ProtoMessage::new("Foo".to_string());
    foo.types.push(ProtoType::Message(bar));
    foo.types.push(ProtoType::Message(baz));

    let mut program = Program::new();
    program.types.push(ProtoType::Message(foo));
    program
}

fn gen_code_for_test(program: &Program) -> String {
    let generator = DartCodeGenerator::new();
    generator.gen_code(program).expect("unsuccessful codegen")
}

#[test]
fn test_nested() {
    let result = gen_code_for_test(&nested_program());

    assert_eq!(
        result,
        "class Foo {\n}

class Foo_Bar {
\tFoo_Bar bar;
}

class Foo_Bar_Baz extends ProtobufEnum {

\tstatic List<Foo_Bar_Baz> values = [

\t];

\tFoo_Bar_Baz._(int position, String name) {
\t\tthis.position = position;
\t\tthis.name = name;
\t}
}

class Foo_Baz {
\tFoo_Baz_Bar bar;
\tFoo_Baz_Bar bar2;
\tFoo_Bar_Baz baz;
}

class Foo_Baz_Bar extends ProtobufEnum {

\tstatic List<Foo_Baz_Bar> values = [

\t];

\tFoo_Baz_Bar._(int position, String name) {
\t\tthis.position = position;
\t\tthis.name = name;
\t}
}"
    );
}

#[test]
fn dart_test_message() {
    let mut person = ProtoMessage::new("Person".to_string());
    person.fields.push(field(
        "first_name",
        ProtoFieldType::Primitive(ProtoPrimitiveType::Str),
        1,
    ));
    person.fields.push(field(
        "last_name",
        ProtoFieldType::Primitive(ProtoPrimitiveType::Str),
        2,
    ));
    person.fields.push(field(
        "date_of_birth_unix_epoch",
        ProtoFieldType::Primitive(ProtoPrimitiveType::Int64),
        3,
    ));
    let mut program = Program::new();
    program.types.push(ProtoType::Message(person));

    let result = gen_code_for_test(&program);

    assert_eq!(
        result,
        "class Person {
\tString firstName;
\tString lastName;
\tint dateOfBirthUnixEpoch;
}"
    );
}

#[test]
fn dart_test_enum() {
    let mut relationship = ProtoEnum::new("RelationshipType".to_string());
    for (position, name) in [
        "UNKNOWN_VALUE",
        "PARENT",
        "SIBLING",
        "CHILD",
        "ANCESTOR",
        "DESCENDANT",
    ]
    .iter()
    .enumerate()
    {
        relationship.values.push(ProtoEnumValue {
            name: name.to_string(),
            options: vec![],
            position: position as u32,
        });
    }
    let mut program = Program::new();
    program.types.push(ProtoType::Enum(relationship));

    let result = gen_code_for_test(&program);

    assert_eq!(
        result,
        "class RelationshipType extends ProtobufEnum {
\tstatic RelationshipType unknownValue = RelationshipType._(0, \"UNKNOWN_VALUE\");
\tstatic RelationshipType parent = RelationshipType._(1, \"PARENT\");
\tstatic RelationshipType sibling = RelationshipType._(2, \"SIBLING\");
\tstatic RelationshipType child = RelationshipType._(3, \"CHILD\");
\tstatic RelationshipType ancestor = RelationshipType._(4, \"ANCESTOR\");
\tstatic RelationshipType descendant = RelationshipType._(5, \"DESCENDANT\");

\tstatic List<RelationshipType> values = [
\t\tunknownValue,
\t\tparent,
\t\tsibling,
\t\tchild,
\t\tancestor,
\t\tdescendant
\t];

\tRelationshipType._(int position, String name) {
\t\tthis.position = position;
\t\tthis.name = name;
\t}
}"
    );
}

fn class_names(output: &str) -> Vec<String> {
    output
        .split("class ")
        .skip(1)
        .map(|rest| rest.split(' ').next().unwrap().to_string())
        .collect()
}

#[test]
fn nested_units_flatten_in_pre_order() {
    let mut bar = ProtoMessage::new("Bar".to_string());
    bar.types.push(empty_enum("Baz"));
    let mut foo = ProtoMessage::new("Foo".to_string());
    foo.types.push(ProtoType::Message(bar));
    foo.types.push(empty_enum("Qux"));
    let mut program = Program::new();
    program.types.push(ProtoType::Message(foo));

    let out = gen_code_for_test(&program);
    assert_eq!(
        class_names(&out),
        vec!["Foo", "Foo_Bar", "Foo_Bar_Baz", "Foo_Qux"]
    );
}

#[test]
fn top_level_classes_precede_nested_ones() {
    let mut a = ProtoMessage::new("A".to_string());
    a.types.push(empty_enum("E"));
    let b = ProtoMessage::new("B".to_string());
    let mut program = Program::new();
    program.types.push(ProtoType::Message(a));
    program.types.push(ProtoType::Message(b));

    let out = gen_code_for_test(&program);
    assert_eq!(class_names(&out), vec!["A", "B", "A_E"]);
    assert!(out.starts_with("class A {\n}class B {\n}\n\nclass A_E extends"));
}

#[test]
fn pipeline_is_deterministic() {
    let program = nested_program();
    let generator = generator_for(Language::Dart);
    let first = generator.gen_code(&program);
    let second = generator.gen_code(&program);
    assert!(first.is_ok());
    assert_eq!(first, second);
}

#[test]
fn undeclared_type_is_reported_without_output() {
    let mut m = ProtoMessage::new("M".to_string());
    m.fields.push(field("x", path("Missing"), 1));
    let mut program = Program::new();
    program.types.push(ProtoType::Message(m));

    let generator = DartCodeGenerator::new();
    assert_eq!(
        generator.gen_code(&program),
        Err(GenerationError::UnresolvedReference("Missing".to_string()))
    );
}

#[test]
fn undeclared_type_in_nested_declaration_fails_whole_run() {
    let mut inner = ProtoMessage::new("Inner".to_string());
    inner.fields.push(field("x", path("Outer.Nope"), 1));
    let mut outer = ProtoMessage::new("Outer".to_string());
    outer.types.push(ProtoType::Message(inner));
    let mut program = Program::new();
    program.types.push(ProtoType::Message(outer));

    let generator = DartCodeGenerator::new();
    assert_eq!(
        generator.gen_code(&program),
        Err(GenerationError::UnresolvedReference("Outer.Nope".to_string()))
    );
}

#[test]
fn map_fields_name_both_types() {
    let mut m = ProtoMessage::new("M".to_string());
    m.types.push(empty_enum("Kind"));
    m.fields.push(field(
        "by_id",
        ProtoFieldType::Primitive(ProtoPrimitiveType::MapOf(
            Box::new(ProtoFieldType::Primitive(ProtoPrimitiveType::Int32)),
            Box::new(path("Kind")),
        )),
        1,
    ));
    m.fields.push(field(
        "flag",
        ProtoFieldType::Primitive(ProtoPrimitiveType::Boolean),
        2,
    ));
    let mut program = Program::new();
    program.types.push(ProtoType::Message(m));

    let out = gen_code_for_test(&program);
    assert!(out.starts_with("class M {\n\tMap<int, M_Kind> byId;\n\tbool flag;\n}\n\nclass M_Kind extends"));
}

#[test]
fn enum_positions_are_written_in_decimal() {
    let mut e = ProtoEnum::new("Code".to_string());
    e.values.push(ProtoEnumValue {
        name: "NOT_FOUND".to_string(),
        options: vec![],
        position: 404,
    });
    let mut program = Program::new();
    program.types.push(ProtoType::Enum(e));

    let out = gen_code_for_test(&program);
    assert!(out.contains("\tstatic Code notFound = Code._(404, \"NOT_FOUND\");\n"));
    assert!(out.contains("values = [\n\t\tnotFound\n\t];"));
}

#[test]
fn empty_program_generates_nothing() {
    let program = Program::new();
    assert_eq!(gen_code_for_test(&program), "");
}
