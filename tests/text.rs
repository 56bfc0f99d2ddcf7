use rsproto::naming::NamingPolicy;
use rsproto::types::ProtoIdentifierPath;
use rsproto::utils::{camel_case, camel_case_lowered, CasedString};

#[test]
fn snake_case_becomes_camel_case() {
    assert_eq!(camel_case(CasedString::SnakeCase("date_of_birth_unix_epoch")), "dateOfBirthUnixEpoch");
    assert_eq!(camel_case(CasedString::SnakeCase("first_name")), "firstName");
}

#[test]
fn screaming_snake_case_becomes_camel_case() {
    assert_eq!(camel_case(CasedString::ScreamingSnakeCase("UNKNOWN_VALUE")), "unknownValue");
    assert_eq!(camel_case(CasedString::ScreamingSnakeCase("PARENT")), "parent");
}

#[test]
fn camel_case_edge_cases() {
    assert_eq!(camel_case(CasedString::SnakeCase("")), "");
    assert_eq!(camel_case(CasedString::SnakeCase("trailing_")), "trailing");
    assert_eq!(camel_case(CasedString::SnakeCase("a__b")), "a_b");
    assert_eq!(camel_case(CasedString::SnakeCase("_x")), "X");
}

#[test]
fn lowered_words_are_joined() {
    assert_eq!(camel_case_lowered("make_me_camel"), "makeMeCamel");
    assert_eq!(camel_case_lowered("ab_cd_"), "abCd");
    assert_eq!(camel_case(CasedString::SnakeCase("ÉTÉ_été")), "étéÉté");
}

#[test]
fn path_parts_split_on_dots() {
    let p = ProtoIdentifierPath::Path("Foo.Bar.Baz".to_string());
    assert_eq!(p.get_path_parts(), vec!["Foo", "Bar", "Baz"]);
    let single = ProtoIdentifierPath::Path("Foo".to_string());
    assert_eq!(single.get_path_parts(), vec!["Foo"]);
    let odd = ProtoIdentifierPath::Path(".a..".to_string());
    assert_eq!(odd.get_path_parts(), vec!["", "a", "", ""]);
    let empty = ProtoIdentifierPath::Path(String::new());
    assert_eq!(empty.get_path_parts(), vec![""]);
}

#[test]
fn qualifier_joins_parent_and_local_name() {
    let q = rsproto::naming::IdentifierQualifier::underscore();
    let decl = rsproto::types::ProtoType::Enum(rsproto::types::ProtoEnum::new("Kind".to_string()));
    assert_eq!(q.invoke(&decl, &None), "Kind");
    assert_eq!(q.invoke(&decl, &Some("Outer_Inner".to_string())), "Outer_Inner_Kind");
    assert_eq!(decl.get_name(), "Kind");
}
