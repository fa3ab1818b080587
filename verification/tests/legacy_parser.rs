use graphql_cache::graphql_parser::{parse_query, Field, OperationType, ParameterValue};

#[test]
fn legacy_parser_parses_fields_with_parameters() {
    let d = parse_query(String::from("{alias1: field1(p1: 10){sub1(p2: \"asd\") sub2}, field2}")).unwrap();
    assert_eq!(d.operations.len(), 1);
    assert_eq!(d.operations[0].operation_type, OperationType::Query);
    let f = &d.operations[0].fields;
    assert_eq!(f.len(), 2);
    match &f[0] {
        Field::Field { alias, name, parameters, fields } => {
            assert_eq!(alias.as_deref(), Some("alias1"));
            assert_eq!(name, "field1");
            assert_eq!(parameters.len(), 1);
            assert_eq!(parameters[0].name, "p1");
            assert!(matches!(&parameters[0].value, ParameterValue::Scalar(s) if s == "10"));
            assert_eq!(fields.len(), 2);
        }
        _ => panic!("expected a field"),
    }
}

#[test]
fn legacy_parser_accepts_an_empty_parameter_list() {
    let d = parse_query(String::from("{f()}")).unwrap();
    match &d.operations[0].fields[0] {
        Field::Field { parameters, .. } => assert_eq!(parameters.len(), 0),
        _ => panic!("expected a field"),
    }
    let current = graphql_cache::graphql::parser::parse_query("{f()}");
    assert_eq!(current.err().unwrap().as_str(), "list of parameters can't be empty");
}

#[test]
fn legacy_parser_wants_plain_variable_types() {
    let r = parse_query(String::from("query Q($v: Int!){f(a: $v)}"));
    assert_eq!(r.err().unwrap().as_str(), "invalid type Int!");
    let ok = parse_query(String::from("query Q($v: Int = 3){f(a: $v)}")).unwrap();
    assert_eq!(ok.operations[0].variables.len(), 1);
    assert_eq!(ok.operations[0].variables[0].typ, "Int");
}

#[test]
fn legacy_parser_wants_a_name_before_variables() {
    let r = parse_query(String::from("query ($v: Int){f}"));
    assert_eq!(r.err().unwrap().as_str(), "invalid token (");
}

#[test]
fn legacy_parser_reads_fragments() {
    let d = parse_query(String::from("query{u{...f}} fragment f on User{id name}")).unwrap();
    assert_eq!(d.fragment_definitions.len(), 1);
    assert_eq!(d.fragment_definitions[0].name, "f");
    assert_eq!(d.fragment_definitions[0].typ, "User");
    assert_eq!(d.fragment_definitions[0].fields.len(), 2);
    match &d.operations[0].fields[0] {
        Field::Field { fields, .. } => assert!(matches!(&fields[0], Field::Fragment { name } if name == "f")),
        _ => panic!("expected a field"),
    }
}

#[test]
fn legacy_parser_reports_errors() {
    assert_eq!(parse_query(String::from("")).err().unwrap().as_str(), "Unexpected end of string");
    assert_eq!(parse_query(String::from("{a}}")).err().unwrap().as_str(), "invalid token \"}\"");
    assert_eq!(
        parse_query(String::from("{a} {b}")).err().unwrap().as_str(),
        "Only one operation allowed in shorthand mode"
    );
}

#[test]
fn legacy_constructors_build_fields() {
    let f = Field::new_field(Some(String::from("a")), String::from("n"), vec![], vec![Field::new_fragment(String::from("g"))]);
    match f {
        Field::Field { alias, name, parameters, fields } => {
            assert_eq!(alias, Some(String::from("a")));
            assert_eq!(name, "n");
            assert!(parameters.is_empty());
            assert_eq!(fields.len(), 1);
        }
        _ => panic!("expected a field"),
    }
}
