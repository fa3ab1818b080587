use graphql_cache::graphql::parser::{parse_query, serialize_document, Field, ParameterValue};

#[test]
fn parser_can_parse_simple_query() {
    let query = "{field}";
    let parsed_query = parse_query(query).unwrap();

    assert_eq!(1, parsed_query.operations.len());
    assert_eq!(1, parsed_query.operations[0].fields.len());
    assert_eq!("field", parsed_query.operations[0].fields[0].get_name());
}

#[test]
fn parser_can_parse_simple_query_with_spaces() {
    let query = "{ field }";
    let parsed_query = parse_query(query).unwrap();

    assert_eq!(1, parsed_query.operations.len());
    assert_eq!(1, parsed_query.operations[0].fields.len());
    assert_eq!("field", parsed_query.operations[0].fields[0].get_name());
}

#[test]
fn parser_can_parse_simple_query_with_commas() {
    let query = "{ field, field2, field3 }";
    let parsed_query = parse_query(query).unwrap();

    assert_eq!(1, parsed_query.operations.len());
    assert_eq!(3, parsed_query.operations[0].fields.len());
    assert_eq!("field", parsed_query.operations[0].fields[0].get_name());
    assert_eq!("field2", parsed_query.operations[0].fields[1].get_name());
    assert_eq!("field3", parsed_query.operations[0].fields[2].get_name());
}

#[test]
fn parser_can_parse_simple_query_with_subfields() {
    let query = "{ field {sub1 sub2}, field2 field3 {sub3, sub4} }";
    let parsed_query = parse_query(query).unwrap();

    assert_eq!(1, parsed_query.operations.len());
    assert_eq!(3, parsed_query.operations[0].fields.len());
    assert_eq!("field", parsed_query.operations[0].fields[0].get_name());
    assert_eq!("field2", parsed_query.operations[0].fields[1].get_name());
    assert_eq!("field3", parsed_query.operations[0].fields[2].get_name());

    assert_eq!(
        2,
        parsed_query.operations[0].fields[0].get_subfields().len()
    );
    assert_eq!(
        "sub1",
        parsed_query.operations[0].fields[0].get_subfields()[0].get_name()
    );
    assert_eq!(
        "sub2",
        parsed_query.operations[0].fields[0].get_subfields()[1].get_name()
    );

    assert_eq!(
        0,
        parsed_query.operations[0].fields[1].get_subfields().len()
    );

    assert_eq!(
        2,
        parsed_query.operations[0].fields[2].get_subfields().len()
    );
    assert_eq!(
        "sub3",
        parsed_query.operations[0].fields[2].get_subfields()[0].get_name()
    );
    assert_eq!(
        "sub4",
        parsed_query.operations[0].fields[2].get_subfields()[1].get_name()
    );
}

#[test]
fn parser_can_parse_query_with_aliases() {
    let query = "{alias1: field1{subalias1: sub1 sub2}, alias2: field1}";
    let parsed_query = parse_query(query).unwrap();

    assert_eq!(1, parsed_query.operations.len());
    assert_eq!(2, parsed_query.operations[0].fields.len());
    assert_eq!("field1", parsed_query.operations[0].fields[0].get_name());
    assert_eq!("alias1", parsed_query.operations[0].fields[0].get_alias());
    assert_eq!("field1", parsed_query.operations[0].fields[1].get_name());
    assert_eq!("alias2", parsed_query.operations[0].fields[1].get_alias());

    assert_eq!(
        2,
        parsed_query.operations[0].fields[0].get_subfields().len()
    );
    assert_eq!(
        "sub1",
        parsed_query.operations[0].fields[0].get_subfields()[0].get_name()
    );
    assert_eq!(
        "subalias1",
        parsed_query.operations[0].fields[0].get_subfields()[0].get_alias()
    );
    assert_eq!(
        "sub2",
        parsed_query.operations[0].fields[0].get_subfields()[1].get_name()
    );

    assert_eq!(
        0,
        parsed_query.operations[0].fields[1].get_subfields().len()
    );
}

#[test]
fn parser_can_parse_query_with_parameters() {
    let query = "{alias1: field1(p1: 10){subalias1: sub1(p2: \"asd\") sub2}, alias2: field1}";
    let parsed_query = parse_query(query).unwrap();

    assert_eq!(1, parsed_query.operations.len());
    assert_eq!(2, parsed_query.operations[0].fields.len());
    assert_eq!("field1", parsed_query.operations[0].fields[0].get_name());
    assert_eq!("alias1", parsed_query.operations[0].fields[0].get_alias());
    assert_eq!(
        1,
        parsed_query.operations[0].fields[0].get_parameters().len()
    );
    assert_eq!(
        "p1",
        parsed_query.operations[0].fields[0].get_parameters()[0].name
    );
    matches!(parsed_query.operations[0].fields[0].get_parameters()[0].value, ParameterValue::Scalar(p1) if p1 == "10");

    assert_eq!("field1", parsed_query.operations[0].fields[1].get_name());
    assert_eq!("alias2", parsed_query.operations[0].fields[1].get_alias());

    assert_eq!(
        2,
        parsed_query.operations[0].fields[0].get_subfields().len()
    );
    assert_eq!(
        "sub1",
        parsed_query.operations[0].fields[0].get_subfields()[0].get_name()
    );
    matches!(parsed_query.operations[0].fields[0].get_subfields()[0].get_parameters()[0].value, ParameterValue::Scalar(p1) if p1 == "\"asd\"");

    assert_eq!(
        "subalias1",
        parsed_query.operations[0].fields[0].get_subfields()[0].get_alias()
    );
    assert_eq!(
        "sub2",
        parsed_query.operations[0].fields[0].get_subfields()[1].get_name()
    );

    assert_eq!(
        0,
        parsed_query.operations[0].fields[1].get_subfields().len()
    );
}

#[test]
fn parser_can_parse_query_with_fragments() {
    let query = "query TheQuery { users{ ...userFragment surname friends {...userFragment surname } } } fragment userFragment on User { id name }";
    let parsed_query = parse_query(query).unwrap();

    assert_eq!(1, parsed_query.operations.len());
    assert_eq!(1, parsed_query.fragment_definitions.len());

    assert_eq!("users", parsed_query.operations[0].fields[0].get_name());
    matches!(parsed_query.operations[0].fields[0].get_subfields()[0], Field::Fragment { name } if name == "userFragment");

    assert_eq!(
        "surname",
        parsed_query.operations[0].fields[0].get_subfields()[1].get_name()
    );
    assert_eq!(
        "friends",
        parsed_query.operations[0].fields[0].get_subfields()[2].get_name()
    );

    matches!(parsed_query.operations[0].fields[0].get_subfields()[2].get_subfields()[0], Field::Fragment { name } if name == "userFragment");
    assert_eq!(
        "surname",
        parsed_query.operations[0].fields[0].get_subfields()[2].get_subfields()[1].get_name()
    );
}

#[test]
fn parser_preserves_spaces_in_string_parameters() {
    let query = "{field1(p:\"as              d              \")}";
    let parsed_query = parse_query(query).unwrap();

    matches!(parsed_query.operations[0].fields[0].get_parameters()[0].value, ParameterValue::Scalar(p1) if p1 == "as              d              ");
}

#[test]
fn parsed_string_can_be_serialized() {
    let query = "{field1}";
    let parsed_query = parse_query(query).unwrap();
    let serialized_query = serialize_document(&parsed_query);

    assert_eq!(query, serialized_query);
}

#[test]
fn parsed_string_with_two_fields_can_be_serialized() {
    let query = "{field1 field2}";
    let parsed_query = parse_query(query).unwrap();
    let serialized_query = serialize_document(&parsed_query);

    assert_eq!(query, serialized_query);
}

#[test]
fn parsed_string_with_subfields_can_be_serialized() {
    let query = "{field1{subfield1 subfield2} field2}";
    let parsed_query = parse_query(query).unwrap();
    let serialized_query = serialize_document(&parsed_query);

    assert_eq!(query, serialized_query);
}

#[test]
fn parsed_string_with_subfields_and_parameters_can_be_serialized() {
    let query = "{field1(p1:1){subfield1(p2:2) subfield2} field2}";
    let parsed_query = parse_query(query).unwrap();
    let serialized_query = serialize_document(&parsed_query);

    assert_eq!(query, serialized_query);
}

#[test]
fn parsed_mutation_can_be_serialized() {
    let query = "mutation{addUser(id:\"123\" name:\"the name\")}";
    let parsed_query = parse_query(query).unwrap();
    let serialized_query = serialize_document(&parsed_query);

    assert_eq!(query, serialized_query);
}

#[test]
fn parsed_query_with_fragment_can_be_serialized() {
    let query = "query{getUser(id:\"123\"){...frag}}fragment frag on user{id name}";
    let parsed_query = parse_query(query).unwrap();
    let serialized_query = serialize_document(&parsed_query);

    assert_eq!(query, serialized_query);
}

#[test]
fn parsed_query_with_parameter_can_be_serialized() {
    let query = "{launch(id:109){id site mission{name}}}";
    let parsed_query = parse_query(query).unwrap();
    let serialized_query = serialize_document(&parsed_query);

    assert_eq!(query, serialized_query);
}

#[test]
fn parsed_nameless_query_with_parameter_can_be_serialized() {
    let query = "query($launchId:Int!){launch(id:$launchId){id site mission{name}}}";
    let parsed_query = parse_query(query).unwrap();
    let serialized_query = serialize_document(&parsed_query);

    assert_eq!(query, serialized_query);
}
