use graphql_cache::request::{read_request, VariablesKind};

#[test]
fn request_without_query_is_answered_no() {
    assert_eq!(read_request(None, VariablesKind::Missing, None).err(), Some(String::from("no")));
}

#[test]
fn request_with_bad_query_is_answered_nein() {
    assert_eq!(read_request(Some("{"), VariablesKind::Missing, None).err(), Some(String::from("nein")));
}

#[test]
fn request_with_bad_variables_is_answered() {
    assert_eq!(read_request(Some("{a}"), VariablesKind::Other, None).err(), Some(String::from("nein variables")));
}

#[test]
fn request_with_several_operations_needs_a_name() {
    let q = "query A{a} query B{b}";
    assert_eq!(read_request(Some(q), VariablesKind::Object, None).err(), Some(String::from("nein operationName")));
    assert_eq!(read_request(Some(q), VariablesKind::Object, Some("C")).err(), Some(String::from("operationName ist gulen")));
    let d = read_request(Some(q), VariablesKind::Object, Some("B")).unwrap();
    assert_eq!(d.operations.len(), 1);
    assert_eq!(d.operations[0].name, Some("B"));
}

#[test]
fn request_with_one_operation_runs_it() {
    let d = read_request(Some("{a b}"), VariablesKind::Missing, Some("ignored")).unwrap();
    assert_eq!(d.operations.len(), 1);
    assert_eq!(d.operations[0].fields.len(), 2);
}
