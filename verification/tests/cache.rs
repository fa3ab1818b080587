use graphql_cache::graphql::cache::memory_cache::InnerCache;
use graphql_cache::graphql::cache::{complete_query, data_response, plan_query, QueryPlan};
use graphql_cache::graphql::json::Json;
use graphql_cache::graphql::parser::parse_query;
use graphql_cache::graphql_deserializer::{
    CacheControl, CacheHintDto, CacheScope, GraphQLExtensions, GraphQLResponse,
};

const NOW: i128 = 1_700_000_000_000_000_000;

fn value_to_json(v: &serde_json::Value) -> Json {
    match v {
        serde_json::Value::Null => Json::Null,
        serde_json::Value::Bool(b) => Json::Bool(*b),
        serde_json::Value::Number(n) => Json::Number(n.to_string()),
        serde_json::Value::String(s) => Json::Str(s.clone()),
        serde_json::Value::Array(a) => Json::Array(a.iter().map(value_to_json).collect()),
        serde_json::Value::Object(m) => {
            let mut members: Vec<(String, Json)> = m.iter().map(|(k, v)| (k.clone(), value_to_json(v))).collect();
            members.sort_by(|a, b| a.0.cmp(&b.0));
            Json::Object(members)
        }
    }
}

fn json_text(text: &str) -> Json {
    value_to_json(&serde_json::from_str::<serde_json::Value>(text).unwrap())
}

fn hint(path: &[&str], max_age: u16, private: bool) -> CacheHintDto {
    CacheHintDto {
        path: path.iter().map(|p| p.to_string()).collect(),
        max_age: Some(max_age),
        scope: if private { Some(CacheScope::PRIVATE) } else { None },
    }
}

fn server_response(data: &str, hints: Vec<CacheHintDto>) -> GraphQLResponse {
    GraphQLResponse {
        data: json_text(data),
        extensions: Some(GraphQLExtensions { cache_control: CacheControl { version: 1, hints: hints } }),
    }
}

fn fake_response() -> GraphQLResponse {
    server_response(
        r#"{"field1": {"subfield1": 55, "subfield2": 777, "aliased_subfield": 123, "aliased_private_subfield": 111}}"#,
        vec![
            hint(&["field1"], 2000, false),
            hint(&["field1", "subfield1"], 1000, false),
            hint(&["field1", "aliased_private_subfield"], 1000, true),
        ],
    )
}

/// Answers a query as the server does, with `send` standing for the request to the GraphQL
/// server (`None`: it must not be called).
fn process(query: &str, cache: &mut InnerCache, user: Option<String>, send: Option<GraphQLResponse>) -> Json {
    let document = parse_query(query).unwrap();
    match plan_query(document, cache, &user, NOW).unwrap().unwrap() {
        QueryPlan::Forward(_) => panic!("unexpected forward"),
        QueryPlan::Cached(data) => data_response(data),
        QueryPlan::Partial(residual, cached) => {
            let r = send.expect("This method should never be called");
            complete_query(r, cached, &residual, cache, &user, NOW).unwrap()
        }
    }
}

const QUERY: &str = "{field1{subfield1 subfield2 aliased_subfield: subfield3(id: 13) aliased_private_subfield: subfield3(id: 11)}}";

#[test]
fn process_query_does_not_send_request_if_all_fields_are_cached() {
    let mut cache = InnerCache::new();
    let result1 = process(QUERY, &mut cache, Some(String::from("u1")), Some(fake_response()));
    let result2 = process(QUERY, &mut cache, Some(String::from("u1")), None);
    assert_eq!(result1, result2);
}

#[test]
fn process_query_doesnt_send_request_if_all_fields_are_cached2() {
    let mut cache = InnerCache::new();
    let query2 = "{field1{subfield1}}";
    let expected_result_1 = r#"{"field1":{"subfield1":55,"subfield2":777,"aliased_subfield":123,"aliased_private_subfield":111}}"#;
    let hints = vec![
        hint(&["field1"], 2000, false),
        hint(&["field1", "subfield1"], 1000, false),
        hint(&["field1", "aliased_private_subfield"], 1000, true),
    ];
    let result1 = process(QUERY, &mut cache, Some(String::from("u1")), Some(server_response(expected_result_1, hints)));
    let result2 = process(query2, &mut cache, Some(String::from("u1")), None);
    assert_eq!(result1, data_response(json_text(expected_result_1)));
    assert_eq!(result2, json_text(r#"{"data":{"field1":{"subfield1":55}}}"#));
}

#[test]
fn process_query_doesnt_send_request_if_all_fields_are_cached_and_aliased() {
    let mut cache = InnerCache::new();
    let query2 = "{aliased_field1: field1{aliased_subfield1: subfield1}}";
    let result1 = process(QUERY, &mut cache, Some(String::from("u1")), Some(fake_response()));
    let result2 = process(query2, &mut cache, Some(String::from("u1")), None);
    assert_eq!(
        result1,
        json_text(r#"{"data":{"field1":{"subfield1":55,"subfield2":777,"aliased_subfield":123,"aliased_private_subfield":111}}}"#)
    );
    assert_eq!(result2, json_text(r#"{"data":{"aliased_field1":{"aliased_subfield1":55}}}"#));
}

#[test]
fn process_query_does_not_get_value_from_private_caches_for_different_users() {
    let mut cache = InnerCache::new();
    let query2 = "{field1{subfield1, subfield3(id: 11)}}";
    let result1 = process(QUERY, &mut cache, Some(String::from("u1")), Some(fake_response()));
    let result2 = process(query2, &mut cache, Some(String::from("u2")), Some(server_response(r#"{"field1": {"subfield3":999}}"#, vec![])));
    assert_eq!(
        result1,
        json_text(r#"{"data":{"field1":{"subfield1":55,"subfield2":777,"aliased_subfield":123,"aliased_private_subfield":111}}}"#)
    );
    assert_eq!(result2, json_text(r#"{"data":{"field1":{"subfield1":55, "subfield3":999}}}"#));
}

#[test]
fn private_value_is_served_to_its_user() {
    let mut cache = InnerCache::new();
    let _ = process(QUERY, &mut cache, Some(String::from("u1")), Some(fake_response()));
    let r = process("{field1{subfield3(id: 11)}}", &mut cache, Some(String::from("u1")), None);
    assert_eq!(r, json_text(r#"{"data":{"field1":{"subfield3":111}}}"#));
}

#[test]
fn anonymous_user_gets_no_private_value_and_caches_none() {
    let mut cache = InnerCache::new();
    let _ = process(QUERY, &mut cache, None, Some(fake_response()));
    let document = parse_query("{field1{subfield3(id: 11)}}").unwrap();
    match plan_query(document, &mut cache, &None, NOW).unwrap().unwrap() {
        QueryPlan::Partial(residual, cached) => {
            assert_eq!(residual.operations.len(), 1);
            assert_eq!(cached, json_text(r#"{}"#));
        }
        _ => panic!("expected a partial plan"),
    }
}

#[test]
fn mutation_is_forwarded_whole() {
    let mut cache = InnerCache::new();
    let document = parse_query("mutation{addUser(id:\"1\"){id}}").unwrap();
    match plan_query(document, &mut cache, &None, NOW).unwrap().unwrap() {
        QueryPlan::Forward(d) => assert_eq!(d.operations.len(), 1),
        _ => panic!("expected a forward"),
    }
}

#[test]
fn empty_cache_leaves_the_whole_query_over() {
    let mut cache = InnerCache::new();
    let document = parse_query("{a{b c}}").unwrap();
    match plan_query(document, &mut cache, &None, NOW).unwrap().unwrap() {
        QueryPlan::Partial(residual, cached) => {
            assert_eq!(residual.operations[0].fields.len(), 1);
            assert_eq!(residual.operations[0].fields[0].get_subfields().len(), 2);
            assert_eq!(cached, json_text("{}"));
        }
        _ => panic!("expected a partial plan"),
    }
}

#[test]
fn recursive_fragment_is_an_error() {
    let mut cache = InnerCache::new();
    let document = parse_query("{a{...f}} fragment f on T {b ...f}").unwrap();
    match plan_query(document, &mut cache, &None, NOW).unwrap() {
        Err(e) => assert_eq!(e.as_str(), "Recursive fragment structure"),
        Ok(_) => panic!("expected an error"),
    }
}

#[test]
fn missing_fragment_fails_the_plan() {
    let mut cache = InnerCache::new();
    let document = parse_query("{a{...g}} fragment f on T {b}").unwrap();
    assert!(plan_query(document, &mut cache, &None, NOW).is_none());
}

#[test]
fn repeated_subfield_without_cached_value_fails_the_plan() {
    let mut cache = InnerCache::new();
    let document = parse_query("{user{a: name b: name}}").unwrap();
    assert!(plan_query(document, &mut cache, &None, NOW).is_none());
}

#[test]
fn data_response_wraps_the_value() {
    assert_eq!(data_response(json_text(r#"{"a": 1}"#)), json_text(r#"{"data": {"a": 1}}"#));
}

#[test]
fn cached_values_expire() {
    let mut cache = InnerCache::new();
    let _ = process(QUERY, &mut cache, Some(String::from("u1")), Some(fake_response()));
    let document = parse_query("{field1{subfield1}}").unwrap();
    let later = NOW + 2_000_000_000_000;
    match plan_query(document, &mut cache, &Some(String::from("u1")), later).unwrap().unwrap() {
        QueryPlan::Partial(_, cached) => assert_eq!(cached, json_text("{}")),
        _ => panic!("expected a partial plan"),
    }
}

#[test]
fn aliased_subfields_are_cached_under_their_aliases() {
    let mut cache = InnerCache::new();
    let query = "{f{x: a}}";
    let first = process(
        query,
        &mut cache,
        None,
        Some(server_response(r#"{"f": {"x": 1}}"#, vec![hint(&["f"], 100, false)])),
    );
    assert_eq!(first, json_text(r#"{"data": {"f": {"x": 1}}}"#));
    // the subfield is looked up by its name `a`, but was cached under its alias `x`
    let document = parse_query(query).unwrap();
    match plan_query(document, &mut cache, &None, NOW).unwrap().unwrap() {
        QueryPlan::Partial(residual, cached) => {
            assert_eq!(residual.operations.len(), 1);
            assert_eq!(cached, json_text("{}"));
        }
        _ => panic!("expected a partial plan"),
    }
}

#[test]
fn selection_of_plain_subfields_is_answered_from_the_cache() {
    let mut cache = InnerCache::new();
    let query = "{top: f(id: 3){a b}}";
    let data = r#"{"top": {"a": 1, "b": "x"}}"#;
    let first = process(query, &mut cache, Some(String::from("u1")), Some(server_response(data, vec![hint(&["top"], 100, true)])));
    assert_eq!(first, json_text(&format!("{{\"data\": {}}}", data)));
    let second = process(query, &mut cache, Some(String::from("u1")), None);
    assert_eq!(second, first);
    let document = parse_query(query).unwrap();
    match plan_query(document, &mut cache, &Some(String::from("u2")), NOW).unwrap().unwrap() {
        QueryPlan::Partial(_, cached) => assert_eq!(cached, json_text("{}")),
        _ => panic!("expected a partial plan"),
    }
}
