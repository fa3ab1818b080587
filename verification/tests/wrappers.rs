use graphql_cache::graphql::cache::memory_cache::{CleanupState, InnerCache};
use graphql_cache::graphql::cache::redis_cache::RedisCacheError;
use graphql_cache::graphql::cache::{complete_query, plan_query, QueryPlan};
use graphql_cache::graphql::json::Json;
use graphql_cache::graphql::parser::parse_query;
use graphql_cache::graphql_deserializer::{CacheControl, CacheHintDto, GraphQLExtensions, GraphQLResponse};

#[test]
fn object_parameter_key_holds_the_debug_text() {
    let mut cache = InnerCache::new();
    let document = parse_query("{f(p: {a: 1}){x}}").unwrap();
    let now: i128 = 1_000_000;
    let (residual, cached) = match plan_query(document, &mut cache, &None, now).unwrap().unwrap() {
        QueryPlan::Partial(r, c) => (r, c),
        _ => panic!("expected a partial plan"),
    };
    let data = Json::Object(vec![(
        String::from("f"),
        Json::Object(vec![(String::from("x"), Json::Number(String::from("1")))]),
    )]);
    let response = GraphQLResponse {
        data: data,
        extensions: Some(GraphQLExtensions {
            cache_control: CacheControl {
                version: 1,
                hints: vec![CacheHintDto { path: vec![String::from("f")], max_age: Some(10), scope: None }],
            },
        }),
    };
    complete_query(response, cached, &residual, &mut cache, &None, now).unwrap();
    let keys: Vec<String> = cache.store().iter().map(|(k, _)| k.clone()).collect();
    assert_eq!(keys, vec![String::from("f_pOBJ[ParameterField { name: \"a\", value: Scalar(\"1\") }]")]);
}

#[test]
fn list_parameter_key_holds_the_debug_text() {
    let mut cache = InnerCache::new();
    let document = parse_query("{f(p: [1, 2]){x}}").unwrap();
    let now: i128 = 1_000_000;
    let (residual, cached) = match plan_query(document, &mut cache, &None, now).unwrap().unwrap() {
        QueryPlan::Partial(r, c) => (r, c),
        _ => panic!("expected a partial plan"),
    };
    let data = Json::Object(vec![(
        String::from("f"),
        Json::Object(vec![(String::from("x"), Json::Bool(true))]),
    )]);
    let response = GraphQLResponse {
        data: data,
        extensions: Some(GraphQLExtensions {
            cache_control: CacheControl {
                version: 1,
                hints: vec![CacheHintDto { path: vec![String::from("f")], max_age: Some(10), scope: None }],
            },
        }),
    };
    complete_query(response, cached, &residual, &mut cache, &None, now).unwrap();
    let keys: Vec<String> = cache.store().iter().map(|(k, _)| k.clone()).collect();
    assert_eq!(keys, vec![String::from("f_pLST[Scalar(\"1\"), Scalar(\"2\")]")]);
}

#[test]
fn names_must_start_with_a_letter() {
    assert_eq!(parse_query("{1a}").err().unwrap().as_str(), "invalid token 1a");
    assert_eq!(parse_query("{a-b}").err().unwrap().as_str(), "invalid token a-b");
    assert!(parse_query("{a_1}").is_ok());
}

#[test]
fn clean_up_beyond_twenty_keys_looks_at_a_window() {
    let mut cache = InnerCache::new();
    let mut cleanup = CleanupState::new();
    for i in 0..25 {
        cache.insert_at(format!("k{}", i), 1, Json::Null, 0);
    }
    // every entry expired long ago; a pass looks at 19 + 25 / 20 = 20 keys
    let wait = cleanup.clean_up(&mut cache);
    assert!(!wait);
    assert_eq!(cache.store().len(), 5);
}

#[test]
fn redis_errors_are_creation_errors() {
    let e = redis::RedisError::from((redis::ErrorKind::IoError, "connection refused"));
    assert_eq!(RedisCacheError::from(e), RedisCacheError::CreateError);
}
