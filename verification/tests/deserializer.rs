use graphql_cache::graphql::cache::memory_cache::InnerCache;
use graphql_cache::graphql::json::Json;
use graphql_cache::graphql_deserializer::{
    CacheControl, CacheHintDto, CacheScope, GraphQLExtensions, GraphQLResponse,
};

fn json_of_value(v: &serde_json::Value) -> Json {
    match v {
        serde_json::Value::Null => Json::Null,
        serde_json::Value::Bool(b) => Json::Bool(*b),
        serde_json::Value::Number(n) => Json::Number(n.to_string()),
        serde_json::Value::String(s) => Json::Str(s.clone()),
        serde_json::Value::Array(a) => Json::Array(a.iter().map(json_of_value).collect()),
        serde_json::Value::Object(m) => {
            let mut members: Vec<(String, Json)> = m.iter().map(|(k, v)| (k.clone(), json_of_value(v))).collect();
            members.sort_by(|a, b| a.0.cmp(&b.0));
            Json::Object(members)
        }
    }
}

fn parsed(text: &str) -> Json {
    json_of_value(&serde_json::from_str::<serde_json::Value>(text).unwrap())
}

fn response_of(text: &str) -> GraphQLResponse {
    let v: serde_json::Value = serde_json::from_str(text).unwrap();
    let extensions = v.get("extensions").map(|e| {
        let cc = &e["cacheControl"];
        GraphQLExtensions {
            cache_control: CacheControl {
                version: cc["version"].as_u64().unwrap() as u8,
                hints: cc["hints"]
                    .as_array()
                    .unwrap()
                    .iter()
                    .map(|h| CacheHintDto {
                        path: h["path"].as_array().unwrap().iter().map(|p| p.as_str().unwrap().to_string()).collect(),
                        max_age: h.get("maxAge").map(|a| a.as_u64().unwrap() as u16),
                        scope: h.get("scope").map(|s| if s.as_str().unwrap() == "PRIVATE" { CacheScope::PRIVATE } else { CacheScope::PUBLIC }),
                    })
                    .collect(),
            },
        }
    });
    GraphQLResponse { data: json_of_value(&v["data"]), extensions: extensions }
}

const DATA: &str = r#"
{
    "data": {
        "user": {
            "id": 10,
            "name": "the name",
            "age": 20,
            "company": {
                "id": 100,
                "name": "the company"
            },
            "friend": {
                "id": 11,
                "name": "the friend",
                "age": 25,
                "friend": {
                    "id": 12,
                    "name": "the friend of the friend",
                    "age": 27
                }
            }
        }
    },
    "extensions": {
        "cacheControl": {
            "version": 1,
            "hints": [
                {
                    "path": ["user"],
                    "maxAge": 200
                },
                {
                    "path": [ "user", "id" ],
                    "maxAge": 100
                },
                {
                    "path": [ "user", "name" ],
                    "scope": "PRIVATE"
                },
                {
                    "path": [ "user", "company" ],
                    "scope": "PRIVATE",
                    "maxAge": 150
                },
                {
                    "path": [ "user", "company", "id" ],
                    "scope": "PUBLIC"
                },
                {
                    "path": [ "user", "friend" ],
                    "maxAge": 500,
                    "scope": "PUBLIC"
                },
                {
                    "path": [ "user", "friend", "friend" ],
                    "maxAge": 200,
                    "scope": "PUBLIC"
                },
                {
                    "path": [ "user", "friend", "friend", "id" ],
                    "scope": "PUBLIC"
                }
            ]
        }
    }
}"#;

#[test]
fn test_deserializer() {
    let result = response_of(DATA);
    let mut cache = InnerCache::new();

    let (response_data, hints) = result.compress_cache_hints();

    let field_name: String = match response_data {
        Json::Object(m) => m[0].0.clone(),
        _ => {
            assert_eq!(1, 0);
            "".to_owned()
        }
    };

    for (value, hint) in hints {
        match (hint.scope, hint.max_age) {
            (CacheScope::PUBLIC, duration) => {
                println!("{:#?}", value);
                cache.insert(field_name.clone(), duration, value);
            }
            _ => {}
        }
    }
}

#[test]
fn compress_cache_hints_groups_values_by_scope_and_age() {
    let (data, hints) = response_of(DATA).compress_cache_hints();
    assert_eq!(data, json_of_value(&serde_json::from_str::<serde_json::Value>(DATA).unwrap()["data"]));
    let summary: Vec<(Vec<String>, u16, CacheScope, Json)> =
        hints.into_iter().map(|(v, h)| (h.path, h.max_age, h.scope, v)).collect();
    let p = |s: &[&str]| s.iter().map(|x| x.to_string()).collect::<Vec<String>>();
    assert_eq!(
        summary,
        vec![
            (p(&["user", "company"]), 150, CacheScope::PRIVATE, parsed(r#"{"user": {"company": {"name": "the company"}}}"#)),
            (p(&["user", "company", "id"]), 150, CacheScope::PUBLIC, parsed(r#"{"user": {"company": {"id": 100}}}"#)),
            (p(&["user", "friend"]), 500, CacheScope::PUBLIC, parsed(r#"{"user": {"friend": {"id": 11, "name": "the friend", "age": 25}}}"#)),
            (p(&["user", "id"]), 100, CacheScope::PUBLIC, parsed(r#"{"user": {"id": 10}}"#)),
            (
                p(&["user"]),
                200,
                CacheScope::PUBLIC,
                parsed(r#"{"user": {"age": 20, "friend": {"friend": {"id": 12, "name": "the friend of the friend", "age": 27}}}}"#),
            ),
            (p(&["user", "name"]), 200, CacheScope::PRIVATE, parsed(r#"{"user": {"name": "the name"}}"#)),
        ]
    );
}

#[test]
fn compress_cache_hints_without_hints_gives_data_only() {
    let r = GraphQLResponse { data: parsed(r#"{"a": 1}"#), extensions: None };
    let (data, hints) = r.compress_cache_hints();
    assert_eq!(data, parsed(r#"{"a": 1}"#));
    assert_eq!(hints.len(), 0);
    let r2 = GraphQLResponse {
        data: parsed(r#"{"a": 1}"#),
        extensions: Some(GraphQLExtensions { cache_control: CacheControl { version: 1, hints: vec![] } }),
    };
    assert_eq!(r2.compress_cache_hints().1.len(), 0);
}
