use graphql_cache::graphql::json::{extract, extract_mut, merge_json, remove_field, Json};

fn to_json(v: &serde_json::Value) -> Json {
    match v {
        serde_json::Value::Null => Json::Null,
        serde_json::Value::Bool(b) => Json::Bool(*b),
        serde_json::Value::Number(n) => Json::Number(n.to_string()),
        serde_json::Value::String(s) => Json::Str(s.clone()),
        serde_json::Value::Array(a) => Json::Array(a.iter().map(to_json).collect()),
        serde_json::Value::Object(m) => {
            let mut members: Vec<(String, Json)> = m.iter().map(|(k, v)| (k.clone(), to_json(v))).collect();
            members.sort_by(|a, b| a.0.cmp(&b.0));
            Json::Object(members)
        }
    }
}

fn j(text: &str) -> Json {
    to_json(&serde_json::from_str::<serde_json::Value>(text).unwrap())
}

fn path(keys: &[&str]) -> Vec<String> {
    keys.iter().map(|k| k.to_string()).collect()
}

#[test]
fn merge_json_merges_objects_member_by_member() {
    let mut a = j(r#"{"a": 1, "b": {"x": 1, "y": 2}}"#);
    merge_json(&mut a, j(r#"{"b": {"y": 3, "z": 4}, "c": 5}"#));
    assert_eq!(a, j(r#"{"a": 1, "b": {"x": 1, "y": 3, "z": 4}, "c": 5}"#));
}

#[test]
fn merge_json_replaces_what_is_not_an_object() {
    let mut a = j(r#"{"a": [1, 2]}"#);
    merge_json(&mut a, j(r#"{"a": [3]}"#));
    assert_eq!(a, j(r#"{"a": [3]}"#));

    let mut b = j(r#"12"#);
    merge_json(&mut b, j(r#"{"x": 1}"#));
    assert_eq!(b, j(r#"{"x": 1}"#));

    let mut c = j(r#"{"x": 1}"#);
    merge_json(&mut c, Json::Null);
    assert_eq!(c, Json::Null);
}

#[test]
fn merge_json_into_empty_object_copies() {
    let mut a = Json::Object(Vec::new());
    merge_json(&mut a, j(r#"{"b": 2, "a": {"c": 3}}"#));
    assert_eq!(a, j(r#"{"a": {"c": 3}, "b": 2}"#));
}

#[test]
fn extract_mut_takes_the_value_out() {
    let mut v = j(r#"{"user": {"id": 10, "name": "n"}, "x": 1}"#);
    let r = extract_mut(&mut v, &path(&["user", "id"]));
    assert_eq!(r, Some(j("10")));
    assert_eq!(v, j(r#"{"user": {"name": "n"}, "x": 1}"#));
    // nothing is left at that path
    assert_eq!(extract(&v, &path(&["user", "id"])), None);
}

#[test]
fn extract_mut_leaves_value_when_path_is_missing() {
    let mut v = j(r#"{"user": {"id": 10}}"#);
    assert_eq!(extract_mut(&mut v, &path(&["user", "name"])), None);
    assert_eq!(extract_mut(&mut v, &path(&["company", "id"])), None);
    assert_eq!(extract_mut(&mut v, &path(&["user", "id", "deeper"])), None);
    assert_eq!(v, j(r#"{"user": {"id": 10}}"#));
}

#[test]
fn extract_nests_the_value_under_the_path() {
    let v = j(r#"{"user": {"id": 10, "company": {"name": "c"}}}"#);
    assert_eq!(extract(&v, &path(&["user", "company"])), Some(j(r#"{"user": {"company": {"name": "c"}}}"#)));
    assert_eq!(extract(&v, &path(&[])), Some(v.clone()));
    assert_eq!(extract(&v, &path(&["user", "missing"])), None);
}

#[test]
fn extract_agrees_with_extract_mut() {
    let v = j(r#"{"a": {"b": {"c": [1, 2]}}}"#);
    let nested = extract(&v, &path(&["a", "b", "c"]));
    let mut w = v.clone();
    let taken = extract_mut(&mut w, &path(&["a", "b", "c"]));
    assert_eq!(nested, Some(j(r#"{"a": {"b": {"c": [1, 2]}}}"#)));
    assert_eq!(taken, Some(j("[1, 2]")));
}

#[test]
fn remove_field_drops_the_member_at_the_path() {
    let v = j(r#"{"user": {"id": 10, "name": "n"}, "x": 1}"#);
    let r = remove_field(v, &path(&["user", "name"]));
    assert_eq!(r, j(r#"{"user": {"id": 10}, "x": 1}"#));
    assert_eq!(extract(&r, &path(&["user", "name"])), None);
    let same = remove_field(r, &path(&["missing", "name"]));
    assert_eq!(same, j(r#"{"user": {"id": 10}, "x": 1}"#));
    let all = remove_field(same, &path(&[]));
    assert_eq!(all, j(r#"{"user": {"id": 10}, "x": 1}"#));
}
