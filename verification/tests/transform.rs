use graphql_cache::graphql::parser::transform::{expand_operation, get_variables, Traversable};
use graphql_cache::graphql::parser::{parse_query, serialize_operation, Field};

#[test]
fn deduplicate_fields_merges_repeated_fields() {
    let d = parse_query("{a{x} b a{y}}").unwrap();
    let op = d.operations[0].deduplicate_fields().unwrap();
    assert_eq!(serialize_operation(&op), "{a{x y} b}");
}

#[test]
fn deduplicate_fields_keeps_fields_with_other_parameters_apart() {
    let d = parse_query("{a(p:1){x} a(p:2){y} a(p:1){z}}").unwrap();
    let op = d.operations[0].deduplicate_fields().unwrap();
    assert_eq!(serialize_operation(&op), "{a(p:1){x z} a(p:2){y}}");
}

#[test]
fn deduplicate_fields_drops_unused_variables() {
    let d = parse_query("query Q($v: Int, $w: Int){a(p:$v){x} a(p:$v){y}}").unwrap();
    let op = d.operations[0].deduplicate_fields().unwrap();
    assert_eq!(op.variables.len(), 1);
    assert_eq!(op.variables[0].name, "v");
    assert_eq!(op.fields.len(), 1);
}

#[test]
fn merge_joins_subfields_of_the_same_field() {
    let d1 = parse_query("{a{x y}}").unwrap();
    let d2 = parse_query("{a{y z}}").unwrap();
    let mut f = d1.operations[0].fields[0].clone();
    f.merge(&d2.operations[0].fields[0]);
    let names: Vec<&str> = f.get_subfields().iter().map(|s| s.get_name()).collect();
    assert_eq!(names, vec!["z", "y", "x"]);
}

#[test]
fn merge_leaves_a_different_field_alone() {
    let d1 = parse_query("{a{x}}").unwrap();
    let d2 = parse_query("{b{y}}").unwrap();
    let mut f = d1.operations[0].fields[0].clone();
    f.merge(&d2.operations[0].fields[0]);
    assert_eq!(f.get_subfields().len(), 1);
    assert_eq!(f.get_subfields()[0].get_name(), "x");
}

#[test]
fn is_same_field_compares_names_and_parameters() {
    let d = parse_query("{a(p:1) x: a(p:1) a(p:2) b(p:1)}").unwrap();
    let f = &d.operations[0].fields;
    assert!(f[0].is_same_field(&f[1]));
    assert!(!f[0].is_same_field(&f[2]));
    assert!(!f[0].is_same_field(&f[3]));
}

#[test]
fn get_variables_lists_each_variable_once() {
    let d = parse_query("query Q($v: Int, $w: Int){a(p:$v){b(q:$w) c(r:$v)}}").unwrap();
    let vars = get_variables(&d.operations[0].fields);
    assert_eq!(vars, vec![String::from("v"), String::from("w")]);
}

#[test]
fn expand_operation_replaces_fragment_spreads() {
    let d = parse_query("{user{...f id}} fragment f on User {name age}").unwrap();
    let frags = d.fragment_definitions;
    let op = d.operations.into_iter().next().unwrap();
    let expanded = expand_operation(op, &frags).unwrap();
    assert_eq!(serialize_operation(&expanded), "{user{name age id}}");
}

#[test]
fn expand_operation_rejects_recursive_fragments() {
    let d = parse_query("{user{...f}} fragment f on User {name ...g} fragment g on User {...f}").unwrap();
    let frags = d.fragment_definitions;
    let op = d.operations.into_iter().next().unwrap();
    let r = expand_operation(op, &frags);
    assert_eq!(r.err().unwrap().as_str(), "Recursive fragment structure");
}

#[test]
fn filter_operation_picks_the_named_operation() {
    let d = parse_query("query A{a} query B{b}").unwrap();
    let f = d.filter_operation("B").unwrap();
    assert_eq!(f.operations.len(), 1);
    assert_eq!(f.operations[0].fields[0].get_name(), "b");
    let d2 = parse_query("query A{a} query B{b}").unwrap();
    assert_eq!(d2.filter_operation("C").err().unwrap().as_str(), "operationName ist gulen");
}

#[test]
fn children_with_parameters_gives_paths() {
    let d = parse_query("{a{b(p:1){c(q:2)} d}}").unwrap();
    let paths = d.operations[0].fields[0].children_with_parameters();
    let names: Vec<Vec<&str>> = paths.iter().map(|p| p.iter().map(|f| f.get_name()).collect()).collect();
    assert_eq!(names, vec![vec!["b"], vec!["b", "c"]]);
}

#[test]
fn traverse_follows_aliases() {
    let d = parse_query("{x: a{y: b{c}}}").unwrap();
    let path = vec![String::from("x"), String::from("y")];
    let (through, reached) = d.operations[0].traverse(&path).unwrap();
    assert_eq!(through.len(), 1);
    assert_eq!(through[0].get_name(), "a");
    assert_eq!(reached.get_name(), "b");
    assert!(d.operations[0].traverse(&[String::from("a")]).is_none());
    let f: &Field = &d.operations[0].fields[0];
    let (t2, r2) = f.traverse(&[String::from("y"), String::from("c")]).unwrap();
    assert_eq!(t2.len(), 2);
    assert_eq!(r2.get_name(), "c");
}

#[test]
fn serialized_operation_parses_back_to_the_same_operation() {
    let d = parse_query("mutation M { a: f(x: 1, y: \"s t\", o: {p: 2, q: [3 {r: 4}]}) { b ...frag } c }").unwrap();
    let text = serialize_operation(&d.operations[0]);
    assert_eq!(text, "mutation{a:f(x:1 y:\"s t\" o:{p:2 q:[3 {r:4}]}){b ...frag} c}");
    let d2 = parse_query(&text).unwrap();
    assert_eq!(d2.operations.len(), 1);
    assert!(d2.fragment_definitions.is_empty());
    assert!(d2.operations[0].name.is_none());
    assert!(matches!(d2.operations[0].operation_type, graphql_cache::graphql::parser::OperationType::Mutation));
    assert_eq!(serialize_operation(&d2.operations[0]), text);
}
