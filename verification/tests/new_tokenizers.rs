use graphql_cache::graphql::parser::new_tokenizer::NewTokenizer;
use graphql_cache::graphql::parser::tokenizer::Tokenizer;
use graphql_cache::graphql_parser::processed_string::ProcessedString;

const QUERY: &str = "{ f1(p1: 1,                          p2: \"parm2\") { f2 ...frag }}";

const EXPECTED: [&str; 16] = [
    "{", "f1", "(", "p1", ":", "1", "p2", ":", "\"parm2\"", ")", "{", "f2", "...", "frag", "}", "}",
];

#[test]
fn new_tokenizer_processes_fragments() {
    let mut t = NewTokenizer::new(QUERY);
    let mut tokens = Vec::new();
    while let Some(tok) = t.next() {
        tokens.push(tok);
    }
    assert_eq!(tokens, EXPECTED.to_vec());
    assert_eq!(t.next(), None);
}

#[test]
fn new_tokenizer_skips_leading_separators_and_drops_an_unended_last_token() {
    let mut t = NewTokenizer::new(" ,\n{a");
    assert_eq!(t.next(), Some("{"));
    assert_eq!(t.next(), None);
}

#[test]
fn new_tokenizer_reads_two_dots() {
    let mut t = NewTokenizer::new("..a b");
    assert_eq!(t.next(), Some(".."));
    assert_eq!(t.next(), Some("a"));
    // "b" is not ended by a separator
    assert_eq!(t.next(), None);
}

#[test]
fn processed_string_processes_fragments() {
    let s = String::from(QUERY);
    let mut t = ProcessedString::new(&s);
    let mut tokens = Vec::new();
    while let Some(tok) = t.next() {
        tokens.push(tok);
    }
    assert_eq!(tokens, EXPECTED.iter().map(|x| x.to_string()).collect::<Vec<String>>());
    assert_eq!(t.next(), None);
}

#[test]
fn processed_string_yields_the_last_token() {
    let s = String::from(" ,{a");
    let mut t = ProcessedString::new(&s);
    assert_eq!(t.next(), Some(String::from("{")));
    assert_eq!(t.next(), Some(String::from("a")));
    assert_eq!(t.next(), None);
}

#[test]
fn processed_string_reads_dots() {
    let s = String::from(". .. ...x");
    let mut t = ProcessedString::new(&s);
    assert_eq!(t.next(), Some(String::from(".")));
    assert_eq!(t.next(), Some(String::from("..")));
    assert_eq!(t.next(), Some(String::from("...")));
    assert_eq!(t.next(), Some(String::from("x")));
    assert_eq!(t.next(), None);
}

#[test]
fn processed_string_keeps_quoted_separators() {
    let s = String::from("\"a b{\" c");
    let mut t = ProcessedString::new(&s);
    assert_eq!(t.next(), Some(String::from("\"a b{\"")));
    assert_eq!(t.next(), Some(String::from("c")));
    assert_eq!(t.next(), None);
}

#[test]
fn new_tokenizer_agrees_with_first_tokenizer_where_dot_runs_are_three_long() {
    let text = " ,{ f1(p1: \"a..b\", p2: $v) { ...frag ... on T { x } } }";
    let mut first = Tokenizer::new(text);
    let mut first_tokens = Vec::new();
    while let Some(tok) = first.next() {
        first_tokens.push(tok);
    }
    let mut second = NewTokenizer::new(text);
    let mut second_tokens = Vec::new();
    while let Some(tok) = second.next() {
        second_tokens.push(tok);
    }
    assert_eq!(first_tokens.len(), 22);
    assert_eq!(second_tokens, first_tokens);
}
