use graphql_cache::auth::{accept_token, authorize, bearer_token, Authorization, AuthorizationType, Claims, Key, KeyDocument};

fn key_document() -> KeyDocument {
    KeyDocument {
        keys: vec![Key {
            kty: String::from("RSA"),
            n: String::from("modulus"),
            key_use: String::from("sig"),
            kid: String::from("k1"),
            e: String::from("AQAB"),
            alg: String::from("RS256"),
        }],
    }
}

#[test]
fn bearer_token_is_the_second_word() {
    assert_eq!(bearer_token("Bearer abc.def"), Some(String::from("abc.def")));
    assert_eq!(bearer_token("  Bearer \t abc  more"), Some(String::from("abc")));
    assert_eq!(bearer_token("Bearer"), None);
    assert_eq!(bearer_token(""), None);
}

#[test]
fn simple_authorization_takes_the_header_as_user() {
    match authorize(Some(String::from("user-1")), &AuthorizationType::Simple) {
        Authorization::Accepted(h) => {
            assert_eq!(h.sub, "user-1");
            assert_eq!(h.header, "user-1");
        }
        _ => panic!("expected acceptance"),
    }
}

#[test]
fn missing_header_is_anonymous() {
    assert!(matches!(authorize(None, &AuthorizationType::Simple), Authorization::Anonymous));
    assert!(matches!(authorize(None, &AuthorizationType::Jwt(key_document())), Authorization::Anonymous));
}

#[test]
fn token_is_verified_against_the_first_key() {
    match authorize(Some(String::from("Bearer tok")), &AuthorizationType::Jwt(key_document())) {
        Authorization::Verify { token, n, e, header } => {
            assert_eq!(token, "tok");
            assert_eq!(n, "modulus");
            assert_eq!(e, "AQAB");
            assert_eq!(header, "Bearer tok");
        }
        _ => panic!("expected verification"),
    }
    assert!(matches!(
        authorize(Some(String::from("tok")), &AuthorizationType::Jwt(key_document())),
        Authorization::Anonymous
    ));
}

#[test]
fn verified_token_names_the_user() {
    let h = accept_token(Claims { sub: String::from("s1"), exp: 10 }, String::from("Bearer tok"));
    assert_eq!(h.sub, "s1");
    assert_eq!(h.header, "Bearer tok");
}
