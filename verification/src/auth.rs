//! Who a request comes from: the value of the authorization header, taken as it is or as a
//! bearer token whose claims name the user.

use vstd::prelude::*;
use crate::text::{split_whitespace, words};

verus! {

/// The claims of a token: its subject and its expiry time.
pub struct Claims {
    pub sub: String,
    pub exp: usize,
}

/// A key of a key document (`key_use` holds the key's `use` member).
pub struct Key {
    pub kty: String,
    pub n: String,
    pub key_use: String,
    pub kid: String,
    pub e: String,
    pub alg: String,
}

/// The keys with which tokens are signed.
pub struct KeyDocument {
    pub keys: Vec<Key>,
}

/// How requests are authorized: by a signed token, or by the header's value as it is.
pub enum AuthorizationType {
    Jwt(KeyDocument),
    Simple,
}

/// The user a request comes from, and the header value it came with.
pub struct AuthHeader {
    pub sub: String,
    pub header: String,
}

/// The kind of authorization and the name of the header that carries it.
pub struct AuthConfiguration {
    pub authorization_type: AuthorizationType,
    pub authorization_header: &'static str,
}

/// The part of an OpenID configuration that locates the keys.
pub struct OpenIdConfiguration {
    pub jwks_uri: String,
}

/// A failure to fetch or read the key document.
pub struct Error {}

/// What the header of a request decides.
pub enum Authorization {
    /// The request comes from this user.
    Accepted(AuthHeader),
    /// The request comes from no known user.
    Anonymous,
    /// The token is to be checked against the RSA key with modulus `n` and exponent `e`; if it
    /// holds, its subject is the user (see `accept_token`).
    Verify { token: String, n: String, e: String, header: String },
}

/// The token of a header value such as `Bearer <token>`: its second whitespace-separated word.
pub fn bearer_token(value: &str) -> (r: Option<String>)
    ensures
        match r {
            Some(t) => words(value@).len() > 1 && t@ == words(value@)[1],
            None => words(value@).len() <= 1,
        },
{
    let mut ws = split_whitespace(value);
    if ws.len() > 1 {
        let t = ws.remove(1);
        Some(t)
    } else {
        None
    }
}

/// What the header value `auth` decides under the authorization type: with simple
/// authorization the value is both the user and the header; with tokens, a value with a token
/// is to be verified against the first key; without a value, or a token, the request is
/// anonymous.
pub fn authorize(auth: Option<String>, authorization_type: &AuthorizationType) -> (r: Authorization)
    requires
        auth matches Some(v) ==> (words(v@).len() > 1 ==> (authorization_type matches AuthorizationType::Jwt(kd)
            ==> kd.keys@.len() > 0)),
    ensures
        match (auth, authorization_type) {
            (Some(v), AuthorizationType::Simple) => r matches Authorization::Accepted(h) && h.sub@ == v@ && h.header@ == v@,
            (Some(v), AuthorizationType::Jwt(kd)) => if words(v@).len() > 1 {
                r matches Authorization::Verify { token, n, e, header } && token@ == words(v@)[1] && n@ == kd.keys@[0].n@
                    && e@ == kd.keys@[0].e@ && header@ == v@
            } else {
                r is Anonymous
            },
            (None, _) => r is Anonymous,
        },
{
    match (auth, authorization_type) {
        (Some(v), AuthorizationType::Simple) => Authorization::Accepted(AuthHeader { sub: v.clone(), header: v }),
        (Some(v), AuthorizationType::Jwt(key_document)) => {
            match bearer_token(v.as_str()) {
                Some(token) => Authorization::Verify {
                    token: token,
                    n: key_document.keys[0].n.clone(),
                    e: key_document.keys[0].e.clone(),
                    header: v,
                },
                None => Authorization::Anonymous,
            }
        },
        (None, _) => Authorization::Anonymous,
    }
}

/// The user of a request whose token held: the token's subject, with the header value.
pub fn accept_token(claims: Claims, header: String) -> (r: AuthHeader)
    ensures
        r.sub == claims.sub,
        r.header == header,
{
    AuthHeader { sub: claims.sub, header: header }
}

} // verus!
