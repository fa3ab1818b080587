//! A GraphQL query cache: a tokenizer and parser for GraphQL documents, their serialization,
//! and the logic that answers queries from cached responses.

pub mod text;
pub mod auth;
pub mod graphql;
pub mod graphql_deserializer;
pub mod graphql_parser;
pub mod request;
