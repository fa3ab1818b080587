//! What a request to the cache asks for: the document of its query, cut down to the one
//! operation to run.

use vstd::prelude::*;
use crate::text::owned;
use crate::graphql::parser::{Document, parse_query, document_model};
use crate::graphql::parser::model::DocumentModel;
use crate::graphql::parser::grammar::parse_document_spec;
use crate::graphql::parser::tokenizer::spec_tokenize;
use crate::graphql::parser::transform::find_operation;

verus! {

/// What the `variables` member of a request body holds.
#[derive(Debug, PartialEq, Eq, Structural, Copy, Clone)]
pub enum VariablesKind {
    Object,
    Other,
    Missing,
}

/// The document to run for a request, or the text answered when there is none: `no` without a
/// query string, `nein` when the query does not parse, `nein variables` when the variables are
/// not an object; a document with several operations is cut down to the first one named
/// `operation_name` (`nein operationName` without a name, `operationName ist gulen` when none
/// has it).
pub open spec fn request_spec(
    query: Option<Seq<char>>,
    variables: VariablesKind,
    operation_name: Option<Seq<char>>,
) -> Result<DocumentModel, Seq<char>> {
    match query {
        None => Err("no"@),
        Some(q) => match parse_document_spec(spec_tokenize(q)) {
            Err(_) => Err("nein"@),
            Ok(d) => if variables == VariablesKind::Other {
                Err("nein variables"@)
            } else if d.operations.len() > 1 {
                match operation_name {
                    None => Err("nein operationName"@),
                    Some(name) => match find_operation(d.operations, name, 0) {
                        Some(k) => Ok(
                            DocumentModel {
                                operations: seq![d.operations[k]],
                                fragment_definitions: d.fragment_definitions,
                            },
                        ),
                        None => Err("operationName ist gulen"@),
                    },
                }
            } else {
                Ok(d)
            },
        },
    }
}

/// The document to run for a request (see `request_spec`), or the text to answer.
pub fn read_request<'a>(query: Option<&'a str>, variables: VariablesKind, operation_name: Option<&str>) -> (r:
    Result<Document<'a>, String>)
    ensures
        match request_spec(
            match query {
                Some(q) => Some(q@),
                None => None,
            },
            variables,
            match operation_name {
                Some(n) => Some(n@),
                None => None,
            },
        ) {
            Ok(d) => r matches Ok(x) && document_model(x) == d,
            Err(m) => r matches Err(e) && e@ == m,
        },
{
    let q = match query {
        Some(q) => q,
        None => {
            return Err(owned("no"));
        },
    };
    let document = match parse_query(q) {
        Ok(d) => d,
        Err(_) => {
            return Err(owned("nein"));
        },
    };
    if variables == VariablesKind::Other {
        return Err(owned("nein variables"));
    }
    if document.operations.len() > 1 {
        match operation_name {
            Some(name) => match document.filter_operation(name) {
                Ok(d) => Ok(d),
                Err(_) => Err(owned("operationName ist gulen")),
            },
            None => Err(owned("nein operationName")),
        }
    } else {
        Ok(document)
    }
}

} // verus!
