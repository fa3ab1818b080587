//! The earlier parser of GraphQL documents: it reads the owned tokens of `ProcessedString` and
//! builds documents that own their strings. Its grammar is the current one but for three points
//! (see `parse_document_with`).

pub mod processed_string;

use vstd::prelude::*;
use crate::text::{owned, strings_view};
use crate::graphql::parser::{
    TokenSource, parse_document, document_model, lemma_object_model, lemma_list_model,
    lemma_field_model, value_model, pfield_model, pfields_model, values_model, param_model,
    params_model, field_model, fields_model, variable_model, variables_model, operation_model,
    operations_model, fragment_model, fragments_model, };
use crate::graphql::parser::model::{
    ArgModel, ValueModel, FieldModel, VariableModel, OperationModel, FragmentModel, DocumentModel,
};
use crate::graphql::parser::grammar::parse_document_with;
use self::processed_string::{ProcessedString, ps_tokenize};

verus! {

/// A variable definition of an operation.
#[derive(Debug)]
pub struct Variable {
    pub name: String,
    pub typ: String,
    pub default_value: Option<ParameterValue>,
}

/// A parsed document: its operations and fragment definitions.
#[derive(Debug)]
pub struct Document {
    pub operations: Vec<Operation>,
    pub fragment_definitions: Vec<FragmentDefinition>,
}

/// A selected field, or a fragment spread.
#[derive(Debug)]
pub enum Field {
    Field { alias: Option<String>, name: String, parameters: Vec<Parameter>, fields: Vec<Field> },
    Fragment { name: String },
}

/// A fragment definition: its name, the type it applies to, and its fields.
#[derive(Debug)]
pub struct FragmentDefinition {
    pub name: String,
    pub typ: String,
    pub fields: Vec<Field>,
}

/// An operation: its type, optional name, variables and selected fields.
#[derive(Debug)]
pub struct Operation {
    pub operation_type: OperationType,
    pub name: Option<String>,
    pub variables: Vec<Variable>,
    pub fields: Vec<Field>,
}

/// A parameter of a field.
#[derive(Debug)]
pub struct Parameter {
    pub name: String,
    pub value: ParameterValue,
}

/// The value of a parameter.
#[derive(Debug)]
pub enum ParameterValue {
    Nil,
    Scalar(String),
    Object(Vec<ParameterField>),
    List(Vec<ParameterValue>),
    Variable(String),
}

/// The kind of an operation.
#[derive(Debug, PartialEq, Eq, Structural, Copy, Clone)]
pub enum OperationType {
    Query,
    Mutation,
    Subscription,
}

/// A field of an object value.
#[derive(Debug)]
pub struct ParameterField {
    pub name: String,
    pub value: ParameterValue,
}

/// A parse error, with its message.
#[derive(Debug)]
pub struct Error {
    error: String,
}

impl Error {
    /// The error's message.
    pub closed spec fn message(&self) -> Seq<char> {
        self.error@
    }

    pub fn new(error: String) -> (r: Error)
        ensures
            r.message() == error@,
    {
        Error { error: error }
    }

    /// The error's message.
    pub fn as_str(&self) -> (r: &str)
        ensures
            r@ == self.message(),
    {
        self.error.as_str()
    }
}

impl Field {
    pub fn new_field(alias: Option<String>, name: String, parameters: Vec<Parameter>, fields: Vec<Field>) -> (r:
        Field)
        ensures
            r == (Field::Field { alias, name, parameters, fields }),
    {
        Field::Field { alias: alias, name: name, parameters: parameters, fields: fields }
    }

    pub fn new_fragment(name: String) -> (r: Field)
        ensures
            r == (Field::Fragment { name }),
    {
        Field::Fragment { name: name }
    }
}

// ---------------------------------------------------------------------------------------------
// Models: the same as those of the current parser.

pub open spec fn kind_model(o: OperationType) -> crate::graphql::parser::model::OperationType {
    match o {
        OperationType::Query => crate::graphql::parser::model::OperationType::Query,
        OperationType::Mutation => crate::graphql::parser::model::OperationType::Mutation,
        OperationType::Subscription => crate::graphql::parser::model::OperationType::Subscription,
    }
}

pub open spec fn opt_string(o: Option<String>) -> Option<Seq<char>> {
    match o {
        Some(s) => Some(s@),
        None => None,
    }
}

pub open spec fn o_value_model(v: ParameterValue) -> ValueModel
    decreases v,
{
    match v {
        ParameterValue::Nil => ValueModel::Nil,
        ParameterValue::Scalar(s) => ValueModel::Scalar(s@),
        ParameterValue::Variable(s) => ValueModel::Variable(s@),
        ParameterValue::Object(o) => ValueModel::Object(
            Seq::new(
                o@.len(),
                |k: int|
                    if 0 <= k < o@.len() {
                        o_pfield_model(o@[k])
                    } else {
                        ArgModel { name: Seq::empty(), value: ValueModel::Nil }
                    },
            ),
        ),
        ParameterValue::List(l) => ValueModel::List(
            Seq::new(
                l@.len(),
                |k: int|
                    if 0 <= k < l@.len() {
                        o_value_model(l@[k])
                    } else {
                        ValueModel::Nil
                    },
            ),
        ),
    }
}

pub open spec fn o_pfield_model(f: ParameterField) -> ArgModel
    decreases f,
{
    ArgModel { name: f.name@, value: o_value_model(f.value) }
}

pub open spec fn o_pfields_model(s: Seq<ParameterField>) -> Seq<ArgModel> {
    s.map_values(|p: ParameterField| o_pfield_model(p))
}

pub open spec fn o_values_model(s: Seq<ParameterValue>) -> Seq<ValueModel> {
    s.map_values(|v: ParameterValue| o_value_model(v))
}

pub open spec fn o_param_model(p: Parameter) -> ArgModel {
    ArgModel { name: p.name@, value: o_value_model(p.value) }
}

pub open spec fn o_params_model(s: Seq<Parameter>) -> Seq<ArgModel> {
    s.map_values(|p: Parameter| o_param_model(p))
}

pub open spec fn o_field_model(f: Field) -> FieldModel
    decreases f,
{
    match f {
        Field::Field { alias, name, parameters, fields } => FieldModel::Field {
            alias: opt_string(alias),
            name: name@,
            parameters: o_params_model(parameters@),
            fields: Seq::new(
                fields@.len(),
                |k: int|
                    if 0 <= k < fields@.len() {
                        o_field_model(fields@[k])
                    } else {
                        FieldModel::Fragment { name: Seq::empty() }
                    },
            ),
        },
        Field::Fragment { name } => FieldModel::Fragment { name: name@ },
    }
}

pub open spec fn o_fields_model(s: Seq<Field>) -> Seq<FieldModel> {
    s.map_values(|f: Field| o_field_model(f))
}

pub open spec fn o_variable_model(v: Variable) -> VariableModel {
    VariableModel {
        name: v.name@,
        var_type: v.typ@,
        default_value: match v.default_value {
            Some(d) => Some(o_value_model(d)),
            None => None,
        },
    }
}

pub open spec fn o_variables_model(s: Seq<Variable>) -> Seq<VariableModel> {
    s.map_values(|v: Variable| o_variable_model(v))
}

pub open spec fn o_operation_model(o: Operation) -> OperationModel {
    OperationModel {
        operation_type: kind_model(o.operation_type),
        name: opt_string(o.name),
        variables: o_variables_model(o.variables@),
        fields: o_fields_model(o.fields@),
    }
}

pub open spec fn o_operations_model(s: Seq<Operation>) -> Seq<OperationModel> {
    s.map_values(|o: Operation| o_operation_model(o))
}

pub open spec fn o_fragment_model(f: FragmentDefinition) -> FragmentModel {
    FragmentModel { name: f.name@, on_type: f.typ@, fields: o_fields_model(f.fields@) }
}

pub open spec fn o_fragments_model(s: Seq<FragmentDefinition>) -> Seq<FragmentModel> {
    s.map_values(|f: FragmentDefinition| o_fragment_model(f))
}

pub open spec fn o_document_model(d: Document) -> DocumentModel {
    DocumentModel {
        operations: o_operations_model(d.operations@),
        fragment_definitions: o_fragments_model(d.fragment_definitions@),
    }
}

proof fn lemma_o_object_model(o: Vec<ParameterField>)
    ensures
        o_value_model(ParameterValue::Object(o)) == ValueModel::Object(o_pfields_model(o@)),
{
    assert(o_value_model(ParameterValue::Object(o))->Object_0 =~= o_pfields_model(o@));
}

proof fn lemma_o_list_model(l: Vec<ParameterValue>)
    ensures
        o_value_model(ParameterValue::List(l)) == ValueModel::List(o_values_model(l@)),
{
    assert(o_value_model(ParameterValue::List(l))->List_0 =~= o_values_model(l@));
}

proof fn lemma_o_field_model(f: Field)
    ensures
        f matches Field::Field { alias, name, parameters, fields } ==> o_field_model(f) == (FieldModel::Field {
            alias: opt_string(alias),
            name: name@,
            parameters: o_params_model(parameters@),
            fields: o_fields_model(fields@),
        }),
{
    if let Field::Field { alias, name, parameters, fields } = f {
        assert(o_field_model(f).subfields_of() =~= o_fields_model(fields@));
    }
}

// ---------------------------------------------------------------------------------------------
// Owned copies of parsed documents.

fn own_value(v: &crate::graphql::parser::ParameterValue) -> (r: ParameterValue)
    ensures
        o_value_model(r) == value_model(*v),
    decreases v,
{
    match v {
        crate::graphql::parser::ParameterValue::Nil => ParameterValue::Nil,
        crate::graphql::parser::ParameterValue::Scalar(s) => ParameterValue::Scalar(owned(s)),
        crate::graphql::parser::ParameterValue::Variable(s) => ParameterValue::Variable(owned(s)),
        crate::graphql::parser::ParameterValue::Object(o) => {
            let c = own_pfields(o);
            proof {
                lemma_object_model(*o);
                lemma_o_object_model(c);
            }
            ParameterValue::Object(c)
        },
        crate::graphql::parser::ParameterValue::List(l) => {
            let c = own_values(l);
            proof {
                lemma_list_model(*l);
                lemma_o_list_model(c);
            }
            ParameterValue::List(c)
        },
    }
}

fn own_pfields(o: &Vec<crate::graphql::parser::ParameterField>) -> (r: Vec<ParameterField>)
    ensures
        o_pfields_model(r@) == pfields_model(o@),
    decreases o,
{
    let mut r: Vec<ParameterField> = Vec::new();
    let mut k: usize = 0;
    while k < o.len()
        invariant
            k <= o@.len(),
            r@.len() == k,
            forall|m: int| 0 <= m < k ==> o_pfield_model(#[trigger] r@[m]) == pfield_model(o@[m]),
        decreases o@.len() - k,
    {
        let f = ParameterField { name: owned(o[k].name), value: own_value(&o[k].value) };
        r.push(f);
        k = k + 1;
    }
    assert(o_pfields_model(r@) =~= pfields_model(o@));
    r
}

fn own_values(l: &Vec<crate::graphql::parser::ParameterValue>) -> (r: Vec<ParameterValue>)
    ensures
        o_values_model(r@) == values_model(l@),
    decreases l,
{
    let mut r: Vec<ParameterValue> = Vec::new();
    let mut k: usize = 0;
    while k < l.len()
        invariant
            k <= l@.len(),
            r@.len() == k,
            forall|m: int| 0 <= m < k ==> o_value_model(#[trigger] r@[m]) == value_model(l@[m]),
        decreases l@.len() - k,
    {
        r.push(own_value(&l[k]));
        k = k + 1;
    }
    assert(o_values_model(r@) =~= values_model(l@));
    r
}

fn own_params(ps: &Vec<crate::graphql::parser::Parameter>) -> (r: Vec<Parameter>)
    ensures
        o_params_model(r@) == params_model(ps@),
{
    let mut r: Vec<Parameter> = Vec::new();
    let mut k: usize = 0;
    while k < ps.len()
        invariant
            k <= ps@.len(),
            r@.len() == k,
            forall|m: int| 0 <= m < k ==> o_param_model(#[trigger] r@[m]) == param_model(ps@[m]),
        decreases ps@.len() - k,
    {
        r.push(Parameter { name: owned(ps[k].name), value: own_value(&ps[k].value) });
        k = k + 1;
    }
    assert(o_params_model(r@) =~= params_model(ps@));
    r
}

fn own_field(f: &crate::graphql::parser::Field) -> (r: Field)
    ensures
        o_field_model(r) == field_model(*f),
    decreases f, 1int,
{
    proof {
        lemma_field_model(*f);
    }
    match f {
        crate::graphql::parser::Field::Field { alias, name, parameters, fields } => {
            let a = match alias {
                Some(x) => Some(owned(x)),
                None => None,
            };
            let r = Field::Field { alias: a, name: owned(name), parameters: own_params(parameters), fields: own_fields(fields) };
            proof {
                lemma_o_field_model(r);
            }
            r
        },
        crate::graphql::parser::Field::Fragment { name } => Field::Fragment { name: owned(name) },
    }
}

fn own_fields(fs: &Vec<crate::graphql::parser::Field>) -> (r: Vec<Field>)
    ensures
        o_fields_model(r@) == fields_model(fs@),
    decreases fs, 0int,
{
    let mut r: Vec<Field> = Vec::new();
    let mut k: usize = 0;
    while k < fs.len()
        invariant
            k <= fs@.len(),
            r@.len() == k,
            forall|m: int| 0 <= m < k ==> o_field_model(#[trigger] r@[m]) == field_model(fs@[m]),
        decreases fs@.len() - k,
    {
        r.push(own_field(&fs[k]));
        k = k + 1;
    }
    assert(o_fields_model(r@) =~= fields_model(fs@));
    r
}

fn own_kind(o: crate::graphql::parser::model::OperationType) -> (r: OperationType)
    ensures
        kind_model(r) == o,
{
    match o {
        crate::graphql::parser::model::OperationType::Query => OperationType::Query,
        crate::graphql::parser::model::OperationType::Mutation => OperationType::Mutation,
        crate::graphql::parser::model::OperationType::Subscription => OperationType::Subscription,
    }
}

fn own_document(d: &crate::graphql::parser::Document) -> (r: Document)
    ensures
        o_document_model(r) == document_model(*d),
{
    let mut operations: Vec<Operation> = Vec::new();
    let mut k: usize = 0;
    while k < d.operations.len()
        invariant
            k <= d.operations@.len(),
            operations@.len() == k,
            forall|m: int| 0 <= m < k ==> o_operation_model(#[trigger] operations@[m]) == operation_model(d.operations@[m]),
        decreases d.operations@.len() - k,
    {
        let op = &d.operations[k];
        let mut variables: Vec<Variable> = Vec::new();
        let mut j: usize = 0;
        while j < op.variables.len()
            invariant
                j <= op.variables@.len(),
                variables@.len() == j,
                forall|m: int| 0 <= m < j ==> o_variable_model(#[trigger] variables@[m]) == variable_model(op.variables@[m]),
            decreases op.variables@.len() - j,
        {
            let v = &op.variables[j];
            let dv = match &v.default_value {
                Some(x) => Some(own_value(x)),
                None => None,
            };
            variables.push(Variable { name: owned(v.name), typ: owned(v.typ), default_value: dv });
            j = j + 1;
        }
        assert(o_variables_model(variables@) =~= variables_model(op.variables@));
        let name = match op.name {
            Some(x) => Some(owned(x)),
            None => None,
        };
        operations.push(
            Operation {
                operation_type: own_kind(op.operation_type),
                name: name,
                variables: variables,
                fields: own_fields(&op.fields),
            },
        );
        k = k + 1;
    }
    let mut fragment_definitions: Vec<FragmentDefinition> = Vec::new();
    let mut k: usize = 0;
    while k < d.fragment_definitions.len()
        invariant
            k <= d.fragment_definitions@.len(),
            fragment_definitions@.len() == k,
            forall|m: int| 0 <= m < k ==> o_fragment_model(#[trigger] fragment_definitions@[m]) == fragment_model(d.fragment_definitions@[m]),
        decreases d.fragment_definitions@.len() - k,
    {
        let f = &d.fragment_definitions[k];
        fragment_definitions.push(FragmentDefinition { name: owned(f.name), typ: owned(f.typ), fields: own_fields(&f.fields) });
        k = k + 1;
    }
    assert(o_operations_model(operations@) =~= operations_model(d.operations@));
    assert(o_fragments_model(fragment_definitions@) =~= fragments_model(d.fragment_definitions@));
    Document { operations: operations, fragment_definitions: fragment_definitions }
}

// ---------------------------------------------------------------------------------------------
// Parsing.

/// Tokens held in a list, yielded from the front.
pub struct TokenList<'a> {
    items: Vec<&'a str>,
    pos: usize,
}

impl<'a> TokenList<'a> {
    /// A source that yields `items` in order.
    pub fn new(items: Vec<&'a str>) -> (r: TokenList<'a>)
        ensures
            r.stream_ok(),
            r.pending_tokens() == items@.map_values(|s: &str| s@),
    {
        let r = TokenList { items: items, pos: 0 };
        assert(r.items@.subrange(0, r.items@.len() as int) =~= r.items@);
        r
    }
}

impl<'a> TokenSource<'a> for TokenList<'a> {
    closed spec fn stream_ok(&self) -> bool {
        self.pos <= self.items@.len()
    }

    closed spec fn pending_tokens(&self) -> Seq<Seq<char>> {
        self.items@.subrange(self.pos as int, self.items@.len() as int).map_values(|s: &str| s@)
    }

    fn next_token(&mut self) -> (r: Option<&'a str>) {
        if self.pos < self.items.len() {
            let t = self.items[self.pos];
            let ghost before = self.pending_tokens();
            self.pos = self.pos + 1;
            assert(self.pending_tokens() =~= before.drop_first());
            Some(t)
        } else {
            None
        }
    }
}

/// Parses a GraphQL document in the earlier dialect (see `parse_document_with`), from the tokens
/// that `ProcessedString` yields.
pub fn parse_query(query: String) -> (r: Result<Document, Error>)
    ensures
        match parse_document_with(ps_tokenize(query@), true) {
            Ok(d) => r matches Ok(x) && o_document_model(x) == d,
            Err(m) => r matches Err(e) && e.message() == m,
        },
{
    let tokens = ProcessedString::new(&query).collect();
    let mut refs: Vec<&str> = Vec::new();
    let mut k: usize = 0;
    while k < tokens.len()
        invariant
            k <= tokens@.len(),
            refs@.map_values(|s: &str| s@) == strings_view(tokens@).subrange(0, k as int),
        decreases tokens@.len() - k,
    {
        let ghost before = refs@.map_values(|s: &str| s@);
        let t = tokens[k].as_str();
        assert(t@ == tokens@[k as int]@);
        refs.push(t);
        assert(refs@.map_values(|s: &str| s@) =~= before.push(tokens@[k as int]@));
        assert(refs@.map_values(|s: &str| s@) =~= strings_view(tokens@).subrange(0, k + 1));
        k = k + 1;
    }
    assert(strings_view(tokens@).subrange(0, tokens@.len() as int) =~= strings_view(tokens@));
    let list = TokenList::new(refs);
    match parse_document(list, true) {
        Ok(d) => Ok(own_document(&d)),
        Err(e) => Err(Error::new(owned(e.as_str()))),
    }
}

} // verus!
