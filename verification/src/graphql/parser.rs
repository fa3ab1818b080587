//! A GraphQL parser and serializer for query documents, and the transformations that the cache
//! applies to parsed operations.

pub mod tokenizer;
pub mod model;
pub mod grammar;
pub mod printer;
pub mod transform;
pub mod merge;
pub mod new_tokenizer;
pub mod readback;

use vstd::prelude::*;
use crate::text::{is_alphabetic, is_alphanumeric, str_eq, to_chars, owned, concat2, concat3};
use self::tokenizer::{Tokenizer, spec_tokenize};
use self::model::{ArgModel, ValueModel, FieldModel, VariableModel, OperationModel, FragmentModel, DocumentModel};
use self::printer::{
    join_spaced, ser_value, ser_arg, ser_args, ser_values, ser_field, ser_fields, ser_variable,
    ser_variables, operation_keyword, ser_operation, ser_fragment, ser_fragments, ser_document,
};
use self::grammar::{
    parse_document_with,
    Parsed, tok, rest, pop_open, matching_close, valid_name, valid_value, valid_variable_type,
    msg_unexpected_end, msg_unmatched, msg_invalid_token, unexpected, param_value,
    params_loop, object_value, object_loop, list_loop, field_tail, one_field, fields_loop,
    parse_fields_spec, vars_loop, parse_variables_spec, operation_body, parse_operation_spec,
    parse_fragment_definition_spec, document_loop, parse_document_spec,
    lemma_param_value, lemma_params_loop, lemma_object_value, lemma_object_loop, lemma_field_tail, lemma_one_field, lemma_fields_loop, lemma_vars_loop, lemma_parse_operation,
    lemma_parse_fragment_definition,
};

pub use self::model::OperationType;

verus! {

/// A variable definition of an operation.
#[derive(Debug)]
pub struct Variable<'a> {
    pub name: &'a str,
    pub typ: &'a str,
    pub default_value: Option<ParameterValue<'a>>,
}

/// A parsed document: its operations and fragment definitions.
#[derive(Debug)]
pub struct Document<'a> {
    pub operations: Vec<Operation<'a>>,
    pub fragment_definitions: Vec<FragmentDefinition<'a>>,
}

/// A selected field, or a fragment spread.
#[derive(Debug)]
pub enum Field<'a> {
    Field {
        alias: Option<&'a str>,
        name: &'a str,
        parameters: Vec<Parameter<'a>>,
        fields: Vec<Field<'a>>,
    },
    Fragment { name: &'a str },
}

/// A fragment definition.
#[derive(Debug)]
pub struct FragmentDefinition<'a> {
    pub name: &'a str,
    pub typ: &'a str,
    pub fields: Vec<Field<'a>>,
}

/// An operation.
#[derive(Debug)]
pub struct Operation<'a> {
    pub operation_type: OperationType,
    pub name: Option<&'a str>,
    pub variables: Vec<Variable<'a>>,
    pub fields: Vec<Field<'a>>,
}

/// A parameter of a field.
#[derive(Debug)]
pub struct Parameter<'a> {
    pub name: &'a str,
    pub value: ParameterValue<'a>,
}

/// The value of a parameter.
#[derive(Debug)]
pub enum ParameterValue<'a> {
    Nil,
    Scalar(&'a str),
    Object(Vec<ParameterField<'a>>),
    List(Vec<ParameterValue<'a>>),
    Variable(&'a str),
}

/// A field of an object value.
#[derive(Debug)]
pub struct ParameterField<'a> {
    pub name: &'a str,
    pub value: ParameterValue<'a>,
}

/// A parse or processing error, with its message.
#[derive(Debug)]
pub struct Error {
    error: String,
}

impl Error {
    /// The error's message.
    pub closed spec fn message(&self) -> Seq<char> {
        self.error@
    }

    pub fn new(error: String) -> (r: Error)
        ensures
            r.message() == error@,
    {
        Error { error: error }
    }

    /// The error's message.
    pub fn as_str(&self) -> (r: &str)
        ensures
            r@ == self.message(),
    {
        self.error.as_str()
    }
}

// ---------------------------------------------------------------------------------------------
// Models of the parsed values.

pub open spec fn opt_str(o: Option<&str>) -> Option<Seq<char>> {
    match o {
        Some(s) => Some(s@),
        None => None,
    }
}

pub open spec fn value_model(v: ParameterValue) -> ValueModel
    decreases v,
{
    match v {
        ParameterValue::Nil => ValueModel::Nil,
        ParameterValue::Scalar(s) => ValueModel::Scalar(s@),
        ParameterValue::Variable(s) => ValueModel::Variable(s@),
        ParameterValue::Object(o) => ValueModel::Object(
            Seq::new(
                o@.len(),
                |k: int|
                    if 0 <= k < o@.len() {
                        pfield_model(o@[k])
                    } else {
                        ArgModel { name: Seq::empty(), value: ValueModel::Nil }
                    },
            ),
        ),
        ParameterValue::List(l) => ValueModel::List(
            Seq::new(
                l@.len(),
                |k: int|
                    if 0 <= k < l@.len() {
                        value_model(l@[k])
                    } else {
                        ValueModel::Nil
                    },
            ),
        ),
    }
}

pub open spec fn pfield_model(f: ParameterField) -> ArgModel
    decreases f,
{
    ArgModel { name: f.name@, value: value_model(f.value) }
}

pub open spec fn param_model(p: Parameter) -> ArgModel {
    ArgModel { name: p.name@, value: value_model(p.value) }
}

pub open spec fn params_model(s: Seq<Parameter>) -> Seq<ArgModel> {
    s.map_values(|p: Parameter| param_model(p))
}

pub open spec fn pfields_model(s: Seq<ParameterField>) -> Seq<ArgModel> {
    s.map_values(|p: ParameterField| pfield_model(p))
}

pub open spec fn values_model(s: Seq<ParameterValue>) -> Seq<ValueModel> {
    s.map_values(|v: ParameterValue| value_model(v))
}

pub open spec fn field_model(f: Field) -> FieldModel
    decreases f,
{
    match f {
        Field::Field { alias, name, parameters, fields } => FieldModel::Field {
            alias: opt_str(alias),
            name: name@,
            parameters: params_model(parameters@),
            fields: Seq::new(
                fields@.len(),
                |k: int|
                    if 0 <= k < fields@.len() {
                        field_model(fields@[k])
                    } else {
                        FieldModel::Fragment { name: Seq::empty() }
                    },
            ),
        },
        Field::Fragment { name } => FieldModel::Fragment { name: name@ },
    }
}

pub open spec fn fields_model(s: Seq<Field>) -> Seq<FieldModel> {
    s.map_values(|f: Field| field_model(f))
}

pub open spec fn variable_model(v: Variable) -> VariableModel {
    VariableModel {
        name: v.name@,
        var_type: v.typ@,
        default_value: match v.default_value {
            Some(d) => Some(value_model(d)),
            None => None,
        },
    }
}

pub open spec fn variables_model(s: Seq<Variable>) -> Seq<VariableModel> {
    s.map_values(|v: Variable| variable_model(v))
}

pub open spec fn operation_model(o: Operation) -> OperationModel {
    OperationModel {
        operation_type: o.operation_type,
        name: opt_str(o.name),
        variables: variables_model(o.variables@),
        fields: fields_model(o.fields@),
    }
}

pub open spec fn operations_model(s: Seq<Operation>) -> Seq<OperationModel> {
    s.map_values(|o: Operation| operation_model(o))
}

pub open spec fn fragment_model(f: FragmentDefinition) -> FragmentModel {
    FragmentModel { name: f.name@, on_type: f.typ@, fields: fields_model(f.fields@) }
}

pub open spec fn fragments_model(s: Seq<FragmentDefinition>) -> Seq<FragmentModel> {
    s.map_values(|f: FragmentDefinition| fragment_model(f))
}

pub open spec fn document_model(d: Document) -> DocumentModel {
    DocumentModel {
        operations: operations_model(d.operations@),
        fragment_definitions: fragments_model(d.fragment_definitions@),
    }
}

/// The model of a field whose subfields are held in a vector.
pub proof fn lemma_field_model(f: Field)
    ensures
        f matches Field::Field { alias, name, parameters, fields } ==> field_model(f)
            == (FieldModel::Field {
            alias: opt_str(alias),
            name: name@,
            parameters: params_model(parameters@),
            fields: fields_model(fields@),
        }),
{
    if let Field::Field { alias, name, parameters, fields } = f {
        let m = field_model(f);
        assert(m.subfields_of() =~= fields_model(fields@));
    }
}

pub proof fn lemma_object_model(o: Vec<ParameterField>)
    ensures
        value_model(ParameterValue::Object(o)) == ValueModel::Object(pfields_model(o@)),
{
    let m = value_model(ParameterValue::Object(o));
    if let ValueModel::Object(s) = m {
        assert(s =~= pfields_model(o@));
    }
}

pub proof fn lemma_list_model(l: Vec<ParameterValue>)
    ensures
        value_model(ParameterValue::List(l)) == ValueModel::List(values_model(l@)),
{
    let m = value_model(ParameterValue::List(l));
    if let ValueModel::List(s) = m {
        assert(s =~= values_model(l@));
    }
}

impl<'a> Field<'a> {
    pub fn new_field(
        alias: Option<&'a str>,
        name: &'a str,
        parameters: Vec<Parameter<'a>>,
        fields: Vec<Field<'a>>,
    ) -> (r: Field<'a>)
        ensures
            r == (Field::Field { alias, name, parameters, fields }),
    {
        Field::Field { alias: alias, name: name, parameters: parameters, fields: fields }
    }

    pub fn new_fragment(name: &'a str) -> (r: Field<'a>)
        ensures
            r == (Field::Fragment { name }),
    {
        Field::Fragment { name: name }
    }

    /// Whether the field has at least one parameter.
    pub fn has_parameters(&self) -> (r: bool)
        ensures
            r == (field_model(*self).parameters_of().len() > 0),
    {
        match self {
            Field::Field { parameters, .. } => parameters.len() > 0,
            _ => false,
        }
    }

    /// Whether the field has an alias.
    pub fn has_alias(&self) -> (r: bool)
        ensures
            r == (field_model(*self) matches FieldModel::Field { alias: Some(_), .. }),
    {
        match self {
            Field::Field { alias, .. } => alias.is_some(),
            _ => false,
        }
    }

    /// Whether the field is a field without subfields.
    pub fn is_leaf(&self) -> (r: bool)
        ensures
            r == (field_model(*self) is Field && field_model(*self).subfields_of().len() == 0),
    {
        proof {
            lemma_field_model(*self);
        }
        match self {
            Field::Field { fields, .. } => fields.len() == 0,
            _ => false,
        }
    }

    /// The field's name; empty for a fragment spread.
    pub fn get_name(&self) -> (r: &str)
        ensures
            r@ == field_model(*self).name_of(),
    {
        proof {
            reveal_strlit("");
        }
        match self {
            Field::Field { name, .. } => name,
            _ => "",
        }
    }

    /// The field's alias, or its name when it has none; empty for a fragment spread.
    pub fn get_alias(&self) -> (r: &str)
        ensures
            r@ == field_model(*self).alias_of(),
    {
        proof {
            reveal_strlit("");
        }
        match self {
            Field::Field { alias, name, .. } => match alias {
                Some(a) => a,
                None => name,
            },
            _ => "",
        }
    }

    /// The field's parameters; none for a fragment spread.
    pub fn get_parameters(&self) -> (r: &[Parameter<'a>])
        ensures
            params_model(r@) == field_model(*self).parameters_of(),
    {
        match self {
            Field::Field { parameters, .. } => parameters.as_slice(),
            _ => &[],
        }
    }

    /// The field's subfields; none for a fragment spread.
    pub fn get_subfields(&self) -> (r: &[Field<'a>])
        ensures
            fields_model(r@) == field_model(*self).subfields_of(),
    {
        proof {
            lemma_field_model(*self);
        }
        match self {
            Field::Field { fields, .. } => fields.as_slice(),
            _ => &[],
        }
    }
}

// ---------------------------------------------------------------------------------------------
// Parsing.

/// The brackets opened and not yet closed.
struct ParserState<'a> {
    hierarchy: Vec<&'a str>,
}

impl<'a> ParserState<'a> {
    closed spec fn view(&self) -> Seq<Seq<char>> {
        Seq::new(self.hierarchy@.len(), |k: int| self.hierarchy@[k]@)
    }

    fn push(&mut self, s: &'a str)
        ensures
            final(self).view() == old(self).view().push(s@),
    {
        self.hierarchy.push(s);
        assert(self.view() =~= old(self).view().push(s@));
    }

    fn pop(&mut self) -> (r: Option<&'a str>)
        ensures
            (opt_str(r), final(self).view()) == pop_open(old(self).view()),
    {
        let r = self.hierarchy.pop();
        assert(self.view() =~= pop_open(old(self).view()).1);
        r
    }
}

/// A source of tokens: what it has still to yield, and the next of them.
pub trait TokenSource<'a> {
    /// The internal invariant of the source.
    spec fn stream_ok(&self) -> bool;

    /// The tokens that the source has still to yield, in order.
    spec fn pending_tokens(&self) -> Seq<Seq<char>>;

    /// Yields the next token, or `None` once there is none left.
    fn next_token(&mut self) -> (r: Option<&'a str>)
        requires
            old(self).stream_ok(),
        ensures
            final(self).stream_ok(),
            old(self).pending_tokens().len() > 0 ==> {
                &&& r matches Some(x) && x@ == old(self).pending_tokens()[0]
                &&& final(self).pending_tokens() == old(self).pending_tokens().drop_first()
            },
            old(self).pending_tokens().len() == 0 ==> r is None && final(self).pending_tokens().len() == 0,
    ;
}

impl<'a> TokenSource<'a> for Tokenizer<'a> {
    open spec fn stream_ok(&self) -> bool {
        self.wf()
    }

    open spec fn pending_tokens(&self) -> Seq<Seq<char>> {
        self.remaining()
    }

    fn next_token(&mut self) -> (r: Option<&'a str>) {
        self.next()
    }
}

/// Reads the token at position `i`.
fn advance<'a, T: TokenSource<'a>>(tokens: &mut T, Ghost(t): Ghost<Seq<Seq<char>>>, Ghost(i): Ghost<int>) -> (r:
    Option<&'a str>)
    requires
        old(tokens).stream_ok(),
        old(tokens).pending_tokens() == rest(t, i),
        0 <= i,
    ensures
        final(tokens).stream_ok(),
        final(tokens).pending_tokens() == rest(t, i + 1),
        opt_str(r) == tok(t, i),
{
    let r = tokens.next_token();
    assert(i < t.len() ==> rest(t, i).drop_first() =~= rest(t, i + 1));
    assert(i >= t.len() ==> rest(t, i + 1) =~= Seq::<Seq<char>>::empty());
    r
}

fn err_unexpected_end() -> (e: Error)
    ensures
        e.message() == msg_unexpected_end(),
{
    Error::new(owned("Unexpected end of string"))
}

fn err_unmatched() -> (e: Error)
    ensures
        e.message() == msg_unmatched(),
{
    Error::new(owned("Unmatched parenteses"))
}

fn err_invalid_token(s: &str) -> (e: Error)
    ensures
        e.message() == msg_invalid_token(s@),
{
    Error::new(concat2("invalid token ", s))
}

fn is_valid_name(string: &str) -> (r: bool)
    ensures
        r == valid_name(string@),
{
    let chars = to_chars(string);
    if chars.len() == 0 {
        return false;
    }
    if !is_alphabetic(chars[0]) {
        return false;
    }
    let mut k: usize = 1;
    while k < chars.len()
        invariant
            chars@ == string@,
            1 <= k <= chars@.len(),
            forall|m: int| 1 <= m < k ==> crate::text::char_alphanumeric(#[trigger] chars@[m])
                || chars@[m] == '_',
        decreases chars@.len() - k,
    {
        if !(is_alphanumeric(chars[k]) || chars[k] == '_') {
            return false;
        }
        k = k + 1;
    }
    true
}

fn is_valid_value(string: &str) -> (r: bool)
    ensures
        r == valid_value(string@),
{
    let chars = to_chars(string);
    if chars.len() == 0 {
        return false;
    }
    if chars[0] == '"' {
        return chars.len() > 1 && chars[chars.len() - 1] == '"';
    }
    if !is_alphanumeric(chars[0]) {
        return false;
    }
    let mut k: usize = 1;
    while k < chars.len()
        invariant
            chars@ == string@,
            1 <= k <= chars@.len(),
            chars@[0] != '"',
            forall|m: int| 1 <= m < k ==> crate::text::char_alphanumeric(#[trigger] chars@[m]),
        decreases chars@.len() - k,
    {
        if !is_alphanumeric(chars[k]) {
            return false;
        }
        k = k + 1;
    }
    true
}

fn is_valid_variable_type(string: &str) -> (r: bool)
    ensures
        r == valid_variable_type(string@),
{
    let chars = to_chars(string);
    if chars.len() == 0 {
        return false;
    }
    let last = chars[chars.len() - 1];
    if !(last == '!' || is_alphabetic(last)) {
        return false;
    }
    let mut k: usize = 0;
    while k < chars.len() - 1
        invariant
            chars@ == string@,
            chars@.len() > 0,
            k <= chars@.len() - 1,
            forall|m: int| 0 <= m < k ==> crate::text::char_alphanumeric(#[trigger] chars@[m])
                || chars@[m] == '_',
        decreases chars@.len() - 1 - k,
    {
        if !(is_alphanumeric(chars[k]) || chars[k] == '_') {
            return false;
        }
        k = k + 1;
    }
    true
}

fn is_valid_type(string: &str) -> (r: bool)
    ensures
        r == valid_variable_type(string@),
{
    is_valid_variable_type(string)
}

fn is_matching_close_parenteses(close: &str, open_option: Option<&str>) -> (r: bool)
    ensures
        r == matching_close(close@, opt_str(open_option)),
{
    match open_option {
        Some(open) => (str_eq(close, "}") && str_eq(open, "{")) || (str_eq(close, ")") && str_eq(
            open,
            "(",
        )) || (str_eq(close, "]") && str_eq(open, "[")),
        None => false,
    }
}

/// `r` is what a parse function returned for the spec result `p`, given the tokens and the
/// bracket stack that it left.
pub open spec fn value_result(
    r: Result<ParameterValue, Error>,
    p: Parsed<ValueModel>,
    t: Seq<Seq<char>>,
    tokens_after: Seq<Seq<char>>,
    state_after: Seq<Seq<char>>,
) -> bool {
    match p {
        Ok((v, j, h)) => r matches Ok(x) && value_model(x) == v && tokens_after == rest(t, j)
            && state_after == h,
        Err(m) => r matches Err(e) && e.message() == m,
    }
}

fn parse_value<'a, T: TokenSource<'a>>(
    tokens: &mut T,
    state: &mut ParserState<'a>,
    Ghost(t): Ghost<Seq<Seq<char>>>,
    Ghost(i): Ghost<int>,
) -> (r: Result<ParameterValue<'a>, Error>)
    requires
        old(tokens).stream_ok(),
        old(tokens).pending_tokens() == rest(t, i),
        0 <= i <= t.len() + 1,
    ensures
        final(tokens).stream_ok(),
        value_result(
            r,
            param_value(t, i, old(state).view()),
            t,
            final(tokens).pending_tokens(),
            final(state).view(),
        ),
    decreases t.len() + 1 - i, 0int,
{
    let v = match advance(tokens, Ghost(t), Ghost(i)) {
        Some(v) => v,
        None => return Err(err_unexpected_end()),
    };
    if str_eq(v, "{") {
        state.push("{");
        parse_object(tokens, state, Ghost(t), Ghost(i + 1))
    } else if str_eq(v, "[") {
        state.push("[");
        parse_list(tokens, state, Ghost(t), Ghost(i + 1))
    } else if str_eq(v, "$") {
        match advance(tokens, Ghost(t), Ghost(i + 1)) {
            Some(n) => if is_valid_name(n) {
                Ok(ParameterValue::Variable(n))
            } else {
                Err(err_invalid_token(n))
            },
            None => Err(err_unexpected_end()),
        }
    } else if is_valid_value(v) {
        Ok(ParameterValue::Scalar(v))
    } else {
        Err(err_invalid_token(v))
    }
}

fn parse_object_value<'a, T: TokenSource<'a>>(
    tokens: &mut T,
    state: &mut ParserState<'a>,
    Ghost(t): Ghost<Seq<Seq<char>>>,
    Ghost(i): Ghost<int>,
) -> (r: Result<ParameterValue<'a>, Error>)
    requires
        old(tokens).stream_ok(),
        old(tokens).pending_tokens() == rest(t, i),
        0 <= i <= t.len() + 1,
    ensures
        final(tokens).stream_ok(),
        value_result(
            r,
            object_value(t, i, old(state).view()),
            t,
            final(tokens).pending_tokens(),
            final(state).view(),
        ),
    decreases t.len() + 1 - i, 0int,
{
    let v = match advance(tokens, Ghost(t), Ghost(i)) {
        Some(v) => v,
        None => return Err(err_unexpected_end()),
    };
    if str_eq(v, "{") {
        state.push("{");
        parse_object(tokens, state, Ghost(t), Ghost(i + 1))
    } else if str_eq(v, "[") {
        state.push("[");
        parse_list(tokens, state, Ghost(t), Ghost(i + 1))
    } else if is_valid_value(v) {
        Ok(ParameterValue::Scalar(v))
    } else {
        Err(err_invalid_token(v))
    }
}

fn parse_object<'a, T: TokenSource<'a>>(
    tokens: &mut T,
    state: &mut ParserState<'a>,
    Ghost(t): Ghost<Seq<Seq<char>>>,
    Ghost(i): Ghost<int>,
) -> (r: Result<ParameterValue<'a>, Error>)
    requires
        old(tokens).stream_ok(),
        old(tokens).pending_tokens() == rest(t, i),
        0 <= i <= t.len() + 1,
    ensures
        final(tokens).stream_ok(),
        value_result(
            r,
            object_loop(t, i, old(state).view(), Seq::empty()),
            t,
            final(tokens).pending_tokens(),
            final(state).view(),
        ),
    decreases t.len() + 1 - i, 0int,
{
    let ghost goal = object_loop(t, i, state.view(), Seq::empty());
    let mut fields: Vec<ParameterField<'a>> = Vec::new();
    let ghost mut k: int = i;
    assert(pfields_model(fields@) =~= Seq::<ArgModel>::empty());
    loop
        invariant
            tokens.stream_ok(),
            tokens.pending_tokens() == rest(t, k),
            0 <= i <= k <= t.len() + 1,
            goal == object_loop(t, i, old(state).view(), Seq::empty()),
            object_loop(t, k, state.view(), pfields_model(fields@)) == goal,
        decreases t.len() + 1 - k,
    {
        let ghost h = state.view();
        let ghost acc = pfields_model(fields@);
        let s = match advance(tokens, Ghost(t), Ghost(k)) {
            Some(s) => s,
            None => return Err(err_unexpected_end()),
        };
        if str_eq(s, "}") || str_eq(s, ")") {
            let open = state.pop();
            if is_matching_close_parenteses(s, open) {
                proof {
                    lemma_object_model(fields);
                }
                return Ok(ParameterValue::Object(fields));
            }
            return Err(err_unmatched());
        }
        if str_eq(s, "]") {
            let open = state.pop();
            if is_matching_close_parenteses(s, open) {
                return Ok(ParameterValue::Nil);
            }
        }
        match advance(tokens, Ghost(t), Ghost(k + 1)) {
            Some(c) => if !str_eq(c, ":") {
                return Err(err_invalid_token(c));
            },
            None => return Err(err_unexpected_end()),
        }
        let ghost before = state.view();
        proof {
            lemma_object_value(t, k + 2, before);
        }
        let value = parse_object_value(tokens, state, Ghost(t), Ghost(k + 2))?;
        let ghost j = object_value(t, k + 2, before)->Ok_0.1;
        let ghost item = ArgModel { name: s@, value: value_model(value) };
        fields.push(ParameterField { name: s, value: value });
        assert(pfields_model(fields@) =~= acc.push(item));
        proof {
            k = j;
        }
    }
}

fn parse_list<'a, T: TokenSource<'a>>(
    tokens: &mut T,
    state: &mut ParserState<'a>,
    Ghost(t): Ghost<Seq<Seq<char>>>,
    Ghost(i): Ghost<int>,
) -> (r: Result<ParameterValue<'a>, Error>)
    requires
        old(tokens).stream_ok(),
        old(tokens).pending_tokens() == rest(t, i),
        0 <= i <= t.len() + 1,
    ensures
        final(tokens).stream_ok(),
        value_result(
            r,
            list_loop(t, i, old(state).view(), Seq::empty()),
            t,
            final(tokens).pending_tokens(),
            final(state).view(),
        ),
    decreases t.len() + 1 - i, 0int,
{
    let ghost goal = list_loop(t, i, state.view(), Seq::empty());
    let mut objs: Vec<ParameterValue<'a>> = Vec::new();
    let ghost mut k: int = i;
    assert(values_model(objs@) =~= Seq::<ValueModel>::empty());
    loop
        invariant
            tokens.stream_ok(),
            tokens.pending_tokens() == rest(t, k),
            0 <= i <= k <= t.len() + 1,
            goal == list_loop(t, i, old(state).view(), Seq::empty()),
            list_loop(t, k, state.view(), values_model(objs@)) == goal,
        decreases t.len() + 1 - k,
    {
        let ghost h = state.view();
        let ghost acc = values_model(objs@);
        let s = match advance(tokens, Ghost(t), Ghost(k)) {
            Some(s) => s,
            None => return Err(err_unexpected_end()),
        };
        if str_eq(s, "{") {
            state.push("{");
            let ghost before = state.view();
            proof {
                lemma_object_loop(t, k + 1, before, Seq::empty());
            }
            let v = parse_object(tokens, state, Ghost(t), Ghost(k + 1))?;
            let ghost j = object_loop(t, k + 1, before, Seq::empty())->Ok_0.1;
            objs.push(v);
            assert(values_model(objs@) =~= acc.push(value_model(v)));
            proof {
                k = j;
            }
        } else {
            if str_eq(s, "]") {
                let open = state.pop();
                if is_matching_close_parenteses(s, open) {
                    proof {
                        lemma_list_model(objs);
                    }
                    return Ok(ParameterValue::List(objs));
                }
            }
            if is_valid_value(s) {
                objs.push(ParameterValue::Scalar(s));
                assert(values_model(objs@) =~= acc.push(ValueModel::Scalar(s@)));
                proof {
                    k = k + 1;
                }
            } else {
                return Err(err_invalid_token(s));
            }
        }
    }
}

fn parse_parameters<'a, T: TokenSource<'a>>(
    tokens: &mut T,
    state: &mut ParserState<'a>,
    Ghost(t): Ghost<Seq<Seq<char>>>,
    Ghost(i): Ghost<int>,
    legacy: bool,
) -> (r: Result<Vec<Parameter<'a>>, Error>)
    requires
        old(tokens).stream_ok(),
        old(tokens).pending_tokens() == rest(t, i),
        0 <= i <= t.len() + 1,
    ensures
        final(tokens).stream_ok(),
        match params_loop(t, i, old(state).view(), Seq::empty(), legacy) {
            Ok((ps, j, h)) => r matches Ok(x) && params_model(x@) == ps && final(tokens).pending_tokens()
                == rest(t, j) && final(state).view() == h,
            Err(m) => r matches Err(e) && e.message() == m,
        },
    decreases t.len() + 1 - i, 0int,
{
    let ghost goal = params_loop(t, i, state.view(), Seq::empty(), legacy);
    let mut parameters: Vec<Parameter<'a>> = Vec::new();
    let ghost mut k: int = i;
    assert(params_model(parameters@) =~= Seq::<ArgModel>::empty());
    loop
        invariant
            tokens.stream_ok(),
            tokens.pending_tokens() == rest(t, k),
            0 <= i <= k <= t.len() + 1,
            goal == params_loop(t, i, old(state).view(), Seq::empty(), legacy),
            params_loop(t, k, state.view(), params_model(parameters@), legacy) == goal,
        decreases t.len() + 1 - k,
    {
        let ghost acc = params_model(parameters@);
        let s = match advance(tokens, Ghost(t), Ghost(k)) {
            Some(s) => s,
            None => return Err(err_unexpected_end()),
        };
        if str_eq(s, ")") {
            if parameters.len() == 0 && !legacy {
                return Err(Error::new(owned("list of parameters can't be empty")));
            }
            let open = state.pop();
            if is_matching_close_parenteses(s, open) {
                return Ok(parameters);
            }
            return Err(err_unmatched());
        }
        if !is_valid_name(s) {
            return Err(err_invalid_token(s));
        }
        match advance(tokens, Ghost(t), Ghost(k + 1)) {
            Some(c) => if !str_eq(c, ":") {
                return Err(err_invalid_token(c));
            },
            None => return Err(err_unexpected_end()),
        }
        let ghost before = state.view();
        proof {
            lemma_param_value(t, k + 2, before);
        }
        let value = parse_value(tokens, state, Ghost(t), Ghost(k + 2))?;
        let ghost j = param_value(t, k + 2, before)->Ok_0.1;
        let ghost item = ArgModel { name: s@, value: value_model(value) };
        parameters.push(Parameter { name: s, value: value });
        assert(params_model(parameters@) =~= acc.push(item));
        proof {
            k = j;
        }
    }
}

/// One field of a selection set whose first token, `cur`, is the token at `i - 1`; gives the
/// field and the token after it.
#[verifier::rlimit(50)]
fn parse_field<'a, T: TokenSource<'a>>(
    cur: &'a str,
    tokens: &mut T,
    state: &mut ParserState<'a>,
    Ghost(t): Ghost<Seq<Seq<char>>>,
    Ghost(i): Ghost<int>,
    legacy: bool,
) -> (r: Result<(Field<'a>, Option<&'a str>), Error>)
    requires
        old(tokens).stream_ok(),
        old(tokens).pending_tokens() == rest(t, i),
        1 <= i <= t.len(),
        t[i - 1] == cur@,
    ensures
        final(tokens).stream_ok(),
        match one_field(t, i, old(state).view(), legacy) {
            Ok((f, k, h)) => r matches Ok((x, nt)) && field_model(x) == f && opt_str(nt) == tok(
                t,
                k - 1,
            ) && final(tokens).pending_tokens() == rest(t, k) && final(state).view() == h,
            Err(m) => r matches Err(e) && e.message() == m,
        },
    decreases t.len() + 1 - i, 0int,
{
    let ghost h0 = state.view();
    if str_eq(cur, "...") {
        return match advance(tokens, Ghost(t), Ghost(i)) {
            Some(f) => if is_valid_name(f) {
                let nt = advance(tokens, Ghost(t), Ghost(i + 1));
                Ok((Field::new_fragment(f), nt))
            } else {
                Err(err_invalid_token(f))
            },
            None => Err(err_unexpected_end()),
        };
    }
    if !is_valid_name(cur) {
        return Err(err_invalid_token(cur));
    }
    let c = match advance(tokens, Ghost(t), Ghost(i)) {
        Some(c) => c,
        None => return Err(err_unexpected_end()),
    };
    let ghost mut k: int;
    let mut alias: Option<&'a str> = None;
    let mut name: &'a str = cur;
    let mut next_token: Option<&'a str>;
    if str_eq(c, ":") {
        match advance(tokens, Ghost(t), Ghost(i + 1)) {
            Some(n) => if is_valid_name(n) {
                alias = Some(cur);
                name = n;
                next_token = advance(tokens, Ghost(t), Ghost(i + 2));
                proof {
                    k = i + 3;
                }
            } else {
                return Err(err_invalid_token(n));
            },
            None => return Err(err_unexpected_end()),
        }
    } else {
        next_token = Some(c);
        proof {
            k = i + 1;
        }
    }
    // the parameters and subfields: `field_tail(t, k, h0, legacy)`
    let nt = match next_token {
        Some(nt) => nt,
        None => return Err(err_unexpected_end()),
    };
    proof {
        lemma_field_tail(t, k, h0, legacy);
    }
    let ghost mut k2: int = k;
    let parameters = if str_eq(nt, "(") {
        state.push("(");
        let ghost before = state.view();
        proof {
            lemma_params_loop(t, k, before, Seq::empty(), legacy);
        }
        let ps = parse_parameters(tokens, state, Ghost(t), Ghost(k), legacy)?;
        let ghost j = params_loop(t, k, before, Seq::empty(), legacy)->Ok_0.1;
        next_token = advance(tokens, Ghost(t), Ghost(j));
        proof {
            k2 = j + 1;
        }
        ps
    } else {
        Vec::new()
    };
    let ghost h2 = state.view();
    let mut subfields: Vec<Field<'a>> = Vec::new();
    if let Some(x) = next_token {
        if str_eq(x, "{") {
            state.push("{");
            let ghost before = state.view();
            proof {
                lemma_fields_loop(t, k2 + 1, before, Seq::empty(), legacy);
            }
            subfields = parse_fields(tokens, state, Ghost(t), Ghost(k2), legacy)?;
            let ghost j = fields_loop(t, k2 + 1, before, Seq::empty(), legacy)->Ok_0.1;
            next_token = advance(tokens, Ghost(t), Ghost(j));
        }
    }
    let f = Field::new_field(alias, name, parameters, subfields);
    proof {
        lemma_field_model(f);
        assert(params_model(Seq::<Parameter>::empty()) =~= Seq::<ArgModel>::empty());
        assert(fields_model(Seq::<Field>::empty()) =~= Seq::<FieldModel>::empty());
    }
    Ok((f, next_token))
}

/// A selection set whose `{` has been read; `i` is the position after the `{`.
fn parse_fields<'a, T: TokenSource<'a>>(
    tokens: &mut T,
    state: &mut ParserState<'a>,
    Ghost(t): Ghost<Seq<Seq<char>>>,
    Ghost(i): Ghost<int>,
    legacy: bool,
) -> (r: Result<Vec<Field<'a>>, Error>)
    requires
        old(tokens).stream_ok(),
        old(tokens).pending_tokens() == rest(t, i),
        0 <= i <= t.len(),
    ensures
        final(tokens).stream_ok(),
        match parse_fields_spec(t, i, old(state).view(), legacy) {
            Ok((fs, j, h)) => r matches Ok(x) && fields_model(x@) == fs && final(tokens).pending_tokens()
                == rest(t, j) && final(state).view() == h,
            Err(m) => r matches Err(e) && e.message() == m,
        },
    decreases t.len() + 1 - i, 2int,
{
    let ghost goal = parse_fields_spec(t, i, state.view(), legacy);
    let mut fields: Vec<Field<'a>> = Vec::new();
    let mut next_token = advance(tokens, Ghost(t), Ghost(i));
    let ghost mut k: int = i + 1;
    assert(fields_model(fields@) =~= Seq::<FieldModel>::empty());
    loop
        invariant
            tokens.stream_ok(),
            tokens.pending_tokens() == rest(t, k),
            0 <= i < k <= t.len() + 1,
            opt_str(next_token) == tok(t, k - 1),
            goal == parse_fields_spec(t, i, old(state).view(), legacy),
            fields_loop(t, k, state.view(), fields_model(fields@), legacy) == goal,
        decreases t.len() + 1 - k,
    {
        let ghost h = state.view();
        let ghost acc = fields_model(fields@);
        let cur = match next_token {
            Some(cur) => cur,
            None => return Err(err_unexpected_end()),
        };
        proof {
            lemma_one_field(t, k, h, legacy);
        }
        let (f, nt) = parse_field(cur, tokens, state, Ghost(t), Ghost(k), legacy)?;
        let ghost k2 = one_field(t, k, h, legacy)->Ok_0.1;
        fields.push(f);
        assert(fields_model(fields@) =~= acc.push(field_model(f)));
        next_token = nt;
        if let Some(x) = next_token {
            if str_eq(x, "}") {
                let open = state.pop();
                if is_matching_close_parenteses(x, open) {
                    return Ok(fields);
                }
                return Err(err_unmatched());
            }
        }
        proof {
            k = k2;
        }
    }
}

/// A variable list whose `(` has been read; `i` is the position after the `(`.
#[verifier::rlimit(50)]
fn parse_variables<'a, T: TokenSource<'a>>(
    tokens: &mut T,
    state: &mut ParserState<'a>,
    Ghost(t): Ghost<Seq<Seq<char>>>,
    Ghost(i): Ghost<int>,
    legacy: bool,
) -> (r: Result<Vec<Variable<'a>>, Error>)
    requires
        old(tokens).stream_ok(),
        old(tokens).pending_tokens() == rest(t, i),
        0 <= i <= t.len(),
    ensures
        final(tokens).stream_ok(),
        match parse_variables_spec(t, i, old(state).view(), legacy) {
            Ok((vs, j, h)) => r matches Ok(x) && variables_model(x@) == vs
                && final(tokens).pending_tokens() == rest(t, j) && final(state).view() == h,
            Err(m) => r matches Err(e) && e.message() == m,
        },
{
    let ghost goal = parse_variables_spec(t, i, state.view(), legacy);
    let mut variables: Vec<Variable<'a>> = Vec::new();
    let mut next_token = advance(tokens, Ghost(t), Ghost(i));
    let ghost mut k: int = i + 1;
    assert(variables_model(variables@) =~= Seq::<VariableModel>::empty());
    loop
        invariant
            tokens.stream_ok(),
            tokens.pending_tokens() == rest(t, k),
            0 <= i < k <= t.len() + 1,
            opt_str(next_token) == tok(t, k - 1),
            goal == parse_variables_spec(t, i, old(state).view(), legacy),
            vars_loop(t, k, state.view(), variables_model(variables@), legacy) == goal,
        decreases t.len() + 1 - k,
    {
        let ghost acc = variables_model(variables@);
        let s = match next_token {
            Some(s) => s,
            None => return Err(err_unexpected_end()),
        };
        if str_eq(s, ")") {
            let open = state.pop();
            if is_matching_close_parenteses(s, open) {
                return Ok(variables);
            }
            return Err(err_unmatched());
        }
        if !str_eq(s, "$") {
            return Err(err_invalid_token(s));
        }
        let name = match advance(tokens, Ghost(t), Ghost(k)) {
            Some(n) => if is_valid_name(n) {
                n
            } else {
                return Err(Error::new(concat2("invalid variable name ", n)));
            },
            None => return Err(err_unexpected_end()),
        };
        match advance(tokens, Ghost(t), Ghost(k + 1)) {
            Some(n) => if !str_eq(n, ":") {
                return Err(err_invalid_token(n));
            },
            None => return Err(err_unexpected_end()),
        }
        let variable_type = match advance(tokens, Ghost(t), Ghost(k + 2)) {
            Some(n) => if (if legacy {
                is_valid_name(n)
            } else {
                is_valid_type(n)
            }) {
                n
            } else {
                return Err(Error::new(concat2("invalid type ", n)));
            },
            None => return Err(err_unexpected_end()),
        };
        let default_value = match advance(tokens, Ghost(t), Ghost(k + 3)) {
            Some(d) => if str_eq(d, "=") {
                match advance(tokens, Ghost(t), Ghost(k + 4)) {
                    Some(v) => if is_valid_value(v) {
                        next_token = advance(tokens, Ghost(t), Ghost(k + 5));
                        proof {
                            k = k + 6;
                        }
                        Some(ParameterValue::Scalar(v))
                    } else {
                        return Err(Error::new(concat2("invalid variable value ", v)));
                    },
                    None => return Err(err_unexpected_end()),
                }
            } else {
                next_token = Some(d);
                proof {
                    k = k + 4;
                }
                None
            },
            None => return Err(err_unexpected_end()),
        };
        let var = Variable { name: name, typ: variable_type, default_value: default_value };
        variables.push(var);
        assert(variables_model(variables@) =~= acc.push(variable_model(var)));
    }
}

/// Parses the body of an operation: its `{` must be `next_token`, the token at `k - 1`.
fn parse_operation_body<'a, T: TokenSource<'a>>(
    next_token: Option<&'a str>,
    operation_type: OperationType,
    name: Option<&'a str>,
    variables: Vec<Variable<'a>>,
    tokens: &mut T,
    state: &mut ParserState<'a>,
    Ghost(t): Ghost<Seq<Seq<char>>>,
    Ghost(k): Ghost<int>,
    legacy: bool,
) -> (r: Result<Operation<'a>, Error>)
    requires
        old(tokens).stream_ok(),
        old(tokens).pending_tokens() == rest(t, k),
        1 <= k <= t.len() + 1,
        opt_str(next_token) == tok(t, k - 1),
    ensures
        final(tokens).stream_ok(),
        match operation_body(
            t,
            k,
            old(state).view(),
            operation_type,
            opt_str(name),
            variables_model(variables@),
            legacy,
        ) {
            Ok((o, j, h)) => r matches Ok(x) && operation_model(x) == o
                && final(tokens).pending_tokens() == rest(t, j) && final(state).view() == h,
            Err(m) => r matches Err(e) && e.message() == m,
        },
{
    match next_token {
        Some(s) => if str_eq(s, "{") {
            state.push("{");
            let fields = parse_fields(tokens, state, Ghost(t), Ghost(k), legacy)?;
            Ok(Operation { operation_type: operation_type, name: name, fields: fields, variables: variables })
        } else if str_eq(s, "}") {
            Err(err_unmatched())
        } else {
            Err(err_invalid_token(s))
        },
        None => Err(err_unexpected_end()),
    }
}

/// An operation whose first token after its keyword, or whose `{` in shorthand form, is
/// `current_token`, the token at `i - 1`.
#[verifier::rlimit(50)]
fn parse_operation<'a, T: TokenSource<'a>>(
    current_token: Option<&'a str>,
    query_shorthand: bool,
    operation_type: OperationType,
    tokens: &mut T,
    state: &mut ParserState<'a>,
    Ghost(t): Ghost<Seq<Seq<char>>>,
    Ghost(i): Ghost<int>,
    legacy: bool,
) -> (r: Result<Operation<'a>, Error>)
    requires
        old(tokens).stream_ok(),
        old(tokens).pending_tokens() == rest(t, i),
        1 <= i <= t.len() + 1,
        opt_str(current_token) == tok(t, i - 1),
    ensures
        final(tokens).stream_ok(),
        match parse_operation_spec(t, i, old(state).view(), query_shorthand, operation_type, legacy) {
            Ok((o, j, h)) => r matches Ok(x) && operation_model(x) == o
                && final(tokens).pending_tokens() == rest(t, j) && final(state).view() == h,
            Err(m) => r matches Err(e) && e.message() == m,
        },
{
    let cur = match current_token {
        Some(cur) => cur,
        None => return Err(err_unexpected_end()),
    };
    proof {
        assert(variables_model(Seq::<Variable>::empty()) =~= Seq::<VariableModel>::empty());
    }
    if str_eq(cur, "{") {
        return parse_operation_body(
            current_token,
            operation_type,
            None,
            Vec::new(),
            tokens,
            state,
            Ghost(t),
            Ghost(i),
            legacy,
        );
    }
    if query_shorthand {
        return Err(Error::new(owned("Operation name is not allowed in shorthand mode")));
    }
    if is_valid_name(cur) {
        let s = match advance(tokens, Ghost(t), Ghost(i)) {
            Some(s) => s,
            None => return Err(err_unexpected_end()),
        };
        if str_eq(s, "(") {
            state.push("(");
            let ghost before = state.view();
            proof {
                lemma_vars_loop(t, i + 2, before, Seq::empty(), legacy);
            }
            let variables = parse_variables(tokens, state, Ghost(t), Ghost(i + 1), legacy)?;
            let ghost j = parse_variables_spec(t, i + 1, before, legacy)->Ok_0.1;
            let next_token = advance(tokens, Ghost(t), Ghost(j));
            parse_operation_body(
                next_token,
                operation_type,
                Some(cur),
                variables,
                tokens,
                state,
                Ghost(t),
                Ghost(j + 1),
                legacy,
            )
        } else if str_eq(s, "{") {
            parse_operation_body(
                Some(s),
                operation_type,
                Some(cur),
                Vec::new(),
                tokens,
                state,
                Ghost(t),
                Ghost(i + 1),
                legacy,
            )
        } else {
            Err(err_invalid_token(s))
        }
    } else if str_eq(cur, "(") && !legacy {
        state.push("(");
        let ghost before = state.view();
        proof {
            lemma_vars_loop(t, i + 1, before, Seq::empty(), legacy);
        }
        let variables = parse_variables(tokens, state, Ghost(t), Ghost(i), legacy)?;
        let ghost j = parse_variables_spec(t, i, before, legacy)->Ok_0.1;
        let next_token = advance(tokens, Ghost(t), Ghost(j));
        parse_operation_body(
            next_token,
            operation_type,
            None,
            variables,
            tokens,
            state,
            Ghost(t),
            Ghost(j + 1),
            legacy,
        )
    } else {
        Err(err_invalid_token(cur))
    }
}

/// A fragment definition whose `fragment` keyword is the token at `i - 1`.
fn parse_fragment_definition<'a, T: TokenSource<'a>>(
    tokens: &mut T,
    state: &mut ParserState<'a>,
    Ghost(t): Ghost<Seq<Seq<char>>>,
    Ghost(i): Ghost<int>,
    legacy: bool,
) -> (r: Result<FragmentDefinition<'a>, Error>)
    requires
        old(tokens).stream_ok(),
        old(tokens).pending_tokens() == rest(t, i),
        0 <= i <= t.len() + 1,
    ensures
        final(tokens).stream_ok(),
        match parse_fragment_definition_spec(t, i, old(state).view(), legacy) {
            Ok((f, j, h)) => r matches Ok(x) && fragment_model(x) == f
                && final(tokens).pending_tokens() == rest(t, j) && final(state).view() == h,
            Err(m) => r matches Err(e) && e.message() == m,
        },
{
    let name = match advance(tokens, Ghost(t), Ghost(i)) {
        Some(name) => if is_valid_name(name) {
            name
        } else {
            return Err(err_invalid_token(name));
        },
        None => return Err(err_unexpected_end()),
    };
    match advance(tokens, Ghost(t), Ghost(i + 1)) {
        Some(s) => if !str_eq(s, "on") {
            return Err(err_invalid_token(s));
        },
        None => return Err(err_unexpected_end()),
    }
    let type_condition = match advance(tokens, Ghost(t), Ghost(i + 2)) {
        Some(ty) => if is_valid_name(ty) {
            ty
        } else {
            return Err(err_invalid_token(ty));
        },
        None => return Err(err_unexpected_end()),
    };
    match advance(tokens, Ghost(t), Ghost(i + 3)) {
        Some(s) => if !str_eq(s, "{") {
            return Err(err_invalid_token(s));
        },
        None => return Err(err_unexpected_end()),
    }
    state.push("{");
    let fields = parse_fields(tokens, state, Ghost(t), Ghost(i + 4), legacy)?;
    Ok(FragmentDefinition { name: name, typ: type_condition, fields: fields })
}

/// Parses a GraphQL document: its operations (at most one in shorthand `{ ... }` form) and its
/// fragment definitions.
pub fn parse_query<'a>(query: &'a str) -> (r: Result<Document<'a>, Error>)
    ensures
        match parse_document_spec(spec_tokenize(query@)) {
            Ok(d) => r matches Ok(x) && document_model(x) == d,
            Err(m) => r matches Err(e) && e.message() == m,
        },
{
    let tokens = Tokenizer::new(query);
    parse_document(tokens, false)
}

/// Parses the document whose tokens `tokens` yields, in the dialect that `legacy` picks (see
/// `parse_document_with`).
#[verifier::rlimit(50)]
pub fn parse_document<'a, T: TokenSource<'a>>(tokens: T, legacy: bool) -> (r: Result<Document<'a>, Error>)
    requires
        tokens.stream_ok(),
    ensures
        match parse_document_with(tokens.pending_tokens(), legacy) {
            Ok(d) => r matches Ok(x) && document_model(x) == d,
            Err(m) => r matches Err(e) && e.message() == m,
        },
{
    let ghost t = tokens.pending_tokens();
    let mut stream = tokens;
    let mut operations: Vec<Operation<'a>> = Vec::new();
    let mut fragment_definitions: Vec<FragmentDefinition<'a>> = Vec::new();
    let mut parser_state = ParserState { hierarchy: Vec::new() };
    let mut query_shorthand = true;
    let ghost mut k: int = 0;
    assert(operations_model(operations@) =~= Seq::<OperationModel>::empty());
    assert(fragments_model(fragment_definitions@) =~= Seq::<FragmentModel>::empty());
    assert(parser_state.view() =~= Seq::<Seq<char>>::empty());
    assert(rest(t, 0) =~= t);
    loop
        invariant
            stream.stream_ok(),
            stream.pending_tokens() == rest(t, k),
            t == tokens.pending_tokens(),
            0 <= k <= t.len(),
            document_loop(
                t,
                k,
                parser_state.view(),
                operations_model(operations@),
                fragments_model(fragment_definitions@),
                query_shorthand,
                legacy,
            ) == parse_document_with(t, legacy),
        decreases t.len() + 1 - k,
    {
        let ghost h = parser_state.view();
        let ghost ops = operations_model(operations@);
        let ghost frags = fragments_model(fragment_definitions@);
        let ghost mut j: int;
        let s = match advance(&mut stream, Ghost(t), Ghost(k)) {
            Some(s) => s,
            None => {
                if operations.len() > 0 {
                    return Ok(
                        Document {
                            operations: operations,
                            fragment_definitions: fragment_definitions,
                        },
                    );
                }
                return Err(err_unexpected_end());
            },
        };
        if str_eq(s, "query") || str_eq(s, "mutation") || str_eq(s, "subscription") {
            let operation_type = if str_eq(s, "query") {
                OperationType::Query
            } else if str_eq(s, "mutation") {
                OperationType::Mutation
            } else {
                OperationType::Subscription
            };
            query_shorthand = false;
            let cur = advance(&mut stream, Ghost(t), Ghost(k + 1));
            proof {
                lemma_parse_operation(t, k + 2, h, false, operation_type, legacy);
            }
            let op = parse_operation(
                cur,
                query_shorthand,
                operation_type,
                &mut stream,
                &mut parser_state,
                Ghost(t),
                Ghost(k + 2),
                legacy,
            )?;
            proof {
                j = parse_operation_spec(t, k + 2, h, false, operation_type, legacy)->Ok_0.1;
            }
            operations.push(op);
            assert(operations_model(operations@) =~= ops.push(operation_model(op)));
        } else if str_eq(s, "fragment") {
            proof {
                lemma_parse_fragment_definition(t, k + 1, h, legacy);
            }
            let f = parse_fragment_definition(&mut stream, &mut parser_state, Ghost(t), Ghost(k + 1), legacy)?;
            proof {
                j = parse_fragment_definition_spec(t, k + 1, h, legacy)->Ok_0.1;
            }
            fragment_definitions.push(f);
            assert(fragments_model(fragment_definitions@) =~= frags.push(fragment_model(f)));
        } else if str_eq(s, "{") && query_shorthand {
            query_shorthand = true;
            proof {
                lemma_parse_operation(t, k + 1, h, true, OperationType::Query, legacy);
            }
            let op = parse_operation(
                Some(s),
                query_shorthand,
                OperationType::Query,
                &mut stream,
                &mut parser_state,
                Ghost(t),
                Ghost(k + 1),
                legacy,
            )?;
            proof {
                j = parse_operation_spec(t, k + 1, h, true, OperationType::Query, legacy)->Ok_0.1;
            }
            operations.push(op);
            assert(operations_model(operations@) =~= ops.push(operation_model(op)));
        } else if str_eq(s, "{") {
            return Err(Error::new(owned("Operation type is required when not in shorthand mode")));
        } else {
            return Err(Error::new(concat3("invalid token \"", s, "\"")));
        }
        if query_shorthand && operations.len() > 1 {
            return Err(Error::new(owned("Only one operation allowed in shorthand mode")));
        }
        proof {
            k = j;
        }
    }
}

// ---------------------------------------------------------------------------------------------
// Serialization.

/// Appends the items `parts[..k + 1]` of a space-separated list, given those before `k`.
proof fn lemma_join_step(parts: Seq<Seq<char>>, k: int)
    requires
        0 <= k < parts.len(),
    ensures
        join_spaced(parts.take(k + 1)) == join_spaced(parts.take(k)) + (if k == 0 {
            Seq::empty()
        } else {
            " "@
        }) + parts[k],
{
    assert(parts.take(k + 1).subrange(0, k) =~= parts.take(k));
    if k == 0 {
        assert(join_spaced(parts.take(0)) =~= Seq::<char>::empty());
        assert(Seq::<char>::empty() + Seq::<char>::empty() + parts[0] =~= parts[0]);
    }
}

fn serialize_parameter_value(value: &ParameterValue, s1: &mut String)
    ensures
        final(s1)@ == old(s1)@ + ser_value(value_model(*value)),
    decreases value,
{
    match value {
        ParameterValue::Scalar(s) => {
            s1.append(s);
        },
        ParameterValue::Variable(v) => {
            s1.append("$");
            s1.append(v);
            assert(s1@ =~= old(s1)@ + ser_value(value_model(*value)));
        },
        ParameterValue::Nil => {
            s1.append("null");
        },
        ParameterValue::Object(o) => {
            s1.append("{");
            serialize_object_fields(o, s1);
            s1.append("}");
            proof {
                lemma_object_model(*o);
            }
            assert(s1@ =~= old(s1)@ + ser_value(value_model(*value)));
        },
        ParameterValue::List(l) => {
            s1.append("[");
            serialize_values(l, s1);
            s1.append("]");
            proof {
                lemma_list_model(*l);
            }
            assert(s1@ =~= old(s1)@ + ser_value(value_model(*value)));
        },
    }
}

/// Appends the fields of an object value, separated by single spaces.
fn serialize_object_fields(o: &Vec<ParameterField>, s1: &mut String)
    ensures
        final(s1)@ == old(s1)@ + ser_args(pfields_model(o@)),
    decreases o,
{
    let ghost start = s1@;
    let ghost items = pfields_model(o@);
    let mut k: usize = 0;
    assert(items.take(0) =~= Seq::<ArgModel>::empty());
    while k < o.len()
        invariant
            k <= o@.len(),
            items == pfields_model(o@),
            start == old(s1)@,
            s1@ == start + ser_args(items.take(k as int)),
        decreases o@.len() - k,
    {
        if k > 0 {
            s1.append(" ");
        }
        serialize_parameter_field(&o[k], s1);
        proof {
            let ts = items.take(k + 1);
            assert(ts.subrange(0, k as int) =~= items.take(k as int));
            if k == 0 {
                assert(ser_args(items.take(0)) =~= Seq::<char>::empty());
            }
        }
        k = k + 1;
        assert(s1@ =~= start + ser_args(items.take(k as int)));
    }
    assert(items.take(o@.len() as int) =~= items);
}

/// Appends the items of a list value, separated by single spaces.
fn serialize_values(l: &Vec<ParameterValue>, s1: &mut String)
    ensures
        final(s1)@ == old(s1)@ + ser_values(values_model(l@)),
    decreases l,
{
    let ghost start = s1@;
    let ghost items = values_model(l@);
    let mut k: usize = 0;
    assert(items.take(0) =~= Seq::<ValueModel>::empty());
    while k < l.len()
        invariant
            k <= l@.len(),
            items == values_model(l@),
            start == old(s1)@,
            s1@ == start + ser_values(items.take(k as int)),
        decreases l@.len() - k,
    {
        if k > 0 {
            s1.append(" ");
        }
        serialize_parameter_value(&l[k], s1);
        proof {
            let ts = items.take(k + 1);
            assert(ts.subrange(0, k as int) =~= items.take(k as int));
            if k == 0 {
                assert(ser_values(items.take(0)) =~= Seq::<char>::empty());
            }
        }
        k = k + 1;
        assert(s1@ =~= start + ser_values(items.take(k as int)));
    }
    assert(items.take(l@.len() as int) =~= items);
}

fn serialize_parameter_field(parameter_field: &ParameterField, s1: &mut String)
    ensures
        final(s1)@ == old(s1)@ + ser_arg(pfield_model(*parameter_field)),
    decreases parameter_field,
{
    s1.append(parameter_field.name);
    s1.append(":");
    serialize_parameter_value(&parameter_field.value, s1);
    assert(s1@ =~= old(s1)@ + ser_arg(pfield_model(*parameter_field)));
}

fn serialize_parameter(parameter: &Parameter, s1: &mut String)
    ensures
        final(s1)@ == old(s1)@ + ser_arg(param_model(*parameter)),
{
    s1.append(parameter.name);
    s1.append(":");
    serialize_parameter_value(&parameter.value, s1);
    assert(s1@ =~= old(s1)@ + ser_arg(param_model(*parameter)));
}

fn serialize_parameters(parameters: &Vec<Parameter>, s1: &mut String)
    ensures
        final(s1)@ == old(s1)@ + ser_args(params_model(parameters@)),
{
    let ghost start = s1@;
    let ghost items = params_model(parameters@);
    let mut k: usize = 0;
    assert(items.take(0) =~= Seq::<ArgModel>::empty());
    while k < parameters.len()
        invariant
            k <= parameters@.len(),
            items == params_model(parameters@),
            start == old(s1)@,
            s1@ == start + ser_args(items.take(k as int)),
        decreases parameters@.len() - k,
    {
        if k > 0 {
            s1.append(" ");
        }
        serialize_parameter(&parameters[k], s1);
        proof {
            let ts = items.take(k + 1);
            assert(ts.subrange(0, k as int) =~= items.take(k as int));
            if k == 0 {
                assert(ser_args(items.take(0)) =~= Seq::<char>::empty());
            }
        }
        k = k + 1;
        assert(s1@ =~= start + ser_args(items.take(k as int)));
    }
    assert(items.take(parameters@.len() as int) =~= items);
}

fn serialize_field(field: &Field, s1: &mut String)
    ensures
        final(s1)@ == old(s1)@ + ser_field(field_model(*field)),
    decreases field, 1int,
{
    proof {
        lemma_field_model(*field);
    }
    match field {
        Field::Field { alias, name, parameters, fields } => {
            if let Some(a) = alias {
                s1.append(a);
                s1.append(":");
                s1.append(name);
            } else {
                s1.append(name);
            }
            let ghost after_name = s1@;
            if parameters.len() > 0 {
                s1.append("(");
                serialize_parameters(parameters, s1);
                s1.append(")");
            }
            let ghost after_params = s1@;
            if fields.len() > 0 {
                s1.append("{");
                serialize_fields(fields, s1);
                s1.append("}");
            }
            assert(s1@ =~= old(s1)@ + ser_field(field_model(*field)));
        },
        Field::Fragment { name } => {
            s1.append("...");
            s1.append(name);
            assert(s1@ =~= old(s1)@ + ser_field(field_model(*field)));
        },
    }
}

/// Appends the fields, separated by single spaces.
fn serialize_fields(fields: &Vec<Field>, s1: &mut String)
    ensures
        final(s1)@ == old(s1)@ + ser_fields(fields_model(fields@)),
    decreases fields, 0int,
{
    let ghost start = s1@;
    let ghost items = fields_model(fields@);
    let mut k: usize = 0;
    assert(items.take(0) =~= Seq::<FieldModel>::empty());
    while k < fields.len()
        invariant
            k <= fields@.len(),
            items == fields_model(fields@),
            start == old(s1)@,
            s1@ == start + ser_fields(items.take(k as int)),
        decreases fields@.len() - k,
    {
        if k > 0 {
            s1.append(" ");
        }
        serialize_field(&fields[k], s1);
        proof {
            let ts = items.take(k + 1);
            assert(ts.subrange(0, k as int) =~= items.take(k as int));
            if k == 0 {
                assert(ser_fields(items.take(0)) =~= Seq::<char>::empty());
            }
        }
        k = k + 1;
        assert(s1@ =~= start + ser_fields(items.take(k as int)));
    }
    assert(items.take(fields@.len() as int) =~= items);
}

fn serialize_variable(variable: &Variable, s1: &mut String)
    ensures
        final(s1)@ == old(s1)@ + ser_variable(variable_model(*variable)),
{
    s1.append("$");
    s1.append(variable.name);
    s1.append(":");
    s1.append(variable.typ);
    match &variable.default_value {
        Some(value) => {
            s1.append("=");
            serialize_parameter_value(value, s1);
        },
        _ => {},
    }
    assert(s1@ =~= old(s1)@ + ser_variable(variable_model(*variable)));
}

fn serialize_variables(variables: &Vec<Variable>, s1: &mut String)
    ensures
        final(s1)@ == old(s1)@ + ser_variables(variables_model(variables@)),
{
    let ghost start = s1@;
    let ghost parts = variables_model(variables@).map_values(|v: VariableModel| ser_variable(v));
    let mut k: usize = 0;
    assert(parts.take(0) =~= Seq::<Seq<char>>::empty());
    while k < variables.len()
        invariant
            k <= variables@.len(),
            parts == variables_model(variables@).map_values(|v: VariableModel| ser_variable(v)),
            start == old(s1)@,
            s1@ == start + join_spaced(parts.take(k as int)),
        decreases variables@.len() - k,
    {
        if k > 0 {
            s1.append(" ");
        }
        serialize_variable(&variables[k], s1);
        proof {
            lemma_join_step(parts, k as int);
        }
        k = k + 1;
        assert(s1@ =~= start + join_spaced(parts.take(k as int)));
    }
    assert(parts.take(variables@.len() as int) =~= parts);
}

fn serialize_fragment(fragment: &FragmentDefinition, s1: &mut String)
    ensures
        final(s1)@ == old(s1)@ + ser_fragment(fragment_model(*fragment)),
{
    s1.append("fragment ");
    s1.append(fragment.name);
    s1.append(" on ");
    s1.append(fragment.typ);
    s1.append("{");
    serialize_fields(&fragment.fields, s1);
    s1.append("}");
    assert(s1@ =~= old(s1)@ + ser_fragment(fragment_model(*fragment)));
}

fn serialize_fragments(fragments: &Vec<FragmentDefinition>, s1: &mut String)
    ensures
        final(s1)@ == old(s1)@ + ser_fragments(fragments_model(fragments@)),
{
    let ghost start = s1@;
    let ghost parts = fragments_model(fragments@).map_values(|f: FragmentModel| ser_fragment(f));
    let mut k: usize = 0;
    assert(parts.take(0) =~= Seq::<Seq<char>>::empty());
    while k < fragments.len()
        invariant
            k <= fragments@.len(),
            parts == fragments_model(fragments@).map_values(|f: FragmentModel| ser_fragment(f)),
            start == old(s1)@,
            s1@ == start + join_spaced(parts.take(k as int)),
        decreases fragments@.len() - k,
    {
        if k > 0 {
            s1.append(" ");
        }
        serialize_fragment(&fragments[k], s1);
        proof {
            lemma_join_step(parts, k as int);
        }
        k = k + 1;
        assert(s1@ =~= start + join_spaced(parts.take(k as int)));
    }
    assert(parts.take(fragments@.len() as int) =~= parts);
}

fn internal_serialize_operation(operation: &Operation, disable_shorthand: bool) -> (r: String)
    ensures
        r@ == ser_operation(operation_model(*operation), disable_shorthand),
{
    let mut serialized_operation = String::new();
    match operation.operation_type {
        OperationType::Query => if operation.variables.len() > 0 || disable_shorthand {
            serialized_operation.append("query");
        },
        OperationType::Mutation => {
            serialized_operation.append("mutation");
        },
        OperationType::Subscription => {
            serialized_operation.append("subscription");
        },
    }
    proof {
        reveal_strlit("");
    }
    assert(serialized_operation@ =~= operation_keyword(operation_model(*operation), disable_shorthand));
    if operation.variables.len() > 0 {
        serialized_operation.append("(");
        serialize_variables(&operation.variables, &mut serialized_operation);
        serialized_operation.append(")");
    }
    serialized_operation.append("{");
    serialize_fields(&operation.fields, &mut serialized_operation);
    serialized_operation.append("}");
    assert(serialized_operation@ =~= ser_operation(operation_model(*operation), disable_shorthand));
    serialized_operation
}

/// The text of an operation, in shorthand form when it is a query without variables.
pub fn serialize_operation(operation: &Operation) -> (r: String)
    ensures
        r@ == ser_operation(operation_model(*operation), false),
{
    internal_serialize_operation(operation, false)
}

/// The text of a document: its first operation, then its fragment definitions.
pub fn serialize_document(document: &Document) -> (r: String)
    requires
        document.operations@.len() > 0,
    ensures
        r@ == ser_document(document_model(*document)),
{
    let op = &document.operations[0];
    let mut serialized_document = internal_serialize_operation(
        op,
        document.fragment_definitions.len() > 0,
    );
    serialize_fragments(&document.fragment_definitions, &mut serialized_document);
    serialized_document
}

// ---------------------------------------------------------------------------------------------
// Copies.

impl<'a> Clone for ParameterValue<'a> {
    fn clone(&self) -> (r: Self)
        ensures
            value_model(r) == value_model(*self),
        decreases self,
    {
        match self {
            ParameterValue::Nil => ParameterValue::Nil,
            ParameterValue::Scalar(s) => ParameterValue::Scalar(s),
            ParameterValue::Variable(s) => ParameterValue::Variable(s),
            ParameterValue::Object(o) => {
                let c = clone_object_fields(o);
                proof {
                    lemma_object_model(*o);
                    lemma_object_model(c);
                }
                ParameterValue::Object(c)
            },
            ParameterValue::List(l) => {
                let c = clone_values(l);
                proof {
                    lemma_list_model(*l);
                    lemma_list_model(c);
                }
                ParameterValue::List(c)
            },
        }
    }
}

fn clone_object_fields<'a>(o: &Vec<ParameterField<'a>>) -> (r: Vec<ParameterField<'a>>)
    ensures
        pfields_model(r@) == pfields_model(o@),
    decreases o,
{
    let mut r: Vec<ParameterField<'a>> = Vec::new();
    let mut k: usize = 0;
    while k < o.len()
        invariant
            k <= o@.len(),
            r@.len() == k,
            forall|m: int| 0 <= m < k ==> pfield_model(#[trigger] r@[m]) == pfield_model(o@[m]),
        decreases o@.len() - k,
    {
        let f = ParameterField { name: o[k].name, value: o[k].value.clone() };
        r.push(f);
        k = k + 1;
    }
    assert(pfields_model(r@) =~= pfields_model(o@));
    r
}

fn clone_values<'a>(l: &Vec<ParameterValue<'a>>) -> (r: Vec<ParameterValue<'a>>)
    ensures
        values_model(r@) == values_model(l@),
    decreases l,
{
    let mut r: Vec<ParameterValue<'a>> = Vec::new();
    let mut k: usize = 0;
    while k < l.len()
        invariant
            k <= l@.len(),
            r@.len() == k,
            forall|m: int| 0 <= m < k ==> value_model(#[trigger] r@[m]) == value_model(l@[m]),
        decreases l@.len() - k,
    {
        r.push(l[k].clone());
        k = k + 1;
    }
    assert(values_model(r@) =~= values_model(l@));
    r
}

impl<'a> Clone for Parameter<'a> {
    fn clone(&self) -> (r: Self)
        ensures
            param_model(r) == param_model(*self),
    {
        Parameter { name: self.name, value: self.value.clone() }
    }
}

impl<'a> Clone for Variable<'a> {
    fn clone(&self) -> (r: Self)
        ensures
            variable_model(r) == variable_model(*self),
    {
        let default_value = match &self.default_value {
            Some(v) => Some(v.clone()),
            None => None,
        };
        Variable { name: self.name, typ: self.typ, default_value: default_value }
    }
}

pub(crate) fn clone_parameters<'a>(ps: &Vec<Parameter<'a>>) -> (r: Vec<Parameter<'a>>)
    ensures
        params_model(r@) == params_model(ps@),
{
    let mut r: Vec<Parameter<'a>> = Vec::new();
    let mut k: usize = 0;
    while k < ps.len()
        invariant
            k <= ps@.len(),
            r@.len() == k,
            forall|m: int| 0 <= m < k ==> param_model(#[trigger] r@[m]) == param_model(ps@[m]),
        decreases ps@.len() - k,
    {
        r.push(ps[k].clone());
        k = k + 1;
    }
    assert(params_model(r@) =~= params_model(ps@));
    r
}

impl<'a> Clone for Field<'a> {
    fn clone(&self) -> (r: Self)
        ensures
            field_model(r) == field_model(*self),
        decreases self, 1int,
    {
        match self {
            Field::Field { alias, name, parameters, fields } => {
                let f = Field::Field {
                    alias: *alias,
                    name: name,
                    parameters: clone_parameters(parameters),
                    fields: clone_fields(fields),
                };
                proof {
                    lemma_field_model(*self);
                    lemma_field_model(f);
                }
                f
            },
            Field::Fragment { name } => Field::Fragment { name: name },
        }
    }
}

/// A copy of each field, in order.
pub(crate) fn clone_fields<'a>(fs: &Vec<Field<'a>>) -> (r: Vec<Field<'a>>)
    ensures
        fields_model(r@) == fields_model(fs@),
    decreases fs, 0int,
{
    let mut r: Vec<Field<'a>> = Vec::new();
    let mut k: usize = 0;
    while k < fs.len()
        invariant
            k <= fs@.len(),
            r@.len() == k,
            forall|m: int| 0 <= m < k ==> field_model(#[trigger] r@[m]) == field_model(fs@[m]),
        decreases fs@.len() - k,
    {
        r.push(fs[k].clone());
        k = k + 1;
    }
    assert(fields_model(r@) =~= fields_model(fs@));
    r
}

} // verus!
