//! Mathematical models of parsed GraphQL documents.

use vstd::prelude::*;

verus! {

/// The kind of an operation.
#[derive(Debug, PartialEq, Eq, Structural, Copy, Clone)]
pub enum OperationType {
    Query,
    Mutation,
    Subscription,
}

/// A named argument: a field parameter or a field of an object value.
pub struct ArgModel {
    pub name: Seq<char>,
    pub value: ValueModel,
}

/// A parameter value.
pub enum ValueModel {
    Nil,
    Scalar(Seq<char>),
    Object(Seq<ArgModel>),
    List(Seq<ValueModel>),
    Variable(Seq<char>),
}

/// A selected field, or a fragment spread.
pub enum FieldModel {
    Field {
        alias: Option<Seq<char>>,
        name: Seq<char>,
        parameters: Seq<ArgModel>,
        fields: Seq<FieldModel>,
    },
    Fragment { name: Seq<char> },
}

/// A variable definition of an operation.
pub struct VariableModel {
    pub name: Seq<char>,
    pub var_type: Seq<char>,
    pub default_value: Option<ValueModel>,
}

/// An operation: its type, optional name, variables and selected fields.
pub struct OperationModel {
    pub operation_type: OperationType,
    pub name: Option<Seq<char>>,
    pub variables: Seq<VariableModel>,
    pub fields: Seq<FieldModel>,
}

/// A fragment definition.
pub struct FragmentModel {
    pub name: Seq<char>,
    pub on_type: Seq<char>,
    pub fields: Seq<FieldModel>,
}

/// A whole document.
pub struct DocumentModel {
    pub operations: Seq<OperationModel>,
    pub fragment_definitions: Seq<FragmentModel>,
}

impl FieldModel {
    /// The field's name; a fragment spread has the empty name.
    pub open spec fn name_of(self) -> Seq<char> {
        match self {
            FieldModel::Field { name, .. } => name,
            FieldModel::Fragment { .. } => Seq::empty(),
        }
    }

    /// The key under which the field appears in a response: its alias, else its name.
    pub open spec fn alias_of(self) -> Seq<char> {
        match self {
            FieldModel::Field { alias, name, .. } => match alias {
                Some(a) => a,
                None => name,
            },
            FieldModel::Fragment { .. } => Seq::empty(),
        }
    }

    /// The field's parameters; a fragment spread has none.
    pub open spec fn parameters_of(self) -> Seq<ArgModel> {
        match self {
            FieldModel::Field { parameters, .. } => parameters,
            FieldModel::Fragment { .. } => Seq::empty(),
        }
    }

    /// The field's subfields; a fragment spread has none.
    pub open spec fn subfields_of(self) -> Seq<FieldModel> {
        match self {
            FieldModel::Field { fields, .. } => fields,
            FieldModel::Fragment { .. } => Seq::empty(),
        }
    }
}

} // verus!
