//! The text that the serializer writes for each part of a document.

use vstd::prelude::*;
use super::model::{ArgModel, ValueModel, FieldModel, VariableModel, OperationModel, FragmentModel, DocumentModel, OperationType};

verus! {

/// The serialized items `parts`, separated by single spaces.
pub open spec fn join_spaced(parts: Seq<Seq<char>>) -> Seq<char>
    decreases parts.len(),
{
    if parts.len() == 0 {
        Seq::empty()
    } else if parts.len() == 1 {
        parts[0]
    } else {
        join_spaced(parts.subrange(0, parts.len() - 1)) + " "@ + parts.last()
    }
}

pub open spec fn ser_value(v: ValueModel) -> Seq<char>
    decreases v,
{
    match v {
        ValueModel::Scalar(s) => s,
        ValueModel::Variable(x) => "$"@ + x,
        ValueModel::Nil => "null"@,
        ValueModel::Object(o) => "{"@ + ser_args(o) + "}"@,
        ValueModel::List(l) => "["@ + ser_values(l) + "]"@,
    }
}

pub open spec fn ser_arg(a: ArgModel) -> Seq<char>
    decreases a,
{
    a.name + ":"@ + ser_value(a.value)
}

pub open spec fn ser_args(args: Seq<ArgModel>) -> Seq<char>
    decreases args,
{
    if args.len() == 0 {
        Seq::empty()
    } else if args.len() == 1 {
        ser_arg(args[0])
    } else {
        ser_args(args.subrange(0, args.len() - 1)) + " "@ + ser_arg(args[args.len() - 1])
    }
}

pub open spec fn ser_values(vs: Seq<ValueModel>) -> Seq<char>
    decreases vs,
{
    if vs.len() == 0 {
        Seq::empty()
    } else if vs.len() == 1 {
        ser_value(vs[0])
    } else {
        ser_values(vs.subrange(0, vs.len() - 1)) + " "@ + ser_value(vs[vs.len() - 1])
    }
}

pub open spec fn ser_field(f: FieldModel) -> Seq<char>
    decreases f,
{
    match f {
        FieldModel::Field { alias, name, parameters, fields } => (match alias {
            Some(a) => a + ":"@ + name,
            None => name,
        }) + (if parameters.len() > 0 {
            "("@ + ser_args(parameters) + ")"@
        } else {
            Seq::empty()
        }) + (if fields.len() > 0 {
            "{"@ + ser_fields(fields) + "}"@
        } else {
            Seq::empty()
        }),
        FieldModel::Fragment { name } => "..."@ + name,
    }
}

pub open spec fn ser_fields(fs: Seq<FieldModel>) -> Seq<char>
    decreases fs,
{
    if fs.len() == 0 {
        Seq::empty()
    } else if fs.len() == 1 {
        ser_field(fs[0])
    } else {
        ser_fields(fs.subrange(0, fs.len() - 1)) + " "@ + ser_field(fs[fs.len() - 1])
    }
}

pub open spec fn ser_variable(v: VariableModel) -> Seq<char> {
    "$"@ + v.name + ":"@ + v.var_type + match v.default_value {
        Some(d) => "="@ + ser_value(d),
        None => Seq::empty(),
    }
}

pub open spec fn ser_variables(vs: Seq<VariableModel>) -> Seq<char> {
    join_spaced(vs.map_values(|v: VariableModel| ser_variable(v)))
}

/// The keyword that starts a serialized operation.
pub open spec fn operation_keyword(op: OperationModel, disable_shorthand: bool) -> Seq<char> {
    match op.operation_type {
        OperationType::Query => if op.variables.len() == 0 && !disable_shorthand {
            Seq::empty()
        } else {
            "query"@
        },
        OperationType::Mutation => "mutation"@,
        OperationType::Subscription => "subscription"@,
    }
}

pub open spec fn ser_operation(op: OperationModel, disable_shorthand: bool) -> Seq<char> {
    operation_keyword(op, disable_shorthand) + (if op.variables.len() > 0 {
        "("@ + ser_variables(op.variables) + ")"@
    } else {
        Seq::empty()
    }) + "{"@ + ser_fields(op.fields) + "}"@
}

pub open spec fn ser_fragment(f: FragmentModel) -> Seq<char> {
    "fragment "@ + f.name + " on "@ + f.on_type + "{"@ + ser_fields(f.fields) + "}"@
}

pub open spec fn ser_fragments(fs: Seq<FragmentModel>) -> Seq<char> {
    join_spaced(fs.map_values(|f: FragmentModel| ser_fragment(f)))
}

/// The text of a document: its first operation, then its fragment definitions.
pub open spec fn ser_document(d: DocumentModel) -> Seq<char> {
    ser_operation(d.operations[0], d.fragment_definitions.len() > 0) + ser_fragments(
        d.fragment_definitions,
    )
}

} // verus!
