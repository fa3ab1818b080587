//! The grammar that `parse_query` accepts, stated over the token sequence of a document.
//!
//! Positions count tokens: a function given position `i` has read the tokens before `i`,
//! and the token at `i - 1` is the one most recently read. A successful result carries the
//! position after the last token it read and the stack of open brackets.

use vstd::prelude::*;
use crate::text::{char_alphabetic, char_alphanumeric};
use super::model::{ArgModel, ValueModel, FieldModel, VariableModel, OperationModel, FragmentModel, DocumentModel, OperationType};

verus! {

/// A parse result: the value, the position after it and the bracket stack, or an error message.
pub type Parsed<T> = Result<(T, int, Seq<Seq<char>>), Seq<char>>;

/// The token at position `i`, if there is one.
pub open spec fn tok(t: Seq<Seq<char>>, i: int) -> Option<Seq<char>> {
    if 0 <= i < t.len() {
        Some(t[i])
    } else {
        None
    }
}

/// The tokens from position `i` on.
pub open spec fn rest(t: Seq<Seq<char>>, i: int) -> Seq<Seq<char>> {
    if 0 <= i <= t.len() {
        t.subrange(i, t.len() as int)
    } else if i < 0 {
        t
    } else {
        Seq::empty()
    }
}

/// Removes the innermost open bracket, if there is one.
pub open spec fn pop_open(h: Seq<Seq<char>>) -> (Option<Seq<char>>, Seq<Seq<char>>) {
    if h.len() > 0 {
        (Some(h.last()), h.drop_last())
    } else {
        (None, h)
    }
}

/// Whether `close` closes the bracket `open`.
pub open spec fn matching_close(close: Seq<char>, open: Option<Seq<char>>) -> bool {
    match open {
        Some(o) => (close == "}"@ && o == "{"@) || (close == ")"@ && o == "("@) || (close == "]"@
            && o == "["@),
        None => false,
    }
}

/// A name starts with a letter and goes on with letters, digits and underscores.
pub open spec fn valid_name(s: Seq<char>) -> bool {
    &&& s.len() > 0
    &&& char_alphabetic(s[0])
    &&& forall|k: int| 1 <= k < s.len() ==> char_alphanumeric(#[trigger] s[k]) || s[k] == '_'
}

/// A value is a quoted string, or letters and digits only.
pub open spec fn valid_value(s: Seq<char>) -> bool {
    &&& s.len() > 0
    &&& if s[0] == '"' {
        s.len() > 1 && s.last() == '"'
    } else {
        &&& char_alphanumeric(s[0])
        &&& forall|k: int| 1 <= k < s.len() ==> char_alphanumeric(#[trigger] s[k])
    }
}

/// A variable type ends in `!` or a letter; before that come letters, digits and underscores.
pub open spec fn valid_variable_type(s: Seq<char>) -> bool {
    &&& s.len() > 0
    &&& (s.last() == '!' || char_alphabetic(s.last()))
    &&& forall|k: int| 0 <= k < s.len() - 1 ==> char_alphanumeric(#[trigger] s[k]) || s[k] == '_'
}

pub open spec fn msg_unexpected_end() -> Seq<char> {
    "Unexpected end of string"@
}

pub open spec fn msg_unmatched() -> Seq<char> {
    "Unmatched parenteses"@
}

pub open spec fn msg_invalid_token(s: Seq<char>) -> Seq<char> {
    "invalid token "@ + s
}

/// The error for an unexpected token, or for the end of the tokens.
pub open spec fn unexpected<T>(o: Option<Seq<char>>) -> Parsed<T> {
    match o {
        Some(s) => Err(msg_invalid_token(s)),
        None => Err(msg_unexpected_end()),
    }
}

/// Whether a continuation at `k`, from a loop at `i`, keeps within the tokens.
pub open spec fn advances(t: Seq<Seq<char>>, i: int, k: int) -> bool {
    i < k <= t.len() + 1
}

/// The value after a `:` in a parameter list, read from position `i` on.
pub open spec fn param_value(t: Seq<Seq<char>>, i: int, h: Seq<Seq<char>>) -> Parsed<ValueModel>
    decreases t.len() + 1 - i, 0int,
{
    if i < 0 || i >= t.len() {
        unexpected(tok(t, i))
    } else {
        let v = t[i];
        if v == "{"@ {
            object_loop(t, i + 1, h.push("{"@), Seq::empty())
        } else if v == "["@ {
            list_loop(t, i + 1, h.push("["@), Seq::empty())
        } else if v == "$"@ {
            match tok(t, i + 1) {
                Some(n) => if valid_name(n) {
                    Ok((ValueModel::Variable(n), i + 2, h))
                } else {
                    Err(msg_invalid_token(n))
                },
                None => Err(msg_unexpected_end()),
            }
        } else if valid_value(v) {
            Ok((ValueModel::Scalar(v), i + 1, h))
        } else {
            Err(msg_invalid_token(v))
        }
    }
}

/// The rest of a parameter list, `acc` holding the parameters read so far.
pub open spec fn params_loop(t: Seq<Seq<char>>, i: int, h: Seq<Seq<char>>, acc: Seq<ArgModel>, legacy: bool) -> Parsed<
    Seq<ArgModel>,
>
    decreases t.len() + 1 - i, 0int,
{
    if i < 0 || i >= t.len() {
        unexpected(tok(t, i))
    } else {
        let s = t[i];
        if s == ")"@ && acc.len() == 0 && !legacy {
            Err("list of parameters can't be empty"@)
        } else if s == ")"@ {
            let (open, h2) = pop_open(h);
            if matching_close(")"@, open) {
                Ok((acc, i + 1, h2))
            } else {
                Err(msg_unmatched())
            }
        } else if !valid_name(s) {
            Err(msg_invalid_token(s))
        } else {
            match tok(t, i + 1) {
                Some(c) => if c != ":"@ {
                    Err(msg_invalid_token(c))
                } else {
                    match param_value(t, i + 2, h) {
                        Ok((v, j, h2)) => if advances(t, i, j) {
                            params_loop(t, j, h2, acc.push(ArgModel { name: s, value: v }), legacy)
                        } else {
                            Err(Seq::empty())
                        },
                        Err(e) => Err(e),
                    }
                },
                None => Err(msg_unexpected_end()),
            }
        }
    }
}

/// The value of a field of an object value, read from position `i` on.
pub open spec fn object_value(t: Seq<Seq<char>>, i: int, h: Seq<Seq<char>>) -> Parsed<ValueModel>
    decreases t.len() + 1 - i, 0int,
{
    if i < 0 || i >= t.len() {
        unexpected(tok(t, i))
    } else {
        let v = t[i];
        if v == "{"@ {
            object_loop(t, i + 1, h.push("{"@), Seq::empty())
        } else if v == "["@ {
            list_loop(t, i + 1, h.push("["@), Seq::empty())
        } else if valid_value(v) {
            Ok((ValueModel::Scalar(v), i + 1, h))
        } else {
            Err(msg_invalid_token(v))
        }
    }
}

/// The rest of an object value, `acc` holding the fields read so far.
pub open spec fn object_loop(t: Seq<Seq<char>>, i: int, h: Seq<Seq<char>>, acc: Seq<ArgModel>) -> Parsed<
    ValueModel,
>
    decreases t.len() + 1 - i, 0int,
{
    if i < 0 || i >= t.len() {
        unexpected(tok(t, i))
    } else {
        let s = t[i];
        let (open, h2) = pop_open(h);
        if (s == "}"@ || s == ")"@) && matching_close(s, open) {
            Ok((ValueModel::Object(acc), i + 1, h2))
        } else if s == "}"@ || s == ")"@ {
            Err(msg_unmatched())
        } else if s == "]"@ && matching_close(s, open) {
            Ok((ValueModel::Nil, i + 1, h2))
        } else {
            // a `]` that closes nothing has still been taken off the bracket stack
            let h3 = if s == "]"@ { h2 } else { h };
            match tok(t, i + 1) {
                Some(c) => if c != ":"@ {
                    Err(msg_invalid_token(c))
                } else {
                    match object_value(t, i + 2, h3) {
                        Ok((v, j, h4)) => if advances(t, i, j) {
                            object_loop(t, j, h4, acc.push(ArgModel { name: s, value: v }))
                        } else {
                            Err(Seq::empty())
                        },
                        Err(e) => Err(e),
                    }
                },
                None => Err(msg_unexpected_end()),
            }
        }
    }
}

/// The rest of a list value, `acc` holding the items read so far.
pub open spec fn list_loop(t: Seq<Seq<char>>, i: int, h: Seq<Seq<char>>, acc: Seq<ValueModel>) -> Parsed<
    ValueModel,
>
    decreases t.len() + 1 - i, 0int,
{
    if i < 0 || i >= t.len() {
        unexpected(tok(t, i))
    } else {
        let s = t[i];
        let (open, h2) = pop_open(h);
        if s == "{"@ {
            match object_loop(t, i + 1, h.push("{"@), Seq::empty()) {
                Ok((v, j, h3)) => if advances(t, i, j) {
                    list_loop(t, j, h3, acc.push(v))
                } else {
                    Err(Seq::empty())
                },
                Err(e) => Err(e),
            }
        } else if s == "]"@ && matching_close("]"@, open) {
            Ok((ValueModel::List(acc), i + 1, h2))
        } else if valid_value(s) {
            list_loop(t, i + 1, if s == "]"@ { h2 } else { h }, acc.push(ValueModel::Scalar(s)))
        } else {
            Err(msg_invalid_token(s))
        }
    }
}

/// What follows a field's name: its parameters, then its subfields, from position `i` on
/// (the token at `i - 1` already read). Gives the parameters, the subfields and the position
/// after them.
pub open spec fn field_tail(t: Seq<Seq<char>>, i: int, h: Seq<Seq<char>>, legacy: bool) -> Parsed<
    (Seq<ArgModel>, Seq<FieldModel>),
>
    decreases t.len() + 1 - i, 1int,
{
    if i < 1 || i > t.len() {
        Err(msg_unexpected_end())
    } else {
        let cur = t[i - 1];
        let params: Parsed<Seq<ArgModel>> = if cur == "("@ {
            match params_loop(t, i, h.push("("@), Seq::empty(), legacy) {
                Ok((ps, j, h2)) => if advances(t, i - 1, j) {
                    Ok((ps, j + 1, h2))
                } else {
                    Err(Seq::empty())
                },
                Err(e) => Err(e),
            }
        } else {
            Ok((Seq::empty(), i, h))
        };
        match params {
            Ok((ps, k, h2)) => if 1 <= k <= t.len() && t[k - 1] == "{"@ {
                match fields_loop(t, k + 1, h2.push("{"@), Seq::empty(), legacy) {
                    Ok((fs, j, h3)) => if advances(t, k, j) {
                        Ok(((ps, fs), j + 1, h3))
                    } else {
                        Err(Seq::empty())
                    },
                    Err(e) => Err(e),
                }
            } else {
                Ok(((ps, Seq::empty()), k, h2))
            },
            Err(e) => Err(e),
        }
    }
}

/// One field of a selection set, the token at `i - 1` being its first token.
pub open spec fn one_field(t: Seq<Seq<char>>, i: int, h: Seq<Seq<char>>, legacy: bool) -> Parsed<FieldModel>
    decreases t.len() + 1 - i, 0int,
{
    if i < 1 || i > t.len() {
        Err(msg_unexpected_end())
    } else {
        let cur = t[i - 1];
        if cur == "..."@ {
            match tok(t, i) {
                Some(f) => if valid_name(f) {
                    Ok((FieldModel::Fragment { name: f }, i + 2, h))
                } else {
                    Err(msg_invalid_token(f))
                },
                None => Err(msg_unexpected_end()),
            }
        } else if valid_name(cur) {
            let named: Parsed<(Option<Seq<char>>, Seq<char>)> = match tok(t, i) {
                Some(c) => if c == ":"@ {
                    match tok(t, i + 1) {
                        Some(n) => if valid_name(n) {
                            Ok(((Some(cur), n), i + 3, h))
                        } else {
                            Err(msg_invalid_token(n))
                        },
                        None => Err(msg_unexpected_end()),
                    }
                } else {
                    Ok(((None, cur), i + 1, h))
                },
                None => Err(msg_unexpected_end()),
            };
            match named {
                Ok(((alias, name), k, _)) => if k <= t.len() {
                    match field_tail(t, k, h, legacy) {
                        Ok(((ps, fs), j, h2)) => Ok(
                            (
                                FieldModel::Field { alias, name, parameters: ps, fields: fs },
                                j,
                                h2,
                            ),
                        ),
                        Err(e) => Err(e),
                    }
                } else {
                    Err(msg_unexpected_end())
                },
                Err(e) => Err(e),
            }
        } else {
            Err(msg_invalid_token(cur))
        }
    }
}

/// The rest of a selection set, the token at `i - 1` being the first token of its next
/// field, `acc` holding the fields read so far.
pub open spec fn fields_loop(t: Seq<Seq<char>>, i: int, h: Seq<Seq<char>>, acc: Seq<FieldModel>, legacy: bool) -> Parsed<
    Seq<FieldModel>,
>
    decreases t.len() + 1 - i, 1int,
{
    match one_field(t, i, h, legacy) {
        Ok((f, k, h2)) => {
            let acc2 = acc.push(f);
            if 1 <= k <= t.len() && t[k - 1] == "}"@ {
                let (open, h3) = pop_open(h2);
                if matching_close("}"@, open) {
                    Ok((acc2, k, h3))
                } else {
                    Err(msg_unmatched())
                }
            } else if advances(t, i, k) {
                fields_loop(t, k, h2, acc2, legacy)
            } else {
                Err(Seq::empty())
            }
        },
        Err(e) => Err(e),
    }
}

/// A selection set whose `{` has been read; `i` is the position after the `{`.
pub open spec fn parse_fields_spec(t: Seq<Seq<char>>, i: int, h: Seq<Seq<char>>, legacy: bool) -> Parsed<
    Seq<FieldModel>,
> {
    fields_loop(t, i + 1, h, Seq::empty(), legacy)
}

/// The rest of a variable list, the token at `i - 1` being the most recently read one.
pub open spec fn vars_loop(t: Seq<Seq<char>>, i: int, h: Seq<Seq<char>>, acc: Seq<VariableModel>, legacy: bool) -> Parsed<
    Seq<VariableModel>,
>
    decreases t.len() + 1 - i,
{
    if i < 1 || i > t.len() {
        Err(msg_unexpected_end())
    } else {
        let cur = t[i - 1];
        if cur == ")"@ {
            let (open, h2) = pop_open(h);
            if matching_close(")"@, open) {
                Ok((acc, i, h2))
            } else {
                Err(msg_unmatched())
            }
        } else if cur == "$"@ {
            match tok(t, i) {
                None => Err(msg_unexpected_end()),
                Some(name) => if !valid_name(name) {
                    Err("invalid variable name "@ + name)
                } else {
                    match tok(t, i + 1) {
                        None => Err(msg_unexpected_end()),
                        Some(c) => if c != ":"@ {
                            Err(msg_invalid_token(c))
                        } else {
                            match tok(t, i + 2) {
                                None => Err(msg_unexpected_end()),
                                Some(ty) => if !(if legacy {
                                    valid_name(ty)
                                } else {
                                    valid_variable_type(ty)
                                }) {
                                    Err("invalid type "@ + ty)
                                } else {
                                    match tok(t, i + 3) {
                                        None => Err(msg_unexpected_end()),
                                        Some(d) => if d == "="@ {
                                            match tok(t, i + 4) {
                                                None => Err(msg_unexpected_end()),
                                                Some(v) => if valid_value(v) {
                                                    vars_loop(
                                                        t,
                                                        i + 6,
                                                        h,
                                                        acc.push(
                                                            VariableModel {
                                                                name,
                                                                var_type: ty,
                                                                default_value: Some(
                                                                    ValueModel::Scalar(v),
                                                                ),
                                                            },
                                                        ),
                                                        legacy,
                                                    )
                                                } else {
                                                    Err("invalid variable value "@ + v)
                                                },
                                            }
                                        } else {
                                            vars_loop(
                                                t,
                                                i + 4,
                                                h,
                                                acc.push(
                                                    VariableModel {
                                                        name,
                                                        var_type: ty,
                                                        default_value: None,
                                                    },
                                                ),
                                                legacy,
                                            )
                                        },
                                    }
                                },
                            }
                        },
                    }
                },
            }
        } else {
            Err(msg_invalid_token(cur))
        }
    }
}

/// A variable list whose `(` has been read; `i` is the position after the `(`.
pub open spec fn parse_variables_spec(t: Seq<Seq<char>>, i: int, h: Seq<Seq<char>>, legacy: bool) -> Parsed<
    Seq<VariableModel>,
> {
    vars_loop(t, i + 1, h, Seq::empty(), legacy)
}

/// The selection set of an operation, the token at `k - 1` being the one that should open it.
pub open spec fn operation_body(
    t: Seq<Seq<char>>,
    k: int,
    h: Seq<Seq<char>>,
    operation_type: OperationType,
    name: Option<Seq<char>>,
    variables: Seq<VariableModel>,
    legacy: bool,
) -> Parsed<OperationModel> {
    match tok(t, k - 1) {
        Some(s) => if s == "{"@ {
            match parse_fields_spec(t, k, h.push("{"@), legacy) {
                Ok((fields, j, h2)) => Ok(
                    (OperationModel { operation_type, name, variables, fields }, j, h2),
                ),
                Err(e) => Err(e),
            }
        } else if s == "}"@ {
            Err(msg_unmatched())
        } else {
            Err(msg_invalid_token(s))
        },
        None => Err(msg_unexpected_end()),
    }
}

/// An operation whose first token after the operation keyword (or whose `{`, in shorthand
/// form) is the token at `i - 1`.
pub open spec fn parse_operation_spec(
    t: Seq<Seq<char>>,
    i: int,
    h: Seq<Seq<char>>,
    query_shorthand: bool,
    operation_type: OperationType,
    legacy: bool,
) -> Parsed<OperationModel> {
    match tok(t, i - 1) {
        None => Err(msg_unexpected_end()),
        Some(cur) => if cur == "{"@ {
            operation_body(t, i, h, operation_type, None, Seq::empty(), legacy)
        } else if query_shorthand {
            Err("Operation name is not allowed in shorthand mode"@)
        } else if valid_name(cur) {
            match tok(t, i) {
                None => Err(msg_unexpected_end()),
                Some(s) => if s == "("@ {
                    match parse_variables_spec(t, i + 1, h.push("("@), legacy) {
                        Ok((vars, j, h2)) => operation_body(
                            t,
                            j + 1,
                            h2,
                            operation_type,
                            Some(cur),
                            vars,
                            legacy,
                        ),
                        Err(e) => Err(e),
                    }
                } else if s == "{"@ {
                    operation_body(t, i + 1, h, operation_type, Some(cur), Seq::empty(), legacy)
                } else {
                    Err(msg_invalid_token(s))
                },
            }
        } else if cur == "("@ && !legacy {
            match parse_variables_spec(t, i, h.push("("@), legacy) {
                Ok((vars, j, h2)) => operation_body(t, j + 1, h2, operation_type, None, vars, legacy),
                Err(e) => Err(e),
            }
        } else {
            Err(msg_invalid_token(cur))
        },
    }
}

/// A fragment definition whose `fragment` keyword is the token at `i - 1`.
pub open spec fn parse_fragment_definition_spec(t: Seq<Seq<char>>, i: int, h: Seq<Seq<char>>, legacy: bool) -> Parsed<
    FragmentModel,
> {
    match tok(t, i) {
        None => Err(msg_unexpected_end()),
        Some(name) => if !valid_name(name) {
            Err(msg_invalid_token(name))
        } else {
            match tok(t, i + 1) {
                None => Err(msg_unexpected_end()),
                Some(on) => if on != "on"@ {
                    Err(msg_invalid_token(on))
                } else {
                    match tok(t, i + 2) {
                        None => Err(msg_unexpected_end()),
                        Some(ty) => if !valid_name(ty) {
                            Err(msg_invalid_token(ty))
                        } else {
                            match tok(t, i + 3) {
                                None => Err(msg_unexpected_end()),
                                Some(b) => if b != "{"@ {
                                    Err(msg_invalid_token(b))
                                } else {
                                    match parse_fields_spec(t, i + 4, h.push("{"@), legacy) {
                                        Ok((fields, j, h2)) => Ok(
                                            (FragmentModel { name, on_type: ty, fields }, j, h2),
                                        ),
                                        Err(e) => Err(e),
                                    }
                                },
                            }
                        },
                    }
                },
            }
        },
    }
}

/// The operation keywords and the type of operation each one introduces.
pub open spec fn keyword_type(s: Seq<char>) -> Option<OperationType> {
    if s == "query"@ {
        Some(OperationType::Query)
    } else if s == "mutation"@ {
        Some(OperationType::Mutation)
    } else if s == "subscription"@ {
        Some(OperationType::Subscription)
    } else {
        None
    }
}

/// The rest of a document from position `i` on.
pub open spec fn document_loop(
    t: Seq<Seq<char>>,
    i: int,
    h: Seq<Seq<char>>,
    operations: Seq<OperationModel>,
    fragments: Seq<FragmentModel>,
    query_shorthand: bool,
    legacy: bool,
) -> Result<DocumentModel, Seq<char>>
    decreases t.len() + 1 - i,
{
    if i < 0 || i >= t.len() {
        if operations.len() > 0 {
            Ok(DocumentModel { operations, fragment_definitions: fragments })
        } else {
            Err(msg_unexpected_end())
        }
    } else {
        let s = t[i];
        let step: Result<(Seq<OperationModel>, Seq<FragmentModel>, bool, int, Seq<Seq<char>>), Seq<char>> =
            match keyword_type(s) {
            Some(ty) => match parse_operation_spec(t, i + 2, h, false, ty, legacy) {
                Ok((op, j, h2)) => Ok((operations.push(op), fragments, false, j, h2)),
                Err(e) => Err(e),
            },
            None => if s == "fragment"@ {
                match parse_fragment_definition_spec(t, i + 1, h, legacy) {
                    Ok((f, j, h2)) => Ok((operations, fragments.push(f), query_shorthand, j, h2)),
                    Err(e) => Err(e),
                }
            } else if s == "{"@ && query_shorthand {
                match parse_operation_spec(t, i + 1, h, true, OperationType::Query, legacy) {
                    Ok((op, j, h2)) => Ok((operations.push(op), fragments, true, j, h2)),
                    Err(e) => Err(e),
                }
            } else if s == "{"@ {
                Err("Operation type is required when not in shorthand mode"@)
            } else {
                Err("invalid token \""@ + s + "\""@)
            },
        };
        match step {
            Ok((ops, frags, shorthand, j, h2)) => if shorthand && ops.len() > 1 {
                Err("Only one operation allowed in shorthand mode"@)
            } else if i < j <= t.len() {
                document_loop(t, j, h2, ops, frags, shorthand, legacy)
            } else {
                Err(Seq::empty())
            },
            Err(e) => Err(e),
        }
    }
}

/// A whole document whose tokens are `t`, in the current dialect or, where `legacy` holds, in the
/// earlier one (an empty parameter list allowed, variable types plain names, and no variable list
/// without an operation name).
pub open spec fn parse_document_with(t: Seq<Seq<char>>, legacy: bool) -> Result<DocumentModel, Seq<char>> {
    document_loop(t, 0, Seq::empty(), Seq::empty(), Seq::empty(), true, legacy)
}

/// What `parse_query` gives for a document whose tokens are `t`.
pub open spec fn parse_document_spec(t: Seq<Seq<char>>) -> Result<DocumentModel, Seq<char>> {
    parse_document_with(t, false)
}

} // verus!

verus! {

// Each parse function that succeeds has read at least one token and stops within the tokens.

pub proof fn lemma_param_value(t: Seq<Seq<char>>, i: int, h: Seq<Seq<char>>)
    ensures
        param_value(t, i, h) matches Ok((_, j, _)) ==> i < j <= t.len(),
    decreases t.len() + 1 - i, 0int,
{
    if 0 <= i < t.len() {
        let v = t[i];
        if v == "{"@ {
            lemma_object_loop(t, i + 1, h.push("{"@), Seq::empty());
        } else if v == "["@ {
            lemma_list_loop(t, i + 1, h.push("["@), Seq::empty());
        }
    }
}

pub proof fn lemma_params_loop(t: Seq<Seq<char>>, i: int, h: Seq<Seq<char>>, acc: Seq<ArgModel>, legacy: bool)
    ensures
        params_loop(t, i, h, acc, legacy) matches Ok((_, j, _)) ==> i < j <= t.len(),
    decreases t.len() + 1 - i, 0int,
{
    if 0 <= i < t.len() {
        let s = t[i];
        if s != ")"@ && valid_name(s) {
            if let Some(c) = tok(t, i + 1) {
                if c == ":"@ {
                    lemma_param_value(t, i + 2, h);
                    if let Ok((v, j, h2)) = param_value(t, i + 2, h) {
                        if advances(t, i, j) {
                            lemma_params_loop(t, j, h2, acc.push(ArgModel { name: s, value: v }), legacy);
                        }
                    }
                }
            }
        }
    }
}

pub proof fn lemma_object_value(t: Seq<Seq<char>>, i: int, h: Seq<Seq<char>>)
    ensures
        object_value(t, i, h) matches Ok((_, j, _)) ==> i < j <= t.len(),
    decreases t.len() + 1 - i, 0int,
{
    if 0 <= i < t.len() {
        let v = t[i];
        if v == "{"@ {
            lemma_object_loop(t, i + 1, h.push("{"@), Seq::empty());
        } else if v == "["@ {
            lemma_list_loop(t, i + 1, h.push("["@), Seq::empty());
        }
    }
}

pub proof fn lemma_object_loop(t: Seq<Seq<char>>, i: int, h: Seq<Seq<char>>, acc: Seq<ArgModel>)
    ensures
        object_loop(t, i, h, acc) matches Ok((_, j, _)) ==> i < j <= t.len(),
    decreases t.len() + 1 - i, 0int,
{
    if 0 <= i < t.len() {
        let s = t[i];
        let (open, h2) = pop_open(h);
        if !((s == "}"@ || s == ")"@) && matching_close(s, open)) && !(s == "}"@ || s == ")"@)
            && !(s == "]"@ && matching_close(s, open)) {
            let h3 = if s == "]"@ {
                h2
            } else {
                h
            };
            if let Some(c) = tok(t, i + 1) {
                if c == ":"@ {
                    lemma_object_value(t, i + 2, h3);
                    if let Ok((v, j, h4)) = object_value(t, i + 2, h3) {
                        if advances(t, i, j) {
                            lemma_object_loop(t, j, h4, acc.push(ArgModel { name: s, value: v }));
                        }
                    }
                }
            }
        }
    }
}

pub proof fn lemma_list_loop(t: Seq<Seq<char>>, i: int, h: Seq<Seq<char>>, acc: Seq<ValueModel>)
    ensures
        list_loop(t, i, h, acc) matches Ok((_, j, _)) ==> i < j <= t.len(),
    decreases t.len() + 1 - i, 0int,
{
    if 0 <= i < t.len() {
        let s = t[i];
        let (open, h2) = pop_open(h);
        if s == "{"@ {
            lemma_object_loop(t, i + 1, h.push("{"@), Seq::empty());
            if let Ok((v, j, h3)) = object_loop(t, i + 1, h.push("{"@), Seq::empty()) {
                if advances(t, i, j) {
                    lemma_list_loop(t, j, h3, acc.push(v));
                }
            }
        } else if s == "]"@ && matching_close("]"@, open) {
        } else if valid_value(s) {
            lemma_list_loop(
                t,
                i + 1,
                if s == "]"@ {
                    h2
                } else {
                    h
                },
                acc.push(ValueModel::Scalar(s)),
            );
        }
    }
}

pub proof fn lemma_field_tail(t: Seq<Seq<char>>, i: int, h: Seq<Seq<char>>, legacy: bool)
    ensures
        field_tail(t, i, h, legacy) matches Ok((_, j, _)) ==> i <= j <= t.len() + 1,
    decreases t.len() + 1 - i, 1int,
{
    if 1 <= i <= t.len() {
        let cur = t[i - 1];
        if cur == "("@ {
            lemma_params_loop(t, i, h.push("("@), Seq::empty(), legacy);
        }
        let params: Parsed<Seq<ArgModel>> = if cur == "("@ {
            match params_loop(t, i, h.push("("@), Seq::empty(), legacy) {
                Ok((ps, j, h2)) => if advances(t, i - 1, j) {
                    Ok((ps, j + 1, h2))
                } else {
                    Err(Seq::empty())
                },
                Err(e) => Err(e),
            }
        } else {
            Ok((Seq::empty(), i, h))
        };
        if let Ok((ps, k, h2)) = params {
            if 1 <= k <= t.len() && t[k - 1] == "{"@ {
                lemma_fields_loop(t, k + 1, h2.push("{"@), Seq::empty(), legacy);
            }
        }
    }
}

pub proof fn lemma_one_field(t: Seq<Seq<char>>, i: int, h: Seq<Seq<char>>, legacy: bool)
    ensures
        one_field(t, i, h, legacy) matches Ok((_, j, _)) ==> i < j <= t.len() + 1,
    decreases t.len() + 1 - i, 0int,
{
    if 1 <= i <= t.len() {
        let cur = t[i - 1];
        if cur != "..."@ && valid_name(cur) {
            let named: Parsed<(Option<Seq<char>>, Seq<char>)> = match tok(t, i) {
                Some(c) => if c == ":"@ {
                    match tok(t, i + 1) {
                        Some(n) => if valid_name(n) {
                            Ok(((Some(cur), n), i + 3, h))
                        } else {
                            Err(msg_invalid_token(n))
                        },
                        None => Err(msg_unexpected_end()),
                    }
                } else {
                    Ok(((None, cur), i + 1, h))
                },
                None => Err(msg_unexpected_end()),
            };
            if let Ok(((alias, name), k, _)) = named {
                if k <= t.len() {
                    lemma_field_tail(t, k, h, legacy);
                }
            }
        }
    }
}

pub proof fn lemma_fields_loop(t: Seq<Seq<char>>, i: int, h: Seq<Seq<char>>, acc: Seq<FieldModel>, legacy: bool)
    ensures
        fields_loop(t, i, h, acc, legacy) matches Ok((_, j, _)) ==> i < j <= t.len(),
    decreases t.len() + 1 - i, 1int,
{
    lemma_one_field(t, i, h, legacy);
    if let Ok((f, k, h2)) = one_field(t, i, h, legacy) {
        let acc2 = acc.push(f);
        if 1 <= k <= t.len() && t[k - 1] == "}"@ {
        } else if advances(t, i, k) {
            lemma_fields_loop(t, k, h2, acc2, legacy);
        }
    }
}

pub proof fn lemma_vars_loop(t: Seq<Seq<char>>, i: int, h: Seq<Seq<char>>, acc: Seq<VariableModel>, legacy: bool)
    ensures
        vars_loop(t, i, h, acc, legacy) matches Ok((_, j, _)) ==> i <= j <= t.len(),
    decreases t.len() + 1 - i,
{
    if 1 <= i <= t.len() {
        let cur = t[i - 1];
        if cur != ")"@ && cur == "$"@ {
            if let (Some(name), Some(c), Some(ty), Some(d)) = (
                tok(t, i),
                tok(t, i + 1),
                tok(t, i + 2),
                tok(t, i + 3),
            ) {
                if valid_name(name) && c == ":"@ && (if legacy {
                    valid_name(ty)
                } else {
                    valid_variable_type(ty)
                }) {
                    if d == "="@ {
                        if let Some(v) = tok(t, i + 4) {
                            if valid_value(v) {
                                lemma_vars_loop(
                                    t,
                                    i + 6,
                                    h,
                                    acc.push(
                                        VariableModel {
                                            name,
                                            var_type: ty,
                                            default_value: Some(ValueModel::Scalar(v)),
                                        },
                                    ),
                                    legacy,
                                );
                            }
                        }
                    } else {
                        lemma_vars_loop(
                            t,
                            i + 4,
                            h,
                            acc.push(VariableModel { name, var_type: ty, default_value: None }),
                            legacy,
                        );
                    }
                }
            }
        }
    }
}

pub proof fn lemma_parse_operation(
    t: Seq<Seq<char>>,
    i: int,
    h: Seq<Seq<char>>,
    query_shorthand: bool,
    operation_type: OperationType,
    legacy: bool,
)
    ensures
        parse_operation_spec(t, i, h, query_shorthand, operation_type, legacy) matches Ok((_, j, _)) ==> i
            < j <= t.len(),
{
    lemma_fields_loop(t, i + 1, h.push("{"@), Seq::empty(), legacy);
    lemma_fields_loop(t, i + 2, h.push("{"@), Seq::empty(), legacy);
    lemma_vars_loop(t, i + 2, h.push("("@), Seq::empty(), legacy);
    lemma_vars_loop(t, i + 1, h.push("("@), Seq::empty(), legacy);
    if let Ok((vars, j, h2)) = parse_variables_spec(t, i + 1, h.push("("@), legacy) {
        lemma_fields_loop(t, j + 2, h2.push("{"@), Seq::empty(), legacy);
    }
    if let Ok((vars, j, h2)) = parse_variables_spec(t, i, h.push("("@), legacy) {
        lemma_fields_loop(t, j + 2, h2.push("{"@), Seq::empty(), legacy);
    }
}

pub proof fn lemma_parse_fragment_definition(t: Seq<Seq<char>>, i: int, h: Seq<Seq<char>>, legacy: bool)
    ensures
        parse_fragment_definition_spec(t, i, h, legacy) matches Ok((_, j, _)) ==> i < j <= t.len(),
{
    lemma_fields_loop(t, i + 5, h.push("{"@), Seq::empty(), legacy);
}

// ---------------------------------------------------------------------------------------------
// The bracket stack after a selection set.

/// No `]` token is followed by a `:`. (A `]` read where an object field name goes takes the
/// innermost bracket off the stack without closing it, and such a field is then read on.)
pub open spec fn no_colon_after_close(t: Seq<Seq<char>>) -> bool {
    forall|k: int| 0 <= k && k + 1 < t.len() && #[trigger] t[k] == "]"@ ==> t[k + 1] != ":"@
}

proof fn lemma_bracket_literals()
    ensures
        "}"@ != ")"@,
        "}"@ != "]"@,
        ")"@ != "]"@,
        "{"@ != "("@,
        "{"@ != "["@,
        "("@ != "["@,
        "]"@ != ":"@,
        matching_close("}"@, Some("{"@)),
        matching_close(")"@, Some("("@)),
        matching_close("]"@, Some("["@)),
        !matching_close(")"@, Some("{"@)),
        !matching_close("]"@, Some("{"@)),
{
    reveal_strlit("}");
    reveal_strlit(")");
    reveal_strlit("]");
    reveal_strlit("{");
    reveal_strlit("(");
    reveal_strlit("[");
    reveal_strlit(":");
    assert("}"@[0] != ")"@[0]);
    assert("}"@[0] != "]"@[0]);
    assert(")"@[0] != "]"@[0]);
    assert("{"@[0] != "("@[0]);
    assert("{"@[0] != "["@[0]);
    assert("("@[0] != "["@[0]);
    assert("]"@[0] != ":"@[0]);
}

proof fn lemma_bal_param_value(t: Seq<Seq<char>>, i: int, h: Seq<Seq<char>>)
    requires
        no_colon_after_close(t),
    ensures
        param_value(t, i, h) matches Ok((_, _, h2)) ==> h2 == h,
    decreases t.len() + 1 - i, 0int,
{
    if 0 <= i < t.len() {
        let v = t[i];
        if v == "{"@ {
            lemma_bal_object_loop(t, i + 1, h.push("{"@), Seq::empty());
            assert(h.push("{"@).drop_last() =~= h);
        } else if v == "["@ {
            lemma_bal_list_loop(t, i + 1, h.push("["@), Seq::empty());
            assert(h.push("["@).drop_last() =~= h);
        }
    }
}

proof fn lemma_bal_object_value(t: Seq<Seq<char>>, i: int, h: Seq<Seq<char>>)
    requires
        no_colon_after_close(t),
    ensures
        object_value(t, i, h) matches Ok((_, _, h2)) ==> h2 == h,
    decreases t.len() + 1 - i, 0int,
{
    if 0 <= i < t.len() {
        let v = t[i];
        if v == "{"@ {
            lemma_bal_object_loop(t, i + 1, h.push("{"@), Seq::empty());
            assert(h.push("{"@).drop_last() =~= h);
        } else if v == "["@ {
            lemma_bal_list_loop(t, i + 1, h.push("["@), Seq::empty());
            assert(h.push("["@).drop_last() =~= h);
        }
    }
}

proof fn lemma_bal_object_loop(t: Seq<Seq<char>>, i: int, h: Seq<Seq<char>>, acc: Seq<ArgModel>)
    requires
        no_colon_after_close(t),
        h.len() > 0,
        h.last() == "{"@,
    ensures
        object_loop(t, i, h, acc) matches Ok((_, _, h2)) ==> h2 == h.drop_last(),
    decreases t.len() + 1 - i, 0int,
{
    lemma_bracket_literals();
    if 0 <= i < t.len() {
        let s = t[i];
        let (open, h2) = pop_open(h);
        assert(open == Some("{"@));
        if (s == "}"@ || s == ")"@) && matching_close(s, open) {
        } else if s == "}"@ || s == ")"@ {
        } else if s == "]"@ && matching_close(s, open) {
        } else {
            if s == "]"@ {
                if let Some(c) = tok(t, i + 1) {
                    assert(t[i] == "]"@);
                    assert(c != ":"@);
                }
            } else {
                if let Some(c) = tok(t, i + 1) {
                    if c == ":"@ {
                        lemma_bal_object_value(t, i + 2, h);
                        lemma_object_value(t, i + 2, h);
                        if let Ok((v, j, h4)) = object_value(t, i + 2, h) {
                            if advances(t, i, j) {
                                lemma_bal_object_loop(t, j, h4, acc.push(ArgModel { name: s, value: v }));
                            }
                        }
                    }
                }
            }
        }
    }
}

proof fn lemma_bal_list_loop(t: Seq<Seq<char>>, i: int, h: Seq<Seq<char>>, acc: Seq<ValueModel>)
    requires
        no_colon_after_close(t),
        h.len() > 0,
        h.last() == "["@,
    ensures
        list_loop(t, i, h, acc) matches Ok((_, _, h2)) ==> h2 == h.drop_last(),
    decreases t.len() + 1 - i, 0int,
{
    lemma_bracket_literals();
    if 0 <= i < t.len() {
        let s = t[i];
        let (open, h2) = pop_open(h);
        assert(open == Some("["@));
        if s == "{"@ {
            lemma_bal_object_loop(t, i + 1, h.push("{"@), Seq::empty());
            assert(h.push("{"@).drop_last() =~= h);
            if let Ok((v, j, h3)) = object_loop(t, i + 1, h.push("{"@), Seq::empty()) {
                if advances(t, i, j) {
                    lemma_bal_list_loop(t, j, h3, acc.push(v));
                }
            }
        } else if s == "]"@ && matching_close("]"@, open) {
        } else if valid_value(s) {
            assert(s != "]"@);
            lemma_bal_list_loop(t, i + 1, h, acc.push(ValueModel::Scalar(s)));
        }
    }
}

proof fn lemma_bal_params_loop(t: Seq<Seq<char>>, i: int, h: Seq<Seq<char>>, acc: Seq<ArgModel>, legacy: bool)
    requires
        no_colon_after_close(t),
        h.len() > 0,
        h.last() == "("@,
    ensures
        params_loop(t, i, h, acc, legacy) matches Ok((_, _, h2)) ==> h2 == h.drop_last(),
    decreases t.len() + 1 - i, 0int,
{
    lemma_bracket_literals();
    if 0 <= i < t.len() {
        let s = t[i];
        if s != ")"@ && valid_name(s) {
            if let Some(c) = tok(t, i + 1) {
                if c == ":"@ {
                    lemma_bal_param_value(t, i + 2, h);
                    if let Ok((v, j, h2)) = param_value(t, i + 2, h) {
                        if advances(t, i, j) {
                            lemma_bal_params_loop(t, j, h2, acc.push(ArgModel { name: s, value: v }), legacy);
                        }
                    }
                }
            }
        }
    }
}

proof fn lemma_bal_field_tail(t: Seq<Seq<char>>, i: int, h: Seq<Seq<char>>, legacy: bool)
    requires
        no_colon_after_close(t),
    ensures
        field_tail(t, i, h, legacy) matches Ok((_, _, h2)) ==> h2 == h,
    decreases t.len() + 1 - i, 1int,
{
    if 1 <= i <= t.len() {
        let cur = t[i - 1];
        if cur == "("@ {
            lemma_bal_params_loop(t, i, h.push("("@), Seq::empty(), legacy);
            assert(h.push("("@).drop_last() =~= h);
        }
        let params: Parsed<Seq<ArgModel>> = if cur == "("@ {
            match params_loop(t, i, h.push("("@), Seq::empty(), legacy) {
                Ok((ps, j, h2)) => if advances(t, i - 1, j) {
                    Ok((ps, j + 1, h2))
                } else {
                    Err(Seq::empty())
                },
                Err(e) => Err(e),
            }
        } else {
            Ok((Seq::empty(), i, h))
        };
        if let Ok((ps, k, h2)) = params {
            if 1 <= k <= t.len() && t[k - 1] == "{"@ {
                lemma_bal_fields_loop(t, k + 1, h2.push("{"@), Seq::empty(), legacy);
                assert(h2.push("{"@).drop_last() =~= h2);
            }
        }
    }
}

proof fn lemma_bal_one_field(t: Seq<Seq<char>>, i: int, h: Seq<Seq<char>>, legacy: bool)
    requires
        no_colon_after_close(t),
    ensures
        one_field(t, i, h, legacy) matches Ok((_, _, h2)) ==> h2 == h,
    decreases t.len() + 1 - i, 0int,
{
    if 1 <= i <= t.len() {
        let cur = t[i - 1];
        if cur != "..."@ && valid_name(cur) {
            let named: Parsed<(Option<Seq<char>>, Seq<char>)> = match tok(t, i) {
                Some(c) => if c == ":"@ {
                    match tok(t, i + 1) {
                        Some(n) => if valid_name(n) {
                            Ok(((Some(cur), n), i + 3, h))
                        } else {
                            Err(msg_invalid_token(n))
                        },
                        None => Err(msg_unexpected_end()),
                    }
                } else {
                    Ok(((None, cur), i + 1, h))
                },
                None => Err(msg_unexpected_end()),
            };
            if let Ok(((alias, name), k, _)) = named {
                if k <= t.len() {
                    lemma_bal_field_tail(t, k, h, legacy);
                }
            }
        }
    }
}

proof fn lemma_bal_fields_loop(t: Seq<Seq<char>>, i: int, h: Seq<Seq<char>>, acc: Seq<FieldModel>, legacy: bool)
    requires
        no_colon_after_close(t),
        h.len() > 0,
        h.last() == "{"@,
    ensures
        fields_loop(t, i, h, acc, legacy) matches Ok((fs, j, h2)) ==> h2 == h.drop_last() && fs.len() > acc.len()
            && 1 <= j <= t.len() && t[j - 1] == "}"@,
    decreases t.len() + 1 - i, 1int,
{
    lemma_bracket_literals();
    lemma_bal_one_field(t, i, h, legacy);
    if let Ok((f, k, h2)) = one_field(t, i, h, legacy) {
        let acc2 = acc.push(f);
        if 1 <= k <= t.len() && t[k - 1] == "}"@ {
        } else if advances(t, i, k) {
            lemma_bal_fields_loop(t, k, h2, acc2, legacy);
        }
    }
}

/// A selection set that parses takes off the bracket stack its own `{` and every bracket opened
/// inside it, holds at least one field, and ends with a `}`; where no `]` token is followed by a
/// `:`.
pub proof fn law_fields_restore_brackets(t: Seq<Seq<char>>, i: int, h: Seq<Seq<char>>, legacy: bool)
    requires
        no_colon_after_close(t),
    ensures
        parse_fields_spec(t, i, h.push("{"@), legacy) matches Ok((fs, j, h2)) ==> h2 == h && fs.len() >= 1
            && 1 <= j <= t.len() && t[j - 1] == "}"@,
{
    lemma_bal_fields_loop(t, i + 1, h.push("{"@), Seq::empty(), legacy);
    assert(h.push("{"@).drop_last() =~= h);
}

} // verus!
