//! The token sequences that the serializer lays out for the parts of a document, and the
//! grammar reading them back.

use vstd::prelude::*;
use super::tokenizer::{
    is_token_breaker, is_insignificant, scan, step, tokens_from, ScanState, spec_tokenize,
    initial_state, first_significant,
};
use super::printer::{ser_value, ser_arg, ser_args, ser_values, ser_field, ser_fields, ser_operation, operation_keyword};
use super::model::{ArgModel, ValueModel, FieldModel, VariableModel, OperationModel, DocumentModel, OperationType};
use super::grammar::{
    pop_open, matching_close, valid_name, valid_value, param_value, params_loop, object_value,
    object_loop, list_loop, field_tail, one_field, fields_loop, parse_fields_spec, tok,
    parse_document_with, parse_document_spec, document_loop, parse_operation_spec, operation_body, keyword_type,
};

verus! {

/// The tokens `u` stand in `t` from position `i` on.
pub open spec fn tokens_at(t: Seq<Seq<char>>, i: int, u: Seq<Seq<char>>) -> bool {
    &&& 0 <= i
    &&& i + u.len() <= t.len()
    &&& forall|k: int| 0 <= k < u.len() ==> #[trigger] u[k] == t[i + k]
}

/// The tokens that stand for punctuation in the grammar.
pub open spec fn is_punctuator(s: Seq<char>) -> bool {
    ||| s == "{"@
    ||| s == "}"@
    ||| s == "("@
    ||| s == ")"@
    ||| s == "["@
    ||| s == "]"@
    ||| s == ":"@
    ||| s == "$"@
    ||| s == "..."@
}

/// A character that the tokenizer keeps inside a word: no punctuation, separator, quote or
/// backslash.
pub open spec fn word_char(c: char) -> bool {
    !is_token_breaker(c) && !is_insignificant(c) && c != '"' && c != '\\'
}

/// A non-empty run of word characters.
pub open spec fn plain_word(w: Seq<char>) -> bool {
    w.len() > 0 && forall|k: int| 0 <= k < w.len() ==> word_char(#[trigger] w[k])
}

/// A quoted string whose only unescaped quotes are its first and last characters, and whose
/// closing quote is not escaped.
pub open spec fn quoted_ok(w: Seq<char>) -> bool {
    &&& w.len() >= 2
    &&& w[0] == '"'
    &&& w.last() == '"'
    &&& forall|k: int| 1 <= k < w.len() - 1 && #[trigger] w[k] == '"' ==> k > 1 && w[k - 1] == '\\'
    &&& w[w.len() - 2] != '\\' || w.len() == 2
}

/// A name that reads back as itself, from the printed text and from its tokens.
pub open spec fn plain_name(s: Seq<char>) -> bool {
    valid_name(s) && plain_word(s)
}

/// A scalar that reads back as itself, from the printed text and from its tokens.
pub open spec fn plain_scalar(s: Seq<char>) -> bool {
    valid_value(s) && (plain_word(s) || quoted_ok(s))
}

/// The tokens of a value as the serializer lays them out.
pub open spec fn value_tokens(v: ValueModel) -> Seq<Seq<char>>
    decreases v,
{
    match v {
        ValueModel::Nil => seq!["null"@],
        ValueModel::Scalar(s) => seq![s],
        ValueModel::Variable(x) => seq!["$"@, x],
        ValueModel::Object(o) => seq!["{"@] + args_tokens(o) + seq!["}"@],
        ValueModel::List(l) => seq!["["@] + values_tokens(l) + seq!["]"@],
    }
}

/// The tokens of named arguments: each name, a `:` and the value.
pub open spec fn args_tokens(args: Seq<ArgModel>) -> Seq<Seq<char>>
    decreases args,
{
    if args.len() == 0 {
        Seq::empty()
    } else {
        seq![args[0].name, ":"@] + value_tokens(args[0].value) + args_tokens(
            args.subrange(1, args.len() as int),
        )
    }
}

/// The tokens of the items of a list.
pub open spec fn values_tokens(vs: Seq<ValueModel>) -> Seq<Seq<char>>
    decreases vs,
{
    if vs.len() == 0 {
        Seq::empty()
    } else {
        value_tokens(vs[0]) + values_tokens(vs.subrange(1, vs.len() as int))
    }
}

/// A parameter value that the grammar reads back as itself.
pub open spec fn param_value_ok(v: ValueModel) -> bool
    decreases v,
{
    match v {
        ValueModel::Nil => false,
        ValueModel::Scalar(s) => plain_scalar(s),
        ValueModel::Variable(x) => plain_name(x),
        ValueModel::Object(o) => object_args_ok(o),
        ValueModel::List(l) => list_items_ok(l),
    }
}

/// A value of a field of an object value that the grammar reads back as itself.
pub open spec fn object_value_ok(v: ValueModel) -> bool
    decreases v,
{
    match v {
        ValueModel::Scalar(s) => plain_scalar(s),
        ValueModel::Object(o) => object_args_ok(o),
        ValueModel::List(l) => list_items_ok(l),
        _ => false,
    }
}

/// The fields of an object value: plain names and values that read back as themselves.
pub open spec fn object_args_ok(args: Seq<ArgModel>) -> bool
    decreases args,
{
    args.len() == 0 || (plain_name(args[0].name) && object_value_ok(args[0].value) && object_args_ok(
        args.subrange(1, args.len() as int),
    ))
}

/// The items of a list value: objects and plain scalars.
pub open spec fn list_items_ok(vs: Seq<ValueModel>) -> bool
    decreases vs,
{
    vs.len() == 0 || ((match vs[0] {
        ValueModel::Object(o) => object_args_ok(o),
        ValueModel::Scalar(s) => plain_scalar(s),
        _ => false,
    }) && list_items_ok(vs.subrange(1, vs.len() as int)))
}

/// The parameters of a field: plain names and values that read back as themselves.
pub open spec fn params_ok(args: Seq<ArgModel>) -> bool
    decreases args,
{
    args.len() == 0 || (plain_name(args[0].name) && param_value_ok(args[0].value) && params_ok(
        args.subrange(1, args.len() as int),
    ))
}

proof fn lemma_literals()
    ensures
        "{"@ != "["@,
        "{"@ != "$"@,
        "["@ != "$"@,
        "{"@ != "("@,
        "{"@ != ":"@,
        "("@ != ":"@,
        "}"@ != ")"@,
        "}"@ != "]"@,
        ")"@ != "]"@,
        "]"@ != "{"@,
        "}"@ != ":"@,
        "}"@ != "("@,
        "}"@ != "{"@,
        "..."@ != "}"@,
        "..."@ != ":"@,
        "..."@ != "("@,
        "..."@ != "{"@,
        matching_close("}"@, Some("{"@)),
        matching_close(")"@, Some("("@)),
        matching_close("]"@, Some("["@)),
        forall|w: Seq<char>| #[trigger] plain_word(w) ==> !is_punctuator(w),
        forall|w: Seq<char>| #[trigger] quoted_ok(w) ==> !is_punctuator(w),
{
    reveal_strlit("{");
    reveal_strlit("}");
    reveal_strlit("(");
    reveal_strlit(")");
    reveal_strlit("[");
    reveal_strlit("]");
    reveal_strlit(":");
    reveal_strlit("$");
    reveal_strlit("...");
    assert("{"@[0] != "["@[0]);
    assert("{"@[0] != "$"@[0]);
    assert("["@[0] != "$"@[0]);
    assert("{"@[0] != "("@[0]);
    assert("{"@[0] != ":"@[0]);
    assert("("@[0] != ":"@[0]);
    assert("}"@[0] != ")"@[0]);
    assert("}"@[0] != "]"@[0]);
    assert(")"@[0] != "]"@[0]);
    assert("]"@[0] != "{"@[0]);
    assert("}"@[0] != ":"@[0]);
    assert("}"@[0] != "("@[0]);
    assert("}"@[0] != "{"@[0]);
    assert forall|w: Seq<char>| #[trigger] plain_word(w) implies !is_punctuator(w) by {
        assert(word_char(w[0]));
    }
    assert forall|w: Seq<char>| #[trigger] quoted_ok(w) implies !is_punctuator(w) by {
        assert(w[0] == '"');
    }
}

proof fn lemma_tokens_split(t: Seq<Seq<char>>, i: int, a: Seq<Seq<char>>, b: Seq<Seq<char>>)
    requires
        tokens_at(t, i, a + b),
    ensures
        tokens_at(t, i, a),
        tokens_at(t, i + a.len(), b),
{
    assert forall|k: int| 0 <= k < a.len() implies #[trigger] a[k] == t[i + k] by {
        assert((a + b)[k] == a[k]);
    }
    assert forall|k: int| 0 <= k < b.len() implies #[trigger] b[k] == t[i + a.len() + k] by {
        assert((a + b)[a.len() + k] == b[k]);
        assert(t[i + (a.len() + k)] == (a + b)[a.len() + k]);
    }
}

proof fn lemma_rb_param_value(t: Seq<Seq<char>>, i: int, h: Seq<Seq<char>>, v: ValueModel)
    requires
        param_value_ok(v),
        tokens_at(t, i, value_tokens(v)),
    ensures
        param_value(t, i, h) == Ok::<(ValueModel, int, Seq<Seq<char>>), Seq<char>>((v, i + value_tokens(v).len(), h)),
    decreases v,
{
    lemma_literals();
    let vt = value_tokens(v);
    assert(vt[0] == t[i + 0]);
    match v {
        ValueModel::Scalar(s) => {},
        ValueModel::Variable(x) => {
            assert(vt[1] == t[i + 1]);
        },
        ValueModel::Object(o) => {
            let at = args_tokens(o);
            assert(vt =~= seq!["{"@] + (at + seq!["}"@]));
            lemma_tokens_split(t, i, seq!["{"@], at + seq!["}"@]);
            lemma_rb_object_loop(t, i + 1, h.push("{"@), Seq::empty(), o);
            assert(Seq::<ArgModel>::empty() + o =~= o);
            assert(h.push("{"@).drop_last() =~= h);
        },
        ValueModel::List(l) => {
            let lt = values_tokens(l);
            assert(vt =~= seq!["["@] + (lt + seq!["]"@]));
            lemma_tokens_split(t, i, seq!["["@], lt + seq!["]"@]);
            lemma_rb_list_loop(t, i + 1, h.push("["@), Seq::empty(), l);
            assert(Seq::<ValueModel>::empty() + l =~= l);
            assert(h.push("["@).drop_last() =~= h);
        },
        ValueModel::Nil => {},
    }
}

proof fn lemma_rb_object_value(t: Seq<Seq<char>>, i: int, h: Seq<Seq<char>>, v: ValueModel)
    requires
        object_value_ok(v),
        tokens_at(t, i, value_tokens(v)),
    ensures
        object_value(t, i, h) == Ok::<(ValueModel, int, Seq<Seq<char>>), Seq<char>>((v, i + value_tokens(v).len(), h)),
    decreases v,
{
    lemma_literals();
    let vt = value_tokens(v);
    assert(vt[0] == t[i + 0]);
    match v {
        ValueModel::Scalar(s) => {},
        ValueModel::Object(o) => {
            let at = args_tokens(o);
            assert(vt =~= seq!["{"@] + (at + seq!["}"@]));
            lemma_tokens_split(t, i, seq!["{"@], at + seq!["}"@]);
            lemma_rb_object_loop(t, i + 1, h.push("{"@), Seq::empty(), o);
            assert(Seq::<ArgModel>::empty() + o =~= o);
            assert(h.push("{"@).drop_last() =~= h);
        },
        ValueModel::List(l) => {
            let lt = values_tokens(l);
            assert(vt =~= seq!["["@] + (lt + seq!["]"@]));
            lemma_tokens_split(t, i, seq!["["@], lt + seq!["]"@]);
            lemma_rb_list_loop(t, i + 1, h.push("["@), Seq::empty(), l);
            assert(Seq::<ValueModel>::empty() + l =~= l);
            assert(h.push("["@).drop_last() =~= h);
        },
        _ => {},
    }
}

proof fn lemma_rb_object_loop(
    t: Seq<Seq<char>>,
    i: int,
    h: Seq<Seq<char>>,
    acc: Seq<ArgModel>,
    args: Seq<ArgModel>,
)
    requires
        object_args_ok(args),
        tokens_at(t, i, args_tokens(args) + seq!["}"@]),
        h.len() > 0,
        h.last() == "{"@,
    ensures
        object_loop(t, i, h, acc) == Ok::<(ValueModel, int, Seq<Seq<char>>), Seq<char>>(
            (ValueModel::Object(acc + args), i + args_tokens(args).len() + 1, h.drop_last()),
        ),
    decreases args,
{
    lemma_literals();
    let u = args_tokens(args) + seq!["}"@];
    assert(u[0] == t[i + 0]);
    if args.len() == 0 {
        assert(acc + args =~= acc);
    } else {
        let a = args[0];
        let rest = args.subrange(1, args.len() as int);
        let vt = value_tokens(a.value);
        let rt = args_tokens(rest);
        assert(u =~= seq![a.name, ":"@] + (vt + (rt + seq!["}"@])));
        lemma_tokens_split(t, i, seq![a.name, ":"@], vt + (rt + seq!["}"@]));
        lemma_tokens_split(t, i + 2, vt, rt + seq!["}"@]);
        assert(seq![a.name, ":"@][1] == t[i + 1]);
        lemma_rb_object_value(t, i + 2, h, a.value);
        lemma_rb_object_loop(t, i + 2 + vt.len(), h, acc.push(a), rest);
        assert(acc.push(a) + rest =~= acc + args);
        assert(ArgModel { name: a.name, value: a.value } == a);
    }
}

proof fn lemma_rb_list_loop(
    t: Seq<Seq<char>>,
    i: int,
    h: Seq<Seq<char>>,
    acc: Seq<ValueModel>,
    items: Seq<ValueModel>,
)
    requires
        list_items_ok(items),
        tokens_at(t, i, values_tokens(items) + seq!["]"@]),
        h.len() > 0,
        h.last() == "["@,
    ensures
        list_loop(t, i, h, acc) == Ok::<(ValueModel, int, Seq<Seq<char>>), Seq<char>>(
            (ValueModel::List(acc + items), i + values_tokens(items).len() + 1, h.drop_last()),
        ),
    decreases items,
{
    lemma_literals();
    let u = values_tokens(items) + seq!["]"@];
    assert(u[0] == t[i + 0]);
    if items.len() == 0 {
        assert(acc + items =~= acc);
    } else {
        let v = items[0];
        let rest = items.subrange(1, items.len() as int);
        let vt = value_tokens(v);
        let rt = values_tokens(rest);
        assert(u =~= vt + (rt + seq!["]"@]));
        lemma_tokens_split(t, i, vt, rt + seq!["]"@]);
        assert(vt[0] == t[i + 0]);
        match v {
            ValueModel::Object(o) => {
                let at = args_tokens(o);
                assert(vt =~= seq!["{"@] + (at + seq!["}"@]));
                lemma_tokens_split(t, i, seq!["{"@], at + seq!["}"@]);
                lemma_rb_object_loop(t, i + 1, h.push("{"@), Seq::empty(), o);
                assert(Seq::<ArgModel>::empty() + o =~= o);
                assert(h.push("{"@).drop_last() =~= h);
            },
            _ => {},
        }
        lemma_rb_list_loop(t, i + vt.len(), h, acc.push(v), rest);
        assert(acc.push(v) + rest =~= acc + items);
    }
}

proof fn lemma_rb_params_loop(
    t: Seq<Seq<char>>,
    i: int,
    h: Seq<Seq<char>>,
    acc: Seq<ArgModel>,
    args: Seq<ArgModel>,
    legacy: bool,
)
    requires
        params_ok(args),
        args.len() > 0 || acc.len() > 0 || legacy,
        tokens_at(t, i, args_tokens(args) + seq![")"@]),
        h.len() > 0,
        h.last() == "("@,
    ensures
        params_loop(t, i, h, acc, legacy) == Ok::<(Seq<ArgModel>, int, Seq<Seq<char>>), Seq<char>>(
            (acc + args, i + args_tokens(args).len() + 1, h.drop_last()),
        ),
    decreases args,
{
    lemma_literals();
    let u = args_tokens(args) + seq![")"@];
    assert(u[0] == t[i + 0]);
    if args.len() == 0 {
        assert(acc + args =~= acc);
    } else {
        let a = args[0];
        let rest = args.subrange(1, args.len() as int);
        let vt = value_tokens(a.value);
        let rt = args_tokens(rest);
        assert(u =~= seq![a.name, ":"@] + (vt + (rt + seq![")"@])));
        lemma_tokens_split(t, i, seq![a.name, ":"@], vt + (rt + seq![")"@]));
        lemma_tokens_split(t, i + 2, vt, rt + seq![")"@]);
        assert(seq![a.name, ":"@][1] == t[i + 1]);
        lemma_rb_param_value(t, i + 2, h, a.value);
        lemma_rb_params_loop(t, i + 2 + vt.len(), h, acc.push(a), rest, legacy);
        assert(acc.push(a) + rest =~= acc + args);
        assert(ArgModel { name: a.name, value: a.value } == a);
    }
}

/// The tokens of a selected field, or of a fragment spread, as the serializer lays them out.
pub open spec fn field_tokens(f: FieldModel) -> Seq<Seq<char>>
    decreases f,
{
    match f {
        FieldModel::Field { alias, name, parameters, fields } => (match alias {
            Some(a) => seq![a, ":"@, name],
            None => seq![name],
        }) + (if parameters.len() > 0 {
            seq!["("@] + args_tokens(parameters) + seq![")"@]
        } else {
            Seq::empty()
        }) + (if fields.len() > 0 {
            seq!["{"@] + fields_tokens(fields) + seq!["}"@]
        } else {
            Seq::empty()
        }),
        FieldModel::Fragment { name } => seq!["..."@, name],
    }
}

/// The tokens of the fields of a selection set, one after the other.
pub open spec fn fields_tokens(fs: Seq<FieldModel>) -> Seq<Seq<char>>
    decreases fs,
{
    if fs.len() == 0 {
        Seq::empty()
    } else {
        field_tokens(fs[0]) + fields_tokens(fs.subrange(1, fs.len() as int))
    }
}

/// A field that the grammar reads back as itself: plain names, parameters that read back, and
/// subfields that do.
pub open spec fn field_ok(f: FieldModel) -> bool
    decreases f,
{
    match f {
        FieldModel::Field { alias, name, parameters, fields } => {
            &&& match alias {
                Some(a) => plain_name(a) && plain_name(name),
                None => plain_name(name),
            }
            &&& params_ok(parameters)
            &&& fields_ok(fields)
        },
        FieldModel::Fragment { name } => plain_name(name),
    }
}

/// Fields that the grammar reads back as themselves.
pub open spec fn fields_ok(fs: Seq<FieldModel>) -> bool
    decreases fs,
{
    fs.len() == 0 || (field_ok(fs[0]) && fields_ok(fs.subrange(1, fs.len() as int)))
}

/// A token that may follow a field without ending it early: not a `:`, `(` or `{`.
spec fn ends_field(s: Seq<char>) -> bool {
    s != ":"@ && s != "("@ && s != "{"@
}

proof fn lemma_field_first_token(f: FieldModel)
    requires
        field_ok(f),
    ensures
        field_tokens(f).len() > 0,
        ends_field(field_tokens(f)[0]),
        field_tokens(f)[0] != "}"@,
{
    lemma_literals();
    let ft = field_tokens(f);
    match f {
        FieldModel::Field { alias, name, parameters, fields } => {
            let head = match alias {
                Some(a) => seq![a, ":"@, name],
                None => seq![name],
            };
            let p = if parameters.len() > 0 {
                seq!["("@] + args_tokens(parameters) + seq![")"@]
            } else {
                Seq::empty()
            };
            let q = if fields.len() > 0 {
                seq!["{"@] + fields_tokens(fields) + seq!["}"@]
            } else {
                Seq::empty()
            };
            assert(ft == head + p + q);
            assert(ft[0] == head[0]);
        },
        FieldModel::Fragment { name } => {},
    }
}

#[verifier::rlimit(40)]
proof fn lemma_rb_one_field(t: Seq<Seq<char>>, i: int, h: Seq<Seq<char>>, legacy: bool, f: FieldModel)
    requires
        field_ok(f),
        tokens_at(t, i - 1, field_tokens(f)),
        i - 1 + field_tokens(f).len() < t.len(),
        ends_field(t[i - 1 + field_tokens(f).len()]),
    ensures
        one_field(t, i, h, legacy) == Ok::<(FieldModel, int, Seq<Seq<char>>), Seq<char>>(
            (f, i + field_tokens(f).len(), h),
        ),
    decreases f, 0int,
{
    lemma_literals();
    let ft = field_tokens(f);
    assert(ft[0] == t[i - 1 + 0]);
    match f {
        FieldModel::Fragment { name } => {
            assert(ft[1] == t[i - 1 + 1]);
        },
        FieldModel::Field { alias, name, parameters, fields } => {
            let head = match alias {
                Some(a) => seq![a, ":"@, name],
                None => seq![name],
            };
            let p = if parameters.len() > 0 {
                seq!["("@] + args_tokens(parameters) + seq![")"@]
            } else {
                Seq::empty()
            };
            let q = if fields.len() > 0 {
                seq!["{"@] + fields_tokens(fields) + seq!["}"@]
            } else {
                Seq::empty()
            };
            assert(ft == head + p + q);
            assert(ft =~= head + (p + q));
            lemma_tokens_split(t, i - 1, head, p + q);
            lemma_tokens_split(t, i - 1 + head.len(), p, q);
            let k0 = i + head.len();
            let cur = t[i - 1];
            assert(cur == head[0]);
            assert(cur != "..."@ && valid_name(cur));
            // the token at k0 - 1 is the first one after the name
            assert(ft.len() == head.len() + p.len() + q.len());
            if p.len() == 0 && q.len() == 0 {
            } else if p.len() > 0 {
                assert(p[0] == t[i - 1 + head.len() + 0]);
            } else {
                assert(q[0] == t[i - 1 + head.len() + p.len() + 0]);
            }
            assert(t[k0 - 1] != ":"@);
            lemma_rb_field_tail(t, k0, h, legacy, parameters, fields, p, q);
            let tail = field_tail(t, k0, h, legacy);
            assert(tail == Ok::<((Seq<ArgModel>, Seq<FieldModel>), int, Seq<Seq<char>>), Seq<char>>(
                ((parameters, fields), i + ft.len(), h),
            ));
            match alias {
                Some(a) => {
                    assert(head[1] == t[i - 1 + 1]);
                    assert(head[2] == t[i - 1 + 2]);
                    assert(tok(t, i) == Some(":"@));
                    assert(tok(t, i + 1) == Some(name));
                    assert(k0 == i + 3);
                },
                None => {
                    assert(k0 == i + 1);
                    assert(tok(t, i) == Some(t[k0 - 1]));
                },
            }
        },
    }
}

proof fn lemma_rb_field_tail(
    t: Seq<Seq<char>>,
    k0: int,
    h: Seq<Seq<char>>,
    legacy: bool,
    parameters: Seq<ArgModel>,
    fields: Seq<FieldModel>,
    p: Seq<Seq<char>>,
    q: Seq<Seq<char>>,
)
    requires
        params_ok(parameters),
        fields_ok(fields),
        p == (if parameters.len() > 0 {
            seq!["("@] + args_tokens(parameters) + seq![")"@]
        } else {
            Seq::<Seq<char>>::empty()
        }),
        q == (if fields.len() > 0 {
            seq!["{"@] + fields_tokens(fields) + seq!["}"@]
        } else {
            Seq::<Seq<char>>::empty()
        }),
        1 <= k0,
        tokens_at(t, k0 - 1, p),
        tokens_at(t, k0 - 1 + p.len(), q),
        k0 - 1 + p.len() + q.len() < t.len(),
        ends_field(t[k0 - 1 + p.len() + q.len()]),
    ensures
        field_tail(t, k0, h, legacy) == Ok::<((Seq<ArgModel>, Seq<FieldModel>), int, Seq<Seq<char>>), Seq<char>>(
            ((parameters, fields), k0 + p.len() + q.len(), h),
        ),
    decreases fields, 2int,
{
    lemma_literals();
    let k = k0 + p.len();
    if parameters.len() > 0 {
        assert(p[0] == t[k0 - 1 + 0]);
        let at = args_tokens(parameters);
        assert(p =~= seq!["("@] + (at + seq![")"@]));
        lemma_tokens_split(t, k0 - 1, seq!["("@], at + seq![")"@]);
        lemma_rb_params_loop(t, k0, h.push("("@), Seq::empty(), parameters, legacy);
        assert(Seq::<ArgModel>::empty() + parameters =~= parameters);
        assert(h.push("("@).drop_last() =~= h);
    } else {
        if q.len() > 0 {
            assert(q[0] == t[k0 - 1 + 0]);
        }
    }
    if fields.len() > 0 {
        assert(q[0] == t[k - 1 + 0]);
        let ft = fields_tokens(fields);
        assert(q =~= seq!["{"@] + (ft + seq!["}"@]));
        lemma_tokens_split(t, k - 1, seq!["{"@], ft + seq!["}"@]);
        lemma_rb_fields_loop(t, k + 1, h.push("{"@), Seq::empty(), legacy, fields);
        assert(Seq::<FieldModel>::empty() + fields =~= fields);
        assert(h.push("{"@).drop_last() =~= h);
    }
}

proof fn lemma_rb_fields_loop(
    t: Seq<Seq<char>>,
    i: int,
    h: Seq<Seq<char>>,
    acc: Seq<FieldModel>,
    legacy: bool,
    fs: Seq<FieldModel>,
)
    requires
        fields_ok(fs),
        fs.len() > 0,
        tokens_at(t, i - 1, fields_tokens(fs) + seq!["}"@]),
        h.len() > 0,
        h.last() == "{"@,
    ensures
        fields_loop(t, i, h, acc, legacy) == Ok::<(Seq<FieldModel>, int, Seq<Seq<char>>), Seq<char>>(
            (acc + fs, i + fields_tokens(fs).len(), h.drop_last()),
        ),
    decreases fs, 1int,
{
    lemma_literals();
    reveal_with_fuel(fields_ok, 2);
    let f = fs[0];
    let rest = fs.subrange(1, fs.len() as int);
    let ft = field_tokens(f);
    let rt = fields_tokens(rest);
    let u = fields_tokens(fs) + seq!["}"@];
    assert(u =~= ft + (rt + seq!["}"@]));
    lemma_tokens_split(t, i - 1, ft, rt + seq!["}"@]);
    lemma_field_first_token(f);
    let nxt = i - 1 + ft.len();
    assert((rt + seq!["}"@])[0] == t[nxt + 0]);
    if rest.len() > 0 {
        lemma_field_first_token(rest[0]);
        assert(rt =~= field_tokens(rest[0]) + fields_tokens(rest.subrange(1, rest.len() as int)));
        assert((rt + seq!["}"@])[0] == field_tokens(rest[0])[0]);
    } else {
        assert(rt.len() == 0);
    }
    lemma_rb_one_field(t, i, h, legacy, f);
    if rest.len() > 0 {
        lemma_rb_fields_loop(t, i + ft.len(), h, acc.push(f), legacy, rest);
        assert(acc.push(f) + rest =~= acc + fs);
    } else {
        assert(acc.push(f) =~= acc + fs);
    }
}

/// The grammar reads a printed selection set back: where the tokens after a `{` are those of
/// the fields `fs` followed by a `}`, it gives back `fs`, the position after the `}` and the
/// bracket stack without the `{`.
pub proof fn law_fields_read_back(t: Seq<Seq<char>>, i: int, h: Seq<Seq<char>>, legacy: bool, fs: Seq<FieldModel>)
    requires
        fs.len() > 0,
        fields_ok(fs),
        tokens_at(t, i, fields_tokens(fs) + seq!["}"@]),
        h.len() > 0,
        h.last() == "{"@,
    ensures
        parse_fields_spec(t, i, h, legacy) == Ok::<(Seq<FieldModel>, int, Seq<Seq<char>>), Seq<char>>(
            (fs, i + fields_tokens(fs).len() + 1, h.drop_last()),
        ),
{
    lemma_rb_fields_loop(t, i + 1, h, Seq::empty(), legacy, fs);
    assert(Seq::<FieldModel>::empty() + fs =~= fs);
}

/// The tokens of an operation without variables as the serializer lays them out: a query in
/// shorthand form, other operations after their keyword.
pub open spec fn operation_tokens(op: OperationModel) -> Seq<Seq<char>> {
    let body = seq!["{"@] + fields_tokens(op.fields) + seq!["}"@];
    match op.operation_type {
        OperationType::Query => body,
        OperationType::Mutation => seq!["mutation"@] + body,
        OperationType::Subscription => seq!["subscription"@] + body,
    }
}

proof fn lemma_keyword_literals()
    ensures
        keyword_type("{"@) is None,
        "{"@ != "fragment"@,
        keyword_type("mutation"@) == Some(OperationType::Mutation),
        keyword_type("subscription"@) == Some(OperationType::Subscription),
{
    reveal_strlit("{");
    reveal_strlit("query");
    reveal_strlit("mutation");
    reveal_strlit("subscription");
    reveal_strlit("fragment");
    assert("{"@.len() != "query"@.len());
    assert("{"@.len() != "mutation"@.len());
    assert("{"@.len() != "subscription"@.len());
    assert("{"@.len() != "fragment"@.len());
    assert("mutation"@.len() != "query"@.len());
    assert("subscription"@.len() != "query"@.len());
    assert("subscription"@.len() != "mutation"@.len());
}

/// The grammar reads a printed operation without variables back: the document holds that one
/// operation, with its type and fields and no name, and no fragment definitions.
pub proof fn law_operation_read_back(op: OperationModel, legacy: bool)
    requires
        op.variables.len() == 0,
        op.fields.len() > 0,
        fields_ok(op.fields),
    ensures
        parse_document_with(operation_tokens(op), legacy) == Ok::<DocumentModel, Seq<char>>(
            DocumentModel {
                operations: seq![OperationModel { name: None, ..op }],
                fragment_definitions: Seq::empty(),
            },
        ),
{
    lemma_keyword_literals();
    let t = operation_tokens(op);
    let ft = fields_tokens(op.fields);
    let body = seq!["{"@] + ft + seq!["}"@];
    let h0 = Seq::<Seq<char>>::empty().push("{"@);
    let op2 = OperationModel { name: None, ..op };
    assert(op.variables =~= Seq::<VariableModel>::empty());
    assert(op2 == OperationModel {
        operation_type: op.operation_type,
        name: None,
        variables: Seq::empty(),
        fields: op.fields,
    });
    let ops = seq![op2];
    assert(Seq::<OperationModel>::empty().push(op2) =~= ops);
    assert(h0.drop_last() =~= Seq::<Seq<char>>::empty());
    // the offset of the opening `{`
    let d: int = if op.operation_type == OperationType::Query { 0 } else { 1 };
    assert(t =~= t.subrange(0, d) + (seq!["{"@] + (ft + seq!["}"@])));
    assert(tokens_at(t, 0, t));
    lemma_tokens_split(t, 0, t.subrange(0, d), seq!["{"@] + (ft + seq!["}"@]));
    lemma_tokens_split(t, d, seq!["{"@], ft + seq!["}"@]);
    assert(seq!["{"@][0] == t[d + 0]);
    law_fields_read_back(t, d + 1, h0, legacy, op.fields);
    assert(t.len() == d + ft.len() + 2);
    match op.operation_type {
        OperationType::Query => {
            assert(t[0] == "{"@);
            assert(parse_operation_spec(t, 1, Seq::empty(), true, OperationType::Query, legacy)
                == Ok::<(OperationModel, int, Seq<Seq<char>>), Seq<char>>((op2, t.len() as int, Seq::empty())));
        },
        _ => {
            assert(t[0] == seq!["mutation"@][0] || t[0] == seq!["subscription"@][0]);
            assert(keyword_type(t[0]) == Some(op.operation_type));
            assert(parse_operation_spec(t, 2, Seq::empty(), false, op.operation_type, legacy)
                == Ok::<(OperationModel, int, Seq<Seq<char>>), Seq<char>>((op2, t.len() as int, Seq::empty())));
        },
    }
    assert(document_loop(t, t.len() as int, Seq::empty(), ops, Seq::empty(), op.operation_type == OperationType::Query, legacy)
        == Ok::<DocumentModel, Seq<char>>(DocumentModel { operations: ops, fragment_definitions: Seq::empty() }));
}

/// The characters `w` stand in `s` from position `p` on.
pub open spec fn chars_at(s: Seq<char>, p: int, w: Seq<char>) -> bool {
    &&& 0 <= p
    &&& p + w.len() <= s.len()
    &&& forall|k: int| 0 <= k < w.len() ==> #[trigger] w[k] == s[p + k]
}

/// The tokenizer between two tokens at position `p`, outside quotes and escapes.
spec fn at(p: int) -> ScanState {
    ScanState { escaping: false, in_quotes: false, completed: false, pos: p }
}

/// A character that ends the token before it.
spec fn ends_token(c: char) -> bool {
    is_token_breaker(c) || is_insignificant(c)
}

proof fn lemma_chars_split(s: Seq<char>, p: int, a: Seq<char>, b: Seq<char>)
    requires
        chars_at(s, p, a + b),
    ensures
        chars_at(s, p, a),
        chars_at(s, p + a.len(), b),
{
    assert forall|k: int| 0 <= k < a.len() implies #[trigger] a[k] == s[p + k] by {
        assert((a + b)[k] == a[k]);
    }
    assert forall|k: int| 0 <= k < b.len() implies #[trigger] b[k] == s[p + a.len() + k] by {
        assert((a + b)[a.len() + k] == b[k]);
        assert(s[p + (a.len() + k)] == (a + b)[a.len() + k]);
    }
}

proof fn lemma_scan_word(s: Seq<char>, p: int, w: Seq<char>, i: int)
    requires
        chars_at(s, p, w),
        plain_word(w),
        p + w.len() < s.len(),
        ends_token(s[p + w.len()]),
        p <= i <= p + w.len(),
    ensures
        scan(s, false, false, p, i) == (at(p + w.len()), Some((p, p + w.len()))),
    decreases p + w.len() - i,
{
    if i < p + w.len() {
        assert(w[i - p] == s[p + (i - p)]);
        lemma_scan_word(s, p, w, i + 1);
    }
}

/// A token and the tokens after it.
proof fn lemma_token_then(s: Seq<char>, p: int, q: int, w: Seq<char>)
    requires
        0 <= p < q <= s.len(),
        step(s, at(p)) == (at(q), Some((p, q))),
        chars_at(s, p, w),
        w.len() == q - p,
    ensures
        tokens_from(s, at(p)) == seq![w] + tokens_from(s, at(q)),
{
    assert(s.subrange(p, q) =~= w);
}

proof fn lemma_word(s: Seq<char>, p: int, w: Seq<char>)
    requires
        chars_at(s, p, w),
        plain_word(w),
        p + w.len() < s.len(),
        ends_token(s[p + w.len()]),
    ensures
        tokens_from(s, at(p)) == seq![w] + tokens_from(s, at(p + w.len())),
{
    lemma_scan_word(s, p, w, p);
    lemma_token_then(s, p, p + w.len(), w);
}

proof fn lemma_scan_quoted(s: Seq<char>, p: int, w: Seq<char>, i: int, escaping: bool)
    requires
        chars_at(s, p, w),
        quoted_ok(w),
        p + w.len() < s.len(),
        ends_token(s[p + w.len()]),
        p + 1 <= i <= p + w.len() - 1,
        escaping == (i > p + 1 && s[i - 1] == '\\'),
    ensures
        scan(s, escaping, true, p, i) == (at(p + w.len()), Some((p, p + w.len()))),
    decreases p + w.len() - i,
{
    let k = i - p;
    assert(w[k] == s[p + k]);
    if k > 0 {
        assert(w[k - 1] == s[p + (k - 1)]);
    }
    if i == p + w.len() - 1 {
        assert(w.last() == w[k]);
        assert(!escaping);
        assert(scan(s, false, false, p, i + 1) == (at(p + w.len()), Some((p, p + w.len()))));
    } else {
        lemma_scan_quoted(s, p, w, i + 1, s[i] == '\\');
    }
}

proof fn lemma_quoted(s: Seq<char>, p: int, w: Seq<char>)
    requires
        chars_at(s, p, w),
        quoted_ok(w),
        p + w.len() < s.len(),
        ends_token(s[p + w.len()]),
    ensures
        tokens_from(s, at(p)) == seq![w] + tokens_from(s, at(p + w.len())),
{
    assert(w[0] == s[p + 0]);
    lemma_scan_quoted(s, p, w, p + 1, false);
    lemma_token_then(s, p, p + w.len(), w);
}

/// A punctuation character other than `.` is a token of its own.
proof fn lemma_punct(s: Seq<char>, p: int, w: Seq<char>)
    requires
        chars_at(s, p, w),
        w.len() == 1,
        is_token_breaker(w[0]),
        w[0] != '.',
    ensures
        tokens_from(s, at(p)) == seq![w] + tokens_from(s, at(p + 1)),
{
    assert(w[0] == s[p + 0]);
    lemma_token_then(s, p, p + 1, w);
}

/// A space is skipped.
proof fn lemma_space(s: Seq<char>, p: int)
    requires
        0 <= p < s.len(),
        s[p] == ' ',
    ensures
        tokens_from(s, at(p)) == tokens_from(s, at(p + 1)),
{
    assert(step(s, at(p)) == step(s, at(p + 1)));
}

/// Three dots are a token of their own.
proof fn lemma_spread(s: Seq<char>, p: int, w: Seq<char>)
    requires
        chars_at(s, p, w),
        w == seq!['.', '.', '.'],
    ensures
        tokens_from(s, at(p)) == seq![w] + tokens_from(s, at(p + 3)),
{
    assert(w[0] == s[p + 0]);
    assert(w[1] == s[p + 1]);
    assert(w[2] == s[p + 2]);
    lemma_token_then(s, p, p + 3, w);
}

proof fn lemma_args_last(args: Seq<ArgModel>)
    requires
        args.len() > 0,
    ensures
        args_tokens(args) == args_tokens(args.subrange(0, args.len() - 1)) + (seq![
            args.last().name,
            ":"@,
        ] + value_tokens(args.last().value)),
        params_ok(args) ==> params_ok(args.subrange(0, args.len() - 1)) && plain_name(args.last().name)
            && param_value_ok(args.last().value),
        object_args_ok(args) ==> object_args_ok(args.subrange(0, args.len() - 1)) && plain_name(
            args.last().name,
        ) && object_value_ok(args.last().value),
    decreases args.len(),
{
    let init = args.subrange(0, args.len() - 1);
    let rest = args.subrange(1, args.len() as int);
    let h0 = seq![args[0].name, ":"@] + value_tokens(args[0].value);
    let l = seq![args.last().name, ":"@] + value_tokens(args.last().value);
    if args.len() == 1 {
        assert(init.len() == 0);
        assert(rest.len() == 0);
        assert(args.last() == args[0]);
        assert(args_tokens(rest) == Seq::<Seq<char>>::empty());
        assert(args_tokens(init) == Seq::<Seq<char>>::empty());
        assert(args_tokens(args) =~= args_tokens(init) + l);
    } else {
        lemma_args_last(rest);
        let ri = rest.subrange(0, rest.len() - 1);
        assert(ri =~= init.subrange(1, init.len() as int));
        assert(rest.last() == args.last());
        assert(init[0] == args[0]);
        assert(args_tokens(init) == h0 + args_tokens(ri));
        assert(args_tokens(args) == h0 + (args_tokens(ri) + l));
        assert(args_tokens(args) =~= args_tokens(init) + l);
    }
}

proof fn lemma_values_last(vs: Seq<ValueModel>)
    requires
        vs.len() > 0,
    ensures
        values_tokens(vs) == values_tokens(vs.subrange(0, vs.len() - 1)) + value_tokens(vs.last()),
        list_items_ok(vs) ==> list_items_ok(vs.subrange(0, vs.len() - 1)) && (match vs.last() {
            ValueModel::Object(o) => object_args_ok(o),
            ValueModel::Scalar(s) => plain_scalar(s),
            _ => false,
        }),
    decreases vs.len(),
{
    let init = vs.subrange(0, vs.len() - 1);
    let rest = vs.subrange(1, vs.len() as int);
    let h0 = value_tokens(vs[0]);
    let l = value_tokens(vs.last());
    if vs.len() == 1 {
        assert(init.len() == 0);
        assert(rest.len() == 0);
        assert(vs.last() == vs[0]);
        assert(values_tokens(rest) == Seq::<Seq<char>>::empty());
        assert(values_tokens(init) == Seq::<Seq<char>>::empty());
        assert(values_tokens(vs) =~= values_tokens(init) + l);
    } else {
        lemma_values_last(rest);
        let ri = rest.subrange(0, rest.len() - 1);
        assert(ri =~= init.subrange(1, init.len() as int));
        assert(rest.last() == vs.last());
        assert(init[0] == vs[0]);
        assert(values_tokens(init) == h0 + values_tokens(ri));
        assert(values_tokens(vs) == h0 + (values_tokens(ri) + l));
        assert(values_tokens(vs) =~= values_tokens(init) + l);
    }
}

proof fn lemma_fields_last(fs: Seq<FieldModel>)
    requires
        fs.len() > 0,
    ensures
        fields_tokens(fs) == fields_tokens(fs.subrange(0, fs.len() - 1)) + field_tokens(fs.last()),
        fields_ok(fs) ==> fields_ok(fs.subrange(0, fs.len() - 1)) && field_ok(fs.last()),
    decreases fs.len(),
{
    let init = fs.subrange(0, fs.len() - 1);
    let rest = fs.subrange(1, fs.len() as int);
    let h0 = field_tokens(fs[0]);
    let l = field_tokens(fs.last());
    if fs.len() == 1 {
        assert(init.len() == 0);
        assert(rest.len() == 0);
        assert(fs.last() == fs[0]);
        assert(fields_tokens(rest) == Seq::<Seq<char>>::empty());
        assert(fields_tokens(init) == Seq::<Seq<char>>::empty());
        assert(fields_tokens(fs) =~= fields_tokens(init) + l);
    } else {
        lemma_fields_last(rest);
        let ri = rest.subrange(0, rest.len() - 1);
        assert(ri =~= init.subrange(1, init.len() as int));
        assert(rest.last() == fs.last());
        assert(init[0] == fs[0]);
        assert(fields_tokens(init) == h0 + fields_tokens(ri));
        assert(fields_tokens(fs) == h0 + (fields_tokens(ri) + l));
        assert(fields_tokens(fs) =~= fields_tokens(init) + l);
    }
}

proof fn lemma_punct_literals()
    ensures
        "{"@ == seq!['{'],
        "}"@ == seq!['}'],
        "("@ == seq!['('],
        ")"@ == seq![')'],
        "["@ == seq!['['],
        "]"@ == seq![']'],
        ":"@ == seq![':'],
        "$"@ == seq!['$'],
        " "@ == seq![' '],
        "..."@ == seq!['.', '.', '.'],
{
    reveal_strlit("{");
    reveal_strlit("}");
    reveal_strlit("(");
    reveal_strlit(")");
    reveal_strlit("[");
    reveal_strlit("]");
    reveal_strlit(":");
    reveal_strlit("$");
    reveal_strlit(" ");
    reveal_strlit("...");
    assert("{"@ =~= seq!['{']);
    assert("}"@ =~= seq!['}']);
    assert("("@ =~= seq!['(']);
    assert(")"@ =~= seq![')']);
    assert("["@ =~= seq!['[']);
    assert("]"@ =~= seq![']']);
    assert(":"@ =~= seq![':']);
    assert("$"@ =~= seq!['$']);
    assert(" "@ =~= seq![' ']);
    assert("..."@ =~= seq!['.', '.', '.']);
}

/// `a`, then `b`, then `c` stand in `s` from `p` on.
proof fn lemma_chars_split3(s: Seq<char>, p: int, a: Seq<char>, b: Seq<char>, c: Seq<char>)
    requires
        chars_at(s, p, a + b + c),
    ensures
        chars_at(s, p, a),
        chars_at(s, p + a.len(), b),
        chars_at(s, p + a.len() + b.len(), c),
{
    lemma_chars_split(s, p, a + b, c);
    lemma_chars_split(s, p, a, b);
}

proof fn lemma_text_value(s: Seq<char>, p: int, v: ValueModel)
    requires
        param_value_ok(v) || object_value_ok(v),
        chars_at(s, p, ser_value(v)),
        p + ser_value(v).len() < s.len(),
        ends_token(s[p + ser_value(v).len()]),
    ensures
        tokens_from(s, at(p)) == value_tokens(v) + tokens_from(s, at(p + ser_value(v).len())),
    decreases v,
{
    lemma_punct_literals();
    let e = p + ser_value(v).len();
    match v {
        ValueModel::Scalar(w) => {
            if plain_word(w) {
                lemma_word(s, p, w);
            } else {
                lemma_quoted(s, p, w);
            }
        },
        ValueModel::Variable(x) => {
            lemma_chars_split(s, p, "$"@, x);
            lemma_punct(s, p, "$"@);
            lemma_word(s, p + 1, x);
            assert(seq!["$"@] + (seq![x] + tokens_from(s, at(e))) =~= seq!["$"@, x] + tokens_from(s, at(e)));
        },
        ValueModel::Object(o) => {
            let a = ser_args(o);
            lemma_chars_split3(s, p, "{"@, a, "}"@);
            lemma_punct(s, p, "{"@);
            assert("}"@[0] == s[p + 1 + a.len() + 0]);
            lemma_text_args(s, p + 1, o);
            lemma_punct(s, p + 1 + a.len(), "}"@);
            assert(seq!["{"@] + (args_tokens(o) + (seq!["}"@] + tokens_from(s, at(e)))) =~= value_tokens(v)
                + tokens_from(s, at(e)));
        },
        ValueModel::List(l) => {
            let a = ser_values(l);
            lemma_chars_split3(s, p, "["@, a, "]"@);
            lemma_punct(s, p, "["@);
            assert("]"@[0] == s[p + 1 + a.len() + 0]);
            lemma_text_values(s, p + 1, l);
            lemma_punct(s, p + 1 + a.len(), "]"@);
            assert(seq!["["@] + (values_tokens(l) + (seq!["]"@] + tokens_from(s, at(e)))) =~= value_tokens(v)
                + tokens_from(s, at(e)));
        },
        ValueModel::Nil => {},
    }
}

proof fn lemma_text_arg(s: Seq<char>, p: int, a: ArgModel)
    requires
        plain_name(a.name),
        param_value_ok(a.value) || object_value_ok(a.value),
        chars_at(s, p, ser_arg(a)),
        p + ser_arg(a).len() < s.len(),
        ends_token(s[p + ser_arg(a).len()]),
    ensures
        tokens_from(s, at(p)) == seq![a.name, ":"@] + value_tokens(a.value) + tokens_from(
            s,
            at(p + ser_arg(a).len()),
        ),
    decreases a,
{
    lemma_punct_literals();
    let e = p + ser_arg(a).len();
    let n = a.name;
    let vt = ser_value(a.value);
    lemma_chars_split3(s, p, n, ":"@, vt);
    assert(":"@[0] == s[p + n.len() + 0]);
    lemma_word(s, p, n);
    lemma_punct(s, p + n.len(), ":"@);
    lemma_text_value(s, p + n.len() + 1, a.value);
    assert(seq![n] + (seq![":"@] + (value_tokens(a.value) + tokens_from(s, at(e)))) =~= seq![n, ":"@]
        + value_tokens(a.value) + tokens_from(s, at(e)));
}

proof fn lemma_text_args(s: Seq<char>, p: int, args: Seq<ArgModel>)
    requires
        params_ok(args) || object_args_ok(args),
        chars_at(s, p, ser_args(args)),
        p + ser_args(args).len() < s.len(),
        ends_token(s[p + ser_args(args).len()]),
    ensures
        tokens_from(s, at(p)) == args_tokens(args) + tokens_from(s, at(p + ser_args(args).len())),
    decreases args,
{
    lemma_punct_literals();
    let e = p + ser_args(args).len();
    if args.len() == 0 {
        assert(args_tokens(args) + tokens_from(s, at(e)) =~= tokens_from(s, at(e)));
    } else {
        lemma_args_last(args);
        let init = args.subrange(0, args.len() - 1);
        let last = args[args.len() - 1];
        assert(last == args.last());
        if args.len() == 1 {
            assert(init.len() == 0);
            assert(args_tokens(init) =~= Seq::<Seq<char>>::empty());
            lemma_text_arg(s, p, last);
            assert(args_tokens(args) + tokens_from(s, at(e)) =~= seq![last.name, ":"@] + value_tokens(
                last.value,
            ) + tokens_from(s, at(e)));
        } else {
            let a = ser_args(init);
            lemma_chars_split3(s, p, a, " "@, ser_arg(last));
            assert(" "@[0] == s[p + a.len() + 0]);
            lemma_text_args(s, p, init);
            lemma_space(s, p + a.len());
            lemma_text_arg(s, p + a.len() + 1, last);
            assert(args_tokens(init) + (seq![last.name, ":"@] + value_tokens(last.value) + tokens_from(
                s,
                at(e),
            )) =~= args_tokens(args) + tokens_from(s, at(e)));
        }
    }
}

proof fn lemma_text_values(s: Seq<char>, p: int, vs: Seq<ValueModel>)
    requires
        list_items_ok(vs),
        chars_at(s, p, ser_values(vs)),
        p + ser_values(vs).len() < s.len(),
        ends_token(s[p + ser_values(vs).len()]),
    ensures
        tokens_from(s, at(p)) == values_tokens(vs) + tokens_from(s, at(p + ser_values(vs).len())),
    decreases vs,
{
    lemma_punct_literals();
    let e = p + ser_values(vs).len();
    if vs.len() == 0 {
        assert(values_tokens(vs) + tokens_from(s, at(e)) =~= tokens_from(s, at(e)));
    } else {
        lemma_values_last(vs);
        let init = vs.subrange(0, vs.len() - 1);
        let last = vs[vs.len() - 1];
        assert(last == vs.last());
        assert(object_value_ok(last));
        if vs.len() == 1 {
            assert(init.len() == 0);
            assert(values_tokens(init) =~= Seq::<Seq<char>>::empty());
            lemma_text_value(s, p, last);
            assert(values_tokens(vs) =~= value_tokens(last));
        } else {
            let a = ser_values(init);
            lemma_chars_split3(s, p, a, " "@, ser_value(last));
            assert(" "@[0] == s[p + a.len() + 0]);
            lemma_text_values(s, p, init);
            lemma_space(s, p + a.len());
            lemma_text_value(s, p + a.len() + 1, last);
            assert(values_tokens(init) + (value_tokens(last) + tokens_from(s, at(e))) =~= values_tokens(vs)
                + tokens_from(s, at(e)));
        }
    }
}

/// The text of a field's name, with its alias if it has one.
spec fn head_text(alias: Option<Seq<char>>, name: Seq<char>) -> Seq<char> {
    match alias {
        Some(a) => a + ":"@ + name,
        None => name,
    }
}

/// The tokens of a field's name, with its alias if it has one.
spec fn head_tokens(alias: Option<Seq<char>>, name: Seq<char>) -> Seq<Seq<char>> {
    match alias {
        Some(a) => seq![a, ":"@, name],
        None => seq![name],
    }
}

/// The text of a field's parameter list, if it has parameters.
spec fn params_text(parameters: Seq<ArgModel>) -> Seq<char> {
    if parameters.len() > 0 {
        "("@ + ser_args(parameters) + ")"@
    } else {
        Seq::empty()
    }
}

/// The tokens of a field's parameter list, if it has parameters.
spec fn params_tokens(parameters: Seq<ArgModel>) -> Seq<Seq<char>> {
    if parameters.len() > 0 {
        seq!["("@] + args_tokens(parameters) + seq![")"@]
    } else {
        Seq::empty()
    }
}

/// The text of a field's selection set, if it has subfields.
spec fn subfields_text(fields: Seq<FieldModel>) -> Seq<char> {
    if fields.len() > 0 {
        "{"@ + ser_fields(fields) + "}"@
    } else {
        Seq::empty()
    }
}

/// The tokens of a field's selection set, if it has subfields.
spec fn subfields_tokens(fields: Seq<FieldModel>) -> Seq<Seq<char>> {
    if fields.len() > 0 {
        seq!["{"@] + fields_tokens(fields) + seq!["}"@]
    } else {
        Seq::empty()
    }
}

proof fn lemma_text_head(s: Seq<char>, p: int, alias: Option<Seq<char>>, name: Seq<char>)
    requires
        match alias {
            Some(a) => plain_name(a) && plain_name(name),
            None => plain_name(name),
        },
        chars_at(s, p, head_text(alias, name)),
        p + head_text(alias, name).len() < s.len(),
        ends_token(s[p + head_text(alias, name).len()]),
    ensures
        tokens_from(s, at(p)) == head_tokens(alias, name) + tokens_from(
            s,
            at(p + head_text(alias, name).len()),
        ),
{
    lemma_punct_literals();
    let e = p + head_text(alias, name).len();
    match alias {
        Some(a) => {
            lemma_chars_split3(s, p, a, ":"@, name);
            assert(":"@[0] == s[p + a.len() + 0]);
            lemma_word(s, p, a);
            lemma_punct(s, p + a.len(), ":"@);
            lemma_word(s, p + a.len() + 1, name);
            assert(seq![a] + (seq![":"@] + (seq![name] + tokens_from(s, at(e)))) =~= seq![a, ":"@, name]
                + tokens_from(s, at(e)));
        },
        None => {
            lemma_word(s, p, name);
        },
    }
}

proof fn lemma_text_params(s: Seq<char>, p: int, parameters: Seq<ArgModel>)
    requires
        params_ok(parameters),
        chars_at(s, p, params_text(parameters)),
        p + params_text(parameters).len() < s.len(),
        ends_token(s[p + params_text(parameters).len()]),
    ensures
        tokens_from(s, at(p)) == params_tokens(parameters) + tokens_from(
            s,
            at(p + params_text(parameters).len()),
        ),
{
    lemma_punct_literals();
    let e = p + params_text(parameters).len();
    if parameters.len() > 0 {
        let a = ser_args(parameters);
        lemma_chars_split3(s, p, "("@, a, ")"@);
        assert(")"@[0] == s[p + 1 + a.len() + 0]);
        lemma_punct(s, p, "("@);
        lemma_text_args(s, p + 1, parameters);
        lemma_punct(s, p + 1 + a.len(), ")"@);
        assert(seq!["("@] + (args_tokens(parameters) + (seq![")"@] + tokens_from(s, at(e)))) =~= params_tokens(
            parameters,
        ) + tokens_from(s, at(e)));
    } else {
        assert(params_tokens(parameters) + tokens_from(s, at(e)) =~= tokens_from(s, at(e)));
    }
}

proof fn lemma_text_subfields(s: Seq<char>, p: int, fields: Seq<FieldModel>)
    requires
        fields_ok(fields),
        chars_at(s, p, subfields_text(fields)),
        p + subfields_text(fields).len() < s.len(),
        ends_token(s[p + subfields_text(fields).len()]),
    ensures
        tokens_from(s, at(p)) == subfields_tokens(fields) + tokens_from(
            s,
            at(p + subfields_text(fields).len()),
        ),
    decreases fields, 2int,
{
    lemma_punct_literals();
    let e = p + subfields_text(fields).len();
    if fields.len() > 0 {
        let a = ser_fields(fields);
        lemma_chars_split3(s, p, "{"@, a, "}"@);
        assert("}"@[0] == s[p + 1 + a.len() + 0]);
        lemma_punct(s, p, "{"@);
        lemma_text_fields(s, p + 1, fields);
        lemma_punct(s, p + 1 + a.len(), "}"@);
        assert(seq!["{"@] + (fields_tokens(fields) + (seq!["}"@] + tokens_from(s, at(e)))) =~= subfields_tokens(
            fields,
        ) + tokens_from(s, at(e)));
    } else {
        assert(subfields_tokens(fields) + tokens_from(s, at(e)) =~= tokens_from(s, at(e)));
    }
}

#[verifier::rlimit(40)]
proof fn lemma_text_field(s: Seq<char>, p: int, f: FieldModel)
    requires
        field_ok(f),
        chars_at(s, p, ser_field(f)),
        p + ser_field(f).len() < s.len(),
        ends_token(s[p + ser_field(f).len()]),
    ensures
        tokens_from(s, at(p)) == field_tokens(f) + tokens_from(s, at(p + ser_field(f).len())),
    decreases f, 0int,
{
    lemma_punct_literals();
    let e = p + ser_field(f).len();
    let rest_e = tokens_from(s, at(e));
    match f {
        FieldModel::Fragment { name } => {
            lemma_chars_split(s, p, "..."@, name);
            lemma_spread(s, p, "..."@);
            lemma_word(s, p + 3, name);
            assert(seq!["..."@] + (seq![name] + rest_e) =~= field_tokens(f) + rest_e);
        },
        FieldModel::Field { alias, name, parameters, fields } => {
            let head = head_text(alias, name);
            let pt = params_text(parameters);
            let qt = subfields_text(fields);
            assert(ser_field(f) == head + pt + qt);
            assert(field_tokens(f) == head_tokens(alias, name) + params_tokens(parameters) + subfields_tokens(fields));
            lemma_chars_split3(s, p, head, pt, qt);
            let p1 = p + head.len();
            let p2 = p1 + pt.len();
            if pt.len() > 0 {
                assert(pt[0] == s[p1 + 0]);
            } else if qt.len() > 0 {
                assert(qt[0] == s[p1 + 0]);
            }
            if qt.len() > 0 {
                assert(qt[0] == s[p2 + 0]);
            }
            lemma_text_head(s, p, alias, name);
            lemma_text_params(s, p1, parameters);
            lemma_text_subfields(s, p2, fields);
            assert(head_tokens(alias, name) + (params_tokens(parameters) + (subfields_tokens(fields) + rest_e))
                =~= field_tokens(f) + rest_e);
        },
    }
}

proof fn lemma_text_fields(s: Seq<char>, p: int, fs: Seq<FieldModel>)
    requires
        fields_ok(fs),
        chars_at(s, p, ser_fields(fs)),
        p + ser_fields(fs).len() < s.len(),
        ends_token(s[p + ser_fields(fs).len()]),
    ensures
        tokens_from(s, at(p)) == fields_tokens(fs) + tokens_from(s, at(p + ser_fields(fs).len())),
    decreases fs, 1int,
{
    lemma_punct_literals();
    let e = p + ser_fields(fs).len();
    if fs.len() == 0 {
        assert(fields_tokens(fs) + tokens_from(s, at(e)) =~= tokens_from(s, at(e)));
    } else {
        lemma_fields_last(fs);
        let init = fs.subrange(0, fs.len() - 1);
        let last = fs[fs.len() - 1];
        assert(last == fs.last());
        if fs.len() == 1 {
            assert(init.len() == 0);
            assert(fields_tokens(init) =~= Seq::<Seq<char>>::empty());
            lemma_text_field(s, p, last);
            assert(fields_tokens(fs) =~= field_tokens(last));
        } else {
            let a = ser_fields(init);
            lemma_chars_split3(s, p, a, " "@, ser_field(last));
            assert(" "@[0] == s[p + a.len() + 0]);
            lemma_text_fields(s, p, init);
            lemma_space(s, p + a.len());
            lemma_text_field(s, p + a.len() + 1, last);
            assert(fields_tokens(init) + (field_tokens(last) + tokens_from(s, at(e))) =~= fields_tokens(fs)
                + tokens_from(s, at(e)));
        }
    }
}

proof fn lemma_keyword_words()
    ensures
        plain_word("mutation"@),
        plain_word("subscription"@),
        "mutation"@.len() == 8,
        "subscription"@.len() == 12,
{
    reveal_strlit("mutation");
    reveal_strlit("subscription");
    assert forall|k: int| 0 <= k < "mutation"@.len() implies word_char(#[trigger] "mutation"@[k]) by {
        assert("mutation"@[k] == seq!['m', 'u', 't', 'a', 't', 'i', 'o', 'n'][k]);
    }
    assert forall|k: int| 0 <= k < "subscription"@.len() implies word_char(#[trigger] "subscription"@[k]) by {
        assert("subscription"@[k] == seq!['s', 'u', 'b', 's', 'c', 'r', 'i', 'p', 't', 'i', 'o', 'n'][k]);
    }
}

/// The printed text of an operation without variables splits into the tokens that the
/// serializer lays out for it.
proof fn lemma_operation_text(op: OperationModel)
    requires
        op.variables.len() == 0,
        op.fields.len() > 0,
        fields_ok(op.fields),
    ensures
        spec_tokenize(ser_operation(op, false)) == operation_tokens(op),
{
    lemma_punct_literals();
    lemma_keyword_words();
    let kw = operation_keyword(op, false);
    let sf = ser_fields(op.fields);
    let t = ser_operation(op, false);
    assert(t =~= kw + "{"@ + sf + "}"@);
    assert(t =~= kw + ("{"@ + sf + "}"@));
    let d = kw.len() as int;
    assert(chars_at(t, 0, t));
    lemma_chars_split(t, 0, kw, "{"@ + sf + "}"@);
    lemma_chars_split3(t, d, "{"@, sf, "}"@);
    assert("{"@[0] == t[d + 0]);
    assert("}"@[0] == t[d + 1 + sf.len() + 0]);
    assert(t.len() == d + sf.len() + 2);
    if d > 0 {
        assert(kw[0] == t[0int + 0]);
        assert(word_char(kw[0]));
    }
    assert(first_significant(t, 0) == 0);
    assert(initial_state(t) == at(0));
    let end = tokens_from(t, at(t.len() as int));
    assert(end == Seq::<Seq<char>>::empty());
    lemma_punct(t, d, "{"@);
    lemma_text_fields(t, d + 1, op.fields);
    lemma_punct(t, d + 1 + sf.len(), "}"@);
    let body = seq!["{"@] + fields_tokens(op.fields) + seq!["}"@];
    assert(tokens_from(t, at(d)) =~= body);
    if d > 0 {
        lemma_word(t, 0, kw);
        assert(tokens_from(t, at(0)) =~= seq![kw] + body);
    }
}

/// A printed operation without variables reads back as itself: parsing the serialized text
/// gives a document holding that one operation, with its type and fields and no name, and no
/// fragment definitions.
pub proof fn law_serialized_operation_reads_back(op: OperationModel)
    requires
        op.variables.len() == 0,
        op.fields.len() > 0,
        fields_ok(op.fields),
    ensures
        parse_document_spec(spec_tokenize(ser_operation(op, false))) == Ok::<DocumentModel, Seq<char>>(
            DocumentModel {
                operations: seq![OperationModel { name: None, ..op }],
                fragment_definitions: Seq::empty(),
            },
        ),
{
    lemma_operation_text(op);
    law_operation_read_back(op, false);
}

} // verus!
