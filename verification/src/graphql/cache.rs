//! Answering queries from cached values, and caching the values of responses.

pub mod memory_cache;
pub mod redis_cache;

use vstd::prelude::*;
use crate::text::{concat3, owned, str_eq, str_less, strings_view};
use crate::graphql::json::{
    keys_sorted, lemma_put_member_last, lemma_merge_members_append, lemma_key_unique,
    Json, JsonModel, json_model, json_wf, merge, merge_json, extract_mut, extract_mut_spec,
    get_member, put_member, remove_member, member, put, take, members_model,
    lemma_json_model, lemma_member_wf, lemma_remove_wf, lemma_put_wf,
};
use crate::graphql::parser::{
    Field, Parameter, ParameterValue, ParameterField, Operation, Document, Error, field_model,
    fields_model, param_model, params_model, value_model, pfield_model, pfields_model,
    values_model, operation_model, operations_model, fragments_model, document_model,
    lemma_field_model, lemma_object_model, lemma_list_model,
};
use crate::graphql::parser::model::{
    ArgModel, ValueModel, FieldModel, OperationModel, OperationType, DocumentModel, FragmentModel,
};
use crate::graphql::parser::transform::{
    refs_model, paths_model, operation_traverse, Traversable, Expansion, expand_operation_spec,
    try_expand_operation,
};
use crate::graphql_deserializer::{
    CacheHint, CacheScope, HintModel, HintDtoModel, GraphQLResponse, hint_model, entries_model,
    compressed_hints, response_hints, compress_from, hints_from_stack, sort_hints, add_to_stack_spec,
    not_null,
};
use self::memory_cache::{
    InnerCache, writes_kept, live_values, keys_distinct, lemma_live_wf, law_read_keeps_live_values, store_insert,
    TIME_BOUND, law_write_alone_is_live, law_write_keeps_other_keys, lemma_store_insert_distinct,
};

verus! {

/// A new, empty cache.
pub fn create_cache() -> (r: InnerCache)
    ensures
        r.wf(),
        r@.store.len() == 0,
{
    InnerCache::new()
}

// ---------------------------------------------------------------------------------------------
// Cache keys.

/// What `format!("{:?}", s)` gives for a string: the string quoted, with its special characters
/// escaped.
pub uninterp spec fn str_debug(s: Seq<char>) -> Seq<char>;

/// Calls `format!("{:?}", s)` on a string slice; its result is named `str_debug`.
#[verifier::external_body]
fn debug_str(s: &str) -> (r: String)
    ensures
        r@ == str_debug(s@),
{
    format!("{:?}", s)
}

/// The `Debug` text of a parameter value.
pub open spec fn value_debug(v: ValueModel) -> Seq<char>
    decreases v, 0int,
{
    match v {
        ValueModel::Nil => "Nil"@,
        ValueModel::Scalar(s) => "Scalar("@ + str_debug(s) + ")"@,
        ValueModel::Variable(s) => "Variable("@ + str_debug(s) + ")"@,
        ValueModel::Object(o) => "Object("@ + args_debug(o) + ")"@,
        ValueModel::List(l) => "List("@ + values_debug(l) + ")"@,
    }
}

/// The `Debug` text of a field of an object value.
pub open spec fn arg_debug(a: ArgModel) -> Seq<char>
    decreases a, 0int,
{
    "ParameterField { name: "@ + str_debug(a.name) + ", value: "@ + value_debug(a.value) + " }"@
}

/// The `Debug` texts of the fields of an object value, separated by `", "`.
pub open spec fn args_items(args: Seq<ArgModel>) -> Seq<char>
    decreases args, 0int,
{
    if args.len() == 0 {
        Seq::empty()
    } else if args.len() == 1 {
        arg_debug(args[0])
    } else {
        args_items(args.subrange(0, args.len() - 1)) + ", "@ + arg_debug(args[args.len() - 1])
    }
}

/// The `Debug` text of the fields of an object value: a bracketed list.
pub open spec fn args_debug(args: Seq<ArgModel>) -> Seq<char>
    decreases args, 1int,
{
    "["@ + args_items(args) + "]"@
}

/// The `Debug` texts of list items, separated by `", "`.
pub open spec fn values_items(vs: Seq<ValueModel>) -> Seq<char>
    decreases vs, 0int,
{
    if vs.len() == 0 {
        Seq::empty()
    } else if vs.len() == 1 {
        value_debug(vs[0])
    } else {
        values_items(vs.subrange(0, vs.len() - 1)) + ", "@ + value_debug(vs[vs.len() - 1])
    }
}

/// The `Debug` text of list items: a bracketed list.
pub open spec fn values_debug(vs: Seq<ValueModel>) -> Seq<char>
    decreases vs, 1int,
{
    "["@ + values_items(vs) + "]"@
}

/// What a parameter adds to a cache key: `_`, its name, and its value (`NIL` for null, a scalar
/// or a variable name as written, `OBJ` or `LST` followed by the `Debug` text of an object or a
/// list).
pub open spec fn param_key(a: ArgModel) -> Seq<char> {
    "_"@ + a.name + match a.value {
        ValueModel::Nil => "NIL"@,
        ValueModel::Scalar(s) => s,
        ValueModel::Variable(v) => v,
        ValueModel::Object(o) => "OBJ"@ + args_debug(o),
        ValueModel::List(l) => "LST"@ + values_debug(l),
    }
}

/// The keys of the parameters, one after the other.
pub open spec fn params_key(ps: Seq<ArgModel>) -> Seq<char>
    decreases ps.len(),
{
    if ps.len() == 0 {
        Seq::empty()
    } else {
        params_key(ps.drop_last()) + param_key(ps.last())
    }
}

/// The cache key of a field: its name followed by the keys of its parameters.
pub open spec fn field_key(f: FieldModel) -> Seq<char> {
    f.name_of() + params_key(f.parameters_of())
}

/// `x` stands somewhere in `y`.
pub open spec fn occurs_in(x: Seq<char>, y: Seq<char>) -> bool {
    exists|p: int| 0 <= p && p + x.len() <= y.len() && #[trigger] y.subrange(p, p + x.len()) == x
}

proof fn lemma_occurs_between(a: Seq<char>, x: Seq<char>, b: Seq<char>)
    ensures
        occurs_in(x, a + x + b),
{
    let y = a + x + b;
    assert(y.subrange(a.len() as int, (a.len() + x.len()) as int) =~= x);
}

proof fn lemma_occurs_trans(x: Seq<char>, y: Seq<char>, z: Seq<char>)
    requires
        occurs_in(x, y),
        occurs_in(y, z),
    ensures
        occurs_in(x, z),
{
    let p = choose|p: int| 0 <= p && p + x.len() <= y.len() && #[trigger] y.subrange(p, p + x.len()) == x;
    let q = choose|q: int| 0 <= q && q + y.len() <= z.len() && #[trigger] z.subrange(q, q + y.len()) == y;
    assert(z.subrange(q + p, q + p + x.len()) =~= y.subrange(p, p + x.len()));
}

/// The `Debug` text of the fields of two object values one after the other is that of the first,
/// `", "`, and that of the second.
pub proof fn law_args_debug_concat(a: Seq<ArgModel>, b: Seq<ArgModel>)
    requires
        a.len() > 0,
        b.len() > 0,
    ensures
        args_items(a + b) == args_items(a) + ", "@ + args_items(b),
    decreases b.len(),
{
    let ab = a + b;
    assert(ab.subrange(0, ab.len() - 1) =~= a + b.subrange(0, b.len() - 1));
    assert(ab[ab.len() - 1] == b[b.len() - 1]);
    if b.len() == 1 {
        assert(a + b.subrange(0, b.len() - 1) =~= a);
    } else {
        law_args_debug_concat(a, b.subrange(0, b.len() - 1));
        assert(args_items(ab) =~= args_items(a) + ", "@ + args_items(b));
    }
}

/// The `Debug` text of list items one after the other is that of the first, `", "`, and that of
/// the second.
pub proof fn law_values_debug_concat(a: Seq<ValueModel>, b: Seq<ValueModel>)
    requires
        a.len() > 0,
        b.len() > 0,
    ensures
        values_items(a + b) == values_items(a) + ", "@ + values_items(b),
    decreases b.len(),
{
    let ab = a + b;
    assert(ab.subrange(0, ab.len() - 1) =~= a + b.subrange(0, b.len() - 1));
    assert(ab[ab.len() - 1] == b[b.len() - 1]);
    if b.len() == 1 {
        assert(a + b.subrange(0, b.len() - 1) =~= a);
    } else {
        law_values_debug_concat(a, b.subrange(0, b.len() - 1));
        assert(values_items(ab) =~= values_items(a) + ", "@ + values_items(b));
    }
}

/// Every field of an object value, name and value, stands in the object's `Debug` text.
pub proof fn law_object_debug_lists_every_field(o: Seq<ArgModel>, i: int)
    requires
        0 <= i < o.len(),
    ensures
        occurs_in(arg_debug(o[i]), args_debug(o)),
{
    let pre = o.subrange(0, i);
    let one = seq![o[i]];
    let post = o.subrange(i + 1, o.len() as int);
    let x = arg_debug(o[i]);
    assert(args_items(one) == x);
    let left: Seq<char> = if i > 0 { args_items(pre) + ", "@ } else { Seq::empty() };
    let right: Seq<char> = if i + 1 < o.len() { ", "@ + args_items(post) } else { Seq::empty() };
    let po = pre + one;
    if i > 0 {
        law_args_debug_concat(pre, one);
    } else {
        assert(po =~= one);
    }
    assert(args_items(po) == left + x);
    if i + 1 < o.len() {
        law_args_debug_concat(po, post);
        assert(po + post =~= o);
    } else {
        assert(po =~= o);
    }
    assert(args_items(o) =~= left + x + right);
    lemma_occurs_between(left, x, right);
    lemma_occurs_between("["@, args_items(o), "]"@);
    lemma_occurs_trans(x, args_items(o), args_debug(o));
}

/// Every item of a list value stands in the list's `Debug` text.
pub proof fn law_list_debug_lists_every_item(l: Seq<ValueModel>, i: int)
    requires
        0 <= i < l.len(),
    ensures
        occurs_in(value_debug(l[i]), values_debug(l)),
{
    let pre = l.subrange(0, i);
    let one = seq![l[i]];
    let post = l.subrange(i + 1, l.len() as int);
    let x = value_debug(l[i]);
    assert(values_items(one) == x);
    let left: Seq<char> = if i > 0 { values_items(pre) + ", "@ } else { Seq::empty() };
    let right: Seq<char> = if i + 1 < l.len() { ", "@ + values_items(post) } else { Seq::empty() };
    let po = pre + one;
    if i > 0 {
        law_values_debug_concat(pre, one);
    } else {
        assert(po =~= one);
    }
    assert(values_items(po) == left + x);
    if i + 1 < l.len() {
        law_values_debug_concat(po, post);
        assert(po + post =~= l);
    } else {
        assert(po =~= l);
    }
    assert(values_items(l) =~= left + x + right);
    lemma_occurs_between(left, x, right);
    lemma_occurs_between("["@, values_items(l), "]"@);
    lemma_occurs_trans(x, values_items(l), values_debug(l));
}

/// The key of parameters one after the other is the key of the first ones followed by the key
/// of the others.
pub proof fn law_params_key_concat(a: Seq<ArgModel>, b: Seq<ArgModel>)
    ensures
        params_key(a + b) == params_key(a) + params_key(b),
    decreases b.len(),
{
    let ab = a + b;
    if b.len() == 0 {
        assert(ab =~= a);
    } else {
        assert(ab.drop_last() =~= a + b.drop_last());
        law_params_key_concat(a, b.drop_last());
        assert(params_key(ab) =~= params_key(a) + params_key(b));
    }
}

proof fn lemma_param_key_in_params_key(ps: Seq<ArgModel>, k: int)
    requires
        0 <= k < ps.len(),
    ensures
        occurs_in(param_key(ps[k]), params_key(ps)),
    decreases ps.len(),
{
    if k == ps.len() - 1 {
        lemma_occurs_between(params_key(ps.drop_last()), param_key(ps[k]), Seq::empty());
        assert(params_key(ps.drop_last()) + param_key(ps[k]) + Seq::<char>::empty() =~= params_key(ps));
    } else {
        lemma_param_key_in_params_key(ps.drop_last(), k);
        lemma_occurs_between(Seq::empty(), params_key(ps.drop_last()), param_key(ps.last()));
        assert(Seq::<char>::empty() + params_key(ps.drop_last()) + param_key(ps.last()) =~= params_key(ps));
        lemma_occurs_trans(param_key(ps[k]), params_key(ps.drop_last()), params_key(ps));
    }
}

proof fn lemma_arg_debug_parts(a: ArgModel)
    ensures
        occurs_in(str_debug(a.name), arg_debug(a)),
        occurs_in(value_debug(a.value), arg_debug(a)),
{
    let x = arg_debug(a);
    let pre = "ParameterField { name: "@;
    let mid = ", value: "@;
    let sd = str_debug(a.name);
    let vd = value_debug(a.value);
    assert(x =~= pre + sd + (mid + vd + " }"@));
    lemma_occurs_between(pre, sd, mid + vd + " }"@);
    assert(x =~= pre + sd + mid + vd + " }"@);
    lemma_occurs_between(pre + sd + mid, vd, " }"@);
}

/// What a parameter's value adds to its key.
spec fn param_key_tail(v: ValueModel) -> Seq<char> {
    match v {
        ValueModel::Nil => "NIL"@,
        ValueModel::Scalar(x) => x,
        ValueModel::Variable(x) => x,
        ValueModel::Object(o) => "OBJ"@ + args_debug(o),
        ValueModel::List(l) => "LST"@ + values_debug(l),
    }
}

proof fn lemma_param_key_parts(f: FieldModel, k: int)
    requires
        0 <= k < f.parameters_of().len(),
    ensures
        occurs_in(f.parameters_of()[k].name, field_key(f)),
        occurs_in(param_key_tail(f.parameters_of()[k].value), field_key(f)),
{
    let ps = f.parameters_of();
    let a = ps[k];
    let fk = field_key(f);
    let tail = param_key_tail(a.value);
    lemma_param_key_in_params_key(ps, k);
    lemma_occurs_between(f.name_of(), params_key(ps), Seq::empty());
    assert(f.name_of() + params_key(ps) + Seq::<char>::empty() =~= fk);
    lemma_occurs_trans(param_key(a), params_key(ps), fk);
    assert(param_key(a) =~= "_"@ + a.name + tail);
    lemma_occurs_between("_"@, a.name, tail);
    lemma_occurs_trans(a.name, param_key(a), fk);
    lemma_occurs_between("_"@ + a.name, tail, Seq::empty());
    assert("_"@ + a.name + tail + Seq::<char>::empty() =~= param_key(a));
    lemma_occurs_trans(tail, param_key(a), fk);
}

/// The cache key of a field records each of its parameters: the parameter's name; a scalar or
/// a variable as written; for an object value, the name and the value of every field of the
/// object; for a list value, every item.
pub proof fn law_field_key_lists_argument_contents(f: FieldModel, k: int, i: int)
    requires
        0 <= k < f.parameters_of().len(),
    ensures
        occurs_in(f.parameters_of()[k].name, field_key(f)),
        match f.parameters_of()[k].value {
            ValueModel::Scalar(x) => occurs_in(x, field_key(f)),
            ValueModel::Variable(x) => occurs_in(x, field_key(f)),
            ValueModel::Object(o) => 0 <= i < o.len() ==> {
                &&& occurs_in(arg_debug(o[i]), field_key(f))
                &&& occurs_in(str_debug(o[i].name), field_key(f))
                &&& occurs_in(value_debug(o[i].value), field_key(f))
            },
            ValueModel::List(l) => 0 <= i < l.len() ==> occurs_in(value_debug(l[i]), field_key(f)),
            ValueModel::Nil => true,
        },
{
    let a = f.parameters_of()[k];
    let fk = field_key(f);
    let tail = param_key_tail(a.value);
    lemma_param_key_parts(f, k);
    match a.value {
        ValueModel::Object(o) => {
            if 0 <= i < o.len() {
                law_object_debug_lists_every_field(o, i);
                lemma_occurs_between("OBJ"@, args_debug(o), Seq::empty());
                assert("OBJ"@ + args_debug(o) + Seq::<char>::empty() =~= tail);
                lemma_occurs_trans(args_debug(o), tail, fk);
                let x = arg_debug(o[i]);
                lemma_occurs_trans(x, args_debug(o), fk);
                lemma_arg_debug_parts(o[i]);
                lemma_occurs_trans(str_debug(o[i].name), x, fk);
                lemma_occurs_trans(value_debug(o[i].value), x, fk);
            }
        },
        ValueModel::List(l) => {
            if 0 <= i < l.len() {
                law_list_debug_lists_every_item(l, i);
                lemma_occurs_between("LST"@, values_debug(l), Seq::empty());
                assert("LST"@ + values_debug(l) + Seq::<char>::empty() =~= tail);
                lemma_occurs_trans(values_debug(l), tail, fk);
                lemma_occurs_trans(value_debug(l[i]), values_debug(l), fk);
            }
        },
        _ => {},
    }
}

/// The parts joined by `+`.
pub open spec fn join_plus(parts: Seq<Seq<char>>) -> Seq<char>
    decreases parts.len(),
{
    if parts.len() == 0 {
        Seq::empty()
    } else if parts.len() == 1 {
        parts[0]
    } else {
        join_plus(parts.drop_last()) + "+"@ + parts.last()
    }
}

/// The cache key under which a user's private values are kept.
pub open spec fn private_key(user_id: Seq<char>, cache_key: Seq<char>) -> Seq<char> {
    user_id + " "@ + cache_key
}

fn append_value_debug(v: &ParameterValue, s: &mut String)
    ensures
        final(s)@ == old(s)@ + value_debug(value_model(*v)),
    decreases v,
{
    match v {
        ParameterValue::Nil => {
            s.append("Nil");
        },
        ParameterValue::Scalar(x) => {
            s.append("Scalar(");
            let d = debug_str(x);
            s.append(d.as_str());
            s.append(")");
            assert(s@ =~= old(s)@ + value_debug(value_model(*v)));
        },
        ParameterValue::Variable(x) => {
            s.append("Variable(");
            let d = debug_str(x);
            s.append(d.as_str());
            s.append(")");
            assert(s@ =~= old(s)@ + value_debug(value_model(*v)));
        },
        ParameterValue::Object(o) => {
            s.append("Object(");
            append_args_debug(o, s);
            s.append(")");
            proof {
                lemma_object_model(*o);
            }
            assert(s@ =~= old(s)@ + value_debug(value_model(*v)));
        },
        ParameterValue::List(l) => {
            s.append("List(");
            append_values_debug(l, s);
            s.append(")");
            proof {
                lemma_list_model(*l);
            }
            assert(s@ =~= old(s)@ + value_debug(value_model(*v)));
        },
    }
}

fn append_args_debug(o: &Vec<ParameterField>, s: &mut String)
    ensures
        final(s)@ == old(s)@ + args_debug(pfields_model(o@)),
    decreases o, 0int,
{
    let ghost m = pfields_model(o@);
    s.append("[");
    let mut k: usize = 0;
    assert(m.subrange(0, 0) =~= Seq::<ArgModel>::empty());
    while k < o.len()
        invariant
            k <= o@.len(),
            m == pfields_model(o@),
            s@ == old(s)@ + "["@ + args_items(m.subrange(0, k as int)),
        decreases o@.len() - k,
    {
        proof {
            assert(decreases_to!(o => o@));
            assert(decreases_to!(o@ => o@[k as int]));
            assert(decreases_to!(o@[k as int] => o@[k as int].value));
        }
        let ghost before = s@;
        if k > 0 {
            s.append(", ");
        }
        let ghost mid = s@;
        s.append("ParameterField { name: ");
        let d = debug_str(o[k].name);
        s.append(d.as_str());
        s.append(", value: ");
        append_value_debug(&o[k].value, s);
        s.append(" }");
        assert(m[k as int] == pfield_model(o@[k as int]));
        assert(s@ =~= mid + arg_debug(m[k as int]));
        proof {
            let sub = m.subrange(0, k + 1);
            assert(sub.subrange(0, sub.len() - 1) =~= m.subrange(0, k as int));
            assert(sub[sub.len() - 1] == m[k as int]);
            if k == 0 {
                assert(sub.len() == 1);
            }
        }
        assert(s@ =~= old(s)@ + "["@ + args_items(m.subrange(0, k + 1)));
        k = k + 1;
    }
    s.append("]");
    assert(m.subrange(0, o@.len() as int) =~= m);
    assert(s@ =~= old(s)@ + args_debug(m));
}

fn append_values_debug(l: &Vec<ParameterValue>, s: &mut String)
    ensures
        final(s)@ == old(s)@ + values_debug(values_model(l@)),
    decreases l, 0int,
{
    let ghost m = values_model(l@);
    s.append("[");
    let mut k: usize = 0;
    assert(m.subrange(0, 0) =~= Seq::<ValueModel>::empty());
    while k < l.len()
        invariant
            k <= l@.len(),
            m == values_model(l@),
            s@ == old(s)@ + "["@ + values_items(m.subrange(0, k as int)),
        decreases l@.len() - k,
    {
        proof {
            assert(decreases_to!(l => l@));
            assert(decreases_to!(l@ => l@[k as int]));
        }
        if k > 0 {
            s.append(", ");
        }
        append_value_debug(&l[k], s);
        proof {
            let sub = m.subrange(0, k + 1);
            assert(sub.subrange(0, sub.len() - 1) =~= m.subrange(0, k as int));
            assert(sub[sub.len() - 1] == m[k as int]);
        }
        assert(s@ =~= old(s)@ + "["@ + values_items(m.subrange(0, k + 1)));
        k = k + 1;
    }
    s.append("]");
    assert(m.subrange(0, l@.len() as int) =~= m);
    assert(s@ =~= old(s)@ + values_debug(m));
}

/// The cache key with what `parameter` adds to it (see `param_key`).
fn append_parameter_to_cache_key(cache_key: String, parameter: &Parameter) -> (r: String)
    ensures
        r@ == cache_key@ + param_key(param_model(*parameter)),
{
    let mut result = cache_key;
    result.append("_");
    result.append(parameter.name);
    match &parameter.value {
        ParameterValue::Nil => {
            result.append("NIL");
        },
        ParameterValue::Scalar(s) => {
            result.append(s);
        },
        ParameterValue::Variable(v) => {
            result.append(v);
        },
        ParameterValue::Object(obj) => {
            result.append("OBJ");
            append_args_debug(obj, &mut result);
            proof {
                lemma_object_model(*obj);
            }
        },
        ParameterValue::List(lst) => {
            result.append("LST");
            append_values_debug(lst, &mut result);
            proof {
                lemma_list_model(*lst);
            }
        },
    }
    assert(result@ =~= cache_key@ + param_key(param_model(*parameter)));
    result
}

/// The cache key of a field (see `field_key`).
pub fn field_to_cache_key(field: &Field) -> (r: String)
    ensures
        r@ == field_key(field_model(*field)),
{
    let mut result = owned(field.get_name());
    let parameters = field.get_parameters();
    let ghost pm = params_model(parameters@);
    let mut k: usize = 0;
    assert(pm.subrange(0, 0) =~= Seq::<ArgModel>::empty());
    while k < parameters.len()
        invariant
            k <= parameters@.len(),
            pm == params_model(parameters@),
            pm == field_model(*field).parameters_of(),
            result@ == field_model(*field).name_of() + params_key(pm.subrange(0, k as int)),
        decreases parameters@.len() - k,
    {
        result = append_parameter_to_cache_key(result, &parameters[k]);
        assert(pm.subrange(0, k + 1).drop_last() =~= pm.subrange(0, k as int));
        assert(result@ =~= field_model(*field).name_of() + params_key(pm.subrange(0, k + 1)));
        k = k + 1;
    }
    assert(pm.subrange(0, parameters@.len() as int) =~= pm);
    result
}

/// The key under which a user's private value is cached: the user id, a space, and the key.
pub fn to_private_cache_key(user_id: &String, cache_key: &String) -> (r: String)
    ensures
        r@ == private_key(user_id@, cache_key@),
{
    concat3(user_id.as_str(), " ", cache_key.as_str())
}

/// The keys `cache_keys` joined by `+`, then `+` and the key of `field`.
pub fn concatenate_cache_keys(cache_keys: &Vec<String>, field: &Field) -> (r: String)
    ensures
        r@ == join_plus(strings_view(cache_keys@)) + "+"@ + field_key(field_model(*field)),
{
    let ghost ks = strings_view(cache_keys@);
    let mut result = String::new();
    let mut k: usize = 0;
    while k < cache_keys.len()
        invariant
            k <= cache_keys@.len(),
            ks == strings_view(cache_keys@),
            result@ == join_plus(ks.subrange(0, k as int)),
        decreases cache_keys@.len() - k,
    {
        let ghost before = result@;
        if k > 0 {
            result.append("+");
        }
        result.append(cache_keys[k].as_str());
        proof {
            let sub = ks.subrange(0, k + 1);
            assert(sub.drop_last() =~= ks.subrange(0, k as int));
            assert(sub.last() == cache_keys@[k as int]@);
            if k == 0 {
                assert(sub.len() == 1);
                assert(result@ =~= cache_keys@[k as int]@);
            } else {
                assert(result@ =~= before + "+"@ + cache_keys@[k as int]@);
            }
        }
        k = k + 1;
    }
    assert(ks.subrange(0, cache_keys@.len() as int) =~= ks);
    let ghost before = result@;
    result.append("+");
    let key = field_to_cache_key(field);
    result.append(key.as_str());
    assert(result@ =~= before + "+"@ + key@);
    result
}

/// The cache key of a path of fields: their keys joined by `+`.
pub open spec fn path_key(fields: Seq<FieldModel>) -> Seq<char> {
    join_plus(fields.map_values(|f: FieldModel| field_key(f)))
}

/// The keys that lead along a path of fields in a response: their aliases.
pub open spec fn json_path(fields: Seq<FieldModel>) -> Seq<Seq<char>> {
    fields.map_values(|f: FieldModel| f.alias_of())
}

/// The key under which the values of a path are written is the key under which they are read:
/// the keys of the fields above the last, joined by `+`, then `+` and the last field's key (see
/// `concatenate_cache_keys`); a path of one field has that field's key.
pub proof fn law_written_key_is_read_key(fields: Seq<FieldModel>)
    ensures
        fields.len() == 1 ==> path_key(fields) == field_key(fields[0]),
        fields.len() >= 2 ==> path_key(fields) == join_plus(
            fields.drop_last().map_values(|f: FieldModel| field_key(f)),
        ) + "+"@ + field_key(fields.last()),
{
    let ks = fields.map_values(|f: FieldModel| field_key(f));
    if fields.len() >= 2 {
        assert(ks.drop_last() =~= fields.drop_last().map_values(|f: FieldModel| field_key(f)));
        assert(ks.last() == field_key(fields.last()));
    }
}

/// The cache key of a path of fields (see `path_key`).
pub fn fields_to_cache_key(fields: &Vec<&Field>) -> (r: String)
    ensures
        r@ == path_key(refs_model(fields@)),
{
    let ghost ks = refs_model(fields@).map_values(|f: FieldModel| field_key(f));
    let mut result = String::new();
    let mut k: usize = 0;
    while k < fields.len()
        invariant
            k <= fields@.len(),
            ks == refs_model(fields@).map_values(|f: FieldModel| field_key(f)),
            result@ == join_plus(ks.subrange(0, k as int)),
        decreases fields@.len() - k,
    {
        let ghost before = result@;
        if k > 0 {
            result.append("+");
        }
        let key = field_to_cache_key(fields[k]);
        result.append(key.as_str());
        proof {
            let sub = ks.subrange(0, k + 1);
            assert(sub.drop_last() =~= ks.subrange(0, k as int));
            assert(sub.last() == key@);
            if k == 0 {
                assert(sub.len() == 1);
                assert(result@ =~= key@);
            } else {
                assert(result@ =~= before + "+"@ + key@);
            }
        }
        k = k + 1;
    }
    assert(ks.subrange(0, fields@.len() as int) =~= ks);
    result
}

/// The aliases of a path of fields (see `json_path`).
pub fn fields_to_json_path(fields: &Vec<&Field>) -> (r: Vec<String>)
    ensures
        strings_view(r@) == json_path(refs_model(fields@)),
{
    let mut r: Vec<String> = Vec::new();
    let mut k: usize = 0;
    while k < fields.len()
        invariant
            k <= fields@.len(),
            strings_view(r@) == json_path(refs_model(fields@)).subrange(0, k as int),
        decreases fields@.len() - k,
    {
        let a = owned(fields[k].get_alias());
        assert(a@ == refs_model(fields@)[k as int].alias_of());
        assert(json_path(refs_model(fields@))[k as int] == a@);
        let ghost before = strings_view(r@);
        let ghost av = a@;
        r.push(a);
        assert(strings_view(r@) =~= before.push(av));
        assert(strings_view(r@) =~= json_path(refs_model(fields@)).subrange(0, k + 1));
        k = k + 1;
    }
    assert(json_path(refs_model(fields@)).subrange(0, fields@.len() as int) =~= json_path(refs_model(fields@)));
    r
}

/// The values merged one after the other into an empty object.
pub open spec fn merge_values(vs: Seq<JsonModel>) -> JsonModel
    decreases vs.len(),
{
    if vs.len() == 0 {
        JsonModel::Object(Seq::empty())
    } else {
        merge(merge_values(vs.drop_last()), vs.last())
    }
}

/// What is cached for a key: the live public values, then the user's live private ones, merged
/// into one object; nothing where there are none.
pub open spec fn cached_item(
    store: Seq<(Seq<char>, Seq<(int, JsonModel)>)>,
    key: Seq<char>,
    user_id: Option<Seq<char>>,
    now: int,
) -> Option<JsonModel> {
    let public = live_values(store, key, now);
    let private = match user_id {
        Some(u) => live_values(store, private_key(u, key), now),
        None => Seq::empty(),
    };
    if public.len() + private.len() == 0 {
        None
    } else {
        Some(merge_values(public + private))
    }
}

/// The two stores hold the same live values at `now`.
pub open spec fn same_live(a: Seq<(Seq<char>, Seq<(int, JsonModel)>)>, b: Seq<(Seq<char>, Seq<(int, JsonModel)>)>, now: int) -> bool {
    forall|k: Seq<char>| #[trigger] live_values(a, k, now) == live_values(b, k, now)
}

/// Reads `key`, keeping what is live unchanged.
fn read_live(cache: &mut InnerCache, key: &str, now: i128) -> (r: Option<Vec<Json>>)
    requires
        old(cache).wf(),
    ensures
        final(cache).wf(),
        same_live(final(cache)@.store, old(cache)@.store, now as int),
        writes_kept(final(cache)@, old(cache)@),
        match r {
            Some(v) => v@.len() > 0 && v@.map_values(|j: Json| json_model(j)) == live_values(
                old(cache)@.store,
                key@,
                now as int,
            ),
            None => live_values(old(cache)@.store, key@, now as int).len() == 0,
        },
{
    let ghost before = cache@.store;
    let r = cache.get_at(key, now);
    proof {
        assert forall|k: Seq<char>| #[trigger] live_values(cache@.store, k, now as int) == live_values(before, k, now as int) by {
            law_read_keeps_live_values(before, key@, now as int, k, now as int);
        }
    }
    r
}

/// What is cached for `cache_key` (see `cached_item`), read at `now`.
#[verifier::rlimit(50)]
fn get_cached_item(cache_key: &String, user_id: &Option<String>, cache: &mut InnerCache, now: i128) -> (r: Option<Json>)
    requires
        old(cache).wf(),
    ensures
        final(cache).wf(),
        same_live(final(cache)@.store, old(cache)@.store, now as int),
        writes_kept(final(cache)@, old(cache)@),
        match r {
            Some(v) => cached_item(
                old(cache)@.store,
                cache_key@,
                match user_id {
                    Some(u) => Some(u@),
                    None => None,
                },
                now as int,
            ) == Some(json_model(v)) && json_wf(json_model(v)),
            None => cached_item(
                old(cache)@.store,
                cache_key@,
                match user_id {
                    Some(u) => Some(u@),
                    None => None,
                },
                now as int,
            ) is None,
        },
{
    let ghost store0 = cache@.store;
    proof {
        lemma_live_wf(store0, cache_key@, now as int);
    }
    let public_cache = read_live(cache, cache_key.as_str(), now);
    let private_cache = match user_id {
        Some(uid) => {
            let pk = to_private_cache_key(uid, cache_key);
            proof {
                lemma_live_wf(store0, pk@, now as int);
            }
            let r = read_live(cache, pk.as_str(), now);
            r
        },
        None => None,
    };
    let ghost pm = live_values(store0, cache_key@, now as int);
    let ghost qm = match user_id {
        Some(u) => live_values(store0, private_key(u@, cache_key@), now as int),
        None => Seq::<JsonModel>::empty(),
    };
    let cached_fields = match (public_cache, private_cache) {
        (Some(p), Some(r)) => {
            let mut p = p;
            let mut r = r;
            let ghost pv = p@;
            let ghost rv = r@;
            p.append(&mut r);
            assert(p@ == pv + rv);
            assert(p@.map_values(|j: Json| json_model(j)) =~= pm + qm);
            p
        },
        (Some(p), None) => {
            assert(p@.map_values(|j: Json| json_model(j)) =~= pm + qm);
            p
        },
        (None, Some(r)) => {
            assert(r@.map_values(|j: Json| json_model(j)) =~= pm + qm);
            r
        },
        (None, None) => {
            return None;
        },
    };
    let ghost all = pm + qm;
    assert(forall|i: int| 0 <= i < all.len() ==> json_wf(#[trigger] all[i])) by {
        assert forall|i: int| 0 <= i < all.len() implies json_wf(#[trigger] all[i]) by {
            if i < pm.len() {
                assert(all[i] == pm[i]);
            } else {
                assert(all[i] == qm[i - pm.len()]);
            }
        }
    }
    let mut cached_value = Json::Object(Vec::new());
    proof {
        lemma_json_model(cached_value);
        assert(members_model(Seq::<(String, Json)>::empty()) =~= Seq::<(Seq<char>, JsonModel)>::empty());
        assert(all.subrange(0, 0) =~= Seq::<JsonModel>::empty());
    }
    let mut rest = cached_fields;
    let ghost mut i: int = 0;
    assert(rest@.map_values(|j: Json| json_model(j)) =~= all.subrange(0, all.len() as int));
    while rest.len() > 0
        invariant
            0 <= i <= all.len(),
            rest@.map_values(|j: Json| json_model(j)) == all.subrange(i, all.len() as int),
            json_model(cached_value) == merge_values(all.subrange(0, i)),
            json_wf(json_model(cached_value)),
            forall|m: int| 0 <= m < all.len() ==> json_wf(#[trigger] all[m]),
        decreases rest@.len(),
    {
        let ghost rv = rest@;
        let ghost rm = rv.map_values(|j: Json| json_model(j));
        assert(rm.len() == rv.len());
        assert(rm[0] == all[i]);
        let x = rest.remove(0);
        assert(rest@ =~= rv.subrange(1, rv.len() as int));
        assert(rest@.map_values(|j: Json| json_model(j)) =~= rm.subrange(1, rm.len() as int));
        assert(rest@.map_values(|j: Json| json_model(j)) =~= all.subrange(i + 1, all.len() as int));
        assert(json_model(x) == rm[0]);
        merge_json(&mut cached_value, x);
        assert(all.subrange(0, i + 1).drop_last() =~= all.subrange(0, i));
        proof {
            i = i + 1;
        }
    }
    assert(all.subrange(0, i) =~= all);
    Some(cached_value)
}

// ---------------------------------------------------------------------------------------------
// Matching a field against the cache.

/// A cached value that answers a field without subfields: a string, a boolean, a number, or a
/// non-empty array whose first item is not an object.
pub open spec fn leaf_value(v: JsonModel) -> bool {
    match v {
        JsonModel::Str(_) => true,
        JsonModel::Bool(_) => true,
        JsonModel::Number(_) => true,
        JsonModel::Array(a) => a.len() > 0 && !(a[0] is Object),
        _ => false,
    }
}

/// A field without parameters named `name`.
pub open spec fn plain_named(s: FieldModel, name: Seq<char>) -> bool {
    s.parameters_of().len() == 0 && s.name_of() == name
}

/// Another field without parameters named `name` comes after position `i`.
pub open spec fn named_later(subs: Seq<FieldModel>, i: int, name: Seq<char>) -> bool {
    exists|j: int| i < j < subs.len() && plain_named(#[trigger] subs[j], name)
}

/// How many fields without parameters are named `name`.
pub open spec fn name_count(subs: Seq<FieldModel>, name: Seq<char>) -> nat
    decreases subs.len(),
{
    if subs.len() == 0 {
        0
    } else {
        name_count(subs.drop_last(), name) + if plain_named(subs.last(), name) {
            1nat
        } else {
            0nat
        }
    }
}

/// No name is shared by more than 127 fields without parameters (the count of each name is kept
/// in an `i8`).
pub open spec fn counts_fit(subs: Seq<FieldModel>) -> bool {
    forall|i: int|
        0 <= i < subs.len() && (#[trigger] subs[i]).parameters_of().len() == 0 ==> name_count(subs, subs[i].name_of()) <= 127
}

/// The result of matching one field: the stack of cache keys after it, the part of the field
/// that the cache could not answer, and the value that it could.
pub type MatchResult = (Seq<Seq<char>>, Option<FieldModel>, Option<JsonModel>);

/// Matching `f` against the cache, with `cached` the value found for it and `stack` the cache
/// keys of the fields above. A field without subfields is answered by a cached `leaf_value`, and
/// left over otherwise. A field with subfields pushes its key and matches each subfield in turn
/// (see `match_subfields`); what is left over of them, and the values found, make its results.
/// `lookup` gives what the cache holds under a key (see `cached_item`). `None` where a lookup of a
/// repeated subfield finds no entry, or a name repeats more than an `i8` can count.
pub open spec fn match_field(
    stack: Seq<Seq<char>>,
    f: FieldModel,
    cached: Option<JsonModel>,
    lookup: spec_fn(Seq<char>) -> Option<JsonModel>,
) -> Option<MatchResult>
    decreases f, 1int,
{
    if f is Field && f.subfields_of().len() == 0 {
        match cached {
            Some(v) => if leaf_value(v) {
                Some((stack, None, Some(v)))
            } else {
                Some((stack, Some(f), None))
            },
            None => Some((stack, Some(f), None)),
        }
    } else {
        let st = stack.push(field_key(f));
        match f {
            FieldModel::Fragment { .. } => Some((st, Some(f), None)),
            FieldModel::Field { alias, name, parameters, fields } => {
                if !counts_fit(fields) {
                    None
                } else {
                    let cache_map = match cached {
                        Some(JsonModel::Object(m)) => m,
                        _ => Seq::empty(),
                    };
                    match match_subfields(st, fields, 0, cache_map, Seq::empty(), Seq::empty(), lookup) {
                        None => None,
                        Some((st2, vfc, res)) => Some(
                            (
                                if st2.len() > 0 {
                                    st2.drop_last()
                                } else {
                                    st2
                                },
                                if res.len() > 0 {
                                    Some(FieldModel::Field { alias, name, parameters, fields: res })
                                } else {
                                    None
                                },
                                if vfc.len() > 0 {
                                    Some(JsonModel::Object(vfc))
                                } else {
                                    None
                                },
                            ),
                        ),
                    }
                }
            },
        }
    }
}

/// Matching the subfields from position `i` on. A subfield with parameters is looked up in the
/// cache under the keys of the stack and its own key, joined by `+`; one without takes its value
/// from `cache_map` by name: a copy where another subfield of that name follows, else the member
/// itself, which leaves the map. The values found go into `vfc` under the subfields' aliases, and
/// what is left over into `res`.
pub open spec fn match_subfields(
    stack: Seq<Seq<char>>,
    subs: Seq<FieldModel>,
    i: int,
    cache_map: Seq<(Seq<char>, JsonModel)>,
    vfc: Seq<(Seq<char>, JsonModel)>,
    res: Seq<FieldModel>,
    lookup: spec_fn(Seq<char>) -> Option<JsonModel>,
) -> Option<(Seq<Seq<char>>, Seq<(Seq<char>, JsonModel)>, Seq<FieldModel>)>
    decreases subs, subs.len() - i,
{
    if i < 0 || i >= subs.len() {
        Some((stack, vfc, res))
    } else {
        let s = subs[i];
        let found: Option<(Option<JsonModel>, Seq<(Seq<char>, JsonModel)>)> = if s.parameters_of().len() > 0 {
            Some((lookup(join_plus(stack) + "+"@ + field_key(s)), cache_map))
        } else if named_later(subs, i, s.name_of()) {
            match get_member(cache_map, s.name_of()) {
                Some(v) => Some((Some(v), cache_map)),
                None => None,
            }
        } else {
            Some((get_member(cache_map, s.name_of()), remove_member(cache_map, s.name_of())))
        };
        match found {
            None => None,
            Some((from_cache, cm2)) => match match_field(stack, s, from_cache, lookup) {
                None => None,
                Some((st2, r, c)) => match_subfields(
                    st2,
                    subs,
                    i + 1,
                    cm2,
                    match c {
                        Some(v) => put_member(vfc, s.alias_of(), v),
                        None => vfc,
                    },
                    match r {
                        Some(x) => res.push(x),
                        None => res,
                    },
                    lookup,
                ),
            },
        }
    }
}

fn is_leaf_value(v: &Json) -> (r: bool)
    ensures
        r == leaf_value(json_model(*v)),
{
    proof {
        lemma_json_model(*v);
    }
    match v {
        Json::Str(_) => true,
        Json::Bool(_) => true,
        Json::Number(_) => true,
        Json::Array(a) => {
            if a.len() > 0 {
                let first_is_object = match &a[0] {
                    Json::Object(_) => true,
                    _ => false,
                };
                !first_is_object
            } else {
                false
            }
        },
        _ => false,
    }
}

/// Whether a field without parameters named `name` is among `fields`.
fn has_plain_named(fields: &Vec<Field>, name: &str) -> (r: bool)
    ensures
        r == exists|j: int| 0 <= j < fields@.len() && plain_named(#[trigger] fields_model(fields@)[j], name@),
{
    let ghost fm = fields_model(fields@);
    let mut j: usize = 0;
    while j < fields.len()
        invariant
            j <= fields@.len(),
            fm == fields_model(fields@),
            forall|m: int| 0 <= m < j ==> !plain_named(#[trigger] fm[m], name@),
        decreases fields@.len() - j,
    {
        if !fields[j].has_parameters() && str_eq(fields[j].get_name(), name) {
            assert(plain_named(fm[j as int], name@));
            return true;
        }
        j = j + 1;
    }
    false
}

/// How many fields without parameters among `fields` are named `name`, up to 128.
fn count_named(fields: &Vec<Field>, name: &str) -> (r: usize)
    ensures
        r == if name_count(fields_model(fields@), name@) <= 127 {
            name_count(fields_model(fields@), name@)
        } else {
            128
        },
{
    let ghost fm = fields_model(fields@);
    let mut c: usize = 0;
    let mut j: usize = 0;
    assert(fm.subrange(0, 0) =~= Seq::<FieldModel>::empty());
    while j < fields.len()
        invariant
            j <= fields@.len(),
            fm == fields_model(fields@),
            c == name_count(fm.subrange(0, j as int), name@),
            c <= 127,
        decreases fields@.len() - j,
    {
        assert(fm.subrange(0, j + 1).drop_last() =~= fm.subrange(0, j as int));
        if !fields[j].has_parameters() && str_eq(fields[j].get_name(), name) {
            if c == 127 {
                proof {
                    lemma_name_count_prefix(fm, name@, j + 1);
                }
                return 128;
            }
            c = c + 1;
        }
        j = j + 1;
    }
    assert(fm.subrange(0, j as int) =~= fm);
    c
}

proof fn lemma_name_count_prefix(fs: Seq<FieldModel>, name: Seq<char>, n: int)
    requires
        0 <= n <= fs.len(),
    ensures
        name_count(fs.subrange(0, n), name) <= name_count(fs, name),
    decreases fs.len() - n,
{
    if n < fs.len() {
        lemma_name_count_prefix(fs, name, n + 1);
        assert(fs.subrange(0, n + 1).drop_last() =~= fs.subrange(0, n));
    } else {
        assert(fs.subrange(0, n) =~= fs);
    }
}

/// Whether no name is shared by more than 127 fields without parameters (see `counts_fit`).
fn fields_counts_fit(fields: &Vec<Field>) -> (r: bool)
    ensures
        r == counts_fit(fields_model(fields@)),
{
    let ghost fm = fields_model(fields@);
    let mut i: usize = 0;
    while i < fields.len()
        invariant
            i <= fields@.len(),
            fm == fields_model(fields@),
            forall|m: int| 0 <= m < i && (#[trigger] fm[m]).parameters_of().len() == 0 ==> name_count(fm, fm[m].name_of()) <= 127,
        decreases fields@.len() - i,
    {
        if !fields[i].has_parameters() {
            let c = count_named(fields, fields[i].get_name());
            if c > 127 {
                assert(fm[i as int].parameters_of().len() == 0);
                return false;
            }
        }
        i = i + 1;
    }
    true
}

pub open spec fn opt_user(u: Option<String>) -> Option<Seq<char>> {
    match u {
        Some(x) => Some(x@),
        None => None,
    }
}

pub open spec fn opt_json(o: Option<Json>) -> Option<JsonModel> {
    match o {
        Some(x) => Some(json_model(x)),
        None => None,
    }
}

pub open spec fn opt_field(o: Option<Field>) -> Option<FieldModel> {
    match o {
        Some(x) => Some(field_model(x)),
        None => None,
    }
}

/// What the cache holds under each key, for a user at a time (see `cached_item`).
pub open spec fn lookup_of(store: Seq<(Seq<char>, Seq<(int, JsonModel)>)>, user_id: Option<Seq<char>>, now: int) -> spec_fn(
    Seq<char>,
) -> Option<JsonModel> {
    |k: Seq<char>| cached_item(store, k, user_id, now)
}

proof fn lemma_lookup_same(
    a: Seq<(Seq<char>, Seq<(int, JsonModel)>)>,
    b: Seq<(Seq<char>, Seq<(int, JsonModel)>)>,
    user_id: Option<Seq<char>>,
    now: int,
)
    requires
        same_live(a, b, now),
    ensures
        lookup_of(a, user_id, now) == lookup_of(b, user_id, now),
{
    assert forall|k: Seq<char>| #[trigger] cached_item(a, k, user_id, now) == cached_item(b, k, user_id, now) by {
        assert(live_values(a, k, now) == live_values(b, k, now));
        if let Some(u) = user_id {
            assert(live_values(a, private_key(u, k), now) == live_values(b, private_key(u, k), now));
        }
    }
    assert(lookup_of(a, user_id, now) =~= lookup_of(b, user_id, now));
}

proof fn lemma_same_live_trans(
    a: Seq<(Seq<char>, Seq<(int, JsonModel)>)>,
    b: Seq<(Seq<char>, Seq<(int, JsonModel)>)>,
    c: Seq<(Seq<char>, Seq<(int, JsonModel)>)>,
    now: int,
)
    requires
        same_live(a, b, now),
        same_live(b, c, now),
    ensures
        same_live(a, c, now),
{
    assert forall|k: Seq<char>| #[trigger] live_values(a, k, now) == live_values(c, k, now) by {
        assert(live_values(a, k, now) == live_values(b, k, now));
        assert(live_values(b, k, now) == live_values(c, k, now));
    }
}

/// Matches `field` against the cache (see `match_field`), with `cached_value` the value found for
/// it and `stack` the keys of the fields above; `None` where the match fails.
#[verifier::rlimit(60)]
fn match_field_with_cache_recursive<'a>(
    stack: &mut Vec<String>,
    field: Field<'a>,
    user_id: &Option<String>,
    cached_value: Option<Json>,
    cache: &mut InnerCache,
    now: i128,
) -> (r: Option<(Option<Field<'a>>, Option<Json>)>)
    requires
        old(cache).wf(),
        cached_value matches Some(v) ==> json_wf(json_model(v)),
    ensures
        final(cache).wf(),
        same_live(final(cache)@.store, old(cache)@.store, now as int),
        writes_kept(final(cache)@, old(cache)@),
        match match_field(
            strings_view(old(stack)@),
            field_model(field),
            opt_json(cached_value),
            lookup_of(old(cache)@.store, opt_user(*user_id), now as int),
        ) {
            None => r is None,
            Some((st, rf, rc)) => r matches Some((f, c)) && strings_view(final(stack)@) == st && opt_field(f)
                == rf && opt_json(c) == rc && (c matches Some(cv) ==> json_wf(json_model(cv))),
        },
    decreases field,
{
    let ghost gf = field;
    let ghost store0 = cache@.store;
    let ghost lk = lookup_of(store0, opt_user(*user_id), now as int);
    let ghost stack0 = strings_view(stack@);
    let ghost gcv = opt_json(cached_value);
    proof {
        lemma_field_model(field);
    }
    if field.is_leaf() {
        return match cached_value {
            Some(v) => {
                if is_leaf_value(&v) {
                    Some((None, Some(v)))
                } else {
                    Some((Some(field), None))
                }
            },
            None => Some((Some(field), None)),
        };
    }
    let ghost cm0: Seq<(Seq<char>, JsonModel)> = match opt_json(cached_value) {
        Some(JsonModel::Object(m)) => m,
        _ => Seq::empty(),
    };
    let cache_map: Vec<(String, Json)> = match cached_value {
        Some(Json::Object(m)) => {
            proof {
                lemma_json_model(Json::Object(m));
            }
            m
        },
        _ => Vec::new(),
    };
    assert(members_model(cache_map@) =~= cm0);
    assert(json_wf(JsonModel::Object(cm0)));
    let key = field_to_cache_key(&field);
    let ghost kv = key@;
    stack.push(key);
    assert(strings_view(stack@) =~= stack0.push(kv));
    match field {
        Field::Fragment { name } => {
            let f = Field::Fragment { name: name };
            assert(field_model(f) == field_model(gf));
            Some((Some(f), None))
        },
        Field::Field { alias, name, parameters, fields } => {
            if !fields_counts_fit(&fields) {
                return None;
            }
            let ghost subs = fields_model(fields@);
            let ghost fields0 = fields@;
            let ghost st0 = strings_view(stack@);
            let mut cache_map = cache_map;
            let mut rest = fields;
            let mut value_from_cache: Vec<(String, Json)> = Vec::new();
            let mut residual_subfields: Vec<Field<'a>> = Vec::new();
            let ghost mut i: int = 0;
            assert(members_model(value_from_cache@) =~= Seq::<(Seq<char>, JsonModel)>::empty());
            assert(fields_model(residual_subfields@) =~= Seq::<FieldModel>::empty());
            assert(rest@ =~= fields0.subrange(0, fields0.len() as int));
            while rest.len() > 0
                invariant
                    0 <= i <= fields0.len(),
                    gf == field,
                    gcv == opt_json(cached_value),
                    store0 == old(cache)@.store,
                    stack0 == strings_view(old(stack)@),
                    st0 == stack0.push(field_key(field_model(gf))),
                    cm0 == match gcv {
                        Some(JsonModel::Object(m)) => m,
                        _ => Seq::<(Seq<char>, JsonModel)>::empty(),
                    },
                    counts_fit(subs),
                    !(field_model(gf) is Field && field_model(gf).subfields_of().len() == 0),
                    rest@ == fields0.subrange(i, fields0.len() as int),
                    subs == fields_model(fields0),
                    gf is Field,
                    gf->fields@ == fields0,
                    field_model(gf) is Field,
                    field_model(gf).subfields_of() == subs,
                    cache.wf(),
                    same_live(cache@.store, store0, now as int),
            writes_kept(cache@, old(cache)@),
                    writes_kept(cache@, old(cache)@),
                    lk == lookup_of(store0, opt_user(*user_id), now as int),
                    json_wf(JsonModel::Object(members_model(cache_map@))),
                    json_wf(JsonModel::Object(members_model(value_from_cache@))),
                    match_subfields(st0, subs, 0, cm0, Seq::empty(), Seq::empty(), lk) == match_subfields(
                        strings_view(stack@),
                        subs,
                        i,
                        members_model(cache_map@),
                        members_model(value_from_cache@),
                        fields_model(residual_subfields@),
                        lk,
                    ),
                decreases rest@.len(),
            {
                let ghost rv = rest@;
                assert(rv.len() == fields0.len() - i);
                let subfield = rest.remove(0);
                assert(rest@ =~= fields0.subrange(i + 1, fields0.len() as int));
                assert(subfield == fields0[i]);
                let ghost sm = field_model(subfield);
                assert(sm == subs[i]);
                proof {
                    let fv = gf->fields;
                    assert(decreases_to!(gf => fv));
                    assert(decreases_to!(fv => fv@));
                    assert(decreases_to!(fv@ => fv@[i]));
                }
                let ghost cur_store = cache@.store;
                let ghost cmm = members_model(cache_map@);
                let ghost stk = strings_view(stack@);
                proof {
                    lemma_lookup_same(cur_store, store0, opt_user(*user_id), now as int);
                }
                let subfield_alias = owned(subfield.get_alias());
                let field_from_cache: Option<Json> = if subfield.has_parameters() {
                    let k = concatenate_cache_keys(stack, &subfield);
                    let r = get_cached_item(&k, user_id, cache, now);
                    proof {
                        lemma_same_live_trans(cache@.store, cur_store, store0, now as int);
                    }
                    r
                } else if has_plain_named(&rest, subfield.get_name()) {
                    proof {
                        let rm = fields_model(rest@);
                        let w = choose|j: int| 0 <= j < rest@.len() && plain_named(#[trigger] fields_model(rest@)[j], sm.name_of());
                        assert(rm[w] == subs[i + 1 + w]);
                        assert(named_later(subs, i, sm.name_of()));
                    }
                    match member(&cache_map, subfield.get_name()) {
                        Some(v) => {
                            proof {
                                lemma_member_wf(cmm, sm.name_of());
                            }
                            Some(v.clone())
                        },
                        None => {
                            assert(get_member(cmm, sm.name_of()) is None);
                            assert(match_subfields(
                                stk,
                                subs,
                                i,
                                cmm,
                                members_model(value_from_cache@),
                                fields_model(residual_subfields@),
                                lk,
                            ) is None);
                            assert(same_live(cache@.store, store0, now as int));
                            return None;
                        },
                    }
                } else {
                    proof {
                        if named_later(subs, i, sm.name_of()) {
                            let w = choose|j: int| i < j < subs.len() && plain_named(#[trigger] subs[j], sm.name_of());
                            assert(fields_model(rest@)[w - i - 1] == subs[w]);
                        }
                        lemma_member_wf(cmm, sm.name_of());
                        lemma_remove_wf(cmm, sm.name_of());
                    }
                    take(&mut cache_map, subfield.get_name())
                };
                let ghost mid_store = cache@.store;
                match match_field_with_cache_recursive(stack, subfield, user_id, field_from_cache, cache, now) {
                    None => {
                        proof {
                            lemma_lookup_same(mid_store, store0, opt_user(*user_id), now as int);
                        }
                        return None;
                    },
                    Some((residual_subfield, from_cache)) => {
                        proof {
                            lemma_lookup_same(mid_store, store0, opt_user(*user_id), now as int);
                            lemma_same_live_trans(cache@.store, mid_store, store0, now as int);
                        }
                        let ghost res_before = fields_model(residual_subfields@);
                        match residual_subfield {
                            Some(f) => {
                                let ghost fmm = field_model(f);
                                residual_subfields.push(f);
                                assert(fields_model(residual_subfields@) =~= res_before.push(fmm));
                            },
                            None => {},
                        }
                        let ghost vfc_before = members_model(value_from_cache@);
                        match from_cache {
                            Some(c) => {
                                proof {
                                    lemma_put_wf(vfc_before, subfield_alias@, json_model(c));
                                }
                                put(&mut value_from_cache, subfield_alias, c);
                            },
                            None => {},
                        }
                    },
                }
                proof {
                    i = i + 1;
                }
            }
            let ghost st_end = strings_view(stack@);
            let _ = stack.pop();
            assert(st_end.len() > 0 ==> strings_view(stack@) =~= st_end.drop_last());
            let residual_field_result = if residual_subfields.len() > 0 {
                let f = Field::new_field(alias, name, parameters, residual_subfields);
                proof {
                    lemma_field_model(f);
                }
                Some(f)
            } else {
                None
            };
            let cache_result = if value_from_cache.len() > 0 {
                let j = Json::Object(value_from_cache);
                proof {
                    lemma_json_model(j);
                }
                Some(j)
            } else {
                None
            };
            Some((residual_field_result, cache_result))
        },
    }
}

/// What the cache holds for `field` and what it leaves over (see `match_field`), starting from
/// the value cached under the field's own key; `None` where the match fails.
pub open spec fn match_top(f: FieldModel, lookup: spec_fn(Seq<char>) -> Option<JsonModel>) -> Option<
    (Option<FieldModel>, Option<JsonModel>),
> {
    match match_field(Seq::empty(), f, lookup(field_key(f)), lookup) {
        Some((_, r, c)) => Some((r, c)),
        None => None,
    }
}

/// Matches a field of a query against the cache at `now` (see `match_top`): the part of the field
/// that the cache cannot answer, and the value that it can. `None` where a repeated subfield
/// without parameters has no cached entry, or a name repeats more than an `i8` counts.
fn match_field_with_cache<'a>(field: Field<'a>, user_id: &Option<String>, cache: &mut InnerCache, now: i128) -> (r:
    Option<(Option<Field<'a>>, Option<Json>)>)
    requires
        old(cache).wf(),
    ensures
        final(cache).wf(),
        same_live(final(cache)@.store, old(cache)@.store, now as int),
        writes_kept(final(cache)@, old(cache)@),
        match match_top(field_model(field), lookup_of(old(cache)@.store, opt_user(*user_id), now as int)) {
            None => r is None,
            Some((rf, rc)) => r matches Some((f, c)) && opt_field(f) == rf && opt_json(c) == rc && (c matches Some(
                cv,
            ) ==> json_wf(json_model(cv))),
        },
{
    let ghost store0 = cache@.store;
    let key = field_to_cache_key(&field);
    let cached_value = get_cached_item(&key, user_id, cache, now);
    let ghost store1 = cache@.store;
    let mut stack: Vec<String> = Vec::new();
    assert(strings_view(stack@) =~= Seq::<Seq<char>>::empty());
    let r = match_field_with_cache_recursive(&mut stack, field, user_id, cached_value, cache, now);
    proof {
        lemma_lookup_same(store1, store0, opt_user(*user_id), now as int);
        lemma_same_live_trans(cache@.store, store1, store0, now as int);
    }
    match r {
        Some((f, c)) => Some((f, c)),
        None => None,
    }
}

// ---------------------------------------------------------------------------------------------
// Renaming aliased members back to field names.

/// `j` with the member under the alias of `f` renamed to the field's name, its value renamed in
/// turn for each subfield.
pub open spec fn dealias_field_spec(j: JsonModel, f: FieldModel) -> JsonModel
    decreases f, 1int,
{
    match j {
        JsonModel::Object(m) => match get_member(m, f.alias_of()) {
            Some(v) => JsonModel::Object(
                put_member(
                    remove_member(m, f.alias_of()),
                    f.name_of(),
                    match f {
                        FieldModel::Field { fields, .. } => dealias_subfields(v, fields, 0),
                        FieldModel::Fragment { .. } => v,
                    },
                ),
            ),
            None => j,
        },
        _ => j,
    }
}

/// `v` renamed for each of the fields `subs` from position `i` on.
pub open spec fn dealias_subfields(v: JsonModel, subs: Seq<FieldModel>, i: int) -> JsonModel
    decreases subs, subs.len() - i,
{
    if i < 0 || i >= subs.len() {
        v
    } else {
        dealias_subfields(dealias_field_spec(v, subs[i]), subs, i + 1)
    }
}

/// `j` renamed along a path of fields: the member under the alias of the first field is renamed
/// to its name, and its value renamed along the rest of the path; at the last field, as
/// `dealias_field_spec` says. `None` where an object on the way lacks the alias.
pub open spec fn dealias_path(j: JsonModel, path: Seq<FieldModel>) -> Option<JsonModel>
    decreases path.len(),
{
    if path.len() == 0 {
        Some(j)
    } else if path.len() == 1 {
        Some(dealias_field_spec(j, path[0]))
    } else {
        match j {
            JsonModel::Object(m) => match get_member(m, path[0].alias_of()) {
                None => None,
                Some(v) => match dealias_path(v, path.drop_first()) {
                    None => None,
                    Some(v2) => Some(
                        JsonModel::Object(put_member(remove_member(m, path[0].alias_of()), path[0].name_of(), v2)),
                    ),
                },
            },
            _ => Some(j),
        }
    }
}

/// Renames the member under the alias of `current_field` (see `dealias_field_spec`).
#[verifier::rlimit(50)]
fn dealias_field(json_value: &mut Json, current_field: &Field)
    requires
        json_wf(json_model(*old(json_value))),
    ensures
        json_wf(json_model(*final(json_value))),
        json_model(*final(json_value)) == dealias_field_spec(json_model(*old(json_value)), field_model(*current_field)),
    decreases current_field, 1int,
{
    let ghost jm = json_model(*json_value);
    let ghost fm = field_model(*current_field);
    proof {
        lemma_json_model(*json_value);
        lemma_field_model(*current_field);
    }
    let name = current_field.get_name();
    let alias = current_field.get_alias();
    match json_value {
        Json::Object(map) => {
            let ghost mm = members_model(map@);
            proof {
                lemma_member_wf(mm, alias@);
                lemma_remove_wf(mm, alias@);
            }
            match take(map, alias) {
                Some(v) => {
                    let mut v = v;
                    let ghost v0 = json_model(v);
                    match current_field {
                        Field::Field { fields: subs, .. } => {
                            let ghost sm = fields_model(subs@);
                            let mut k: usize = 0;
                            while k < subs.len()
                                invariant
                                    k <= subs@.len(),
                                    sm == fields_model(subs@),
                                    *current_field matches Field::Field { fields, .. } && fields == subs,
                                    json_wf(json_model(v)),
                                    dealias_subfields(v0, sm, 0) == dealias_subfields(json_model(v), sm, k as int),
                                decreases subs@.len() - k,
                            {
                                proof {
                                    assert(decreases_to!(*current_field => *subs));
                                    assert(decreases_to!(*subs => subs@));
                                    assert(decreases_to!(subs@ => subs@[k as int]));
                                }
                                dealias_field(&mut v, &subs[k]);
                                k = k + 1;
                            }
                        },
                        Field::Fragment { .. } => {},
                    }
                    let ghost vm = json_model(v);
                    proof {
                        lemma_put_wf(remove_member(mm, alias@), name@, vm);
                    }
                    put(map, owned(name), v);
                    proof {
                        lemma_json_model(*json_value);
                    }
                },
                None => {
                    proof {
                        lemma_json_model(*json_value);
                    }
                },
            }
        },
        _ => {},
    }
}

/// Renames along the path `path[start..]` (see `dealias_path`); `false` where an object on the
/// way lacks an alias.
#[verifier::rlimit(50)]
fn dealias_path_recursive(json_value: &mut Json, path: &Vec<&Field>, start: usize) -> (ok: bool)
    requires
        json_wf(json_model(*old(json_value))),
        start <= path@.len(),
    ensures
        json_wf(json_model(*final(json_value))),
        match dealias_path(json_model(*old(json_value)), refs_model(path@).skip(start as int)) {
            Some(j) => ok && json_model(*final(json_value)) == j,
            None => !ok,
        },
    decreases path@.len() - start,
{
    let ghost p = refs_model(path@).skip(start as int);
    let ghost jm = json_model(*json_value);
    if start == path.len() {
        return true;
    }
    assert(p[0] == field_model(*path@[start as int]));
    if path.len() - start == 1 {
        dealias_field(json_value, path[start]);
        return true;
    }
    assert(p.drop_first() =~= refs_model(path@).skip(start + 1));
    let current_field = path[start];
    let name = current_field.get_name();
    let alias = current_field.get_alias();
    proof {
        lemma_json_model(*json_value);
    }
    match json_value {
        Json::Object(map) => {
            let ghost mm = members_model(map@);
            proof {
                lemma_member_wf(mm, alias@);
                lemma_remove_wf(mm, alias@);
            }
            match take(map, alias) {
                Some(v) => {
                    let mut v = v;
                    let ok = dealias_path_recursive(&mut v, path, start + 1);
                    if !ok {
                        proof {
                            lemma_json_model(*json_value);
                            lemma_remove_wf(mm, alias@);
                        }
                        return false;
                    }
                    let ghost vm = json_model(v);
                    proof {
                        lemma_put_wf(remove_member(mm, alias@), name@, vm);
                    }
                    put(map, owned(name), v);
                    proof {
                        lemma_json_model(*json_value);
                    }
                    true
                },
                None => {
                    proof {
                        lemma_json_model(*json_value);
                    }
                    false
                },
            }
        },
        _ => true,
    }
}

/// The value renamed along the path (see `dealias_path`); `None` where an object on the way lacks
/// an alias.
fn dealias_fields(json_value: Json, path: &Vec<&Field>) -> (r: Option<Json>)
    requires
        json_wf(json_model(json_value)),
    ensures
        match dealias_path(json_model(json_value), refs_model(path@)) {
            Some(j) => r matches Some(v) && json_model(v) == j && json_wf(j),
            None => r is None,
        },
{
    let mut json_value = json_value;
    assert(refs_model(path@).skip(0) =~= refs_model(path@));
    if dealias_path_recursive(&mut json_value, path, 0) {
        Some(json_value)
    } else {
        None
    }
}

// ---------------------------------------------------------------------------------------------
// The paths of a response value that are cached apart.

/// The paths collected below `f` (see `extract_fields_with_parameters_recursive`): with `f` on
/// the stack, the stack itself where `f` has parameters, then the first field of the stack alone
/// where nothing is collected yet, then the paths of each subfield in turn.
pub open spec fn collect_paths(f: FieldModel, stack: Seq<FieldModel>, acc: Seq<Seq<FieldModel>>) -> Seq<Seq<FieldModel>>
    decreases f, 1int,
{
    let st = stack.push(f);
    let acc1 = if f.parameters_of().len() > 0 {
        acc.push(st)
    } else {
        acc
    };
    let acc2 = if acc1.len() == 0 {
        acc1.push(seq![st[0]])
    } else {
        acc1
    };
    match f {
        FieldModel::Field { fields, .. } => collect_paths_list(fields, 0, st, acc2),
        FieldModel::Fragment { .. } => acc2,
    }
}

/// The paths collected below each of `subs` from position `i` on, in turn.
pub open spec fn collect_paths_list(
    subs: Seq<FieldModel>,
    i: int,
    stack: Seq<FieldModel>,
    acc: Seq<Seq<FieldModel>>,
) -> Seq<Seq<FieldModel>>
    decreases subs, subs.len() - i,
{
    if i < 0 || i >= subs.len() {
        acc
    } else {
        collect_paths_list(subs, i + 1, stack, collect_paths(subs[i], stack, acc))
    }
}

/// Collects, below `field` with `stack` above it, the paths to cache apart (see `collect_paths`).
#[verifier::rlimit(50)]
fn extract_fields_with_parameters_recursive<'b, 'a>(
    field: &'b Field<'a>,
    stack: &mut Vec<&'b Field<'a>>,
    accumulator: &mut Vec<Vec<&'b Field<'a>>>,
)
    ensures
        refs_model(final(stack)@) == refs_model(old(stack)@),
        paths_model(final(accumulator)@) == collect_paths(
            field_model(*field),
            refs_model(old(stack)@),
            paths_model(old(accumulator)@),
        ),
    decreases field, 1int,
{
    let ghost st0 = refs_model(stack@);
    let ghost acc0 = paths_model(accumulator@);
    let ghost fm = field_model(*field);
    proof {
        lemma_field_model(*field);
    }
    stack.push(field);
    assert(refs_model(stack@) =~= st0.push(fm));
    if field.has_parameters() {
        let mut copy: Vec<&'b Field<'a>> = Vec::new();
        let mut k: usize = 0;
        while k < stack.len()
            invariant
                k <= stack@.len(),
                copy@ == stack@.subrange(0, k as int),
            decreases stack@.len() - k,
        {
            copy.push(stack[k]);
            k = k + 1;
        }
        assert(copy@ =~= stack@);
        let ghost before = paths_model(accumulator@);
        accumulator.push(copy);
        assert(paths_model(accumulator@) =~= before.push(st0.push(fm)));
    }
    if accumulator.len() == 0 {
        let first = vec![stack[0]];
        assert(refs_model(first@) =~= seq![st0.push(fm)[0]]);
        accumulator.push(first);
        assert(paths_model(accumulator@) =~= seq![seq![st0.push(fm)[0]]]);
    }
    let ghost acc2 = paths_model(accumulator@);
    let ghost spec_acc1 = if fm.parameters_of().len() > 0 {
        acc0.push(st0.push(fm))
    } else {
        acc0
    };
    let ghost spec_acc2 = if spec_acc1.len() == 0 {
        spec_acc1.push(seq![st0.push(fm)[0]])
    } else {
        spec_acc1
    };
    assert(acc2 == spec_acc2);
    match field {
        Field::Field { fields: subs, .. } => {
            let ghost sm = fields_model(subs@);
            let mut k: usize = 0;
            while k < subs.len()
                invariant
                    k <= subs@.len(),
                    sm == fields_model(subs@),
                    *field matches Field::Field { fields, .. } && fields == subs,
                    refs_model(stack@) == st0.push(fm),
                    collect_paths_list(sm, 0, st0.push(fm), acc2) == collect_paths_list(
                        sm,
                        k as int,
                        st0.push(fm),
                        paths_model(accumulator@),
                    ),
                decreases subs@.len() - k,
            {
                proof {
                    assert(decreases_to!(*field => *subs));
                    assert(decreases_to!(*subs => subs@));
                    assert(decreases_to!(subs@ => subs@[k as int]));
                }
                extract_fields_with_parameters_recursive(&subs[k], stack, accumulator);
                k = k + 1;
            }
            assert(fm == (FieldModel::Field { alias: fm->Field_alias, name: fm->Field_name, parameters: fm->Field_parameters, fields: sm }));
            assert(paths_model(accumulator@) == collect_paths_list(sm, 0, st0.push(fm), acc2));
        },
        Field::Fragment { .. } => {},
    }
    assert(paths_model(accumulator@) == collect_paths(fm, st0, acc0));
    let ghost before_pop = stack@;
    assert(refs_model(before_pop) == st0.push(fm));
    stack.pop();
    assert(stack@ =~= before_pop.drop_last());
    assert(refs_model(stack@) =~= refs_model(before_pop).drop_last());
    assert(refs_model(stack@) =~= st0);
}

/// The paths to cache apart below `field`, with `initial_path` the fields above it.
fn get_cacheable_fields<'b, 'a>(field: &'b Field<'a>, initial_path: Vec<&'b Field<'a>>) -> (r: Vec<Vec<&'b Field<'a>>>)
    ensures
        paths_model(r@) == collect_paths(field_model(*field), refs_model(initial_path@), Seq::empty()),
{
    let mut initial_path = initial_path;
    let mut cachable_fields: Vec<Vec<&'b Field<'a>>> = Vec::new();
    assert(paths_model(cachable_fields@) =~= Seq::<Seq<FieldModel>>::empty());
    extract_fields_with_parameters_recursive(field, &mut initial_path, &mut cachable_fields);
    cachable_fields
}

proof fn lemma_collect_nonempty(f: FieldModel, stack: Seq<FieldModel>, acc: Seq<Seq<FieldModel>>)
    requires
        forall|i: int| 0 <= i < acc.len() ==> (#[trigger] acc[i]).len() > 0,
    ensures
        forall|i: int| 0 <= i < collect_paths(f, stack, acc).len() ==> (#[trigger] collect_paths(f, stack, acc)[i]).len() > 0,
    decreases f, 1int,
{
    let st = stack.push(f);
    let acc1 = if f.parameters_of().len() > 0 {
        acc.push(st)
    } else {
        acc
    };
    let acc2 = if acc1.len() == 0 {
        acc1.push(seq![st[0]])
    } else {
        acc1
    };
    assert forall|i: int| 0 <= i < acc2.len() implies (#[trigger] acc2[i]).len() > 0 by {
        if i < acc.len() {
            assert(acc2[i] == acc[i]);
        }
    }
    match f {
        FieldModel::Field { fields, .. } => {
            lemma_collect_list_nonempty(fields, 0, st, acc2);
            assert(collect_paths(f, stack, acc) == collect_paths_list(fields, 0, st, acc2));
        },
        FieldModel::Fragment { .. } => {
            assert(collect_paths(f, stack, acc) == acc2);
        },
    }
}

proof fn lemma_collect_list_nonempty(subs: Seq<FieldModel>, i: int, stack: Seq<FieldModel>, acc: Seq<Seq<FieldModel>>)
    requires
        forall|j: int| 0 <= j < acc.len() ==> (#[trigger] acc[j]).len() > 0,
    ensures
        forall|j: int|
            0 <= j < collect_paths_list(subs, i, stack, acc).len() ==> (#[trigger] collect_paths_list(
                subs,
                i,
                stack,
                acc,
            )[j]).len() > 0,
    decreases subs, subs.len() - i,
{
    if 0 <= i < subs.len() {
        lemma_collect_nonempty(subs[i], stack, acc);
        lemma_collect_list_nonempty(subs, i + 1, stack, collect_paths(subs[i], stack, acc));
        assert(collect_paths_list(subs, i, stack, acc) == collect_paths_list(
            subs,
            i + 1,
            stack,
            collect_paths(subs[i], stack, acc),
        ));
    } else {
        assert(collect_paths_list(subs, i, stack, acc) == acc);
    }
}

/// Where a path goes among paths sorted longest first: after every path at least as long.
pub open spec fn path_insert_pos(sorted: Seq<Seq<FieldModel>>, p: Seq<FieldModel>) -> int
    decreases sorted.len(),
{
    if sorted.len() == 0 {
        0
    } else if sorted.last().len() < p.len() {
        path_insert_pos(sorted.drop_last(), p)
    } else {
        sorted.len() as int
    }
}

/// The paths, longest first; paths of the same length keep their order.
pub open spec fn sort_paths(s: Seq<Seq<FieldModel>>) -> Seq<Seq<FieldModel>>
    decreases s.len(),
{
    if s.len() == 0 {
        s
    } else {
        let sorted = sort_paths(s.drop_last());
        sorted.insert(path_insert_pos(sorted, s.last()), s.last())
    }
}

proof fn lemma_path_insert_pos(sorted: Seq<Seq<FieldModel>>, p: Seq<FieldModel>)
    ensures
        0 <= path_insert_pos(sorted, p) <= sorted.len(),
    decreases sorted.len(),
{
    if sorted.len() > 0 {
        lemma_path_insert_pos(sorted.drop_last(), p);
    }
}

proof fn lemma_sort_paths_elements(s: Seq<Seq<FieldModel>>)
    requires
        forall|i: int| 0 <= i < s.len() ==> (#[trigger] s[i]).len() > 0,
    ensures
        forall|i: int| 0 <= i < sort_paths(s).len() ==> (#[trigger] sort_paths(s)[i]).len() > 0,
        sort_paths(s).len() == s.len(),
    decreases s.len(),
{
    if s.len() > 0 {
        let init = s.drop_last();
        assert forall|i: int| 0 <= i < init.len() implies (#[trigger] init[i]).len() > 0 by {
            assert(init[i] == s[i]);
        }
        lemma_sort_paths_elements(init);
        let sorted = sort_paths(init);
        lemma_path_insert_pos(sorted, s.last());
        let p = path_insert_pos(sorted, s.last());
        let r = sorted.insert(p, s.last());
        assert forall|i: int| 0 <= i < r.len() implies (#[trigger] r[i]).len() > 0 by {
            if i < p {
                assert(r[i] == sorted[i]);
            } else if i > p {
                assert(r[i] == sorted[i - 1]);
            }
        }
    }
}

proof fn lemma_path_insert_pos_bounds(sorted: Seq<Seq<FieldModel>>, p: Seq<FieldModel>)
    ensures
        forall|j: int| path_insert_pos(sorted, p) <= j < sorted.len() ==> (#[trigger] sorted[j]).len() < p.len(),
        path_insert_pos(sorted, p) > 0 ==> sorted[path_insert_pos(sorted, p) - 1].len() >= p.len(),
    decreases sorted.len(),
{
    lemma_path_insert_pos(sorted, p);
    if sorted.len() > 0 && sorted.last().len() < p.len() {
        let init = sorted.drop_last();
        lemma_path_insert_pos_bounds(init, p);
        lemma_path_insert_pos(init, p);
        assert forall|j: int| path_insert_pos(sorted, p) <= j < sorted.len() implies (#[trigger] sorted[j]).len() < p.len() by {
            if j < sorted.len() - 1 {
                assert(init[j] == sorted[j]);
            }
        }
        if path_insert_pos(sorted, p) > 0 {
            assert(init[path_insert_pos(sorted, p) - 1] == sorted[path_insert_pos(sorted, p) - 1]);
        }
    }
}

/// Sorting the paths gives them longest first, each path as often as before.
#[verifier::rlimit(50)]
pub proof fn law_sort_paths_longest_first(s: Seq<Seq<FieldModel>>)
    ensures
        forall|i: int, j: int| 0 <= i < j < sort_paths(s).len() ==> (#[trigger] sort_paths(s)[i]).len() >= (#[trigger] sort_paths(s)[j]).len(),
        sort_paths(s).to_multiset() == s.to_multiset(),
    decreases s.len(),
{
    if s.len() > 0 {
        let init = s.drop_last();
        let x = s.last();
        law_sort_paths_longest_first(init);
        let sorted = sort_paths(init);
        lemma_path_insert_pos(sorted, x);
        lemma_path_insert_pos_bounds(sorted, x);
        let p = path_insert_pos(sorted, x);
        let r = sorted.insert(p, x);
        assert forall|i: int, j: int| 0 <= i < j < r.len() implies (#[trigger] r[i]).len() >= (#[trigger] r[j]).len() by {
            if j < p {
                assert(r[i] == sorted[i] && r[j] == sorted[j]);
            } else if j == p {
                assert(r[i] == sorted[i]);
                assert(sorted[p - 1].len() >= x.len());
                if i < p - 1 {
                    assert(sorted[i].len() >= sorted[p - 1].len());
                }
            } else if i < p {
                assert(r[i] == sorted[i] && r[j] == sorted[j - 1]);
                if i < j - 1 {
                    assert(sorted[i].len() >= sorted[j - 1].len());
                }
            } else if i == p {
                assert(r[j] == sorted[j - 1]);
            } else {
                assert(r[i] == sorted[i - 1] && r[j] == sorted[j - 1]);
            }
        }
        vstd::seq_lib::to_multiset_insert(sorted, p, x);
        vstd::seq_lib::to_multiset_build(init, x);
        assert(init.push(x) =~= s);
    }
}

/// Sorts the paths longest first, keeping the order of paths of the same length.
#[verifier::rlimit(50)]
fn sort_by_length<'b, 'a>(paths: Vec<Vec<&'b Field<'a>>>) -> (r: Vec<Vec<&'b Field<'a>>>)
    ensures
        paths_model(r@) == sort_paths(paths_model(paths@)),
{
    let ghost input = paths_model(paths@);
    let mut rest = paths;
    let mut sorted: Vec<Vec<&'b Field<'a>>> = Vec::new();
    let ghost mut i: int = 0;
    assert(input.subrange(0, 0) =~= Seq::<Seq<FieldModel>>::empty());
    assert(paths_model(rest@) =~= input.subrange(0, input.len() as int));
    while rest.len() > 0
        invariant
            0 <= i <= input.len(),
            paths_model(rest@) == input.subrange(i, input.len() as int),
            paths_model(sorted@) == sort_paths(input.subrange(0, i)),
        decreases rest@.len(),
    {
        let ghost rm = paths_model(rest@);
        let ghost rv = rest@;
        assert(rm.len() == rest@.len());
        assert(rm[0] == input[i]);
        let p = rest.remove(0);
        assert(rest@ =~= rv.subrange(1, rv.len() as int));
        assert(paths_model(rest@) =~= rm.subrange(1, rm.len() as int));
        let ghost sm = paths_model(sorted@);
        let ghost pm = refs_model(p@);
        let mut k: usize = sorted.len();
        assert(sm.subrange(0, k as int) =~= sm);
        while k > 0 && sorted[k - 1].len() < p.len()
            invariant
                k <= sorted@.len(),
                sm == paths_model(sorted@),
                pm == refs_model(p@),
                path_insert_pos(sm, pm) == path_insert_pos(sm.subrange(0, k as int), pm),
            decreases k,
        {
            assert(sm.subrange(0, k as int).drop_last() =~= sm.subrange(0, k - 1));
            assert(sm[k - 1].len() == sorted@[k - 1]@.len());
            k = k - 1;
        }
        proof {
            if k > 0 {
                assert(sm.subrange(0, k as int).last() == sm[k - 1]);
                assert(sm[k - 1].len() == sorted@[k - 1]@.len());
            }
            lemma_path_insert_pos(sm, pm);
        }
        sorted.insert(k, p);
        assert(paths_model(sorted@) =~= sm.insert(k as int, pm));
        assert(input.subrange(0, i + 1).drop_last() =~= input.subrange(0, i));
        proof {
            i = i + 1;
        }
    }
    assert(input.subrange(0, i) =~= input);
    sorted
}

/// The values to cache for the sorted paths, taken out of `value` one after the other: for each
/// path whose value is there, its key (see `path_key`) and the value renamed along the path (see
/// `dealias_path`). `None` where a renaming fails.
pub open spec fn cache_values_from(paths: Seq<Seq<FieldModel>>, value: JsonModel) -> Option<Seq<(Seq<char>, JsonModel)>>
    decreases paths.len(),
{
    if paths.len() == 0 {
        Some(Seq::empty())
    } else {
        let p = paths[0];
        let (v2, x) = extract_mut_spec(value, json_path(p));
        let head: Option<Seq<(Seq<char>, JsonModel)>> = match x {
            None => Some(Seq::empty()),
            Some(xv) => match dealias_path(xv, p) {
                None => None,
                Some(d) => Some(seq![(path_key(p), d)]),
            },
        };
        match head {
            None => None,
            Some(h) => match cache_values_from(paths.drop_first(), v2) {
                None => None,
                Some(t) => Some(h + t),
            },
        }
    }
}

/// The values to cache for `field` reached along `initial_path`, out of the response value
/// `value` (see `cache_values_from`; paths longest first).
pub open spec fn cache_values(initial_path: Seq<FieldModel>, field: FieldModel, value: JsonModel) -> Option<
    Seq<(Seq<char>, JsonModel)>,
> {
    cache_values_from(sort_paths(collect_paths(field, initial_path, Seq::empty())), value)
}

pub open spec fn keyed_model(s: Seq<(String, Json)>) -> Seq<(Seq<char>, JsonModel)> {
    s.map_values(|e: (String, Json)| (e.0@, json_model(e.1)))
}

/// The values to cache, with their keys (see `cache_values`); `None` where a renaming fails.
#[verifier::rlimit(50)]
fn get_cache_values<'b, 'a>(initial_path: Vec<&'b Field<'a>>, field: &'b Field<'a>, value: Json) -> (r: Option<
    Vec<(String, Json)>,
>)
    requires
        json_wf(json_model(value)),
    ensures
        match cache_values(refs_model(initial_path@), field_model(*field), json_model(value)) {
            Some(s) => r matches Some(v) && keyed_model(v@) == s && forall|i: int|
                0 <= i < v@.len() ==> json_wf(#[trigger] json_model(v@[i].1)),
            None => r is None,
        },
{
    let ghost init = refs_model(initial_path@);
    let cacheable_fields = get_cacheable_fields(field, initial_path);
    proof {
        lemma_collect_nonempty(field_model(*field), init, Seq::empty());
        lemma_sort_paths_elements(paths_model(cacheable_fields@));
    }
    let sorted = sort_by_length(cacheable_fields);
    let ghost all = paths_model(sorted@);
    let ghost v0 = json_model(value);
    let mut cur = value;
    let mut rest = sorted;
    let mut out: Vec<(String, Json)> = Vec::new();
    let ghost mut i: int = 0;
    assert(all.subrange(0, all.len() as int) =~= all);
    assert(keyed_model(out@) =~= Seq::<(Seq<char>, JsonModel)>::empty());
    assert(all.subrange(0, all.len() as int) =~= all);
    assert(Seq::<(Seq<char>, JsonModel)>::empty() + Seq::<(Seq<char>, JsonModel)>::empty() =~= Seq::<(Seq<char>, JsonModel)>::empty());
    while rest.len() > 0
        invariant
            0 <= i <= all.len(),
            init == refs_model(initial_path@),
            all == sort_paths(collect_paths(field_model(*field), init, Seq::empty())),
            paths_model(rest@) == all.subrange(i, all.len() as int),
            forall|m: int| 0 <= m < all.len() ==> (#[trigger] all[m]).len() > 0,
            json_wf(json_model(cur)),
            v0 == json_model(value),
            forall|m: int| 0 <= m < out@.len() ==> json_wf(#[trigger] json_model(out@[m].1)),
            cache_values_from(all, v0) == match cache_values_from(all.subrange(i, all.len() as int), json_model(cur)) {
                Some(t) => Some(keyed_model(out@) + t),
                None => None::<Seq<(Seq<char>, JsonModel)>>,
            },
        decreases rest@.len(),
    {
        let ghost rm = paths_model(rest@);
        let ghost rv = rest@;
        assert(rm.len() == rest@.len());
        let path = rest.remove(0);
        assert(rest@ =~= rv.subrange(1, rv.len() as int));
        assert(paths_model(rest@) =~= rm.subrange(1, rm.len() as int));
        let ghost pm = refs_model(path@);
        assert(pm == all[i]);
        let ghost tail = all.subrange(i, all.len() as int);
        assert(tail[0] == pm);
        assert(tail.drop_first() =~= all.subrange(i + 1, all.len() as int));
        let cache_key = fields_to_cache_key(&path);
        let json_path_v = fields_to_json_path(&path);
        assert(json_path(pm).len() == pm.len());
        let extracted = extract_mut(&mut cur, json_path_v.as_slice());
        match extracted {
            Some(v) => {
                proof {
                    
                }
                match dealias_fields(v, &path) {
                    Some(d) => {
                        let ghost before = keyed_model(out@);
                        let ghost dm = json_model(d);
                        assert(json_wf(dm));
                        let ghost kv = cache_key@;
                        let ghost ov = out@;
                        out.push((cache_key, d));
                        assert(keyed_model(out@) =~= before + seq![(kv, dm)]);
                        assert forall|m: int| 0 <= m < out@.len() implies json_wf(#[trigger] json_model(out@[m].1)) by {
                            if m < ov.len() {
                                assert(out@[m] == ov[m]);
                            }
                        }
                        assert(keyed_model(out@) + Seq::<(Seq<char>, JsonModel)>::empty() =~= keyed_model(out@));
                    },
                    None => {
                        return None;
                    },
                }
            },
            None => {},
        }
        proof {
            i = i + 1;
        }
    }
    assert(all.subrange(i, all.len() as int).len() == 0);
    assert(keyed_model(out@) + Seq::<(Seq<char>, JsonModel)>::empty() =~= keyed_model(out@));
    Some(out)
}

// ---------------------------------------------------------------------------------------------
// Writing the values of a response to the cache.

/// The key under which a value goes for a hint's scope: the key itself for a public value, the
/// user's private key for a private one, and none for a private value without a user.
pub open spec fn scoped_key(scope: CacheScope, user_id: Option<Seq<char>>, key: Seq<char>) -> Option<Seq<char>> {
    match (scope, user_id) {
        (CacheScope::PUBLIC, _) => Some(key),
        (CacheScope::PRIVATE, Some(u)) => Some(private_key(u, key)),
        (CacheScope::PRIVATE, None) => None,
    }
}

/// The writes for the values of one hint: each value under its scoped key, for the hint's age.
pub open spec fn scoped_writes(vals: Seq<(Seq<char>, JsonModel)>, h: HintModel, user_id: Option<Seq<char>>) -> Seq<
    (Seq<char>, u16, JsonModel),
>
    decreases vals.len(),
{
    if vals.len() == 0 {
        Seq::empty()
    } else {
        (match scoped_key(h.scope, user_id, vals[0].0) {
            Some(k) => seq![(k, h.max_age, vals[0].1)],
            None => Seq::empty(),
        }) + scoped_writes(vals.drop_first(), h, user_id)
    }
}

/// The writes that the hints make, in order, and whether they all went through: each hint with a
/// non-empty path that leads to a field of the operation writes the values to cache for that
/// field (see `cache_values`); the writes stop at the first hint whose values cannot be renamed.
pub open spec fn cache_writes(hints: Seq<(JsonModel, HintModel)>, op: OperationModel, user_id: Option<Seq<char>>) -> (
    Seq<(Seq<char>, u16, JsonModel)>,
    bool,
)
    decreases hints.len(),
{
    if hints.len() == 0 {
        (Seq::empty(), true)
    } else {
        let (v, h) = hints[0];
        let head: Option<Seq<(Seq<char>, u16, JsonModel)>> = if h.path.len() == 0 {
            Some(Seq::empty())
        } else {
            match operation_traverse(op.fields, h.path, 0) {
                None => Some(Seq::empty()),
                Some((tr, f)) => match cache_values(tr, f, v) {
                    None => None,
                    Some(vals) => Some(scoped_writes(vals, h, user_id)),
                },
            }
        };
        match head {
            None => (Seq::empty(), false),
            Some(w) => {
                let rest = cache_writes(hints.drop_first(), op, user_id);
                (w + rest.0, rest.1)
            },
        }
    }
}

/// The store after the writes, one after the other, at `now`.
pub open spec fn apply_writes(
    store: Seq<(Seq<char>, Seq<(int, JsonModel)>)>,
    writes: Seq<(Seq<char>, u16, JsonModel)>,
    now: int,
) -> Seq<(Seq<char>, Seq<(int, JsonModel)>)>
    decreases writes.len(),
{
    if writes.len() == 0 {
        store
    } else {
        apply_writes(
            store_insert(store, writes[0].0, now + writes[0].1 * 1_000_000_000, writes[0].2, now),
            writes.drop_first(),
            now,
        )
    }
}

proof fn lemma_apply_writes_append(
    store: Seq<(Seq<char>, Seq<(int, JsonModel)>)>,
    a: Seq<(Seq<char>, u16, JsonModel)>,
    b: Seq<(Seq<char>, u16, JsonModel)>,
    now: int,
)
    ensures
        apply_writes(store, a + b, now) == apply_writes(apply_writes(store, a, now), b, now),
    decreases a.len(),
{
    if a.len() > 0 {
        assert((a + b).drop_first() =~= a.drop_first() + b);
        assert((a + b)[0] == a[0]);
        lemma_apply_writes_append(
            store_insert(store, a[0].0, now + a[0].1 * 1_000_000_000, a[0].2, now),
            a.drop_first(),
            b,
            now,
        );
    } else {
        assert(a + b =~= b);
    }
}

/// Writes the values of the hints to the cache at `now` (see `cache_writes`); `false` where the
/// writes stopped at a hint whose values could not be renamed.
#[verifier::rlimit(50)]
fn update_cache(
    cache: &mut InnerCache,
    user_id: &Option<String>,
    cache_hints: Vec<(Json, CacheHint)>,
    query: &Operation,
    now: i128,
) -> (ok: bool)
    requires
        old(cache).wf(),
        -TIME_BOUND <= now <= TIME_BOUND,
        forall|i: int| 0 <= i < cache_hints@.len() ==> json_wf(#[trigger] json_model(cache_hints@[i].0)),
    ensures
        final(cache).wf(),
        ({
            let w = cache_writes(entries_model(cache_hints@), operation_model(*query), opt_user(*user_id));
            final(cache)@.store == apply_writes(old(cache)@.store, w.0, now as int) && ok == w.1
        }),
{
    let ghost all = entries_model(cache_hints@);
    let ghost om = operation_model(*query);
    let ghost u = opt_user(*user_id);
    let ghost store0 = cache@.store;
    let mut rest = cache_hints;
    let ghost mut i: int = 0;
    let ghost mut done: Seq<(Seq<char>, u16, JsonModel)> = Seq::empty();
    assert(all.subrange(0, all.len() as int) =~= all);
    assert(done + cache_writes(all, om, u).0 =~= cache_writes(all, om, u).0);
    while rest.len() > 0
        invariant
            0 <= i <= all.len(),
            -TIME_BOUND <= now <= TIME_BOUND,
            all == entries_model(cache_hints@),
            forall|m: int| 0 <= m < all.len() ==> json_wf(#[trigger] all[m].0),
            entries_model(rest@) == all.subrange(i, all.len() as int),
            forall|m: int| 0 <= m < rest@.len() ==> json_wf(#[trigger] json_model(rest@[m].0)),
            om == operation_model(*query),
            u == opt_user(*user_id),
            store0 == old(cache)@.store,
            cache.wf(),
            cache@.store == apply_writes(store0, done, now as int),
            cache_writes(all, om, u).0 == done + cache_writes(all.subrange(i, all.len() as int), om, u).0,
            cache_writes(all, om, u).1 == cache_writes(all.subrange(i, all.len() as int), om, u).1,
        decreases rest@.len(),
    {
        let ghost rm = entries_model(rest@);
        let ghost rv = rest@;
        assert(rm.len() == rest@.len());
        assert(json_wf(json_model(rv[0].0)));
        let (value, hint) = rest.remove(0);
        assert(rest@ =~= rv.subrange(1, rv.len() as int));
        assert(entries_model(rest@) =~= rm.subrange(1, rm.len() as int));
        assert(forall|m: int| 0 <= m < rest@.len() ==> json_wf(#[trigger] json_model(rest@[m].0))) by {
            assert forall|m: int| 0 <= m < rest@.len() implies json_wf(#[trigger] json_model(rest@[m].0)) by {
                assert(rest@[m] == rv[m + 1]);
            }
        }
        let ghost tail = all.subrange(i, all.len() as int);
        assert(tail[0] == rm[0]);
        assert(tail.drop_first() =~= all.subrange(i + 1, all.len() as int));
        let ghost hm = hint_model(hint);
        assert(rm[0] == (json_model(value), hm));
        let ghost head_writes: Seq<(Seq<char>, u16, JsonModel)> = Seq::empty();
        if hint.path.len() > 0 {
            match query.traverse(hint.path.as_slice()) {
                Some((traversed_fields, cached_field)) => {
                    match get_cache_values(traversed_fields, cached_field, value) {
                        Some(values) => {
                            let ghost vals = keyed_model(values@);
                            let mut vs = values;
                            let ghost mut j: int = 0;
                            let ghost mid = done;
                            assert(vals.subrange(0, vals.len() as int) =~= vals);
                            assert(scoped_writes(vals, hm, u) == Seq::<(Seq<char>, u16, JsonModel)>::empty() + scoped_writes(vals.subrange(0, vals.len() as int), hm, u));
                            while vs.len() > 0
                                invariant
                                    0 <= j <= vals.len(),
                                    -TIME_BOUND <= now <= TIME_BOUND,
                                    keyed_model(vs@) == vals.subrange(j, vals.len() as int),
                                    forall|m: int| 0 <= m < vs@.len() ==> json_wf(#[trigger] json_model(vs@[m].1)),
                                    hm == hint_model(hint),
                                    u == opt_user(*user_id),
                                    cache.wf(),
                                    exists|pre: Seq<(Seq<char>, u16, JsonModel)>|
                                        #[trigger] (pre + scoped_writes(vals.subrange(j, vals.len() as int), hm, u)) == scoped_writes(vals, hm, u)
                                        && cache@.store == apply_writes(store0, mid + pre, now as int),
                                decreases vs@.len(),
                            {
                                let ghost km = keyed_model(vs@);
                                let ghost kv = vs@;
                                assert(km.len() == vs@.len());
                                assert(json_wf(json_model(kv[0].1)));
                                let (cache_key, cache_value) = vs.remove(0);
                                assert(vs@ =~= kv.subrange(1, kv.len() as int));
                                assert(keyed_model(vs@) =~= km.subrange(1, km.len() as int));
                                assert forall|m: int| 0 <= m < vs@.len() implies json_wf(#[trigger] json_model(vs@[m].1)) by {
                                    assert(vs@[m] == kv[m + 1]);
                                }
                                let ghost sub = vals.subrange(j, vals.len() as int);
                                assert(sub[0] == km[0]);
                                assert(sub.drop_first() =~= vals.subrange(j + 1, vals.len() as int));
                                let ghost pre = choose|pre: Seq<(Seq<char>, u16, JsonModel)>|
                                    #[trigger] (pre + scoped_writes(vals.subrange(j, vals.len() as int), hm, u)) == scoped_writes(vals, hm, u)
                                    && cache@.store == apply_writes(store0, mid + pre, now as int);
                                let key = match hint.scope {
                                    CacheScope::PUBLIC => Some(cache_key),
                                    CacheScope::PRIVATE => match user_id {
                                        Some(uid) => Some(to_private_cache_key(uid, &cache_key)),
                                        None => None,
                                    },
                                };
                                match key {
                                    Some(k) => {
                                        let ghost w = (k@, hint.max_age, json_model(cache_value));
                                        let ghost before = cache@.store;
                                        cache.insert_at(k, hint.max_age, cache_value, now);
                                        proof {
                                            let pre2 = pre.push(w);
                                            assert(pre2 + scoped_writes(vals.subrange(j + 1, vals.len() as int), hm, u) =~= pre + scoped_writes(sub, hm, u));
                                            lemma_apply_writes_append(store0, mid + pre, seq![w], now as int);
                                            assert(mid + pre + seq![w] =~= mid + pre2);
                                            assert(seq![w].drop_first() =~= Seq::<(Seq<char>, u16, JsonModel)>::empty());
                                            assert(seq![w][0] == w);
                                            assert(apply_writes(before, seq![w], now as int) == apply_writes(
                                                store_insert(before, w.0, now + w.1 * 1_000_000_000, w.2, now as int),
                                                Seq::empty(),
                                                now as int,
                                            ));
                                        }
                                    },
                                    None => {
                                        proof {
                                            assert(pre + scoped_writes(vals.subrange(j + 1, vals.len() as int), hm, u) =~= pre + scoped_writes(sub, hm, u));
                                        }
                                    },
                                }
                                proof {
                                    j = j + 1;
                                }
                            }
                            proof {
                                let pre = choose|pre: Seq<(Seq<char>, u16, JsonModel)>|
                                    #[trigger] (pre + scoped_writes(vals.subrange(j, vals.len() as int), hm, u)) == scoped_writes(vals, hm, u)
                                    && cache@.store == apply_writes(store0, mid + pre, now as int);
                                assert(vals.subrange(j, vals.len() as int).len() == 0);
                                assert(pre + Seq::<(Seq<char>, u16, JsonModel)>::empty() =~= pre);
                                done = mid + pre;
                                assert(cache_writes(tail, om, u).0 == pre + cache_writes(tail.drop_first(), om, u).0);
                                assert(done + cache_writes(tail.drop_first(), om, u).0 =~= mid + (pre + cache_writes(tail.drop_first(), om, u).0));
                            }
                        },
                        None => {
                            proof {
                                assert(cache_writes(tail, om, u) == (Seq::<(Seq<char>, u16, JsonModel)>::empty(), false));
                                assert(done + Seq::<(Seq<char>, u16, JsonModel)>::empty() =~= done);
                            }
                            return false;
                        },
                    }
                },
                None => {
                    proof {
                        assert(done + cache_writes(tail.drop_first(), om, u).0 =~= done + (Seq::<(Seq<char>, u16, JsonModel)>::empty() + cache_writes(tail.drop_first(), om, u).0));
                    }
                },
            }
        } else {
            proof {
                assert(done + cache_writes(tail.drop_first(), om, u).0 =~= done + (Seq::<(Seq<char>, u16, JsonModel)>::empty() + cache_writes(tail.drop_first(), om, u).0));
            }
        }
        proof {
            i = i + 1;
        }
    }
    proof {
        assert(all.subrange(i, all.len() as int).len() == 0);
        assert(done + Seq::<(Seq<char>, u16, JsonModel)>::empty() =~= done);
    }
    true
}

// ---------------------------------------------------------------------------------------------
// Answering a document.

/// What to do with a document once the cache has been consulted.
pub enum QueryPlan<'a> {
    /// Send the whole document on, as it holds an operation that is not a query; the response
    /// is the answer.
    Forward(Document<'a>),
    /// The cache answers everything: the answer is `{"data": ...}` with this value.
    Cached(Json),
    /// Send the residual document on, then complete its response with the value from the cache
    /// (see `complete_query`).
    Partial(Document<'a>, Json),
}

/// A plan as mathematical values.
pub enum PlanModel {
    Forward(DocumentModel),
    Cached(JsonModel),
    Partial(DocumentModel, JsonModel),
}

pub open spec fn plan_model(p: QueryPlan) -> PlanModel {
    match p {
        QueryPlan::Forward(d) => PlanModel::Forward(document_model(d)),
        QueryPlan::Cached(j) => PlanModel::Cached(json_model(j)),
        QueryPlan::Partial(d, j) => PlanModel::Partial(document_model(d), json_model(j)),
    }
}

/// Every operation is a query.
pub open spec fn all_queries(ops: Seq<OperationModel>) -> bool {
    forall|i: int| 0 <= i < ops.len() ==> (#[trigger] ops[i]).operation_type == OperationType::Query
}

/// The fields matched against the cache one after the other (see `match_top`): the values found
/// go into `cached` under the fields' aliases, what is left over into `residual`. `None` where a
/// match fails.
pub open spec fn plan_fields(
    fields: Seq<FieldModel>,
    cached: Seq<(Seq<char>, JsonModel)>,
    residual: Seq<FieldModel>,
    lookup: spec_fn(Seq<char>) -> Option<JsonModel>,
) -> Option<(Seq<(Seq<char>, JsonModel)>, Seq<FieldModel>)>
    decreases fields.len(),
{
    if fields.len() == 0 {
        Some((cached, residual))
    } else {
        match match_top(fields[0], lookup) {
            None => None,
            Some((r, c)) => plan_fields(
                fields.drop_first(),
                match c {
                    Some(v) => put_member(cached, fields[0].alias_of(), v),
                    None => cached,
                },
                match r {
                    Some(x) => residual.push(x),
                    None => residual,
                },
                lookup,
            ),
        }
    }
}

/// The operations, each expanded (see `expand_operation_spec`) and its fields matched against
/// the cache in turn: the values found go into `cached`, and each operation with fields left over
/// goes into `residual` with those fields only. `Err` where a fragment spreads itself, `None`
/// where a spread names no fragment or a match fails.
pub open spec fn plan_operations(
    ops: Seq<OperationModel>,
    frags: Seq<FragmentModel>,
    cached: Seq<(Seq<char>, JsonModel)>,
    residual: Seq<OperationModel>,
    lookup: spec_fn(Seq<char>) -> Option<JsonModel>,
) -> Option<Result<(Seq<(Seq<char>, JsonModel)>, Seq<OperationModel>), ()>>
    decreases ops.len(),
{
    if ops.len() == 0 {
        Some(Ok((cached, residual)))
    } else {
        match expand_operation_spec(ops[0], frags) {
            Expansion::Missing => None,
            Expansion::Recursive => Some(Err(())),
            Expansion::Fields(x) => match plan_fields(x, cached, Seq::empty(), lookup) {
                None => None,
                Some((c2, res)) => plan_operations(
                    ops.drop_first(),
                    frags,
                    c2,
                    if res.len() > 0 {
                        residual.push(OperationModel { fields: res, ..ops[0] })
                    } else {
                        residual
                    },
                    lookup,
                ),
            },
        }
    }
}

/// The plan for a document: forward it whole unless every operation is a query; otherwise
/// answer from the cache what it can (see `plan_operations`), and forward the operations left
/// over, if any, with the document's fragments.
pub open spec fn plan_spec(doc: DocumentModel, lookup: spec_fn(Seq<char>) -> Option<JsonModel>) -> Option<Result<PlanModel, ()>> {
    if !all_queries(doc.operations) {
        Some(Ok(PlanModel::Forward(doc)))
    } else {
        match plan_operations(doc.operations, doc.fragment_definitions, Seq::empty(), Seq::empty(), lookup) {
            None => None,
            Some(Err(())) => Some(Err(())),
            Some(Ok((c, rops))) => Some(
                Ok(
                    if rops.len() > 0 {
                        PlanModel::Partial(
                            DocumentModel { operations: rops, fragment_definitions: doc.fragment_definitions },
                            JsonModel::Object(c),
                        )
                    } else {
                        PlanModel::Cached(JsonModel::Object(c))
                    },
                ),
            ),
        }
    }
}

fn every_operation_is_query(ops: &Vec<Operation>) -> (r: bool)
    ensures
        r == all_queries(operations_model(ops@)),
{
    let ghost om = operations_model(ops@);
    let mut i: usize = 0;
    while i < ops.len()
        invariant
            i <= ops@.len(),
            om == operations_model(ops@),
            forall|m: int| 0 <= m < i ==> (#[trigger] om[m]).operation_type == OperationType::Query,
        decreases ops@.len() - i,
    {
        if ops[i].operation_type != OperationType::Query {
            assert(om[i as int].operation_type != OperationType::Query);
            return false;
        }
        i = i + 1;
    }
    true
}

/// Matches the fields against the cache in turn (see `plan_fields`), putting the values found
/// into `cached_result`; the fields left over, or `None` where a match fails.
#[verifier::rlimit(50)]
fn plan_fields_exec<'a>(
    fields: Vec<Field<'a>>,
    cached_result: &mut Vec<(String, Json)>,
    cache: &mut InnerCache,
    user_id: &Option<String>,
    now: i128,
) -> (r: Option<Vec<Field<'a>>>)
    requires
        old(cache).wf(),
        json_wf(JsonModel::Object(members_model(old(cached_result)@))),
    ensures
        final(cache).wf(),
        same_live(final(cache)@.store, old(cache)@.store, now as int),
        writes_kept(final(cache)@, old(cache)@),
        json_wf(JsonModel::Object(members_model(final(cached_result)@))),
        match plan_fields(
            fields_model(fields@),
            members_model(old(cached_result)@),
            Seq::empty(),
            lookup_of(old(cache)@.store, opt_user(*user_id), now as int),
        ) {
            None => r is None,
            Some((c, res)) => r matches Some(v) && fields_model(v@) == res && members_model(final(cached_result)@) == c,
        },
{
    let ghost store0 = cache@.store;
    let ghost lk = lookup_of(store0, opt_user(*user_id), now as int);
    let ghost all = fields_model(fields@);
    let ghost c0 = members_model(cached_result@);
    let mut rest = fields;
    let mut residual_fields: Vec<Field<'a>> = Vec::new();
    let ghost mut i: int = 0;
    assert(all.subrange(0, all.len() as int) =~= all);
    assert(fields_model(residual_fields@) =~= Seq::<FieldModel>::empty());
    while rest.len() > 0
        invariant
            0 <= i <= all.len(),
            fields_model(rest@) == all.subrange(i, all.len() as int),
            cache.wf(),
            same_live(cache@.store, store0, now as int),
            writes_kept(cache@, old(cache)@),
            store0 == old(cache)@.store,
            lk == lookup_of(store0, opt_user(*user_id), now as int),
            c0 == members_model(old(cached_result)@),
            all == fields_model(fields@),
            json_wf(JsonModel::Object(members_model(cached_result@))),
            plan_fields(all, c0, Seq::empty(), lk) == plan_fields(
                all.subrange(i, all.len() as int),
                members_model(cached_result@),
                fields_model(residual_fields@),
                lk,
            ),
        decreases rest@.len(),
    {
        let ghost rm = fields_model(rest@);
        let ghost rv = rest@;
        assert(rm.len() == rest@.len());
        let field = rest.remove(0);
        assert(rest@ =~= rv.subrange(1, rv.len() as int));
        assert(fields_model(rest@) =~= rm.subrange(1, rm.len() as int));
        let ghost tail = all.subrange(i, all.len() as int);
        assert(tail[0] == field_model(field));
        assert(tail.drop_first() =~= all.subrange(i + 1, all.len() as int));
        let ghost cur = cache@.store;
        proof {
            lemma_lookup_same(cur, store0, opt_user(*user_id), now as int);
        }
        let alias = owned(field.get_alias());
        match match_field_with_cache(field, user_id, cache, now) {
            None => {
                return None;
            },
            Some((residual_field, cached_field)) => {
                proof {
                    lemma_same_live_trans(cache@.store, cur, store0, now as int);
                }
                let ghost res_before = fields_model(residual_fields@);
                match residual_field {
                    Some(f) => {
                        let ghost fm = field_model(f);
                        residual_fields.push(f);
                        assert(fields_model(residual_fields@) =~= res_before.push(fm));
                    },
                    None => {},
                }
                match cached_field {
                    Some(c) => {
                        proof {
                            lemma_put_wf(members_model(cached_result@), alias@, json_model(c));
                        }
                        put(cached_result, alias, c);
                    },
                    None => {},
                }
            },
        }
        proof {
            i = i + 1;
        }
    }
    Some(residual_fields)
}

/// Plans the answer to `document` at `now` (see `plan_spec`): forward it, answer it from the
/// cache, or both. An error where a fragment spreads itself; `None` where a fragment spread names
/// no fragment, or a match against the cache fails (see `match_field`).
#[verifier::rlimit(50)]
pub fn plan_query<'a>(document: Document<'a>, cache: &mut InnerCache, user_id: &Option<String>, now: i128) -> (r: Option<
    Result<QueryPlan<'a>, Error>,
>)
    requires
        old(cache).wf(),
    ensures
        final(cache).wf(),
        same_live(final(cache)@.store, old(cache)@.store, now as int),
        writes_kept(final(cache)@, old(cache)@),
        match plan_spec(document_model(document), lookup_of(old(cache)@.store, opt_user(*user_id), now as int)) {
            None => r is None,
            Some(Err(())) => r matches Some(Err(e)) && e.message() == "Recursive fragment structure"@,
            Some(Ok(p)) => r matches Some(Ok(q)) && plan_model(q) == p,
        },
        !all_queries(document_model(document).operations) ==> final(cache)@ == old(cache)@,
        r matches Some(Ok(QueryPlan::Cached(j))) ==> json_wf(json_model(j)),
        r matches Some(Ok(QueryPlan::Partial(d, j))) ==> json_wf(json_model(j)) && d.operations@.len() > 0,
{
    let ghost store0 = cache@.store;
    let ghost lk = lookup_of(store0, opt_user(*user_id), now as int);
    let ghost dm = document_model(document);
    if !every_operation_is_query(&document.operations) {
        return Some(Ok(QueryPlan::Forward(document)));
    }
    let operations = document.operations;
    let fragment_definitions = document.fragment_definitions;
    let ghost all = operations_model(operations@);
    let ghost frags = fragments_model(fragment_definitions@);
    let mut cached_result: Vec<(String, Json)> = Vec::new();
    let mut residual_operations: Vec<Operation<'a>> = Vec::new();
    let mut rest = operations;
    let ghost mut i: int = 0;
    assert(all.subrange(0, all.len() as int) =~= all);
    assert(members_model(cached_result@) =~= Seq::<(Seq<char>, JsonModel)>::empty());
    assert(operations_model(residual_operations@) =~= Seq::<OperationModel>::empty());
    while rest.len() > 0
        invariant
            0 <= i <= all.len(),
            operations_model(rest@) == all.subrange(i, all.len() as int),
            frags == fragments_model(fragment_definitions@),
            cache.wf(),
            same_live(cache@.store, store0, now as int),
            writes_kept(cache@, old(cache)@),
            store0 == old(cache)@.store,
            lk == lookup_of(store0, opt_user(*user_id), now as int),
            dm == document_model(document),
            all == dm.operations,
            frags == dm.fragment_definitions,
            all_queries(all),
            json_wf(JsonModel::Object(members_model(cached_result@))),
            plan_operations(all, frags, Seq::empty(), Seq::empty(), lk) == plan_operations(
                all.subrange(i, all.len() as int),
                frags,
                members_model(cached_result@),
                operations_model(residual_operations@),
                lk,
            ),
        decreases rest@.len(),
    {
        let ghost rm = operations_model(rest@);
        let ghost rv = rest@;
        assert(rm.len() == rest@.len());
        let operation = rest.remove(0);
        assert(rest@ =~= rv.subrange(1, rv.len() as int));
        assert(operations_model(rest@) =~= rm.subrange(1, rm.len() as int));
        let ghost tail = all.subrange(i, all.len() as int);
        let ghost om = operation_model(operation);
        assert(tail[0] == om);
        assert(tail.drop_first() =~= all.subrange(i + 1, all.len() as int));
        let expanded = match try_expand_operation(operation, fragment_definitions.as_slice()) {
            None => {
                return None;
            },
            Some(Err(e)) => {
                return Some(Err(e));
            },
            Some(Ok(o)) => o,
        };
        let ghost em = operation_model(expanded);
        let ghost cur = cache@.store;
        proof {
            lemma_lookup_same(cur, store0, opt_user(*user_id), now as int);
        }
        let name = expanded.name;
        let operation_type = expanded.operation_type;
        let variables = expanded.variables;
        let residual_fields = match plan_fields_exec(expanded.fields, &mut cached_result, cache, user_id, now) {
            None => {
                return None;
            },
            Some(f) => f,
        };
        proof {
            lemma_same_live_trans(cache@.store, cur, store0, now as int);
        }
        if residual_fields.len() > 0 {
            let ghost before = operations_model(residual_operations@);
            let op = Operation {
                name: name,
                fields: residual_fields,
                variables: variables,
                operation_type: operation_type,
            };
            let ghost opm = operation_model(op);
            residual_operations.push(op);
            assert(operations_model(residual_operations@) =~= before.push(opm));
            assert(opm == (OperationModel { fields: opm.fields, ..om }));
        }
        proof {
            i = i + 1;
        }
    }
    assert(all.subrange(i, all.len() as int).len() == 0);
    let data_from_cache = Json::Object(cached_result);
    proof {
        lemma_json_model(data_from_cache);
    }
    if residual_operations.len() > 0 {
        let d = Document { operations: residual_operations, fragment_definitions: fragment_definitions };
        Some(Ok(QueryPlan::Partial(d, data_from_cache)))
    } else {
        Some(Ok(QueryPlan::Cached(data_from_cache)))
    }
}

/// The answer `{"data": v}`.
pub open spec fn data_response_spec(v: JsonModel) -> JsonModel {
    JsonModel::Object(seq![("data"@, v)])
}

/// The answer `{"data": v}`.
pub fn data_response(v: Json) -> (r: Json)
    requires
        json_wf(json_model(v)),
    ensures
        json_model(r) == data_response_spec(json_model(v)),
        json_wf(json_model(r)),
{
    let ghost vm = json_model(v);
    let mut members: Vec<(String, Json)> = Vec::new();
    members.push((owned("data"), v));
    let r = Json::Object(members);
    proof {
        lemma_json_model(r);
        assert(members_model(members@) =~= seq![("data"@, vm)]);
    }
    r
}

/// Completes a partly cached answer with the response to the residual document, at `now`: the
/// response's values are cached as its hints say (see `cache_writes`, over the first residual
/// operation), and the answer is `{"data": ...}` with the value from the cache merged into the
/// response's data. `None` where caching stopped at a hint whose values could not be renamed.
#[verifier::rlimit(50)]
pub fn complete_query(
    response: GraphQLResponse,
    cached: Json,
    residual: &Document,
    cache: &mut InnerCache,
    user_id: &Option<String>,
    now: i128,
) -> (r: Option<Json>)
    requires
        old(cache).wf(),
        json_wf(json_model(response.data)),
        json_wf(json_model(cached)),
        residual.operations@.len() > 0,
        -TIME_BOUND <= now <= TIME_BOUND,
    ensures
        final(cache).wf(),
        ({
            let w = cache_writes(
                compressed_hints(json_model(response.data), response_hints(response)),
                operation_model(residual.operations@[0]),
                opt_user(*user_id),
            );
            &&& final(cache)@.store == apply_writes(old(cache)@.store, w.0, now as int)
            &&& if w.1 {
                r matches Some(j) && json_model(j) == data_response_spec(merge(json_model(response.data), json_model(cached)))
            } else {
                r is None
            }
        }),
{
    let (response_data, hints) = response.compress_cache_hints();
    assert forall|i: int| 0 <= i < hints@.len() implies json_wf(#[trigger] json_model(hints@[i].0)) by {
        assert(entries_model(hints@)[i].0 == json_model(hints@[i].0));
    }
    let ok = update_cache(cache, user_id, hints, &residual.operations[0], now);
    if !ok {
        return None;
    }
    let mut response_data = response_data;
    merge_json(&mut response_data, cached);
    Some(data_response(response_data))
}

// ---------------------------------------------------------------------------------------------
// Laws.

/// A document with an operation that is not a query is forwarded whole, whatever the cache
/// holds.
pub proof fn law_non_query_forwarded(doc: DocumentModel, lookup: spec_fn(Seq<char>) -> Option<JsonModel>)
    requires
        exists|i: int| 0 <= i < doc.operations.len() && (#[trigger] doc.operations[i]).operation_type != OperationType::Query,
    ensures
        plan_spec(doc, lookup) == Some(Ok::<PlanModel, ()>(PlanModel::Forward(doc))),
{
}

/// What a user is served for a key depends only on the public entries under the key and on that
/// user's own private entries: two stores that agree on those serve the same.
pub proof fn law_reads_only_own_private_entries(
    a: Seq<(Seq<char>, Seq<(int, JsonModel)>)>,
    b: Seq<(Seq<char>, Seq<(int, JsonModel)>)>,
    key: Seq<char>,
    user_id: Seq<char>,
    now: int,
)
    requires
        live_values(a, key, now) == live_values(b, key, now),
        live_values(a, private_key(user_id, key), now) == live_values(b, private_key(user_id, key), now),
    ensures
        cached_item(a, key, Some(user_id), now) == cached_item(b, key, Some(user_id), now),
{
}

/// Without a user, only public entries are served.
pub proof fn law_anonymous_reads_public_entries(
    a: Seq<(Seq<char>, Seq<(int, JsonModel)>)>,
    b: Seq<(Seq<char>, Seq<(int, JsonModel)>)>,
    key: Seq<char>,
    now: int,
)
    requires
        live_values(a, key, now) == live_values(b, key, now),
    ensures
        cached_item(a, key, None, now) == cached_item(b, key, None, now),
{
}

/// A private value is written under the user's private key, and not at all without a user; a
/// public value under its own key.
pub proof fn law_private_values_written_for_their_user(user_id: Option<Seq<char>>, key: Seq<char>)
    ensures
        scoped_key(CacheScope::PUBLIC, user_id, key) == Some(key),
        scoped_key(CacheScope::PRIVATE, user_id, key) == match user_id {
            Some(u) => Some(private_key(u, key)),
            None => None::<Seq<char>>,
        },
{
}

/// Two different users whose ids hold no space never share a private key.
pub proof fn law_private_keys_differ(u1: Seq<char>, u2: Seq<char>, k1: Seq<char>, k2: Seq<char>)
    requires
        u1 != u2,
        !u1.contains(' '),
        !u2.contains(' '),
    ensures
        private_key(u1, k1) != private_key(u2, k2),
{
    reveal_strlit(" ");
    assert(" "@.len() == 1 && " "@[0] == ' ');
    let p1 = private_key(u1, k1);
    let p2 = private_key(u2, k2);
    assert(p1[u1.len() as int] == (u1 + " "@)[u1.len() as int]);
    assert(p2[u2.len() as int] == (u2 + " "@)[u2.len() as int]);
    if p1 == p2 {
        assert(p1[u1.len() as int] == ' ');
        assert(p2[u2.len() as int] == ' ');
        if u1.len() < u2.len() {
            assert(p2[u1.len() as int] == u2[u1.len() as int]);
            assert(u2.contains(' '));
        } else if u2.len() < u1.len() {
            assert(p1[u2.len() as int] == u1[u2.len() as int]);
            assert(u1.contains(' '));
        } else {
            assert forall|i: int| 0 <= i < u1.len() implies u1[i] == u2[i] by {
                assert(p1[i] == u1[i]);
                assert(p2[i] == u2[i]);
            }
            assert(u1 =~= u2);
        }
    }
}

/// `k` is a private key of the user `u`.
pub open spec fn is_private_key_of(u: Seq<char>, k: Seq<char>) -> bool {
    exists|x: Seq<char>| k == #[trigger] private_key(u, x)
}

/// Writes under the private keys of one user change nothing of what another user is served
/// (user ids without spaces), under any key that is not itself a private key of the first user.
pub proof fn law_private_writes_invisible_to_others(
    store: Seq<(Seq<char>, Seq<(int, JsonModel)>)>,
    writes: Seq<(Seq<char>, u16, JsonModel)>,
    u1: Seq<char>,
    u2: Seq<char>,
    key: Seq<char>,
    now: int,
    t: int,
)
    requires
        keys_distinct(store),
        u1 != u2,
        !u1.contains(' '),
        !u2.contains(' '),
        forall|i: int| 0 <= i < writes.len() ==> is_private_key_of(u1, #[trigger] writes[i].0),
        !is_private_key_of(u1, key),
    ensures
        cached_item(apply_writes(store, writes, now), key, Some(u2), t) == cached_item(store, key, Some(u2), t),
    decreases writes.len(),
{
    if writes.len() > 0 {
        let w = writes[0];
        let x = choose|x: Seq<char>| w.0 == #[trigger] private_key(u1, x);
        let store2 = store_insert(store, w.0, now + w.1 * 1_000_000_000, w.2, now);
        lemma_store_insert_distinct(store, w.0, now + w.1 * 1_000_000_000, w.2, now);
        assert(w.0 != key);
        law_private_keys_differ(u1, u2, x, key);
        law_write_keeps_other_keys(store, w.0, now + w.1 * 1_000_000_000, w.2, now, key);
        law_write_keeps_other_keys(store, w.0, now + w.1 * 1_000_000_000, w.2, now, private_key(u2, key));
        let rest = writes.drop_first();
        assert forall|i: int| 0 <= i < rest.len() implies is_private_key_of(u1, #[trigger] rest[i].0) by {
            assert(rest[i] == writes[i + 1]);
        }
        law_private_writes_invisible_to_others(store2, rest, u1, u2, key, now, t);
        assert(live_values(store2, key, t) == live_values(store, key, t));
        assert(live_values(store2, private_key(u2, key), t) == live_values(store, private_key(u2, key), t));
    }
}

/// The document `{f}`: one query selecting one field without alias, parameters or subfields.
pub open spec fn single_field_query(f: Seq<char>) -> DocumentModel {
    DocumentModel {
        operations: seq![
            OperationModel {
                operation_type: OperationType::Query,
                name: None,
                variables: Seq::empty(),
                fields: seq![single_field(f)],
            },
        ],
        fragment_definitions: Seq::empty(),
    }
}

/// The field of the query `{f}`.
pub open spec fn single_field(f: Seq<char>) -> FieldModel {
    FieldModel::Field { alias: None, name: f, parameters: Seq::empty(), fields: Seq::empty() }
}

/// The scope that a hint's scope settles to: public where the server gives none.
pub open spec fn settled_scope(scope: Option<CacheScope>) -> CacheScope {
    match scope {
        Some(s) => s,
        None => CacheScope::PUBLIC,
    }
}

/// A single hint of age `age` on the member `f` of `{"f": v}`, as the server sends it and as it
/// is settled.
#[verifier::rlimit(50)]
proof fn lemma_single_field_compression(f: Seq<char>, v: JsonModel, age: u16, scope: Option<CacheScope>)
    ensures
        compressed_hints(
            JsonModel::Object(seq![(f, v)]),
            seq![HintDtoModel { path: seq![f], max_age: Some(age), scope }],
        ) == seq![(JsonModel::Object(seq![(f, v)]), HintModel { path: seq![f], scope: settled_scope(scope), max_age: age })],
{
    let data = JsonModel::Object(seq![(f, v)]);
    let h = HintDtoModel { path: seq![f], max_age: Some(age), scope };
    let hints = seq![h];
    let hm = HintModel { path: seq![f], scope: settled_scope(scope), max_age: age };
    assert(hints.drop_last() =~= Seq::<HintDtoModel>::empty());
    assert(sort_hints(Seq::<HintDtoModel>::empty()) == Seq::<HintDtoModel>::empty());
    assert(crate::graphql_deserializer::hint_insert_pos(Seq::<HintDtoModel>::empty(), h) == 0);
    assert(Seq::<HintDtoModel>::empty().insert(0, h) =~= hints);
    assert(sort_hints(hints) == hints);
    assert(hints_from_stack(h, Seq::empty()) == (settled_scope(scope), age, None::<Seq<(JsonModel, HintModel)>>, Seq::<(JsonModel, HintModel)>::empty()));
    assert(seq![(f, v)][0].0 == f);
    crate::graphql::json::lemma_key_unique(seq![(f, v)], f, 0);
    assert(get_member(seq![(f, v)], f) == Some(v));
    assert(seq![f].drop_first() =~= Seq::<Seq<char>>::empty());
    assert(crate::graphql::json::extract_spec(v, Seq::empty()) == Some(v));
    assert(seq![f][0] == f);
    assert(crate::graphql::json::extract_spec(data, seq![f]) == Some(data));
    assert(add_to_stack_spec(Seq::empty(), data, hm) == seq![(data, hm)]);
    assert(hints.drop_first() =~= Seq::<HintDtoModel>::empty());
    assert(hints[0] == h);
    assert(compress_from(data, Seq::<HintDtoModel>::empty(), Seq::empty(), seq![(data, hm)]) == (Seq::<(JsonModel, HintModel)>::empty(), seq![(data, hm)]));
    assert(compress_from(data, hints, Seq::empty(), Seq::empty()) == (Seq::<(JsonModel, HintModel)>::empty(), seq![(data, hm)]));
    let kept = seq![(data, hm)].filter(|e: (JsonModel, HintModel)| not_null(e));
    assert(kept =~= seq![(data, hm)]) by {
        reveal(Seq::filter);
        assert(seq![(data, hm)].drop_last() =~= Seq::<(JsonModel, HintModel)>::empty());
    }
    assert(compressed_hints(data, hints) =~= seq![(data, hm)]);
}

/// The value to cache for the field `f` of `{"f": v}`: `v` under the key `f`.
#[verifier::rlimit(50)]
proof fn lemma_single_field_values(f: Seq<char>, v: JsonModel)
    requires
        leaf_value(v),
    ensures
        cache_values(Seq::empty(), single_field(f), JsonModel::Object(seq![(f, v)])) == Some(seq![(f, v)]),
{
    let fm = single_field(f);
    let data = JsonModel::Object(seq![(f, v)]);
    assert(collect_paths_list(Seq::<FieldModel>::empty(), 0, seq![fm], seq![seq![fm]]) == seq![seq![fm]]);
    assert(collect_paths(fm, Seq::empty(), Seq::empty()) == seq![seq![fm]]);
    assert(sort_paths(Seq::<Seq<FieldModel>>::empty()) == Seq::<Seq<FieldModel>>::empty());
    assert(path_insert_pos(Seq::<Seq<FieldModel>>::empty(), seq![fm]) == 0);
    assert(Seq::<Seq<FieldModel>>::empty().insert(0, seq![fm]) =~= seq![seq![fm]]);
    assert(seq![seq![fm]].drop_last() =~= Seq::<Seq<FieldModel>>::empty());
    assert(seq![seq![fm]].last() == seq![fm]);
    assert(sort_paths(seq![seq![fm]]) =~= seq![seq![fm]]);
    assert(json_path(seq![fm]) =~= seq![f]);
    assert(seq![(f, v)][0].0 == f);
    crate::graphql::json::lemma_key_unique(seq![(f, v)], f, 0);
    assert(get_member(seq![(f, v)], f) == Some(v));
    assert(crate::graphql::json::extract_mut_spec(data, seq![f]).1 == Some(v));
    assert(dealias_path(v, seq![fm]) == Some(v));
    assert(seq![fm].map_values(|x: FieldModel| field_key(x)) =~= seq![field_key(fm)]);
    assert(field_key(fm) =~= f);
    assert(path_key(seq![fm]) == f);
    assert(seq![seq![fm]].drop_first() =~= Seq::<Seq<FieldModel>>::empty());
    assert(seq![seq![fm]][0] == seq![fm]);
    let vals = seq![(f, v)];
    assert(cache_values_from(Seq::<Seq<FieldModel>>::empty(), crate::graphql::json::extract_mut_spec(data, seq![f]).0) == Some(Seq::<(Seq<char>, JsonModel)>::empty()));
    assert(vals + Seq::<(Seq<char>, JsonModel)>::empty() =~= vals);
    assert(cache_values_from(seq![seq![fm]], data) == Some(vals + Seq::<(Seq<char>, JsonModel)>::empty()));
}

/// The writes that the response `{"f": v}` to `{f}` makes, with a public hint on `f`.
#[verifier::rlimit(50)]
proof fn lemma_single_field_writes(f: Seq<char>, v: JsonModel, age: u16, user_id: Option<Seq<char>>)
    requires
        leaf_value(v),
    ensures
        cache_writes(
            compressed_hints(
                JsonModel::Object(seq![(f, v)]),
                seq![HintDtoModel { path: seq![f], max_age: Some(age), scope: None }],
            ),
            single_field_query(f).operations[0],
            user_id,
        ) == (seq![(f, age, v)], true),
{
    let op = single_field_query(f).operations[0];
    let fm = single_field(f);
    let data = JsonModel::Object(seq![(f, v)]);
    let hm = HintModel { path: seq![f], scope: CacheScope::PUBLIC, max_age: age };
    lemma_single_field_compression(f, v, age, None);
    assert(settled_scope(None) == CacheScope::PUBLIC);
    lemma_single_field_values(f, v);
    let ch = seq![(data, hm)];
    assert(op.fields[0] == fm);
    assert(fm.alias_of() == f);
    assert(seq![f].drop_first() =~= Seq::<Seq<char>>::empty());
    assert(crate::graphql::parser::transform::field_traverse(fm, seq![f].drop_first()) == Some((Seq::<FieldModel>::empty(), fm)));
    assert(operation_traverse(op.fields, seq![f], 0) == Some((Seq::<FieldModel>::empty(), fm)));
    let vals = seq![(f, v)];
    assert(vals.drop_first() =~= Seq::<(Seq<char>, JsonModel)>::empty());
    assert(scoped_writes(Seq::<(Seq<char>, JsonModel)>::empty(), hm, user_id) == Seq::<(Seq<char>, u16, JsonModel)>::empty());
    assert(vals[0] == (f, v));
    assert(scoped_key(CacheScope::PUBLIC, user_id, f) == Some(f));
    assert(seq![(f, age, v)] + Seq::<(Seq<char>, u16, JsonModel)>::empty() =~= seq![(f, age, v)]);
    assert(scoped_writes(vals, hm, user_id) =~= seq![(f, age, v)]);
    assert(ch.drop_first() =~= Seq::<(JsonModel, HintModel)>::empty());
    assert(ch[0] == (data, hm));
    assert(cache_writes(Seq::<(JsonModel, HintModel)>::empty(), op, user_id) == (Seq::<(Seq<char>, u16, JsonModel)>::empty(), true));
    let w = cache_writes(ch, op, user_id);
    assert(w.0 =~= seq![(f, age, v)]);
}

/// Once the response `{"f": v}` to the query `{f}`, with a public hint of a positive age on
/// `f`, has been cached, the same query asked again before the value expires is answered from
/// the cache with the same data, where nothing else was live under the field's keys.
#[verifier::rlimit(50)]
pub proof fn law_cached_response_answers_query(
    store: Seq<(Seq<char>, Seq<(int, JsonModel)>)>,
    f: Seq<char>,
    v: JsonModel,
    age: u16,
    user_id: Option<Seq<char>>,
    now: int,
    t: int,
)
    requires
        keys_distinct(store),
        leaf_value(v),
        now <= t < now + age * 1_000_000_000,
        live_values(store, f, t).len() == 0,
        user_id matches Some(u) ==> live_values(store, private_key(u, f), t).len() == 0,
    ensures
        ({
            let doc = single_field_query(f);
            let data = JsonModel::Object(seq![(f, v)]);
            let hints = seq![HintDtoModel { path: seq![f], max_age: Some(age), scope: None }];
            let w = cache_writes(compressed_hints(data, hints), doc.operations[0], user_id);
            &&& w.1
            &&& plan_spec(doc, lookup_of(apply_writes(store, w.0, now), user_id, t)) == Some(
                Ok::<PlanModel, ()>(PlanModel::Cached(data)),
            )
        }),
{
    let doc = single_field_query(f);
    let op = doc.operations[0];
    let fm = single_field(f);
    let data = JsonModel::Object(seq![(f, v)]);
    let hints = seq![HintDtoModel { path: seq![f], max_age: Some(age), scope: None }];
    lemma_single_field_writes(f, v, age, user_id);
    let w = cache_writes(compressed_hints(data, hints), op, user_id);
    lemma_single_field_store(store, f, v, age, user_id, now, t);
    let store2 = store_insert(store, f, now + age * 1_000_000_000, v, now);
    assert(w.0[0] == (f, age, v));
    assert(w.0.drop_first() =~= Seq::<(Seq<char>, u16, JsonModel)>::empty());
    assert(apply_writes(store2, Seq::<(Seq<char>, u16, JsonModel)>::empty(), now) == store2);
    assert(apply_writes(store, w.0, now) == store2);
    let lk = lookup_of(store2, user_id, t);
    assert(lk(f) == Some(v));
    assert(op.fields[0] == fm);
    assert(match_field(Seq::empty(), fm, Some(v), lk) == Some((Seq::<Seq<char>>::empty(), None::<FieldModel>, Some(v))));
    assert(match_top(fm, lk) == Some((None::<FieldModel>, Some(v))));
    assert(put_member(Seq::empty(), f, v) =~= seq![(f, v)]);
    assert(op.fields.drop_first() =~= Seq::<FieldModel>::empty());
    assert(plan_fields(Seq::<FieldModel>::empty(), seq![(f, v)], Seq::<FieldModel>::empty(), lk) == Some((seq![(f, v)], Seq::<FieldModel>::empty())));
    assert(op.fields[0].alias_of() == f);
    assert(plan_fields(op.fields, Seq::empty(), Seq::empty(), lk) == Some((seq![(f, v)], Seq::<FieldModel>::empty())));
    assert(expand_operation_spec(op, Seq::empty()) == Expansion::Fields(op.fields));
    assert(doc.operations.drop_first() =~= Seq::<OperationModel>::empty());
    assert(doc.operations[0] == op);
    assert(plan_operations(Seq::<OperationModel>::empty(), Seq::empty(), seq![(f, v)], Seq::empty(), lk) == Some(
        Ok::<(Seq<(Seq<char>, JsonModel)>, Seq<OperationModel>), ()>((seq![(f, v)], Seq::<OperationModel>::empty())),
    ));
    assert(plan_operations(doc.operations, Seq::empty(), Seq::empty(), Seq::empty(), lk) == Some(
        Ok::<(Seq<(Seq<char>, JsonModel)>, Seq<OperationModel>), ()>((seq![(f, v)], Seq::<OperationModel>::empty())),
    ));
    assert(all_queries(doc.operations));
}

/// After the write of `v` under `f`, the cache serves `v` for `f` at `t`.
#[verifier::rlimit(50)]
proof fn lemma_single_field_store(
    store: Seq<(Seq<char>, Seq<(int, JsonModel)>)>,
    f: Seq<char>,
    v: JsonModel,
    age: u16,
    user_id: Option<Seq<char>>,
    now: int,
    t: int,
)
    requires
        keys_distinct(store),
        leaf_value(v),
        now <= t < now + age * 1_000_000_000,
        live_values(store, f, t).len() == 0,
        user_id matches Some(u) ==> live_values(store, private_key(u, f), t).len() == 0,
    ensures
        cached_item(store_insert(store, f, now + age * 1_000_000_000, v, now), f, user_id, t) == Some(v),
{
    let store2 = store_insert(store, f, now + age * 1_000_000_000, v, now);
    law_write_alone_is_live(store, f, now + age * 1_000_000_000, v, now, t);
    if let Some(u) = user_id {
        let pk = private_key(u, f);
        reveal_strlit(" ");
        assert(pk.len() > f.len());
        law_write_keeps_other_keys(store, f, now + age * 1_000_000_000, v, now, pk);
        assert(live_values(store2, pk, t) == live_values(store, pk, t));
        assert(live_values(store2, pk, t) =~= Seq::<JsonModel>::empty());
    }
    assert(seq![v].drop_last() =~= Seq::<JsonModel>::empty());
    assert(seq![v] + Seq::<JsonModel>::empty() =~= seq![v]);
    assert(merge_values(seq![v]) == v);
}

// ---------------------------------------------------------------------------------------------
// A field with a selection of plain subfields, cached and read back.

/// The subfields selected by name for the members `es`: one field per member, named by its key,
/// without alias, parameters or subfields.
pub open spec fn leaf_fields(es: Seq<(Seq<char>, JsonModel)>) -> Seq<FieldModel> {
    Seq::new(
        es.len(),
        |i: int| FieldModel::Field { alias: None, name: es[i].0, parameters: Seq::empty(), fields: Seq::empty() },
    )
}

/// The document `{...}` with `f` as its one field, in a query.
pub open spec fn field_query(f: FieldModel) -> DocumentModel {
    DocumentModel {
        operations: seq![
            OperationModel {
                operation_type: OperationType::Query,
                name: None,
                variables: Seq::empty(),
                fields: seq![f],
            },
        ],
        fragment_definitions: Seq::empty(),
    }
}

proof fn lemma_name_count_zero(fs: Seq<FieldModel>, n: Seq<char>)
    requires
        forall|j: int| 0 <= j < fs.len() ==> !plain_named(#[trigger] fs[j], n),
    ensures
        name_count(fs, n) == 0,
    decreases fs.len(),
{
    if fs.len() > 0 {
        assert forall|j: int| 0 <= j < fs.drop_last().len() implies !plain_named(#[trigger] fs.drop_last()[j], n) by {
            assert(fs.drop_last()[j] == fs[j]);
        }
        lemma_name_count_zero(fs.drop_last(), n);
    }
}

proof fn lemma_name_count_distinct(fs: Seq<FieldModel>, n: Seq<char>)
    requires
        forall|a: int, b: int| 0 <= a < b < fs.len() ==> (#[trigger] fs[a]).name_of() != (#[trigger] fs[b]).name_of(),
    ensures
        name_count(fs, n) <= 1,
    decreases fs.len(),
{
    if fs.len() > 0 {
        let init = fs.drop_last();
        assert forall|a: int, b: int| 0 <= a < b < init.len() implies (#[trigger] init[a]).name_of() != (#[trigger] init[b]).name_of() by {
            assert(init[a] == fs[a] && init[b] == fs[b]);
        }
        lemma_name_count_distinct(init, n);
        if plain_named(fs.last(), n) {
            assert forall|j: int| 0 <= j < init.len() implies !plain_named(#[trigger] init[j], n) by {
                assert(init[j] == fs[j]);
                assert(fs[j].name_of() != fs[fs.len() - 1].name_of());
            }
            lemma_name_count_zero(init, n);
        }
    }
}

proof fn lemma_leaf_fields_distinct(es: Seq<(Seq<char>, JsonModel)>)
    requires
        keys_sorted(es),
    ensures
        forall|a: int, b: int| 0 <= a < b < leaf_fields(es).len() ==> (#[trigger] leaf_fields(es)[a]).name_of() != (#[trigger] leaf_fields(es)[b]).name_of(),
        counts_fit(leaf_fields(es)),
{
    let fs = leaf_fields(es);
    assert forall|a: int, b: int| 0 <= a < b < fs.len() implies (#[trigger] fs[a]).name_of() != (#[trigger] fs[b]).name_of() by {
        assert(str_less(es[a].0, es[b].0));
        crate::text::lemma_str_less_order(es[a].0, es[a].0, es[a].0);
    }
    assert forall|i: int| 0 <= i < fs.len() && (#[trigger] fs[i]).parameters_of().len() == 0 implies name_count(fs, fs[i].name_of()) <= 127 by {
        lemma_name_count_distinct(fs, fs[i].name_of());
    }
}

proof fn lemma_leaf_paths(es: Seq<(Seq<char>, JsonModel)>, i: int, st: Seq<FieldModel>, acc: Seq<Seq<FieldModel>>)
    requires
        acc.len() > 0,
    ensures
        collect_paths_list(leaf_fields(es), i, st, acc) == acc,
    decreases es.len() - i,
{
    let fs = leaf_fields(es);
    if 0 <= i < fs.len() {
        let f = fs[i];
        assert(collect_paths_list(Seq::<FieldModel>::empty(), 0, st.push(f), acc) == acc);
        assert(collect_paths(f, st, acc) == acc);
        lemma_leaf_paths(es, i + 1, st, acc);
    }
}

/// Matching the plain subfields against the members, from position `i` on: each takes its own
/// member, and all are answered.
proof fn lemma_leaf_match(
    es: Seq<(Seq<char>, JsonModel)>,
    i: int,
    st: Seq<Seq<char>>,
    lookup: spec_fn(Seq<char>) -> Option<JsonModel>,
)
    requires
        keys_sorted(es),
        forall|j: int| 0 <= j < es.len() ==> leaf_value(#[trigger] es[j].1),
        0 <= i <= es.len(),
    ensures
        match_subfields(
            st,
            leaf_fields(es),
            i,
            es.subrange(i, es.len() as int),
            es.subrange(0, i),
            Seq::empty(),
            lookup,
        ) == Some((st, es, Seq::<FieldModel>::empty())),
    decreases es.len() - i,
{
    let fs = leaf_fields(es);
    lemma_leaf_fields_distinct(es);
    if i == es.len() {
        assert(es.subrange(0, i) =~= es);
    } else {
        let s = fs[i];
        let (k, v) = es[i];
        let cm = es.subrange(i, es.len() as int);
        assert(!named_later(fs, i, k)) by {
            if named_later(fs, i, k) {
                let j = choose|j: int| i < j < fs.len() && plain_named(#[trigger] fs[j], k);
                assert(fs[i].name_of() != fs[j].name_of());
            }
        }
        assert(keys_sorted(cm)) by {
            assert forall|a: int, b: int| 0 <= a < b < cm.len() implies str_less(#[trigger] cm[a].0, #[trigger] cm[b].0) by {
                assert(cm[a] == es[a + i] && cm[b] == es[b + i]);
            }
        }
        assert(cm[0] == es[i]);
        lemma_key_unique(cm, k, 0);
        assert(get_member(cm, k) == Some(v));
        assert(remove_member(cm, k) =~= es.subrange(i + 1, es.len() as int));
        assert(match_subfields(Seq::<Seq<char>>::empty(), Seq::<FieldModel>::empty(), 0, Seq::empty(), Seq::empty(), Seq::empty(), lookup) is Some);
        assert(s.subfields_of().len() == 0);
        assert(leaf_value(v));
        assert(match_field(st, s, Some(v), lookup) == Some((st, None::<FieldModel>, Some(v))));
        let pre = es.subrange(0, i);
        assert forall|j: int| 0 <= j < pre.len() implies str_less(#[trigger] pre[j].0, k) by {
            assert(pre[j] == es[j]);
        }
        lemma_put_member_last(pre, k, v);
        assert(pre.push((k, v)) =~= es.subrange(0, i + 1));
        assert(s.alias_of() == k);
        lemma_leaf_match(es, i + 1, st, lookup);
    }
}

/// The writes that the response `{"a": {...es}}` to the query with the one field `f` (whose
/// response key is `a` and whose subfields are the plain fields of `es`) makes, with a hint of
/// age `age` on `a`, public or (for a user) private.
#[verifier::rlimit(50)]
proof fn lemma_field_writes(
    f: FieldModel,
    es: Seq<(Seq<char>, JsonModel)>,
    age: u16,
    scope: Option<CacheScope>,
    user_id: Option<Seq<char>>,
)
    requires
        f is Field,
        f.subfields_of() == leaf_fields(es),
        keys_sorted(es),
        forall|j: int| 0 <= j < es.len() ==> leaf_value(#[trigger] es[j].1),
        get_member(es, f.alias_of()) is None,
        scope == Some(CacheScope::PRIVATE) ==> user_id is Some,
    ensures
        cache_writes(
            compressed_hints(
                JsonModel::Object(seq![(f.alias_of(), JsonModel::Object(es))]),
                seq![HintDtoModel { path: seq![f.alias_of()], max_age: Some(age), scope }],
            ),
            field_query(f).operations[0],
            user_id,
        ) == (seq![(scoped_key(settled_scope(scope), user_id, field_key(f))->Some_0, age, JsonModel::Object(es))], true),
{
    let a = f.alias_of();
    let obj = JsonModel::Object(es);
    let data = JsonModel::Object(seq![(a, obj)]);
    let op = field_query(f).operations[0];
    let hm = HintModel { path: seq![a], scope: settled_scope(scope), max_age: age };
    lemma_single_field_compression(a, obj, age, scope);
    let ch = seq![(data, hm)];
    // the path of the hint leads to `f`
    assert(op.fields[0] == f);
    assert(seq![a].drop_first() =~= Seq::<Seq<char>>::empty());
    assert(crate::graphql::parser::transform::field_traverse(f, seq![a].drop_first()) == Some((Seq::<FieldModel>::empty(), f)));
    assert(operation_traverse(op.fields, seq![a], 0) == Some((Seq::<FieldModel>::empty(), f)));
    // the paths to cache: `f` alone
    let acc1: Seq<Seq<FieldModel>> = if f.parameters_of().len() > 0 { seq![seq![f]] } else { Seq::empty() };
    let acc2: Seq<Seq<FieldModel>> = if acc1.len() == 0 { acc1.push(seq![seq![f][0]]) } else { acc1 };
    assert(acc2 =~= seq![seq![f]]);
    lemma_leaf_paths(es, 0, seq![f], seq![seq![f]]);
    assert(f->Field_fields == leaf_fields(es));
    assert(collect_paths(f, Seq::empty(), Seq::empty()) == seq![seq![f]]);
    assert(sort_paths(Seq::<Seq<FieldModel>>::empty()) == Seq::<Seq<FieldModel>>::empty());
    assert(path_insert_pos(Seq::<Seq<FieldModel>>::empty(), seq![f]) == 0);
    assert(Seq::<Seq<FieldModel>>::empty().insert(0, seq![f]) =~= seq![seq![f]]);
    assert(seq![seq![f]].drop_last() =~= Seq::<Seq<FieldModel>>::empty());
    assert(seq![seq![f]].last() == seq![f]);
    assert(sort_paths(seq![seq![f]]) =~= seq![seq![f]]);
    // the value taken out and renamed
    assert(json_path(seq![f]) =~= seq![a]);
    assert(seq![(a, obj)][0].0 == a);
    lemma_key_unique(seq![(a, obj)], a, 0);
    assert(get_member(seq![(a, obj)], a) == Some(obj));
    assert(crate::graphql::json::extract_mut_spec(data, seq![a]).1 == Some(obj));
    assert(dealias_field_spec(obj, f) == obj);
    assert(dealias_path(obj, seq![f]) == Some(obj));
    assert(seq![f].map_values(|x: FieldModel| field_key(x)) =~= seq![field_key(f)]);
    assert(path_key(seq![f]) == field_key(f));
    assert(seq![seq![f]].drop_first() =~= Seq::<Seq<FieldModel>>::empty());
    assert(seq![seq![f]][0] == seq![f]);
    let vals = seq![(field_key(f), obj)];
    assert(cache_values_from(Seq::<Seq<FieldModel>>::empty(), crate::graphql::json::extract_mut_spec(data, seq![a]).0) == Some(Seq::<(Seq<char>, JsonModel)>::empty()));
    assert(vals + Seq::<(Seq<char>, JsonModel)>::empty() =~= vals);
    assert(cache_values_from(seq![seq![f]], data) == Some(vals + Seq::<(Seq<char>, JsonModel)>::empty()));
    assert(cache_values(Seq::empty(), f, data) == Some(vals));
    // the writes
    let key = scoped_key(settled_scope(scope), user_id, field_key(f))->Some_0;
    assert(scoped_key(settled_scope(scope), user_id, field_key(f)) is Some);
    assert(vals.drop_first() =~= Seq::<(Seq<char>, JsonModel)>::empty());
    assert(scoped_writes(Seq::<(Seq<char>, JsonModel)>::empty(), hm, user_id) == Seq::<(Seq<char>, u16, JsonModel)>::empty());
    assert(vals[0] == (field_key(f), obj));
    assert(seq![(key, age, obj)] + Seq::<(Seq<char>, u16, JsonModel)>::empty() =~= seq![(key, age, obj)]);
    assert(scoped_writes(vals, hm, user_id) =~= seq![(key, age, obj)]);
    assert(ch.drop_first() =~= Seq::<(JsonModel, HintModel)>::empty());
    assert(ch[0] == (data, hm));
    assert(cache_writes(Seq::<(JsonModel, HintModel)>::empty(), op, user_id) == (Seq::<(Seq<char>, u16, JsonModel)>::empty(), true));
    let w = cache_writes(ch, op, user_id);
    assert(w.0 =~= seq![(key, age, obj)]);
}

/// What the cache serves at `t` for the key of a field, after the value was written under the
/// scoped key of the field, where nothing was live under the field's keys for the user.
#[verifier::rlimit(50)]
proof fn lemma_scoped_write_read(
    store: Seq<(Seq<char>, Seq<(int, JsonModel)>)>,
    fk: Seq<char>,
    es: Seq<(Seq<char>, JsonModel)>,
    age: u16,
    scope: Option<CacheScope>,
    user_id: Option<Seq<char>>,
    now: int,
    t: int,
)
    requires
        keys_distinct(store),
        keys_sorted(es),
        scope == Some(CacheScope::PRIVATE) ==> user_id is Some,
        now <= t < now + age * 1_000_000_000,
        live_values(store, fk, t).len() == 0,
        user_id matches Some(u) ==> live_values(store, private_key(u, fk), t).len() == 0,
    ensures
        cached_item(
            store_insert(
                store,
                scoped_key(settled_scope(scope), user_id, fk)->Some_0,
                now + age * 1_000_000_000,
                JsonModel::Object(es),
                now,
            ),
            fk,
            user_id,
            t,
        ) == Some(JsonModel::Object(es)),
{
    let obj = JsonModel::Object(es);
    let key = scoped_key(settled_scope(scope), user_id, fk)->Some_0;
    let store2 = store_insert(store, key, now + age * 1_000_000_000, obj, now);
    law_write_alone_is_live(store, key, now + age * 1_000_000_000, obj, now, t);
    reveal_strlit(" ");
    if settled_scope(scope) == CacheScope::PUBLIC {
        assert(key == fk);
        if let Some(u) = user_id {
            let pk = private_key(u, fk);
            assert(pk.len() > fk.len());
            law_write_keeps_other_keys(store, key, now + age * 1_000_000_000, obj, now, pk);
            assert(live_values(store2, pk, t) =~= Seq::<JsonModel>::empty());
            assert(seq![obj] + Seq::<JsonModel>::empty() =~= seq![obj]);
        } else {
            assert(seq![obj] + Seq::<JsonModel>::empty() =~= seq![obj]);
        }
    } else {
        let u = user_id->Some_0;
        assert(key == private_key(u, fk));
        assert(key.len() > fk.len());
        law_write_keeps_other_keys(store, key, now + age * 1_000_000_000, obj, now, fk);
        assert(live_values(store2, fk, t) =~= Seq::<JsonModel>::empty());
        assert(Seq::<JsonModel>::empty() + seq![obj] =~= seq![obj]);
    }
    assert(seq![obj].drop_last() =~= Seq::<JsonModel>::empty());
    lemma_merge_members_append(Seq::empty(), es);
    assert(Seq::<(Seq<char>, JsonModel)>::empty() + es =~= es);
    assert(merge_values(Seq::<JsonModel>::empty()) == JsonModel::Object(Seq::empty()));
    assert(seq![obj].last() == obj);
    assert(merge_values(seq![obj]) == merge(JsonModel::Object(Seq::empty()), obj));
    assert(merge_values(seq![obj]) == obj);
}

/// Once the response to a query of one field `f` whose selection is plain subfields (`f` with
/// any alias and parameters) has been cached under a hint of a positive age on `f`, public or for
/// the asking user private, the same query asked again by that user before the value expires is
/// answered from the cache with the same data, where nothing else was live under the field's keys
/// for the user. The response's data is `{"a": {...es}}`, `a` the response key of `f` and `es`
/// the members, in key order, answering the subfields with leaf values (none under `a` itself).
#[verifier::rlimit(50)]
pub proof fn law_cached_selection_answers_query(
    store: Seq<(Seq<char>, Seq<(int, JsonModel)>)>,
    f: FieldModel,
    es: Seq<(Seq<char>, JsonModel)>,
    age: u16,
    scope: Option<CacheScope>,
    user_id: Option<Seq<char>>,
    now: int,
    t: int,
)
    requires
        keys_distinct(store),
        f is Field,
        f.subfields_of() == leaf_fields(es),
        es.len() > 0,
        keys_sorted(es),
        forall|j: int| 0 <= j < es.len() ==> leaf_value(#[trigger] es[j].1),
        get_member(es, f.alias_of()) is None,
        scope == Some(CacheScope::PRIVATE) ==> user_id is Some,
        now <= t < now + age * 1_000_000_000,
        live_values(store, field_key(f), t).len() == 0,
        user_id matches Some(u) ==> live_values(store, private_key(u, field_key(f)), t).len() == 0,
    ensures
        ({
            let data = JsonModel::Object(seq![(f.alias_of(), JsonModel::Object(es))]);
            let hints = seq![HintDtoModel { path: seq![f.alias_of()], max_age: Some(age), scope }];
            let w = cache_writes(compressed_hints(data, hints), field_query(f).operations[0], user_id);
            &&& w.1
            &&& plan_spec(field_query(f), lookup_of(apply_writes(store, w.0, now), user_id, t)) == Some(
                Ok::<PlanModel, ()>(PlanModel::Cached(data)),
            )
        }),
{
    let a = f.alias_of();
    let obj = JsonModel::Object(es);
    let data = JsonModel::Object(seq![(a, obj)]);
    let doc = field_query(f);
    let op = doc.operations[0];
    let fk = field_key(f);
    lemma_field_writes(f, es, age, scope, user_id);
    let key = scoped_key(settled_scope(scope), user_id, fk)->Some_0;
    let w0 = seq![(key, age, obj)];
    let store2 = store_insert(store, key, now + age * 1_000_000_000, obj, now);
    assert(w0[0] == (key, age, obj));
    assert(w0.drop_first() =~= Seq::<(Seq<char>, u16, JsonModel)>::empty());
    assert(apply_writes(store2, Seq::<(Seq<char>, u16, JsonModel)>::empty(), now) == store2);
    assert(apply_writes(store, w0, now) == store2);
    lemma_scoped_write_read(store, fk, es, age, scope, user_id, now, t);
    let lk = lookup_of(store2, user_id, t);
    assert(lk(fk) == Some(obj));
    // the field is answered from the cached object
    lemma_leaf_fields_distinct(es);
    lemma_leaf_match(es, 0, seq![fk], lk);
    assert(es.subrange(0, es.len() as int) =~= es);
    assert(es.subrange(0, 0) =~= Seq::<(Seq<char>, JsonModel)>::empty());
    assert(f->Field_fields == leaf_fields(es));
    assert(Seq::<Seq<char>>::empty().push(fk) =~= seq![fk]);
    assert(seq![fk].drop_last() =~= Seq::<Seq<char>>::empty());
    assert(match_field(Seq::empty(), f, Some(obj), lk) == Some((Seq::<Seq<char>>::empty(), None::<FieldModel>, Some(obj))));
    assert(match_top(f, lk) == Some((None::<FieldModel>, Some(obj))));
    // the plan
    assert(put_member(Seq::empty(), a, obj) =~= seq![(a, obj)]);
    assert(op.fields[0] == f);
    assert(op.fields.drop_first() =~= Seq::<FieldModel>::empty());
    assert(plan_fields(Seq::<FieldModel>::empty(), seq![(a, obj)], Seq::<FieldModel>::empty(), lk) == Some((seq![(a, obj)], Seq::<FieldModel>::empty())));
    assert(plan_fields(op.fields, Seq::empty(), Seq::empty(), lk) == Some((seq![(a, obj)], Seq::<FieldModel>::empty())));
    assert(expand_operation_spec(op, Seq::empty()) == Expansion::Fields(op.fields));
    assert(doc.operations.drop_first() =~= Seq::<OperationModel>::empty());
    assert(doc.operations[0] == op);
    assert(plan_operations(Seq::<OperationModel>::empty(), Seq::empty(), seq![(a, obj)], Seq::empty(), lk) == Some(
        Ok::<(Seq<(Seq<char>, JsonModel)>, Seq<OperationModel>), ()>((seq![(a, obj)], Seq::<OperationModel>::empty())),
    ));
    assert(plan_operations(doc.operations, Seq::empty(), Seq::empty(), Seq::empty(), lk) == Some(
        Ok::<(Seq<(Seq<char>, JsonModel)>, Seq<OperationModel>), ()>((seq![(a, obj)], Seq::<OperationModel>::empty())),
    ));
    assert(all_queries(doc.operations));
}

/// A value cached privately for one user is not served to another (user ids without spaces),
/// where nothing else was live under the field's keys for that other user.
pub proof fn law_private_response_not_served_to_others(
    store: Seq<(Seq<char>, Seq<(int, JsonModel)>)>,
    fk: Seq<char>,
    obj: JsonModel,
    age: u16,
    u1: Seq<char>,
    u2: Seq<char>,
    now: int,
    t: int,
)
    requires
        keys_distinct(store),
        u1 != u2,
        !u1.contains(' '),
        !u2.contains(' '),
        live_values(store, fk, t).len() == 0,
        live_values(store, private_key(u2, fk), t).len() == 0,
    ensures
        lookup_of(store_insert(store, private_key(u1, fk), now + age * 1_000_000_000, obj, now), Some(u2), t)(fk) is None,
{
    let key = private_key(u1, fk);
    let store2 = store_insert(store, key, now + age * 1_000_000_000, obj, now);
    reveal_strlit(" ");
    assert(key.len() > fk.len());
    law_write_keeps_other_keys(store, key, now + age * 1_000_000_000, obj, now, fk);
    law_private_keys_differ(u1, u2, fk, fk);
    law_write_keeps_other_keys(store, key, now + age * 1_000_000_000, obj, now, private_key(u2, fk));
    assert(live_values(store2, fk, t).len() == 0);
    assert(live_values(store2, private_key(u2, fk), t).len() == 0);
}

} // verus!
