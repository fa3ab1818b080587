//! Comparisons, lookups and rewrites on parsed operations.

use vstd::prelude::*;
use crate::text::{str_eq, owned, strings_view};
use super::model::{ArgModel, ValueModel, FieldModel, OperationModel, FragmentModel, DocumentModel};
use super::{
    Field, Parameter, ParameterValue, ParameterField, Variable, Operation, Document,
    FragmentDefinition, Error, value_model, pfield_model, param_model, params_model, pfields_model,
    values_model, field_model, fields_model, operation_model,
    operations_model, fragment_model, fragments_model, document_model, lemma_object_model, lemma_list_model, lemma_field_model,
};

verus! {

// ---------------------------------------------------------------------------------------------
// Equality of parameter values.

fn value_eq(a: &ParameterValue, b: &ParameterValue) -> (r: bool)
    ensures
        r == (value_model(*a) == value_model(*b)),
    decreases a,
{
    match (a, b) {
        (ParameterValue::Nil, ParameterValue::Nil) => true,
        (ParameterValue::Scalar(x), ParameterValue::Scalar(y)) => str_eq(x, y),
        (ParameterValue::Variable(x), ParameterValue::Variable(y)) => str_eq(x, y),
        (ParameterValue::Object(x), ParameterValue::Object(y)) => {
            proof {
                lemma_object_model(*x);
                lemma_object_model(*y);
            }
            object_fields_eq(x, y)
        },
        (ParameterValue::List(x), ParameterValue::List(y)) => {
            proof {
                lemma_list_model(*x);
                lemma_list_model(*y);
            }
            values_eq(x, y)
        },
        _ => false,
    }
}

fn object_fields_eq(x: &Vec<ParameterField>, y: &Vec<ParameterField>) -> (r: bool)
    ensures
        r == (pfields_model(x@) == pfields_model(y@)),
    decreases x,
{
    if x.len() != y.len() {
        assert(pfields_model(x@).len() != pfields_model(y@).len());
        return false;
    }
    let mut k: usize = 0;
    while k < x.len()
        invariant
            k <= x@.len(),
            x@.len() == y@.len(),
            forall|m: int| 0 <= m < k ==> pfield_model(#[trigger] x@[m]) == pfield_model(y@[m]),
        decreases x@.len() - k,
    {
        if !(str_eq(x[k].name, y[k].name) && value_eq(&x[k].value, &y[k].value)) {
            assert(pfields_model(x@)[k as int] != pfields_model(y@)[k as int]);
            return false;
        }
        k = k + 1;
    }
    assert(pfields_model(x@) =~= pfields_model(y@));
    true
}

fn values_eq(x: &Vec<ParameterValue>, y: &Vec<ParameterValue>) -> (r: bool)
    ensures
        r == (values_model(x@) == values_model(y@)),
    decreases x,
{
    if x.len() != y.len() {
        assert(values_model(x@).len() != values_model(y@).len());
        return false;
    }
    let mut k: usize = 0;
    while k < x.len()
        invariant
            k <= x@.len(),
            x@.len() == y@.len(),
            forall|m: int| 0 <= m < k ==> value_model(#[trigger] x@[m]) == value_model(y@[m]),
        decreases x@.len() - k,
    {
        if !value_eq(&x[k], &y[k]) {
            assert(values_model(x@)[k as int] != values_model(y@)[k as int]);
            return false;
        }
        k = k + 1;
    }
    assert(values_model(x@) =~= values_model(y@));
    true
}

/// Whether two parameters have the same name and the same value.
pub fn parameter_eq(a: &Parameter, b: &Parameter) -> (r: bool)
    ensures
        r == (param_model(*a) == param_model(*b)),
{
    str_eq(a.name, b.name) && value_eq(&a.value, &b.value)
}

// ---------------------------------------------------------------------------------------------
// Fields with the same name and parameters.

/// `x` is one of the parameters `b`.
pub open spec fn param_in(x: ArgModel, b: Seq<ArgModel>) -> bool {
    exists|j: int| 0 <= j < b.len() && b[j] == x
}

/// Every parameter of `a` is also a parameter of `b`.
pub open spec fn params_subsumed(a: Seq<ArgModel>, b: Seq<ArgModel>) -> bool {
    forall|i: int| 0 <= i < a.len() ==> param_in(#[trigger] a[i], b)
}

/// `a` and `b` have as many parameters, and each parameter of `a` is one of `b`.
pub open spec fn same_parameters(a: FieldModel, b: FieldModel) -> bool {
    &&& a.parameters_of().len() == b.parameters_of().len()
    &&& params_subsumed(a.parameters_of(), b.parameters_of())
}

/// Two fields (neither a fragment spread) with the same name and the same parameters.
pub open spec fn same_field(a: FieldModel, b: FieldModel) -> bool {
    &&& a is Field
    &&& b is Field
    &&& a.name_of() == b.name_of()
    &&& same_parameters(a, b)
}

fn params_subsumed_exec(a: &[Parameter], b: &[Parameter]) -> (r: bool)
    ensures
        r == params_subsumed(params_model(a@), params_model(b@)),
{
    let ghost am = params_model(a@);
    let ghost bm = params_model(b@);
    let mut i: usize = 0;
    while i < a.len()
        invariant
            i <= a@.len(),
            am == params_model(a@),
            bm == params_model(b@),
            forall|m: int| 0 <= m < i ==> param_in(#[trigger] am[m], bm),
        decreases a@.len() - i,
    {
        let mut j: usize = 0;
        let mut found = false;
        while j < b.len() && !found
            invariant
                j <= b@.len(),
                i < a@.len(),
                am == params_model(a@),
                bm == params_model(b@),
                found ==> param_in(am[i as int], bm),
                !found ==> forall|jj: int| 0 <= jj < j ==> am[i as int] != #[trigger] bm[jj],
            decreases b@.len() - j + (if found { 0int } else { 1int }),
        {
            if parameter_eq(&a[i], &b[j]) {
                found = true;
                assert(am[i as int] == bm[j as int]);
            } else {
                j = j + 1;
            }
        }
        if !found {
            assert(!param_in(am[i as int], bm));
            assert(!params_subsumed(am, bm));
            return false;
        }
        i = i + 1;
    }
    true
}

impl<'a> Field<'a> {
    /// Whether both are fields (not fragment spreads) with the same name and parameters.
    pub fn is_same_field(&self, field: &Field<'a>) -> (r: bool)
        ensures
            r == same_field(field_model(*self), field_model(*field)),
    {
        match (self, field) {
            (Field::Field { name, parameters, .. }, Field::Field { name: name2, parameters: parameters2, .. }) => {
                str_eq(name, name2) && parameters.len() == parameters2.len() && params_subsumed_exec(
                    parameters.as_slice(),
                    field.get_parameters(),
                )
            },
            _ => false,
        }
    }

    pub(crate) fn has_same_parameters(&self, field: &Field<'a>) -> (r: bool)
        ensures
            r == same_parameters(field_model(*self), field_model(*field)),
    {
        if self.get_parameters().len() != field.get_parameters().len() {
            false
        } else {
            params_subsumed_exec(self.get_parameters(), field.get_parameters())
        }
    }
}

// ---------------------------------------------------------------------------------------------
// Variables that parameters refer to.

/// The names of the variables that are the values of the first `n` parameters `ps`.
pub open spec fn variables_before(ps: Seq<ArgModel>, n: int) -> Set<Seq<char>> {
    Set::new(
        |v: Seq<char>| exists|k: int| 0 <= k < n && #[trigger] ps[k].value == ValueModel::Variable(v),
    )
}

/// The names of the variables that are the values of the parameters `ps`.
pub open spec fn params_variables(ps: Seq<ArgModel>) -> Set<Seq<char>> {
    variables_before(ps, ps.len() as int)
}

/// The variables that a field and its subfields use as parameter values.
pub open spec fn field_variables(f: FieldModel) -> Set<Seq<char>>
    decreases f,
{
    match f {
        FieldModel::Field { parameters, fields, .. } => params_variables(parameters).union(
            fields_variables(fields),
        ),
        FieldModel::Fragment { .. } => Set::empty(),
    }
}

/// The variables that some of the fields use as parameter values.
pub open spec fn fields_variables(fs: Seq<FieldModel>) -> Set<Seq<char>>
    decreases fs,
{
    if fs.len() == 0 {
        Set::empty()
    } else {
        fields_variables(fs.subrange(0, fs.len() - 1)).union(field_variables(fs[fs.len() - 1]))
    }
}

/// The set of the strings in `v`.
pub open spec fn string_set(v: Seq<String>) -> Set<Seq<char>> {
    Set::new(|x: Seq<char>| exists|k: int| 0 <= k < v.len() && v[k]@ == x)
}

/// No string occurs twice in `v`.
pub open spec fn distinct_strings(v: Seq<String>) -> bool {
    forall|i: int, j: int| 0 <= i < j < v.len() ==> v[i]@ != v[j]@
}

/// Adds `s` to `acc` unless it is there already.
fn insert_unique(acc: &mut Vec<String>, s: &str)
    requires
        distinct_strings(old(acc)@),
    ensures
        distinct_strings(final(acc)@),
        string_set(final(acc)@) == string_set(old(acc)@).insert(s@),
{
    let mut k: usize = 0;
    while k < acc.len()
        invariant
            k <= acc@.len(),
            acc@ == old(acc)@,
            distinct_strings(acc@),
            forall|m: int| 0 <= m < k ==> acc@[m]@ != s@,
        decreases acc@.len() - k,
    {
        if str_eq(acc[k].as_str(), s) {
            assert(string_set(acc@) =~= string_set(acc@).insert(s@));
            return;
        }
        k = k + 1;
    }
    let ghost before = acc@;
    acc.push(owned(s));
    assert(string_set(acc@) =~= string_set(before).insert(s@)) by {
        assert forall|x: Seq<char>| string_set(before).insert(s@).contains(x) implies string_set(acc@).contains(x) by {
            if x == s@ {
                assert(acc@[before.len() as int]@ == x);
            } else {
                let m = choose|m: int| 0 <= m < before.len() && before[m]@ == x;
                assert(acc@[m]@ == x);
            }
        }
    }
}

/// Adds to `acc` the variables that the field and its subfields use.
fn collect_field_variables(f: &Field, acc: &mut Vec<String>)
    requires
        distinct_strings(old(acc)@),
    ensures
        distinct_strings(final(acc)@),
        string_set(final(acc)@) == string_set(old(acc)@).union(field_variables(field_model(*f))),
    decreases f, 1int,
{
    proof {
        lemma_field_model(*f);
    }
    match f {
        Field::Field { parameters, fields, .. } => {
            let ghost start = string_set(acc@);
            let ghost pm = params_model(parameters@);
            let mut k: usize = 0;
            while k < parameters.len()
                invariant
                    k <= parameters@.len(),
                    pm == params_model(parameters@),
                    distinct_strings(acc@),
                    string_set(acc@) == start.union(variables_before(pm, k as int)),
                decreases parameters@.len() - k,
            {
                let ghost before = string_set(acc@);
                match &parameters[k].value {
                    ParameterValue::Variable(v) => {
                        insert_unique(acc, v);
                    },
                    _ => {},
                }
                assert(variables_before(pm, k + 1) =~= variables_before(pm, k as int).union(
                    match pm[k as int].value {
                        ValueModel::Variable(v) => Set::empty().insert(v),
                        _ => Set::empty(),
                    },
                )) by {
                    assert forall|x: Seq<char>| variables_before(pm, k + 1).contains(x) implies
                        variables_before(pm, k as int).contains(x) || pm[k as int].value == ValueModel::Variable(x) by {
                        let m = choose|m: int| 0 <= m < k + 1 && #[trigger] pm[m].value == ValueModel::Variable(x);
                        if m < k {
                            assert(variables_before(pm, k as int).contains(x));
                        }
                    }
                }
                k = k + 1;
                assert(string_set(acc@) =~= start.union(variables_before(pm, k as int)));
            }
            collect_fields_variables(fields, acc);
            assert(string_set(acc@) =~= string_set(old(acc)@).union(field_variables(field_model(*f))));
        },
        Field::Fragment { .. } => {
            assert(string_set(acc@) =~= string_set(old(acc)@).union(field_variables(field_model(*f))));
        },
    }
}

/// Adds to `acc` the variables that the fields and their subfields use.
fn collect_fields_variables(fields: &Vec<Field>, acc: &mut Vec<String>)
    requires
        distinct_strings(old(acc)@),
    ensures
        distinct_strings(final(acc)@),
        string_set(final(acc)@) == string_set(old(acc)@).union(fields_variables(fields_model(fields@))),
    decreases fields, 0int,
{
    let ghost start = string_set(acc@);
    let ghost fm = fields_model(fields@);
    let mut k: usize = 0;
    assert(fields_variables(fm.take(0)) =~= Set::<Seq<char>>::empty());
    while k < fields.len()
        invariant
            k <= fields@.len(),
            fm == fields_model(fields@),
            distinct_strings(acc@),
            string_set(acc@) == start.union(fields_variables(fm.take(k as int))),
        decreases fields@.len() - k,
    {
        collect_field_variables(&fields[k], acc);
        assert(fm.take(k + 1).subrange(0, k as int) =~= fm.take(k as int));
        k = k + 1;
        assert(string_set(acc@) =~= start.union(fields_variables(fm.take(k as int))));
    }
    assert(fm.take(fields@.len() as int) =~= fm);
}

/// The names of the variables that the fields (and their subfields) use as parameter values,
/// each once.
pub fn get_variables(fields: &Vec<Field>) -> (r: Vec<String>)
    ensures
        distinct_strings(r@),
        string_set(r@) == fields_variables(fields_model(fields@)),
{
    let mut acc: Vec<String> = Vec::new();
    assert(string_set(acc@) =~= Set::<Seq<char>>::empty());
    collect_fields_variables(fields, &mut acc);
    assert(string_set(acc@) =~= fields_variables(fields_model(fields@)));
    acc
}

// ---------------------------------------------------------------------------------------------
// Paths to the subfields that have parameters.

/// The models of the fields that `v` refers to.
pub open spec fn refs_model(v: Seq<&Field>) -> Seq<FieldModel> {
    v.map_values(|f: &Field| field_model(*f))
}

pub open spec fn paths_model(r: Seq<Vec<&Field>>) -> Seq<Seq<FieldModel>> {
    r.map_values(|v: Vec<&Field>| refs_model(v@))
}

/// The paths from a field down to each of its descendants that has parameters, in depth-first
/// order, a descendant's own path before the paths below it.
pub open spec fn children_paths(f: FieldModel) -> Seq<Seq<FieldModel>>
    decreases f,
{
    match f {
        FieldModel::Field { fields, .. } => children_paths_list(fields),
        FieldModel::Fragment { .. } => Seq::empty(),
    }
}

pub open spec fn children_paths_list(fs: Seq<FieldModel>) -> Seq<Seq<FieldModel>>
    decreases fs,
{
    if fs.len() == 0 {
        Seq::empty()
    } else {
        let x = fs[fs.len() - 1];
        children_paths_list(fs.subrange(0, fs.len() - 1)) + (if x.parameters_of().len() > 0 {
            seq![seq![x]]
        } else {
            Seq::empty()
        }) + children_paths(x).map_values(|p: Seq<FieldModel>| seq![x] + p)
    }
}

fn children_with_parameters_of_list<'b, 'a>(fields: &'b Vec<Field<'a>>) -> (r: Vec<Vec<&'b Field<'a>>>)
    ensures
        paths_model(r@) == children_paths_list(fields_model(fields@)),
    decreases fields, 0int,
{
    let ghost fm = fields_model(fields@);
    let mut result: Vec<Vec<&'b Field<'a>>> = Vec::new();
    let mut k: usize = 0;
    assert(paths_model(result@) =~= children_paths_list(fm.take(0)));
    while k < fields.len()
        invariant
            k <= fields@.len(),
            fm == fields_model(fields@),
            paths_model(result@) == children_paths_list(fm.take(k as int)),
        decreases fields@.len() - k,
    {
        let subfield = &fields[k];
        let ghost before = paths_model(result@);
        let ghost x = fm[k as int];
        if subfield.has_parameters() {
            let mut single: Vec<&'b Field<'a>> = Vec::new();
            single.push(subfield);
            result.push(single);
            assert(refs_model(single@) =~= seq![x]);
        }
        let ghost mid = paths_model(result@);
        assert(mid =~= before + (if x.parameters_of().len() > 0 {
            seq![seq![x]]
        } else {
            Seq::empty()
        }));
        let sub = subfield.children_with_parameters();
        let ghost subm = paths_model(sub@);
        let mut m: usize = 0;
        while m < sub.len()
            invariant
                m <= sub@.len(),
                subm == paths_model(sub@),
                subm == children_paths(x),
                x == field_model(*subfield),
                paths_model(result@) == mid + subm.take(m as int).map_values(
                    |p: Seq<FieldModel>| seq![x] + p,
                ),
            decreases sub@.len() - m,
        {
            let mut path: Vec<&'b Field<'a>> = Vec::new();
            path.push(subfield);
            let inner = &sub[m];
            let mut q: usize = 0;
            while q < inner.len()
                invariant
                    q <= inner@.len(),
                    refs_model(path@) == seq![x] + refs_model(inner@).take(q as int),
                    x == field_model(*subfield),
                decreases inner@.len() - q,
            {
                let ghost before = path@;
                path.push(inner[q]);
                assert(path@ == before.push(inner@[q as int]));
                assert(refs_model(path@) =~= refs_model(before).push(field_model(*inner@[q as int])));
                assert(refs_model(inner@).take(q + 1) =~= refs_model(inner@).take(q as int).push(field_model(*inner@[q as int])));
                assert(refs_model(path@) =~= seq![x] + refs_model(inner@).take(q + 1));
                q = q + 1;
            }
            assert(refs_model(inner@).take(inner@.len() as int) =~= refs_model(inner@));
            let ghost prev = paths_model(result@);
            result.push(path);
            assert(paths_model(result@) =~= prev.push(refs_model(path@)));
            assert(subm.take(m + 1).map_values(|p: Seq<FieldModel>| seq![x] + p) =~= subm.take(
                m as int,
            ).map_values(|p: Seq<FieldModel>| seq![x] + p).push(seq![x] + subm[m as int]));
            m = m + 1;
        }
        assert(subm.take(sub@.len() as int) =~= subm);
        assert(fm.take(k + 1).subrange(0, k as int) =~= fm.take(k as int));
        k = k + 1;
        assert(paths_model(result@) =~= children_paths_list(fm.take(k as int)));
    }
    assert(fm.take(fields@.len() as int) =~= fm);
    result
}

impl<'a> Field<'a> {
    /// For each descendant with parameters, the path of fields from just below this field down
    /// to it, in depth-first order.
    pub fn children_with_parameters(&self) -> (r: Vec<Vec<&Field<'a>>>)
        ensures
            paths_model(r@) == children_paths(field_model(*self)),
        decreases self, 1int,
    {
        proof {
            lemma_field_model(*self);
        }
        match self {
            Field::Field { fields, .. } => children_with_parameters_of_list(fields),
            _ => {
                let r: Vec<Vec<&Field<'a>>> = Vec::new();
                assert(paths_model(r@) =~= children_paths(field_model(*self)));
                r
            },
        }
    }
}

// ---------------------------------------------------------------------------------------------
// Following a response path through an operation.

/// The position of the first field from `k` on whose response key is `a`.
pub open spec fn find_alias(fs: Seq<FieldModel>, a: Seq<char>, k: int) -> Option<int>
    decreases fs.len() - k,
{
    if k < 0 || k >= fs.len() {
        None
    } else if fs[k].alias_of() == a {
        Some(k)
    } else {
        find_alias(fs, a, k + 1)
    }
}

/// Following `path` down from field `f`: the fields passed through (from `f` on) and the
/// field reached.
pub open spec fn field_traverse(f: FieldModel, path: Seq<Seq<char>>) -> Option<
    (Seq<FieldModel>, FieldModel),
>
    decreases path.len(),
{
    if path.len() == 0 {
        Some((Seq::empty(), f))
    } else {
        match f {
            FieldModel::Field { fields, .. } => match find_alias(fields, path[0], 0) {
                Some(k) => match field_traverse(fields[k], path.drop_first()) {
                    Some((tr, x)) => Some((seq![f] + tr, x)),
                    None => None,
                },
                None => None,
            },
            FieldModel::Fragment { .. } => None,
        }
    }
}

/// Following a non-empty `path` from the fields of an operation: the first field from `k` on
/// whose response key is `path[0]` and from which the rest of the path can be followed.
pub open spec fn operation_traverse(fs: Seq<FieldModel>, path: Seq<Seq<char>>, k: int) -> Option<
    (Seq<FieldModel>, FieldModel),
>
    decreases fs.len() - k,
{
    if k < 0 || k >= fs.len() || path.len() == 0 {
        None
    } else if fs[k].alias_of() == path[0] && field_traverse(fs[k], path.drop_first()) is Some {
        field_traverse(fs[k], path.drop_first())
    } else {
        operation_traverse(fs, path, k + 1)
    }
}

/// Finds the field that a response path leads to, and the fields on the way.
pub trait Traversable<'a> {
    /// Where `path` leads to, if anywhere.
    spec fn traverse_model(&self, path: Seq<Seq<char>>) -> Option<(Seq<FieldModel>, FieldModel)>;

    fn traverse(&self, path: &[String]) -> (r: Option<(Vec<&Field<'a>>, &Field<'a>)>)
        ensures
            match self.traverse_model(strings_view(path@)) {
                Some((tr, f)) => r matches Some((v, x)) && refs_model(v@) == tr && field_model(*x)
                    == f,
                None => r is None,
            },
    ;
}

/// Follows `path[start..]` down from `field`.
fn traverse_field<'b, 'a>(field: &'b Field<'a>, path: &[String], start: usize) -> (r: Option<
    (Vec<&'b Field<'a>>, &'b Field<'a>),
>)
    requires
        start <= path@.len(),
    ensures
        match field_traverse(field_model(*field), strings_view(path@).skip(start as int)) {
            Some((tr, f)) => r matches Some((v, x)) && refs_model(v@) == tr && field_model(*x) == f,
            None => r is None,
        },
    decreases path@.len() - start,
{
    let ghost p = strings_view(path@).skip(start as int);
    if start == path.len() {
        let v: Vec<&'b Field<'a>> = Vec::new();
        assert(refs_model(v@) =~= Seq::<FieldModel>::empty());
        return Some((v, field));
    }
    proof {
        lemma_field_model(*field);
    }
    match field {
        Field::Field { fields: subfields, .. } => {
            let ghost fm = fields_model(subfields@);
            let mut k: usize = 0;
            while k < subfields.len()
                invariant
                    k <= subfields@.len(),
                    start < path@.len(),
                    p == strings_view(path@).skip(start as int),
                    fm == fields_model(subfields@),
                    field_model(*field).subfields_of() == fm,
                    field_model(*field) is Field,
                    find_alias(fm, p[0], k as int) == find_alias(fm, p[0], 0),
                decreases subfields@.len() - k,
            {
                if str_eq(subfields[k].get_alias(), path[start].as_str()) {
                    assert(p.drop_first() =~= strings_view(path@).skip(start + 1));
                    assert(field_model(*field).subfields_of() == fm);
                    assert(fm[k as int].alias_of() == p[0]);
                    assert(find_alias(fm, p[0], k as int) == Some(k as int));
                    return match traverse_field(&subfields[k], path, start + 1) {
                        Some((traversed, f)) => {
                            let mut traversed = traversed;
                            let ghost before = refs_model(traversed@);
                            traversed.insert(0, field);
                            assert(refs_model(traversed@) =~= seq![field_model(*field)] + before);
                            Some((traversed, f))
                        },
                        None => None,
                    };
                }
                k = k + 1;
            }
            None
        },
        _ => None,
    }
}

impl<'a> Traversable<'a> for Field<'a> {
    open spec fn traverse_model(&self, path: Seq<Seq<char>>) -> Option<(Seq<FieldModel>, FieldModel)> {
        field_traverse(field_model(*self), path)
    }

    fn traverse(&self, path: &[String]) -> (r: Option<(Vec<&Field<'a>>, &Field<'a>)>) {
        assert(strings_view(path@).skip(0) =~= strings_view(path@));
        traverse_field(self, path, 0)
    }
}

impl<'a> Traversable<'a> for Operation<'a> {
    open spec fn traverse_model(&self, path: Seq<Seq<char>>) -> Option<(Seq<FieldModel>, FieldModel)> {
        operation_traverse(fields_model(self.fields@), path, 0)
    }

    fn traverse(&self, path: &[String]) -> (r: Option<(Vec<&Field<'a>>, &Field<'a>)>) {
        if path.len() == 0 {
            return None;
        }
        let ghost p = strings_view(path@);
        let ghost fm = fields_model(self.fields@);
        assert(p.drop_first() =~= strings_view(path@).skip(1));
        let mut k: usize = 0;
        while k < self.fields.len()
            invariant
                k <= self.fields@.len(),
                path@.len() > 0,
                p == strings_view(path@),
                p.drop_first() == strings_view(path@).skip(1),
                fm == fields_model(self.fields@),
                operation_traverse(fm, p, k as int) == operation_traverse(fm, p, 0),
            decreases self.fields@.len() - k,
        {
            let f = &self.fields[k];
            if str_eq(f.get_alias(), path[0].as_str()) {
                match traverse_field(f, path, 1) {
                    Some(r) => {
                        return Some(r);
                    },
                    None => {},
                }
            }
            k = k + 1;
        }
        None
    }
}

// ---------------------------------------------------------------------------------------------
// Choosing an operation by name.

/// The name of an operation, empty when it has none.
pub open spec fn name_or_empty(o: OperationModel) -> Seq<char> {
    match o.name {
        Some(n) => n,
        None => Seq::empty(),
    }
}

/// The position of the first operation from `k` on named `name`.
pub open spec fn find_operation(ops: Seq<OperationModel>, name: Seq<char>, k: int) -> Option<int>
    decreases ops.len() - k,
{
    if k < 0 || k >= ops.len() {
        None
    } else if name_or_empty(ops[k]) == name {
        Some(k)
    } else {
        find_operation(ops, name, k + 1)
    }
}

/// The operation chosen by name is the first one whose name is exactly that name (an unnamed
/// operation answering only to the empty name); no operation is chosen when none has the name.
pub proof fn law_operation_chosen_by_exact_name(ops: Seq<OperationModel>, name: Seq<char>)
    ensures
        find_operation(ops, name, 0) matches Some(k) ==> {
            &&& 0 <= k < ops.len()
            &&& ops[k].name == Some(name) || (ops[k].name is None && name.len() == 0)
            &&& forall|j: int| 0 <= j < k ==> !(ops[j].name == Some(name) || (ops[j].name is None
                && name.len() == 0))
        },
        find_operation(ops, name, 0) is None ==> forall|j: int| 0 <= j < ops.len() ==> !(ops[j].name
            == Some(name) || (ops[j].name is None && name.len() == 0)),
{
    lemma_find_operation_from(ops, name, 0);
}

proof fn lemma_find_operation_from(ops: Seq<OperationModel>, name: Seq<char>, i: int)
    requires
        0 <= i,
    ensures
        find_operation(ops, name, i) matches Some(k) ==> {
            &&& i <= k < ops.len()
            &&& ops[k].name == Some(name) || (ops[k].name is None && name.len() == 0)
            &&& forall|j: int| i <= j < k ==> !(ops[j].name == Some(name) || (ops[j].name is None
                && name.len() == 0))
        },
        find_operation(ops, name, i) is None ==> forall|j: int| i <= j < ops.len() ==> !(ops[j].name
            == Some(name) || (ops[j].name is None && name.len() == 0)),
    decreases ops.len() - i,
{
    if i < ops.len() {
        let o = ops[i];
        assert((o.name == Some(name) || (o.name is None && name.len() == 0)) <==> name_or_empty(o) == name) by {
            if o.name is None && name_or_empty(o) == name {
                assert(name.len() == 0);
            }
            if o.name is None && name.len() == 0 {
                assert(name =~= Seq::<char>::empty());
            }
        }
        lemma_find_operation_from(ops, name, i + 1);
    }
}

impl<'a> Document<'a> {
    /// The document with only its first operation named `operation_name` (an unnamed operation
    /// counts as named by the empty string) and all its fragment definitions.
    pub fn filter_operation(self, operation_name: &str) -> (r: Result<Document<'a>, Error>)
        ensures
            match find_operation(
                operations_model(self.operations@),
                operation_name@,
                0,
            ) {
                Some(k) => r matches Ok(d) && document_model(d) == (DocumentModel {
                    operations: seq![operations_model(self.operations@)[k]],
                    fragment_definitions: fragments_model(self.fragment_definitions@),
                }),
                None => r matches Err(e) && e.message() == "operationName ist gulen"@,
            },
    {
        proof {
            reveal_strlit("");
        }
        let ghost om = operations_model(self.operations@);
        let mut operations = self.operations;
        let mut k: usize = 0;
        while k < operations.len()
            invariant
                k <= operations@.len(),
                om == operations_model(operations@),
                om == operations_model(self.operations@),
                find_operation(om, operation_name@, k as int) == find_operation(
                    om,
                    operation_name@,
                    0,
                ),
            decreases operations@.len() - k,
        {
            proof {
                reveal_strlit("");
            }
            let name = match operations[k].name {
                Some(n) => n,
                None => "",
            };
            assert(name@ == name_or_empty(om[k as int]));
            if str_eq(name, operation_name) {
                let op = operations.remove(k);
                let mut ops: Vec<Operation<'a>> = Vec::new();
                ops.push(op);
                let d = Document { operations: ops, fragment_definitions: self.fragment_definitions };
                assert(operations_model(ops@) =~= seq![om[k as int]]);
                return Ok(d);
            }
            k = k + 1;
        }
        Err(Error::new(owned("operationName ist gulen")))
    }
}

// ---------------------------------------------------------------------------------------------
// Replacing fragment spreads by the fields of their fragments.

impl<'a> PartialEq for FragmentDefinition<'a> {
    fn eq(&self, other: &FragmentDefinition<'a>) -> (r: bool) {
        str_eq(self.name, other.name) && str_eq(self.typ, other.typ)
    }
}

impl<'a> vstd::std_specs::cmp::PartialEqSpecImpl for FragmentDefinition<'a> {
    open spec fn obeys_eq_spec() -> bool {
        true
    }

    open spec fn eq_spec(&self, other: &FragmentDefinition<'a>) -> bool {
        self.name@ == other.name@ && self.typ@ == other.typ@
    }
}

/// What expanding fragment spreads gives: the fields, or the finding that a fragment spreads
/// itself, or the finding that a spread names no fragment.
pub enum Expansion {
    Fields(Seq<FieldModel>),
    Recursive,
    Missing,
}

/// The position of the first fragment from `k` on named `name`.
pub open spec fn find_fragment(frags: Seq<FragmentModel>, name: Seq<char>, k: int) -> Option<int>
    decreases frags.len() - k,
{
    if k < 0 || k >= frags.len() {
        None
    } else if frags[k].name == name {
        Some(k)
    } else {
        find_fragment(frags, name, k + 1)
    }
}

/// Whether a fragment with the name and type of `f` is on the stack.
pub open spec fn stack_has(stack: Seq<FragmentModel>, f: FragmentModel) -> bool {
    exists|k: int| 0 <= k < stack.len() && stack[k].name == f.name && stack[k].on_type == f.on_type
}

/// The fields that replace `f`: a field with its subfields expanded, or the expanded fields of
/// the fragment that a spread names. `stack` holds the fragments being expanded.
pub open spec fn expand_field(f: FieldModel, frags: Seq<FragmentModel>, stack: Seq<FragmentModel>) -> Expansion
    decreases frags.len() - stack.len(), f, 1int,
{
    match f {
        FieldModel::Fragment { name } => match find_fragment(frags, name, 0) {
            None => Expansion::Missing,
            Some(k) => if stack_has(stack, frags[k]) {
                Expansion::Recursive
            } else if stack.len() < frags.len() {
                expand_fields(frags[k].fields, frags, stack.push(frags[k]))
            } else {
                Expansion::Missing
            },
        },
        FieldModel::Field { alias, name, parameters, fields } => match expand_fields(
            fields,
            frags,
            stack,
        ) {
            Expansion::Fields(nf) => Expansion::Fields(
                seq![FieldModel::Field { alias, name, parameters, fields: nf }],
            ),
            other => other,
        },
    }
}

/// The expansions of `fs`, one after the other; the first failure, if any.
pub open spec fn expand_fields(fs: Seq<FieldModel>, frags: Seq<FragmentModel>, stack: Seq<FragmentModel>) -> Expansion
    decreases frags.len() - stack.len(), fs, 0int,
{
    if fs.len() == 0 {
        Expansion::Fields(Seq::empty())
    } else {
        match expand_fields(fs.subrange(0, fs.len() - 1), frags, stack) {
            Expansion::Fields(a) => match expand_field(fs[fs.len() - 1], frags, stack) {
                Expansion::Fields(b) => Expansion::Fields(a + b),
                other => other,
            },
            other => other,
        }
    }
}

/// What `expand_operation` gives.
pub open spec fn expand_operation_spec(op: OperationModel, frags: Seq<FragmentModel>) -> Expansion {
    if frags.len() == 0 {
        Expansion::Fields(op.fields)
    } else {
        expand_fields(op.fields, frags, Seq::empty())
    }
}

/// `f` is the first of the fragments with its name.
pub open spec fn first_of_its_name(frags: Seq<FragmentModel>, f: FragmentModel) -> bool {
    find_fragment(frags, f.name, 0) matches Some(i) && frags[i] == f
}

/// Each fragment on the stack is the first one with its name, and no name occurs twice.
pub open spec fn stack_ok(frags: Seq<FragmentModel>, stack: Seq<FragmentModel>) -> bool {
    &&& forall|k: int| 0 <= k < stack.len() ==> first_of_its_name(frags, #[trigger] stack[k])
    &&& forall|i: int, j: int| 0 <= i < j < stack.len() ==> stack[i].name != stack[j].name
}

proof fn lemma_find_fragment(frags: Seq<FragmentModel>, name: Seq<char>, k: int)
    requires
        0 <= k,
    ensures
        find_fragment(frags, name, k) matches Some(i) ==> k <= i < frags.len() && frags[i].name
            == name,
        find_fragment(frags, name, k) is None ==> forall|i: int|
            k <= i < frags.len() ==> frags[i].name != name,
    decreases frags.len() - k,
{
    if k < frags.len() && frags[k].name != name {
        lemma_find_fragment(frags, name, k + 1);
    }
}

/// A fragment that is the first with its name, and not yet on a well-formed stack, fits on it.
proof fn lemma_stack_room(frags: Seq<FragmentModel>, stack: Seq<FragmentModel>, k: int)
    requires
        stack_ok(frags, stack),
        0 <= k < frags.len(),
        find_fragment(frags, frags[k].name, 0) == Some(k),
        !stack_has(stack, frags[k]),
    ensures
        stack.len() < frags.len(),
        stack_ok(frags, stack.push(frags[k])),
{
    let names = stack.push(frags[k]).map_values(|f: FragmentModel| f.name);
    let all = frags.map_values(|f: FragmentModel| f.name);
    assert forall|i: int| 0 <= i < stack.len() implies stack[i].name != frags[k].name by {
        if stack[i].name == frags[k].name {
            assert(find_fragment(frags, stack[i].name, 0) == Some(k));
            assert(frags[k] == stack[i]);
        }
    }
    assert(names.no_duplicates());
    assert forall|x: Seq<char>| names.to_set().contains(x) implies all.to_set().contains(x) by {
        let i = choose|i: int| 0 <= i < names.len() && names[i] == x;
        if i < stack.len() {
            lemma_find_fragment(frags, stack[i].name, 0);
            let j = find_fragment(frags, stack[i].name, 0)->Some_0;
            assert(all[j] == x);
        } else {
            assert(all[k] == x);
        }
    }
    names.unique_seq_to_set();
    all.lemma_cardinality_of_set();
    vstd::set_lib::lemma_len_subset(names.to_set(), all.to_set());
    let s2 = stack.push(frags[k]);
    assert forall|i: int| 0 <= i < s2.len() implies first_of_its_name(frags, #[trigger] s2[i]) by {
        if i < stack.len() {
            assert(s2[i] == stack[i]);
        }
    }
}

/// Replaces each fragment spread among `fields` (and their subfields) by the fields of the
/// fragment it names.
fn expand_fields_exec<'b, 'a>(
    fields: &Vec<Field<'a>>,
    fragments: &'b [FragmentDefinition<'a>],
    fragment_stack: &mut Vec<&'b FragmentDefinition<'a>>,
) -> (r: Result<Vec<Field<'a>>, Option<Error>>)
    requires
        stack_ok(fragments_model(fragments@), fragment_refs(old(fragment_stack)@)),
    ensures
        match expand_fields(
            fields_model(fields@),
            fragments_model(fragments@),
            fragment_refs(old(fragment_stack)@),
        ) {
            Expansion::Fields(x) => r matches Ok(v) && fields_model(v@) == x
                && fragment_refs(final(fragment_stack)@) == fragment_refs(old(fragment_stack)@),
            Expansion::Recursive => r matches Err(Some(e)) && e.message() == "Recursive fragment structure"@,
            Expansion::Missing => r matches Err(None),
        },
    decreases fragments@.len() - old(fragment_stack)@.len(), fields, 0int,
{
    let ghost fm = fields_model(fields@);
    let ghost frm = fragments_model(fragments@);
    let ghost st = fragment_refs(fragment_stack@);
    let mut new_fields: Vec<Field<'a>> = Vec::new();
    let mut k: usize = 0;
    assert(fields_model(new_fields@) =~= Seq::<FieldModel>::empty());
    assert(fm.take(0) =~= Seq::<FieldModel>::empty());
    while k < fields.len()
        invariant
            k <= fields@.len(),
            fm == fields_model(fields@),
            frm == fragments_model(fragments@),
            st == fragment_refs(fragment_stack@),
            st == fragment_refs(old(fragment_stack)@),
            fragment_stack@.len() == old(fragment_stack)@.len(),
            stack_ok(frm, st),
            expand_fields(fm.take(k as int), frm, st) == Expansion::Fields(fields_model(new_fields@)),
        decreases fields@.len() - k,
    {
        proof {
            lemma_expand_prefix(fm, frm, st, k as int + 1);
            assert(fm.take(k + 1).subrange(0, k as int) =~= fm.take(k as int));
            assert(fm.take(k + 1)[k as int] == fm[k as int]);
        }
        let mut expanded = expand_fragment(&fields[k], fragments, fragment_stack)?;
        let ghost before = fields_model(new_fields@);
        let ghost add = fields_model(expanded@);
        new_fields.append(&mut expanded);
        assert(fields_model(new_fields@) =~= before + add);
        k = k + 1;
    }
    assert(fm.take(fields@.len() as int) =~= fm);
    Ok(new_fields)
}

/// If the expansion of `fs` does not fail for want of a fragment, neither does that of any of
/// its prefixes, and a prefix that fails fails the whole.
proof fn lemma_expand_prefix(fs: Seq<FieldModel>, frags: Seq<FragmentModel>, stack: Seq<FragmentModel>, n: int)
    requires
        0 <= n <= fs.len(),
    ensures
        !(expand_fields(fs, frags, stack) is Missing) ==> !(expand_fields(fs.take(n), frags, stack) is Missing),
        expand_fields(fs.take(n), frags, stack) is Recursive ==> expand_fields(fs, frags, stack) is Recursive,
        expand_fields(fs.take(n), frags, stack) is Missing ==> expand_fields(fs, frags, stack) is Missing,
    decreases fs.len() - n,
{
    if n < fs.len() {
        lemma_expand_prefix(fs, frags, stack, n + 1);
        assert(fs.take(n + 1).subrange(0, n) =~= fs.take(n));
    } else {
        assert(fs.take(n) =~= fs);
    }
}

pub open spec fn fragment_refs(s: Seq<&FragmentDefinition>) -> Seq<FragmentModel> {
    s.map_values(|f: &FragmentDefinition| fragment_model(*f))
}

fn expand_fragment<'b, 'a>(
    field: &Field<'a>,
    fragments: &'b [FragmentDefinition<'a>],
    fragment_stack: &mut Vec<&'b FragmentDefinition<'a>>,
) -> (r: Result<Vec<Field<'a>>, Option<Error>>)
    requires
        stack_ok(fragments_model(fragments@), fragment_refs(old(fragment_stack)@)),
    ensures
        match expand_field(
            field_model(*field),
            fragments_model(fragments@),
            fragment_refs(old(fragment_stack)@),
        ) {
            Expansion::Fields(x) => r matches Ok(v) && fields_model(v@) == x
                && fragment_refs(final(fragment_stack)@) == fragment_refs(old(fragment_stack)@),
            Expansion::Recursive => r matches Err(Some(e)) && e.message() == "Recursive fragment structure"@,
            Expansion::Missing => r matches Err(None),
        },
    decreases fragments@.len() - old(fragment_stack)@.len(), field, 1int,
{
    let ghost frm = fragments_model(fragments@);
    let ghost st = fragment_refs(fragment_stack@);
    proof {
        lemma_field_model(*field);
    }
    match field {
        Field::Fragment { name } => {
            let mut k: usize = 0;
            proof {
                lemma_find_fragment(frm, name@, 0);
            }
            while k < fragments.len() && !str_eq(fragments[k].name, name)
                invariant
                    k <= fragments@.len(),
                    frm == fragments_model(fragments@),
                    find_fragment(frm, name@, k as int) == find_fragment(frm, name@, 0),
                decreases fragments@.len() - k,
            {
                k = k + 1;
            }
            if k == fragments.len() {
                assert(find_fragment(frm, name@, k as int) is None);
                return Err(None);
            }
            let fragment = &fragments[k];
            assert(find_fragment(frm, name@, 0) == Some(k as int));
            let mut m: usize = 0;
            while m < fragment_stack.len()
                invariant
                    m <= fragment_stack@.len(),
                    st == fragment_refs(fragment_stack@),
                    st == fragment_refs(old(fragment_stack)@),
                    field_model(*field) == (FieldModel::Fragment { name: name@ }),
                    find_fragment(frm, name@, 0) == Some(k as int),
                    forall|q: int| 0 <= q < m ==> !(st[q].name == frm[k as int].name && st[q].on_type == frm[k as int].on_type),
                    frm == fragments_model(fragments@),
                    k < fragments@.len(),
                    fragment == &fragments@[k as int],
                decreases fragment_stack@.len() - m,
            {
                if str_eq(fragment_stack[m].name, fragment.name) && str_eq(fragment_stack[m].typ, fragment.typ) {
                    assert(st[m as int] == fragment_model(*fragment_stack@[m as int]));
                    assert(frm[k as int] == fragment_model(fragments@[k as int]));
                    assert(st[m as int].name == frm[k as int].name && st[m as int].on_type == frm[k as int].on_type);
                    assert(stack_has(st, frm[k as int]));
                    return Err(Some(Error::new(owned("Recursive fragment structure"))));
                }
                m = m + 1;
            }
            assert(!stack_has(st, frm[k as int]));
            proof {
                lemma_stack_room(frm, st, k as int);
            }
            fragment_stack.push(fragment);
            assert(fragment_refs(fragment_stack@) =~= st.push(frm[k as int]));
            let res = expand_fields_exec(&fragment.fields, fragments, fragment_stack)?;
            let ghost before_pop = fragment_stack@;
            fragment_stack.pop();
            assert(fragment_stack@ == before_pop.drop_last());
            assert(fragment_refs(fragment_stack@) =~= fragment_refs(before_pop).drop_last());
            assert(fragment_refs(fragment_stack@) =~= st);
            Ok(res)
        },
        Field::Field { alias, name, parameters, fields: subfields } => {
            let new_subfields = expand_fields_exec(subfields, fragments, fragment_stack)?;
            let f = Field::Field {
                alias: *alias,
                name: name,
                parameters: crate::graphql::parser::clone_parameters(parameters),
                fields: new_subfields,
            };
            proof {
                lemma_field_model(f);
            }
            let mut r: Vec<Field<'a>> = Vec::new();
            r.push(f);
            assert(fields_model(r@) =~= seq![field_model(f)]);
            Ok(r)
        },
    }
}

/// The operation with every fragment spread replaced, recursively, by the fields of the
/// fragment it names; an error when a fragment spreads itself, directly or not. Every spread
/// that the expansion meets must name a fragment.
pub fn expand_operation<'a>(operation: Operation<'a>, fragment_definitions: &[FragmentDefinition<'a>]) -> (r: Result<Operation<'a>, Error>)
    requires
        !(expand_operation_spec(operation_model(operation), fragments_model(fragment_definitions@)) is Missing),
    ensures
        match expand_operation_spec(operation_model(operation), fragments_model(fragment_definitions@)) {
            Expansion::Fields(x) => r matches Ok(o) && operation_model(o) == (OperationModel {
                fields: x,
                ..operation_model(operation)
            }),
            _ => r matches Err(e) && e.message() == "Recursive fragment structure"@,
        },
{
    match try_expand_operation(operation, fragment_definitions) {
        Some(r) => r,
        None => Err(Error::new(owned("Recursive fragment structure"))),
    }
}

/// Like `expand_operation`, but with `None` where a spread that the expansion meets names no
/// fragment.
pub fn try_expand_operation<'a>(operation: Operation<'a>, fragment_definitions: &[FragmentDefinition<'a>]) -> (r: Option<Result<Operation<'a>, Error>>)
    ensures
        match expand_operation_spec(operation_model(operation), fragments_model(fragment_definitions@)) {
            Expansion::Fields(x) => r matches Some(Ok(o)) && operation_model(o) == (OperationModel {
                fields: x,
                ..operation_model(operation)
            }),
            Expansion::Recursive => r matches Some(Err(e)) && e.message() == "Recursive fragment structure"@,
            Expansion::Missing => r is None,
        },
{
    if fragment_definitions.len() == 0 {
        return Some(Ok(operation));
    }
    let mut stack: Vec<&FragmentDefinition<'a>> = Vec::new();
    assert(fragment_refs(stack@) =~= Seq::<FragmentModel>::empty());
    match expand_fields_exec(&operation.fields, fragment_definitions, &mut stack) {
        Ok(new_fields) => Some(Ok(Operation {
            operation_type: operation.operation_type,
            name: operation.name,
            fields: new_fields,
            variables: operation.variables,
        })),
        Err(Some(e)) => Some(Err(e)),
        Err(None) => None,
    }
}

/// No fragment spread occurs in the field, at any depth.
pub open spec fn spread_free(f: FieldModel) -> bool
    decreases f,
{
    match f {
        FieldModel::Field { fields, .. } => forall|i: int| 0 <= i < fields.len() ==> spread_free(#[trigger] fields[i]),
        FieldModel::Fragment { .. } => false,
    }
}

/// No fragment spread occurs in the fields, at any depth.
pub open spec fn all_spread_free(fs: Seq<FieldModel>) -> bool {
    forall|i: int| 0 <= i < fs.len() ==> spread_free(#[trigger] fs[i])
}

proof fn lemma_expand_field_spread_free(f: FieldModel, frags: Seq<FragmentModel>, stack: Seq<FragmentModel>)
    ensures
        expand_field(f, frags, stack) matches Expansion::Fields(x) ==> all_spread_free(x),
    decreases frags.len() - stack.len(), f, 1int,
{
    match f {
        FieldModel::Fragment { name } => {
            if let Some(k) = find_fragment(frags, name, 0) {
                if !stack_has(stack, frags[k]) && stack.len() < frags.len() {
                    lemma_expand_fields_spread_free(frags[k].fields, frags, stack.push(frags[k]));
                }
            }
        },
        FieldModel::Field { alias, name, parameters, fields } => {
            lemma_expand_fields_spread_free(fields, frags, stack);
            if let Expansion::Fields(nf) = expand_fields(fields, frags, stack) {
                let g = FieldModel::Field { alias, name, parameters, fields: nf };
                assert(spread_free(g));
                assert(seq![g][0] == g);
            }
        },
    }
}

proof fn lemma_expand_fields_spread_free(fs: Seq<FieldModel>, frags: Seq<FragmentModel>, stack: Seq<FragmentModel>)
    ensures
        expand_fields(fs, frags, stack) matches Expansion::Fields(x) ==> all_spread_free(x),
    decreases frags.len() - stack.len(), fs, 0int,
{
    if fs.len() > 0 {
        lemma_expand_fields_spread_free(fs.subrange(0, fs.len() - 1), frags, stack);
        lemma_expand_field_spread_free(fs[fs.len() - 1], frags, stack);
        if let Expansion::Fields(a) = expand_fields(fs.subrange(0, fs.len() - 1), frags, stack) {
            if let Expansion::Fields(b) = expand_field(fs[fs.len() - 1], frags, stack) {
                assert forall|i: int| 0 <= i < (a + b).len() implies spread_free(#[trigger] (a + b)[i]) by {
                    if i < a.len() {
                        assert((a + b)[i] == a[i]);
                    } else {
                        assert((a + b)[i] == b[i - a.len()]);
                    }
                }
            }
        }
    }
}

/// An operation expanded with at least one fragment definition holds no fragment spread.
pub proof fn law_expansion_is_spread_free(op: OperationModel, frags: Seq<FragmentModel>)
    requires
        frags.len() > 0,
    ensures
        expand_operation_spec(op, frags) matches Expansion::Fields(x) ==> all_spread_free(x),
{
    lemma_expand_fields_spread_free(op.fields, frags, Seq::empty());
}

} // verus!
