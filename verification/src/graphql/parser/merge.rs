//! Merging of repeated fields: fields with the same name and parameters are folded into one,
//! whose subfields are merged in turn.

use vstd::prelude::*;
use crate::text::str_eq;
use super::model::{FieldModel, VariableModel, OperationModel};
use super::transform::{same_field, same_parameters, fields_variables, string_set, get_variables};
use super::{
    Field, Variable, Operation, Error, field_model, fields_model, variables_model,
    operation_model, clone_fields, lemma_field_model,
};

verus! {

// ---------------------------------------------------------------------------------------------
// Depth of a selection.

/// How deeply a field nests: a fragment spread is 0, a field one more than its deepest subfield.
pub open spec fn field_depth(f: FieldModel) -> nat
    decreases f,
{
    match f {
        FieldModel::Field { fields, .. } => 1 + fields_depth(fields),
        FieldModel::Fragment { .. } => 0,
    }
}

/// The depth of the deepest of the fields, 0 for none.
pub open spec fn fields_depth(fs: Seq<FieldModel>) -> nat
    decreases fs,
{
    if fs.len() == 0 {
        0
    } else {
        let a = fields_depth(fs.subrange(0, fs.len() - 1));
        let b = field_depth(fs[fs.len() - 1]);
        if a < b { b } else { a }
    }
}

/// Every field of `fs` is at most `n` deep.
pub open spec fn all_within(fs: Seq<FieldModel>, n: nat) -> bool {
    forall|i: int| 0 <= i < fs.len() ==> field_depth(#[trigger] fs[i]) <= n
}

proof fn lemma_fields_depth(fs: Seq<FieldModel>, n: nat)
    ensures
        all_within(fs, n) <==> fields_depth(fs) <= n,
        all_within(fs, fields_depth(fs)),
    decreases fs.len(),
{
    if fs.len() > 0 {
        let init = fs.subrange(0, fs.len() - 1);
        lemma_fields_depth(init, n);
        lemma_fields_depth(init, fields_depth(fs));
        assert forall|i: int| 0 <= i < init.len() implies #[trigger] init[i] == fs[i] by {}
        if all_within(fs, n) {
            assert(all_within(init, n));
            assert(field_depth(fs[fs.len() - 1]) <= n);
        }
        if fields_depth(fs) <= n {
            assert forall|i: int| 0 <= i < fs.len() implies field_depth(#[trigger] fs[i]) <= n by {
                if i < fs.len() - 1 {
                    assert(init[i] == fs[i]);
                }
            }
        }
        assert forall|i: int| 0 <= i < fs.len() implies field_depth(#[trigger] fs[i]) <= fields_depth(fs) by {
            if i < fs.len() - 1 {
                assert(init[i] == fs[i]);
            }
        }
    }
}

// ---------------------------------------------------------------------------------------------
// The merge, over the models.

/// `a` merged with `b`, with `fuel` levels of nesting to go: where both are fields with the same
/// name and `a`'s parameters are all among `b`'s (as many of them), `a` keeps its alias, name and
/// parameters, and its subfields become the merge of its own followed by `b`'s; otherwise `a`.
pub open spec fn merge_field(a: FieldModel, b: FieldModel, fuel: nat) -> FieldModel
    decreases fuel, 0nat, 0nat,
{
    if fuel == 0 {
        a
    } else {
        match (a, b) {
            (
                FieldModel::Field { alias, name, parameters, fields },
                FieldModel::Field { name: name2, fields: fields2, .. },
            ) => {
                if name == name2 && same_parameters(a, b) {
                    FieldModel::Field {
                        alias,
                        name,
                        parameters,
                        fields: merge_subfields(fields + fields2, (fuel - 1) as nat),
                    }
                } else {
                    a
                }
            },
            _ => a,
        }
    }
}

/// One pass over `fields` from position `p` on: each field that is the same as `sub` is taken
/// out (the last field moving into its place) and merged into `sub`. Gives the merged `sub` and
/// what is left of `fields`.
pub open spec fn merge_pass(fields: Seq<FieldModel>, sub: FieldModel, p: nat, fuel: nat) -> (
    FieldModel,
    Seq<FieldModel>,
)
    decreases fuel, 1nat, fields.len() - p,
{
    if p >= fields.len() {
        (sub, fields)
    } else if same_field(fields[p as int], sub) {
        merge_pass(
            fields.update(p as int, fields.last()).drop_last(),
            merge_field(sub, fields[p as int], fuel),
            p,
            fuel,
        )
    } else {
        merge_pass(fields, sub, p + 1, fuel)
    }
}

proof fn lemma_merge_pass_len(fields: Seq<FieldModel>, sub: FieldModel, p: nat, fuel: nat)
    ensures
        merge_pass(fields, sub, p, fuel).1.len() <= fields.len(),
    decreases fields.len() - p,
{
    if p < fields.len() {
        if same_field(fields[p as int], sub) {
            lemma_merge_pass_len(
                fields.update(p as int, fields.last()).drop_last(),
                merge_field(sub, fields[p as int], fuel),
                p,
                fuel,
            );
        } else {
            lemma_merge_pass_len(fields, sub, p + 1, fuel);
        }
    }
}

/// The fields with repeated ones merged, in at most `rounds` rounds: a round takes the last
/// field, merges every field the same as it into it (see `merge_pass`) and puts the result
/// before the merge of what is left. As many rounds as fields are always enough.
pub open spec fn merge_rounds(fields: Seq<FieldModel>, fuel: nat, rounds: nat) -> Seq<FieldModel>
    decreases fuel, 2nat, rounds,
{
    if rounds == 0 || fields.len() == 0 {
        Seq::empty()
    } else {
        let pass = merge_pass(fields.drop_last(), fields.last(), 0, fuel);
        seq![pass.0] + merge_rounds(pass.1, fuel, (rounds - 1) as nat)
    }
}

/// The fields with repeated ones merged, `fuel` levels deep.
pub open spec fn merge_subfields(fields: Seq<FieldModel>, fuel: nat) -> Seq<FieldModel>
    decreases fuel, 3nat, 0nat,
{
    merge_rounds(fields, fuel, fields.len())
}

proof fn lemma_merge_rounds(fields: Seq<FieldModel>, fuel: nat, rounds: nat)
    requires
        rounds >= fields.len(),
    ensures
        merge_rounds(fields, fuel, rounds) == merge_subfields(fields, fuel),
    decreases fields.len(),
{
    if fields.len() > 0 {
        let pass = merge_pass(fields.drop_last(), fields.last(), 0, fuel);
        lemma_merge_pass_len(fields.drop_last(), fields.last(), 0, fuel);
        lemma_merge_rounds(pass.1, fuel, (rounds - 1) as nat);
        lemma_merge_rounds(pass.1, fuel, (fields.len() - 1) as nat);
    }
}

/// `a` merged with `b` (see `merge_field`), as deep as they go.
pub open spec fn merged(a: FieldModel, b: FieldModel) -> FieldModel {
    let da = field_depth(a);
    let db = field_depth(b);
    merge_field(a, b, if da < db { db } else { da })
}

/// The fields with repeated ones merged (see `merge_subfields`), as deep as they go.
pub open spec fn merged_fields(fields: Seq<FieldModel>) -> Seq<FieldModel> {
    merge_subfields(fields, fields_depth(fields))
}

/// The operation with repeated fields merged (see `merged_fields`) and only the variables that
/// the merged fields still use, in their order.
pub open spec fn deduplicated(op: OperationModel) -> OperationModel {
    let fields = merged_fields(op.fields);
    OperationModel {
        operation_type: op.operation_type,
        name: op.name,
        variables: op.variables.filter(
            |v: VariableModel| fields_variables(fields).contains(v.name),
        ),
        fields,
    }
}

// ---------------------------------------------------------------------------------------------
// Merging keeps the depth.

proof fn lemma_merge_field_depth(a: FieldModel, b: FieldModel, fuel: nat)
    requires
        field_depth(a) <= fuel,
        field_depth(b) <= fuel,
    ensures
        field_depth(merge_field(a, b, fuel)) <= fuel,
    decreases fuel, 0nat, 0nat,
{
    if fuel > 0 {
        match (a, b) {
            (
                FieldModel::Field { alias, name, parameters, fields },
                FieldModel::Field { name: name2, fields: fields2, .. },
            ) => {
                if name == name2 && same_parameters(a, b) {
                    let f1 = (fuel - 1) as nat;
                    let all = fields + fields2;
                    lemma_fields_depth(fields, f1);
                    lemma_fields_depth(fields2, f1);
                    assert forall|i: int| 0 <= i < all.len() implies field_depth(#[trigger] all[i]) <= f1 by {
                        if i < fields.len() {
                            assert(all[i] == fields[i]);
                        } else {
                            assert(all[i] == fields2[i - fields.len()]);
                        }
                    }
                    lemma_merge_rounds_depth(all, f1, all.len());
                    lemma_fields_depth(merge_subfields(all, f1), f1);
                }
            },
            _ => {},
        }
    }
}

proof fn lemma_merge_pass_depth(fields: Seq<FieldModel>, sub: FieldModel, p: nat, fuel: nat)
    requires
        all_within(fields, fuel),
        field_depth(sub) <= fuel,
    ensures
        field_depth(merge_pass(fields, sub, p, fuel).0) <= fuel,
        all_within(merge_pass(fields, sub, p, fuel).1, fuel),
    decreases fuel, 1nat, fields.len() - p,
{
    if p < fields.len() {
        if same_field(fields[p as int], sub) {
            let rest = fields.update(p as int, fields.last()).drop_last();
            assert(field_depth(fields[p as int]) <= fuel);
            assert(field_depth(fields.last()) <= fuel);
            assert forall|i: int| 0 <= i < rest.len() implies field_depth(#[trigger] rest[i]) <= fuel by {
                if i != p {
                    assert(rest[i] == fields[i]);
                }
            }
            lemma_merge_field_depth(sub, fields[p as int], fuel);
            lemma_merge_pass_depth(rest, merge_field(sub, fields[p as int], fuel), p, fuel);
        } else {
            lemma_merge_pass_depth(fields, sub, p + 1, fuel);
        }
    }
}

proof fn lemma_merge_rounds_depth(fields: Seq<FieldModel>, fuel: nat, rounds: nat)
    requires
        all_within(fields, fuel),
    ensures
        all_within(merge_rounds(fields, fuel, rounds), fuel),
    decreases fuel, 2nat, rounds,
{
    if rounds > 0 && fields.len() > 0 {
        let init = fields.drop_last();
        assert forall|i: int| 0 <= i < init.len() implies field_depth(#[trigger] init[i]) <= fuel by {
            assert(init[i] == fields[i]);
        }
        assert(field_depth(fields.last()) <= fuel);
        lemma_merge_pass_depth(init, fields.last(), 0, fuel);
        let pass = merge_pass(init, fields.last(), 0, fuel);
        lemma_merge_rounds_depth(pass.1, fuel, (rounds - 1) as nat);
        let r = merge_rounds(fields, fuel, rounds);
        let tail = merge_rounds(pass.1, fuel, (rounds - 1) as nat);
        assert(r == seq![pass.0] + tail);
        assert forall|i: int| 0 <= i < r.len() implies field_depth(#[trigger] r[i]) <= fuel by {
            if i > 0 {
                assert(r[i] == tail[i - 1]);
            }
        }
    }
}

// ---------------------------------------------------------------------------------------------
// Laws.

proof fn lemma_merge_field_keeps_key(a: FieldModel, b: FieldModel, fuel: nat, x: FieldModel)
    ensures
        same_field(x, merge_field(a, b, fuel)) == same_field(x, a),
{
}

#[verifier::rlimit(50)]
proof fn lemma_merge_pass_clears(fields: Seq<FieldModel>, sub: FieldModel, p: nat, fuel: nat)
    requires
        forall|i: int| 0 <= i < p && i < fields.len() ==> !same_field(#[trigger] fields[i], sub),
    ensures
        forall|i: int| 0 <= i < merge_pass(fields, sub, p, fuel).1.len() ==> !same_field(
            #[trigger] merge_pass(fields, sub, p, fuel).1[i],
            merge_pass(fields, sub, p, fuel).0,
        ),
        forall|x: FieldModel| same_field(x, merge_pass(fields, sub, p, fuel).0) == same_field(x, sub),
    decreases fields.len() - p,
{
    if p < fields.len() {
        if same_field(fields[p as int], sub) {
            let rest = fields.update(p as int, fields.last()).drop_last();
            let m = merge_field(sub, fields[p as int], fuel);
            assert forall|x: FieldModel| same_field(x, m) == same_field(x, sub) by {
                lemma_merge_field_keeps_key(sub, fields[p as int], fuel, x);
            }
            assert forall|i: int| 0 <= i < p && i < rest.len() implies !same_field(#[trigger] rest[i], m) by {
                assert(rest[i] == fields[i]);
            }
            lemma_merge_pass_clears(rest, m, p, fuel);
        } else {
            lemma_merge_pass_clears(fields, sub, p + 1, fuel);
        }
    }
}

/// After merging, no field is the same as one before it (see `same_field`).
#[verifier::rlimit(50)]
pub proof fn law_merged_fields_distinct(fields: Seq<FieldModel>, fuel: nat, rounds: nat)
    ensures
        forall|i: int, j: int|
            0 <= i < j < merge_rounds(fields, fuel, rounds).len() ==> !same_field(
                #[trigger] merge_rounds(fields, fuel, rounds)[j],
                #[trigger] merge_rounds(fields, fuel, rounds)[i],
            ),
    decreases rounds,
{
    if rounds > 0 && fields.len() > 0 {
        let init = fields.drop_last();
        let pass = merge_pass(init, fields.last(), 0, fuel);
        lemma_merge_pass_clears(init, fields.last(), 0, fuel);
        law_merged_fields_distinct(pass.1, fuel, (rounds - 1) as nat);
        lemma_merge_rounds_from(pass.1, fuel, (rounds - 1) as nat, pass.0);
        let r = merge_rounds(fields, fuel, rounds);
        let tail = merge_rounds(pass.1, fuel, (rounds - 1) as nat);
        assert(r == seq![pass.0] + tail);
        assert forall|i: int, j: int| 0 <= i < j < r.len() implies !same_field(#[trigger] r[j], #[trigger] r[i]) by {
            if i == 0 {
                assert(r[j] == tail[j - 1]);
            } else {
                assert(r[j] == tail[j - 1] && r[i] == tail[i - 1]);
            }
        }
    }
}

/// Where no field of the input is the same as `sub`, no field that merging gives is.
#[verifier::rlimit(50)]
proof fn lemma_merge_rounds_from(fields: Seq<FieldModel>, fuel: nat, rounds: nat, sub: FieldModel)
    requires
        forall|i: int| 0 <= i < fields.len() ==> !same_field(#[trigger] fields[i], sub),
    ensures
        forall|i: int| 0 <= i < merge_rounds(fields, fuel, rounds).len() ==> !same_field(
            #[trigger] merge_rounds(fields, fuel, rounds)[i],
            sub,
        ),
    decreases rounds,
{
    if rounds > 0 && fields.len() > 0 {
        let init = fields.drop_last();
        assert forall|i: int| 0 <= i < init.len() implies !same_field(#[trigger] init[i], sub) by {
            assert(init[i] == fields[i]);
        }
        lemma_merge_pass_members(init, fields.last(), 0, fuel, sub);
        let pass = merge_pass(init, fields.last(), 0, fuel);
        lemma_merge_rounds_from(pass.1, fuel, (rounds - 1) as nat, sub);
        let r = merge_rounds(fields, fuel, rounds);
        let tail = merge_rounds(pass.1, fuel, (rounds - 1) as nat);
        assert(r == seq![pass.0] + tail);
        assert forall|i: int| 0 <= i < r.len() implies !same_field(#[trigger] r[i], sub) by {
            if i > 0 {
                assert(r[i] == tail[i - 1]);
            }
        }
    }
}

#[verifier::rlimit(50)]
proof fn lemma_merge_pass_members(fields: Seq<FieldModel>, s: FieldModel, p: nat, fuel: nat, sub: FieldModel)
    requires
        forall|i: int| 0 <= i < fields.len() ==> !same_field(#[trigger] fields[i], sub),
        !same_field(s, sub),
    ensures
        forall|i: int| 0 <= i < merge_pass(fields, s, p, fuel).1.len() ==> !same_field(
            #[trigger] merge_pass(fields, s, p, fuel).1[i],
            sub,
        ),
        !same_field(merge_pass(fields, s, p, fuel).0, sub),
    decreases fields.len() - p,
{
    if p < fields.len() {
        if same_field(fields[p as int], s) {
            let rest = fields.update(p as int, fields.last()).drop_last();
            let m = merge_field(s, fields[p as int], fuel);
            assert forall|i: int| 0 <= i < rest.len() implies !same_field(#[trigger] rest[i], sub) by {
                if i != p {
                    assert(rest[i] == fields[i]);
                } else {
                    assert(rest[i] == fields[fields.len() - 1]);
                }
            }
            assert(!same_field(m, sub));
            lemma_merge_pass_members(rest, m, p, fuel, sub);
        } else {
            lemma_merge_pass_members(fields, s, p + 1, fuel, sub);
        }
    }
}

// ---------------------------------------------------------------------------------------------
// The merge.

/// Clones of the fields of `a` followed by those of `b`.
fn concat_clones<'a>(a: &[Field<'a>], b: &[Field<'a>]) -> (r: Vec<Field<'a>>)
    ensures
        fields_model(r@) == fields_model(a@) + fields_model(b@),
{
    let ghost want = fields_model(a@) + fields_model(b@);
    let mut r: Vec<Field<'a>> = Vec::new();
    let mut k: usize = 0;
    while k < a.len()
        invariant
            k <= a@.len(),
            r@.len() == k,
            want == fields_model(a@) + fields_model(b@),
            forall|m: int| 0 <= m < k ==> field_model(#[trigger] r@[m]) == want[m],
        decreases a@.len() - k,
    {
        r.push(a[k].clone());
        k = k + 1;
    }
    let mut j: usize = 0;
    while j < b.len()
        invariant
            j <= b@.len(),
            r@.len() == a@.len() + j,
            want == fields_model(a@) + fields_model(b@),
            forall|m: int| 0 <= m < r@.len() ==> field_model(#[trigger] r@[m]) == want[m],
        decreases b@.len() - j,
    {
        r.push(b[j].clone());
        j = j + 1;
    }
    assert(fields_model(r@) =~= want);
    r
}

/// The fields with repeated ones merged, `fuel` levels deep.
#[verifier::rlimit(50)]
fn merge_subfields_within<'a>(fields: Vec<Field<'a>>, Ghost(fuel): Ghost<nat>) -> (r: Vec<Field<'a>>)
    requires
        all_within(fields_model(fields@), fuel),
    ensures
        fields_model(r@) == merge_subfields(fields_model(fields@), fuel),
    decreases fuel, 1nat,
{
    let ghost total = merge_subfields(fields_model(fields@), fuel);
    let mut fields = fields;
    let mut out: Vec<Field<'a>> = Vec::new();
    assert(fields_model(out@) + merge_subfields(fields_model(fields@), fuel) =~= total);
    while fields.len() > 0
        invariant
            all_within(fields_model(fields@), fuel),
            fields_model(out@) + merge_subfields(fields_model(fields@), fuel) == total,
        decreases fields@.len(),
    {
        let ghost fm = fields_model(fields@);
        let mut sub = match fields.pop() {
            Some(f) => f,
            None => { return out; },
        };
        assert(fields_model(fields@) =~= fm.drop_last());
        assert(field_model(sub) == fm.last());
        assert(field_depth(fm[fm.len() - 1]) <= fuel);
        let ghost pass = merge_pass(fm.drop_last(), fm.last(), 0, fuel);
        let mut p: usize = 0;
        while p < fields.len()
            invariant
                p <= fields@.len(),
                all_within(fields_model(fields@), fuel),
                field_depth(field_model(sub)) <= fuel,
                merge_pass(fields_model(fields@), field_model(sub), p as nat, fuel) == pass,
            decreases fields@.len() - p,
        {
            if fields[p].is_same_field(&sub) {
                let ghost before = fields_model(fields@);
                let f = fields.swap_remove(p);
                assert(fields_model(fields@) =~= before.update(p as int, before.last()).drop_last());
                assert(field_depth(before[p as int]) <= fuel);
                assert(field_model(f) == before[p as int]);
                proof {
                    lemma_merge_field_depth(field_model(sub), field_model(f), fuel);
                    let rest = fields_model(fields@);
                    assert(field_depth(before[before.len() - 1]) <= fuel);
                    assert forall|i: int| 0 <= i < rest.len() implies field_depth(#[trigger] rest[i]) <= fuel by {
                        if i != p {
                            assert(rest[i] == before[i]);
                        }
                    }
                }
                sub.merge_within(&f, Ghost(fuel));
            } else {
                p = p + 1;
            }
        }
        proof {
            lemma_merge_pass_len(fm.drop_last(), fm.last(), 0, fuel);
            lemma_merge_rounds(pass.1, fuel, (fm.len() - 1) as nat);
        }
        let ghost old_out = fields_model(out@);
        out.push(sub);
        assert(fields_model(out@) =~= old_out + seq![pass.0]);
        assert(merge_subfields(fm, fuel) == seq![pass.0] + merge_subfields(pass.1, fuel));
        assert(fields_model(out@) + merge_subfields(fields_model(fields@), fuel) =~= old_out + merge_subfields(fm, fuel));
    }
    assert(fields_model(fields@) =~= Seq::<FieldModel>::empty());
    assert(fields_model(out@) =~= fields_model(out@) + merge_subfields(fields_model(fields@), fuel));
    out
}

impl<'a> Field<'a> {
    /// Whether this is a field, not a fragment spread.
    fn is_selection(&self) -> (r: bool)
        ensures
            r == (field_model(*self) is Field),
    {
        match self {
            Field::Field { .. } => true,
            Field::Fragment { .. } => false,
        }
    }

    /// Merges `field` into this one, `fuel` levels deep.
    fn merge_within(&mut self, field: &Field<'a>, Ghost(fuel): Ghost<nat>)
        requires
            field_depth(field_model(*old(self))) <= fuel,
            field_depth(field_model(*field)) <= fuel,
        ensures
            field_model(*final(self)) == merge_field(field_model(*old(self)), field_model(*field), fuel),
        decreases fuel, 0nat,
    {
        proof {
            lemma_field_model(*self);
            lemma_field_model(*field);
        }
        if self.is_selection() && field.is_selection() && str_eq(self.get_name(), field.get_name())
            && self.has_same_parameters(field) {
            let combined = concat_clones(self.get_subfields(), field.get_subfields());
            proof {
                let a = field_model(*self).subfields_of();
                let b = field_model(*field).subfields_of();
                let f1 = (fuel - 1) as nat;
                lemma_fields_depth(a, f1);
                lemma_fields_depth(b, f1);
                let all = a + b;
                assert forall|i: int| 0 <= i < all.len() implies field_depth(#[trigger] all[i]) <= f1 by {
                    if i < a.len() {
                        assert(all[i] == a[i]);
                    } else {
                        assert(all[i] == b[i - a.len()]);
                    }
                }
            }
            let new_fields = merge_subfields_within(combined, Ghost((fuel - 1) as nat));
            match self {
                Field::Field { fields, .. } => {
                    *fields = new_fields;
                },
                Field::Fragment { .. } => {},
            }
            proof {
                lemma_field_model(*self);
            }
        }
    }

    /// Merges `field` into this one: see `merged`.
    pub fn merge(&mut self, field: &Field<'a>)
        ensures
            field_model(*final(self)) == merged(field_model(*old(self)), field_model(*field)),
    {
        let ghost da = field_depth(field_model(*self));
        let ghost db = field_depth(field_model(*field));
        self.merge_within(field, Ghost(if da < db { db } else { da }));
    }
}

/// Whether `s` is one of `names`.
fn contains_name(names: &Vec<String>, s: &str) -> (r: bool)
    ensures
        r == string_set(names@).contains(s@),
{
    let mut j: usize = 0;
    while j < names.len()
        invariant
            j <= names@.len(),
            forall|m: int| 0 <= m < j ==> (#[trigger] names@[m])@ != s@,
        decreases names@.len() - j,
    {
        if str_eq(names[j].as_str(), s) {
            assert(string_set(names@).contains(s@)) by {
                assert(names@[j as int]@ == s@);
            }
            return true;
        }
        j = j + 1;
    }
    false
}

impl<'a> Operation<'a> {
    /// The operation with repeated fields merged and the unused variables left out: see
    /// `deduplicated`. It always succeeds.
    #[verifier::rlimit(50)]
    pub fn deduplicate_fields(&self) -> (r: Result<Operation<'a>, Error>)
        ensures
            r matches Ok(op) && operation_model(op) == deduplicated(operation_model(*self)),
    {
        let new_fields = clone_fields(&self.fields);
        let ghost fm = fields_model(self.fields@);
        proof {
            lemma_fields_depth(fm, fields_depth(fm));
        }
        let merged_fields = merge_subfields_within(new_fields, Ghost(fields_depth(fm)));
        let residual_variable_names = get_variables(&merged_fields);
        let ghost used = fields_variables(fields_model(merged_fields@));
        let ghost keep = |v: VariableModel| used.contains(v.name);
        let ghost vm = variables_model(self.variables@);
        let mut residual_variables: Vec<Variable<'a>> = Vec::new();
        let mut i: usize = 0;
        proof {
            reveal(Seq::filter);
            assert(vm.subrange(0, 0).filter(keep) =~= Seq::<VariableModel>::empty());
            assert(variables_model(residual_variables@) =~= Seq::<VariableModel>::empty());
        }
        while i < self.variables.len()
            invariant
                i <= self.variables@.len(),
                vm == variables_model(self.variables@),
                string_set(residual_variable_names@) == used,
                keep == (|v: VariableModel| used.contains(v.name)),
                variables_model(residual_variables@) == vm.subrange(0, i as int).filter(keep),
            decreases self.variables@.len() - i,
        {
            let v = &self.variables[i];
            let ghost before = variables_model(residual_variables@);
            if contains_name(&residual_variable_names, v.name) {
                residual_variables.push(v.clone());
                assert(variables_model(residual_variables@) =~= before.push(vm[i as int]));
            } else {
                assert(variables_model(residual_variables@) =~= before);
            }
            proof {
                reveal(Seq::filter);
                assert(vm.subrange(0, i + 1).drop_last() =~= vm.subrange(0, i as int));
            }
            i = i + 1;
        }
        assert(vm.subrange(0, vm.len() as int) =~= vm);
        let op = Operation {
            name: self.name,
            operation_type: self.operation_type,
            variables: residual_variables,
            fields: merged_fields,
        };
        Ok(op)
    }
}

} // verus!
