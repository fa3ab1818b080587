//! A GraphQL response with cache-control hints, and the compression of those hints into the
//! values that can be cached together under one scope and age.

use vstd::prelude::*;
use std::cmp::Ordering;
use crate::text::{str_less, str_lt, str_eq, strings_view};
use crate::graphql::json::{
    Json, JsonModel, json_model, json_wf, merge, merge_json, extract, extract_spec, remove_field,
    remove_field_spec,
};

verus! {

/// A response of a GraphQL server: its data, and its extensions where it has any.
pub struct GraphQLResponse {
    pub data: Json,
    pub extensions: Option<GraphQLExtensions>,
}

/// A cache hint with its scope and age settled.
pub struct CacheHint {
    pub path: Vec<String>,
    pub max_age: u16,
    pub scope: CacheScope,
}

/// The extensions of a response.
pub struct GraphQLExtensions {
    pub cache_control: CacheControl,
}

/// The cache-control extension: a version and the hints.
pub struct CacheControl {
    pub version: u8,
    pub hints: Vec<CacheHintDto>,
}

/// A cache hint as the server sends it: a response path, and an age and a scope where given.
pub struct CacheHintDto {
    pub path: Vec<String>,
    pub max_age: Option<u16>,
    pub scope: Option<CacheScope>,
}

/// Who may share a cached value: every user, or only the one who asked.
#[derive(Debug, Clone, Copy, PartialEq, Eq, Structural)]
pub enum CacheScope {
    PUBLIC,
    PRIVATE,
}

/// A hint as a mathematical value.
pub struct HintModel {
    pub path: Seq<Seq<char>>,
    pub max_age: u16,
    pub scope: CacheScope,
}

/// A hint as the server sends it, as a mathematical value.
pub struct HintDtoModel {
    pub path: Seq<Seq<char>>,
    pub max_age: Option<u16>,
    pub scope: Option<CacheScope>,
}

pub open spec fn hint_model(h: CacheHint) -> HintModel {
    HintModel { path: strings_view(h.path@), max_age: h.max_age, scope: h.scope }
}

pub open spec fn dto_model(h: CacheHintDto) -> HintDtoModel {
    HintDtoModel { path: strings_view(h.path@), max_age: h.max_age, scope: h.scope }
}

pub open spec fn dtos_model(s: Seq<CacheHintDto>) -> Seq<HintDtoModel> {
    s.map_values(|h: CacheHintDto| dto_model(h))
}

pub open spec fn entries_model(s: Seq<(Json, CacheHint)>) -> Seq<(JsonModel, HintModel)> {
    s.map_values(|e: (Json, CacheHint)| (json_model(e.0), hint_model(e.1)))
}

// ---------------------------------------------------------------------------------------------
// The order of hints: by path, key by key.

/// Lexicographic order on paths, each key compared as a string.
pub open spec fn path_less(a: Seq<Seq<char>>, b: Seq<Seq<char>>) -> bool
    decreases a.len(),
{
    if a.len() == 0 {
        b.len() > 0
    } else if b.len() == 0 {
        false
    } else if a[0] == b[0] {
        path_less(a.drop_first(), b.drop_first())
    } else {
        str_less(a[0], b[0])
    }
}

fn path_lt_from(a: &[String], b: &[String], i: usize) -> (r: bool)
    requires
        i <= a@.len(),
        i <= b@.len(),
    ensures
        r == path_less(strings_view(a@).skip(i as int), strings_view(b@).skip(i as int)),
    decreases a@.len() - i,
{
    let ghost x = strings_view(a@).skip(i as int);
    let ghost y = strings_view(b@).skip(i as int);
    if i == a.len() {
        i < b.len()
    } else if i == b.len() {
        false
    } else {
        assert(x[0] == a@[i as int]@ && y[0] == b@[i as int]@);
        if str_eq(a[i].as_str(), b[i].as_str()) {
            assert(x.drop_first() =~= strings_view(a@).skip(i + 1));
            assert(y.drop_first() =~= strings_view(b@).skip(i + 1));
            path_lt_from(a, b, i + 1)
        } else {
            str_lt(a[i].as_str(), b[i].as_str())
        }
    }
}

fn path_eq(a: &[String], b: &[String]) -> (r: bool)
    ensures
        r == (strings_view(a@) == strings_view(b@)),
{
    if a.len() != b.len() {
        return false;
    }
    let mut i: usize = 0;
    while i < a.len()
        invariant
            a@.len() == b@.len(),
            i <= a@.len(),
            forall|j: int| 0 <= j < i ==> a@[j]@ == b@[j]@,
        decreases a@.len() - i,
    {
        if !str_eq(a[i].as_str(), b[i].as_str()) {
            assert(strings_view(a@)[i as int] != strings_view(b@)[i as int]);
            return false;
        }
        i = i + 1;
    }
    assert(strings_view(a@) =~= strings_view(b@));
    true
}

/// Whether path `a` comes before path `b`.
fn path_lt(a: &[String], b: &[String]) -> (r: bool)
    ensures
        r == path_less(strings_view(a@), strings_view(b@)),
{
    assert(strings_view(a@).skip(0) =~= strings_view(a@));
    assert(strings_view(b@).skip(0) =~= strings_view(b@));
    path_lt_from(a, b, 0)
}

/// Compares two paths key by key; a path comes after each of its prefixes.
pub fn order_hints_paths(s1: &[String], s2: &[String]) -> (r: Ordering)
    ensures
        (r == Ordering::Less) == path_less(strings_view(s1@), strings_view(s2@)),
        (r == Ordering::Equal) == (strings_view(s1@) == strings_view(s2@)),
        (r == Ordering::Greater) == path_less(strings_view(s2@), strings_view(s1@)),
{
    proof {
        lemma_path_less_order(strings_view(s1@), strings_view(s2@), strings_view(s1@));
    }
    if path_lt(s1, s2) {
        Ordering::Less
    } else if path_eq(s1, s2) {
        Ordering::Equal
    } else {
        Ordering::Greater
    }
}

/// Compares two hints by their paths.
pub fn order_hints(h1: &CacheHintDto, h2: &CacheHintDto) -> (r: Ordering)
    ensures
        (r == Ordering::Less) == path_less(dto_model(*h1).path, dto_model(*h2).path),
        (r == Ordering::Equal) == (dto_model(*h1).path == dto_model(*h2).path),
        (r == Ordering::Greater) == path_less(dto_model(*h2).path, dto_model(*h1).path),
{
    order_hints_paths(h1.path.as_slice(), h2.path.as_slice())
}

/// `path_less` is the lexicographic order of paths: a proper prefix comes first, and otherwise
/// the first key where the paths differ decides.
pub proof fn law_path_less_lexicographic(a: Seq<Seq<char>>, b: Seq<Seq<char>>, k: int)
    ensures
        a.len() < b.len() && b.subrange(0, a.len() as int) == a ==> path_less(a, b),
        0 <= k < a.len() && k < b.len() && a.subrange(0, k) == b.subrange(0, k) && a[k] != b[k] ==> (
        path_less(a, b) == str_less(a[k], b[k])),
    decreases a.len(),
{
    if a.len() > 0 && b.len() > 0 {
        law_path_less_lexicographic(a.drop_first(), b.drop_first(), k - 1);
        if a.len() < b.len() && b.subrange(0, a.len() as int) == a {
            assert(b[0] == a[0]);
            assert(b.drop_first().subrange(0, a.len() - 1) =~= a.drop_first());
        }
        if 0 <= k < a.len() && k < b.len() && a.subrange(0, k) == b.subrange(0, k) && a[k] != b[k] {
            if k > 0 {
                assert(a[0] == a.subrange(0, k)[0]);
                assert(b[0] == b.subrange(0, k)[0]);
                assert(a.drop_first().subrange(0, k - 1) =~= b.drop_first().subrange(0, k - 1)) by {
                    assert forall|i: int| 0 <= i < k - 1 implies a.drop_first()[i] == b.drop_first()[i] by {
                        assert(a.subrange(0, k)[i + 1] == b.subrange(0, k)[i + 1]);
                    }
                }
                assert(a.drop_first()[k - 1] == a[k] && b.drop_first()[k - 1] == b[k]);
            }
        }
    }
}

/// `path_less` is a strict total order.
pub proof fn lemma_path_less_order(a: Seq<Seq<char>>, b: Seq<Seq<char>>, c: Seq<Seq<char>>)
    ensures
        !path_less(a, a),
        a != b ==> (path_less(a, b) || path_less(b, a)),
        !(path_less(a, b) && path_less(b, a)),
        path_less(a, b) && path_less(b, c) ==> path_less(a, c),
    decreases a.len(),
{
    crate::text::lemma_str_less_order(if a.len() > 0 { a[0] } else { Seq::empty() }, if b.len() > 0 { b[0] } else { Seq::empty() }, if c.len() > 0 { c[0] } else { Seq::empty() });
    if a.len() > 0 {
        crate::text::lemma_str_less_order(a[0], a[0], a[0]);
    }
    if a.len() > 0 && b.len() > 0 {
        let c2 = if c.len() > 0 { c.drop_first() } else { a.drop_first() };
        lemma_path_less_order(a.drop_first(), b.drop_first(), c2);
        if a[0] == b[0] && a.drop_first() == b.drop_first() {
            assert(a.len() == b.len());
            assert forall|i: int| 0 <= i < a.len() implies a[i] == b[i] by {
                if i > 0 {
                    assert(a[i] == a.drop_first()[i - 1]);
                    assert(b[i] == b.drop_first()[i - 1]);
                }
            }
            assert(a =~= b);
        }
    } else if a.len() > 0 {
        lemma_path_less_order(a.drop_first(), a.drop_first(), a.drop_first());
    } else if b.len() == 0 {
        assert(a =~= b);
    }
}

// ---------------------------------------------------------------------------------------------
// Sorting the hints: a stable sort by path.

/// Where `h` goes among sorted hints: after every hint whose path does not come after its own.
pub open spec fn hint_insert_pos(sorted: Seq<HintDtoModel>, h: HintDtoModel) -> int
    decreases sorted.len(),
{
    if sorted.len() == 0 {
        0
    } else if path_less(h.path, sorted.last().path) {
        hint_insert_pos(sorted.drop_last(), h)
    } else {
        sorted.len() as int
    }
}

/// The hints in order of their paths; hints with the same path keep their order.
pub open spec fn sort_hints(s: Seq<HintDtoModel>) -> Seq<HintDtoModel>
    decreases s.len(),
{
    if s.len() == 0 {
        s
    } else {
        let sorted = sort_hints(s.drop_last());
        sorted.insert(hint_insert_pos(sorted, s.last()), s.last())
    }
}

proof fn lemma_hint_insert_pos(sorted: Seq<HintDtoModel>, h: HintDtoModel)
    ensures
        0 <= hint_insert_pos(sorted, h) <= sorted.len(),
    decreases sorted.len(),
{
    if sorted.len() > 0 {
        lemma_hint_insert_pos(sorted.drop_last(), h);
    }
}

/// Whether `a` goes before `b`: its path comes first.
fn hint_before(a: &CacheHintDto, b: &CacheHintDto) -> (r: bool)
    ensures
        r == path_less(dto_model(*a).path, dto_model(*b).path),
{
    match order_hints(a, b) {
        Ordering::Less => true,
        _ => false,
    }
}

#[verifier::rlimit(50)]
fn sort_hint_dtos(hints: Vec<CacheHintDto>) -> (r: Vec<CacheHintDto>)
    ensures
        dtos_model(r@) == sort_hints(dtos_model(hints@)),
{
    let ghost input = dtos_model(hints@);
    let mut rest = hints;
    let mut sorted: Vec<CacheHintDto> = Vec::new();
    let ghost mut i: int = 0;
    assert(input.subrange(0, 0) =~= Seq::<HintDtoModel>::empty());
    assert(dtos_model(rest@) =~= input.subrange(0, input.len() as int));
    while rest.len() > 0
        invariant
            0 <= i <= input.len(),
            dtos_model(rest@) == input.subrange(i, input.len() as int),
            dtos_model(sorted@) == sort_hints(input.subrange(0, i)),
        decreases rest@.len(),
    {
        let ghost rm = dtos_model(rest@);
        assert(rm.len() == rest@.len());
        assert(i < input.len());
        assert(rm[0] == input[i]);
        let ghost rv = rest@;
        let h = rest.remove(0);
        assert(rest@ =~= rv.subrange(1, rv.len() as int));
        assert(dtos_model(rest@) =~= rm.subrange(1, rm.len() as int));
        let ghost sm = dtos_model(sorted@);
        let ghost hm = dto_model(h);
        assert(hm == input[i]);
        let mut p: usize = sorted.len();
        assert(sm.subrange(0, p as int) =~= sm);
        while p > 0 && hint_before(&h, &sorted[p - 1])
            invariant
                p <= sorted@.len(),
                sm == dtos_model(sorted@),
                hm == dto_model(h),
                hint_insert_pos(sm, hm) == hint_insert_pos(sm.subrange(0, p as int), hm),
            decreases p,
        {
            assert(sm.subrange(0, p as int).drop_last() =~= sm.subrange(0, p - 1));
            p = p - 1;
        }
        proof {
            if p > 0 {
                assert(sm.subrange(0, p as int).last() == sm[p - 1]);
            }
            lemma_hint_insert_pos(sm, hm);
        }
        sorted.insert(p, h);
        assert(dtos_model(sorted@) =~= sm.insert(p as int, hm));
        assert(input.subrange(0, i + 1).drop_last() =~= input.subrange(0, i));
        assert(dtos_model(rest@) =~= input.subrange(i + 1, input.len() as int));
        proof {
            i = i + 1;
        }
    }
    assert(input.subrange(0, i) =~= input);
    sorted
}

// ---------------------------------------------------------------------------------------------
// The stack of hints being compressed.

/// `p` is a prefix of `q`.
pub open spec fn is_prefix(p: Seq<Seq<char>>, q: Seq<Seq<char>>) -> bool {
    p.len() <= q.len() && q.subrange(0, p.len() as int) == p
}

/// What `get_hints_from_stack` gives and leaves: it pops the stack down to the first entry (from
/// the top) whose path is a prefix of the hint's, and gives that entry's scope and age; a popped
/// entry whose value is not `Null` goes to the list of traversed entries (deepest first), and the
/// entry found goes back with the hint's path removed from its value, unless its value is `Null`
/// (then it stays off the stack). With no such entry: the hint's own scope and age, else public
/// and 0.
pub open spec fn hints_from_stack(h: HintDtoModel, stack: Seq<(JsonModel, HintModel)>) -> (
    CacheScope,
    u16,
    Option<Seq<(JsonModel, HintModel)>>,
    Seq<(JsonModel, HintModel)>,
)
    decreases stack.len(),
{
    if stack.len() == 0 {
        (
            match h.scope {
                Some(s) => s,
                None => CacheScope::PUBLIC,
            },
            match h.max_age {
                Some(a) => a,
                None => 0,
            },
            None,
            stack,
        )
    } else {
        let (pv, ph) = stack.last();
        let st = stack.drop_last();
        if is_prefix(ph.path, h.path) {
            if pv is Null {
                (ph.scope, ph.max_age, None, st)
            } else {
                (ph.scope, ph.max_age, None, st.push((remove_field_spec(pv, h.path), ph)))
            }
        } else {
            let (s, m, tr, st2) = hints_from_stack(h, st);
            let trav = if pv is Null {
                tr
            } else {
                match tr {
                    Some(r) => Some(r.push((pv, ph))),
                    None => Some(seq![(pv, ph)]),
                }
            };
            (s, m, trav, st2)
        }
    }
}

/// Every value on the stack is well formed.
pub open spec fn stack_wf(stack: Seq<(JsonModel, HintModel)>) -> bool {
    forall|i: int| 0 <= i < stack.len() ==> json_wf(#[trigger] stack[i].0)
}

fn starts_with(path: &Vec<String>, prefix: &Vec<String>) -> (r: bool)
    ensures
        r == is_prefix(strings_view(prefix@), strings_view(path@)),
{
    if prefix.len() > path.len() {
        return false;
    }
    let mut i: usize = 0;
    while i < prefix.len()
        invariant
            prefix@.len() <= path@.len(),
            i <= prefix@.len(),
            forall|j: int| 0 <= j < i ==> prefix@[j]@ == path@[j]@,
        decreases prefix@.len() - i,
    {
        if !str_eq(prefix[i].as_str(), path[i].as_str()) {
            assert(strings_view(path@).subrange(0, prefix@.len() as int)[i as int] != strings_view(prefix@)[i as int]);
            return false;
        }
        i = i + 1;
    }
    assert(strings_view(path@).subrange(0, prefix@.len() as int) =~= strings_view(prefix@));
    true
}

#[verifier::rlimit(50)]
fn get_hints_from_stack(hint: &CacheHintDto, stack: &mut Vec<(Json, CacheHint)>) -> (r: (
    CacheScope,
    u16,
    Option<Vec<(Json, CacheHint)>>,
))
    requires
        stack_wf(entries_model(old(stack)@)),
    ensures
        ({
            let spec_r = hints_from_stack(dto_model(*hint), entries_model(old(stack)@));
            &&& r.0 == spec_r.0
            &&& r.1 == spec_r.1
            &&& match r.2 {
                Some(v) => spec_r.2 == Some(entries_model(v@)),
                None => spec_r.2 is None,
            }
            &&& entries_model(final(stack)@) == spec_r.3
        }),
        stack_wf(entries_model(final(stack)@)),
        r.2 matches Some(v) ==> stack_wf(entries_model(v@)),
    decreases old(stack)@.len(),
{
    let ghost sm = entries_model(stack@);
    match stack.pop() {
        None => {
            let scope = match hint.scope {
                Some(s) => s,
                None => CacheScope::PUBLIC,
            };
            let max_age = match hint.max_age {
                Some(a) => a,
                None => 0,
            };
            (scope, max_age, None)
        },
        Some((parent_value, parent_hint)) => {
            assert(entries_model(stack@) =~= sm.drop_last());
            assert(json_model(parent_value) == sm.last().0);
            assert(json_wf(sm[sm.len() - 1].0));
            if starts_with(&hint.path, &parent_hint.path) {
                let is_null = match parent_value {
                    Json::Null => true,
                    _ => false,
                };
                if is_null {
                    (parent_hint.scope, parent_hint.max_age, None)
                } else {
                    let res = (parent_hint.scope, parent_hint.max_age);
                    let v = remove_field(parent_value, hint.path.as_slice());
                    let ghost before = entries_model(stack@);
                    stack.push((v, parent_hint));
                    assert(entries_model(stack@) =~= before.push((json_model(v), hint_model(parent_hint))));
                    (res.0, res.1, None)
                }
            } else {
                let (scope, max_age, tr) = get_hints_from_stack(hint, stack);
                let is_null = match parent_value {
                    Json::Null => true,
                    _ => false,
                };
                let traversed_hierarchy = if is_null {
                    tr
                } else {
                    match tr {
                        Some(r) => {
                            let mut r = r;
                            let ghost before = entries_model(r@);
                            r.push((parent_value, parent_hint));
                            assert(entries_model(r@) =~= before.push(sm.last()));
                            assert(stack_wf(entries_model(r@))) by {
                                let nm = entries_model(r@);
                                assert forall|j: int| 0 <= j < nm.len() implies json_wf(#[trigger] nm[j].0) by {
                                    if j < before.len() {
                                        assert(nm[j] == before[j]);
                                    }
                                }
                            }
                            Some(r)
                        },
                        None => {
                            let mut r: Vec<(Json, CacheHint)> = Vec::new();
                            r.push((parent_value, parent_hint));
                            assert(entries_model(r@) =~= seq![sm.last()]);
                            Some(r)
                        },
                    }
                };
                (scope, max_age, traversed_hierarchy)
            }
        },
    }
}

/// The topmost entry of the stack, among the first `n`, with the hint's age and scope.
pub open spec fn last_same(stack: Seq<(JsonModel, HintModel)>, h: HintModel, n: int) -> Option<int>
    decreases n,
{
    if n <= 0 {
        None
    } else if stack[n - 1].1.max_age == h.max_age && stack[n - 1].1.scope == h.scope {
        Some(n - 1)
    } else {
        last_same(stack, h, n - 1)
    }
}

/// What `add_to_stack` leaves: where an entry has the hint's age and scope, the value is merged
/// into the topmost such entry and the hint goes on top with `Null`; otherwise the value goes on
/// top with the hint.
pub open spec fn add_to_stack_spec(stack: Seq<(JsonModel, HintModel)>, v: JsonModel, h: HintModel) -> Seq<
    (JsonModel, HintModel),
> {
    match last_same(stack, h, stack.len() as int) {
        Some(i) => stack.update(i, (merge(stack[i].0, v), stack[i].1)).push((JsonModel::Null, h)),
        None => stack.push((v, h)),
    }
}

fn add_to_stack(stack: &mut Vec<(Json, CacheHint)>, value: Json, hint: CacheHint)
    requires
        stack_wf(entries_model(old(stack)@)),
        json_wf(json_model(value)),
    ensures
        entries_model(final(stack)@) == add_to_stack_spec(
            entries_model(old(stack)@),
            json_model(value),
            hint_model(hint),
        ),
        stack_wf(entries_model(final(stack)@)),
{
    let ghost sm = entries_model(stack@);
    let ghost hm = hint_model(hint);
    let mut i: usize = stack.len();
    while i > 0
        invariant
            i <= stack@.len(),
            sm == entries_model(stack@),
            sm == entries_model(old(stack)@),
            hm == hint_model(hint),
            stack_wf(sm),
            json_wf(json_model(value)),
            last_same(sm, hm, sm.len() as int) == last_same(sm, hm, i as int),
        decreases i,
    {
        if hint.max_age == stack[i - 1].1.max_age && hint.scope == stack[i - 1].1.scope {
            assert(last_same(sm, hm, i as int) == Some(i - 1));
            let ghost vm0 = json_model(value);
            let (mut v, h) = stack.remove(i - 1);
            assert(json_model(v) == sm[i - 1].0);
            assert(json_wf(sm[i - 1].0));
            merge_json(&mut v, value);
            let ghost mv = json_model(v);
            assert(mv == merge(sm[i - 1].0, vm0));
            stack.insert(i - 1, (v, h));
            stack.push((Json::Null, hint));
            assert(entries_model(stack@) =~= sm.update(i - 1, (mv, sm[i - 1].1)).push((JsonModel::Null, hm)));
            assert(last_same(sm, hm, sm.len() as int) == Some(i - 1));
            assert(add_to_stack_spec(sm, vm0, hm) == sm.update(i - 1, (mv, sm[i - 1].1)).push((JsonModel::Null, hm)));
            assert(stack_wf(entries_model(stack@))) by {
                let nm = entries_model(stack@);
                assert forall|j: int| 0 <= j < nm.len() implies json_wf(#[trigger] nm[j].0) by {
                    if j < sm.len() && j != i - 1 {
                        assert(nm[j] == sm[j]);
                    }
                }
            }
            return;
        }
        i = i - 1;
    }
    let ghost vm = json_model(value);
    stack.push((value, hint));
    assert(entries_model(stack@) =~= sm.push((vm, hm)));
    assert(stack_wf(entries_model(stack@))) by {
        let nm = entries_model(stack@);
        assert forall|j: int| 0 <= j < nm.len() implies json_wf(#[trigger] nm[j].0) by {
            if j < sm.len() {
                assert(nm[j] == sm[j]);
            }
        }
    }
}

// ---------------------------------------------------------------------------------------------
// Compression.

/// The hints, in order, folded into the compressed list and the stack (see `get_hints_from_stack`
/// and `add_to_stack`): each hint takes the scope and age found on the stack where it has none,
/// and a hint whose path leads nowhere in the data adds nothing to the stack.
pub open spec fn compress_from(
    data: JsonModel,
    hints: Seq<HintDtoModel>,
    compressed: Seq<(JsonModel, HintModel)>,
    stack: Seq<(JsonModel, HintModel)>,
) -> (Seq<(JsonModel, HintModel)>, Seq<(JsonModel, HintModel)>)
    decreases hints.len(),
{
    if hints.len() == 0 {
        (compressed, stack)
    } else {
        let h = hints[0];
        let (ls, lm, tr, st) = hints_from_stack(h, stack);
        let c2 = match tr {
            Some(r) => compressed + r,
            None => compressed,
        };
        match extract_spec(data, h.path) {
            None => compress_from(data, hints.drop_first(), c2, st),
            Some(v) => compress_from(
                data,
                hints.drop_first(),
                c2,
                add_to_stack_spec(
                    st,
                    v,
                    HintModel {
                        path: h.path,
                        scope: match h.scope {
                            Some(s) => s,
                            None => ls,
                        },
                        max_age: match h.max_age {
                            Some(a) => a,
                            None => lm,
                        },
                    },
                ),
            ),
        }
    }
}

/// An entry whose value is not `Null`.
pub open spec fn not_null(e: (JsonModel, HintModel)) -> bool {
    !(e.0 is Null)
}

/// The compressed hints of the data: the hints sorted by path and folded (see `compress_from`),
/// then the entries left on the stack that hold a value.
pub open spec fn compressed_hints(data: JsonModel, hints: Seq<HintDtoModel>) -> Seq<(JsonModel, HintModel)> {
    if hints.len() == 0 {
        Seq::empty()
    } else {
        let (c, st) = compress_from(data, sort_hints(hints), Seq::empty(), Seq::empty());
        c + st.filter(|e: (JsonModel, HintModel)| not_null(e))
    }
}

/// The hints a response carries, none where it has no extensions.
pub open spec fn response_hints(r: GraphQLResponse) -> Seq<HintDtoModel> {
    match r.extensions {
        Some(e) => dtos_model(e.cache_control.hints@),
        None => Seq::empty(),
    }
}

impl GraphQLResponse {
    /// The data, and the values to cache with their settled hints (see `compressed_hints`).
    #[verifier::rlimit(50)]
    pub fn compress_cache_hints(self) -> (r: (Json, Vec<(Json, CacheHint)>))
        requires
            json_wf(json_model(self.data)),
        ensures
            r.0 == self.data,
            entries_model(r.1@) == compressed_hints(json_model(self.data), response_hints(self)),
            stack_wf(entries_model(r.1@)),
    {
        let ghost hs = response_hints(self);
        let hints = match self.extensions {
            Some(c) => c.cache_control.hints,
            None => {
                return (self.data, Vec::new());
            },
        };
        if hints.len() == 0 {
            return (self.data, Vec::new());
        }
        let data = self.data;
        let ghost dm = json_model(data);
        let sorted = sort_hint_dtos(hints);
        let ghost all = dtos_model(sorted@);
        let mut rest = sorted;
        let mut compressed: Vec<(Json, CacheHint)> = Vec::new();
        let mut stack: Vec<(Json, CacheHint)> = Vec::new();
        let ghost mut i: int = 0;
        assert(all.subrange(0, all.len() as int) =~= all);
        assert(entries_model(compressed@) =~= Seq::<(JsonModel, HintModel)>::empty());
        assert(entries_model(stack@) =~= Seq::<(JsonModel, HintModel)>::empty());
        while rest.len() > 0
            invariant
                0 <= i <= all.len(),
                dtos_model(rest@) == all.subrange(i, all.len() as int),
                dm == json_model(data),
                json_wf(dm),
                stack_wf(entries_model(stack@)),
                stack_wf(entries_model(compressed@)),
                compress_from(dm, all, Seq::empty(), Seq::empty()) == compress_from(
                    dm,
                    all.subrange(i, all.len() as int),
                    entries_model(compressed@),
                    entries_model(stack@),
                ),
            decreases rest@.len(),
        {
            let ghost rm = dtos_model(rest@);
            let ghost rv = rest@;
            assert(rm.len() == rest@.len());
            let hint = rest.remove(0);
            assert(rest@ =~= rv.subrange(1, rv.len() as int));
            assert(dtos_model(rest@) =~= rm.subrange(1, rm.len() as int));
            assert(rm[0] == all[i]);
            assert(rm.drop_first() =~= all.subrange(i + 1, all.len() as int));
            let ghost cm = entries_model(compressed@);
            let (last_scope, last_max_age, traversed_hierarchy) = get_hints_from_stack(&hint, &mut stack);
            match traversed_hierarchy {
                Some(r) => {
                    let mut r = r;
                    let ghost tm = entries_model(r@);
                    let ghost cv = compressed@;
                    let ghost rv2 = r@;
                    compressed.append(&mut r);
                    assert(compressed@ == cv + rv2);
                    assert(entries_model(compressed@) =~= cm + tm);
                    assert(stack_wf(entries_model(compressed@))) by {
                        let nm = entries_model(compressed@);
                        assert forall|j: int| 0 <= j < nm.len() implies json_wf(#[trigger] nm[j].0) by {
                            if j < cm.len() {
                                assert(nm[j] == cm[j]);
                            } else {
                                assert(nm[j] == tm[j - cm.len()]);
                            }
                        }
                    }
                },
                None => {},
            }
            match extract(&data, hint.path.as_slice()) {
                Some(cached_value) => {
                    let scope = match hint.scope {
                        Some(s) => s,
                        None => last_scope,
                    };
                    let max_age = match hint.max_age {
                        Some(a) => a,
                        None => last_max_age,
                    };
                    add_to_stack(&mut stack, cached_value, CacheHint { path: hint.path, scope: scope, max_age: max_age });
                },
                None => {},
            }
            proof {
                i = i + 1;
            }
        }
        let ghost sm = entries_model(stack@);
        let mut kept: Vec<(Json, CacheHint)> = Vec::new();
        let mut k: usize = 0;
        proof {
            reveal(Seq::filter);
            assert(sm.subrange(0, 0).filter(|e: (JsonModel, HintModel)| not_null(e)) =~= Seq::<(JsonModel, HintModel)>::empty());
            assert(entries_model(kept@) =~= Seq::<(JsonModel, HintModel)>::empty());
        }
        let mut stack = stack;
        let n: usize = stack.len();
        while stack.len() > 0
            invariant
                k <= n,
                n == sm.len(),
                entries_model(stack@) == sm.subrange(k as int, n as int),
                entries_model(kept@) == sm.subrange(0, k as int).filter(|e: (JsonModel, HintModel)| not_null(e)),
                stack_wf(sm),
                stack_wf(entries_model(kept@)),
            decreases stack@.len(),
        {
            let ghost stm = entries_model(stack@);
            let ghost sv = stack@;
            assert(stm.len() == stack@.len());
            let e = stack.remove(0);
            assert(stack@ =~= sv.subrange(1, sv.len() as int));
            assert(entries_model(stack@) =~= stm.subrange(1, stm.len() as int));
            assert(entries_model(stack@) =~= sm.subrange(k + 1, n as int));
            assert(stm[0] == sm[k as int]);
            let ghost before = entries_model(kept@);
            let is_null = match e.0 {
                Json::Null => true,
                _ => false,
            };
            if !is_null {
                kept.push(e);
                assert(entries_model(kept@) =~= before.push(sm[k as int]));
                assert(stack_wf(entries_model(kept@))) by {
                    let nm = entries_model(kept@);
                    assert forall|j: int| 0 <= j < nm.len() implies json_wf(#[trigger] nm[j].0) by {
                        if j < before.len() {
                            assert(nm[j] == before[j]);
                        }
                    }
                }
            }
            proof {
                reveal(Seq::filter);
                assert(sm.subrange(0, k + 1).drop_last() =~= sm.subrange(0, k as int));
            }
            k = k + 1;
        }
        assert(sm.subrange(0, n as int) =~= sm);
        let ghost cm = entries_model(compressed@);
        let ghost cv = compressed@;
        let ghost kv = kept@;
        let ghost km = entries_model(kept@);
        compressed.append(&mut kept);
        assert(compressed@ == cv + kv);
        assert(entries_model(compressed@) =~= cm + km);
        assert(stack_wf(entries_model(compressed@))) by {
            let nm = entries_model(compressed@);
            assert forall|j: int| 0 <= j < nm.len() implies json_wf(#[trigger] nm[j].0) by {
                if j < cm.len() {
                    assert(nm[j] == cm[j]);
                } else {
                    assert(nm[j] == km[j - cm.len()]);
                }
            }
        }
        assert(all.subrange(i, all.len() as int).len() == 0);
        (data, compressed)
    }
}

// ---------------------------------------------------------------------------------------------
// Laws.

/// The hints in non-decreasing order of their paths.
pub open spec fn hints_sorted(s: Seq<HintDtoModel>) -> bool {
    forall|i: int, j: int| 0 <= i < j < s.len() ==> !path_less(#[trigger] s[j].path, #[trigger] s[i].path)
}

proof fn lemma_hint_insert_pos_bounds(sorted: Seq<HintDtoModel>, h: HintDtoModel)
    ensures
        forall|j: int| hint_insert_pos(sorted, h) <= j < sorted.len() ==> path_less(h.path, (#[trigger] sorted[j]).path),
        hint_insert_pos(sorted, h) > 0 ==> !path_less(h.path, sorted[hint_insert_pos(sorted, h) - 1].path),
    decreases sorted.len(),
{
    lemma_hint_insert_pos(sorted, h);
    if sorted.len() > 0 && path_less(h.path, sorted.last().path) {
        let init = sorted.drop_last();
        lemma_hint_insert_pos_bounds(init, h);
        lemma_hint_insert_pos(init, h);
        assert forall|j: int| hint_insert_pos(sorted, h) <= j < sorted.len() implies path_less(h.path, (#[trigger] sorted[j]).path) by {
            if j < sorted.len() - 1 {
                assert(init[j] == sorted[j]);
            }
        }
        if hint_insert_pos(sorted, h) > 0 {
            assert(init[hint_insert_pos(sorted, h) - 1] == sorted[hint_insert_pos(sorted, h) - 1]);
        }
    }
}

/// Sorting the hints gives them in order of their paths, each hint as often as before.
#[verifier::rlimit(50)]
pub proof fn law_sort_hints_sorted_permutation(s: Seq<HintDtoModel>)
    ensures
        hints_sorted(sort_hints(s)),
        sort_hints(s).to_multiset() == s.to_multiset(),
    decreases s.len(),
{
    if s.len() > 0 {
        let init = s.drop_last();
        let h = s.last();
        law_sort_hints_sorted_permutation(init);
        let sorted = sort_hints(init);
        lemma_hint_insert_pos(sorted, h);
        lemma_hint_insert_pos_bounds(sorted, h);
        let p = hint_insert_pos(sorted, h);
        let r = sorted.insert(p, h);
        assert forall|i: int, j: int| 0 <= i < j < r.len() implies !path_less(#[trigger] r[j].path, #[trigger] r[i].path) by {
            if j < p {
                assert(r[i] == sorted[i] && r[j] == sorted[j]);
            } else if j == p {
                assert(r[i] == sorted[i]);
                let q = p - 1;
                assert(!path_less(h.path, sorted[q].path));
                if i < q {
                    assert(!path_less(sorted[q].path, sorted[i].path));
                    lemma_path_less_order(h.path, sorted[i].path, sorted[q].path);
                    lemma_path_less_order(sorted[i].path, sorted[q].path, h.path);
                    lemma_path_less_order(sorted[q].path, sorted[i].path, h.path);
                }
            } else if i < p {
                assert(r[i] == sorted[i] && r[j] == sorted[j - 1]);
                if i < j - 1 {
                    assert(!path_less(sorted[j - 1].path, sorted[i].path));
                }
            } else if i == p {
                assert(r[j] == sorted[j - 1]);
                assert(path_less(h.path, sorted[j - 1].path));
                lemma_path_less_order(h.path, sorted[j - 1].path, h.path);
            } else {
                assert(r[i] == sorted[i - 1] && r[j] == sorted[j - 1]);
            }
        }
        vstd::seq_lib::to_multiset_insert(sorted, p, h);
        vstd::seq_lib::to_multiset_build(init, h);
        assert(init.push(h) =~= s);
    }
}

/// Every entry holds a value other than `Null`.
pub open spec fn all_not_null(s: Seq<(JsonModel, HintModel)>) -> bool {
    forall|i: int| 0 <= i < s.len() ==> not_null(#[trigger] s[i])
}

proof fn lemma_traversed_not_null(h: HintDtoModel, stack: Seq<(JsonModel, HintModel)>)
    ensures
        hints_from_stack(h, stack).2 matches Some(r) ==> all_not_null(r),
    decreases stack.len(),
{
    if stack.len() > 0 {
        let (pv, ph) = stack.last();
        let st = stack.drop_last();
        if !is_prefix(ph.path, h.path) {
            lemma_traversed_not_null(h, st);
            if !(pv is Null) {
                if let Some(r) = hints_from_stack(h, st).2 {
                    assert forall|i: int| 0 <= i < r.push((pv, ph)).len() implies not_null(#[trigger] r.push((pv, ph))[i]) by {
                        if i < r.len() {
                            assert(r.push((pv, ph))[i] == r[i]);
                        }
                    }
                } else {
                    assert(not_null(seq![(pv, ph)][0]));
                }
            }
        }
    }
}

proof fn lemma_compress_not_null(
    data: JsonModel,
    hints: Seq<HintDtoModel>,
    compressed: Seq<(JsonModel, HintModel)>,
    stack: Seq<(JsonModel, HintModel)>,
)
    requires
        all_not_null(compressed),
    ensures
        all_not_null(compress_from(data, hints, compressed, stack).0),
    decreases hints.len(),
{
    if hints.len() > 0 {
        let h = hints[0];
        let (ls, lm, tr, st) = hints_from_stack(h, stack);
        lemma_traversed_not_null(h, stack);
        let c2 = match tr {
            Some(r) => compressed + r,
            None => compressed,
        };
        assert(all_not_null(c2)) by {
            if let Some(r) = tr {
                assert forall|i: int| 0 <= i < c2.len() implies not_null(#[trigger] c2[i]) by {
                    if i < compressed.len() {
                        assert(c2[i] == compressed[i]);
                    } else {
                        assert(c2[i] == r[i - compressed.len()]);
                    }
                }
            }
        }
        match extract_spec(data, h.path) {
            None => lemma_compress_not_null(data, hints.drop_first(), c2, st),
            Some(v) => lemma_compress_not_null(
                data,
                hints.drop_first(),
                c2,
                add_to_stack_spec(
                    st,
                    v,
                    HintModel {
                        path: h.path,
                        scope: match h.scope {
                            Some(s) => s,
                            None => ls,
                        },
                        max_age: match h.max_age {
                            Some(a) => a,
                            None => lm,
                        },
                    },
                ),
            ),
        }
    }
}

/// No compressed hint carries a `Null` value.
pub proof fn law_compressed_values_not_null(data: JsonModel, hints: Seq<HintDtoModel>)
    ensures
        all_not_null(compressed_hints(data, hints)),
{
    if hints.len() > 0 {
        let (c, st) = compress_from(data, sort_hints(hints), Seq::empty(), Seq::empty());
        lemma_compress_not_null(data, sort_hints(hints), Seq::empty(), Seq::empty());
        let f = st.filter(|e: (JsonModel, HintModel)| not_null(e));
        assert forall|i: int| 0 <= i < (c + f).len() implies not_null(#[trigger] (c + f)[i]) by {
            if i < c.len() {
                assert((c + f)[i] == c[i]);
            } else {
                assert((c + f)[i] == f[i - c.len()]);
                st.lemma_filter_pred(|e: (JsonModel, HintModel)| not_null(e), i - c.len());
            }
        }
    }
}

} // verus!
