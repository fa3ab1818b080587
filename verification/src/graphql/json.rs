//! JSON values, with objects whose members are kept in key order, and the operations that the
//! cache performs on them: merging, extracting and removing along a path.

use vstd::prelude::*;
use crate::text::{str_less, str_lt, str_eq, lemma_str_less_order, strings_view};

verus! {

/// A JSON value. A number is kept as its JSON text. The members of an object are kept in
/// strictly increasing order of their keys (see `json_wf`).
#[derive(Debug, PartialEq)]
pub enum Json {
    Null,
    Bool(bool),
    Number(String),
    Str(String),
    Array(Vec<Json>),
    Object(Vec<(String, Json)>),
}

/// The mathematical value of a `Json`.
pub enum JsonModel {
    Null,
    Bool(bool),
    Number(Seq<char>),
    Str(Seq<char>),
    Array(Seq<JsonModel>),
    Object(Seq<(Seq<char>, JsonModel)>),
}

pub open spec fn json_model(j: Json) -> JsonModel
    decreases j,
{
    match j {
        Json::Null => JsonModel::Null,
        Json::Bool(b) => JsonModel::Bool(b),
        Json::Number(n) => JsonModel::Number(n@),
        Json::Str(s) => JsonModel::Str(s@),
        Json::Array(v) => JsonModel::Array(
            Seq::new(
                v@.len(),
                |k: int|
                    if 0 <= k < v@.len() {
                        json_model(v@[k])
                    } else {
                        JsonModel::Null
                    },
            ),
        ),
        Json::Object(v) => JsonModel::Object(
            Seq::new(
                v@.len(),
                |k: int|
                    if 0 <= k < v@.len() {
                        (v@[k].0@, json_model(v@[k].1))
                    } else {
                        (Seq::empty(), JsonModel::Null)
                    },
            ),
        ),
    }
}

pub open spec fn jsons_model(s: Seq<Json>) -> Seq<JsonModel> {
    s.map_values(|j: Json| json_model(j))
}

pub open spec fn members_model(s: Seq<(String, Json)>) -> Seq<(Seq<char>, JsonModel)> {
    s.map_values(|e: (String, Json)| (e.0@, json_model(e.1)))
}

pub proof fn lemma_json_model(j: Json)
    ensures
        j matches Json::Array(v) ==> json_model(j) == JsonModel::Array(jsons_model(v@)),
        j matches Json::Object(v) ==> json_model(j) == JsonModel::Object(members_model(v@)),
{
    match j {
        Json::Array(v) => {
            assert(json_model(j)->Array_0 =~= jsons_model(v@));
        },
        Json::Object(v) => {
            assert(json_model(j)->Object_0 =~= members_model(v@));
        },
        _ => {},
    }
}

// ---------------------------------------------------------------------------------------------
// Members of an object.

/// The keys are in strictly increasing order, so none occurs twice.
pub open spec fn keys_sorted(es: Seq<(Seq<char>, JsonModel)>) -> bool {
    forall|i: int, j: int| 0 <= i < j < es.len() ==> str_less(#[trigger] es[i].0, #[trigger] es[j].0)
}

/// Every object in the value, at any depth, has its keys in strictly increasing order.
pub open spec fn json_wf(m: JsonModel) -> bool
    decreases m,
{
    match m {
        JsonModel::Array(xs) => forall|i: int| 0 <= i < xs.len() ==> json_wf(#[trigger] xs[i]),
        JsonModel::Object(es) => keys_sorted(es) && forall|i: int|
            0 <= i < es.len() ==> json_wf(#[trigger] es[i].1),
        _ => true,
    }
}

/// Some entry has the key `k`.
pub open spec fn has_key<V>(es: Seq<(Seq<char>, V)>, k: Seq<char>) -> bool {
    exists|i: int| 0 <= i < es.len() && #[trigger] es[i].0 == k
}

/// The position of an entry with the key `k`.
pub open spec fn key_at<V>(es: Seq<(Seq<char>, V)>, k: Seq<char>) -> int {
    choose|i: int| 0 <= i < es.len() && #[trigger] es[i].0 == k
}

/// The value of the member with the key `k`, if there is one.
pub open spec fn get_member(es: Seq<(Seq<char>, JsonModel)>, k: Seq<char>) -> Option<JsonModel> {
    if has_key(es, k) {
        Some(es[key_at(es, k)].1)
    } else {
        None
    }
}

/// Where a member with the key `k` goes among sorted members: after every smaller key.
pub open spec fn insert_pos(es: Seq<(Seq<char>, JsonModel)>, k: Seq<char>) -> int
    decreases es.len(),
{
    if es.len() == 0 {
        0
    } else if str_less(es.last().0, k) {
        es.len() as int
    } else {
        insert_pos(es.drop_last(), k)
    }
}

/// The members with `k` set to `v`: its value replaced where the key is there, else a new member
/// in its place in key order.
pub open spec fn put_member(es: Seq<(Seq<char>, JsonModel)>, k: Seq<char>, v: JsonModel) -> Seq<
    (Seq<char>, JsonModel),
> {
    if has_key(es, k) {
        es.update(key_at(es, k), (k, v))
    } else {
        es.insert(insert_pos(es, k), (k, v))
    }
}

/// The members without the one with the key `k`.
pub open spec fn remove_member(es: Seq<(Seq<char>, JsonModel)>, k: Seq<char>) -> Seq<
    (Seq<char>, JsonModel),
> {
    if has_key(es, k) {
        es.remove(key_at(es, k))
    } else {
        es
    }
}

/// With sorted keys, the member with a given key is the only one.
pub proof fn lemma_key_unique(es: Seq<(Seq<char>, JsonModel)>, k: Seq<char>, i: int)
    requires
        keys_sorted(es),
        0 <= i < es.len(),
        es[i].0 == k,
    ensures
        has_key(es, k),
        key_at(es, k) == i,
{
    assert(es[i].0 == k);
    let j = key_at(es, k);
    if j != i {
        if j < i {
            assert(str_less(es[j].0, es[i].0));
        } else {
            assert(str_less(es[i].0, es[j].0));
        }
        lemma_str_less_order(k, k, k);
    }
}

proof fn lemma_insert_pos(es: Seq<(Seq<char>, JsonModel)>, k: Seq<char>)
    requires
        keys_sorted(es),
        !has_key(es, k),
    ensures
        0 <= insert_pos(es, k) <= es.len(),
        forall|i: int| 0 <= i < insert_pos(es, k) ==> str_less(#[trigger] es[i].0, k),
        forall|i: int| insert_pos(es, k) <= i < es.len() ==> str_less(k, #[trigger] es[i].0),
    decreases es.len(),
{
    if es.len() > 0 {
        let l = es.len() - 1;
        if str_less(es.last().0, k) {
            assert forall|i: int| 0 <= i < es.len() implies str_less(#[trigger] es[i].0, k) by {
                if i < l {
                    assert(str_less(es[i].0, es[l].0));
                    lemma_str_less_order(es[i].0, es[l].0, k);
                }
            }
        } else {
            let init = es.drop_last();
            assert(keys_sorted(init)) by {
                assert forall|i: int, j: int| 0 <= i < j < init.len() implies str_less(
                    #[trigger] init[i].0,
                    #[trigger] init[j].0,
                ) by {
                    assert(init[i] == es[i] && init[j] == es[j]);
                }
            }
            assert(!has_key(init, k)) by {
                if has_key(init, k) {
                    let w = choose|i: int| 0 <= i < init.len() && #[trigger] init[i].0 == k;
                    assert(es[w].0 == k);
                }
            }
            lemma_insert_pos(init, k);
            assert(es[l].0 != k);
            lemma_str_less_order(es[l].0, k, k);
            assert(str_less(k, es[l].0));
            assert forall|i: int| 0 <= i < insert_pos(es, k) implies str_less(#[trigger] es[i].0, k) by {
                assert(init[i] == es[i]);
            }
            assert forall|i: int| insert_pos(es, k) <= i < es.len() implies str_less(k, #[trigger] es[i].0) by {
                if i < l {
                    assert(init[i] == es[i]);
                }
            }
        }
    }
}

/// Setting a member keeps the keys sorted, and the key then has the value set.
#[verifier::rlimit(50)]
pub proof fn lemma_put_member(es: Seq<(Seq<char>, JsonModel)>, k: Seq<char>, v: JsonModel)
    requires
        keys_sorted(es),
    ensures
        keys_sorted(put_member(es, k, v)),
        get_member(put_member(es, k, v), k) == Some(v),
        forall|k2: Seq<char>| k2 != k ==> get_member(put_member(es, k, v), k2) == get_member(es, k2),
{
    let r = put_member(es, k, v);
    if has_key(es, k) {
        let i = key_at(es, k);
        assert(es[i].0 == k);
        assert forall|a: int, b: int| 0 <= a < b < r.len() implies str_less(#[trigger] r[a].0, #[trigger] r[b].0) by {
            assert(r[a].0 == es[a].0 && r[b].0 == es[b].0);
        }
        lemma_key_unique(r, k, i);
        assert forall|k2: Seq<char>| k2 != k implies get_member(r, k2) == get_member(es, k2) by {
            if has_key(es, k2) {
                let j = key_at(es, k2);
                assert(es[j].0 == k2);
                assert(r[j] == es[j]);
                lemma_key_unique(r, k2, j);
            }
            if has_key(r, k2) {
                let j = key_at(r, k2);
                assert(r[j].0 == k2);
                assert(r[j] == es[j]);
            }
        }
    } else {
        let p = insert_pos(es, k);
        lemma_insert_pos(es, k);
        assert forall|a: int, b: int| 0 <= a < b < r.len() implies str_less(#[trigger] r[a].0, #[trigger] r[b].0) by {
            if b < p {
                assert(r[a] == es[a] && r[b] == es[b]);
            } else if b == p {
                assert(r[a] == es[a]);
            } else if a < p {
                assert(r[a] == es[a] && r[b] == es[b - 1]);
                lemma_str_less_order(es[a].0, k, es[b - 1].0);
            } else if a == p {
                assert(r[b] == es[b - 1]);
            } else {
                assert(r[a] == es[a - 1] && r[b] == es[b - 1]);
            }
        }
        assert(r[p].0 == k);
        lemma_key_unique(r, k, p);
        assert forall|k2: Seq<char>| k2 != k implies get_member(r, k2) == get_member(es, k2) by {
            if has_key(es, k2) {
                let j = key_at(es, k2);
                assert(es[j].0 == k2);
                let jj = if j < p { j } else { j + 1 };
                assert(r[jj] == es[j]);
                lemma_key_unique(r, k2, jj);
            }
            if has_key(r, k2) {
                let j = key_at(r, k2);
                assert(r[j].0 == k2);
                if j < p {
                    assert(r[j] == es[j]);
                } else {
                    assert(r[j] == es[j - 1]);
                }
            }
        }
    }
}

/// Removing a member keeps the keys sorted, and leaves the key without a value.
#[verifier::rlimit(50)]
pub proof fn lemma_remove_member(es: Seq<(Seq<char>, JsonModel)>, k: Seq<char>)
    requires
        keys_sorted(es),
    ensures
        keys_sorted(remove_member(es, k)),
        get_member(remove_member(es, k), k) == None::<JsonModel>,
        forall|k2: Seq<char>| k2 != k ==> get_member(remove_member(es, k), k2) == get_member(es, k2),
{
    let r = remove_member(es, k);
    if has_key(es, k) {
        let p = key_at(es, k);
        assert(es[p].0 == k);
        assert forall|a: int, b: int| 0 <= a < b < r.len() implies str_less(#[trigger] r[a].0, #[trigger] r[b].0) by {
            let aa = if a < p { a } else { a + 1 };
            let bb = if b < p { b } else { b + 1 };
            assert(r[a] == es[aa] && r[b] == es[bb]);
        }
        if has_key(r, k) {
            let j = key_at(r, k);
            assert(r[j].0 == k);
            let jj = if j < p { j } else { j + 1 };
            assert(r[j] == es[jj]);
            lemma_key_unique(es, k, jj);
        }
        assert forall|k2: Seq<char>| k2 != k implies get_member(r, k2) == get_member(es, k2) by {
            if has_key(es, k2) {
                let j = key_at(es, k2);
                assert(es[j].0 == k2);
                let jj = if j < p { j } else { j - 1 };
                assert(r[jj] == es[j]);
                lemma_key_unique(r, k2, jj);
            }
            if has_key(r, k2) {
                let j = key_at(r, k2);
                assert(r[j].0 == k2);
                let jj = if j < p { j } else { j + 1 };
                assert(r[j] == es[jj]);
            }
        }
    }
}

// ---------------------------------------------------------------------------------------------
// Members, in executable code.

/// The position of the member with the key `k`, if there is one.
fn find_key(es: &Vec<(String, Json)>, k: &str) -> (r: Option<usize>)
    requires
        keys_sorted(members_model(es@)),
    ensures
        r matches Some(i) ==> i < es@.len() && has_key(members_model(es@), k@) && key_at(
            members_model(es@),
            k@,
        ) == i,
        r is None ==> !has_key(members_model(es@), k@),
{
    let ghost m = members_model(es@);
    let mut i: usize = 0;
    while i < es.len()
        invariant
            i <= es@.len(),
            m == members_model(es@),
            keys_sorted(m),
            forall|j: int| 0 <= j < i ==> (#[trigger] m[j]).0 != k@,
        decreases es@.len() - i,
    {
        if str_eq(es[i].0.as_str(), k) {
            proof {
                lemma_key_unique(m, k@, i as int);
            }
            return Some(i);
        }
        i = i + 1;
    }
    None
}

/// The value of the member with the key `k`, if there is one.
pub fn member<'b>(es: &'b Vec<(String, Json)>, k: &str) -> (r: Option<&'b Json>)
    requires
        keys_sorted(members_model(es@)),
    ensures
        match r {
            Some(v) => get_member(members_model(es@), k@) == Some(json_model(*v)),
            None => get_member(members_model(es@), k@) is None,
        },
{
    match find_key(es, k) {
        Some(i) => Some(&es[i].1),
        None => None,
    }
}

/// Sets the member with the key `k` to `v` (see `put_member`).
#[verifier::rlimit(40)]
pub fn put(es: &mut Vec<(String, Json)>, k: String, v: Json)
    requires
        keys_sorted(members_model(old(es)@)),
    ensures
        members_model(final(es)@) == put_member(members_model(old(es)@), k@, json_model(v)),
{
    let ghost m = members_model(es@);
    let ghost jm = json_model(v);
    match find_key(es, k.as_str()) {
        Some(i) => {
            let ghost kk = k@;
            es.set(i, (k, v));
            assert(members_model(es@) =~= m.update(i as int, (kk, jm)));
        },
        None => {
            let mut p: usize = es.len();
            assert(m.subrange(0, p as int) =~= m);
            while p > 0 && !str_lt(es[p - 1].0.as_str(), k.as_str())
                invariant
                    p <= es@.len(),
                    m == members_model(es@),
                    insert_pos(m, k@) == insert_pos(m.subrange(0, p as int), k@),
                decreases p,
            {
                assert(m.subrange(0, p as int).drop_last() =~= m.subrange(0, p - 1));
                p = p - 1;
            }
            assert(m.subrange(0, p as int) =~= m.subrange(0, p as int));
            proof {
                if p > 0 {
                    assert(m.subrange(0, p as int).last() == m[p - 1]);
                }
            }
            assert(insert_pos(m, k@) == p);
            let ghost kk = k@;
            es.insert(p, (k, v));
            assert(members_model(es@) =~= m.insert(p as int, (kk, jm)));
        },
    }
}

/// Takes the member with the key `k` out, and gives its value (see `remove_member`).
pub fn take(es: &mut Vec<(String, Json)>, k: &str) -> (r: Option<Json>)
    requires
        keys_sorted(members_model(old(es)@)),
    ensures
        members_model(final(es)@) == remove_member(members_model(old(es)@), k@),
        match r {
            Some(v) => get_member(members_model(old(es)@), k@) == Some(json_model(v)),
            None => get_member(members_model(old(es)@), k@) is None,
        },
{
    let ghost m = members_model(es@);
    match find_key(es, k) {
        Some(i) => {
            let (_, v) = es.remove(i);
            assert(members_model(es@) =~= m.remove(i as int));
            Some(v)
        },
        None => None,
    }
}

// ---------------------------------------------------------------------------------------------
// Merging.

/// `b` merged into `a`: where both are objects, each member of `b`, in order, is merged into the
/// member of `a` with its key (into `Null` where `a` has none); otherwise `b` replaces `a`.
pub open spec fn merge(a: JsonModel, b: JsonModel) -> JsonModel
    decreases b, 1nat,
{
    match (a, b) {
        (JsonModel::Object(ae), JsonModel::Object(be)) => JsonModel::Object(merge_members(ae, be)),
        _ => b,
    }
}

/// The members `be`, in order, merged into the members `ae`.
pub open spec fn merge_members(ae: Seq<(Seq<char>, JsonModel)>, be: Seq<(Seq<char>, JsonModel)>) -> Seq<
    (Seq<char>, JsonModel),
>
    decreases be, 0nat,
{
    if be.len() == 0 {
        ae
    } else {
        let k = be[0].0;
        let cur = match get_member(ae, k) {
            Some(x) => x,
            None => JsonModel::Null,
        };
        merge_members(put_member(ae, k, merge(cur, be[0].1)), be.drop_first())
    }
}

/// Merges `b` into `a` (see `merge`).
pub fn merge_json(a: &mut Json, b: Json)
    requires
        json_wf(json_model(*old(a))),
        json_wf(json_model(b)),
    ensures
        json_model(*final(a)) == merge(json_model(*old(a)), json_model(b)),
        json_wf(json_model(*final(a))),
{
    let mut cur = Json::Null;
    std::mem::swap(a, &mut cur);
    *a = merged(cur, b);
}

#[verifier::rlimit(50)]
fn merged(a: Json, b: Json) -> (r: Json)
    requires
        json_wf(json_model(a)),
        json_wf(json_model(b)),
    ensures
        json_model(r) == merge(json_model(a), json_model(b)),
        json_wf(json_model(r)),
    decreases b,
{
    let ghost gb = b;
    let ghost gbm = json_model(b);
    match b {
        Json::Object(be) => {
            match a {
                Json::Object(ae) => {
                    proof {
                        lemma_json_model(gb);
                        lemma_json_model(a);
                    }
                    let ghost be0 = be@;
                    let ghost bm = members_model(be@);
                    let ghost am = members_model(ae@);
                    let mut ae = ae;
                    let mut rest = be;
                    let mut j: usize = 0;
                    let n: usize = rest.len();
                    assert(bm.subrange(0, bm.len() as int) =~= bm);
                    while rest.len() > 0
                        invariant
                            j <= be0.len(),
                            be0.len() == n,
                            rest@ == be0.subrange(j as int, be0.len() as int),
                            bm == members_model(be0),
                            gb is Object,
                            gb == b,
                            gb->Object_0@ == be0,
                            json_wf(gbm),
                            gbm == JsonModel::Object(bm),
                            keys_sorted(members_model(ae@)),
                            forall|i: int| 0 <= i < ae@.len() ==> json_wf(#[trigger] members_model(ae@)[i].1),
                            merge_members(am, bm) == merge_members(
                                members_model(ae@),
                                bm.subrange(j as int, bm.len() as int),
                            ),
                        decreases rest@.len(),
                    {
                        let ghost cm = members_model(ae@);
                        assert(rest@.len() == be0.len() - j);
                        let (k, v) = rest.remove(0);
                        assert(rest@ =~= be0.subrange(j + 1, be0.len() as int));
                        assert(v == be0[j as int].1);
                        assert(json_model(v) == bm[j as int].1);
                        assert(json_wf(bm[j as int].1));
                        proof {
                            let bv = gb->Object_0;
                            assert(decreases_to!(gb => bv));
                            assert(decreases_to!(bv => bv@));
                            assert(decreases_to!(bv@ => bv@[j as int]));
                            assert(decreases_to!(bv@[j as int] => bv@[j as int].1));
                            assert(decreases_to!(gb => v));
                            assert(decreases_to!(b => v));
                        }
                        let ghost tail = bm.subrange(j as int, bm.len() as int);
                        assert(tail[0] == bm[j as int]);
                        assert(tail.drop_first() =~= bm.subrange(j + 1, bm.len() as int));
                        match find_key(&ae, k.as_str()) {
                            Some(i) => {
                                let (kk, c) = ae.remove(i);
                                assert(json_model(c) == cm[i as int].1);
                                assert(json_wf(cm[i as int].1));
                                let m = merged(c, v);
                                let ghost mm = json_model(m);
                                ae.insert(i, (kk, m));
                                assert(members_model(ae@) =~= cm.update(i as int, (k@, mm)));
                                proof {
                                    lemma_put_member(cm, k@, mm);
                                }
                            },
                            None => {
                                let m = merged(Json::Null, v);
                                proof {
                                    lemma_put_member(cm, k@, json_model(m));
                                }
                                let ghost mm = json_model(m);
                                put(&mut ae, k, m);
                                proof {
                                    let nm = members_model(ae@);
                                    assert forall|i: int| 0 <= i < nm.len() implies json_wf(#[trigger] nm[i].1) by {
                                        let p = insert_pos(cm, k@);
                                        lemma_insert_pos(cm, k@);
                                        if i < p {
                                            assert(nm[i] == cm[i]);
                                        } else if i > p {
                                            assert(nm[i] == cm[i - 1]);
                                        }
                                    }
                                }
                            },
                        }
                        j = j + 1;
                    }
                    let r = Json::Object(ae);
                    proof {
                        lemma_json_model(r);
                        assert(bm.subrange(j as int, bm.len() as int).len() == 0);
                    }
                    r
                },
                _ => {
                    proof {
                        lemma_json_model(gb);
                    }
                    Json::Object(be)
                },
            }
        },
        _ => b,
    }
}

fn clone_jsons(v: &Vec<Json>) -> (r: Vec<Json>)
    ensures
        jsons_model(r@) == jsons_model(v@),
    decreases v, 0int,
{
    let mut r: Vec<Json> = Vec::new();
    let mut k: usize = 0;
    while k < v.len()
        invariant
            k <= v@.len(),
            r@.len() == k,
            forall|m: int| 0 <= m < k ==> json_model(#[trigger] r@[m]) == json_model(v@[m]),
        decreases v@.len() - k,
    {
        r.push(v[k].clone());
        k = k + 1;
    }
    assert(jsons_model(r@) =~= jsons_model(v@));
    r
}

fn clone_members(v: &Vec<(String, Json)>) -> (r: Vec<(String, Json)>)
    ensures
        members_model(r@) == members_model(v@),
    decreases v, 0int,
{
    let mut r: Vec<(String, Json)> = Vec::new();
    let mut k: usize = 0;
    while k < v.len()
        invariant
            k <= v@.len(),
            r@.len() == k,
            forall|m: int| 0 <= m < k ==> (#[trigger] r@[m]).0@ == v@[m].0@ && json_model(r@[m].1)
                == json_model(v@[m].1),
        decreases v@.len() - k,
    {
        proof {
            assert(decreases_to!(v@[k as int] => v@[k as int].1));
        }
        let e = (v[k].0.clone(), v[k].1.clone());
        r.push(e);
        k = k + 1;
    }
    assert(members_model(r@) =~= members_model(v@));
    r
}

impl Clone for Json {
    fn clone(&self) -> (r: Self)
        ensures
            json_model(r) == json_model(*self),
        decreases self, 1int,
    {
        proof {
            lemma_json_model(*self);
        }
        match self {
            Json::Null => Json::Null,
            Json::Bool(b) => Json::Bool(*b),
            Json::Number(n) => Json::Number(n.clone()),
            Json::Str(s) => Json::Str(s.clone()),
            Json::Array(v) => {
                let c = Json::Array(clone_jsons(v));
                proof {
                    lemma_json_model(c);
                }
                c
            },
            Json::Object(v) => {
                let c = Json::Object(clone_members(v));
                proof {
                    lemma_json_model(c);
                }
                c
            },
        }
    }
}

// ---------------------------------------------------------------------------------------------
// Paths.

/// What `extract_mut` leaves and gives: the value at `path` taken out of the object that holds
/// it, where every key on the way is there; otherwise the value unchanged and nothing.
pub open spec fn extract_mut_spec(j: JsonModel, path: Seq<Seq<char>>) -> (JsonModel, Option<JsonModel>)
    decreases path.len(),
{
    if path.len() == 0 {
        (j, None)
    } else if path.len() == 1 {
        match j {
            JsonModel::Object(es) => (JsonModel::Object(remove_member(es, path[0])), get_member(es, path[0])),
            _ => (j, None),
        }
    } else {
        match j {
            JsonModel::Object(es) => match get_member(es, path[0]) {
                Some(c) => {
                    let inner = extract_mut_spec(c, path.drop_first());
                    (JsonModel::Object(put_member(es, path[0], inner.0)), inner.1)
                },
                None => (j, None),
            },
            _ => (j, None),
        }
    }
}

/// The value at `path`, nested in objects of one member each along the path, where every key on
/// the way is there; the whole value for the empty path.
pub open spec fn extract_spec(j: JsonModel, path: Seq<Seq<char>>) -> Option<JsonModel>
    decreases path.len(),
{
    if path.len() == 0 {
        Some(j)
    } else {
        match j {
            JsonModel::Object(es) => match get_member(es, path[0]) {
                Some(c) => match extract_spec(c, path.drop_first()) {
                    Some(f) => Some(JsonModel::Object(seq![(path[0], f)])),
                    None => None,
                },
                None => None,
            },
            _ => None,
        }
    }
}

/// The value without the member at `path`, where every key on the way is there; otherwise
/// unchanged.
pub open spec fn remove_field_spec(j: JsonModel, path: Seq<Seq<char>>) -> JsonModel
    decreases path.len(),
{
    if path.len() == 0 {
        j
    } else if path.len() == 1 {
        match j {
            JsonModel::Object(es) => JsonModel::Object(remove_member(es, path[0])),
            _ => j,
        }
    } else {
        match j {
            JsonModel::Object(es) => match get_member(es, path[0]) {
                Some(c) => JsonModel::Object(
                    put_member(remove_member(es, path[0]), path[0], remove_field_spec(c, path.drop_first())),
                ),
                None => j,
            },
            _ => j,
        }
    }
}

pub proof fn lemma_member_wf(es: Seq<(Seq<char>, JsonModel)>, k: Seq<char>)
    requires
        json_wf(JsonModel::Object(es)),
    ensures
        get_member(es, k) matches Some(c) ==> json_wf(c),
{
    if has_key(es, k) {
        let i = key_at(es, k);
        assert(json_wf(es[i].1));
    }
}

pub proof fn lemma_put_wf(es: Seq<(Seq<char>, JsonModel)>, k: Seq<char>, v: JsonModel)
    requires
        json_wf(JsonModel::Object(es)),
        json_wf(v),
    ensures
        json_wf(JsonModel::Object(put_member(es, k, v))),
{
    lemma_put_member(es, k, v);
    let r = put_member(es, k, v);
    if has_key(es, k) {
        assert forall|i: int| 0 <= i < r.len() implies json_wf(#[trigger] r[i].1) by {
            if i != key_at(es, k) {
                assert(r[i] == es[i]);
            }
        }
    } else {
        lemma_insert_pos(es, k);
        let p = insert_pos(es, k);
        assert forall|i: int| 0 <= i < r.len() implies json_wf(#[trigger] r[i].1) by {
            if i < p {
                assert(r[i] == es[i]);
            } else if i > p {
                assert(r[i] == es[i - 1]);
            }
        }
    }
}

pub proof fn lemma_remove_wf(es: Seq<(Seq<char>, JsonModel)>, k: Seq<char>)
    requires
        json_wf(JsonModel::Object(es)),
    ensures
        json_wf(JsonModel::Object(remove_member(es, k))),
{
    lemma_remove_member(es, k);
    let r = remove_member(es, k);
    if has_key(es, k) {
        let p = key_at(es, k);
        assert forall|i: int| 0 <= i < r.len() implies json_wf(#[trigger] r[i].1) by {
            if i < p {
                assert(r[i] == es[i]);
            } else {
                assert(r[i] == es[i + 1]);
            }
        }
    }
}

/// Takes the value at `path` out of `json` (see `extract_mut_spec`). The path may be empty only
/// where `json` is not an object.
pub fn extract_mut(json_value: &mut Json, path: &[String]) -> (r: Option<Json>)
    requires
        json_wf(json_model(*old(json_value))),
        path@.len() > 0 || !(json_model(*old(json_value)) is Object),
    ensures
        json_wf(json_model(*final(json_value))),
        (json_model(*final(json_value)), match r {
            Some(v) => Some(json_model(v)),
            None => None,
        }) == extract_mut_spec(json_model(*old(json_value)), strings_view(path@)),
        r matches Some(v) ==> json_wf(json_model(v)),
{
    assert(strings_view(path@).skip(0) =~= strings_view(path@));
    extract_mut_from(json_value, path, 0)
}

#[verifier::rlimit(50)]
fn extract_mut_from(json_value: &mut Json, path: &[String], start: usize) -> (r: Option<Json>)
    requires
        json_wf(json_model(*old(json_value))),
        start <= path@.len(),
        path@.len() > start || !(json_model(*old(json_value)) is Object),
    ensures
        json_wf(json_model(*final(json_value))),
        (json_model(*final(json_value)), match r {
            Some(v) => Some(json_model(v)),
            None => None,
        }) == extract_mut_spec(json_model(*old(json_value)), strings_view(path@).skip(start as int)),
        r matches Some(v) ==> json_wf(json_model(v)),
    decreases path@.len() - start,
{
    let ghost p = strings_view(path@).skip(start as int);
    let ghost jm = json_model(*json_value);
    proof {
        lemma_json_model(*json_value);
    }
    if path.len() - start == 1 {
        match json_value {
            Json::Object(v) => {
                let r = take(v, path[start].as_str());
                proof {
                    assert(p[0] == path@[start as int]@);
                    lemma_json_model(*json_value);
                    lemma_remove_wf(jm->Object_0, p[0]);
                    lemma_member_wf(jm->Object_0, p[0]);
                }
                r
            },
            _ => None,
        }
    } else if path.len() == start {
        None
    } else {
        match json_value {
            Json::Object(v) => {
                proof {
                    assert(p[0] == path@[start as int]@);
                    lemma_member_wf(jm->Object_0, p[0]);
                }
                match find_key(v, path[start].as_str()) {
                    Some(i) => {
                        let ghost vm = members_model(v@);
                        let (k, mut c) = v.remove(i);
                        assert(json_model(c) == vm[i as int].1);
                        let r = extract_mut_from(&mut c, path, start + 1);
                        assert(strings_view(path@).skip(start + 1) =~= p.drop_first());
                        let ghost cm = json_model(c);
                        v.insert(i, (k, c));
                        proof {
                            assert(members_model(v@) =~= vm.update(i as int, (p[0], cm)));
                            lemma_json_model(*json_value);
                            lemma_put_wf(vm, p[0], cm);
                        }
                        r
                    },
                    None => None,
                }
            },
            _ => None,
        }
    }
}

/// The value at `path`, nested as `extract_spec` says.
pub fn extract(json_value: &Json, path: &[String]) -> (r: Option<Json>)
    requires
        json_wf(json_model(*json_value)),
    ensures
        match r {
            Some(v) => extract_spec(json_model(*json_value), strings_view(path@)) == Some(json_model(v)),
            None => extract_spec(json_model(*json_value), strings_view(path@)) is None,
        },
        r matches Some(v) ==> json_wf(json_model(v)),
{
    assert(strings_view(path@).skip(0) =~= strings_view(path@));
    extract_from(json_value, path, 0)
}

fn extract_from(json_value: &Json, path: &[String], start: usize) -> (r: Option<Json>)
    requires
        json_wf(json_model(*json_value)),
        start <= path@.len(),
    ensures
        match r {
            Some(v) => extract_spec(json_model(*json_value), strings_view(path@).skip(start as int))
                == Some(json_model(v)),
            None => extract_spec(json_model(*json_value), strings_view(path@).skip(start as int)) is None,
        },
        r matches Some(v) ==> json_wf(json_model(v)),
    decreases path@.len() - start,
{
    let ghost p = strings_view(path@).skip(start as int);
    if start == path.len() {
        return Some(json_value.clone());
    }
    proof {
        lemma_json_model(*json_value);
        assert(p[0] == path@[start as int]@);
        assert(strings_view(path@).skip(start + 1) =~= p.drop_first());
    }
    match json_value {
        Json::Object(v) => match member(v, path[start].as_str()) {
            Some(c) => {
                proof {
                    lemma_member_wf(members_model(v@), p[0]);
                }
                match extract_from(c, path, start + 1) {
                    Some(f) => {
                        let mut members: Vec<(String, Json)> = Vec::new();
                        members.push((path[start].clone(), f));
                        let r = Json::Object(members);
                        proof {
                            lemma_json_model(r);
                            assert(members_model(members@) =~= seq![(p[0], json_model(f))]);
                        }
                        Some(r)
                    },
                    None => None,
                }
            },
            None => None,
        },
        _ => None,
    }
}

/// The value without the member at `path` (see `remove_field_spec`).
pub fn remove_field(json_value: Json, path: &[String]) -> (r: Json)
    requires
        json_wf(json_model(json_value)),
    ensures
        json_model(r) == remove_field_spec(json_model(json_value), strings_view(path@)),
        json_wf(json_model(r)),
{
    assert(strings_view(path@).skip(0) =~= strings_view(path@));
    remove_field_from(json_value, path, 0)
}

#[verifier::rlimit(50)]
fn remove_field_from(json_value: Json, path: &[String], start: usize) -> (r: Json)
    requires
        json_wf(json_model(json_value)),
        start <= path@.len(),
    ensures
        json_model(r) == remove_field_spec(json_model(json_value), strings_view(path@).skip(start as int)),
        json_wf(json_model(r)),
    decreases path@.len() - start,
{
    let ghost p = strings_view(path@).skip(start as int);
    let ghost jm = json_model(json_value);
    if start == path.len() {
        return json_value;
    }
    proof {
        lemma_json_model(json_value);
        assert(p[0] == path@[start as int]@);
        assert(strings_view(path@).skip(start + 1) =~= p.drop_first());
    }
    if path.len() - start == 1 {
        match json_value {
            Json::Object(v) => {
                let mut v = v;
                let _ = take(&mut v, path[start].as_str());
                let r = Json::Object(v);
                proof {
                    lemma_json_model(r);
                    lemma_remove_wf(jm->Object_0, p[0]);
                }
                r
            },
            other => other,
        }
    } else {
        match json_value {
            Json::Object(v) => {
                let mut v = v;
                let ghost vm = members_model(v@);
                match take(&mut v, path[start].as_str()) {
                    Some(removed_field) => {
                        proof {
                            lemma_member_wf(vm, p[0]);
                            lemma_remove_wf(vm, p[0]);
                        }
                        let new_field = remove_field_from(removed_field, path, start + 1);
                        proof {
                            lemma_put_wf(remove_member(vm, p[0]), p[0], json_model(new_field));
                        }
                        put(&mut v, path[start].clone(), new_field);
                        let r = Json::Object(v);
                        proof {
                            lemma_json_model(r);
                        }
                        r
                    },
                    None => {
                        let r = Json::Object(v);
                        proof {
                            lemma_json_model(r);
                        }
                        r
                    },
                }
            },
            other => other,
        }
    }
}

// ---------------------------------------------------------------------------------------------
// Laws.

/// `v` nested in objects of one member each, one per key of `path`.
pub open spec fn nest(path: Seq<Seq<char>>, v: JsonModel) -> JsonModel
    decreases path.len(),
{
    if path.len() == 0 {
        v
    } else {
        JsonModel::Object(seq![(path[0], nest(path.drop_first(), v))])
    }
}

/// Setting a key greater than every key of sorted members appends it.
pub proof fn lemma_put_member_last(acc: Seq<(Seq<char>, JsonModel)>, k: Seq<char>, v: JsonModel)
    requires
        forall|i: int| 0 <= i < acc.len() ==> str_less(#[trigger] acc[i].0, k),
    ensures
        put_member(acc, k, v) == acc.push((k, v)),
{
    if has_key(acc, k) {
        let i = key_at(acc, k);
        assert(acc[i].0 == k);
        lemma_str_less_order(k, k, k);
    }
    if acc.len() > 0 {
        assert(str_less(acc[acc.len() - 1].0, k));
    }
    assert(acc.insert(acc.len() as int, (k, v)) =~= acc.push((k, v)));
}

/// Merging sorted members into sorted members all of whose keys come first appends them.
pub proof fn lemma_merge_members_append(acc: Seq<(Seq<char>, JsonModel)>, rest: Seq<(Seq<char>, JsonModel)>)
    requires
        keys_sorted(acc + rest),
    ensures
        merge_members(acc, rest) == acc + rest,
    decreases rest.len(),
{
    let all = acc + rest;
    if rest.len() == 0 {
        assert(all =~= acc);
    } else {
        let (k, v) = rest[0];
        assert(all[acc.len() as int] == rest[0]);
        assert forall|i: int| 0 <= i < acc.len() implies str_less(#[trigger] acc[i].0, k) by {
            assert(all[i] == acc[i]);
        }
        if has_key(acc, k) {
            let i = key_at(acc, k);
            assert(acc[i].0 == k);
            assert(str_less(acc[i].0, k));
            lemma_str_less_order(k, k, k);
        }
        assert(get_member(acc, k) is None);
        assert(merge(JsonModel::Null, v) == v);
        lemma_put_member_last(acc, k, v);
        let acc2 = acc.push((k, v));
        assert(acc2 + rest.drop_first() =~= all);
        lemma_merge_members_append(acc2, rest.drop_first());
    }
}

/// Once `extract_mut` has taken the value at a path out, nothing is left there to extract.
pub proof fn law_extract_mut_leaves_nothing(j: JsonModel, path: Seq<Seq<char>>)
    requires
        json_wf(j),
        path.len() > 0,
    ensures
        extract_spec(extract_mut_spec(j, path).0, path) is None,
    decreases path.len(),
{
    if let JsonModel::Object(es) = j {
        if path.len() == 1 {
            lemma_remove_member(es, path[0]);
        } else if let Some(c) = get_member(es, path[0]) {
            lemma_member_wf(es, path[0]);
            law_extract_mut_leaves_nothing(c, path.drop_first());
            lemma_put_member(es, path[0], extract_mut_spec(c, path.drop_first()).0);
        }
    }
}

/// `extract` finds a value at a path exactly where `extract_mut` does, and gives it nested under
/// the keys of the path.
pub proof fn law_extract_agrees_with_extract_mut(j: JsonModel, path: Seq<Seq<char>>)
    requires
        json_wf(j),
        path.len() > 0,
    ensures
        extract_spec(j, path) == match extract_mut_spec(j, path).1 {
            Some(v) => Some(nest(path, v)),
            None => None,
        },
    decreases path.len(),
{
    if let JsonModel::Object(es) = j {
        if path.len() == 1 {
            if let Some(c) = get_member(es, path[0]) {
                assert(nest(path.drop_first(), c) == c);
                assert(extract_spec(c, path.drop_first()) == Some(c));
            }
        } else if let Some(c) = get_member(es, path[0]) {
            lemma_member_wf(es, path[0]);
            law_extract_agrees_with_extract_mut(c, path.drop_first());
        }
    }
}

/// After `remove_field` nothing is left at the path to extract.
pub proof fn law_remove_field_leaves_nothing(j: JsonModel, path: Seq<Seq<char>>)
    requires
        json_wf(j),
        path.len() > 0,
    ensures
        extract_spec(remove_field_spec(j, path), path) is None,
    decreases path.len(),
{
    if let JsonModel::Object(es) = j {
        if path.len() == 1 {
            lemma_remove_member(es, path[0]);
        } else if let Some(c) = get_member(es, path[0]) {
            lemma_member_wf(es, path[0]);
            law_remove_field_leaves_nothing(c, path.drop_first());
            lemma_remove_member(es, path[0]);
            lemma_put_member(remove_member(es, path[0]), path[0], remove_field_spec(c, path.drop_first()));
        }
    }
}

/// Merging into an object sets each key of the merged object to the merge of the two values
/// under it, and keeps every other key of the target.
#[verifier::rlimit(50)]
pub proof fn law_merge_members(ae: Seq<(Seq<char>, JsonModel)>, be: Seq<(Seq<char>, JsonModel)>, k: Seq<char>)
    requires
        keys_sorted(ae),
        keys_sorted(be),
    ensures
        keys_sorted(merge_members(ae, be)),
        get_member(merge_members(ae, be), k) == match get_member(be, k) {
            Some(bv) => Some(
                merge(
                    match get_member(ae, k) {
                        Some(av) => av,
                        None => JsonModel::Null,
                    },
                    bv,
                ),
            ),
            None => get_member(ae, k),
        },
    decreases be.len(),
{
    if be.len() > 0 {
        let k0 = be[0].0;
        let cur = match get_member(ae, k0) {
            Some(x) => x,
            None => JsonModel::Null,
        };
        let ae2 = put_member(ae, k0, merge(cur, be[0].1));
        lemma_put_member(ae, k0, merge(cur, be[0].1));
        let rest = be.drop_first();
        assert(keys_sorted(rest)) by {
            assert forall|a: int, b: int| 0 <= a < b < rest.len() implies str_less(
                #[trigger] rest[a].0,
                #[trigger] rest[b].0,
            ) by {
                assert(rest[a] == be[a + 1] && rest[b] == be[b + 1]);
            }
        }
        law_merge_members(ae2, rest, k);
        if k == k0 {
            lemma_key_unique(be, k0, 0);
            assert(!has_key(rest, k)) by {
                if has_key(rest, k) {
                    let w = choose|i: int| 0 <= i < rest.len() && #[trigger] rest[i].0 == k;
                    assert(rest[w] == be[w + 1]);
                    assert(str_less(be[0].0, be[w + 1].0));
                    lemma_str_less_order(k, k, k);
                }
            }
        } else {
            if has_key(be, k) {
                let i = key_at(be, k);
                assert(be[i].0 == k);
                assert(i > 0);
                assert(rest[i - 1] == be[i]);
                lemma_key_unique(rest, k, i - 1);
            }
            if has_key(rest, k) {
                let i = key_at(rest, k);
                assert(rest[i].0 == k);
                assert(rest[i] == be[i + 1]);
                lemma_key_unique(be, k, i + 1);
            }
        }
    }
}

} // verus!
