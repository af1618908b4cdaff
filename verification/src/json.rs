//! The dynamic values that flow through a program: JSON-shaped data.
//!
//! `Json` is the executable representation; `JsonV` is its mathematical
//! model, used by every contract in the crate.

use vstd::prelude::*;

verus! {

broadcast use
    vstd::seq::axiom_seq_index_decreases,
    vstd::seq::axiom_seq_subrange_decreases,
    vstd::std_specs::vec::axiom_vec_decreases_to_view;

/// The mathematical model of a JSON value. Numbers are unbounded
/// integers, strings are character sequences, and objects are entry
/// lists in their original key order.
pub enum JsonV {
    Null,
    Bool(bool),
    Num(int),
    Str(Seq<char>),
    Arr(Seq<JsonV>),
    Obj(Seq<(Seq<char>, JsonV)>),
}

/// A JSON value as the evaluator holds it. Numbers are 64-bit signed
/// integers; objects keep their entries as a list in key order.
#[derive(Debug)]
pub enum Json {
    Null,
    Bool(bool),
    Num(i64),
    Str(String),
    Arr(Vec<Json>),
    Obj(Vec<(String, Json)>),
}

/// The model of a sequence of values: each element abstracted.
pub open spec fn views_of(items: Seq<Json>) -> Seq<JsonV>
    decreases items,
{
    if items.len() == 0 {
        Seq::empty()
    } else {
        views_of(items.subrange(0, items.len() - 1)).push(view_of(items[items.len() - 1]))
    }
}

/// The model of a sequence of object entries: each key and value abstracted.
pub open spec fn views_of_entries(entries: Seq<(String, Json)>) -> Seq<(Seq<char>, JsonV)>
    decreases entries,
{
    if entries.len() == 0 {
        Seq::empty()
    } else {
        views_of_entries(entries.subrange(0, entries.len() - 1)).push(
            (entries[entries.len() - 1].0@, view_of(entries[entries.len() - 1].1)),
        )
    }
}

/// The model of a single value.
pub open spec fn view_of(j: Json) -> JsonV
    decreases j,
{
    match j {
        Json::Null => JsonV::Null,
        Json::Bool(b) => JsonV::Bool(b),
        Json::Num(n) => JsonV::Num(n as int),
        Json::Str(s) => JsonV::Str(s@),
        Json::Arr(items) => JsonV::Arr(views_of(items@)),
        Json::Obj(entries) => JsonV::Obj(views_of_entries(entries@)),
    }
}

impl View for Json {
    type V = JsonV;

    open spec fn view(&self) -> JsonV {
        view_of(*self)
    }
}

/// `views_of` maps each element to its model, index by index.
pub proof fn lemma_views_of(items: Seq<Json>)
    ensures
        views_of(items).len() == items.len(),
        forall|i: int| 0 <= i < items.len() ==> views_of(items)[i] == view_of(items[i]),
    decreases items,
{
    if items.len() > 0 {
        lemma_views_of(items.subrange(0, items.len() - 1));
        assert forall|i: int| 0 <= i < items.len() implies views_of(items)[i] == view_of(
            items[i],
        ) by {
            if i < items.len() - 1 {
                assert(items.subrange(0, items.len() - 1)[i] == items[i]);
            }
        }
    }
}

/// The larger of two lengths.
pub open spec fn nmax(a: nat, b: nat) -> nat {
    if a >= b {
        a
    } else {
        b
    }
}

/// Nesting depth of a value: scalars have depth zero, an array or
/// object is one deeper than its deepest member.
pub open spec fn jdepth(v: JsonV) -> nat
    decreases v,
{
    match v {
        JsonV::Arr(items) => 1 + depth_of_elems(items),
        JsonV::Obj(entries) => 1 + depth_of_entries(entries),
        _ => 0,
    }
}

/// Depth of the deepest element of a sequence (zero when empty).
pub open spec fn depth_of_elems(items: Seq<JsonV>) -> nat
    decreases items,
{
    if items.len() == 0 {
        0
    } else {
        nmax(depth_of_elems(items.subrange(0, items.len() - 1)), jdepth(items[items.len() - 1]))
    }
}

/// Depth of the deepest entry value of an object (zero when empty).
pub open spec fn depth_of_entries(entries: Seq<(Seq<char>, JsonV)>) -> nat
    decreases entries,
{
    if entries.len() == 0 {
        0
    } else {
        nmax(
            depth_of_entries(entries.subrange(0, entries.len() - 1)),
            jdepth(entries[entries.len() - 1].1),
        )
    }
}

/// Every element of a sequence is bounded by the sequence's depth.
pub proof fn lemma_depth_of_elems(items: Seq<JsonV>)
    ensures
        forall|i: int| 0 <= i < items.len() ==> jdepth(items[i]) <= depth_of_elems(items),
    decreases items.len(),
{
    if items.len() > 0 {
        lemma_depth_of_elems(items.subrange(0, items.len() - 1));
        assert forall|i: int| 0 <= i < items.len() implies jdepth(items[i]) <= depth_of_elems(
            items,
        ) by {
            if i < items.len() - 1 {
                assert(items.subrange(0, items.len() - 1)[i] == items[i]);
            }
        }
    }
}

/// Every entry value of an object is bounded by the object's entry depth.
pub proof fn lemma_depth_of_entries(entries: Seq<(Seq<char>, JsonV)>)
    ensures
        forall|i: int| 0 <= i < entries.len() ==> jdepth(entries[i].1) <= depth_of_entries(entries),
    decreases entries.len(),
{
    if entries.len() > 0 {
        lemma_depth_of_entries(entries.subrange(0, entries.len() - 1));
        assert forall|i: int| 0 <= i < entries.len() implies jdepth(entries[i].1)
            <= depth_of_entries(entries) by {
            if i < entries.len() - 1 {
                assert(entries.subrange(0, entries.len() - 1)[i] == entries[i]);
            }
        }
    }
}

/// `views_of_entries` maps each entry to its model, index by index.
pub proof fn lemma_views_of_entries(entries: Seq<(String, Json)>)
    ensures
        views_of_entries(entries).len() == entries.len(),
        forall|i: int|
            0 <= i < entries.len() ==> views_of_entries(entries)[i] == (
            entries[i].0@,
            view_of(entries[i].1),
            ),
    decreases entries,
{
    if entries.len() > 0 {
        lemma_views_of_entries(entries.subrange(0, entries.len() - 1));
        assert forall|i: int| 0 <= i < entries.len() implies views_of_entries(entries)[i] == (
            entries[i].0@,
            view_of(entries[i].1),
        ) by {
            if i < entries.len() - 1 {
                assert(entries.subrange(0, entries.len() - 1)[i] == entries[i]);
            }
        }
    }
}

/// Whether two string slices hold the same characters.
pub fn str_eq(a: &str, b: &str) -> (r: bool)
    ensures
        r == (a@ == b@),
{
    let x: String = a.to_owned();
    let y: String = b.to_owned();
    x == y
}

impl Json {
    /// A structurally equal copy of the value.
    pub fn deep_copy(&self) -> (r: Json)
        ensures
            r@ == self@,
        decreases *self,
    {
        match self {
            Json::Null => Json::Null,
            Json::Bool(b) => Json::Bool(*b),
            Json::Num(n) => Json::Num(*n),
            Json::Str(s) => Json::Str(s.as_str().to_owned()),
            Json::Arr(items) => {
                let mut out: Vec<Json> = Vec::new();
                let mut i: usize = 0;
                while i < items.len()
                    invariant
                        i <= items.len(),
                        out@.len() == i,
                        forall|k: int| 0 <= k < i ==> out@[k]@ == items@[k]@,
                        decreases_to!(*self => *items),
                    decreases items.len() - i,
                {
                    proof {
                        assert(decreases_to!(*items => items@));
                        assert(decreases_to!(items@ => items@[i as int]));
                    }
                    out.push(items[i].deep_copy());
                    i = i + 1;
                }
                proof {
                    lemma_views_of(out@);
                    lemma_views_of(items@);
                    assert(views_of(out@) =~= views_of(items@));
                }
                Json::Arr(out)
            },
            Json::Obj(entries) => {
                let mut out: Vec<(String, Json)> = Vec::new();
                let mut i: usize = 0;
                while i < entries.len()
                    invariant
                        i <= entries.len(),
                        out@.len() == i,
                        forall|k: int|
                            0 <= k < i ==> out@[k].0@ == entries@[k].0@ && out@[k].1@
                                == entries@[k].1@,
                        decreases_to!(*self => *entries),
                    decreases entries.len() - i,
                {
                    proof {
                        assert(decreases_to!(*entries => entries@));
                        assert(decreases_to!(entries@ => entries@[i as int]));
                        assert(decreases_to!(entries@[i as int] => entries@[i as int].1));
                    }
                    let entry = &entries[i];
                    out.push((entry.0.as_str().to_owned(), entry.1.deep_copy()));
                    i = i + 1;
                }
                proof {
                    lemma_views_of_entries(out@);
                    lemma_views_of_entries(entries@);
                    assert(views_of_entries(out@) =~= views_of_entries(entries@));
                }
                Json::Obj(out)
            },
        }
    }
}

/// Whether two values are structurally equal: the comparison the `Eq`
/// operation falls back to on non-numeric inputs.
pub fn json_eq(a: &Json, b: &Json) -> (r: bool)
    ensures
        r == (a@ == b@),
    decreases *a,
{
    match a {
        Json::Null => matches!(b, Json::Null),
        Json::Bool(x) => match b {
            Json::Bool(y) => *x == *y,
            _ => false,
        },
        Json::Num(x) => match b {
            Json::Num(y) => *x == *y,
            _ => false,
        },
        Json::Str(x) => match b {
            Json::Str(y) => str_eq(x.as_str(), y.as_str()),
            _ => false,
        },
        Json::Arr(xs) => match b {
            Json::Arr(ys) => {
                proof {
                    lemma_views_of(xs@);
                    lemma_views_of(ys@);
                }
                if xs.len() != ys.len() {
                    return false;
                }
                let mut i: usize = 0;
                while i < xs.len()
                    invariant
                        xs@.len() == ys@.len(),
                        i <= xs.len(),
                        a@ == JsonV::Arr(views_of(xs@)),
                        b@ == JsonV::Arr(views_of(ys@)),
                        forall|k: int| 0 <= k < i ==> views_of(xs@)[k] == views_of(ys@)[k],
                        forall|k: int| 0 <= k < xs@.len() ==> views_of(xs@)[k] == xs@[k]@,
                        forall|k: int| 0 <= k < ys@.len() ==> views_of(ys@)[k] == ys@[k]@,
                        views_of(xs@).len() == xs@.len(),
                        views_of(ys@).len() == ys@.len(),
                        decreases_to!(*a => *xs),
                    decreases xs.len() - i,
                {
                    proof {
                        assert(decreases_to!(*xs => xs@));
                        assert(decreases_to!(xs@ => xs@[i as int]));
                    }
                    if !json_eq(&xs[i], &ys[i]) {
                        proof {
                            assert(views_of(xs@)[i as int] != views_of(ys@)[i as int]);
                            assert(views_of(xs@) != views_of(ys@));
                        }
                        return false;
                    }
                    i = i + 1;
                }
                proof {
                    assert(views_of(xs@) =~= views_of(ys@));
                }
                true
            },
            _ => false,
        },
        Json::Obj(xs) => match b {
            Json::Obj(ys) => {
                proof {
                    lemma_views_of_entries(xs@);
                    lemma_views_of_entries(ys@);
                }
                if xs.len() != ys.len() {
                    return false;
                }
                let mut i: usize = 0;
                while i < xs.len()
                    invariant
                        xs@.len() == ys@.len(),
                        i <= xs.len(),
                        a@ == JsonV::Obj(views_of_entries(xs@)),
                        b@ == JsonV::Obj(views_of_entries(ys@)),
                        forall|k: int|
                            0 <= k < i ==> views_of_entries(xs@)[k] == views_of_entries(ys@)[k],
                        forall|k: int|
                            0 <= k < xs@.len() ==> views_of_entries(xs@)[k] == (
                            xs@[k].0@,
                            xs@[k].1@,
                            ),
                        forall|k: int|
                            0 <= k < ys@.len() ==> views_of_entries(ys@)[k] == (
                            ys@[k].0@,
                            ys@[k].1@,
                            ),
                        views_of_entries(xs@).len() == xs@.len(),
                        views_of_entries(ys@).len() == ys@.len(),
                        decreases_to!(*a => *xs),
                    decreases xs.len() - i,
                {
                    proof {
                        assert(decreases_to!(*xs => xs@));
                        assert(decreases_to!(xs@ => xs@[i as int]));
                        assert(decreases_to!(xs@[i as int] => xs@[i as int].1));
                    }
                    let xe = &xs[i];
                    let ye = &ys[i];
                    if !str_eq(xe.0.as_str(), ye.0.as_str()) {
                        proof {
                            assert(views_of_entries(xs@)[i as int] != views_of_entries(
                                ys@,
                            )[i as int]);
                            assert(views_of_entries(xs@) != views_of_entries(ys@));
                        }
                        return false;
                    }
                    if !json_eq(&xe.1, &ye.1) {
                        proof {
                            assert(views_of_entries(xs@)[i as int] != views_of_entries(
                                ys@,
                            )[i as int]);
                            assert(views_of_entries(xs@) != views_of_entries(ys@));
                        }
                        return false;
                    }
                    i = i + 1;
                }
                proof {
                    assert(views_of_entries(xs@) =~= views_of_entries(ys@));
                }
                true
            },
            _ => false,
        },
    }
}

} // verus!
