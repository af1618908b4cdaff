//! The closed set of port types, their textual surface syntax, and the
//! match relation against dynamic values.

use vstd::prelude::*;
use crate::json::{Json, JsonV, views_of, lemma_views_of, str_eq};

verus! {

broadcast use
    vstd::seq::axiom_seq_index_decreases,
    vstd::seq::axiom_seq_subrange_decreases,
    vstd::std_specs::vec::axiom_vec_decreases_to_view;

/// A port or return type. `Any` matches every value; `Array` matches
/// arrays whose every element matches the inner type.
#[derive(Debug)]
pub enum SpellType {
    Number,
    Str,
    Boolean,
    Array(Box<SpellType>),
    Any,
    Unit,
}

impl View for SpellType {
    type V = SpellType;

    open spec fn view(&self) -> SpellType {
        *self
    }
}

/// The characters the surface syntax treats as trimmable blanks.
pub open spec fn is_space(c: char) -> bool {
    c == ' ' || c == '\t' || c == '\n' || c == '\r'
}

/// A string with its leading blanks dropped.
pub open spec fn trim_front(s: Seq<char>) -> Seq<char>
    decreases s.len(),
{
    if s.len() > 0 && is_space(s[0]) {
        trim_front(s.subrange(1, s.len() as int))
    } else {
        s
    }
}

/// A string with its trailing blanks dropped.
pub open spec fn trim_back(s: Seq<char>) -> Seq<char>
    decreases s.len(),
{
    if s.len() > 0 && is_space(s[s.len() - 1]) {
        trim_back(s.subrange(0, s.len() - 1))
    } else {
        s
    }
}

/// A string with blanks dropped at both ends.
pub open spec fn trim_of(s: Seq<char>) -> Seq<char> {
    trim_back(trim_front(s))
}

/// Trimming never lengthens a string.
pub proof fn lemma_trim_len(s: Seq<char>)
    ensures
        trim_of(s).len() <= s.len(),
{
    lemma_trim_front_len(s);
    lemma_trim_back_len(trim_front(s));
}

proof fn lemma_trim_front_len(s: Seq<char>)
    ensures
        trim_front(s).len() <= s.len(),
    decreases s.len(),
{
    if s.len() > 0 && is_space(s[0]) {
        lemma_trim_front_len(s.subrange(1, s.len() as int));
    }
}

proof fn lemma_trim_back_len(s: Seq<char>)
    ensures
        trim_back(s).len() <= s.len(),
    decreases s.len(),
{
    if s.len() > 0 && is_space(s[s.len() - 1]) {
        lemma_trim_back_len(s.subrange(0, s.len() - 1));
    }
}

/// A string that neither starts nor ends with a blank trims to itself.
pub proof fn lemma_trim_id(s: Seq<char>)
    requires
        s.len() > 0 ==> !is_space(s[0]) && !is_space(s[s.len() - 1]),
    ensures
        trim_of(s) == s,
{
}

/// The surface text of a type: the leaf names verbatim, and
/// `Array<inner>` recursively.
pub open spec fn type_text(t: SpellType) -> Seq<char>
    decreases t,
{
    match t {
        SpellType::Number => "Number"@,
        SpellType::Str => "String"@,
        SpellType::Boolean => "Boolean"@,
        SpellType::Any => "Any"@,
        SpellType::Unit => "Unit"@,
        SpellType::Array(inner) => "Array<"@ + type_text(*inner) + ">"@,
    }
}

/// The type a surface string denotes, if any: the string is trimmed,
/// leaf names are matched verbatim, and `Array<` with a trailing `>`
/// admits any parseable inner text.
pub open spec fn parse_type(s: Seq<char>) -> Option<SpellType>
    decreases s.len(),
    via parse_type_dec
{
    let t = trim_of(s);
    if t == "Number"@ {
        Some(SpellType::Number)
    } else if t == "String"@ {
        Some(SpellType::Str)
    } else if t == "Boolean"@ {
        Some(SpellType::Boolean)
    } else if t == "Any"@ {
        Some(SpellType::Any)
    } else if t == "Unit"@ {
        Some(SpellType::Unit)
    } else if t.len() >= 7 && t.subrange(0, 6) == "Array<"@ && t[t.len() - 1] == '>' {
        match parse_type(t.subrange(6, t.len() - 1)) {
            Some(inner) => Some(SpellType::Array(Box::new(inner))),
            None => None,
        }
    } else {
        None
    }
}

#[via_fn]
proof fn parse_type_dec(s: Seq<char>) {
    lemma_trim_len(s);
}

/// The message reported for a surface string that denotes no type:
/// it quotes the trimmed text where the parse gave up, innermost first.
pub open spec fn parse_err_text(s: Seq<char>) -> Seq<char>
    decreases s.len(),
    via parse_err_text_dec
{
    let t = trim_of(s);
    if t.len() >= 7 && t.subrange(0, 6) == "Array<"@ && t[t.len() - 1] == '>' && t != "Number"@
        && t != "String"@ && t != "Boolean"@ && t != "Any"@ && t != "Unit"@ {
        parse_err_text(t.subrange(6, t.len() - 1))
    } else {
        "Unknown type: '"@ + t + "'"@
    }
}

#[via_fn]
proof fn parse_err_text_dec(s: Seq<char>) {
    lemma_trim_len(s);
}

/// Whether a value fits a type: `Any` fits everything, the scalar types
/// fit the matching JSON shape, `Unit` fits null, and `Array<T>` fits
/// arrays whose every element fits `T`.
pub open spec fn type_matches(t: SpellType, v: JsonV) -> bool
    decreases v,
{
    match t {
        SpellType::Any => true,
        SpellType::Number => v is Num,
        SpellType::Str => v is Str,
        SpellType::Boolean => v is Bool,
        SpellType::Unit => v is Null,
        SpellType::Array(inner) => match v {
            JsonV::Arr(items) => all_elems_fit(*inner, items),
            _ => false,
        },
    }
}

/// Whether every element of a sequence fits a type.
pub open spec fn all_elems_fit(t: SpellType, items: Seq<JsonV>) -> bool
    decreases items,
{
    if items.len() == 0 {
        true
    } else {
        all_elems_fit(t, items.subrange(0, items.len() - 1)) && type_matches(
            t,
            items[items.len() - 1],
        )
    }
}

/// A sequence fits element-wise exactly when each element fits.
pub proof fn lemma_all_elems_fit(t: SpellType, items: Seq<JsonV>)
    ensures
        all_elems_fit(t, items) <==> (forall|i: int|
            0 <= i < items.len() ==> #[trigger] type_matches(t, items[i])),
    decreases items.len(),
{
    if items.len() > 0 {
        let rest = items.subrange(0, items.len() - 1);
        lemma_all_elems_fit(t, rest);
        assert(forall|i: int| 0 <= i < rest.len() ==> rest[i] == items[i]);
        if all_elems_fit(t, items) {
            assert(all_elems_fit(t, rest));
            assert(type_matches(t, items[items.len() - 1]));
            assert forall|i: int| 0 <= i < items.len() implies #[trigger] type_matches(
                t,
                items[i],
            ) by {
                if i < items.len() - 1 {
                    assert(type_matches(t, rest[i]));
                }
            }
        }
        if forall|i: int| 0 <= i < items.len() ==> #[trigger] type_matches(t, items[i]) {
            assert forall|i: int| 0 <= i < rest.len() implies #[trigger] type_matches(
                t,
                rest[i],
            ) by {
                assert(type_matches(t, items[i]));
            }
            assert(all_elems_fit(t, rest));
            assert(type_matches(t, items[items.len() - 1]));
            assert(all_elems_fit(t, items));
        }
    }
}

/// Whether a blank-free character can begin trimmed text.
fn space_char(c: char) -> (r: bool)
    ensures
        r == is_space(c),
{
    c == ' ' || c == '\t' || c == '\n' || c == '\r'
}

/// The slice with blanks dropped at both ends.
fn trim_str(s: &str) -> (t: &str)
    ensures
        t@ == trim_of(s@),
{
    let n: usize = s.unicode_len();
    proof {
        assert(s@.subrange(0, n as int) =~= s@);
    }
    let mut a: usize = 0;
    while a < n && space_char(s.get_char(a))
        invariant
            n == s@.len(),
            a <= n,
            trim_front(s@) == trim_front(s@.subrange(a as int, n as int)),
        decreases n - a,
    {
        proof {
            let cur = s@.subrange(a as int, n as int);
            assert(cur[0] == s@[a as int]);
            assert(cur.subrange(1, cur.len() as int) =~= s@.subrange(a + 1, n as int));
        }
        a = a + 1;
    }
    proof {
        let cur = s@.subrange(a as int, n as int);
        if a < n {
            assert(cur[0] == s@[a as int]);
        }
        assert(trim_front(s@) == cur);
    }
    let mut b: usize = n;
    while b > a && space_char(s.get_char(b - 1))
        invariant
            n == s@.len(),
            a <= b <= n,
            trim_front(s@) == s@.subrange(a as int, n as int),
            trim_back(s@.subrange(a as int, n as int)) == trim_back(
                s@.subrange(a as int, b as int),
            ),
        decreases b,
    {
        proof {
            let cur = s@.subrange(a as int, b as int);
            assert(cur[cur.len() - 1] == s@[b - 1]);
            assert(cur.subrange(0, cur.len() - 1) =~= s@.subrange(a as int, b - 1));
        }
        b = b - 1;
    }
    proof {
        let cur = s@.subrange(a as int, b as int);
        if b > a {
            assert(cur[cur.len() - 1] == s@[b - 1]);
        }
        assert(trim_of(s@) == cur);
    }
    s.substring_char(a, b)
}

impl SpellType {
    /// Reads a type from its surface text; a string that denotes no
    /// type is reported back, trimmed and quoted.
    pub fn parse(s: &str) -> (r: Result<SpellType, String>)
        ensures
            match parse_type(s@) {
                Some(t) => r == Ok::<SpellType, String>(t),
                None => r is Err && r->Err_0@ == parse_err_text(s@),
            },
        decreases s@.len(),
    {
        let t: &str = trim_str(s);
        if str_eq(t, "Number") {
            Ok(SpellType::Number)
        } else if str_eq(t, "String") {
            Ok(SpellType::Str)
        } else if str_eq(t, "Boolean") {
            Ok(SpellType::Boolean)
        } else if str_eq(t, "Any") {
            Ok(SpellType::Any)
        } else if str_eq(t, "Unit") {
            Ok(SpellType::Unit)
        } else {
            let n: usize = t.unicode_len();
            if n >= 7 && str_eq(t.substring_char(0, 6), "Array<") && t.get_char(n - 1)
                == '>' {
                let inner: &str = t.substring_char(6, n - 1);
                proof {
                    lemma_trim_len(s@);
                }
                match SpellType::parse(inner) {
                    Ok(it) => Ok(SpellType::Array(Box::new(it))),
                    Err(e) => Err(e),
                }
            } else {
                let mut msg: String = String::new();
                msg.append("Unknown type: '");
                msg.append(t);
                msg.append("'");
                Err(msg)
            }
        }
    }

    /// The surface text of this type.
    pub fn display(&self) -> (r: String)
        ensures
            r@ == type_text(*self),
        decreases *self,
    {
        match self {
            SpellType::Number => "Number".to_owned(),
            SpellType::Str => "String".to_owned(),
            SpellType::Boolean => "Boolean".to_owned(),
            SpellType::Any => "Any".to_owned(),
            SpellType::Unit => "Unit".to_owned(),
            SpellType::Array(inner) => {
                let mut acc: String = String::new();
                acc.append("Array<");
                let it: String = inner.display();
                acc.append(it.as_str());
                acc.append(">");
                acc
            },
        }
    }

    /// Whether a value fits this type.
    pub fn matches(&self, value: &Json) -> (r: bool)
        ensures
            r == type_matches(*self, value@),
        decreases *value,
    {
        match self {
            SpellType::Any => true,
            SpellType::Number => match value {
                Json::Num(_) => true,
                _ => false,
            },
            SpellType::Str => match value {
                Json::Str(_) => true,
                _ => false,
            },
            SpellType::Boolean => match value {
                Json::Bool(_) => true,
                _ => false,
            },
            SpellType::Unit => match value {
                Json::Null => true,
                _ => false,
            },
            SpellType::Array(inner) => match value {
                Json::Arr(items) => {
                    proof {
                        assert(decreases_to!(*value => *items));
                    }
                    let r: bool = arr_elems_match(inner, items);
                    proof {
                        lemma_views_of(items@);
                        let vs = views_of(items@);
                        let bx: Box<SpellType> = *inner;
                        assert(value@ == JsonV::Arr(vs));
                        assert(*self == SpellType::Array(bx));
                        lemma_all_elems_fit(*bx, vs);
                        if r {
                            assert forall|k: int| 0 <= k < vs.len() implies #[trigger] type_matches(
                                *bx,
                                vs[k],
                            ) by {
                                assert(type_matches(*bx, items@[k]@));
                            }
                            assert(all_elems_fit(*bx, vs));
                            assert(type_matches(*self, value@));
                        } else {
                            let k = choose|k: int|
                                0 <= k < items@.len() && !type_matches(
                                    *bx,
                                    #[trigger] items@[k]@,
                                );
                            assert(!type_matches(*bx, vs[k]));
                            assert(!all_elems_fit(*bx, vs));
                            assert(!type_matches(*self, value@));
                        }
                    }
                    r
                },
                _ => false,
            },
        }
    }
}

/// Whether every element of a list fits a type.
fn arr_elems_match(inner: &SpellType, items: &Vec<Json>) -> (r: bool)
    ensures
        r == (forall|k: int| 0 <= k < items@.len() ==> type_matches(*inner, #[trigger] items@[k]@)),
    decreases *items,
{
    let mut i: usize = 0;
    while i < items.len()
        invariant
            i <= items.len(),
            forall|k: int| 0 <= k < i ==> type_matches(*inner, #[trigger] items@[k]@),
        decreases items.len() - i,
    {
        proof {
            assert(decreases_to!(*items => items@));
            assert(decreases_to!(items@ => items@[i as int]));
        }
        if !inner.matches(&items[i]) {
            proof {
                assert(!type_matches(*inner, items@[i as int]@));
            }
            return false;
        }
        i = i + 1;
    }
    true
}

/// Parsing the surface text of a type yields the type back: the
/// round-trip law for the closed type set.
pub proof fn lemma_parse_display(t: SpellType)
    ensures
        parse_type(type_text(t)) == Some(t),
    decreases t,
{
    reveal_strlit("Number");
    reveal_strlit("String");
    reveal_strlit("Boolean");
    reveal_strlit("Any");
    reveal_strlit("Unit");
    reveal_strlit("Array<");
    reveal_strlit(">");
    let s = type_text(t);
    lemma_type_text_no_blank_ends(t);
    lemma_trim_id(s);
    match t {
        SpellType::Array(inner) => {
            let it = type_text(*inner);
            assert(s == "Array<"@ + it + ">"@);
            assert(s.len() == it.len() + 7);
            assert(s.subrange(0, 6) =~= "Array<"@);
            assert(s[s.len() - 1] == '>');
            assert(s != "Number"@ && s != "String"@ && s != "Boolean"@ && s != "Any"@ && s
                != "Unit"@) by {
                assert(s[0] == 'A' && s[5] == '<');
            }
            assert(s.subrange(6, s.len() - 1) =~= it);
            lemma_parse_display(*inner);
        },
        _ => {},
    }
}

/// The surface text of a type neither starts nor ends with a blank.
proof fn lemma_type_text_no_blank_ends(t: SpellType)
    ensures
        type_text(t).len() > 0,
        !is_space(type_text(t)[0]),
        !is_space(type_text(t)[type_text(t).len() - 1]),
    decreases t,
{
    reveal_strlit("Number");
    reveal_strlit("String");
    reveal_strlit("Boolean");
    reveal_strlit("Any");
    reveal_strlit("Unit");
    reveal_strlit("Array<");
    reveal_strlit(">");
    match t {
        SpellType::Array(inner) => {
            lemma_type_text_no_blank_ends(*inner);
            let s = type_text(t);
            assert(s[0] == 'A');
            assert(s[s.len() - 1] == '>');
        },
        _ => {},
    }
}

/// Whether two types are the same, variant by variant.
pub open spec fn same_type(a: SpellType, b: SpellType) -> bool
    decreases a,
{
    match a {
        SpellType::Number => b is Number,
        SpellType::Str => b is Str,
        SpellType::Boolean => b is Boolean,
        SpellType::Any => b is Any,
        SpellType::Unit => b is Unit,
        SpellType::Array(x) => match b {
            SpellType::Array(y) => same_type(*x, *y),
            _ => false,
        },
    }
}

impl vstd::std_specs::cmp::PartialEqSpecImpl for SpellType {
    open spec fn obeys_eq_spec() -> bool {
        true
    }

    open spec fn eq_spec(&self, other: &SpellType) -> bool {
        same_type(*self, *other)
    }
}

/// Whether two types are the same, variant by variant.
fn type_eq(a: &SpellType, b: &SpellType) -> (r: bool)
    ensures
        r == same_type(*a, *b),
    decreases *a,
{
    match a {
        SpellType::Number => matches!(b, SpellType::Number),
        SpellType::Str => matches!(b, SpellType::Str),
        SpellType::Boolean => matches!(b, SpellType::Boolean),
        SpellType::Any => matches!(b, SpellType::Any),
        SpellType::Unit => matches!(b, SpellType::Unit),
        SpellType::Array(x) => match b {
            SpellType::Array(y) => type_eq(&**x, &**y),
            _ => false,
        },
    }
}

impl PartialEq for SpellType {
    /// Whether two types are the same.
    fn eq(&self, other: &SpellType) -> (r: bool) {
        type_eq(self, other)
    }
}

impl Eq for SpellType {

}

/// A structurally equal copy of this type.
impl SpellType {
    pub fn duplicate(&self) -> (r: SpellType)
        ensures
            r == *self,
        decreases *self,
    {
        match self {
            SpellType::Number => SpellType::Number,
            SpellType::Str => SpellType::Str,
            SpellType::Boolean => SpellType::Boolean,
            SpellType::Any => SpellType::Any,
            SpellType::Unit => SpellType::Unit,
            SpellType::Array(x) => SpellType::Array(Box::new(x.duplicate())),
        }
    }
}

} // verus!
