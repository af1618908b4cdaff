//! The program schema: typed port values, node records, and the graph.

use vstd::prelude::*;
use crate::json::{Json, JsonV, views_of_entries, lemma_views_of_entries, str_eq};
use crate::types::{SpellType, parse_type};
use crate::error::Error;
use crate::dict::Dict;

verus! {

/// The model of a typed port value.
pub enum TypedValueV {
    /// A typed edge to another node's `out` port.
    Reference(Seq<char>, SpellType),
    /// A typed inline value.
    Literal(JsonV, SpellType),
}

/// A port's value: a literal or a reference, each with the declared
/// type the port expects.
#[derive(Debug)]
pub enum TypedValue {
    /// A typed edge to another node's `out` port.
    Reference { reference: String, value_type: SpellType },
    /// A typed inline value.
    Literal { literal: Json, value_type: SpellType },
}

impl View for TypedValue {
    type V = TypedValueV;

    open spec fn view(&self) -> TypedValueV {
        match self {
            TypedValue::Reference { reference, value_type } => TypedValueV::Reference(
                reference@,
                *value_type,
            ),
            TypedValue::Literal { literal, value_type } => TypedValueV::Literal(
                literal@,
                *value_type,
            ),
        }
    }
}

impl TypedValue {
    /// The declared type of this port value.
    pub fn get_type(&self) -> (r: Option<&SpellType>)
        ensures
            match r {
                Some(t) => match self@ {
                    TypedValueV::Reference(_, vt) => *t == vt,
                    TypedValueV::Literal(_, vt) => *t == vt,
                },
                None => false,
            },
    {
        match self {
            TypedValue::Reference { value_type, .. } => Some(value_type),
            TypedValue::Literal { value_type, .. } => Some(value_type),
        }
    }

    /// Whether this port value is a reference.
    pub fn is_reference(&self) -> (r: bool)
        ensures
            r == (self@ is Reference),
    {
        matches!(self, TypedValue::Reference { .. })
    }

    /// The referenced node identifier, for a reference.
    pub fn get_reference(&self) -> (r: Option<&str>)
        ensures
            match r {
                Some(id) => self@ is Reference && id@ == self@->Reference_0,
                None => !(self@ is Reference),
            },
    {
        match self {
            TypedValue::Reference { reference, .. } => Some(reference.as_str()),
            _ => None,
        }
    }

    /// The inline value, for a literal.
    pub fn get_literal(&self) -> (r: Option<&Json>)
        ensures
            match r {
                Some(v) => self@ is Literal && v@ == self@->Literal_0,
                None => !(self@ is Literal),
            },
    {
        match self {
            TypedValue::Literal { literal, .. } => Some(literal),
            _ => None,
        }
    }
}

/// The first value bound to a key in an object's entry list.
pub open spec fn obj_first(entries: Seq<(Seq<char>, JsonV)>, k: Seq<char>) -> Option<JsonV>
    decreases entries,
{
    if entries.len() == 0 {
        None
    } else if entries[0].0 == k {
        Some(entries[0].1)
    } else {
        obj_first(entries.subrange(1, entries.len() as int), k)
    }
}

/// The typed value an argument's raw JSON denotes, if any: an object
/// with a string `ref` and a parseable `type` is a reference; otherwise
/// one with a `literal` and a parseable `type` is a literal.
pub open spec fn decode_typed(v: JsonV) -> Option<TypedValueV> {
    match v {
        JsonV::Obj(entries) => {
            let r = obj_first(entries, "ref"@);
            let t = obj_first(entries, "type"@);
            let l = obj_first(entries, "literal"@);
            match t {
                Some(JsonV::Str(ts)) => match parse_type(ts) {
                    Some(pt) => match r {
                        Some(JsonV::Str(id)) => Some(TypedValueV::Reference(id, pt)),
                        _ => match l {
                            Some(lv) => Some(TypedValueV::Literal(lv, pt)),
                            None => None,
                        },
                    },
                    None => None,
                },
                _ => None,
            }
        },
        _ => None,
    }
}

/// The first value bound to a key among an object's entries.
fn obj_get<'a>(entries: &'a Vec<(String, Json)>, k: &str) -> (r: Option<&'a Json>)
    ensures
        match r {
            Some(v) => obj_first(views_of_entries(entries@), k@) == Some(v@),
            None => obj_first(views_of_entries(entries@), k@) is None,
        },
{
    proof {
        lemma_views_of_entries(entries@);
        let vs = views_of_entries(entries@);
        assert(vs.subrange(0, vs.len() as int) =~= vs);
    }
    let mut i: usize = 0;
    while i < entries.len()
        invariant
            i <= entries.len(),
            views_of_entries(entries@).len() == entries@.len(),
            forall|j: int|
                0 <= j < entries@.len() ==> views_of_entries(entries@)[j] == (
                entries@[j].0@,
                entries@[j].1@,
                ),
            obj_first(views_of_entries(entries@), k@) == obj_first(
                views_of_entries(entries@).subrange(i as int, entries@.len() as int),
                k@,
            ),
        decreases entries.len() - i,
    {
        proof {
            let vs = views_of_entries(entries@);
            let cur = vs.subrange(i as int, vs.len() as int);
            assert(cur[0] == vs[i as int]);
            assert(cur.subrange(1, cur.len() as int) =~= vs.subrange(i + 1, vs.len() as int));
        }
        if str_eq(entries[i].0.as_str(), k) {
            return Some(&entries[i].1);
        }
        i = i + 1;
    }
    proof {
        let vs = views_of_entries(entries@);
        assert(vs.subrange(i as int, vs.len() as int) =~= Seq::<(Seq<char>, JsonV)>::empty());
    }
    None
}

/// Decodes an argument's raw JSON into a typed port value, if it has
/// the required shape.
pub fn decode_typed_value(v: &Json) -> (r: Option<TypedValue>)
    ensures
        match r {
            Some(tv) => decode_typed(v@) == Some(tv@),
            None => decode_typed(v@) is None,
        },
{
    match v {
        Json::Obj(entries) => {
            let tval: Option<&Json> = obj_get(entries, "type");
            let ts: &String = match tval {
                Some(Json::Str(ts)) => ts,
                _ => {
                    return None;
                },
            };
            let pt: SpellType = match SpellType::parse(ts.as_str()) {
                Ok(pt) => pt,
                Err(_) => {
                    return None;
                },
            };
            let rval: Option<&Json> = obj_get(entries, "ref");
            if let Some(Json::Str(id)) = rval {
                return Some(
                    TypedValue::Reference { reference: id.as_str().to_owned(), value_type: pt },
                );
            }
            let lval: Option<&Json> = obj_get(entries, "literal");
            if let Some(lv) = lval {
                return Some(TypedValue::Literal { literal: lv.deep_copy(), value_type: pt });
            }
            None
        },
        _ => None,
    }
}

/// The model of a node record.
pub struct NodeV {
    /// The operation name.
    pub op: Seq<char>,
    /// The declared type of the `out` port, if any.
    pub returns: Option<SpellType>,
    /// The argument ports, in stored order.
    pub args: Seq<(Seq<char>, JsonV)>,
}

/// A node: an operation name, an optional declared return type, and a
/// map of argument ports to raw JSON values.
pub struct Node {
    /// The operation name.
    pub op: String,
    /// The declared type of the `out` port, if any.
    pub returns: Option<SpellType>,
    /// The argument ports.
    pub args: Dict<Json>,
}

impl View for Node {
    type V = NodeV;

    open spec fn view(&self) -> NodeV {
        NodeV { op: self.op@, returns: self.returns, args: self.args.seq_view() }
    }
}

/// The decoded argument list of a node: reserved keys skipped, every
/// other port paired with what its raw value denotes.
pub open spec fn typed_args_of(args: Seq<(Seq<char>, JsonV)>) -> Seq<
    (Seq<char>, Option<TypedValueV>),
>
    decreases args,
{
    if args.len() == 0 {
        Seq::empty()
    } else {
        let rest = typed_args_of(args.subrange(0, args.len() - 1));
        let last = args[args.len() - 1];
        if last.0 == "op"@ || last.0 == "returns"@ {
            rest
        } else {
            rest.push((last.0, decode_typed(last.1)))
        }
    }
}

impl Node {
    /// Decodes every argument port: reserved keys are skipped, and a
    /// port whose value is no typed value is paired with the error the
    /// evaluator will report (its node field still a placeholder).
    pub fn get_all_typed_args(&self) -> (r: Vec<(String, Result<TypedValue, Error>)>)
        ensures
            ({
                let spec_args = typed_args_of(self.args.seq_view());
                &&& r@.len() == spec_args.len()
                &&& forall|i: int|
                    0 <= i < r@.len() ==> r@[i].0@ == spec_args[i].0 && (match spec_args[i].1 {
                        Some(tv) => r@[i].1 matches Ok(got) && got@ == tv,
                        None => r@[i].1 matches Err(Error::MissingTypeAnnotation { node, port })
                            && node@ == Seq::<char>::empty() && port@ == spec_args[i].0,
                    })
            }),
    {
        let mut r: Vec<(String, Result<TypedValue, Error>)> = Vec::new();
        let n: usize = self.args.len();
        let mut i: usize = 0;
        while i < n
            invariant
                n == self.args.seq_view().len(),
                i <= n,
                ({
                    let spec_args = typed_args_of(self.args.seq_view().subrange(0, i as int));
                    &&& r@.len() == spec_args.len()
                    &&& forall|j: int|
                        0 <= j < r@.len() ==> r@[j].0@ == spec_args[j].0 && (match spec_args[j].1 {
                            Some(tv) => r@[j].1 matches Ok(got) && got@ == tv,
                            None => r@[j].1 matches Err(Error::MissingTypeAnnotation {
                                node,
                                port,
                            }) && node@ == Seq::<char>::empty() && port@ == spec_args[j].0,
                        })
                }),
            decreases n - i,
        {
            let key: &String = self.args.key_at(i);
            let ghost pre = self.args.seq_view().subrange(0, i as int);
            let ghost post = self.args.seq_view().subrange(0, i + 1);
            proof {
                assert(post.subrange(0, i as int) =~= pre);
                assert(post[i as int] == self.args.seq_view()[i as int]);
            }
            if str_eq(key.as_str(), "op") || str_eq(key.as_str(), "returns") {
                i = i + 1;
                continue ;
            }
            let val: &Json = self.args.val_at(i);
            let entry: Result<TypedValue, Error> = match decode_typed_value(val) {
                Some(tv) => Ok(tv),
                None => Err(
                    Error::MissingTypeAnnotation {
                        node: String::new(),
                        port: key.as_str().to_owned(),
                    },
                ),
            };
            r.push((key.as_str().to_owned(), entry));
            i = i + 1;
        }
        proof {
            assert(self.args.seq_view().subrange(0, n as int) =~= self.args.seq_view());
        }
        r
    }
}

/// A program: a mapping from node identifiers to node records.
pub struct Graph {
    /// The nodes, keyed by identifier.
    pub nodes: Dict<Node>,
}

impl Graph {
    /// Every node map and every node's argument map has unique keys.
    pub open spec fn wf(&self) -> bool {
        &&& self.nodes.wf()
        &&& forall|i: int|
            0 <= i < self.nodes.seq_view().len() ==> crate::dict::unique_keys(
                #[trigger] self.nodes.seq_view()[i].1.args,
            )
    }
}

impl View for Graph {
    type V = Map<Seq<char>, NodeV>;

    open spec fn view(&self) -> Map<Seq<char>, NodeV> {
        self.nodes@
    }
}

/// Literal match law: a port written `{"literal": v, "type": t}` with a
/// type surface `t` that denotes a type decodes to a typed literal
/// carrying exactly `v` and exactly the type `t` denotes — so the
/// evaluator's acceptance of the port is the check
/// `SpellType::parse(t)` followed by `matches` on `v`.
pub proof fn lemma_literal_match_law(t: Seq<char>, v: JsonV)
    requires
        parse_type(t) is Some,
    ensures
        decode_typed(
            JsonV::Obj(seq![("literal"@, v), ("type"@, JsonV::Str(t))]),
        ) == Some(TypedValueV::Literal(v, parse_type(t)->0)),
{
    reveal_strlit("ref");
    reveal_strlit("literal");
    reveal_strlit("type");
    let entries = seq![("literal"@, v), ("type"@, JsonV::Str(t))];
    assert("ref"@.len() == 3 && "literal"@.len() == 7 && "type"@.len() == 4);
    let rest = entries.subrange(1, 2);
    assert(rest[0] == entries[1]);
    let none = rest.subrange(1, 1);
    assert(none =~= Seq::<(Seq<char>, JsonV)>::empty());
    assert(obj_first(none, "ref"@) is None);
    assert(obj_first(rest, "ref"@) == obj_first(none, "ref"@));
    assert(obj_first(entries, "ref"@) == obj_first(rest, "ref"@));
    assert(obj_first(entries, "literal"@) == Some(v));
    assert(obj_first(rest, "type"@) == Some(JsonV::Str(t)));
    assert(obj_first(entries, "type"@) == obj_first(rest, "type"@));
}

} // verus!
