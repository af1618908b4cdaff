//! The evaluation engine: demand-driven, memoized, cycle-checked
//! recursion over the graph, with type checks at every port and return.

use vstd::prelude::*;
use crate::json::{Json, JsonV, str_eq};
use crate::dict::{Dict, VisitSet, lemma_assoc_dom};
use crate::types::{SpellType, type_matches};
use crate::error::Error;
use crate::schema::{Graph, Node, TypedValue, TypedValueV, typed_args_of};
use crate::ops::{Ops, Operation, op_of_name, op_contract, map_ok, filter_ok, reduce_ok,
    hof_err_accounted, reduce_err_accounted};
use crate::render::render_of;

verus! {

broadcast use
    vstd::set::group_set_axioms,
    vstd::set_lib::group_set_lib_default,
    vstd::seq::axiom_seq_index_decreases;

/// The engine's soundness invariant: every cached `out` value belongs
/// to a graph node, matches that node's declared return where one is
/// declared, and the type cache records exactly the declared returns of
/// nodes that have produced a matching `out` value.
pub open spec fn caches_inv(
    g: Map<Seq<char>, crate::schema::NodeV>,
    c: Map<Seq<char>, JsonV>,
    tc: Map<Seq<char>, SpellType>,
) -> bool {
    &&& forall|id: Seq<char>|
        #[trigger] c.contains_key(id) ==> g.contains_key(id) && (g[id].returns matches Some(t)
            ==> type_matches(t, c[id]))
    &&& forall|id: Seq<char>|
        #[trigger] tc.contains_key(id) ==> c.contains_key(id) && g.contains_key(id)
            && g[id].returns == Some(tc[id])
}

/// Every binding of the first table survives, unchanged, in the second:
/// the cache is write-once and monotone.
pub open spec fn keeps<V>(m0: Map<Seq<char>, V>, m: Map<Seq<char>, V>) -> bool {
    forall|k: Seq<char>| #[trigger] m0.contains_key(k) ==> m.contains_key(k) && m[k] == m0[k]
}

/// Every binding the second table gained over the first is for an
/// identifier outside the given visiting set.
pub open spec fn gains_outside<V>(
    m0: Map<Seq<char>, V>,
    m: Map<Seq<char>, V>,
    vis: Set<Seq<char>>,
) -> bool {
    forall|k: Seq<char>| #[trigger] m.contains_key(k) && !m0.contains_key(k) ==> !vis.contains(k)
}

/// The input map the evaluator hands the operation when every argument
/// port decodes and resolves against the given cache alone: a literal
/// must match its declared type, and a reference must point at a cached
/// value that matches. `None` when a port fails to decode or match, or
/// when a reference's target is not yet cached (evaluating such a node
/// first evaluates its references, which this predicate does not model).
pub open spec fn resolved_args(
    cache: Map<Seq<char>, JsonV>,
    targs: Seq<(Seq<char>, Option<TypedValueV>)>,
) -> Option<Map<Seq<char>, JsonV>>
    decreases targs,
{
    if targs.len() == 0 {
        Some(Map::<Seq<char>, JsonV>::empty())
    } else {
        match resolved_args(cache, targs.subrange(0, targs.len() - 1)) {
            Some(m) => {
                let last = targs[targs.len() - 1];
                match last.1 {
                    Some(TypedValueV::Literal(lit, t)) => if type_matches(t, lit) {
                        Some(m.insert(last.0, lit))
                    } else {
                        None
                    },
                    Some(TypedValueV::Reference(tgt, t)) => if cache.contains_key(tgt)
                        && type_matches(t, cache[tgt]) {
                        Some(m.insert(last.0, cache[tgt]))
                    } else {
                        None
                    },
                    None => None,
                }
            },
            None => None,
        }
    }
}

/// When a whole argument list resolves, so does every prefix, and each
/// port satisfies its step condition.
proof fn lemma_resolved_args_prefix(
    c: Map<Seq<char>, JsonV>,
    s: Seq<(Seq<char>, Option<TypedValueV>)>,
    i: int,
)
    requires
        0 <= i <= s.len(),
        resolved_args(c, s) is Some,
    ensures
        resolved_args(c, s.subrange(0, i)) is Some,
        i < s.len() ==> (s[i].1 matches Some(tv) && match tv {
            TypedValueV::Literal(lit, t) => type_matches(t, lit),
            TypedValueV::Reference(tgt, t) => c.contains_key(tgt) && type_matches(t, c[tgt]),
        }),
    decreases s.len(),
{
    if i == s.len() {
        assert(s.subrange(0, i) =~= s);
    } else {
        let rest = s.subrange(0, s.len() - 1);
        assert(resolved_args(c, rest) is Some);
        if i == s.len() - 1 {
            assert(s.subrange(0, i) =~= rest);
        } else {
            assert(rest.subrange(0, i) =~= s.subrange(0, i));
            assert(rest[i] == s[i]);
            lemma_resolved_args_prefix(c, rest, i);
        }
    }
}

/// The state of argument resolution in the evaluation relation: either
/// every port so far resolved into an input map, or resolution halted
/// with the error the evaluator reports; both carry the caches as the
/// recursive evaluation of references has left them.
pub enum ArgsEval {
    Ready {
        ins: Map<Seq<char>, JsonV>,
        cache: Map<Seq<char>, JsonV>,
        tc: Map<Seq<char>, SpellType>,
    },
    Halted {
        err: Error,
        cache: Map<Seq<char>, JsonV>,
        tc: Map<Seq<char>, SpellType>,
    },
}

/// The tail of one node's evaluation once its arguments resolved into
/// `ins` with caches `(c2, t2)`: operation lookup and dispatch, error
/// rewriting, the missing-`out` and return-type checks, and the cache
/// write on success.
pub open spec fn dispatch_outcome(
    g: Map<Seq<char>, crate::schema::NodeV>,
    id: Seq<char>,
    ins: Map<Seq<char>, JsonV>,
    c2: Map<Seq<char>, JsonV>,
    t2: Map<Seq<char>, SpellType>,
    r: Result<Json, Error>,
    cache1: Map<Seq<char>, JsonV>,
    tc1: Map<Seq<char>, SpellType>,
) -> bool {
    match op_of_name(g[id].op) {
        None => (r matches Err(Error::UnknownOperation(n)) && n@ == g[id].op) && cache1 == c2
            && tc1 == t2,
        Some(op) => exists|opres: Result<Dict<Json>, Error>|
            {
                &&& #[trigger] op_contract(op, ins, opres)
                &&& (op is MapItems ==> map_ok(ins, opres) && hof_err_accounted(op, ins, opres))
                &&& (op is Filter ==> filter_ok(ins, opres) && hof_err_accounted(op, ins, opres))
                &&& (op is Reduce ==> reduce_ok(ins, opres) && reduce_err_accounted(ins, opres))
                &&& match opres {
                    Err(e) => (r matches Err(e2) && rewritten_err(e, e2, id)) && cache1 == c2
                        && tc1 == t2,
                    Ok(outs) => if !outs@.contains_key("out"@) {
                        (r matches Err(Error::OperationError { node, reason }) && node@ == id
                            && reason@ == "Operation produced no 'out' output"@) && cache1 == c2
                            && tc1 == t2
                    } else {
                        match g[id].returns {
                            Some(t) => if !type_matches(t, outs@["out"@]) {
                                (r matches Err(Error::InvalidValue {
                                    node,
                                    port,
                                    expected_type,
                                    actual_value,
                                }) && node@ == id && port@ == "out"@ && expected_type == t
                                    && actual_value@ == render_of(outs@["out"@])) && cache1 == c2
                                    && tc1 == t2
                            } else {
                                (r matches Ok(v) && v@ == outs@["out"@]) && cache1 == c2.insert(
                                    id,
                                    outs@["out"@],
                                ) && tc1 == t2.insert(id, t)
                            },
                            None => (r matches Ok(v) && v@ == outs@["out"@]) && cache1 == c2.insert(
                                id,
                                outs@["out"@],
                            ) && tc1 == t2,
                        }
                    },
                }
            },
    }
}

/// The record of one recursive reference evaluation inside argument
/// resolution: the subtree of the run, its result, and the caches it
/// left behind.
pub struct SubRun {
    pub tree: EvalTree,
    pub r: Result<Json, Error>,
    pub cache: Map<Seq<char>, JsonV>,
    pub tc: Map<Seq<char>, SpellType>,
}

/// The record of one node's evaluation: nothing for the three early
/// exits (cache hit, cycle, absent node); otherwise the argument
/// resolution trace, the reference subruns (one slot per port), and the
/// operation's result.
pub enum EvalTree {
    Halt,
    Run { trace: Seq<ArgsEval>, subs: Seq<Option<SubRun>>, opres: Result<Dict<Json>, Error> },
}

/// The dispatch tail of one node's evaluation, for a given operation
/// result `opres`: the error rewrite, the missing-`out` and return-type
/// checks, and the cache write on success.
pub open spec fn dispatch_with(
    g: Map<Seq<char>, crate::schema::NodeV>,
    id: Seq<char>,
    ins: Map<Seq<char>, JsonV>,
    c2: Map<Seq<char>, JsonV>,
    t2: Map<Seq<char>, SpellType>,
    opres: Result<Dict<Json>, Error>,
    r: Result<Json, Error>,
    cache1: Map<Seq<char>, JsonV>,
    tc1: Map<Seq<char>, SpellType>,
) -> bool {
    match op_of_name(g[id].op) {
        None => (r matches Err(Error::UnknownOperation(n)) && n@ == g[id].op) && cache1 == c2
            && tc1 == t2,
        Some(op) => {
            &&& op_contract(op, ins, opres)
            &&& (op is MapItems ==> map_ok(ins, opres) && hof_err_accounted(op, ins, opres))
            &&& (op is Filter ==> filter_ok(ins, opres) && hof_err_accounted(op, ins, opres))
            &&& (op is Reduce ==> reduce_ok(ins, opres) && reduce_err_accounted(ins, opres))
            &&& match opres {
                Err(e) => (r matches Err(e2) && rewritten_err(e, e2, id)) && cache1 == c2 && tc1
                    == t2,
                Ok(outs) => if !outs@.contains_key("out"@) {
                    (r matches Err(Error::OperationError { node, reason }) && node@ == id
                        && reason@ == "Operation produced no 'out' output"@) && cache1 == c2
                        && tc1 == t2
                } else {
                    match g[id].returns {
                        Some(t) => if !type_matches(t, outs@["out"@]) {
                            (r matches Err(Error::InvalidValue {
                                node,
                                port,
                                expected_type,
                                actual_value,
                            }) && node@ == id && port@ == "out"@ && expected_type == t
                                && actual_value@ == render_of(outs@["out"@])) && cache1 == c2
                                && tc1 == t2
                        } else {
                            (r matches Ok(v) && v@ == outs@["out"@]) && cache1 == c2.insert(
                                id,
                                outs@["out"@],
                            ) && tc1 == t2.insert(id, t)
                        },
                        None => (r matches Ok(v) && v@ == outs@["out"@]) && cache1 == c2.insert(
                            id,
                            outs@["out"@],
                        ) && tc1 == t2,
                    }
                },
            }
        },
    }
}

/// The whole evaluation of one node as a relation over an explicit run
/// record: cache hit, cycle check, node
/// lookup, recursive argument resolution, dispatch, return check, cache
/// write. `(cache, tc)` are the caches before the call and
/// `(cache1, tc1)` after; `r` is the result.
pub open spec fn tree_evals(
    g: Map<Seq<char>, crate::schema::NodeV>,
    cache: Map<Seq<char>, JsonV>,
    tc: Map<Seq<char>, SpellType>,
    vis: Set<Seq<char>>,
    id: Seq<char>,
    r: Result<Json, Error>,
    cache1: Map<Seq<char>, JsonV>,
    tc1: Map<Seq<char>, SpellType>,
    tree: EvalTree,
) -> bool
    decreases tree, 0int,
{
    if cache.contains_key(id) {
        (r matches Ok(v) && v@ == cache[id]) && cache1 == cache && tc1 == tc
    } else if vis.contains(id) {
        (r matches Err(Error::CycleDetected(x)) && x@ == id) && cache1 == cache && tc1 == tc
    } else if !g.contains_key(id) {
        (r matches Err(Error::NodeNotFound(x)) && x@ == id) && cache1 == cache && tc1 == tc
    } else {
        let targs = typed_args_of(g[id].args);
        match tree {
            EvalTree::Halt => false,
            EvalTree::Run { trace, subs, opres } => {
                &&& trace.len() == targs.len() + 1
                &&& subs.len() == targs.len()
                &&& trace[0] == (ArgsEval::Ready {
                    ins: Map::<Seq<char>, JsonV>::empty(),
                    cache,
                    tc,
                })
                &&& tree_steps(g, vis.insert(id), id, targs, trace, subs, targs.len() as int)
                &&& match trace[targs.len() as int] {
                    ArgsEval::Halted { err, cache: c2, tc: t2 } => (r matches Err(e2) && e2
                        == err) && cache1 == c2 && tc1 == t2,
                    ArgsEval::Ready { ins, cache: c2, tc: t2 } => dispatch_with(
                        g,
                        id,
                        ins,
                        c2,
                        t2,
                        opres,
                        r,
                        cache1,
                        tc1,
                    ),
                }
            },
        }
    }
}

/// The first `k` argument-resolution steps of a run record hold: each
/// trace state follows from the one before it, a reference port by the
/// recorded recursive evaluation of its target.
pub open spec fn tree_steps(
    g: Map<Seq<char>, crate::schema::NodeV>,
    vis: Set<Seq<char>>,
    id: Seq<char>,
    targs: Seq<(Seq<char>, Option<TypedValueV>)>,
    trace: Seq<ArgsEval>,
    subs: Seq<Option<SubRun>>,
    k: int,
) -> bool
    decreases subs, k,
    via tree_steps_dec
{
    if k <= 0 {
        true
    } else if k > subs.len() {
        false
    } else {
        &&& tree_steps(g, vis, id, targs, trace, subs, k - 1)
        &&& match trace[k - 1] {
            ArgsEval::Halted { .. } => trace[k] == trace[k - 1] && subs[k - 1] is None,
            ArgsEval::Ready { ins, cache: c, tc: t } => {
                let port = targs[k - 1].0;
                match targs[k - 1].1 {
                    None => subs[k - 1] is None && (trace[k] matches ArgsEval::Halted {
                        err,
                        cache: c2,
                        tc: t2,
                    } && (err matches Error::MissingTypeAnnotation { node, port: p } && node@
                        == id && p@ == port) && c2 == c && t2 == t),
                    Some(TypedValueV::Literal(lit, ty)) => subs[k - 1] is None && (if type_matches(
                        ty,
                        lit,
                    ) {
                        trace[k] == (ArgsEval::Ready { ins: ins.insert(port, lit), cache: c, tc: t })
                    } else {
                        trace[k] matches ArgsEval::Halted { err, cache: c2, tc: t2 } && (
                        err matches Error::InvalidValue {
                            node,
                            port: p,
                            expected_type,
                            actual_value,
                        } && node@ == id && p@ == port && expected_type == ty && actual_value@
                            == render_of(lit)) && c2 == c && t2 == t
                    }),
                    Some(TypedValueV::Reference(tgt, ty)) => subs[k - 1] matches Some(sr) && {
                        &&& tree_evals(g, c, t, vis, tgt, sr.r, sr.cache, sr.tc, sr.tree)
                        &&& match sr.r {
                            Err(e) => trace[k] matches ArgsEval::Halted { err, cache: c3, tc: t3 }
                                && err == e && c3 == sr.cache && t3 == sr.tc,
                            Ok(v) => if type_matches(ty, v@) {
                                trace[k] == (ArgsEval::Ready {
                                    ins: ins.insert(port, v@),
                                    cache: sr.cache,
                                    tc: sr.tc,
                                })
                            } else {
                                trace[k] matches ArgsEval::Halted { err, cache: c3, tc: t3 } && (
                                err matches Error::TypeMismatch {
                                    node,
                                    port: p,
                                    expected,
                                    actual,
                                } && node@ == id && p@ == port && expected == ty && (
                                if sr.tc.contains_key(tgt) {
                                    actual == sr.tc[tgt]
                                } else {
                                    actual is Any
                                })) && c3 == sr.cache && t3 == sr.tc
                            },
                        }
                    },
                }
            },
        }
    }
}

#[via_fn]
proof fn tree_steps_dec(
    g: Map<Seq<char>, crate::schema::NodeV>,
    vis: Set<Seq<char>>,
    id: Seq<char>,
    targs: Seq<(Seq<char>, Option<TypedValueV>)>,
    trace: Seq<ArgsEval>,
    subs: Seq<Option<SubRun>>,
    k: int,
) {
    if 0 < k <= subs.len() {
        assert(decreases_to!(subs => subs[k - 1]));
        match subs[k - 1] {
            Some(sr) => {
                assert(decreases_to!(subs[k - 1] => sr.tree));
            },
            None => {},
        }
    }
}

/// Two run records that agree on the first `k` steps satisfy the same
/// step conditions up to `k`.
proof fn lemma_steps_agree(
    g: Map<Seq<char>, crate::schema::NodeV>,
    vis: Set<Seq<char>>,
    id: Seq<char>,
    targs: Seq<(Seq<char>, Option<TypedValueV>)>,
    trace0: Seq<ArgsEval>,
    subs0: Seq<Option<SubRun>>,
    trace1: Seq<ArgsEval>,
    subs1: Seq<Option<SubRun>>,
    k: int,
)
    requires
        tree_steps(g, vis, id, targs, trace0, subs0, k),
        k <= subs1.len(),
        forall|j: int| 0 <= j <= k ==> trace1[j] == trace0[j],
        forall|j: int| 0 <= j < k ==> subs1[j] == subs0[j],
    ensures
        tree_steps(g, vis, id, targs, trace1, subs1, k),
    decreases k,
{
    if k > 0 {
        lemma_steps_agree(g, vis, id, targs, trace0, subs0, trace1, subs1, k - 1);
    }
}

/// A run that has halted after `k0` ports stays halted through `k1`
/// ports, padding the record with its final state.
proof fn lemma_steps_halted(
    g: Map<Seq<char>, crate::schema::NodeV>,
    vis: Set<Seq<char>>,
    id: Seq<char>,
    targs: Seq<(Seq<char>, Option<TypedValueV>)>,
    trace1: Seq<ArgsEval>,
    subs1: Seq<Option<SubRun>>,
    k0: int,
    k1: int,
    ae: ArgsEval,
)
    requires
        tree_steps(g, vis, id, targs, trace1, subs1, k0),
        0 <= k0 <= k1,
        k1 <= subs1.len(),
        ae is Halted,
        forall|j: int| k0 <= j <= k1 ==> trace1[j] == ae,
        forall|j: int| k0 <= j < k1 ==> subs1[j] is None,
    ensures
        tree_steps(g, vis, id, targs, trace1, subs1, k1),
    decreases k1 - k0,
{
    if k1 > k0 {
        lemma_steps_halted(g, vis, id, targs, trace1, subs1, k0, k1 - 1, ae);
        assert(trace1[k1 - 1] == ae);
        assert(trace1[k1] == ae);
        assert(subs1[k1 - 1] is None);
    }
}

/// One top-level evaluation inside `run`: its result and the caches it
/// leaves behind.
pub struct NodeRun {
    pub r: Result<Json, Error>,
    pub cache: Map<Seq<char>, JsonV>,
    pub tc: Map<Seq<char>, SpellType>,
}

/// The caches before the `k`-th top-level evaluation of a run.
pub open spec fn run_cache_before(
    cache0: Map<Seq<char>, JsonV>,
    rs: Seq<NodeRun>,
    k: int,
) -> Map<Seq<char>, JsonV> {
    if k <= 0 {
        cache0
    } else {
        rs[k - 1].cache
    }
}

/// The type caches before the `k`-th top-level evaluation of a run.
pub open spec fn run_tc_before(
    tc0: Map<Seq<char>, SpellType>,
    rs: Seq<NodeRun>,
    k: int,
) -> Map<Seq<char>, SpellType> {
    if k <= 0 {
        tc0
    } else {
        rs[k - 1].tc
    }
}

/// The first `k` top-level evaluations of `run`: each node id is
/// evaluated from a fresh empty visiting set against the caches the
/// previous evaluation left.
pub open spec fn run_chain(
    g: Map<Seq<char>, crate::schema::NodeV>,
    cache0: Map<Seq<char>, JsonV>,
    tc0: Map<Seq<char>, SpellType>,
    ids: Seq<Seq<char>>,
    rs: Seq<NodeRun>,
    k: int,
) -> bool
    decreases k,
{
    if k <= 0 {
        true
    } else {
        &&& run_chain(g, cache0, tc0, ids, rs, k - 1)
        &&& evals(
            g,
            run_cache_before(cache0, rs, k - 1),
            run_tc_before(tc0, rs, k - 1),
            Set::<Seq<char>>::empty(),
            ids[k - 1],
            rs[k - 1].r,
            rs[k - 1].cache,
            rs[k - 1].tc,
        )
    }
}

/// The diagnostics the first `k` top-level evaluations emit, in order.
pub open spec fn run_errs(rs: Seq<NodeRun>, k: int) -> Seq<Error>
    decreases k,
{
    if k <= 0 {
        Seq::empty()
    } else {
        run_errs(rs, k - 1) + (match rs[k - 1].r {
            Err(e) => seq![e],
            Ok(_) => Seq::<Error>::empty(),
        })
    }
}

/// A run chain only inspects the records before `k`: extending the
/// record list preserves it.
proof fn lemma_run_chain_agree(
    g: Map<Seq<char>, crate::schema::NodeV>,
    cache0: Map<Seq<char>, JsonV>,
    tc0: Map<Seq<char>, SpellType>,
    ids: Seq<Seq<char>>,
    rs0: Seq<NodeRun>,
    rs1: Seq<NodeRun>,
    k: int,
)
    requires
        run_chain(g, cache0, tc0, ids, rs0, k),
        forall|j: int| 0 <= j < k ==> rs1[j] == rs0[j],
    ensures
        run_chain(g, cache0, tc0, ids, rs1, k),
    decreases k,
{
    if k > 0 {
        lemma_run_chain_agree(g, cache0, tc0, ids, rs0, rs1, k - 1);
    }
}

/// The emitted diagnostics only depend on the records before `k`.
proof fn lemma_run_errs_agree(rs0: Seq<NodeRun>, rs1: Seq<NodeRun>, k: int)
    requires
        forall|j: int| 0 <= j < k ==> rs1[j] == rs0[j],
    ensures
        run_errs(rs1, k) == run_errs(rs0, k),
    decreases k,
{
    if k > 0 {
        lemma_run_errs_agree(rs0, rs1, k - 1);
    }
}

/// The evaluation relation: some run record witnesses the evaluation.
pub open spec fn evals(
    g: Map<Seq<char>, crate::schema::NodeV>,
    cache: Map<Seq<char>, JsonV>,
    tc: Map<Seq<char>, SpellType>,
    vis: Set<Seq<char>>,
    id: Seq<char>,
    r: Result<Json, Error>,
    cache1: Map<Seq<char>, JsonV>,
    tc1: Map<Seq<char>, SpellType>,
) -> bool {
    exists|tree: EvalTree| tree_evals(g, cache, tc, vis, id, r, cache1, tc1, tree)
}

/// Whether argument port `i` fails on its own terms against the given/// Whether argument port `i` fails on its own terms against the given
/// cache: it does not decode, its literal does not match, or it
/// references an already-cached value that does not match.
pub open spec fn arg_fails(
    cache: Map<Seq<char>, JsonV>,
    targs: Seq<(Seq<char>, Option<TypedValueV>)>,
    i: int,
) -> bool {
    match targs[i].1 {
        None => true,
        Some(TypedValueV::Literal(lit, t)) => !type_matches(t, lit),
        Some(TypedValueV::Reference(tgt, t)) => cache.contains_key(tgt) && !type_matches(
            t,
            cache[tgt],
        ),
    }
}

/// The exact error the evaluator reports for a failing argument port:
/// a port that does not decode, a literal that does not match its
/// declared type, or a reference whose cached value does not match.
pub open spec fn arg_failure_err(
    cache: Map<Seq<char>, JsonV>,
    tc: Map<Seq<char>, SpellType>,
    targs: Seq<(Seq<char>, Option<TypedValueV>)>,
    i: int,
    node_id: Seq<char>,
    r: Result<Json, Error>,
) -> bool {
    match targs[i].1 {
        None => r matches Err(Error::MissingTypeAnnotation { node, port }) && node@ == node_id
            && port@ == targs[i].0,
        Some(TypedValueV::Literal(lit, t)) => r matches Err(Error::InvalidValue {
            node,
            port,
            expected_type,
            actual_value,
        }) && node@ == node_id && port@ == targs[i].0 && expected_type == t && actual_value@
            == render_of(lit),
        Some(TypedValueV::Reference(tgt, t)) => r matches Err(Error::TypeMismatch {
            node,
            port,
            expected,
            actual,
        }) && node@ == node_id && port@ == targs[i].0 && expected == t && (if tc.contains_key(
            tgt,
        ) {
            actual == tc[tgt]
        } else {
            actual is Any
        }),
    }
}

/// A successful node outcome: the `out` value is returned and cached
/// under the node identifier.
pub open spec fn node_out_ok(
    cache0: Map<Seq<char>, JsonV>,
    cache1: Map<Seq<char>, JsonV>,
    node_id: Seq<char>,
    out: JsonV,
    r: Result<Json, Error>,
) -> bool {
    r matches Ok(v) && v@ == out && cache1 == cache0.insert(node_id, out)
}

/// What the evaluator owes once its arguments resolve from the cache
/// alone: the operation runs on exactly the resolved map, an error
/// surfaces rewritten with the real node identifier, a missing `out` or
/// a return-type mismatch surfaces as specified, and otherwise the
/// `out` value is returned and cached.
pub open spec fn node_outcome(
    g: Map<Seq<char>, crate::schema::NodeV>,
    cache0: Map<Seq<char>, JsonV>,
    cache1: Map<Seq<char>, JsonV>,
    node_id: Seq<char>,
    r: Result<Json, Error>,
) -> bool {
    let ins = resolved_args(cache0, typed_args_of(g[node_id].args))->0;
    let op = op_of_name(g[node_id].op)->0;
    exists|opres: Result<Dict<Json>, Error>|
        {
            &&& #[trigger] op_contract(op, ins, opres)
            &&& (op is MapItems ==> crate::ops::map_ok(ins, opres) && crate::ops::hof_err_accounted(
                op,
                ins,
                opres,
            ))
            &&& (op is Filter ==> crate::ops::filter_ok(ins, opres)
                && crate::ops::hof_err_accounted(op, ins, opres))
            &&& (op is Reduce ==> crate::ops::reduce_ok(ins, opres)
                && crate::ops::reduce_err_accounted(ins, opres))
            &&& match opres {
                Err(e) => r matches Err(e2) && rewritten_err(e, e2, node_id),
                Ok(outs) => if !outs@.contains_key("out"@) {
                    r matches Err(Error::OperationError { node, reason }) && node@ == node_id
                        && reason@ == "Operation produced no 'out' output"@
                } else {
                    match g[node_id].returns {
                        Some(t) => if !type_matches(t, outs@["out"@]) {
                            r matches Err(Error::InvalidValue {
                                node,
                                port,
                                expected_type,
                                actual_value,
                            }) && node@ == node_id && port@ == "out"@ && expected_type == t
                                && actual_value@ == render_of(outs@["out"@])
                        } else {
                            node_out_ok(cache0, cache1, node_id, outs@["out"@], r)
                        },
                        None => node_out_ok(cache0, cache1, node_id, outs@["out"@], r),
                    }
                },
            }
        }
}

/// Every decoded reference argument points at a cached value that
/// matches the port's declared type.
pub open spec fn refs_settled(
    args: Seq<(Seq<char>, Option<TypedValueV>)>,
    c: Map<Seq<char>, JsonV>,
) -> bool {
    forall|i: int|
        0 <= i < args.len() ==> match #[trigger] args[i].1 {
            Some(TypedValueV::Reference(target, t)) => c.contains_key(target) && type_matches(
                t,
                c[target],
            ),
            _ => true,
        }
}

/// The evaluator's rewrite of an operation-reported error: the
/// placeholder node name is replaced with the real node identifier;
/// every other error passes through unchanged.
pub open spec fn rewritten_err(e: Error, r: Error, id: Seq<char>) -> bool {
    match e {
        Error::MissingInput { node, port } => r matches Error::MissingInput {
            node: n2,
            port: p2,
        } && n2@ == id && p2@ == port@,
        Error::InvalidType { node, expected, actual } => r matches Error::InvalidType {
            node: n2,
            expected: e2,
            actual: a2,
        } && n2@ == id && e2@ == expected@ && a2@ == actual@,
        Error::OperationError { node, reason } => r matches Error::OperationError {
            node: n2,
            reason: w2,
        } && n2@ == id && w2@ == reason@,
        _ => r == e,
    }
}

/// Replaces the placeholder node name in an operation's error with the
/// real node identifier.
fn rewrite_err(e: Error, node_id: &str) -> (r: Error)
    ensures
        rewritten_err(e, r, node_id@),
{
    match e {
        Error::MissingInput { node: _, port } => Error::MissingInput {
            node: node_id.to_owned(),
            port,
        },
        Error::InvalidType { node: _, expected, actual } => Error::InvalidType {
            node: node_id.to_owned(),
            expected,
            actual,
        },
        Error::OperationError { node: _, reason } => Error::OperationError {
            node: node_id.to_owned(),
            reason,
        },
        other => other,
    }
}

/// Taking a fresh identifier onto the visiting set shrinks what is left
/// of the graph outside it.
proof fn lemma_measure_dec(dom: Set<Seq<char>>, vis: Set<Seq<char>>, x: Seq<char>)
    requires
        dom.finite(),
        dom.contains(x),
        !vis.contains(x),
    ensures
        dom.difference(vis.insert(x)).len() < dom.difference(vis).len(),
{
    vstd::set::axiom_set_difference_finite(dom, vis);
    assert(dom.difference(vis.insert(x)) =~= dom.difference(vis).remove(x));
    assert(dom.difference(vis).contains(x));
    vstd::set::axiom_set_remove_len(dom.difference(vis), x);
}

/// Evaluates one node: cache hit, cycle check, argument resolution,
/// dispatch, return-type check, cache write.
fn execute_node(
    graph: &Graph,
    cache: &mut Dict<Json>,
    type_cache: &mut Dict<SpellType>,
    port_cache: &mut Dict<Json>,
    node_id: &str,
    visiting: &mut VisitSet,
) -> (r: Result<Json, Error>)
    requires
        graph.wf(),
        old(cache).wf(),
        old(type_cache).wf(),
        old(port_cache).wf(),
        old(visiting).wf(),
        caches_inv(graph@, old(cache)@, old(type_cache)@),
    ensures
        final(cache).wf(),
        final(type_cache).wf(),
        final(port_cache).wf(),
        final(visiting).wf(),
        caches_inv(graph@, final(cache)@, final(type_cache)@),
        keeps(old(cache)@, final(cache)@),
        keeps(old(type_cache)@, final(type_cache)@),
        gains_outside(old(cache)@, final(cache)@, old(visiting)@),
        gains_outside(old(type_cache)@, final(type_cache)@, old(visiting)@),
        old(cache)@.contains_key(node_id@) ==> (r matches Ok(v) && v@ == old(cache)@[node_id@])
            && final(cache)@ == old(cache)@ && final(type_cache)@ == old(type_cache)@ && final(port_cache)@ == old(port_cache)@ && final(visiting)@ == old(visiting)@,
        !old(cache)@.contains_key(node_id@) && old(visiting)@.contains(node_id@) ==> (
        r matches Err(Error::CycleDetected(id)) && id@ == node_id@) && final(cache)@ == old(cache)@ && final(type_cache)@ == old(type_cache)@ && final(port_cache)@ == old(port_cache)@
            && final(visiting)@ == old(visiting)@,
        r matches Ok(v) ==> final(cache)@.contains_key(node_id@) && final(cache)@[node_id@] == v@
            && graph@.contains_key(node_id@) && (graph@[node_id@].returns matches Some(t)
            ==> type_matches(t, v@)),
        r is Ok ==> final(visiting)@ == old(visiting)@,
        r is Err ==> old(visiting)@.subset_of(final(visiting)@),
        r is Err ==> final(cache)@.contains_key(node_id@) == old(cache)@.contains_key(node_id@),
        r is Err ==> final(type_cache)@.contains_key(node_id@) == old(type_cache)@.contains_key(
            node_id@,
        ),
        r matches Err(Error::CycleDetected(id)) ==> final(visiting)@.contains(id@) && (old(
            visiting,
        )@.contains(id@) || graph@.dom().contains(id@)),
        r matches Err(Error::NodeNotFound(id)) ==> !graph@.contains_key(id@),
        r matches Err(Error::UnknownOperation(name)) ==> op_of_name(name@) is None,
        r is Ok && !old(cache)@.contains_key(node_id@) ==> refs_settled(
            typed_args_of(graph@[node_id@].args),
            final(cache)@,
        ),
        ({
            &&& !old(cache)@.contains_key(node_id@)
            &&& !old(visiting)@.contains(node_id@)
            &&& graph@.contains_key(node_id@)
            &&& resolved_args(old(cache)@, typed_args_of(graph@[node_id@].args)) is Some
            &&& op_of_name(graph@[node_id@].op) is Some
        }) ==> node_outcome(graph@, old(cache)@, final(cache)@, node_id@, r),
        forall|i: int|
            #![auto]
            ({
                &&& !old(cache)@.contains_key(node_id@)
                &&& !old(visiting)@.contains(node_id@)
                &&& graph@.contains_key(node_id@)
                &&& 0 <= i < typed_args_of(graph@[node_id@].args).len()
                &&& resolved_args(
                    old(cache)@,
                    typed_args_of(graph@[node_id@].args).subrange(0, i),
                ) is Some
                &&& arg_fails(old(cache)@, typed_args_of(graph@[node_id@].args), i)
            }) ==> arg_failure_err(
                old(cache)@,
                old(type_cache)@,
                typed_args_of(graph@[node_id@].args),
                i,
                node_id@,
                r,
            ),
        evals(
            graph@,
            old(cache)@,
            old(type_cache)@,
            old(visiting)@,
            node_id@,
            r,
            final(cache)@,
            final(type_cache)@,
        ),
    decreases graph@.dom().difference(old(visiting)@).len(), 0int,
{
    let ghost cache0 = cache@;
    let ghost tc0 = type_cache@;
    let ghost vis0 = visiting@;
    if let Some(v) = cache.get(node_id) {
        let out = v.deep_copy();
        proof {
            assert(tree_evals(graph@, cache0, tc0, vis0, node_id@, Ok(out), cache@, type_cache@, EvalTree::Halt));
        }
        return Ok(out);
    }
    if visiting.contains(node_id) {
        let err = Error::CycleDetected(node_id.to_owned());
        proof {
            assert(tree_evals(graph@, cache0, tc0, vis0, node_id@, Err(err), cache@, type_cache@, EvalTree::Halt));
        }
        return Err(err);
    }
    visiting.insert(node_id.to_owned());
    let node: &Node = match graph.nodes.get(node_id) {
        Some(n) => n,
        None => {
            let err = Error::NodeNotFound(node_id.to_owned());
            proof {
                assert(tree_evals(graph@, cache0, tc0, vis0, node_id@, Err(err), cache@, type_cache@, EvalTree::Halt));
            }
            return Err(err);
        },
    };
    proof {
        lemma_assoc_dom(graph.nodes.seq_view());
        assert(graph@.dom().contains(node_id@));
        lemma_measure_dec(graph@.dom(), old(visiting)@, node_id@);
    }
    let targs: Vec<(String, Result<TypedValue, Error>)> = node.get_all_typed_args();
    let ghost spec_args = typed_args_of(node@.args);
    let ghost hyp = !cache0.contains_key(node_id@) && !vis0.contains(node_id@)
        && graph@.contains_key(node_id@) && resolved_args(cache0, spec_args) is Some
        && op_of_name(node@.op) is Some;
    proof {
        assert(spec_args.subrange(0, 0) =~= Seq::<(Seq<char>, Option<TypedValueV>)>::empty());
    }
    let ghost gvis = vis0.insert(node_id@);
    let mut resolved: Dict<Json> = Dict::new();
    let ghost mut trace_g: Seq<ArgsEval> = seq![
        ArgsEval::Ready { ins: Map::<Seq<char>, JsonV>::empty(), cache: cache0, tc: tc0 },
    ];
    let ghost mut subs_g: Seq<Option<SubRun>> = Seq::empty();
    let mut i: usize = 0;
    while i < targs.len()
        invariant
            graph.wf(),
            cache.wf(),
            type_cache.wf(),
            port_cache.wf(),
            visiting.wf(),
            caches_inv(graph@, cache@, type_cache@),
            resolved.wf(),
            i <= targs.len(),
            node@ == graph@[node_id@],
            graph@.contains_key(node_id@),
            spec_args == typed_args_of(node@.args),
            targs@.len() == spec_args.len(),
            forall|j: int| 0 <= j < targs@.len() ==> #[trigger] targs@[j].0@ == spec_args[j].0,
            forall|j: int|
                0 <= j < targs@.len() ==> (match #[trigger] spec_args[j].1 {
                    Some(tv) => targs@[j].1 matches Ok(got) && got@ == tv,
                    None => targs@[j].1 is Err,
                }),
            forall|j: int|
                0 <= j < i ==> (match #[trigger] spec_args[j].1 {
                    Some(TypedValueV::Reference(target, t)) => cache@.contains_key(target)
                        && type_matches(t, cache@[target]),
                    _ => true,
                }),
            cache0 == old(cache)@,
            tc0 == old(type_cache)@,
            vis0 == old(visiting)@,
            visiting@ == vis0.insert(node_id@),
            !vis0.contains(node_id@),
            graph@.dom().contains(node_id@),
            graph@.dom().difference(visiting@).len() < graph@.dom().difference(vis0).len(),
            !cache@.contains_key(node_id@),
            keeps(cache0, cache@),
            keeps(tc0, type_cache@),
            gains_outside(cache0, cache@, vis0),
            gains_outside(tc0, type_cache@, vis0),
            !type_cache@.contains_key(node_id@),
            hyp == (!cache0.contains_key(node_id@) && !vis0.contains(node_id@)
                && graph@.contains_key(node_id@) && resolved_args(cache0, spec_args) is Some
                && op_of_name(node@.op) is Some),
            hyp ==> cache@ == cache0 && type_cache@ == tc0,
            hyp ==> resolved_args(cache0, spec_args.subrange(0, i as int)) is Some,
            hyp ==> resolved@ == resolved_args(cache0, spec_args.subrange(0, i as int))->0,
            gvis == vis0.insert(node_id@),
            trace_g.len() == i + 1,
            subs_g.len() == i,
            trace_g[0] == (ArgsEval::Ready {
                ins: Map::<Seq<char>, JsonV>::empty(),
                cache: cache0,
                tc: tc0,
            }),
            trace_g[i as int] == (ArgsEval::Ready { ins: resolved@, cache: cache@, tc: type_cache@ }),
            tree_steps(graph@, gvis, node_id@, spec_args, trace_g, subs_g, i as int),
            resolved_args(cache0, spec_args.subrange(0, i as int)) is Some ==> cache@ == cache0
                && type_cache@ == tc0,
            forall|i0: int|
                #![auto]
                0 <= i0 < i ==> !(resolved_args(cache0, spec_args.subrange(0, i0)) is Some
                    && arg_fails(cache0, spec_args, i0)),
        decreases targs.len() - i,
    {
        let pair = &targs[i];
        let key: &String = &pair.0;
        proof {
            if hyp {
                lemma_resolved_args_prefix(cache0, spec_args, i as int);
            }
        }
        let tv: &TypedValue = match &pair.1 {
            Ok(tv) => tv,
            Err(_) => {
                let err = Error::MissingTypeAnnotation {
                    node: node_id.to_owned(),
                    port: key.as_str().to_owned(),
                };
                proof {
                    let n = spec_args.len() as int;
                    let ae = ArgsEval::Halted { err, cache: cache@, tc: type_cache@ };
                    let trace_f = trace_g.push(ae) + Seq::new((n - i - 1) as nat, |j: int| ae);
                    let subs_f = subs_g.push(None) + Seq::new(
                        (n - i - 1) as nat,
                        |j: int| None::<SubRun>,
                    );
                    assert(forall|j: int| 0 <= j <= i ==> trace_f[j] == trace_g[j]);
                    assert(forall|j: int| 0 <= j < i ==> subs_f[j] == subs_g[j]);
                    lemma_steps_agree(
                        graph@, gvis, node_id@, spec_args, trace_g, subs_g, trace_f, subs_f,
                        i as int,
                    );
                    assert(trace_f[i + 1] == ae && subs_f[i as int] is None);
                    assert(tree_steps(graph@, gvis, node_id@, spec_args, trace_f, subs_f, i + 1));
                    assert(forall|j: int| i + 1 <= j <= n ==> trace_f[j] == ae);
                    assert(forall|j: int| i + 1 <= j < n ==> subs_f[j] is None);
                    lemma_steps_halted(
                        graph@, gvis, node_id@, spec_args, trace_f, subs_f, i + 1, n, ae,
                    );
                    let tree = EvalTree::Run {
                        trace: trace_f,
                        subs: subs_f,
                        opres: Err(err),
                    };
                    assert(tree_evals(
                        graph@, cache0, tc0, vis0, node_id@, Err(err), cache@, type_cache@, tree,
                    ));
                    if hyp {
                        assert(spec_args[i as int].1 is Some);
                        assert(false);
                    }
                    assert forall|i0: int|
                        #![auto]
                        (0 <= i0 < spec_args.len() && resolved_args(
                            cache0,
                            spec_args.subrange(0, i0),
                        ) is Some && arg_fails(cache0, spec_args, i0)) implies arg_failure_err(
                        cache0,
                        tc0,
                        spec_args,
                        i0,
                        node_id@,
                        Err(err),
                    ) by {
                        if i0 == i {
                            assert(spec_args[i0].1 is None);
                        } else if i0 > i {
                            lemma_resolved_args_prefix(cache0, spec_args.subrange(0, i0), i as int);
                            assert(spec_args.subrange(0, i0)[i as int] == spec_args[i as int]);
                        }
                    }
                }
                return Err(err);
            },
        };
        let ghost cache_at_call = cache@;
        let ghost tc_at_call = type_cache@;
        let ghost prev_ins = resolved@;
        let v: Json = match resolve_typed_value(
            graph,
            cache,
            type_cache,
            port_cache,
            tv,
            node_id,
            key.as_str(),
            visiting,
        ) {
            Ok(v) => v,
            Err(e) => {
                let ghost g_err = e;
                proof {
                    let n = spec_args.len() as int;
                    let ae = ArgsEval::Halted { err: e, cache: cache@, tc: type_cache@ };
                    let ghost new_sub: Option<SubRun> = match tv@ {
                        TypedValueV::Reference(target, ty) => {
                            let sub = choose|sub: Result<Json, Error>|
                                {
                                    &&& #[trigger] evals(
                                        graph@, cache_at_call, tc_at_call, gvis, target, sub,
                                        cache@, type_cache@,
                                    )
                                    &&& match sub {
                                        Err(_) => Err::<Json, Error>(e) == sub,
                                        Ok(v2) => !type_matches(ty, v2@) && (
                                        e matches Error::TypeMismatch {
                                            node,
                                            port: p,
                                            expected,
                                            actual,
                                        } && node@ == node_id@ && p@ == key@ && expected == ty && (
                                        if type_cache@.contains_key(target) {
                                            actual == type_cache@[target]
                                        } else {
                                            actual is Any
                                        }))
                                    }
                                };
                            let st = choose|tree: EvalTree|
                                #[trigger] tree_evals(
                                    graph@, cache_at_call, tc_at_call, gvis, target, sub, cache@,
                                    type_cache@, tree,
                                );
                            Some(SubRun { tree: st, r: sub, cache: cache@, tc: type_cache@ })
                        },
                        _ => None,
                    };
                    let trace_f = trace_g.push(ae) + Seq::new((n - i - 1) as nat, |j: int| ae);
                    let subs_f = subs_g.push(new_sub) + Seq::new(
                        (n - i - 1) as nat,
                        |j: int| None::<SubRun>,
                    );
                    assert(forall|j: int| 0 <= j <= i ==> trace_f[j] == trace_g[j]);
                    assert(forall|j: int| 0 <= j < i ==> subs_f[j] == subs_g[j]);
                    lemma_steps_agree(
                        graph@, gvis, node_id@, spec_args, trace_g, subs_g, trace_f, subs_f,
                        i as int,
                    );
                    assert(trace_f[i as int] == (ArgsEval::Ready {
                        ins: prev_ins,
                        cache: cache_at_call,
                        tc: tc_at_call,
                    }));
                    assert(trace_f[i + 1] == ae && subs_f[i as int] == new_sub);
                    assert(tree_steps(graph@, gvis, node_id@, spec_args, trace_f, subs_f, i + 1));
                    assert(forall|j: int| i + 1 <= j <= n ==> trace_f[j] == ae);
                    assert(forall|j: int| i + 1 <= j < n ==> subs_f[j] is None);
                    lemma_steps_halted(
                        graph@, gvis, node_id@, spec_args, trace_f, subs_f, i + 1, n, ae,
                    );
                    let tree = EvalTree::Run { trace: trace_f, subs: subs_f, opres: Err(e) };
                    assert(tree_evals(
                        graph@, cache0, tc0, vis0, node_id@, Err(e), cache@, type_cache@, tree,
                    ));
                    if hyp {
                        assert(cache_at_call == cache0);
                        assert(false);
                    }
                    assert forall|i0: int|
                        #![auto]
                        (0 <= i0 < spec_args.len() && resolved_args(
                            cache0,
                            spec_args.subrange(0, i0),
                        ) is Some && arg_fails(cache0, spec_args, i0)) implies arg_failure_err(
                        cache0,
                        tc0,
                        spec_args,
                        i0,
                        node_id@,
                        Err(g_err),
                    ) by {
                        if i0 == i {
                            assert(cache_at_call == cache0);
                            assert(tc_at_call == tc0);
                            assert(tv@ == spec_args[i as int].1->0);
                            assert(key@ == spec_args[i as int].0);
                        } else if i0 > i {
                            lemma_resolved_args_prefix(cache0, spec_args.subrange(0, i0), i as int);
                            assert(spec_args.subrange(0, i0)[i as int] == spec_args[i as int]);
                            assert(cache_at_call == cache0);
                        }
                    }
                }
                return Err(e);
            },
        };
        resolved.insert(key.as_str().to_owned(), v);
        proof {
            let ae = ArgsEval::Ready { ins: resolved@, cache: cache@, tc: type_cache@ };
            let ghost new_sub: Option<SubRun> = match tv@ {
                TypedValueV::Reference(target, ty) => {
                    let sub = choose|sub: Result<Json, Error>|
                        {
                            &&& #[trigger] evals(
                                graph@, cache_at_call, tc_at_call, gvis, target, sub, cache@,
                                type_cache@,
                            )
                            &&& sub matches Ok(v2) && v2@ == v@ && type_matches(ty, v2@)
                        };
                    let st = choose|tree: EvalTree|
                        #[trigger] tree_evals(
                            graph@, cache_at_call, tc_at_call, gvis, target, sub, cache@,
                            type_cache@, tree,
                        );
                    Some(SubRun { tree: st, r: sub, cache: cache@, tc: type_cache@ })
                },
                _ => None,
            };
            let prev_trace = trace_g;
            let prev_subs = subs_g;
            trace_g = trace_g.push(ae);
            subs_g = subs_g.push(new_sub);
            assert(forall|j: int| 0 <= j <= i ==> trace_g[j] == prev_trace[j]);
            assert(forall|j: int| 0 <= j < i ==> subs_g[j] == prev_subs[j]);
            lemma_steps_agree(
                graph@, gvis, node_id@, spec_args, prev_trace, prev_subs, trace_g, subs_g,
                i as int,
            );
            assert(trace_g[i + 1] == ae && subs_g[i as int] == new_sub);
            assert(tree_steps(graph@, gvis, node_id@, spec_args, trace_g, subs_g, i + 1));
            if hyp {
                let s2 = spec_args.subrange(0, i + 1);
                assert(s2.subrange(0, i as int) =~= spec_args.subrange(0, i as int));
                assert(s2[i as int] == spec_args[i as int]);
                assert(key@ == spec_args[i as int].0);
                assert(resolved_args(cache0, s2) is Some);
                assert(resolved@ == resolved_args(cache0, s2)->0);
            }
            if resolved_args(cache0, spec_args.subrange(0, i as int)) is Some {
                assert(!arg_fails(cache0, spec_args, i as int)) by {
                    if arg_fails(cache0, spec_args, i as int) {
                        assert(tv@ == spec_args[i as int].1->0);
                        assert(cache_at_call == cache0);
                    }
                }
            }
            if resolved_args(cache0, spec_args.subrange(0, i + 1)) is Some {
                lemma_resolved_args_prefix(cache0, spec_args.subrange(0, i + 1), i as int);
                assert(spec_args.subrange(0, i + 1).subrange(0, i as int) =~= spec_args.subrange(
                    0,
                    i as int,
                ));
                assert(spec_args.subrange(0, i + 1)[i as int] == spec_args[i as int]);
                assert(cache_at_call == cache0);
                assert(tv@ == spec_args[i as int].1->0);
            }
        }
        i = i + 1;
    }
    proof {
        if hyp {
            assert(spec_args.subrange(0, spec_args.len() as int) =~= spec_args);
            assert(resolved@ == resolved_args(cache0, spec_args)->0);
        }
    }
    let ghost ins_g = resolved@;
    let ghost cache_d = cache@;
    let ghost tc_d = type_cache@;
    let op: Operation = match Ops::get(node.op.as_str()) {
        Some(o) => o,
        None => {
            let err = Error::UnknownOperation(node.op.as_str().to_owned());
            proof {
                let tree = EvalTree::Run { trace: trace_g, subs: subs_g, opres: Err(err) };
                assert(tree_evals(
                    graph@, cache0, tc0, vis0, node_id@, Err(err), cache@, type_cache@, tree,
                ));
                if hyp {
                    assert(false);
                }
            }
            return Err(err);
        },
    };
    let r_call: Result<Dict<Json>, Error> = op.execute(&resolved);
    let ghost g_op = r_call;
    proof {
        assert(op == op_of_name(graph@[node_id@].op)->0);
        assert(op_contract(op, ins_g, g_op));
        if hyp {
            assert(op_contract(op, resolved_args(cache0, spec_args)->0, g_op));
        }
    }
    let outs: Dict<Json> = match r_call {
        Ok(o) => o,
        Err(e) => {
            let e2 = rewrite_err(e, node_id);
            proof {
                let tree = EvalTree::Run { trace: trace_g, subs: subs_g, opres: g_op };
                assert(dispatch_with(
                    graph@, node_id@, ins_g, cache_d, tc_d, g_op, Err(e2), cache@, type_cache@,
                ));
                assert(tree_evals(
                    graph@, cache0, tc0, vis0, node_id@, Err(e2), cache@, type_cache@, tree,
                ));
                if hyp {
                    assert(node_outcome(graph@, cache0, cache@, node_id@, Err(e2)));
                }
            }
            return Err(e2);
        },
    };
    proof {
        assert(g_op == Ok::<Dict<Json>, Error>(outs));
    }
    let out_val: &Json = match outs.get("out") {
        Some(v) => v,
        None => {
            let err = Error::OperationError {
                node: node_id.to_owned(),
                reason: "Operation produced no 'out' output".to_owned(),
            };
            proof {
                let tree = EvalTree::Run { trace: trace_g, subs: subs_g, opres: g_op };
                assert(tree_evals(
                    graph@, cache0, tc0, vis0, node_id@, Err(err), cache@, type_cache@, tree,
                ));
                if hyp {
                    assert(node_outcome(graph@, cache0, cache@, node_id@, Err(err)));
                }
            }
            return Err(err);
        },
    };
    if let Some(declared) = &node.returns {
        if !declared.matches(out_val) {
            let err = Error::InvalidValue {
                node: node_id.to_owned(),
                port: "out".to_owned(),
                expected_type: declared.duplicate(),
                actual_value: out_val.to_text(),
            };
            proof {
                let tree = EvalTree::Run { trace: trace_g, subs: subs_g, opres: g_op };
                assert(tree_evals(
                    graph@, cache0, tc0, vis0, node_id@, Err(err), cache@, type_cache@, tree,
                ));
                if hyp {
                    assert(node_outcome(graph@, cache0, cache@, node_id@, Err(err)));
                }
            }
            return Err(err);
        }
        type_cache.insert(node_id.to_owned(), declared.duplicate());
    }
    let result: Json = out_val.deep_copy();
    cache.insert(node_id.to_owned(), out_val.deep_copy());
    proof {
        assert(cache@ == cache_d.insert(node_id@, outs@["out"@]));
        if hyp {
            assert(cache@ == cache0.insert(node_id@, outs@["out"@]));
        }
    }
    let ghost cache_after = cache@;
    let ghost tc_after = type_cache@;
    let n_out: usize = outs.len();
    let mut j: usize = 0;
    while j < n_out
        invariant
            port_cache.wf(),
            cache.wf(),
            type_cache.wf(),
            n_out == outs.seq_view().len(),
            j <= n_out,
            cache@ == cache_after,
            type_cache@ == tc_after,
            outs.wf(),
        decreases n_out - j,
    {
        let port: &String = outs.key_at(j);
        if !str_eq(port.as_str(), "out") {
            let mut composite: String = node_id.to_owned();
            composite.append(":");
            composite.append(port.as_str());
            port_cache.insert(composite, outs.val_at(j).deep_copy());
        }
        j = j + 1;
    }
    visiting.remove(node_id);
    proof {
        let tree = EvalTree::Run { trace: trace_g, subs: subs_g, opres: g_op };
        assert(dispatch_with(
            graph@, node_id@, ins_g, cache_d, tc_d, g_op, Ok(result), cache@, type_cache@,
        ));
        assert(tree_evals(
            graph@, cache0, tc0, vis0, node_id@, Ok(result), cache@, type_cache@, tree,
        ));
        if hyp {
            assert(node_outcome(graph@, cache0, cache@, node_id@, Ok(result)));
        }
        assert(visiting@ =~= old(visiting)@);
        assert(refs_settled(spec_args, cache@)) by {
            assert(forall|j: int|
                0 <= j < spec_args.len() ==> (match #[trigger] spec_args[j].1 {
                    Some(TypedValueV::Reference(target, t)) => cache@.contains_key(target)
                        && type_matches(t, cache@[target]),
                    _ => true,
                }));
        }
    }
    Ok(result)
}

/// Resolves one typed port value: a literal is checked against its
/// declared type; a reference first evaluates the referenced node, then
/// checks the produced value against the declared type.
fn resolve_typed_value(
    graph: &Graph,
    cache: &mut Dict<Json>,
    type_cache: &mut Dict<SpellType>,
    port_cache: &mut Dict<Json>,
    tv: &TypedValue,
    node_id: &str,
    port: &str,
    visiting: &mut VisitSet,
) -> (r: Result<Json, Error>)
    requires
        graph.wf(),
        old(cache).wf(),
        old(type_cache).wf(),
        old(port_cache).wf(),
        old(visiting).wf(),
        caches_inv(graph@, old(cache)@, old(type_cache)@),
    ensures
        final(cache).wf(),
        final(type_cache).wf(),
        final(port_cache).wf(),
        final(visiting).wf(),
        caches_inv(graph@, final(cache)@, final(type_cache)@),
        keeps(old(cache)@, final(cache)@),
        keeps(old(type_cache)@, final(type_cache)@),
        gains_outside(old(cache)@, final(cache)@, old(visiting)@),
        gains_outside(old(type_cache)@, final(type_cache)@, old(visiting)@),
        r is Ok ==> final(visiting)@ == old(visiting)@,
        r is Err ==> old(visiting)@.subset_of(final(visiting)@),
        r matches Err(Error::CycleDetected(id)) ==> final(visiting)@.contains(id@) && (old(
            visiting,
        )@.contains(id@) || graph@.dom().contains(id@)),
        r matches Err(Error::NodeNotFound(id)) ==> !graph@.contains_key(id@),
        r matches Err(Error::UnknownOperation(name)) ==> op_of_name(name@) is None,
        tv@ matches TypedValueV::Literal(lit, t) ==> {
            &&& final(cache)@ == old(cache)@
            &&& final(type_cache)@ == old(type_cache)@
            &&& final(port_cache)@ == old(port_cache)@
            &&& final(visiting)@ == old(visiting)@
            &&& if type_matches(t, lit) {
                r matches Ok(v) && v@ == lit
            } else {
                r matches Err(Error::InvalidValue { node, port: p, expected_type, actual_value })
                    && node@ == node_id@ && p@ == port@ && expected_type == t && actual_value@
                    == render_of(lit)
            }
        },
        tv@ matches TypedValueV::Reference(target, t) ==> {
            &&& (r matches Ok(v) ==> type_matches(t, v@) && final(cache)@.contains_key(target)
                && final(cache)@[target] == v@)
            &&& (old(cache)@.contains_key(target) ==> (if type_matches(t, old(cache)@[target]) {
                r matches Ok(v) && v@ == old(cache)@[target]
            } else {
                r matches Err(Error::TypeMismatch { node, port: p, expected, actual }) && node@
                    == node_id@ && p@ == port@ && expected == t
            }) && final(cache)@ == old(cache)@ && final(type_cache)@ == old(type_cache)@
                && final(port_cache)@ == old(port_cache)@ && final(visiting)@ == old(visiting)@)
            &&& (r is Err && final(cache)@.contains_key(target) ==> (
            r matches Err(Error::TypeMismatch { node, port: p, expected, actual }) && node@
                == node_id@ && p@ == port@ && expected == t && !type_matches(
                t,
                final(cache)@[target],
            ) && (if final(type_cache)@.contains_key(target) {
                actual == final(type_cache)@[target]
            } else {
                actual is Any
            })))
            &&& exists|sub: Result<Json, Error>|
                {
                    &&& #[trigger] evals(
                        graph@,
                        old(cache)@,
                        old(type_cache)@,
                        old(visiting)@,
                        target,
                        sub,
                        final(cache)@,
                        final(type_cache)@,
                    )
                    &&& match sub {
                        Err(_) => r == sub,
                        Ok(v) => if type_matches(t, v@) {
                            r matches Ok(v2) && v2@ == v@
                        } else {
                            r matches Err(Error::TypeMismatch { node, port: p, expected, actual })
                                && node@ == node_id@ && p@ == port@ && expected == t
                                && (if final(type_cache)@.contains_key(target) {
                                actual == final(type_cache)@[target]
                            } else {
                                actual is Any
                            })
                        },
                    }
                }
            &&& (({
                &&& !old(cache)@.contains_key(target)
                &&& !old(visiting)@.contains(target)
                &&& graph@.contains_key(target)
                &&& resolved_args(old(cache)@, typed_args_of(graph@[target].args)) is Some
                &&& op_of_name(graph@[target].op) is Some
            }) ==> exists|sub: Result<Json, Error>|
                {
                    &&& #[trigger] node_outcome(graph@, old(cache)@, final(cache)@, target, sub)
                    &&& match sub {
                        Ok(v) => if type_matches(t, v@) {
                            r matches Ok(v2) && v2@ == v@
                        } else {
                            r matches Err(Error::TypeMismatch { node, port: p, expected, actual })
                                && node@ == node_id@ && p@ == port@ && expected == t
                        },
                        Err(_) => r == sub,
                    }
                })
        },
    decreases graph@.dom().difference(old(visiting)@).len(), 1int,
{
    match tv {
        TypedValue::Literal { literal, value_type } => {
            if value_type.matches(literal) {
                Ok(literal.deep_copy())
            } else {
                Err(
                    Error::InvalidValue {
                        node: node_id.to_owned(),
                        port: port.to_owned(),
                        expected_type: value_type.duplicate(),
                        actual_value: literal.to_text(),
                    },
                )
            }
        },
        TypedValue::Reference { reference, value_type } => {
            let r_sub: Result<Json, Error> = execute_node(
                graph,
                cache,
                type_cache,
                port_cache,
                reference.as_str(),
                visiting,
            );
            let ghost g_sub = r_sub;
            let resolved: Json = match r_sub {
                Ok(v) => v,
                Err(e) => {
                    return Err(e);
                },
            };
            proof {
                assert(g_sub matches Ok(v) && v@ == resolved@);
            }
            if value_type.matches(&resolved) {
                Ok(resolved)
            } else {
                let actual: SpellType = match type_cache.get(reference.as_str()) {
                    Some(t) => t.duplicate(),
                    None => SpellType::Any,
                };
                Err(
                    Error::TypeMismatch {
                        node: node_id.to_owned(),
                        port: port.to_owned(),
                        expected: value_type.duplicate(),
                        actual,
                    },
                )
            }
        },
    }
}

/// The execution engine: a graph, a write-once result cache, a type
/// cache, and a cache of secondary port outputs.
pub struct Engine {
    graph: Graph,
    cache: Dict<Json>,
    type_cache: Dict<SpellType>,
    /// Secondary port outputs, recorded under `<node-id>:<port>` keys.
    /// The evaluation procedure reads only the bare node-id table
    /// (step one of a node's evaluation looks the bare node-id up), so
    /// these entries are recorded, never consulted; keeping them in a
    /// table of their own also keeps a node literally named `a:b` from
    /// colliding with node `a`'s port `b`.
    port_cache: Dict<Json>,
}

impl Engine {
    /// The graph under evaluation.
    pub closed spec fn graph_view(&self) -> Map<Seq<char>, crate::schema::NodeV> {
        self.graph@
    }

    /// The cached `out` values, by node identifier.
    pub closed spec fn cached(&self) -> Map<Seq<char>, JsonV> {
        self.cache@
    }

    /// The recorded declared types of nodes that have produced a
    /// matching `out` value.
    pub closed spec fn types_cached(&self) -> Map<Seq<char>, SpellType> {
        self.type_cache@
    }

    /// The engine invariant: well-formed tables and cache soundness.
    pub closed spec fn wf(&self) -> bool {
        &&& self.graph.wf()
        &&& self.cache.wf()
        &&& self.type_cache.wf()
        &&& self.port_cache.wf()
        &&& caches_inv(self.graph@, self.cache@, self.type_cache@)
    }

    /// An engine over a graph, with empty caches.
    pub fn new(graph: Graph) -> (e: Engine)
        requires
            graph.wf(),
        ensures
            e.wf(),
            e.graph_view() == graph@,
            e.cached() == Map::<Seq<char>, JsonV>::empty(),
            e.types_cached() == Map::<Seq<char>, SpellType>::empty(),
    {
        Engine {
            graph,
            cache: Dict::new(),
            type_cache: Dict::new(),
            port_cache: Dict::new(),
        }
    }

    /// Evaluates one node and returns its `out` value or the first
    /// error on its dependency chain. The result and the final caches
    /// satisfy the evaluation relation `evals` from an empty visiting
    /// set: references are resolved recursively, a revisited node fails
    /// with `CycleDetected`, an absent node with `NodeNotFound`, and a
    /// successful node's value is the dispatched operation's `out`,
    /// cached and matching the declared return. A node already in the
    /// cache is answered from the cache, with no state change.
    pub fn resolve(&mut self, node_id: &str) -> (r: Result<Json, Error>)
        requires
            old(self).wf(),
        ensures
            final(self).wf(),
            final(self).graph_view() == old(self).graph_view(),
            keeps(old(self).cached(), final(self).cached()),
            keeps(old(self).types_cached(), final(self).types_cached()),
            old(self).cached().contains_key(node_id@) ==> (r matches Ok(v) && v@ == old(self).cached()[node_id@]) && final(self).cached() == old(self).cached() && final(self).types_cached() == old(self).types_cached(),
            r matches Ok(v) ==> final(self).cached().contains_key(node_id@) && final(self).cached()[node_id@] == v@ && final(self).graph_view().contains_key(node_id@) && (
            final(self).graph_view()[node_id@].returns matches Some(t) ==> type_matches(t, v@)),
            r is Err ==> final(self).cached().contains_key(node_id@) == old(self).cached().contains_key(node_id@),
            r is Err ==> final(self).types_cached().contains_key(node_id@) == old(
                self,
            ).types_cached().contains_key(node_id@),
            r matches Err(Error::CycleDetected(id)) ==> final(self).graph_view().dom().contains(
                id@,
            ),
            r matches Err(Error::NodeNotFound(id)) ==> !final(self).graph_view().contains_key(
                id@,
            ),
            r matches Err(Error::UnknownOperation(name)) ==> op_of_name(name@) is None,
            r is Ok && !old(self).cached().contains_key(node_id@) ==> refs_settled(
                typed_args_of(final(self).graph_view()[node_id@].args),
                final(self).cached(),
            ),
            ({
                &&& !old(self).cached().contains_key(node_id@)
                &&& old(self).graph_view().contains_key(node_id@)
                &&& resolved_args(
                    old(self).cached(),
                    typed_args_of(old(self).graph_view()[node_id@].args),
                ) is Some
                &&& op_of_name(old(self).graph_view()[node_id@].op) is Some
            }) ==> node_outcome(
                old(self).graph_view(),
                old(self).cached(),
                final(self).cached(),
                node_id@,
                r,
            ),
            evals(
                old(self).graph_view(),
                old(self).cached(),
                old(self).types_cached(),
                Set::<Seq<char>>::empty(),
                node_id@,
                r,
                final(self).cached(),
                final(self).types_cached(),
            ),
            forall|i: int|
                #![auto]
                ({
                    &&& !old(self).cached().contains_key(node_id@)
                    &&& old(self).graph_view().contains_key(node_id@)
                    &&& 0 <= i < typed_args_of(old(self).graph_view()[node_id@].args).len()
                    &&& resolved_args(
                        old(self).cached(),
                        typed_args_of(old(self).graph_view()[node_id@].args).subrange(0, i),
                    ) is Some
                    &&& arg_fails(
                        old(self).cached(),
                        typed_args_of(old(self).graph_view()[node_id@].args),
                        i,
                    )
                }) ==> arg_failure_err(
                    old(self).cached(),
                    old(self).types_cached(),
                    typed_args_of(old(self).graph_view()[node_id@].args),
                    i,
                    node_id@,
                    r,
                ),
    {
        let mut visiting: VisitSet = VisitSet::new();
        execute_node(
            &self.graph,
            &mut self.cache,
            &mut self.type_cache,
            &mut self.port_cache,
            node_id,
            &mut visiting,
        )
    }

    /// Evaluates every node in the graph, each from a fresh visiting
    /// set, and collects the per-node errors without interrupting the
    /// traversal: the diagnostics are exactly the errors of a chain of
    /// per-node evaluations covering every node identifier once, in
    /// order, each threading the caches the previous one left.
    pub fn run(&mut self) -> (errs: Vec<Error>)
        requires
            old(self).wf(),
        ensures
            final(self).wf(),
            final(self).graph_view() == old(self).graph_view(),
            keeps(old(self).cached(), final(self).cached()),
            keeps(old(self).types_cached(), final(self).types_cached()),
            errs@.len() <= final(self).graph_view().dom().len(),
            final(self).graph_view().dom().difference(final(self).cached().dom()).len()
                <= errs@.len(),
            exists|ids: Seq<Seq<char>>, rs: Seq<NodeRun>|
                {
                    &&& ids.len() == final(self).graph_view().dom().len()
                    &&& rs.len() == ids.len()
                    &&& forall|j: int|
                        0 <= j < ids.len() ==> final(self).graph_view().contains_key(
                            #[trigger] ids[j],
                        )
                    &&& forall|id: Seq<char>|
                        final(self).graph_view().contains_key(id) ==> exists|j: int|
                            0 <= j < ids.len() && #[trigger] ids[j] == id
                    &&& #[trigger] run_chain(
                        final(self).graph_view(),
                        old(self).cached(),
                        old(self).types_cached(),
                        ids,
                        rs,
                        ids.len() as int,
                    )
                    &&& errs@ == run_errs(rs, ids.len() as int)
                    &&& final(self).cached() == run_cache_before(
                        old(self).cached(),
                        rs,
                        ids.len() as int,
                    )
                    &&& final(self).types_cached() == run_tc_before(
                        old(self).types_cached(),
                        rs,
                        ids.len() as int,
                    )
                },
    {
        let ids: Vec<String> = self.graph.nodes.keys();
        proof {
            lemma_assoc_dom(self.graph.nodes.seq_view());
        }
        let ghost ids_v: Seq<Seq<char>> = Seq::new(ids@.len(), |j: int| ids@[j]@);
        let mut errs: Vec<Error> = Vec::new();
        let ghost mut failed: Set<Seq<char>> = Set::empty();
        let ghost mut rs_g: Seq<NodeRun> = Seq::empty();
        let mut i: usize = 0;
        while i < ids.len()
            invariant
                self.wf(),
                self.graph@ == old(self).graph@,
                i <= ids@.len(),
                ids@.len() == self.graph.nodes.seq_view().len(),
                forall|j: int|
                    0 <= j < ids@.len() ==> ids@[j]@ == self.graph.nodes.seq_view()[j].0,
                ids_v == Seq::new(ids@.len(), |j: int| ids@[j]@),
                keeps(old(self).cached(), self.cache@),
                keeps(old(self).types_cached(), self.type_cache@),
                failed.finite(),
                failed.len() <= errs@.len(),
                errs@.len() <= i,
                forall|j: int|
                    0 <= j < i ==> self.cache@.contains_key(#[trigger] ids@[j]@)
                        || failed.contains(ids@[j]@),
                rs_g.len() == i,
                run_chain(
                    self.graph@,
                    old(self).cached(),
                    old(self).types_cached(),
                    ids_v,
                    rs_g,
                    i as int,
                ),
                errs@ == run_errs(rs_g, i as int),
                self.cache@ == run_cache_before(old(self).cached(), rs_g, i as int),
                self.type_cache@ == run_tc_before(old(self).types_cached(), rs_g, i as int),
            decreases ids.len() - i,
        {
            let mut visiting: VisitSet = VisitSet::new();
            let ghost rs_prev = rs_g;
            let r = execute_node(
                &self.graph,
                &mut self.cache,
                &mut self.type_cache,
                &mut self.port_cache,
                ids[i].as_str(),
                &mut visiting,
            );
            proof {
                rs_g = rs_g.push(NodeRun { r, cache: self.cache@, tc: self.type_cache@ });
                assert(forall|j: int| 0 <= j < i ==> rs_g[j] == rs_prev[j]);
                lemma_run_chain_agree(
                    self.graph@,
                    old(self).cached(),
                    old(self).types_cached(),
                    ids_v,
                    rs_prev,
                    rs_g,
                    i as int,
                );
                assert(run_chain(
                    self.graph@,
                    old(self).cached(),
                    old(self).types_cached(),
                    ids_v,
                    rs_g,
                    i + 1,
                ));
            }
            proof {
                lemma_run_errs_agree(rs_prev, rs_g, i as int);
            }
            if let Err(e) = r {
                errs.push(e);
                proof {
                    failed = failed.insert(ids@[i as int]@);
                    assert(errs@ =~= run_errs(rs_g, i + 1));
                }
            } else {
                proof {
                    assert(errs@ =~= run_errs(rs_g, i + 1));
                }
            }
            i = i + 1;
        }
        proof {
            lemma_assoc_dom(self.graph.nodes.seq_view());
            assert forall|id: Seq<char>| self.graph@.contains_key(id) implies exists|j: int|
                0 <= j < ids_v.len() && #[trigger] ids_v[j] == id by {
                crate::dict::lemma_assoc_contains(self.graph.nodes.seq_view(), id);
                let j = choose|j: int|
                    0 <= j < self.graph.nodes.seq_view().len()
                        && #[trigger] self.graph.nodes.seq_view()[j].0 == id;
                assert(ids_v[j] == id);
            }
            assert forall|j: int| 0 <= j < ids_v.len() implies self.graph@.contains_key(
                #[trigger] ids_v[j],
            ) by {
                crate::dict::lemma_assoc_index(self.graph.nodes.seq_view(), j);
            }
            let dom = self.graph@.dom();
            let uncached = dom.difference(self.cache@.dom());
            assert forall|id: Seq<char>| uncached.contains(id) implies failed.contains(id) by {
                crate::dict::lemma_assoc_contains(self.graph.nodes.seq_view(), id);
                let j = choose|j: int|
                    0 <= j < self.graph.nodes.seq_view().len()
                        && #[trigger] self.graph.nodes.seq_view()[j].0 == id;
                assert(ids@[j]@ == id);
                assert(self.cache@.contains_key(ids@[j]@) || failed.contains(ids@[j]@));
                assert(!self.cache@.dom().contains(id));
            }
            assert(uncached.subset_of(failed));
            vstd::set_lib::lemma_len_subset(uncached, failed);
            assert(ids_v.len() == self.graph@.dom().len());
            assert(run_chain(
                self.graph@,
                old(self).cached(),
                old(self).types_cached(),
                ids_v,
                rs_g,
                ids_v.len() as int,
            ));
            assert(errs@ == run_errs(rs_g, ids_v.len() as int));
            assert(self.cache@ == run_cache_before(old(self).cached(), rs_g, ids_v.len() as int));
            assert(self.type_cache@ == run_tc_before(
                old(self).types_cached(),
                rs_g,
                ids_v.len() as int,
            ));
        }
        errs
    }
}

/// Type soundness at the output boundary: under the engine invariant,
/// every cached `out` value of a node with a declared return type
/// matches that type.
pub proof fn lemma_type_soundness(e: Engine, id: Seq<char>)
    requires
        e.wf(),
        e.cached().contains_key(id),
        e.graph_view()[id].returns is Some,
    ensures
        e.graph_view().contains_key(id),
        type_matches(e.graph_view()[id].returns->0, e.cached()[id]),
{
}

} // verus!
