//! The built-in operations and their registry. An operation is a pure
//! mapping from a named input map to a named output map; the
//! higher-order operations re-enter the registry, never the evaluator.

use vstd::prelude::*;
use std::io::Write;
use crate::json::{
    Json, JsonV, jdepth, depth_of_elems, depth_of_entries, lemma_depth_of_elems,
    lemma_depth_of_entries, views_of, views_of_entries, lemma_views_of, lemma_views_of_entries,
    json_eq, str_eq,
};
use crate::dict::{Dict, assoc_map, unique_keys, lemma_assoc_contains, lemma_assoc_index,
    lemma_assoc_dom};
use crate::error::Error;

verus! {

broadcast use
    vstd::set::group_set_axioms,
    vstd::set_lib::group_set_lib_default;

/// A built-in operation.
#[derive(Debug, Clone, Copy, PartialEq, Eq, Structural)]
pub enum Operation {
    Const,
    Print,
    Add,
    Sub,
    Mul,
    Div,
    Eq,
    Gt,
    Lt,
    Switch,
    MapItems,
    Reduce,
    Len,
    Filter,
}

/// The operation a name denotes, if any.
pub open spec fn op_of_name(name: Seq<char>) -> Option<Operation> {
    if name == "Const"@ {
        Some(Operation::Const)
    } else if name == "Print"@ {
        Some(Operation::Print)
    } else if name == "Add"@ {
        Some(Operation::Add)
    } else if name == "Sub"@ {
        Some(Operation::Sub)
    } else if name == "Mul"@ {
        Some(Operation::Mul)
    } else if name == "Div"@ {
        Some(Operation::Div)
    } else if name == "Eq"@ {
        Some(Operation::Eq)
    } else if name == "Gt"@ {
        Some(Operation::Gt)
    } else if name == "Lt"@ {
        Some(Operation::Lt)
    } else if name == "Switch"@ {
        Some(Operation::Switch)
    } else if name == "Map"@ {
        Some(Operation::MapItems)
    } else if name == "Reduce"@ {
        Some(Operation::Reduce)
    } else if name == "Len"@ {
        Some(Operation::Len)
    } else if name == "Filter"@ {
        Some(Operation::Filter)
    } else {
        None
    }
}

/// The registry: a pure name-to-operation directory.
pub struct Ops;

impl Ops {
    /// Looks an operation up by name.
    pub fn get(op_name: &str) -> (r: Option<Operation>)
        ensures
            r == op_of_name(op_name@),
    {
        if str_eq(op_name, "Const") {
            Some(Operation::Const)
        } else if str_eq(op_name, "Print") {
            Some(Operation::Print)
        } else if str_eq(op_name, "Add") {
            Some(Operation::Add)
        } else if str_eq(op_name, "Sub") {
            Some(Operation::Sub)
        } else if str_eq(op_name, "Mul") {
            Some(Operation::Mul)
        } else if str_eq(op_name, "Div") {
            Some(Operation::Div)
        } else if str_eq(op_name, "Eq") {
            Some(Operation::Eq)
        } else if str_eq(op_name, "Gt") {
            Some(Operation::Gt)
        } else if str_eq(op_name, "Lt") {
            Some(Operation::Lt)
        } else if str_eq(op_name, "Switch") {
            Some(Operation::Switch)
        } else if str_eq(op_name, "Map") {
            Some(Operation::MapItems)
        } else if str_eq(op_name, "Reduce") {
            Some(Operation::Reduce)
        } else if str_eq(op_name, "Len") {
            Some(Operation::Len)
        } else if str_eq(op_name, "Filter") {
            Some(Operation::Filter)
        } else {
            None
        }
    }
}

/// An error as an operation reports it: the node field, where there is
/// one, still holds the placeholder the evaluator will rewrite.
pub open spec fn placeholder_err(e: Error) -> bool {
    match e {
        Error::MissingInput { node, .. } => node@ == "unknown"@,
        Error::InvalidType { node, .. } => node@ == "unknown"@,
        Error::OperationError { node, .. } => node@ == "unknown"@,
        Error::UnknownOperation(_) => true,
        _ => false,
    }
}

/// The result failed because a required input port was absent.
pub open spec fn missing_input_err(r: Result<Dict<Json>, Error>, port: Seq<char>) -> bool {
    &&& r matches Err(Error::MissingInput { node, port: p })
    &&& node@ == "unknown"@
    &&& p@ == port
}

/// The result failed because an input had the wrong shape.
pub open spec fn invalid_type_err(r: Result<Dict<Json>, Error>, expected: Seq<char>) -> bool {
    &&& r matches Err(Error::InvalidType { node, expected: e, actual })
    &&& node@ == "unknown"@
    &&& e@ == expected
}

/// The result failed with a domain-specific reason.
pub open spec fn op_err(r: Result<Dict<Json>, Error>, reason: Seq<char>) -> bool {
    &&& r matches Err(Error::OperationError { node, reason: why })
    &&& node@ == "unknown"@
    &&& why@ == reason
}

/// The result succeeded with `v` on the `out` port and nothing else.
pub open spec fn single_out(r: Result<Dict<Json>, Error>, v: JsonV) -> bool {
    &&& r matches Ok(outs)
    &&& outs@ == Map::<Seq<char>, JsonV>::empty().insert("out"@, v)
}

/// Truncating 64-bit division, as the hardware performs it.
pub open spec fn div_trunc(x: int, d: int) -> int {
    if x == 0 {
        0
    } else if x > 0 && d > 0 {
        x / d
    } else if x < 0 && d < 0 {
        (x * -1) / (d * -1)
    } else if x < 0 {
        ((x * -1) / d) * -1
    } else {
        (x / (d * -1)) * -1
    }
}

/// The mathematical result of an arithmetic operation.
pub open spec fn math_value(op: Operation, a: int, b: int) -> int {
    match op {
        Operation::Add => a + b,
        Operation::Sub => a - b,
        Operation::Mul => a * b,
        Operation::Div => div_trunc(a, b),
        _ => 0,
    }
}

/// The contract of an arithmetic operation: both ports must hold
/// numbers; division by zero, division with a remainder (the 64-bit
/// integer model cannot hold the fractional result), and overflow are
/// reported; otherwise `out` holds the result.
pub open spec fn math_contract(
    op: Operation,
    ins: Map<Seq<char>, JsonV>,
    r: Result<Dict<Json>, Error>,
) -> bool {
    if !ins.contains_key("a"@) {
        missing_input_err(r, "a"@)
    } else if !(ins["a"@] is Num) {
        invalid_type_err(r, "number"@)
    } else if !ins.contains_key("b"@) {
        missing_input_err(r, "b"@)
    } else if !(ins["b"@] is Num) {
        invalid_type_err(r, "number"@)
    } else {
        let a = ins["a"@]->Num_0;
        let b = ins["b"@]->Num_0;
        if op is Div && b == 0 {
            op_err(r, "Division by zero"@)
        } else if op is Div && a % b != 0 {
            op_err(r, "inexact division"@)
        } else if i64::MIN <= math_value(op, a, b) <= i64::MAX {
            single_out(r, JsonV::Num(math_value(op, a, b)))
        } else {
            op_err(r, "arithmetic overflow"@)
        }
    }
}

/// The contract of a comparison: numbers compare numerically (as the
/// 64-bit integers of the value model); `Eq` falls back to structural
/// equality; `Gt` and `Lt` on anything but two numbers are a type error.
pub open spec fn logic_contract(
    op: Operation,
    ins: Map<Seq<char>, JsonV>,
    r: Result<Dict<Json>, Error>,
) -> bool {
    if !ins.contains_key("a"@) {
        missing_input_err(r, "a"@)
    } else if !ins.contains_key("b"@) {
        missing_input_err(r, "b"@)
    } else {
        let a = ins["a"@];
        let b = ins["b"@];
        if a is Num && b is Num {
            let c = match op {
                Operation::Eq => a->Num_0 == b->Num_0,
                Operation::Gt => a->Num_0 > b->Num_0,
                _ => a->Num_0 < b->Num_0,
            };
            single_out(r, JsonV::Bool(c))
        } else if op is Eq {
            single_out(r, JsonV::Bool(a == b))
        } else {
            invalid_type_err(r, "comparable numbers"@)
        }
    }
}

/// The contract of `Switch`: with both branch ports present, `out` is
/// the selected branch; otherwise `data` is routed to the port named
/// after the condition and passed through on `out`.
pub open spec fn switch_contract(ins: Map<Seq<char>, JsonV>, r: Result<Dict<Json>, Error>) -> bool {
    if !ins.contains_key("cond"@) {
        missing_input_err(r, "cond"@)
    } else if !(ins["cond"@] is Bool) {
        invalid_type_err(r, "boolean"@)
    } else {
        let c = ins["cond"@]->Bool_0;
        if ins.contains_key("true"@) && ins.contains_key("false"@) {
            single_out(
                r,
                if c {
                    ins["true"@]
                } else {
                    ins["false"@]
                },
            )
        } else if !ins.contains_key("data"@) {
            missing_input_err(r, "data"@)
        } else {
            let d = ins["data"@];
            let branch: Seq<char> = if c {
                "true"@
            } else {
                "false"@
            };
            &&& r matches Ok(outs)
            &&& outs@ == Map::<Seq<char>, JsonV>::empty().insert(branch, d).insert("out"@, d)
        }
    }
}

/// The element count, clamped to what a 64-bit number can hold.
pub open spec fn len_num(l: nat) -> int {
    if l <= i64::MAX {
        l as int
    } else {
        i64::MAX as int
    }
}

/// The contract of `Len`: `list` must hold an array; `out` is its
/// element count.
pub open spec fn len_contract(ins: Map<Seq<char>, JsonV>, r: Result<Dict<Json>, Error>) -> bool {
    if !ins.contains_key("list"@) {
        missing_input_err(r, "list"@)
    } else if !(ins["list"@] is Arr) {
        invalid_type_err(r, "array"@)
    } else {
        single_out(r, JsonV::Num(len_num(ins["list"@]->Arr_0.len())))
    }
}

/// The contract of `Map` and `Filter` on success: `out` holds an array.
/// `Map` produces one element per input element; `Filter` keeps a
/// selection of the input elements in order of appearance.
pub open spec fn hof_ok_shape(
    op: Operation,
    ins: Map<Seq<char>, JsonV>,
    r: Result<Dict<Json>, Error>,
) -> bool {
    r matches Ok(outs) ==> {
        &&& ins.contains_key("list"@) && ins["list"@] is Arr
        &&& exists|rs: Seq<JsonV>|
            {
                &&& outs@ == Map::<Seq<char>, JsonV>::empty().insert("out"@, JsonV::Arr(rs))
                &&& (op is MapItems ==> rs.len() == ins["list"@]->Arr_0.len())
                &&& (op is Filter ==> rs.len() <= ins["list"@]->Arr_0.len() && (forall|i: int|
                    0 <= i < rs.len() ==> exists|j: int|
                        0 <= j < ins["list"@]->Arr_0.len() && #[trigger] rs[i] == ins["list"@]->Arr_0[j]))
            }
    }
}

/// The shared input ladder of the higher-order operations: `list` must
/// hold an array, `apply_op` a string naming a known operation; `arg`
/// is required for `Map` and `Filter`, the fold ports for `Reduce`; a
/// present `params` must hold an object. `None` means every required
/// input passed these checks.
pub open spec fn hof_input_err(
    op: Operation,
    ins: Map<Seq<char>, JsonV>,
    r: Result<Dict<Json>, Error>,
) -> Option<bool> {
    if !ins.contains_key("list"@) {
        Some(missing_input_err(r, "list"@))
    } else if !(ins["list"@] is Arr) {
        Some(invalid_type_err(r, "array"@))
    } else if !ins.contains_key("apply_op"@) {
        Some(missing_input_err(r, "apply_op"@))
    } else if !(ins["apply_op"@] is Str) {
        Some(invalid_type_err(r, "string (op name)"@))
    } else if (op is MapItems || op is Filter) && !ins.contains_key("arg"@) {
        Some(missing_input_err(r, "arg"@))
    } else if op is Reduce && !ins.contains_key("initial"@) {
        Some(missing_input_err(r, "initial"@))
    } else if op is Reduce && !ins.contains_key("acc_arg"@) {
        Some(missing_input_err(r, "acc_arg"@))
    } else if op is Reduce && !ins.contains_key("item_arg"@) {
        Some(missing_input_err(r, "item_arg"@))
    } else if (op is MapItems || op is Filter) && ins.contains_key("params"@) && !(ins["params"@]
        is Obj) {
        Some(invalid_type_err(r, "object (params)"@))
    } else if op_of_name(ins["apply_op"@]->Str_0) is None {
        Some(
            r matches Err(Error::UnknownOperation(name)) && name@ == ins["apply_op"@]->Str_0,
        )
    } else {
        None
    }
}

/// The inner input map of one higher-order call: the static parameter
/// entries (empty when the `params` port is absent) overlaid with the
/// current element under the item key.
pub open spec fn overlay(params: Seq<(Seq<char>, JsonV)>, arg: Seq<char>, item: JsonV) -> Map<
    Seq<char>,
    JsonV,
> {
    assoc_map(params).insert(arg, item)
}

/// The static parameter entries of a higher-order call.
pub open spec fn params_of(ins: Map<Seq<char>, JsonV>) -> Seq<(Seq<char>, JsonV)> {
    if ins.contains_key("params"@) {
        ins["params"@]->Obj_0
    } else {
        Seq::empty()
    }
}

/// The item key of a higher-order call: the `arg` input when it holds a
/// string, else the operation's hard-coded default.
pub open spec fn item_key_of(ins: Map<Seq<char>, JsonV>, dflt: Seq<char>) -> Seq<char> {
    if ins["arg"@] is Str {
        ins["arg"@]->Str_0
    } else {
        dflt
    }
}

/// The `out` value of an inner call's output map: null when absent.
pub open spec fn out_or_null(outs: Map<Seq<char>, JsonV>) -> JsonV {
    if outs.contains_key("out"@) {
        outs["out"@]
    } else {
        JsonV::Null
    }
}

/// `Map`'s success, element by element: each output element is the
/// `out` value (null when absent) of one inner call of the named
/// operation on the static parameters overlaid with the corresponding
/// input element, in input order.
pub open spec fn map_ok(ins: Map<Seq<char>, JsonV>, r: Result<Dict<Json>, Error>) -> bool {
    r matches Ok(outs) ==> {
        let items = ins["list"@]->Arr_0;
        let op2 = op_of_name(ins["apply_op"@]->Str_0)->0;
        let argk = item_key_of(ins, "in"@);
        &&& ins.contains_key("list"@) && ins["list"@] is Arr
        &&& exists|rs: Seq<JsonV>, inner: Seq<Dict<Json>>|
            {
                &&& outs@ == Map::<Seq<char>, JsonV>::empty().insert("out"@, JsonV::Arr(rs))
                &&& rs.len() == items.len()
                &&& inner.len() == items.len()
                &&& forall|i: int|
                    0 <= i < items.len() ==> op_contract(
                        op2,
                        overlay(params_of(ins), argk, items[i]),
                        Ok(#[trigger] inner[i]),
                    )
                &&& forall|i: int| 0 <= i < items.len() ==> #[trigger] rs[i] == out_or_null(
                    inner[i]@,
                )
            }
    }
}

/// The elements a run of keep decisions retains, in input order.
pub open spec fn kept_elems(items: Seq<JsonV>, keep: Seq<bool>) -> Seq<JsonV>
    decreases items,
{
    if items.len() == 0 {
        Seq::empty()
    } else {
        kept_elems(items.subrange(0, items.len() - 1), keep.subrange(0, keep.len() - 1)) + (
        if keep.len() == items.len() && keep[keep.len() - 1] {
            seq![items[items.len() - 1]]
        } else {
            Seq::<JsonV>::empty()
        })
    }
}

/// `Filter`'s success: one inner call per element; an element is kept
/// exactly when the call's `out` value is the boolean `true`, and the
/// kept elements appear in input order.
pub open spec fn filter_ok(ins: Map<Seq<char>, JsonV>, r: Result<Dict<Json>, Error>) -> bool {
    r matches Ok(outs) ==> {
        let items = ins["list"@]->Arr_0;
        let op2 = op_of_name(ins["apply_op"@]->Str_0)->0;
        let argk = item_key_of(ins, "a"@);
        &&& ins.contains_key("list"@) && ins["list"@] is Arr
        &&& exists|keep: Seq<bool>, inner: Seq<Dict<Json>>|
            {
                &&& keep.len() == items.len()
                &&& inner.len() == items.len()
                &&& forall|i: int|
                    0 <= i < items.len() ==> op_contract(
                        op2,
                        overlay(params_of(ins), argk, items[i]),
                        Ok(#[trigger] inner[i]),
                    )
                &&& forall|i: int| 0 <= i < items.len() ==> #[trigger] keep[i] == (out_or_null(
                    inner[i]@,
                ) == JsonV::Bool(true))
                &&& outs@ == Map::<Seq<char>, JsonV>::empty().insert(
                    "out"@,
                    JsonV::Arr(kept_elems(items, keep)),
                )
            }
    }
}

/// The accumulator key of a `Reduce` call.
pub open spec fn acc_key_of(ins: Map<Seq<char>, JsonV>) -> Seq<char> {
    if ins["acc_arg"@] is Str {
        ins["acc_arg"@]->Str_0
    } else {
        "a"@
    }
}

/// The element key of a `Reduce` call.
pub open spec fn elem_key_of(ins: Map<Seq<char>, JsonV>) -> Seq<char> {
    if ins["item_arg"@] is Str {
        ins["item_arg"@]->Str_0
    } else {
        "b"@
    }
}

/// The input map of one `Reduce` step.
pub open spec fn fold_step_ins(ins: Map<Seq<char>, JsonV>, acc: JsonV, item: JsonV) -> Map<
    Seq<char>,
    JsonV,
> {
    Map::<Seq<char>, JsonV>::empty().insert(acc_key_of(ins), acc).insert(elem_key_of(ins), item)
}

/// A fold chain of length `k`: the accumulator starts at `initial`, and
/// each of the first `k` steps runs the named operation on the two fold
/// ports and takes its `out` (null when absent) as the next accumulator.
pub open spec fn fold_chain(
    ins: Map<Seq<char>, JsonV>,
    accs: Seq<JsonV>,
    inner: Seq<Dict<Json>>,
    k: int,
) -> bool {
    let items = ins["list"@]->Arr_0;
    let op2 = op_of_name(ins["apply_op"@]->Str_0)->0;
    &&& 0 <= k <= items.len()
    &&& accs.len() == k + 1
    &&& inner.len() == k
    &&& accs[0] == ins["initial"@]
    &&& forall|i: int|
        0 <= i < k ==> op_contract(op2, fold_step_ins(ins, accs[i], items[i]), Ok(#[trigger] inner[i]))
    &&& forall|i: int| 0 <= i < k ==> #[trigger] accs[i + 1] == out_or_null(inner[i]@)
}

/// `Reduce`'s success: a complete left fold over the list, its final
/// accumulator emitted on `out`.
pub open spec fn reduce_ok(ins: Map<Seq<char>, JsonV>, r: Result<Dict<Json>, Error>) -> bool {
    r matches Ok(outs) ==> {
        let items = ins["list"@]->Arr_0;
        exists|accs: Seq<JsonV>, inner: Seq<Dict<Json>>|
            {
                &&& fold_chain(ins, accs, inner, items.len() as int)
                &&& outs@ == Map::<Seq<char>, JsonV>::empty().insert(
                    "out"@,
                    accs[items.len() as int],
                )
            }
    }
}

/// `Map` and `Filter` fail past their input ladder only because an
/// inner call failed: some element's call reported exactly the surfaced
/// error, and every earlier element's call succeeded.
pub open spec fn hof_err_accounted(
    op: Operation,
    ins: Map<Seq<char>, JsonV>,
    r: Result<Dict<Json>, Error>,
) -> bool {
    hof_inputs_ok(op, ins) ==> (r matches Err(e) ==> {
        let items = ins["list"@]->Arr_0;
        let op2 = op_of_name(ins["apply_op"@]->Str_0)->0;
        let argk = item_key_of(
            ins,
            if op is MapItems {
                "in"@
            } else {
                "a"@
            },
        );
        exists|i: int, inner: Seq<Dict<Json>>|
            {
                &&& 0 <= i < items.len()
                &&& #[trigger] inner.len() == i
                &&& forall|j: int|
                    0 <= j < i ==> op_contract(
                        op2,
                        overlay(params_of(ins), argk, items[j]),
                        Ok(#[trigger] inner[j]),
                    )
                &&& op_contract(op2, overlay(params_of(ins), argk, #[trigger] items[i]), Err(e))
            }
    })
}

/// `Reduce` fails past its input ladder only because a fold step
/// failed: some prefix folds cleanly and the next step reports exactly
/// the surfaced error.
pub open spec fn reduce_err_accounted(ins: Map<Seq<char>, JsonV>, r: Result<Dict<Json>, Error>) -> bool {
    hof_inputs_ok(Operation::Reduce, ins) ==> (r matches Err(e) ==> {
        let items = ins["list"@]->Arr_0;
        let op2 = op_of_name(ins["apply_op"@]->Str_0)->0;
        exists|k: int, accs: Seq<JsonV>, inner: Seq<Dict<Json>>|
            {
                &&& 0 <= k < items.len()
                &&& fold_chain(ins, accs, inner, k)
                &&& op_contract(op2, fold_step_ins(ins, accs[k], items[k]), Err(e))
            }
    })
}

/// Whether a higher-order operation's inputs pass its whole ladder.
pub open spec fn hof_inputs_ok(op: Operation, ins: Map<Seq<char>, JsonV>) -> bool {
    &&& ins.contains_key("list"@) && ins["list"@] is Arr
    &&& ins.contains_key("apply_op"@) && ins["apply_op"@] is Str
    &&& (op is MapItems || op is Filter) ==> ins.contains_key("arg"@)
    &&& op is Reduce ==> ins.contains_key("initial"@) && ins.contains_key("acc_arg"@)
        && ins.contains_key("item_arg"@)
    &&& (op is MapItems || op is Filter) && ins.contains_key("params"@) ==> ins["params"@] is Obj
    &&& op_of_name(ins["apply_op"@]->Str_0) is Some
}

/// What each operation promises of its result.
pub open spec fn op_contract(
    op: Operation,
    ins: Map<Seq<char>, JsonV>,
    r: Result<Dict<Json>, Error>,
) -> bool {
    match op {
        Operation::Const => if ins.contains_key("value"@) {
            single_out(r, ins["value"@])
        } else {
            missing_input_err(r, "value"@)
        },
        Operation::Print => if ins.contains_key("in"@) {
            single_out(r, ins["in"@])
        } else {
            missing_input_err(r, "in"@)
        },
        Operation::Add => math_contract(op, ins, r),
        Operation::Sub => math_contract(op, ins, r),
        Operation::Mul => math_contract(op, ins, r),
        Operation::Div => math_contract(op, ins, r),
        Operation::Eq => logic_contract(op, ins, r),
        Operation::Gt => logic_contract(op, ins, r),
        Operation::Lt => logic_contract(op, ins, r),
        Operation::Switch => switch_contract(ins, r),
        Operation::Len => len_contract(ins, r),
        Operation::MapItems => match hof_input_err(op, ins, r) {
            Some(claim) => claim,
            None => hof_ok_shape(op, ins, r),
        },
        Operation::Filter => match hof_input_err(op, ins, r) {
            Some(claim) => claim,
            None => hof_ok_shape(op, ins, r),
        },
        Operation::Reduce => match hof_input_err(op, ins, r) {
            Some(claim) => claim,
            None => r matches Ok(outs) ==> outs@.contains_key("out"@),
        },
    }
}

/// Relies on std::io::stdout: writes one line to standard output.
#[verifier::external_body]
fn emit_line(s: &str) {
    let _ = writeln!(std::io::stdout(), "{}", s);
}

/// Looks a required input up.
fn get_input<'a>(inputs: &'a Dict<Json>, name: &str) -> (r: Result<&'a Json, Error>)
    requires
        inputs.wf(),
    ensures
        match r {
            Ok(v) => inputs@.contains_key(name@) && v@ == inputs@[name@],
            Err(e) => {
                &&& !inputs@.contains_key(name@)
                &&& e matches Error::MissingInput { node, port } && node@ == "unknown"@ && port@
                    == name@
            },
        },
{
    match inputs.get(name) {
        Some(v) => Ok(v),
        None => Err(
            Error::MissingInput { node: "unknown".to_owned(), port: name.to_owned() },
        ),
    }
}

/// Looks a required numeric input up.
fn get_num(inputs: &Dict<Json>, name: &str) -> (r: Result<i64, Error>)
    requires
        inputs.wf(),
    ensures
        match r {
            Ok(n) => inputs@.contains_key(name@) && inputs@[name@] == JsonV::Num(n as int),
            Err(e) => if !inputs@.contains_key(name@) {
                e matches Error::MissingInput { node, port } && node@ == "unknown"@ && port@
                    == name@
            } else {
                &&& !(inputs@[name@] is Num)
                &&& e matches Error::InvalidType { node, expected, actual } && node@ == "unknown"@
                    && expected@ == "number"@
            },
        },
{
    let v: &Json = match get_input(inputs, name) {
        Ok(v) => v,
        Err(e) => {
            return Err(e);
        },
    };
    match v {
        Json::Num(n) => Ok(*n),
        _ => Err(
            Error::InvalidType {
                node: "unknown".to_owned(),
                expected: "number".to_owned(),
                actual: v.to_text(),
            },
        ),
    }
}

/// Looks a required boolean input up.
fn get_bool(inputs: &Dict<Json>, name: &str) -> (r: Result<bool, Error>)
    requires
        inputs.wf(),
    ensures
        match r {
            Ok(b) => inputs@.contains_key(name@) && inputs@[name@] == JsonV::Bool(b),
            Err(e) => if !inputs@.contains_key(name@) {
                e matches Error::MissingInput { node, port } && node@ == "unknown"@ && port@
                    == name@
            } else {
                &&& !(inputs@[name@] is Bool)
                &&& e matches Error::InvalidType { node, expected, actual } && node@ == "unknown"@
                    && expected@ == "boolean"@
            },
        },
{
    let v: &Json = match get_input(inputs, name) {
        Ok(v) => v,
        Err(e) => {
            return Err(e);
        },
    };
    match v {
        Json::Bool(b) => Ok(*b),
        _ => Err(
            Error::InvalidType {
                node: "unknown".to_owned(),
                expected: "boolean".to_owned(),
                actual: v.to_text(),
            },
        ),
    }
}

/// A value of a well-formed input map is no deeper than the map.
proof fn lemma_dict_val_depth(s: Seq<(Seq<char>, JsonV)>, k: Seq<char>)
    requires
        unique_keys(s),
        assoc_map(s).contains_key(k),
    ensures
        jdepth(assoc_map(s)[k]) <= depth_of_entries(s),
{
    lemma_assoc_contains(s, k);
    let i = choose|i: int| 0 <= i < s.len() && s[i].0 == k;
    lemma_assoc_index(s, i);
    lemma_depth_of_entries(s);
}

/// A bound on every element's depth bounds the sequence's depth.
proof fn lemma_elems_depth_bound(items: Seq<JsonV>, b: nat)
    requires
        forall|i: int| 0 <= i < items.len() ==> jdepth(#[trigger] items[i]) <= b,
    ensures
        depth_of_elems(items) <= b,
    decreases items.len(),
{
    if items.len() > 0 {
        let rest = items.subrange(0, items.len() - 1);
        assert(forall|i: int| 0 <= i < rest.len() ==> rest[i] == items[i]);
        lemma_elems_depth_bound(rest, b);
    }
}

/// A bound on every entry value's depth bounds the entry list's depth.
proof fn lemma_entries_depth_bound(s: Seq<(Seq<char>, JsonV)>, b: nat)
    requires
        forall|i: int| 0 <= i < s.len() ==> jdepth(#[trigger] s[i].1) <= b,
    ensures
        depth_of_entries(s) <= b,
    decreases s.len(),
{
    if s.len() > 0 {
        let rest = s.subrange(0, s.len() - 1);
        assert(forall|i: int| 0 <= i < rest.len() ==> rest[i] == s[i]);
        lemma_entries_depth_bound(rest, b);
    }
}

impl Operation {
    /// Executes the operation on a named input map. Operations are
    /// stateless: the result depends on the inputs alone, and the
    /// higher-order operations re-enter the registry on synthesised
    /// input maps built from strictly shallower values.
    pub fn execute(&self, inputs: &Dict<Json>) -> (r: Result<Dict<Json>, Error>)
        requires
            inputs.wf(),
        ensures
            r matches Ok(outs) ==> outs.wf() && (forall|k: Seq<char>|
                outs@.contains_key(k) ==> jdepth(#[trigger] outs@[k]) <= depth_of_entries(
                    inputs.seq_view(),
                )),
            r matches Err(e) ==> placeholder_err(e),
            r matches Err(Error::UnknownOperation(name)) ==> op_of_name(name@) is None,
            op_contract(*self, inputs@, r),
            *self is MapItems ==> map_ok(inputs@, r) && hof_err_accounted(*self, inputs@, r),
            *self is Filter ==> filter_ok(inputs@, r) && hof_err_accounted(*self, inputs@, r),
            *self is Reduce ==> reduce_ok(inputs@, r) && reduce_err_accounted(inputs@, r),
        decreases depth_of_entries(inputs.seq_view()), inputs.seq_view().len(), 1int,
    {
        match self {
            Operation::Const => pass_through(inputs, "value"),
            Operation::Print => {
                let r = pass_through(inputs, "in");
                if let Ok(outs) = &r {
                    let mut line: String = String::new();
                    line.append("OUTPUT: ");
                    let v: Option<&Json> = outs.get("out");
                    if let Some(v) = v {
                        let t: String = v.to_text();
                        line.append(t.as_str());
                    }
                    emit_line(line.as_str());
                }
                r
            },
            Operation::Add => math_exec(Operation::Add, inputs),
            Operation::Sub => math_exec(Operation::Sub, inputs),
            Operation::Mul => math_exec(Operation::Mul, inputs),
            Operation::Div => math_exec(Operation::Div, inputs),
            Operation::Eq => logic_exec(Operation::Eq, inputs),
            Operation::Gt => logic_exec(Operation::Gt, inputs),
            Operation::Lt => logic_exec(Operation::Lt, inputs),
            Operation::Switch => switch_exec(inputs),
            Operation::Len => len_exec(inputs),
            Operation::MapItems => map_exec(inputs),
            Operation::Reduce => reduce_exec(inputs),
            Operation::Filter => filter_exec(inputs),
        }
    }
}

/// Copies one required input to the `out` port: the body of `Const`
/// and of `Print`.
fn pass_through(inputs: &Dict<Json>, name: &str) -> (r: Result<Dict<Json>, Error>)
    requires
        inputs.wf(),
    ensures
        r matches Ok(outs) ==> outs.wf() && (forall|k: Seq<char>|
            outs@.contains_key(k) ==> jdepth(#[trigger] outs@[k]) <= depth_of_entries(
                inputs.seq_view(),
            )),
        r matches Err(e) ==> placeholder_err(e),
        if inputs@.contains_key(name@) {
            single_out(r, inputs@[name@])
        } else {
            missing_input_err(r, name@)
        },
{
    let v: &Json = match get_input(inputs, name) {
        Ok(v) => v,
        Err(e) => {
            return Err(e);
        },
    };
    let mut outs: Dict<Json> = Dict::new();
    outs.insert("out".to_owned(), v.deep_copy());
    proof {
        lemma_dict_val_depth(inputs.seq_view(), name@);
    }
    Ok(outs)
}

/// The body of the arithmetic operations.
fn math_exec(op: Operation, inputs: &Dict<Json>) -> (r: Result<Dict<Json>, Error>)
    requires
        inputs.wf(),
        op is Add || op is Sub || op is Mul || op is Div,
    ensures
        r matches Ok(outs) ==> outs.wf() && (forall|k: Seq<char>|
            outs@.contains_key(k) ==> jdepth(#[trigger] outs@[k]) <= depth_of_entries(
                inputs.seq_view(),
            )),
        r matches Err(e) ==> placeholder_err(e),
        math_contract(op, inputs@, r),
{
    let a: i64 = match get_num(inputs, "a") {
        Ok(n) => n,
        Err(e) => {
            return Err(e);
        },
    };
    let b: i64 = match get_num(inputs, "b") {
        Ok(n) => n,
        Err(e) => {
            return Err(e);
        },
    };
    let res: Option<i64> = match op {
        Operation::Add => a.checked_add(b),
        Operation::Sub => a.checked_sub(b),
        Operation::Mul => a.checked_mul(b),
        _ => {
            if b == 0 {
                return Err(
                    Error::OperationError {
                        node: "unknown".to_owned(),
                        reason: "Division by zero".to_owned(),
                    },
                );
            }
            let exact: bool = match a.checked_rem_euclid(b) {
                Some(re) => re == 0,
                None => true,
            };
            proof {
                if a == i64::MIN && b == -1 {
                    assert((a as int) % (b as int) == 0) by (nonlinear_arith)
                        requires a == i64::MIN && b == -1;
                }
            }
            if !exact {
                return Err(
                    Error::OperationError {
                        node: "unknown".to_owned(),
                        reason: "inexact division".to_owned(),
                    },
                );
            }
            a.checked_div(b)
        },
    };
    match res {
        Some(n) => {
            let mut outs: Dict<Json> = Dict::new();
            outs.insert("out".to_owned(), Json::Num(n));
            Ok(outs)
        },
        None => Err(
            Error::OperationError {
                node: "unknown".to_owned(),
                reason: "arithmetic overflow".to_owned(),
            },
        ),
    }
}

/// The body of the comparison operations.
fn logic_exec(op: Operation, inputs: &Dict<Json>) -> (r: Result<Dict<Json>, Error>)
    requires
        inputs.wf(),
        op is Eq || op is Gt || op is Lt,
    ensures
        r matches Ok(outs) ==> outs.wf() && (forall|k: Seq<char>|
            outs@.contains_key(k) ==> jdepth(#[trigger] outs@[k]) <= depth_of_entries(
                inputs.seq_view(),
            )),
        r matches Err(e) ==> placeholder_err(e),
        logic_contract(op, inputs@, r),
{
    let a: &Json = match get_input(inputs, "a") {
        Ok(v) => v,
        Err(e) => {
            return Err(e);
        },
    };
    let b: &Json = match get_input(inputs, "b") {
        Ok(v) => v,
        Err(e) => {
            return Err(e);
        },
    };
    let c: bool = match (a, b) {
        (Json::Num(x), Json::Num(y)) => match op {
            Operation::Eq => *x == *y,
            Operation::Gt => *x > *y,
            _ => *x < *y,
        },
        _ => {
            if matches!(op, Operation::Eq) {
                json_eq(a, b)
            } else {
                return Err(
                    Error::InvalidType {
                        node: "unknown".to_owned(),
                        expected: "comparable numbers".to_owned(),
                        actual: "mixed/non-numeric types".to_owned(),
                    },
                );
            }
        },
    };
    let mut outs: Dict<Json> = Dict::new();
    outs.insert("out".to_owned(), Json::Bool(c));
    Ok(outs)
}

/// The body of `Switch`.
fn switch_exec(inputs: &Dict<Json>) -> (r: Result<Dict<Json>, Error>)
    requires
        inputs.wf(),
    ensures
        r matches Ok(outs) ==> outs.wf() && (forall|k: Seq<char>|
            outs@.contains_key(k) ==> jdepth(#[trigger] outs@[k]) <= depth_of_entries(
                inputs.seq_view(),
            )),
        r matches Err(e) ==> placeholder_err(e),
        switch_contract(inputs@, r),
{
    let cond: bool = match get_bool(inputs, "cond") {
        Ok(b) => b,
        Err(e) => {
            return Err(e);
        },
    };
    let has_true: bool = inputs.get("true").is_some();
    let has_false: bool = inputs.get("false").is_some();
    if has_true && has_false {
        let v: &Json = match get_input(inputs, if cond { "true" } else { "false" }) {
            Ok(v) => v,
            Err(e) => {
                return Err(e);
            },
        };
        let mut outs: Dict<Json> = Dict::new();
        outs.insert("out".to_owned(), v.deep_copy());
        proof {
            lemma_dict_val_depth(inputs.seq_view(), if cond { "true"@ } else { "false"@ });
        }
        return Ok(outs);
    }
    let data: &Json = match get_input(inputs, "data") {
        Ok(v) => v,
        Err(e) => {
            return Err(e);
        },
    };
    let mut outs: Dict<Json> = Dict::new();
    if cond {
        outs.insert("true".to_owned(), data.deep_copy());
    } else {
        outs.insert("false".to_owned(), data.deep_copy());
    }
    outs.insert("out".to_owned(), data.deep_copy());
    proof {
        lemma_dict_val_depth(inputs.seq_view(), "data"@);
    }
    Ok(outs)
}

/// The body of `Len`.
fn len_exec(inputs: &Dict<Json>) -> (r: Result<Dict<Json>, Error>)
    requires
        inputs.wf(),
    ensures
        r matches Ok(outs) ==> outs.wf() && (forall|k: Seq<char>|
            outs@.contains_key(k) ==> jdepth(#[trigger] outs@[k]) <= depth_of_entries(
                inputs.seq_view(),
            )),
        r matches Err(e) ==> placeholder_err(e),
        len_contract(inputs@, r),
{
    let v: &Json = match get_input(inputs, "list") {
        Ok(v) => v,
        Err(e) => {
            return Err(e);
        },
    };
    let items: &Vec<Json> = match v {
        Json::Arr(items) => items,
        _ => {
            return Err(
                Error::InvalidType {
                    node: "unknown".to_owned(),
                    expected: "array".to_owned(),
                    actual: v.to_text(),
                },
            );
        },
    };
    proof {
        lemma_views_of(items@);
    }
    let n: usize = items.len();
    let count: i64 = if (n as u64) <= (i64::MAX as u64) {
        n as i64
    } else {
        i64::MAX
    };
    proof {
        assert(views_of(items@).len() == items@.len());
        assert(count as int == len_num(items@.len() as nat));
    }
    let mut outs: Dict<Json> = Dict::new();
    outs.insert("out".to_owned(), Json::Num(count));
    Ok(outs)
}

/// The body of `Map`: applies an operation to every element of `list`,
/// collecting each call's `out` value (null when absent) in input order.
fn map_exec(inputs: &Dict<Json>) -> (r: Result<Dict<Json>, Error>)
    requires
        inputs.wf(),
    ensures
        r matches Ok(outs) ==> outs.wf() && (forall|k: Seq<char>|
            outs@.contains_key(k) ==> jdepth(#[trigger] outs@[k]) <= depth_of_entries(
                inputs.seq_view(),
            )),
        r matches Err(e) ==> placeholder_err(e),
        match hof_input_err(Operation::MapItems, inputs@, r) {
            Some(claim) => claim,
            None => hof_ok_shape(Operation::MapItems, inputs@, r)
        },
        map_ok(inputs@, r),
        hof_err_accounted(Operation::MapItems, inputs@, r),
        r matches Err(Error::UnknownOperation(name)) ==> op_of_name(name@) is None,
    decreases depth_of_entries(inputs.seq_view()), inputs.seq_view().len(), 0int,
{
    let ghost din: nat = depth_of_entries(inputs.seq_view());
    let lv: &Json = match get_input(inputs, "list") {
        Ok(v) => v,
        Err(e) => {
            return Err(e);
        },
    };
    let items: &Vec<Json> = match lv {
        Json::Arr(items) => items,
        _ => {
            return Err(
                Error::InvalidType {
                    node: "unknown".to_owned(),
                    expected: "array".to_owned(),
                    actual: lv.to_text(),
                },
            );
        },
    };
    proof {
        lemma_views_of(items@);
        lemma_dict_val_depth(inputs.seq_view(), "list"@);
        lemma_depth_of_elems(views_of(items@));
        assert(jdepth(lv@) <= din);
        assert(jdepth(lv@) == 1 + depth_of_elems(views_of(items@)));
    }
    let opn: &Json = match get_input(inputs, "apply_op") {
        Ok(v) => v,
        Err(e) => {
            return Err(e);
        },
    };
    let op_name: &String = match opn {
        Json::Str(name) => name,
        _ => {
            return Err(
                Error::InvalidType {
                    node: "unknown".to_owned(),
                    expected: "string (op name)".to_owned(),
                    actual: "non-string".to_owned(),
                },
            );
        },
    };
    let argv: &Json = match get_input(inputs, "arg") {
        Ok(v) => v,
        Err(e) => {
            return Err(e);
        },
    };
    let item_arg: String = match argv {
        Json::Str(name) => name.as_str().to_owned(),
        _ => "in".to_owned(),
    };
    let params: Option<&Vec<(String, Json)>> = match inputs.get("params") {
        Some(p) => match p {
            Json::Obj(pentries) => {
                proof {
                    lemma_views_of_entries(pentries@);
                    lemma_dict_val_depth(inputs.seq_view(), "params"@);
                    lemma_depth_of_entries(views_of_entries(pentries@));
                }
                Some(pentries)
            },
            _ => {
                return Err(
                    Error::InvalidType {
                        node: "unknown".to_owned(),
                        expected: "object (params)".to_owned(),
                        actual: "non-object".to_owned(),
                    },
                );
            },
        },
        None => None,
    };
    let op2: Operation = match Ops::get(op_name.as_str()) {
        Some(o) => o,
        None => {
            return Err(Error::UnknownOperation(op_name.as_str().to_owned()));
        },
    };
    let ghost items_v = views_of(items@);
    let ghost argk = item_arg@;
    let ghost pseq = params_of(inputs@);
    proof {
        assert(items_v == inputs@["list"@]->Arr_0);
        assert(op2 == op_of_name(inputs@["apply_op"@]->Str_0)->0);
        assert(argk == item_key_of(inputs@, "in"@));
        match params {
            Some(pentries) => {
                assert(pseq == views_of_entries(pentries@));
            },
            None => {
                assert(pseq =~= Seq::<(Seq<char>, JsonV)>::empty());
            },
        }
    }
    let mut result_list: Vec<Json> = Vec::new();
    let ghost mut inner_runs: Seq<Dict<Json>> = Seq::empty();
    let mut i: usize = 0;
    while i < items.len()
        invariant
            inputs.wf(),
            hof_inputs_ok(Operation::MapItems, inputs@),
            din == depth_of_entries(inputs.seq_view()),
            1 <= din,
            i <= items.len(),
            result_list@.len() == i,
            views_of(items@).len() == items@.len(),
            forall|k: int| 0 <= k < items@.len() ==> views_of(items@)[k] == items@[k]@,
            forall|k: int|
                0 <= k < items@.len() ==> jdepth(#[trigger] views_of(items@)[k]) <= din - 1,
            forall|k: int| 0 <= k < i ==> jdepth(#[trigger] result_list@[k]@) <= din - 1,
            items_v == views_of(items@),
            items_v == inputs@["list"@]->Arr_0,
            op2 == op_of_name(inputs@["apply_op"@]->Str_0)->0,
            argk == item_key_of(inputs@, "in"@),
            argk == item_arg@,
            pseq == params_of(inputs@),
            match params {
                Some(pentries) => pseq == views_of_entries(pentries@),
                None => pseq == Seq::<(Seq<char>, JsonV)>::empty(),
            },
            inner_runs.len() == i,
            forall|k: int|
                0 <= k < i ==> op_contract(
                    op2,
                    overlay(pseq, argk, items_v[k]),
                    Ok(#[trigger] inner_runs[k]),
                ),
            forall|k: int| 0 <= k < i ==> #[trigger] result_list@[k]@ == out_or_null(
                inner_runs[k]@,
            ),
            match params {
                Some(pentries) => {
                    &&& views_of_entries(pentries@).len() == pentries@.len()
                    &&& forall|k: int|
                        0 <= k < pentries@.len() ==> views_of_entries(pentries@)[k] == (
                        pentries@[k].0@,
                        pentries@[k].1@,
                        )
                    &&& forall|k: int|
                        0 <= k < pentries@.len() ==> jdepth(
                            #[trigger] views_of_entries(pentries@)[k].1,
                        ) <= din - 1
                },
                None => true,
            },
        decreases items.len() - i,
    {
        proof {
            assert(views_of(items@)[i as int] == items@[i as int]@);
            assert(jdepth(items@[i as int]@) <= din - 1);
        }
        let op_inputs: Dict<Json> = build_call_inputs(params, item_arg.as_str(), &items[i], Ghost((din - 1) as nat));
        proof {
            assert(op_inputs@ == overlay(pseq, argk, items_v[i as int]));
        }
        let r_call: Result<Dict<Json>, Error> = op2.execute(&op_inputs);
        let ghost g_call = r_call;
        let res: Dict<Json> = match r_call {
            Ok(outs) => outs,
            Err(e) => {
                proof {
                    assert(op_contract(op2, overlay(pseq, argk, items_v[i as int]), g_call));
                }
                return Err(e);
            },
        };
        proof {
            assert(g_call == Ok::<Dict<Json>, Error>(res));
            assert(op_contract(op2, overlay(pseq, argk, items_v[i as int]), Ok(res)));
        }
        let out_val: Json = match res.get("out") {
            Some(v) => v.deep_copy(),
            None => Json::Null,
        };
        proof {
            assert(jdepth(out_val@) <= din - 1);
            assert(out_val@ == out_or_null(res@));
            inner_runs = inner_runs.push(res);
        }
        result_list.push(out_val);
        i = i + 1;
    }
    let mut outs: Dict<Json> = Dict::new();
    proof {
        lemma_views_of(result_list@);
        assert forall|k: int| 0 <= k < views_of(result_list@).len() implies jdepth(
            #[trigger] views_of(result_list@)[k],
        ) <= (din - 1) by {
            assert(views_of(result_list@)[k] == result_list@[k]@);
        }
        lemma_elems_depth_bound(views_of(result_list@), (din - 1) as nat);
    }
    outs.insert("out".to_owned(), Json::Arr(result_list));
    proof {
        let rs = views_of(result_list@);
        assert(outs@ =~= Map::<Seq<char>, JsonV>::empty().insert("out"@, JsonV::Arr(rs)));
        assert(hof_ok_shape(Operation::MapItems, inputs@, Ok(outs)));
        assert forall|k: int| 0 <= k < items_v.len() implies #[trigger] rs[k] == out_or_null(
            inner_runs[k]@,
        ) by {
            assert(rs[k] == result_list@[k]@);
        }
        assert(map_ok(inputs@, Ok(outs)));
    }
    Ok(outs)
}

/// Builds the synthesised input map for one inner call: the static
/// parameters, overlaid with the current element under the item key.
fn build_call_inputs(
    params: Option<&Vec<(String, Json)>>,
    item_arg: &str,
    item: &Json,
    Ghost(bound): Ghost<nat>,
) -> (r: Dict<Json>)
    requires
        jdepth(item@) <= bound,
        match params {
            Some(pentries) => {
                &&& views_of_entries(pentries@).len() == pentries@.len()
                &&& forall|k: int|
                    0 <= k < pentries@.len() ==> views_of_entries(pentries@)[k] == (
                    pentries@[k].0@,
                    pentries@[k].1@,
                    )
                &&& forall|k: int|
                    0 <= k < pentries@.len() ==> jdepth(
                        #[trigger] views_of_entries(pentries@)[k].1,
                    ) <= bound
            },
            None => true,
        },
    ensures
        r.wf(),
        depth_of_entries(r.seq_view()) <= bound,
        r.seq_view().len() <= (match params {
            Some(pentries) => pentries@.len() + 1,
            None => 1,
        }),
        r@ == overlay(
            match params {
                Some(pentries) => views_of_entries(pentries@),
                None => Seq::<(Seq<char>, JsonV)>::empty(),
            },
            item_arg@,
            item@,
        ),
{
    let mut op_inputs: Dict<Json> = Dict::new();
    if let Some(pentries) = params {
        proof {
            assert forall|k: int| 0 <= k < pentries@.len() implies jdepth(
                #[trigger] pentries@[k].1@,
            ) <= bound by {
                assert(views_of_entries(pentries@)[k].1 == pentries@[k].1@);
            }
            assert(views_of_entries(pentries@).subrange(0, 0) =~= Seq::<
                (Seq<char>, JsonV),
            >::empty());
        }
        let mut j: usize = 0;
        while j < pentries.len()
            invariant
                op_inputs.wf(),
                j <= pentries@.len(),
                op_inputs.seq_view().len() <= j,
                views_of_entries(pentries@).len() == pentries@.len(),
                forall|k: int|
                    0 <= k < pentries@.len() ==> views_of_entries(pentries@)[k] == (
                    pentries@[k].0@,
                    pentries@[k].1@,
                    ),
                op_inputs@ == assoc_map(views_of_entries(pentries@).subrange(0, j as int)),
                forall|k: int|
                    0 <= k < pentries@.len() ==> jdepth(#[trigger] pentries@[k].1@) <= bound,
                forall|k: int|
                    0 <= k < op_inputs.seq_view().len() ==> jdepth(
                        #[trigger] op_inputs.seq_view()[k].1,
                    ) <= bound,
            decreases pentries.len() - j,
        {
            let entry = &pentries[j];
            let ghost before = op_inputs.seq_view();
            op_inputs.insert(entry.0.as_str().to_owned(), entry.1.deep_copy());
            proof {
                assert forall|k: int| 0 <= k < op_inputs.seq_view().len() implies jdepth(
                    #[trigger] op_inputs.seq_view()[k].1,
                ) <= bound by {
                    if op_inputs.seq_view()[k].1 != entry.1@ {
                        let j2 = choose|j2: int|
                            0 <= j2 < before.len() && before[j2] == op_inputs.seq_view()[k];
                    }
                }
                let vs = views_of_entries(pentries@);
                assert(vs.subrange(0, j + 1).subrange(0, j as int) =~= vs.subrange(0, j as int));
                assert(vs.subrange(0, j + 1)[j as int] == vs[j as int]);
                assert(op_inputs@ == assoc_map(vs.subrange(0, j + 1)));
            }
            j = j + 1;
        }
        proof {
            assert(views_of_entries(pentries@).subrange(0, pentries@.len() as int)
                =~= views_of_entries(pentries@));
        }
    }
    let ghost before = op_inputs.seq_view();
    op_inputs.insert(item_arg.to_owned(), item.deep_copy());
    proof {
        assert forall|k: int| 0 <= k < op_inputs.seq_view().len() implies jdepth(
            #[trigger] op_inputs.seq_view()[k].1,
        ) <= bound by {
            if op_inputs.seq_view()[k].1 != item@ {
                let j2 = choose|j2: int|
                    0 <= j2 < before.len() && before[j2] == op_inputs.seq_view()[k];
            }
        }
        lemma_entries_depth_bound(op_inputs.seq_view(), bound);
    }
    op_inputs
}

/// The body of `Reduce`: folds `list` into an accumulator, invoking the
/// named operation on `{acc_arg: accumulator, item_arg: element}` and
/// taking each call's `out` as the next accumulator.
fn reduce_exec(inputs: &Dict<Json>) -> (r: Result<Dict<Json>, Error>)
    requires
        inputs.wf(),
    ensures
        r matches Ok(outs) ==> outs.wf() && (forall|k: Seq<char>|
            outs@.contains_key(k) ==> jdepth(#[trigger] outs@[k]) <= depth_of_entries(
                inputs.seq_view(),
            )),
        r matches Err(e) ==> placeholder_err(e),
        match hof_input_err(Operation::Reduce, inputs@, r) {
            Some(claim) => claim,
            None => r matches Ok(outs) ==> outs@.contains_key("out"@),
        },
        reduce_ok(inputs@, r),
        reduce_err_accounted(inputs@, r),
        r matches Err(Error::UnknownOperation(name)) ==> op_of_name(name@) is None,
    decreases depth_of_entries(inputs.seq_view()), inputs.seq_view().len(), 0int,
{
    let ghost din: nat = depth_of_entries(inputs.seq_view());
    let lv: &Json = match get_input(inputs, "list") {
        Ok(v) => v,
        Err(e) => {
            return Err(e);
        },
    };
    let items: &Vec<Json> = match lv {
        Json::Arr(items) => items,
        _ => {
            return Err(
                Error::InvalidType {
                    node: "unknown".to_owned(),
                    expected: "array".to_owned(),
                    actual: lv.to_text(),
                },
            );
        },
    };
    let opn: &Json = match get_input(inputs, "apply_op") {
        Ok(v) => v,
        Err(e) => {
            return Err(e);
        },
    };
    let op_name: &String = match opn {
        Json::Str(name) => name,
        _ => {
            return Err(
                Error::InvalidType {
                    node: "unknown".to_owned(),
                    expected: "string (op name)".to_owned(),
                    actual: "non-string".to_owned(),
                },
            );
        },
    };
    let initial: &Json = match get_input(inputs, "initial") {
        Ok(v) => v,
        Err(e) => {
            return Err(e);
        },
    };
    let accv: &Json = match get_input(inputs, "acc_arg") {
        Ok(v) => v,
        Err(e) => {
            return Err(e);
        },
    };
    let acc_arg: String = match accv {
        Json::Str(name) => name.as_str().to_owned(),
        _ => "a".to_owned(),
    };
    let itemv: &Json = match get_input(inputs, "item_arg") {
        Ok(v) => v,
        Err(e) => {
            return Err(e);
        },
    };
    let item_arg: String = match itemv {
        Json::Str(name) => name.as_str().to_owned(),
        _ => "b".to_owned(),
    };
    let op2: Operation = match Ops::get(op_name.as_str()) {
        Some(o) => o,
        None => {
            return Err(Error::UnknownOperation(op_name.as_str().to_owned()));
        },
    };
    proof {
        reveal_strlit("list");
        reveal_strlit("apply_op");
        reveal_strlit("initial");
        reveal_strlit("acc_arg");
        reveal_strlit("item_arg");
        lemma_assoc_dom(inputs.seq_view());
        assert("list"@.len() == 4 && "apply_op"@.len() == 8 && "initial"@.len() == 7
            && "acc_arg"@.len() == 7 && "item_arg"@.len() == 8);
        assert("initial"@[0] == 'i' && "acc_arg"@[0] == 'a' && "apply_op"@[0] == 'a'
            && "item_arg"@[0] == 'i');
        assert("list"@ != "apply_op"@ && "list"@ != "initial"@ && "list"@ != "acc_arg"@ && "list"@
            != "item_arg"@ && "apply_op"@ != "initial"@ && "apply_op"@ != "acc_arg"@ && "apply_op"@
            != "item_arg"@ && "initial"@ != "acc_arg"@ && "initial"@ != "item_arg"@ && "acc_arg"@
            != "item_arg"@);
        let s1: Set<Seq<char>> = Set::empty().insert("list"@);
        let s2 = s1.insert("apply_op"@);
        let s3 = s2.insert("initial"@);
        let s4 = s3.insert("acc_arg"@);
        let keys = s4.insert("item_arg"@);
        assert(s1.len() == 1);
        assert(!s1.contains("apply_op"@) && s2.len() == 2);
        assert(!s2.contains("initial"@) && s3.len() == 3);
        assert(!s3.contains("acc_arg"@) && s4.len() == 4);
        assert(!s4.contains("item_arg"@) && keys.len() == 5);
        assert(keys.subset_of(inputs@.dom()));
        vstd::set_lib::lemma_len_subset(keys, inputs@.dom());
        assert(inputs.seq_view().len() >= 5);
        lemma_views_of(items@);
        lemma_dict_val_depth(inputs.seq_view(), "list"@);
        lemma_dict_val_depth(inputs.seq_view(), "initial"@);
        lemma_depth_of_elems(views_of(items@));
    }
    let mut acc: Json = initial.deep_copy();
    let ghost items_v = views_of(items@);
    let ghost akv = acc_arg@;
    let ghost ikv = item_arg@;
    let ghost mut accs: Seq<JsonV> = seq![acc@];
    let ghost mut inner_runs: Seq<Dict<Json>> = Seq::empty();
    proof {
        assert(items_v == inputs@["list"@]->Arr_0);
        assert(op2 == op_of_name(inputs@["apply_op"@]->Str_0)->0);
        assert(akv == acc_key_of(inputs@));
        assert(ikv == elem_key_of(inputs@));
        assert(accs[0] == inputs@["initial"@]);
    }
    let mut i: usize = 0;
    while i < items.len()
        invariant
            inputs.wf(),
            hof_inputs_ok(Operation::Reduce, inputs@),
            din == depth_of_entries(inputs.seq_view()),
            inputs.seq_view().len() >= 5,
            i <= items.len(),
            jdepth(acc@) <= din,
            views_of(items@).len() == items@.len(),
            forall|k: int| 0 <= k < items@.len() ==> views_of(items@)[k] == items@[k]@,
            forall|k: int|
                0 <= k < items@.len() ==> jdepth(#[trigger] views_of(items@)[k]) <= din,
            items_v == views_of(items@),
            items_v == inputs@["list"@]->Arr_0,
            op2 == op_of_name(inputs@["apply_op"@]->Str_0)->0,
            akv == acc_key_of(inputs@),
            akv == acc_arg@,
            ikv == elem_key_of(inputs@),
            ikv == item_arg@,
            accs.len() == i + 1,
            inner_runs.len() == i,
            accs[0] == inputs@["initial"@],
            accs[i as int] == acc@,
            forall|k: int|
                0 <= k < i ==> op_contract(
                    op2,
                    fold_step_ins(inputs@, accs[k], items_v[k]),
                    Ok(#[trigger] inner_runs[k]),
                ),
            forall|k: int| 0 <= k < i ==> #[trigger] accs[k + 1] == out_or_null(inner_runs[k]@),
        decreases items.len() - i,
    {
        let ghost acc_view = acc@;
        let mut op_inputs: Dict<Json> = Dict::new();
        op_inputs.insert(acc_arg.as_str().to_owned(), acc.deep_copy());
        let ghost mid = op_inputs.seq_view();
        op_inputs.insert(item_arg.as_str().to_owned(), items[i].deep_copy());
        proof {
            assert(views_of(items@)[i as int] == items@[i as int]@);
            assert(jdepth(items@[i as int]@) <= din);
            assert(forall|k: int| 0 <= k < mid.len() ==> #[trigger] mid[k].1 == acc_view);
            assert forall|k: int| 0 <= k < op_inputs.seq_view().len() implies jdepth(
                #[trigger] op_inputs.seq_view()[k].1,
            ) <= din by {
                if op_inputs.seq_view()[k].1 != items@[i as int]@ {
                    let j2 = choose|j2: int|
                        0 <= j2 < mid.len() && mid[j2] == op_inputs.seq_view()[k];
                    assert(mid[j2].1 == acc_view);
                }
            }
            lemma_entries_depth_bound(op_inputs.seq_view(), din);
            assert(op_inputs.seq_view().len() <= 2);
            assert(op_inputs@ == fold_step_ins(inputs@, accs[i as int], items_v[i as int]));
        }
        let r_call: Result<Dict<Json>, Error> = op2.execute(&op_inputs);
        let ghost g_call = r_call;
        let res: Dict<Json> = match r_call {
            Ok(outs) => outs,
            Err(e) => {
                proof {
                    assert(op_contract(
                        op2,
                        fold_step_ins(inputs@, accs[i as int], items_v[i as int]),
                        g_call,
                    ));
                    assert(fold_chain(inputs@, accs, inner_runs, i as int));
                }
                return Err(e);
            },
        };
        proof {
            assert(g_call == Ok::<Dict<Json>, Error>(res));
        }
        acc = match res.get("out") {
            Some(v) => v.deep_copy(),
            None => Json::Null,
        };
        proof {
            assert(acc@ == out_or_null(res@));
            inner_runs = inner_runs.push(res);
            accs = accs.push(acc@);
        }
        i = i + 1;
    }
    let mut outs: Dict<Json> = Dict::new();
    outs.insert("out".to_owned(), acc);
    proof {
        assert(fold_chain(inputs@, accs, inner_runs, items_v.len() as int));
        assert(outs@ =~= Map::<Seq<char>, JsonV>::empty().insert("out"@, accs[items_v.len() as int]));
        assert(reduce_ok(inputs@, Ok(outs)));
    }
    Ok(outs)
}

/// The body of `Filter`: keeps the elements of `list` for which the
/// named operation returns a boolean `true` on `out`; anything else
/// drops the element.
fn filter_exec(inputs: &Dict<Json>) -> (r: Result<Dict<Json>, Error>)
    requires
        inputs.wf(),
    ensures
        r matches Ok(outs) ==> outs.wf() && (forall|k: Seq<char>|
            outs@.contains_key(k) ==> jdepth(#[trigger] outs@[k]) <= depth_of_entries(
                inputs.seq_view(),
            )),
        r matches Err(e) ==> placeholder_err(e),
        match hof_input_err(Operation::Filter, inputs@, r) {
            Some(claim) => claim,
            None => hof_ok_shape(Operation::Filter, inputs@, r)
        },
        filter_ok(inputs@, r),
        hof_err_accounted(Operation::Filter, inputs@, r),
        r matches Err(Error::UnknownOperation(name)) ==> op_of_name(name@) is None,
    decreases depth_of_entries(inputs.seq_view()), inputs.seq_view().len(), 0int,
{
    let ghost din: nat = depth_of_entries(inputs.seq_view());
    let lv: &Json = match get_input(inputs, "list") {
        Ok(v) => v,
        Err(e) => {
            return Err(e);
        },
    };
    let items: &Vec<Json> = match lv {
        Json::Arr(items) => items,
        _ => {
            return Err(
                Error::InvalidType {
                    node: "unknown".to_owned(),
                    expected: "array".to_owned(),
                    actual: lv.to_text(),
                },
            );
        },
    };
    proof {
        lemma_views_of(items@);
        lemma_dict_val_depth(inputs.seq_view(), "list"@);
        lemma_depth_of_elems(views_of(items@));
    }
    let opn: &Json = match get_input(inputs, "apply_op") {
        Ok(v) => v,
        Err(e) => {
            return Err(e);
        },
    };
    let op_name: &String = match opn {
        Json::Str(name) => name,
        _ => {
            return Err(
                Error::InvalidType {
                    node: "unknown".to_owned(),
                    expected: "string (op name)".to_owned(),
                    actual: "non-string".to_owned(),
                },
            );
        },
    };
    let argv: &Json = match get_input(inputs, "arg") {
        Ok(v) => v,
        Err(e) => {
            return Err(e);
        },
    };
    let item_arg: String = match argv {
        Json::Str(name) => name.as_str().to_owned(),
        _ => "a".to_owned(),
    };
    let params: Option<&Vec<(String, Json)>> = match inputs.get("params") {
        Some(p) => match p {
            Json::Obj(pentries) => {
                proof {
                    lemma_views_of_entries(pentries@);
                    lemma_dict_val_depth(inputs.seq_view(), "params"@);
                    lemma_depth_of_entries(views_of_entries(pentries@));
                }
                Some(pentries)
            },
            _ => {
                return Err(
                    Error::InvalidType {
                        node: "unknown".to_owned(),
                        expected: "object (params)".to_owned(),
                        actual: "non-object".to_owned(),
                    },
                );
            },
        },
        None => None,
    };
    let op2: Operation = match Ops::get(op_name.as_str()) {
        Some(o) => o,
        None => {
            return Err(Error::UnknownOperation(op_name.as_str().to_owned()));
        },
    };
    let ghost items_v = views_of(items@);
    let ghost argk = item_arg@;
    let ghost pseq = params_of(inputs@);
    proof {
        assert(items_v == inputs@["list"@]->Arr_0);
        assert(op2 == op_of_name(inputs@["apply_op"@]->Str_0)->0);
        assert(argk == item_key_of(inputs@, "a"@));
        match params {
            Some(pentries) => {
                assert(pseq == views_of_entries(pentries@));
            },
            None => {
                assert(pseq =~= Seq::<(Seq<char>, JsonV)>::empty());
            },
        }
        assert(items_v.subrange(0, 0) =~= Seq::<JsonV>::empty());
        assert(views_of(Seq::<Json>::empty()) =~= Seq::<JsonV>::empty());
    }
    let mut result_list: Vec<Json> = Vec::new();
    let ghost mut inner_runs: Seq<Dict<Json>> = Seq::empty();
    let ghost mut keep_seq: Seq<bool> = Seq::empty();
    let mut i: usize = 0;
    while i < items.len()
        invariant
            inputs.wf(),
            hof_inputs_ok(Operation::Filter, inputs@),
            din == depth_of_entries(inputs.seq_view()),
            1 <= din,
            i <= items.len(),
            result_list@.len() <= i,
            items_v == views_of(items@),
            items_v == inputs@["list"@]->Arr_0,
            op2 == op_of_name(inputs@["apply_op"@]->Str_0)->0,
            argk == item_key_of(inputs@, "a"@),
            argk == item_arg@,
            pseq == params_of(inputs@),
            match params {
                Some(pentries) => pseq == views_of_entries(pentries@),
                None => pseq == Seq::<(Seq<char>, JsonV)>::empty(),
            },
            inner_runs.len() == i,
            keep_seq.len() == i,
            forall|k: int|
                0 <= k < i ==> op_contract(
                    op2,
                    overlay(pseq, argk, items_v[k]),
                    Ok(#[trigger] inner_runs[k]),
                ),
            forall|k: int| 0 <= k < i ==> #[trigger] keep_seq[k] == (out_or_null(inner_runs[k]@)
                == JsonV::Bool(true)),
            views_of(result_list@) == kept_elems(items_v.subrange(0, i as int), keep_seq),
            views_of(items@).len() == items@.len(),
            forall|k: int| 0 <= k < items@.len() ==> views_of(items@)[k] == items@[k]@,
            forall|k: int|
                0 <= k < items@.len() ==> jdepth(#[trigger] views_of(items@)[k]) <= din - 1,
            forall|k: int|
                0 <= k < result_list@.len() ==> exists|j: int|
                    0 <= j < items@.len() && #[trigger] result_list@[k]@ == views_of(items@)[j],
            match params {
                Some(pentries) => {
                    &&& views_of_entries(pentries@).len() == pentries@.len()
                    &&& forall|k: int|
                        0 <= k < pentries@.len() ==> views_of_entries(pentries@)[k] == (
                        pentries@[k].0@,
                        pentries@[k].1@,
                        )
                    &&& forall|k: int|
                        0 <= k < pentries@.len() ==> jdepth(
                            #[trigger] views_of_entries(pentries@)[k].1,
                        ) <= din - 1
                },
                None => true,
            },
        decreases items.len() - i,
    {
        proof {
            assert(views_of(items@)[i as int] == items@[i as int]@);
            assert(jdepth(items@[i as int]@) <= din - 1);
        }
        let op_inputs: Dict<Json> = build_call_inputs(params, item_arg.as_str(), &items[i], Ghost((din - 1) as nat));
        proof {
            assert(op_inputs@ == overlay(pseq, argk, items_v[i as int]));
        }
        let r_call: Result<Dict<Json>, Error> = op2.execute(&op_inputs);
        let ghost g_call = r_call;
        let res: Dict<Json> = match r_call {
            Ok(outs) => outs,
            Err(e) => {
                proof {
                    assert(op_contract(op2, overlay(pseq, argk, items_v[i as int]), g_call));
                }
                return Err(e);
            },
        };
        proof {
            assert(g_call == Ok::<Dict<Json>, Error>(res));
        }
        let keep: bool = match res.get("out") {
            Some(Json::Bool(b)) => *b,
            _ => false,
        };
        proof {
            assert(keep == (out_or_null(res@) == JsonV::Bool(true)));
        }
        let ghost before_views = views_of(result_list@);
        let ghost before_list = result_list@;
        if keep {
            result_list.push(items[i].deep_copy());
            proof {
                assert(result_list@.subrange(0, result_list@.len() - 1) =~= before_list);
                assert(result_list@[result_list@.len() - 1]@ == items_v[i as int]);
                assert(views_of(result_list@) =~= before_views.push(items_v[i as int]));
            }
        }
        proof {
            let prev_keep = keep_seq;
            inner_runs = inner_runs.push(res);
            keep_seq = keep_seq.push(keep);
            let s2 = items_v.subrange(0, i + 1);
            assert(keep_seq.subrange(0, i as int) =~= prev_keep);
            assert(s2.subrange(0, i as int) =~= items_v.subrange(0, i as int));
            assert(s2[i as int] == items_v[i as int]);
            assert(keep_seq[i as int] == keep);
            assert(kept_elems(s2, keep_seq) == kept_elems(items_v.subrange(0, i as int), prev_keep)
                + (if keep {
                seq![items_v[i as int]]
            } else {
                Seq::<JsonV>::empty()
            }));
            if keep {
                assert(views_of(result_list@) =~= before_views.push(items_v[i as int]));
                assert(before_views.push(items_v[i as int]) =~= before_views + seq![
                    items_v[i as int],
                ]);
            } else {
                assert(views_of(result_list@) =~= before_views + Seq::<JsonV>::empty());
            }
            assert(views_of(result_list@) =~= kept_elems(s2, keep_seq));
        }
        i = i + 1;
    }
    let mut outs: Dict<Json> = Dict::new();
    proof {
        lemma_views_of(result_list@);
        assert forall|k: int| 0 <= k < views_of(result_list@).len() implies jdepth(
            #[trigger] views_of(result_list@)[k],
        ) <= din - 1 by {
            let j = choose|j: int|
                0 <= j < items@.len() && result_list@[k]@ == views_of(items@)[j];
        }
        lemma_elems_depth_bound(views_of(result_list@), (din - 1) as nat);
    }
    outs.insert("out".to_owned(), Json::Arr(result_list));
    proof {
        let rs = views_of(result_list@);
        assert(outs@ =~= Map::<Seq<char>, JsonV>::empty().insert("out"@, JsonV::Arr(rs)));
        assert(hof_ok_shape(Operation::Filter, inputs@, Ok(outs))) by {
            assert forall|k: int| 0 <= k < rs.len() implies exists|j: int|
                0 <= j < inputs@["list"@]->Arr_0.len() && #[trigger] rs[k]
                    == inputs@["list"@]->Arr_0[j] by {
                let j = choose|j: int|
                    0 <= j < items@.len() && result_list@[k]@ == views_of(items@)[j];
                assert(rs[k] == views_of(items@)[j]);
            }
        }
        assert(items_v.subrange(0, items_v.len() as int) =~= items_v);
        assert(rs == kept_elems(items_v, keep_seq));
        assert(filter_ok(inputs@, Ok(outs)));
    }
    Ok(outs)
}


} // verus!
