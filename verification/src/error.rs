//! The failure taxonomy: each kind carries the fields that locate the
//! fault (node, port, expected and actual shape).

use vstd::prelude::*;
use crate::types::{SpellType, type_text};

verus! {

/// An evaluation failure. Operations report a placeholder node name;
/// the evaluator rewrites it with the real node identifier.
#[derive(Debug)]
pub enum Error {
    /// A reference names a node the graph does not hold.
    NodeNotFound(String),
    /// The node is already on the resolution stack.
    CycleDetected(String),
    /// An operation required an input port that was not supplied.
    MissingInput { node: String, port: String },
    /// A referenced node's produced type disagrees with the consuming
    /// port's declared type.
    TypeMismatch { node: String, port: String, expected: SpellType, actual: SpellType },
    /// A raw value fails to match the declared type.
    InvalidValue { node: String, port: String, expected_type: SpellType, actual_value: String },
    /// An operation's inputs were not of the shape it expects.
    InvalidType { node: String, expected: String, actual: String },
    /// A domain-specific operation failure.
    OperationError { node: String, reason: String },
    /// The registry knows no operation of this name.
    UnknownOperation(String),
    /// A port's value lacked a declared type or was no typed value at all.
    MissingTypeAnnotation { node: String, port: String },
}

/// The human-readable line for each failure.
pub open spec fn error_text(e: Error) -> Seq<char> {
    match e {
        Error::NodeNotFound(id) => "Node not found: '"@ + id@ + "'"@,
        Error::CycleDetected(id) => "Cycle detected at node: '"@ + id@ + "'"@,
        Error::MissingInput { node, port } => "Node '"@ + node@ + "' missing required input: '"@
            + port@ + "'"@,
        Error::TypeMismatch { node, port, expected, actual } => "Type mismatch in node '"@ + node@
            + "' port '"@ + port@ + "': expected "@ + type_text(expected) + ", got "@ + type_text(
            actual,
        ),
        Error::InvalidValue { node, port, expected_type, actual_value } => "Invalid value in node '"@
            + node@ + "' port '"@ + port@ + "': expected type "@ + type_text(expected_type)
            + ", got value '"@ + actual_value@ + "'"@,
        Error::InvalidType { node, expected, actual } => "Node '"@ + node@ + "' expected type '"@
            + expected@ + "', got '"@ + actual@ + "'"@,
        Error::OperationError { node, reason } => "Operation failed in node '"@ + node@ + "': "@
            + reason@,
        Error::UnknownOperation(op) => "Unknown operation: '"@ + op@ + "'"@,
        Error::MissingTypeAnnotation { node, port } => "Missing type annotation in node '"@ + node@
            + "' port '"@ + port@ + "' - SPELL requires explicit types"@,
    }
}

impl Error {
    /// The human-readable line for this failure.
    pub fn message(&self) -> (r: String)
        ensures
            r@ == error_text(*self),
    {
        let mut acc: String = String::new();
        match self {
            Error::NodeNotFound(id) => {
                acc.append("Node not found: '");
                acc.append(id.as_str());
                acc.append("'");
            },
            Error::CycleDetected(id) => {
                acc.append("Cycle detected at node: '");
                acc.append(id.as_str());
                acc.append("'");
            },
            Error::MissingInput { node, port } => {
                acc.append("Node '");
                acc.append(node.as_str());
                acc.append("' missing required input: '");
                acc.append(port.as_str());
                acc.append("'");
            },
            Error::TypeMismatch { node, port, expected, actual } => {
                acc.append("Type mismatch in node '");
                acc.append(node.as_str());
                acc.append("' port '");
                acc.append(port.as_str());
                acc.append("': expected ");
                let et: String = expected.display();
                acc.append(et.as_str());
                acc.append(", got ");
                let at: String = actual.display();
                acc.append(at.as_str());
            },
            Error::InvalidValue { node, port, expected_type, actual_value } => {
                acc.append("Invalid value in node '");
                acc.append(node.as_str());
                acc.append("' port '");
                acc.append(port.as_str());
                acc.append("': expected type ");
                let et: String = expected_type.display();
                acc.append(et.as_str());
                acc.append(", got value '");
                acc.append(actual_value.as_str());
                acc.append("'");
            },
            Error::InvalidType { node, expected, actual } => {
                acc.append("Node '");
                acc.append(node.as_str());
                acc.append("' expected type '");
                acc.append(expected.as_str());
                acc.append("', got '");
                acc.append(actual.as_str());
                acc.append("'");
            },
            Error::OperationError { node, reason } => {
                acc.append("Operation failed in node '");
                acc.append(node.as_str());
                acc.append("': ");
                acc.append(reason.as_str());
            },
            Error::UnknownOperation(op) => {
                acc.append("Unknown operation: '");
                acc.append(op.as_str());
                acc.append("'");
            },
            Error::MissingTypeAnnotation { node, port } => {
                acc.append("Missing type annotation in node '");
                acc.append(node.as_str());
                acc.append("' port '");
                acc.append(port.as_str());
                acc.append("' - SPELL requires explicit types");
            },
        }
        acc
    }
}

} // verus!
