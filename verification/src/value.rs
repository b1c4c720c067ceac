//! Scalar values held in the leaves of the state space.
use vstd::prelude::*;

verus! {

/// A leaf value of the state space. `Opaque` stands for a slot holding a
/// non-serializable payload (a callable bound into the space by the rule
/// author): it can be stored and looked up, but the snapshot serializer and
/// the output bindings skip it.
#[derive(Debug, PartialEq)]
pub enum Value {
    Null,
    Bool(bool),
    Int(i64),
    Str(String),
    Opaque,
}

/// The mathematical value of one leaf.
pub enum ValueV {
    Null,
    Bool(bool),
    Int(int),
    Str(Seq<char>),
    Opaque,
}

impl View for Value {
    type V = ValueV;

    open spec fn view(&self) -> ValueV {
        match self {
            Value::Null => ValueV::Null,
            Value::Bool(b) => ValueV::Bool(*b),
            Value::Int(i) => ValueV::Int(*i as int),
            Value::Str(s) => ValueV::Str(s@),
            Value::Opaque => ValueV::Opaque,
        }
    }
}

impl Value {
    /// Truthiness of a guard result: `Null` and `Bool(false)` are false,
    /// everything else is true.
    pub open spec fn spec_truthy(&self) -> bool {
        match self {
            Value::Null => false,
            Value::Bool(b) => *b,
            _ => true,
        }
    }

    /// Interpret this value as a guard verdict.
    pub fn truthy(&self) -> (r: bool)
        ensures
            r == self.spec_truthy(),
    {
        match self {
            Value::Null => false,
            Value::Bool(b) => *b,
            _ => true,
        }
    }

    /// Copy this value; the copy has the same mathematical value.
    pub fn clone_value(&self) -> (r: Value)
        ensures
            r@ == self@,
    {
        match self {
            Value::Null => Value::Null,
            Value::Bool(b) => Value::Bool(*b),
            Value::Int(i) => Value::Int(*i),
            Value::Str(s) => Value::Str(s.clone()),
            Value::Opaque => Value::Opaque,
        }
    }

    /// Whether the snapshot serializer can render this leaf.
    pub open spec fn spec_serializable(&self) -> bool {
        !(self matches Value::Opaque)
    }

    /// Executable twin of [`Value::spec_serializable`].
    pub fn serializable(&self) -> (r: bool)
        ensures
            r == self.spec_serializable(),
    {
        !matches!(self, Value::Opaque)
    }
}

} // verus!
