//! The tagged runtime value: nil, booleans, numbers (IEEE-754 binary64
//! bit patterns) and heap objects shared through reference counting.
//! Strings are the only object kind so far.

use crate::num;
use crate::vm::InterpretError;
use std::rc::Rc;
use vstd::prelude::*;

verus! {

/// Mathematical model of a runtime value.
pub enum ValueModel {
    Nil,
    Bool(bool),
    /// IEEE-754 binary64 bits.
    Num(u64),
    /// The characters of a string object.
    Str(Seq<char>),
}

pub enum ObjectKind {
    String(String),
}

pub struct Object {
    pub kind: ObjectKind,
}

impl View for Object {
    type V = Seq<char>;

    open spec fn view(&self) -> Seq<char> {
        match self.kind {
            ObjectKind::String(s) => s@,
        }
    }
}

pub enum Value {
    Nil,
    Boolean(bool),
    Number(u64),
    Object(Rc<Object>),
}

impl View for Value {
    type V = ValueModel;

    open spec fn view(&self) -> ValueModel {
        match self {
            Value::Nil => ValueModel::Nil,
            Value::Boolean(b) => ValueModel::Bool(*b),
            Value::Number(n) => ValueModel::Num(*n),
            Value::Object(o) => ValueModel::Str(o@),
        }
    }
}

/// `Nil` and `false` are falsy; every other value is truthy.
pub open spec fn truthy(v: ValueModel) -> bool {
    match v {
        ValueModel::Nil => false,
        ValueModel::Bool(b) => b,
        _ => true,
    }
}

/// What the `Not` operation yields.
pub open spec fn not_value(v: ValueModel) -> ValueModel {
    ValueModel::Bool(!truthy(v))
}

/// Language equality: different variants never compare equal, numbers
/// compare by IEEE rules, strings by their characters.
pub open spec fn eq_value(a: ValueModel, b: ValueModel) -> bool {
    match (a, b) {
        (ValueModel::Nil, ValueModel::Nil) => true,
        (ValueModel::Bool(x), ValueModel::Bool(y)) => x == y,
        (ValueModel::Num(x), ValueModel::Num(y)) => num::ieee_eq(x, y),
        (ValueModel::Str(x), ValueModel::Str(y)) => x == y,
        _ => false,
    }
}

/// How a value prints.
pub open spec fn display_value(v: ValueModel) -> Seq<char> {
    match v {
        ValueModel::Nil => "nil"@,
        ValueModel::Bool(b) => if b {
            "true"@
        } else {
            "false"@
        },
        ValueModel::Num(n) => num::display_num_spec(n),
        ValueModel::Str(s) => s,
    }
}

/// Relies on `Rc::clone`: returns a new reference to the same object.
#[verifier::external_body]
fn rc_clone(rc: &Rc<Object>) -> (r: Rc<Object>)
    ensures
        r@ == rc@,
{
    Rc::clone(rc)
}

/// Relies on `Rc`'s `Deref`: borrows the referenced object.
#[verifier::external_body]
fn rc_borrow(rc: &Rc<Object>) -> (r: &Object)
    ensures
        r@ == rc@,
{
    rc.as_ref()
}

impl Value {
    pub fn truthiness(&self) -> (r: bool)
        ensures
            r == truthy(self@),
    {
        match self {
            Value::Nil => false,
            Value::Boolean(b) => *b,
            _ => true,
        }
    }

    pub fn is_string(&self) -> (r: bool)
        ensures
            r == (self@ is Str),
    {
        match self {
            Value::Object(p) => match &rc_borrow(p).kind {
                ObjectKind::String(_) => true,
            },
            _ => false,
        }
    }

    /// Wraps a string in a fresh heap object.
    pub fn of_string(s: String) -> (r: Value)
        ensures
            r@ == ValueModel::Str(s@),
    {
        Value::Object(Rc::new(Object { kind: ObjectKind::String(s) }))
    }

    /// A copy of the characters of a string value.
    pub fn string_value(&self) -> (r: Option<String>)
        ensures
            match r {
                Some(s) => self@ == ValueModel::Str(s@),
                None => !(self@ is Str),
            },
    {
        match self {
            Value::Object(p) => match &rc_borrow(p).kind {
                ObjectKind::String(s) => Some(s.clone()),
            },
            _ => None,
        }
    }

    /// The number bits of a numeric value, or an internal error.
    pub fn as_number(&self) -> (r: Result<u64, InterpretError>)
        ensures
            match r {
                Ok(n) => self@ == ValueModel::Num(n),
                Err(e) => !(self@ is Num) && e matches InterpretError::Ice(_),
            },
    {
        match self {
            Value::Number(n) => Ok(*n),
            _ => Err(InterpretError::Ice("Not a number")),
        }
    }

    /// Language equality (`==` in the scripting language).
    pub fn equals(&self, other: &Value) -> (r: bool)
        ensures
            r == eq_value(self@, other@),
    {
        match self {
            Value::Nil => matches!(other, Value::Nil),
            Value::Boolean(a) => match other {
                Value::Boolean(b) => *a == *b,
                _ => false,
            },
            Value::Number(a) => match other {
                Value::Number(b) => num::num_eq(*a, *b),
                _ => false,
            },
            Value::Object(a) => match other {
                Value::Object(b) => match &rc_borrow(a).kind {
                    ObjectKind::String(sa) => match &rc_borrow(b).kind {
                        ObjectKind::String(sb) => *sa == *sb,
                    },
                },
                _ => false,
            },
        }
    }

    /// The display form: `nil`, `true`/`false`, a number's decimal
    /// rendering, or a string's characters verbatim.
    pub fn display(&self) -> (s: String)
        ensures
            s@ == display_value(self@),
    {
        match self {
            Value::Nil => String::from_str("nil"),
            Value::Boolean(b) => if *b {
                String::from_str("true")
            } else {
                String::from_str("false")
            },
            Value::Number(n) => num::num_display(*n),
            Value::Object(p) => match &rc_borrow(p).kind {
                ObjectKind::String(s) => s.clone(),
            },
        }
    }
}

impl Clone for Value {
    /// Cloning preserves the value; for objects it shares the referenced
    /// object instead of copying it.
    fn clone(&self) -> (r: Self)
        ensures
            r@ == self@,
    {
        match self {
            Value::Nil => Value::Nil,
            Value::Boolean(b) => Value::Boolean(*b),
            Value::Number(n) => Value::Number(*n),
            Value::Object(o) => Value::Object(rc_clone(o)),
        }
    }
}

/// Equality is reflexive on every value that is not a NaN number.
pub proof fn lemma_eq_value_reflexive(v: ValueModel)
    requires
        v matches ValueModel::Num(b) ==> !num::is_nan_bits(b),
    ensures
        eq_value(v, v),
{
}

/// Equality is symmetric.
pub proof fn lemma_eq_value_symmetric(a: ValueModel, b: ValueModel)
    ensures
        eq_value(a, b) == eq_value(b, a),
{
}

/// Equality is transitive.
pub proof fn lemma_eq_value_transitive(a: ValueModel, b: ValueModel, c: ValueModel)
    requires
        eq_value(a, b),
        eq_value(b, c),
    ensures
        eq_value(a, c),
{
}

/// Applying `not` twice to any value yields `Boolean` of its truthiness.
pub proof fn lemma_not_not(v: ValueModel)
    ensures
        not_value(not_value(v)) == ValueModel::Bool(truthy(v)),
{
}

} // verus!
