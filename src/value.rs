//! Values of state variables and signals, and how two of them combine.

use vstd::prelude::*;

verus! {

/// A composite value: a record of scalar fields, combined field by field.
#[derive(Clone, Copy, Debug, PartialEq, Eq, Structural)]
pub struct Foo {
    pub count: i64,
}

/// A state or signal value: a closed set of variants.
#[derive(Clone, Copy, Debug, PartialEq, Eq, Structural)]
pub enum Value {
    Integer(i64),
    Composite(Foo),
}

/// The variant of a `Value`, for diagnostics.
#[derive(Clone, Copy, Debug, PartialEq, Eq, Structural)]
pub enum ValueKind {
    Integer,
    Composite,
}

/// Why two values could not be combined.
#[derive(Clone, Copy, Debug, PartialEq, Eq, Structural)]
pub enum ValueError {
    /// The operands are of different variants.
    TypeMismatch { left: ValueKind, right: ValueKind },
    /// The sum does not fit the variant's integer range.
    Overflow { kind: ValueKind },
}

pub open spec fn fits_i64(n: int) -> bool {
    i64::MIN <= n <= i64::MAX
}

impl Value {
    pub open spec fn kind(self) -> ValueKind {
        match self {
            Value::Integer(_) => ValueKind::Integer,
            Value::Composite(_) => ValueKind::Composite,
        }
    }

    /// The integer that a value carries.
    pub open spec fn number(self) -> int {
        match self {
            Value::Integer(n) => n as int,
            Value::Composite(f) => f.count as int,
        }
    }

    /// The value of the given variant that carries `n`.
    pub open spec fn of_kind(kind: ValueKind, n: i64) -> Value {
        match kind {
            ValueKind::Integer => Value::Integer(n),
            ValueKind::Composite => Value::Composite(Foo { count: n }),
        }
    }

    /// The variant-wise sum of two values: defined only between values of
    /// the same variant, and only where the sum fits.
    pub open spec fn spec_combine(self, other: Value) -> Result<Value, ValueError> {
        if self.kind() != other.kind() {
            Err(ValueError::TypeMismatch { left: self.kind(), right: other.kind() })
        } else if fits_i64(self.number() + other.number()) {
            Ok(Value::of_kind(self.kind(), (self.number() + other.number()) as i64))
        } else {
            Err(ValueError::Overflow { kind: self.kind() })
        }
    }

    pub fn kind_of(&self) -> (r: ValueKind)
        ensures
            r == self.kind(),
    {
        match self {
            Value::Integer(_) => ValueKind::Integer,
            Value::Composite(_) => ValueKind::Composite,
        }
    }

    /// Integer addition for two integers, field-wise addition for two
    /// composites; a `TypeMismatch` for operands of different variants.
    pub fn combine(&self, other: &Value) -> (r: Result<Value, ValueError>)
        ensures
            r == self.spec_combine(*other),
    {
        match (self, other) {
            (Value::Integer(a), Value::Integer(b)) => match a.checked_add(*b) {
                Some(s) => Ok(Value::Integer(s)),
                None => Err(ValueError::Overflow { kind: ValueKind::Integer }),
            },
            (Value::Composite(a), Value::Composite(b)) => match a.checked_add(b) {
                Some(s) => Ok(Value::Composite(s)),
                None => Err(ValueError::Overflow { kind: ValueKind::Composite }),
            },
            _ => Err(ValueError::TypeMismatch { left: self.kind_of(), right: other.kind_of() }),
        }
    }
}

impl Foo {
    /// Field-wise sum, or `None` where a field would overflow.
    pub fn checked_add(&self, other: &Foo) -> (r: Option<Foo>)
        ensures
            fits_i64(self.count + other.count) ==> r == Some(Foo { count: (self.count + other.count) as i64 }),
            !fits_i64(self.count + other.count) ==> r is None,
    {
        match self.count.checked_add(other.count) {
            Some(c) => Some(Foo { count: c }),
            None => None,
        }
    }
}

/// Combines a possibly failed left operand with a right operand.
pub open spec fn then_combine(left: Result<Value, ValueError>, right: Value) -> Result<Value, ValueError> {
    match left {
        Ok(v) => v.spec_combine(right),
        Err(e) => Err(e),
    }
}

/// Combines a left operand with a possibly failed right operand.
pub open spec fn combine_then(left: Value, right: Result<Value, ValueError>) -> Result<Value, ValueError> {
    match right {
        Ok(v) => left.spec_combine(v),
        Err(e) => Err(e),
    }
}

/// Combination is commutative between values of one variant, and fails on
/// values of different variants in either order.
pub proof fn lemma_combine_commutative(a: Value, b: Value)
    ensures
        a.kind() == b.kind() ==> a.spec_combine(b) == b.spec_combine(a),
        a.kind() != b.kind() ==> a.spec_combine(b) is Err && b.spec_combine(a) is Err,
        a.kind() != b.kind() ==> a.spec_combine(b) == Err::<Value, ValueError>(
            ValueError::TypeMismatch { left: a.kind(), right: b.kind() },
        ),
{
}

/// Combination is associative between values of one variant: where both
/// groupings succeed they agree, and both carry the sum of the three. Where
/// the variants differ, both groupings fail.
pub proof fn lemma_combine_associative(a: Value, b: Value, c: Value)
    ensures
        (a.kind() == b.kind() && b.kind() == c.kind()) ==> {
            let l = then_combine(a.spec_combine(b), c);
            let r = combine_then(a, b.spec_combine(c));
            (l is Ok && r is Ok) ==> (l == r && l->Ok_0.number() == a.number() + b.number()
                + c.number() && l->Ok_0.kind() == a.kind())
        },
        (a.kind() == b.kind() && b.kind() == c.kind() && fits_i64(a.number() + b.number())
            && fits_i64(b.number() + c.number()) && fits_i64(a.number() + b.number() + c.number()))
            ==> then_combine(a.spec_combine(b), c) is Ok && combine_then(a, b.spec_combine(c)) is Ok,
        !(a.kind() == b.kind() && b.kind() == c.kind()) ==> then_combine(a.spec_combine(b), c) is Err
            && combine_then(a, b.spec_combine(c)) is Err,
{
}

} // verus!
