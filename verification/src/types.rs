//! The values the engine works on: instants, log positions, identifiers
//! and property values.

use crate::text::same_text;
use vstd::prelude::*;

verus! {

/// A point in time, in microseconds since the Unix epoch.
#[derive(Clone, Copy, Debug, PartialEq, Eq, PartialOrd, Ord, Structural)]
pub struct Instant {
    pub us: i64,
}

impl Instant {
    /// The earliest instant.
    #[verifier::allow_in_spec]
    pub fn earliest() -> Instant
        returns
            (Instant { us: i64::MIN }),
    {
        Instant { us: i64::MIN }
    }

    /// The instant that stands for "no end".
    #[verifier::allow_in_spec]
    pub fn end_of_time() -> Instant
        returns
            (Instant { us: i64::MAX }),
    {
        Instant { us: i64::MAX }
    }

    pub fn from_micros(us: i64) -> (r: Instant)
        ensures
            r.us == us,
    {
        Instant { us }
    }

    pub fn as_micros(self) -> (r: i64)
        ensures
            r == self.us,
    {
        self.us
    }
}

/// The error of an offset that its epoch cannot hold.
pub open spec fn offset_error() -> crate::error::ErrorView {
    crate::error::ErrorView::Type("log offset out of range"@)
}

/// The number of offsets in one log epoch.
pub const EPOCH_SPAN: u64 = 281_474_976_710_656;

/// A position in the log: an epoch and an offset within it, ordered by epoch
/// first. Both are packed into one number, the epoch in the high bits.
#[derive(Clone, Copy, Debug, PartialEq, Eq, PartialOrd, Ord, Structural)]
pub struct LogPosition {
    pub packed: u64,
}

impl LogPosition {
    /// The first position of the first epoch.
    #[verifier::allow_in_spec]
    pub fn zero() -> LogPosition
        returns
            (LogPosition { packed: 0 }),
    {
        LogPosition { packed: 0 }
    }

    pub open spec fn epoch_spec(self) -> u16 {
        (self.packed / EPOCH_SPAN) as u16
    }

    pub open spec fn offset_spec(self) -> u64 {
        self.packed % EPOCH_SPAN
    }

    /// The position of `offset` in `epoch`.
    pub open spec fn at(epoch: u16, offset: u64) -> LogPosition {
        LogPosition { packed: (epoch * EPOCH_SPAN + offset) as u64 }
    }

    pub fn from_u64(packed: u64) -> (r: LogPosition)
        ensures
            r.packed == packed,
    {
        LogPosition { packed }
    }

    pub fn as_u64(self) -> (r: u64)
        ensures
            r == self.packed,
    {
        self.packed
    }

    #[verifier::when_used_as_spec(epoch_spec)]
    pub fn epoch(self) -> (r: u16)
        ensures
            r == self.epoch_spec(),
            r == self.packed / EPOCH_SPAN,
    {
        assert(self.packed / EPOCH_SPAN <= 65535);
        (self.packed / EPOCH_SPAN) as u16
    }

    #[verifier::when_used_as_spec(offset_spec)]
    pub fn offset(self) -> (r: u64)
        ensures
            r == self.offset_spec(),
            r < EPOCH_SPAN,
    {
        self.packed % EPOCH_SPAN
    }

    /// The position of `offset` in `epoch`; refused exactly when the offset
    /// does not fit in an epoch.
    pub fn new(epoch: u16, offset: u64) -> (r: Result<LogPosition, crate::error::EngineError>)
        ensures
            r is Ok <==> offset < EPOCH_SPAN,
            r matches Ok(p) ==> p == LogPosition::at(epoch, offset) && p.epoch() == epoch
                && p.offset() == offset,
            r matches Err(e) ==> e@ == offset_error(),
    {
        if offset >= EPOCH_SPAN {
            return Err(crate::error::EngineError::Type("log offset out of range".to_owned()));
        }
        let packed: u64 = epoch as u64 * EPOCH_SPAN + offset;
        proof {
            lemma_position_parts(epoch, offset);
        }
        Ok(LogPosition { packed })
    }

    /// The position `count` records later in the same epoch; refused exactly
    /// when the epoch cannot hold it.
    pub fn advance(self, count: u64) -> (r: Result<LogPosition, crate::error::EngineError>)
        ensures
            r is Ok <==> self.offset() + count < EPOCH_SPAN,
            r matches Ok(p) ==> p.packed == self.packed + count && p.epoch() == self.epoch()
                && p.offset() == self.offset() + count,
            r matches Err(e) ==> e@ == offset_error(),
    {
        let offset: u64 = self.offset();
        let epoch: u16 = self.epoch();
        match offset.checked_add(count) {
            Some(next) => {
                let r = LogPosition::new(epoch, next);
                assert(self.packed == epoch as u64 * EPOCH_SPAN + offset);
                r
            },
            None => Err(crate::error::EngineError::Type("log offset out of range".to_owned())),
        }
    }
}

pub proof fn lemma_position_parts(epoch: u16, offset: u64)
    requires
        offset < EPOCH_SPAN,
    ensures
        LogPosition::at(epoch, offset).packed == epoch * EPOCH_SPAN + offset,
        LogPosition::at(epoch, offset).epoch() == epoch,
        LogPosition::at(epoch, offset).offset() == offset,
{
    let p = epoch * EPOCH_SPAN + offset;
    assert(p <= u64::MAX);
    assert(p / EPOCH_SPAN as int == epoch && p % (EPOCH_SPAN as int) == offset) by (nonlinear_arith)
        requires
            p == epoch * EPOCH_SPAN + offset,
            0 <= offset < EPOCH_SPAN,
            EPOCH_SPAN == 281_474_976_710_656,
    ;
}

/// Positions are ordered by epoch, then by offset.
pub proof fn law_positions_are_ordered(a: LogPosition, b: LogPosition)
    ensures
        a.packed < b.packed <==> a.epoch() < b.epoch() || (a.epoch() == b.epoch() && a.offset()
            < b.offset()),
        a == b <==> a.epoch() == b.epoch() && a.offset() == b.offset(),
{
}

/// The identifier of a node or an edge.
#[derive(Clone, Copy, Debug, PartialEq, Eq, PartialOrd, Ord, Hash, Structural)]
pub struct Iid {
    pub bits: u128,
}

/// A property value. A floating-point number is carried by its IEEE 754 bits.
#[derive(Debug)]
pub enum Value {
    Null,
    Int(i64),
    Float(u64),
    Str(String),
    Bool(bool),
    Bytes(Vec<u8>),
}

/// What a property value holds.
pub enum ValueView {
    Null,
    Int(int),
    Float(u64),
    Str(Seq<char>),
    Bool(bool),
    Bytes(Seq<u8>),
}

impl View for Value {
    type V = ValueView;

    open spec fn view(&self) -> ValueView {
        match self {
            Value::Null => ValueView::Null,
            Value::Int(i) => ValueView::Int(*i as int),
            Value::Float(b) => ValueView::Float(*b),
            Value::Str(s) => ValueView::Str(s@),
            Value::Bool(b) => ValueView::Bool(*b),
            Value::Bytes(b) => ValueView::Bytes(b@),
        }
    }
}

/// Whether the bits are those of a number that is not a NaN.
pub open spec fn is_ordinary(bits: u64) -> bool {
    bits % 0x8000_0000_0000_0000 <= 0x7ff0_0000_0000_0000
}

/// Equality of floating-point numbers by their bits: a NaN equals nothing, and
/// the two zeros are equal.
pub open spec fn float_eq(a: u64, b: u64) -> bool {
    is_ordinary(a) && is_ordinary(b) && (a == b || (a % 0x8000_0000_0000_0000 == 0 && b
        % 0x8000_0000_0000_0000 == 0))
}

impl ValueView {
    /// Equality of values.
    pub open spec fn same(self, other: ValueView) -> bool {
        match (self, other) {
            (ValueView::Float(a), ValueView::Float(b)) => float_eq(a, b),
            _ => self == other,
        }
    }
}

impl Value {
    pub fn clone_value(&self) -> (r: Value)
        ensures
            r@ == self@,
    {
        match self {
            Value::Null => Value::Null,
            Value::Int(i) => Value::Int(*i),
            Value::Float(b) => Value::Float(*b),
            Value::Str(s) => Value::Str(s.clone()),
            Value::Bool(b) => Value::Bool(*b),
            Value::Bytes(b) => {
                let r = clone_bytes(b);
                Value::Bytes(r)
            },
        }
    }

    pub fn is_null(&self) -> (r: bool)
        ensures
            r == (self@ == ValueView::Null),
    {
        match self {
            Value::Null => true,
            _ => false,
        }
    }

    pub fn same(&self, other: &Value) -> (r: bool)
        ensures
            r == self@.same(other@),
    {
        match (self, other) {
            (Value::Null, Value::Null) => true,
            (Value::Int(a), Value::Int(b)) => *a == *b,
            (Value::Float(a), Value::Float(b)) => {
                let half: u64 = 0x8000_0000_0000_0000;
                let inf: u64 = 0x7ff0_0000_0000_0000;
                *a % half <= inf && *b % half <= inf && (*a == *b || (*a % half == 0 && *b % half
                    == 0))
            },
            (Value::Str(a), Value::Str(b)) => same_text(a, b),
            (Value::Bool(a), Value::Bool(b)) => *a == *b,
            (Value::Bytes(a), Value::Bytes(b)) => same_bytes(a, b),
            _ => false,
        }
    }
}

/// A copy of a byte string.
pub fn clone_bytes(v: &Vec<u8>) -> (r: Vec<u8>)
    ensures
        r@ == v@,
{
    let mut r: Vec<u8> = Vec::new();
    let mut i: usize = 0;
    while i < v.len()
        invariant
            i <= v.len(),
            r@ == v@.subrange(0, i as int),
        decreases v.len() - i,
    {
        r.push(v[i]);
        i += 1;
        assert(r@ =~= v@.subrange(0, i as int));
    }
    assert(r@ =~= v@);
    r
}

/// Whether two byte strings are equal.
pub fn same_bytes(a: &Vec<u8>, b: &Vec<u8>) -> (r: bool)
    ensures
        r == (a@ == b@),
{
    if a.len() != b.len() {
        return false;
    }
    let mut i: usize = 0;
    while i < a.len()
        invariant
            i <= a.len(),
            a.len() == b.len(),
            forall|k: int| 0 <= k < i ==> a@[k] == b@[k],
        decreases a.len() - i,
    {
        if a[i] != b[i] {
            return false;
        }
        i += 1;
    }
    assert(a@ =~= b@);
    true
}

} // verus!
