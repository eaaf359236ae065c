//! Values that channels read and write, their kinds, and ranges of values.

use vstd::prelude::*;

verus! {

/// The state of a switch.
#[derive(Clone, Copy, PartialEq, Eq, Structural, Debug)]
pub enum OnOff {
    On,
    Off,
}

/// The state of a door or a window.
#[derive(Clone, Copy, PartialEq, Eq, Structural, Debug)]
pub enum OpenClosed {
    Open,
    Closed,
}

/// The type of the values that a channel speaks.
#[derive(Clone, Copy, PartialEq, Eq, Structural, Debug)]
pub enum ChannelKind {
    OnOff,
    OpenClosed,
    Level,
}

/// A value read from, or sent to, a channel.
#[derive(Clone, Copy, PartialEq, Eq, Structural, Debug)]
pub enum Value {
    OnOff(OnOff),
    OpenClosed(OpenClosed),
    Level(i64),
}

impl Value {
    /// The kind of channel that speaks this value.
    pub open spec fn kind(&self) -> ChannelKind {
        match *self {
            Value::OnOff(_) => ChannelKind::OnOff,
            Value::OpenClosed(_) => ChannelKind::OpenClosed,
            Value::Level(_) => ChannelKind::Level,
        }
    }

    /// The place of this value among the values of its kind: `Off` before
    /// `On`, `Closed` before `Open`, levels by their number.
    pub open spec fn rank(&self) -> int {
        match *self {
            Value::OnOff(OnOff::Off) => 0,
            Value::OnOff(OnOff::On) => 1,
            Value::OpenClosed(OpenClosed::Closed) => 0,
            Value::OpenClosed(OpenClosed::Open) => 1,
            Value::Level(n) => n as int,
        }
    }

    /// `self` and `other` are of one kind and `self` does not come after
    /// `other`. Values of different kinds are not comparable.
    pub open spec fn at_most(&self, other: &Value) -> bool {
        self.kind() == other.kind() && self.rank() <= other.rank()
    }

    /// `self` and `other` are of one kind and `self` comes before `other`.
    pub open spec fn below(&self, other: &Value) -> bool {
        self.kind() == other.kind() && self.rank() < other.rank()
    }

    pub fn get_type(&self) -> (k: ChannelKind)
        ensures
            k == self.kind(),
    {
        match *self {
            Value::OnOff(_) => ChannelKind::OnOff,
            Value::OpenClosed(_) => ChannelKind::OpenClosed,
            Value::Level(_) => ChannelKind::Level,
        }
    }

    fn exec_rank(&self) -> (r: i64)
        ensures
            r == self.rank(),
    {
        match *self {
            Value::OnOff(OnOff::Off) => 0,
            Value::OnOff(OnOff::On) => 1,
            Value::OpenClosed(OpenClosed::Closed) => 0,
            Value::OpenClosed(OpenClosed::Open) => 1,
            Value::Level(n) => n,
        }
    }

    pub fn is_at_most(&self, other: &Value) -> (b: bool)
        ensures
            b == self.at_most(other),
    {
        self.get_type() == other.get_type() && self.exec_rank() <= other.exec_rank()
    }

    pub fn is_below(&self, other: &Value) -> (b: bool)
        ensures
            b == self.below(other),
    {
        self.get_type() == other.get_type() && self.exec_rank() < other.exec_rank()
    }
}

/// A range of values, used to filter the events of a watch.
#[derive(Clone, Copy, PartialEq, Eq, Structural, Debug)]
pub enum Range {
    /// Anything up to `max`, included.
    Leq(Value),
    /// Anything from `min`, included.
    Geq(Value),
    /// Anything between `min` and `max`, both included.
    BetweenEq { min: Value, max: Value },
    /// Anything strictly below `min` or strictly above `max`.
    OutOfStrict { min: Value, max: Value },
    /// Exactly this value.
    Eq(Value),
}

impl Range {
    /// Whether `v` lies in this range.
    pub open spec fn holds(&self, v: &Value) -> bool {
        match *self {
            Range::Leq(max) => v.at_most(&max),
            Range::Geq(min) => min.at_most(v),
            Range::BetweenEq { min, max } => min.at_most(v) && v.at_most(&max),
            Range::OutOfStrict { min, max } => v.below(&min) || max.below(v),
            Range::Eq(x) => *v == x,
        }
    }

    pub fn contains(&self, v: &Value) -> (b: bool)
        ensures
            b == self.holds(v),
    {
        match *self {
            Range::Leq(max) => v.is_at_most(&max),
            Range::Geq(min) => min.is_at_most(v),
            Range::BetweenEq { min, max } => min.is_at_most(v) && v.is_at_most(&max),
            Range::OutOfStrict { min, max } => v.is_below(&min) || max.is_below(v),
            Range::Eq(x) => *v == x,
        }
    }

    /// The thresholds at which an adapter is asked to report: one for a
    /// range with a single bound, `min` then `max` for a range with two.
    pub open spec fn bounds(&self) -> Seq<Value> {
        match *self {
            Range::Leq(v) => seq![v],
            Range::Geq(v) => seq![v],
            Range::Eq(v) => seq![v],
            Range::BetweenEq { min, max } => seq![min, max],
            Range::OutOfStrict { min, max } => seq![min, max],
        }
    }

    pub fn thresholds(&self) -> (r: Vec<Value>)
        ensures
            r@ == self.bounds(),
    {
        let mut r: Vec<Value> = Vec::new();
        match *self {
            Range::Leq(v) => r.push(v),
            Range::Geq(v) => r.push(v),
            Range::Eq(v) => r.push(v),
            Range::BetweenEq { min, max } => {
                r.push(min);
                r.push(max);
            },
            Range::OutOfStrict { min, max } => {
                r.push(min);
                r.push(max);
            },
        }
        assert(r@ =~= self.bounds());
        r
    }
}

/// A filter that lets everything through, exactly one thing, or nothing.
#[derive(Clone, Copy, PartialEq, Eq, Debug)]
pub enum Exactly<T> {
    /// No constraint.
    Always,
    /// Only this.
    Exactly(T),
    /// Nothing at all.
    Never,
}

} // verus!
