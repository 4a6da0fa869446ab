//! The tagged value model and the identified, timestamped record.

use vstd::prelude::*;
use vstd::utf8::encode_utf8;

verus! {

broadcast use {vstd::std_specs::vec::group_vec_axioms, vstd::seq::group_seq_axioms};

/// The mathematical shape of a [`Value`]: what the contracts speak of.
#[verifier::ext_equal]
pub ghost enum ValV {
    Int(i64),
    Str(Seq<char>),
    Bool(bool),
    Arr(Seq<ValV>),
}

/// A stored value: a tagged union over signed 64-bit integers, text,
/// booleans, and ordered sequences of values.
///
/// Only variants that match an operation's expected type take part in
/// that operation; a mismatch is the "no change" outcome, never an error.
#[derive(Debug, PartialEq)]
pub enum Value {
    Integer(i64),
    String(String),
    Boolean(bool),
    Array(Vec<Value>),
}

impl Value {
    /// The mathematical value this tagged union holds, arrays deeply.
    pub open spec fn deep(self) -> ValV
        decreases self,
    {
        match self {
            Value::Integer(n) => ValV::Int(n),
            Value::String(s) => ValV::Str(s@),
            Value::Boolean(b) => ValV::Bool(b),
            Value::Array(vs) => ValV::Arr(deep_seq(vs@)),
        }
    }
}

/// The mathematical values of a sequence of [`Value`]s, element by element.
pub open spec fn deep_seq(s: Seq<Value>) -> Seq<ValV>
    decreases s,
{
    if s.len() == 0 {
        Seq::empty()
    } else {
        deep_seq(s.subrange(0, s.len() - 1)).push(s[s.len() - 1].deep())
    }
}

/// [`deep_seq`] is the element-wise image of [`Value::deep`].
pub proof fn lemma_deep_seq(s: Seq<Value>)
    ensures
        deep_seq(s).len() == s.len(),
        forall|i: int| 0 <= i < s.len() ==> #[trigger] deep_seq(s)[i] == s[i].deep(),
    decreases s.len(),
{
    if s.len() > 0 {
        lemma_deep_seq(s.subrange(0, s.len() - 1));
    }
}

impl Clone for Value {
    /// A deep copy: the clone holds the same mathematical value.
    fn clone(&self) -> (res: Self)
        ensures
            res.deep() == self.deep(),
        decreases *self,
    {
        match self {
            Value::Integer(n) => Value::Integer(*n),
            Value::String(s) => Value::String(s.clone()),
            Value::Boolean(b) => Value::Boolean(*b),
            Value::Array(vs) => {
                let mut out: Vec<Value> = Vec::new();
                let mut i: usize = 0;
                while i < vs.len()
                    invariant
                        *self == Value::Array(*vs),
                        i <= vs.len(),
                        out.len() == i,
                        forall|j: int| 0 <= j < i ==> #[trigger] out[j].deep() == vs[j].deep(),
                    decreases vs.len() - i,
                {
                    proof {
                        assert(decreases_to!(*self => (*self)->Array_0));
                        assert(decreases_to!(*vs => vs[i as int]));
                    }
                    out.push(vs[i].clone());
                    i = i + 1;
                }
                proof {
                    lemma_deep_seq(out@);
                    lemma_deep_seq(vs@);
                    assert(deep_seq(out@) =~= deep_seq(vs@));
                }
                Value::Array(out)
            },
        }
    }
}

/// The absolute value, as an unbounded integer.
pub open spec fn abs_of(x: i64) -> int {
    if x >= 0 {
        x as int
    } else {
        -(x as int)
    }
}

/// `delete_at` as computed from a clock reading and an optional
/// time-to-live in seconds: `now + ttl` nanoseconds, stopped at the ends
/// of the signed 64-bit range.
pub open spec fn spec_delete_at(now: i64, ttl: Option<i64>) -> Option<i64> {
    match ttl {
        None => None,
        Some(t) => Some(clamp_i64(now + t * 1_000_000_000)),
    }
}

/// `x` clamped into the signed 64-bit range.
pub open spec fn clamp_i64(x: int) -> i64 {
    if x > i64::MAX {
        i64::MAX
    } else if x < i64::MIN {
        i64::MIN
    } else {
        x as i64
    }
}

/// Computes [`spec_delete_at`].
pub fn delete_at_of(now: i64, ttl: Option<i64>) -> (r: Option<i64>)
    ensures
        r == spec_delete_at(now, ttl),
{
    match ttl {
        None => None,
        Some(t) => {
            let wide: i128 = now as i128 + t as i128 * 1_000_000_000;
            if wide > i64::MAX as i128 {
                Some(i64::MAX)
            } else if wide < i64::MIN as i128 {
                Some(i64::MIN)
            } else {
                Some(wide as i64)
            }
        },
    }
}

/// The mathematical shape of a [`ValueRecord`]; the key is carried as
/// its UTF-8 bytes, whose order is the order of the key index.
#[verifier::ext_equal]
pub ghost struct RecordV {
    pub id: u128,
    pub key: Seq<u8>,
    pub value: ValV,
    pub created_at: i64,
    pub updated_at: i64,
    pub delete_at: Option<i64>,
}

/// The unit of storage: an identified, timestamped, typed value under a
/// unique text key.
///
/// `id` is assigned at creation and never changes; `created_at` and
/// `updated_at` are nanoseconds since the Unix epoch; `delete_at`, when
/// present, is the instant after which the garbage collector removes the
/// record.
#[derive(Debug, PartialEq)]
pub struct ValueRecord {
    pub id: u128,
    pub key: String,
    pub value: Value,
    pub created_at: i64,
    pub updated_at: i64,
    pub delete_at: Option<i64>,
}

impl View for ValueRecord {
    type V = RecordV;

    open spec fn view(&self) -> RecordV {
        RecordV {
            id: self.id,
            key: encode_utf8(self.key@),
            value: self.value.deep(),
            created_at: self.created_at,
            updated_at: self.updated_at,
            delete_at: self.delete_at,
        }
    }
}

impl RecordV {
    /// What every live record keeps: it was not updated before it was
    /// created.
    pub open spec fn inv(self) -> bool {
        self.created_at <= self.updated_at
    }
}

impl Clone for ValueRecord {
    /// A deep copy: the clone views to the same record.
    fn clone(&self) -> (res: Self)
        ensures
            res@ == self@,
            res.key@ == self.key@,
    {
        ValueRecord {
            id: self.id,
            key: self.key.clone(),
            value: self.value.clone(),
            created_at: self.created_at,
            updated_at: self.updated_at,
            delete_at: self.delete_at,
        }
    }
}

/// The shape of an insert request: a fresh key, a value, and an optional
/// time-to-live in seconds.
pub struct ValuePost {
    pub key: String,
    pub value: Value,
    pub ttl: Option<i64>,
}

/// The shape of an upsert request: an existing key, the replacement
/// value, and an optional new time-to-live in seconds.
pub struct ValuePut {
    pub key: String,
    pub value: Value,
    pub ttl: Option<i64>,
}

/// The shape of an increment request; an absent amount means one.
pub struct ValueIncrement {
    pub increment: Option<i64>,
}

/// The shape of a decrement request; an absent amount means one.
pub struct ValueDecrement {
    pub decrement: Option<i64>,
}

} // verus!
