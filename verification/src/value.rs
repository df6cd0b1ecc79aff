//! ABI values and their mathematical model.
use vstd::prelude::*;

use crate::types::{AbiType, Type};
use crate::word::{lemma_uint256_bound, word_modulus, Uint256};

verus! {

broadcast use vstd::std_specs::vec::group_vec_axioms;

/// A Solidity ABI value.
#[derive(Debug, PartialEq, Eq)]
pub enum Value {
    Uint(Uint256, usize),
    Int(Uint256, usize),
    Address([u8; 20]),
    Bool(bool),
    FixedBytes(Vec<u8>),
    FixedArray(Vec<Value>, Type),
    String(String),
    Bytes(Vec<u8>),
    Array(Vec<Value>, Type),
    Tuple(Vec<Value>),
}

/// The mathematical model of a [`Value`]. Integers are numbers below `2^256`,
/// strings are sequences of characters, and arrays carry the model of their
/// element type.
pub enum AbiValue {
    Uint(nat, usize),
    Int(nat, usize),
    Address(Seq<u8>),
    Bool(bool),
    FixedBytes(Seq<u8>),
    FixedArray(Seq<AbiValue>, AbiType),
    String(Seq<char>),
    Bytes(Seq<u8>),
    Array(Seq<AbiValue>, AbiType),
    Tuple(Seq<AbiValue>),
}

impl Value {
    /// The mathematical model of this value.
    pub open spec fn model(&self) -> AbiValue
        decreases self,
    {
        match self {
            Value::Uint(x, n) => AbiValue::Uint(x@, *n),
            Value::Int(x, n) => AbiValue::Int(x@, *n),
            Value::Address(a) => AbiValue::Address(a@),
            Value::Bool(b) => AbiValue::Bool(*b),
            Value::FixedBytes(b) => AbiValue::FixedBytes(b@),
            Value::FixedArray(vs, t) => AbiValue::FixedArray(
                Seq::new(
                    vs@.len(),
                    |i: int|
                        if 0 <= i < vs@.len() {
                            vs@[i].model()
                        } else {
                            AbiValue::Bool(false)
                        },
                ),
                t@,
            ),
            Value::String(s) => AbiValue::String(s@),
            Value::Bytes(b) => AbiValue::Bytes(b@),
            Value::Array(vs, t) => AbiValue::Array(
                Seq::new(
                    vs@.len(),
                    |i: int|
                        if 0 <= i < vs@.len() {
                            vs@[i].model()
                        } else {
                            AbiValue::Bool(false)
                        },
                ),
                t@,
            ),
            Value::Tuple(vs) => AbiValue::Tuple(
                Seq::new(
                    vs@.len(),
                    |i: int|
                        if 0 <= i < vs@.len() {
                            vs@[i].model()
                        } else {
                            AbiValue::Bool(false)
                        },
                ),
            ),
        }
    }
}

impl View for Value {
    type V = AbiValue;

    open spec fn view(&self) -> AbiValue {
        self.model()
    }
}

/// The models of a sequence of values.
pub open spec fn models(vs: Seq<Value>) -> Seq<AbiValue> {
    Seq::new(vs.len(), |i: int| vs[i]@)
}

impl AbiValue {
    /// The type of a value; a tuple carries no type here.
    pub open spec fn type_of(self) -> AbiType {
        match self {
            AbiValue::Uint(_, n) => AbiType::Uint(n),
            AbiValue::Int(_, n) => AbiType::Int(n),
            AbiValue::Address(_) => AbiType::Address,
            AbiValue::Bool(_) => AbiType::Bool,
            AbiValue::FixedBytes(b) => AbiType::FixedBytes(b.len() as usize),
            AbiValue::FixedArray(vs, t) => AbiType::FixedArray(Box::new(t), vs.len() as usize),
            AbiValue::String(_) => AbiType::String,
            AbiValue::Bytes(_) => AbiType::Bytes,
            AbiValue::Array(_, t) => AbiType::Array(Box::new(t)),
            AbiValue::Tuple(_) => AbiType::Tuple(seq![]),
        }
    }
}

impl Value {
    /// The ABI type of this value. Tuples are not supported.
    pub fn type_of(&self) -> (r: Type)
        requires
            !(self@ is Tuple),
        ensures
            r@ == self@.type_of(),
    {
        match self {
            Value::Uint(_, size) => Type::Uint(*size),
            Value::Int(_, size) => Type::Int(*size),
            Value::Address(_) => Type::Address,
            Value::Bool(_) => Type::Bool,
            Value::FixedBytes(bytes) => Type::FixedBytes(bytes.len()),
            Value::FixedArray(values, ty) => Type::FixedArray(Box::new(ty.clone()), values.len()),
            Value::String(_) => Type::String,
            Value::Bytes(_) => Type::Bytes,
            Value::Array(_, ty) => Type::Array(Box::new(ty.clone())),
            Value::Tuple(_) => {
                proof {
                    assert(false);
                }
                Type::Tuple(Vec::new())
            },
        }
    }
}

impl Value {
    /// A deep copy of a sequence of values.
    fn duplicate_all(vs: &Vec<Value>) -> (r: Vec<Value>)
        ensures
            models(r@) == models(vs@),
        decreases vs@,
    {
        let mut out: Vec<Value> = Vec::new();
        let mut i: usize = 0;
        while i < vs.len()
            invariant
                i <= vs@.len(),
                out@.len() == i,
                forall|j: int| 0 <= j < i ==> #[trigger] out@[j]@ == vs@[j]@,
            decreases vs@.len() - i,
        {
            proof {
                assert(decreases_to!(*vs => vs@[i as int]));
            }
            out.push(vs[i].duplicate());
            i = i + 1;
        }
        assert(models(out@) =~= models(vs@));
        out
    }

    /// A deep copy of this value.
    fn duplicate(&self) -> (r: Value)
        ensures
            r@ == self@,
        decreases self,
    {
        match self {
            Value::Uint(x, n) => Value::Uint(*x, *n),
            Value::Int(x, n) => Value::Int(*x, *n),
            Value::Address(a) => Value::Address(*a),
            Value::Bool(b) => Value::Bool(*b),
            Value::FixedBytes(b) => Value::FixedBytes(b.clone()),
            Value::FixedArray(vs, t) => {
                proof {
                    assert(decreases_to!(*self => self->FixedArray_0));
                }
                let r = Value::FixedArray(Value::duplicate_all(vs), t.clone());
                proof {
                    lemma_models_eq(r, *self);
                }
                r
            },
            Value::String(s) => Value::String(s.clone()),
            Value::Bytes(b) => Value::Bytes(b.clone()),
            Value::Array(vs, t) => {
                proof {
                    assert(decreases_to!(*self => self->Array_0));
                }
                let r = Value::Array(Value::duplicate_all(vs), t.clone());
                proof {
                    lemma_models_eq(r, *self);
                }
                r
            },
            Value::Tuple(vs) => {
                proof {
                    assert(decreases_to!(*self => self->Tuple_0));
                }
                let r = Value::Tuple(Value::duplicate_all(vs));
                proof {
                    lemma_models_eq(r, *self);
                }
                r
            },
        }
    }
}

/// Two composite values with the same kind, type and element models have the same model.
proof fn lemma_models_eq(a: Value, b: Value)
    requires
        match (a, b) {
            (Value::FixedArray(x, s), Value::FixedArray(y, t)) => models(x@) == models(y@) && s@ == t@,
            (Value::Array(x, s), Value::Array(y, t)) => models(x@) == models(y@) && s@ == t@,
            (Value::Tuple(x), Value::Tuple(y)) => models(x@) == models(y@),
            _ => false,
        },
    ensures
        a@ == b@,
{
    match (a, b) {
        (Value::FixedArray(x, s), Value::FixedArray(y, t)) => {
            assert(a@->FixedArray_0 =~= models(x@));
            assert(b@->FixedArray_0 =~= models(y@));
        },
        (Value::Array(x, s), Value::Array(y, t)) => {
            assert(a@->Array_0 =~= models(x@));
            assert(b@->Array_0 =~= models(y@));
        },
        (Value::Tuple(x), Value::Tuple(y)) => {
            assert(a@->Tuple_0 =~= models(x@));
            assert(b@->Tuple_0 =~= models(y@));
        },
        _ => {},
    }
}

/// The model of a composite value carries the models of its elements.
pub proof fn lemma_model_parts(v: Value)
    ensures
        v matches Value::FixedArray(vs, t) ==> v@ == AbiValue::FixedArray(models(vs@), t@),
        v matches Value::Array(vs, t) ==> v@ == AbiValue::Array(models(vs@), t@),
        v matches Value::Tuple(vs) ==> v@ == AbiValue::Tuple(models(vs@)),
{
    match v {
        Value::FixedArray(vs, t) => {
            assert(v@->FixedArray_0 =~= models(vs@));
        },
        Value::Array(vs, t) => {
            assert(v@->Array_0 =~= models(vs@));
        },
        Value::Tuple(vs) => {
            assert(v@->Tuple_0 =~= models(vs@));
        },
        _ => {},
    }
}

impl AbiValue {
    /// The models of actual values: integers below `2^256`, addresses of 20
    /// bytes, and byte strings and arrays whose lengths fit a `usize`.
    pub open spec fn valid(self) -> bool
        decreases self, 0nat,
    {
        match self {
            AbiValue::Uint(n, _) => n < word_modulus(),
            AbiValue::Int(n, _) => n < word_modulus(),
            AbiValue::Address(a) => a.len() == 20,
            AbiValue::FixedBytes(b) => b.len() <= usize::MAX,
            AbiValue::Bytes(b) => b.len() <= usize::MAX,
            AbiValue::FixedArray(vs, _) => vs.len() <= usize::MAX && AbiValue::all_valid(vs),
            AbiValue::Array(vs, _) => vs.len() <= usize::MAX && AbiValue::all_valid(vs),
            AbiValue::Tuple(vs) => vs.len() <= usize::MAX && AbiValue::all_valid(vs),
            _ => true,
        }
    }

    /// Whether every value of the sequence is valid.
    pub open spec fn all_valid(vs: Seq<AbiValue>) -> bool
        decreases vs, 1nat,
    {
        if vs.len() == 0 {
            true
        } else {
            vs[0].valid() && AbiValue::all_valid(vs.drop_first())
        }
    }
}

/// Every valid sequence has valid elements.
pub proof fn lemma_all_valid(vs: Seq<AbiValue>, i: int)
    requires
        AbiValue::all_valid(vs),
        0 <= i < vs.len(),
    ensures
        vs[i].valid(),
    decreases i,
{
    if i > 0 {
        lemma_all_valid(vs.drop_first(), i - 1);
    }
}

/// The models of values are valid.
pub proof fn lemma_model_valid(v: Value)
    ensures
        v@.valid(),
    decreases v, 1nat,
{
    broadcast use vstd::array::group_array_axioms;

    lemma_model_parts(v);
    match v {
        Value::Uint(x, _) => {
            lemma_uint256_bound(x);
        },
        Value::Int(x, _) => {
            lemma_uint256_bound(x);
        },
        Value::FixedBytes(b) => {
            vstd::std_specs::vec::axiom_spec_len(&b);
        },
        Value::Bytes(b) => {
            vstd::std_specs::vec::axiom_spec_len(&b);
        },
        Value::FixedArray(vs, _) => {
            vstd::std_specs::vec::axiom_spec_len(&vs);
            lemma_models_valid(vs, 0);
            assert(models(vs@).skip(0) =~= models(vs@));
        },
        Value::Array(vs, _) => {
            vstd::std_specs::vec::axiom_spec_len(&vs);
            lemma_models_valid(vs, 0);
            assert(models(vs@).skip(0) =~= models(vs@));
        },
        Value::Tuple(vs) => {
            vstd::std_specs::vec::axiom_spec_len(&vs);
            lemma_models_valid(vs, 0);
            assert(models(vs@).skip(0) =~= models(vs@));
        },
        _ => {},
    }
}

/// The models of the values `i..` of a vector are valid.
proof fn lemma_models_valid(vs: Vec<Value>, i: int)
    requires
        0 <= i <= vs@.len(),
    ensures
        AbiValue::all_valid(models(vs@).skip(i)),
    decreases vs, 0nat, vs@.len() - i,
{
    let ms = models(vs@).skip(i);
    if i < vs@.len() {
        assert(decreases_to!(vs => vs@[i]));
        lemma_model_valid(vs@[i]);
        lemma_models_valid(vs, i + 1);
        assert(ms.drop_first() =~= models(vs@).skip(i + 1));
        assert(ms[0] == vs@[i]@);
    } else {
        assert(ms.len() == 0);
    }
}

impl Clone for Value {
    fn clone(&self) -> (r: Value)
        ensures
            r@ == self@,
    {
        self.duplicate()
    }
}

} // verus!
