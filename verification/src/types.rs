//! ABI types and their mathematical model.
use vstd::prelude::*;

verus! {

broadcast use vstd::std_specs::vec::group_vec_axioms;

/// A Solidity ABI type.
#[derive(Debug, PartialEq, Eq)]
pub enum Type {
    Uint(usize),
    Int(usize),
    Address,
    Bool,
    FixedBytes(usize),
    FixedArray(Box<Type>, usize),
    String,
    Bytes,
    Array(Box<Type>),
    Tuple(Vec<Type>),
}

/// The mathematical model of a [`Type`].
pub enum AbiType {
    Uint(usize),
    Int(usize),
    Address,
    Bool,
    FixedBytes(usize),
    FixedArray(Box<AbiType>, usize),
    String,
    Bytes,
    Array(Box<AbiType>),
    Tuple(Seq<AbiType>),
}

impl AbiType {
    /// A type is dynamic when its encoding has no fixed size: byte strings,
    /// strings, arrays, and fixed arrays or tuples that contain a dynamic type.
    pub open spec fn is_dynamic(self) -> bool
        decreases self,
    {
        match self {
            AbiType::Bytes | AbiType::String | AbiType::Array(_) => true,
            AbiType::FixedArray(t, _) => t.is_dynamic(),
            AbiType::Tuple(ts) => AbiType::any_dynamic(ts),
            _ => false,
        }
    }

    /// Whether some type of `ts` is dynamic.
    pub open spec fn any_dynamic(ts: Seq<AbiType>) -> bool
        decreases ts,
    {
        if ts.len() == 0 {
            false
        } else {
            ts.last().is_dynamic() || AbiType::any_dynamic(ts.drop_last())
        }
    }

    /// Nesting depth of array types, used as a termination measure.
    pub open spec fn height(self) -> nat
        decreases self,
    {
        match self {
            AbiType::FixedArray(t, _) => 1 + t.height(),
            AbiType::Array(t) => 1 + t.height(),
            _ => 0,
        }
    }
}

impl Type {
    /// The mathematical model of this type.
    pub open spec fn model(&self) -> AbiType
        decreases self,
    {
        match self {
            Type::Uint(n) => AbiType::Uint(*n),
            Type::Int(n) => AbiType::Int(*n),
            Type::Address => AbiType::Address,
            Type::Bool => AbiType::Bool,
            Type::FixedBytes(n) => AbiType::FixedBytes(*n),
            Type::FixedArray(t, n) => AbiType::FixedArray(Box::new(t.model()), *n),
            Type::String => AbiType::String,
            Type::Bytes => AbiType::Bytes,
            Type::Array(t) => AbiType::Array(Box::new(t.model())),
            Type::Tuple(ts) => AbiType::Tuple(
                Seq::new(
                    ts@.len(),
                    |i: int|
                        if 0 <= i < ts@.len() {
                            ts@[i].model()
                        } else {
                            AbiType::Bool
                        },
                ),
            ),
        }
    }
}

impl View for Type {
    type V = AbiType;

    open spec fn view(&self) -> AbiType {
        self.model()
    }
}

impl Type {
    /// Whether values of this type are encoded out of line.
    pub fn is_dynamic(&self) -> (r: bool)
        ensures
            r == self@.is_dynamic(),
        decreases self,
    {
        match self {
            Type::Bytes | Type::String | Type::Array(_) => true,
            Type::FixedArray(t, _) => t.is_dynamic(),
            Type::Tuple(ts) => {
                let ghost m = self@->Tuple_0;
                let mut i: usize = 0;
                let mut found = false;
                while i < ts.len()
                    invariant
                        i <= ts@.len(),
                        m.len() == ts@.len(),
                        forall|j: int| 0 <= j < ts@.len() ==> #[trigger] m[j] == ts@[j]@,
                        found == AbiType::any_dynamic(m.take(i as int)),
                        *self == Type::Tuple(*ts),
                    decreases ts@.len() - i,
                {
                    proof {
                        assert(decreases_to!(*self => self->Tuple_0));
                        assert(decreases_to!(*ts => ts@[i as int]));
                    }
                    assert(m.take(i + 1).drop_last() =~= m.take(i as int));
                    if ts[i].is_dynamic() {
                        found = true;
                    }
                    i = i + 1;
                }
                assert(m.take(i as int) =~= m);
                found
            },
            _ => false,
        }
    }

    /// A copy of this type.
    fn duplicate(&self) -> (r: Type)
        ensures
            r@ == self@,
        decreases self,
    {
        match self {
            Type::Uint(n) => Type::Uint(*n),
            Type::Int(n) => Type::Int(*n),
            Type::Address => Type::Address,
            Type::Bool => Type::Bool,
            Type::FixedBytes(n) => Type::FixedBytes(*n),
            Type::FixedArray(t, n) => Type::FixedArray(Box::new(t.duplicate()), *n),
            Type::String => Type::String,
            Type::Bytes => Type::Bytes,
            Type::Array(t) => Type::Array(Box::new(t.duplicate())),
            Type::Tuple(ts) => {
                let mut out: Vec<Type> = Vec::new();
                let mut i: usize = 0;
                while i < ts.len()
                    invariant
                        i <= ts@.len(),
                        out@.len() == i,
                        forall|j: int| 0 <= j < i ==> #[trigger] out@[j]@ == ts@[j]@,
                        *self == Type::Tuple(*ts),
                    decreases ts@.len() - i,
                {
                    proof {
                        assert(decreases_to!(*self => self->Tuple_0));
                        assert(decreases_to!(*ts => ts@[i as int]));
                    }
                    out.push(ts[i].duplicate());
                    i = i + 1;
                }
                let ghost outv = out@;
                let r = Type::Tuple(out);
                assert(r@->Tuple_0 =~= self@->Tuple_0) by {
                    assert forall|j: int| 0 <= j < outv.len() implies
                        #[trigger] r@->Tuple_0[j] == self@->Tuple_0[j] by {
                        assert(outv[j]@ == ts@[j]@);
                    }
                }
                r
            },
        }
    }
}

impl Clone for Type {
    fn clone(&self) -> (r: Type)
        ensures
            r@ == self@,
    {
        self.duplicate()
    }
}

} // verus!
