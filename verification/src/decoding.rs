//! What decoding a byte string gives, as mathematical functions.
//!
//! Decoding reads a value of a given type at position `base + at`; `base`
//! is the start of the enclosing encoding, against which offsets are taken.
//! Each step either panics (an index past the end of the input, an
//! arithmetic overflow, or an offset that does not fit a `usize`), fails
//! (a string that is not UTF-8, whose bytes it carries), or gives a value and the number of head
//! bytes it consumed.
use vstd::prelude::*;

use crate::encoding::padded32;
use crate::types::AbiType;
use crate::value::AbiValue;
use crate::word::be_value;

verus! {

/// The outcome of a decoding step. A failure carries the bytes of the
/// string that are not valid UTF-8.
pub enum Decoded<T> {
    Panics,
    Fails(Seq<u8>),
    Done(T),
}

/// The number held by the 32-byte word at position `a`, if the word lies
/// within the input and its end fits a `usize`.
pub open spec fn word_at(bs: Seq<u8>, a: nat) -> Option<nat> {
    if a + 32 <= usize::MAX && a + 32 <= bs.len() {
        Some(be_value(bs.subrange(a as int, (a + 32) as int)))
    } else {
        None
    }
}

/// The word at position `a`, if it exists and holds a number that fits a `usize`.
pub open spec fn usize_at(bs: Seq<u8>, a: nat) -> Option<nat> {
    match word_at(bs, a) {
        Some(w) => if w <= usize::MAX {
            Some(w)
        } else {
            None
        },
        None => None,
    }
}

/// Order among the kinds of types that decoding steps through.
pub open spec fn kind_rank(ty: AbiType) -> nat {
    match ty {
        AbiType::String => 1,
        AbiType::FixedArray(_, _) => 1,
        AbiType::Array(_) => 2,
        _ => 0,
    }
}

/// Decoding a value of type `ty` at `base + at`.
pub open spec fn dec(bs: Seq<u8>, ty: AbiType, base: nat, at: nat) -> Decoded<(AbiValue, nat)>
    decreases ty.height(), kind_rank(ty), 0nat,
{
    let a = base + at;
    match ty {
        AbiType::Uint(size) => if a > usize::MAX {
            Decoded::Panics
        } else {
            match word_at(bs, a) {
                Some(w) => Decoded::Done((AbiValue::Uint(w, size), 32)),
                None => Decoded::Panics,
            }
        },
        AbiType::Int(size) => if a > usize::MAX {
            Decoded::Panics
        } else {
            match word_at(bs, a) {
                Some(w) => Decoded::Done((AbiValue::Int(w, size), 32)),
                None => Decoded::Panics,
            }
        },
        AbiType::Address => if a + 32 > usize::MAX || a + 32 > bs.len() {
            Decoded::Panics
        } else {
            Decoded::Done((AbiValue::Address(bs.subrange((a + 12) as int, (a + 32) as int)), 32))
        },
        AbiType::Bool => if a > usize::MAX {
            Decoded::Panics
        } else {
            match word_at(bs, a) {
                Some(w) => Decoded::Done((AbiValue::Bool(w == 1), 32)),
                None => Decoded::Panics,
            }
        },
        AbiType::FixedBytes(size) => if a + size > usize::MAX || a + size > bs.len() || padded32(
            size as nat,
        ) > usize::MAX {
            Decoded::Panics
        } else {
            Decoded::Done(
                (AbiValue::FixedBytes(bs.subrange(a as int, (a + size) as int)), padded32(size as nat)),
            )
        },
        AbiType::FixedArray(e, n) => {
            let start = if e.is_dynamic() {
                match usize_at(bs, at) {
                    Some(off) => if base + off > usize::MAX {
                        None
                    } else {
                        Some((base + off, 0nat))
                    },
                    None => None,
                }
            } else {
                Some((base, at))
            };
            match start {
                None => Decoded::Panics,
                Some((b, a0)) => match dec_elems(bs, *e, b, a0, n as nat, 0, seq![], 0) {
                    Decoded::Done((vs, total)) => Decoded::Done(
                        (
                            AbiValue::FixedArray(vs, *e),
                            if e.is_dynamic() {
                                32
                            } else {
                                total
                            },
                        ),
                    ),
                    Decoded::Fails(b) => Decoded::Fails(b),
                    Decoded::Panics => Decoded::Panics,
                },
            }
        },
        AbiType::String => if a > usize::MAX {
            Decoded::Panics
        } else {
            match dec(bs, AbiType::Bytes, base, a) {
                Decoded::Done((AbiValue::Bytes(b), c)) => if vstd::utf8::valid_utf8(b) {
                    Decoded::Done((AbiValue::String(vstd::utf8::decode_utf8(b)), c))
                } else {
                    Decoded::Fails(b)
                },
                Decoded::Done(_) => Decoded::Panics,
                Decoded::Fails(b) => Decoded::Fails(b),
                Decoded::Panics => Decoded::Panics,
            }
        },
        AbiType::Bytes => if a > usize::MAX {
            Decoded::Panics
        } else {
            match usize_at(bs, a) {
                None => Decoded::Panics,
                Some(off) => if base + off > usize::MAX {
                    Decoded::Panics
                } else {
                    match usize_at(bs, base + off) {
                        None => Decoded::Panics,
                        Some(len) => {
                            let s = base + off + 32;
                            if s + len > usize::MAX || s + len > bs.len() {
                                Decoded::Panics
                            } else {
                                Decoded::Done((AbiValue::Bytes(bs.subrange(s as int, (s + len) as int)), 32))
                            }
                        },
                    }
                },
            }
        },
        AbiType::Array(e) => if a > usize::MAX {
            Decoded::Panics
        } else {
            match usize_at(bs, a) {
                None => Decoded::Panics,
                Some(off) => if base + off > usize::MAX {
                    Decoded::Panics
                } else {
                    match usize_at(bs, base + off) {
                        None => Decoded::Panics,
                        Some(len) => match dec(
                            bs,
                            AbiType::FixedArray(e, len as usize),
                            base + off,
                            32,
                        ) {
                            Decoded::Done((AbiValue::FixedArray(vs, _), _)) => Decoded::Done(
                                (AbiValue::Array(vs, *e), 32),
                            ),
                            Decoded::Done(_) => Decoded::Panics,
                            Decoded::Fails(b) => Decoded::Fails(b),
                            Decoded::Panics => Decoded::Panics,
                        },
                    }
                },
            }
        },
        AbiType::Tuple(_) => Decoded::Panics,
    }
}

/// Decoding elements `i..n` of a fixed array of element type `e` whose
/// elements start at `base + at`, having decoded `acc` in `total` bytes.
pub open spec fn dec_elems(
    bs: Seq<u8>,
    e: AbiType,
    base: nat,
    at: nat,
    n: nat,
    i: nat,
    acc: Seq<AbiValue>,
    total: nat,
) -> Decoded<(Seq<AbiValue>, nat)>
    decreases e.height() + 1, 0nat, n - i,
{
    if i >= n {
        Decoded::Done((acc, total))
    } else if at + total > usize::MAX {
        Decoded::Panics
    } else {
        match dec(bs, e, base, at + total) {
            Decoded::Done((v, c)) => if total + c > usize::MAX {
                Decoded::Panics
            } else {
                dec_elems(bs, e, base, at, n, i + 1, acc.push(v), total + c)
            },
            Decoded::Fails(b) => Decoded::Fails(b),
            Decoded::Panics => Decoded::Panics,
        }
    }
}

/// Decoding values of the types `tys[i..]` one after the other from `at`,
/// having decoded `acc`.
pub open spec fn dec_list(bs: Seq<u8>, tys: Seq<AbiType>, i: nat, acc: Seq<AbiValue>, at: nat) -> Decoded<
    Seq<AbiValue>,
>
    decreases tys.len() - i,
{
    if i >= tys.len() {
        Decoded::Done(acc)
    } else {
        match dec(bs, tys[i as int], 0, at) {
            Decoded::Done((v, c)) => if at + c > usize::MAX {
                Decoded::Panics
            } else {
                dec_list(bs, tys, i + 1, acc.push(v), at + c)
            },
            Decoded::Fails(b) => Decoded::Fails(b),
            Decoded::Panics => Decoded::Panics,
        }
    }
}

/// Decoding a sequence of values of the types `tys` from the start of `bs`.
pub open spec fn decode_values(bs: Seq<u8>, tys: Seq<AbiType>) -> Decoded<Seq<AbiValue>> {
    dec_list(bs, tys, 0, seq![], 0)
}

} // verus!
