//! Decoding values from bytes.
use vstd::prelude::*;

use crate::decoding::{dec, dec_elems, dec_list, decode_values, kind_rank, Decoded};
use crate::types::{AbiType, Type};
use crate::value::{lemma_model_parts, models, AbiValue, Value};
use crate::word::{h160_from_slice, u256_as_usize, u256_from_big_endian, u256_is_one};

verus! {

broadcast use vstd::std_specs::vec::group_vec_axioms;

#[verifier::external_type_specification]
#[verifier::external_body]
pub struct ExFromUtf8Error(std::string::FromUtf8Error);

/// The text that `FromUtf8Error`'s `Display` gives for the error of
/// `String::from_utf8` on these bytes.
pub uninterp spec fn utf8_error_text(bytes: Seq<u8>) -> Seq<char>;

/// Calls `String::from_utf8`.
/// Claimed: it succeeds exactly when the bytes are valid UTF-8, and the string
/// then holds the characters that the bytes encode; on failure, the text that
/// `to_string` gives for the error depends on the bytes alone.
#[verifier::external_body]
fn string_from_utf8(bytes: Vec<u8>) -> (res: Result<String, std::string::FromUtf8Error>)
    ensures
        res is Ok <==> vstd::utf8::valid_utf8(bytes@),
        res matches Ok(s) ==> s@ == vstd::utf8::decode_utf8(bytes@),
        res matches Err(e) ==> forall|t: String|
            #[trigger] vstd::string::to_string_from_display_ensures::<std::string::FromUtf8Error>(
                &e,
                t,
            ) ==> t@ == utf8_error_text(bytes@),
{
    String::from_utf8(bytes)
}

/// The models of a sequence of types.
pub open spec fn type_models(tys: Seq<Type>) -> Seq<AbiType> {
    Seq::new(tys.len(), |i: int| tys[i]@)
}

/// A decoding result agrees with the decoding outcome.
pub open spec fn decoded_as(d: Decoded<(AbiValue, nat)>, res: Result<(Value, usize), String>) -> bool {
    match d {
        Decoded::Done((v, c)) => res matches Ok((val, cc)) && val@ == v && cc as nat == c,
        Decoded::Fails(b) => res matches Err(m) && m@ == utf8_error_text(b),
        Decoded::Panics => false,
    }
}

proof fn lemma_models_push(vs: Seq<Value>, v: Value)
    ensures
        models(vs.push(v)) == models(vs).push(v@),
{
    assert(models(vs.push(v)) =~= models(vs).push(v@));
}

impl Value {
    /// Decodes the values of the types `tys`, one after the other, from the
    /// start of `bs`.
    pub fn decode_from_slice(bs: &[u8], tys: &Vec<Type>) -> (res: Result<Vec<Value>, String>)
        requires
            !(decode_values(bs@, type_models(tys@)) is Panics),
        ensures
            match decode_values(bs@, type_models(tys@)) {
                Decoded::Done(vs) => res matches Ok(r) && models(r@) == vs,
                Decoded::Fails(b) => res matches Err(m) && m@ == utf8_error_text(b),
                Decoded::Panics => false,
            },
    {
        let ghost tms = type_models(tys@);
        let mut values: Vec<Value> = Vec::new();
        let mut at: usize = 0;
        let mut i: usize = 0;
        assert(models(values@) =~= Seq::<AbiValue>::empty());
        while i < tys.len()
            invariant
                tms == type_models(tys@),
                i <= tys@.len(),
                dec_list(bs@, tms, i as nat, models(values@), at as nat) == decode_values(bs@, tms),
                !(decode_values(bs@, tms) is Panics),
            decreases tys@.len() - i,
        {
            assert(tms[i as int] == tys@[i as int]@);
            let (value, consumed) = Self::decode(bs, &tys[i], 0, at)?;
            proof {
                lemma_models_push(values@, value);
            }
            values.push(value);
            at = at + consumed;
            i = i + 1;
        }
        Ok(values)
    }

    /// Decodes a value of type `ty` at `base_addr + at`; returns it with the
    /// number of head bytes it takes.
    fn decode(bs: &[u8], ty: &Type, base_addr: usize, at: usize) -> (res: Result<(Value, usize), String>)
        requires
            !(dec(bs@, ty@, base_addr as nat, at as nat) is Panics),
        ensures
            decoded_as(dec(bs@, ty@, base_addr as nat, at as nat), res),
        decreases ty@.height(), kind_rank(ty@), 0nat,
    {
        match ty {
            Type::Uint(size) => {
                let at = base_addr + at;
                let uint = u256_from_big_endian(&bs[at..(at + 32)]);
                Ok((Value::Uint(uint, *size), 32))
            },
            Type::Int(size) => {
                let at = base_addr + at;
                let uint = u256_from_big_endian(&bs[at..(at + 32)]);
                Ok((Value::Int(uint, *size), 32))
            },
            Type::Address => {
                let at = base_addr + at;
                let addr = h160_from_slice(&bs[(at + 12)..(at + 32)]);
                Ok((Value::Address(addr), 32))
            },
            Type::Bool => {
                let at = base_addr + at;
                let b = u256_is_one(&u256_from_big_endian(&bs[at..(at + 32)]));
                Ok((Value::Bool(b), 32))
            },
            Type::FixedBytes(size) => {
                let at = base_addr + at;
                let bv = vstd::slice::slice_to_vec(&bs[at..(at + *size)]);
                Ok((Value::FixedBytes(bv), Self::padded32_size(*size)))
            },
            Type::FixedArray(ety, size) => {
                let e: &Type = ety;
                let ghost outer = dec(bs@, ty@, base_addr as nat, at as nat);
                let dynamic = e.is_dynamic();
                let (elems_base, elems_at) = if dynamic {
                    let offset = u256_as_usize(&u256_from_big_endian(&bs[at..(at + 32)]));
                    (base_addr + offset, 0usize)
                } else {
                    (base_addr, at)
                };
                let ghost whole = dec_elems(bs@, e@, elems_base as nat, elems_at as nat, *size as nat, 0, seq![], 0);
                let mut values: Vec<Value> = Vec::new();
                let mut total_consumed: usize = 0;
                let mut i: usize = 0;
                assert(models(values@) =~= Seq::<AbiValue>::empty());
                while i < *size
                    invariant
                        i <= *size,
                        dec_elems(bs@, e@, elems_base as nat, elems_at as nat, *size as nat, i as nat, models(values@), total_consumed as nat) == whole,
                        !(whole is Panics),
                        whole is Fails ==> outer == Decoded::<(AbiValue, nat)>::Fails(whole->Fails_0),
                        outer == dec(bs@, ty@, base_addr as nat, at as nat),
                        ty@ == AbiType::FixedArray(Box::new(e@), *size),
                    decreases *size - i,
                {
                    let (value, consumed) = match Self::decode(bs, e, elems_base, elems_at + total_consumed) {
                        Ok(p) => p,
                        Err(err) => {
                            proof {
                                let d = dec(bs@, e@, elems_base as nat, (elems_at + total_consumed) as nat);
                                assert(d is Fails);
                                assert(whole == Decoded::<(Seq<AbiValue>, nat)>::Fails(d->Fails_0));
                            }
                            return Err(err);
                        },
                    };
                    proof {
                        lemma_models_push(values@, value);
                    }
                    values.push(value);
                    total_consumed = total_consumed + consumed;
                    i = i + 1;
                }
                let consumed = if dynamic {
                    32
                } else {
                    total_consumed
                };
                let r = Value::FixedArray(values, e.clone());
                proof {
                    lemma_model_parts(r);
                }
                Ok((r, consumed))
            },
            Type::String => {
                let at = base_addr + at;
                let (bytes_value, consumed) = Self::decode(bs, &Type::Bytes, base_addr, at)?;
                let bytes = match bytes_value {
                    Value::Bytes(bytes) => bytes,
                    _ => {
                        proof {
                            assert(false);
                        }
                        Vec::new()
                    },
                };
                let ghost raw = bytes@;
                let s = match string_from_utf8(bytes) {
                    Ok(s) => s,
                    Err(e) => {
                        let text = e.to_string();
                        assert(text@ == utf8_error_text(raw));
                        return Err(text);
                    },
                };
                Ok((Value::String(s), consumed))
            },
            Type::Bytes => {
                let at = base_addr + at;
                let offset = u256_as_usize(&u256_from_big_endian(&bs[at..(at + 32)]));
                let at = base_addr + offset;
                let bytes_len = u256_as_usize(&u256_from_big_endian(&bs[at..(at + 32)]));
                let at = at + 32;
                let bytes = vstd::slice::slice_to_vec(&bs[at..(at + bytes_len)]);
                Ok((Value::Bytes(bytes), 32))
            },
            Type::Array(ety) => {
                let e: &Type = ety;
                let at = base_addr + at;
                let offset = u256_as_usize(&u256_from_big_endian(&bs[at..(at + 32)]));
                let at = base_addr + offset;
                let array_len = u256_as_usize(&u256_from_big_endian(&bs[at..(at + 32)]));
                let arr_ty = Type::FixedArray(Box::new(e.clone()), array_len);
                let (arr, _) = Self::decode(bs, &arr_ty, at, 32)?;
                proof {
                    lemma_model_parts(arr);
                }
                let values = match arr {
                    Value::FixedArray(values, _) => values,
                    _ => {
                        proof {
                            assert(false);
                        }
                        Vec::new()
                    },
                };
                let r = Value::Array(values, e.clone());
                proof {
                    lemma_model_parts(r);
                }
                Ok((r, 32))
            },
            Type::Tuple(_) => {
                proof {
                    assert(false);
                }
                Err(String::new())
            },
        }
    }
}

} // verus!
