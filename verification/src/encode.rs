//! Encoding values into bytes.
use std::collections::VecDeque;
use vstd::prelude::*;

use crate::encoding::{
    all_encodable, bytes_tail, dyn_entries, enc, enc_tail, heads_from, heads_len, lemma_all_encodable,
    lemma_enc_len, lemma_fill_end, lemma_fill_step, lemma_heads_size, lemma_next_entry,
    lemma_prefix_step, lemma_tails_prefix, padded32, pre_heads, tails, zeros,
};
use crate::value::{lemma_model_parts, models, AbiValue, Value};
use crate::word::{lemma_be_bytes_len, u256_from_usize, u256_to_big_endian, word};

verus! {

broadcast use vstd::std_specs::vec::group_vec_axioms;

/// The queue of pending dynamic values holds, in order, the given head
/// positions and value indices.
pub open spec fn queue_matches(q: Seq<(usize, usize)>, e: Seq<(nat, nat)>) -> bool {
    &&& q.len() == e.len()
    &&& forall|j: int| 0 <= j < q.len() ==> (#[trigger] q[j]).0 == e[j].0 && q[j].1 == e[j].1
}

/// Appends `n` zero bytes.
fn push_zeros(buf: &mut Vec<u8>, n: usize)
    requires
        old(buf)@.len() + n <= usize::MAX,
    ensures
        final(buf)@ == old(buf)@ + zeros(n as nat),
{
    let new_len = buf.len() + n;
    buf.resize(new_len, 0u8);
    assert(buf@ =~= old(buf)@ + zeros(n as nat)) by {
        assert forall|j: int| old(buf)@.len() <= j < new_len implies buf@[j] == 0u8 by {
            assert(buf@.subrange(0, old(buf)@.len() as int) == old(buf)@);
        }
        assert forall|j: int| 0 <= j < old(buf)@.len() implies buf@[j] == old(buf)@[j] by {
            assert(buf@.subrange(0, old(buf)@.len() as int)[j] == buf@[j]);
        }
    }
}

/// Overwrites the bytes at `at..at + src.len()` with `src`.
fn write_at(buf: &mut Vec<u8>, at: usize, src: &[u8])
    requires
        at + src@.len() <= old(buf)@.len(),
    ensures
        final(buf)@ == old(buf)@.take(at as int) + src@ + old(buf)@.skip(at + src@.len()),
{
    let ghost b0 = buf@;
    assert(b0.len() == buf.len());
    let mut k: usize = 0;
    while k < src.len()
        invariant
            buf@.len() == b0.len(),
            b0.len() <= usize::MAX,
            k <= src@.len(),
            at + src@.len() <= b0.len(),
            forall|j: int|
                0 <= j < b0.len() ==> #[trigger] buf@[j] == if at <= j < at + k {
                    src@[j - at]
                } else {
                    b0[j]
                },
        decreases src@.len() - k,
    {
        buf.set(at + k, src[k]);
        k = k + 1;
    }
    assert(buf@ =~= b0.take(at as int) + src@ + b0.skip(at + src@.len()));
}

impl Value {
    /// Encodes `values` in the ABI format: the head area, then the tail area
    /// holding the dynamic values in order.
    pub fn encode(values: &Vec<Self>) -> (r: Vec<u8>)
        requires
            all_encodable(models(values@)),
            enc(models(values@)).len() <= usize::MAX,
        ensures
            r@ == enc(models(values@)),
        decreases values@,
    {
        let ghost vals = models(values@);
        let ghost hl = heads_len(vals);
        proof {
            lemma_enc_len(vals);
            assert(vals.take(0) =~= Seq::<AbiValue>::empty());
        }
        let mut buf: Vec<u8> = Vec::new();
        let mut alloc_queue: VecDeque<(usize, usize)> = VecDeque::new();
        let mut i: usize = 0;
        while i < values.len()
            invariant
                vals == models(values@),
                all_encodable(vals),
                enc(vals).len() <= usize::MAX,
                enc(vals).len() == hl + tails(vals).len(),
                hl == heads_len(vals),
                i <= values@.len(),
                buf@ == pre_heads(vals.take(i as int)),
                buf@.len() == heads_len(vals.take(i as int)),
                queue_matches(alloc_queue@, dyn_entries(vals.take(i as int), 0, 0)),
            decreases values@.len() - i,
        {
            let ghost v = vals[i as int];
            proof {
                lemma_prefix_step(vals, i as int);
                lemma_heads_size(vals.take(i + 1), 0);
                lemma_all_encodable(vals, i as int);
                lemma_model_parts(values@[i as int]);
                assert(v == values@[i as int]@);
            }
            let ghost q0 = alloc_queue@;
            match &values[i] {
                Value::Uint(x, _) => {
                    proof {
                        lemma_be_bytes_len(x@, 32);
                    }
                    let start = buf.len();
                    push_zeros(&mut buf, 32);
                    let w = u256_to_big_endian(x);
                    write_at(&mut buf, start, &w);
                    assert(buf@ =~= pre_heads(vals.take(i + 1)));
                },
                Value::Int(x, _) => {
                    proof {
                        lemma_be_bytes_len(x@, 32);
                    }
                    let start = buf.len();
                    push_zeros(&mut buf, 32);
                    let w = u256_to_big_endian(x);
                    write_at(&mut buf, start, &w);
                    assert(buf@ =~= pre_heads(vals.take(i + 1)));
                },
                Value::Address(addr) => {
                    let start = buf.len();
                    push_zeros(&mut buf, 32);
                    write_at(&mut buf, start + 12, addr);
                    assert(buf@ =~= pre_heads(vals.take(i + 1)));
                },
                Value::Bool(b) => {
                    let start = buf.len();
                    push_zeros(&mut buf, 32);
                    if *b {
                        buf.set(start + 31, 1);
                    }
                    assert(buf@ =~= pre_heads(vals.take(i + 1)));
                },
                Value::FixedBytes(bytes) => {
                    let start = buf.len();
                    push_zeros(&mut buf, 32);
                    write_at(&mut buf, start, bytes.as_slice());
                    assert(buf@ =~= pre_heads(vals.take(i + 1)));
                },
                Value::FixedArray(vs, ty) => {
                    if ty.is_dynamic() {
                        alloc_queue.push_back((buf.len(), i));
                        push_zeros(&mut buf, 32);
                        assert(buf@ =~= pre_heads(vals.take(i + 1)));
                    } else {
                        proof {
                            assert(decreases_to!(values@ => values@[i as int]));
                            assert(decreases_to!(values@[i as int] => values@[i as int]->FixedArray_0));
                            assert(decreases_to!(values@[i as int]->FixedArray_0 => vs@));
                        }
                        let mut bytes = Value::encode(vs);
                        buf.append(&mut bytes);
                        assert(buf@ =~= pre_heads(vals.take(i + 1)));
                    }
                },
                Value::String(_) | Value::Bytes(_) | Value::Array(_, _) => {
                    alloc_queue.push_back((buf.len(), i));
                    push_zeros(&mut buf, 32);
                    assert(buf@ =~= pre_heads(vals.take(i + 1)));
                },
                Value::Tuple(_) => {
                    proof {
                        assert(false);
                    }
                },
            };
            assert(queue_matches(alloc_queue@, dyn_entries(vals.take(i + 1), 0, 0))) by {
                let e = dyn_entries(vals.take(i + 1), 0, 0);
                assert forall|j: int| 0 <= j < alloc_queue@.len() implies (
                #[trigger] alloc_queue@[j]).0 == e[j].0 && alloc_queue@[j].1 == e[j].1 by {
                    if j < q0.len() {
                        assert(alloc_queue@[j] == q0[j]);
                    }
                }
            }
            i = i + 1;
        }
        let mut alloc_offset = buf.len();
        let ghost mut k: int = 0;
        proof {
            assert(vals.take(values@.len() as int) =~= vals);
            assert(vals.skip(0) =~= vals);
            assert(heads_from(vals.take(0), hl) == Seq::<u8>::empty());
            assert(tails(vals.take(0)) == Seq::<u8>::empty());
            assert(heads_len(vals.take(0)) == 0);
            assert(buf@ =~= heads_from(vals.take(k), hl) + pre_heads(vals.skip(k)) + tails(
                vals.take(k),
            ));
            lemma_heads_size(vals, hl);
        }
        loop
            invariant
                vals == models(values@),
                all_encodable(vals),
                enc(vals).len() <= usize::MAX,
                enc(vals).len() == hl + tails(vals).len(),
                hl == heads_len(vals),
                0 <= k <= vals.len(),
                buf@ == heads_from(vals.take(k), hl) + pre_heads(vals.skip(k)) + tails(vals.take(k)),
                alloc_offset == buf@.len(),
                alloc_offset == hl + tails(vals.take(k)).len(),
                queue_matches(alloc_queue@, dyn_entries(vals.skip(k), k as nat, heads_len(vals.take(k)))),
            ensures
                alloc_queue@.len() == 0,
            decreases alloc_queue@.len(),
        {
            proof {
                lemma_next_entry(vals, k);
            }
            let ghost q0 = alloc_queue@;
            match alloc_queue.pop_front() {
                None => {
                    break ;
                },
                Some((at, idx)) => {
                    let ghost e = dyn_entries(vals.skip(k), k as nat, heads_len(vals.take(k)));
                    proof {
                        assert(q0[0] == (at, idx));
                        lemma_fill_step(vals, hl, k, idx as int);
                        lemma_tails_prefix(vals, idx + 1);
                        lemma_all_encodable(vals, idx as int);
                        lemma_model_parts(values@[idx as int]);
                        lemma_be_bytes_len(alloc_offset as nat, 32);
                    }
                    let ghost b1 = buf@;
                    let w = u256_to_big_endian(&u256_from_usize(alloc_offset));
                    write_at(&mut buf, at, &w);
                    proof {
                        let h = heads_from(vals.take(idx as int), hl);
                        assert(b1 == h + zeros(32) + pre_heads(vals.skip(idx + 1)) + tails(
                            vals.take(k),
                        ));
                        assert(buf@ =~= heads_from(vals.take(idx + 1), hl) + pre_heads(
                            vals.skip(idx + 1),
                        ) + tails(vals.take(idx as int)));
                    }
                    let ghost b2 = buf@;
                    proof {
                        let tv = vals[idx as int];
                        lemma_be_bytes_len(alloc_offset as nat, 32);
                        if tv is String {
                            lemma_be_bytes_len(vstd::utf8::encode_utf8(tv->String_0).len(), 32);
                        } else if tv is Bytes {
                            lemma_be_bytes_len(tv->Bytes_0.len(), 32);
                        } else if tv is Array {
                            lemma_be_bytes_len(tv->Array_0.len(), 32);
                        }
                        assert(alloc_offset + enc_tail(tv).len() <= usize::MAX);
                    }
                    match &values[idx] {
                        Value::String(s) => {
                            alloc_offset = Self::encode_bytes(
                                &mut buf,
                                s.as_str().as_bytes(),
                                alloc_offset,
                            );
                        },
                        Value::Bytes(bytes) => {
                            alloc_offset = Self::encode_bytes(&mut buf, bytes.as_slice(), alloc_offset);
                        },
                        Value::Array(vs, _) => {
                            push_zeros(&mut buf, 32);
                            let w = u256_to_big_endian(&u256_from_usize(vs.len()));
                            proof {
                                lemma_be_bytes_len(vs@.len() as nat, 32);
                            }
                            write_at(&mut buf, alloc_offset, &w);
                            alloc_offset = alloc_offset + 32;
                            proof {
                                assert(decreases_to!(values@ => values@[idx as int]));
                                assert(decreases_to!(values@[idx as int] => values@[idx as int]->Array_0));
                                assert(decreases_to!(values@[idx as int]->Array_0 => vs@));
                            }
                            let mut bytes = Value::encode(vs);
                            alloc_offset = alloc_offset + bytes.len();
                            buf.append(&mut bytes);
                        },
                        Value::FixedArray(vs, _) => {
                            proof {
                                assert(decreases_to!(values@ => values@[idx as int]));
                                assert(decreases_to!(values@[idx as int] => values@[idx as int]->FixedArray_0));
                                assert(decreases_to!(values@[idx as int]->FixedArray_0 => vs@));
                            }
                            let mut bytes = Value::encode(vs);
                            alloc_offset = alloc_offset + bytes.len();
                            buf.append(&mut bytes);
                        },
                        _ => {
                            proof {
                                assert(false);
                            }
                        },
                    }
                    proof {
                        assert(buf@ =~= b2 + enc_tail(vals[idx as int]));
                        assert(buf@ =~= heads_from(vals.take(idx + 1), hl) + pre_heads(
                            vals.skip(idx + 1),
                        ) + tails(vals.take(idx + 1)));
                        k = idx + 1;
                        assert(queue_matches(
                            alloc_queue@,
                            dyn_entries(vals.skip(k), k as nat, heads_len(vals.take(k))),
                        )) by {
                            assert forall|j: int| 0 <= j < alloc_queue@.len() implies (
                            #[trigger] alloc_queue@[j]).0 == e.drop_first()[j].0
                                && alloc_queue@[j].1 == e.drop_first()[j].1 by {
                                assert(alloc_queue@[j] == q0[j + 1]);
                            }
                        }
                    }
                },
            }
        }
        proof {
            lemma_next_entry(vals, k);
            lemma_fill_end(vals, hl, k);
            assert(buf@ =~= enc(vals));
        }
        buf
    }

    /// Appends a byte string to the tail area at `alloc_offset`, the end of
    /// `buf`: its length, then its bytes padded to a multiple of 32. Returns
    /// the new end of the tail area.
    fn encode_bytes(buf: &mut Vec<u8>, bytes: &[u8], alloc_offset: usize) -> (r: usize)
        requires
            alloc_offset == old(buf)@.len(),
            alloc_offset + 32 + padded32(bytes@.len()) <= usize::MAX,
        ensures
            final(buf)@ == old(buf)@ + bytes_tail(bytes@),
            r == final(buf)@.len(),
    {
        let mut alloc_offset = alloc_offset;
        let padded_bytes_len = Self::padded32_size(bytes.len());
        push_zeros(buf, 32 + padded_bytes_len);
        let w = u256_to_big_endian(&u256_from_usize(bytes.len()));
        proof {
            lemma_be_bytes_len(bytes@.len() as nat, 32);
        }
        write_at(buf, alloc_offset, &w);
        alloc_offset = alloc_offset + 32;
        write_at(buf, alloc_offset, bytes);
        assert(buf@ =~= old(buf)@ + bytes_tail(bytes@));
        alloc_offset + padded_bytes_len
    }

    /// The least multiple of 32 that is at least `size`.
    pub(crate) fn padded32_size(size: usize) -> (r: usize)
        requires
            size % 32 == 0 || size + 32 - size % 32 <= usize::MAX,
        ensures
            r == padded32(size as nat),
    {
        let r = size % 32;
        if r == 0 {
            size
        } else {
            size + 32 - r
        }
    }
}

} // verus!
