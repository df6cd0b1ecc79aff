//! The ABI encoding of a sequence of values, as mathematical functions.
//!
//! A sequence is encoded as a head area followed by a tail area. A static
//! value is encoded in place in the head area; a dynamic value puts into the
//! head area a 32-byte word holding the offset, from the start of the
//! encoding, of its own encoding in the tail area.
use vstd::prelude::*;

use crate::value::AbiValue;
use crate::word::{lemma_be_bytes_len, word};

verus! {

/// `n` zero bytes.
pub open spec fn zeros(n: nat) -> Seq<u8> {
    Seq::new(n, |i: int| 0u8)
}

/// The least multiple of 32 that is at least `n`.
pub open spec fn padded32(n: nat) -> nat {
    if n % 32 == 0 {
        n
    } else {
        (n + 32 - n % 32) as nat
    }
}

/// A byte string in the tail area: its length, then its bytes padded with
/// zeros to a multiple of 32.
pub open spec fn bytes_tail(b: Seq<u8>) -> Seq<u8> {
    word(b.len()) + b + zeros((padded32(b.len()) - b.len()) as nat)
}

impl AbiValue {
    /// Whether the value goes to the tail area. For a fixed array this is
    /// decided by its declared element type.
    pub open spec fn is_dyn(self) -> bool {
        match self {
            AbiValue::String(_) | AbiValue::Bytes(_) | AbiValue::Array(_, _) => true,
            AbiValue::FixedArray(_, t) => t.is_dynamic(),
            _ => false,
        }
    }
}

/// The in-place encoding of a static value.
pub open spec fn enc_static(v: AbiValue) -> Seq<u8>
    decreases v, 0nat,
{
    match v {
        AbiValue::Uint(n, _) => word(n),
        AbiValue::Int(n, _) => word(n),
        AbiValue::Address(a) => zeros(12) + a,
        AbiValue::Bool(b) => zeros(31).push(
            if b {
                1u8
            } else {
                0u8
            },
        ),
        AbiValue::FixedBytes(b) => b + zeros((32 - b.len()) as nat),
        AbiValue::FixedArray(vs, _) => enc(vs),
        _ => seq![],
    }
}

/// The tail-area encoding of a dynamic value.
pub open spec fn enc_tail(v: AbiValue) -> Seq<u8>
    decreases v, 0nat,
{
    match v {
        AbiValue::String(s) => bytes_tail(vstd::utf8::encode_utf8(s)),
        AbiValue::Bytes(b) => bytes_tail(b),
        AbiValue::Array(vs, _) => word(vs.len()) + enc(vs),
        AbiValue::FixedArray(vs, _) => enc(vs),
        _ => seq![],
    }
}

/// Size of the head-area part of each value.
pub open spec fn heads_len(vals: Seq<AbiValue>) -> nat
    decreases vals, 0nat,
{
    if vals.len() == 0 {
        0
    } else {
        (if vals[0].is_dyn() {
            32
        } else {
            enc_static(vals[0]).len()
        }) + heads_len(vals.drop_first())
    }
}

/// The tail area: the tail encodings of the dynamic values, in order.
pub open spec fn tails(vals: Seq<AbiValue>) -> Seq<u8>
    decreases vals, 0nat,
{
    if vals.len() == 0 {
        seq![]
    } else {
        (if vals[0].is_dyn() {
            enc_tail(vals[0])
        } else {
            seq![]
        }) + tails(vals.drop_first())
    }
}

/// The head area, when the first dynamic value's tail starts at offset `off`.
pub open spec fn heads_from(vals: Seq<AbiValue>, off: nat) -> Seq<u8>
    decreases vals, 0nat,
{
    if vals.len() == 0 {
        seq![]
    } else if vals[0].is_dyn() {
        word(off) + heads_from(vals.drop_first(), off + enc_tail(vals[0]).len())
    } else {
        enc_static(vals[0]) + heads_from(vals.drop_first(), off)
    }
}

/// The encoding of a sequence of values.
pub open spec fn enc(vals: Seq<AbiValue>) -> Seq<u8>
    decreases vals, 1nat,
{
    heads_from(vals, heads_len(vals)) + tails(vals)
}

/// Whether the values can be encoded: no tuple occurs, and no fixed byte
/// string is longer than 32 bytes.
pub open spec fn encodable(v: AbiValue) -> bool
    decreases v, 0nat,
{
    match v {
        AbiValue::Tuple(_) => false,
        AbiValue::FixedBytes(b) => b.len() <= 32,
        AbiValue::FixedArray(vs, _) => all_encodable(vs),
        AbiValue::Array(vs, _) => all_encodable(vs),
        _ => true,
    }
}

/// Whether every value of the sequence can be encoded.
pub open spec fn all_encodable(vals: Seq<AbiValue>) -> bool
    decreases vals, 1nat,
{
    if vals.len() == 0 {
        true
    } else {
        encodable(vals[0]) && all_encodable(vals.drop_first())
    }
}

/// The head-area size of one value.
pub open spec fn head_size(v: AbiValue) -> nat {
    if v.is_dyn() {
        32
    } else {
        enc_static(v).len()
    }
}

/// The head area with zero words where the offsets of dynamic values go.
pub open spec fn pre_heads(vals: Seq<AbiValue>) -> Seq<u8>
    decreases vals,
{
    if vals.len() == 0 {
        seq![]
    } else {
        (if vals[0].is_dyn() {
            zeros(32)
        } else {
            enc_static(vals[0])
        }) + pre_heads(vals.drop_first())
    }
}

/// For each dynamic value, the position of its head word and its index, when
/// the sequence starts at index `idx` and head position `pos`.
pub open spec fn dyn_entries(vals: Seq<AbiValue>, idx: nat, pos: nat) -> Seq<(nat, nat)>
    decreases vals,
{
    if vals.len() == 0 {
        seq![]
    } else {
        (if vals[0].is_dyn() {
            seq![(pos, idx)]
        } else {
            seq![]
        }) + dyn_entries(vals.drop_first(), idx + 1, pos + head_size(vals[0]))
    }
}

/// Whether no value of the sequence is dynamic.
pub open spec fn all_static(vals: Seq<AbiValue>) -> bool {
    forall|i: int| 0 <= i < vals.len() ==> !(#[trigger] vals[i]).is_dyn()
}

/// How the encoding functions split over a concatenation.
pub proof fn lemma_concat(a: Seq<AbiValue>, b: Seq<AbiValue>, off: nat, idx: nat, pos: nat)
    ensures
        heads_len(a + b) == heads_len(a) + heads_len(b),
        tails(a + b) == tails(a) + tails(b),
        pre_heads(a + b) == pre_heads(a) + pre_heads(b),
        heads_from(a + b, off) == heads_from(a, off) + heads_from(b, off + tails(a).len()),
        dyn_entries(a + b, idx, pos) == dyn_entries(a, idx, pos) + dyn_entries(
            b,
            idx + a.len(),
            pos + heads_len(a),
        ),
    decreases a.len(),
{
    if a.len() == 0 {
        assert(a + b =~= b);
    } else {
        let r = a.drop_first();
        assert((a + b).drop_first() =~= r + b);
        assert((a + b)[0] == a[0]);
        let v = a[0];
        let off1 = if v.is_dyn() {
            off + enc_tail(v).len()
        } else {
            off
        };
        lemma_concat(r, b, off1, idx + 1, pos + head_size(v));
        if v.is_dyn() {
            assert(tails(a + b) =~= tails(a) + tails(b));
            assert(pre_heads(a + b) =~= pre_heads(a) + pre_heads(b));
            assert(heads_from(a + b, off) =~= heads_from(a, off) + heads_from(b, off + tails(a).len()));
            assert(dyn_entries(a + b, idx, pos) =~= dyn_entries(a, idx, pos) + dyn_entries(
                b,
                idx + a.len(),
                pos + heads_len(a),
            ));
        } else {
            assert(tails(a + b) =~= tails(a) + tails(b));
            assert(pre_heads(a + b) =~= pre_heads(a) + pre_heads(b));
            assert(heads_from(a + b, off) =~= heads_from(a, off) + heads_from(b, off + tails(a).len()));
            assert(dyn_entries(a + b, idx, pos) =~= dyn_entries(a, idx, pos) + dyn_entries(
                b,
                idx + a.len(),
                pos + heads_len(a),
            ));
        }
    }
}

/// The head area, with or without its offsets, has the size `heads_len`.
pub proof fn lemma_heads_size(a: Seq<AbiValue>, off: nat)
    ensures
        pre_heads(a).len() == heads_len(a),
        heads_from(a, off).len() == heads_len(a),
    decreases a.len(),
{
    if a.len() > 0 {
        let v = a[0];
        lemma_be_bytes_len(off, 32);
        let off1 = if v.is_dyn() {
            off + enc_tail(v).len()
        } else {
            off
        };
        lemma_heads_size(a.drop_first(), off1);
    }
}

/// A sequence of static values has no tail, no offsets and no dynamic entries.
pub proof fn lemma_all_static(a: Seq<AbiValue>, off: nat, idx: nat, pos: nat)
    requires
        all_static(a),
    ensures
        heads_from(a, off) == pre_heads(a),
        tails(a) == Seq::<u8>::empty(),
        dyn_entries(a, idx, pos) == Seq::<(nat, nat)>::empty(),
    decreases a.len(),
{
    if a.len() > 0 {
        assert(!a[0].is_dyn());
        let r = a.drop_first();
        assert forall|i: int| 0 <= i < r.len() implies !(#[trigger] r[i]).is_dyn() by {
            assert(r[i] == a[i + 1]);
        }
        lemma_all_static(r, off, idx + 1, pos + head_size(a[0]));
        assert(tails(a) =~= Seq::<u8>::empty());
        assert(dyn_entries(a, idx, pos) =~= Seq::<(nat, nat)>::empty());
    }
}

/// The encoding is its head area followed by its tail area.
pub proof fn lemma_enc_len(vals: Seq<AbiValue>)
    ensures
        enc(vals).len() == heads_len(vals) + tails(vals).len(),
{
    lemma_heads_size(vals, heads_len(vals));
}

/// The encoding functions on a single value.
pub proof fn lemma_single(v: AbiValue, off: nat, idx: nat, pos: nat)
    ensures
        heads_len(seq![v]) == head_size(v),
        tails(seq![v]) == (if v.is_dyn() {
            enc_tail(v)
        } else {
            Seq::<u8>::empty()
        }),
        pre_heads(seq![v]) == (if v.is_dyn() {
            zeros(32)
        } else {
            enc_static(v)
        }),
        heads_from(seq![v], off) == (if v.is_dyn() {
            word(off)
        } else {
            enc_static(v)
        }),
        dyn_entries(seq![v], idx, pos) == (if v.is_dyn() {
            seq![(pos, idx)]
        } else {
            Seq::<(nat, nat)>::empty()
        }),
{
    let one = seq![v];
    assert(one.drop_first() =~= Seq::<AbiValue>::empty());
    assert(one[0] == v);
    let e = Seq::<AbiValue>::empty();
    assert(tails(e) == Seq::<u8>::empty());
    assert(pre_heads(e) == Seq::<u8>::empty());
    assert(tails(one) == (if v.is_dyn() { enc_tail(v) } else { Seq::<u8>::empty() }) + tails(e));
    assert(pre_heads(one) == (if v.is_dyn() { zeros(32) } else { enc_static(v) }) + pre_heads(e));
    assert(heads_from(e, off + enc_tail(v).len()) == Seq::<u8>::empty());
    assert(heads_from(e, off) == Seq::<u8>::empty());
    assert(heads_len(e) == 0);
    assert(heads_len(one) == head_size(v) + heads_len(e));
    assert(dyn_entries(e, idx + 1, pos + head_size(v)) == Seq::<(nat, nat)>::empty());
    assert(dyn_entries(one, idx, pos) == (if v.is_dyn() { seq![(pos, idx)] } else {
        Seq::<(nat, nat)>::empty() }) + dyn_entries(e, idx + 1, pos + head_size(v)));
    if v.is_dyn() {
        assert(tails(one) =~= enc_tail(v));
        assert(pre_heads(one) =~= zeros(32));
        assert(heads_from(one, off) =~= word(off));
        assert(dyn_entries(one, idx, pos) =~= seq![(pos, idx)]);
    } else {
        assert(tails(one) =~= Seq::<u8>::empty());
        assert(pre_heads(one) =~= enc_static(v));
        assert(heads_from(one, off) =~= enc_static(v));
        assert(dyn_entries(one, idx, pos) =~= Seq::<(nat, nat)>::empty());
    }
}

/// Adding one value to a prefix of the sequence.
pub proof fn lemma_prefix_step(vals: Seq<AbiValue>, i: int)
    requires
        0 <= i < vals.len(),
    ensures
        pre_heads(vals.take(i + 1)) == pre_heads(vals.take(i)) + (if vals[i].is_dyn() {
            zeros(32)
        } else {
            enc_static(vals[i])
        }),
        dyn_entries(vals.take(i + 1), 0, 0) == dyn_entries(vals.take(i), 0, 0) + (if vals[i].is_dyn() {
            seq![(heads_len(vals.take(i)), i as nat)]
        } else {
            Seq::<(nat, nat)>::empty()
        }),
        heads_len(vals.take(i + 1)) == heads_len(vals.take(i)) + head_size(vals[i]),
        heads_len(vals.take(i + 1)) <= heads_len(vals),
{
    let v = vals[i];
    let one = seq![v];
    assert(one.drop_first() =~= Seq::<AbiValue>::empty());
    assert(vals.take(i + 1) =~= vals.take(i) + one);
    lemma_concat(vals.take(i), one, 0, 0, 0);
    lemma_single(v, 0, i as nat, heads_len(vals.take(i)));
    assert(vals =~= vals.take(i + 1) + vals.skip(i + 1));
    lemma_concat(vals.take(i + 1), vals.skip(i + 1), 0, 0, 0);
}

/// The dynamic entries of a suffix: either none is left and the suffix is
/// static, or the first one is the next dynamic value after a static stretch.
pub proof fn lemma_next_entry(vals: Seq<AbiValue>, k: int)
    requires
        0 <= k <= vals.len(),
    ensures
        ({
            let e = dyn_entries(vals.skip(k), k as nat, heads_len(vals.take(k)));
            &&& e.len() == 0 ==> all_static(vals.skip(k))
            &&& e.len() > 0 ==> {
                let idx = e[0].1 as int;
                &&& k <= idx < vals.len()
                &&& vals[idx].is_dyn()
                &&& all_static(vals.subrange(k, idx))
                &&& e[0].0 == heads_len(vals.take(idx))
                &&& e.drop_first() == dyn_entries(
                    vals.skip(idx + 1),
                    (idx + 1) as nat,
                    heads_len(vals.take(idx + 1)),
                )
            }
        }),
    decreases vals.len() - k,
{
    if k == vals.len() {
        assert(vals.skip(k) =~= Seq::<AbiValue>::empty());
    } else {
        let v = vals[k];
        lemma_prefix_step(vals, k);
        assert(vals.skip(k).drop_first() =~= vals.skip(k + 1));
        assert(vals.skip(k)[0] == v);
        let e = dyn_entries(vals.skip(k), k as nat, heads_len(vals.take(k)));
        if v.is_dyn() {
            assert(e[0] == (heads_len(vals.take(k)), k as nat));
            assert(e.drop_first() =~= dyn_entries(
                vals.skip(k + 1),
                (k + 1) as nat,
                heads_len(vals.take(k + 1)),
            ));
            assert(all_static(vals.subrange(k, k)));
        } else {
            lemma_next_entry(vals, k + 1);
            assert(e =~= dyn_entries(vals.skip(k + 1), (k + 1) as nat, heads_len(vals.take(k + 1))));
            if e.len() == 0 {
                assert forall|j: int| 0 <= j < vals.skip(k).len() implies !(
                #[trigger] vals.skip(k)[j]).is_dyn() by {
                    if j > 0 {
                        assert(vals.skip(k)[j] == vals.skip(k + 1)[j - 1]);
                    }
                }
            } else {
                let idx = e[0].1 as int;
                assert forall|j: int| 0 <= j < vals.subrange(k, idx).len() implies !(
                #[trigger] vals.subrange(k, idx)[j]).is_dyn() by {
                    if j > 0 {
                        assert(vals.subrange(k, idx)[j] == vals.subrange(k + 1, idx)[j - 1]);
                    }
                }
            }
        }
    }
}

/// Writing the offset of the next dynamic value after a static stretch.
pub proof fn lemma_fill_step(vals: Seq<AbiValue>, hl: nat, k: int, idx: int)
    requires
        0 <= k <= idx < vals.len(),
        all_static(vals.subrange(k, idx)),
        vals[idx].is_dyn(),
    ensures
        heads_from(vals.take(k), hl) + pre_heads(vals.skip(k)) == heads_from(vals.take(idx), hl)
            + zeros(32) + pre_heads(vals.skip(idx + 1)),
        heads_from(vals.take(idx + 1), hl) == heads_from(vals.take(idx), hl) + word(
            hl + tails(vals.take(idx)).len(),
        ),
        tails(vals.take(idx)) == tails(vals.take(k)),
        tails(vals.take(idx + 1)) == tails(vals.take(idx)) + enc_tail(vals[idx]),
        heads_from(vals.take(idx), hl).len() == heads_len(vals.take(idx)),
{
    let v = vals[idx];
    let mid = vals.subrange(k, idx);
    let one = seq![v];
    assert(one.drop_first() =~= Seq::<AbiValue>::empty());
    assert(vals.take(idx) =~= vals.take(k) + mid);
    lemma_concat(vals.take(k), mid, hl, 0, 0);
    lemma_all_static(mid, hl + tails(vals.take(k)).len(), 0, 0);
    assert(vals.skip(k) =~= mid + vals.skip(idx));
    lemma_concat(mid, vals.skip(idx), 0, 0, 0);
    assert(vals.skip(idx) =~= one + vals.skip(idx + 1));
    lemma_concat(one, vals.skip(idx + 1), 0, 0, 0);
    assert(vals.take(idx + 1) =~= vals.take(idx) + one);
    lemma_concat(vals.take(idx), one, hl, 0, 0);
    lemma_single(v, hl + tails(vals.take(idx)).len(), 0, 0);
    lemma_heads_size(vals.take(idx), hl);
    assert(tails(vals.take(idx)) =~= tails(vals.take(k)));
    assert(heads_from(vals.take(idx + 1), hl) =~= heads_from(vals.take(idx), hl) + word(
        hl + tails(vals.take(idx)).len(),
    ));
    assert(tails(vals.take(idx + 1)) =~= tails(vals.take(idx)) + enc_tail(vals[idx]));
    assert(heads_from(vals.take(k), hl) + pre_heads(vals.skip(k)) =~= heads_from(vals.take(idx), hl)
        + zeros(32) + pre_heads(vals.skip(idx + 1)));
}

/// Once only static values are left, the head and tail areas are complete.
pub proof fn lemma_fill_end(vals: Seq<AbiValue>, hl: nat, k: int)
    requires
        0 <= k <= vals.len(),
        all_static(vals.skip(k)),
    ensures
        heads_from(vals.take(k), hl) + pre_heads(vals.skip(k)) == heads_from(vals, hl),
        tails(vals.take(k)) == tails(vals),
{
    assert(vals =~= vals.take(k) + vals.skip(k));
    lemma_concat(vals.take(k), vals.skip(k), hl, 0, 0);
    lemma_all_static(vals.skip(k), hl + tails(vals.take(k)).len(), 0, 0);
    assert(tails(vals.take(k)) =~= tails(vals));
}

/// The tail area of a prefix is no longer than the whole tail area.
pub proof fn lemma_tails_prefix(vals: Seq<AbiValue>, m: int)
    requires
        0 <= m <= vals.len(),
    ensures
        tails(vals.take(m)).len() <= tails(vals).len(),
{
    assert(vals =~= vals.take(m) + vals.skip(m));
    lemma_concat(vals.take(m), vals.skip(m), 0, 0, 0);
}

/// Every value of an encodable sequence is encodable.
pub proof fn lemma_all_encodable(vals: Seq<AbiValue>, i: int)
    requires
        all_encodable(vals),
        0 <= i < vals.len(),
    ensures
        encodable(vals[i]),
    decreases i,
{
    if i > 0 {
        lemma_all_encodable(vals.drop_first(), i - 1);
    }
}

} // verus!
