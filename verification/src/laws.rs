//! Properties of the encoding and decoding as a whole.
use vstd::prelude::*;

use crate::decoding::{dec, dec_elems, dec_list, decode_values, kind_rank, usize_at, word_at, Decoded};
use crate::encoding::{
    all_encodable, all_static, bytes_tail, enc, enc_static, enc_tail, encodable, head_size,
    heads_from, heads_len, lemma_all_encodable, lemma_all_static, lemma_concat, lemma_enc_len,
    lemma_heads_size, lemma_prefix_step, lemma_single, padded32, pre_heads, tails, zeros,
};
use crate::types::AbiType;
use crate::value::{lemma_all_valid, AbiValue};
use crate::word::{be_value, lemma_be_bytes_len, lemma_word_roundtrip, word, word_modulus};

verus! {

/// The types of a sequence of values.
pub open spec fn types_of(vals: Seq<AbiValue>) -> Seq<AbiType> {
    Seq::new(vals.len(), |i: int| vals[i].type_of())
}

/// Values that the decoder reads back from their encoding. `top` marks the
/// values of the outermost sequence, whose offsets are counted from the start
/// of the input: only there are strings and fixed arrays of dynamic elements
/// read back. Integers are below `2^256`, addresses have 20 bytes, fixed byte
/// strings have 1 to 32 bytes, arrays are not longer than `usize::MAX`, the
/// elements of an array have its element type, and the elements of a dynamic
/// array are static.
pub open spec fn round_trips(v: AbiValue, top: bool) -> bool
    decreases v, 0nat,
{
    match v {
        AbiValue::Uint(n, _) => n < word_modulus(),
        AbiValue::Int(n, _) => n < word_modulus(),
        AbiValue::Address(a) => a.len() == 20,
        AbiValue::Bool(_) => true,
        AbiValue::FixedBytes(b) => 1 <= b.len() <= 32,
        AbiValue::String(_) => top,
        AbiValue::Bytes(_) => true,
        AbiValue::Array(vs, e) => !e.is_dynamic() && vs.len() <= usize::MAX && all_round_trip(
            vs,
            e,
        ),
        AbiValue::FixedArray(vs, e) => vs.len() <= usize::MAX && (e.is_dynamic() ==> top)
            && all_round_trip(vs, e),
        AbiValue::Tuple(_) => false,
    }
}

/// Every element read back when nested, and of type `e`.
pub open spec fn all_round_trip(vs: Seq<AbiValue>, e: AbiType) -> bool
    decreases vs, 1nat,
{
    if vs.len() == 0 {
        true
    } else {
        round_trips(vs[0], false) && vs[0].type_of() == e && all_round_trip(vs.drop_first(), e)
    }
}

/// The encoding of `vs` lies in `bs` at `base`: its head area from `base + p`,
/// its tail area right after, and the offsets counted from `base`.
pub open spec fn laid_out(bs: Seq<u8>, base: nat, p: nat, vs: Seq<AbiValue>) -> bool {
    let h = p + heads_len(vs);
    &&& bs.len() <= usize::MAX
    &&& base + h + tails(vs).len() <= bs.len()
    &&& bs.subrange((base + p) as int, (base + h) as int) == heads_from(vs, h)
    &&& bs.subrange((base + h) as int, (base + h + tails(vs).len()) as int) == tails(vs)
}

proof fn lemma_all_round_trip(vs: Seq<AbiValue>, e: AbiType, i: int)
    requires
        all_round_trip(vs, e),
        0 <= i < vs.len(),
    ensures
        round_trips(vs[i], false),
        vs[i].type_of() == e,
    decreases i,
{
    if i > 0 {
        lemma_all_round_trip(vs.drop_first(), e, i - 1);
    }
}

/// A value goes to the tail area exactly when its type is dynamic.
proof fn lemma_dyn_type(v: AbiValue)
    ensures
        v.is_dyn() == v.type_of().is_dynamic(),
{
    if v is Tuple {
        assert(AbiType::any_dynamic(Seq::<AbiType>::empty()) == false);
    }
}

proof fn lemma_static_elems(vs: Seq<AbiValue>, e: AbiType)
    requires
        all_round_trip(vs, e),
        !e.is_dynamic(),
    ensures
        all_static(vs),
{
    assert forall|i: int| 0 <= i < vs.len() implies !(#[trigger] vs[i]).is_dyn() by {
        lemma_all_round_trip(vs, e, i);
        lemma_dyn_type(vs[i]);
    }
}

/// A part of a sequence that is known to be `a + b + c` at `x`.
proof fn lemma_sub_mid(bs: Seq<u8>, x: int, a: Seq<u8>, b: Seq<u8>, c: Seq<u8>)
    requires
        0 <= x,
        x + a.len() + b.len() + c.len() <= bs.len(),
        bs.subrange(x, x + a.len() + b.len() + c.len()) == a + b + c,
    ensures
        bs.subrange(x + a.len(), x + a.len() + b.len()) == b,
{
    let whole = bs.subrange(x, x + a.len() + b.len() + c.len());
    assert forall|j: int| 0 <= j < b.len() implies bs.subrange(x + a.len(), x + a.len() + b.len())[j]
        == b[j] by {
        assert(whole[a.len() + j] == bs[x + a.len() + j]);
        assert((a + b + c)[a.len() + j] == b[j]);
    }
    assert(bs.subrange(x + a.len(), x + a.len() + b.len()) =~= b);
}

proof fn lemma_be_zeros(k: nat)
    ensures
        be_value(zeros(k)) == 0,
    decreases k,
{
    if k > 0 {
        assert(zeros(k).drop_last() =~= zeros((k - 1) as nat));
        lemma_be_zeros((k - 1) as nat);
    }
}

/// The word read at `a` where `word(n)` lies.
proof fn lemma_word_at(bs: Seq<u8>, a: nat, n: nat)
    requires
        n < word_modulus(),
        bs.len() <= usize::MAX,
        a + 32 <= bs.len(),
        bs.subrange(a as int, (a + 32) as int) == word(n),
    ensures
        word_at(bs, a) == Some(n),
        n <= usize::MAX ==> usize_at(bs, a) == Some(n),
{
    lemma_word_roundtrip(n);
}

/// Where the parts of one element of a laid-out sequence lie.
proof fn lemma_laid_out_elem(bs: Seq<u8>, base: nat, p: nat, vs: Seq<AbiValue>, i: int)
    requires
        laid_out(bs, base, p, vs),
        0 <= i < vs.len(),
    ensures
        ({
            let v = vs[i];
            let pi = p + heads_len(vs.take(i));
            let ti = p + heads_len(vs) + tails(vs.take(i)).len();
            &&& heads_len(vs.take((i + 1) as int)) == heads_len(vs.take(i)) + head_size(v)
            &&& heads_len(vs.take((i + 1) as int)) <= heads_len(vs)
            &&& !v.is_dyn() ==> {
                &&& base + pi + enc_static(v).len() <= bs.len()
                &&& bs.subrange((base + pi) as int, (base + pi + enc_static(v).len()) as int)
                    == enc_static(v)
            }
            &&& v.is_dyn() ==> {
                &&& base + pi + 32 <= bs.len()
                &&& bs.subrange((base + pi) as int, (base + pi + 32) as int) == word(ti)
                &&& base + ti + enc_tail(v).len() <= bs.len()
                &&& bs.subrange((base + ti) as int, (base + ti + enc_tail(v).len()) as int)
                    == enc_tail(v)
            }
        }),
{
    let v = vs[i];
    let h = p + heads_len(vs);
    let pre = vs.take(i);
    let one = seq![v];
    let post = vs.skip(i + 1);
    let off = h + tails(pre).len();
    assert(vs =~= pre + (one + post));
    assert(vs.take((i + 1) as int) =~= pre + one);
    lemma_concat(pre, one + post, h, 0, 0);
    lemma_concat(one, post, off, 0, 0);
    lemma_concat(pre, one, h, 0, 0);
    lemma_concat(vs.take((i + 1) as int), post, h, 0, 0);
    assert(vs =~= vs.take((i + 1) as int) + post);
    lemma_single(v, off, 0, 0);
    lemma_heads_size(pre, h);
    lemma_heads_size(one, off);
    lemma_heads_size(post, off + tails(one).len());
    lemma_be_bytes_len(off, 32);
    let hs = heads_from(vs, h);
    assert(hs == heads_from(pre, h) + heads_from(one, off) + heads_from(post, off + tails(one).len()));
    lemma_sub_mid(
        bs,
        (base + p) as int,
        heads_from(pre, h),
        heads_from(one, off),
        heads_from(post, off + tails(one).len()),
    );
    assert(tails(vs) == tails(pre) + tails(one) + tails(post));
    lemma_sub_mid(bs, (base + h) as int, tails(pre), tails(one), tails(post));
}

/// Reading back a byte string whose offset word lies at `base + pi`.
proof fn lemma_dec_bytes(bs: Seq<u8>, base: nat, pi: nat, ti: nat, b: Seq<u8>)
    requires
        bs.len() <= usize::MAX,
        base + pi + 32 <= bs.len(),
        bs.subrange((base + pi) as int, (base + pi + 32) as int) == word(ti),
        base + ti + bytes_tail(b).len() <= bs.len(),
        bs.subrange((base + ti) as int, (base + ti + bytes_tail(b).len()) as int) == bytes_tail(b),
    ensures
        dec(bs, AbiType::Bytes, base, pi) == Decoded::Done((AbiValue::Bytes(b), 32nat)),
{
    let t = bytes_tail(b);
    let pad = zeros((padded32(b.len()) - b.len()) as nat);
    lemma_be_bytes_len(b.len(), 32);
    lemma_word_at(bs, base + pi, ti);
    assert(Seq::<u8>::empty() + word(b.len()) + (b + pad) =~= t);
    assert(word(b.len()) + b + pad =~= t);
    lemma_sub_mid(bs, (base + ti) as int, Seq::<u8>::empty(), word(b.len()), b + pad);
    assert(bs.subrange((base + ti) as int, (base + ti + 32) as int) == word(b.len()));
    lemma_word_at(bs, base + ti, b.len());
    lemma_sub_mid(bs, (base + ti) as int, word(b.len()), b, pad);
}

/// Reading back one value whose head lies at `base + pi` and, when dynamic,
/// whose tail lies at `base + ti`.
proof fn lemma_dec_elem(bs: Seq<u8>, v: AbiValue, base: nat, pi: nat, ti: nat, top: bool)
    requires
        round_trips(v, top),
        top ==> base == 0,
        bs.len() <= usize::MAX,
        !v.is_dyn() ==> {
            &&& base + pi + enc_static(v).len() <= bs.len()
            &&& bs.subrange((base + pi) as int, (base + pi + enc_static(v).len()) as int)
                == enc_static(v)
        },
        v.is_dyn() ==> {
            &&& base + pi + 32 <= bs.len()
            &&& bs.subrange((base + pi) as int, (base + pi + 32) as int) == word(ti)
            &&& base + ti + enc_tail(v).len() <= bs.len()
            &&& bs.subrange((base + ti) as int, (base + ti + enc_tail(v).len()) as int) == enc_tail(v)
        },
    ensures
        dec(bs, v.type_of(), base, pi) == Decoded::Done((v, head_size(v))),
    decreases v, 1nat,
{
    match v {
        AbiValue::String(s) => {
            let u = vstd::utf8::encode_utf8(s);
            vstd::utf8::encode_utf8_valid_utf8(s);
            vstd::utf8::encode_utf8_decode_utf8(s);
            lemma_dec_bytes(bs, base, pi, ti, u);
        },
        AbiValue::Bytes(b) => {
            lemma_dec_bytes(bs, base, pi, ti, b);
        },
        AbiValue::Array(vs, e) => {
            lemma_dec_array(bs, v, base, pi, ti, top);
        },
        AbiValue::FixedArray(vs, e) => {
            lemma_dec_fixed_array(bs, v, base, pi, ti, top);
        },
        AbiValue::Tuple(_) => {},
        _ => {
            lemma_dec_scalar(bs, v, base, pi, top);
        },
    }
}

/// Reading back an integer, address, boolean or fixed byte string.
proof fn lemma_dec_scalar(bs: Seq<u8>, v: AbiValue, base: nat, pi: nat, top: bool)
    requires
        round_trips(v, top),
        bs.len() <= usize::MAX,
        v is Uint || v is Int || v is Address || v is Bool || v is FixedBytes,
        base + pi + enc_static(v).len() <= bs.len(),
        bs.subrange((base + pi) as int, (base + pi + enc_static(v).len()) as int) == enc_static(v),
    ensures
        dec(bs, v.type_of(), base, pi) == Decoded::Done((v, head_size(v))),
{
    let a = base + pi;
    match v {
        AbiValue::Uint(n, _) => {
            lemma_be_bytes_len(n, 32);
            lemma_word_at(bs, a, n);
        },
        AbiValue::Int(n, _) => {
            lemma_be_bytes_len(n, 32);
            lemma_word_at(bs, a, n);
        },
        AbiValue::Address(addr) => {
            assert(zeros(12) + addr + Seq::<u8>::empty() =~= enc_static(v));
            lemma_sub_mid(bs, a as int, zeros(12), addr, Seq::<u8>::empty());
        },
        AbiValue::Bool(b) => {
            let x: u8 = if b {
                1
            } else {
                0
            };
            lemma_be_zeros(31);
            assert(zeros(31).push(x).drop_last() =~= zeros(31));
            assert(be_value(zeros(31).push(x)) == x);
        },
        AbiValue::FixedBytes(b) => {
            assert(Seq::<u8>::empty() + b + zeros((32 - b.len()) as nat) =~= enc_static(v));
            lemma_sub_mid(bs, a as int, Seq::<u8>::empty(), b, zeros((32 - b.len()) as nat));
            assert(b.len() as usize == b.len());
        },
        _ => {},
    }
}

/// Reading back an array of static elements.
proof fn lemma_dec_array(bs: Seq<u8>, v: AbiValue, base: nat, pi: nat, ti: nat, top: bool)
    requires
        round_trips(v, top),
        top ==> base == 0,
        bs.len() <= usize::MAX,
        !v.is_dyn() ==> {
            &&& base + pi + enc_static(v).len() <= bs.len()
            &&& bs.subrange((base + pi) as int, (base + pi + enc_static(v).len()) as int)
                == enc_static(v)
        },
        v.is_dyn() ==> {
            &&& base + pi + 32 <= bs.len()
            &&& bs.subrange((base + pi) as int, (base + pi + 32) as int) == word(ti)
            &&& base + ti + enc_tail(v).len() <= bs.len()
            &&& bs.subrange((base + ti) as int, (base + ti + enc_tail(v).len()) as int) == enc_tail(v)
        },
        v is Array,
    ensures
        dec(bs, v.type_of(), base, pi) == Decoded::Done((v, head_size(v))),
    decreases v, 0nat,
{
    let a = base + pi;
    let vs = v->Array_0;
    let e = v->Array_1;
    let t = enc_tail(v);
    let hl = heads_len(vs);
    lemma_static_elems(vs, e);
    lemma_all_static(vs, hl, 0, 0);
    lemma_all_static(vs, 32 + hl, 0, 0);
    lemma_heads_size(vs, hl);
    lemma_be_bytes_len(vs.len(), 32);
    lemma_word_at(bs, a, ti);
    assert(Seq::<u8>::empty() + word(vs.len()) + enc(vs) =~= t);
    lemma_sub_mid(bs, (base + ti) as int, Seq::<u8>::empty(), word(vs.len()), enc(vs));
    lemma_word_at(bs, base + ti, vs.len());
    assert(word(vs.len()) + enc(vs) + Seq::<u8>::empty() =~= t);
    lemma_sub_mid(bs, (base + ti) as int, word(vs.len()), enc(vs), Seq::<u8>::empty());
    assert(enc(vs) =~= pre_heads(vs));
    let b2 = base + ti;
    assert(laid_out(bs, b2, 32, vs)) by {
        assert(bs.subrange((b2 + 32 + hl) as int, (b2 + 32 + hl) as int) =~= Seq::<u8>::empty());
    }
    assert(decreases_to!(v => vs));
    lemma_dec_run(bs, e, b2, 32, vs, 0);
    assert(vs.take(0) =~= Seq::<AbiValue>::empty());
    assert(vs.len() as usize == vs.len());
    assert(usize_at(bs, a) == Some(ti));
    assert(usize_at(bs, b2) == Some(vs.len()));
    let fa = AbiType::FixedArray(Box::new(e), vs.len() as usize);
    assert(dec(bs, fa, b2, 32) == Decoded::Done((AbiValue::FixedArray(vs, e), hl)));
}

/// Reading back a fixed array: in place when its elements are static, and
/// through its offset otherwise.
proof fn lemma_dec_fixed_array(bs: Seq<u8>, v: AbiValue, base: nat, pi: nat, ti: nat, top: bool)
    requires
        round_trips(v, top),
        top ==> base == 0,
        bs.len() <= usize::MAX,
        !v.is_dyn() ==> {
            &&& base + pi + enc_static(v).len() <= bs.len()
            &&& bs.subrange((base + pi) as int, (base + pi + enc_static(v).len()) as int)
                == enc_static(v)
        },
        v.is_dyn() ==> {
            &&& base + pi + 32 <= bs.len()
            &&& bs.subrange((base + pi) as int, (base + pi + 32) as int) == word(ti)
            &&& base + ti + enc_tail(v).len() <= bs.len()
            &&& bs.subrange((base + ti) as int, (base + ti + enc_tail(v).len()) as int) == enc_tail(v)
        },
        v is FixedArray,
    ensures
        dec(bs, v.type_of(), base, pi) == Decoded::Done((v, head_size(v))),
    decreases v, 0nat,
{
    let a = base + pi;
    let vs = v->FixedArray_0;
    let e = v->FixedArray_1;
    let hl = heads_len(vs);
    assert(vs.len() as usize == vs.len());
    assert(decreases_to!(v => vs));
    lemma_heads_size(vs, hl);
    if e.is_dynamic() {
        let t = enc_tail(v);
        lemma_word_at(bs, a, ti);
        assert(Seq::<u8>::empty() + heads_from(vs, hl) + tails(vs) =~= t);
        lemma_sub_mid(bs, ti as int, Seq::<u8>::empty(), heads_from(vs, hl), tails(vs));
        assert(heads_from(vs, hl) + tails(vs) + Seq::<u8>::empty() =~= t);
        lemma_sub_mid(bs, ti as int, heads_from(vs, hl), tails(vs), Seq::<u8>::empty());
        assert(laid_out(bs, ti, 0, vs));
        lemma_dec_run(bs, e, ti, 0, vs, 0);
        assert(vs.take(0) =~= Seq::<AbiValue>::empty());
    } else {
        lemma_static_elems(vs, e);
        lemma_all_static(vs, pi + hl, 0, 0);
        lemma_all_static(vs, hl, 0, 0);
        assert(laid_out(bs, base, pi, vs)) by {
            assert(bs.subrange((base + pi + hl) as int, (base + pi + hl) as int) =~= Seq::<u8>::empty());
        }
        lemma_dec_run(bs, e, base, pi, vs, 0);
        assert(vs.take(0) =~= Seq::<AbiValue>::empty());
    }
}

/// Reading back the elements `i..` of a laid-out sequence of elements of type `e`.
proof fn lemma_dec_run(bs: Seq<u8>, e: AbiType, base: nat, p: nat, vs: Seq<AbiValue>, i: int)
    requires
        all_round_trip(vs, e),
        laid_out(bs, base, p, vs),
        vs.len() <= usize::MAX,
        0 <= i <= vs.len(),
    ensures
        dec_elems(bs, e, base, p, vs.len(), i as nat, vs.take(i), heads_len(vs.take(i)))
            == Decoded::Done((vs, heads_len(vs))),
    decreases vs, vs.len() - i,
{
    if i == vs.len() {
        assert(vs.take(i) =~= vs);
    } else {
        let v = vs[i];
        lemma_laid_out_elem(bs, base, p, vs, i);
        lemma_all_round_trip(vs, e, i);
        let pi = p + heads_len(vs.take(i));
        let ti = p + heads_len(vs) + tails(vs.take(i)).len();
        assert(decreases_to!(vs => v));
        lemma_dec_elem(bs, v, base, pi, ti, false);
        assert(vs.take(i).push(v) =~= vs.take((i + 1) as int));
        lemma_dec_run(bs, e, base, p, vs, i + 1);
    }
}

/// Reading back the values `i..` of a laid-out outermost sequence.
proof fn lemma_dec_list(bs: Seq<u8>, vals: Seq<AbiValue>, i: int)
    requires
        forall|j: int| 0 <= j < vals.len() ==> round_trips(#[trigger] vals[j], true),
        laid_out(bs, 0, 0, vals),
        0 <= i <= vals.len(),
    ensures
        dec_list(bs, types_of(vals), i as nat, vals.take(i), heads_len(vals.take(i)))
            == Decoded::Done(vals),
    decreases vals.len() - i,
{
    if i == vals.len() {
        assert(vals.take(i) =~= vals);
    } else {
        let v = vals[i];
        lemma_laid_out_elem(bs, 0, 0, vals, i);
        let pi = heads_len(vals.take(i));
        let ti = heads_len(vals) + tails(vals.take(i)).len();
        lemma_dec_elem(bs, v, 0, pi, ti, true);
        assert(types_of(vals)[i] == v.type_of());
        assert(vals.take(i).push(v) =~= vals.take(i + 1));
        lemma_dec_list(bs, vals, i + 1);
    }
}

/// Decoding the encoding of values, with their types, gives back the values.
/// This holds for values of the outermost sequence that `round_trips`
/// describes, whose encoding fits in memory.
pub proof fn law_decode_encode(vals: Seq<AbiValue>)
    requires
        forall|j: int| 0 <= j < vals.len() ==> round_trips(#[trigger] vals[j], true),
        enc(vals).len() <= usize::MAX,
    ensures
        decode_values(enc(vals), types_of(vals)) == Decoded::Done(vals),
{
    let bs = enc(vals);
    let h = heads_len(vals);
    lemma_heads_size(vals, h);
    assert(bs.subrange(0, h as int) =~= heads_from(vals, h));
    assert(bs.subrange(h as int, (h + tails(vals).len()) as int) =~= tails(vals));
    lemma_dec_list(bs, vals, 0);
    assert(vals.take(0) =~= Seq::<AbiValue>::empty());
    assert(heads_len(Seq::<AbiValue>::empty()) == 0);
}

/// The number of head bytes a value of type `t` takes: one word for a
/// dynamic type, `padded32(k)` for `k` fixed bytes, `n` times the element's
/// size for a static fixed array of `n` elements, one word otherwise.
pub open spec fn head_size_of(t: AbiType) -> nat
    decreases t,
{
    if t.is_dynamic() {
        32
    } else {
        match t {
            AbiType::FixedBytes(k) => padded32(k as nat),
            AbiType::FixedArray(u, n) => n as nat * head_size_of(*u),
            AbiType::Tuple(_) => 0,
            _ => 32,
        }
    }
}

impl AbiValue {
    /// Every element of every array, at any depth, has the array's element type.
    pub open spec fn well_typed(self) -> bool
        decreases self,
    {
        match self {
            AbiValue::FixedArray(xs, t) => forall|i: int|
                0 <= i < xs.len() ==> (#[trigger] xs[i]).type_of() == t && xs[i].well_typed(),
            AbiValue::Array(xs, t) => forall|i: int|
                0 <= i < xs.len() ==> (#[trigger] xs[i]).type_of() == t && xs[i].well_typed(),
            _ => true,
        }
    }
}

/// Every value decoded with type `ty` has type `ty` (so `k` fixed bytes give
/// `k` bytes and a fixed array of `n` elements gives `n` elements), every
/// nested element has its array's element type, and the value takes
/// `head_size_of(ty)` head bytes.
pub proof fn law_decoded_type(bs: Seq<u8>, ty: AbiType, base: nat, at: nat)
    ensures
        dec(bs, ty, base, at) matches Decoded::Done((v, c)) ==> {
            &&& v.type_of() == ty
            &&& v.well_typed()
            &&& c == head_size_of(ty)
        },
    decreases ty.height(), kind_rank(ty), 0nat,
{
    match ty {
        AbiType::FixedArray(e, n) => {
            let dynamic = e.is_dynamic();
            let start = if dynamic {
                match usize_at(bs, at) {
                    Some(off) => if base + off > usize::MAX {
                        None
                    } else {
                        Some((base + off, 0nat))
                    },
                    None => None,
                }
            } else {
                Some((base, at))
            };
            if let Some((b, a0)) = start {
                lemma_decoded_elems(bs, *e, b, a0, n as nat, 0, seq![], 0);
                assert(0 * head_size_of(*e) == 0);
            }
        },
        AbiType::String => {
            law_decoded_type(bs, AbiType::Bytes, base, base + at);
        },
        AbiType::Array(e) => {
            if let Some(off) = usize_at(bs, base + at) {
                if let Some(len) = usize_at(bs, base + off) {
                    law_decoded_type(bs, AbiType::FixedArray(e, len as usize), base + off, 32);
                }
            }
        },
        AbiType::FixedBytes(k) => {
            if let Decoded::Done((v, c)) = dec(bs, ty, base, at) {
                assert(v->FixedBytes_0.len() == k);
            }
        },
        _ => {},
    }
}

/// The elements decoded for a fixed array: as many as asked for, each of the
/// element type and well typed, taking the element's size each.
proof fn lemma_decoded_elems(
    bs: Seq<u8>,
    e: AbiType,
    base: nat,
    at: nat,
    n: nat,
    i: nat,
    acc: Seq<AbiValue>,
    total: nat,
)
    requires
        i <= n,
        acc.len() == i,
        total == i * head_size_of(e),
        forall|j: int|
            0 <= j < acc.len() ==> (#[trigger] acc[j]).type_of() == e && acc[j].well_typed(),
    ensures
        dec_elems(bs, e, base, at, n, i, acc, total) matches Decoded::Done((vs, t)) ==> {
            &&& vs.len() == n
            &&& forall|j: int|
                0 <= j < vs.len() ==> (#[trigger] vs[j]).type_of() == e && vs[j].well_typed()
            &&& t == n * head_size_of(e)
        },
    decreases e.height() + 1, 0nat, n - i,
{
    if i < n && at + total <= usize::MAX {
        law_decoded_type(bs, e, base, at + total);
        if let Decoded::Done((v, c)) = dec(bs, e, base, at + total) {
            if total + c <= usize::MAX {
                let acc2 = acc.push(v);
                assert forall|j: int| 0 <= j < acc2.len() implies (#[trigger] acc2[j]).type_of() == e
                    && acc2[j].well_typed() by {
                    if j < acc.len() {
                        assert(acc2[j] == acc[j]);
                    }
                }
                let h = head_size_of(e);
                assert(total + c == (i + 1) * h) by (nonlinear_arith)
                    requires
                        total == i * h,
                        c == h,
                ;
                lemma_decoded_elems(bs, e, base, at, n, i + 1, acc2, total + c);
            }
        }
    }
}

/// Values decoded for a list of types: one per type, each of its type.
pub proof fn law_decoded_types(bs: Seq<u8>, tys: Seq<AbiType>)
    ensures
        decode_values(bs, tys) matches Decoded::Done(vs) ==> {
            &&& vs.len() == tys.len()
            &&& forall|j: int| 0 <= j < vs.len() ==> (#[trigger] vs[j]).type_of() == tys[j]
        },
{
    lemma_decoded_list(bs, tys, 0, seq![], 0);
}

proof fn lemma_decoded_list(bs: Seq<u8>, tys: Seq<AbiType>, i: nat, acc: Seq<AbiValue>, at: nat)
    requires
        i <= tys.len(),
        acc.len() == i,
        forall|j: int| 0 <= j < acc.len() ==> (#[trigger] acc[j]).type_of() == tys[j],
    ensures
        dec_list(bs, tys, i, acc, at) matches Decoded::Done(vs) ==> {
            &&& vs.len() == tys.len()
            &&& forall|j: int| 0 <= j < vs.len() ==> (#[trigger] vs[j]).type_of() == tys[j]
        },
    decreases tys.len() - i,
{
    if i < tys.len() {
        law_decoded_type(bs, tys[i as int], 0, at);
        if let Decoded::Done((v, c)) = dec(bs, tys[i as int], 0, at) {
            if at + c <= usize::MAX {
                let acc2 = acc.push(v);
                assert forall|j: int| 0 <= j < acc2.len() implies (#[trigger] acc2[j]).type_of()
                    == tys[j] by {
                    if j < acc.len() {
                        assert(acc2[j] == acc[j]);
                    }
                }
                lemma_decoded_list(bs, tys, i + 1, acc2, at + c);
            }
        }
    }
}

/// `padded32(n)` is the least multiple of 32 that is at least `n`.
pub proof fn law_padded32(n: nat)
    ensures
        padded32(n) % 32 == 0,
        n <= padded32(n) < n + 32,
        n % 32 == 0 ==> padded32(n) == n,
{
}

/// The encoding of valid values that can be encoded is made of whole 32-byte words.
pub proof fn law_encoding_words(vals: Seq<AbiValue>)
    requires
        AbiValue::all_valid(vals),
        all_encodable(vals),
    ensures
        enc(vals).len() % 32 == 0,
{
    lemma_seq_words(vals);
    lemma_enc_len(vals);
}

#[verifier::spinoff_prover]
proof fn lemma_value_words(v: AbiValue)
    requires
        v.valid(),
        encodable(v),
    ensures
        !v.is_dyn() ==> enc_static(v).len() % 32 == 0,
        v.is_dyn() ==> enc_tail(v).len() % 32 == 0,
    decreases v, 1nat,
{
    match v {
        AbiValue::Uint(n, _) => {
            lemma_be_bytes_len(n, 32);
        },
        AbiValue::Int(n, _) => {
            lemma_be_bytes_len(n, 32);
        },
        AbiValue::String(s) => {
            let u = vstd::utf8::encode_utf8(s);
            lemma_be_bytes_len(u.len(), 32);
            law_padded32(u.len());
        },
        AbiValue::Bytes(b) => {
            lemma_be_bytes_len(b.len(), 32);
            law_padded32(b.len());
        },
        AbiValue::Array(vs, _) => {
            lemma_be_bytes_len(vs.len(), 32);
            lemma_seq_words(vs);
            lemma_enc_len(vs);
        },
        AbiValue::FixedArray(vs, _) => {
            lemma_seq_words(vs);
            lemma_enc_len(vs);
        },
        _ => {},
    }
}

proof fn lemma_seq_words(vals: Seq<AbiValue>)
    requires
        AbiValue::all_valid(vals),
        all_encodable(vals),
    ensures
        heads_len(vals) % 32 == 0,
        tails(vals).len() % 32 == 0,
    decreases vals, 0nat,
{
    if vals.len() > 0 {
        lemma_all_valid(vals, 0);
        lemma_all_encodable(vals, 0);
        lemma_value_words(vals[0]);
        lemma_seq_words(vals.drop_first());
    }
}

/// Replacing a value by one with the same head and tail encodings leaves the
/// encoding of the sequence unchanged.
proof fn lemma_replace_same_encoding(vals: Seq<AbiValue>, i: int, w: AbiValue)
    requires
        0 <= i < vals.len(),
        w.is_dyn() == vals[i].is_dyn(),
        enc_static(w) == enc_static(vals[i]),
        enc_tail(w) == enc_tail(vals[i]),
    ensures
        enc(vals.update(i, w)) == enc(vals),
{
    let v = vals[i];
    let pre = vals.take(i);
    let post = vals.skip(i + 1);
    let other = vals.update(i, w);
    assert(vals =~= pre + (seq![v] + post));
    assert(other =~= pre + (seq![w] + post));
    let h = heads_len(vals);
    lemma_concat(pre, seq![v] + post, h, 0, 0);
    lemma_concat(pre, seq![w] + post, h, 0, 0);
    let off = h + tails(pre).len();
    lemma_single(v, off, 0, 0);
    lemma_single(w, off, 0, 0);
    lemma_concat(seq![v], post, off, 0, 0);
    lemma_concat(seq![w], post, off, 0, 0);
    assert(heads_len(other) == h);
    assert(tails(other) == tails(vals));
    assert(heads_from(other, h) == heads_from(vals, h));
}

/// Signed and unsigned integers with the same bits have the same encoding.
pub proof fn law_int_encoded_as_uint(vals: Seq<AbiValue>, i: int)
    requires
        0 <= i < vals.len(),
        vals[i] is Int,
    ensures
        enc(vals.update(i, AbiValue::Uint(vals[i]->Int_0, vals[i]->Int_1))) == enc(vals),
{
    lemma_replace_same_encoding(vals, i, AbiValue::Uint(vals[i]->Int_0, vals[i]->Int_1));
}

/// A value of a dynamic type takes one word of the head area: its offset.
pub proof fn law_dynamic_head_is_one_word(bs: Seq<u8>, ty: AbiType, base: nat, at: nat)
    requires
        ty.is_dynamic(),
    ensures
        dec(bs, ty, base, at) matches Decoded::Done((_, c)) ==> c == 32,
{
    if ty is String {
        assert(dec(bs, AbiType::Bytes, base, base + at) matches Decoded::Done((_, c)) ==> c == 32);
    }
}

/// A value of a static type that takes some head bytes cannot be read past
/// `usize::MAX`.
proof fn lemma_static_past_end_panics(bs: Seq<u8>, t: AbiType, base: nat, at: nat)
    requires
        !t.is_dynamic(),
        head_size_of(t) > 0,
        base + at > usize::MAX,
    ensures
        dec(bs, t, base, at) is Panics,
    decreases t.height(),
{
    if let AbiType::FixedArray(u, m) = t {
        let h = head_size_of(*u);
        assert(m > 0 && h > 0) by (nonlinear_arith)
            requires
                m as nat * h > 0,
        ;
        if at <= usize::MAX {
            lemma_static_past_end_panics(bs, *u, base, at);
        }
        assert(dec_elems(bs, *u, base, at, m as nat, 0, seq![], 0) is Panics);
    }
}

/// Decoding a value of a static type at `base + at` does not depend on how
/// the position is split between `base` and `at`.
pub proof fn law_static_position(bs: Seq<u8>, ty: AbiType, base: nat, at: nat)
    requires
        !ty.is_dynamic(),
        base + at <= usize::MAX,
    ensures
        dec(bs, ty, base, at) == dec(bs, ty, 0, base + at),
    decreases ty.height(), kind_rank(ty), 0nat,
{
    if let AbiType::FixedArray(e, n) = ty {
        lemma_static_position_elems(bs, *e, base, at, n as nat, 0, seq![], 0);
    }
}

proof fn lemma_static_position_elems(
    bs: Seq<u8>,
    e: AbiType,
    base: nat,
    at: nat,
    n: nat,
    i: nat,
    acc: Seq<AbiValue>,
    total: nat,
)
    requires
        !e.is_dynamic(),
        base + at <= usize::MAX,
        head_size_of(e) == 0 ==> total == 0,
    ensures
        dec_elems(bs, e, base, at, n, i, acc, total) == dec_elems(bs, e, 0, base + at, n, i, acc, total),
    decreases e.height() + 1, 0nat, n - i,
{
    if i < n {
        if at + total <= usize::MAX {
            if base + at + total > usize::MAX {
                lemma_static_past_end_panics(bs, e, base, at + total);
            } else {
                law_static_position(bs, e, base, at + total);
                law_decoded_type(bs, e, base, at + total);
                if let Decoded::Done((v, c)) = dec(bs, e, base, at + total) {
                    if total + c <= usize::MAX {
                        lemma_static_position_elems(bs, e, base, at, n, i + 1, acc.push(v), total + c);
                    }
                }
            }
        }
    }
}

/// The elements of a decoded array of a static element type `e` whose length
/// word lies at `q`: element `i` is the value of type `e` read at
/// `q + 32 + i * h`, where `h` is the size of `e`.
pub proof fn law_array_elements(bs: Seq<u8>, e: AbiType, base: nat, at: nat)
    requires
        !e.is_dynamic(),
    ensures
        dec(bs, AbiType::Array(Box::new(e)), base, at) matches Decoded::Done((AbiValue::Array(vs, _), _))
            ==> {
            let q = base + usize_at(bs, base + at)->Some_0;
            let h = head_size_of(e);
            forall|i: int|
                0 <= i < vs.len() ==> {
                    &&& dec(bs, e, q, (32 + i * h) as nat) == Decoded::Done((#[trigger] vs[i], h))
                    &&& dec(bs, e, 0, (q + 32 + i * h) as nat) == Decoded::Done((vs[i], h))
                }
        },
{
    let ty = AbiType::Array(Box::new(e));
    if let Decoded::Done((AbiValue::Array(vs, _), _)) = dec(bs, ty, base, at) {
        let off = usize_at(bs, base + at)->Some_0;
        let q = base + off;
        let len = usize_at(bs, q)->Some_0;
        let h = head_size_of(e);
        lemma_element_positions(bs, e, q, 32, len, 0, seq![], 0);
        assert(len as usize as nat == len);
        let fa = AbiType::FixedArray(Box::new(e), len as usize);
        assert(dec(bs, fa, q, 32) matches Decoded::Done((AbiValue::FixedArray(ws, _), _)) && ws == vs);
        assert(dec_elems(bs, e, q, 32, len, 0, seq![], 0) matches Decoded::Done((ws, _)) && ws == vs);
        assert forall|i: int| 0 <= i < vs.len() implies {
            &&& dec(bs, e, q, (32 + i * h) as nat) == Decoded::Done((#[trigger] vs[i], h))
            &&& dec(bs, e, 0, (q + 32 + i * h) as nat) == Decoded::Done((vs[i], h))
        } by {
            assert(dec(bs, e, q, (32 + i * h) as nat) == Decoded::Done((vs[i], h)));
            if h > 0 && q + 32 + i * h > usize::MAX {
                lemma_static_past_end_panics(bs, e, q, (32 + i * h) as nat);
            }
            assert(i * h >= 0) by (nonlinear_arith)
                requires
                    i >= 0,
                    h >= 0,
            ;
            if h == 0 {
                assert(i * h == 0) by (nonlinear_arith)
                    requires
                        h == 0,
                ;
            }
            law_static_position(bs, e, q, (32 + i * h) as nat);
        }
    }
}

/// Where the elements of a fixed array of a static type are read.
proof fn lemma_element_positions(
    bs: Seq<u8>,
    e: AbiType,
    base: nat,
    at: nat,
    n: nat,
    i: nat,
    acc: Seq<AbiValue>,
    total: nat,
)
    requires
        !e.is_dynamic(),
        i <= n,
        acc.len() == i,
        total == i * head_size_of(e),
    ensures
        dec_elems(bs, e, base, at, n, i, acc, total) matches Decoded::Done((vs, _)) ==> {
            &&& vs.len() == n
            &&& vs.take(i as int) == acc
            &&& forall|j: int|
                i <= j < vs.len() ==> dec(bs, e, base, (at + j * head_size_of(e)) as nat)
                    == Decoded::Done((#[trigger] vs[j], head_size_of(e)))
        },
    decreases n - i,
{
    let h = head_size_of(e);
    if i < n && at + total <= usize::MAX {
        law_decoded_type(bs, e, base, at + total);
        if let Decoded::Done((v, c)) = dec(bs, e, base, at + total) {
            if total + c <= usize::MAX {
                assert(total + c == (i + 1) * h) by (nonlinear_arith)
                    requires
                        total == i * h,
                        c == h,
                ;
                lemma_element_positions(bs, e, base, at, n, i + 1, acc.push(v), total + c);
                if let Decoded::Done((vs, _)) = dec_elems(bs, e, base, at, n, i, acc, total) {
                    assert(vs.take((i + 1) as int) == acc.push(v));
                    assert(vs.take(i as int) =~= vs.take((i + 1) as int).drop_last());
                    assert(vs[i as int] == vs.take((i + 1) as int)[i as int]);
                }
            }
        }
    } else if i >= n {
        if let Decoded::Done((vs, _)) = dec_elems(bs, e, base, at, n, i, acc, total) {
            assert(vs.take(i as int) =~= acc);
        }
    }
}

/// `v` with every string, at any depth, replaced by the byte string of its
/// UTF-8 encoding.
pub open spec fn strings_as_bytes(v: AbiValue) -> AbiValue
    decreases v, 0nat,
{
    match v {
        AbiValue::String(s) => AbiValue::Bytes(vstd::utf8::encode_utf8(s)),
        AbiValue::FixedArray(vs, t) => AbiValue::FixedArray(all_strings_as_bytes(vs), t),
        AbiValue::Array(vs, t) => AbiValue::Array(all_strings_as_bytes(vs), t),
        AbiValue::Tuple(vs) => AbiValue::Tuple(all_strings_as_bytes(vs)),
        _ => v,
    }
}

/// `strings_as_bytes` applied to each value of a sequence.
pub open spec fn all_strings_as_bytes(vs: Seq<AbiValue>) -> Seq<AbiValue>
    decreases vs, 1nat,
{
    if vs.len() == 0 {
        seq![]
    } else {
        seq![strings_as_bytes(vs[0])] + all_strings_as_bytes(vs.drop_first())
    }
}

proof fn lemma_strings_as_bytes_value(v: AbiValue)
    ensures
        strings_as_bytes(v).is_dyn() == v.is_dyn(),
        enc_static(strings_as_bytes(v)) == enc_static(v),
        enc_tail(strings_as_bytes(v)) == enc_tail(v),
    decreases v, 1nat,
{
    match v {
        AbiValue::FixedArray(vs, t) => {
            lemma_strings_as_bytes_seq(vs, heads_len(vs));
        },
        AbiValue::Array(vs, t) => {
            lemma_strings_as_bytes_seq(vs, heads_len(vs));
        },
        _ => {},
    }
}

proof fn lemma_strings_as_bytes_seq(vs: Seq<AbiValue>, off: nat)
    ensures
        all_strings_as_bytes(vs).len() == vs.len(),
        heads_len(all_strings_as_bytes(vs)) == heads_len(vs),
        tails(all_strings_as_bytes(vs)) == tails(vs),
        heads_from(all_strings_as_bytes(vs), off) == heads_from(vs, off),
        enc(all_strings_as_bytes(vs)) == enc(vs),
    decreases vs, 0nat,
{
    let ws = all_strings_as_bytes(vs);
    if vs.len() > 0 {
        let v = vs[0];
        lemma_strings_as_bytes_value(v);
        let off1 = if v.is_dyn() {
            off + enc_tail(v).len()
        } else {
            off
        };
        lemma_strings_as_bytes_seq(vs.drop_first(), off1);
        lemma_strings_as_bytes_seq(vs.drop_first(), heads_len(vs.drop_first()));
        assert(ws[0] == strings_as_bytes(v));
        assert(ws.drop_first() =~= all_strings_as_bytes(vs.drop_first()));
        assert(heads_len(ws) == heads_len(vs));
        assert(tails(ws) == tails(vs));
        assert(heads_from(ws, off) == heads_from(vs, off));
        lemma_strings_as_bytes_seq(vs.drop_first(), off1);
        assert(heads_from(ws, heads_len(vs)) == heads_from(vs, heads_len(vs))) by {
            let o = heads_len(vs);
            let o1 = if v.is_dyn() {
                o + enc_tail(v).len()
            } else {
                o
            };
            lemma_strings_as_bytes_seq(vs.drop_first(), o1);
        }
    }
}

/// Strings, at any depth, are encoded as the byte strings of their UTF-8 encoding.
pub proof fn law_strings_encoded_as_bytes(vals: Seq<AbiValue>)
    ensures
        enc(all_strings_as_bytes(vals)) == enc(vals),
{
    lemma_strings_as_bytes_seq(vals, 0);
}

/// A sequence of static values is encoded as the concatenation of the
/// in-place encodings of its parts.
pub proof fn law_static_concat(a: Seq<AbiValue>, b: Seq<AbiValue>)
    requires
        all_static(a),
        all_static(b),
    ensures
        enc(a + b) == enc(a) + enc(b),
        enc(a) == pre_heads(a),
{
    assert(all_static(a + b)) by {
        assert forall|i: int| 0 <= i < (a + b).len() implies !(#[trigger] (a + b)[i]).is_dyn() by {
            if i < a.len() {
                assert((a + b)[i] == a[i]);
            } else {
                assert((a + b)[i] == b[i - a.len()]);
            }
        }
    }
    lemma_all_static(a, heads_len(a), 0, 0);
    lemma_all_static(b, heads_len(b), 0, 0);
    lemma_all_static(a + b, heads_len(a + b), 0, 0);
    lemma_concat(a, b, 0, 0, 0);
}

/// A fixed array of a static element type is encoded as its elements are.
pub proof fn law_static_fixed_array(xs: Seq<AbiValue>, t: AbiType)
    requires
        !t.is_dynamic(),
    ensures
        enc(seq![AbiValue::FixedArray(xs, t)]) == enc(xs),
{
    let v = AbiValue::FixedArray(xs, t);
    lemma_single(v, heads_len(seq![v]), 0, 0);
}

/// The head-area size of a value.
pub open spec fn head_len_of(v: AbiValue) -> nat
    decreases v, 0nat,
{
    if v.is_dyn() {
        32
    } else {
        match v {
            AbiValue::FixedArray(ys, _) => enc_len(ys),
            _ => 32,
        }
    }
}

/// The tail-area size of a dynamic value.
pub open spec fn tail_len_of(v: AbiValue) -> nat
    decreases v, 0nat,
{
    match v {
        AbiValue::String(s) => 32 + padded32(vstd::utf8::encode_utf8(s).len()),
        AbiValue::Bytes(b) => 32 + padded32(b.len()),
        AbiValue::Array(ys, _) => 32 + enc_len(ys),
        AbiValue::FixedArray(ys, _) => enc_len(ys),
        _ => 0,
    }
}

/// The size of the encoding of a sequence: the head sizes of all values plus
/// the tail sizes of the dynamic ones.
pub open spec fn enc_len(vals: Seq<AbiValue>) -> nat
    decreases vals, 1nat,
{
    if vals.len() == 0 {
        0
    } else {
        head_len_of(vals[0]) + (if vals[0].is_dyn() {
            tail_len_of(vals[0])
        } else {
            0
        }) + enc_len(vals.drop_first())
    }
}

/// The encoding of valid values that can be encoded has size `enc_len`.
pub proof fn law_encoding_length(vals: Seq<AbiValue>)
    requires
        AbiValue::all_valid(vals),
        all_encodable(vals),
    ensures
        enc(vals).len() == enc_len(vals),
{
    lemma_seq_len(vals);
    lemma_enc_len(vals);
}

#[verifier::spinoff_prover]
proof fn lemma_value_len(v: AbiValue)
    requires
        v.valid(),
        encodable(v),
    ensures
        !v.is_dyn() ==> enc_static(v).len() == head_len_of(v),
        v.is_dyn() ==> enc_tail(v).len() == tail_len_of(v),
    decreases v, 1nat,
{
    match v {
        AbiValue::Uint(n, _) => {
            lemma_be_bytes_len(n, 32);
        },
        AbiValue::Int(n, _) => {
            lemma_be_bytes_len(n, 32);
        },
        AbiValue::String(s) => {
            let u = vstd::utf8::encode_utf8(s);
            lemma_be_bytes_len(u.len(), 32);
            law_padded32(u.len());
        },
        AbiValue::Bytes(b) => {
            lemma_be_bytes_len(b.len(), 32);
            law_padded32(b.len());
        },
        AbiValue::Array(vs, _) => {
            lemma_be_bytes_len(vs.len(), 32);
            lemma_seq_len(vs);
            lemma_enc_len(vs);
        },
        AbiValue::FixedArray(vs, _) => {
            lemma_seq_len(vs);
            lemma_enc_len(vs);
        },
        _ => {},
    }
}

proof fn lemma_seq_len(vals: Seq<AbiValue>)
    requires
        AbiValue::all_valid(vals),
        all_encodable(vals),
    ensures
        heads_len(vals) + tails(vals).len() == enc_len(vals),
    decreases vals, 0nat,
{
    if vals.len() > 0 {
        lemma_all_valid(vals, 0);
        lemma_all_encodable(vals, 0);
        let v = vals[0];
        let rest = vals.drop_first();
        lemma_value_len(v);
        lemma_seq_len(rest);
        assert(heads_len(vals) == head_size(v) + heads_len(rest));
        assert(tails(vals) == (if v.is_dyn() {
            enc_tail(v)
        } else {
            Seq::<u8>::empty()
        }) + tails(rest));
        assert(enc_len(vals) == head_len_of(v) + (if v.is_dyn() {
            tail_len_of(v)
        } else {
            0
        }) + enc_len(rest));
    }
}

/// Reading an integer, a boolean or an address at `p = base + at`: the word
/// at `p`, whether that word is 1, and the last 20 bytes of that word. No
/// other check is made.
pub proof fn law_decoded_scalars(bs: Seq<u8>, base: nat, at: nat, size: usize)
    requires
        base + at + 32 <= bs.len(),
        bs.len() <= usize::MAX,
    ensures
        ({
            let p = base + at;
            let w = be_value(bs.subrange(p as int, (p + 32) as int));
            &&& dec(bs, AbiType::Uint(size), base, at) == Decoded::Done((AbiValue::Uint(w, size), 32nat))
            &&& dec(bs, AbiType::Int(size), base, at) == Decoded::Done((AbiValue::Int(w, size), 32nat))
            &&& dec(bs, AbiType::Bool, base, at) == Decoded::Done((AbiValue::Bool(w == 1), 32nat))
            &&& dec(bs, AbiType::Address, base, at) == Decoded::Done(
                (AbiValue::Address(bs.subrange((p + 12) as int, (p + 32) as int)), 32nat),
            )
        }),
{
}

/// The bytes `x` lie in `bs` from position `p` on.
pub open spec fn holds_at(bs: Seq<u8>, p: nat, x: Seq<u8>) -> bool {
    &&& p + x.len() <= bs.len()
    &&& bs.subrange(p as int, (p + x.len()) as int) == x
}

/// The number held, most significant byte first, by the 32 bytes of `bs`
/// from position `p` on.
pub open spec fn word_in(bs: Seq<u8>, p: nat) -> nat {
    be_value(bs.subrange(p as int, (p + 32) as int))
}

/// The byte string `u` lies in `bs` at `o`: a word holding its length, its
/// bytes, then zeros up to a multiple of 32 bytes.
pub open spec fn byte_string_at(bs: Seq<u8>, o: nat, u: Seq<u8>) -> bool {
    &&& o + 32 <= bs.len()
    &&& word_in(bs, o) == u.len()
    &&& holds_at(bs, o + 32, u)
    &&& holds_at(bs, o + 32 + u.len(), zeros((padded32(u.len()) - u.len()) as nat))
}

/// How many bytes a value takes in the head area: the encoding of its
/// elements for a fixed array of a static type, one word for anything else.
pub open spec fn head_width(v: AbiValue) -> nat {
    match v {
        AbiValue::FixedArray(vs, t) => if t.is_dynamic() {
            32
        } else {
            enc(vs).len()
        },
        _ => 32,
    }
}

/// Where the head of the value at index `i` starts: the head widths of the
/// values before it, added up.
pub open spec fn head_pos(vals: Seq<AbiValue>, i: int) -> nat
    decreases i,
{
    if i <= 0 {
        0
    } else {
        head_pos(vals, i - 1) + head_width(vals[i - 1])
    }
}

/// The value `v`, with its head at position `p` of the encoding `bs`: an
/// integer is the word there; a boolean is the word 1 or 0; an address is 12
/// zero bytes then its 20 bytes; `k` fixed bytes are followed by `32 - k`
/// zeros; a fixed array of a static type is the encoding of its elements in
/// place. For the others the word at `p` is an offset `o` into `bs`: at `o`
/// a string lies as its UTF-8 bytes, a byte string as itself, a dynamic array
/// as a word holding its number of elements followed by the encoding of its
/// elements, and a fixed array of a dynamic type as the encoding of its
/// elements.
pub open spec fn placed_at(bs: Seq<u8>, p: nat, v: AbiValue) -> bool {
    match v {
        AbiValue::Uint(n, _) => p + 32 <= bs.len() && word_in(bs, p) == n,
        AbiValue::Int(n, _) => p + 32 <= bs.len() && word_in(bs, p) == n,
        AbiValue::Bool(b) => p + 32 <= bs.len() && word_in(bs, p) == (if b {
            1nat
        } else {
            0nat
        }),
        AbiValue::Address(a) => holds_at(bs, p, zeros(12)) && holds_at(bs, p + 12, a),
        AbiValue::FixedBytes(b) => holds_at(bs, p, b) && holds_at(
            bs,
            p + b.len(),
            zeros((32 - b.len()) as nat),
        ),
        AbiValue::String(s) => p + 32 <= bs.len() && byte_string_at(
            bs,
            word_in(bs, p),
            vstd::utf8::encode_utf8(s),
        ),
        AbiValue::Bytes(b) => p + 32 <= bs.len() && byte_string_at(bs, word_in(bs, p), b),
        AbiValue::Array(vs, _) => {
            &&& p + 32 <= bs.len()
            &&& word_in(bs, p) + 32 <= bs.len()
            &&& word_in(bs, word_in(bs, p)) == vs.len()
            &&& holds_at(bs, word_in(bs, p) + 32, enc(vs))
        },
        AbiValue::FixedArray(vs, t) => if t.is_dynamic() {
            p + 32 <= bs.len() && holds_at(bs, word_in(bs, p), enc(vs))
        } else {
            holds_at(bs, p, enc(vs))
        },
        AbiValue::Tuple(_) => false,
    }
}

/// The tail sizes of the dynamic values before index `i`, added up.
pub open spec fn tails_before(vals: Seq<AbiValue>, i: int) -> nat
    decreases i,
{
    if i <= 0 {
        0
    } else {
        tails_before(vals, i - 1) + (if vals[i - 1].is_dyn() {
            tail_len_of(vals[i - 1])
        } else {
            0
        })
    }
}

/// `tails_before` is the size of the tails of the values before index `i`.
proof fn lemma_tails_before(vals: Seq<AbiValue>, i: int)
    requires
        AbiValue::all_valid(vals),
        all_encodable(vals),
        0 <= i <= vals.len(),
    ensures
        tails(vals.take(i)).len() == tails_before(vals, i),
    decreases i,
{
    if i == 0 {
        assert(vals.take(0) =~= Seq::<AbiValue>::empty());
    } else {
        let v = vals[i - 1];
        lemma_tails_before(vals, i - 1);
        assert(vals.take(i) =~= vals.take(i - 1) + seq![v]);
        lemma_concat(vals.take(i - 1), seq![v], 0, 0, 0);
        lemma_single(v, 0, 0, 0);
        lemma_all_valid(vals, i - 1);
        lemma_all_encodable(vals, i - 1);
        lemma_value_len(v);
    }
}

/// Where the three parts of `a + b + c` lie when the whole lies at `x`.
proof fn lemma_split3(bs: Seq<u8>, x: nat, a: Seq<u8>, b: Seq<u8>, c: Seq<u8>)
    requires
        holds_at(bs, x, a + b + c),
    ensures
        holds_at(bs, x, a),
        holds_at(bs, x + a.len(), b),
        holds_at(bs, x + a.len() + b.len(), c),
{
    let e = Seq::<u8>::empty();
    assert(e + a + (b + c) =~= a + b + c);
    lemma_sub_mid(bs, x as int, e, a, b + c);
    lemma_sub_mid(bs, x as int, a, b, c);
    assert(a + b + c + e =~= a + b + c);
    lemma_sub_mid(bs, x as int, a + b, c, e);
}

/// A valid value that can be encoded takes `head_width` head bytes.
proof fn lemma_head_width(v: AbiValue)
    requires
        v.valid(),
        encodable(v),
    ensures
        head_width(v) == head_size(v),
{
    match v {
        AbiValue::Uint(n, _) => lemma_be_bytes_len(n, 32),
        AbiValue::Int(n, _) => lemma_be_bytes_len(n, 32),
        _ => {},
    }
}

/// `head_pos` is the size of the heads of the values before index `i`.
proof fn lemma_head_pos(vals: Seq<AbiValue>, i: int)
    requires
        AbiValue::all_valid(vals),
        all_encodable(vals),
        0 <= i <= vals.len(),
    ensures
        head_pos(vals, i) == heads_len(vals.take(i)),
    decreases i,
{
    if i == 0 {
        assert(vals.take(0) =~= Seq::<AbiValue>::empty());
    } else {
        lemma_head_pos(vals, i - 1);
        lemma_prefix_step(vals, i - 1);
        lemma_all_valid(vals, i - 1);
        lemma_all_encodable(vals, i - 1);
        lemma_head_width(vals[i - 1]);
    }
}

/// One value of a laid-out sequence, with its head at `pi` and, when it is
/// dynamic, its tail at `ti`, is placed as `placed_at` says.
#[verifier::spinoff_prover]
proof fn lemma_placed(bs: Seq<u8>, pi: nat, ti: nat, v: AbiValue)
    requires
        v.valid(),
        encodable(v),
        bs.len() <= usize::MAX,
        !v.is_dyn() ==> holds_at(bs, pi, enc_static(v)),
        v.is_dyn() ==> {
            &&& holds_at(bs, pi, word(ti))
            &&& holds_at(bs, ti, enc_tail(v))
        },
    ensures
        placed_at(bs, pi, v),
        v.is_dyn() ==> word_in(bs, pi) == ti,
{
    let e = Seq::<u8>::empty();
    if v.is_dyn() {
        lemma_word_roundtrip(ti);
    }
    match v {
        AbiValue::Uint(n, _) => lemma_word_roundtrip(n),
        AbiValue::Int(n, _) => lemma_word_roundtrip(n),
        AbiValue::Bool(b) => {
            let w = enc_static(v);
            assert(w.drop_last() =~= zeros(31));
            lemma_be_zeros(31);
        },
        AbiValue::Address(a) => {
            lemma_split3(bs, pi, zeros(12), a, e);
        },
        AbiValue::FixedBytes(b) => {
            lemma_split3(bs, pi, b, zeros((32 - b.len()) as nat), e);
        },
        AbiValue::String(s) => {
            let u = vstd::utf8::encode_utf8(s);
            lemma_split3(bs, ti, word(u.len()), u, zeros((padded32(u.len()) - u.len()) as nat));
            lemma_be_bytes_len(u.len(), 32);
            lemma_word_roundtrip(u.len());
        },
        AbiValue::Bytes(b) => {
            lemma_split3(bs, ti, word(b.len()), b, zeros((padded32(b.len()) - b.len()) as nat));
            lemma_be_bytes_len(b.len(), 32);
            lemma_word_roundtrip(b.len());
        },
        AbiValue::Array(vs, _) => {
            lemma_split3(bs, ti, word(vs.len()), enc(vs), e);
            lemma_word_roundtrip(vs.len());
        },
        _ => {},
    }
}

/// Where each value lies in the encoding of a sequence of valid values. The
/// heads come one after another from the start, each `head_width` bytes
/// wide, and each value is placed as `placed_at` says: scalars and fixed
/// arrays of a static type in place, every other value through a head word
/// that holds the offset, from the start of the encoding, of its tail. The
/// tails come one after another, in the order of the values, right after
/// the head area. A dynamic array's tail is a word holding its
/// number of elements followed by the encoding of its elements, and a fixed
/// array of a dynamic type has the encoding of its elements as its tail,
/// whatever the element type; the same then holds, by this law, within each
/// such encoding of elements.
pub proof fn law_encoding_layout(vals: Seq<AbiValue>)
    requires
        AbiValue::all_valid(vals),
        all_encodable(vals),
        enc(vals).len() <= usize::MAX,
    ensures
        forall|i: int|
            0 <= i < vals.len() ==> {
                &&& placed_at(enc(vals), head_pos(vals, i), #[trigger] vals[i])
                &&& vals[i].is_dyn() ==> word_in(enc(vals), head_pos(vals, i)) == head_pos(
                    vals,
                    vals.len() as int,
                ) + tails_before(vals, i)
            },
{
    let bs = enc(vals);
    let h = heads_len(vals);
    lemma_heads_size(vals, h);
    assert(bs.subrange(0, h as int) =~= heads_from(vals, h));
    assert(bs.subrange(h as int, (h + tails(vals).len()) as int) =~= tails(vals));
    assert(laid_out(bs, 0, 0, vals));
    lemma_head_pos(vals, vals.len() as int);
    assert(vals.take(vals.len() as int) =~= vals);
    assert forall|i: int| 0 <= i < vals.len() implies {
        &&& placed_at(bs, head_pos(vals, i), #[trigger] vals[i])
        &&& vals[i].is_dyn() ==> word_in(bs, head_pos(vals, i)) == head_pos(vals, vals.len() as int)
            + tails_before(vals, i)
    } by {
        lemma_laid_out_elem(bs, 0, 0, vals, i);
        lemma_head_pos(vals, i);
        lemma_tails_before(vals, i);
        lemma_all_valid(vals, i);
        lemma_all_encodable(vals, i);
        let pi = heads_len(vals.take(i));
        let ti = heads_len(vals) + tails(vals.take(i)).len();
        lemma_placed(bs, pi, ti, vals[i]);
    }
}

/// A value's type is dynamic exactly when the value goes to the tail area.
/// The type of an array value is the array type of the element type it was
/// made with, whatever that element type is (an array type too), one level
/// higher than it; the type of a fixed array also carries its number of
/// elements, and is dynamic exactly when its element type is.
pub proof fn law_type_of(v: AbiValue)
    requires
        v.valid(),
    ensures
        v.type_of().is_dynamic() == v.is_dyn(),
        v matches AbiValue::Array(xs, t) ==> {
            &&& v.type_of() == AbiType::Array(Box::new(t))
            &&& v.type_of().height() == t.height() + 1
            &&& v.type_of().is_dynamic()
        },
        v matches AbiValue::FixedArray(xs, t) ==> {
            &&& v.type_of() is FixedArray
            &&& *v.type_of()->FixedArray_0 == t
            &&& v.type_of()->FixedArray_1 == xs.len()
            &&& v.type_of().height() == t.height() + 1
            &&& v.type_of().is_dynamic() == t.is_dynamic()
        },
{
    lemma_dyn_type(v);
}

} // verus!
