//! 256-bit words: big-endian byte strings and the calls into `ethereum_types`.
use vstd::prelude::*;
use vstd::arithmetic::div_mod::lemma_breakdown;

verus! {

/// `256^k`.
pub open spec fn pow256(k: nat) -> nat
    decreases k,
{
    if k == 0 {
        1
    } else {
        256 * pow256((k - 1) as nat)
    }
}

/// The last `k` base-256 digits of `n`, most significant first.
pub open spec fn be_bytes(n: nat, k: nat) -> Seq<u8>
    decreases k,
{
    if k == 0 {
        seq![]
    } else {
        be_bytes(n / 256, (k - 1) as nat).push((n % 256) as u8)
    }
}

/// The number whose base-256 digits, most significant first, are `s`.
pub open spec fn be_value(s: Seq<u8>) -> nat
    decreases s.len(),
{
    if s.len() == 0 {
        0
    } else {
        be_value(s.drop_last()) * 256 + s.last() as nat
    }
}

/// The 32-byte big-endian word holding `n`.
pub open spec fn word(n: nat) -> Seq<u8> {
    be_bytes(n, 32)
}

/// `2^256`.
pub open spec fn word_modulus() -> nat {
    0x1_0000_0000_0000_0000_0000_0000_0000_0000_0000_0000_0000_0000_0000_0000_0000_0000nat
}

pub proof fn lemma_pow256_positive(k: nat)
    ensures
        pow256(k) > 0,
    decreases k,
{
    if k > 0 {
        lemma_pow256_positive((k - 1) as nat);
    }
}

pub proof fn lemma_pow256_32()
    ensures
        pow256(32) == word_modulus(),
{
    reveal_with_fuel(pow256, 33);
}

pub proof fn lemma_be_bytes_len(n: nat, k: nat)
    ensures
        be_bytes(n, k).len() == k,
    decreases k,
{
    if k > 0 {
        lemma_be_bytes_len(n / 256, (k - 1) as nat);
    }
}

/// Reading back the last `k` digits of `n` gives `n` modulo `256^k`.
pub proof fn lemma_be_value_of_bytes(n: nat, k: nat)
    ensures
        be_value(be_bytes(n, k)) == n % pow256(k),
    decreases k,
{
    if k == 0 {
        assert(n % 1 == 0) by (nonlinear_arith);
    } else {
        let k1 = (k - 1) as nat;
        lemma_be_value_of_bytes(n / 256, k1);
        lemma_pow256_positive(k1);
        let s = be_bytes(n, k);
        assert(s.drop_last() =~= be_bytes(n / 256, k1));
        lemma_breakdown(n as int, 256, pow256(k1) as int);
    }
}

/// Reading a word written from `n < 2^256` gives back `n`.
pub proof fn lemma_word_roundtrip(n: nat)
    requires
        n < word_modulus(),
    ensures
        word(n).len() == 32,
        be_value(word(n)) == n,
{
    lemma_be_bytes_len(n, 32);
    lemma_be_value_of_bytes(n, 32);
    lemma_pow256_32();
    vstd::arithmetic::div_mod::lemma_small_mod(n, word_modulus());
}

/// An unsigned 256-bit integer, held as four 64-bit limbs, least significant first.
#[derive(Clone, Copy, Debug, PartialEq, Eq)]
pub struct Uint256 {
    pub limbs: [u64; 4],
}

impl Uint256 {
    /// The number this word stands for.
    pub open spec fn value(&self) -> nat {
        self.limbs@[0] as nat + self.limbs@[1] as nat * 0x1_0000_0000_0000_0000nat + self.limbs@[2] as nat
            * 0x1_0000_0000_0000_0000_0000_0000_0000_0000nat + self.limbs@[3] as nat
            * 0x1_0000_0000_0000_0000_0000_0000_0000_0000_0000_0000_0000_0000nat
    }
}

impl View for Uint256 {
    type V = nat;

    open spec fn view(&self) -> nat {
        self.value()
    }
}

/// The value of every word is below `2^256`.
pub proof fn lemma_uint256_bound(x: Uint256)
    ensures
        x@ < word_modulus(),
{
    broadcast use vstd::array::group_array_axioms;
    let a = x.limbs@[0] as nat;
    let b = x.limbs@[1] as nat;
    let c = x.limbs@[2] as nat;
    let d = x.limbs@[3] as nat;
    assert(a + b * 0x1_0000_0000_0000_0000nat + c * 0x1_0000_0000_0000_0000_0000_0000_0000_0000nat + d
        * 0x1_0000_0000_0000_0000_0000_0000_0000_0000_0000_0000_0000_0000nat
        < 0x1_0000_0000_0000_0000_0000_0000_0000_0000_0000_0000_0000_0000_0000_0000_0000_0000nat)
        by (nonlinear_arith)
        requires
            a < 0x1_0000_0000_0000_0000nat,
            b < 0x1_0000_0000_0000_0000nat,
            c < 0x1_0000_0000_0000_0000nat,
            d < 0x1_0000_0000_0000_0000nat,
    ;
}

/// Calls `U256::to_big_endian` of `ethereum_types` on the word with these limbs.
/// Claimed: the 32 bytes written are the big-endian digits of the word's value.
#[verifier::external_body]
pub(crate) fn u256_to_big_endian(x: &Uint256) -> (res: [u8; 32])
    ensures
        res@ == word(x@),
{
    let mut out = [0u8; 32];
    ethereum_types::U256(x.limbs).to_big_endian(&mut out);
    out
}

/// Calls `U256::from_big_endian` of `ethereum_types`, which panics on more than 32 bytes.
/// Claimed: the word's value is the number whose big-endian digits are the given bytes.
#[verifier::external_body]
pub(crate) fn u256_from_big_endian(bytes: &[u8]) -> (res: Uint256)
    requires
        bytes@.len() <= 32,
    ensures
        res@ == be_value(bytes@),
{
    Uint256 { limbs: ethereum_types::U256::from_big_endian(bytes).0 }
}

/// Calls `<U256 as From<usize>>::from` of `ethereum_types`.
/// Claimed: the word's value is `n`.
#[verifier::external_body]
pub(crate) fn u256_from_usize(n: usize) -> (res: Uint256)
    ensures
        res@ == n as nat,
{
    Uint256 { limbs: ethereum_types::U256::from(n).0 }
}

/// Calls `U256::as_usize` of `ethereum_types`, which panics when the value exceeds `usize::MAX`.
/// Claimed: the result is the word's value.
#[verifier::external_body]
pub(crate) fn u256_as_usize(x: &Uint256) -> (res: usize)
    requires
        x@ <= usize::MAX,
    ensures
        res as nat == x@,
{
    ethereum_types::U256(x.limbs).as_usize()
}

/// Compares the word with `U256::one()` by `ethereum_types`'s `==`.
/// Claimed: true exactly when the word's value is 1.
#[verifier::external_body]
pub(crate) fn u256_is_one(x: &Uint256) -> (res: bool)
    ensures
        res == (x@ == 1),
{
    ethereum_types::U256(x.limbs) == ethereum_types::U256::one()
}

/// Calls `H160::from_slice` of `ethereum_types`, which panics unless given 20 bytes.
/// Claimed: the address holds the given bytes.
#[verifier::external_body]
pub(crate) fn h160_from_slice(bytes: &[u8]) -> (res: [u8; 20])
    requires
        bytes@.len() == 20,
    ensures
        res@ == bytes@,
{
    ethereum_types::H160::from_slice(bytes).0
}

} // verus!
