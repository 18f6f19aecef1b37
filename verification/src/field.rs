//! Elements of the prime scalar field of BLS12-381.
//!
//! A field element is kept as its canonical little-endian byte encoding, so
//! its mathematical value is a plain number below the field order.  The
//! arithmetic itself is done by `bls12_381::Scalar` behind trusted wrappers
//! whose contracts state the result as modular arithmetic on those values.

use vstd::arithmetic::div_mod::{
    lemma_add_mod_noop, lemma_add_mod_noop_right, lemma_fundamental_div_mod_converse,
    lemma_mod_mod, lemma_mul_mod_noop_general, lemma_small_mod,
};
use vstd::arithmetic::mul::{lemma_mul_is_associative, lemma_mul_is_distributive_add};
use vstd::prelude::*;

use bls12_381::Scalar;
use rand::RngCore;

verus! {

/// The order of the scalar field: the prime
/// `0x73eda753299d7d483339d80809a1d80553bda402fffe5bfeffffffff00000001`.
pub open spec fn fr_order() -> nat {
    0x73eda753299d7d483339d80809a1d80553bda402fffe5bfeffffffff00000001nat
}

/// The number a byte sequence denotes in little-endian base 256.
pub open spec fn le_bytes_val(s: Seq<u8>) -> nat
    decreases s.len(),
{
    if s.len() == 0 {
        0
    } else {
        s[0] as nat + 256 * le_bytes_val(s.drop_first())
    }
}

/// A value that can stand for a field element.
pub open spec fn in_field(a: nat) -> bool {
    a < fr_order()
}

/// Addition in the field, on values.
pub open spec fn fadd(a: nat, b: nat) -> nat {
    (a + b) % fr_order()
}

/// Multiplication in the field, on values.
pub open spec fn fmul(a: nat, b: nat) -> nat {
    (a * b) % fr_order()
}

/// Negation in the field, on values.
pub open spec fn fneg(a: nat) -> nat {
    ((fr_order() - a % fr_order()) % fr_order() as int) as nat
}

/// Subtraction in the field, on values.
pub open spec fn fsub(a: nat, b: nat) -> nat {
    fadd(a, fneg(b))
}

/// The `e`-th power of a field value.
pub open spec fn fpow(a: nat, e: nat) -> nat
    decreases e,
{
    if e == 0 {
        1
    } else {
        fmul(a, fpow(a, (e - 1) as nat))
    }
}

/// A value with a multiplicative inverse.  In the field this holds of every
/// nonzero value, the order being prime; proofs that cannot compute an
/// inverse take this as a hypothesis.
pub open spec fn has_inverse(u: nat) -> bool {
    exists|v: nat| #[trigger] fmul(u, v) == 1
}

/// An element of the scalar field, as its canonical little-endian encoding.
/// Every constructor yields an encoding of a value below `fr_order()`.
#[derive(Clone, Copy, Debug, PartialEq, Eq)]
pub struct Fr {
    bytes: [u8; 32],
}

impl View for Fr {
    type V = nat;

    closed spec fn view(&self) -> nat {
        le_bytes_val(self.bytes@)
    }
}

/// Relies on `bls12_381::Scalar::from`, which maps a `u64` onto the field
/// element of the same value, and on `Scalar::to_bytes`, its canonical
/// little-endian encoding.  Every `u64` is below the field order.
#[verifier::external_body]
pub(crate) fn fr_from_u64(v: u64) -> (r: Fr)
    ensures
        r@ == v as nat,
{
    Fr { bytes: Scalar::from(v).to_bytes() }
}

/// Relies on `bls12_381::Scalar`'s field addition, together with
/// `Scalar::from_bytes` / `Scalar::to_bytes`, which translate between a field
/// element and its canonical encoding.  `from_bytes` accepts every canonical
/// encoding, which the precondition guarantees.
#[verifier::external_body]
pub(crate) fn fr_add(a: &Fr, b: &Fr) -> (r: Fr)
    requires
        in_field(a@),
        in_field(b@),
    ensures
        r@ == fadd(a@, b@),
{
    let s = Scalar::from_bytes(&a.bytes).unwrap() + Scalar::from_bytes(&b.bytes).unwrap();
    Fr { bytes: s.to_bytes() }
}

/// Relies on `bls12_381::Scalar`'s field subtraction, with the byte
/// conversions as in `fr_add`.
#[verifier::external_body]
pub(crate) fn fr_sub(a: &Fr, b: &Fr) -> (r: Fr)
    requires
        in_field(a@),
        in_field(b@),
    ensures
        r@ == fsub(a@, b@),
{
    let s = Scalar::from_bytes(&a.bytes).unwrap() - Scalar::from_bytes(&b.bytes).unwrap();
    Fr { bytes: s.to_bytes() }
}

/// Relies on `bls12_381::Scalar`'s field multiplication, with the byte
/// conversions as in `fr_add`.
#[verifier::external_body]
pub(crate) fn fr_mul(a: &Fr, b: &Fr) -> (r: Fr)
    requires
        in_field(a@),
        in_field(b@),
    ensures
        r@ == fmul(a@, b@),
{
    let s = Scalar::from_bytes(&a.bytes).unwrap() * Scalar::from_bytes(&b.bytes).unwrap();
    Fr { bytes: s.to_bytes() }
}

/// Relies on `bls12_381::Scalar`'s field negation, with the byte conversions
/// as in `fr_add`.
#[verifier::external_body]
pub(crate) fn fr_neg(a: &Fr) -> (r: Fr)
    requires
        in_field(a@),
    ensures
        r@ == fneg(a@),
{
    let s = -Scalar::from_bytes(&a.bytes).unwrap();
    Fr { bytes: s.to_bytes() }
}

/// Relies on `bls12_381::Scalar::invert`, which returns the multiplicative
/// inverse and fails only on zero; the precondition rules zero out.  Byte
/// conversions as in `fr_add`.
#[verifier::external_body]
pub(crate) fn fr_inv(a: &Fr) -> (r: Fr)
    requires
        in_field(a@),
        a@ != 0,
    ensures
        in_field(r@),
        fmul(a@, r@) == 1,
{
    let s = Scalar::from_bytes(&a.bytes).unwrap().invert().unwrap();
    Fr { bytes: s.to_bytes() }
}

/// Relies on `bls12_381::Scalar::from_bytes_wide`, which reduces a 512-bit
/// little-endian integer by the field order, and on `Scalar::to_bytes`.
#[verifier::external_body]
pub(crate) fn fr_from_wide(w: &[u8; 64]) -> (r: Fr)
    ensures
        r@ == le_bytes_val(w@) % fr_order(),
{
    Fr { bytes: Scalar::from_bytes_wide(w).to_bytes() }
}

/// The canonical little-endian encoding of a field element.
pub(crate) fn fr_to_bytes(a: &Fr) -> (r: [u8; 32])
    ensures
        le_bytes_val(r@) == a@,
{
    a.bytes
}

/// Relies on `rand::thread_rng` and `rand_core::RngCore::fill_bytes` for 64
/// bytes from a cryptographically secure generator.  Nothing can be promised
/// of a random value.
#[verifier::external_body]
fn random_bytes_64() -> (r: [u8; 64]) {
    let mut b = [0u8; 64];
    rand::thread_rng().fill_bytes(&mut b);
    b
}

/// A field element sampled uniformly: 512 random bits reduced by the order.
pub(crate) fn fr_random() -> (r: Fr)
    ensures
        in_field(r@),
{
    let b = random_bytes_64();
    fr_from_wide(&b)
}

/// In little-endian base 256, equal values have equal digits.
pub proof fn lemma_le_bytes_val_injective(s: Seq<u8>, t: Seq<u8>)
    requires
        s.len() == t.len(),
        le_bytes_val(s) == le_bytes_val(t),
    ensures
        s =~= t,
    decreases s.len(),
{
    if s.len() > 0 {
        lemma_fundamental_div_mod_converse(
            le_bytes_val(s) as int,
            256,
            le_bytes_val(s.drop_first()) as int,
            s[0] as int,
        );
        lemma_fundamental_div_mod_converse(
            le_bytes_val(t) as int,
            256,
            le_bytes_val(t.drop_first()) as int,
            t[0] as int,
        );
        assert(s[0] == t[0]);
        assert(le_bytes_val(s.drop_first()) == le_bytes_val(t.drop_first()));
        lemma_le_bytes_val_injective(s.drop_first(), t.drop_first());
        assert forall|i: int| 0 <= i < s.len() implies s[i] == t[i] by {
            if i > 0 {
                assert(s.drop_first()[i - 1] == t.drop_first()[i - 1]);
            }
        }
    }
}

/// Two field elements are equal exactly when their values are.
pub(crate) fn fr_eq(a: &Fr, b: &Fr) -> (r: bool)
    ensures
        r == (a@ == b@),
{
    let mut i: usize = 0;
    while i < 32
        invariant
            0 <= i <= 32,
            forall|j: int| 0 <= j < i ==> a.bytes@[j] == b.bytes@[j],
        decreases 32 - i,
    {
        if a.bytes[i] != b.bytes[i] {
            proof {
                if a@ == b@ {
                    lemma_le_bytes_val_injective(a.bytes@, b.bytes@);
                }
            }
            return false;
        }
        i = i + 1;
    }
    proof {
        assert(a.bytes@ =~= b.bytes@);
    }
    true
}

/// Whether a field element is zero.
pub(crate) fn fr_is_zero(a: &Fr) -> (r: bool)
    ensures
        r == (a@ == 0),
{
    let z = fr_from_u64(0);
    fr_eq(a, &z)
}

/// Field addition on values is commutative.
pub proof fn lemma_fadd_comm(a: nat, b: nat)
    ensures
        fadd(a, b) == fadd(b, a),
{
}

/// Field addition on values is associative.
pub proof fn lemma_fadd_assoc(a: nat, b: nat, c: nat)
    ensures
        fadd(fadd(a, b), c) == fadd(a, fadd(b, c)),
{
    let m = fr_order() as int;
    assert(fadd(fadd(a, b), c) == ((a + b + c) as int % m) as nat) by {
        lemma_add_mod_noop((a + b) as int, c as int, m);
        lemma_mod_mod((a + b) as int, 1, m);
        lemma_add_mod_noop_right(((a + b) as int % m), c as int, m);
    }
    assert(fadd(a, fadd(b, c)) == ((a + b + c) as int % m) as nat) by {
        lemma_add_mod_noop_right(a as int, (b + c) as int, m);
    }
}

/// Field multiplication on values is commutative.
pub proof fn lemma_fmul_comm(a: nat, b: nat)
    ensures
        fmul(a, b) == fmul(b, a),
{
}

/// Field multiplication on values is associative.
pub proof fn lemma_fmul_assoc(a: nat, b: nat, c: nat)
    ensures
        fmul(fmul(a, b), c) == fmul(a, fmul(b, c)),
{
    let m = fr_order() as int;
    assert(fmul(fmul(a, b), c) == (a * b * c) % fr_order()) by {
        lemma_mul_mod_noop_general((a * b) as int, c as int, m);
    }
    assert(fmul(a, fmul(b, c)) == (a * (b * c)) % fr_order()) by {
        lemma_mul_mod_noop_general(a as int, (b * c) as int, m);
    }
    lemma_mul_is_associative(a as int, b as int, c as int);
}

/// Field multiplication distributes over field addition, on values.
pub proof fn lemma_fmul_dist(a: nat, b: nat, c: nat)
    ensures
        fmul(a, fadd(b, c)) == fadd(fmul(a, b), fmul(a, c)),
{
    let m = fr_order() as int;
    assert(fmul(a, fadd(b, c)) == (a * (b + c)) % fr_order()) by {
        lemma_mul_mod_noop_general(a as int, (b + c) as int, m);
    }
    assert(fadd(fmul(a, b), fmul(a, c)) == (a * b + a * c) % fr_order()) by {
        lemma_add_mod_noop((a * b) as int, (a * c) as int, m);
    }
    lemma_mul_is_distributive_add(a as int, b as int, c as int);
}

/// Adding zero leaves a field value unchanged.
pub proof fn lemma_fadd_zero(a: nat)
    requires
        in_field(a),
    ensures
        fadd(a, 0) == a,
        fadd(0, a) == a,
{
    lemma_small_mod(a, fr_order());
}

/// Multiplying by zero gives zero; multiplying by one leaves the value.
pub proof fn lemma_fmul_basics(a: nat)
    requires
        in_field(a),
    ensures
        fmul(a, 0) == 0,
        fmul(0, a) == 0,
        fmul(a, 1) == a,
        fmul(1, a) == a,
    {
    lemma_small_mod(a, fr_order());
    lemma_small_mod(0, fr_order());
}

/// A value and its negation add to zero; the negation of a nonzero field
/// value is the order minus the value.
pub proof fn lemma_fneg_cancel(a: nat)
    requires
        in_field(a),
    ensures
        fadd(a, fneg(a)) == 0,
        in_field(fneg(a)),
        fneg(0) == 0,
        a != 0 ==> fneg(a) == fr_order() - a,
{
    assert(fneg(0) == 0) by {
        lemma_small_mod(0, fr_order());
        lemma_fundamental_div_mod_converse(fr_order() as int, fr_order() as int, 1, 0);
    }
    lemma_small_mod(a, fr_order());
    if a == 0 {
        lemma_small_mod(0, fr_order());
        assert(fr_order() % fr_order() == 0) by {
            lemma_mod_mod(0, fr_order() as int, 1);
            assert((fr_order() as int) % (fr_order() as int) == 0) by {
                lemma_small_mod(0, fr_order());
                assert(fr_order() as int == fr_order() as int * 1 + 0);
                lemma_fundamental_div_mod_converse(fr_order() as int, fr_order() as int, 1, 0);
            }
        }
    } else {
        lemma_small_mod((fr_order() - a) as nat, fr_order());
        assert(a + (fr_order() - a) == fr_order());
        assert((fr_order() as int) % (fr_order() as int) == 0) by {
            lemma_fundamental_div_mod_converse(fr_order() as int, fr_order() as int, 1, 0);
        }
    }
}

/// Negation is multiplication by `fr_order() - 1`.
pub proof fn lemma_fneg_as_mul(x: nat)
    ensures
        fneg(x) == fmul((fr_order() - 1) as nat, x),
{
    let m = fr_order();
    let y = x % m;
    assert(y < m);
    assert(((m - 1) * x) % (m as int) == ((m - 1) * y) % (m as int)) by {
        lemma_mul_mod_noop_general((m - 1) as int, x as int, m as int);
        lemma_mul_mod_noop_general((m - 1) as int, y as int, m as int);
        lemma_mod_mod(x as int, m as int, 1);
        lemma_small_mod((m - 1) as nat, m);
        assert((y as int) % (m as int) == y as int) by {
            lemma_small_mod(y, m);
        }
    }
    if y == 0 {
        assert((m - 1) * y == 0);
        lemma_small_mod(0, m);
        assert(fneg(x) == m % m);
        lemma_fundamental_div_mod_converse(m as int, m as int, 1, 0);
    } else {
        assert((m - 1) * y == m * (y - 1) + (m - y)) by {
            lemma_mul_is_distributive_add((m - 1) as int, (y - 1) as int, 1);
            assert(m * (y - 1) == (m - 1) * (y - 1) + (y - 1)) by {
                lemma_mul_is_distributive_add((y - 1) as int, (m - 1) as int, 1);
            }
        }
        lemma_fundamental_div_mod_converse(
            ((m - 1) * y) as int,
            m as int,
            (y - 1) as int,
            (m - y) as int,
        );
        lemma_small_mod((m - y) as nat, m);
    }
}

/// Powers of a field value are field values.
pub proof fn lemma_fpow_in_field(a: nat, e: nat)
    ensures
        in_field(fpow(a, e)),
{
    if e == 0 {
    } else {
        assert(fpow(a, e) == fmul(a, fpow(a, (e - 1) as nat)));
    }
}

/// Distinct field values have a nonzero difference.
pub proof fn lemma_fsub_nonzero(a: nat, b: nat)
    requires
        in_field(a),
        in_field(b),
        a != b,
    ensures
        fsub(a, b) != 0,
{
    lemma_small_mod(a, fr_order());
    lemma_small_mod(b, fr_order());
    if b == 0 {
        lemma_small_mod(0, fr_order());
        lemma_small_mod(a, fr_order());
        assert(fneg(b) == fr_order() % fr_order());
        assert(fr_order() % fr_order() == 0) by {
            lemma_fundamental_div_mod_converse(fr_order() as int, fr_order() as int, 1, 0);
        }
        assert(fsub(a, b) == a % fr_order());
    } else {
        lemma_small_mod((fr_order() - b) as nat, fr_order());
        assert(fneg(b) == (fr_order() - b) as nat);
        if a > b {
            lemma_small_mod((a - b) as nat, fr_order());
            assert((a + fr_order() - b) as int == fr_order() as int * 1 + (a - b));
            lemma_fundamental_div_mod_converse(
                (a + fr_order() - b) as int,
                fr_order() as int,
                1,
                (a - b) as int,
            );
        } else {
            assert((a + fr_order() - b) as int == fr_order() as int * 0 + (a + fr_order() - b));
            lemma_fundamental_div_mod_converse(
                (a + fr_order() - b) as int,
                fr_order() as int,
                0,
                (a + fr_order() - b) as int,
            );
        }
    }
}

} // verus!
