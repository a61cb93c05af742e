//! The evaluation domain of the protocol and its parameters.
use crate::fft::{generator, is_subgroup_domain, squared_half};
use crate::field::{
    fneg, fpow, lemma_modulus_bounds, modulus, root_of_unity_value, values, FieldElement,
    TWO_ADICITY,
};
use crate::field_lemmas::{
    lemma_fmul_comm, lemma_fpow_one, lemma_fpow_pow, lemma_fpow_reduced, lemma_minus_one,
};
use crate::numeric::{is_pow2, lemma_pow2_log2, log2, log2_floor};
use crate::root_lemmas::lemma_root_of_unity_order;
use vstd::arithmetic::power2::{lemma2_to64, lemma_pow2_adds, lemma_pow2_unfold, pow2};
use vstd::prelude::*;

verus! {

/// The inverse rate of the code: the domain holds this many points for each
/// coefficient that a polynomial may have.
pub const EXPANSION_FACTOR: usize = 2;

/// The number of colinearity checks that are made on each layer.
pub const NUM_COLINEARITY_CHECKS: usize = 2;

/// The number of halvings that are left undone: a domain of `2^k` points is
/// folded `k - 3` times.
pub const TERMINAL_SLACK: u32 = 3;

/// The largest degree for which the field has a domain.
pub const MAX_SUPPORTED_DEGREE: usize = 0x8000_0000;

/// The root of unity that generates the domain of `size` points.
pub open spec fn domain_generator(size: nat) -> nat {
    fpow(root_of_unity_value(), pow2((32 - log2(size)) as nat))
}

/// The domain of `size` points: the powers of its generator in ascending
/// order.
pub open spec fn domain_of(size: nat) -> Seq<nat> {
    Seq::new(size, |i: int| fpow(domain_generator(size), i as nat))
}

/// The domain after `rounds` halvings.
pub open spec fn domain_at(domain: Seq<nat>, rounds: nat) -> Seq<nat>
    decreases rounds,
{
    if rounds == 0 {
        domain
    } else {
        domain_at(squared_half(domain), (rounds - 1) as nat)
    }
}

/// The number of folding rounds on a domain of `size` points.
pub open spec fn num_rounds(size: nat) -> nat {
    (log2(size) - 3) as nat
}

/// The powers of the generator of a domain of a power of two of points, at
/// most `2^32`, are a subgroup domain.
pub proof fn lemma_domain_of_is_subgroup(size: nat)
    requires
        is_pow2(size),
        2 <= size <= 0x1_0000_0000,
    ensures
        is_subgroup_domain(domain_of(size)),
        generator(domain_of(size)) == domain_generator(size),
{
    lemma_modulus_bounds();
    let k = log2(size);
    let g = domain_generator(size);
    let d = domain_of(size);
    lemma_pow2_log2(size);
    lemma2_to64();
    assert(k <= 32) by {
        if k > 32 {
            vstd::arithmetic::power2::lemma_pow2_strictly_increases(32, k);
        }
    }
    assert(k >= 1) by {
        if k == 0 {
            lemma2_to64();
        }
    }
    lemma_fpow_reduced(root_of_unity_value(), pow2((32 - k) as nat));
    lemma_fpow_one(g);
    vstd::arithmetic::div_mod::lemma_small_mod(g, modulus());
    assert(d[1] == fpow(g, 1));
    assert(generator(d) == g);
    // g^(size / 2) is the root of unity to the power 2^(32 - k) * 2^(k - 1) = 2^31
    lemma_pow2_unfold(k);
    assert(size / 2 == pow2((k - 1) as nat));
    lemma_fpow_pow(root_of_unity_value(), pow2((32 - k) as nat), pow2((k - 1) as nat));
    lemma_pow2_adds((32 - k) as nat, (k - 1) as nat);
    lemma_root_of_unity_order();
    lemma_minus_one();
    assert(fpow(g, size / 2) == fneg(1));
}

/// The domain for polynomials of degree up to `max_degree`: the subgroup of
/// `EXPANSION_FACTOR * max_degree` points, in ascending powers of its
/// generator.
pub fn evaluation_domain(max_degree: usize) -> (domain: Vec<FieldElement>)
    requires
        is_pow2(max_degree as nat),
        max_degree <= MAX_SUPPORTED_DEGREE,
        2 * max_degree <= usize::MAX,
    ensures
        domain@.len() == 2 * max_degree,
        values(domain@) == domain_of(2 * max_degree as nat),
        is_subgroup_domain(values(domain@)),
{
    let domain_order = max_degree * EXPANSION_FACTOR;
    let order_log = log2_floor(domain_order);
    proof {
        lemma_pow2_log2(domain_order as nat);
        lemma2_to64();
        if order_log > 32 {
            vstd::arithmetic::power2::lemma_pow2_strictly_increases(32, order_log as nat);
        }
        lemma2_to64();
    }
    // The exponent 2^(32 - log2(domain_order)).
    let mut exponent: u64 = 1;
    let mut j: u32 = 0;
    while j < TWO_ADICITY - order_log
        invariant
            order_log <= 32,
            j <= 32 - order_log,
            exponent == pow2(j as nat),
            exponent <= 0x1_0000_0000,
        decreases 32 - order_log - j,
    {
        proof {
            lemma_pow2_unfold(j as nat + 1);
            lemma2_to64();
            if j + 1 < 32 {
                vstd::arithmetic::power2::lemma_pow2_strictly_increases(j as nat + 1, 32);
            }
        }
        exponent = exponent * 2;
        j += 1;
    }
    let root_of_unity = FieldElement::root_of_unity();
    let domain_generator = root_of_unity.pow(exponent);
    let ghost g = domain_generator@;
    let mut domain: Vec<FieldElement> = Vec::new();
    let mut current = FieldElement::one();
    let mut i: usize = 0;
    while i < domain_order
        invariant
            i <= domain_order,
            g == domain_generator@,
            domain@.len() == i,
            current@ == fpow(g, i as nat),
            forall|m: int| 0 <= m < i ==> (#[trigger] domain@[m])@ == fpow(g, m as nat),
        decreases domain_order - i,
    {
        domain.push(current);
        proof {
            lemma_fmul_comm(current@, g);
        }
        current = current.mul(&domain_generator);
        i += 1;
    }
    proof {
        assert(g == crate::domain::domain_generator(domain_order as nat));
        assert(values(domain@) =~= domain_of(domain_order as nat));
        lemma_domain_of_is_subgroup(domain_order as nat);
    }
    domain
}

} // verus!
