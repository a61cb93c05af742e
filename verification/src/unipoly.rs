//! Univariate polynomials in dense coefficient form.
use crate::fft::{ifft, inverse_dft, is_subgroup_domain, poly_eval};
use crate::field::{values, FieldElement};
use vstd::prelude::*;

verus! {

/// The highest position that holds a coefficient other than zero; zero where
/// there is none.
pub open spec fn highest_nonzero(coeffs: Seq<nat>) -> nat
    decreases coeffs.len(),
{
    if coeffs.len() == 0 {
        0
    } else if coeffs.last() != 0 {
        (coeffs.len() - 1) as nat
    } else {
        highest_nonzero(coeffs.drop_last())
    }
}

/// The coefficients up to the highest one that is not zero. A vector of zeros
/// keeps its first entry.
pub open spec fn trimmed(coeffs: Seq<nat>) -> Seq<nat> {
    coeffs.take(highest_nonzero(coeffs) as int + 1)
}

/// A polynomial, as its coefficients from the constant term upwards.
#[derive(Debug)]
pub struct UniPoly {
    pub coeffs: Vec<FieldElement>,
}

impl UniPoly {
    /// The polynomial with the given coefficients.
    pub fn new(coeffs: Vec<FieldElement>) -> (poly: UniPoly)
        ensures
            poly.coeffs == coeffs,
    {
        UniPoly { coeffs }
    }

    /// The degree: one less than the number of coefficients.
    pub fn degree(&self) -> (d: usize)
        requires
            self.coeffs@.len() >= 1,
        ensures
            d == self.coeffs@.len() - 1,
    {
        self.coeffs.len() - 1
    }

    /// The value of the polynomial at `x`.
    pub fn eval(&self, x: FieldElement) -> (y: FieldElement)
        ensures
            y@ == poly_eval(values(self.coeffs@), x@),
    {
        let n = self.coeffs.len();
        let mut result = FieldElement::zero();
        let mut i = n;
        let ghost c = values(self.coeffs@);
        assert(c.skip(n as int) =~= Seq::<nat>::empty());
        while i > 0
            invariant
                i <= n,
                n == self.coeffs@.len(),
                c == values(self.coeffs@),
                result@ == poly_eval(c.skip(i as int), x@),
            decreases i,
        {
            i -= 1;
            proof {
                assert(c.skip(i as int).drop_first() =~= c.skip(i as int + 1));
                assert(c.skip(i as int)[0] == self.coeffs@[i as int]@);
            }
            result = self.coeffs[i].add(&x.mul(&result));
        }
        assert(c.skip(0) =~= c);
        result
    }

    /// The polynomial of least degree that takes the values `evals` on the
    /// points of `domain`: the inverse transform, cut after its highest
    /// coefficient that is not zero.
    pub fn interpolate(domain: Vec<FieldElement>, evals: Vec<FieldElement>) -> (poly: UniPoly)
        requires
            domain@.len() == evals@.len(),
            is_subgroup_domain(values(domain@)),
        ensures
            values(poly.coeffs@) == trimmed(inverse_dft(values(evals@), values(domain@))),
            poly.coeffs@.len() >= 1,
    {
        let coeffs = ifft(domain.as_slice(), evals.as_slice());
        let ghost c = values(coeffs@);
        let mut degree: usize = 0;
        let mut i: usize = 0;
        assert(c.take(0) =~= Seq::<nat>::empty());
        while i < coeffs.len()
            invariant
                i <= coeffs@.len(),
                c == values(coeffs@),
                degree == highest_nonzero(c.take(i as int)),
                degree < coeffs@.len() || coeffs@.len() == 0,
            decreases coeffs@.len() - i,
        {
            let zero = FieldElement::zero();
            proof {
                assert(c.take(i as int + 1).drop_last() =~= c.take(i as int));
                assert(c.take(i as int + 1).last() == coeffs@[i as int]@);
            }
            if coeffs[i] != zero {
                degree = i;
            }
            i += 1;
        }
        assert(c.take(coeffs@.len() as int) =~= c);
        let mut kept: Vec<FieldElement> = Vec::new();
        let mut k: usize = 0;
        while k <= degree
            invariant
                k <= degree + 1,
                degree < coeffs@.len() <= usize::MAX,
                kept@.len() == k,
                forall|j: int| 0 <= j < k ==> kept@[j] == coeffs@[j],
            decreases degree + 1 - k,
        {
            kept.push(coeffs[k]);
            k += 1;
        }
        assert(values(kept@) =~= trimmed(c));
        UniPoly { coeffs: kept }
    }
}

} // verus!
