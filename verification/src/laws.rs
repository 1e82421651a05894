//! What holds of the arithmetic as a whole, stated over the limbs that the
//! operations yield.

use crate::grou::add::{add_limbs, lemma_add_limbs_value, longer};
use crate::grou::multiply::{lemma_mul_limbs_value, mul_limbs, product_limbs};
use crate::grou::sub::sub_limbs;
use crate::model::{
    canonical, fit_limbs, is_trimmed, lemma_canonical, lemma_canonical_iff, lemma_fit_determined,
    lemma_limb_count_upper, lemma_trimmed, lemma_trimmed_canonical, lemma_value_bound,
    lemma_value_lower_bound, lemma_weight_monotonic, lemma_weight_step, limbs_value, trimmed,
    weight,
};
use crate::numeral::{
    decimal_text, lemma_decimal_round_trip, lemma_numeral_value, numeral_is_plain, numeral_limbs,
    numeral_parses, numeral_value,
};
use vstd::prelude::*;

verus! {

/// Addition is commutative: the two sums are the same limbs.
pub proof fn law_add_commutative(a: Seq<u64>, b: Seq<u64>)
    ensures
        add_limbs(a, b) == add_limbs(b, a),
{
}

/// Addition is associative once the sums are trimmed: however three
/// numbers are added, the trimmed limbs are the same, and they stand for the
/// sum of the three numbers.
pub proof fn law_add_associative(a: Seq<u64>, b: Seq<u64>, c: Seq<u64>)
    ensures
        trimmed(add_limbs(add_limbs(a, b), c)) == trimmed(add_limbs(a, add_limbs(b, c))),
        limbs_value(add_limbs(add_limbs(a, b), c)) == limbs_value(a) + limbs_value(b)
            + limbs_value(c),
{
    let left = add_limbs(add_limbs(a, b), c);
    let right = add_limbs(a, add_limbs(b, c));
    lemma_add_limbs_value(a, b);
    lemma_add_limbs_value(add_limbs(a, b), c);
    lemma_add_limbs_value(b, c);
    lemma_add_limbs_value(a, add_limbs(b, c));
    if a.len() == 0 && b.len() == 0 && c.len() == 0 {
        lemma_value_bound(left);
        lemma_value_bound(right);
        assert(left.len() == 0);
        assert(right.len() == 0);
        assert(left =~= right);
    } else {
        lemma_trimmed_canonical(left);
        lemma_trimmed_canonical(right);
    }
}

/// Subtraction undoes addition: `(a + b) - b` is the canonical form of
/// `a`, and so it is `a` limb for limb exactly when `a` is not empty and
/// carries no superfluous zero limb.
pub proof fn law_add_then_sub(a: Seq<u64>, b: Seq<u64>)
    ensures
        limbs_value(add_limbs(a, b)) >= limbs_value(b),
        sub_limbs(add_limbs(a, b), b) == canonical(limbs_value(a)),
        (sub_limbs(add_limbs(a, b), b) == a) <==> (a.len() >= 1 && is_trimmed(a)),
{
    lemma_add_limbs_value(a, b);
    lemma_canonical_iff(a);
}

/// Addition undoes subtraction: where `a` is not the smaller number,
/// `(a - b) + b` trimmed is the canonical form of `a`, and so it is `a` limb
/// for limb exactly when `a` is not empty and carries no superfluous zero
/// limb. Untrimmed it is `a` already where, besides, `b` is no longer than
/// `a`.
pub proof fn law_sub_then_add(a: Seq<u64>, b: Seq<u64>)
    requires
        limbs_value(a) >= limbs_value(b),
    ensures
        limbs_value(add_limbs(sub_limbs(a, b), b)) == limbs_value(a),
        trimmed(add_limbs(sub_limbs(a, b), b)) == canonical(limbs_value(a)),
        (trimmed(add_limbs(sub_limbs(a, b), b)) == a) <==> (a.len() >= 1 && is_trimmed(a)),
        (a.len() >= 1 && is_trimmed(a) && b.len() <= a.len()) ==> add_limbs(sub_limbs(a, b), b)
            == a,
{
    let va = limbs_value(a);
    let vb = limbs_value(b);
    let diff = sub_limbs(a, b);
    let back = add_limbs(diff, b);
    lemma_canonical((va - vb) as nat);
    lemma_add_limbs_value(diff, b);
    lemma_trimmed_canonical(back);
    lemma_canonical_iff(a);
    if a.len() >= 1 && is_trimmed(a) && b.len() <= a.len() {
        let n = a.len();
        let m = longer(diff.len(), b.len());
        lemma_value_bound(a);
        lemma_value_bound(b);
        lemma_value_bound(diff);
        lemma_limb_count_upper((va - vb) as nat, n);
        assert(m <= n);
        if m + 2 <= n {
            lemma_value_lower_bound(a);
            lemma_weight_monotonic(diff.len(), (n - 2) as nat);
            lemma_weight_monotonic(b.len(), (n - 2) as nat);
            lemma_weight_step((n - 2) as nat);
            assert(false);
        }
        if m + 1 == n {
            lemma_value_lower_bound(a);
        }
        lemma_fit_determined(a, va, m);
    }
}

/// One of three holds.
pub open spec fn exactly_one(p: bool, q: bool, r: bool) -> bool {
    (p && !q && !r) || (!p && q && !r) || (!p && !q && r)
}

/// The order is total on trimmed numbers: of "smaller", "the same limbs"
/// and "larger" exactly one holds, unless the numbers are both zero and
/// exactly one of them has no limbs, which trimming leaves as it is.
pub proof fn law_order_total(a: Seq<u64>, b: Seq<u64>)
    ensures
        limbs_value(trimmed(a)) == limbs_value(a),
        limbs_value(trimmed(b)) == limbs_value(b),
        exactly_one(
            limbs_value(a) < limbs_value(b),
            trimmed(a) == trimmed(b),
            limbs_value(a) > limbs_value(b),
        ) <==> !(limbs_value(a) == limbs_value(b) && (a.len() == 0) != (b.len() == 0)),
        (a.len() == 0 && b.len() == 0) ==> trimmed(a) == trimmed(b),
{
    lemma_trimmed(a);
    lemma_trimmed(b);
    if a.len() > 0 {
        lemma_trimmed_canonical(a);
    }
    if b.len() > 0 {
        lemma_trimmed_canonical(b);
    }
    if a.len() == 0 && b.len() == 0 {
        assert(a =~= b);
    }
}

/// Karatsuba multiplication against the schoolbook product. Both stand
/// for the product of the two numbers. Limb for limb they are the same
/// exactly when both operands have limbs: the schoolbook product of an
/// operand without limbs has none, where the Karatsuba product is the single
/// limb 0.
pub proof fn law_karatsuba_matches_schoolbook(a: Seq<u64>, b: Seq<u64>)
    ensures
        limbs_value(product_limbs(a, b)) == limbs_value(a) * limbs_value(b),
        limbs_value(product_limbs(a, b)) == limbs_value(mul_limbs(a, b)),
        (product_limbs(a, b) == mul_limbs(a, b)) <==> (a.len() > 0 && b.len() > 0),
{
    lemma_canonical(limbs_value(a) * limbs_value(b));
    lemma_mul_limbs_value(a, b);
}

/// Reading back the decimal numeral of a number that one limb holds gives
/// the number: the text is a numeral, and its limbs are the one limb `n`.
pub proof fn law_parse_round_trip(n: u64)
    ensures
        numeral_parses(decimal_text(n as nat)),
        numeral_limbs(decimal_text(n as nat)) == seq![n],
{
    lemma_decimal_round_trip(n);
}

/// Reading a numeral without signs gives its number: the text is a
/// numeral, and its limbs stand for the number that its digits stand for in
/// the base that its prefix names.
pub proof fn law_parse_value(s: Seq<u8>)
    requires
        numeral_is_plain(s),
    ensures
        numeral_parses(s),
        limbs_value(numeral_limbs(s)) == numeral_value(s),
{
    lemma_numeral_value(s);
}

} // verus!
