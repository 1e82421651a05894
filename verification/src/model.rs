//! The mathematical model: what number a sequence of limbs stands for.

use vstd::arithmetic::div_mod::{
    lemma_div_is_ordered, lemma_div_multiples_vanish, lemma_fundamental_div_mod, lemma_mod_bound,
    lemma_mod_breakdown, lemma_small_mod,
};
use vstd::prelude::*;

verus! {

/// The radix of the representation: one more than the largest limb.
pub open spec fn base() -> nat {
    0x1_0000_0000_0000_0000
}

/// The weight of limb `n`: `base()` raised to the power `n`.
pub open spec fn weight(n: nat) -> nat
    decreases n,
{
    if n == 0 {
        1
    } else {
        base() * weight((n - 1) as nat)
    }
}

/// The number that a little-endian limb sequence stands for:
/// the sum of `s[i] * weight(i)`.
pub open spec fn limbs_value(s: Seq<u64>) -> nat
    decreases s.len(),
{
    if s.len() == 0 {
        0
    } else {
        limbs_value(s.drop_last()) + s.last() as nat * weight((s.len() - 1) as nat)
    }
}

/// The sequence of `n` zero limbs.
pub open spec fn zeros(n: nat) -> Seq<u64> {
    Seq::new(n, |i: int| 0u64)
}

/// Limb `i` of the number `v`.
pub open spec fn limb_at(v: nat, i: nat) -> u64 {
    ((v / weight(i)) % base()) as u64
}

/// The `n` low limbs of the number `v`.
pub open spec fn to_limbs(v: nat, n: nat) -> Seq<u64> {
    Seq::new(n, |i: int| limb_at(v, i as nat))
}

/// The limbs of `v` in `n` places, or in one place more when `n` are not
/// enough. This is what carry propagation over `n` limbs leaves behind.
pub open spec fn fit_limbs(v: nat, n: nat) -> Seq<u64> {
    if v < weight(n) {
        to_limbs(v, n)
    } else {
        to_limbs(v, n + 1)
    }
}

/// The number of limbs of the shortest non-empty representation of `v`.
pub open spec fn limb_count(v: nat) -> nat
    decreases v,
{
    if v < base() {
        1
    } else {
        1 + limb_count(v / base())
    }
}

/// The canonical representation of `v`: no zero limb at the top, and the
/// single limb 0 for zero.
pub open spec fn canonical(v: nat) -> Seq<u64> {
    to_limbs(v, limb_count(v))
}

/// Whether a sequence carries no superfluous high-order zero limb.
pub open spec fn is_trimmed(s: Seq<u64>) -> bool {
    s.len() <= 1 || s.last() != 0
}

/// The sequence without its high-order zero limbs, of which one stays when
/// there is nothing else.
pub open spec fn trimmed(s: Seq<u64>) -> Seq<u64>
    decreases s.len(),
{
    if s.len() <= 1 || s.last() != 0 {
        s
    } else {
        trimmed(s.drop_last())
    }
}

/// A weight is never zero.
pub proof fn lemma_weight_positive(n: nat)
    ensures
        weight(n) > 0,
    decreases n,
{
    if n > 0 {
        lemma_weight_positive((n - 1) as nat);
        assert(base() * weight((n - 1) as nat) > 0) by (nonlinear_arith)
            requires
                weight((n - 1) as nat) > 0,
                base() > 0,
        ;
    }
}

/// Each weight is `base()` times the one before; the first is 1.
pub proof fn lemma_weight_step(n: nat)
    ensures
        weight(n + 1) == base() * weight(n),
        weight(0) == 1,
        weight(1) == base(),
{
    reveal_with_fuel(weight, 3);
}

/// Weights multiply by adding their places.
pub proof fn lemma_weight_add(m: nat, n: nat)
    ensures
        weight(m + n) == weight(m) * weight(n),
    decreases n,
{
    if n == 0 {
        assert(weight(m) * 1 == weight(m));
    } else {
        lemma_weight_add(m, (n - 1) as nat);
        let p = weight(m);
        let q = weight((n - 1) as nat);
        assert(weight(m + n) == base() * weight((m + n - 1) as nat));
        assert(base() * (p * q) == p * (base() * q)) by (nonlinear_arith);
    }
}

/// A higher place has no smaller weight.
pub proof fn lemma_weight_monotonic(m: nat, n: nat)
    requires
        m <= n,
    ensures
        weight(m) <= weight(n),
{
    lemma_weight_add(m, (n - m) as nat);
    lemma_weight_positive((n - m) as nat);
    lemma_weight_positive(m);
    let p = weight(m);
    let q = weight((n - m) as nat);
    assert(p <= p * q) by (nonlinear_arith)
        requires
            p > 0,
            q > 0,
    ;
}

/// A limb appended at the top adds itself times the weight of its place.
pub proof fn lemma_value_push(s: Seq<u64>, x: u64)
    ensures
        limbs_value(s.push(x)) == limbs_value(s) + x as nat * weight(s.len()),
{
    assert(s.push(x).drop_last() =~= s);
}

/// The sequence without limbs stands for zero.
pub proof fn lemma_value_empty()
    ensures
        limbs_value(Seq::<u64>::empty()) == 0,
{
}

/// A single limb stands for itself.
pub proof fn lemma_value_single(x: u64)
    ensures
        limbs_value(seq![x]) == x as nat,
{
    assert(seq![x].drop_last() =~= Seq::<u64>::empty());
    assert(limbs_value(seq![x].drop_last()) == 0);
    assert(x as nat * weight(0) == x as nat) by (nonlinear_arith)
        requires
            weight(0) == 1,
    ;
}

/// A sequence of `n` limbs stands for a number below `weight(n)`.
pub proof fn lemma_value_bound(s: Seq<u64>)
    ensures
        limbs_value(s) < weight(s.len()),
    decreases s.len(),
{
    if s.len() > 0 {
        lemma_value_bound(s.drop_last());
        let n = (s.len() - 1) as nat;
        let w = weight(n);
        let x = s.last() as nat;
        assert(x * w + w <= base() * w) by (nonlinear_arith)
            requires
                x + 1 <= base(),
        ;
    }
}

/// A sequence on top of another stands for its number times the weight of
/// the lower one's length, plus the lower number.
pub proof fn lemma_value_concat(a: Seq<u64>, b: Seq<u64>)
    ensures
        limbs_value(a + b) == limbs_value(a) + weight(a.len()) * limbs_value(b),
    decreases b.len(),
{
    if b.len() == 0 {
        assert(a + b =~= a);
        assert(weight(a.len()) * 0 == 0);
    } else {
        let c = a + b;
        assert(c.drop_last() =~= a + b.drop_last());
        lemma_value_concat(a, b.drop_last());
        let n = (b.len() - 1) as nat;
        lemma_weight_add(a.len(), n);
        let wa = weight(a.len());
        let wn = weight(n);
        let x = b.last() as nat;
        let vb = limbs_value(b.drop_last());
        assert(c.last() == b.last());
        assert(wa * (vb + x * wn) == wa * vb + x * (wa * wn)) by (nonlinear_arith);
    }
}

/// Zero limbs stand for zero.
pub proof fn lemma_value_zeros(n: nat)
    ensures
        limbs_value(zeros(n)) == 0,
    decreases n,
{
    if n > 0 {
        assert(zeros(n).drop_last() =~= zeros((n - 1) as nat));
        lemma_value_zeros((n - 1) as nat);
        assert(0 * weight((n - 1) as nat) == 0);
    }
}

/// A sequence splits at any point into a low part and a high part that is
/// weighted by the length of the low part.
pub proof fn lemma_value_split(s: Seq<u64>, k: int)
    requires
        0 <= k <= s.len(),
    ensures
        limbs_value(s) == limbs_value(s.take(k)) + weight(k as nat) * limbs_value(s.skip(k)),
{
    assert(s =~= s.take(k) + s.skip(k));
    lemma_value_concat(s.take(k), s.skip(k));
}

/// One limb more of a sequence adds that limb times the weight of its
/// place.
pub proof fn lemma_value_take_step(s: Seq<u64>, i: int)
    requires
        0 <= i < s.len(),
    ensures
        limbs_value(s.take(i + 1)) == limbs_value(s.take(i)) + s[i] as nat * weight(i as nat),
{
    assert(s.take(i + 1) =~= s.take(i).push(s[i]));
    lemma_value_push(s.take(i), s[i]);
}

/// Replacing a limb changes the number by the difference of the limbs
/// times the weight of the place.
pub proof fn lemma_value_update(s: Seq<u64>, i: int, x: u64)
    requires
        0 <= i < s.len(),
    ensures
        limbs_value(s.update(i, x)) + s[i] as nat * weight(i as nat) == limbs_value(s) + x as nat
            * weight(i as nat),
{
    let t = s.update(i, x);
    lemma_value_split(s, i + 1);
    lemma_value_split(t, i + 1);
    lemma_value_take_step(s, i);
    lemma_value_take_step(t, i);
    assert(s.take(i) =~= t.take(i));
    assert(s.skip(i + 1) =~= t.skip(i + 1));
}

/// Two sequences of one length that stand for one number are the same.
pub proof fn lemma_value_injective(a: Seq<u64>, b: Seq<u64>)
    requires
        a.len() == b.len(),
        limbs_value(a) == limbs_value(b),
    ensures
        a == b,
    decreases a.len(),
{
    if a.len() > 0 {
        let n = (a.len() - 1) as nat;
        let w = weight(n);
        let x = a.last() as nat;
        let y = b.last() as nat;
        let va = limbs_value(a.drop_last());
        let vb = limbs_value(b.drop_last());
        lemma_value_bound(a.drop_last());
        lemma_value_bound(b.drop_last());
        assert(x == y) by (nonlinear_arith)
            requires
                va + x * w == vb + y * w,
                va < w,
                vb < w,
        ;
        assert(va == vb);
        lemma_value_injective(a.drop_last(), b.drop_last());
        assert(a =~= a.drop_last().push(a.last()));
        assert(b =~= b.drop_last().push(b.last()));
    } else {
        assert(a =~= b);
    }
}

/// The `n` low limbs of `v` stand for `v` modulo `weight(n)`.
pub proof fn lemma_to_limbs_value(v: nat, n: nat)
    ensures
        limbs_value(to_limbs(v, n)) == v % weight(n),
        to_limbs(v, n).len() == n,
    decreases n,
{
    lemma_weight_positive(n);
    if n == 0 {
        assert(v % 1 == 0);
    } else {
        let m = (n - 1) as nat;
        let w = weight(m);
        lemma_weight_positive(m);
        lemma_to_limbs_value(v, m);
        assert(to_limbs(v, n).drop_last() =~= to_limbs(v, m));
        let q = (v / w) % base();
        lemma_mod_bound((v / w) as int, base() as int);
        assert(to_limbs(v, n).last() == limb_at(v, m));
        assert(limb_at(v, m) as nat == q);
        lemma_mod_breakdown(v as int, w as int, base() as int);
        assert(weight(n) == base() * w);
        assert(w * base() == base() * w) by (nonlinear_arith);
        assert(w * q == q * w) by (nonlinear_arith);
    }
}

/// Reading the limbs of the number that a sequence stands for gives the
/// sequence back.
pub proof fn lemma_to_limbs_of_value(s: Seq<u64>)
    ensures
        to_limbs(limbs_value(s), s.len()) == s,
{
    let v = limbs_value(s);
    lemma_value_bound(s);
    lemma_to_limbs_value(v, s.len());
    lemma_small_mod(v, weight(s.len()));
    lemma_value_injective(to_limbs(v, s.len()), s);
}

/// A sequence that stands for `v` and has `n` limbs is `to_limbs(v, n)`.
pub proof fn lemma_limbs_determined(s: Seq<u64>, v: nat, n: nat)
    requires
        s.len() == n,
        limbs_value(s) == v,
    ensures
        s == to_limbs(v, n),
{
    lemma_to_limbs_of_value(s);
}

/// Trimming keeps the number, leaves no superfluous zero limb, keeps a
/// beginning of the sequence, and empties nothing.
pub proof fn lemma_trimmed(s: Seq<u64>)
    ensures
        limbs_value(trimmed(s)) == limbs_value(s),
        is_trimmed(trimmed(s)),
        trimmed(s).len() <= s.len(),
        s.len() > 0 ==> trimmed(s).len() > 0,
        trimmed(s) == s.take(trimmed(s).len() as int),
        is_trimmed(s) ==> trimmed(s) == s,
    decreases s.len(),
{
    if s.len() <= 1 || s.last() != 0 {
        assert(s.take(s.len() as int) =~= s);
    } else {
        let d = s.drop_last();
        lemma_trimmed(d);
        assert(0 * weight((s.len() - 1) as nat) == 0);
        assert(d.take(trimmed(d).len() as int) =~= s.take(trimmed(d).len() as int));
    }
}

/// A number lies below the weight of its limb count, and, with more than
/// one limb, not below the weight of its top place.
pub proof fn lemma_limb_count_bounds(v: nat)
    ensures
        limb_count(v) >= 1,
        v < weight(limb_count(v)),
        limb_count(v) > 1 ==> weight((limb_count(v) - 1) as nat) <= v,
    decreases v,
{
    reveal_with_fuel(weight, 2);
    if v >= base() {
        let q = v / base();
        lemma_fundamental_div_mod(v as int, base() as int);
        lemma_mod_bound(v as int, base() as int);
        lemma_limb_count_bounds(q);
        let c = limb_count(q);
        let wc = weight(c);
        assert(v < base() * wc) by (nonlinear_arith)
            requires
                v == base() * q + v % base(),
                v % base() < base(),
                q < wc,
        ;
        if c > 1 {
            let wp = weight((c - 1) as nat);
            assert(base() * wp <= v) by (nonlinear_arith)
                requires
                    v == base() * q + v % base(),
                    wp <= q,
            ;
        }
    }
}

/// How many limbs the canonical representation has is fixed by the two
/// weights between which the number lies.
pub proof fn lemma_limb_count_between(v: nat, n: nat)
    requires
        n >= 1,
        v < weight(n),
        n > 1 ==> weight((n - 1) as nat) <= v,
    ensures
        limb_count(v) == n,
{
    lemma_limb_count_bounds(v);
    let c = limb_count(v);
    if c < n {
        lemma_weight_monotonic(c, (n - 1) as nat);
    } else if c > n {
        lemma_weight_monotonic(n, (c - 1) as nat);
    }
}

/// The canonical representation of a number stands for it, is not empty,
/// and carries no superfluous zero limb.
pub proof fn lemma_canonical(v: nat)
    ensures
        limbs_value(canonical(v)) == v,
        canonical(v).len() == limb_count(v),
        canonical(v).len() >= 1,
        is_trimmed(canonical(v)),
{
    let c = limb_count(v);
    lemma_limb_count_bounds(v);
    lemma_to_limbs_value(v, c);
    lemma_small_mod(v, weight(c));
    if c > 1 {
        let m = (c - 1) as nat;
        let w = weight(m);
        lemma_weight_positive(m);
        assert(weight(c) == base() * w);
        lemma_div_is_ordered(w as int, v as int, w as int);
        assert(w / w == 1) by {
            lemma_div_multiples_vanish(1, w as int);
            assert(w * 1 == w);
        }
        lemma_fundamental_div_mod(v as int, w as int);
        lemma_mod_bound(v as int, w as int);
        let q = v / w;
        assert(q < base()) by (nonlinear_arith)
            requires
                v == w * q + v % w,
                v < base() * w,
                0 <= v % w,
                w > 0,
        ;
        lemma_small_mod(q, base());
        assert(canonical(v).last() == limb_at(v, m));
    }
}

/// A non-empty sequence without superfluous zero limbs is the canonical
/// representation of its number.
pub proof fn lemma_canonical_unique(s: Seq<u64>)
    requires
        s.len() >= 1,
        is_trimmed(s),
    ensures
        s == canonical(limbs_value(s)),
{
    let v = limbs_value(s);
    let n = s.len();
    lemma_value_bound(s);
    if n > 1 {
        let m = (n - 1) as nat;
        let x = s.last() as nat;
        let w = weight(m);
        assert(x * w >= w) by (nonlinear_arith)
            requires
                x >= 1,
        ;
    }
    lemma_limb_count_between(v, n);
    lemma_to_limbs_of_value(s);
}

/// High-order zero limbs do not change the number.
pub proof fn lemma_value_strip(s: Seq<u64>, n: int)
    requires
        0 <= n <= s.len(),
        forall|i: int| n <= i < s.len() ==> s[i] == 0,
    ensures
        limbs_value(s.take(n)) == limbs_value(s),
{
    let k = (s.len() - n) as nat;
    assert(s =~= s.take(n) + zeros(k));
    lemma_value_concat(s.take(n), zeros(k));
    lemma_value_zeros(k);
    assert(weight(n as nat) * 0 == 0);
}

/// A sequence whose top limb is not zero stands for a number that reaches
/// the weight of that limb.
pub proof fn lemma_value_lower_bound(s: Seq<u64>)
    requires
        s.len() > 0,
        s.last() != 0,
    ensures
        limbs_value(s) >= weight((s.len() - 1) as nat),
{
    let x = s.last() as nat;
    let w = weight((s.len() - 1) as nat);
    assert(x * w >= w) by (nonlinear_arith)
        requires
            x >= 1,
    ;
}

/// Of two sequences of one length that agree above limb `k`, the one with
/// the smaller limb `k` stands for the smaller number.
pub proof fn lemma_value_order_by_top(a: Seq<u64>, b: Seq<u64>, k: int)
    requires
        a.len() == b.len(),
        0 <= k < a.len(),
        a.skip(k + 1) == b.skip(k + 1),
        a[k] < b[k],
    ensures
        limbs_value(a) < limbs_value(b),
{
    lemma_value_split(a, k + 1);
    lemma_value_split(b, k + 1);
    lemma_value_take_step(a, k);
    lemma_value_take_step(b, k);
    lemma_value_bound(a.take(k));
    let w = weight(k as nat);
    let x = a[k] as nat;
    let y = b[k] as nat;
    assert(x * w + w <= y * w) by (nonlinear_arith)
        requires
            x + 1 <= y,
    ;
}

/// A sequence of `n` or `n + 1` limbs that stands for `v`, with the extra
/// limb only where `v` needs it, is `fit_limbs(v, n)`.
pub proof fn lemma_fit_determined(s: Seq<u64>, v: nat, n: nat)
    requires
        limbs_value(s) == v,
        s.len() == n || s.len() == n + 1,
        s.len() == n + 1 ==> v >= weight(n),
    ensures
        s == fit_limbs(v, n),
{
    lemma_value_bound(s);
    lemma_to_limbs_of_value(s);
}

/// Where `v` is below `weight(n + 1)`, `fit_limbs(v, n)` stands for `v`.
pub proof fn lemma_fit_value(v: nat, n: nat)
    requires
        v < weight(n + 1),
    ensures
        limbs_value(fit_limbs(v, n)) == v,
        fit_limbs(v, n).len() == (if v < weight(n) {
            n
        } else {
            n + 1
        }),
{
    lemma_to_limbs_value(v, n);
    lemma_to_limbs_value(v, n + 1);
    lemma_weight_positive(n);
    lemma_weight_positive(n + 1);
    if v < weight(n) {
        lemma_small_mod(v, weight(n));
    } else {
        lemma_small_mod(v, weight(n + 1));
    }
}

/// A number below `weight(n)` has a canonical representation of at most
/// `n` limbs.
pub proof fn lemma_limb_count_upper(v: nat, n: nat)
    requires
        n >= 1,
        v < weight(n),
    ensures
        limb_count(v) <= n,
{
    lemma_limb_count_bounds(v);
    let c = limb_count(v);
    if c > n {
        lemma_weight_monotonic(n, (c - 1) as nat);
    }
}

/// Trimming a non-empty sequence gives the canonical representation of its
/// number.
pub proof fn lemma_trimmed_canonical(s: Seq<u64>)
    requires
        s.len() > 0,
    ensures
        trimmed(s) == canonical(limbs_value(s)),
{
    lemma_trimmed(s);
    lemma_canonical_unique(trimmed(s));
}

/// A sequence is the canonical representation of its number exactly when
/// it is not empty and carries no superfluous zero limb.
pub proof fn lemma_canonical_iff(s: Seq<u64>)
    ensures
        (s == canonical(limbs_value(s))) <==> (s.len() >= 1 && is_trimmed(s)),
{
    lemma_canonical(limbs_value(s));
    if s.len() >= 1 && is_trimmed(s) {
        lemma_canonical_unique(s);
    }
}

} // verus!
