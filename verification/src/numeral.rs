//! Numerals as text: what number a sequence of digit characters stands for,
//! how a text is cut into packets, and what limbs folding the packets
//! leaves.

use crate::grou::add::{add_limbs, lemma_add_limbs_value, longer};
use crate::grou::multiply::{lemma_scale_limbs_value, scale_limbs};
use crate::model::{
    base, lemma_fit_determined, lemma_value_concat, lemma_value_empty, lemma_value_single,
    lemma_weight_step, limbs_value, weight,
};
use crate::radix_convert::{
    BASE_DECIMAL, BASE_HEXADECIMAL, BINARY_PACKET, DECIMAL_PACKET, HEXADECIMAL_PACKET,
};
use vstd::prelude::*;

verus! {

/// The number that a character stands for as a digit, or 36 where it is
/// none: `0` to `9`, then the letters of either case from ten on.
pub open spec fn digit_value(c: u8) -> nat {
    if 48 <= c <= 57 {
        (c - 48) as nat
    } else if 97 <= c <= 122 {
        (c - 97 + 10) as nat
    } else if 65 <= c <= 90 {
        (c - 65 + 10) as nat
    } else {
        36
    }
}

/// Whether every character is a digit of the base.
pub open spec fn digits_valid(d: Seq<u8>, base: nat) -> bool {
    forall|i: int| 0 <= i < d.len() ==> digit_value(#[trigger] d[i]) < base
}

/// The number that a sequence of digit characters stands for, most
/// significant digit first.
pub open spec fn digits_value(d: Seq<u8>, base: nat) -> nat
    decreases d.len(),
{
    if d.len() == 0 {
        0
    } else {
        digits_value(d.drop_last(), base) * base + digit_value(d.last())
    }
}

/// `b` to the power `n`.
pub open spec fn power(b: nat, n: nat) -> nat
    decreases n,
{
    if n == 0 {
        1
    } else {
        b * power(b, (n - 1) as nat)
    }
}

/// Ten to the power `n`.
pub open spec fn pow10(n: nat) -> nat {
    power(10, n)
}

/// The digits of a packet: the packet without the plus sign that it may
/// begin with.
pub open spec fn packet_digits(p: Seq<u8>) -> Seq<u8> {
    if p.len() > 0 && p[0] == 43 {
        p.skip(1)
    } else {
        p
    }
}

/// Whether a packet reads as a number of one limb: at least one digit,
/// digits of the base only, and a value that a limb holds.
pub open spec fn packet_parses(p: Seq<u8>, base: nat) -> bool {
    &&& packet_digits(p).len() > 0
    &&& digits_valid(packet_digits(p), base)
    &&& digits_value(packet_digits(p), base) <= u64::MAX
}

/// The number that a packet stands for.
pub open spec fn packet_value(p: Seq<u8>, base: nat) -> nat {
    digits_value(packet_digits(p), base)
}

/// The packets of a text, the one at the end of the text first. Each has
/// `packet_length` characters but the last, which has what is left.
pub open spec fn packets(s: Seq<u8>, packet_length: nat) -> Seq<Seq<u8>>
    recommends
        packet_length > 0,
    decreases s.len(),
{
    if s.len() == 0 {
        Seq::<Seq<u8>>::empty()
    } else if s.len() <= packet_length || packet_length == 0 {
        seq![s]
    } else {
        seq![s.subrange(s.len() - packet_length, s.len() as int)] + packets(
            s.subrange(0, s.len() - packet_length),
            packet_length,
        )
    }
}

/// Whether every packet of a text reads as a number.
pub open spec fn text_parses(s: Seq<u8>, packet_length: nat, base: nat) -> bool {
    forall|i: int|
        0 <= i < packets(s, packet_length).len() ==> packet_parses(
            #[trigger] packets(s, packet_length)[i],
            base,
        )
}

/// The numbers of the packets of a text, least significant first.
pub open spec fn proto_digits(s: Seq<u8>, packet_length: nat, base: nat) -> Seq<u64> {
    Seq::new(
        packets(s, packet_length).len(),
        |i: int| packet_value(packets(s, packet_length)[i], base) as u64,
    )
}

/// The limbs that folding leaves: from the most significant proto-digit
/// down, the number so far is multiplied by the base and the proto-digit is
/// added.
pub open spec fn horner_limbs(digits: Seq<u64>, base: u64) -> Seq<u64>
    decreases digits.len(),
{
    if digits.len() == 0 {
        Seq::<u64>::empty()
    } else {
        add_limbs(scale_limbs(horner_limbs(digits.skip(1), base), base), seq![digits[0]])
    }
}

/// The number that a sequence of proto-digits stands for in a base.
pub open spec fn horner_value(digits: Seq<u64>, base: nat) -> nat
    decreases digits.len(),
{
    if digits.len() == 0 {
        0
    } else {
        horner_value(digits.skip(1), base) * base + digits[0] as nat
    }
}

/// The limbs of a decimal numeral.
pub open spec fn decimal_limbs(s: Seq<u8>) -> Seq<u64> {
    horner_limbs(proto_digits(s, DECIMAL_PACKET as nat, 10), BASE_DECIMAL)
}

/// The limbs of a hexadecimal numeral without its prefix.
pub open spec fn hexadecimal_limbs(s: Seq<u8>) -> Seq<u64> {
    horner_limbs(proto_digits(s, HEXADECIMAL_PACKET as nat, 16), BASE_HEXADECIMAL)
}

/// The limbs of a binary numeral without its prefix: a packet holds as
/// many digits as a limb has bits, so its packets are its limbs.
pub open spec fn binary_limbs(s: Seq<u8>) -> Seq<u64> {
    proto_digits(s, BINARY_PACKET as nat, 2)
}

/// The text behind the two characters of a prefix.
pub open spec fn behind_prefix(s: Seq<u8>) -> Seq<u8>
    recommends
        s.len() >= 2,
{
    s.skip(2)
}

/// Whether a text begins with the prefix of a hexadecimal numeral, `0x`.
pub open spec fn is_hexadecimal(s: Seq<u8>) -> bool {
    s.len() >= 2 && s[0] == 48 && s[1] == 120
}

/// Whether a text begins with the prefix of a binary numeral, `0b`.
pub open spec fn is_binary(s: Seq<u8>) -> bool {
    s.len() >= 2 && s[0] == 48 && s[1] == 98
}

/// Whether a text is a numeral: behind a prefix the digits of its base,
/// decimal digits without one. The empty text is a numeral.
pub open spec fn numeral_parses(s: Seq<u8>) -> bool {
    if is_hexadecimal(s) {
        text_parses(behind_prefix(s), HEXADECIMAL_PACKET as nat, 16)
    } else if is_binary(s) {
        text_parses(behind_prefix(s), BINARY_PACKET as nat, 2)
    } else {
        text_parses(s, DECIMAL_PACKET as nat, 10)
    }
}

/// The limbs of a numeral. The empty text has none.
pub open spec fn numeral_limbs(s: Seq<u8>) -> Seq<u64> {
    if is_hexadecimal(s) {
        hexadecimal_limbs(behind_prefix(s))
    } else if is_binary(s) {
        binary_limbs(behind_prefix(s))
    } else {
        decimal_limbs(s)
    }
}

/// Whether a text is a numeral without signs: behind a prefix the digits of
/// its base, decimal digits without one.
pub open spec fn numeral_is_plain(s: Seq<u8>) -> bool {
    if is_hexadecimal(s) {
        digits_valid(behind_prefix(s), 16)
    } else if is_binary(s) {
        digits_valid(behind_prefix(s), 2)
    } else {
        digits_valid(s, 10)
    }
}

/// The number that a numeral without signs stands for.
pub open spec fn numeral_value(s: Seq<u8>) -> nat {
    if is_hexadecimal(s) {
        digits_value(behind_prefix(s), 16)
    } else if is_binary(s) {
        digits_value(behind_prefix(s), 2)
    } else {
        digits_value(s, 10)
    }
}

/// The number that a sequence of decimal digits stands for, most
/// significant first. The digits are numbers here, not characters.
pub open spec fn group_value(d: Seq<u8>) -> nat
    decreases d.len(),
{
    if d.len() == 0 {
        0
    } else {
        group_value(d.drop_last()) * 10 + d.last() as nat
    }
}

/// Whether every element is a decimal digit.
pub open spec fn all_decimal(d: Seq<u8>) -> bool {
    forall|i: int| 0 <= i < d.len() ==> #[trigger] d[i] <= 9
}

/// The proto-digits of a sequence of decimal digits, least significant
/// first: one for every nineteen digits from the end, and one for the
/// digits that are left at the start, unless these stand for zero and
/// another proto-digit is there already (`first` says that none is).
pub open spec fn digit_groups(d: Seq<u8>, first: bool) -> Seq<u64>
    decreases d.len(),
{
    if d.len() == 0 {
        Seq::<u64>::empty()
    } else if d.len() < 19 {
        if first || group_value(d) > 0 {
            seq![group_value(d) as u64]
        } else {
            Seq::<u64>::empty()
        }
    } else {
        seq![group_value(d.subrange(d.len() - 19, d.len() as int)) as u64] + digit_groups(
            d.subrange(0, d.len() - 19),
            false,
        )
    }
}

/// The decimal numeral of a number, without leading zeros.
pub open spec fn decimal_text(n: nat) -> Seq<u8>
    decreases n,
{
    if n < 10 {
        seq![(48 + n) as u8]
    } else {
        decimal_text(n / 10).push((48 + n % 10) as u8)
    }
}

/// A longer numeral does not stand for a smaller number than its beginning.
pub proof fn lemma_digits_value_grows(d: Seq<u8>, base: nat, k: int)
    requires
        0 <= k <= d.len(),
        base >= 1,
    ensures
        digits_value(d.take(k), base) <= digits_value(d, base),
    decreases d.len(),
{
    if k == d.len() {
        assert(d.take(k) =~= d);
    } else {
        lemma_digits_value_grows(d.drop_last(), base, k);
        assert(d.drop_last().take(k) =~= d.take(k));
        let v = digits_value(d.drop_last(), base);
        assert(v <= v * base) by (nonlinear_arith)
            requires
                base >= 1,
        ;
    }
}

/// What folding leaves stands for the number that the proto-digits stand
/// for in the base.
pub proof fn lemma_horner_value(digits: Seq<u64>, base: u64)
    ensures
        limbs_value(horner_limbs(digits, base)) == horner_value(digits, base as nat),
    decreases digits.len(),
{
    if digits.len() > 0 {
        let rest = horner_limbs(digits.skip(1), base);
        lemma_horner_value(digits.skip(1), base);
        lemma_scale_limbs_value(rest, base);
        lemma_add_limbs_value(scale_limbs(rest, base), seq![digits[0]]);
        lemma_value_single(digits[0]);
    }
}

/// The powers of ten up to the nineteenth, which is the decimal base of
/// folding.
pub proof fn lemma_pow10_bounds(n: nat)
    ensures
        pow10(n) >= 1,
        n <= 18 ==> pow10(n) <= 1_000_000_000_000_000_000,
        n == 19 ==> pow10(n) == 10_000_000_000_000_000_000,
        n < 19 ==> pow10(n) != 10_000_000_000_000_000_000,
    decreases n,
{
    if n > 0 {
        lemma_pow10_bounds((n - 1) as nat);
    }
    if n == 19 {
        reveal_with_fuel(power, 20);
    }
    if n == 18 {
        reveal_with_fuel(power, 19);
    }
}

/// A digit in front of a group adds itself times the power of ten of the
/// group's length.
pub proof fn lemma_group_value_prepend(x: u8, g: Seq<u8>)
    requires
        x <= 9,
        all_decimal(g),
    ensures
        group_value(seq![x] + g) == x as nat * pow10(g.len()) + group_value(g),
        group_value(g) < pow10(g.len()),
    decreases g.len(),
{
    let whole = seq![x] + g;
    if g.len() == 0 {
        assert(whole.drop_last() =~= Seq::<u8>::empty());
        assert(group_value(whole.drop_last()) == 0);
        assert(x as nat * 1 == x as nat);
    } else {
        assert(whole.drop_last() =~= seq![x] + g.drop_last());
        assert(all_decimal(g.drop_last())) by {
            assert forall|i: int| 0 <= i < g.drop_last().len() implies #[trigger] g.drop_last()[i]
                <= 9 by {
                assert(g.drop_last()[i] == g[i]);
            }
        }
        lemma_group_value_prepend(x, g.drop_last());
        let p = pow10((g.len() - 1) as nat);
        assert((x as nat * p) * 10 == x as nat * (10 * p)) by (nonlinear_arith);
        assert(g[g.len() - 1] <= 9);
        assert(whole.last() == g.last());
    }
}

/// With nineteen digits or more, the groups do not depend on whether a
/// proto-digit is there already.
pub proof fn lemma_full_group_any(d: Seq<u8>)
    requires
        d.len() >= 19,
    ensures
        digit_groups(d, true) == digit_groups(d, false),
{
}

/// The decimal numeral of a number is made of decimal digits, stands for
/// the number, and is as long as the number needs.
pub proof fn lemma_decimal_text(n: nat)
    ensures
        decimal_text(n).len() >= 1,
        forall|i: int| 0 <= i < decimal_text(n).len() ==> 48 <= #[trigger] decimal_text(n)[i] <= 57,
        digits_valid(decimal_text(n), 10),
        digits_value(decimal_text(n), 10) == n,
        n < pow10(decimal_text(n).len()),
        decimal_text(n).len() > 1 ==> n >= pow10((decimal_text(n).len() - 1) as nat),
    decreases n,
{
    let t = decimal_text(n);
    reveal_with_fuel(power, 2);
    if n < 10 {
        assert(t.drop_last() =~= Seq::<u8>::empty());
        assert(digits_value(t.drop_last(), 10) == 0);
        assert(digit_value(t.last()) == n);
    } else {
        let head = decimal_text(n / 10);
        lemma_decimal_text(n / 10);
        assert(t.drop_last() =~= head);
        assert(digit_value(t.last()) == n % 10);
        assert forall|i: int| 0 <= i < t.len() implies 48 <= #[trigger] t[i] <= 57 by {
            if i < head.len() {
                assert(t[i] == head[i]);
            }
        }
        assert(digits_valid(t, 10)) by {
            assert forall|i: int| 0 <= i < t.len() implies digit_value(#[trigger] t[i]) < 10 by {
                assert(48 <= t[i] <= 57);
            }
        }
    }
}

/// Folding one proto-digit gives the limb that holds it.
pub proof fn lemma_horner_single(d: u64, base: u64)
    ensures
        horner_limbs(seq![d], base) == seq![d],
{
    let digits = seq![d];
    assert(digits.skip(1) =~= Seq::<u64>::empty());
    let empty = Seq::<u64>::empty();
    assert(horner_limbs(digits.skip(1), base) == empty);
    lemma_value_empty();
    assert(0 * base as nat == 0);
    lemma_fit_determined(empty, 0, 0);
    assert(scale_limbs(empty, base) == empty);
    lemma_value_single(d);
    lemma_fit_determined(seq![d], d as nat, 1);
    assert(longer(0, 1) == 1);
}

/// Reading the decimal numeral of a number that one limb holds gives back
/// the number, as its single limb.
pub proof fn lemma_decimal_round_trip(n: u64)
    ensures
        !is_hexadecimal(decimal_text(n as nat)),
        !is_binary(decimal_text(n as nat)),
        text_parses(decimal_text(n as nat), DECIMAL_PACKET as nat, 10),
        decimal_limbs(decimal_text(n as nat)) == seq![n],
{
    let t = decimal_text(n as nat);
    lemma_decimal_text(n as nat);
    let len = t.len();
    assert(48 <= t[0] <= 57);
    if len >= 2 {
        assert(48 <= t[1] <= 57);
    }
    assert(len <= 20) by {
        if len > 20 {
            lemma_pow10_monotonic(20, (len - 1) as nat);
            reveal_with_fuel(power, 21);
        }
    }
    if len <= 19 {
        let all = packets(t, DECIMAL_PACKET as nat);
        assert(all =~= seq![t]);
        assert(packet_digits(t) == t);
        assert(packet_parses(t, 10));
        assert(proto_digits(t, DECIMAL_PACKET as nat, 10) =~= seq![n]);
        lemma_horner_single(n, BASE_DECIMAL);
    } else {
        let head = t.subrange(0, 1);
        let tail = t.subrange(1, 20);
        assert(t =~= head + tail);
        assert(digits_valid(tail, 10)) by {
            assert forall|i: int| 0 <= i < tail.len() implies digit_value(#[trigger] tail[i])
                < 10 by {
                assert(tail[i] == t[i + 1]);
                assert(48 <= t[i + 1] <= 57);
            }
        }
        lemma_digits_concat(head, tail, 10);
        lemma_pow10_bounds(19);
        let d = digit_value(t[0]);
        assert(head.drop_last() =~= Seq::<u8>::empty());
        assert(digits_value(head.drop_last(), 10) == 0);
        assert(digits_value(head, 10) == d);
        let low = digits_value(tail, 10);
        assert(n == d * pow10(19) + low);
        assert(d == 1) by (nonlinear_arith)
            requires
                n == d * 10_000_000_000_000_000_000 + low,
                n >= 10_000_000_000_000_000_000,
                low < 10_000_000_000_000_000_000,
                n <= 0xffff_ffff_ffff_ffff,
        ;
        assert(1 * pow10(19) == pow10(19));
        let inner = packets(head, DECIMAL_PACKET as nat);
        assert(inner =~= seq![head]);
        let all = packets(t, DECIMAL_PACKET as nat);
        assert(t.subrange(t.len() - 19, t.len() as int) =~= tail);
        assert(t.subrange(0, t.len() - 19) =~= head);
        assert(all =~= seq![tail, head]);
        assert(48 <= tail[0] <= 57) by {
            assert(tail[0] == t[1]);
        }
        assert(packet_digits(tail) == tail);
        assert(packet_digits(head) == head);
        assert(digits_valid(head, 10)) by {
            assert forall|i: int| 0 <= i < head.len() implies digit_value(#[trigger] head[i])
                < 10 by {
                assert(head[i] == t[i]);
            }
        }
        assert(packet_parses(tail, 10));
        assert(packet_parses(head, 10));
        assert(text_parses(t, DECIMAL_PACKET as nat, 10)) by {
            assert forall|i: int| 0 <= i < all.len() implies packet_parses(#[trigger] all[i], 10) by {
                if i == 0 {
                    assert(all[i] == tail);
                } else {
                    assert(all[i] == head);
                }
            }
        }
        let protos = proto_digits(t, DECIMAL_PACKET as nat, 10);
        assert(protos =~= seq![low as u64, 1u64]);
        assert(protos.skip(1) =~= seq![1u64]);
        lemma_horner_single(1, BASE_DECIMAL);
        lemma_value_single(1);
        lemma_value_single(BASE_DECIMAL);
        lemma_value_single(low as u64);
        lemma_value_single(n);
        assert(1 * BASE_DECIMAL as nat == BASE_DECIMAL as nat);
        lemma_fit_determined(seq![BASE_DECIMAL], BASE_DECIMAL as nat, 1);
        assert(scale_limbs(seq![1u64], BASE_DECIMAL) == seq![BASE_DECIMAL]);
        assert(longer(1, 1) == 1);
        lemma_fit_determined(seq![n], n as nat, 1);
    }
}

/// A higher power of ten is not smaller.
pub proof fn lemma_pow10_monotonic(m: nat, n: nat)
    requires
        m <= n,
    ensures
        pow10(m) <= pow10(n),
    decreases n,
{
    if m < n {
        lemma_pow10_monotonic(m, (n - 1) as nat);
    }
}

/// A power of a base that is at least one grows with the exponent.
pub proof fn lemma_power_monotonic(b: nat, m: nat, n: nat)
    requires
        b >= 1,
        m <= n,
    ensures
        1 <= power(b, m) <= power(b, n),
    decreases n,
{
    if n == 0 {
    } else if m < n {
        lemma_power_monotonic(b, m, (n - 1) as nat);
        let q = power(b, (n - 1) as nat);
        assert(q <= b * q) by (nonlinear_arith)
            requires
                b >= 1,
        ;
    } else {
        lemma_power_monotonic(b, (m - 1) as nat, (n - 1) as nat);
        let q = power(b, (n - 1) as nat);
        assert(1 <= b * q) by (nonlinear_arith)
            requires
                b >= 1,
                q >= 1,
        ;
    }
}

/// A numeral made of two parts stands for the first part, moved up by the
/// length of the second, plus the second, which stays below the power of
/// the base that its length gives.
pub proof fn lemma_digits_concat(x: Seq<u8>, y: Seq<u8>, base: nat)
    requires
        base >= 1,
        digits_valid(y, base),
    ensures
        digits_value(x + y, base) == digits_value(x, base) * power(base, y.len()) + digits_value(
            y,
            base,
        ),
        digits_value(y, base) < power(base, y.len()),
    decreases y.len(),
{
    if y.len() == 0 {
        assert(x + y =~= x);
        assert(digits_value(x, base) * 1 == digits_value(x, base));
    } else {
        let whole = x + y;
        assert(whole.drop_last() =~= x + y.drop_last());
        assert(whole.last() == y.last());
        assert(digits_valid(y.drop_last(), base)) by {
            assert forall|i: int| 0 <= i < y.drop_last().len() implies digit_value(
                #[trigger] y.drop_last()[i],
            ) < base by {
                assert(y.drop_last()[i] == y[i]);
            }
        }
        lemma_digits_concat(x, y.drop_last(), base);
        let p = power(base, (y.len() - 1) as nat);
        let vx = digits_value(x, base);
        let vy = digits_value(y.drop_last(), base);
        let d = digit_value(y[y.len() - 1]);
        assert(d < base);
        assert((vx * p + vy) * base == vx * (base * p) + vy * base) by (nonlinear_arith);
        assert(vy * base + d < base * p) by (nonlinear_arith)
            requires
                vy < p,
                d < base,
        ;
    }
}

/// The limbs of a number, read as proto-digits of the radix of the
/// representation, stand for the same number.
pub proof fn lemma_limbs_are_horner(d: Seq<u64>)
    ensures
        limbs_value(d) == horner_value(d, base()),
    decreases d.len(),
{
    if d.len() > 0 {
        lemma_limbs_are_horner(d.skip(1));
        assert(d =~= seq![d[0]] + d.skip(1));
        lemma_value_concat(seq![d[0]], d.skip(1));
        lemma_value_single(d[0]);
        lemma_weight_step(0);
        let h = horner_value(d.skip(1), base());
        assert(weight(1) * h == h * base()) by (nonlinear_arith)
            requires
                weight(1) == base(),
        ;
    }
}

/// A text of digits of the base, cut into packets of a length whose power
/// of the base `big` one limb can count to, parses, and its proto-digits in
/// the base `big` stand for the number that the text stands for.
pub proof fn lemma_text_value(s: Seq<u8>, packet_length: nat, base: nat, big: nat)
    requires
        packet_length > 0,
        2 <= base <= 36,
        digits_valid(s, base),
        big == power(base, packet_length),
        big <= 0x1_0000_0000_0000_0000,
    ensures
        text_parses(s, packet_length, base),
        horner_value(proto_digits(s, packet_length, base), big) == digits_value(s, base),
    decreases s.len(),
{
    let all = packets(s, packet_length);
    let protos = proto_digits(s, packet_length, base);
    if s.len() == 0 {
        assert(protos =~= Seq::<u64>::empty());
    } else if s.len() <= packet_length {
        assert(all =~= seq![s]);
        assert(digit_value(s[0]) < base);
        assert(packet_digits(s) == s);
        lemma_digits_concat(Seq::<u8>::empty(), s, base);
        lemma_power_monotonic(base, s.len(), packet_length);
        assert(packet_parses(s, base));
        assert(protos =~= seq![digits_value(s, base) as u64]);
        assert(protos.skip(1) =~= Seq::<u64>::empty());
        assert(horner_value(protos.skip(1), big) == 0);
        assert(0 * big == 0);
    } else {
        let cut = s.len() - packet_length;
        let tail = s.subrange(cut, s.len() as int);
        let head = s.subrange(0, cut);
        assert(s =~= head + tail);
        assert(digits_valid(tail, base)) by {
            assert forall|i: int| 0 <= i < tail.len() implies digit_value(#[trigger] tail[i])
                < base by {
                assert(tail[i] == s[cut + i]);
            }
        }
        assert(digits_valid(head, base)) by {
            assert forall|i: int| 0 <= i < head.len() implies digit_value(#[trigger] head[i])
                < base by {
                assert(head[i] == s[i]);
            }
        }
        lemma_text_value(head, packet_length, base, big);
        lemma_digits_concat(head, tail, base);
        assert(digit_value(tail[0]) < base);
        assert(packet_digits(tail) == tail);
        assert(packet_parses(tail, base));
        let inner = packets(head, packet_length);
        assert(all =~= seq![tail] + inner);
        assert(text_parses(s, packet_length, base)) by {
            assert forall|i: int| 0 <= i < all.len() implies packet_parses(#[trigger] all[i], base) by {
                if i > 0 {
                    assert(all[i] == inner[i - 1]);
                }
            }
        }
        let rest = proto_digits(head, packet_length, base);
        assert(protos.skip(1) =~= rest) by {
            assert forall|i: int| 0 <= i < rest.len() implies protos.skip(1)[i] == rest[i] by {
                assert(all[i + 1] == inner[i]);
            }
        }
        assert(protos[0] == digits_value(tail, base) as u64);
    }
}

/// The bases of folding are the powers of the radix that the packet lengths
/// give; for binary numerals that is the radix of the limbs.
pub proof fn lemma_packet_bases()
    ensures
        power(10, DECIMAL_PACKET as nat) == BASE_DECIMAL,
        power(16, HEXADECIMAL_PACKET as nat) == BASE_HEXADECIMAL,
        power(2, BINARY_PACKET as nat) == base(),
{
    assert(power(10, 19) == 10_000_000_000_000_000_000) by {
        reveal_with_fuel(power, 20);
    }
    assert(power(16, 15) == 0x1000_0000_0000_0000) by {
        reveal_with_fuel(power, 16);
    }
    assert(power(2, 16) == 0x1_0000) by {
        reveal_with_fuel(power, 17);
    }
    lemma_power_add(2, 16, 16);
    assert(power(2, 32) == 0x1_0000_0000) by {
        assert(0x1_0000 * 0x1_0000 == 0x1_0000_0000) by (nonlinear_arith);
    }
    lemma_power_add(2, 32, 32);
    assert(power(2, 64) == 0x1_0000_0000_0000_0000) by {
        assert(0x1_0000_0000 * 0x1_0000_0000 == 0x1_0000_0000_0000_0000) by (nonlinear_arith);
    }
}

/// Powers of one base multiply by adding the exponents.
pub proof fn lemma_power_add(b: nat, m: nat, n: nat)
    ensures
        power(b, m + n) == power(b, m) * power(b, n),
    decreases n,
{
    if n == 0 {
        assert(power(b, m) * 1 == power(b, m));
    } else {
        lemma_power_add(b, m, (n - 1) as nat);
        let p = power(b, m);
        let q = power(b, (n - 1) as nat);
        assert(power(b, m + n) == b * power(b, (m + n - 1) as nat));
        assert(b * (p * q) == p * (b * q)) by (nonlinear_arith);
    }
}

/// A sequence of decimal digits made of two parts stands for the first
/// part, moved up by the length of the second, plus the second, which stays
/// below the power of ten that its length gives.
pub proof fn lemma_group_concat(x: Seq<u8>, y: Seq<u8>)
    requires
        all_decimal(y),
    ensures
        group_value(x + y) == group_value(x) * pow10(y.len()) + group_value(y),
        group_value(y) < pow10(y.len()),
    decreases y.len(),
{
    if y.len() == 0 {
        assert(x + y =~= x);
        assert(group_value(x) * 1 == group_value(x));
    } else {
        let whole = x + y;
        assert(whole.drop_last() =~= x + y.drop_last());
        assert(whole.last() == y.last());
        assert(all_decimal(y.drop_last())) by {
            assert forall|i: int| 0 <= i < y.drop_last().len() implies #[trigger] y.drop_last()[i]
                <= 9 by {
                assert(y.drop_last()[i] == y[i]);
            }
        }
        lemma_group_concat(x, y.drop_last());
        let p = pow10((y.len() - 1) as nat);
        let vx = group_value(x);
        assert((vx * p) * 10 == vx * (10 * p)) by (nonlinear_arith);
        assert(y[y.len() - 1] <= 9);
    }
}

/// The proto-digits of a sequence of decimal digits stand, in the decimal
/// base of folding, for the number that the digits stand for.
pub proof fn lemma_digit_groups_value(d: Seq<u8>, first: bool)
    requires
        all_decimal(d),
    ensures
        horner_value(digit_groups(d, first), BASE_DECIMAL as nat) == group_value(d),
    decreases d.len(),
{
    let groups = digit_groups(d, first);
    lemma_pow10_bounds(19);
    if d.len() == 0 {
    } else if d.len() < 19 {
        lemma_group_concat(Seq::<u8>::empty(), d);
        lemma_pow10_monotonic(d.len(), 19);
        if first || group_value(d) > 0 {
            assert(groups.skip(1) =~= Seq::<u64>::empty());
            assert(horner_value(groups.skip(1), BASE_DECIMAL as nat) == 0);
            assert(0 * BASE_DECIMAL as nat == 0);
        }
    } else {
        let cut = d.len() - 19;
        let tail = d.subrange(cut, d.len() as int);
        let head = d.subrange(0, cut);
        assert(d =~= head + tail);
        assert(all_decimal(tail)) by {
            assert forall|i: int| 0 <= i < tail.len() implies #[trigger] tail[i] <= 9 by {
                assert(tail[i] == d[cut + i]);
            }
        }
        assert(all_decimal(head)) by {
            assert forall|i: int| 0 <= i < head.len() implies #[trigger] head[i] <= 9 by {
                assert(head[i] == d[i]);
            }
        }
        lemma_group_concat(head, tail);
        lemma_digit_groups_value(head, false);
        assert(groups.skip(1) =~= digit_groups(head, false));
        assert(groups[0] == group_value(tail) as u64);
    }
}

/// A text of decimal digits parses, and its limbs stand for the number
/// that the digits stand for.
pub proof fn lemma_decimal_value(s: Seq<u8>)
    requires
        digits_valid(s, 10),
    ensures
        text_parses(s, DECIMAL_PACKET as nat, 10),
        limbs_value(decimal_limbs(s)) == digits_value(s, 10),
{
    lemma_packet_bases();
    lemma_text_value(s, DECIMAL_PACKET as nat, 10, BASE_DECIMAL as nat);
    lemma_horner_value(proto_digits(s, DECIMAL_PACKET as nat, 10), BASE_DECIMAL);
}

/// A text of hexadecimal digits parses, and its limbs stand for the number
/// that the digits stand for.
pub proof fn lemma_hexadecimal_value(s: Seq<u8>)
    requires
        digits_valid(s, 16),
    ensures
        text_parses(s, HEXADECIMAL_PACKET as nat, 16),
        limbs_value(hexadecimal_limbs(s)) == digits_value(s, 16),
{
    lemma_packet_bases();
    lemma_text_value(s, HEXADECIMAL_PACKET as nat, 16, BASE_HEXADECIMAL as nat);
    lemma_horner_value(proto_digits(s, HEXADECIMAL_PACKET as nat, 16), BASE_HEXADECIMAL);
}

/// A text of binary digits parses, and its limbs stand for the number that
/// the digits stand for.
pub proof fn lemma_binary_value(s: Seq<u8>)
    requires
        digits_valid(s, 2),
    ensures
        text_parses(s, BINARY_PACKET as nat, 2),
        limbs_value(binary_limbs(s)) == digits_value(s, 2),
{
    lemma_packet_bases();
    lemma_text_value(s, BINARY_PACKET as nat, 2, base());
    lemma_limbs_are_horner(proto_digits(s, BINARY_PACKET as nat, 2));
}

/// A numeral without signs parses, and its limbs stand for the number that
/// the numeral stands for.
pub proof fn lemma_numeral_value(s: Seq<u8>)
    requires
        numeral_is_plain(s),
    ensures
        numeral_parses(s),
        limbs_value(numeral_limbs(s)) == numeral_value(s),
{
    if is_hexadecimal(s) {
        lemma_hexadecimal_value(behind_prefix(s));
    } else if is_binary(s) {
        lemma_binary_value(behind_prefix(s));
    } else {
        lemma_decimal_value(s);
    }
}

} // verus!
