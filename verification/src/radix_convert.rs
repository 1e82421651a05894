//! Reading numbers from text: decimal, or hexadecimal and binary behind the
//! prefixes `0x` and `0b`. A text is cut from its end into packets of as
//! many digits as one limb can count; every packet is read as one number,
//! and the numbers are folded into limbs, most significant first.

use crate::error::FormatError;
use crate::grou::add::longer;
use crate::grou::multiply::shift_limbs;
use crate::grou::Grou;
use crate::model::{
    lemma_fit_determined, lemma_value_bound, lemma_value_concat, lemma_value_single,
    lemma_weight_step, limbs_value,
};
use crate::numeral::{
    all_decimal, behind_prefix, binary_limbs, decimal_limbs, digit_groups, digit_value,
    digits_valid, digits_value, group_value, hexadecimal_limbs, horner_limbs, horner_value,
    lemma_binary_value, lemma_decimal_value, lemma_digit_groups_value, lemma_digits_value_grows,
    lemma_full_group_any, lemma_group_value_prepend, lemma_hexadecimal_value, lemma_horner_value,
    lemma_numeral_value, lemma_pow10_bounds, numeral_is_plain, numeral_limbs, numeral_parses,
    numeral_value, packet_digits, packet_parses, packet_value,
    packets, pow10, proto_digits, text_parses,
};
use vstd::prelude::*;
use vstd::slice::slice_subrange;
use vstd::string::StringSliceAdditionalSpecFns;

verus! {

/// Ten to the power nineteen: the largest power of ten that one limb holds.
pub const BASE_DECIMAL: u64 = 10_000_000_000_000_000_000u64;

/// Sixteen to the power fifteen: the largest power of sixteen that one limb
/// holds.
pub const BASE_HEXADECIMAL: u64 = 0x1000_0000_0000_0000u64;

/// The number of decimal digits in a packet.
pub const DECIMAL_PACKET: usize = 19;

/// The number of hexadecimal digits in a packet.
pub const HEXADECIMAL_PACKET: usize = 15;

/// The number of binary digits in a packet: a whole limb.
pub const BINARY_PACKET: usize = 64;

/// The digit that a character stands for in a base, if it is one.
fn read_digit(c: u8, base: u32) -> (r: Option<u64>)
    requires
        2 <= base <= 36,
    ensures
        digit_value(c) < base ==> r == Some(digit_value(c) as u64),
        digit_value(c) >= base ==> r.is_none(),
{
    let v: u32 = if 48 <= c && c <= 57 {
        (c - 48) as u32
    } else if 97 <= c && c <= 122 {
        (c - 97) as u32 + 10
    } else if 65 <= c && c <= 90 {
        (c - 65) as u32 + 10
    } else {
        36
    };
    if v < base {
        Some(v as u64)
    } else {
        None
    }
}

/// Reads one packet as a number in a base between 2 and 36. The packet may
/// begin with a plus sign; at least one digit must follow.
pub fn parse_packet(p: &[u8], base: u32) -> (r: Result<u64, FormatError>)
    requires
        2 <= base <= 36,
    ensures
        packet_parses(p@, base as nat) ==> r == Ok::<u64, FormatError>(
            packet_value(p@, base as nat) as u64,
        ),
        !packet_parses(p@, base as nat) ==> r == Err::<u64, FormatError>(
            FormatError::InvalidPacket,
        ),
{
    let n: usize = p.len();
    let first: usize = if n > 0 && p[0] == 43 {
        1
    } else {
        0
    };
    let ghost d = packet_digits(p@);
    assert(d =~= p@.skip(first as int));
    if first == n {
        return Err(FormatError::InvalidPacket);
    }
    let mut acc: u64 = 0;
    let mut i: usize = first;
    assert(d.take(0) =~= Seq::<u8>::empty());
    while i < n
        invariant
            first <= i <= n,
            n == p@.len(),
            2 <= base <= 36,
            d == p@.skip(first as int),
            d == packet_digits(p@),
            digits_valid(d.take(i - first), base as nat),
            acc == digits_value(d.take(i - first), base as nat),
        decreases n - i,
    {
        let ghost k = i - first;
        proof {
            assert(d.take(k + 1).drop_last() =~= d.take(k));
            assert(d.take(k + 1).last() == p@[i as int]);
            lemma_digits_value_grows(d, base as nat, k + 1);
        }
        match read_digit(p[i], base) {
            None => {
                assert(!digits_valid(d, base as nat)) by {
                    assert(d[k] == p@[i as int]);
                }
                return Err(FormatError::InvalidPacket);
            },
            Some(v) => {
                assert(acc as nat * base as nat <= 0xffff_ffff_ffff_ffff * 36) by (nonlinear_arith)
                    requires
                        acc <= 0xffff_ffff_ffff_ffff,
                        base <= 36,
                ;
                let wide: u128 = acc as u128 * base as u128 + v as u128;
                if wide > 0xffff_ffff_ffff_ffffu128 {
                    return Err(FormatError::InvalidPacket);
                }
                assert(digits_valid(d.take(k + 1), base as nat)) by {
                    assert forall|j: int| 0 <= j < d.take(k + 1).len() implies digit_value(
                        #[trigger] d.take(k + 1)[j],
                    ) < base by {
                        if j < k {
                            assert(d.take(k + 1)[j] == d.take(k)[j]);
                        }
                    }
                }
                acc = wide as u64;
            },
        }
        i += 1;
    }
    assert(d.take(n - first) =~= d);
    Ok(acc)
}

/// The contents of a sequence of slices.
pub open spec fn slices_view(v: Seq<&[u8]>) -> Seq<Seq<u8>> {
    Seq::new(v.len(), |i: int| v[i]@)
}

/// Cuts a text from its end into packets of `packet_length` characters; the
/// packet at the start of the text has what is left. The packet at the end
/// of the text comes first.
pub fn string_into_packets<'a>(s: &'a [u8], packet_length: usize) -> (r: Vec<&'a [u8]>)
    requires
        packet_length > 0,
    ensures
        slices_view(r@) == packets(s@, packet_length as nat),
{
    let mut ret_vec: Vec<&'a [u8]> = Vec::new();
    let mut end: usize = s.len();
    assert(s@.subrange(0, end as int) =~= s@);
    assert(slices_view(ret_vec@) =~= Seq::<Seq<u8>>::empty());
    while end > packet_length
        invariant
            packet_length > 0,
            end <= s@.len(),
            slices_view(ret_vec@) + packets(s@.subrange(0, end as int), packet_length as nat)
                == packets(s@, packet_length as nat),
        decreases end,
    {
        let last = slice_subrange(s, end - packet_length, end);
        proof {
            let head = s@.subrange(0, end as int);
            assert(head.subrange(head.len() - packet_length, head.len() as int) =~= last@);
            assert(head.subrange(0, head.len() - packet_length) =~= s@.subrange(
                0,
                end - packet_length,
            ));
            assert(slices_view(ret_vec@.push(last)) =~= slices_view(ret_vec@) + seq![last@]);
        }
        ret_vec.push(last);
        end -= packet_length;
    }
    if end > 0 {
        let first = slice_subrange(s, 0, end);
        proof {
            assert(slices_view(ret_vec@.push(first)) =~= slices_view(ret_vec@) + seq![first@]);
        }
        ret_vec.push(first);
    } else {
        assert(slices_view(ret_vec@) + Seq::<Seq<u8>>::empty() =~= slices_view(ret_vec@));
    }
    ret_vec
}

/// Reads a text as a sequence of proto-digits, least significant first:
/// one number for each packet.
pub fn string_into_base(s: &[u8], packet_length: usize, base: u32) -> (r: Result<
    Vec<u64>,
    FormatError,
>)
    requires
        packet_length > 0,
        2 <= base <= 36,
    ensures
        text_parses(s@, packet_length as nat, base as nat) ==> r is Ok && r->Ok_0@
            == proto_digits(s@, packet_length as nat, base as nat),
        !text_parses(s@, packet_length as nat, base as nat) ==> r == Err::<Vec<u64>, FormatError>(
            FormatError::InvalidPacket,
        ),
{
    let u = string_into_packets(s, packet_length);
    let ghost all = packets(s@, packet_length as nat);
    let mut v: Vec<u64> = Vec::new();
    let mut i: usize = 0;
    while i < u.len()
        invariant
            i <= u@.len(),
            2 <= base <= 36,
            slices_view(u@) == all,
            all == packets(s@, packet_length as nat),
            v@.len() == i,
            forall|j: int| 0 <= j < i ==> packet_parses(#[trigger] all[j], base as nat),
            forall|j: int| 0 <= j < i ==> v@[j] == packet_value(all[j], base as nat) as u64,
        decreases u@.len() - i,
    {
        assert(slices_view(u@)[i as int] == u@[i as int]@);
        match parse_packet(u[i], base) {
            Ok(value) => {
                v.push(value);
            },
            Err(e) => {
                assert(!packet_parses(all[i as int], base as nat));
                return Err(e);
            },
        }
        i += 1;
    }
    assert(v@ =~= proto_digits(s@, packet_length as nat, base as nat));
    Ok(v)
}

/// Folds proto-digits of a base into limbs: from the most significant
/// proto-digit, which is the last, down to the first, the number so far is
/// multiplied by the base and the proto-digit is added.
pub fn convert_to_binary(num_in_base: &[u64], base: u64) -> (r: Grou)
    ensures
        r@ == horner_limbs(num_in_base@, base),
        limbs_value(r@) == horner_value(num_in_base@, base as nat),
{
    let mut ret_grou = Grou::empty(num_in_base.len());
    let mut i: usize = num_in_base.len();
    assert(num_in_base@.skip(i as int) =~= Seq::<u64>::empty());
    while i > 0
        invariant
            i <= num_in_base@.len(),
            ret_grou@ == horner_limbs(num_in_base@.skip(i as int), base),
        decreases i,
    {
        i -= 1;
        assert(num_in_base@.skip(i as int).skip(1) =~= num_in_base@.skip(i + 1));
        ret_grou.multiply_small(base);
        ret_grou.addition_small(num_in_base[i]);
    }
    assert(num_in_base@.skip(0) =~= num_in_base@);
    proof {
        lemma_horner_value(num_in_base@, base);
    }
    ret_grou
}

/// Reads a decimal numeral.
#[allow(non_snake_case)]
pub fn convert_decimal_string_to_Grou(s: &str) -> (r: Result<Grou, FormatError>)
    ensures
        text_parses(s.spec_bytes(), DECIMAL_PACKET as nat, 10) ==> r is Ok && r->Ok_0@
            == decimal_limbs(s.spec_bytes()),
        !text_parses(s.spec_bytes(), DECIMAL_PACKET as nat, 10) ==> r == Err::<Grou, FormatError>(
            FormatError::InvalidPacket,
        ),
        digits_valid(s.spec_bytes(), 10) ==> r is Ok && limbs_value(r->Ok_0@) == digits_value(
            s.spec_bytes(),
            10,
        ),
{
    proof {
        if digits_valid(s.spec_bytes(), 10) {
            lemma_decimal_value(s.spec_bytes());
        }
    }
    match string_into_base(s.as_bytes(), DECIMAL_PACKET, 10) {
        Ok(base_b_num) => Ok(convert_to_binary(base_b_num.as_slice(), BASE_DECIMAL)),
        Err(e) => Err(e),
    }
}

/// Reads a hexadecimal numeral behind a prefix of two characters, which is
/// not looked at. A text too short to hold the prefix is no numeral.
#[allow(non_snake_case)]
pub fn convert_hexadecimal_string_to_Grou(s: &str) -> (r: Result<Grou, FormatError>)
    ensures
        (s.spec_bytes().len() >= 2 && text_parses(
            behind_prefix(s.spec_bytes()),
            HEXADECIMAL_PACKET as nat,
            16,
        )) ==> r is Ok && r->Ok_0@ == hexadecimal_limbs(behind_prefix(s.spec_bytes())),
        !(s.spec_bytes().len() >= 2 && text_parses(
            behind_prefix(s.spec_bytes()),
            HEXADECIMAL_PACKET as nat,
            16,
        )) ==> r == Err::<Grou, FormatError>(FormatError::InvalidPacket),
        (s.spec_bytes().len() >= 2 && digits_valid(behind_prefix(s.spec_bytes()), 16)) ==> r is Ok
            && limbs_value(r->Ok_0@) == digits_value(behind_prefix(s.spec_bytes()), 16),
{
    let bytes = s.as_bytes();
    if bytes.len() < 2 {
        return Err(FormatError::InvalidPacket);
    }
    let digits = slice_subrange(bytes, 2, bytes.len());
    assert(digits@ =~= behind_prefix(s.spec_bytes()));
    proof {
        if digits_valid(digits@, 16) {
            lemma_hexadecimal_value(digits@);
        }
    }
    match string_into_base(digits, HEXADECIMAL_PACKET, 16) {
        Ok(base_b_num) => Ok(convert_to_binary(base_b_num.as_slice(), BASE_HEXADECIMAL)),
        Err(e) => Err(e),
    }
}

/// Reads a binary numeral behind a prefix of two characters, which is not
/// looked at. A text too short to hold the prefix is no numeral. Every
/// packet fills one limb: from the most significant packet down, the number
/// so far moves up one limb and the packet is added.
#[allow(non_snake_case)]
pub fn convert_binary_string_to_Grou(s: &str) -> (r: Result<Grou, FormatError>)
    ensures
        (s.spec_bytes().len() >= 2 && text_parses(
            behind_prefix(s.spec_bytes()),
            BINARY_PACKET as nat,
            2,
        )) ==> r is Ok && r->Ok_0@ == binary_limbs(behind_prefix(s.spec_bytes())),
        !(s.spec_bytes().len() >= 2 && text_parses(
            behind_prefix(s.spec_bytes()),
            BINARY_PACKET as nat,
            2,
        )) ==> r == Err::<Grou, FormatError>(FormatError::InvalidPacket),
        (s.spec_bytes().len() >= 2 && digits_valid(behind_prefix(s.spec_bytes()), 2)) ==> r is Ok
            && limbs_value(r->Ok_0@) == digits_value(behind_prefix(s.spec_bytes()), 2),
{
    let bytes = s.as_bytes();
    if bytes.len() < 2 {
        return Err(FormatError::InvalidPacket);
    }
    let digits = slice_subrange(bytes, 2, bytes.len());
    assert(digits@ =~= behind_prefix(s.spec_bytes()));
    proof {
        if digits_valid(digits@, 2) {
            lemma_binary_value(digits@);
        }
    }
    match string_into_base(digits, BINARY_PACKET, 2) {
        Ok(base_b_num) => Ok(limbs_from_packets(base_b_num.as_slice())),
        Err(e) => Err(e),
    }
}

/// Folds proto-digits that fill a whole limb each: from the last down to
/// the first, the number so far moves up one limb and the proto-digit is
/// added. The proto-digits are then the limbs.
fn limbs_from_packets(num_in_base: &[u64]) -> (r: Grou)
    ensures
        r@ == num_in_base@,
{
    let mut ret_grou = Grou::empty(num_in_base.len());
    let mut i: usize = num_in_base.len();
    assert(num_in_base@.skip(i as int) =~= Seq::<u64>::empty());
    while i > 0
        invariant
            i <= num_in_base@.len(),
            ret_grou@ == num_in_base@.skip(i as int),
        decreases i,
    {
        i -= 1;
        let ghost rest = ret_grou@;
        let ghost d = num_in_base@[i as int];
        ret_grou.move_vec_elements_right(1);
        ret_grou.addition_small(num_in_base[i]);
        proof {
            let moved = shift_limbs(rest, 1);
            let target = seq![d] + rest;
            lemma_weight_step(0);
            lemma_value_single(d);
            lemma_value_concat(seq![d], rest);
            lemma_value_bound(target);
            assert(longer(moved.len(), seq![d].len()) == rest.len() + 1);
            lemma_fit_determined(
                target,
                limbs_value(moved) + d as nat,
                rest.len() + 1,
            );
            assert(target =~= num_in_base@.skip(i as int));
        }
    }
    assert(num_in_base@.skip(0) =~= num_in_base@);
    ret_grou
}

/// Reads a numeral in the base that its prefix names: `0x` hexadecimal,
/// `0b` binary, decimal otherwise. The empty text gives the number without
/// limbs.
pub fn convert_from_string(s: &str) -> (r: Result<Grou, FormatError>)
    ensures
        numeral_parses(s.spec_bytes()) ==> r is Ok && r->Ok_0@ == numeral_limbs(s.spec_bytes()),
        !numeral_parses(s.spec_bytes()) ==> r == Err::<Grou, FormatError>(
            FormatError::InvalidPacket,
        ),
        numeral_is_plain(s.spec_bytes()) ==> r is Ok && limbs_value(r->Ok_0@) == numeral_value(
            s.spec_bytes(),
        ),
{
    proof {
        if numeral_is_plain(s.spec_bytes()) {
            lemma_numeral_value(s.spec_bytes());
        }
    }
    let bytes = s.as_bytes();
    if bytes.len() == 0 {
        proof {
            assert(packets(bytes@, DECIMAL_PACKET as nat) =~= Seq::<Seq<u8>>::empty());
            assert(proto_digits(bytes@, DECIMAL_PACKET as nat, 10) =~= Seq::<u64>::empty());
        }
        return Ok(Grou::empty(0));
    }
    if bytes[0] == 48 && bytes.len() >= 2 {
        if bytes[1] == 120 {
            return convert_hexadecimal_string_to_Grou(s);
        }
        if bytes[1] == 98 {
            return convert_binary_string_to_Grou(s);
        }
    }
    convert_decimal_string_to_Grou(s)
}

/// Reads a numeral from a text. A text that holds a character outside
/// ASCII is refused as such; any other text is read as
/// `convert_from_string` reads it.
pub fn parse(s: &str) -> (r: Result<Grou, FormatError>)
    ensures
        !s.is_ascii() ==> r == Err::<Grou, FormatError>(FormatError::NotAscii),
        (s.is_ascii() && numeral_parses(s.spec_bytes())) ==> r is Ok && r->Ok_0@ == numeral_limbs(
            s.spec_bytes(),
        ),
        (s.is_ascii() && !numeral_parses(s.spec_bytes())) ==> r == Err::<Grou, FormatError>(
            FormatError::InvalidPacket,
        ),
        (s.is_ascii() && numeral_is_plain(s.spec_bytes())) ==> r is Ok && limbs_value(r->Ok_0@)
            == numeral_value(s.spec_bytes()),
{
    if !s.is_ascii() {
        return Err(FormatError::NotAscii);
    }
    convert_from_string(s)
}

/// Folds a sequence of decimal digits, given as numbers from 0 to 9 with
/// the most significant first, into limbs. The digits are gathered from the
/// end into proto-digits of nineteen digits each, and these are folded as
/// `convert_to_binary` folds them.
pub fn convert_digits_to_binary(base10_digits: &[u8]) -> (r: Grou)
    requires
        all_decimal(base10_digits@),
    ensures
        r@ == horner_limbs(digit_groups(base10_digits@, true), BASE_DECIMAL),
        limbs_value(r@) == group_value(base10_digits@),
{
    proof {
        lemma_digit_groups_value(base10_digits@, true);
    }
    let n: usize = base10_digits.len();
    let ghost d = base10_digits@;
    let mut base_b_num: Vec<u64> = Vec::new();
    let mut accumulate: u64 = 0;
    let mut multiple: u64 = 1;
    let ghost mut count: nat = 0;
    let mut i: usize = n;
    proof {
        assert(d.subrange(0, n as int) =~= d);
        assert(d.subrange(n as int, n as int) =~= Seq::<u8>::empty());
    }
    while i > 0
        invariant
            i <= n,
            n == d.len(),
            d == base10_digits@,
            all_decimal(d),
            count < 19,
            i + count <= n,
            multiple == pow10(count),
            accumulate == group_value(d.subrange(i as int, i + count)),
            accumulate < pow10(count),
            digit_groups(d, true) == base_b_num@ + digit_groups(
                d.subrange(0, i + count),
                base_b_num@.len() == 0,
            ),
        decreases i,
    {
        i -= 1;
        let val: u8 = base10_digits[i];
        proof {
            let g = d.subrange(i + 1, i + 1 + count);
            assert(all_decimal(g)) by {
                assert forall|j: int| 0 <= j < g.len() implies #[trigger] g[j] <= 9 by {
                    assert(g[j] == d[i + 1 + j]);
                }
            }
            assert(d[i as int] <= 9);
            lemma_group_value_prepend(val, g);
            assert(seq![val] + g =~= d.subrange(i as int, i + 1 + count));
            lemma_pow10_bounds(count);
            lemma_pow10_bounds(count + 1);
            assert(multiple as nat * val as nat <= 9 * 1_000_000_000_000_000_000)
                by (nonlinear_arith)
                requires
                    multiple <= 1_000_000_000_000_000_000,
                    val <= 9,
            ;
            assert(val as nat * pow10(count) + pow10(count) <= 10 * pow10(count))
                by (nonlinear_arith)
                requires
                    val <= 9,
            ;
            assert(multiple as nat * val as nat == val as nat * pow10(count))
                by (nonlinear_arith)
                requires
                    multiple as nat == pow10(count),
            ;
        }
        accumulate += multiple * (val as u64);
        multiple *= 10;
        proof {
            count = count + 1;
        }
        if multiple == BASE_DECIMAL {
            proof {
                assert(count == 19);
                let head = d.subrange(0, i + 19);
                assert(head.subrange(head.len() - 19, head.len() as int) =~= d.subrange(
                    i as int,
                    i + 19,
                ));
                assert(head.subrange(0, head.len() - 19) =~= d.subrange(0, i as int));
                assert(base_b_num@ + (seq![accumulate] + digit_groups(
                    d.subrange(0, i as int),
                    false,
                )) =~= base_b_num@.push(accumulate) + digit_groups(d.subrange(0, i as int), false));
                if base_b_num@.len() > 0 {
                    lemma_full_group_any(head);
                }
                count = 0;
                assert(d.subrange(i as int, i as int) =~= Seq::<u8>::empty());
            }
            multiple = 1;
            base_b_num.push(accumulate);
            accumulate = 0;
        }
    }
    proof {
        let head = d.subrange(0, count as int);
        if count == 0 {
            assert(head =~= Seq::<u8>::empty());
            assert(base_b_num@ + Seq::<u64>::empty() =~= base_b_num@);
        }
    }
    if accumulate > 0 || (base_b_num.len() == 0 && n > 0) {
        proof {
            assert(base_b_num@ + seq![accumulate] =~= base_b_num@.push(accumulate));
        }
        base_b_num.push(accumulate);
    } else {
        assert(base_b_num@ + Seq::<u64>::empty() =~= base_b_num@);
    }
    convert_to_binary(base_b_num.as_slice(), BASE_DECIMAL)
}

} // verus!
