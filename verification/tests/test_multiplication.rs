use grou_num::grou::Grou;

const MAX: u64 = u64::MAX;

fn num(limbs: &[u64]) -> Grou {
    Grou::from(limbs.to_vec())
}

fn straight(a: &Grou, b: &Grou) -> Grou {
    &a.subset_all() * &b.subset_all()
}

#[test]
fn multiply_small_appends_the_last_carry() {
    let mut g = num(&[3, 4]);
    g.multiply_small(5);
    assert_eq!(g, num(&[15, 20]));

    let mut g = num(&[MAX, MAX]);
    g.multiply_small(MAX);
    assert_eq!(g, num(&[1, MAX, MAX - 1]));

    let mut g = num(&[]);
    g.multiply_small(9);
    assert_eq!(g, num(&[]));

    let mut g = num(&[7, 8]);
    g.multiply_small(0);
    assert_eq!(g, num(&[0, 0]));

    let mut g = num(&[1 << 63]);
    g *= 2;
    assert_eq!(g, num(&[0, 1]));
    assert_eq!(num(&[1 << 63, 1]) * 4, num(&[0, 6]));
}

#[test]
fn add_multiply_result_accumulates_at_the_offset() {
    let lhs = num(&[10, 10]);
    let mut target = num(&[50, 50]);
    target.add_multiply_result(&lhs.subset_all(), 5, 1);
    assert_eq!(target, num(&[50, 100, 50]));

    // The target grows with zero limbs up to the moved window.
    let mut target = num(&[]);
    target.add_multiply_result(&num(&[2]).subset_all(), 3, 3);
    assert_eq!(target, num(&[0, 0, 0, 6]));

    // An empty window changes nothing.
    let mut target = num(&[1, 2]);
    target.add_multiply_result(&num(&[]).subset_all(), 3, 7);
    assert_eq!(target, num(&[1, 2]));

    // A longer target keeps its length.
    let mut target = num(&[1, 2, 3, 4]);
    target.add_multiply_result(&num(&[1]).subset_all(), 1, 1);
    assert_eq!(target, num(&[1, 3, 3, 4]));
}

#[test]
fn add_multiply_result_carries_past_the_window() {
    // The carry out of the window lands above the moved window.
    let mut target = num(&[1, MAX - 1]);
    target.add_multiply_result(&num(&[MAX]).subset_all(), MAX, 1);
    assert_eq!(target, num(&[1, MAX, MAX - 1]));

    // It runs on through limbs that are full.
    let mut target = num(&[MAX, MAX, MAX, 7]);
    target.add_multiply_result(&num(&[1]).subset_all(), 1, 0);
    assert_eq!(target, num(&[0, 0, 0, 8]));

    // It appends a limb when it runs off the top.
    let mut target = num(&[MAX, MAX]);
    target.add_multiply_result(&num(&[1]).subset_all(), 1, 0);
    assert_eq!(target, num(&[0, 0, 1]));

    // Both carries at once: the product's high limb and the addition's carry.
    let mut target = num(&[MAX, MAX]);
    target.add_multiply_result(&num(&[MAX, MAX]).subset_all(), MAX, 0);
    assert_eq!(target, num(&[0, MAX, MAX]));
}

#[test]
fn move_vec_elements_right_shifts_by_limbs() {
    let mut g = num(&[1, 2]);
    g.move_vec_elements_right(3);
    assert_eq!(g, num(&[0, 0, 0, 1, 2]));

    let mut g = num(&[1, 2]);
    g.move_vec_elements_right(0);
    assert_eq!(g, num(&[1, 2]));

    let mut g = num(&[]);
    g.move_vec_elements_right(2);
    assert_eq!(g, num(&[0, 0]));
}

#[test]
fn straight_multiplication() {
    assert_eq!(straight(&num(&[10, 10]), &num(&[5, 5])), num(&[50, 100, 50]));
    assert_eq!(straight(&num(&[MAX]), &num(&[MAX, MAX])), num(&[1, MAX, MAX - 1]));
    assert_eq!(straight(&num(&[MAX, MAX]), &num(&[MAX, MAX])), num(&[1, 0, MAX - 1, MAX]));
    assert_eq!(straight(&num(&[3, 0, 0]), &num(&[4, 0])), num(&[12]));
    assert_eq!(straight(&num(&[3]), &num(&[0])), num(&[0]));
    assert_eq!(straight(&num(&[]), &num(&[4])), num(&[]));
    assert_eq!(straight(&num(&[4]), &num(&[])), num(&[]));
    let a = num(&[1, 2, 3]);
    assert_eq!(a.subset(0, 2).multiply_straight(&a.subset(2, 3)), num(&[3, 6]));
}

#[test]
fn karatsuba_scenario() {
    assert_eq!(num(&[10, 10]).karatsuba_mul(&num(&[5, 5])), num(&[50, 100, 50]));
}

#[test]
fn karatsuba_matches_straight_multiplication() {
    let values = [
        num(&[0]),
        num(&[1]),
        num(&[MAX]),
        num(&[3, 3]),
        num(&[0, 5]),
        num(&[5, 0]),
        num(&[MAX, MAX]),
        num(&[1, 2, 3]),
        num(&[3, 2, 1]),
        num(&[7, 7, 7, 7]),
        num(&[0, 0, 0, 9]),
        num(&[1, 2, 3, 4, 5]),
        num(&[MAX, 0, MAX, 0, 1]),
        num(&[MAX, MAX, MAX, MAX, MAX, MAX]),
        num(&[5, 6, 7, 8, 9, 10, 11]),
        num(&[11, 10, 9, 8, 7, 6, 5, 0]),
    ];
    for a in values.iter() {
        for b in values.iter() {
            assert_eq!(a.karatsuba_mul(b), straight(a, b));
        }
    }
}

#[test]
fn karatsuba_with_a_middle_term_of_zero() {
    // The halves of one operand are equal: the middle term is zero.
    assert_eq!(num(&[1, 2]).karatsuba_mul(&num(&[0, 0])), num(&[0]));
    assert_eq!(num(&[4, 4]).karatsuba_mul(&num(&[1, 3])), num(&[4, 16, 12]));
    assert_eq!(num(&[1, 3]).karatsuba_mul(&num(&[4, 4])), num(&[4, 16, 12]));
    assert_eq!(num(&[4, 4]).karatsuba_mul(&num(&[4, 4])), num(&[16, 32, 16]));
}

#[test]
fn karatsuba_of_empty_numbers() {
    // The product of nothing is zero in its canonical form, where the
    // schoolbook product has no limbs.
    assert_eq!(num(&[]).karatsuba_mul(&num(&[])), num(&[0]));
    assert_eq!(num(&[]).karatsuba_mul(&num(&[2, 2])), num(&[0]));
    assert_eq!(num(&[2, 2]).karatsuba_mul(&num(&[])), num(&[0]));
    assert_eq!(straight(&num(&[]), &num(&[])), num(&[]));
}

#[test]
fn karatsuba_where_the_differences_have_opposite_signs() {
    // High above low in one operand, below it in the other: the middle term
    // is added.
    assert_eq!(num(&[1, 2]).karatsuba_mul(&num(&[2, 1])), num(&[2, 5, 2]));
    assert_eq!(num(&[2, 1]).karatsuba_mul(&num(&[1, 2])), num(&[2, 5, 2]));
    assert_eq!(num(&[0, 5]).karatsuba_mul(&num(&[5, 0])), num(&[0, 25]));
    assert_eq!(num(&[5, 0]).karatsuba_mul(&num(&[0, 5])), num(&[0, 25]));
    assert_eq!(num(&[MAX, 0]).karatsuba_mul(&num(&[0, MAX])), num(&[0, 1, MAX - 1]));
}

#[test]
fn karatsuba_where_the_differences_have_one_sign() {
    // High above low in both operands, or below it in both: the middle term
    // is subtracted.
    assert_eq!(num(&[1, 2]).karatsuba_mul(&num(&[1, 3])), num(&[1, 5, 6]));
    assert_eq!(num(&[2, 1]).karatsuba_mul(&num(&[3, 1])), num(&[6, 5, 1]));
    assert_eq!(
        num(&[MAX, MAX]).karatsuba_mul(&num(&[MAX, MAX])),
        num(&[1, 0, MAX - 1, MAX])
    );
}

#[test]
fn karatsuba_trims_its_result() {
    assert_eq!(num(&[3, 0, 0, 0]).karatsuba_mul(&num(&[4, 0])), num(&[12]));
    assert_eq!(num(&[0, 0, 0]).karatsuba_mul(&num(&[0, 7])), num(&[0]));
    assert_eq!(num(&[1, 1, 0, 0, 0]).karatsuba_mul(&num(&[1])), num(&[1, 1]));
}
