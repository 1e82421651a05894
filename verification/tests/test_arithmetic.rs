use grou_num::error::ArithmeticError;
use grou_num::grou::compare::{compare_slices, Order};
use grou_num::grou::sub::{signed_difference_slices, sub_ordered_slices};
use grou_num::grou::Grou;
use grou_num::limb::{limb_add_with_carry, limb_mul_with_carry, limb_sub_with_borrow};

const MAX: u64 = u64::MAX;

fn num(limbs: &[u64]) -> Grou {
    Grou::from(limbs.to_vec())
}

fn trimmed(mut g: Grou) -> Grou {
    g.trim();
    g
}

#[test]
fn limb_addition_carries() {
    assert_eq!(limb_add_with_carry(1, 2, false), (3, false));
    assert_eq!(limb_add_with_carry(MAX, 0, true), (0, true));
    assert_eq!(limb_add_with_carry(MAX, MAX, true), (MAX, true));
    assert_eq!(limb_add_with_carry(MAX, 1, false), (0, true));
}

#[test]
fn limb_subtraction_borrows() {
    assert_eq!(limb_sub_with_borrow(5, 3, false), (2, false));
    assert_eq!(limb_sub_with_borrow(0, 0, true), (MAX, true));
    assert_eq!(limb_sub_with_borrow(0, MAX, true), (0, true));
    assert_eq!(limb_sub_with_borrow(3, 5, false), (MAX - 1, true));
}

#[test]
fn limb_multiplication_splits_the_product() {
    assert_eq!(limb_mul_with_carry(3, 4, 5), (17, 0));
    assert_eq!(limb_mul_with_carry(MAX, MAX, 0), (1, MAX - 1));
    assert_eq!(limb_mul_with_carry(MAX, MAX, MAX), (0, MAX));
    assert_eq!(limb_mul_with_carry(1 << 32, 1 << 32, 7), (7, 1));
}

#[test]
fn constructors_and_length() {
    assert_eq!(Grou::empty(8).len(), 0);
    assert_eq!(Grou::empty(8), num(&[]));
    assert_eq!(Grou::from(7).len(), 1);
    assert_eq!(Grou::from(7), num(&[7]));
    assert_eq!(num(&[1, 2, 3]).len(), 3);
    assert_eq!(num(&[1, 2, 3]).as_slice(), &[1, 2, 3]);
    assert_eq!(num(&[4, 5]).clone(), num(&[4, 5]));
}

#[test]
fn equality_is_structural() {
    assert_ne!(num(&[1]), num(&[1, 0]));
    assert_ne!(num(&[]), num(&[0]));
    assert_ne!(num(&[1, 2]), num(&[2, 1]));
    assert_eq!(num(&[1, 0]), num(&[1, 0]));
}

#[test]
fn trim_drops_high_zero_limbs() {
    assert_eq!(trimmed(num(&[1, 2, 0, 0])), num(&[1, 2]));
    assert_eq!(trimmed(num(&[0, 0, 0])), num(&[0]));
    assert_eq!(trimmed(num(&[0])), num(&[0]));
    assert_eq!(trimmed(num(&[])), num(&[]));
    assert_eq!(trimmed(num(&[0, 0, 5])), num(&[0, 0, 5]));
}

#[test]
fn addition_small_propagates_the_carry() {
    let mut g = num(&[]);
    g.addition_small(9);
    assert_eq!(g, num(&[9]));

    let mut g = num(&[MAX, MAX, 3]);
    g.addition_small(1);
    assert_eq!(g, num(&[0, 0, 4]));

    let mut g = num(&[MAX, MAX]);
    g.addition_small(2);
    assert_eq!(g, num(&[1, 0, 1]));

    let mut g = num(&[5, 7]);
    g.addition_small(0);
    assert_eq!(g, num(&[5, 7]));

    let mut g = num(&[MAX - 1, 7]);
    g += 1;
    assert_eq!(g, num(&[MAX, 7]));
    assert_eq!(num(&[MAX]) + 1, num(&[0, 1]));
}

#[test]
fn addition_keeps_the_longer_length() {
    assert_eq!(&num(&[1, 0, 0]) + &num(&[2]), num(&[3, 0, 0]));
    assert_eq!(&num(&[2]) + &num(&[1, 0, 0]), num(&[3, 0, 0]));
    assert_eq!(&num(&[MAX, MAX]) + &num(&[1]), num(&[0, 0, 1]));
    assert_eq!(&num(&[]) + &num(&[0]), num(&[0]));
}

#[test]
fn addition_of_windows_and_numbers() {
    let g = num(&[MAX, 2, 3]);
    let h = num(&[1]);
    assert_eq!(&g.subset(0, 2) + &h, num(&[0, 3]));
    assert_eq!(&h + &g.subset(0, 2), num(&[0, 3]));
    assert_eq!(&g.subset(0, 1) + &h, num(&[0, 1]));
    assert_eq!(&h + &g.subset(1, 1), num(&[1]));
    assert_eq!(&g.subset_all() + &num(&[]), g);
}

#[test]
fn signed_difference_orders_the_operands() {
    assert_eq!(signed_difference_slices(&[5], &[3]), (false, num(&[2])));
    assert_eq!(signed_difference_slices(&[3], &[5]), (true, num(&[2])));
    assert_eq!(signed_difference_slices(&[3, 0], &[3]), (false, num(&[0])));
    assert_eq!(signed_difference_slices(&[], &[]), (false, num(&[0])));
    assert_eq!(signed_difference_slices(&[1], &[0, 1]), (true, num(&[MAX])));
    assert_eq!(sub_ordered_slices(&[0, 1], &[1]), num(&[MAX]));
    assert_eq!(sub_ordered_slices(&[7, 0], &[7]), num(&[0]));
}

#[test]
fn addition_is_commutative() {
    let values = [num(&[]), num(&[0]), num(&[MAX]), num(&[MAX, MAX, MAX]), num(&[1, 2, 3, 0])];
    for a in values.iter() {
        for b in values.iter() {
            assert_eq!(a + b, b + a);
        }
    }
}

#[test]
fn addition_is_associative_after_trimming() {
    let values = [num(&[]), num(&[0, 0]), num(&[MAX]), num(&[MAX, MAX]), num(&[1, 2, 3, 0])];
    for a in values.iter() {
        for b in values.iter() {
            for c in values.iter() {
                assert_eq!(trimmed(&(a + b) + c), trimmed(a + &(b + c)));
            }
        }
    }
    // Untrimmed, the two sums may differ in their zero limbs.
    let a = num(&[MAX]);
    let b = num(&[1]);
    let c = num(&[0, 0, 0]);
    assert_eq!(&(&a + &b) + &c, num(&[0, 1, 0]));
    assert_eq!(&a + &(&b + &c), num(&[0, 1, 0]));
}

#[test]
fn subtraction_undoes_addition() {
    let values = [num(&[0]), num(&[7]), num(&[MAX]), num(&[MAX, MAX]), num(&[0, 0, 1])];
    for a in values.iter() {
        for b in values.iter() {
            assert_eq!(&(a + b) - b, a.clone());
            if a >= b {
                assert_eq!(&(a - b) + b, a.clone());
            }
        }
    }
    // A number with a superfluous zero limb comes back trimmed.
    assert_eq!(&(&num(&[1, 0]) + &num(&[2])) - &num(&[2]), num(&[1]));
}

#[test]
fn checked_subtraction_signals_underflow() {
    assert_eq!(num(&[1]).checked_sub(&num(&[2])), Err(ArithmeticError::Underflow));
    assert_eq!(num(&[MAX]).checked_sub(&num(&[0, 1])), Err(ArithmeticError::Underflow));
    assert_eq!(num(&[]).checked_sub(&num(&[1])), Err(ArithmeticError::Underflow));
    assert_eq!(num(&[2]).checked_sub(&num(&[2])), Ok(num(&[0])));
    assert_eq!(num(&[]).checked_sub(&num(&[])), Ok(num(&[0])));
    assert_eq!(num(&[0, 1]).checked_sub(&num(&[1])), Ok(num(&[MAX])));
    assert_eq!(num(&[0, 0, 1]).checked_sub(&num(&[1, 0, 0, 0])), Ok(num(&[MAX, MAX])));
}

#[test]
fn sub_with_sign_gives_the_distance() {
    assert_eq!(num(&[5]).sub_with_sign(&num(&[3])), (true, num(&[2])));
    assert_eq!(num(&[3]).sub_with_sign(&num(&[5])), (true, num(&[2])));
    assert_eq!(num(&[3, 0]).sub_with_sign(&num(&[3])), (false, num(&[0])));
    assert_eq!(num(&[]).sub_with_sign(&num(&[])), (false, num(&[0])));
    let a = num(&[0, 1]);
    let b = num(&[1]);
    assert_eq!(a.subset_all().sub_with_sign(&b.subset_all()), (true, num(&[MAX])));
    assert_eq!(b.subset_all().sub_with_sign(&a.subset_all()), (true, num(&[MAX])));
}

#[test]
fn ordering_looks_through_zero_limbs() {
    assert_eq!(compare_slices(&[1, 0, 0], &[1]), Order::Equal);
    assert_eq!(compare_slices(&[], &[0, 0]), Order::Equal);
    assert_eq!(compare_slices(&[], &[]), Order::Equal);
    assert_eq!(compare_slices(&[MAX], &[0, 1]), Order::Less);
    assert_eq!(compare_slices(&[0, 1], &[MAX, 0]), Order::Greater);
    assert_eq!(compare_slices(&[5, 9, 1], &[6, 8, 1]), Order::Greater);
    assert_eq!(compare_slices(&[5, 8, 1], &[6, 8, 1]), Order::Less);

    let g = num(&[1, 2, 3]);
    assert!(g.subset(0, 2) < g.subset(1, 3));
    assert!(g.subset(1, 3) > g.subset(0, 2));
    assert!(!(g.subset(0, 1) < g.subset(0, 1)));
}

#[test]
fn ordering_is_total_on_trimmed_numbers() {
    let values = [num(&[0]), num(&[0, 0]), num(&[1]), num(&[1, 0]), num(&[0, 1]), num(&[MAX, 1])];
    for a in values.iter() {
        for b in values.iter() {
            let ta = trimmed(a.clone());
            let tb = trimmed(b.clone());
            let holds = [ta < tb, ta == tb, ta > tb];
            assert_eq!(holds.iter().filter(|h| **h).count(), 1);
        }
    }
    // Zero with one limb and zero without limbs are neither ordered nor the same.
    let none = num(&[]);
    let zero = num(&[0]);
    assert!(!(none < zero) && !(none > zero) && none != zero);
}
