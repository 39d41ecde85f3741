use rbrb::utils::Signed;
use rbrb::utils::div_duration;

const SEC: u64 = 1_000_000_000;

#[test]
fn signed_ordering() {
    // Neg(10 s) < Neg(1 s) < Pos(0) < Pos(1 s)
    let a = Signed::Neg(10 * SEC);
    let b = Signed::Neg(SEC);
    let c = Signed::Pos(0);
    let d = Signed::Pos(SEC);
    assert!(a.le(b) && !b.le(a));
    assert!(b.le(c) && !c.le(b));
    assert!(c.le(d) && !d.le(c));
    assert!(a.le(a));
}

#[test]
fn signed_negation_is_exact() {
    assert_eq!(Signed::Neg(5).negated(), Signed::Pos(5));
    assert_eq!(Signed::Pos(5).negated(), Signed::Neg(5));
    assert_eq!(Signed::Neg(0).negated(), Signed::Pos(0));
}

#[test]
fn signed_sum_mixed_signs() {
    // +10 - 4 - 3 + 2 = +5
    let v = vec![Signed::Pos(10), Signed::Neg(4), Signed::Neg(3), Signed::Pos(2)];
    let total = Signed::sum_of(&v);
    assert_eq!(total.abs(), 5);
    assert_eq!(total.pos(), Some(5));

    // -10 + 4 = -6
    let v = vec![Signed::Neg(10), Signed::Pos(4)];
    let total = Signed::sum_of(&v);
    assert_eq!(total.abs(), 6);
    assert_eq!(total.pos(), None);

    let empty: Vec<Signed> = Vec::new();
    assert_eq!(Signed::sum_of(&empty), Signed::Pos(0));
}

#[test]
fn signed_add_sub_apply_to_instants() {
    assert_eq!(Signed::Pos(3).add_to(10), 13);
    assert_eq!(Signed::Neg(3).add_to(10), 7);
    assert_eq!(Signed::Pos(3).sub_from(10), 7);
    assert_eq!(Signed::Neg(3).sub_from(10), 13);
}

#[test]
fn signed_arithmetic() {
    assert_eq!(Signed::Pos(7).plus(Signed::Neg(3)), Signed::Pos(4));
    assert_eq!(Signed::Pos(3).plus(Signed::Neg(7)), Signed::Neg(4));
    assert_eq!(Signed::Neg(3).plus(Signed::Neg(4)), Signed::Neg(7));
    assert_eq!(Signed::Pos(3).minus(Signed::Pos(7)), Signed::Neg(4));
    assert_eq!(Signed::Neg(9).div_by(2), Signed::Neg(4));
    assert_eq!(Signed::Pos(6).stretch(4), Signed::Pos(10));
    assert_eq!(Signed::Neg(6).abs(), 6);
    assert_eq!(
        Signed::Neg(5).clamp_to(Signed::Neg(1), Signed::Pos(1)),
        Signed::Neg(1)
    );
    assert_eq!(
        Signed::Pos(5).clamp_to(Signed::Neg(1), Signed::Pos(1)),
        Signed::Pos(1)
    );
    assert_eq!(
        Signed::Pos(0).clamp_to(Signed::Neg(1), Signed::Pos(1)),
        Signed::Pos(0)
    );
}

#[test]
fn div_duration_exact_division() {
    let (q, r) = div_duration(160_000_000, 16_000_000);
    assert_eq!((q, r), (10, 0));
}

#[test]
fn div_duration_with_remainder() {
    let (q, r) = div_duration(100, 16);
    assert_eq!((q, r), (6, 4));
    assert_eq!(16 * (q as u64) + r, 100);
}

#[test]
fn div_duration_reconstructs() {
    for n in [0u64, 1, 15, 16, 17, 1_000_003, u32::MAX as u64] {
        for d in [1u64, 2, 16, 17, 1_000_000] {
            let (q, r) = div_duration(n, d);
            assert_eq!(d * (q as u64) + r, n);
            assert!(r < d);
        }
    }
}
