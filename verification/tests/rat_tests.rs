use micrograd_rs::rat::Rat;

#[test]
fn arithmetic_is_exact() {
    let half = Rat::new(1, 2);
    let third = Rat::new(1, 3);
    assert!(half.add(third).eq_rat(&Rat::new(5, 6)));
    assert!(half.mul(third).eq_rat(&Rat::new(1, 6)));
    assert!(half.neg().eq_rat(&Rat::new(-1, 2)));
}

#[test]
fn eq_rat_identifies_unnormalized_fractions() {
    assert!(Rat::new(1, 2).eq_rat(&Rat::new(2, 4)));
    assert!(Rat::new(-3, 6).eq_rat(&Rat::new(-1, 2)));
    assert!(Rat::new(0, 5).eq_rat(&Rat::zero()));
    assert!(!Rat::new(1, 2).eq_rat(&Rat::new(2, 3)));
    assert!(!Rat::new(1, 2).eq_rat(&Rat::new(-1, 2)));
}

#[test]
fn pow_count_is_repeated_multiplication() {
    let two = Rat::from_int(2);
    assert!(two.pow_count(0).eq_rat(&Rat::one()));
    assert!(two.pow_count(1).eq_rat(&two));
    assert!(two.pow_count(10).eq_rat(&Rat::from_int(1024)));
    let half = Rat::new(1, 2);
    assert!(half.pow_count(3).eq_rat(&Rat::new(1, 8)));
    let neg = Rat::from_int(-3);
    assert!(neg.pow_count(3).eq_rat(&Rat::from_int(-27)));
}

#[test]
fn accessors_expose_components() {
    let r = Rat::new(-7, 4);
    assert_eq!(r.num(), -7);
    assert_eq!(r.den(), 4);
    assert_eq!(Rat::from_int(9).den(), 1);
    assert_eq!(Rat::one().num(), 1);
    assert_eq!(Rat::zero().num(), 0);
}
