use sat::literal::{Literal, Variable};

#[test]
fn get_var() {
    assert_eq!(
        Literal { variable: Variable(1), polarity: true }.variable(),
        Variable(1)
    );
}

#[test]
fn get_polarity() {
    assert_eq!(
        Literal { variable: Variable(1), polarity: false }.polarity(),
        false
    );
}

#[test]
fn zero_lit() {
    assert_eq!(None, Literal::from_dimacs(0));
}

#[test]
fn pos_lit() {
    assert_eq!(
        Some(Literal { polarity: true, variable: Variable(1) }),
        Literal::from_dimacs(1)
    )
}

#[test]
fn neg_lit() {
    assert_eq!(
        Some(Literal { polarity: false, variable: Variable(2) }),
        Literal::from_dimacs(-2)
    )
}

#[test]
fn negate() {
    let lit = Literal { polarity: true, variable: Variable(3) };
    assert_eq!(Literal { polarity: false, variable: Variable(3) }, lit.negate())
}

#[test]
fn dimacs_round_trip() {
    for k in [1, -1, 2, -2, 42, -37, 1000000, i32::MAX, -i32::MAX] {
        let l = Literal::from_dimacs(k).expect("non-zero stands for a literal");
        let rendered = l.to_dimacs();
        assert_eq!(rendered.parse::<i32>().unwrap(), k);
    }
    assert_eq!(None, Literal::from_dimacs(0));
    assert_eq!(None, Literal::from_dimacs(i32::MIN));
}

#[test]
fn to_dimacs_text() {
    assert_eq!(Literal::from_dimacs(12).unwrap().to_dimacs(), "12");
    assert_eq!(Literal::from_dimacs(-305).unwrap().to_dimacs(), "-305");
    assert_eq!(Literal::from_dimacs(i32::MAX).unwrap().to_dimacs(), "2147483647");
}
