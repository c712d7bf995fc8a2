use geoalg::basis::{AlgebraError, Base, Var};
use geoalg::monomial::{ByLetter, VarParam};
use geoalg::notation::Multiplier;
use geoalg::sorting::sort_stably;
use geoalg::term::{compare_letters, rank_of, ByProduct, ByVariable, Param};

fn letters(text: &str) -> Vec<char> {
    text.chars().collect()
}

fn monomial(negative: bool, scalars: &str, var: Option<Var>) -> VarParam {
    let mut out: Option<VarParam> = None;
    for c in scalars.chars() {
        let factor = VarParam::from_scalar(c);
        out = Some(match out {
            None => factor,
            Some(p) => p.multiply(&factor).unwrap(),
        });
    }
    let mut built = match (out, var) {
        (Some(p), Some(v)) => p.multiply(&VarParam::from_var(v)).unwrap(),
        (Some(p), None) => p,
        (None, Some(v)) => VarParam::from_var(v),
        (None, None) => panic!("a monomial needs a letter or a variable"),
    };
    built.negate_if(negative);
    built
}

#[test]
fn a_scalar_monomial_is_positive_and_holds_one_letter() {
    let m = VarParam::from_scalar('A');
    assert!(!m.is_negative());
    assert_eq!(m.scalars(), &vec!['A']);
    assert_eq!(m.var(), None);
    assert_eq!(m.display(), "A");
}

#[test]
fn a_variable_monomial_is_positive_and_holds_no_letter() {
    let m = VarParam::from_var(Var::c());
    assert!(!m.is_negative());
    assert!(m.scalars().is_empty());
    assert_eq!(m.var(), Some(Var::C));
    assert_eq!(m.display(), "c");
}

#[test]
fn the_product_joins_the_letters_and_multiplies_the_signs() {
    let mut x = VarParam::from_scalar('B');
    x.negate_if(true);
    let y = VarParam::from_scalar('A');
    let p = x.multiply(&y).unwrap();
    assert!(p.is_negative());
    assert_eq!(p.scalars(), &vec!['B', 'A']);
    assert_eq!(p.var(), None);
    let q = p.multiply(&x).unwrap();
    assert!(!q.is_negative());
    assert_eq!(q.scalars(), &vec!['B', 'A', 'B']);
}

#[test]
fn the_product_takes_the_variable_of_either_side() {
    let s = VarParam::from_scalar('A');
    let v = VarParam::from_var(Var::b());
    assert_eq!(s.multiply(&v).unwrap().var(), Some(Var::B));
    assert_eq!(v.multiply(&s).unwrap().var(), Some(Var::B));
    assert_eq!(v.multiply(&v).unwrap().var(), Some(Var::B));
    assert_eq!(s.multiply(&s).unwrap().var(), None);
    assert_eq!(v.multiply(&s).unwrap().scalars(), &vec!['A']);
}

#[test]
fn two_different_variables_cannot_be_multiplied() {
    let a = VarParam::from_var(Var::a());
    let d = VarParam::from_var(Var::d());
    match a.multiply(&d) {
        Err(e) => assert_eq!(e, AlgebraError::IncompatibleVariables(Var::A, Var::D)),
        Ok(_) => panic!("the product of two variables was accepted"),
    }
    match d.multiply(&a) {
        Err(e) => assert_eq!(e, AlgebraError::IncompatibleVariables(Var::D, Var::A)),
        Ok(_) => panic!("the product of two variables was accepted"),
    }
}

#[test]
fn simplifying_a_monomial_sorts_its_letters() {
    let mut m = monomial(true, "CABA", Some(Var::a()));
    assert_eq!(m.scalars(), &letters("CABA"));
    m.simplify();
    assert_eq!(m.scalars(), &letters("AABC"));
    assert!(m.is_negative());
    assert_eq!(m.var(), Some(Var::A));
    m.simplify();
    assert_eq!(m.scalars(), &letters("AABC"));
}

#[test]
fn a_monomial_displays_sign_letters_and_variable() {
    assert_eq!(monomial(true, "AB", Some(Var::d())).display(), "-ABd");
    assert_eq!(monomial(false, "BA", None).display(), "BA");
    let mut one = VarParam::from_var(Var::a());
    one.negate_if(true);
    assert_eq!(one.display(), "-a");
}

#[test]
fn monomials_agree_as_products_whatever_their_signs() {
    let x = monomial(false, "AB", Some(Var::a()));
    let y = monomial(true, "AB", Some(Var::a()));
    assert!(x.same_product(&y));
    assert!(!x.same_product(&monomial(false, "AB", Some(Var::b()))));
    assert!(!x.same_product(&monomial(false, "AB", None)));
    assert!(!x.same_product(&monomial(false, "ABB", Some(Var::a()))));
    assert!(!x.same_product(&monomial(false, "AC", Some(Var::a()))));
}

#[test]
fn letters_sort_by_character_value() {
    let mut v = letters("hello world");
    sort_stably::<char, ByLetter>(&mut v);
    assert_eq!(v, letters(" dehllloorw"));
    let mut w: Vec<char> = vec![];
    sort_stably::<char, ByLetter>(&mut w);
    assert!(w.is_empty());
}

#[test]
fn sorting_by_variable_keeps_the_order_of_equals() {
    let mut v = vec![
        monomial(false, "Z", Some(Var::b())),
        monomial(false, "Y", None),
        monomial(false, "X", Some(Var::a())),
        monomial(false, "W", Some(Var::b())),
        monomial(false, "V", None),
        monomial(false, "U", Some(Var::a())),
    ];
    sort_stably::<VarParam, ByVariable>(&mut v);
    let shown: Vec<String> = v.iter().map(|m| m.display()).collect();
    assert_eq!(shown, vec!["Y", "V", "Xa", "Ua", "Zb", "Wb"]);
}

#[test]
fn sorting_by_product_goes_by_variable_then_letters() {
    let mut v = vec![
        monomial(false, "AC", Some(Var::a())),
        monomial(true, "AB", Some(Var::a())),
        monomial(false, "A", Some(Var::a())),
        monomial(false, "Z", None),
        monomial(false, "AB", Some(Var::a())),
    ];
    sort_stably::<VarParam, ByProduct>(&mut v);
    let shown: Vec<String> = v.iter().map(|m| m.display()).collect();
    assert_eq!(shown, vec!["Z", "Aa", "-ABa", "ABa", "ACa"]);
}

#[test]
fn letters_compare_as_in_a_dictionary() {
    assert_eq!(compare_letters(&letters(""), &letters("")), 0);
    assert_eq!(compare_letters(&letters(""), &letters("A")), -1);
    assert_eq!(compare_letters(&letters("A"), &letters("")), 1);
    assert_eq!(compare_letters(&letters("AB"), &letters("AC")), -1);
    assert_eq!(compare_letters(&letters("AB"), &letters("ABA")), -1);
    assert_eq!(compare_letters(&letters("B"), &letters("ABA")), 1);
    assert_eq!(compare_letters(&letters("ABA"), &letters("ABA")), 0);
}

#[test]
fn a_missing_variable_ranks_lowest() {
    assert_eq!(rank_of(None), 0);
    assert_eq!(rank_of(Some(Var::a())), 1);
    assert_eq!(rank_of(Some(Var::d())), 4);
}

#[test]
fn a_multiplier_doubles_without_bound() {
    let mut m = Multiplier::one();
    assert!(m.is_one());
    let mut text = String::new();
    m.write(&mut text);
    assert_eq!(text, "1");
    let expected = [
        "2", "4", "8", "16", "32", "64", "128", "256", "512", "1024", "2048", "4096", "8192",
        "16384", "32768", "65536",
    ];
    for e in expected {
        m.double();
        assert!(!m.is_one());
        let mut text = String::from("x");
        m.write(&mut text);
        assert_eq!(text, format!("x{}", e));
    }
    for _ in 16..200 {
        m.double();
    }
    let mut text = String::new();
    m.write(&mut text);
    assert_eq!(text, "1606938044258990275541962092341162602522202993782792835301376");
}

#[test]
fn powers_up_to_nine_have_a_glyph() {
    let glyphs = ['⁰', '¹', '²', '³', '⁴', '⁵', '⁶', '⁷', '⁸', '⁹'];
    for (n, g) in glyphs.iter().enumerate() {
        assert_eq!(Param::pow(n), Ok(*g));
    }
    assert_eq!(Param::pow(10), Err(AlgebraError::UnsupportedExponent(10)));
    assert_eq!(Param::pow(300), Err(AlgebraError::UnsupportedExponent(300)));
}

#[test]
fn a_piece_writes_sign_multiplier_and_powers() {
    let mut one = Multiplier::one();
    assert_eq!(
        Param::get_scalars(&monomial(false, "AB", None), &mut one),
        Ok(" + AB".to_string())
    );
    assert_eq!(
        Param::get_scalars(&monomial(true, "AAB", None), &mut one),
        Ok(" - A²B".to_string())
    );
    assert_eq!(
        Param::get_scalars(&monomial(false, "ABBBCC", Some(Var::a())), &mut one),
        Ok(" + AB³C²".to_string())
    );
    assert_eq!(Param::get_scalars(&monomial(false, "A", None), &mut one), Ok(" + A".to_string()));
    assert_eq!(
        Param::get_scalars(&VarParam::from_var(Var::a()), &mut one),
        Ok(" + ".to_string())
    );
    assert_eq!(
        Param::get_scalars(&monomial(false, "AAAAAAAAA", None), &mut one),
        Ok(" + A⁹".to_string())
    );
    let mut four = Multiplier::one();
    four.double();
    four.double();
    assert_eq!(
        Param::get_scalars(&monomial(true, "AA", None), &mut four),
        Ok(" - 4A²".to_string())
    );
    assert!(four.is_one());
}

#[test]
fn a_letter_repeated_ten_times_is_refused() {
    let mut one = Multiplier::one();
    assert_eq!(
        Param::get_scalars(&monomial(false, "AAAAAAAAAA", None), &mut one),
        Err(AlgebraError::UnsupportedExponent(10))
    );
    assert_eq!(
        Param::get_scalars(&monomial(false, "ABBBBBBBBBBBBC", None), &mut one),
        Err(AlgebraError::UnsupportedExponent(12))
    );
    let term = Param::from_parts(
        vec![monomial(false, "AB", None), monomial(false, "CCCCCCCCCCC", None)],
        vec![Base::e1()],
    );
    assert_eq!(term.into_final(), Err(AlgebraError::UnsupportedExponent(11)));
}
