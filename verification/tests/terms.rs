use geoalg::basis::{AlgebraError, Base, Var};
use geoalg::monomial::VarParam;
use geoalg::multivector::Multivector;
use geoalg::term::Param;

fn blade(indices: &[u8]) -> Vec<Base> {
    indices.iter().map(|&i| Base::from_index(i).unwrap()).collect()
}

fn monomial(negative: bool, scalars: &str, var: Option<Var>) -> VarParam {
    let mut out: Option<VarParam> = None;
    for c in scalars.chars() {
        let factor = VarParam::from_scalar(c);
        out = Some(match out {
            None => factor,
            Some(p) => p.multiply(&factor).unwrap(),
        });
    }
    let mut built = match (out, var) {
        (Some(p), Some(v)) => p.multiply(&VarParam::from_var(v)).unwrap(),
        (Some(p), None) => p,
        (None, Some(v)) => VarParam::from_var(v),
        (None, None) => panic!("a monomial needs a letter or a variable"),
    };
    built.negate_if(negative);
    built
}

fn term(monomials: Vec<VarParam>, indices: &[u8]) -> Param {
    Param::from_parts(monomials, blade(indices))
}

fn shown(m: &Multivector) -> Vec<String> {
    m.params().iter().map(|p| p.display()).collect()
}

#[test]
fn a_new_term_holds_one_monomial() {
    let t = Param::new(VarParam::from_scalar('A'), blade(&[1, 2]));
    assert_eq!(t.var_params().len(), 1);
    assert_eq!(t.bases(), &blade(&[1, 2]));
    assert_eq!(t.display(), "Ae₁e₂");
}

#[test]
fn a_term_displays_its_monomials_in_brackets() {
    let t = term(
        vec![
            monomial(false, "AB", Some(Var::a())),
            monomial(true, "C", None),
            monomial(false, "D", Some(Var::b())),
        ],
        &[1, 3],
    );
    assert_eq!(t.display(), "(ABa + -C + Db)e₁e₃");
    assert_eq!(term(vec![], &[2]).display(), "e₂");
    assert_eq!(term(vec![monomial(true, "A", None)], &[]).display(), "-A");
}

#[test]
fn simplifying_a_term_canonicalizes_the_blade_and_flips_the_signs() {
    let mut t = term(
        vec![
            monomial(false, "BA", Some(Var::b())),
            monomial(true, "DC", None),
            monomial(false, "F", Some(Var::a())),
        ],
        &[2, 1, 3, 1],
    );
    t.simplify();
    assert_eq!(t.bases(), &blade(&[2, 3]));
    assert_eq!(t.display(), "(CD + -Fa + -ABb)e₂e₃");
}

#[test]
fn simplifying_a_term_over_an_even_reordering_keeps_the_signs() {
    let mut t = term(vec![monomial(false, "B", None), monomial(true, "A", None)], &[2, 3, 1]);
    t.simplify();
    assert_eq!(t.display(), "(B + -A)e₁e₂e₃");
}

#[test]
fn compressing_a_term_brings_like_monomials_together() {
    let mut t = term(
        vec![
            monomial(false, "AB", Some(Var::b())),
            monomial(false, "AC", Some(Var::a())),
            monomial(true, "AB", Some(Var::b())),
            monomial(false, "AB", Some(Var::a())),
            monomial(false, "AC", Some(Var::a())),
        ],
        &[1],
    );
    t.compress();
    assert_eq!(t.display(), "(ABa + ACa + ACa + ABb + -ABb)e₁");
}

#[test]
fn negating_a_term_negates_every_monomial() {
    let mut t = term(vec![monomial(false, "A", None), monomial(true, "B", None)], &[1, 2]);
    t.negate();
    assert_eq!(t.display(), "(-A + B)e₁e₂");
}

#[test]
fn absorbing_a_term_appends_its_monomials() {
    let mut t = term(vec![monomial(false, "A", None)], &[1]);
    t.absorb(term(vec![monomial(true, "B", None), monomial(false, "C", None)], &[1]));
    assert_eq!(t.display(), "(A + -B + C)e₁");
}

#[test]
fn the_product_of_terms_distributes_and_joins_the_blades() {
    let x = term(vec![monomial(false, "A", None), monomial(true, "B", None)], &[1, 2]);
    let y = term(
        vec![monomial(false, "C", Some(Var::a())), monomial(true, "D", Some(Var::a()))],
        &[2, 3],
    );
    let p = x.multiply(&y).unwrap();
    assert_eq!(p.display(), "(ACa + -ADa + -BCa + BDa)e₁e₂e₂e₃");
    let q = y.multiply(&x).unwrap();
    assert_eq!(q.display(), "(CAa + -CBa + -DAa + DBa)e₂e₃e₁e₂");
}

#[test]
fn the_product_of_terms_reports_the_first_conflict() {
    let x = term(
        vec![
            monomial(false, "A", None),
            monomial(false, "B", Some(Var::c())),
            monomial(false, "C", Some(Var::d())),
        ],
        &[1],
    );
    let y = term(
        vec![
            monomial(false, "D", Some(Var::c())),
            monomial(false, "E", Some(Var::b())),
            monomial(false, "F", Some(Var::a())),
        ],
        &[2],
    );
    match x.multiply(&y) {
        Err(e) => assert_eq!(e, AlgebraError::IncompatibleVariables(Var::C, Var::B)),
        Ok(_) => panic!("the product was accepted"),
    }
    match y.multiply(&x) {
        Err(e) => assert_eq!(e, AlgebraError::IncompatibleVariables(Var::C, Var::D)),
        Ok(_) => panic!("the product was accepted"),
    }
}

#[test]
fn a_term_in_final_form_groups_by_variable() {
    let t = term(
        vec![
            monomial(false, "AB", Some(Var::a())),
            monomial(true, "CC", Some(Var::a())),
            monomial(false, "AD", Some(Var::b())),
            monomial(true, "EF", Some(Var::d())),
        ],
        &[1],
    );
    assert_eq!(t.into_final(), Ok("(( + AB - C²)a + ( + AD)b + ( - EF)de₁".to_string()));
}

#[test]
fn a_term_in_final_form_merges_repeated_monomials() {
    let t = term(
        vec![
            monomial(false, "AB", Some(Var::a())),
            monomial(false, "AB", Some(Var::a())),
            monomial(true, "CD", Some(Var::a())),
            monomial(true, "CD", Some(Var::a())),
            monomial(false, "EE", Some(Var::b())),
            monomial(false, "EE", Some(Var::b())),
            monomial(false, "EE", Some(Var::b())),
        ],
        &[2, 3],
    );
    assert_eq!(t.into_final(), Ok("(( + 2AB - 2CD)a + ( + 4E²)be₂e₃".to_string()));
}

#[test]
fn a_repeat_of_the_other_sign_is_dropped_without_doubling() {
    let t = term(
        vec![
            monomial(false, "AB", None),
            monomial(true, "AB", None),
            monomial(false, "AB", None),
            monomial(false, "C", None),
        ],
        &[],
    );
    assert_eq!(t.into_final(), Ok("(( + 2AB + C)".to_string()));
}

#[test]
fn a_term_without_monomials_has_an_empty_sum() {
    assert_eq!(term(vec![], &[1, 2]).into_final(), Ok("(()e₁e₂".to_string()));
}

#[test]
fn a_term_of_bare_variables_in_final_form() {
    let t = term(vec![VarParam::from_var(Var::a()), VarParam::from_var(Var::b())], &[4]);
    assert_eq!(t.into_final(), Ok("(( + )a + ( + )be₄".to_string()));
}

#[test]
fn a_rotor_has_eight_terms() {
    let r = Multivector::from_rotor('A', 'B', 'C', 'D', 'E', 'F', 'G', 'H');
    assert_eq!(
        shown(&r),
        vec!["A", "Be₁e₂", "Ce₁e₃", "De₁e₄", "Ee₂e₃", "Fe₂e₄", "Ge₃e₄", "He₁e₂e₃e₄"]
    );
    assert_eq!(r.display(), "[A + Be₁e₂ + Ce₁e₃ + De₁e₄ + Ee₂e₃ + Fe₂e₄ + Ge₃e₄ + He₁e₂e₃e₄]");
}

#[test]
fn a_vector_has_four_terms() {
    let v = Multivector::from_vector(Var::a(), Var::b(), Var::c(), Var::d());
    assert_eq!(shown(&v), vec!["ae₁", "be₂", "ce₃", "de₄"]);
    assert_eq!(v.display(), "[ae₁ + be₂ + ce₃ + de₄]");
    let w = Multivector::from_vector(Var::d(), Var::d(), Var::a(), Var::b());
    assert_eq!(w.display(), "[de₁ + de₂ + ae₃ + be₄]");
}

#[test]
fn a_multivector_displays_only_terms_that_hold_a_monomial() {
    let empty = Multivector::from_params(vec![]);
    assert_eq!(empty.display(), "");
    let hollow = Multivector::from_params(vec![term(vec![], &[1]), term(vec![], &[2])]);
    assert_eq!(hollow.display(), "");
    let m = Multivector::from_params(vec![
        term(vec![], &[1]),
        term(vec![monomial(true, "A", None), monomial(true, "B", Some(Var::a()))], &[1, 2]),
        term(vec![], &[3]),
        term(vec![monomial(true, "C", None)], &[]),
        term(vec![monomial(false, "D", None), monomial(false, "E", None)], &[4]),
    ]);
    assert_eq!(m.display(), "[(-A - Ba)e₁e₂ + -C + (D + E)e₄]");
}

#[test]
fn the_reverse_negates_the_blades_of_two_vectors() {
    let r = Multivector::from_rotor('A', 'B', 'C', 'D', 'E', 'F', 'G', 'H');
    let back = r.reverse();
    assert_eq!(
        shown(&back),
        vec!["A", "-Be₁e₂", "-Ce₁e₃", "-De₁e₄", "-Ee₂e₃", "-Fe₂e₄", "-Ge₃e₄", "He₁e₂e₃e₄"]
    );
    assert_eq!(shown(&r)[1], "Be₁e₂");
    let first = Multivector::from_params(vec![
        term(vec![monomial(false, "A", None), monomial(true, "B", None)], &[2, 1]),
        term(vec![monomial(false, "C", None)], &[1, 1, 2]),
    ]);
    assert_eq!(shown(&first.reverse()), vec!["(-A + B)e₂e₁", "Ce₁e₁e₂"]);
}

#[test]
fn reversing_twice_gives_the_multivector_back() {
    let r = Multivector::from_rotor('A', 'B', 'C', 'D', 'E', 'F', 'G', 'H');
    let v = Multivector::from_vector(Var::a(), Var::b(), Var::c(), Var::d());
    let p = r.product(&v).unwrap();
    for m in [r, v, p] {
        let twice = m.reverse().reverse();
        assert_eq!(shown(&twice), shown(&m));
        let mut left = twice;
        let mut right = m.clone();
        left.simplify();
        right.simplify();
        assert_eq!(shown(&left), shown(&right));
    }
}

#[test]
fn the_product_pairs_every_term_with_every_term() {
    let x = Multivector::from_params(vec![
        term(vec![monomial(false, "A", None)], &[]),
        term(vec![monomial(false, "B", None)], &[1, 2]),
    ]);
    let y = Multivector::from_params(vec![
        term(vec![monomial(false, "C", None)], &[2]),
        term(vec![monomial(true, "D", None)], &[1]),
        term(vec![monomial(false, "E", None)], &[3]),
    ]);
    let p = x.product(&y).unwrap();
    assert_eq!(
        shown(&p),
        vec!["ACe₂", "-ADe₁", "AEe₃", "BCe₁e₂e₂", "-BDe₁e₂e₁", "BEe₁e₂e₃"]
    );
    let none = Multivector::from_params(vec![]);
    assert_eq!(x.product(&none).unwrap().params().len(), 0);
    assert_eq!(none.product(&x).unwrap().params().len(), 0);
}

#[test]
fn the_product_of_two_vectors_is_refused() {
    let v = Multivector::from_vector(Var::a(), Var::b(), Var::c(), Var::d());
    match v.product(&v) {
        Err(e) => assert_eq!(e, AlgebraError::IncompatibleVariables(Var::A, Var::B)),
        Ok(_) => panic!("the product of two vectors was accepted"),
    }
    let same = Multivector::from_vector(Var::c(), Var::c(), Var::c(), Var::c());
    assert_eq!(same.product(&same).unwrap().params().len(), 16);
}

#[test]
fn simplifying_sorts_by_blade_and_merges_equal_blades() {
    let mut m = Multivector::from_params(vec![
        term(vec![monomial(false, "B", None)], &[1, 2, 3]),
        term(vec![monomial(false, "C", None)], &[2, 1]),
        term(vec![monomial(false, "A", None)], &[4]),
        term(vec![monomial(false, "D", None)], &[3, 3]),
        term(vec![monomial(false, "E", None)], &[1, 2]),
        term(vec![monomial(false, "F", None)], &[1]),
        term(vec![monomial(false, "G", None)], &[]),
    ]);
    m.simplify();
    assert_eq!(shown(&m), vec!["(D + G)", "Fe₁", "Ae₄", "(-C + E)e₁e₂", "Be₁e₂e₃"]);
}

#[test]
fn simplifying_twice_changes_nothing_more() {
    let r = Multivector::from_rotor('D', 'B', 'A', 'C', 'H', 'F', 'G', 'E');
    let v = Multivector::from_vector(Var::d(), Var::a(), Var::c(), Var::b());
    let mut once = r.reverse().product(&v).unwrap().product(&r).unwrap();
    once.simplify();
    let mut twice = once.clone();
    twice.simplify();
    assert_eq!(shown(&twice), shown(&once));
    assert_eq!(twice.display(), once.display());
}

#[test]
fn compressing_merges_only_neighbours() {
    let mut m = Multivector::from_params(vec![
        term(vec![monomial(false, "B", None)], &[1]),
        term(vec![monomial(false, "A", None)], &[1]),
        term(vec![monomial(false, "C", None)], &[2]),
        term(vec![monomial(false, "D", None)], &[1]),
        term(vec![monomial(false, "E", None)], &[1]),
        term(vec![monomial(false, "A", None)], &[1]),
    ]);
    m.compress();
    assert_eq!(shown(&m), vec!["(A + B)e₁", "Ce₂", "(A + D + E)e₁"]);
    let mut none = Multivector::from_params(vec![]);
    none.compress();
    assert_eq!(none.params().len(), 0);
    none.simplify();
    assert_eq!(none.params().len(), 0);
}

#[test]
fn the_product_distributes_over_a_sum() {
    let a = Multivector::from_rotor('A', 'B', 'C', 'D', 'E', 'F', 'G', 'H');
    let b = Multivector::from_vector(Var::a(), Var::b(), Var::c(), Var::d());
    let c = Multivector::from_params(vec![
        term(vec![monomial(false, "X", Some(Var::a()))], &[2]),
        term(vec![monomial(true, "Y", Some(Var::b()))], &[1, 2, 3]),
    ]);
    let mut sum = b.params().clone();
    sum.extend(c.params().iter().cloned());
    let mut whole = a.product(&Multivector::from_params(sum)).unwrap();
    whole.simplify();
    let mut parts = a.product(&b).unwrap().params().clone();
    parts.extend(a.product(&c).unwrap().params().iter().cloned());
    let mut apart = Multivector::from_params(parts);
    apart.simplify();
    assert_eq!(whole.params().len(), apart.params().len());
    for (x, y) in whole.params().iter().zip(apart.params().iter()) {
        assert_eq!(x.bases(), y.bases());
        let mut left: Vec<String> = x.var_params().iter().map(|m| m.display()).collect();
        let mut right: Vec<String> = y.var_params().iter().map(|m| m.display()).collect();
        left.sort();
        right.sort();
        assert_eq!(left, right);
    }
}

#[test]
fn the_final_form_has_one_line_for_each_term() {
    let r = Multivector::from_rotor('A', 'B', 'C', 'D', 'E', 'F', 'G', 'H');
    let s = Multivector::from_rotor('Z', 'Y', 'X', 'W', 'V', 'U', 'T', 'S');
    let hollow = Multivector::from_params(vec![
        term(vec![], &[1]),
        term(vec![monomial(false, "AA", None), monomial(false, "AA", None)], &[1, 2]),
        term(vec![], &[]),
        term(vec![monomial(true, "B", Some(Var::a()))], &[3]),
    ]);
    assert_eq!(hollow.into_final(), Ok("(( + 2A²)e₁e₂\n(( - B)ae₃\n".to_string()));
    assert_eq!(Multivector::from_params(vec![]).into_final(), Ok(String::new()));
    let mut m = r.product(&s).unwrap();
    m.simplify();
    let text = m.into_final().unwrap();
    let lines: Vec<&str> = text.lines().collect();
    assert_eq!(lines.len(), 8);
    assert_eq!(lines[0], "(( + AZ - BY - CX - DW - EV - FU - GT + HS)");
    assert_eq!(lines[1], "(( + AY + BZ - CV - DU + EX + FW - GS - HT)e₁e₂");
    assert_eq!(lines[7], "(( + AS + BT - CU + DV + EW - FX + GY + HZ)e₁e₂e₃e₄");
}

#[test]
fn the_final_form_reports_the_first_refusal() {
    let m = Multivector::from_params(vec![
        term(vec![monomial(false, "AB", None)], &[1]),
        term(vec![monomial(false, "BBBBBBBBBBBB", None)], &[2]),
        term(vec![monomial(false, "CCCCCCCCCC", None)], &[3]),
    ]);
    assert_eq!(m.into_final(), Err(AlgebraError::UnsupportedExponent(12)));
}
