use geoalg::basis::{Base, Var};
use geoalg::multivector::Multivector;

fn grades(m: &Multivector) -> Vec<usize> {
    m.params().iter().map(|p| p.bases().len()).collect()
}

#[test]
fn a_rotor_sandwich_of_a_vector_has_odd_grades_only() {
    let rotor = Multivector::from_rotor('A', 'B', 'C', 'D', 'E', 'F', 'G', 'H');
    let vector = Multivector::from_vector(Var::a(), Var::b(), Var::c(), Var::d());
    let back = rotor.reverse();
    let mut half = back.product(&vector).unwrap();
    half.simplify();
    assert_eq!(grades(&half), vec![1, 1, 1, 1, 3, 3, 3, 3]);
    assert_eq!(
        half.display(),
        "[(Aa - Bb - Cc - Dd)e₁ + (Ba + Ab - Ec - Fd)e₂ + (Ca + Eb + Ac - Gd)e₃ \
         + (Da + Fb + Gc + Ad)e₄ + (-Ea + Cb - Bc + Hd)e₁e₂e₃ + (-Fa + Db - Hc - Bd)e₁e₂e₄ \
         + (-Ga + Hb + Dc - Cd)e₁e₃e₄ + (-Ha - Gb + Fc - Ed)e₂e₃e₄]"
    );
    let mut whole = half.product(&rotor).unwrap();
    whole.simplify();
    let vectors: Vec<&Vec<Base>> =
        whole.params().iter().map(|p| p.bases()).filter(|b| b.len() == 1).collect();
    assert_eq!(
        vectors,
        vec![&vec![Base::E1], &vec![Base::E2], &vec![Base::E3], &vec![Base::E4]]
    );
    assert_eq!(grades(&whole), vec![1, 1, 1, 1, 3, 3, 3, 3]);
    for p in whole.params() {
        assert_eq!(p.var_params().len(), 32);
    }
    let text = whole.into_final().unwrap();
    let lines: Vec<&str> = text.lines().collect();
    assert_eq!(lines.len(), 8);
    assert_eq!(
        lines[0],
        "(( + A² - B² - C² - D² + E² + F² + G² - H²)a + ( - 2AB - 2CE - 2DF - 2GH)b \
         + ( - 2AC + 2BE - 2DG + 2FH)c + ( - 2AD + 2BF + 2CG - 2EH)de₁"
    );
}

#[test]
fn the_scalar_rotor_leaves_the_vector_under_its_letter() {
    let one = Multivector::from_rotor('1', '0', '0', '0', '0', '0', '0', '0');
    let vector = Multivector::from_vector(Var::a(), Var::b(), Var::c(), Var::d());
    let mut product = one.product(&vector).unwrap();
    product.simplify();
    let mut kept: Vec<String> = vec![];
    for p in product.params() {
        for m in p.var_params() {
            assert_eq!(m.scalars().len(), 1);
            if m.scalars()[0] == '1' {
                assert!(!m.is_negative());
                let blade: String = p.bases().iter().map(|b| b.symbol()).collect();
                kept.push(format!("{}{}", m.var().unwrap().symbol(), blade));
            } else {
                assert_eq!(m.scalars()[0], '0');
            }
        }
    }
    assert_eq!(kept, vec!["ae₁", "be₂", "ce₃", "de₄"]);
    assert_eq!(vector.display(), "[ae₁ + be₂ + ce₃ + de₄]");
    assert_eq!(
        product.display(),
        "[(1a + 0b + 0c + 0d)e₁ + (-0a + 1b + 0c + 0d)e₂ + (-0a - 0b + 1c + 0d)e₃ \
         + (-0a - 0b - 0c + 1d)e₄ + (0a - 0b + 0c + 0d)e₁e₂e₃ + (0a - 0b - 0c + 0d)e₁e₂e₄ \
         + (0a + 0b - 0c + 0d)e₁e₃e₄ + (-0a + 0b - 0c + 0d)e₂e₃e₄]"
    );
}

#[test]
fn the_product_of_two_rotors_in_final_form() {
    let r = Multivector::from_rotor('A', 'B', 'C', 'D', 'E', 'F', 'G', 'H');
    let s = Multivector::from_rotor('Z', 'Y', 'X', 'W', 'V', 'U', 'T', 'S');
    let mut m = r.product(&s).unwrap();
    assert_eq!(m.params().len(), 64);
    m.simplify();
    assert_eq!(
        m.into_final().unwrap(),
        "(( + AZ - BY - CX - DW - EV - FU - GT + HS)\n\
         (( + AY + BZ - CV - DU + EX + FW - GS - HT)e₁e₂\n\
         (( + AX + BV + CZ - DT - EY + FS + GW + HU)e₁e₃\n\
         (( + AW + BU + CT + DZ - ES - FY - GX - HV)e₁e₄\n\
         (( + AV - BX + CY - DS + EZ - FT + GU - HW)e₂e₃\n\
         (( + AU - BW + CS + DY + ET + FZ - GV + HX)e₂e₄\n\
         (( + AT - BS - CW + DX - EU + FV + GZ - HY)e₃e₄\n\
         (( + AS + BT - CU + DV + EW - FX + GY + HZ)e₁e₂e₃e₄\n"
    );
}
