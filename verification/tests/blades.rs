use geoalg::basis::{AlgebraError, Base, Var};
use geoalg::blade::{compare_blades, Bases};

fn blade(indices: &[u8]) -> Vec<Base> {
    indices.iter().map(|&i| Base::from_index(i).unwrap()).collect()
}

fn indices(blade: &[Base]) -> Vec<u8> {
    blade.iter().map(|b| b.index()).collect()
}

fn canonical(raw: &[u8]) -> (bool, Vec<u8>) {
    let (flip, out) = Bases(blade(raw)).simplify();
    (flip, indices(&out))
}

fn inversions(raw: &[u8]) -> usize {
    let mut count = 0;
    for i in 0..raw.len() {
        for j in (i + 1)..raw.len() {
            if raw[i] > raw[j] {
                count += 1;
            }
        }
    }
    count
}

#[test]
fn the_four_generators_have_ranks_one_to_four() {
    assert_eq!(Base::e1().index(), 1);
    assert_eq!(Base::e2().index(), 2);
    assert_eq!(Base::e3().index(), 3);
    assert_eq!(Base::e4().index(), 4);
    assert_eq!(Base::e1(), Base::E1);
    assert_eq!(Base::e4(), Base::E4);
}

#[test]
fn the_four_variables_have_ranks_one_to_four() {
    assert_eq!(Var::a().index(), 1);
    assert_eq!(Var::b().index(), 2);
    assert_eq!(Var::c().index(), 3);
    assert_eq!(Var::d().index(), 4);
    assert_eq!(Var::a().symbol(), 'a');
    assert_eq!(Var::b().symbol(), 'b');
    assert_eq!(Var::c().symbol(), 'c');
    assert_eq!(Var::d().symbol(), 'd');
}

#[test]
fn generators_display_with_subscripts() {
    assert_eq!(Base::e1().symbol(), "e₁");
    assert_eq!(Base::e2().symbol(), "e₂");
    assert_eq!(Base::e3().symbol(), "e₃");
    assert_eq!(Base::e4().symbol(), "e₄");
}

#[test]
fn a_number_outside_one_to_four_names_no_generator() {
    assert_eq!(Base::from_index(0), Err(AlgebraError::UnsupportedBasis(0)));
    assert_eq!(Base::from_index(5), Err(AlgebraError::UnsupportedBasis(5)));
    assert_eq!(Base::from_index(255), Err(AlgebraError::UnsupportedBasis(255)));
    assert_eq!(Base::from_index(3), Ok(Base::E3));
}

#[test]
fn a_number_outside_one_to_four_names_no_variable() {
    assert_eq!(Var::from_index(0), Err(AlgebraError::UnsupportedVariable(0)));
    assert_eq!(Var::from_index(7), Err(AlgebraError::UnsupportedVariable(7)));
    assert_eq!(Var::from_index(2), Ok(Var::B));
}

#[test]
fn empty_and_single_blades_are_unchanged() {
    assert_eq!(canonical(&[]), (false, vec![]));
    assert_eq!(canonical(&[3]), (false, vec![3]));
}

#[test]
fn a_canonical_blade_is_returned_unchanged() {
    let all: [&[u8]; 16] = [
        &[],
        &[1],
        &[2],
        &[3],
        &[4],
        &[1, 2],
        &[1, 3],
        &[1, 4],
        &[2, 3],
        &[2, 4],
        &[3, 4],
        &[1, 2, 3],
        &[1, 2, 4],
        &[1, 3, 4],
        &[2, 3, 4],
        &[1, 2, 3, 4],
    ];
    for raw in all {
        assert_eq!(canonical(raw), (false, raw.to_vec()));
    }
}

#[test]
fn the_sign_of_every_permutation_is_its_parity() {
    let mut seen = 0;
    let mut odd = 0;
    for a in 1..=4u8 {
        for b in 1..=4u8 {
            for c in 1..=4u8 {
                for d in 1..=4u8 {
                    let raw = [a, b, c, d];
                    let mut sorted = raw;
                    sorted.sort();
                    if sorted != [1, 2, 3, 4] {
                        continue;
                    }
                    seen += 1;
                    let (flip, out) = canonical(&raw);
                    assert_eq!(out, vec![1, 2, 3, 4]);
                    assert_eq!(flip, inversions(&raw) % 2 == 1);
                    if flip {
                        odd += 1;
                    }
                }
            }
        }
    }
    assert_eq!(seen, 24);
    assert_eq!(odd, 12);
}

#[test]
fn known_permutations_have_known_signs() {
    assert_eq!(canonical(&[2, 1]), (true, vec![1, 2]));
    assert_eq!(canonical(&[2, 1, 3, 4]), (true, vec![1, 2, 3, 4]));
    assert_eq!(canonical(&[2, 3, 1]), (false, vec![1, 2, 3]));
    assert_eq!(canonical(&[4, 3, 2, 1]), (false, vec![1, 2, 3, 4]));
    assert_eq!(canonical(&[4, 1, 2, 3]), (true, vec![1, 2, 3, 4]));
}

#[test]
fn a_vector_times_itself_cancels() {
    assert_eq!(canonical(&[1, 1]), (false, vec![]));
    assert_eq!(canonical(&[1, 2, 2, 1]), (false, vec![]));
    assert_eq!(canonical(&[1, 2, 1, 2]), (true, vec![]));
    assert_eq!(canonical(&[1, 2, 2]), (false, vec![1]));
    assert_eq!(canonical(&[2, 1, 2]), (true, vec![1]));
    assert_eq!(canonical(&[1, 2, 1, 3]), (true, vec![2, 3]));
    assert_eq!(canonical(&[3, 4, 1, 3]), (true, vec![1, 4]));
}

#[test]
fn higher_multiplicities_cancel_in_pairs() {
    assert_eq!(canonical(&[1, 1, 1]), (false, vec![1]));
    assert_eq!(canonical(&[1, 1, 1, 1]), (false, vec![]));
    assert_eq!(canonical(&[2, 1, 2, 1, 2]), (true, vec![2]));
}

#[test]
fn blades_are_ordered_by_length_then_by_first_difference() {
    assert_eq!(compare_blades(&blade(&[]), &blade(&[])), 0);
    assert_eq!(compare_blades(&blade(&[4]), &blade(&[1, 2])), -1);
    assert_eq!(compare_blades(&blade(&[1, 2]), &blade(&[4])), 1);
    assert_eq!(compare_blades(&blade(&[1, 3]), &blade(&[1, 4])), -1);
    assert_eq!(compare_blades(&blade(&[2, 3]), &blade(&[1, 4])), 1);
    assert_eq!(compare_blades(&blade(&[2, 3]), &blade(&[2, 3])), 0);
}

#[test]
fn blades_compare_with_the_operators() {
    assert!(Bases(blade(&[1, 2])) == Bases(blade(&[1, 2])));
    assert!(Bases(blade(&[1, 2])) != Bases(blade(&[1, 3])));
    assert!(Bases(blade(&[1, 2])) != Bases(blade(&[1, 2, 3])));
    assert!(Bases(blade(&[4])) < Bases(blade(&[1, 2])));
    assert!(Bases(blade(&[1, 4])) < Bases(blade(&[2, 3])));
    assert!(Bases(blade(&[3, 4])) > Bases(blade(&[2, 4])));
    assert_eq!(
        Bases(blade(&[1])).partial_cmp(&Bases(blade(&[1]))),
        Some(std::cmp::Ordering::Equal)
    );
}

#[test]
fn generators_and_variables_order_by_rank() {
    assert!(Base::e1() < Base::e2());
    assert!(Base::e2() < Base::e3());
    assert!(Base::e3() < Base::e4());
    assert!(Var::a() < Var::b());
    assert!(Var::b() < Var::c());
    assert!(Var::c() < Var::d());
    assert!(None < Some(Var::a()));
    let mut all = vec![Base::e3(), Base::e1(), Base::e4(), Base::e2()];
    all.sort();
    assert_eq!(all, vec![Base::E1, Base::E2, Base::E3, Base::E4]);
}
