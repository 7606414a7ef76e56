use pipedreams::dream::{Dream, ReducedDreams, Tile};
use pipedreams::perm::{parse_perm, Perm};
use pipedreams::poly::{Monomial, Schubert};

fn cross_count(d: &Dream) -> usize {
    let n = d.dim();
    let mut total = 0;
    for i in 0..n {
        for j in 0..n {
            if d.get(i, j) == Tile::Cross {
                total += 1;
            }
        }
    }
    total
}

fn lehmer_sum(p: &Perm) -> usize {
    p.lehmer().iter().sum()
}

#[test]
fn perm_new_rejects_duplicate() {
    assert!(Perm::new(&[0, 2, 1, 1]).is_none());
}

#[test]
fn perm_new_rejects_out_of_range() {
    assert!(Perm::new(&[0, 4, 2, 1]).is_none());
}

#[test]
fn perm_new_accepts_bijection() {
    let p = Perm::new(&[0, 3, 2, 1]).unwrap();
    assert_eq!(p.len(), 4);
    assert_eq!(p.at(1), 3);
    assert_eq!(p.iter(), vec![0, 3, 2, 1]);
}

#[test]
fn perm_new_accepts_empty() {
    let p = Perm::new(&[]).unwrap();
    assert_eq!(p.len(), 0);
}

#[test]
fn lehmer_code_values() {
    let p = Perm::new(&[0, 3, 2, 1]).unwrap();
    assert_eq!(p.lehmer(), vec![0, 2, 1, 0]);
    let id = Perm::new(&[0, 1, 2]).unwrap();
    assert_eq!(id.lehmer(), vec![0, 0, 0]);
    let w0 = Perm::long(4);
    assert_eq!(w0.lehmer(), vec![3, 2, 1, 0]);
}

#[test]
fn long_permutation_entries() {
    let w0 = Perm::long(4);
    assert_eq!(w0.iter(), vec![3, 2, 1, 0]);
    assert_eq!(Perm::long(0).len(), 0);
}

#[test]
fn compose_with_inverse_is_identity() {
    let w0 = Perm::long(3);
    let id = w0.compose_with(&w0);
    assert_eq!(id.iter(), vec![0, 1, 2]);
}

#[test]
fn compose_applies_left_to_right_output() {
    let p = Perm::new(&[1, 2, 0]).unwrap();
    let q = Perm::new(&[2, 0, 1]).unwrap();
    // (p . q)(i) = p(q(i))
    let r = p.compose_with(&q);
    assert_eq!(r.iter(), vec![0, 1, 2]);
}

#[test]
fn perm_matrix_entries() {
    let p = Perm::new(&[1, 0]).unwrap();
    let m = p.matrix();
    assert_eq!(m.dim(), 2);
    assert_eq!(m.get(0, 0), 0);
    assert_eq!(m.get(0, 1), 1);
    assert_eq!(m.get(1, 0), 1);
    assert_eq!(m.get(1, 1), 0);
}

#[test]
fn perm_rothe_entries() {
    let p = Perm::new(&[1, 0]).unwrap();
    let r = p.rothe();
    assert_eq!(r.get(0, 0), 1);
    assert_eq!(r.get(0, 1), 0);
    assert_eq!(r.get(1, 0), 0);
    assert_eq!(r.get(1, 1), 0);
}

#[test]
fn seed_dream_pattern() {
    let d = Dream::long(3);
    assert_eq!(d.dim(), 3);
    for i in 0..3 {
        for j in 0..3 {
            let expected = if i + j < 2 { Tile::Cross } else { Tile::Elbow };
            assert_eq!(d.get(i, j), expected);
        }
    }
}

#[test]
fn start_finds_first_elbow() {
    let d = Dream::long(3);
    assert_eq!(d.start(0), 2);
    assert_eq!(d.start(1), 1);
    assert_eq!(d.start(2), 0);
}

#[test]
fn start_returns_dim_on_full_row() {
    let d = Dream::from_vec(2, &[Tile::Cross, Tile::Cross, Tile::Elbow, Tile::Elbow]);
    assert_eq!(d.start(0), 2);
    assert_eq!(d.start(1), 0);
}

#[test]
fn mitosis_of_seed_of_two() {
    let d = Dream::long(2);
    let children = d.mitosis(0);
    assert_eq!(children.len(), 1);
    let c = &children[0];
    assert_eq!(c.dim(), 2);
    assert_eq!(cross_count(c), 0);
}

#[test]
fn mitosis_preserves_dimension() {
    // Dimension preservation: every child has its parent's dimension.
    let p = Perm::new(&[0, 3, 2, 1]).unwrap();
    let dreams = ReducedDreams::for_perm(&p);
    for d in dreams.iter() {
        assert_eq!(d.dim(), 4);
        let kids = d.mitosis(0);
        for k in &kids {
            assert_eq!(k.dim(), 4);
        }
    }
}

#[test]
fn crossing_count_invariant_examples() {
    // Crossing-count invariant: every generated dream holds exactly
    // the Coxeter length of its permutation in crosses.
    for arr in [
        vec![0usize, 3, 2, 1],
        vec![0, 2, 1],
        vec![1, 0, 2],
        vec![2, 0, 1],
        vec![0, 1, 2, 3],
    ] {
        let p = Perm::new(&arr).unwrap();
        let len = lehmer_sum(&p);
        let dreams = ReducedDreams::for_perm(&p);
        assert!(dreams.iter().len() > 0);
        for d in dreams.iter() {
            assert_eq!(cross_count(d), len);
        }
    }
}

#[test]
fn identity_has_unique_empty_dream() {
    // Identity case: one dream, no crosses.
    let p = Perm::new(&[0, 1, 2]).unwrap();
    let dreams = ReducedDreams::for_perm(&p);
    assert_eq!(dreams.iter().len(), 1);
    assert_eq!(cross_count(&dreams.iter()[0]), 0);
    let s = Schubert::from_dreams(&dreams);
    assert_eq!(s.to_text(), "S_[0, 1, 2] = 1");
}

#[test]
fn longest_permutation_yields_empty_set() {
    // Longest-permutation edge case: the composed word is empty, the
    // generator exits early and returns no dreams.
    let p = Perm::new(&[1, 0]).unwrap();
    let dreams = ReducedDreams::for_perm(&p);
    assert_eq!(dreams.iter().len(), 0);
    let s = Schubert::from_dreams(&dreams);
    assert_eq!(s.to_text(), "S_[1, 0] = 1");

    let p4 = Perm::long(4);
    let dreams4 = ReducedDreams::for_perm(&p4);
    assert_eq!(dreams4.iter().len(), 0);
}

#[test]
fn monomial_exponent_sums_match_crosses() {
    // Monomial exponent sum: the exponents of a dream's monomial sum
    // to its number of crosses.
    let p = Perm::new(&[0, 3, 2, 1]).unwrap();
    let dreams = ReducedDreams::for_perm(&p);
    for d in dreams.iter() {
        let mono = Monomial::from_dream(d);
        let total: usize = mono.powers().iter().map(|&(_, e)| e).sum();
        assert_eq!(total, cross_count(d));
    }
}

#[test]
fn monomial_is_sparse_ascending_positive() {
    let d = Dream::from_vec(
        3,
        &[
            Tile::Cross,
            Tile::Elbow,
            Tile::Cross,
            Tile::Elbow,
            Tile::Elbow,
            Tile::Elbow,
            Tile::Elbow,
            Tile::Cross,
            Tile::Elbow,
        ],
    );
    let mono = Monomial::from_dream(&d);
    assert_eq!(mono.powers().clone(), vec![(0, 2), (2, 1)]);
}

#[test]
fn schubert_keeps_generation_order_and_permutation() {
    let p = Perm::new(&[0, 2, 1]).unwrap();
    let dreams = ReducedDreams::for_perm(&p);
    assert_eq!(dreams.iter().len(), 2);
    assert_eq!(dreams.perm().iter(), vec![0, 2, 1]);
    let s = Schubert::from_dreams(&dreams);
    assert_eq!(s.perm().iter(), vec![0, 2, 1]);
    assert_eq!(s.parts().len(), 2);
}

#[test]
fn schubert_of_simple_transposition() {
    let p = parse_perm("1,0,2", ",").unwrap();
    let dreams = ReducedDreams::for_perm(&p);
    assert_eq!(dreams.iter().len(), 1);
    let s = Schubert::from_dreams(&dreams);
    assert_eq!(s.to_text(), "S_[1, 0, 2] = x_0");
}

#[test]
fn schubert_with_square_exponent() {
    let p = Perm::new(&[2, 0, 1]).unwrap();
    let dreams = ReducedDreams::for_perm(&p);
    let s = Schubert::from_dreams(&dreams);
    assert_eq!(s.to_text(), "S_[2, 0, 1] = x_0^2");
}

#[test]
fn schubert_sum_of_two_monomials() {
    let p = Perm::new(&[0, 2, 1]).unwrap();
    let dreams = ReducedDreams::for_perm(&p);
    let s = Schubert::from_dreams(&dreams);
    assert_eq!(s.to_text(), "S_[0, 2, 1] = x_0 + x_1");
}

#[test]
fn empty_permutation_renders_constant() {
    let p = Perm::new(&[]).unwrap();
    let dreams = ReducedDreams::for_perm(&p);
    assert_eq!(dreams.iter().len(), 0);
    let s = Schubert::from_dreams(&dreams);
    assert_eq!(s.to_text(), "S_[] = 1");
}
