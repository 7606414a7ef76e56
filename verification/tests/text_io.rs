use pipedreams::dream::{display_dream, Dream, Tile};
use pipedreams::matrix::SqMat;
use pipedreams::perm::{parse_perm, Perm};
use pipedreams::text::usize_to_string;

#[test]
fn parse_round_trip() {
    // Parsing with surrounding whitespace succeeds and renders back in
    // canonical form.
    let p = parse_perm(" 0, 3, 2, 1 ", ",").unwrap();
    assert_eq!(p.to_text(), "[0, 3, 2, 1]");
}

#[test]
fn parse_rejects_malformed_token() {
    assert!(parse_perm("0,a,1", ",").is_err());
    assert!(parse_perm("0,,1", ",").is_err());
    assert!(parse_perm("0.5,1", ",").is_err());
    assert!(parse_perm("-1,0", ",").is_err());
}

#[test]
fn parse_rejects_empty_input() {
    assert!(parse_perm("", ",").is_err());
    assert!(parse_perm("   ", ",").is_err());
}

#[test]
fn parse_rejects_empty_delimiter() {
    assert!(parse_perm("0", "").is_err());
}

#[test]
fn parse_rejects_non_bijection() {
    assert!(parse_perm("0,2,1,1", ",").is_err());
    assert!(parse_perm("1,2,3", ",").is_err());
}

#[test]
fn parse_rejects_oversized_value() {
    assert!(parse_perm("18446744073709551616", ",").is_err());
}

#[test]
fn parse_accepts_leading_plus() {
    let p = parse_perm("+1, 0", ",").unwrap();
    assert_eq!(p.to_text(), "[1, 0]");
}

#[test]
fn parse_with_other_delimiter() {
    let p = parse_perm("2 ; 0 ; 1", ";").unwrap();
    assert_eq!(p.to_text(), "[2, 0, 1]");
}

#[test]
fn parse_single_value() {
    let p = parse_perm("0", ",").unwrap();
    assert_eq!(p.len(), 1);
    assert_eq!(p.to_text(), "[0]");
}

#[test]
fn parse_through_from_str() {
    let p: Perm = "0,3,2,1".parse().unwrap();
    assert_eq!(p.to_text(), "[0, 3, 2, 1]");
    assert!("0,2,1,1".parse::<Perm>().is_err());
}

#[test]
fn decimal_rendering() {
    assert_eq!(usize_to_string(0), "0");
    assert_eq!(usize_to_string(7), "7");
    assert_eq!(usize_to_string(10), "10");
    assert_eq!(usize_to_string(1234), "1234");
    assert_eq!(usize_to_string(usize::MAX), "18446744073709551615");
}

#[test]
fn perm_renders_brackets() {
    assert_eq!(Perm::new(&[]).unwrap().to_text(), "[]");
    assert_eq!(Perm::long(3).to_text(), "[2, 1, 0]");
}

#[test]
fn display_dream_characters() {
    let d = Dream::long(2);
    let chars = display_dream(&d);
    assert_eq!(chars.dim(), 2);
    assert_eq!(chars.get(0, 0), '+');
    assert_eq!(chars.get(0, 1), '.');
    assert_eq!(chars.get(1, 0), '.');
    assert_eq!(chars.get(1, 1), '.');
}

#[test]
fn sqmat_new_and_set() {
    let mut m = SqMat::<u8>::new(2);
    assert_eq!(m.dim(), 2);
    assert_eq!(m.get(1, 1), 0);
    m.set(1, 0, 9);
    assert_eq!(m.get(1, 0), 9);
    assert_eq!(m.get(0, 0), 0);
}

#[test]
fn sqmat_from_vec_row_major() {
    let m = SqMat::from_vec(2, &[1u8, 2, 3, 4]);
    assert_eq!(m.get(0, 0), 1);
    assert_eq!(m.get(0, 1), 2);
    assert_eq!(m.get(1, 0), 3);
    assert_eq!(m.get(1, 1), 4);
}

#[test]
fn sqmat_rows_cols_iter() {
    let m = SqMat::from_vec(2, &[1u8, 2, 3, 4]);
    assert_eq!(m.row(1), vec![3, 4]);
    assert_eq!(m.col(0), vec![1, 3]);
    assert_eq!(m.rows(), vec![vec![1, 2], vec![3, 4]]);
    assert_eq!(m.iter(), vec![1, 2, 3, 4]);
}

#[test]
fn sqmat_map_applies_function() {
    let m = SqMat::from_vec(2, &[1u8, 2, 3, 4]);
    let doubled = m.map(|x| x * 2);
    assert_eq!(doubled.iter(), vec![2, 4, 6, 8]);
}

#[test]
fn sqmat_duplicate_is_independent() {
    let mut m = SqMat::from_vec(2, &[1u8, 2, 3, 4]);
    let d = m.duplicate();
    m.set(0, 0, 7);
    assert_eq!(d.get(0, 0), 1);
    assert_eq!(m.get(0, 0), 7);
}

#[test]
fn dream_from_vec_and_tiles() {
    let d = Dream::from_vec(2, &[Tile::Cross, Tile::Elbow, Tile::Elbow, Tile::Cross]);
    assert_eq!(d.get(0, 0), Tile::Cross);
    assert_eq!(d.get(1, 1), Tile::Cross);
    let t = d.tiles();
    assert_eq!(t.get(0, 1), Tile::Elbow);
}
