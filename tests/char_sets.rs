use reggie::char_set::{CClass, CharSet};
use reggie::error::ReggieError;

fn set(ranges: &[(char, char)]) -> CharSet {
    CharSet::from_ranges(ranges.to_vec()).expect("valid ranges")
}

#[test]
fn ranges_are_sorted_and_merged() {
    let s = set(&[('x', 'z'), ('a', 'c'), ('d', 'f'), ('b', 'b')]);
    assert_eq!(vec![('a', 'f'), ('x', 'z')], s.ranges_iter());
    assert_eq!("[a-fx-z]", s.as_string());
}

#[test]
fn add_range_merges_touching_ranges() {
    let mut s = CharSet::empty();
    s.add_range('a', 'c').unwrap();
    s.add_range('g', 'h').unwrap();
    assert_eq!(vec![('a', 'c'), ('g', 'h')], s.ranges_iter());
    s.add_range('d', 'f').unwrap();
    assert_eq!(vec![('a', 'h')], s.ranges_iter());
}

#[test]
fn add_range_refuses_reversed_bounds() {
    let mut s = set(&[('a', 'c')]);
    match s.add_range('z', 'a') {
        Err(ReggieError::InvalidRanges { bad_ranges }) => assert_eq!(vec![('z', 'a')], bad_ranges),
        other => panic!("unexpected {:?}", other),
    }
    assert_eq!(vec![('a', 'c')], s.ranges_iter());
}

#[test]
fn add_disjoint_range_unions() {
    let mut s = set(&[('a', 'c'), ('x', 'x')]);
    let t = set(&[('d', 'e'), ('0', '9')]);
    s.add_disjoint_range(&t);
    assert_eq!(vec![('0', '9'), ('a', 'e'), ('x', 'x')], s.ranges_iter());
}

#[test]
fn from_ranges_refuses_reversed_pair() {
    match CharSet::from_ranges(vec![('a', 'b'), ('q', 'p')]) {
        Err(ReggieError::InvalidRanges { bad_ranges }) => {
            assert_eq!(vec![('a', 'b'), ('q', 'p')], bad_ranges)
        }
        other => panic!("unexpected {:?}", other),
    }
}

#[test]
fn complement_of_digits() {
    let s = set(&[('0', '9')]);
    let c = s.complement();
    assert_eq!(vec![('\0', '/'), (':', char::MAX)], c.ranges_iter());
}

#[test]
fn complement_of_empty_is_everything() {
    let c = CharSet::empty().complement();
    assert_eq!(vec![('\0', char::MAX)], c.ranges_iter());
    assert_eq!(Vec::<(char, char)>::new(), c.complement().ranges_iter());
}

#[test]
fn complement_twice_gives_back_the_ranges() {
    let s = set(&[('a', 'a'), ('c', 'c')]);
    let once = s.complement();
    assert_eq!(vec![('\0', '`'), ('b', 'b'), ('d', char::MAX)], once.ranges_iter());
    let twice = once.complement();
    assert_eq!(vec![('a', 'a'), ('c', 'c')], twice.ranges_iter());
}

#[test]
fn complement_keeps_single_character_gap_below_top_range() {
    let s = set(&[('a', 'a'), ('c', char::MAX)]);
    assert_eq!(vec![('\0', '`'), ('b', 'b')], s.complement().ranges_iter());
}

#[test]
fn class_escapes_parse() {
    assert!(matches!(CClass::from_str("\\d"), Ok(CClass::D)));
    assert!(matches!(CClass::from_str("\\W"), Ok(CClass::NegW)));
    match CClass::from_str("\\q") {
        Err(ReggieError::InvalidCharClass { bad_cclass }) => assert_eq!("q", bad_cclass),
        other => panic!("unexpected {:?}", other),
    }
    match CClass::from_str("d") {
        Err(ReggieError::InvalidCharClass { bad_cclass }) => assert_eq!("d", bad_cclass),
        other => panic!("unexpected {:?}", other),
    }
}

#[test]
fn class_sets() {
    assert_eq!(vec![('0', '9')], CharSet::from_cclass(CClass::D).ranges_iter());
    assert_eq!(
        vec![('\t', '\r'), (' ', ' ')],
        CharSet::from_cclass(CClass::S).ranges_iter()
    );
    assert_eq!(
        vec![('0', '9'), ('A', 'Z'), ('a', 'z')],
        CharSet::from_cclass(CClass::W).ranges_iter()
    );
    assert_eq!(
        vec![('\0', '\u{8}'), ('\u{e}', '\u{1f}'), ('!', char::MAX)],
        CharSet::from_cclass(CClass::NegS).ranges_iter()
    );
    assert_eq!("[0-9]", CharSet::from_cclass(CClass::D).as_string());
    assert_eq!(1, CharSet::from_cclass(CClass::D).min_match_len());
}

#[test]
fn surrogate_edges_are_ordinary_bounds() {
    let s = set(&[('a', 'b'), ('\u{e000}', '\u{e001}')]);
    assert_eq!(vec![('a', 'b'), ('\u{e000}', '\u{e001}')], s.ranges_iter());
    let mut t = set(&[('\u{d000}', '\u{d7ff}')]);
    t.add_range('\u{e000}', '\u{e005}').unwrap();
    assert_eq!(vec![('\u{d000}', '\u{e005}')], t.ranges_iter());
    t.add_range('\u{10ffff}', '\u{10ffff}').unwrap();
    let c = t.complement();
    assert_eq!(
        vec![('\0', '\u{cfff}'), ('\u{e006}', '\u{10fffe}')],
        c.ranges_iter()
    );
    assert_eq!(t.ranges_iter(), c.complement().ranges_iter());
    let single = set(&[('\u{e000}', '\u{e000}')]);
    assert_eq!(vec![('\u{e000}', '\u{e000}')], single.ranges_iter());
}
