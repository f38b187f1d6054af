use faputa::ranges::{coalesce_ranges, invert_ranges, next_scalar, prev_scalar, ranges_overlap_any, CharRange};

#[test]
fn coalesce_merges_overlapping_and_adjacent() {
    let r = coalesce_ranges(vec![CharRange::new('n', 'z'), CharRange::new('a', 'm'), CharRange::single('0')]);
    assert_eq!(r, vec![CharRange::single('0'), CharRange::new('a', 'z')]);
}

#[test]
fn coalesce_twice_changes_nothing() {
    let once = coalesce_ranges(vec![CharRange::new('d', 'f'), CharRange::new('a', 'e'), CharRange::new('x', 'y')]);
    let twice = coalesce_ranges(once.clone());
    assert_eq!(once, twice);
}

#[test]
fn coalesce_keeps_the_surrogate_gap() {
    let r = coalesce_ranges(vec![CharRange::new('\u{E000}', '\u{E001}'), CharRange::new('a', '\u{D7FF}')]);
    assert_eq!(r.len(), 2);
}

#[test]
fn invert_gives_the_complement() {
    let r = invert_ranges(&[CharRange::single('"'), CharRange::single('\\')]);
    assert_eq!(
        r,
        vec![
            CharRange::new('\u{0}', '!'),
            CharRange::new('#', '['),
            CharRange::new(']', '\u{10FFFF}')
        ]
    );
    assert_eq!(invert_ranges(&[]), vec![CharRange::new('\u{0}', '\u{10FFFF}')]);
    assert!(!ranges_overlap_any(&r, &[CharRange::single('"'), CharRange::single('\\')]));
}

#[test]
fn invert_twice_covers_the_same_characters() {
    let ranges = [CharRange::new('a', 'z')];
    let back = invert_ranges(&invert_ranges(&ranges));
    assert_eq!(back, ranges.to_vec());
}

#[test]
fn scalars_skip_surrogates() {
    assert_eq!(next_scalar('\u{D7FF}'), Some('\u{E000}'));
    assert_eq!(prev_scalar('\u{E000}'), Some('\u{D7FF}'));
    assert_eq!(next_scalar('\u{10FFFF}'), None);
    assert_eq!(prev_scalar('\u{0}'), None);
    assert_eq!(next_scalar('a'), Some('b'));
}

#[test]
fn invert_handles_touching_ranges() {
    let r = invert_ranges(&[CharRange::new('a', 'c'), CharRange::new('d', 'f')]);
    assert_eq!(r, vec![CharRange::new('\u{0}', '`'), CharRange::new('g', '\u{10FFFF}')]);
    assert!(invert_ranges(&[CharRange::new('\u{0}', char::MAX)]).is_empty());
}
