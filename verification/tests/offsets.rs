//! Offsets, two-state pairs, and the offset-tag algebra.

use kino::base::{Offset, Offset2, Smt2Offset, State};

#[test]
fn offset_of_int_and_to_usize() {
    let o = Offset::of_int(42);
    assert_eq!(o.to_usize(), 42);
    assert_eq!(Offset::of_int(0).to_usize(), 0);
    assert_eq!(Offset::of_int(65535).to_usize(), 65535);
}

#[test]
fn offset_of_bytes_reads_decimal() {
    assert_eq!(Offset::of_bytes(b"0").to_usize(), 0);
    assert_eq!(Offset::of_bytes(b"7").to_usize(), 7);
    assert_eq!(Offset::of_bytes(b"123").to_usize(), 123);
    assert_eq!(Offset::of_bytes(b"65535").to_usize(), 65535);
}

#[test]
fn offset_to_smt2_prints_decimal() {
    assert_eq!(Offset::of_int(0).to_smt2(), b"0".to_vec());
    assert_eq!(Offset::of_int(507).to_smt2(), b"507".to_vec());
    assert_eq!(Offset::of_int(65535).to_smt2(), b"65535".to_vec());
}

#[test]
fn offset_print_parse_round_trip() {
    for n in [0usize, 1, 9, 10, 99, 100, 12345, 65535] {
        let printed = Offset::of_int(n).to_smt2();
        assert_eq!(Offset::of_bytes(&printed).to_usize(), n);
    }
}

#[test]
fn offset_nxt_increments() {
    let o = Offset::of_int(3);
    assert_eq!(o.nxt().to_usize(), 4);
}

#[test]
fn offset2_init_nxt_and_index() {
    // stepping the initial pair k times lands on (k, k + 1)
    let mut o2 = Offset2::init();
    for k in 0usize..8 {
        assert_eq!(o2.curr().to_usize(), k);
        assert_eq!(o2.next().to_usize(), k + 1);
        assert_eq!(o2.index(&State::Curr).to_usize(), k);
        assert_eq!(o2.index(&State::Next).to_usize(), k + 1);
        o2 = o2.nxt();
    }
}

#[test]
fn smt2_offset_of_opt() {
    assert_eq!(Smt2Offset::of_opt(None), Smt2Offset::No);
    let o = Offset::of_int(2);
    assert_eq!(Smt2Offset::of_opt(Some(o)), Smt2Offset::One(o));
}

#[test]
fn smt2_offset_is_next_of() {
    let o0 = Offset::of_int(0);
    let o1 = Offset::of_int(1);
    assert!(Smt2Offset::One(o1).is_next_of(&Smt2Offset::Two(o0, o1)));
    assert!(!Smt2Offset::One(o0).is_next_of(&Smt2Offset::Two(o0, o1)));
    assert!(!Smt2Offset::No.is_next_of(&Smt2Offset::Two(o0, o1)));
    assert!(!Smt2Offset::One(o1).is_next_of(&Smt2Offset::One(o1)));
}

#[test]
fn smt2_offset_merge_identity() {
    // merging with No changes nothing
    let o0 = Offset::of_int(0);
    let o1 = Offset::of_int(1);
    for x in [
        Smt2Offset::No,
        Smt2Offset::One(o0),
        Smt2Offset::Two(o0, o1),
    ] {
        assert_eq!(Smt2Offset::No.merge(&x), Some(x));
        assert_eq!(x.merge(&Smt2Offset::No), Some(x));
    }
}

#[test]
fn smt2_offset_merge_ones_order() {
    let o0 = Offset::of_int(0);
    let o1 = Offset::of_int(1);
    assert_eq!(
        Smt2Offset::One(o0).merge(&Smt2Offset::One(o1)),
        Some(Smt2Offset::Two(o0, o1))
    );
    assert_eq!(
        Smt2Offset::One(o1).merge(&Smt2Offset::One(o0)),
        Some(Smt2Offset::Two(o0, o1))
    );
    assert_eq!(
        Smt2Offset::One(o1).merge(&Smt2Offset::One(o1)),
        Some(Smt2Offset::One(o1))
    );
}

#[test]
fn smt2_offset_merge_two_absorbs_matching_one() {
    let o0 = Offset::of_int(0);
    let o1 = Offset::of_int(1);
    let o2 = Offset::of_int(2);
    let two = Smt2Offset::Two(o0, o1);
    assert_eq!(two.merge(&Smt2Offset::One(o0)), Some(two));
    assert_eq!(two.merge(&Smt2Offset::One(o1)), Some(two));
    assert_eq!(two.merge(&Smt2Offset::One(o2)), None);
    assert_eq!(Smt2Offset::One(o2).merge(&two), None);
}

#[test]
fn smt2_offset_merge_two_two_conflict() {
    let o0 = Offset::of_int(0);
    let o1 = Offset::of_int(1);
    let o2 = Offset::of_int(2);
    let a = Smt2Offset::Two(o0, o1);
    let b = Smt2Offset::Two(o1, o2);
    assert_eq!(a.merge(&b), None);
    assert_eq!(a.merge(&a), Some(a));
}

#[test]
fn smt2_offset_merge_commutative_samples() {
    let o0 = Offset::of_int(0);
    let o1 = Offset::of_int(1);
    let o2 = Offset::of_int(2);
    let tags = [
        Smt2Offset::No,
        Smt2Offset::One(o0),
        Smt2Offset::One(o1),
        Smt2Offset::One(o2),
        Smt2Offset::Two(o0, o1),
        Smt2Offset::Two(o1, o2),
    ];
    for a in tags {
        for b in tags {
            assert_eq!(a.merge(&b), b.merge(&a));
        }
    }
}

#[test]
fn smt2_offset_merge_associative_when_defined() {
    let o0 = Offset::of_int(0);
    let o1 = Offset::of_int(1);
    let o2 = Offset::of_int(2);
    let tags = [
        Smt2Offset::No,
        Smt2Offset::One(o0),
        Smt2Offset::One(o1),
        Smt2Offset::One(o2),
        Smt2Offset::Two(o0, o1),
        Smt2Offset::Two(o1, o2),
        Smt2Offset::Two(o0, o2),
    ];
    for a in tags {
        for b in tags {
            for c in tags {
                if let (Some(ab), Some(bc)) = (a.merge(&b), b.merge(&c)) {
                    if let (Some(ab_c), Some(a_bc)) = (ab.merge(&c), a.merge(&bc)) {
                        assert_eq!(ab_c, a_bc);
                    }
                }
            }
        }
    }
}
