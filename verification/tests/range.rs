use hex_reader::AddrRange;

#[test]
fn contains_includes_both_ends() {
    let r = AddrRange { start: 10, end: 20 };
    assert!(r.contains(10));
    assert!(r.contains(15));
    assert!(r.contains(20));
    assert!(!r.contains(9));
    assert!(!r.contains(21));
}

#[test]
fn is_before_needs_both_ends_below() {
    let r = AddrRange { start: 10, end: 20 };
    assert!(r.is_before(21));
    assert!(!r.is_before(20));
    assert!(!r.is_before(10));
    assert!(!r.is_before(0));
}

#[test]
fn contains_range_is_subset() {
    let r = AddrRange { start: 10, end: 20 };
    assert!(r.contains_range(AddrRange { start: 10, end: 20 }));
    assert!(r.contains_range(AddrRange { start: 12, end: 18 }));
    assert!(!r.contains_range(AddrRange { start: 9, end: 18 }));
    assert!(!r.contains_range(AddrRange { start: 12, end: 21 }));
}

#[test]
fn overlaps_range_looks_at_the_ends_of_the_other() {
    let r = AddrRange { start: 10, end: 20 };
    assert!(r.overlaps_range(AddrRange { start: 5, end: 10 }));
    assert!(r.overlaps_range(AddrRange { start: 20, end: 30 }));
    assert!(r.overlaps_range(AddrRange { start: 12, end: 14 }));
    assert!(!r.overlaps_range(AddrRange { start: 0, end: 9 }));
    assert!(!r.overlaps_range(AddrRange { start: 21, end: 30 }));
    assert!(!r.overlaps_range(AddrRange { start: 5, end: 30 }));
}

#[test]
fn split_gives_two_abutting_ranges() {
    let r = AddrRange { start: 0x80, end: 0xFF };
    let (before, after) = r.split(0xC0);
    assert_eq!(before, AddrRange { start: 0x80, end: 0xBF });
    assert_eq!(after, AddrRange { start: 0xC0, end: 0xFF });
    assert_eq!(before.size() + after.size(), r.size());
}

#[test]
fn split_next_to_the_ends() {
    let r = AddrRange { start: 10, end: 12 };
    assert_eq!(
        r.split(11),
        (AddrRange { start: 10, end: 10 }, AddrRange { start: 11, end: 12 })
    );
}

#[test]
fn size_counts_both_ends() {
    assert_eq!(AddrRange { start: 7, end: 7 }.size(), 1);
    assert_eq!(AddrRange { start: 0x1_0000, end: 0x1_0003 }.size(), 4);
    assert_eq!(AddrRange { start: 1, end: u32::MAX }.size(), u32::MAX);
}

#[test]
fn transpose_moves_up_and_down() {
    let r = AddrRange { start: 100, end: 109 };
    assert_eq!(r.transpose(200), AddrRange { start: 200, end: 209 });
    assert_eq!(r.transpose(5), AddrRange { start: 5, end: 14 });
    assert_eq!(r.transpose(100), r);
    assert_eq!(r.transpose(u32::MAX - 9), AddrRange { start: u32::MAX - 9, end: u32::MAX });
    assert_eq!(r.transpose(200).size(), r.size());
}

#[test]
fn intersects_finds_every_shared_address() {
    let r = AddrRange { start: 10, end: 20 };
    assert!(r.intersects(AddrRange { start: 5, end: 10 }));
    assert!(r.intersects(AddrRange { start: 20, end: 30 }));
    assert!(r.intersects(AddrRange { start: 12, end: 14 }));
    assert!(r.intersects(AddrRange { start: 5, end: 30 }));
    assert!(r.intersects(r));
    assert!(!r.intersects(AddrRange { start: 0, end: 9 }));
    assert!(!r.intersects(AddrRange { start: 21, end: 30 }));
    assert!(AddrRange { start: 5, end: 30 }.intersects(r));
}
