use split_ordered::retire::{untagged, Retirees, THRESHOLD};
use std::collections::HashSet;

#[test]
fn threshold_is_sixty_four() {
    assert_eq!(THRESHOLD, 64);
}

#[test]
fn new_retirees_are_empty() {
    let mut retirees: Retirees<char> = Retirees::new();
    assert!(retirees.is_empty());
    assert_eq!(retirees.len(), 0);
    assert_eq!(retirees.collect(&HashSet::new()), vec![]);
}

#[test]
fn retire_asks_for_a_collect_beyond_the_threshold() {
    let mut retirees: Retirees<()> = Retirees::new();
    for address in 0..THRESHOLD {
        assert!(!retirees.retire(address * 8, ()));
    }
    assert_eq!(retirees.len(), 64);
    assert!(retirees.retire(1000, ()));
    assert_eq!(retirees.len(), 65);
    assert!(retirees.retire(1008, ()));
}

#[test]
fn collect_hands_out_what_no_hazard_protects() {
    let mut retirees = Retirees::new();
    for (address, dropper) in [(8usize, 'a'), (16, 'b'), (24, 'c'), (32, 'd'), (40, 'e')] {
        retirees.retire(address, dropper);
    }
    let hazards: HashSet<usize> = [16usize, 40, 99].into_iter().collect();
    let freed = retirees.collect(&hazards);
    assert_eq!(freed, vec![(32, 'd'), (24, 'c'), (8, 'a')]);
    assert_eq!(retirees.len(), 2);
    let none: HashSet<usize> = HashSet::new();
    let rest = retirees.collect(&none);
    // what was kept is kept newest first, and is taken from the end again
    assert_eq!(rest, vec![(16, 'b'), (40, 'e')]);
    assert!(retirees.is_empty());
}

#[test]
fn collect_keeps_everything_that_is_protected() {
    let mut retirees = Retirees::new();
    retirees.retire(8, 1);
    retirees.retire(16, 2);
    let hazards: HashSet<usize> = [8usize, 16].into_iter().collect();
    assert_eq!(retirees.collect(&hazards), vec![]);
    assert_eq!(retirees.len(), 2);
    assert_eq!(retirees.collect(&hazards), vec![]);
    assert_eq!(retirees.len(), 2);
}

#[test]
fn untagged_clears_the_bits_below_the_alignment() {
    assert_eq!(untagged(0x1000, 8), 0x1000);
    assert_eq!(untagged(0x1003, 8), 0x1000);
    assert_eq!(untagged(0x1007, 8), 0x1000);
    assert_eq!(untagged(0x1008, 8), 0x1008);
    assert_eq!(untagged(0x1003, 4), 0x1000);
    assert_eq!(untagged(0x1003, 2), 0x1002);
    assert_eq!(untagged(0x1003, 1), 0x1003);
    assert_eq!(untagged(usize::MAX, 16), usize::MAX - 15);
    assert_eq!(untagged(5, 8), 0);
}
