use conc_blocks::hazard::{HazardBag, Shield};
use conc_blocks::retire::{RetiredSet, THRESHOLD};
use std::collections::HashSet;

const VALUES: std::ops::Range<usize> = 1..1024;

#[test]
fn all_hazards_protected() {
    let mut bag = HazardBag::new();
    let mut shields = Vec::new();
    for data in VALUES {
        let shield = Shield::new(&mut bag);
        let mut pointer = data;
        assert!(shield.try_protect(&mut bag, &mut pointer, data));
        shields.push(shield);
    }
    let all = bag.all_hazards();
    let values: HashSet<usize> = VALUES.collect();
    assert!(all.is_superset(&values))
}

#[test]
fn all_hazards_unprotected() {
    let mut bag = HazardBag::new();
    for data in VALUES {
        let shield = Shield::new(&mut bag);
        let mut pointer = data;
        assert!(shield.try_protect(&mut bag, &mut pointer, data));
        shield.release(&mut bag);
    }
    let all = bag.all_hazards();
    let values: HashSet<usize> = VALUES.collect();
    let intersection: HashSet<_> = all.intersection(&values).collect();
    assert!(intersection.is_empty())
}

#[test]
fn recycle_slots() {
    let mut bag = HazardBag::new();
    let shields = (0..1024).map(|_| Shield::new(&mut bag)).collect::<Vec<_>>();
    let old_slots = shields.iter().map(|s| s.slot_index()).collect::<HashSet<_>>();
    for shield in shields {
        shield.release(&mut bag);
    }
    let shields = (0..128).map(|_| Shield::new(&mut bag)).collect::<Vec<_>>();
    let new_slots = shields.iter().map(|s| s.slot_index()).collect::<HashSet<_>>();
    assert!(new_slots.is_subset(&old_slots));
}

#[test]
fn retire_threshold_collect() {
    let bag = HazardBag::new();
    let mut retires: RetiredSet<usize> = RetiredSet::new();
    let mut freed = HashSet::new();
    for i in 0..THRESHOLD {
        for (_, id) in retires.retire(0x1000 + 8 * i, i, &bag) {
            freed.insert(id);
        }
    }
    assert_eq!(freed, (0..THRESHOLD).collect());
    assert!(retires.is_empty());
}

#[test]
fn retire_below_threshold_frees_nothing() {
    let bag = HazardBag::new();
    let mut retires: RetiredSet<usize> = RetiredSet::new();
    for i in 0..THRESHOLD - 1 {
        assert!(retires.retire(0x1000 + 8 * i, i, &bag).is_empty());
    }
    assert_eq!(retires.len(), THRESHOLD - 1);
}

#[test]
fn protected_not_freed() {
    let mut bag = HazardBag::new();
    let p: usize = 0xdead0;
    let shield = Shield::new(&mut bag);
    let mut pointer = p;
    assert!(shield.try_protect(&mut bag, &mut pointer, p));
    let mut retires: RetiredSet<&str> = RetiredSet::new();
    assert!(retires.retire(p, "p", &bag).is_empty());
    assert!(retires.retire(0xbeef0, "q", &bag).is_empty());
    let freed = retires.collect(&bag);
    assert_eq!(freed, vec![(0xbeef0, "q")]);
    assert_eq!(retires.len(), 1);
    shield.release(&mut bag);
    let freed = retires.collect(&bag);
    assert_eq!(freed, vec![(p, "p")]);
    assert!(retires.is_empty());
}

#[test]
fn try_protect_fails_on_changed_source() {
    let mut bag = HazardBag::new();
    let shield = Shield::new(&mut bag);
    let mut pointer: usize = 0x10;
    assert!(!shield.try_protect(&mut bag, &mut pointer, 0x20));
    assert_eq!(pointer, 0x20);
    assert!(!bag.all_hazards().contains(&0x10));
    assert!(shield.try_protect(&mut bag, &mut pointer, 0x20));
    assert!(bag.all_hazards().contains(&0x20));
}

#[test]
fn acquire_appends_when_all_slots_owned() {
    let mut bag = HazardBag::new();
    let a = Shield::new(&mut bag);
    let b = Shield::new(&mut bag);
    assert_eq!(a.slot_index(), 0);
    assert_eq!(b.slot_index(), 1);
    a.release(&mut bag);
    let c = Shield::new(&mut bag);
    assert_eq!(c.slot_index(), 0);
    let d = Shield::new(&mut bag);
    assert_eq!(d.slot_index(), 2);
}
