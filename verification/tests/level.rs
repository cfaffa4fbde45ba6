use midi_bounce::level::{generate_bounces, PlanError, Search};
use std::collections::HashSet;
use std::cell::Cell;

/// A bounce that records how it was placed: note index, orientation, and
/// how many bounces stood before it.
#[derive(Debug, Clone, Copy, PartialEq)]
struct Placed {
    note: usize,
    vertical: bool,
    before: usize,
}

fn place_all(_: &u32, i: usize, v: bool, prev: &Vec<Placed>) -> Option<(u32, Placed)> {
    Some((i as u32, Placed { note: i, vertical: v, before: prev.len() }))
}

#[test]
fn generate_bounces_places_every_note_in_order() {
    let bounces = generate_bounces(6, 0u32, |_b: Placed, _v: bool| 0u32, place_all).unwrap();
    assert_eq!(bounces.len(), 6);
    for (i, b) in bounces.iter().enumerate() {
        assert_eq!(b.note, i);
        assert_eq!(b.before, i);
    }
}

#[test]
fn generate_bounces_with_no_notes_is_empty() {
    let bounces = generate_bounces(0, 0u32, |_b: Placed, _v: bool| 0u32, place_all).unwrap();
    assert!(bounces.is_empty());
}

#[test]
fn generate_bounces_fails_when_nothing_fits() {
    let r = generate_bounces(3, 0u32, |_b: Placed, _v: bool| 0u32, |_s: &u32, _i: usize, _v: bool, _p: &Vec<Placed>| {
        None::<(u32, Placed)>
    });
    assert_eq!(r, Err(PlanError::Exhausted));
}

#[test]
fn generate_bounces_result_only_holds_accepted_placements() {
    // Note 2 only accepts a vertical wall; whatever the random flips do, a
    // finished level holds only placements `place` accepted.
    for _ in 0..200 {
        let r = generate_bounces(5, 0u32, |_b: Placed, _v: bool| 0u32, |_s: &u32, i: usize, v: bool, prev: &Vec<Placed>| {
            if i == 2 && !v {
                None
            } else {
                Some((0u32, Placed { note: i, vertical: v, before: prev.len() }))
            }
        });
        match r {
            Ok(bounces) => {
                assert_eq!(bounces.len(), 5);
                assert!(bounces[2].vertical);
                for (i, b) in bounces.iter().enumerate() {
                    assert_eq!((b.note, b.before), (i, i));
                }
            }
            Err(e) => assert_eq!(e, PlanError::Exhausted),
        }
    }
}

#[test]
fn generate_bounces_backtracks_and_flips_orientation() {
    // Note 1 fails exactly once; the search takes note 0 down, restores the
    // square from it with the opposite orientation, and places it again.
    let failures = Cell::new(0);
    let restores = Cell::new(0);
    let r = generate_bounces(
        2,
        7u32,
        |b: Placed, v: bool| {
            restores.set(restores.get() + 1);
            assert_eq!(b.note, 0);
            assert_eq!(v, !b.vertical);
            100u32
        },
        |s: &u32, i: usize, v: bool, prev: &Vec<Placed>| {
            if i == 1 && failures.get() == 0 {
                failures.set(1);
                return None;
            }
            if i == 0 && restores.get() == 1 {
                assert_eq!(*s, 100);
            }
            Some((*s, Placed { note: i, vertical: v, before: prev.len() }))
        },
    );
    let bounces = r.unwrap();
    assert_eq!(restores.get(), 1);
    assert_eq!(bounces.len(), 2);
    assert_eq!(bounces[0].note, 0);
    assert_eq!(bounces[1].note, 1);
}

#[test]
fn generate_bounces_gives_up_after_both_orientations_of_the_first_note() {
    // Note 1 never fits: note 0 is tried in both orientations, then the search ends.
    let placed_first = Cell::new(0);
    let r = generate_bounces(2, 0u32, |_b: Placed, _v: bool| 0u32, |_s: &u32, i: usize, v: bool, prev: &Vec<Placed>| {
        if i == 1 {
            None
        } else {
            placed_first.set(placed_first.get() + 1);
            Some((0u32, Placed { note: i, vertical: v, before: prev.len() }))
        }
    });
    assert_eq!(r, Err(PlanError::Exhausted));
    assert_eq!(placed_first.get(), 2);
}

#[test]
fn generate_bounces_flips_three_times_in_ten() {
    let n = 20000;
    let bounces = generate_bounces(n, 0u32, |_b: Placed, _v: bool| 0u32, place_all).unwrap();
    let mut changes = 0;
    let mut previous = false;
    for b in &bounces {
        if b.vertical != previous {
            changes += 1;
        }
        previous = b.vertical;
    }
    let share = changes as f64 / n as f64;
    assert!(share > 0.27 && share < 0.33, "share of flips {}", share);
}

#[test]
fn search_take_down_flips_the_top_unflipped_bounce() {
    let mut search: Search<u32, u32> = Search {
        bounces: vec![10, 11, 12, 13],
        verticals: vec![false, true, false, true],
        flipped: [2usize, 3, 7].into_iter().collect::<HashSet<usize>>(),
        vertical: false,
        backtrack: true,
        square: 0,
    };
    let r = search.take_down(&|b: u32, v: bool| b * 10 + v as u32);
    assert_eq!(r, Ok(()));
    assert_eq!(search.bounces, vec![10]);
    assert_eq!(search.verticals, vec![false]);
    assert!(!search.vertical);
    assert_eq!(search.square, 110);
    assert!(!search.backtrack);
    assert_eq!(search.flipped, [1usize, 7].into_iter().collect::<HashSet<usize>>());
    assert!(!search.orientation_open());
}

#[test]
fn search_take_down_fails_when_all_are_flipped() {
    let mut search: Search<u32, u32> = Search {
        bounces: vec![10, 11],
        verticals: vec![true, false],
        flipped: [0usize, 1].into_iter().collect::<HashSet<usize>>(),
        vertical: false,
        backtrack: true,
        square: 5,
    };
    assert_eq!(search.take_down(&|b: u32, _v: bool| b), Err(PlanError::Exhausted));
    assert!(search.bounces.is_empty());
    assert!(search.flipped.is_empty());
}

#[test]
fn search_orient_and_record() {
    let mut search: Search<u32, u32> = Search::new(7);
    assert!(search.orientation_open());
    search.orient(false);
    assert!(!search.vertical);
    search.orient(true);
    assert!(search.vertical);
    search.record(Some((9, 100)));
    assert_eq!((search.square, search.bounces.clone(), search.verticals.clone()), (9, vec![100], vec![true]));
    assert!(!search.backtrack);
    search.record(None);
    assert!(search.backtrack);
    assert_eq!((search.square, search.bounces.len()), (9, 1));
}

#[test]
fn generate_bounces_tries_every_unflipped_bounce_before_giving_up() {
    // Note 2 never fits. The search flips note 1, then note 0 (taking the
    // stale mark of note 1 down with it), places note 1 afresh and flips it
    // again, and only gives up once both standing bounces are flipped:
    // ten questions to `place` in all.
    let asked = Cell::new(0);
    let r = generate_bounces(3, 0u32, |_b: Placed, _v: bool| 0u32, |_s: &u32, i: usize, v: bool, prev: &Vec<Placed>| {
        asked.set(asked.get() + 1);
        if i == 2 {
            None
        } else {
            Some((0u32, Placed { note: i, vertical: v, before: prev.len() }))
        }
    });
    assert_eq!(r, Err(PlanError::Exhausted));
    assert_eq!(asked.get(), 10);
}

#[test]
fn generate_bounces_finds_a_level_behind_a_flipped_first_note() {
    // Note 2 fits only at its fourth try, after note 0 has been flipped:
    // the third try is refused while note 1 stands unflipped above the
    // flipped note 0, so a search that gave up as soon as note 0 was flipped
    // would miss this level.
    let first_flipped = Cell::new(false);
    let seen_note_2 = Cell::new(0);
    let r = generate_bounces(
        3,
        0u32,
        |b: Placed, _v: bool| {
            if b.note == 0 {
                first_flipped.set(true);
            }
            0u32
        },
        |_s: &u32, i: usize, v: bool, prev: &Vec<Placed>| {
            if i == 2 {
                seen_note_2.set(seen_note_2.get() + 1);
                if !first_flipped.get() || seen_note_2.get() < 4 {
                    return None;
                }
            }
            Some((0u32, Placed { note: i, vertical: v, before: prev.len() }))
        },
    );
    let bounces = r.unwrap();
    assert_eq!(bounces.len(), 3);
    assert!(first_flipped.get());
    assert_eq!(seen_note_2.get(), 4);
}
