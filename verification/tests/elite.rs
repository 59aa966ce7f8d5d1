use phystech_radar::bits::contains_all;
use phystech_radar::elite::EliteSet;

fn members(elite: &EliteSet) -> Vec<(u64, u64)> {
    (0..elite.len()).map(|i| elite.get(i)).collect()
}

#[test]
fn new_elite_is_empty() {
    let elite = EliteSet::new(8);
    assert_eq!(elite.len(), 0);
    assert_eq!(elite.capacity(), 8);
    assert_eq!(elite.best(), None);
}

#[test]
fn first_submission_enters() {
    let mut elite = EliteSet::new(8);
    elite.submit(0b101, 7);
    assert_eq!(members(&elite), vec![(0b101, 7)]);
    assert_eq!(elite.best(), Some((0b101, 7)));
}

#[test]
fn duplicate_is_ignored() {
    let mut elite = EliteSet::new(8);
    elite.submit(0b101, 7);
    elite.submit(0b101, 7);
    assert_eq!(members(&elite), vec![(0b101, 7)]);
}

#[test]
fn dominated_candidate_is_ignored() {
    let mut elite = EliteSet::new(8);
    elite.submit(0b111, 9);
    elite.submit(0b101, 7);
    elite.submit(0, 0);
    assert_eq!(members(&elite), vec![(0b111, 9)]);
}

#[test]
fn candidate_removes_the_members_it_contains() {
    let mut elite = EliteSet::new(8);
    elite.submit(0b001, 1);
    elite.submit(0b010, 2);
    elite.submit(0b1000, 3);
    assert_eq!(members(&elite), vec![(0b1000, 3), (0b010, 2), (0b001, 1)]);
    elite.submit(0b011, 3);
    assert_eq!(members(&elite), vec![(0b1000, 3), (0b011, 3)]);
}

#[test]
fn members_stand_heaviest_first() {
    let mut elite = EliteSet::new(8);
    elite.submit(0b0001, 5);
    elite.submit(0b0010, 9);
    elite.submit(0b0100, 1);
    elite.submit(0b1000, 7);
    assert_eq!(members(&elite), vec![(0b0010, 9), (0b1000, 7), (0b0001, 5), (0b0100, 1)]);
}

#[test]
fn equal_weights_keep_their_order_of_arrival() {
    let mut elite = EliteSet::new(8);
    elite.submit(0b0001, 5);
    elite.submit(0b0010, 5);
    elite.submit(0b0100, 5);
    assert_eq!(members(&elite), vec![(0b0001, 5), (0b0010, 5), (0b0100, 5)]);
}

#[test]
fn lightest_member_leaves_when_full() {
    let mut elite = EliteSet::new(2);
    elite.submit(0b0001, 5);
    elite.submit(0b0010, 9);
    elite.submit(0b0100, 7);
    assert_eq!(members(&elite), vec![(0b0010, 9), (0b0100, 7)]);
    elite.submit(0b1000, 1);
    assert_eq!(members(&elite), vec![(0b0010, 9), (0b0100, 7)]);
}

#[test]
fn elite_without_room_stays_empty() {
    let mut elite = EliteSet::new(0);
    elite.submit(0b1, 5);
    assert_eq!(elite.len(), 0);
    assert_eq!(elite.top(2), vec![(0, 0), (0, 0)]);
}

#[test]
fn submitting_twice_changes_nothing_more() {
    let candidates: [(u64, u64); 7] =
        [(0b0011, 3), (0b0100, 4), (0b1000, 8), (0b0111, 7), (0b0001, 1), (0b1100, 12), (0b10000, 1)];
    for capacity in 0..5 {
        let mut elite = EliteSet::new(capacity);
        for &(mask, weight) in candidates.iter() {
            elite.submit(mask, weight);
            let once = members(&elite);
            elite.submit(mask, weight);
            assert_eq!(members(&elite), once);
        }
    }
}

#[test]
fn no_member_contains_another() {
    let mut elite = EliteSet::new(4);
    let mut seed: u64 = 12345;
    for _ in 0..500 {
        seed = seed.wrapping_mul(6364136223846793005).wrapping_add(1442695040888963407);
        let mask = (seed >> 33) & 0xff;
        let weight = mask.count_ones() as u64;
        elite.submit(mask, weight);
        let now = members(&elite);
        assert!(now.len() <= 4);
        for i in 0..now.len() {
            for j in 0..now.len() {
                if i != j {
                    assert!(!contains_all(now[i].0, now[j].0));
                }
                if i < j {
                    assert!(now[i].1 >= now[j].1);
                }
            }
        }
    }
}

#[test]
fn best_weight_never_falls() {
    let mut elite = EliteSet::new(3);
    let mut seed: u64 = 99;
    let mut best = 0;
    for _ in 0..500 {
        seed = seed.wrapping_mul(6364136223846793005).wrapping_add(1442695040888963407);
        let mask = (seed >> 33) & 0x3ff;
        let weight = (0..10).filter(|i| mask >> i & 1 == 1).map(|i| i as u64 + 1).sum();
        elite.submit(mask, weight);
        let now = elite.best().map(|m| m.1).unwrap_or(0);
        assert!(now >= best);
        best = now;
    }
    assert!(best > 0);
}

#[test]
fn top_fills_up_with_empty_subsets() {
    let mut elite = EliteSet::new(8);
    elite.submit(0b01, 5);
    elite.submit(0b10, 9);
    assert_eq!(elite.top(5), vec![(0b10, 9), (0b01, 5), (0, 0), (0, 0), (0, 0)]);
    assert_eq!(elite.top(1), vec![(0b10, 9)]);
    assert_eq!(elite.top(0), Vec::new());
}
