use reaction_toplist::topk::{Ranked, TopKSet};

fn entry(score: u64, id: u64) -> Ranked<u64> {
    Ranked { score, id, item: id * 10 }
}

fn ids_best_first(set: &TopKSet<u64>) -> Vec<u64> {
    set.best_first().iter().map(|e| e.id).collect()
}

#[test]
fn ties_resolved_by_lower_id_when_one_slot_remains() {
    let mut set = TopKSet::new(2);
    assert!(set.offer(entry(5, 1)));
    assert!(set.offer(entry(3, 2)));
    assert!(!set.offer(entry(3, 3)));
    assert_eq!(ids_best_first(&set), vec![1, 2]);
    let scores: Vec<u64> = set.best_first().iter().map(|e| e.score).collect();
    assert_eq!(scores, vec![5, 3]);
}

#[test]
fn zero_score_is_never_taken() {
    let mut set = TopKSet::new(3);
    assert!(!set.offer(entry(0, 1)));
    assert_eq!(set.len(), 0);
    assert!(set.offer(entry(1, 2)));
    assert!(!set.offer(entry(0, 3)));
    assert_eq!(ids_best_first(&set), vec![2]);
}

#[test]
fn full_set_evicts_its_lowest_entry() {
    let mut set = TopKSet::new(2);
    assert!(set.offer(entry(4, 1)));
    assert!(set.offer(entry(4, 2)));
    assert_eq!(set.admission_floor(), 4);
    assert!(!set.offer(entry(4, 3)));
    assert!(set.offer(entry(9, 4)));
    // The two entries of score 4 differ by id; the lower one leaves.
    assert_eq!(ids_best_first(&set), vec![4, 2]);
    assert_eq!(set.admission_floor(), 4);
    assert!(set.offer(entry(6, 5)));
    assert_eq!(ids_best_first(&set), vec![4, 5]);
    assert_eq!(set.admission_floor(), 6);
    assert_eq!(set.get(0).item, 50);
}

#[test]
fn floor_is_zero_until_full_then_never_drops() {
    let mut set = TopKSet::new(3);
    let mut floors = Vec::new();
    for (score, id) in [(2, 1), (7, 2), (1, 3), (5, 4), (3, 5), (8, 6), (2, 7)] {
        set.offer(entry(score, id));
        floors.push(set.admission_floor());
    }
    assert_eq!(floors, vec![0, 0, 1, 2, 3, 5, 5]);
    for w in floors.windows(2) {
        assert!(w[0] <= w[1]);
    }
    assert_eq!(ids_best_first(&set), vec![6, 2, 4]);
}

#[test]
fn keeps_the_highest_scores_of_a_stream() {
    let scores = [3u64, 9, 1, 4, 4, 7, 2, 8, 6, 5];
    let mut set = TopKSet::new(4);
    for (i, s) in scores.iter().enumerate() {
        set.offer(entry(*s, i as u64 + 1));
    }
    let kept: Vec<u64> = set.best_first().iter().map(|e| e.score).collect();
    assert_eq!(kept, vec![9, 8, 7, 6]);
    assert_eq!(set.len(), 4);
    assert_eq!(set.capacity(), 4);
}

#[test]
fn fewer_candidates_than_capacity_are_all_kept() {
    let mut set = TopKSet::new(5);
    set.offer(entry(2, 1));
    set.offer(entry(0, 2));
    set.offer(entry(6, 3));
    assert_eq!(ids_best_first(&set), vec![3, 1]);
}

#[test]
fn same_id_is_not_taken_twice() {
    let mut set = TopKSet::new(3);
    assert!(set.offer(entry(2, 1)));
    assert!(!set.offer(entry(5, 1)));
    assert!(set.contains_id(1));
    assert!(!set.contains_id(2));
    assert_eq!(set.len(), 1);
}

#[test]
fn best_first_is_repeatable() {
    let mut set = TopKSet::new(3);
    set.offer(entry(2, 1));
    set.offer(entry(5, 2));
    let a = ids_best_first(&set);
    let b = ids_best_first(&set);
    assert_eq!(a, b);
    assert_eq!(a, vec![2, 1]);
}
