use statewalk::store::PathStack;
use statewalk::walk::TravelPath;

fn walk(states: Vec<u8>, length: u32) -> TravelPath {
    TravelPath { states, length }
}

#[test]
fn empty_store_pops_none() {
    let mut s = PathStack::new();
    assert!(s.pop().is_none());
    assert_eq!(s.len(), 0);
}

#[test]
fn push_pop_without_spill() {
    let mut s = PathStack::new();
    s.push(walk(vec![1], 0));
    s.push(walk(vec![1, 2], 5));
    assert_eq!(s.len(), 2);
    let p = s.pop().unwrap();
    assert_eq!(p.states, vec![1, 2]);
    assert_eq!(p.length, 5);
    let p = s.pop().unwrap();
    assert_eq!(p.states, vec![1]);
    assert_eq!(p.length, 0);
    assert!(s.pop().is_none());
}

#[test]
fn lifo_round_trip_through_spill() {
    // Small thresholds so a handful of pushes exercises spilling and
    // refilling: spill above 8 in memory down to 4, refill below 2 up to 3.
    let mut s = PathStack::with_thresholds(8, 4, 2, 3);
    for i in 0..50u32 {
        s.push(walk(vec![i as u8, (i + 1) as u8, i as u8], 1000 + i));
    }
    assert_eq!(s.len(), 50);
    // The cold tail must have reached the spill stack.
    assert!(s.spilled_count() > 0);
    // Pop order is exactly reverse push order, contents bit-identical.
    for i in (0..50u32).rev() {
        let p = s.pop().unwrap();
        assert_eq!(p.states, vec![i as u8, (i + 1) as u8, i as u8]);
        assert_eq!(p.length, 1000 + i);
    }
    assert!(s.pop().is_none());
    assert_eq!(s.spilled_count(), 0);
}

#[test]
fn variable_length_records_survive_the_spill() {
    // Walks of wildly different state counts force the backward reader to
    // find each record boundary from its trailing count field.
    let mut s = PathStack::with_thresholds(4, 2, 2, 3);
    let mut pushed: Vec<(Vec<u8>, u32)> = Vec::new();
    for i in 0..30u32 {
        let n = 1 + ((i * 13) % 17) as usize;
        let states: Vec<u8> = (0..n).map(|k| ((i as usize + k * 3) % 251) as u8).collect();
        s.push(TravelPath { states: states.clone(), length: i * i });
        pushed.push((states, i * i));
    }
    assert!(s.spilled_count() > 0);
    while let Some((states, length)) = pushed.pop() {
        let p = s.pop().unwrap();
        assert_eq!(p.states, states);
        assert_eq!(p.length, length);
    }
    assert!(s.pop().is_none());
}

#[test]
fn interleaved_pushes_and_pops_stay_lifo() {
    let mut s = PathStack::with_thresholds(6, 3, 2, 3);
    let mut model: Vec<u32> = Vec::new();
    let mut next: u32 = 0;
    // An irregular push/pop mixture crossing the watermarks repeatedly.
    for round in 0..40 {
        let pushes = 1 + (round * 7) % 5;
        for _ in 0..pushes {
            s.push(walk(vec![(next % 200) as u8, 7], next));
            model.push(next);
            next += 1;
        }
        let pops = (round * 3) % 4;
        for _ in 0..pops {
            match s.pop() {
                Some(p) => {
                    let want = model.pop().unwrap();
                    assert_eq!(p.length, want);
                    assert_eq!(p.states, vec![(want % 200) as u8, 7]);
                }
                None => assert!(model.is_empty()),
            }
        }
    }
    while let Some(p) = s.pop() {
        let want = model.pop().unwrap();
        assert_eq!(p.length, want);
    }
    assert!(model.is_empty());
}

#[test]
fn watermark_bounds_memory_after_push() {
    let mut s = PathStack::with_thresholds(8, 4, 2, 3);
    let mut episodes = 0;
    for i in 0..100u32 {
        let spilled_before = s.spilled_count();
        s.push(walk(vec![1, 2], i));
        // The memory buffer never exceeds the high watermark after a push...
        assert!(s.cache.len() <= 8);
        // ...and a push that spilled has drained it to the low watermark.
        if s.spilled_count() > spilled_before {
            assert!(s.cache.len() <= 4);
            episodes += 1;
        }
    }
    assert!(episodes > 0);
}

#[test]
fn spill_episode_drains_to_low_watermark() {
    let mut s = PathStack::with_thresholds(8, 4, 2, 3);
    for i in 0..8u32 {
        s.push(walk(vec![5], i));
    }
    assert_eq!(s.cache.len(), 8);
    assert_eq!(s.spilled_count(), 0);
    // The ninth push overflows the high watermark and triggers one episode.
    s.push(walk(vec![5], 8));
    assert_eq!(s.cache.len(), 4);
    assert_eq!(s.spilled_count(), 5);
}

#[test]
fn no_refill_while_memory_is_comfortable() {
    let mut s = PathStack::with_thresholds(8, 4, 2, 3);
    for i in 0..20u32 {
        s.push(walk(vec![5], i));
    }
    let spilled_before = s.spilled_count();
    assert!(spilled_before > 0);
    // Popping while the memory buffer is at or above the low refill
    // threshold reads nothing back from the spill stack.
    while s.cache.len() >= 2 {
        s.pop().unwrap();
        assert_eq!(s.spilled_count(), spilled_before);
    }
    // The next pop finds the buffer below the threshold and refills, but
    // stops at the high refill threshold.
    s.pop().unwrap();
    assert!(s.spilled_count() < spilled_before);
    assert!(s.cache.len() <= 3);
}
