use statewalk::sink::{LogSampler, SolutionSink, INITIAL_BEST, SAMPLE_INTERVAL};

#[test]
fn only_strict_improvements_are_recorded() {
    let mut sink = SolutionSink::new();
    assert_eq!(sink.best, INITIAL_BEST);
    assert!(sink.offer(10));
    assert_eq!(sink.best, 10);
    assert!(!sink.offer(10));
    assert!(sink.offer(5));
    assert!(!sink.offer(7));
    assert!(sink.offer(3));
    assert_eq!(sink.best, 3);
}

#[test]
fn written_lengths_strictly_decrease() {
    let mut sink = SolutionSink::new();
    let offers = [10u32, 12, 10, 5, 5, 7, 3, 3];
    let mut written: Vec<u32> = Vec::new();
    for &len in offers.iter() {
        if sink.offer(len) {
            written.push(len);
        }
    }
    assert_eq!(written, vec![10, 5, 3]);
    for pair in written.windows(2) {
        assert!(pair[0] > pair[1]);
    }
}

#[test]
fn late_worse_solution_writes_nothing() {
    // Walk [A,B,C,D] of length 3 first, then [A,B,C,B,D] of length 8: the
    // later arrival must not produce a new write.
    let mut sink = SolutionSink::new();
    assert!(sink.offer(3));
    assert!(!sink.offer(8));
    assert_eq!(sink.best, 3);
}

#[test]
fn sampler_writes_one_line_in_n() {
    let mut sampler = LogSampler::new();
    for _ in 0..SAMPLE_INTERVAL - 1 {
        assert!(!sampler.note());
    }
    // The SAMPLE_INTERVAL-th message since the last write is the sampled one.
    assert!(sampler.note());
    assert_eq!(sampler.counter, 0);
    // The period repeats from zero.
    assert!(!sampler.note());
    for _ in 0..SAMPLE_INTERVAL - 2 {
        assert!(!sampler.note());
    }
    assert!(sampler.note());
}
