use block_shuffle::candidate::Candidate;
use block_shuffle::errors::ShuffleError;
use block_shuffle::estimate::calculate_estimated_permutation_count;
use block_shuffle::expand::{expand, ProgressSink, SilentSink};

fn collect_lines(forest: &Vec<Candidate>, out: &mut Vec<Vec<usize>>) {
    for c in forest {
        out.push(c.lines.clone());
        collect_lines(&c.children, out);
    }
}

struct Recorder {
    calls: Vec<(usize, usize)>,
}

impl ProgressSink for Recorder {
    fn report(&mut self, generated: usize, estimated_total: usize) {
        self.calls.push((generated, estimated_total));
    }
}

#[test]
fn two_block_expansion_of_eight_lines() {
    // blocksize 8 halves to 4: two chunks, so 2! top-level candidates; the
    // halved size 4 still meets the minimum, so each candidate is refined
    // once more (4 chunks of size 2, 4! orderings) before halving below it.
    let mut sink = SilentSink;
    let input: Vec<usize> = (0..8).collect();
    let forest = expand(input, 8, 4, 1_000_000, &mut sink).unwrap();
    assert_eq!(forest.len(), 2);
    assert_eq!(forest[0].lines, vec![0, 1, 2, 3, 4, 5, 6, 7]);
    assert_eq!(forest[1].lines, vec![4, 5, 6, 7, 0, 1, 2, 3]);
    assert_eq!(forest[0].children.len(), 24);
    assert_eq!(forest[1].children.len(), 24);
    assert!(forest[0].children.iter().all(|c| c.children.is_empty()));
    assert!(forest[1].children.iter().all(|c| c.children.is_empty()));
    assert_eq!(forest[0].fitness, None);
    assert_eq!(forest[1].fitness, None);
}

#[test]
fn expansion_stops_when_the_halved_size_misses_the_minimum() {
    // blocksize 8 halves to 4: two top-level candidates; the next call sees
    // blocksize 4 below the minimum of 5 and attaches empty child lists.
    let mut sink = SilentSink;
    let input: Vec<usize> = (0..8).collect();
    let forest = expand(input, 8, 5, 1_000_000, &mut sink).unwrap();
    assert_eq!(forest.len(), 2);
    assert_eq!(forest[0].lines, vec![0, 1, 2, 3, 4, 5, 6, 7]);
    assert_eq!(forest[1].lines, vec![4, 5, 6, 7, 0, 1, 2, 3]);
    assert!(forest[0].children.is_empty());
    assert!(forest[1].children.is_empty());
}

#[test]
fn every_candidate_is_a_permutation() {
    let mut sink = SilentSink;
    let forest = expand(vec![10, 20, 30, 40], 4, 2, 1_000_000, &mut sink).unwrap();
    let mut all = Vec::new();
    collect_lines(&forest, &mut all);
    assert_eq!(all.len(), 50);
    for lines in &all {
        let mut sorted = lines.clone();
        sorted.sort();
        assert_eq!(sorted, vec![10, 20, 30, 40]);
    }
}

#[test]
fn generated_count_matches_estimate() {
    let est = calculate_estimated_permutation_count(4, 4, 2);
    assert_eq!(est, 50);
    let mut sink = SilentSink;
    let forest = expand(vec![1, 2, 3, 4], 4, 2, usize::MAX, &mut sink).unwrap();
    let mut all = Vec::new();
    collect_lines(&forest, &mut all);
    assert_eq!(all.len(), est);
}

#[test]
fn progress_reports_once_per_candidate() {
    let mut sink = Recorder { calls: Vec::new() };
    let forest = expand(vec![0, 1, 2, 3, 4, 5, 6, 7], 8, 5, 100, &mut sink).unwrap();
    assert_eq!(forest.len(), 2);
    assert_eq!(sink.calls, vec![(1, 2), (2, 2)]);
}

#[test]
fn empty_input_is_rejected() {
    let mut sink = SilentSink;
    assert_eq!(
        expand(Vec::new(), 8, 2, 100, &mut sink),
        Err(ShuffleError::InvalidConfig)
    );
}

#[test]
fn zero_blocksize_is_rejected() {
    let mut sink = SilentSink;
    assert_eq!(
        expand(vec![1, 2, 3], 0, 2, 100, &mut sink),
        Err(ShuffleError::InvalidConfig)
    );
}

#[test]
fn zero_min_blocksize_is_rejected() {
    let mut sink = SilentSink;
    assert_eq!(
        expand(vec![1, 2, 3], 3, 0, 100, &mut sink),
        Err(ShuffleError::InvalidConfig)
    );
}

#[test]
fn oversized_min_blocksize_is_rejected() {
    let mut sink = SilentSink;
    assert_eq!(
        expand(vec![1, 2, 3], 3, 4, 100, &mut sink),
        Err(ShuffleError::InvalidConfig)
    );
}

#[test]
fn budget_ceiling_is_enforced() {
    let mut sink = SilentSink;
    let input: Vec<usize> = (0..8).collect();
    assert_eq!(
        expand(input, 8, 2, 10, &mut sink),
        Err(ShuffleError::ResourceExceeded)
    );
}

#[test]
fn terminal_blocksize_gives_empty_forest() {
    let mut sink = SilentSink;
    let forest = expand(vec![1, 2, 3], 1, 1, 100, &mut sink).unwrap();
    assert!(forest.is_empty());
}
