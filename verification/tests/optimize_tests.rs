use block_shuffle::candidate::Candidate;
use block_shuffle::errors::ShuffleError;
use block_shuffle::optimize::optimize;

fn leaf(n: usize) -> Candidate {
    Candidate { lines: vec![n], fitness: None, children: Vec::new() }
}

fn collect_lines(forest: &Vec<Candidate>, out: &mut Vec<Vec<usize>>) {
    for c in forest {
        out.push(c.lines.clone());
        collect_lines(&c.children, out);
    }
}

fn widest_list(forest: &Vec<Candidate>) -> usize {
    let mut widest = forest.len();
    for c in forest {
        let inner = widest_list(&c.children);
        if inner > widest {
            widest = inner;
        }
    }
    widest
}

#[test]
fn five_siblings_bound_by_two() {
    let mut v = vec![leaf(0), leaf(1), leaf(2), leaf(3), leaf(4)];
    let mut steps: usize = 0;
    assert_eq!(optimize(&mut v, 2, &mut steps), Ok(()));
    assert!(v.len() <= 2);
    assert!(widest_list(&v) <= 2);
    assert_eq!(v[0].lines, vec![0]);
    let mut all = Vec::new();
    collect_lines(&v, &mut all);
    all.sort();
    assert_eq!(all, vec![vec![0], vec![1], vec![2], vec![3], vec![4]]);
}

#[test]
fn grouping_follows_the_documented_shape() {
    let mut v: Vec<Candidate> = (1..=10).map(leaf).collect();
    let mut steps: usize = 0;
    optimize(&mut v, 4, &mut steps).unwrap();
    let tops: Vec<Vec<usize>> = v.iter().map(|c| c.lines.clone()).collect();
    assert_eq!(tops, vec![vec![1], vec![5], vec![9]]);
    let kids: Vec<Vec<Vec<usize>>> = v
        .iter()
        .map(|c| c.children.iter().map(|g| g.lines.clone()).collect())
        .collect();
    assert_eq!(
        kids,
        vec![
            vec![vec![2], vec![3], vec![4]],
            vec![vec![6], vec![7], vec![8]],
            vec![vec![10]],
        ]
    );
}

#[test]
fn optimize_is_idempotent() {
    let mut once = vec![leaf(0), leaf(1), leaf(2), leaf(3), leaf(4)];
    let mut twice = vec![leaf(0), leaf(1), leaf(2), leaf(3), leaf(4)];
    let mut steps: usize = 0;
    optimize(&mut once, 2, &mut steps).unwrap();
    optimize(&mut twice, 2, &mut steps).unwrap();
    optimize(&mut twice, 2, &mut steps).unwrap();
    assert_eq!(once, twice);
}

#[test]
fn bound_at_or_above_sibling_count_is_a_no_op() {
    let mut v = vec![leaf(1), leaf(2), leaf(3)];
    let mut steps: usize = 0;
    optimize(&mut v, 5, &mut steps).unwrap();
    assert_eq!(v, vec![leaf(1), leaf(2), leaf(3)]);
}

#[test]
fn bound_below_two_is_rejected() {
    let mut v = vec![leaf(1), leaf(2), leaf(3)];
    let mut steps: usize = 7;
    assert_eq!(optimize(&mut v, 1, &mut steps), Err(ShuffleError::InvalidConfig));
    assert_eq!(optimize(&mut v, 0, &mut steps), Err(ShuffleError::InvalidConfig));
    assert_eq!(v, vec![leaf(1), leaf(2), leaf(3)]);
    assert_eq!(steps, 7);
}

#[test]
fn optimize_of_an_empty_list_is_a_no_op() {
    let mut v: Vec<Candidate> = Vec::new();
    let mut steps: usize = 0;
    assert_eq!(optimize(&mut v, 2, &mut steps), Ok(()));
    assert!(v.is_empty());
    assert_eq!(steps, 1);
}

#[test]
fn expansion_then_optimization_keeps_every_candidate() {
    let mut sink = block_shuffle::expand::SilentSink;
    let mut v =
        block_shuffle::expand::expand(vec![1, 2, 3, 4], 4, 2, 1_000_000, &mut sink).unwrap();
    let mut steps: usize = 0;
    optimize(&mut v, 2, &mut steps).unwrap();
    assert!(v.len() <= 2);
    assert!(widest_list(&v) <= 2);
    let mut all = Vec::new();
    collect_lines(&v, &mut all);
    assert_eq!(all.len(), 50);
    for lines in &all {
        let mut sorted = lines.clone();
        sorted.sort();
        assert_eq!(sorted, vec![1, 2, 3, 4]);
    }
}

#[test]
fn steps_counts_one_per_list_processed() {
    let mut v = vec![leaf(0), leaf(1), leaf(2), leaf(3), leaf(4)];
    let mut steps: usize = 0;
    optimize(&mut v, 2, &mut steps).unwrap();
    // the top-level list plus one child list per surviving candidate
    assert_eq!(steps, 6);
}
