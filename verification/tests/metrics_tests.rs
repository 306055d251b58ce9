use block_shuffle::candidate::Candidate;
use block_shuffle::metrics::depth;

fn node(n: usize, children: Vec<Candidate>) -> Candidate {
    Candidate { lines: vec![n], fitness: None, children }
}

#[test]
fn depth_of_childless_list_is_zero() {
    assert_eq!(depth(&Vec::new()), 0);
    assert_eq!(depth(&vec![node(1, Vec::new()), node(2, Vec::new())]), 0);
}

#[test]
fn chain_of_three_nestings_has_depth_three() {
    let chain = vec![node(
        0,
        vec![node(1, vec![node(2, vec![node(3, Vec::new())])])],
    )];
    assert_eq!(depth(&chain), 3);
}

#[test]
fn depth_follows_the_deepest_child_not_the_first() {
    let forest = vec![
        node(0, Vec::new()),
        node(1, vec![node(2, vec![node(3, Vec::new())])]),
    ];
    assert_eq!(depth(&forest), 2);
}
