use secret_santa::exclusion::ExclusionGraph;
use secret_santa::exclusion::exclusions_to_adjacency;
use secret_santa::exclusion::from_edges;
use secret_santa::exclusion::generate_large_exclusions;
use secret_santa::rng::SearchRng;
use secret_santa::search::generate_secret_santa;

#[test]
fn new_graph_has_no_exclusions() {
    let g = ExclusionGraph::new(4);
    assert_eq!(g.len(), 4);
    for a in 0..4 {
        for b in 0..4 {
            assert!(!g.is_forbidden(a, b));
        }
    }
}

#[test]
fn forbid_sets_exactly_one_cell() {
    let mut g = ExclusionGraph::new(3);
    g.forbid(1, 2);
    for a in 0..3 {
        for b in 0..3 {
            assert_eq!(g.is_forbidden(a, b), a == 1 && b == 2);
        }
    }
}

#[test]
fn forbidden_count_counts_a_row() {
    let mut g = ExclusionGraph::new(5);
    g.forbid(2, 0);
    g.forbid(2, 4);
    g.forbid(2, 4);
    g.forbid(3, 1);
    assert_eq!(g.forbidden_count(0), 0);
    assert_eq!(g.forbidden_count(2), 2);
    assert_eq!(g.forbidden_count(3), 1);
}

#[test]
fn from_edges_forbids_exactly_the_listed_pairs() {
    let edges = vec![(0usize, 2usize), (1, 0), (0, 2)];
    let g = from_edges(3, &edges);
    for a in 0..3 {
        for b in 0..3 {
            assert_eq!(g.is_forbidden(a, b), (a == 0 && b == 2) || (a == 1 && b == 0));
        }
    }
}

#[test]
fn forbidden_receivers_lists_the_exclusions() {
    let mut g = ExclusionGraph::new(5);
    g.forbid(1, 4);
    g.forbid(1, 0);
    g.forbid(3, 2);
    assert_eq!(g.forbidden_receivers(1), vec![0, 4]);
    assert_eq!(g.forbidden_receivers(3), vec![2]);
    assert_eq!(g.forbidden_receivers(0), Vec::<usize>::new());
}

#[test]
fn duplicate_is_equal_and_independent() {
    let mut g = ExclusionGraph::new(3);
    g.forbid(0, 2);
    let mut copy = g.duplicate();
    for a in 0..3 {
        for b in 0..3 {
            assert_eq!(g.is_forbidden(a, b), copy.is_forbidden(a, b));
        }
    }
    copy.forbid(1, 0);
    assert!(copy.is_forbidden(1, 0));
    assert!(!g.is_forbidden(1, 0));
}

#[test]
fn adjacency_lists_the_valid_receivers() {
    let mut g = ExclusionGraph::new(3);
    g.forbid(0, 2);
    let adj = exclusions_to_adjacency(&g);
    assert_eq!(adj.len(), 3);
    assert_eq!(adj[0], vec![1]);
    assert_eq!(adj[1], vec![0, 2]);
    assert_eq!(adj[2], vec![0, 1]);
}

#[test]
fn adjacency_of_empty_graph_is_everybody_else() {
    let g = ExclusionGraph::new(4);
    let adj = exclusions_to_adjacency(&g);
    for i in 0..4 {
        let expected: Vec<usize> = (0..4).filter(|&j| j != i).collect();
        assert_eq!(adj[i], expected);
    }
}

#[test]
fn zero_ratio_generates_no_exclusions() {
    let mut rng = SearchRng::from_seed(9);
    let g = generate_large_exclusions(30, 0, 10, &mut rng);
    for a in 0..30 {
        for b in 0..30 {
            assert!(!g.is_forbidden(a, b));
        }
    }
}

#[test]
fn full_ratio_excludes_every_ordered_pair() {
    let mut rng = SearchRng::from_seed(9);
    let g = generate_large_exclusions(12, 7, 7, &mut rng);
    for a in 0..12 {
        for b in 0..12 {
            assert_eq!(g.is_forbidden(a, b), a != b);
        }
    }
}

#[test]
fn generated_exclusions_are_reproducible() {
    let mut rng1 = SearchRng::from_seed(123);
    let mut rng2 = SearchRng::from_seed(123);
    let g1 = generate_large_exclusions(25, 1, 2, &mut rng1);
    let g2 = generate_large_exclusions(25, 1, 2, &mut rng2);
    for a in 0..25 {
        for b in 0..25 {
            assert_eq!(g1.is_forbidden(a, b), g2.is_forbidden(a, b));
        }
    }
}

#[test]
fn thousand_participants_half_density_terminates() {
    // A large randomized run: the search must come back within the bound,
    // and any assignment it returns must honour every invariant.
    let mut rng = SearchRng::from_seed(7);
    let excl = generate_large_exclusions(1000, 1, 2, &mut rng);
    let mut search_rng = SearchRng::from_seed(11);
    match generate_secret_santa(&excl, &mut search_rng) {
        Some(p) => {
            let n = excl.len();
            assert_eq!(p.len(), n);
            let mut seen = vec![false; n];
            for g in 0..n {
                let r = p[g];
                assert!(r < n && r != g);
                assert!(!excl.is_forbidden(g, r));
                assert!(!seen[r]);
                seen[r] = true;
            }
            let mut cur = 0usize;
            for step in 1..=n {
                cur = p[cur];
                if step < n {
                    assert_ne!(cur, 0);
                }
            }
            assert_eq!(cur, 0);
        },
        None => {
            // An unlucky dead end doomed the run: allowed for the
            // randomized strategy, provided it terminated to say so.
        },
    }
}
