use rumoca::matching::HopcroftKarp;

#[test]
fn test_hopcroft_karp_simple_matching() {
    // Simple case: 3 equations, 3 variables, perfect matching exists
    // eq0 can match var0
    // eq1 can match var1
    // eq2 can match var2
    let adj = vec![vec![0], vec![1], vec![2]];

    let mut hk = HopcroftKarp::new(3, 3, adj);
    let matching_size = hk.max_matching();

    assert_eq!(matching_size, 3, "Should find perfect matching of size 3");

    let matching = hk.get_equation_matching();
    assert_eq!(matching[0], Some(0));
    assert_eq!(matching[1], Some(1));
    assert_eq!(matching[2], Some(2));
}

#[test]
fn test_hopcroft_karp_requires_augmenting_path() {
    // Case where greedy matching fails but Hopcroft-Karp succeeds
    // eq0 can match var0 or var1
    // eq1 can match var0 only
    //
    // Greedy might match eq0->var0, leaving eq1 unmatched
    // Hopcroft-Karp should find eq0->var1, eq1->var0
    let adj = vec![vec![0, 1], vec![0]];

    let mut hk = HopcroftKarp::new(2, 2, adj);
    let matching_size = hk.max_matching();

    assert_eq!(matching_size, 2, "Should find perfect matching of size 2");

    let matching = hk.get_equation_matching();
    // eq0 should match var1, eq1 should match var0
    assert_eq!(matching[0], Some(1));
    assert_eq!(matching[1], Some(0));
}

#[test]
fn test_hopcroft_karp_incomplete_matching() {
    // Case where no perfect matching exists
    // eq0 can match var0
    // eq1 can match var0 (conflict!)
    // eq2 can match var1
    let adj = vec![vec![0], vec![0], vec![1]];

    let mut hk = HopcroftKarp::new(3, 2, adj);
    let matching_size = hk.max_matching();

    // Only 2 equations can be matched (to 2 variables)
    assert_eq!(matching_size, 2, "Should find matching of size 2");
}

#[test]
fn test_hopcroft_karp_complex_augmenting() {
    // More complex case requiring multiple augmenting paths
    // This tests the BFS layering properly
    //
    // eq0 -> var0, var1
    // eq1 -> var0, var2
    // eq2 -> var1, var2
    let adj = vec![vec![0, 1], vec![0, 2], vec![1, 2]];

    let mut hk = HopcroftKarp::new(3, 3, adj);
    let matching_size = hk.max_matching();

    assert_eq!(matching_size, 3, "Should find perfect matching of size 3");
}

#[test]
fn test_hopcroft_karp_empty() {
    // Edge case: no equations
    let adj: Vec<Vec<usize>> = vec![];
    let mut hk = HopcroftKarp::new(0, 0, adj);
    let matching_size = hk.max_matching();

    assert_eq!(matching_size, 0);
}

#[test]
fn test_hopcroft_karp_no_edges() {
    // Edge case: equations exist but no valid assignments
    let adj = vec![vec![], vec![], vec![]];

    let mut hk = HopcroftKarp::new(3, 3, adj);
    let matching_size = hk.max_matching();

    assert_eq!(matching_size, 0, "No matching possible without edges");
}
