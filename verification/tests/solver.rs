use floor_packing::building::make_name_floor_map;
use floor_packing::graph::make_compatible_floors_map;
use floor_packing::score::find_best_solution;
use floor_packing::score::solution_score;
use floor_packing::solution::find_rest_of_solutions;
use floor_packing::solution::walk_solution_from;
use floor_packing::solution::Solution;

fn building(rows: &[&[&str]]) -> Vec<Vec<String>> {
    rows.iter().map(|r| r.iter().map(|s| s.to_string()).collect()).collect()
}

fn example_building() -> Vec<Vec<String>> {
    building(&[&["Jake", "Mike"], &["Daniel", "Jake", "Mike"], &["Jimmy"]])
}

fn example_graph() -> Vec<Vec<usize>> {
    let bld = example_building();
    let nfm = make_name_floor_map(&bld);
    make_compatible_floors_map(&bld, &nfm)
}

fn sorted(mut v: Vec<usize>) -> Vec<usize> {
    v.sort();
    v
}

#[test]
fn name_floor_map_entries() {
    let bld = example_building();
    let nfm = make_name_floor_map(&bld);
    assert_eq!(nfm.names.len(), nfm.floors.len());
    let mut seen = std::collections::HashMap::new();
    for (name, floors) in nfm.names.iter().zip(nfm.floors.iter()) {
        assert!(seen.insert(name.clone(), sorted(floors.clone())).is_none());
    }
    assert_eq!(seen["Jake"], vec![0, 1]);
    assert_eq!(seen["Mike"], vec![0, 1]);
    assert_eq!(seen["Daniel"], vec![1]);
    assert_eq!(seen["Jimmy"], vec![2]);
    assert_eq!(seen.len(), 4);
}

#[test]
fn graph_of_example() {
    let g = example_graph();
    assert_eq!(g.len(), 3);
    assert_eq!(sorted(g[0].clone()), vec![2]);
    assert_eq!(sorted(g[1].clone()), vec![2]);
    assert_eq!(sorted(g[2].clone()), vec![0, 1]);
}

#[test]
fn graph_is_symmetric() {
    let bld = building(&[
        &["a", "b"],
        &["b", "c"],
        &["d"],
        &["a", "c", "e"],
        &["e", "f"],
    ]);
    let nfm = make_name_floor_map(&bld);
    let g = make_compatible_floors_map(&bld, &nfm);
    for i in 0..g.len() {
        for &j in &g[i] {
            assert!(g[j].contains(&i), "graph not symmetric at {} {}", i, j);
        }
    }
}

#[test]
fn graph_excludes_self() {
    let bld = building(&[&["a", "b"], &["c"], &["d", "e"], &["f"]]);
    let nfm = make_name_floor_map(&bld);
    let g = make_compatible_floors_map(&bld, &nfm);
    for (i, entry) in g.iter().enumerate() {
        assert!(!entry.contains(&i), "floor {} listed as its own neighbour", i);
    }
}

#[test]
fn walk_includes_start() {
    let g = example_graph();
    for start in 0..3 {
        let sol = walk_solution_from(start, &g, None);
        assert!(sol.floors.contains(&start));
    }
}

#[test]
fn walk_includes_start_with_base() {
    let g = example_graph();
    let base = walk_solution_from(0, &g, None);
    for start in 0..3 {
        let sol = walk_solution_from(start, &g, Some(base.clone()));
        assert!(sol.floors.contains(&start));
    }
}

#[test]
fn walk_is_greedy_maximal() {
    let g = example_graph();
    let sol = walk_solution_from(0, &g, None);
    assert_eq!(sorted(sol.floors), vec![0, 2]);
    let sol = walk_solution_from(1, &g, None);
    assert_eq!(sorted(sol.floors), vec![1, 2]);
}

#[test]
fn walk_drops_incompatible_base_members() {
    let g = example_graph();
    // floor 0 is incompatible with floor 1: walking from 1 with base {0, 2}
    // must drop 0 and keep 2
    let base = Solution { floors: vec![2, 0] };
    let sol = walk_solution_from(1, &g, Some(base));
    assert_eq!(sorted(sol.floors), vec![1, 2]);
}

#[test]
fn pool_covers_every_floor() {
    let g = example_graph();
    let sols = find_rest_of_solutions(&g);
    for floor in 0..g.len() {
        assert!(
            sols.iter().any(|s| s.floors.contains(&floor)),
            "floor {} not covered by any solution",
            floor
        );
    }
}

#[test]
fn pool_of_example() {
    let g = example_graph();
    let sols = find_rest_of_solutions(&g);
    let pool: Vec<Vec<usize>> = sols.iter().map(|s| sorted(s.floors.clone())).collect();
    assert_eq!(pool, vec![vec![0, 2], vec![1, 2]]);
}

#[test]
fn pool_solutions_are_valid() {
    let bld = building(&[
        &["a", "b"],
        &["b", "c"],
        &["d"],
        &["a", "c", "e"],
        &["e", "f"],
    ]);
    let nfm = make_name_floor_map(&bld);
    let g = make_compatible_floors_map(&bld, &nfm);
    let sols = find_rest_of_solutions(&g);
    for sol in &sols {
        for &i in &sol.floors {
            for &j in &sol.floors {
                if i != j {
                    let shared = bld[i].iter().any(|n| bld[j].contains(n));
                    assert!(!shared, "floors {} and {} share a name", i, j);
                }
            }
        }
    }
}

#[test]
fn best_solution_of_example() {
    let bld = example_building();
    let nfm = make_name_floor_map(&bld);
    let g = make_compatible_floors_map(&bld, &nfm);
    let sols = find_rest_of_solutions(&g);
    let best = find_best_solution(&bld, &sols);
    assert!(best < sols.len());
    assert_eq!(sorted(sols[best].floors.clone()), vec![1, 2]);
    assert_eq!(solution_score(&bld, &sols[best]), 4);
}

#[test]
fn score_counts_distinct_names() {
    let bld = example_building();
    let sol = Solution { floors: vec![1, 2] };
    let score = solution_score(&bld, &sol);
    let mut distinct = std::collections::HashSet::new();
    for &f in &sol.floors {
        for name in &bld[f] {
            distinct.insert(name.clone());
        }
    }
    assert_eq!(score, distinct.len());
    assert_eq!(score, 4);
}

#[test]
fn single_floor_building() {
    let bld = building(&[&["alone"]]);
    let nfm = make_name_floor_map(&bld);
    let g = make_compatible_floors_map(&bld, &nfm);
    assert_eq!(g, vec![Vec::<usize>::new()]);
    let sols = find_rest_of_solutions(&g);
    assert_eq!(sols.len(), 1);
    assert_eq!(sols[0].floors, vec![0]);
    let best = find_best_solution(&bld, &sols);
    assert_eq!(best, 0);
    assert_eq!(solution_score(&bld, &sols[0]), 1);
}

#[test]
fn all_floors_incompatible() {
    // every floor shares the name "x": all solutions are singletons, and
    // the pool doubles once per unexplored floor
    let rows: Vec<Vec<String>> =
        (0..10).map(|i| vec!["x".to_string(), format!("y{}", i)]).collect();
    let nfm = make_name_floor_map(&rows);
    let g = make_compatible_floors_map(&rows, &nfm);
    for entry in &g {
        assert!(entry.is_empty());
    }
    let sols = find_rest_of_solutions(&g);
    for sol in &sols {
        assert_eq!(sol.floors.len(), 1);
    }
    for floor in 0..10 {
        assert!(sols.iter().any(|s| s.floors.contains(&floor)));
    }
    assert!(sols.len() <= 1024);
}

#[test]
fn all_floors_compatible() {
    let rows = building(&[&["a"], &["b"], &["c"], &["d"]]);
    let nfm = make_name_floor_map(&rows);
    let g = make_compatible_floors_map(&rows, &nfm);
    let sols = find_rest_of_solutions(&g);
    assert_eq!(sols.len(), 1);
    assert_eq!(sorted(sols[0].floors.clone()), vec![0, 1, 2, 3]);
    assert_eq!(solution_score(&rows, &sols[0]), 4);
}

#[test]
fn ties_broken_by_pool_order() {
    let bld = building(&[&["a"], &["b"]]);
    let s1 = Solution { floors: vec![0] };
    let s2 = Solution { floors: vec![1] };
    let sols = vec![s1, s2];
    assert_eq!(find_best_solution(&bld, &sols), 0);
}
