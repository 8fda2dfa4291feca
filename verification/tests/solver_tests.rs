use dodo_pow::Graph;
use rand_core::Rng;
use rand_core::SeedableRng;

fn seeded_graph(seed: u64, n: u8) -> Graph {
    let mut rng = rand_chacha::ChaCha8Rng::seed_from_u64(seed);
    Graph::new(&mut rng, n)
}

#[test]
fn test() {
    let mut rng = rand_chacha::ChaCha8Rng::seed_from_u64(123);

    let graph = Graph::new(&mut rng, 16);

    assert!(graph.solve_for(9).is_some());

    assert!(graph.verify(&[1981, 19107, 3084, 24653, 6267, 46608, 34728, 11923, 1981]));
}

#[test]
fn generated_graph_has_pow2_edges() {
    assert_eq!(seeded_graph(1, 0).len(), 1);
    assert_eq!(seeded_graph(1, 5).len(), 32);
    assert_eq!(seeded_graph(7, 10).len(), 1024);
}

#[test]
fn generation_is_deterministic_in_the_seed() {
    let a = seeded_graph(123, 10);
    let b = seeded_graph(123, 10);
    assert_eq!(a, b);
    let c = seeded_graph(124, 10);
    assert_ne!(a, c);
}

#[test]
fn from_words_reduces_each_word_modulo_edge_count() {
    let words = vec![5, 7, 9, 2];
    let g = Graph::from_words(&words, 1);
    assert_eq!(g.len(), 2);
    assert_eq!(g.edge(0), (1, 1));
    assert_eq!(g.edge(1), (1, 0));
}

#[test]
fn from_words_matches_generation() {
    let mut rng = rand_chacha::ChaCha8Rng::seed_from_u64(42);
    let generated = Graph::new(&mut rng, 6);

    let mut rng = rand_chacha::ChaCha8Rng::seed_from_u64(42);
    let mut words = Vec::with_capacity(128);
    for _ in 0..128 {
        words.push(rng.next_u32());
    }
    let rebuilt = Graph::from_words(&words, 6);
    assert_eq!(generated, rebuilt);
}

#[test]
fn pruned_adjacency_is_mutual() {
    let g = seeded_graph(5, 8);
    let (top, bot) = g.pruned_adjacency();
    assert_eq!(top.len(), 256);
    assert_eq!(bot.len(), 256);
    for (t, list) in top.iter().enumerate() {
        for &b in list {
            assert!(bot[b as usize].contains(&(t as u32)));
        }
    }
    for (b, list) in bot.iter().enumerate() {
        for &t in list {
            assert!(top[t as usize].contains(&(b as u32)));
        }
    }
}

#[test]
fn pruned_adjacency_lists_only_real_edges() {
    let g = seeded_graph(9, 7);
    let edges: Vec<(u32, u32)> = (0..g.len()).map(|j| g.edge(j)).collect();
    let (top, bot) = g.pruned_adjacency();
    for (t, list) in top.iter().enumerate() {
        for &b in list {
            assert!(edges.contains(&(t as u32, b)));
        }
    }
    for (b, list) in bot.iter().enumerate() {
        for &t in list {
            assert!(edges.contains(&(t, b as u32)));
        }
    }
}

#[test]
fn pruning_clears_low_degree_vertices() {
    let words = vec![0, 0, 0, 1, 1, 2, 2, 3];
    let g = Graph::from_words(&words, 2);
    assert_eq!(g.len(), 4);
    assert_eq!(g.edge(0), (0, 0));
    assert_eq!(g.edge(1), (0, 1));
    assert_eq!(g.edge(2), (1, 2));
    assert_eq!(g.edge(3), (2, 3));
    let (top, bot) = g.pruned_adjacency();
    for list in &top {
        assert!(list.is_empty());
    }
    for list in &bot {
        assert!(list.is_empty());
    }
    assert!(g.solve_for(5).is_none());
}

#[test]
fn pruning_keeps_cycle_vertices() {
    let words = vec![0, 0, 0, 1, 1, 0, 1, 1];
    let g = Graph::from_words(&words, 2);
    let (top, bot) = g.pruned_adjacency();
    assert_eq!(top[0], vec![0, 1]);
    assert_eq!(top[1], vec![0, 1]);
    assert_eq!(bot[0], vec![0, 1]);
    assert_eq!(bot[1], vec![0, 1]);
    let cycle = g.solve_for(5).expect("the four-edge cycle is found");
    assert_eq!(cycle.len(), 5);
    assert!(g.verify(&cycle));
    assert!(g.verify(&[0, 0, 1, 1, 0]));
}

#[test]
fn solve_for_returns_cycle_of_requested_length() {
    let graph = seeded_graph(123, 16);
    let cycle = graph.solve_for(9).expect("a cycle of length 9 exists");
    assert_eq!(cycle.len(), 9);
    assert_eq!(cycle.first(), cycle.last());
    assert!(graph.verify(&cycle));
}

#[test]
fn solve_for_rejects_even_or_short_difficulty() {
    let graph = seeded_graph(123, 8);
    assert!(graph.solve_for(4).is_none());
    assert!(graph.solve_for(3).is_none());
    assert!(graph.solve_for(0).is_none());
    assert!(graph.solve_for(2).is_none());
    assert!(graph.solve_for(1).is_none());
}

#[test]
fn single_edge_graph_has_no_cycle() {
    let graph = seeded_graph(123, 0);
    assert_eq!(graph.len(), 1);
    assert!(graph.solve_for(5).is_none());
}

#[test]
fn handler_early_stop_returns_first_cycle() {
    let graph = seeded_graph(123, 16);
    let cycle = graph.solve(9, |_| true).expect("some cycle is found");
    assert!(graph.verify(&cycle));
    assert!(cycle.len() >= 5);
    assert_eq!(cycle.len() % 2, 1);
    assert_eq!(cycle.first(), cycle.last());
}

#[test]
fn handler_sees_only_odd_cycles() {
    let graph = seeded_graph(77, 10);
    let result = graph.solve(11, |c| {
        assert_eq!(c.len() % 2, 1);
        assert!(c.len() >= 5);
        assert_eq!(c.first(), c.last());
        false
    });
    assert!(result.is_none());
}

#[test]
fn depth_bound_below_five_finds_nothing() {
    let graph = seeded_graph(123, 8);
    assert!(graph.solve(0, |_| true).is_none());
    assert!(graph.solve(1, |_| true).is_none());
    assert!(graph.solve(4, |_| true).is_none());
    let cycle = graph.solve(5, |_| true);
    if let Some(c) = cycle {
        assert_eq!(c.len(), 5);
        assert!(graph.verify(&c));
    }
}

#[test]
fn verifier_rejects_even_length() {
    let graph = seeded_graph(123, 16);
    assert!(!graph.verify(&[0, 1, 2, 0]));
    assert!(!graph.verify(&[]));
    assert!(!graph.verify(&[7, 7]));
}

#[test]
fn verifier_rejects_walk_without_edges() {
    let words = vec![5, 7];
    let g = Graph::from_words(&words, 0);
    assert_eq!(g.edge(0), (0, 0));
    assert!(!g.verify(&[0, 1, 0]));
    assert!(g.verify(&[0, 0, 0]));
}

#[test]
fn forged_cycle_is_rejected() {
    let graph = seeded_graph(123, 16);
    let good = [1981, 19107, 3084, 24653, 6267, 46608, 34728, 11923, 1981];
    assert!(graph.verify(&good));
    for i in 0..good.len() {
        let mut forged = good;
        forged[i] = forged[i].wrapping_add(1);
        assert!(!graph.verify(&forged), "forged at position {i}");
    }
}
