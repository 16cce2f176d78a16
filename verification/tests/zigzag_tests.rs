use std::collections::HashMap;

use storage_proofs::drgraph::new_seed;
use storage_proofs::hasher::HasherKind;
use storage_proofs::zigzag_graph::{ParentsCache, ZigZagBucketGraph, ZigZagGraph, DEFAULT_EXPANSION_DEGREE};

fn assert_graph_ascending(g: &ZigZagGraph) {
    for i in 0..g.size() {
        for p in g.parents(i) {
            if i == 0 {
                assert!(p == i);
            } else {
                assert!(p < i);
            }
        }
    }
}

fn assert_graph_descending(g: &ZigZagGraph) {
    for i in 0..g.size() {
        let parents = g.parents(i);
        for p in parents {
            if i == g.size() - 1 {
                assert!(p == i);
            } else {
                assert!(p > i);
            }
        }
    }
}

#[test]
fn zigzag_graph_zigzags_pedersen() {
    test_zigzag_graph_zigzags(HasherKind::Pedersen);
}

#[test]
fn zigzag_graph_zigzags_sha256() {
    test_zigzag_graph_zigzags(HasherKind::Sha256);
}

#[test]
fn zigzag_graph_zigzags_blake2s() {
    test_zigzag_graph_zigzags(HasherKind::Blake2s);
}

fn test_zigzag_graph_zigzags(kind: HasherKind) {
    let g = ZigZagBucketGraph::new_zigzag_with_hasher(kind, 50, 5, DEFAULT_EXPANSION_DEGREE,
        new_seed());
    let gz = g.zigzag();

    assert_graph_ascending(&g);
    assert_graph_descending(&gz);
}

#[test]
fn expansion_pedersen() {
    test_expansion(HasherKind::Pedersen);
}

#[test]
fn expansion_sha256() {
    test_expansion(HasherKind::Sha256);
}

#[test]
fn expansion_blake2s() {
    test_expansion(HasherKind::Blake2s);
}

fn test_expansion(kind: HasherKind) {
    // We need a graph.
    let g = ZigZagBucketGraph::new_zigzag_with_hasher(kind, 25, 5, DEFAULT_EXPANSION_DEGREE,
        new_seed());

    // We're going to fully realize the expansion-graph component, in a HashMap.
    let gcache = get_all_expanded_parents(&g);

    // Here's the zigzag version of the graph.
    let gz = g.zigzag();

    // And a HashMap to hold the expanded parents.
    let gzcache = get_all_expanded_parents(&gz);

    for i in 0..gz.size() {
        let parents = gzcache.get(&i).unwrap();

        // Check to make sure all (expanded) node-parent relationships also exist in reverse,
        // in the original graph's HashMap.
        for p in parents {
            assert!(gcache[p].contains(&i));
        }
    }

    // And then do the same check to make sure all (expanded) node-parent relationships from the original
    // are present in the zigzag, just reversed.
    for i in 0..g.size() {
        let parents = g.expanded_parents(i);
        for p in parents {
            assert!(gzcache[&p].contains(&i));
        }
    }
    // Having checked both ways, we know the graph and its zigzag counterpart have 'expanded'
    // components which are each other's inverses. It's important that this be true.
}

fn get_all_expanded_parents(zigzag_graph: &ZigZagBucketGraph) -> HashMap<usize, Vec<usize>> {
    let mut parents_map: HashMap<usize, Vec<usize>> = HashMap::new();
    for i in 0..zigzag_graph.size() {
        parents_map.insert(i, zigzag_graph.expanded_parents(i));
    }

    parents_map
}

#[test]
fn degree_constancy() {
    let g = ZigZagBucketGraph::new_zigzag(50, 5, DEFAULT_EXPANSION_DEGREE, new_seed());
    let gz = g.zigzag();
    for i in 0..g.size() {
        assert_eq!(g.parents(i).len(), g.degree());
        assert_eq!(gz.parents(i).len(), gz.degree());
    }
}

#[test]
fn parents_deterministic() {
    let seed = new_seed();
    let g1 = ZigZagBucketGraph::new_zigzag(50, 5, DEFAULT_EXPANSION_DEGREE, seed);
    let g2 = ZigZagBucketGraph::new_zigzag(50, 5, DEFAULT_EXPANSION_DEGREE, seed);
    for i in 0..g1.size() {
        assert_eq!(g1.parents(i), g2.parents(i));
        assert_eq!(g1.parents(i), g1.parents(i));
    }
}

#[test]
fn feistel_round_trip() {
    let keys: [u32; 4] = [1, 2, 3, 4];
    let pre = storage_proofs::feistel::precompute(100);
    for x in 0..100u32 {
        let y = storage_proofs::feistel::permute(100, x, &keys, pre);
        assert!(y < 100);
        let back = storage_proofs::feistel::invert_permute(100, y, &keys, pre);
        assert_eq!(back, x);
    }
    // The walk visits every element exactly once: it is a bijection.
    let mut seen = vec![false; 100];
    for x in 0..100u32 {
        let y = storage_proofs::feistel::permute(100, x, &keys, pre) as usize;
        assert!(!seen[y]);
        seen[y] = true;
    }
}

#[test]
fn parents_cache_round_trip() {
    let g = ZigZagBucketGraph::new_zigzag(25, 5, DEFAULT_EXPANSION_DEGREE, new_seed());
    let gz = g.zigzag();
    let mut cache = ParentsCache::new(&g);
    for i in 0..g.size() {
        let direct = g.expanded_parents(i);
        let cached_miss = g.expanded_parents_cached(&mut cache, i);
        let cached_hit = g.expanded_parents_cached(&mut cache, i);
        assert_eq!(direct, cached_miss);
        assert_eq!(direct, cached_hit);
        assert!(g.read_parents_cache(&cache, i).is_some());
        // Both directions share one cache.
        let rev = gz.expanded_parents_cached(&mut cache, i);
        assert_eq!(rev, gz.expanded_parents(i));
    }
    assert_eq!(g.get_cache_index(), 0);
    assert_eq!(gz.get_cache_index(), 1);
}
