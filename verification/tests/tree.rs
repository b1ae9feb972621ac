use merlion_render::svg::tree::{common_cluster, draw_order, effective_parents, Item};

#[test]
fn cycles_and_bad_indices_become_roots() {
    // The declared parent of each subgraph.
    let declared = vec![Some(1), Some(0), Some(99), Some(3), None, Some(4)];
    assert_eq!(
        effective_parents(&declared),
        vec![None, None, None, None, None, Some(4)]
    );
}

#[test]
fn common_cluster_is_innermost_shared() {
    let parents = vec![None, Some(0), Some(0), Some(1)];
    assert_eq!(common_cluster(&parents, Some(3), Some(2)), Some(0));
    assert_eq!(common_cluster(&parents, Some(3), Some(1)), Some(1));
    assert_eq!(common_cluster(&parents, Some(3), None), None);
    assert_eq!(common_cluster(&parents, Some(3), Some(3)), Some(3));
}

#[test]
fn order_is_clusters_then_edges_then_nodes() {
    // Cluster 0 holds cluster 1; node 0 in 1, node 1 in 0, node 2 at root.
    let parents = vec![None, Some(0)];
    let order = draw_order(&parents, &[Some(1), Some(0), None], &[Some(0), None]);
    assert_eq!(
        order,
        vec![
            Item::Open(0),
            Item::Open(1),
            Item::Node(0),
            Item::Close(1),
            Item::Edge(0),
            Item::Node(1),
            Item::Close(0),
            Item::Edge(1),
            Item::Node(2),
        ]
    );
}

#[test]
fn deep_nesting_does_not_recurse() {
    let parents: Vec<Option<usize>> = (0..10_000)
        .map(|i| if i == 0 { None } else { Some(i - 1) })
        .collect();
    let order = draw_order(&parents, &[Some(9_999)], &[]);
    assert_eq!(order.len(), 20_001);
}

#[test]
fn a_long_chain_keeps_every_link() {
    let declared: Vec<Option<usize>> = (0..50)
        .map(|i| if i == 0 { None } else { Some(i - 1) })
        .collect();
    assert_eq!(effective_parents(&declared), declared);
}

#[test]
fn a_chain_into_a_cycle_is_cut_at_the_start() {
    // 2 -> 0 -> 1 -> 0: every link leads into the cycle.
    let declared = vec![Some(1), Some(0), Some(0), Some(2)];
    assert_eq!(effective_parents(&declared), vec![None, None, None, None]);
}

#[test]
fn out_of_range_homes_draw_at_the_root() {
    let order = draw_order(&[None], &[Some(7)], &[Some(0)]);
    assert_eq!(
        order,
        vec![Item::Open(0), Item::Edge(0), Item::Close(0), Item::Node(0)]
    );
}

#[test]
fn ancestry_walk_stops_after_every_cluster() {
    // A cycle in raw parents: the walk still ends.
    let parents = vec![Some(1), Some(0)];
    assert_eq!(common_cluster(&parents, Some(0), Some(1)), Some(0));
    assert_eq!(common_cluster(&parents, Some(5), Some(1)), None);
}

#[test]
fn every_item_once_and_clusters_enclose_their_contents() {
    // Clusters 2 > 0 > 1, cluster 3 top-level; homes spread over all levels, one out of range.
    let parents = vec![Some(2), Some(0), None, None];
    let nodes = [Some(1), Some(3), None, Some(0), Some(7)];
    let edges = [Some(2), Some(1), None];
    let order = draw_order(&parents, &nodes, &edges);
    assert_eq!(order.len(), 2 * parents.len() + edges.len() + nodes.len());
    let pos = |it: Item| {
        let found: Vec<usize> = (0..order.len()).filter(|&i| order[i] == it).collect();
        assert_eq!(found.len(), 1);
        found[0]
    };
    for c in 0..parents.len() {
        assert!(pos(Item::Open(c)) < pos(Item::Close(c)));
        if let Some(h) = parents[c] {
            assert!(pos(Item::Open(h)) < pos(Item::Open(c)));
            assert!(pos(Item::Close(c)) < pos(Item::Close(h)));
        }
    }
    for (v, home) in nodes.iter().enumerate() {
        let at = pos(Item::Node(v));
        if let Some(h) = *home {
            if h < parents.len() {
                assert!(pos(Item::Open(h)) < at && at < pos(Item::Close(h)));
            }
        }
    }
    for (e, home) in edges.iter().enumerate() {
        let at = pos(Item::Edge(e));
        if let Some(h) = *home {
            assert!(pos(Item::Open(h)) < at && at < pos(Item::Close(h)));
        }
    }
}
