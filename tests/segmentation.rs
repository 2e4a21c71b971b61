use tvid::gbis::pixel_grid::{Edge, Neighbor};
use tvid::gbis::{
    segment, segment_edges, segment_image, Component, EdgeList, Graph, PixelCoordinate, PixelGrid,
    SegmentError, WeightedEdge,
};

fn coord(x: u32, y: u32) -> PixelCoordinate {
    PixelCoordinate { x, y }
}

fn edge(source: usize, target: usize, weight: u64) -> WeightedEdge {
    WeightedEdge { source, target, weight }
}

/// Scale parameter for a threshold given as a fraction of the intensity range.
fn scale(k: f32) -> u64 {
    (k * 255.0).floor() as u64
}

#[test]
fn uniform_image_is_one_segment() {
    let grid = PixelGrid::new(2, 2, vec![100; 4]).unwrap();
    for k in [0.001f32, 0.5, 1.0, 300.0] {
        let segments = segment_image(&grid, scale(k));
        assert_eq!(segments, vec![vec![coord(0, 0), coord(1, 0), coord(0, 1), coord(1, 1)]]);
    }
}

#[test]
fn uniform_image_with_zero_scale_is_one_segment() {
    let grid = PixelGrid::new(2, 2, vec![100; 4]).unwrap();
    assert_eq!(segment_image(&grid, 0).len(), 1);
}

#[test]
fn high_contrast_small_scale_stays_apart() {
    let grid = PixelGrid::new(2, 1, vec![0, 255]).unwrap();
    let segments = segment_image(&grid, scale(0.01));
    assert_eq!(segments, vec![vec![coord(0, 0)], vec![coord(1, 0)]]);
}

#[test]
fn high_contrast_large_scale_merges() {
    let grid = PixelGrid::new(2, 1, vec![0, 255]).unwrap();
    let segments = segment_image(&grid, scale(1.0));
    assert_eq!(segments, vec![vec![coord(0, 0), coord(1, 0)]]);
}

#[test]
fn single_pixel_is_one_segment() {
    let grid = PixelGrid::new(1, 1, vec![42]).unwrap();
    assert_eq!(segment_image(&grid, scale(0.5)), vec![vec![coord(0, 0)]]);
    let seg = segment(&grid, 7).unwrap();
    assert_eq!(seg.node_components, vec![0]);
    assert_eq!(seg.components, vec![Component { int_diff: 0, node_count: 1 }]);
}

#[test]
fn empty_image_has_no_segments() {
    let grid = PixelGrid::new(0, 0, vec![]).unwrap();
    assert!(segment_image(&grid, 10).is_empty());
    let grid = PixelGrid::new(3, 0, vec![]).unwrap();
    assert!(segment_image(&grid, 10).is_empty());
}

#[test]
fn segments_partition_the_image() {
    let pixels: Vec<u8> = vec![
        0, 0, 200, 200, 10, //
        0, 5, 200, 190, 10, //
        90, 90, 90, 255, 255, //
        90, 80, 0, 255, 250,
    ];
    let grid = PixelGrid::new(5, 4, pixels).unwrap();
    for k in [0u64, 3, 20, 60, 200, 1000] {
        let segments = segment_image(&grid, k);
        let mut seen = vec![0u32; 20];
        for group in &segments {
            assert!(!group.is_empty());
            for c in group {
                assert!(c.x < 5 && c.y < 4);
                seen[(c.y * 5 + c.x) as usize] += 1;
            }
            let indices: Vec<u32> = group.iter().map(|c| c.y * 5 + c.x).collect();
            assert!(indices.windows(2).all(|w| w[0] < w[1]));
        }
        assert!(seen.iter().all(|&n| n == 1));
    }
}

#[test]
fn segmentation_is_deterministic() {
    let pixels: Vec<u8> = (0..36u32).map(|i| ((i * 37) % 256) as u8).collect();
    let grid = PixelGrid::new(6, 6, pixels).unwrap();
    let a = segment(&grid, 40).unwrap();
    let b = segment(&grid, 40).unwrap();
    assert_eq!(a.node_components, b.node_components);
    assert_eq!(a.components, b.components);
    assert_eq!(segment_image(&grid, 40), segment_image(&grid, 40));
}

#[test]
fn grid_edges_in_order() {
    let grid = PixelGrid::new(2, 2, vec![10, 20, 40, 5]).unwrap();
    assert_eq!(grid.node_bound(), 4);
    assert_eq!(
        grid.edge_references(),
        vec![
            edge(0, 1, 10),
            edge(0, 2, 30),
            edge(0, 3, 5),
            edge(1, 3, 15),
            edge(1, 2, 20),
            edge(2, 3, 35),
        ]
    );
}

#[test]
fn grid_edges_count() {
    let grid = PixelGrid::new(3, 2, vec![0; 6]).unwrap();
    // 2 rows of 2 right edges, 3 down edges, 2 down-right and 2 down-left.
    assert_eq!(grid.edge_references().len(), 4 + 3 + 2 + 2);
    let row = PixelGrid::new(4, 1, vec![0; 4]).unwrap();
    assert_eq!(row.edge_references().len(), 3);
}

#[test]
fn grid_shape_is_checked() {
    assert!(PixelGrid::new(2, 2, vec![0; 3]).is_none());
    assert!(PixelGrid::new(2, 2, vec![0; 5]).is_none());
    let grid = PixelGrid::new(3, 2, vec![0; 6]).unwrap();
    assert_eq!(grid.width(), 3);
    assert_eq!(grid.height(), 2);
    assert_eq!(grid.len(), 6);
}

#[test]
fn grid_index_round_trip() {
    let grid = PixelGrid::new(3, 2, vec![0; 6]).unwrap();
    assert_eq!(grid.to_index(coord(2, 1)), 5);
    assert_eq!(grid.to_index(coord(1, 0)), 1);
    assert_eq!(grid.from_index(4), coord(1, 1));
    for i in 0..6 {
        assert_eq!(grid.to_index(grid.from_index(i)), i);
    }
}

#[test]
fn neighbor_apply() {
    let c = coord(3, 5);
    assert_eq!(Neighbor::Right.apply(c), coord(4, 5));
    assert_eq!(Neighbor::Down.apply(c), coord(3, 6));
    assert_eq!(Neighbor::DownRight.apply(c), coord(4, 6));
    assert_eq!(Neighbor::DownLeft.apply(c), coord(2, 6));
    let e = Edge { base: c, neighbor: Neighbor::Down };
    assert_eq!(e.neighbor.apply(e.base), coord(3, 6));
}

#[test]
fn threshold_is_weight_within_scale_over_count() {
    // Singletons merge when w <= k.
    let seg = segment_edges(2, &vec![edge(0, 1, 3)], 3).unwrap();
    assert_eq!(seg.node_components, vec![0, 0]);
    assert_eq!(seg.components, vec![Component { int_diff: 3, node_count: 2 }]);
    let seg = segment_edges(2, &vec![edge(0, 1, 3)], 2).unwrap();
    assert_eq!(seg.node_components, vec![0, 1]);
    assert_eq!(
        seg.components,
        vec![Component { int_diff: 0, node_count: 1 }, Component { int_diff: 0, node_count: 1 }]
    );
}

#[test]
fn threshold_shrinks_with_component_size() {
    // {0,1} merge at weight 2 (k = 4): threshold of the pair is 2 + 4/2 = 4.
    // Edge (1,2) of weight 5 exceeds 4, so node 2 stays alone.
    let edges = vec![edge(1, 2, 5), edge(0, 1, 2)];
    let seg = segment_edges(3, &edges, 4).unwrap();
    assert_eq!(seg.node_components, vec![0, 0, 1]);
    assert_eq!(
        seg.components,
        vec![Component { int_diff: 2, node_count: 2 }, Component { int_diff: 0, node_count: 1 }]
    );
    // With k = 6 the pair's threshold is 2 + 3 = 5 and node 2 joins.
    let seg = segment_edges(3, &edges, 6).unwrap();
    assert_eq!(seg.node_components, vec![0, 0, 0]);
    assert_eq!(seg.components, vec![Component { int_diff: 5, node_count: 3 }]);
}

#[test]
fn fractional_threshold_is_exact() {
    // Three nodes joined at weight 0 have threshold 0 + 4/3; weight 1 passes, weight 2 does not.
    let base = vec![edge(0, 1, 0), edge(1, 2, 0)];
    let mut edges = base.clone();
    edges.push(edge(2, 3, 1));
    let seg = segment_edges(4, &edges, 4).unwrap();
    assert_eq!(seg.node_components, vec![0, 0, 0, 0]);
    let mut edges = base;
    edges.push(edge(2, 3, 2));
    let seg = segment_edges(4, &edges, 4).unwrap();
    assert_eq!(seg.node_components, vec![0, 0, 0, 1]);
}

#[test]
fn labels_follow_root_order() {
    let seg = segment_edges(4, &vec![edge(3, 2, 0)], 1).unwrap();
    assert_eq!(seg.node_components, vec![0, 1, 2, 2]);
    assert_eq!(seg.components.len(), 3);
    assert_eq!(seg.components[2], Component { int_diff: 0, node_count: 2 });
}

#[test]
fn equal_weights_keep_enumeration_order() {
    // Both edges have weight 3. Taken in the given order, (0,1) merges first
    // and the pair's threshold 3 + 3/2 still admits (1,2).
    let seg = segment_edges(3, &vec![edge(0, 1, 3), edge(1, 2, 3)], 3).unwrap();
    assert_eq!(seg.node_components, vec![0, 0, 0]);
    // A lighter edge listed later is still taken first.
    let seg = segment_edges(3, &vec![edge(1, 2, 9), edge(0, 1, 1)], 2).unwrap();
    assert_eq!(seg.node_components, vec![0, 0, 1]);
}

#[test]
fn edge_outside_the_graph_is_an_error() {
    assert_eq!(
        segment_edges(2, &vec![edge(0, 2, 1)], 1).err(),
        Some(SegmentError::NodeOutOfBounds)
    );
    assert_eq!(
        segment_edges(2, &vec![edge(0, 1, 0), edge(5, 1, 0)], 1).err(),
        Some(SegmentError::NodeOutOfBounds)
    );
    let graph = EdgeList { node_bound: 1, edges: vec![edge(0, 1, 0)] };
    assert_eq!(segment(&graph, 1).err(), Some(SegmentError::NodeOutOfBounds));
}

#[test]
fn edge_list_graph() {
    let graph = EdgeList { node_bound: 3, edges: vec![edge(0, 2, 1)] };
    let seg = segment(&graph, 1).unwrap();
    assert_eq!(seg.node_components, vec![0, 1, 0]);
    assert_eq!(
        seg.components,
        vec![Component { int_diff: 1, node_count: 2 }, Component { int_diff: 0, node_count: 1 }]
    );
}

#[test]
fn no_edges_gives_singletons() {
    let seg = segment_edges(3, &vec![], 100).unwrap();
    assert_eq!(seg.node_components, vec![0, 1, 2]);
    assert_eq!(seg.components.len(), 3);
    let seg = segment_edges(0, &vec![], 100).unwrap();
    assert!(seg.node_components.is_empty());
    assert!(seg.components.is_empty());
}

#[test]
fn larger_scale_can_split_what_smaller_joined() {
    // The merge order is greedy: with the larger scale, node 1 joins {0, 2, 3}
    // early, and the grown component then refuses the edge to node 4.
    let edges = vec![edge(3, 4, 6), edge(4, 1, 4), edge(1, 0, 2), edge(3, 2, 0), edge(2, 0, 0)];
    let fine = segment_edges(5, &edges, 4).unwrap();
    assert_eq!(fine.node_components, vec![0, 1, 0, 0, 1]);
    let coarse = segment_edges(5, &edges, 7).unwrap();
    assert_eq!(coarse.node_components, vec![0, 0, 0, 0, 1]);
}
