use wasm_particles::grid::Grid;

fn coords(g: &Grid, c: usize) -> (i64, i64, i64) {
    let (gx, gy, _) = g.dims();
    ((c % gx) as i64, ((c / gx) % gy) as i64, (c / (gx * gy)) as i64)
}

fn neighbours(g: &Grid, a: usize, b: usize) -> bool {
    let (ax, ay, az) = coords(g, a);
    let (bx, by, bz) = coords(g, b);
    (ax - bx).abs() <= 1 && (ay - by).abs() <= 1 && (az - bz).abs() <= 1
}

fn cell_of_slot(g: &Grid, k: usize) -> usize {
    (0..g.cells())
        .find(|&c| {
            let (lo, hi) = g.cell_range(c);
            lo <= k && k < hi
        })
        .unwrap()
}

#[test]
fn new_grid_clamps_dimensions_to_one() {
    let g = Grid::new(0, -3, 4, 10);
    assert_eq!(g.dims(), (1, 1, 4));
    assert_eq!(g.cells(), 4);
    assert_eq!(g.particles(), 10);
    for c in 0..g.cells() {
        assert_eq!(g.cell_range(c), (0, 0));
    }
}

#[test]
fn forward_lists_of_a_small_cube() {
    let g = Grid::new(2, 2, 2, 0);
    assert_eq!(g.forward_cells(0), vec![1, 2, 3, 4, 5, 6, 7]);
    assert_eq!(g.forward_cells(7), Vec::<usize>::new());
    // cell 3 = (1, 1, 0): forward neighbours are the whole z = 1 layer
    assert_eq!(g.forward_cells(3), vec![4, 5, 6, 7]);
    let g3 = Grid::new(3, 3, 3, 0);
    assert_eq!(g3.forward_cells(13), (14..27).collect::<Vec<usize>>());
}

#[test]
fn each_neighbouring_cell_pair_is_stored_once() {
    let g = Grid::new(3, 2, 4, 0);
    let cells = g.cells();
    for a in 0..cells {
        let fa = g.forward_cells(a);
        assert!(!fa.contains(&a));
        for w in fa.windows(2) {
            assert!(w[0] < w[1]);
        }
        for b in 0..cells {
            let fb = g.forward_cells(b);
            let stored = fa.contains(&b) as u32 + fb.contains(&a) as u32;
            if a != b && neighbours(&g, a, b) {
                assert_eq!(stored, 1, "cells {} and {}", a, b);
            } else {
                assert_eq!(stored, 0, "cells {} and {}", a, b);
            }
        }
    }
}

#[test]
fn cell_of_clamps_coordinates() {
    let g = Grid::new(4, 3, 2, 0);
    assert_eq!(g.cell_of(1, 2, 1), 1 + 2 * 4 + 12);
    assert_eq!(g.cell_of(-5, -1, -9), 0);
    assert_eq!(g.cell_of(100, 100, 100), 3 + 2 * 4 + 12);
    assert_eq!(g.cell_of(i32::MIN, 1, i32::MAX), 4 + 12);
}

#[test]
fn counting_sort_is_stable_by_cell() {
    let mut g = Grid::new(3, 1, 1, 5);
    g.sort_by_cell(&vec![2, 0, 2, 1, 0]);
    assert_eq!(g.cell_range(0), (0, 2));
    assert_eq!(g.cell_range(1), (2, 3));
    assert_eq!(g.cell_range(2), (3, 5));
    let items: Vec<usize> = (0..5).map(|k| g.item(k)).collect();
    assert_eq!(items, vec![1, 4, 3, 0, 2]);
}

#[test]
fn gather_moves_triples_into_slot_order() {
    let mut g = Grid::new(3, 1, 1, 3);
    g.sort_by_cell(&vec![2, 1, 0]);
    let src = vec![0.5f32, 1.5, 2.5, 10.0, 11.0, 12.0, -1.0, -2.0, -3.0];
    let mut dst = vec![0.0f32; 9];
    g.gather3(&src, &mut dst);
    assert_eq!(dst, vec![-1.0, -2.0, -3.0, 10.0, 11.0, 12.0, 0.5, 1.5, 2.5]);
}

#[test]
fn every_neighbour_particle_pair_is_visited_once() {
    let mut g = Grid::new(3, 3, 2, 40);
    let ids: Vec<usize> = (0..40).map(|i| (i * 7 + i / 3) % 18).collect();
    g.sort_by_cell(&ids);
    let n = g.particles();
    let mut seen = vec![vec![0u32; n]; n];
    let mut buf = Vec::new();
    for c in 0..g.cells() {
        g.cell_pairs(c, &mut buf);
        for &(a, b) in &buf {
            assert_eq!(cell_of_slot(&g, a), c);
            seen[a][b] += 1;
        }
    }
    for a in 0..n {
        for b in 0..n {
            let ca = cell_of_slot(&g, a);
            let cb = cell_of_slot(&g, b);
            let expected = if a != b && neighbours(&g, ca, cb) { 1 } else { 0 };
            assert_eq!(seen[a][b] + seen[b][a], expected, "slots {} and {}", a, b);
        }
    }
}

#[test]
fn pairs_of_an_empty_cell_are_empty() {
    let mut g = Grid::new(2, 1, 1, 2);
    g.sort_by_cell(&vec![1, 1]);
    let mut buf = vec![(9, 9)];
    g.cell_pairs(0, &mut buf);
    assert!(buf.is_empty());
    g.cell_pairs(1, &mut buf);
    assert_eq!(buf, vec![(0, 1)]);
}

#[test]
fn cell_pairs_come_in_visiting_order() {
    let mut g = Grid::new(2, 1, 1, 4);
    g.sort_by_cell(&vec![0, 1, 0, 1]);
    let mut buf = Vec::new();
    g.cell_pairs(0, &mut buf);
    // inside cell 0 (slots 0, 1), then with forward neighbour cell 1 (slots 2, 3)
    assert_eq!(buf, vec![(0, 1), (0, 2), (0, 3), (1, 2), (1, 3)]);
    g.cell_pairs(1, &mut buf);
    assert_eq!(buf, vec![(2, 3)]);
}
