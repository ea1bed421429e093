use grid2d::grid::Grid;
use grid2d::int_grid::IntGrid;

fn grid3() -> IntGrid {
    IntGrid { grid: vec![vec![1, 2, 3], vec![4, 5, 6], vec![7, 8, 9]] }
}

#[test]
fn dimensions() {
    let g = grid3();
    assert_eq!(g.get_width(), 3);
    assert_eq!(g.get_height(), 3);
    let tall = IntGrid { grid: vec![vec![1, 2], vec![3, 4], vec![5, 6]] };
    assert_eq!(tall.get_width(), 2);
    assert_eq!(tall.get_height(), 3);
}

#[test]
fn in_bounds_inside_and_outside() {
    let g = grid3();
    for y in 0..3 {
        for x in 0..3 {
            assert!(g.in_bounds(y, x));
        }
    }
    assert!(!g.in_bounds(0, 3));
    assert!(!g.in_bounds(3, 0));
    assert!(!g.in_bounds(3, 3));
    assert!(!g.in_bounds(9, 9));
}

#[test]
fn field_access() {
    let mut g = grid3();
    assert_eq!(g.get_field_ref(1, 1), Some(&5));
    assert_eq!(g.get_field_ref(2, 0), Some(&7));
    assert_eq!(g.get_field_ref(0, 3), None);
    assert_eq!(g.get_field_ref(3, 0), None);
    assert_eq!(g.get_field_box(0, 2), Some(Box::new(3)));
    assert_eq!(g.get_field_box(5, 5), None);
    g.set_field(1, 1, 50);
    assert_eq!(g.get_field_ref(1, 1), Some(&50));
    if let Some(f) = g.get_field_mut(0, 0) {
        *f = -1;
    } else {
        panic!("cell (0, 0) should resolve");
    }
    assert_eq!(g.get_field_ref(0, 0), Some(&-1));
    assert!(g.get_field_mut(7, 7).is_none());
}

#[test]
fn grid_copy_is_independent() {
    let mut g = grid3();
    let mut copy = g.get_grid();
    copy[0][0] = 99;
    assert_eq!(g.get_field_ref(0, 0), Some(&1));
    assert_eq!(g.get_grid_ref()[2][2], 9);
    g.get_grid_mut()[2][2] = 90;
    assert_eq!(g.get_field_ref(2, 2), Some(&90));
    g.set_grid(vec![vec![7]]);
    assert_eq!(g.get_height(), 1);
    assert_eq!(g.get_width(), 1);
    assert_eq!(g.get_field_ref(0, 0), Some(&7));
}

#[test]
fn neighbors_center_order() {
    let g = grid3();
    assert_eq!(
        g.neighbors_indices(1, 1),
        vec![(0, 0), (1, 0), (2, 0), (0, 1), (2, 1), (0, 2), (1, 2), (2, 2)]
    );
}

#[test]
fn neighbor_counts() {
    let g = grid3();
    assert_eq!(g.neighbors_indices(1, 1).len(), 8);
    assert_eq!(g.neighbors_indices(0, 1).len(), 5);
    let two = IntGrid { grid: vec![vec![1, 2], vec![3, 4]] };
    assert_eq!(two.neighbors_indices(0, 0).len(), 3);
    assert_eq!(two.neighbors_indices(1, 1).len(), 3);
    let one = IntGrid { grid: vec![vec![1]] };
    assert_eq!(one.neighbors_indices(0, 0).len(), 0);
}

#[test]
fn neighbors_ref_values() {
    let g = grid3();
    assert_eq!(g.neighbors_ref(1, 1), vec![&1, &4, &7, &2, &8, &3, &6, &9]);
    assert_eq!(g.neighbors_ref(0, 0), vec![&4, &2, &5]);
}

#[test]
fn diagonals_from_center() {
    let g = grid3();
    let d = g.diagonals_indices(1, 1);
    assert_eq!(d.len(), 4);
    assert_eq!(d[0], vec![(0, 0)]);
    assert_eq!(d[1], vec![(0, 2)]);
    assert_eq!(d[2], vec![(2, 0)]);
    assert_eq!(d[3], vec![(2, 2)]);
}

#[test]
fn diagonals_walk_to_the_edge() {
    let g = IntGrid { grid: vec![vec![0; 4], vec![0; 4], vec![0; 4], vec![0; 4]] };
    let d = g.diagonals_indices(1, 2);
    assert_eq!(d[0], vec![(0, 1)]);
    assert_eq!(d[1], vec![(0, 3)]);
    assert_eq!(d[2], vec![(2, 1), (3, 0)]);
    assert_eq!(d[3], vec![(2, 3)]);
    // no ray includes its origin or repeats a coordinate
    for ray in &d {
        for (i, c) in ray.iter().enumerate() {
            assert_ne!(*c, (1, 2));
            for c2 in &ray[i + 1..] {
                assert_ne!(c, c2);
            }
        }
    }
}

#[test]
fn diagonals_ref_values() {
    let g = grid3();
    let d = g.diagonals_ref(1, 1);
    assert_eq!(d, vec![vec![&1], vec![&3], vec![&7], vec![&9]]);
}

#[test]
fn straight_from_center() {
    let g = grid3();
    let s = g.straight_indices(1, 1);
    assert_eq!(s.len(), 4);
    assert_eq!(s[0], vec![(0, 1)]);
    assert_eq!(s[1], vec![(2, 1)]);
    assert_eq!(s[2], vec![(1, 0)]);
    assert_eq!(s[3], vec![(1, 2)]);
    assert_eq!(g.straight_ref(1, 1), vec![vec![&2], vec![&8], vec![&4], vec![&6]]);
}

#[test]
fn straight_orders_and_length_sum() {
    let g = IntGrid { grid: vec![vec![0; 4], vec![0; 4], vec![0; 4]] };
    let s = g.straight_indices(2, 1);
    assert_eq!(s[0], vec![(1, 1), (0, 1)]);
    assert_eq!(s[1], vec![]);
    assert_eq!(s[2], vec![(2, 0)]);
    assert_eq!(s[3], vec![(2, 2), (2, 3)]);
    // the four lengths add up to (height - 1) + (width - 1)
    for y in 0..3 {
        for x in 0..4 {
            let s = g.straight_indices(y, x);
            assert_eq!(s[0].len() + s[1].len() + s[2].len() + s[3].len(), 2 + 3);
        }
    }
}

#[test]
fn knight_moves_on_a_chessboard() {
    let g = IntGrid { grid: vec![vec![0; 8]; 8] };
    let moves = g.knight_like_indices(3, 3, (2, 1));
    assert_eq!(
        moves,
        vec![(4, 5), (4, 1), (2, 5), (2, 1), (5, 4), (5, 2), (1, 4), (1, 2)]
    );
    let corner = g.knight_like_indices(0, 0, (2, 1));
    assert_eq!(corner, vec![(1, 2), (2, 1)]);
    for y in 0..8 {
        for x in 0..8 {
            assert!(g.knight_like_indices(y, x, (2, 1)).len() <= 8);
        }
    }
}

#[test]
fn ragged_rows_fail_lookup_not_bounds() {
    // width is read from the first row, so a short later row passes the
    // bounds check but fails the per-row lookup
    let g = IntGrid { grid: vec![vec![1, 2], vec![3]] };
    assert!(g.in_bounds(1, 1));
    assert_eq!(g.get_field_ref(1, 1), None);
    assert_eq!(g.get_field_box(1, 1), None);
    assert_eq!(g.get_field_ref(1, 0), Some(&3));
}

#[test]
fn neighbors_of_a_far_away_origin_are_empty() {
    let g = grid3();
    assert_eq!(g.neighbors_indices(5, 5), vec![]);
    assert_eq!(g.neighbors_indices(0, 4), vec![]);
    // just past the edge, only the edge cells appear
    assert_eq!(g.neighbors_indices(3, 1), vec![(2, 0), (2, 1), (2, 2)]);
}

#[test]
fn knight_like_keeps_duplicates() {
    let g = grid3();
    let moves = g.knight_like_indices(1, 1, (1, 1));
    assert_eq!(
        moves,
        vec![(2, 2), (2, 0), (0, 2), (0, 0), (2, 2), (2, 0), (0, 2), (0, 0)]
    );
}
