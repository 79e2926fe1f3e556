use sailwind_online::world::{cells_in_radius, AoiUpdate, Cell, Subscription, World, AOI_RADIUS_CELLS};
use std::collections::HashSet;

#[test]
fn radius_block_is_square() {
    let cells = cells_in_radius(Cell::new(0, 0), 2);
    assert_eq!(cells.len(), 25);
    let set: HashSet<Cell> = cells.into_iter().collect();
    assert_eq!(set.len(), 25);
    assert!(set.contains(&Cell::new(-2, -2)));
    assert!(set.contains(&Cell::new(2, 2)));
    assert!(!set.contains(&Cell::new(3, 0)));
}

#[test]
fn first_recenter_from_none_adds_full_block() {
    let mut sub = Subscription::new(AOI_RADIUS_CELLS);
    assert_eq!(sub.center(), None);
    let first = sub.recenter(Cell::new(0, 0));
    assert!(!first.is_empty());
    assert_eq!(first.added.len(), 25);
    assert!(first.removed.is_empty());
    let added: HashSet<Cell> = first.added.into_iter().collect();
    assert_eq!(
        added,
        cells_in_radius(Cell::new(0, 0), AOI_RADIUS_CELLS)
            .into_iter()
            .collect::<HashSet<Cell>>()
    );
    assert!(added.contains(&Cell::new(0, 0)));
}

#[test]
fn subscription_diffs_on_crossing_only() {
    let mut sub = Subscription::new(2);
    let first = sub.recenter(Cell::new(0, 0));
    assert_eq!(first.added.len(), 25);
    assert!(first.removed.is_empty());

    assert!(sub.recenter(Cell::new(0, 0)).is_empty());

    let step = sub.recenter(Cell::new(1, 0));
    assert_eq!(step.added.len(), 5);
    assert_eq!(step.removed.len(), 5);
    for c in &step.added {
        assert_eq!(c.cx, 3);
    }
    for c in &step.removed {
        assert_eq!(c.cx, -2);
    }
    assert_eq!(sub.cells().len(), 25);
}

#[test]
fn index_moves_entity_between_cells() {
    // Positions (10, 10), (20, 20) and (2000, 10) on the default 1024 m grid
    // fall in cells (0, 0), (0, 0) and (1, 0).
    let mut w = World::new();
    assert!(w.place_in_cell(1, Cell::new(0, 0)));
    assert_eq!(w.cell_of_entity(1), Some(Cell::new(0, 0)));
    assert!(!w.place_in_cell(1, Cell::new(0, 0)));
    assert!(w.place_in_cell(1, Cell::new(1, 0)));
    assert_eq!(w.entities_in(Cell::new(0, 0)), Vec::<u64>::new());
    assert_eq!(w.entities_in(Cell::new(1, 0)), vec![1]);
    w.remove(1);
    assert!(w.is_empty());
    assert!(w.entities_in(Cell::new(1, 0)).is_empty());
}

#[test]
fn moving_entity_stays_in_every_in_range_subscribers_view() {
    let mut world = World::new();
    let mover: u64 = 999;
    let subscriber_cells = [
        Cell::new(-3, -3),
        Cell::new(0, 0),
        Cell::new(2, 1),
        Cell::new(5, -2),
        Cell::new(7, 4),
    ];
    let subs: Vec<Subscription> = subscriber_cells
        .iter()
        .map(|&c| {
            let mut s = Subscription::new(AOI_RADIUS_CELLS);
            s.recenter(c);
            s
        })
        .collect();

    for cx in -4..=8 {
        for cz in -4..=5 {
            world.place_in_cell(mover, Cell::new(cx, cz));
            let mover_cell = world.cell_of_entity(mover).unwrap();
            for (i, sub) in subs.iter().enumerate() {
                let center = subscriber_cells[i];
                let expected: HashSet<Cell> = cells_in_radius(center, AOI_RADIUS_CELLS)
                    .into_iter()
                    .collect();
                let have: HashSet<Cell> = sub.cells().iter().copied().collect();
                assert_eq!(have, expected);
                let in_range = mover_cell.chebyshev_distance(center) <= AOI_RADIUS_CELLS;
                assert_eq!(sub.contains(mover_cell), in_range);
                let visible = world
                    .entities_in_radius(center, AOI_RADIUS_CELLS)
                    .contains(&mover);
                assert_eq!(visible, in_range);
            }
        }
    }
}

#[test]
fn block_is_row_major_from_the_low_corner() {
    let cells = cells_in_radius(Cell::new(10, -10), 1);
    assert_eq!(
        cells,
        vec![
            Cell::new(9, -11),
            Cell::new(10, -11),
            Cell::new(11, -11),
            Cell::new(9, -10),
            Cell::new(10, -10),
            Cell::new(11, -10),
            Cell::new(9, -9),
            Cell::new(10, -9),
            Cell::new(11, -9),
        ]
    );
    assert_eq!(cells_in_radius(Cell::new(4, 4), 0), vec![Cell::new(4, 4)]);
}

#[test]
fn chebyshev_is_the_larger_axis_distance() {
    assert_eq!(Cell::new(0, 0).chebyshev_distance(Cell::new(3, -7)), 7);
    assert_eq!(Cell::new(-5, 2).chebyshev_distance(Cell::new(5, 2)), 10);
    assert_eq!(Cell::new(1, 1).chebyshev_distance(Cell::new(1, 1)), 0);
}

#[test]
fn diagonal_step_and_jump_report_exact_deltas() {
    let mut sub = Subscription::new(1);
    sub.recenter(Cell::new(0, 0));
    let diag = sub.recenter(Cell::new(1, 1));
    assert_eq!(diag.added.len(), 5);
    assert_eq!(diag.removed.len(), 5);
    let jump = sub.recenter(Cell::new(100, 100));
    assert_eq!(jump.added.len(), 9);
    assert_eq!(jump.removed.len(), 9);
    assert!(sub.contains(Cell::new(101, 99)));
    assert!(!sub.contains(Cell::new(1, 1)));
    assert!(!sub.contains(Cell::new(i32::MIN, i32::MAX)));
    assert_eq!(sub.center(), Some(Cell::new(100, 100)));
}

#[test]
fn empty_update_and_unplaced_subscription() {
    assert!(AoiUpdate::default().is_empty());
    let sub = Subscription::new(3);
    assert!(sub.cells().is_empty());
    assert!(!sub.contains(Cell::new(0, 0)));
}

#[test]
fn world_counts_and_radius_queries() {
    let mut w = World::new();
    w.place_in_cell(1, Cell::new(0, 0));
    w.place_in_cell(2, Cell::new(2, 2));
    w.place_in_cell(3, Cell::new(3, 0));
    assert_eq!(w.len(), 3);
    let mut near = w.entities_in_radius(Cell::new(0, 0), 2);
    near.sort();
    assert_eq!(near, vec![1, 2]);
    w.remove(7);
    assert_eq!(w.len(), 3);
    assert_eq!(w.cell_of_entity(7), None);
}
