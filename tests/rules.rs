use forest_sim::{Pos, SimConfig, Size, TreeDrawable, TreeSimulator, TreeType};

struct Surface {
    size: Size,
    draws: usize,
}

impl TreeDrawable for Surface {
    fn size(&self) -> &Size {
        &self.size
    }
    fn draw_tree(&mut self, _trees: &Vec<Vec<TreeType>>) {
        self.draws += 1;
    }
}

fn surface(width: u16, height: u16) -> Surface {
    Surface { size: Size { width, height }, draws: 0 }
}

fn rules(grow_interval: u8, increase_min: i8, increase_max: i8, fire_exist_time: i8, take_fire_ppm: u32) -> SimConfig {
    SimConfig { grow_interval, increase_min, increase_max, fire_exist_time, take_fire_ppm }
}

fn at(x: usize, y: usize) -> Pos {
    Pos { x, y }
}

fn spread_fires(sim: &mut TreeSimulator<Surface>) -> bool {
    let index = sim.search_all_positions();
    sim.update_fire_spread(index.get(TreeType::Fire))
}

fn grow_trees(sim: &mut TreeSimulator<Surface>) -> bool {
    let index = sim.search_all_positions();
    sim.update_increase_trees(index.get(TreeType::Tree))
}

fn adjacent(a: &Pos, b: &Pos) -> bool {
    (a.x == b.x && (a.y + 1 == b.y || b.y + 1 == a.y)) || (a.y == b.y && (a.x + 1 == b.x || b.x + 1 == a.x))
}

#[test]
fn standard_rules_start_empty() {
    let sim = TreeSimulator::default(surface(4, 3)).unwrap();
    assert_eq!(sim.config(), SimConfig::standard());
    assert_eq!(sim.config().grow_interval, 25);
    assert_eq!(sim.config().increase_min, 15);
    assert_eq!(sim.config().increase_max, 50);
    assert_eq!(sim.config().fire_exist_time, 1);
    assert_eq!(sim.config().take_fire_ppm, 10_000);
    assert_eq!(sim.search_positions(TreeType::Empty).len(), 12);
    assert_eq!(sim.get_timer(&at(3, 2)), -1);
}

#[test]
fn every_cell_holds_one_state_after_ticks() {
    let mut sim = TreeSimulator::new(surface(6, 5), rules(2, 1, 3, 2, 300_000)).unwrap();
    for _ in 0..40 {
        sim.update();
        let index = sim.search_all_positions();
        let total = index.get(TreeType::Empty).len() + index.get(TreeType::Tree).len() + index.get(TreeType::Fire).len();
        assert_eq!(total, 30);
        assert_eq!(sim.trees().len(), 5);
        for row in sim.trees() {
            assert_eq!(row.len(), 6);
        }
    }
}

#[test]
fn new_tree_timer_lies_in_range() {
    let mut sim = TreeSimulator::new(surface(5, 5), rules(10, 3, 7, 1, 0)).unwrap();
    for y in 0..5 {
        for x in 0..5 {
            sim.set_tree_type(&at(x, y), TreeType::Tree);
            let t = sim.get_timer(&at(x, y));
            assert!(3 <= t && t <= 7);
        }
    }
}

#[test]
fn grown_tree_timer_lies_in_range() {
    let mut sim = TreeSimulator::new(surface(5, 5), rules(100, 1, 6, 1, 0)).unwrap();
    sim.transition(&at(2, 2), TreeType::Tree, 1);
    assert!(grow_trees(&mut sim));
    let trees = sim.search_positions(TreeType::Tree);
    assert_eq!(trees.len(), 2);
    for p in trees {
        let t = sim.get_timer(&p);
        assert!(1 <= t && t <= 6);
    }
}

#[test]
fn fire_timer_counts_down_to_empty() {
    let mut sim = TreeSimulator::new(surface(3, 3), rules(100, 1, 1, 3, 0)).unwrap();
    sim.set_tree_type(&at(1, 1), TreeType::Fire);
    assert_eq!(sim.get_timer(&at(1, 1)), 3);
    let mut expected: i8 = 3;
    while expected > 0 {
        spread_fires(&mut sim);
        expected -= 1;
        assert_eq!(*sim.get_tree_type(&at(1, 1)), TreeType::Fire);
        assert_eq!(sim.get_timer(&at(1, 1)), expected);
    }
    assert!(spread_fires(&mut sim));
    assert_eq!(*sim.get_tree_type(&at(1, 1)), TreeType::Empty);
    assert_eq!(sim.get_timer(&at(1, 1)), -1);
}

#[test]
fn setting_the_current_state_keeps_the_timer() {
    let mut sim = TreeSimulator::new(surface(4, 4), rules(100, 5, 9, 3, 0)).unwrap();
    sim.transition(&at(1, 1), TreeType::Tree, 6);
    sim.set_tree_type(&at(1, 1), TreeType::Tree);
    assert_eq!(sim.get_timer(&at(1, 1)), 6);
    sim.transition(&at(1, 1), TreeType::Tree, 9);
    assert_eq!(sim.get_timer(&at(1, 1)), 6);

    sim.set_tree_type(&at(2, 2), TreeType::Fire);
    spread_fires(&mut sim);
    assert_eq!(sim.get_timer(&at(2, 2)), 2);
    sim.set_tree_type(&at(2, 2), TreeType::Fire);
    assert_eq!(sim.get_timer(&at(2, 2)), 2);

    sim.set_tree_type(&at(3, 3), TreeType::Empty);
    assert_eq!(sim.get_timer(&at(3, 3)), -1);
}

#[test]
fn transition_sets_the_entry_timer() {
    let mut sim = TreeSimulator::new(surface(3, 3), rules(100, 5, 9, 4, 0)).unwrap();
    sim.transition(&at(0, 0), TreeType::Tree, 8);
    assert_eq!(sim.get_timer(&at(0, 0)), 8);
    sim.transition(&at(0, 0), TreeType::Fire, 5);
    assert_eq!(*sim.get_tree_type(&at(0, 0)), TreeType::Fire);
    assert_eq!(sim.get_timer(&at(0, 0)), 4);
    sim.transition(&at(0, 0), TreeType::Empty, 5);
    assert_eq!(sim.get_timer(&at(0, 0)), -1);
}

#[test]
fn spreading_tree_grows_next_to_itself() {
    for _ in 0..20 {
        let mut sim = TreeSimulator::new(surface(7, 7), rules(100, 1, 1, 1, 0)).unwrap();
        let origin = at(3, 3);
        sim.set_tree_type(&origin, TreeType::Tree);
        assert!(grow_trees(&mut sim));
        let trees = sim.search_positions(TreeType::Tree);
        assert_eq!(trees.len(), 2);
        for p in &trees {
            assert!(*p == origin || adjacent(&origin, p));
        }
        assert_eq!(sim.get_timer(&origin), 1);
    }
}

#[test]
fn tree_without_room_keeps_counting() {
    let mut sim = TreeSimulator::new(surface(1, 1), rules(100, 2, 2, 1, 0)).unwrap();
    sim.set_tree_type(&at(0, 0), TreeType::Tree);
    assert!(!grow_trees(&mut sim));
    assert_eq!(sim.get_timer(&at(0, 0)), 1);
    assert!(!grow_trees(&mut sim));
    assert_eq!(*sim.get_tree_type(&at(0, 0)), TreeType::Tree);
    assert_eq!(sim.get_timer(&at(0, 0)), 2);
}

#[test]
fn fire_reaches_only_neighbors_of_fresh_fire() {
    let mut sim = TreeSimulator::new(surface(5, 5), rules(100, 50, 50, 2, 0)).unwrap();
    for y in 0..5 {
        for x in 0..5 {
            sim.set_tree_type(&at(x, y), TreeType::Tree);
        }
    }
    sim.set_tree_type(&at(2, 2), TreeType::Fire);
    assert!(spread_fires(&mut sim));
    let fires = sim.search_positions(TreeType::Fire);
    assert_eq!(fires, vec![at(2, 1), at(1, 2), at(2, 2), at(3, 2), at(2, 3)]);
    assert_eq!(sim.get_timer(&at(2, 2)), 1);
    assert_eq!(sim.get_timer(&at(2, 1)), 2);
    // the old fire no longer ignites, the new ones do
    spread_fires(&mut sim);
    assert_eq!(sim.search_positions(TreeType::Fire).len(), 13);
    assert_eq!(sim.get_timer(&at(2, 2)), 0);
}

#[test]
fn fire_front_moves_one_ring_per_step() {
    let mut sim = TreeSimulator::new(surface(10, 1), rules(100, 50, 50, 1, 0)).unwrap();
    for x in 1..10 {
        sim.set_tree_type(&at(x, 0), TreeType::Tree);
    }
    sim.set_tree_type(&at(0, 0), TreeType::Fire);
    for step in 1..10 {
        spread_fires(&mut sim);
        assert_eq!(*sim.get_tree_type(&at(step, 0)), TreeType::Fire);
        assert_eq!(*sim.get_tree_type(&at(step - 1, 0)), TreeType::Fire);
        if step >= 2 {
            assert_eq!(*sim.get_tree_type(&at(step - 2, 0)), TreeType::Empty);
        }
        if step + 1 < 10 {
            assert_eq!(*sim.get_tree_type(&at(step + 1, 0)), TreeType::Tree);
        }
    }
}

#[test]
fn corner_fire_ignites_two_neighbors_without_wrapping() {
    let mut sim = TreeSimulator::new(surface(4, 4), rules(100, 50, 50, 1, 0)).unwrap();
    for y in 0..4 {
        for x in 0..4 {
            sim.set_tree_type(&at(x, y), TreeType::Tree);
        }
    }
    sim.set_tree_type(&at(0, 0), TreeType::Fire);
    assert_eq!(sim.search_around_tree_pos(&at(0, 0)), vec![at(1, 0), at(0, 1)]);
    spread_fires(&mut sim);
    assert_eq!(sim.search_positions(TreeType::Fire), vec![at(0, 0), at(1, 0), at(0, 1)]);
    assert_eq!(*sim.get_tree_type(&at(3, 0)), TreeType::Tree);
    assert_eq!(*sim.get_tree_type(&at(0, 3)), TreeType::Tree);
}

#[test]
fn edge_cell_has_three_neighbors() {
    let mut sim = TreeSimulator::new(surface(4, 4), rules(100, 50, 50, 1, 0)).unwrap();
    for y in 0..4 {
        for x in 0..4 {
            sim.set_tree_type(&at(x, y), TreeType::Tree);
        }
    }
    assert_eq!(sim.search_around_tree_pos(&at(2, 0)), vec![at(3, 0), at(2, 1), at(1, 0)]);
    assert_eq!(sim.search_around_tree_pos(&at(3, 2)), vec![at(3, 1), at(3, 3), at(2, 2)]);
    assert_eq!(sim.search_around_tree_pos(&at(1, 1)), vec![at(1, 0), at(2, 1), at(1, 2), at(0, 1)]);
    assert_eq!(sim.neighbor(&at(3, 3), 1), None);
    assert_eq!(sim.neighbor(&at(3, 3), 2), None);
    assert_eq!(sim.neighbor(&at(0, 0), 0), None);
    assert_eq!(sim.neighbor(&at(0, 0), 3), None);
    assert_eq!(sim.neighbor(&at(0, 0), 1), Some(at(1, 0)));
}

#[test]
fn first_neighbor_follows_the_start_direction() {
    let mut sim = TreeSimulator::new(surface(3, 3), rules(100, 50, 50, 1, 0)).unwrap();
    let centre = at(1, 1);
    assert_eq!(sim.first_neighbor_with_state(&centre, TreeType::Empty, 0), Some(at(1, 0)));
    assert_eq!(sim.first_neighbor_with_state(&centre, TreeType::Empty, 1), Some(at(2, 1)));
    assert_eq!(sim.first_neighbor_with_state(&centre, TreeType::Empty, 2), Some(at(1, 2)));
    assert_eq!(sim.first_neighbor_with_state(&centre, TreeType::Empty, 3), Some(at(0, 1)));
    assert_eq!(sim.first_neighbor_with_state(&centre, TreeType::Empty, 7), Some(at(0, 1)));
    sim.set_tree_type(&at(0, 1), TreeType::Tree);
    assert_eq!(sim.first_neighbor_with_state(&centre, TreeType::Empty, 3), Some(at(1, 0)));
    assert_eq!(sim.first_neighbor_with_state(&centre, TreeType::Tree, 0), Some(at(0, 1)));
    assert_eq!(sim.first_neighbor_with_state(&centre, TreeType::Fire, 2), None);
    assert_eq!(sim.first_neighbor_with_state(&at(0, 0), TreeType::Empty, 0), Some(at(1, 0)));
}

#[test]
fn empty_neighbor_search_finds_the_only_one() {
    let mut sim = TreeSimulator::new(surface(3, 3), rules(100, 50, 50, 1, 0)).unwrap();
    sim.set_tree_type(&at(1, 0), TreeType::Tree);
    sim.set_tree_type(&at(0, 1), TreeType::Fire);
    sim.set_tree_type(&at(1, 2), TreeType::Tree);
    for _ in 0..20 {
        assert_eq!(sim.search_around_none_pos(1, 1), Some(at(2, 1)));
    }
    sim.set_tree_type(&at(2, 1), TreeType::Tree);
    assert_eq!(sim.search_around_none_pos(1, 1), None);
}

#[test]
fn scan_lists_positions_in_row_major_order() {
    let mut sim = TreeSimulator::new(surface(3, 2), rules(100, 50, 50, 1, 0)).unwrap();
    sim.set_tree_type(&at(2, 1), TreeType::Tree);
    sim.set_tree_type(&at(0, 1), TreeType::Tree);
    sim.set_tree_type(&at(1, 0), TreeType::Fire);
    assert_eq!(sim.search_positions(TreeType::Tree), vec![at(0, 1), at(2, 1)]);
    let index = sim.search_all_positions();
    assert_eq!(*index.get(TreeType::Empty), vec![at(0, 0), at(2, 0), at(1, 1)]);
    assert_eq!(*index.get(TreeType::Tree), vec![at(0, 1), at(2, 1)]);
    assert_eq!(*index.get(TreeType::Fire), vec![at(1, 0)]);
}

#[test]
fn spawn_waits_for_the_growth_clock() {
    let mut sim = TreeSimulator::new(surface(4, 4), rules(3, 100, 100, 1, 0)).unwrap();
    assert!(!sim.update());
    assert!(!sim.update());
    assert!(sim.update());
    assert_eq!(sim.search_positions(TreeType::Tree).len(), 1);
    assert!(!sim.update());
    assert!(!sim.update());
    assert!(sim.update());
    assert_eq!(sim.search_positions(TreeType::Tree).len(), 2);
}

#[test]
fn spawn_on_a_full_grid_changes_nothing() {
    let mut sim = TreeSimulator::new(surface(2, 2), rules(1, 100, 100, 1, 0)).unwrap();
    for y in 0..2 {
        for x in 0..2 {
            sim.set_tree_type(&at(x, y), TreeType::Tree);
        }
    }
    assert!(!sim.update());
    assert_eq!(sim.search_positions(TreeType::Tree).len(), 4);
}

#[test]
fn certain_ignition_sets_a_tree_on_fire() {
    let mut sim = TreeSimulator::new(surface(3, 3), rules(100, 100, 100, 1, 1_000_000)).unwrap();
    sim.set_tree_type(&at(2, 2), TreeType::Tree);
    assert!(sim.update());
    assert_eq!(*sim.get_tree_type(&at(2, 2)), TreeType::Fire);
    assert_eq!(sim.get_timer(&at(2, 2)), 1);
}

#[test]
fn zero_chance_never_ignites() {
    let mut sim = TreeSimulator::new(surface(3, 3), rules(100, 100, 100, 1, 0)).unwrap();
    sim.set_tree_type(&at(1, 1), TreeType::Tree);
    for _ in 0..50 {
        assert!(!sim.update());
    }
    assert_eq!(sim.search_positions(TreeType::Fire).len(), 0);
}

#[test]
fn update_draws_only_on_change() {
    let mut sim = TreeSimulator::new(surface(3, 3), rules(2, 100, 100, 1, 0)).unwrap();
    sim.update();
    assert_eq!(sim.drawable_ref().draws, 0);
    sim.update();
    assert_eq!(sim.drawable_ref().draws, 1);
}

#[test]
fn zero_size_surface_is_refused() {
    assert!(TreeSimulator::new(surface(0, 0), rules(1, 1, 1, 1, 0)).is_none());
    assert!(TreeSimulator::new(surface(0, 3), rules(1, 1, 1, 1, 0)).is_none());
    assert!(TreeSimulator::new(surface(4, 0), rules(1, 1, 1, 1, 0)).is_none());
    assert!(TreeSimulator::default(surface(0, 7)).is_none());
    assert!(TreeSimulator::with_dimensions(surface(9, 9), 0, 2, rules(1, 1, 1, 1, 0)).is_none());
    let sim = TreeSimulator::with_dimensions(surface(9, 9), 2, 3, rules(1, 1, 1, 1, 0)).unwrap();
    assert_eq!(sim.trees().len(), 3);
    assert_eq!(sim.trees()[0].len(), 2);
}

#[test]
fn scan_lists_cover_the_grid() {
    let mut sim = TreeSimulator::new(surface(7, 4), rules(1, 1, 2, 1, 200_000)).unwrap();
    for _ in 0..15 {
        sim.update();
        let index = sim.search_all_positions();
        assert_eq!(index.get(TreeType::Empty).len() + index.get(TreeType::Tree).len() + index.get(TreeType::Fire).len(), 28);
    }
}

#[test]
fn ignition_follows_the_draw() {
    let mut sim = TreeSimulator::new(surface(3, 3), rules(100, 100, 100, 2, 10_000)).unwrap();
    sim.set_tree_type(&at(0, 1), TreeType::Tree);
    sim.set_tree_type(&at(2, 2), TreeType::Tree);
    let trees = sim.search_positions(TreeType::Tree);
    assert!(!sim.ignite_by_draw(&trees, 10_000, 1));
    assert_eq!(sim.search_positions(TreeType::Fire).len(), 0);
    assert!(sim.ignite_by_draw(&trees, 9_999, 1));
    assert_eq!(*sim.get_tree_type(&at(2, 2)), TreeType::Fire);
    assert_eq!(sim.get_timer(&at(2, 2)), 2);
    assert_eq!(*sim.get_tree_type(&at(0, 1)), TreeType::Tree);
    assert!(!sim.ignite_by_draw(&Vec::new(), 0, 0));
}

#[test]
fn spawn_follows_the_draw() {
    let mut sim = TreeSimulator::new(surface(3, 2), rules(2, 3, 9, 1, 0)).unwrap();
    let empty = sim.search_positions(TreeType::Empty);
    assert!(!sim.grow_tree_by_draw(&empty, 4, 5));
    assert_eq!(sim.search_positions(TreeType::Tree).len(), 0);
    assert!(sim.grow_tree_by_draw(&empty, 4, 5));
    assert_eq!(sim.search_positions(TreeType::Tree), vec![at(1, 1)]);
    assert_eq!(sim.get_timer(&at(1, 1)), 5);
    // the clock is wound up again
    assert!(!sim.grow_tree_by_draw(&empty, 0, 5));
    assert!(!sim.grow_tree_by_draw(&Vec::new(), 0, 5));
    assert_eq!(sim.search_positions(TreeType::Tree).len(), 1);
}

#[test]
fn ripe_tree_grows_on_first_empty_neighbor() {
    let mut sim = TreeSimulator::new(surface(3, 3), rules(100, 1, 9, 1, 0)).unwrap();
    sim.transition(&at(1, 1), TreeType::Tree, 1);
    sim.set_tree_type(&at(2, 1), TreeType::Fire);
    // from the right: the fire is skipped, the cell below is taken
    assert!(sim.spread_ripe_tree(&at(1, 1), 1, 7, 4));
    assert_eq!(sim.get_timer(&at(1, 1)), 7);
    assert_eq!(sim.search_positions(TreeType::Tree), vec![at(1, 1), at(1, 2)]);
    assert_eq!(sim.get_timer(&at(1, 2)), 4);
    // from above, offset taken modulo four
    assert!(sim.spread_ripe_tree(&at(1, 1), 4, 3, 6));
    assert_eq!(*sim.get_tree_type(&at(1, 0)), TreeType::Tree);
    assert_eq!(sim.get_timer(&at(1, 1)), 3);
}

#[test]
fn ripe_tree_without_room_only_resets() {
    let mut sim = TreeSimulator::new(surface(1, 1), rules(100, 1, 9, 1, 0)).unwrap();
    sim.transition(&at(0, 0), TreeType::Tree, 1);
    assert!(!sim.spread_ripe_tree(&at(0, 0), 2, 8, 8));
    assert_eq!(sim.get_timer(&at(0, 0)), 8);
}

#[test]
fn ripe_tree_grows_exactly_one() {
    for _ in 0..30 {
        let mut sim = TreeSimulator::new(surface(5, 5), rules(100, 1, 1, 1, 0)).unwrap();
        sim.set_tree_type(&at(2, 2), TreeType::Tree);
        grow_trees(&mut sim);
        assert_eq!(sim.search_positions(TreeType::Tree).len(), 2);
    }
}

#[test]
fn drawn_countdowns_cover_the_range() {
    let sim = TreeSimulator::new(surface(1, 1), rules(1, 1, 100, 1, 0)).unwrap();
    let mut seen_other = false;
    for _ in 0..200 {
        let t = sim.get_increase_interval();
        assert!(1 <= t && t <= 100);
        if t != 1 {
            seen_other = true;
        }
    }
    assert!(seen_other);
}
