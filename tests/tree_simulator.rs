use forest_sim::{Pos, SimConfig, Size, TreeDrawable, TreeSimulator, TreeType};

struct MockDrawable {
    size: Size,
}

impl TreeDrawable for MockDrawable {
    fn size(&self) -> &Size {
        &self.size
    }
    fn draw_tree(&mut self, _trees: &Vec<Vec<TreeType>>) {}
}

impl MockDrawable {
    fn default(size: Size) -> Self {
        Self { size }
    }
}

const TREE_GROW_INTERVAL: u8 = 10;

fn test_config() -> SimConfig {
    SimConfig {
        grow_interval: TREE_GROW_INTERVAL,
        increase_min: 1,
        increase_max: 1,
        fire_exist_time: 1,
        take_fire_ppm: 0,
    }
}

// whether target lies on origin or next to it
fn is_exist_around(origin: &Pos, target: &Pos) -> bool {
    if origin.x == target.x && origin.y == target.y {
        return true;
    }
    if origin.y > 0 && origin.y - 1 == target.y && origin.x == target.x {
        return true;
    }
    if origin.y < usize::MAX && origin.y + 1 == target.y && origin.x == target.x {
        return true;
    }
    if origin.x > 0 && origin.x - 1 == target.x && origin.y == target.y {
        return true;
    }
    if origin.x < usize::MAX && origin.x + 1 == target.x && origin.y == target.y {
        return true;
    }
    false
}

#[test]
fn if_tree_size_eq_drawable_size() {
    let drawable = MockDrawable::default(Size { width: 3, height: 5 });
    let simulator = TreeSimulator::new(drawable, test_config()).unwrap();
    // width
    assert_eq!(simulator.trees()[0].len(), 3);
    // height
    assert_eq!(simulator.trees().len(), 5);
}

#[test]
fn if_update_few_time_then_one_tree_grow() {
    let drawable = MockDrawable::default(Size { width: 10, height: 10 });
    let mut sim = TreeSimulator::new(drawable, test_config()).unwrap();

    // first, there is no tree
    let trees = sim.search_positions(TreeType::Tree);
    assert_eq!(trees.len(), 0);

    // update few times
    for _num in 0..TREE_GROW_INTERVAL {
        sim.update();
    }

    // then one tree grown
    let trees = sim.search_positions(TreeType::Tree);
    assert_eq!(trees.len(), 1);
}

#[test]
fn if_update_few_times_then_grow_and_increase_trees() {
    let drawable = MockDrawable::default(Size { width: 10, height: 10 });
    let mut sim = TreeSimulator::new(drawable, test_config()).unwrap();

    // update few times
    for _num in 0..TREE_GROW_INTERVAL {
        sim.update();
    }

    // then one tree grown
    let trees = sim.search_positions(TreeType::Tree);
    assert_eq!(trees.len(), 1);
    // where the first tree grew
    let pos_origin = &trees[0];

    sim.update();

    let trees = sim.search_positions(TreeType::Tree);
    assert_eq!(trees.len(), 2);

    // the second tree grew next to the first one
    for pos in trees {
        assert_eq!(is_exist_around(pos_origin, &pos), true);
    }
}

#[test]
fn if_exist_fire_then_fire_spread() {
    let drawable = MockDrawable::default(Size { width: 10, height: 10 });
    let mut sim = TreeSimulator::new(drawable, test_config()).unwrap();
    sim.set_tree_type(&Pos { x: 3, y: 2 }, TreeType::Tree);
    sim.set_tree_type(&Pos { x: 3, y: 3 }, TreeType::Fire);
    sim.set_tree_type(&Pos { x: 3, y: 4 }, TreeType::Tree);
    sim.set_tree_type(&Pos { x: 3, y: 5 }, TreeType::Tree);
    sim.set_tree_type(&Pos { x: 3, y: 6 }, TreeType::Tree);

    sim.set_tree_type(&Pos { x: 2, y: 3 }, TreeType::Tree);
    sim.set_tree_type(&Pos { x: 4, y: 3 }, TreeType::Tree);
    sim.set_tree_type(&Pos { x: 5, y: 3 }, TreeType::Tree);

    let all_positions = sim.search_all_positions();
    let fire_positions = all_positions.get(TreeType::Fire);
    sim.update_fire_spread(fire_positions);

    assert_eq!(*sim.get_tree_type(&Pos { x: 3, y: 2 }), TreeType::Fire);
    assert_eq!(*sim.get_tree_type(&Pos { x: 3, y: 3 }), TreeType::Fire);
    assert_eq!(*sim.get_tree_type(&Pos { x: 3, y: 4 }), TreeType::Fire);
    assert_eq!(*sim.get_tree_type(&Pos { x: 3, y: 5 }), TreeType::Tree);
    assert_eq!(*sim.get_tree_type(&Pos { x: 3, y: 6 }), TreeType::Tree);

    assert_eq!(*sim.get_tree_type(&Pos { x: 2, y: 3 }), TreeType::Fire);
    assert_eq!(*sim.get_tree_type(&Pos { x: 4, y: 3 }), TreeType::Fire);
    assert_eq!(*sim.get_tree_type(&Pos { x: 5, y: 3 }), TreeType::Tree);

    let all_positions = sim.search_all_positions();
    let fire_positions = all_positions.get(TreeType::Fire);
    sim.update_fire_spread(fire_positions);

    assert_eq!(*sim.get_tree_type(&Pos { x: 3, y: 2 }), TreeType::Fire);
    assert_eq!(*sim.get_tree_type(&Pos { x: 3, y: 3 }), TreeType::Empty);
    assert_eq!(*sim.get_tree_type(&Pos { x: 3, y: 4 }), TreeType::Fire);
    assert_eq!(*sim.get_tree_type(&Pos { x: 3, y: 5 }), TreeType::Fire);
    assert_eq!(*sim.get_tree_type(&Pos { x: 3, y: 6 }), TreeType::Tree);

    assert_eq!(*sim.get_tree_type(&Pos { x: 2, y: 3 }), TreeType::Fire);
    assert_eq!(*sim.get_tree_type(&Pos { x: 4, y: 3 }), TreeType::Fire);
    assert_eq!(*sim.get_tree_type(&Pos { x: 5, y: 3 }), TreeType::Fire);

    let all_positions = sim.search_all_positions();
    let fire_positions = all_positions.get(TreeType::Fire);
    sim.update_fire_spread(fire_positions);

    assert_eq!(*sim.get_tree_type(&Pos { x: 3, y: 2 }), TreeType::Empty);
    assert_eq!(*sim.get_tree_type(&Pos { x: 3, y: 3 }), TreeType::Empty);
    assert_eq!(*sim.get_tree_type(&Pos { x: 3, y: 4 }), TreeType::Empty);
    assert_eq!(*sim.get_tree_type(&Pos { x: 3, y: 5 }), TreeType::Fire);
    assert_eq!(*sim.get_tree_type(&Pos { x: 3, y: 6 }), TreeType::Fire);

    assert_eq!(*sim.get_tree_type(&Pos { x: 2, y: 3 }), TreeType::Empty);
    assert_eq!(*sim.get_tree_type(&Pos { x: 4, y: 3 }), TreeType::Empty);
    assert_eq!(*sim.get_tree_type(&Pos { x: 5, y: 3 }), TreeType::Fire);
}
