use world::{ParticleRef, World};

#[test]
fn new_world_is_empty() {
    let world = World::new(20, 10);
    assert_eq!(world.height, 20);
    assert_eq!(world.width, 10);
    assert_eq!(world.grid.len(), 20);
    for y in 0..20 {
        assert_eq!(world.grid[y].len(), 10);
        for x in 0..10 {
            assert_eq!(world.give_occupation_on_position(x, y), None);
            assert_eq!(world.give_pressure_on_position(x, y), 0);
            assert_eq!(world.grid[y][x].1, 0);
        }
    }
}

#[test]
fn positions_address_cells_by_cutting_off_the_fraction() {
    let mut world = World::new(4, 4);
    world.update_mass_on_position([2_999, 1_001], 700);
    assert_eq!(world.grid[1][2].1, 700);
    world.update_occupation_on_position([2_000, 1_999], ParticleRef::Free(3));
    assert_eq!(world.give_occupation_on_position(2, 1), Some(ParticleRef::Free(3)));
    assert_eq!(world.locate([3_999, 0]), Some((3, 0)));
    assert_eq!(world.locate([4_000, 0]), None);
    assert_eq!(world.locate([-999, 999]), Some((0, 0)));
    assert_eq!(world.locate([-1_000, 0]), None);
}

#[test]
fn writes_off_the_grid_are_ignored() {
    let mut world = World::new(3, 3);
    world.update_mass_on_position([3_000, 0], 5);
    world.update_mass_on_position([0, 3_000], 5);
    world.update_mass_on_position([-5_000, 1_000], 5);
    world.update_occupation_on_position([1_000, 9_000], ParticleRef::Static);
    world.clear_mass_on_position([7_000, 7_000]);
    world.clear_occupation_on_position([-1_000, -1_000]);
    for y in 0..3 {
        for x in 0..3 {
            assert_eq!(world.grid[y][x], (None, 0, 0));
        }
    }
}

#[test]
fn clearing_a_cell_empties_it() {
    let mut world = World::new(3, 3);
    world.update_occupation_on_position([1_000, 2_000], ParticleRef::Static);
    world.update_mass_on_position([1_000, 2_000], 1_000_000);
    assert_eq!(world.grid[2][1], (Some(ParticleRef::Static), 1_000_000, 0));
    world.clear_occupation_on_position([1_500, 2_500]);
    assert_eq!(world.grid[2][1], (None, 1_000_000, 0));
    world.clear_mass_on_position([1_500, 2_500]);
    assert_eq!(world.grid[2][1], (None, 0, 0));
}

#[test]
fn relocate_clears_before_it_writes() {
    let mut world = World::new(3, 3);
    world.occupy([0, 0], ParticleRef::Free(0), 1_500);
    world.relocate([0, 0], [1_000, 0], ParticleRef::Free(0), 1_500);
    assert_eq!(world.grid[0][0], (None, 0, 0));
    assert_eq!(world.grid[0][1], (Some(ParticleRef::Free(0)), 1_500, 0));
    world.relocate([1_000, 0], [1_400, 300], ParticleRef::Free(0), 1_500);
    assert_eq!(world.grid[0][1], (Some(ParticleRef::Free(0)), 1_500, 0));
    world.relocate([1_400, 300], [9_000, 0], ParticleRef::Free(0), 1_500);
    assert_eq!(world.grid[0][1], (None, 0, 0));
}

#[test]
fn pressure_is_the_mass_at_and_above_a_cell() {
    let mut world = World::new(4, 2);
    world.update_mass_on_position([0, 0], 1_500);
    world.update_mass_on_position([0, 1_000], 2_500);
    world.update_mass_on_position([0, 3_000], 600);
    world.update_mass_on_position([1_000, 2_000], 8_000);
    world.calc_pressure_on_all_position();
    assert_eq!(world.give_pressure_on_position(0, 3), 600);
    assert_eq!(world.give_pressure_on_position(0, 2), 600);
    assert_eq!(world.give_pressure_on_position(0, 1), 3_100);
    assert_eq!(world.give_pressure_on_position(0, 0), 4_600);
    assert_eq!(world.give_pressure_on_position(1, 3), 0);
    assert_eq!(world.give_pressure_on_position(1, 2), 8_000);
    assert_eq!(world.give_pressure_on_position(1, 1), 8_000);
    assert_eq!(world.give_pressure_on_position(1, 0), 8_000);
}

#[test]
fn pressure_never_decreases_from_top_to_bottom() {
    let mut world = World::new(6, 5);
    let mut seed: u64 = 12_345;
    for y in 0..6 {
        for x in 0..5 {
            seed = seed.wrapping_mul(6_364_136_223_846_793_005).wrapping_add(1_442_695_040_888_963_407);
            world.update_mass_on_position([x * 1_000, y * 1_000], seed >> 40);
        }
    }
    world.calc_pressure_on_all_position();
    for x in 0..5 {
        for y in 1..6 {
            assert!(world.give_pressure_on_position(x, y - 1) >= world.give_pressure_on_position(x, y));
        }
    }
}

#[test]
fn pressure_of_the_heaviest_cells_does_not_overflow() {
    let mut world = World::new(3, 1);
    for y in 0..3 {
        world.update_mass_on_position([0, y * 1_000], u64::MAX);
    }
    world.calc_pressure_on_all_position();
    assert_eq!(world.give_pressure_on_position(0, 0), 3 * (u64::MAX as u128));
}

#[test]
fn pressure_is_recomputed_not_accumulated() {
    let mut world = World::new(2, 1);
    world.update_mass_on_position([0, 1_000], 1_000);
    world.calc_pressure_on_all_position();
    world.calc_pressure_on_all_position();
    assert_eq!(world.give_pressure_on_position(0, 0), 1_000);
    world.clear_mass_on_position([0, 1_000]);
    assert_eq!(world.give_pressure_on_position(0, 0), 1_000);
    world.calc_pressure_on_all_position();
    assert_eq!(world.give_pressure_on_position(0, 0), 0);
}

#[test]
fn stacked_sand_presses_hardest_on_the_lowest_cell() {
    let mut world = World::new(20, 10);
    for y in 0..3 {
        world.occupy([5_000, y * 1_000], ParticleRef::Free(y as usize), 1_500);
    }
    world.calc_pressure_on_all_position();
    assert_eq!(world.give_pressure_on_position(5, 2), 1_500);
    assert_eq!(world.give_pressure_on_position(5, 1), 3_000);
    assert_eq!(world.give_pressure_on_position(5, 0), 4_500);
}
