use world::{MaterialTyp, Particle, ParticleRef, World};

fn put(world: &mut World, particle: &Particle) {
    world.occupy(particle.position, particle.particle_ref, particle.mass());
}

fn sand(idx: usize, x: i64, y: i64) -> Particle {
    Particle::new(idx as i32, [x * 1_000, y * 1_000], [0, 0], MaterialTyp::Sand, ParticleRef::Free(idx))
}

fn water(idx: usize, x: i64, y: i64) -> Particle {
    Particle::new(idx as i32, [x * 1_000, y * 1_000], [0, 0], MaterialTyp::Wasser, ParticleRef::Free(idx))
}

#[test]
fn particle_keeps_what_it_was_made_of() {
    let p = Particle::new(7, [1_500, 2_250], [-300, 40], MaterialTyp::Holz, ParticleRef::Free(4));
    assert_eq!(p.id, 7);
    assert_eq!(p.get_position(), [1_500, 2_250]);
    assert_eq!(p.get_velocity(), [-300, 40]);
    assert_eq!(p.material, MaterialTyp::Holz);
    assert_eq!(p.particle_ref, ParticleRef::Free(4));
    assert_eq!(p.mass(), 600);
}

#[test]
fn momentum_is_velocity_times_mass() {
    let p = Particle::new(1, [0, 0], [2_000, -500], MaterialTyp::Sand, ParticleRef::Free(0));
    assert_eq!(p.get_impuls(), [3_000, -750]);
    let q = Particle::new(1, [0, 0], [1, -1], MaterialTyp::Holz, ParticleRef::Free(0));
    assert_eq!(q.get_impuls(), [0, 0]);
    let r = Particle::new(1, [0, 0], [i64::MAX, i64::MIN], MaterialTyp::Metall, ParticleRef::Free(0));
    assert_eq!(r.get_impuls(), [8 * (i64::MAX as i128), 8 * (i64::MIN as i128)]);
}

#[test]
fn gravity_accumulates_in_free_fall() {
    let world = World::new(20, 10);
    let mut p = sand(0, 5, 10);
    p.update_velocity([0, -500], &world);
    assert_eq!(p.get_velocity(), [0, -500]);
    p.update_velocity([0, -500], &world);
    assert_eq!(p.get_velocity(), [0, -1_000]);
    assert_eq!(p.get_position(), [5_000, 10_000]);
}

#[test]
fn gravity_leaves_horizontal_velocity_alone() {
    let world = World::new(20, 10);
    let mut p = Particle::new(0, [5_000, 10_000], [250, 0], MaterialTyp::Sand, ParticleRef::Free(0));
    p.update_velocity([700, -500], &world);
    assert_eq!(p.get_velocity(), [250, -500]);
}

#[test]
fn velocity_snaps_to_zero_before_an_occupied_cell() {
    let mut world = World::new(20, 10);
    world.occupy([5_000, 8_000], ParticleRef::Static, 1_000_000);
    let mut p = Particle::new(0, [5_000, 10_000], [0, -1_500], MaterialTyp::Sand, ParticleRef::Free(0));
    p.update_velocity([0, -500], &world);
    assert_eq!(p.get_velocity(), [0, 0]);
}

#[test]
fn velocity_lands_the_particle_exactly_on_the_floor() {
    let world = World::new(20, 10);
    let mut p = Particle::new(0, [5_000, 1_250], [0, -1_000], MaterialTyp::Sand, ParticleRef::Free(0));
    p.update_velocity([0, -500], &world);
    assert_eq!(p.get_velocity(), [0, -1_250]);
    let mut world = world;
    p.update_position(&mut world);
    assert_eq!(p.get_position(), [5_000, 0]);
}

#[test]
fn moving_clears_the_old_cell_and_writes_the_new_one() {
    let mut world = World::new(20, 10);
    let mut p = Particle::new(0, [5_000, 10_000], [1_000, -2_000], MaterialTyp::Sand, ParticleRef::Free(0));
    put(&mut world, &p);
    p.update_position(&mut world);
    assert_eq!(p.get_position(), [6_000, 8_000]);
    assert_eq!(world.grid[10][5], (None, 0, 0));
    assert_eq!(world.grid[8][6], (Some(ParticleRef::Free(0)), 1_500, 0));
}

#[test]
fn moving_within_a_cell_keeps_the_cell() {
    let mut world = World::new(20, 10);
    let mut p = Particle::new(0, [5_000, 10_000], [300, 400], MaterialTyp::Sand, ParticleRef::Free(0));
    put(&mut world, &p);
    p.update_position(&mut world);
    assert_eq!(p.get_position(), [5_300, 10_400]);
    assert_eq!(world.grid[10][5], (Some(ParticleRef::Free(0)), 1_500, 0));
}

#[test]
fn moving_off_the_grid_only_clears() {
    let mut world = World::new(20, 10);
    let mut p = Particle::new(0, [9_000, 3_000], [1_000, 0], MaterialTyp::Sand, ParticleRef::Free(0));
    put(&mut world, &p);
    p.update_position(&mut world);
    assert_eq!(p.get_position(), [10_000, 3_000]);
    assert_eq!(world.grid[3][9], (None, 0, 0));
}

fn tick(p: &mut Particle, world: &mut World, gravity: [i64; 2]) {
    world.calc_pressure_on_all_position();
    p.update_velocity(gravity, world);
    p.update_position(world);
    p.resolve_pressure(world);
    p.fall_down(world);
}

#[test]
fn a_single_grain_falls_straight_to_the_floor() {
    let mut world = World::new(20, 10);
    let mut p = sand(0, 5, 10);
    put(&mut world, &p);
    for _ in 0..20 {
        tick(&mut p, &mut world, [0, -500]);
        assert_eq!(p.get_position()[0], 5_000);
        assert!(p.get_position()[1] >= 0);
    }
    assert_eq!(p.get_position(), [5_000, 0]);
    assert_eq!(p.get_velocity()[1], 0);
    assert_eq!(world.give_occupation_on_position(5, 0), Some(ParticleRef::Free(0)));
    assert_eq!(world.grid[0][5].1, 1_500);
    let mut occupied = 0;
    for y in 0..20 {
        for x in 0..10 {
            if world.give_occupation_on_position(x, y).is_some() {
                occupied += 1;
            }
        }
    }
    assert_eq!(occupied, 1);
}

#[test]
fn ways_are_listed_clockwise_from_up_right() {
    let mut world = World::new(3, 3);
    for y in 0..3 {
        for x in 0..3 {
            world.update_mass_on_position([x * 1_000, y * 1_000], (10 * y + x) as u64);
        }
    }
    world.calc_pressure_on_all_position();
    let p = sand(0, 1, 1);
    let ways = p.neighbour_ways(&world);
    let cells: Vec<(i64, i64)> = ways.iter().map(|w| (w.1, w.2)).collect();
    assert_eq!(cells, vec![(2, 2), (2, 1), (2, 0), (1, 0), (0, 0), (0, 1), (0, 2)]);
    assert_eq!(ways[0].0, 22);
    assert_eq!(ways[1].0, 12 + 22);
    assert_eq!(ways[3].0, 1 + 11 + 21);
}

#[test]
fn ways_that_leave_the_grid_are_skipped() {
    let world = World::new(3, 3);
    let corner = sand(0, 0, 0);
    let cells: Vec<(i64, i64)> = corner.neighbour_ways(&world).iter().map(|w| (w.1, w.2)).collect();
    assert_eq!(cells, vec![(1, 1), (1, 0)]);
    let top = sand(0, 2, 2);
    let cells: Vec<(i64, i64)> = top.neighbour_ways(&world).iter().map(|w| (w.1, w.2)).collect();
    assert_eq!(cells, vec![(2, 1), (1, 1), (1, 2)]);
}

#[test]
fn a_lone_cell_has_no_way_out() {
    let world = World::new(1, 1);
    let p = sand(0, 0, 0);
    assert!(p.neighbour_ways(&world).is_empty());
    assert!(p.lowest_pressure_ways(&world).is_empty());
    assert_eq!(p.check_way(&world), None);
}

#[test]
fn the_way_of_lowest_pressure_is_found() {
    let mut world = World::new(3, 3);
    for y in 0..3 {
        for x in 0..3 {
            world.update_mass_on_position([x * 1_000, y * 1_000], 100);
        }
    }
    world.update_mass_on_position([0, 2_000], 5);
    world.calc_pressure_on_all_position();
    let p = sand(0, 1, 1);
    assert_eq!(p.lowest_pressure_ways(&world), vec![(5, 0, 2)]);
    for _ in 0..20 {
        assert_eq!(p.check_way(&world), Some((5, 0, 2)));
    }
}

#[test]
fn among_equal_ways_one_of_them_is_picked() {
    let world = World::new(3, 3);
    let p = sand(0, 1, 1);
    let lowest = p.lowest_pressure_ways(&world);
    assert_eq!(lowest.len(), 7);
    for _ in 0..50 {
        let way = p.check_way(&world).unwrap();
        assert!(lowest.contains(&way));
        assert_eq!(way.0, 0);
    }
}

#[test]
fn pressure_at_most_the_own_mass_moves_nothing() {
    let mut world = World::new(20, 10);
    let mut p = sand(0, 5, 2);
    put(&mut world, &p);
    world.calc_pressure_on_all_position();
    p.resolve_pressure_along(&mut world, Some((0, 6, 2)));
    assert_eq!(p.get_position(), [5_000, 2_000]);
}

fn stack() -> (World, Vec<Particle>) {
    let mut world = World::new(20, 10);
    let particles: Vec<Particle> = (0..3).map(|i| sand(i, 5, i as i64)).collect();
    for p in &particles {
        put(&mut world, p);
    }
    world.calc_pressure_on_all_position();
    (world, particles)
}

#[test]
fn pressure_pushes_a_buried_grain_sideways() {
    let (mut world, mut particles) = stack();
    let p = &mut particles[1];
    p.resolve_pressure_along(&mut world, Some((0, 6, 1)));
    assert_eq!(p.get_position(), [6_000, 1_000]);
    assert_eq!(world.grid[1][5], (None, 0, 3_000));
    assert_eq!(world.grid[1][6], (Some(ParticleRef::Free(1)), 1_500, 0));
}

#[test]
fn pressure_does_not_push_upward() {
    let (mut world, mut particles) = stack();
    let p = &mut particles[0];
    p.resolve_pressure_along(&mut world, Some((0, 6, 1)));
    assert_eq!(p.get_position(), [5_000, 0]);
    p.resolve_pressure_along(&mut world, Some((0, 6, 0)));
    assert_eq!(p.get_position(), [6_000, 0]);
}

#[test]
fn pressure_does_not_push_into_an_occupied_cell() {
    let (mut world, mut particles) = stack();
    world.update_occupation_on_position([6_000, 1_000], ParticleRef::Static);
    let p = &mut particles[1];
    p.resolve_pressure_along(&mut world, Some((0, 6, 1)));
    assert_eq!(p.get_position(), [5_000, 1_000]);
}

#[test]
fn pressure_needs_a_strictly_lower_target() {
    let (mut world, mut particles) = stack();
    let p = &mut particles[1];
    p.resolve_pressure_along(&mut world, Some((3_000, 6, 1)));
    assert_eq!(p.get_position(), [5_000, 1_000]);
    p.resolve_pressure_along(&mut world, None);
    assert_eq!(p.get_position(), [5_000, 1_000]);
}

#[test]
fn the_top_of_a_stack_stays_and_the_middle_may_leave() {
    let (mut world, mut particles) = stack();
    particles[2].resolve_pressure(&mut world);
    assert_eq!(particles[2].get_position(), [5_000, 2_000]);
    let p = &mut particles[1];
    p.resolve_pressure(&mut world);
    let at = p.get_position();
    let moved = at != [5_000, 1_000];
    if moved {
        assert!(at[1] <= 1_000);
        assert_ne!(at[0], 5_000);
        assert_eq!(world.grid[1][5].0, None);
        assert_eq!(world.grid[1][5].1, 0);
        let (x, y) = ((at[0] / 1_000) as usize, (at[1] / 1_000) as usize);
        assert_eq!(world.grid[y][x].0, Some(ParticleRef::Free(1)));
        assert_eq!(world.grid[y][x].1, 1_500);
    } else {
        assert_eq!(world.grid[1][5].0, Some(ParticleRef::Free(1)));
    }
}

#[test]
fn falling_in_the_floor_row_does_nothing() {
    let mut world = World::new(5, 5);
    let mut p = sand(0, 2, 0);
    put(&mut world, &p);
    p.fall_down(&mut world);
    assert_eq!(p.get_position(), [2_000, 0]);
    assert_eq!(world.grid[0][2], (Some(ParticleRef::Free(0)), 1_500, 0));
}

#[test]
fn falling_goes_straight_down_first() {
    let mut world = World::new(5, 5);
    let mut p = Particle::new(0, [2_300, 3_700], [0, 0], MaterialTyp::Sand, ParticleRef::Free(0));
    put(&mut world, &p);
    p.fall_down(&mut world);
    assert_eq!(p.get_position(), [2_300, 2_700]);
    assert_eq!(world.grid[3][2], (None, 0, 0));
    assert_eq!(world.grid[2][2], (Some(ParticleRef::Free(0)), 1_500, 0));
}

#[test]
fn falling_slides_down_left_then_down_right() {
    let mut world = World::new(5, 5);
    world.occupy([2_000, 0], ParticleRef::Static, 1_000_000);
    let mut p = sand(0, 2, 1);
    put(&mut world, &p);
    p.fall_down(&mut world);
    assert_eq!(p.get_position(), [1_000, 0]);

    let mut world = World::new(5, 5);
    world.occupy([2_000, 0], ParticleRef::Static, 1_000_000);
    world.occupy([1_000, 0], ParticleRef::Static, 1_000_000);
    let mut p = sand(0, 2, 1);
    put(&mut world, &p);
    p.fall_down(&mut world);
    assert_eq!(p.get_position(), [3_000, 0]);
    assert_eq!(world.grid[1][2], (None, 0, 0));
    assert_eq!(world.grid[0][3], (Some(ParticleRef::Free(0)), 1_500, 0));
}

#[test]
fn falling_stops_where_nothing_below_is_free() {
    let mut world = World::new(5, 5);
    for x in 1..4 {
        world.occupy([x * 1_000, 0], ParticleRef::Static, 1_000_000);
    }
    let mut p = sand(0, 2, 1);
    put(&mut world, &p);
    p.fall_down(&mut world);
    assert_eq!(p.get_position(), [2_000, 1_000]);
}

#[test]
fn falling_at_the_walls_stays_on_the_grid() {
    let mut world = World::new(5, 3);
    world.occupy([0, 0], ParticleRef::Static, 1_000_000);
    let mut p = sand(0, 0, 1);
    put(&mut world, &p);
    p.fall_down(&mut world);
    assert_eq!(p.get_position(), [1_000, 0]);

    let mut world = World::new(5, 3);
    world.occupy([2_000, 0], ParticleRef::Static, 1_000_000);
    world.occupy([1_000, 0], ParticleRef::Static, 1_000_000);
    let mut p = sand(0, 2, 1);
    put(&mut world, &p);
    p.fall_down(&mut world);
    assert_eq!(p.get_position(), [2_000, 1_000]);
}

#[test]
fn a_solid_without_leave_to_slide_falls_straight_only() {
    let mut world = World::new(5, 5);
    world.occupy([2_000, 0], ParticleRef::Static, 1_000_000);
    let mut p = sand(0, 2, 1);
    put(&mut world, &p);
    p.fall_down_with(&mut world, false);
    assert_eq!(p.get_position(), [2_000, 1_000]);
    let mut w = water(1, 2, 1);
    w.fall_down_with(&mut world, false);
    assert_eq!(w.get_position(), [1_000, 0]);
}

#[test]
fn solids_do_not_flow() {
    let mut world = World::new(5, 5);
    let mut p = sand(0, 2, 0);
    put(&mut world, &p);
    assert!(p.sideways_ways(&world).is_empty());
    p.flow_sideways(&mut world);
    assert_eq!(p.get_position(), [2_000, 0]);
}

#[test]
fn liquid_that_can_fall_does_not_flow() {
    let mut world = World::new(5, 5);
    let mut p = water(0, 2, 1);
    put(&mut world, &p);
    assert!(p.sideways_ways(&world).is_empty());
    p.flow_sideways(&mut world);
    assert_eq!(p.get_position(), [2_000, 1_000]);
}

#[test]
fn liquid_flows_to_its_only_open_side() {
    let mut world = World::new(5, 5);
    world.occupy([1_000, 0], ParticleRef::Static, 1_000_000);
    let mut p = water(0, 2, 0);
    put(&mut world, &p);
    assert_eq!(p.sideways_ways(&world), vec![(0, 3, 0)]);
    p.flow_sideways(&mut world);
    assert_eq!(p.get_position(), [3_000, 0]);
    assert_eq!(world.grid[0][2], (None, 0, 0));
    assert_eq!(world.grid[0][3], (Some(ParticleRef::Free(0)), 1_000, 0));
}

#[test]
fn liquid_flows_to_the_side_of_lower_pressure() {
    let mut world = World::new(5, 5);
    world.update_mass_on_position([3_000, 2_000], 400);
    let mut p = water(0, 2, 0);
    put(&mut world, &p);
    world.calc_pressure_on_all_position();
    assert_eq!(p.sideways_ways(&world), vec![(0, 1, 0)]);
    p.flow_sideways(&mut world);
    assert_eq!(p.get_position(), [1_000, 0]);
}

#[test]
fn liquid_between_equal_sides_takes_one_of_them() {
    for _ in 0..20 {
        let mut world = World::new(5, 5);
        let mut p = water(0, 2, 0);
        put(&mut world, &p);
        assert_eq!(p.sideways_ways(&world), vec![(0, 1, 0), (0, 3, 0)]);
        p.flow_sideways(&mut world);
        let x = p.get_position()[0];
        assert!(x == 1_000 || x == 3_000);
        assert_eq!(p.get_position()[1], 0);
        assert_eq!(world.grid[0][2], (None, 0, 0));
        assert_eq!(world.grid[0][(x / 1_000) as usize], (Some(ParticleRef::Free(0)), 1_000, 0));
    }
}

#[test]
fn liquid_that_is_hemmed_in_stays() {
    let mut world = World::new(5, 5);
    world.occupy([1_000, 0], ParticleRef::Static, 1_000_000);
    world.occupy([3_000, 0], ParticleRef::Static, 1_000_000);
    let mut p = water(0, 2, 0);
    put(&mut world, &p);
    p.flow_sideways(&mut world);
    assert_eq!(p.get_position(), [2_000, 0]);
    let mut q = water(1, 0, 0);
    let mut narrow = World::new(2, 1);
    put(&mut narrow, &q);
    q.flow_sideways(&mut narrow);
    assert_eq!(q.get_position(), [0, 0]);
}

#[test]
fn flowing_along_a_given_side_moves_one_cell() {
    let mut world = World::new(5, 5);
    let mut p = Particle::new(0, [2_400, 100], [0, 0], MaterialTyp::Wasser, ParticleRef::Free(0));
    put(&mut world, &p);
    p.flow_sideways_along(&mut world, Some((0, 3, 0)));
    assert_eq!(p.get_position(), [3_400, 100]);
    p.flow_sideways_along(&mut world, None);
    assert_eq!(p.get_position(), [3_400, 100]);
}
