use world::simulation::{Pass, Piece};
use world::{FragmentEvent, MaterialTyp, Object, ParticleRef, Simulation};

fn with_ground(height: usize, width: usize, gravity: [i64; 2]) -> Simulation {
    let mut sim = Simulation::new(height, width, gravity);
    for x in 0..width {
        sim.place_static(x, 0);
    }
    sim
}

fn occupied(sim: &Simulation) -> Vec<(usize, usize, ParticleRef, u64)> {
    let mut cells = Vec::new();
    for y in 0..sim.world.height {
        for x in 0..sim.world.width {
            if let Some(r) = sim.world.give_occupation_on_position(x, y) {
                cells.push((x, y, r, sim.world.grid[y][x].1));
            }
        }
    }
    cells
}

#[test]
fn a_new_simulation_is_empty() {
    let sim = Simulation::new(20, 10, [0, -500]);
    assert_eq!(sim.world.height, 20);
    assert_eq!(sim.world.width, 10);
    assert!(sim.particles.is_empty());
    assert!(sim.objects.is_empty());
    assert_eq!(sim.gravity, [0, -500]);
    assert!(occupied(&sim).is_empty());
}

#[test]
fn terrain_is_heavy_and_stays() {
    let mut sim = with_ground(5, 3, [0, -1_000]);
    sim.place_static(9, 9);
    assert_eq!(
        occupied(&sim),
        vec![
            (0, 0, ParticleRef::Static, 1_000_000),
            (1, 0, ParticleRef::Static, 1_000_000),
            (2, 0, ParticleRef::Static, 1_000_000),
        ]
    );
    for _ in 0..3 {
        assert!(sim.step().is_empty());
    }
    assert_eq!(occupied(&sim).len(), 3);
}

#[test]
fn particles_are_spawned_into_free_cells_only() {
    let mut sim = with_ground(5, 3, [0, -1_000]);
    assert_eq!(sim.spawn_particle(1, 1, 3, MaterialTyp::Sand), Some(0));
    assert_eq!(sim.spawn_particle(2, 1, 3, MaterialTyp::Sand), None);
    assert_eq!(sim.spawn_particle(2, 1, 0, MaterialTyp::Sand), None);
    assert_eq!(sim.spawn_particle(2, 3, 3, MaterialTyp::Sand), None);
    assert_eq!(sim.spawn_particle(2, 1, 5, MaterialTyp::Sand), None);
    assert_eq!(sim.spawn_particle(2, 2, 4, MaterialTyp::Wasser), Some(1));
    assert_eq!(sim.particles.len(), 2);
    assert_eq!(sim.particles[0].id, 1);
    assert_eq!(sim.particles[0].position, [1_000, 3_000]);
    assert_eq!(sim.particles[0].velocity, [0, 0]);
    assert_eq!(sim.particles[0].particle_ref, ParticleRef::Free(0));
    assert_eq!(sim.particles[1].material, MaterialTyp::Wasser);
    assert_eq!(sim.world.grid[3][1], (Some(ParticleRef::Free(0)), 1_500, 0));
    assert_eq!(sim.world.grid[4][2], (Some(ParticleRef::Free(1)), 1_000, 0));
}

#[test]
fn blocks_are_spawned_into_free_room_only() {
    let mut sim = with_ground(10, 10, [0, -1_000]);
    assert_eq!(sim.spawn_block(1, 2, 3, MaterialTyp::Stein, 3, 3), Some(0));
    assert_eq!(sim.spawn_block(2, 4, 5, MaterialTyp::Stein, 3, 3), None);
    assert_eq!(sim.spawn_block(2, 8, 5, MaterialTyp::Stein, 3, 3), None);
    assert_eq!(sim.spawn_block(2, 5, 8, MaterialTyp::Stein, 3, 3), None);
    assert_eq!(sim.spawn_block(2, 5, 0, MaterialTyp::Stein, 3, 3), None);
    assert_eq!(sim.spawn_block(2, 7, 7, MaterialTyp::Holz, 3, 3), Some(1));
    assert_eq!(sim.spawn_quadrant(3, 7, 1), None);
    assert_eq!(sim.spawn_quadrant(3, 3, 1), None);
    assert_eq!(sim.spawn_quadrant(3, 5, 1), Some(2));
    assert_eq!(sim.objects.len(), 3);
    assert_eq!(sim.objects[0].get_position(), [2_000, 3_000]);
    assert_eq!(sim.objects[0].get_object_velocity(), [0, 0]);
    assert_eq!(sim.objects[1].get_id(), 2);
    assert_eq!(sim.objects[2].get_particle_at(0, 3).material, MaterialTyp::Metall);
    assert_eq!(sim.world.grid[3][2], (Some(ParticleRef::InObject(0, 0, 0)), 2_500, 0));
    assert_eq!(sim.world.grid[5][4], (Some(ParticleRef::InObject(0, 2, 2)), 2_500, 0));
    assert_eq!(sim.world.grid[9][9], (Some(ParticleRef::InObject(1, 2, 2)), 600, 0));
    assert_eq!(sim.world.grid[1][8], (Some(ParticleRef::InObject(2, 0, 3)), 8_000, 0));
    assert_eq!(occupied(&sim).len(), 10 + 9 + 9 + 16);
}

#[test]
fn a_grain_falls_to_the_ground_and_rests() {
    let mut sim = with_ground(20, 10, [0, -500]);
    sim.spawn_particle(1, 5, 10, MaterialTyp::Sand).unwrap();
    let mut last = 10_000;
    for _ in 0..30 {
        assert!(sim.step().is_empty());
        let p = &sim.particles[0];
        assert_eq!(p.position[0], 5_000);
        assert!(p.position[1] <= last);
        assert!(p.position[1] >= 1_000);
        last = p.position[1];
        assert_eq!(occupied(&sim).len(), 11);
    }
    assert_eq!(sim.particles[0].position, [5_000, 1_000]);
    assert_eq!(sim.particles[0].velocity[1], 0);
    assert_eq!(sim.world.grid[1][5], (Some(ParticleRef::Free(0)), 1_500, 1_500));
    assert_eq!(sim.world.grid[0][5].2, 1_001_500);
}

#[test]
fn a_grain_in_an_empty_world_comes_to_rest_on_the_floor() {
    let mut sim = Simulation::new(20, 10, [0, -500]);
    sim.spawn_particle(1, 5, 10, MaterialTyp::Sand).unwrap();
    for _ in 0..20 {
        sim.step();
    }
    assert_eq!(sim.particles[0].position, [5_000, 0]);
    assert_eq!(sim.particles[0].velocity[1], 0);
    assert_eq!(occupied(&sim), vec![(5, 0, ParticleRef::Free(0), 1_500)]);
}

#[test]
fn no_two_particles_share_a_cell() {
    let mut sim = with_ground(30, 9, [0, -1_000]);
    let mut id = 0;
    for round in 0..40 {
        let material = if round % 3 == 0 { MaterialTyp::Wasser } else { MaterialTyp::Sand };
        if sim.spawn_particle(id, 4, 28, material).is_some() {
            id += 1;
        }
        sim.step();
        let cells = occupied(&sim);
        let free: Vec<&(usize, usize, ParticleRef, u64)> =
            cells.iter().filter(|c| matches!(c.2, ParticleRef::Free(_))).collect();
        assert_eq!(free.len(), sim.particles.len());
        for (n, p) in sim.particles.iter().enumerate() {
            let x = (p.position[0] / 1_000) as usize;
            let y = (p.position[1] / 1_000) as usize;
            assert_eq!(sim.world.give_occupation_on_position(x, y), Some(ParticleRef::Free(n)));
            assert_eq!(sim.world.grid[y][x].1, p.mass());
        }
    }
    assert!(sim.particles.len() > 10);
}

#[test]
fn pressure_is_the_snapshot_taken_at_the_start_of_a_tick() {
    let mut sim = Simulation::new(6, 3, [0, -1_000]);
    sim.spawn_particle(1, 1, 4, MaterialTyp::Metall).unwrap();
    sim.step();
    assert_eq!(sim.particles[0].position, [1_000, 2_000]);
    assert_eq!(sim.world.grid[4][1].2, 8_000);
    assert_eq!(sim.world.grid[2][1].2, 8_000);
    assert_eq!(sim.world.grid[5][1].2, 0);
    sim.press();
    assert_eq!(sim.world.grid[4][1].2, 0);
    assert_eq!(sim.world.grid[2][1].2, 8_000);
    assert_eq!(sim.world.grid[0][1].2, 8_000);
}

#[test]
fn the_passes_of_a_tick_can_be_taken_one_by_one() {
    let mut whole = Simulation::new(12, 5, [0, -500]);
    let mut parts = Simulation::new(12, 5, [0, -500]);
    for sim in [&mut whole, &mut parts] {
        sim.spawn_particle(1, 2, 9, MaterialTyp::Stein).unwrap();
        sim.spawn_block(1, 0, 3, MaterialTyp::Holz, 2, 2).unwrap();
    }
    for _ in 0..12 {
        let events = whole.step();
        parts.press();
        parts.pass_particles(Pass::Advance);
        parts.pass_particles(Pass::Settle);
        parts.pass_particles(Pass::Sink);
        let mut landed = parts.move_objects();
        landed.extend(parts.crush_objects());
        assert_eq!(events.len(), landed.len());
        assert_eq!(whole.particles[0].position, parts.particles[0].position);
        assert_eq!(whole.particles[0].velocity, parts.particles[0].velocity);
        assert_eq!(whole.objects[0].get_position(), parts.objects[0].get_position());
        assert_eq!(occupied(&whole), occupied(&parts));
    }
    assert_eq!(whole.particles[0].position, [2_000, 0]);
    assert_eq!(whole.objects[0].get_position(), [0, 0]);
}

#[test]
fn a_particle_off_the_grid_is_left_alone() {
    let mut sim = Simulation::new(5, 5, [0, -1_000]);
    sim.spawn_particle(1, 4, 2, MaterialTyp::Sand).unwrap();
    sim.particles[0].velocity = [1_000, 0];
    sim.step();
    let p = sim.particles[0];
    assert_eq!(p.position, [5_000, 1_000]);
    assert!(occupied(&sim).is_empty());
    for _ in 0..3 {
        sim.step();
        assert_eq!(sim.particles[0].position, p.position);
        assert_eq!(sim.particles[0].velocity, p.velocity);
    }
}

#[test]
fn a_particle_at_the_end_of_the_number_range_is_left_alone() {
    let mut sim = Simulation::new(5, 5, [0, -1_000]);
    sim.spawn_particle(1, 2, 2, MaterialTyp::Sand).unwrap();
    sim.particles[0].velocity = [i64::MAX, 0];
    sim.pass_particles(Pass::Advance);
    assert_eq!(sim.particles[0].position, [2_000, 2_000]);
    assert_eq!(sim.particles[0].velocity, [i64::MAX, -1_000]);
    assert_eq!(sim.world.grid[2][2].0, Some(ParticleRef::Free(0)));
    sim.particles[0].velocity = [0, i64::MIN];
    sim.pass_particles(Pass::Advance);
    assert_eq!(sim.particles[0].velocity, [0, -2_000]);
    assert_eq!(sim.particles[0].position, [2_000, 0]);
}

#[test]
fn water_spreads_where_sand_piles_up() {
    let mut sim = Simulation::new(5, 5, [0, -1_000]);
    sim.spawn_particle(1, 2, 0, MaterialTyp::Wasser).unwrap();
    sim.step();
    let x = sim.particles[0].position[0];
    assert!(x == 1_000 || x == 3_000);
    let mut sim = Simulation::new(5, 5, [0, -1_000]);
    sim.spawn_particle(1, 2, 0, MaterialTyp::Sand).unwrap();
    sim.step();
    assert_eq!(sim.particles[0].position, [2_000, 0]);
}

#[test]
fn a_stone_block_lands_whole() {
    let mut sim = with_ground(20, 10, [0, -1_000]);
    sim.spawn_block(1, 3, 2, MaterialTyp::Stein, 3, 3).unwrap();
    assert!(sim.step().is_empty());
    assert_eq!(sim.objects[0].get_position(), [3_000, 1_000]);
    assert_eq!(sim.objects[0].get_object_velocity(), [0, -1_000]);
    assert!(sim.step().is_empty());
    assert_eq!(sim.objects[0].get_position(), [3_000, 1_000]);
    assert_eq!(sim.objects[0].get_object_velocity(), [0, 0]);
    assert!(sim.step().is_empty());
    assert!(!sim.objects[0].is_destroyed);
    assert_eq!(occupied(&sim).len(), 10 + 9);
}

fn drop_layers(sim: &mut Simulation) {
    let mut data = Vec::new();
    for i in 0..4i64 {
        for j in 0..4i64 {
            let material = if i < 2 { MaterialTyp::Metall } else { MaterialTyp::Holz };
            data.push(([3_000 + 1_000 * j, 2_000 + 1_000 * i], material));
        }
    }
    assert_eq!(sim.materialize(&data, [0, 0], 0, 1), Some(Piece::Object(0)));
}

#[test]
fn a_layered_object_breaks_on_landing_and_its_pieces_live_on() {
    let mut sim = with_ground(20, 10, [0, -1_000]);
    drop_layers(&mut sim);
    assert_eq!(sim.objects[0].get_object_mass(), 68_800);
    assert!(sim.step().is_empty());
    assert_eq!(sim.objects[0].get_position(), [3_000, 1_000]);
    let events = sim.step();
    assert_eq!(events.len(), 1);
    assert_eq!(events[0].object_idx, 0);
    assert_eq!(events[0].fragments.len(), 2);
    assert!(sim.can_shatter_now(&events[0]));
    let (data, velocity) = sim.shatter(&events[0]).unwrap();
    assert_eq!(velocity, [0, 0]);
    assert!(sim.objects[0].is_destroyed);
    assert_eq!(occupied(&sim).len(), 10);
    assert!(!sim.can_shatter_now(&events[0]));
    assert!(sim.shatter(&events[0]).is_none());
    assert_eq!(data.len(), 2);
    assert_eq!(data[0].len(), 8);
    assert_eq!(data[0][0], ([3_000, 1_000], MaterialTyp::Metall));
    assert_eq!(data[1][7], ([6_000, 4_000], MaterialTyp::Holz));
    assert_eq!(sim.materialize(&data[0], velocity, 0, 2), Some(Piece::Object(1)));
    assert_eq!(sim.materialize(&data[1], velocity, 0, 3), Some(Piece::Object(2)));
    assert_eq!(sim.objects[1].get_object_mass() + sim.objects[2].get_object_mass(), 68_800);
    assert_eq!(sim.objects[1].get_position(), [3_000, 1_000]);
    assert_eq!(sim.objects[2].get_position(), [3_000, 3_000]);
    assert_eq!(sim.objects[2].get_height(), 2);
    assert_eq!(sim.world.grid[3][3].0, Some(ParticleRef::InObject(2, 0, 0)));
    assert_eq!(sim.world.grid[3][3].1, 600);
    assert_eq!(occupied(&sim).len(), 10 + 16);
    for _ in 0..3 {
        assert!(sim.step().is_empty());
    }
    assert_eq!(sim.objects[0].get_position(), [3_000, 1_000]);
    assert_eq!(sim.objects[1].get_position(), [3_000, 1_000]);
    assert_eq!(sim.objects[2].get_position(), [3_000, 3_000]);
}

#[test]
fn a_fragment_of_one_cell_becomes_a_free_particle() {
    let mut sim = Simulation::new(10, 10, [0, -1_000]);
    let piece = sim.materialize(&[([4_000, 6_000], MaterialTyp::Holz)], [300, 300], 17, 0);
    assert_eq!(piece, Some(Piece::Particle(0)));
    assert_eq!(sim.particles[0].id, 17);
    assert_eq!(sim.particles[0].position, [4_000, 6_000]);
    assert_eq!(sim.particles[0].velocity, [0, 0]);
    assert_eq!(sim.particles[0].material, MaterialTyp::Holz);
    assert_eq!(sim.particles[0].particle_ref, ParticleRef::Free(0));
    assert_eq!(occupied(&sim), vec![(4, 6, ParticleRef::Free(0), 600)]);
    assert!(sim.objects.is_empty());
}

#[test]
fn events_that_name_no_living_object_are_passed_over() {
    let mut sim = Simulation::new(10, 10, [0, -1_000]);
    sim.spawn_block(1, 2, 2, MaterialTyp::Stein, 2, 2).unwrap();
    let missing = FragmentEvent { object_idx: 1, fragments: vec![vec![(0, 0)]] };
    assert!(sim.shatter(&missing).is_none());
    let outside = FragmentEvent { object_idx: 0, fragments: vec![vec![(0, 0)], vec![(2, 0)]] };
    assert!(!sim.can_shatter_now(&outside));
    assert!(sim.shatter(&outside).is_none());
    assert!(!sim.objects[0].is_destroyed);
    assert_eq!(occupied(&sim).len(), 4);
}

#[test]
fn a_destroyed_object_is_no_longer_moved() {
    let mut sim = Simulation::new(10, 10, [0, -1_000]);
    sim.spawn_block(1, 2, 5, MaterialTyp::Stein, 2, 2).unwrap();
    let event = FragmentEvent { object_idx: 0, fragments: vec![vec![(0, 0), (0, 1), (1, 0), (1, 1)]] };
    let (data, _) = sim.shatter(&event).unwrap();
    assert_eq!(data[0].len(), 4);
    for _ in 0..4 {
        assert!(sim.step().is_empty());
    }
    assert_eq!(sim.objects[0].get_position(), [2_000, 5_000]);
    assert_eq!(sim.objects[0].get_object_velocity(), [0, 0]);
    assert!(occupied(&sim).is_empty());
}

#[test]
fn load_breaks_an_object_at_rest() {
    let mut sim = with_ground(12, 6, [0, -1_000]);
    let data: Vec<([i64; 2], MaterialTyp)> = vec![
        ([1_000, 1_000], MaterialTyp::Holz),
        ([2_000, 1_000], MaterialTyp::Holz),
        ([3_000, 1_000], MaterialTyp::Holz),
    ];
    sim.materialize(&data, [0, 0], 0, 1);
    assert!(sim.step().is_empty());
    assert_eq!(sim.objects[0].get_object_velocity(), [0, 0]);
    sim.world.occupy([2_000, 9_000], ParticleRef::Static, 40_001);
    let events = sim.crush_objects();
    assert_eq!(events.len(), 1);
    assert_eq!(events[0].object_idx, 0);
    assert_eq!(events[0].fragments, vec![vec![(0, 0), (0, 1)], vec![(0, 2)]]);
    let whole = Object::new(5, 0, [1_000, 1_000], [0, 0], MaterialTyp::Holz, 1, 3);
    assert!(whole.crush(&Simulation::new(12, 6, [0, 0]).world).is_none());
}

#[test]
fn a_moving_object_is_not_tried_under_load() {
    let mut sim = Simulation::new(12, 6, [0, -1_000]);
    sim.spawn_block(1, 1, 5, MaterialTyp::Sand, 4, 1).unwrap();
    sim.objects[0].velocity = [0, -1_000];
    assert!(sim.crush_objects().is_empty());
    sim.objects[0].velocity = [0, 0];
    let events = sim.crush_objects();
    assert_eq!(events.len(), 1);
    assert_eq!(events[0].fragments, vec![vec![(0, 0)], vec![(1, 0), (2, 0), (3, 0)]]);
}

#[test]
fn nothing_is_made_of_no_data_or_of_identifiers_out_of_range() {
    let mut sim = Simulation::new(10, 10, [0, -1_000]);
    assert_eq!(sim.materialize(&[], [0, 0], 1, 1), None);
    let pair = [([1_000, 1_000], MaterialTyp::Holz), ([2_000, 1_000], MaterialTyp::Holz)];
    assert_eq!(sim.materialize(&pair, [0, 0], 1, i32::MAX / 100 + 1), None);
    assert_eq!(sim.spawn_block(21_474_836, 0, 0, MaterialTyp::Holz, 7, 7), None);
    assert_eq!(sim.spawn_block(i32::MIN / 100 - 1, 1, 1, MaterialTyp::Holz, 2, 2), None);
    assert_eq!(sim.spawn_quadrant(21_474_837, 1, 1), None);
    assert!(sim.objects.is_empty());
    assert!(occupied(&sim).is_empty());
    assert_eq!(sim.materialize(&pair, [0, 0], 1, 21_474_835), Some(Piece::Object(0)));
    assert_eq!(sim.objects[0].get_particle_at(0, 1).id, 2_147_483_501);
    assert_eq!(sim.materialize(&pair[0..1], [0, 0], i32::MAX, i32::MAX), Some(Piece::Particle(0)));
}

#[test]
fn what_the_simulation_builds_is_well_formed() {
    let mut sim = with_ground(20, 10, [0, -1_000]);
    assert!(sim.is_wf());
    sim.spawn_particle(1, 5, 10, MaterialTyp::Sand).unwrap();
    drop_layers(&mut sim);
    sim.spawn_quadrant(1, 2, 6).unwrap();
    for _ in 0..10 {
        sim.step();
        assert!(sim.is_wf());
        assert!(sim.world.is_wf());
        for object in &sim.objects {
            assert!(object.is_wf());
        }
    }
    sim.objects[0].total_object_mass += 1;
    assert!(!sim.is_wf());
    assert!(sim.objects[0].is_shaped());
    sim.objects[0].total_object_mass -= 1;
    sim.objects[0].object_w = 5;
    assert!(!sim.objects[0].is_shaped());
    sim.objects[0].object_w = 4;
    assert!(sim.is_wf());
    sim.world.grid[3].pop();
    assert!(!sim.world.is_wf());
    assert!(!sim.is_wf());
}
