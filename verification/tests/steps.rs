use world::object::{bounding_box, ids_fit_for};
use world::{MaterialTyp, Object, Particle, ParticleRef, World};

fn grain(x: i64, y: i64) -> Particle {
    Particle::new(1, [x, y], [0, 0], MaterialTyp::Sand, ParticleRef::Free(0))
}

#[test]
fn fall_speed_is_given_where_gravity_can_act() {
    let mut world = World::new(10, 10);
    let mut p = grain(3_000, 5_000);
    assert_eq!(p.fall_speed([0, -500], &world), Some(-500));
    p.velocity = [0, -7_000];
    assert_eq!(p.fall_speed([0, -500], &world), Some(-5_000));
    world.occupy([3_000, 0], ParticleRef::Static, 1_000_000);
    assert_eq!(p.fall_speed([0, -500], &world), Some(0));
    p.velocity = [0, 4_499];
    assert_eq!(p.fall_speed([0, 500], &world), Some(4_999));
    assert_eq!(p.fall_speed([0, 501], &world), None);
    assert_eq!(grain(10_000, 5_000).fall_speed([0, -500], &world), None);
    assert_eq!(grain(-1_000, 5_000).fall_speed([0, -500], &world), None);
    assert_eq!(grain(-999, 5_000).fall_speed([0, -500], &world), Some(-500));
    let mut fast = grain(3_000, 5_000);
    fast.velocity = [0, i64::MIN + 1];
    assert_eq!(fast.fall_speed([0, -500], &world), Some(0));
    assert_eq!(fast.fall_speed([1, -1], &World::new(10, 10)), Some(-5_000));
    let low = Particle::new(1, [3_000, i64::MIN], [0, 0], MaterialTyp::Sand, ParticleRef::Free(0));
    assert_eq!(low.fall_speed([0, 0], &World::new(10, 10)), None);
}

#[test]
fn advancing_is_gravity_and_then_the_move() {
    let mut world = World::new(10, 10);
    let mut p = grain(3_000, 5_000);
    world.occupy(p.position, p.particle_ref, p.mass());
    p.advance([0, -1_500], &mut world);
    assert_eq!(p.velocity, [0, -1_500]);
    assert_eq!(p.position, [3_000, 3_500]);
    assert_eq!(world.grid[5][3], (None, 0, 0));
    assert_eq!(world.grid[3][3], (Some(ParticleRef::Free(0)), 1_500, 0));
    let mut lost = grain(30_000, 5_000);
    lost.velocity = [100, -100];
    lost.advance([0, -1_500], &mut world);
    assert_eq!(lost.position, [30_000, 5_000]);
    assert_eq!(lost.velocity, [100, -100]);
}

#[test]
fn settling_and_sinking_pass_over_what_is_off_the_grid() {
    let mut world = World::new(10, 10);
    let mut lost = grain(-5_000, 5_000);
    lost.settle(&mut world);
    lost.sink(&mut world);
    assert_eq!(lost.position, [-5_000, 5_000]);
    let mut below = grain(3_000, -5_000);
    below.settle(&mut world);
    below.sink(&mut world);
    assert_eq!(below.position, [3_000, -5_000]);
    for y in 0..10 {
        for x in 0..10 {
            assert_eq!(world.grid[y][x], (None, 0, 0));
        }
    }
}

#[test]
fn sinking_is_falling_or_else_flowing() {
    let mut world = World::new(10, 10);
    let mut sand = grain(3_000, 5_000);
    sand.sink(&mut world);
    assert_eq!(sand.position, [3_000, 4_000]);
    let mut water = Particle::new(2, [6_000, 1_000], [0, 0], MaterialTyp::Wasser, ParticleRef::Free(1));
    water.sink(&mut world);
    assert_eq!(water.position, [6_000, 0]);
    water.sink(&mut world);
    assert!(water.position == [5_000, 0] || water.position == [7_000, 0]);
    let mut resting = grain(1_000, 0);
    resting.sink(&mut world);
    assert_eq!(resting.position, [1_000, 0]);
}

#[test]
fn an_object_can_fall_where_its_whole_edge_is_on_the_grid() {
    let world = World::new(10, 10);
    let object = Object::new(1, 0, [7_000, 5_000], [0, 0], MaterialTyp::Stein, 2, 3);
    assert!(object.can_fall_here([0, -1_000], &world));
    let wide = Object::new(1, 0, [8_000, 5_000], [0, 0], MaterialTyp::Stein, 2, 3);
    assert!(!wide.can_fall_here([0, -1_000], &world));
    let high = Object::new(1, 0, [2_000, 5_000], [0, 5_000], MaterialTyp::Stein, 2, 3);
    assert!(!high.can_fall_here([0, 0], &world));
    let fast = Object::new(1, 0, [2_000, 5_000], [0, i64::MIN], MaterialTyp::Stein, 2, 3);
    assert!(fast.can_fall_here([0, 0], &world));
    assert!(fast.can_fall_here([0, -1], &world));
    let deep = Object::new(1, 0, [2_000, i64::MIN], [0, 0], MaterialTyp::Stein, 1, 3);
    assert!(!deep.can_fall_here([0, 0], &world));
    let shallow = Object::new(1, 0, [2_000, i64::MIN + 1], [0, 0], MaterialTyp::Stein, 1, 3);
    assert!(shallow.can_fall_here([0, 0], &world));
    let empty = Object::new(1, 0, [2_000, 5_000], [0, 0], MaterialTyp::Stein, 2, 0);
    assert!(empty.can_fall_here([0, -1_000], &world));
}

#[test]
fn an_object_can_move_where_its_cells_stay_in_the_number_range() {
    let object = Object::new(1, 0, [7_000, 5_000], [1_000, -1_000], MaterialTyp::Stein, 2, 3);
    assert!(object.can_advance_here());
    let far = Object::new(1, 0, [i64::MAX - 2_000, 0], [0, 0], MaterialTyp::Stein, 1, 3);
    assert!(far.can_advance_here());
    let too_far = Object::new(1, 0, [i64::MAX - 2_000, 0], [1, 0], MaterialTyp::Stein, 1, 3);
    assert!(!too_far.can_advance_here());
    let down = Object::new(1, 0, [0, i64::MIN], [0, -1], MaterialTyp::Stein, 1, 1);
    assert!(!down.can_advance_here());
}

#[test]
fn the_tick_of_an_object_is_gravity_a_landing_and_the_move() {
    let mut world = World::new(10, 10);
    let mut object = Object::new(1, 0, [2_000, 5_000], [0, 0], MaterialTyp::Stein, 2, 2);
    object.place_in_world(&mut world);
    assert!(object.advance([0, -1_000], &mut world).is_none());
    assert_eq!(object.get_object_velocity(), [0, -1_000]);
    assert_eq!(object.get_position(), [2_000, 4_000]);
    assert_eq!(world.grid[4][2].0, Some(ParticleRef::InObject(0, 0, 0)));
    assert_eq!(world.grid[6][2].0, None);
    object.is_destroyed = true;
    assert!(object.advance([0, -1_000], &mut world).is_none());
    assert_eq!(object.get_position(), [2_000, 4_000]);
    let mut outside = Object::new(2, 1, [9_000, 5_000], [0, 0], MaterialTyp::Stein, 2, 2);
    assert!(outside.advance([0, -1_000], &mut world).is_none());
    assert_eq!(outside.get_position(), [9_000, 5_000]);
    assert_eq!(outside.get_object_velocity(), [0, 0]);
}

#[test]
fn load_crushes_only_what_rests_and_falls_apart() {
    let mut world = World::new(10, 10);
    let wood = Object::new(1, 0, [2_000, 1_000], [0, 0], MaterialTyp::Holz, 1, 3);
    assert!(wood.crush(&world).is_none());
    world.occupy([3_000, 8_000], ParticleRef::Static, 40_001);
    assert_eq!(wood.crush(&world), Some(vec![vec![(0, 0), (0, 1)], vec![(0, 2)]]));
    let mut moving = Object::new(1, 0, [2_000, 1_000], [0, -1], MaterialTyp::Holz, 1, 3);
    assert!(moving.crush(&world).is_none());
    moving.velocity = [500, 0];
    assert!(moving.crush(&world).is_some());
    let block = Object::new(2, 1, [2_000, 1_000], [0, 0], MaterialTyp::Holz, 2, 3);
    world.occupy([3_000, 8_000], ParticleRef::Static, 39_401);
    assert_eq!(block.check_pressure_fracture(&world), vec![((0, 1), (0, 2))]);
    assert!(block.crush(&world).is_none());
}

#[test]
fn the_bounding_box_is_tight() {
    let data = [
        ([7_900, 4_000], MaterialTyp::Stein),
        ([5_000, -2_500], MaterialTyp::Holz),
        ([-3_100, 5_999], MaterialTyp::Metall),
    ];
    assert_eq!(bounding_box(&data), (-3, 7, -2, 5));
    assert_eq!(bounding_box(&data[0..1]), (7, 7, 4, 4));
}

#[test]
fn identifiers_fit_while_the_last_of_them_is_in_range() {
    assert!(ids_fit_for(0, 0, 0));
    assert!(ids_fit_for(i32::MAX, 0, 7));
    assert!(ids_fit_for(1, 3, 3));
    assert!(ids_fit_for(21_474_836, 6, 8));
    assert!(!ids_fit_for(21_474_836, 7, 7));
    assert!(!ids_fit_for(21_474_837, 1, 1));
    assert!(ids_fit_for(-21_474_836, 1, 1));
    assert!(!ids_fit_for(-21_474_837, 1, 1));
    assert!(ids_fit_for(-21_474_836, 65_536, 65_535));
    assert!(!ids_fit_for(-21_474_836, 65_536, 65_536));
    assert!(!ids_fit_for(0, u64::MAX, u64::MAX));
}

#[test]
fn a_rectangle_is_free_where_it_is_on_the_grid_and_empty() {
    let mut world = World::new(6, 8);
    assert!(world.is_rect_free(0, 0, 6, 8));
    assert!(!world.is_rect_free(0, 0, 7, 8));
    assert!(!world.is_rect_free(1, 0, 6, 8));
    assert!(world.is_rect_free(100, 100, 0, 5));
    assert!(world.is_rect_free(100, 100, 5, 0));
    assert!(!world.is_rect_free(usize::MAX, 0, 1, 1));
    world.update_occupation_on_position([4_000, 3_000], ParticleRef::Static);
    assert!(!world.is_rect_free(2, 2, 3, 3));
    assert!(world.is_rect_free(2, 2, 3, 2));
    assert!(world.is_rect_free(2, 2, 1, 6));
    assert!(world.is_rect_free(5, 3, 3, 3));
    assert!(!world.is_rect_free(4, 3, 1, 1));
}
