use world::{MaterialTyp, Object, ParticleRef, World};

#[test]
fn a_block_is_made_of_one_material() {
    let object = Object::new(3, 7, [4_000, 2_000], [0, -500], MaterialTyp::Stein, 3, 2);
    assert_eq!(object.get_id(), 3);
    assert!(!object.is_destroyed);
    assert_eq!(object.get_height(), 3);
    assert_eq!(object.get_width(), 2);
    assert_eq!(object.get_position(), [4_000, 2_000]);
    assert_eq!(object.get_object_velocity(), [0, -500]);
    assert_eq!(object.get_object_mass(), 6 * 2_500);
    for i in 0..3 {
        for j in 0..2 {
            let p = object.get_particle_at(i, j);
            assert_eq!(p.id, 300 + (i * 2 + j) as i32);
            assert_eq!(p.position, [4_000 + 1_000 * j as i64, 2_000 + 1_000 * i as i64]);
            assert_eq!(p.velocity, [0, 0]);
            assert_eq!(p.material, MaterialTyp::Stein);
            assert_eq!(p.particle_ref, ParticleRef::InObject(7, i, j));
        }
    }
}

#[test]
fn an_object_without_cells_weighs_nothing() {
    let object = Object::new(1, 0, [0, 0], [0, 0], MaterialTyp::Metall, 0, 5);
    assert_eq!(object.get_object_mass(), 0);
    assert!(object.get_object_elements().is_empty());
    assert!(object.check_fracture(1_000_000, 1_000).is_empty());
    assert!(object.find_fragments(&[]).is_empty());
}

#[test]
fn elements_are_listed_row_by_row() {
    let object = Object::new(1, 0, [0, 0], [0, 0], MaterialTyp::Holz, 2, 3);
    let elements = object.get_object_elements();
    assert_eq!(elements.len(), 6);
    for i in 0..2 {
        for j in 0..3 {
            assert_eq!(elements[i * 3 + j].particle_ref, ParticleRef::InObject(0, i, j));
            assert_eq!(elements[i * 3 + j].id, object.get_particle_at(i, j).id);
        }
    }
}

#[test]
fn the_quadrant_pattern() {
    let object = Object::new_quadrant(2, 1, [10_000, 5_000], [0, 0]);
    assert_eq!(object.get_height(), 4);
    assert_eq!(object.get_width(), 4);
    assert_eq!(object.get_id(), 2);
    let expected = [
        [MaterialTyp::Holz, MaterialTyp::Holz, MaterialTyp::Metall, MaterialTyp::Metall],
        [MaterialTyp::Holz, MaterialTyp::Holz, MaterialTyp::Metall, MaterialTyp::Metall],
        [MaterialTyp::Stein, MaterialTyp::Stein, MaterialTyp::Holz, MaterialTyp::Holz],
        [MaterialTyp::Stein, MaterialTyp::Stein, MaterialTyp::Holz, MaterialTyp::Holz],
    ];
    for i in 0..4 {
        for j in 0..4 {
            let p = object.get_particle_at(i, j);
            assert_eq!(p.material, expected[i][j]);
            assert_eq!(p.id, 200 + (i * 4 + j) as i32);
            assert_eq!(p.position, [10_000 + 1_000 * j as i64, 5_000 + 1_000 * i as i64]);
            assert_eq!(p.particle_ref, ParticleRef::InObject(1, i, j));
        }
    }
    assert_eq!(object.get_object_mass(), 8 * 600 + 4 * 8_000 + 4 * 2_500);
}

#[test]
fn a_fragment_is_rebuilt_in_its_bounding_box() {
    let data = [
        ([7_000, 4_000], MaterialTyp::Stein),
        ([5_000, 4_000], MaterialTyp::Holz),
        ([5_000, 5_000], MaterialTyp::Metall),
        ([6_000, 5_000], MaterialTyp::Sand),
    ];
    let object = Object::new_from_fragment(4, 9, &data, [100, -200]);
    assert_eq!(object.get_height(), 2);
    assert_eq!(object.get_width(), 3);
    assert_eq!(object.get_position(), [5_000, 4_000]);
    assert_eq!(object.get_object_velocity(), [100, -200]);
    assert!(!object.is_destroyed);
    let expected = [
        [MaterialTyp::Holz, MaterialTyp::Luft, MaterialTyp::Stein],
        [MaterialTyp::Metall, MaterialTyp::Sand, MaterialTyp::Luft],
    ];
    for i in 0..2 {
        for j in 0..3 {
            let p = object.get_particle_at(i, j);
            assert_eq!(p.material, expected[i][j]);
            assert_eq!(p.position, [5_000 + 1_000 * j as i64, 4_000 + 1_000 * i as i64]);
            assert_eq!(p.velocity, [100, -200]);
            assert_eq!(p.id, 400 + (i * 3 + j) as i32);
            assert_eq!(p.particle_ref, ParticleRef::InObject(9, i, j));
        }
    }
    assert_eq!(object.get_object_mass(), 600 + 2_500 + 8_000 + 1_500);
}

#[test]
fn a_fragment_of_one_cell_is_one_cell_large() {
    let object = Object::new_from_fragment(1, 0, &[([3_700, 2_200], MaterialTyp::Sand)], [0, 0]);
    assert_eq!(object.get_height(), 1);
    assert_eq!(object.get_width(), 1);
    assert_eq!(object.get_position(), [3_000, 2_000]);
    assert_eq!(object.get_object_mass(), 1_500);
}

#[test]
fn the_first_entry_for_a_cell_decides_its_material() {
    let data = [
        ([1_000, 1_000], MaterialTyp::Holz),
        ([1_500, 1_500], MaterialTyp::Metall),
        ([2_000, 1_000], MaterialTyp::Stein),
    ];
    let object = Object::new_from_fragment(1, 0, &data, [0, 0]);
    assert_eq!(object.get_width(), 2);
    assert_eq!(object.get_particle_at(0, 0).material, MaterialTyp::Holz);
    assert_eq!(object.get_particle_at(0, 1).material, MaterialTyp::Stein);
    assert_eq!(object.get_object_mass(), 600 + 2_500);
}

#[test]
fn recomputing_the_mass_gives_the_sum_of_the_cells() {
    let mut object = Object::new_quadrant(1, 0, [0, 0], [0, 0]);
    object.total_object_mass = 1;
    assert_eq!(object.calc_object_mass(), 46_800);
    assert_eq!(object.get_object_mass(), 46_800);
}

#[test]
fn impact_force_is_mass_times_speed() {
    let object = Object::new(1, 0, [0, 0], [0, 0], MaterialTyp::Stein, 3, 3);
    assert_eq!(object.calc_impact_force(-1_000), 22_500);
    assert_eq!(object.calc_impact_force(1_000), 22_500);
    assert_eq!(object.calc_impact_force(-500), 11_250);
    assert_eq!(object.calc_impact_force(0), 0);
    assert_eq!(object.calc_impact_force(1), 22);
    assert_eq!(object.calc_impact_force(i64::MIN), 22_500 * (1u128 << 63) / 1_000);
}

#[test]
fn an_object_enters_and_leaves_the_world() {
    let mut world = World::new(10, 10);
    let data = [
        ([2_000, 3_000], MaterialTyp::Stein),
        ([4_000, 3_000], MaterialTyp::Holz),
        ([3_000, 4_000], MaterialTyp::Sand),
    ];
    let object = Object::new_from_fragment(1, 5, &data, [0, 0]);
    world.occupy([3_000, 3_000], ParticleRef::Free(0), 1_000);
    object.place_in_world(&mut world);
    assert_eq!(world.grid[3][2], (Some(ParticleRef::InObject(5, 0, 0)), 2_500, 0));
    assert_eq!(world.grid[3][3], (Some(ParticleRef::Free(0)), 1_000, 0));
    assert_eq!(world.grid[3][4], (Some(ParticleRef::InObject(5, 0, 2)), 600, 0));
    assert_eq!(world.grid[4][3], (Some(ParticleRef::InObject(5, 1, 1)), 1_500, 0));
    assert_eq!(world.grid[4][2], (None, 0, 0));
    object.clear_from_world(&mut world);
    assert_eq!(world.grid[3][2], (None, 0, 0));
    assert_eq!(world.grid[3][3], (Some(ParticleRef::Free(0)), 1_000, 0));
    assert_eq!(world.grid[3][4], (None, 0, 0));
    assert_eq!(world.grid[4][3], (None, 0, 0));
}

#[test]
fn clearing_an_object_leaves_the_cells_under_its_holes() {
    let mut world = World::new(10, 10);
    let data = [([2_000, 3_000], MaterialTyp::Stein), ([4_000, 3_000], MaterialTyp::Holz)];
    let object = Object::new_from_fragment(1, 5, &data, [0, 0]);
    world.occupy([3_000, 3_000], ParticleRef::Static, 1_000_000);
    object.clear_from_world(&mut world);
    assert_eq!(world.grid[3][3], (Some(ParticleRef::Static), 1_000_000, 0));
}

#[test]
fn a_moving_object_takes_its_cells_along() {
    let mut world = World::new(10, 10);
    let mut object = Object::new(1, 0, [2_000, 5_000], [1_000, -2_000], MaterialTyp::Holz, 2, 2);
    object.place_in_world(&mut world);
    object.update_object_position(&mut world);
    assert_eq!(object.get_position(), [3_000, 3_000]);
    assert_eq!(object.get_object_velocity(), [1_000, -2_000]);
    assert_eq!(object.get_object_mass(), 2_400);
    let mut occupied = Vec::new();
    for y in 0..10 {
        for x in 0..10 {
            if let Some(r) = world.give_occupation_on_position(x, y) {
                assert_eq!(world.grid[y][x].1, 600);
                occupied.push((x, y, r));
            } else {
                assert_eq!(world.grid[y][x].1, 0);
            }
        }
    }
    assert_eq!(
        occupied,
        vec![
            (3, 3, ParticleRef::InObject(0, 0, 0)),
            (4, 3, ParticleRef::InObject(0, 0, 1)),
            (3, 4, ParticleRef::InObject(0, 1, 0)),
            (4, 4, ParticleRef::InObject(0, 1, 1)),
        ]
    );
    for i in 0..2 {
        for j in 0..2 {
            assert_eq!(
                object.get_particle_at(i, j).position,
                [3_000 + 1_000 * j as i64, 3_000 + 1_000 * i as i64]
            );
        }
    }
}

#[test]
fn an_object_that_overlaps_its_old_place_is_not_erased() {
    let mut world = World::new(10, 10);
    let mut object = Object::new(1, 0, [2_000, 5_000], [0, -1_000], MaterialTyp::Stein, 3, 1);
    object.place_in_world(&mut world);
    object.update_object_position(&mut world);
    for y in 4..7 {
        assert_eq!(world.grid[y][2], (Some(ParticleRef::InObject(0, y - 4, 0)), 2_500, 0));
    }
    assert_eq!(world.grid[7][2], (None, 0, 0));
}

#[test]
fn an_object_at_rest_is_not_touched() {
    let mut world = World::new(10, 10);
    let mut object = Object::new(1, 0, [2_000, 5_000], [0, 0], MaterialTyp::Stein, 1, 1);
    object.update_object_position(&mut world);
    assert_eq!(object.get_position(), [2_000, 5_000]);
    assert_eq!(world.grid[5][2], (None, 0, 0));
}

#[test]
fn holes_move_without_a_trace() {
    let mut world = World::new(10, 10);
    let data = [([2_000, 3_000], MaterialTyp::Stein), ([4_000, 3_000], MaterialTyp::Holz)];
    let mut object = Object::new_from_fragment(1, 5, &data, [0, -1_000]);
    object.place_in_world(&mut world);
    world.occupy([3_000, 2_000], ParticleRef::Static, 1_000_000);
    object.update_object_position(&mut world);
    assert_eq!(world.grid[2][2], (Some(ParticleRef::InObject(5, 0, 0)), 2_500, 0));
    assert_eq!(world.grid[2][3], (Some(ParticleRef::Static), 1_000_000, 0));
    assert_eq!(world.grid[2][4], (Some(ParticleRef::InObject(5, 0, 2)), 600, 0));
    assert_eq!(world.grid[3][2], (None, 0, 0));
}

#[test]
fn fragment_data_lists_position_and_material() {
    let object = Object::new_quadrant(1, 0, [10_000, 20_000], [0, 0]);
    let data = object.extract_fragment_data(&[(0, 3), (2, 0), (3, 3)]);
    assert_eq!(
        data,
        vec![
            ([13_000, 20_000], MaterialTyp::Metall),
            ([10_000, 22_000], MaterialTyp::Stein),
            ([13_000, 23_000], MaterialTyp::Holz),
        ]
    );
    assert!(object.extract_fragment_data(&[]).is_empty());
}
