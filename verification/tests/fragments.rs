use world::{MaterialTyp, Object};

type Bond = ((usize, usize), (usize, usize));

fn all_bonds(h: usize, w: usize) -> Vec<Bond> {
    let mut bonds = Vec::new();
    for i in 0..h {
        for j in 0..w {
            if j + 1 < w {
                bonds.push(((i, j), (i, j + 1)));
            }
            if i + 1 < h {
                bonds.push(((i, j), (i + 1, j)));
            }
        }
    }
    bonds
}

fn mass_of(object: &Object, fragments: &[Vec<(usize, usize)>]) -> u64 {
    let mut sum = 0;
    for fragment in fragments {
        for (_, material) in object.extract_fragment_data(fragment) {
            sum += material.density();
        }
    }
    sum
}

#[test]
fn an_unbroken_object_is_one_fragment() {
    let object = Object::new(1, 0, [0, 0], [0, 0], MaterialTyp::Stein, 3, 3);
    let fragments = object.find_fragments(&[]);
    assert_eq!(fragments.len(), 1);
    let cells: Vec<(usize, usize)> = (0..3).flat_map(|i| (0..3).map(move |j| (i, j))).collect();
    assert_eq!(fragments[0], cells);
}

#[test]
fn breaking_every_bond_leaves_single_cells() {
    let object = Object::new(1, 0, [0, 0], [0, 0], MaterialTyp::Stein, 2, 3);
    let fragments = object.find_fragments(&all_bonds(2, 3));
    let cells: Vec<Vec<(usize, usize)>> =
        (0..2).flat_map(|i| (0..3).map(move |j| vec![(i, j)])).collect();
    assert_eq!(fragments, cells);
}

#[test]
fn breaking_all_horizontal_bonds_leaves_columns() {
    let object = Object::new(1, 0, [0, 0], [0, 0], MaterialTyp::Stein, 3, 3);
    let broken: Vec<Bond> = all_bonds(3, 3).into_iter().filter(|b| b.0 .0 == b.1 .0).collect();
    let fragments = object.find_fragments(&broken);
    assert_eq!(
        fragments,
        vec![
            vec![(0, 0), (1, 0), (2, 0)],
            vec![(0, 1), (1, 1), (2, 1)],
            vec![(0, 2), (1, 2), (2, 2)],
        ]
    );
}

#[test]
fn a_bond_named_backwards_is_not_broken() {
    let object = Object::new(1, 0, [0, 0], [0, 0], MaterialTyp::Stein, 1, 2);
    assert_eq!(object.find_fragments(&[((0, 1), (0, 0))]).len(), 1);
    assert_eq!(object.find_fragments(&[((0, 0), (0, 1))]).len(), 2);
}

#[test]
fn a_broken_bond_that_is_bypassed_separates_nothing() {
    let object = Object::new(1, 0, [0, 0], [0, 0], MaterialTyp::Stein, 2, 2);
    let fragments = object.find_fragments(&[((0, 0), (0, 1))]);
    assert_eq!(fragments, vec![vec![(0, 0), (0, 1), (1, 0), (1, 1)]]);
}

#[test]
fn holes_belong_to_no_fragment_and_connect_nothing() {
    let data = [
        ([0, 0], MaterialTyp::Sand),
        ([2_000, 0], MaterialTyp::Stein),
        ([0, 1_000], MaterialTyp::Sand),
    ];
    let object = Object::new_from_fragment(1, 0, &data, [0, 0]);
    let fragments = object.find_fragments(&[]);
    assert_eq!(fragments, vec![vec![(0, 0), (1, 0)], vec![(0, 2)]]);
}

#[test]
fn a_winding_fragment_is_found_whole() {
    let mut data = Vec::new();
    for (x, y) in [(0, 0), (1, 0), (2, 0), (2, 1), (2, 2), (1, 2), (0, 2), (0, 3), (0, 4), (1, 4), (2, 4)] {
        data.push(([1_000 * x, 1_000 * y], MaterialTyp::Metall));
    }
    data.push(([0, 1_000], MaterialTyp::Luft));
    let object = Object::new_from_fragment(1, 0, &data, [0, 0]);
    assert_eq!(object.get_height(), 5);
    assert_eq!(object.get_width(), 3);
    let fragments = object.find_fragments(&[]);
    assert_eq!(fragments.len(), 1);
    assert_eq!(fragments[0].len(), 11);
    let cut = object.find_fragments(&[((2, 1), (2, 2))]);
    assert_eq!(
        cut,
        vec![
            vec![(0, 0), (0, 1), (0, 2), (1, 2), (2, 2)],
            vec![(2, 0), (2, 1), (3, 0), (4, 0), (4, 1), (4, 2)],
        ]
    );
}

#[test]
fn the_quadrant_falls_into_five_pieces_under_a_middling_impact() {
    let object = Object::new_quadrant(1, 0, [0, 0], [0, 0]);
    let broken = object.check_fracture(40_001, 1_000);
    let fragments = object.find_fragments(&broken);
    assert_eq!(
        fragments,
        vec![
            vec![(0, 0)],
            vec![(0, 1)],
            vec![(0, 2), (0, 3), (1, 2), (1, 3)],
            vec![(1, 0), (1, 1)],
            vec![(2, 0), (2, 1), (2, 2), (2, 3), (3, 0), (3, 1), (3, 2), (3, 3)],
        ]
    );
}

#[test]
fn fragments_weigh_what_the_object_weighed() {
    let object = Object::new_quadrant(1, 0, [0, 0], [0, 0]);
    for force in [0u128, 20_001, 40_001, 60_001, 80_001, 200_001, 1_000_000] {
        let broken = object.check_fracture(force, 1_000);
        let fragments = object.find_fragments(&broken);
        assert_eq!(mass_of(&object, &fragments), object.get_object_mass());
        let cells: usize = fragments.iter().map(|f| f.len()).sum();
        assert_eq!(cells, 16);
    }
}

#[test]
fn fragments_of_an_object_with_holes_weigh_what_it_weighed() {
    let data = [
        ([0, 0], MaterialTyp::Sand),
        ([2_000, 0], MaterialTyp::Stein),
        ([0, 1_000], MaterialTyp::Wasser),
        ([2_000, 2_000], MaterialTyp::Holz),
    ];
    let object = Object::new_from_fragment(1, 0, &data, [0, 0]);
    assert_eq!(object.get_object_mass(), 1_500 + 2_500 + 1_000 + 600);
    let fragments = object.find_fragments(&[]);
    assert_eq!(fragments.len(), 3);
    assert_eq!(mass_of(&object, &fragments), object.get_object_mass());
}

#[test]
fn a_fragment_rebuilt_as_an_object_keeps_its_mass() {
    let object = Object::new_quadrant(1, 0, [5_000, 7_000], [0, 0]);
    let fragments = object.find_fragments(&object.check_fracture(40_001, 1_000));
    let mut total = 0;
    for (n, fragment) in fragments.iter().enumerate() {
        let data = object.extract_fragment_data(fragment);
        let piece = Object::new_from_fragment(10 + n as i32, n, &data, [0, 0]);
        let weighed: u64 = data.iter().map(|d| d.1.density()).sum();
        assert_eq!(piece.get_object_mass(), weighed);
        total += piece.get_object_mass();
    }
    assert_eq!(total, object.get_object_mass());
}
