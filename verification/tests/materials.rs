use world::Object;
use world::MaterialTyp;

const ALL: [MaterialTyp; 6] = [
    MaterialTyp::Sand,
    MaterialTyp::Stein,
    MaterialTyp::Metall,
    MaterialTyp::Luft,
    MaterialTyp::Wasser,
    MaterialTyp::Holz,
];

#[test]
fn density_is_mass_per_cell_in_thousandths() {
    assert_eq!(MaterialTyp::Sand.density(), 1_500);
    assert_eq!(MaterialTyp::Stein.density(), 2_500);
    assert_eq!(MaterialTyp::Metall.density(), 8_000);
    assert_eq!(MaterialTyp::Wasser.density(), 1_000);
    assert_eq!(MaterialTyp::Holz.density(), 600);
}

#[test]
fn air_has_no_mass_and_no_bond() {
    assert_eq!(MaterialTyp::Luft.density(), 0);
    assert_eq!(MaterialTyp::Luft.binding_strength(), 0);
    assert!(!MaterialTyp::Luft.is_solid());
}

#[test]
fn binding_strength_table() {
    assert_eq!(MaterialTyp::Sand.binding_strength(), 2_000);
    assert_eq!(MaterialTyp::Stein.binding_strength(), 80_000);
    assert_eq!(MaterialTyp::Metall.binding_strength(), 200_000);
    assert_eq!(MaterialTyp::Wasser.binding_strength(), 0);
    assert_eq!(MaterialTyp::Holz.binding_strength(), 40_000);
}

#[test]
fn solidity_table() {
    assert!(MaterialTyp::Sand.is_solid());
    assert!(MaterialTyp::Stein.is_solid());
    assert!(MaterialTyp::Metall.is_solid());
    assert!(MaterialTyp::Holz.is_solid());
    assert!(!MaterialTyp::Wasser.is_solid());
}

#[test]
fn impact_dampening_table() {
    assert_eq!(MaterialTyp::Sand.impact_dampening(), 300);
    assert_eq!(MaterialTyp::Stein.impact_dampening(), 1_000);
    assert_eq!(MaterialTyp::Metall.impact_dampening(), 900);
    assert_eq!(MaterialTyp::Luft.impact_dampening(), 0);
    assert_eq!(MaterialTyp::Wasser.impact_dampening(), 200);
    assert_eq!(MaterialTyp::Holz.impact_dampening(), 600);
}

#[test]
fn color_table() {
    assert_eq!(MaterialTyp::Sand.color(), (900, 750, 400));
    assert_eq!(MaterialTyp::Stein.color(), (500, 500, 500));
    assert_eq!(MaterialTyp::Metall.color(), (700, 750, 800));
    assert_eq!(MaterialTyp::Luft.color(), (900, 950, 1_000));
    assert_eq!(MaterialTyp::Wasser.color(), (200, 500, 800));
    assert_eq!(MaterialTyp::Holz.color(), (550, 350, 150));
}

#[test]
fn bond_between_equal_materials_is_full_strength() {
    assert_eq!(Object::calc_bond_strength(MaterialTyp::Holz, MaterialTyp::Holz), 40_000);
    assert_eq!(Object::calc_bond_strength(MaterialTyp::Metall, MaterialTyp::Metall), 200_000);
    assert_eq!(Object::calc_bond_strength(MaterialTyp::Stein, MaterialTyp::Stein), 80_000);
}

#[test]
fn bond_across_materials_is_half_the_weaker() {
    assert_eq!(Object::calc_bond_strength(MaterialTyp::Holz, MaterialTyp::Metall), 20_000);
    assert_eq!(Object::calc_bond_strength(MaterialTyp::Stein, MaterialTyp::Holz), 20_000);
    assert_eq!(Object::calc_bond_strength(MaterialTyp::Stein, MaterialTyp::Metall), 40_000);
    assert_eq!(Object::calc_bond_strength(MaterialTyp::Sand, MaterialTyp::Stein), 1_000);
    assert_eq!(Object::calc_bond_strength(MaterialTyp::Wasser, MaterialTyp::Metall), 0);
}

#[test]
fn bond_strength_is_symmetric() {
    for a in ALL {
        for b in ALL {
            assert_eq!(Object::calc_bond_strength(a, b), Object::calc_bond_strength(b, a));
        }
    }
}
