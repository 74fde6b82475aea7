use advent_of_code::helpers::parsing::{iterate_all, AocLineParsable, AocParsable};
use advent_of_code::solutions::day19;
use advent_of_code::solutions::day19::{BlueprintCosts, Inventory, Material, MaterialCost};

const BLUEPRINTS: &str = "Blueprint 1: Each ore robot costs 4 ore. Each clay robot costs 2 ore. Each obsidian robot costs 3 ore and 14 clay. Each geode robot costs 2 ore and 7 obsidian.\nBlueprint 2: Each ore robot costs 2 ore. Each clay robot costs 3 ore. Each obsidian robot costs 3 ore and 8 clay. Each geode robot costs 3 ore and 12 obsidian.\n";

#[test]
fn blueprints_are_read() {
    let blueprints: Vec<BlueprintCosts> = iterate_all(BLUEPRINTS.as_bytes());
    assert_eq!(blueprints.len(), 2);
    assert_eq!(blueprints[0].blueprint_number, 1);
    assert_eq!(blueprints[0].robot_costs.get(Material::Obsidian).0, [3, 14, 0, 0]);
    assert_eq!(blueprints[0].robot_costs.get(Material::Geode).0, [2, 0, 7, 0]);
    assert_eq!(blueprints[0].max_costs_per_material.0, [4, 14, 7, 0]);
    assert_eq!(blueprints[1].max_costs_per_material.0, [3, 8, 12, 0]);
    assert!(BlueprintCosts::parse_from_line(b"Blueprint 1: Each ore robot costs 4 ore", 0).is_none());
    assert!(BlueprintCosts::parse_from_line(b"Blueprint 300: ", 0).is_none());
}

#[test]
fn costs_are_read() {
    assert_eq!(MaterialCost::parse_single_cost(b"4 ore.", 0).map(|(c, to)| (c.0, to)), Some(([4, 0, 0, 0], 5)));
    assert_eq!(MaterialCost::parse_single_cost(b"14 clay", 0).map(|(c, to)| (c.0, to)), Some(([0, 14, 0, 0], 7)));
    assert_eq!(MaterialCost::parse_single_cost(b"7 obsidian", 0).map(|(c, to)| (c.0, to)), Some(([0, 0, 7, 0], 10)));
    assert!(MaterialCost::parse_single_cost(b"7 geode", 0).is_none());
    assert!(MaterialCost::parse_single_cost(b"300 ore", 0).is_none());
    assert_eq!(
        MaterialCost::parse_from_string(b"3 ore and 14 clay.", 0).map(|(c, to)| (c.0, to)),
        Some(([3, 14, 0, 0], 17))
    );
    assert_eq!(
        MaterialCost::parse_from_string(b"255 ore and 255 ore", 0).map(|(c, to)| (c.0, to)),
        Some(([510, 0, 0, 0], 19))
    );
    assert_eq!(
        MaterialCost::parse_from_string(b"3 ore and more", 0).map(|(c, to)| (c.0, to)),
        Some(([3, 0, 0, 0], 5))
    );
    let sum = MaterialCost([1, 2, 3, 0]).plus(MaterialCost([10, 20, 30, 0]));
    assert_eq!(sum.0, [11, 22, 33, 0]);
    assert_eq!(sum.get(Material::Clay), 22);
}

#[test]
fn materials_have_places() {
    for (place, material) in
        [Material::Ore, Material::Clay, Material::Obsidian, Material::Geode].into_iter().enumerate()
    {
        assert_eq!(material.index(), place);
        assert_eq!(Material::from_repr(place), Some(material));
    }
    assert_eq!(Material::from_repr(4), None);
}

#[test]
fn an_inventory_collects_and_pays() {
    let blueprints: Vec<BlueprintCosts> = iterate_all(BLUEPRINTS.as_bytes());
    let mut inventory = Inventory::new([1, 0, 0, 0]);
    assert!(!inventory.can_afford_robot(Material::Clay, &blueprints[0]));
    inventory.produce_materials();
    inventory.produce_materials();
    assert_eq!(inventory.materials, [2, 0, 0, 0]);
    assert!(inventory.can_afford_robot(Material::Clay, &blueprints[0]));
    assert!(!inventory.can_afford_robot(Material::Ore, &blueprints[0]));
    inventory.add_robot(Material::Clay, &blueprints[0]);
    assert_eq!(inventory.materials, [0, 0, 0, 0]);
    assert_eq!(inventory.robots.0, [1, 1, 0, 0]);
    inventory.produce_materials();
    assert_eq!(inventory.materials, [1, 1, 0, 0]);
}

#[test]
fn geodes_within_a_few_steps() {
    let blueprints: Vec<BlueprintCosts> = iterate_all(BLUEPRINTS.as_bytes());
    assert_eq!(day19::robot_choices_dfs(0, &blueprints[0]), 0);
    assert_eq!(day19::robot_choices_dfs(17, &blueprints[0]), 0);
    assert_eq!(day19::robot_choices_dfs(19, &blueprints[0]), 1);
    assert_eq!(day19::robot_choices_dfs(24, &blueprints[0]), 9);
    assert_eq!(day19::robot_choices_dfs(24, &blueprints[1]), 12);
}

#[test]
fn quality_levels_add_up() {
    assert_eq!(day19::part_one(BLUEPRINTS), Some(33));
    assert_eq!(day19::part_one(""), Some(0));
}

#[test]
fn no_product_without_blueprints() {
    assert_eq!(day19::part_two(""), None);
    assert_eq!(day19::part_two("Blueprint one"), None);
}

#[test]
fn geodes_of_the_first_blueprints_multiply() {
    assert_eq!(day19::part_two(BLUEPRINTS), Some(3472));
}
