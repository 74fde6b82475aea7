//! Not enough minerals: which robots to build, and when, to crack as many
//! geodes as possible.

use crate::helpers::parsing::{
    iterate_all, parsed_unsigned, parsed_while, tag, text_u8, views_of, word_at, AocLineParsable,
    AocParsable,
};
use vstd::prelude::*;
use vstd::string::StringSliceAdditionalSpecFns;

verus! {

/// What robots collect and what robots are made of.
#[derive(Clone, Copy, Debug, PartialEq, Eq, Structural)]
pub enum Material {
    Ore,
    Clay,
    Obsidian,
    Geode,
}

impl Material {
    /// The place of the material in a list of four amounts.
    pub open spec fn place(self) -> int {
        match self {
            Material::Ore => 0,
            Material::Clay => 1,
            Material::Obsidian => 2,
            Material::Geode => 3,
        }
    }

    /// The place of the material in a list of four amounts.
    pub fn index(self) -> (place: usize)
        ensures
            place == self.place(),
    {
        match self {
            Material::Ore => 0,
            Material::Clay => 1,
            Material::Obsidian => 2,
            Material::Geode => 3,
        }
    }

    /// The material at a place, if the place is one of the four.
    pub fn from_repr(place: usize) -> (material: Option<Material>)
        ensures
            match material {
                Some(material) => material.place() == place,
                None => place >= 4,
            },
    {
        if place == 0 {
            Some(Material::Ore)
        } else if place == 1 {
            Some(Material::Clay)
        } else if place == 2 {
            Some(Material::Obsidian)
        } else if place == 3 {
            Some(Material::Geode)
        } else {
            None
        }
    }
}

/// One amount for each material.
#[derive(Clone, Copy, Debug)]
pub struct MaterialMap<T: Copy>(pub [T; 4]);

impl<T: Copy> MaterialMap<T> {
    /// The amount for `index`.
    pub fn get(&self, index: Material) -> (amount: T)
        ensures
            amount == self.0@[index.place()],
    {
        self.0[index.index()]
    }
}

/// What a robot costs, in each material.
#[derive(Clone, Copy, Debug)]
pub struct MaterialCost(pub [i16; 4]);

impl View for MaterialCost {
    type V = Seq<i16>;

    /// The cost in ore, clay, obsidian and geodes.
    open spec fn view(&self) -> Seq<i16> {
        self.0@
    }
}

/// Whether the four amounts are costs that a blueprint can state: each
/// between zero and twice the greatest number that a blueprint can hold.
pub open spec fn is_cost(amounts: Seq<i16>) -> bool {
    amounts.len() == 4 && forall|m: int| 0 <= m < 4 ==> 0 <= #[trigger] amounts[m] <= 510
}

/// The sum of two costs, material by material.
pub open spec fn cost_sum(a: Seq<i16>, b: Seq<i16>) -> Seq<i16> {
    Seq::new(4, |m: int| (a[m] + b[m]) as i16)
}

impl MaterialCost {
    /// The cost of both together.
    pub fn plus(self, rhs: Self) -> (sum: MaterialCost)
        requires
            self@.len() == 4,
            rhs@.len() == 4,
            forall|m: int| 0 <= m < 4 ==> 0 <= #[trigger] self@[m] <= 255,
            forall|m: int| 0 <= m < 4 ==> 0 <= #[trigger] rhs@[m] <= 255,
        ensures
            sum@ == cost_sum(self@, rhs@),
            is_cost(sum@),
    {
        let sum = MaterialCost(
            [
                self.0[0] + rhs.0[0],
                self.0[1] + rhs.0[1],
                self.0[2] + rhs.0[2],
                self.0[3] + rhs.0[3],
            ],
        );
        proof {
            assert(sum@ =~= cost_sum(self@, rhs@));
        }
        sum
    }

    /// The cost in one material.
    pub fn get(&self, index: Material) -> (amount: i16)
        ensures
            amount == self@[index.place()],
    {
        self.0[index.index()]
    }
}

/// The cost in a single material that the input states at offset `from`, and
/// the offset behind it: a number and the name of ore, clay or obsidian.
pub open spec fn single_cost_at(input: Seq<u8>, from: int) -> Option<(Seq<i16>, int)> {
    match parsed_unsigned(input, from, 255) {
        Some((amount, behind)) => match word_at(input, behind, " ore".spec_bytes()) {
            Some(to) => Some((seq![amount as i16, 0i16, 0i16, 0i16], to)),
            None => match word_at(input, behind, " clay".spec_bytes()) {
                Some(to) => Some((seq![0i16, amount as i16, 0i16, 0i16], to)),
                None => match word_at(input, behind, " obsidian".spec_bytes()) {
                    Some(to) => Some((seq![0i16, 0i16, amount as i16, 0i16], to)),
                    None => None,
                },
            },
        },
        None => None,
    }
}

/// The cost that the input states at offset `from`, and the offset behind it:
/// a cost in a single material, or two of them with `and` between them.
pub open spec fn cost_at(input: Seq<u8>, from: int) -> Option<(Seq<i16>, int)> {
    match single_cost_at(input, from) {
        Some((first, behind)) => match word_at(input, behind, " and ".spec_bytes()) {
            Some(second_from) => match single_cost_at(input, second_from) {
                Some((second, to)) => Some((cost_sum(first, second), to)),
                None => Some((first, behind)),
            },
            None => Some((first, behind)),
        },
        None => None,
    }
}

impl MaterialCost {
    /// Reads a cost in a single material.
    pub fn parse_single_cost(input: &[u8], from: usize) -> (read: Option<(MaterialCost, usize)>)
        requires
            from <= input@.len(),
        ensures
            match read {
                Some((cost, to)) => {
                    &&& single_cost_at(input@, from as int) == Some((cost@, to as int))
                    &&& from <= to <= input@.len()
                    &&& forall|m: int| 0 <= m < 4 ==> 0 <= #[trigger] cost@[m] <= 255
                },
                None => single_cost_at(input@, from as int) is None,
            },
    {
        let (c, behind) = match text_u8(input, from) {
            Some(read) => read,
            None => {
                return None;
            },
        };
        if let Some(to) = tag(input, behind, " ore".as_bytes()) {
            let cost = MaterialCost([c as i16, 0, 0, 0]);
            proof {
                assert(cost@ =~= seq![c as i16, 0i16, 0i16, 0i16]);
            }
            return Some((cost, to));
        }
        if let Some(to) = tag(input, behind, " clay".as_bytes()) {
            let cost = MaterialCost([0, c as i16, 0, 0]);
            proof {
                assert(cost@ =~= seq![0i16, c as i16, 0i16, 0i16]);
            }
            return Some((cost, to));
        }
        if let Some(to) = tag(input, behind, " obsidian".as_bytes()) {
            let cost = MaterialCost([0, 0, c as i16, 0]);
            proof {
                assert(cost@ =~= seq![0i16, 0i16, c as i16, 0i16]);
            }
            return Some((cost, to));
        }
        None
    }
}

impl AocParsable for MaterialCost {
    open spec fn parsed(input: Seq<u8>, from: int) -> Option<(Seq<i16>, int)> {
        cost_at(input, from)
    }

    fn parse_from_string(input: &[u8], from: usize) -> (read: Option<(Self, usize)>) {
        let (first, behind) = match MaterialCost::parse_single_cost(input, from) {
            Some(read) => read,
            None => {
                return None;
            },
        };
        if let Some(second_from) = tag(input, behind, " and ".as_bytes()) {
            if let Some((second, to)) = MaterialCost::parse_single_cost(input, second_from) {
                return Some((first.plus(second), to));
            }
        }
        Some((first, behind))
    }
}

/// A cost that was read is a cost.
pub proof fn lemma_cost_at(input: Seq<u8>, from: int)
    ensures
        match cost_at(input, from) {
            Some((cost, to)) => is_cost(cost),
            None => true,
        },
{
    match single_cost_at(input, from) {
        Some((first, behind)) => {
            match word_at(input, behind, " and ".spec_bytes()) {
                Some(second_from) => {
                    match single_cost_at(input, second_from) {
                        Some((second, to)) => {},
                        None => {},
                    }
                },
                None => {},
            }
        },
        None => {},
    }
}

/// What each kind of robot costs according to one blueprint.
#[derive(Debug, Clone, Copy)]
pub struct BlueprintCosts {
    pub blueprint_number: u8,
    pub robot_costs: MaterialMap<MaterialCost>,
    pub max_costs_per_material: MaterialCost,
}

/// What a blueprint says.
pub struct BlueprintView {
    pub number: u8,
    pub costs: Seq<Seq<i16>>,
    pub max_costs: Seq<i16>,
}

/// The greater of two amounts.
pub open spec fn greater(a: i16, b: i16) -> i16 {
    if a >= b {
        a
    } else {
        b
    }
}

/// For ore, clay and obsidian, the greatest amount that any robot costs; zero
/// for geodes, of which no robot is made.
pub open spec fn max_costs_of(costs: Seq<Seq<i16>>) -> Seq<i16> {
    seq![
        greater(greater(greater(costs[0][0], costs[1][0]), costs[2][0]), costs[3][0]),
        greater(greater(greater(costs[0][1], costs[1][1]), costs[2][1]), costs[3][1]),
        greater(greater(greater(costs[0][2], costs[1][2]), costs[2][2]), costs[3][2]),
        0i16,
    ]
}

impl View for BlueprintCosts {
    type V = BlueprintView;

    open spec fn view(&self) -> BlueprintView {
        BlueprintView {
            number: self.blueprint_number,
            costs: Seq::new(4, |robot: int| self.robot_costs.0@[robot]@),
            max_costs: self.max_costs_per_material@,
        }
    }
}

/// Whether the blueprint states four costs and knows their greatest amounts.
pub open spec fn blueprint_wf(blueprint: BlueprintView) -> bool {
    &&& blueprint.costs.len() == 4
    &&& forall|robot: int| 0 <= robot < 4 ==> is_cost(#[trigger] blueprint.costs[robot])
    &&& blueprint.max_costs == max_costs_of(blueprint.costs)
}

/// The blueprint that the input states at offset `from`, and the offset behind
/// it.
#[verifier::opaque]
pub open spec fn blueprint_at(input: Seq<u8>, from: int) -> Option<(BlueprintView, int)> {
    match word_at(input, from, "Blueprint ".spec_bytes()) {
        Some(a) => match parsed_unsigned(input, a, 255) {
            Some((number, b)) => match word_at(
                input,
                b,
                ": Each ore robot costs ".spec_bytes(),
            ) {
                Some(c) => match cost_at(input, c) {
                    Some((ore, d)) => match word_at(
                        input,
                        d,
                        ". Each clay robot costs ".spec_bytes(),
                    ) {
                        Some(e) => match cost_at(input, e) {
                            Some((clay, f)) => blueprint_rest_at(
                                input,
                                f,
                                number as u8,
                                ore,
                                clay,
                            ),
                            None => None,
                        },
                        None => None,
                    },
                    None => None,
                },
                None => None,
            },
            None => None,
        },
        None => None,
    }
}

/// The blueprint with the given number and costs of the first two robots
/// whose other costs the input states at offset `from`.
pub open spec fn blueprint_rest_at(
    input: Seq<u8>,
    from: int,
    number: u8,
    ore: Seq<i16>,
    clay: Seq<i16>,
) -> Option<(BlueprintView, int)> {
    match word_at(input, from, ". Each obsidian robot costs ".spec_bytes()) {
        Some(a) => match cost_at(input, a) {
            Some((obsidian, b)) => match word_at(
                input,
                b,
                ". Each geode robot costs ".spec_bytes(),
            ) {
                Some(c) => match cost_at(input, c) {
                    Some((geode, d)) => match word_at(input, d, ".".spec_bytes()) {
                        Some(to) => Some(
                            (
                                BlueprintView {
                                    number: number,
                                    costs: seq![ore, clay, obsidian, geode],
                                    max_costs: max_costs_of(seq![ore, clay, obsidian, geode]),
                                },
                                to,
                            ),
                        ),
                        None => None,
                    },
                    None => None,
                },
                None => None,
            },
            None => None,
        },
        None => None,
    }
}

/// The greater of two amounts.
fn max_of(a: i16, b: i16) -> (max: i16)
    ensures
        max == greater(a, b),
{
    if a >= b {
        a
    } else {
        b
    }
}

impl BlueprintCosts {
    /// The blueprint with the given number and robot costs.
    fn with_costs(
        blueprint_number: u8,
        ore_robot: MaterialCost,
        clay_robot: MaterialCost,
        obsidian_robot: MaterialCost,
        geode_robot: MaterialCost,
    ) -> (blueprint: BlueprintCosts)
        requires
            ore_robot@.len() == 4,
            clay_robot@.len() == 4,
            obsidian_robot@.len() == 4,
            geode_robot@.len() == 4,
        ensures
            blueprint@.number == blueprint_number,
            blueprint@.costs == seq![ore_robot@, clay_robot@, obsidian_robot@, geode_robot@],
            blueprint@.max_costs == max_costs_of(
                seq![ore_robot@, clay_robot@, obsidian_robot@, geode_robot@],
            ),
    {
        let raw_robot_costs = [ore_robot, clay_robot, obsidian_robot, geode_robot];
        let max_costs_per_material = MaterialCost(
            [
                max_of(
                    max_of(max_of(ore_robot.0[0], clay_robot.0[0]), obsidian_robot.0[0]),
                    geode_robot.0[0],
                ),
                max_of(
                    max_of(max_of(ore_robot.0[1], clay_robot.0[1]), obsidian_robot.0[1]),
                    geode_robot.0[1],
                ),
                max_of(
                    max_of(max_of(ore_robot.0[2], clay_robot.0[2]), obsidian_robot.0[2]),
                    geode_robot.0[2],
                ),
                0i16,
            ],
        );
        let blueprint = BlueprintCosts {
            blueprint_number,
            robot_costs: MaterialMap(raw_robot_costs),
            max_costs_per_material,
        };
        proof {
            let costs = seq![ore_robot@, clay_robot@, obsidian_robot@, geode_robot@];
            assert(blueprint@.costs =~= costs);
            assert(blueprint@.max_costs =~= max_costs_of(costs));
        }
        blueprint
    }

    /// Reads the costs of the obsidian robot and the geode robot.
    fn parse_rest(
        input: &[u8],
        from: usize,
        blueprint_number: u8,
        ore_robot: MaterialCost,
        clay_robot: MaterialCost,
    ) -> (read: Option<(BlueprintCosts, usize)>)
        requires
            from <= input@.len(),
            ore_robot@.len() == 4,
            clay_robot@.len() == 4,
        ensures
            match read {
                Some((blueprint, to)) => blueprint_rest_at(
                    input@,
                    from as int,
                    blueprint_number,
                    ore_robot@,
                    clay_robot@,
                ) == Some((blueprint@, to as int)) && from <= to <= input@.len(),
                None => blueprint_rest_at(
                    input@,
                    from as int,
                    blueprint_number,
                    ore_robot@,
                    clay_robot@,
                ) is None,
            },
    {
        let g = match tag(input, from, ". Each obsidian robot costs ".as_bytes()) {
            Some(to) => to,
            None => {
                return None;
            },
        };
        let (obsidian_robot, h) = match MaterialCost::parse_from_string(input, g) {
            Some(read) => read,
            None => {
                return None;
            },
        };
        let i = match tag(input, h, ". Each geode robot costs ".as_bytes()) {
            Some(to) => to,
            None => {
                return None;
            },
        };
        let (geode_robot, j) = match MaterialCost::parse_from_string(input, i) {
            Some(read) => read,
            None => {
                return None;
            },
        };
        let to = match tag(input, j, ".".as_bytes()) {
            Some(to) => to,
            None => {
                return None;
            },
        };
        proof {
            lemma_cost_at(input@, g as int);
            lemma_cost_at(input@, i as int);
        }
        let blueprint = BlueprintCosts::with_costs(
            blueprint_number,
            ore_robot,
            clay_robot,
            obsidian_robot,
            geode_robot,
        );
        Some((blueprint, to))
    }
}

impl AocLineParsable for BlueprintCosts {
    open spec fn parsed_line(input: Seq<u8>, from: int) -> Option<(BlueprintView, int)> {
        blueprint_at(input, from)
    }

    fn parse_from_line(input: &[u8], from: usize) -> (read: Option<(Self, usize)>) {
        proof {
            reveal(blueprint_at);
        }
        let a = match tag(input, from, "Blueprint ".as_bytes()) {
            Some(to) => to,
            None => {
                return None;
            },
        };
        let (blueprint_number, b) = match text_u8(input, a) {
            Some(read) => read,
            None => {
                return None;
            },
        };
        let c = match tag(input, b, ": Each ore robot costs ".as_bytes()) {
            Some(to) => to,
            None => {
                return None;
            },
        };
        let (ore_robot, d) = match MaterialCost::parse_from_string(input, c) {
            Some(read) => read,
            None => {
                return None;
            },
        };
        let e = match tag(input, d, ". Each clay robot costs ".as_bytes()) {
            Some(to) => to,
            None => {
                return None;
            },
        };
        let (clay_robot, f) = match MaterialCost::parse_from_string(input, e) {
            Some(read) => read,
            None => {
                return None;
            },
        };
        proof {
            lemma_cost_at(input@, c as int);
            lemma_cost_at(input@, e as int);
        }
        BlueprintCosts::parse_rest(input, f, blueprint_number, ore_robot, clay_robot)
    }
}

/// A blueprint that was read is well formed.
pub proof fn lemma_blueprint_at(input: Seq<u8>, from: int)
    ensures
        match blueprint_at(input, from) {
            Some((blueprint, to)) => blueprint_wf(blueprint),
            None => true,
        },
{
    reveal(blueprint_at);
    match blueprint_at(input, from) {
        Some((blueprint, to)) => {
            let a = word_at(input, from, "Blueprint ".spec_bytes())->0;
            let b = match parsed_unsigned(input, a, 255) {
                Some((number, b)) => b,
                None => 0,
            };
            let c = word_at(input, b, ": Each ore robot costs ".spec_bytes())->0;
            lemma_cost_at(input, c);
            let d = match cost_at(input, c) {
                Some((ore, d)) => d,
                None => 0,
            };
            let e = word_at(input, d, ". Each clay robot costs ".spec_bytes())->0;
            lemma_cost_at(input, e);
            let f = match cost_at(input, e) {
                Some((clay, f)) => f,
                None => 0,
            };
            let g = word_at(input, f, ". Each obsidian robot costs ".spec_bytes())->0;
            lemma_cost_at(input, g);
            let h = match cost_at(input, g) {
                Some((obsidian, h)) => h,
                None => 0,
            };
            let i = word_at(input, h, ". Each geode robot costs ".spec_bytes())->0;
            lemma_cost_at(input, i);
        },
        None => {},
    }
}

/// What has been collected, and the robots that collect.
#[derive(Clone, Copy, Debug)]
pub struct Inventory {
    pub materials: [i16; 4],
    pub robots: MaterialMap<i16>,
}

/// The amounts of an inventory: what has been collected of each material, and
/// how many robots collect it.
pub struct InventoryView {
    pub materials: Seq<int>,
    pub robots: Seq<int>,
}

impl View for Inventory {
    type V = InventoryView;

    open spec fn view(&self) -> InventoryView {
        InventoryView {
            materials: Seq::new(4, |m: int| self.materials@[m] as int),
            robots: Seq::new(4, |m: int| self.robots.0@[m] as int),
        }
    }
}

/// The inventory after every robot has collected once.
pub open spec fn produced(inventory: InventoryView) -> InventoryView {
    InventoryView {
        materials: Seq::new(4, |m: int| inventory.materials[m] + inventory.robots[m]),
        robots: inventory.robots,
    }
}

/// The inventory after a robot that collects `robot` has been built.
pub open spec fn with_robot(
    inventory: InventoryView,
    robot: Material,
    blueprint: BlueprintView,
) -> InventoryView {
    InventoryView {
        materials: Seq::new(
            4,
            |m: int| inventory.materials[m] - blueprint.costs[robot.place()][m],
        ),
        robots: inventory.robots.update(robot.place(), inventory.robots[robot.place()] + 1),
    }
}

/// Whether enough has been collected to build a robot that collects `robot`.
pub open spec fn affordable(
    inventory: InventoryView,
    robot: Material,
    blueprint: BlueprintView,
) -> bool {
    forall|m: int|
        0 <= m < 4 ==> #[trigger] inventory.materials[m] >= blueprint.costs[robot.place()][m]
}

/// Whether building a robot that collects `robot` could still be of use:
/// geodes always are; of anything else, more may be needed in the remaining
/// steps than is there and will be collected.
pub open spec fn is_potential(
    robot: Material,
    remaining: int,
    inventory: InventoryView,
    blueprint: BlueprintView,
) -> bool {
    robot == Material::Geode || inventory.robots[robot.place()] * remaining
        + inventory.materials[robot.place()] < blueprint.max_costs[robot.place()] * remaining
}

/// The material at a place.
pub open spec fn material_at(place: int) -> Material {
    if place == 0 {
        Material::Ore
    } else if place == 1 {
        Material::Clay
    } else if place == 2 {
        Material::Obsidian
    } else {
        Material::Geode
    }
}

/// The greatest number of geodes that the search finds in `remaining` steps,
/// starting from `inventory` and working towards a robot that collects
/// `next`, if that is given.
#[verifier::opaque]
pub open spec fn best_geodes(
    remaining: nat,
    inventory: InventoryView,
    blueprint: BlueprintView,
    next: Option<Material>,
) -> int
    decreases remaining, 5nat,
{
    if remaining == 0 {
        inventory.materials[3]
    } else if next is Some && !affordable(inventory, next->0, blueprint) {
        best_geodes((remaining - 1) as nat, produced(inventory), blueprint, next)
    } else {
        best_choice(
            remaining,
            if next is Some {
                with_robot(produced(inventory), next->0, blueprint)
            } else {
                produced(inventory)
            },
            blueprint,
            4,
        )
    }
}

/// The greatest number of geodes that the search finds when it goes on, with
/// `remaining` steps left before this one, towards one of the first `upto`
/// kinds of robot that could still be of use; zero where none could.
pub open spec fn best_choice(
    remaining: nat,
    built: InventoryView,
    blueprint: BlueprintView,
    upto: nat,
) -> int
    decreases remaining, upto,
{
    if upto == 0 || remaining == 0 {
        0
    } else {
        let rest = best_choice(remaining, built, blueprint, (upto - 1) as nat);
        let robot = material_at(upto - 1);
        if is_potential(robot, remaining as int, built, blueprint) {
            let found = best_geodes((remaining - 1) as nat, built, blueprint, Some(robot));
            if found > rest {
                found
            } else {
                rest
            }
        } else {
            rest
        }
    }
}

/// Whether the inventory is what can have come about in `elapsed` steps: no
/// more than one robot built per step, and no more collected than these
/// robots can have collected.
pub open spec fn is_bounded(inventory: InventoryView, elapsed: int) -> bool {
    &&& inventory.materials.len() == 4
    &&& inventory.robots.len() == 4
    &&& forall|m: int| 0 <= m < 4 ==> 0 <= #[trigger] inventory.robots[m] <= elapsed + 1
    &&& forall|m: int|
        0 <= m < 4 ==> 0 <= #[trigger] inventory.materials[m] <= (elapsed + 1) * elapsed
}

impl Inventory {
    /// The inventory with the given robots and nothing collected.
    pub fn new(initial_robots: [i16; 4]) -> (inventory: Self)
        ensures
            inventory.materials@ == seq![0i16, 0i16, 0i16, 0i16],
            inventory.robots.0 == initial_robots,
    {
        let inventory = Inventory { materials: [0, 0, 0, 0], robots: MaterialMap(initial_robots) };
        proof {
            assert(inventory.materials@ =~= seq![0i16, 0i16, 0i16, 0i16]);
        }
        inventory
    }

    /// Builds a robot that collects `material`, and pays for it.
    pub fn add_robot(&mut self, material: Material, blueprint_costs: &BlueprintCosts)
        requires
            blueprint_wf(blueprint_costs@),
            old(self)@.robots[material.place()] < i16::MAX,
            forall|m: int| 0 <= m < 4 ==> #[trigger] old(self)@.materials[m] >= 0,
        ensures
            final(self)@ == with_robot(old(self)@, material, blueprint_costs@),
    {
        let place = material.index();
        let cost = blueprint_costs.robot_costs.get(material);
        proof {
            assert(cost@ == blueprint_costs@.costs[material.place()]);
            assert(is_cost(blueprint_costs@.costs[material.place()]));
            assert(old(self)@.materials[0] >= 0);
            assert(old(self)@.materials[1] >= 0);
            assert(old(self)@.materials[2] >= 0);
            assert(old(self)@.materials[3] >= 0);
        }
        self.robots.0[place] = self.robots.0[place] + 1;
        self.materials[0] = self.materials[0] - cost.0[0];
        self.materials[1] = self.materials[1] - cost.0[1];
        self.materials[2] = self.materials[2] - cost.0[2];
        self.materials[3] = self.materials[3] - cost.0[3];
        proof {
            let target = with_robot(old(self)@, material, blueprint_costs@);
            assert(self@.materials =~= target.materials);
            assert(self@.robots =~= target.robots);
        }
    }

    /// Simulates each robot taking one turn, producing one material of its
    /// type for the inventory.
    pub fn produce_materials(&mut self)
        requires
            forall|m: int|
                0 <= m < 4 ==> i16::MIN <= #[trigger] old(self)@.materials[m] + old(
                    self,
                )@.robots[m] <= i16::MAX,
        ensures
            final(self)@ == produced(old(self)@),
    {
        proof {
            assert(i16::MIN <= old(self)@.materials[0] + old(self)@.robots[0] <= i16::MAX);
            assert(i16::MIN <= old(self)@.materials[1] + old(self)@.robots[1] <= i16::MAX);
            assert(i16::MIN <= old(self)@.materials[2] + old(self)@.robots[2] <= i16::MAX);
            assert(i16::MIN <= old(self)@.materials[3] + old(self)@.robots[3] <= i16::MAX);
        }
        self.materials[0] = self.materials[0] + self.robots.0[0];
        self.materials[1] = self.materials[1] + self.robots.0[1];
        self.materials[2] = self.materials[2] + self.robots.0[2];
        self.materials[3] = self.materials[3] + self.robots.0[3];
        proof {
            assert(self@.materials =~= produced(old(self)@).materials);
            assert(self@.robots =~= produced(old(self)@).robots);
        }
    }

    /// Returns true if there are enough materials to produce a given robot
    /// type with the given blueprint.
    pub fn can_afford_robot(&self, for_material: Material, blueprint_costs: &BlueprintCosts) -> (can:
        bool)
        requires
            blueprint_wf(blueprint_costs@),
        ensures
            can == affordable(self@, for_material, blueprint_costs@),
    {
        let material_cost = blueprint_costs.robot_costs.get(for_material);
        proof {
            assert(material_cost@ == blueprint_costs@.costs[for_material.place()]);
        }
        let can = self.materials[0] >= material_cost.0[0] && self.materials[1] >= material_cost.0[1]
            && self.materials[2] >= material_cost.0[2] && self.materials[3] >= material_cost.0[3];
        proof {
            if can {
                assert forall|m: int| 0 <= m < 4 implies #[trigger] self@.materials[m]
                    >= blueprint_costs@.costs[for_material.place()][m] by {}
            } else {
                if self.materials[0] < material_cost.0[0] {
                    assert(self@.materials[0] < blueprint_costs@.costs[for_material.place()][0]);
                } else if self.materials[1] < material_cost.0[1] {
                    assert(self@.materials[1] < blueprint_costs@.costs[for_material.place()][1]);
                } else if self.materials[2] < material_cost.0[2] {
                    assert(self@.materials[2] < blueprint_costs@.costs[for_material.place()][2]);
                } else {
                    assert(self@.materials[3] < blueprint_costs@.costs[for_material.place()][3]);
                }
            }
        }
        can
    }
}

/// The greatest number of steps for which the search keeps within the
/// numbers that it computes with.
pub const MAX_STEPS: u8 = 64;

/// Products of bounded amounts are bounded.
proof fn lemma_amounts(robots: int, materials: int, max_cost: int, remaining: int, elapsed: int)
    requires
        0 <= robots <= elapsed + 1,
        0 <= materials <= (elapsed + 1) * elapsed,
        0 <= max_cost <= 510,
        0 <= remaining <= 64,
        0 <= elapsed <= 64,
    ensures
        0 <= robots * remaining <= 65 * 64,
        0 <= materials <= 65 * 64,
        0 <= max_cost * remaining <= 510 * 64,
{
    assert(0 <= robots * remaining <= 65 * 64) by (nonlinear_arith)
        requires
            0 <= robots <= 65,
            0 <= remaining <= 64,
    ;
    assert((elapsed + 1) * elapsed <= 65 * 64) by (nonlinear_arith)
        requires
            0 <= elapsed <= 64,
    ;
    assert(0 <= max_cost * remaining <= 510 * 64) by (nonlinear_arith)
        requires
            0 <= max_cost <= 510,
            0 <= remaining <= 64,
    ;
}

/// The greatest amounts of a well-formed blueprint are costs.
proof fn lemma_max_costs(blueprint: BlueprintView, place: int)
    requires
        blueprint_wf(blueprint),
        0 <= place < 4,
    ensures
        0 <= blueprint.max_costs[place] <= 510,
{
    assert(is_cost(blueprint.costs[0]));
    assert(is_cost(blueprint.costs[1]));
    assert(is_cost(blueprint.costs[2]));
    assert(is_cost(blueprint.costs[3]));
    assert(0 <= blueprint.costs[0][0] <= 510 && 0 <= blueprint.costs[0][1] <= 510 && 0
        <= blueprint.costs[0][2] <= 510);
    assert(0 <= blueprint.costs[1][0] <= 510 && 0 <= blueprint.costs[1][1] <= 510 && 0
        <= blueprint.costs[1][2] <= 510);
    assert(0 <= blueprint.costs[2][0] <= 510 && 0 <= blueprint.costs[2][1] <= 510 && 0
        <= blueprint.costs[2][2] <= 510);
    assert(0 <= blueprint.costs[3][0] <= 510 && 0 <= blueprint.costs[3][1] <= 510 && 0
        <= blueprint.costs[3][2] <= 510);
}

/// Ensures that creating this robot might potentially be useful.
fn is_potential_next_robot(
    robot_material: Material,
    remaining_steps: i16,
    inventory: Inventory,
    blueprint_costs: &BlueprintCosts,
    Ghost(elapsed): Ghost<int>,
) -> (potential: bool)
    requires
        blueprint_wf(blueprint_costs@),
        is_bounded(inventory@, elapsed),
        0 <= remaining_steps <= 64,
        0 <= elapsed <= 64,
    ensures
        potential == is_potential(
            robot_material,
            remaining_steps as int,
            inventory@,
            blueprint_costs@,
        ),
{
    if robot_material == Material::Geode {
        return true;
    }
    let place = robot_material.index();
    proof {
        lemma_max_costs(blueprint_costs@, place as int);
        assert(0 <= inventory@.robots[place as int] <= elapsed + 1);
        assert(0 <= inventory@.materials[place as int] <= (elapsed + 1) * elapsed);
        lemma_amounts(
            inventory@.robots[place as int],
            inventory@.materials[place as int],
            blueprint_costs@.max_costs[place as int] as int,
            remaining_steps as int,
            elapsed,
        );
    }
    inventory.robots.get(robot_material) * remaining_steps + inventory.materials[place]
        < blueprint_costs.max_costs_per_material.get(robot_material) * remaining_steps
}

/// What the inventory is bounded by after the robots have collected once.
proof fn lemma_produced_bounded(inventory: InventoryView, elapsed: int)
    requires
        is_bounded(inventory, elapsed),
        0 <= elapsed,
    ensures
        is_bounded(produced(inventory), elapsed + 1),
        forall|m: int|
            0 <= m < 4 ==> 0 <= #[trigger] produced(inventory).materials[m] <= (elapsed + 1) * (
            elapsed + 1),
{
    assert forall|m: int| 0 <= m < 4 implies 0 <= #[trigger] produced(inventory).materials[m] <= (
    elapsed + 1) * (elapsed + 1) by {
        assert(0 <= inventory.robots[m] <= elapsed + 1);
        assert(0 <= inventory.materials[m] <= (elapsed + 1) * elapsed);
        assert((elapsed + 1) * elapsed + (elapsed + 1) == (elapsed + 1) * (elapsed + 1))
            by (nonlinear_arith);
    }
    assert((elapsed + 1) * (elapsed + 1) <= (elapsed + 2) * (elapsed + 1)) by (nonlinear_arith)
        requires
            0 <= elapsed,
    ;
    assert forall|m: int| 0 <= m < 4 implies 0 <= #[trigger] produced(inventory).robots[m]
        <= elapsed + 2 by {
        assert(0 <= inventory.robots[m] <= elapsed + 1);
    }
}

/// What one more kind of robot adds to the choice.
proof fn lemma_choice_step(
    remaining: nat,
    built: InventoryView,
    blueprint: BlueprintView,
    upto: nat,
)
    requires
        remaining > 0,
        upto > 0,
    ensures
        best_choice(remaining, built, blueprint, upto) == ({
            let rest = best_choice(remaining, built, blueprint, (upto - 1) as nat);
            let robot = material_at(upto - 1);
            let found = best_geodes((remaining - 1) as nat, built, blueprint, Some(robot));
            if is_potential(robot, remaining as int, built, blueprint) && found > rest {
                found
            } else {
                rest
            }
        }),
        best_choice(remaining, built, blueprint, 0) == 0,
{
    reveal(best_geodes);
}

/// The search for the greatest number of geodes, step by step.
fn robot_choices_dfs_recursive(
    remaining_steps: u8,
    inventory: Inventory,
    blueprint_costs: &BlueprintCosts,
    maybe_next_robot: Option<Material>,
    Ghost(elapsed): Ghost<int>,
) -> (geodes: usize)
    requires
        blueprint_wf(blueprint_costs@),
        is_bounded(inventory@, elapsed),
        0 <= elapsed,
        elapsed + remaining_steps <= 64,
    ensures
        geodes == best_geodes(remaining_steps as nat, inventory@, blueprint_costs@, maybe_next_robot),
    decreases remaining_steps, 5nat,
{
    proof {
        reveal(best_geodes);
    }
    if remaining_steps == 0 {
        proof {
            assert(0 <= inventory@.materials[3]);
        }
        return inventory.materials[Material::Geode.index()] as usize;
    }
    let mut next_inventory = inventory;
    proof {
        lemma_produced_bounded(inventory@, elapsed);
        assert forall|m: int| 0 <= m < 4 implies i16::MIN <= #[trigger] inventory@.materials[m]
            + inventory@.robots[m] <= i16::MAX by {
            assert(produced(inventory@).materials[m] <= (elapsed + 1) * (elapsed + 1));
            assert((elapsed + 1) * (elapsed + 1) <= 65 * 65) by (nonlinear_arith)
                requires
                    0 <= elapsed <= 64,
            ;
        }
    }
    next_inventory.produce_materials();
    let next_remaining_steps = remaining_steps - 1;

    // If we're working towards affording a robot, recurse until we can afford it.
    if let Some(next_robot) = maybe_next_robot {
        if inventory.can_afford_robot(next_robot, blueprint_costs) {
            proof {
                assert(0 <= next_inventory@.robots[next_robot.place()] <= elapsed + 2);
                assert forall|m: int| 0 <= m < 4 implies #[trigger] next_inventory@.materials[m]
                    >= 0 by {
                    assert(0 <= produced(inventory@).materials[m]);
                }
            }
            next_inventory.add_robot(next_robot, blueprint_costs);
            proof {
                let built = next_inventory@;
                let cost = blueprint_costs@.costs[next_robot.place()];
                assert(is_cost(cost));
                assert forall|m: int| 0 <= m < 4 implies 0 <= #[trigger] built.materials[m] <= (
                elapsed + 2) * (elapsed + 1) by {
                    assert(inventory@.materials[m] >= cost[m]);
                    assert(0 <= inventory@.robots[m]);
                    assert(0 <= cost[m]);
                    assert(produced(inventory@).materials[m] <= (elapsed + 2) * (elapsed + 1));
                }
                assert forall|m: int| 0 <= m < 4 implies 0 <= #[trigger] built.robots[m] <= elapsed
                    + 2 by {
                    assert(0 <= inventory@.robots[m] <= elapsed + 1);
                }
            }
        } else {
            return robot_choices_dfs_recursive(
                next_remaining_steps,
                next_inventory,
                blueprint_costs,
                maybe_next_robot,
                Ghost(elapsed + 1),
            );
        }
    }
    let mut best: usize = 0;
    let mut place: usize = 0;
    while place < 4
        invariant
            place <= 4,
            remaining_steps > 0,
            next_remaining_steps == remaining_steps - 1,
            blueprint_wf(blueprint_costs@),
            is_bounded(next_inventory@, elapsed + 1),
            0 <= elapsed,
            elapsed + remaining_steps <= 64,
            best == best_choice(
                remaining_steps as nat,
                next_inventory@,
                blueprint_costs@,
                place as nat,
            ),
        decreases 4 - place,
    {
        let m = Material::from_repr(place).unwrap();
        proof {
            assert(m == material_at(place as int));
        }
        if is_potential_next_robot(
            m,
            remaining_steps as i16,
            next_inventory,
            blueprint_costs,
            Ghost(elapsed + 1),
        ) {
            let found = robot_choices_dfs_recursive(
                next_remaining_steps,
                next_inventory,
                blueprint_costs,
                Some(m),
                Ghost(elapsed + 1),
            );
            if found > best {
                best = found;
            }
        }
        place += 1;
        proof {
            lemma_choice_step(
                remaining_steps as nat,
                next_inventory@,
                blueprint_costs@,
                place as nat,
            );
        }
    }
    best
}

/// Returns the greatest number of geodes that the search finds in `max_steps`
/// steps, starting with one robot that collects ore.
pub fn robot_choices_dfs(max_steps: u8, blueprint_costs: &BlueprintCosts) -> (geodes: usize)
    requires
        blueprint_wf(blueprint_costs@),
        max_steps <= MAX_STEPS,
    ensures
        geodes == best_geodes(
            max_steps as nat,
            InventoryView {
                materials: seq![0int, 0int, 0int, 0int],
                robots: seq![1int, 0int, 0int, 0int],
            },
            blueprint_costs@,
            None,
        ),
{
    let inventory: Inventory = Inventory::new([1, 0, 0, 0]);
    proof {
        assert(inventory@.materials =~= seq![0int, 0int, 0int, 0int]);
        assert(inventory@.robots =~= seq![1int, 0int, 0int, 0int]);
    }
    robot_choices_dfs_recursive(max_steps, inventory, blueprint_costs, None, Ghost(0))
}

/// The inventory at the start: one robot that collects ore.
pub open spec fn start_inventory() -> InventoryView {
    InventoryView { materials: seq![0int, 0int, 0int, 0int], robots: seq![1int, 0int, 0int, 0int] }
}

/// The greatest number of geodes that the search finds for a blueprint in
/// `steps` steps.
pub open spec fn geodes_of(blueprint: BlueprintView, steps: nat) -> int {
    best_geodes(steps, start_inventory(), blueprint, None)
}

/// The blueprints that the input states, one per line, up to the first line
/// that states none.
pub open spec fn blueprints_of(input: Seq<u8>) -> Seq<BlueprintView> {
    parsed_while::<BlueprintCosts>(input, 0)
}

/// The quality levels of the first `count` blueprints, added up: the number
/// of each times the geodes that it yields in 24 steps. Nothing where a
/// quality level or a sum of the first of them is beyond the greatest number.
#[verifier::opaque]
pub open spec fn quality_sum(blueprints: Seq<BlueprintView>, count: int) -> Option<int>
    decreases count,
{
    if count <= 0 {
        Some(0)
    } else {
        let quality = blueprints[count - 1].number * geodes_of(blueprints[count - 1], 24);
        match quality_sum(blueprints, count - 1) {
            Some(before) => if quality <= usize::MAX && before + quality <= usize::MAX {
                Some(before + quality)
            } else {
                None
            },
            None => None,
        }
    }
}

/// The geodes that the first `count` blueprints yield in 32 steps,
/// multiplied. Nothing for no blueprint, or where a product is beyond the
/// greatest number.
#[verifier::opaque]
pub open spec fn geode_product(blueprints: Seq<BlueprintView>, count: int) -> Option<int>
    decreases count,
{
    if count <= 0 {
        None
    } else if count == 1 {
        Some(geodes_of(blueprints[0], 32))
    } else {
        match geode_product(blueprints, count - 1) {
            Some(before) => if before * geodes_of(blueprints[count - 1], 32) <= usize::MAX {
                Some(before * geodes_of(blueprints[count - 1], 32))
            } else {
                None
            },
            None => None,
        }
    }
}

/// The number of blueprints that are left once the elephants have eaten the
/// others: three at most.
pub open spec fn left_over(count: int) -> int {
    if count < 3 {
        count
    } else {
        3
    }
}

/// Every blueprint that is read is well formed.
proof fn lemma_blueprints_wf(input: Seq<u8>, from: int)
    ensures
        forall|i: int|
            0 <= i < parsed_while::<BlueprintCosts>(input, from).len() ==> blueprint_wf(
                #[trigger] parsed_while::<BlueprintCosts>(input, from)[i],
            ),
    decreases input.len() - from,
{
    lemma_blueprint_at(input, from);
    match BlueprintCosts::parsed(input, from) {
        Some((record, to)) => {
            if from < to <= input.len() {
                lemma_blueprints_wf(input, to);
                let rest = parsed_while::<BlueprintCosts>(input, to);
                let all = parsed_while::<BlueprintCosts>(input, from);
                assert(all =~= seq![record] + rest);
                assert forall|i: int| 0 <= i < all.len() implies blueprint_wf(#[trigger] all[i]) by {
                    if i > 0 {
                        assert(all[i] == rest[i - 1]);
                    }
                }
            }
        },
        None => {},
    }
}

/// Once the quality levels do not add up, more of them do not either.
proof fn lemma_quality_onward(blueprints: Seq<BlueprintView>, failed: int, count: int)
    requires
        0 < failed <= count,
        quality_sum(blueprints, failed) is None,
    ensures
        quality_sum(blueprints, count) is None,
    decreases count,
{
    reveal(quality_sum);
    if count > failed {
        lemma_quality_onward(blueprints, failed, count - 1);
    }
}

/// One more blueprint adds its quality level to the sum.
proof fn lemma_quality_step(blueprints: Seq<BlueprintView>, count: int, before: int, found: int)
    requires
        count >= 1,
        quality_sum(blueprints, count - 1) == Some(before),
        found == geodes_of(blueprints[count - 1], 24),
    ensures
        quality_sum(blueprints, count) == (if blueprints[count - 1].number * found <= usize::MAX
            && before + blueprints[count - 1].number * found <= usize::MAX {
            Some(before + blueprints[count - 1].number * found)
        } else {
            None
        }),
        quality_sum(blueprints, 0) == Some(0int),
{
    reveal(quality_sum);
}

/// Adds the quality level of a blueprint to a sum.
fn plus_quality(sum: usize, blueprint: &BlueprintCosts) -> (next: Option<usize>)
    requires
        blueprint_wf(blueprint@),
    ensures
        match next {
            Some(next) => {
                &&& blueprint@.number * geodes_of(blueprint@, 24) <= usize::MAX
                &&& sum + blueprint@.number * geodes_of(blueprint@, 24) == next
            },
            None => blueprint@.number * geodes_of(blueprint@, 24) > usize::MAX || sum
                + blueprint@.number * geodes_of(blueprint@, 24) > usize::MAX,
        },
{
    let geodes = robot_choices_dfs(24, blueprint);
    match (blueprint.blueprint_number as usize).checked_mul(geodes) {
        Some(quality) => sum.checked_add(quality),
        None => None,
    }
}

/// The quality levels of all blueprints, added up. `None` where a quality
/// level or a sum is beyond the greatest number.
pub fn part_one(input: &str) -> (sum: Option<usize>)
    ensures
        match sum {
            Some(sum) => quality_sum(
                blueprints_of(input.spec_bytes()),
                blueprints_of(input.spec_bytes()).len() as int,
            ) == Some(sum as int),
            None => quality_sum(
                blueprints_of(input.spec_bytes()),
                blueprints_of(input.spec_bytes()).len() as int,
            ) is None,
        },
{
    let blueprint_options: Vec<BlueprintCosts> = iterate_all(input.as_bytes());
    let ghost blueprints = blueprints_of(input.spec_bytes());
    proof {
        lemma_blueprints_wf(input.spec_bytes(), 0);
        reveal(quality_sum);
        assert(quality_sum(blueprints, 0) == Some(0int));
    }
    let mut sum: usize = 0;
    let mut index: usize = 0;
    while index < blueprint_options.len()
        invariant
            index <= blueprint_options@.len(),
            blueprints == views_of(blueprint_options@),
            blueprints == blueprints_of(input.spec_bytes()),
            forall|i: int| 0 <= i < blueprints.len() ==> blueprint_wf(#[trigger] blueprints[i]),
            quality_sum(blueprints, index as int) == Some(sum as int),
        decreases blueprint_options@.len() - index,
    {
        let blueprint = &blueprint_options[index];
        let ghost found = geodes_of(blueprints[index as int], 24);
        let ghost before = sum as int;
        proof {
            assert(blueprint@ == blueprints[index as int]);
            lemma_quality_step(blueprints, index + 1, before, found);
        }
        match plus_quality(sum, blueprint) {
            Some(added) => {
                sum = added;
            },
            None => {
                proof {
                    lemma_quality_onward(blueprints, index + 1, blueprints.len() as int);
                }
                return None;
            },
        }
        index += 1;
    }
    Some(sum)
}

/// Once the geodes do not multiply, more of them do not either.
proof fn lemma_product_onward(blueprints: Seq<BlueprintView>, failed: int, count: int)
    requires
        1 < failed <= count,
        geode_product(blueprints, failed) is None,
    ensures
        geode_product(blueprints, count) is None,
    decreases count,
{
    reveal(geode_product);
    if count > failed {
        lemma_product_onward(blueprints, failed, count - 1);
    }
}

/// One more blueprint multiplies the product by the geodes that it yields.
proof fn lemma_product_step(blueprints: Seq<BlueprintView>, count: int, before: int, found: int)
    requires
        count >= 2,
        geode_product(blueprints, count - 1) == Some(before),
        found == geodes_of(blueprints[count - 1], 32),
    ensures
        geode_product(blueprints, count) == (if before * found <= usize::MAX {
            Some(before * found)
        } else {
            None
        }),
{
    reveal(geode_product);
}

/// The product of the geodes of one blueprint is what it yields; there is
/// none for no blueprint.
proof fn lemma_product_start(blueprints: Seq<BlueprintView>)
    ensures
        geode_product(blueprints, 1) == Some(geodes_of(blueprints[0], 32)),
        geode_product(blueprints, 0) is None,
{
    reveal(geode_product);
}

/// Multiplies a product by the geodes that a blueprint yields in 32 steps.
fn times_geodes(product: usize, blueprint: &BlueprintCosts) -> (next: Option<usize>)
    requires
        blueprint_wf(blueprint@),
    ensures
        match next {
            Some(next) => product * geodes_of(blueprint@, 32) == next,
            None => product * geodes_of(blueprint@, 32) > usize::MAX,
        },
{
    let geodes = robot_choices_dfs(32, blueprint);
    product.checked_mul(geodes)
}

/// The geodes that the first three blueprints yield in 32 steps, multiplied.
/// `None` for no blueprint, or where a product is beyond the greatest number.
pub fn part_two(input: &str) -> (product: Option<usize>)
    ensures
        match product {
            Some(product) => geode_product(
                blueprints_of(input.spec_bytes()),
                left_over(blueprints_of(input.spec_bytes()).len() as int),
            ) == Some(product as int),
            None => geode_product(
                blueprints_of(input.spec_bytes()),
                left_over(blueprints_of(input.spec_bytes()).len() as int),
            ) is None,
        },
{
    let blueprint_options: Vec<BlueprintCosts> = iterate_all(input.as_bytes());
    let ghost blueprints = blueprints_of(input.spec_bytes());
    proof {
        lemma_blueprints_wf(input.spec_bytes(), 0);
    }
    let count = if blueprint_options.len() < 3 {
        blueprint_options.len()
    } else {
        3
    };
    proof {
        lemma_product_start(blueprints);
    }
    if count == 0 {
        return None;
    }
    proof {
        assert(blueprint_options@[0]@ == blueprints[0]);
    }
    let mut product: usize = robot_choices_dfs(32, &blueprint_options[0]);
    let mut index: usize = 1;
    while index < count
        invariant
            1 <= index <= count <= blueprint_options@.len(),
            count == left_over(blueprints.len() as int),
            blueprints == views_of(blueprint_options@),
            blueprints == blueprints_of(input.spec_bytes()),
            forall|i: int| 0 <= i < blueprints.len() ==> blueprint_wf(#[trigger] blueprints[i]),
            geode_product(blueprints, index as int) == Some(product as int),
        decreases count - index,
    {
        let blueprint = &blueprint_options[index];
        proof {
            assert(blueprint@ == blueprints[index as int]);
        }
        let ghost found = geodes_of(blueprints[index as int], 32);
        let ghost before = product as int;
        proof {
            lemma_product_step(blueprints, index + 1, before, found);
        }
        match times_geodes(product, blueprint) {
            Some(next) => {
                proof {
                    assert(blueprint@ == blueprints[index as int]);
                    assert(geodes_of(blueprint@, 32) == found);
                    assert(product * geodes_of(blueprint@, 32) == before * found);
                    assert(next == before * found);
                }
                product = next;
            },
            None => {
                proof {
                    lemma_product_onward(blueprints, index + 1, count as int);
                }
                return None;
            },
        }
        index += 1;
    }
    Some(product)
}

} // verus!
