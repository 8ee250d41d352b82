//! The database of unit and weapon types.

use vstd::prelude::*;
use crate::types::{ZInt, MovePoints};
use crate::unit::{UnitType, WeaponType, UnitClass, UnitTypeId, WeaponTypeId};

verus! {

/// `w` has the given name and numbers.
pub open spec fn weapon_type_is(
    w: WeaponType,
    name: Seq<char>,
    damage: int,
    ap: int,
    accuracy: int,
    max_distance: int,
    min_distance: int,
) -> bool {
    &&& w.name@ == name
    &&& w.damage == damage
    &&& w.ap == ap
    &&& w.accuracy == accuracy
    &&& w.max_distance == max_distance
    &&& w.min_distance == min_distance
    &&& !w.is_inderect
    &&& w.reaction_fire
}

/// `t` has the given name, class and numbers.
pub open spec fn unit_type_is(
    t: UnitType,
    name: Seq<char>,
    class: UnitClass,
    size: int,
    count: int,
    armor: int,
    toughness: int,
    weapon_skill: int,
    weapon_type_id: int,
    move_points: int,
    attack_points: int,
    reactive_attack_points: int,
    los_range: int,
    cover_los_range: int,
    is_transporter: bool,
) -> bool {
    &&& t.name@ == name
    &&& t.class == class
    &&& t.size == size
    &&& t.count == count
    &&& t.armor == armor
    &&& t.toughness == toughness
    &&& t.weapon_skill == weapon_skill
    &&& t.weapon_type_id.id == weapon_type_id
    &&& t.move_points.n == move_points
    &&& t.attack_points == attack_points
    &&& t.reactive_attack_points == reactive_attack_points
    &&& t.los_range == los_range
    &&& t.cover_los_range == cover_los_range
    &&& t.is_transporter == is_transporter
}

/// The built-in weapon types: a cannon and a rifle.
pub open spec fn standard_weapon_types(ws: Seq<WeaponType>) -> bool {
    &&& ws.len() == 2
    &&& weapon_type_is(ws[0], "cannon"@, 9, 9, 5, 5, 2)
    &&& weapon_type_is(ws[1], "rifle"@, 2, 1, 5, 3, 1)
}

/// The built-in unit types: tank, truck, soldier and scout.
pub open spec fn standard_unit_types(ts: Seq<UnitType>) -> bool {
    &&& ts.len() == 4
    &&& unit_type_is(ts[0], "tank"@, UnitClass::Vehicle, 6, 1, 11, 9, 5, 0, 5, 2, 1, 6, 0, false)
    &&& unit_type_is(ts[1], "truck"@, UnitClass::Vehicle, 6, 1, 2, 3, 0, 0, 7, 0, 0, 6, 0, true)
    &&& unit_type_is(ts[2], "soldier"@, UnitClass::Infantry, 4, 4, 1, 2, 5, 1, 4, 2, 1, 6, 1, false)
    &&& unit_type_is(ts[3], "scout"@, UnitClass::Infantry, 4, 2, 1, 2, 5, 1, 6, 2, 1, 8, 2, false)
}

/// `i` is the first index of a weapon type named `name`.
pub open spec fn is_first_weapon_named(ws: Seq<WeaponType>, name: Seq<char>, i: int) -> bool {
    0 <= i < ws.len() && ws[i].name@ == name && forall|j: int| 0 <= j < i ==> ws[j].name@ != name
}

/// `i` is the first index of a unit type named `name`.
pub open spec fn is_first_unit_type_named(ts: Seq<UnitType>, name: Seq<char>, i: int) -> bool {
    0 <= i < ts.len() && ts[i].name@ == name && forall|j: int| 0 <= j < i ==> ts[j].name@ != name
}

fn weapon_type_id(weapon_types: &[WeaponType], name: &str) -> (id: WeaponTypeId)
    requires
        weapon_types@.len() <= i32::MAX,
        exists|i: int| 0 <= i < weapon_types@.len() && weapon_types@[i].name@ == name@,
    ensures
        is_first_weapon_named(weapon_types@, name@, id.id as int),
{
    let name_string = name.to_owned();
    let mut i: usize = 0;
    while i < weapon_types.len()
        invariant
            0 <= i <= weapon_types@.len(),
            weapon_types@.len() <= i32::MAX,
            name_string@ == name@,
            exists|k: int| 0 <= k < weapon_types@.len() && weapon_types@[k].name@ == name@,
            forall|j: int| 0 <= j < i ==> weapon_types@[j].name@ != name@,
        decreases weapon_types@.len() - i,
    {
        if weapon_types[i].name == name_string {
            return WeaponTypeId { id: i as ZInt };
        }
        i = i + 1;
    }
    WeaponTypeId { id: 0 }
}

/// The built-in weapon types.
fn get_weapon_types() -> (ws: Vec<WeaponType>)
    ensures
        standard_weapon_types(ws@),
{
    let mut ws: Vec<WeaponType> = Vec::new();
    ws.push(WeaponType {
        name: "cannon".to_owned(),
        damage: 9,
        ap: 9,
        accuracy: 5,
        max_distance: 5,
        min_distance: 2,
        is_inderect: false,
        reaction_fire: true,
    });
    ws.push(WeaponType {
        name: "rifle".to_owned(),
        damage: 2,
        ap: 1,
        accuracy: 5,
        max_distance: 3,
        min_distance: 1,
        is_inderect: false,
        reaction_fire: true,
    });
    ws
}

/// The built-in unit types, with weapons looked up by name.
fn get_unit_types(weapon_types: &[WeaponType]) -> (ts: Vec<UnitType>)
    requires
        standard_weapon_types(weapon_types@),
    ensures
        standard_unit_types(ts@),
{
    proof {
        reveal_strlit("cannon");
        reveal_strlit("rifle");
        assert(weapon_types@[0].name@ == "cannon"@);
        assert(weapon_types@[1].name@ == "rifle"@);
    }
    let cannon_id = weapon_type_id(weapon_types, "cannon");
    let rifle_id = weapon_type_id(weapon_types, "rifle");
    proof {
        assert(weapon_types@[0].name@ != "rifle"@);
    }
    let mut ts: Vec<UnitType> = Vec::new();
    ts.push(UnitType {
        name: "tank".to_owned(),
        class: UnitClass::Vehicle,
        size: 6,
        count: 1,
        armor: 11,
        toughness: 9,
        weapon_skill: 5,
        weapon_type_id: cannon_id,
        move_points: MovePoints { n: 5 },
        attack_points: 2,
        reactive_attack_points: 1,
        los_range: 6,
        cover_los_range: 0,
        is_transporter: false,
    });
    ts.push(UnitType {
        name: "truck".to_owned(),
        class: UnitClass::Vehicle,
        size: 6,
        count: 1,
        armor: 2,
        toughness: 3,
        weapon_skill: 0,
        weapon_type_id: cannon_id,
        move_points: MovePoints { n: 7 },
        attack_points: 0,
        reactive_attack_points: 0,
        los_range: 6,
        cover_los_range: 0,
        is_transporter: true,
    });
    ts.push(UnitType {
        name: "soldier".to_owned(),
        class: UnitClass::Infantry,
        size: 4,
        count: 4,
        armor: 1,
        toughness: 2,
        weapon_skill: 5,
        weapon_type_id: rifle_id,
        move_points: MovePoints { n: 4 },
        attack_points: 2,
        reactive_attack_points: 1,
        los_range: 6,
        cover_los_range: 1,
        is_transporter: false,
    });
    ts.push(UnitType {
        name: "scout".to_owned(),
        class: UnitClass::Infantry,
        size: 4,
        count: 2,
        armor: 1,
        toughness: 2,
        weapon_skill: 5,
        weapon_type_id: rifle_id,
        move_points: MovePoints { n: 6 },
        attack_points: 2,
        reactive_attack_points: 1,
        los_range: 8,
        cover_los_range: 2,
        is_transporter: false,
    });
    ts
}

/// The database of unit and weapon types.
pub struct Db {
    unit_types: Vec<UnitType>,
    weapon_types: Vec<WeaponType>,
}

impl Db {
    /// The unit types, indexed by `UnitTypeId`.
    pub closed spec fn unit_types(&self) -> Seq<UnitType> {
        self.unit_types@
    }

    /// The weapon types, indexed by `WeaponTypeId`.
    pub closed spec fn weapon_types(&self) -> Seq<WeaponType> {
        self.weapon_types@
    }

    /// Internal consistency: sizes fit in `ZInt` and every unit type's
    /// weapon exists.
    pub open spec fn wf(&self) -> bool {
        &&& self.unit_types().len() <= i32::MAX
        &&& self.weapon_types().len() <= i32::MAX
        &&& forall|i: int| 0 <= i < self.unit_types().len() ==> 0 <= #[trigger] self.unit_types()[i].weapon_type_id.id
            < self.weapon_types().len()
    }

    /// `id` names a unit type of this database.
    pub open spec fn valid_unit_type_id(&self, id: UnitTypeId) -> bool {
        0 <= id.id < self.unit_types().len()
    }

    /// The unit type with the given id.
    pub open spec fn spec_unit_type(&self, id: UnitTypeId) -> UnitType {
        self.unit_types()[id.id as int]
    }

    /// The weapon of the unit type with the given id.
    pub open spec fn spec_weapon_of(&self, id: UnitTypeId) -> WeaponType {
        self.weapon_types()[self.spec_unit_type(id).weapon_type_id.id as int]
    }

    /// The database of the built-in unit and weapon types.
    pub fn new() -> (db: Db)
        ensures
            db.wf(),
            standard_weapon_types(db.weapon_types()),
            standard_unit_types(db.unit_types()),
    {
        let weapon_types = get_weapon_types();
        let unit_types = get_unit_types(weapon_types.as_slice());
        Db { weapon_types: weapon_types, unit_types: unit_types }
    }

    /// Number of unit types.
    pub fn unit_types_count(&self) -> (n: ZInt)
        requires
            self.wf(),
        ensures
            n == self.unit_types().len(),
    {
        self.unit_types.len() as ZInt
    }

    /// The unit type with the given id.
    pub fn unit_type(&self, unit_type_id: &UnitTypeId) -> (t: &UnitType)
        requires
            self.valid_unit_type_id(*unit_type_id),
        ensures
            *t == self.spec_unit_type(*unit_type_id),
    {
        &self.unit_types[unit_type_id.id as usize]
    }

    /// The weapon type with the given id.
    pub fn weapon_type(&self, type_id: &WeaponTypeId) -> (w: &WeaponType)
        requires
            0 <= type_id.id < self.weapon_types().len(),
        ensures
            *w == self.weapon_types()[type_id.id as int],
    {
        &self.weapon_types[type_id.id as usize]
    }

    /// The id of the first unit type named `name`, if there is one.
    fn unit_type_id_opt(&self, name: &str) -> (r: Option<UnitTypeId>)
        requires
            self.wf(),
        ensures
            r is Some <==> exists|i: int| 0 <= i < self.unit_types().len() && self.unit_types()[i].name@ == name@,
            r matches Some(id) ==> is_first_unit_type_named(self.unit_types(), name@, id.id as int),
    {
        let name_string = name.to_owned();
        let mut i: usize = 0;
        while i < self.unit_types.len()
            invariant
                0 <= i <= self.unit_types@.len(),
                self.unit_types@.len() <= i32::MAX,
                name_string@ == name@,
                forall|j: int| 0 <= j < i ==> self.unit_types@[j].name@ != name@,
            decreases self.unit_types@.len() - i,
        {
            if self.unit_types[i].name == name_string {
                return Some(UnitTypeId { id: i as ZInt });
            }
            i = i + 1;
        }
        None
    }

    /// The id of the first unit type named `name`.
    pub fn unit_type_id(&self, name: &str) -> (id: UnitTypeId)
        requires
            self.wf(),
            exists|i: int| 0 <= i < self.unit_types().len() && self.unit_types()[i].name@ == name@,
        ensures
            is_first_unit_type_named(self.unit_types(), name@, id.id as int),
    {
        self.unit_type_id_opt(name).unwrap()
    }

    /// The id of the first weapon type named `name`.
    pub fn weapon_type_id(&self, name: &str) -> (id: WeaponTypeId)
        requires
            self.wf(),
            exists|i: int| 0 <= i < self.weapon_types().len() && self.weapon_types()[i].name@ == name@,
        ensures
            is_first_weapon_named(self.weapon_types(), name@, id.id as int),
    {
        weapon_type_id(self.weapon_types.as_slice(), name)
    }
}

} // verus!
