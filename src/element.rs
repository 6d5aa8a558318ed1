//! The element catalog: kinds, their values, bonds and products, and the
//! token that carries a kind.
use vstd::prelude::*;

verus! {

/// The closed set of element kinds a token can have.
#[allow(non_camel_case_types)]
#[derive(Copy, Clone, Debug, PartialEq, Eq, Structural)]
pub enum ElementType {
    AIR,
    WATER,
    EARTH,
    FIRE,
    SALT,
    SULFUR,
    MERCURY,
    LEAD,
    TIN,
    IRON,
    COPPER,
    SILVER,
    GOLD,
    ASH,
    ANTIMONY,
    AETHER,
}

/// Strength of a kind, used to pick among competing products.
pub open spec fn value_of(t: ElementType) -> u32 {
    match t {
        ElementType::AIR | ElementType::WATER | ElementType::EARTH | ElementType::FIRE => 1,
        ElementType::SALT => 3,
        ElementType::SULFUR => 9,
        ElementType::MERCURY => 27,
        ElementType::LEAD => 81,
        ElementType::TIN => 243,
        ElementType::IRON => 729,
        ElementType::COPPER => 2187,
        ElementType::SILVER => 6561,
        ElementType::GOLD => 19683,
        ElementType::ASH | ElementType::ANTIMONY | ElementType::AETHER => 0,
    }
}

/// Weight of a kind; carried along, not read by any rule.
pub open spec fn weight_of(t: ElementType) -> u32 {
    match t {
        ElementType::AIR | ElementType::WATER | ElementType::EARTH | ElementType::FIRE => 1,
        _ => 3,
    }
}

/// Kinds that a kind reaches out to bond with.
pub open spec fn interacts_of(t: ElementType) -> Seq<ElementType> {
    match t {
        ElementType::AIR => seq![ElementType::AIR, ElementType::WATER, ElementType::EARTH, ElementType::FIRE],
        ElementType::FIRE => seq![ElementType::AIR, ElementType::WATER, ElementType::EARTH, ElementType::FIRE],
        ElementType::WATER => seq![ElementType::AIR, ElementType::WATER, ElementType::EARTH, ElementType::FIRE],
        ElementType::EARTH => seq![ElementType::AIR, ElementType::WATER, ElementType::EARTH, ElementType::FIRE],
        ElementType::SALT => seq![ElementType::SALT],
        ElementType::SULFUR => seq![ElementType::SULFUR],
        ElementType::MERCURY => seq![ElementType::MERCURY],
        ElementType::LEAD => seq![ElementType::LEAD],
        ElementType::TIN => seq![ElementType::TIN],
        ElementType::IRON => seq![ElementType::IRON],
        ElementType::COPPER => seq![ElementType::COPPER],
        ElementType::SILVER => seq![ElementType::SILVER],
        ElementType::GOLD => seq![],
        ElementType::ASH => seq![ElementType::ASH],
        ElementType::ANTIMONY => seq![
            ElementType::MERCURY,
            ElementType::LEAD,
            ElementType::TIN,
            ElementType::IRON,
            ElementType::COPPER,
            ElementType::SILVER,
        ],
        ElementType::AETHER => seq![
            ElementType::AIR,
            ElementType::EARTH,
            ElementType::FIRE,
            ElementType::WATER,
        ],
    }
}

/// What a reacted group whose strongest member has this kind becomes.
pub open spec fn produces_of(t: ElementType) -> Option<ElementType> {
    match t {
        ElementType::AIR | ElementType::WATER | ElementType::EARTH | ElementType::FIRE => Some(
            ElementType::SALT,
        ),
        ElementType::SALT => Some(ElementType::SULFUR),
        ElementType::SULFUR => Some(ElementType::MERCURY),
        ElementType::MERCURY => Some(ElementType::LEAD),
        ElementType::LEAD => Some(ElementType::TIN),
        ElementType::TIN => Some(ElementType::IRON),
        ElementType::IRON => Some(ElementType::COPPER),
        ElementType::COPPER => Some(ElementType::SILVER),
        ElementType::SILVER => Some(ElementType::GOLD),
        ElementType::ASH => Some(ElementType::ASH),
        ElementType::GOLD | ElementType::ANTIMONY | ElementType::AETHER => None,
    }
}

/// Sprite-sheet cell of a kind, in quarters of the sheet: (column, row).
pub open spec fn offset_of(t: ElementType) -> (u32, u32) {
    match t {
        ElementType::AIR => (0, 3),
        ElementType::FIRE => (1, 3),
        ElementType::WATER => (2, 3),
        ElementType::EARTH => (3, 3),
        ElementType::SALT => (0, 2),
        ElementType::SULFUR => (1, 2),
        ElementType::MERCURY => (2, 2),
        ElementType::ASH => (3, 2),
        ElementType::LEAD => (0, 1),
        ElementType::TIN => (1, 1),
        ElementType::IRON => (2, 1),
        ElementType::ANTIMONY => (3, 1),
        ElementType::COPPER => (0, 0),
        ElementType::SILVER => (1, 0),
        ElementType::GOLD => (2, 0),
        ElementType::AETHER => (3, 0),
    }
}

/// Two kinds bond when either lists the other among the kinds it interacts with.
pub open spec fn bonds(a: ElementType, b: ElementType) -> bool {
    interacts_of(a).contains(b) || interacts_of(b).contains(a)
}

/// `s[i]` is the first reagent that has a product and whose value no other
/// reagent with a product exceeds.
pub open spec fn is_first_strongest(s: Seq<ElementType>, i: int) -> bool {
    &&& 0 <= i < s.len()
    &&& produces_of(s[i]).is_some()
    &&& forall|j: int|
        0 <= j < s.len() && produces_of(#[trigger] s[j]).is_some() ==> value_of(s[j]) <= value_of(
            s[i],
        )
    &&& forall|j: int|
        0 <= j < i && produces_of(#[trigger] s[j]).is_some() ==> value_of(s[j]) < value_of(s[i])
}

/// The product of a reagent list: what its first strongest reagent produces,
/// or nothing when no reagent produces anything.
pub open spec fn product_of(s: Seq<ElementType>) -> Option<ElementType> {
    if exists|i: int| is_first_strongest(s, i) {
        produces_of(s[choose|i: int| is_first_strongest(s, i)])
    } else {
        None
    }
}

/// `k` is a kind of `ks` that has a product, and no kind of `ks` with a
/// product has a greater value.
pub open spec fn is_strongest(ks: Set<ElementType>, k: ElementType) -> bool {
    &&& ks.contains(k)
    &&& produces_of(k).is_some()
    &&& forall|k2: ElementType|
        ks.contains(k2) && produces_of(k2).is_some() ==> value_of(k2) <= value_of(k)
}

/// The product of a group holding the kinds `ks`: what its strongest kind
/// produces, or nothing.
pub open spec fn group_product(ks: Set<ElementType>) -> Option<ElementType> {
    if exists|k: ElementType| is_strongest(ks, k) {
        produces_of(choose|k: ElementType| is_strongest(ks, k))
    } else {
        None
    }
}

/// There is at most one first strongest reagent.
proof fn lemma_first_strongest_unique(s: Seq<ElementType>, i: int, j: int)
    requires
        is_first_strongest(s, i),
        is_first_strongest(s, j),
    ensures
        i == j,
{
    if i < j {
        assert(value_of(s[i]) < value_of(s[j]));
        assert(value_of(s[i]) >= value_of(s[j]));
    } else if j < i {
        assert(value_of(s[j]) < value_of(s[i]));
        assert(value_of(s[j]) >= value_of(s[i]));
    }
}

/// Two kinds with products and equal values have the same product.
proof fn lemma_equal_value_same_product(a: ElementType, b: ElementType)
    requires
        produces_of(a).is_some(),
        produces_of(b).is_some(),
        value_of(a) == value_of(b),
    ensures
        produces_of(a) == produces_of(b),
{
}

/// A set of kinds in which some kind has a product has a strongest kind.
pub proof fn lemma_strongest_exists(ks: Set<ElementType>, k: ElementType)
    requires
        ks.contains(k),
        produces_of(k).is_some(),
    ensures
        exists|m: ElementType| is_strongest(ks, m),
{
    if ks.contains(ElementType::SILVER) {
        assert(is_strongest(ks, ElementType::SILVER));
    } else if ks.contains(ElementType::COPPER) {
        assert(is_strongest(ks, ElementType::COPPER));
    } else if ks.contains(ElementType::IRON) {
        assert(is_strongest(ks, ElementType::IRON));
    } else if ks.contains(ElementType::TIN) {
        assert(is_strongest(ks, ElementType::TIN));
    } else if ks.contains(ElementType::LEAD) {
        assert(is_strongest(ks, ElementType::LEAD));
    } else if ks.contains(ElementType::MERCURY) {
        assert(is_strongest(ks, ElementType::MERCURY));
    } else if ks.contains(ElementType::SULFUR) {
        assert(is_strongest(ks, ElementType::SULFUR));
    } else if ks.contains(ElementType::SALT) {
        assert(is_strongest(ks, ElementType::SALT));
    } else if ks.contains(ElementType::AIR) {
        assert(is_strongest(ks, ElementType::AIR));
    } else if ks.contains(ElementType::WATER) {
        assert(is_strongest(ks, ElementType::WATER));
    } else if ks.contains(ElementType::EARTH) {
        assert(is_strongest(ks, ElementType::EARTH));
    } else if ks.contains(ElementType::FIRE) {
        assert(is_strongest(ks, ElementType::FIRE));
    } else {
        assert(is_strongest(ks, ElementType::ASH));
    }
}

/// On a reagent list, the scan-order product and the strongest-kind product agree.
pub proof fn lemma_product_of_kinds(s: Seq<ElementType>)
    requires
        product_of(s).is_none() ==> forall|j: int| 0 <= j < s.len() ==> produces_of(#[trigger] s[j]).is_none(),
    ensures
        product_of(s) == group_product(s.to_set()),
{
    let ks = s.to_set();
    if exists|i: int| is_first_strongest(s, i) {
        let i = choose|i: int| is_first_strongest(s, i);
        assert(ks.contains(s[i]));
        assert(is_strongest(ks, s[i])) by {
            assert forall|k2: ElementType| ks.contains(k2) && produces_of(k2).is_some() implies value_of(k2) <= value_of(s[i]) by {
                let j = choose|j: int| 0 <= j < s.len() && s[j] == k2;
                assert(produces_of(s[j]).is_some());
            }
        }
        let m = choose|m: ElementType| is_strongest(ks, m);
        let jm = choose|j: int| 0 <= j < s.len() && s[j] == m;
        assert(produces_of(s[jm]).is_some());
        lemma_equal_value_same_product(m, s[i]);
    } else {
        assert forall|k: ElementType| !is_strongest(ks, k) by {
            if is_strongest(ks, k) {
                let j = choose|j: int| 0 <= j < s.len() && s[j] == k;
                assert(produces_of(s[j]).is_none());
            }
        }
    }
}

/// The bond relation is symmetric.
pub proof fn lemma_bonds_symmetric(a: ElementType, b: ElementType)
    ensures
        bonds(a, b) == bonds(b, a),
{
}

/// A single reagent yields exactly what its kind produces.
pub proof fn lemma_single_reagent_product(k: ElementType)
    ensures
        product_of(seq![k]) == produces_of(k),
{
    let s = seq![k];
    if produces_of(k).is_some() {
        assert(is_first_strongest(s, 0));
        let i = choose|i: int| is_first_strongest(s, i);
        assert(i == 0);
    } else {
        assert forall|i: int| !is_first_strongest(s, i) by {
            if 0 <= i < 1 {
                assert(s[i] == k);
            }
        }
    }
}

/// The catalog entry of one kind.
pub struct ElementTypeData {
    /// Sprite-sheet column, in quarters of the sheet.
    pub x_offset: u32,
    /// Sprite-sheet row, in quarters of the sheet.
    pub y_offset: u32,
    pub value: u32,
    pub weight: u32,
    pub interacts: Vec<ElementType>,
    pub produces: Option<ElementType>,
}

impl ElementTypeData {
    /// This entry is the catalog's entry for `t`.
    pub open spec fn describes(&self, t: ElementType) -> bool {
        &&& (self.x_offset, self.y_offset) == offset_of(t)
        &&& self.value == value_of(t)
        &&& self.weight == weight_of(t)
        &&& self.interacts@ == interacts_of(t)
        &&& self.produces == produces_of(t)
    }
}

/// The element catalog: one entry per kind.
#[allow(non_snake_case)]
pub struct ElementTypeList {
    pub AIR: ElementTypeData,
    pub WATER: ElementTypeData,
    pub EARTH: ElementTypeData,
    pub FIRE: ElementTypeData,
    pub SALT: ElementTypeData,
    pub SULFUR: ElementTypeData,
    pub MERCURY: ElementTypeData,
    pub LEAD: ElementTypeData,
    pub TIN: ElementTypeData,
    pub IRON: ElementTypeData,
    pub COPPER: ElementTypeData,
    pub SILVER: ElementTypeData,
    pub GOLD: ElementTypeData,
    pub ASH: ElementTypeData,
    pub ANTIMONY: ElementTypeData,
    pub AETHER: ElementTypeData,
}

impl ElementTypeList {
    /// The entry held for `t`.
    pub open spec fn entry(&self, t: ElementType) -> ElementTypeData {
        match t {
            ElementType::AIR => self.AIR,
            ElementType::WATER => self.WATER,
            ElementType::EARTH => self.EARTH,
            ElementType::FIRE => self.FIRE,
            ElementType::SALT => self.SALT,
            ElementType::SULFUR => self.SULFUR,
            ElementType::MERCURY => self.MERCURY,
            ElementType::LEAD => self.LEAD,
            ElementType::TIN => self.TIN,
            ElementType::IRON => self.IRON,
            ElementType::COPPER => self.COPPER,
            ElementType::SILVER => self.SILVER,
            ElementType::GOLD => self.GOLD,
            ElementType::ASH => self.ASH,
            ElementType::ANTIMONY => self.ANTIMONY,
            ElementType::AETHER => self.AETHER,
        }
    }

    /// Every entry is the catalog's entry for its kind.
    pub open spec fn wf(&self) -> bool {
        forall|t: ElementType| #[trigger] self.entry(t).describes(t)
    }

    /// Builds the catalog.
    pub fn new() -> (r: ElementTypeList)
        ensures
            r.wf(),
    {
        let r = ElementTypeList {
            AIR: ElementTypeData {
                x_offset: 0,
                y_offset: 3,
                value: 1,
                weight: 1,
                interacts: vec![ElementType::AIR, ElementType::WATER, ElementType::EARTH, ElementType::FIRE],
                produces: Some(ElementType::SALT),
            },
            WATER: ElementTypeData {
                x_offset: 2,
                y_offset: 3,
                value: 1,
                weight: 1,
                interacts: vec![ElementType::AIR, ElementType::WATER, ElementType::EARTH, ElementType::FIRE],
                produces: Some(ElementType::SALT),
            },
            EARTH: ElementTypeData {
                x_offset: 3,
                y_offset: 3,
                value: 1,
                weight: 1,
                interacts: vec![ElementType::AIR, ElementType::WATER, ElementType::EARTH, ElementType::FIRE],
                produces: Some(ElementType::SALT),
            },
            FIRE: ElementTypeData {
                x_offset: 1,
                y_offset: 3,
                value: 1,
                weight: 1,
                interacts: vec![ElementType::AIR, ElementType::WATER, ElementType::EARTH, ElementType::FIRE],
                produces: Some(ElementType::SALT),
            },
            SALT: ElementTypeData {
                x_offset: 0,
                y_offset: 2,
                value: 3,
                weight: 3,
                interacts: vec![ElementType::SALT],
                produces: Some(ElementType::SULFUR),
            },
            SULFUR: ElementTypeData {
                x_offset: 1,
                y_offset: 2,
                value: 9,
                weight: 3,
                interacts: vec![ElementType::SULFUR],
                produces: Some(ElementType::MERCURY),
            },
            MERCURY: ElementTypeData {
                x_offset: 2,
                y_offset: 2,
                value: 27,
                weight: 3,
                interacts: vec![ElementType::MERCURY],
                produces: Some(ElementType::LEAD),
            },
            LEAD: ElementTypeData {
                x_offset: 0,
                y_offset: 1,
                value: 81,
                weight: 3,
                interacts: vec![ElementType::LEAD],
                produces: Some(ElementType::TIN),
            },
            TIN: ElementTypeData {
                x_offset: 1,
                y_offset: 1,
                value: 243,
                weight: 3,
                interacts: vec![ElementType::TIN],
                produces: Some(ElementType::IRON),
            },
            IRON: ElementTypeData {
                x_offset: 2,
                y_offset: 1,
                value: 729,
                weight: 3,
                interacts: vec![ElementType::IRON],
                produces: Some(ElementType::COPPER),
            },
            COPPER: ElementTypeData {
                x_offset: 0,
                y_offset: 0,
                value: 2187,
                weight: 3,
                interacts: vec![ElementType::COPPER],
                produces: Some(ElementType::SILVER),
            },
            SILVER: ElementTypeData {
                x_offset: 1,
                y_offset: 0,
                value: 6561,
                weight: 3,
                interacts: vec![ElementType::SILVER],
                produces: Some(ElementType::GOLD),
            },
            GOLD: ElementTypeData {
                x_offset: 2,
                y_offset: 0,
                value: 19683,
                weight: 3,
                interacts: vec![],
                produces: None,
            },
            ASH: ElementTypeData {
                x_offset: 3,
                y_offset: 2,
                value: 0,
                weight: 3,
                interacts: vec![ElementType::ASH],
                produces: Some(ElementType::ASH),
            },
            ANTIMONY: ElementTypeData {
                x_offset: 3,
                y_offset: 1,
                value: 0,
                weight: 3,
                interacts: vec![ElementType::MERCURY, ElementType::LEAD, ElementType::TIN, ElementType::IRON, ElementType::COPPER, ElementType::SILVER],
                produces: None,
            },
            AETHER: ElementTypeData {
                x_offset: 3,
                y_offset: 0,
                value: 0,
                weight: 3,
                interacts: vec![ElementType::AIR, ElementType::EARTH, ElementType::FIRE, ElementType::WATER],
                produces: None,
            },
        };
        assert forall|t: ElementType| #[trigger] r.entry(t).describes(t) by {
            assert(r.entry(t).interacts@ =~= interacts_of(t));
        }
        r
    }

    /// The entry of kind `t`.
    pub fn get_data(&self, t: &ElementType) -> (r: &ElementTypeData)
        ensures
            *r == self.entry(*t),
    {
        match *t {
            ElementType::AIR => &self.AIR,
            ElementType::WATER => &self.WATER,
            ElementType::EARTH => &self.EARTH,
            ElementType::FIRE => &self.FIRE,
            ElementType::SALT => &self.SALT,
            ElementType::SULFUR => &self.SULFUR,
            ElementType::MERCURY => &self.MERCURY,
            ElementType::LEAD => &self.LEAD,
            ElementType::TIN => &self.TIN,
            ElementType::IRON => &self.IRON,
            ElementType::COPPER => &self.COPPER,
            ElementType::SILVER => &self.SILVER,
            ElementType::GOLD => &self.GOLD,
            ElementType::ASH => &self.ASH,
            ElementType::ANTIMONY => &self.ANTIMONY,
            ElementType::AETHER => &self.AETHER,
        }
    }

    /// The kind a newly spawned token takes: always AIR, whatever is unlocked.
    #[allow(unused_variables)]
    pub fn get_element(&self, unlocks: &Vec<ElementType>) -> (r: ElementType)
        ensures
            r == ElementType::AIR,
    {
        ElementType::AIR
    }

    /// Whether tokens of kinds `e1` and `e2` can bond.
    pub fn can_react(&self, e1: &ElementType, e2: &ElementType) -> (r: bool)
        requires
            self.wf(),
        ensures
            r == bonds(*e1, *e2),
    {
        let d1 = self.get_data(e1);
        let d2 = self.get_data(e2);
        assert(d1.describes(*e1));
        assert(d2.describes(*e2));
        kind_in(&d1.interacts, e2) || kind_in(&d2.interacts, e1)
    }

    /// The product of a reagent list: what its first reagent of greatest value
    /// among those with a product produces, or nothing.
    pub fn get_product(&self, reagents: &Vec<ElementType>) -> (r: Option<ElementType>)
        requires
            self.wf(),
        ensures
            r == product_of(reagents@),
            r.is_none() <==> forall|j: int|
                0 <= j < reagents.len() ==> produces_of(#[trigger] reagents@[j]).is_none(),
    {
        let mut product: Option<ElementType> = None;
        let mut best: u32 = 0;
        let ghost mut at: int = 0;
        let mut i: usize = 0;
        while i < reagents.len()
            invariant
                self.wf(),
                i <= reagents.len(),
                product.is_none() ==> forall|j: int|
                    0 <= j < i ==> produces_of(#[trigger] reagents@[j]).is_none(),
                product.is_some() ==> {
                    &&& is_first_strongest(reagents@.take(i as int), at)
                    &&& product == produces_of(reagents@[at])
                    &&& best == value_of(reagents@[at])
                },
            decreases reagents.len() - i,
        {
            let d = self.get_data(&reagents[i]);
            assert(self.entry(reagents@[i as int]).describes(reagents@[i as int]));
            let ghost prev = reagents@.take(i as int);
            let ghost next = reagents@.take(i as int + 1);
            assert(next =~= prev.push(reagents@[i as int]));
            if d.produces.is_some() && (product.is_none() || best < d.value) {
                product = d.produces;
                best = d.value;
                proof {
                    at = i as int;
                }
            }
            i = i + 1;
        }
        assert(reagents@.take(reagents.len() as int) =~= reagents@);
        if product.is_some() {
            let ghost s = reagents@;
            assert forall|j: int| is_first_strongest(s, j) implies j == at by {
                lemma_first_strongest_unique(s, j, at);
            }
        } else {
            assert forall|j: int| !is_first_strongest(reagents@, j) by {
                if 0 <= j < reagents.len() {
                    assert(produces_of(reagents@[j]).is_none());
                }
            }
        }
        product
    }
}

/// Whether `t` is among the kinds of `v`.
pub(crate) fn kind_in(v: &Vec<ElementType>, t: &ElementType) -> (r: bool)
    ensures
        r == v@.contains(*t),
{
    let mut i: usize = 0;
    while i < v.len()
        invariant
            i <= v.len(),
            forall|j: int| 0 <= j < i ==> v@[j] != *t,
        decreases v.len() - i,
    {
        if v[i] == *t {
            return true;
        }
        i = i + 1;
    }
    false
}

/// One token: its kind, and where its current track of motion starts in
/// world units. `track` names the track; a token whose track changes is shown
/// starting afresh at `(x, y)`.
#[derive(Copy, Clone, Debug)]
pub struct Element {
    pub x: i32,
    pub y: i32,
    pub t: ElementType,
    pub track: u64,
}

impl Element {
    /// A token of kind `t` starting at `(x, y)` on track `track`.
    pub fn new(x: i32, y: i32, t: ElementType, track: u64) -> (r: Element)
        ensures
            r == (Element { x, y, t, track }),
    {
        Element { x, y, t, track }
    }

    /// Moves the token at once to `(new_x, new_y)`, starting track `track`.
    pub fn set_pos(&mut self, new_x: i32, new_y: i32, track: u64)
        ensures
            *final(self) == (Element { x: new_x, y: new_y, t: old(self).t, track }),
    {
        self.x = new_x;
        self.y = new_y;
        self.track = track;
    }

    /// The token's kind.
    pub fn get_type(&self) -> (r: &ElementType)
        ensures
            *r == self.t,
    {
        &self.t
    }
}

} // verus!
