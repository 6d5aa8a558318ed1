use metalchemist::element::{Element, ElementType, ElementTypeList};
use metalchemist::element_array::{Coord, ElementArray, GuideRotation};
use metalchemist::grid::{GameState, Grid, GridSize};
use metalchemist::vertex::Square;

const ALL: [ElementType; 16] = [
    ElementType::AIR,
    ElementType::WATER,
    ElementType::EARTH,
    ElementType::FIRE,
    ElementType::SALT,
    ElementType::SULFUR,
    ElementType::MERCURY,
    ElementType::LEAD,
    ElementType::TIN,
    ElementType::IRON,
    ElementType::COPPER,
    ElementType::SILVER,
    ElementType::GOLD,
    ElementType::ASH,
    ElementType::ANTIMONY,
    ElementType::AETHER,
];

fn put(ea: &mut ElementArray, x: i32, y: i32, t: ElementType, track: u64) {
    ea.set_occupant(x, y, Some(Element::new(0, 0, t, track)));
}

fn kind(ea: &ElementArray, x: i32, y: i32) -> Option<ElementType> {
    ea.occupant_at(x, y).map(|e| e.t)
}

fn board_kinds(ea: &ElementArray) -> Vec<Option<ElementType>> {
    let mut v = vec![];
    for x in 0..ea.width {
        for y in 0..ea.height {
            v.push(kind(ea, x, y));
        }
    }
    v
}

fn column_filled_below(ea: &ElementArray) -> bool {
    for x in 0..ea.width {
        for y in 1..ea.height {
            if kind(ea, x, y).is_some() && kind(ea, x, y - 1).is_none() {
                return false;
            }
        }
    }
    true
}

#[test]
fn basic_transmutation() {
    let mut ea = ElementArray::new(&GridSize::SIX);
    put(&mut ea, 0, 0, ElementType::SALT, 100);
    put(&mut ea, 1, 0, ElementType::SALT, 101);
    put(&mut ea, 2, 0, ElementType::SALT, 102);
    put(&mut ea, 5, 0, ElementType::GOLD, 103);
    assert!(!ea.unlocks.contains(&ElementType::SULFUR));
    assert!(ea.test_reactions());
    assert_eq!(ea.occupant_at(5, 0).unwrap().track, 103);
    assert_eq!(ea.occupant_at(5, 0).unwrap().x, 0);
    assert_eq!(kind(&ea, 0, 0), Some(ElementType::SULFUR));
    assert_eq!(kind(&ea, 1, 0), None);
    assert_eq!(kind(&ea, 2, 0), None);
    assert!(ea.unlocks.contains(&ElementType::SULFUR));
    let product = ea.occupant_at(0, 0).unwrap();
    let tile = ea.array_at(0, 0).unwrap();
    assert_eq!((product.x, product.y), (tile.x, tile.y));
}

#[test]
fn sub_threshold_group() {
    let mut ea = ElementArray::new(&GridSize::SIX);
    put(&mut ea, 0, 0, ElementType::SALT, 100);
    put(&mut ea, 1, 0, ElementType::SALT, 101);
    let before = board_kinds(&ea);
    let unlocks = ea.unlocks.clone();
    assert!(!ea.test_reactions());
    assert_eq!(board_kinds(&ea), before);
    assert_eq!(ea.unlocks, unlocks);
    assert_eq!(ea.occupant_at(0, 0).unwrap().track, 100);
    assert_eq!(ea.occupant_at(1, 0).unwrap().track, 101);
}

#[test]
fn mixed_reagents_with_tie() {
    let mut ea = ElementArray::new(&GridSize::SIX);
    put(&mut ea, 0, 0, ElementType::AIR, 1);
    put(&mut ea, 1, 0, ElementType::FIRE, 2);
    put(&mut ea, 2, 0, ElementType::WATER, 3);
    assert!(ea.test_reactions());
    assert_eq!(kind(&ea, 0, 0), Some(ElementType::SALT));
    assert_eq!(kind(&ea, 1, 0), None);
    assert_eq!(kind(&ea, 2, 0), None);
}

#[test]
fn aether_bridges_base_kinds() {
    let mut ea = ElementArray::new(&GridSize::SIX);
    put(&mut ea, 0, 0, ElementType::EARTH, 1);
    put(&mut ea, 1, 0, ElementType::AETHER, 2);
    put(&mut ea, 3, 0, ElementType::GOLD, 4);
    put(&mut ea, 1, 1, ElementType::WATER, 3);
    assert!(ea.test_reactions());
    assert_eq!(kind(&ea, 0, 0), Some(ElementType::SALT));
    assert_eq!(kind(&ea, 1, 0), None);
    assert_eq!(kind(&ea, 1, 1), None);
    assert_eq!(ea.occupant_at(3, 0).unwrap().track, 4);
}

#[test]
fn tie_keeps_first_reagent() {
    let table = ElementTypeList::new();
    let r = vec![ElementType::FIRE, ElementType::AIR, ElementType::WATER];
    assert_eq!(table.get_product(&r), Some(ElementType::SALT));
    let r = vec![ElementType::AETHER, ElementType::SALT, ElementType::AIR, ElementType::SALT];
    assert_eq!(table.get_product(&r), Some(ElementType::SULFUR));
    let r = vec![ElementType::ASH, ElementType::COPPER, ElementType::IRON];
    assert_eq!(table.get_product(&r), Some(ElementType::SILVER));
}

#[test]
fn product_of_nothing_productive() {
    let table = ElementTypeList::new();
    assert_eq!(table.get_product(&vec![]), None);
    let r = vec![ElementType::GOLD, ElementType::ANTIMONY, ElementType::AETHER];
    assert_eq!(table.get_product(&r), None);
}

#[test]
fn gravity_packs_column() {
    let mut ea = ElementArray::new(&GridSize::SIX);
    put(&mut ea, 3, 0, ElementType::SALT, 10);
    put(&mut ea, 3, 2, ElementType::GOLD, 11);
    put(&mut ea, 3, 4, ElementType::IRON, 12);
    ea.make_fall();
    assert_eq!(ea.occupant_at(3, 0).unwrap().track, 10);
    assert_eq!(ea.occupant_at(3, 1).unwrap().track, 11);
    assert_eq!(ea.occupant_at(3, 2).unwrap().track, 12);
    assert_eq!(kind(&ea, 3, 1), Some(ElementType::GOLD));
    for y in 3..ea.height {
        assert_eq!(kind(&ea, 3, y), None);
    }
    assert!(column_filled_below(&ea));
}

#[test]
fn gravity_from_the_top_row() {
    let mut ea = ElementArray::new(&GridSize::FOUR);
    put(&mut ea, 0, 5, ElementType::TIN, 7);
    ea.make_fall();
    assert_eq!(ea.occupant_at(0, 0).unwrap().track, 7);
    assert_eq!(kind(&ea, 0, 5), None);
}

#[test]
fn commit_geometry() {
    let mut ea = ElementArray::new(&GridSize::SIX);
    assert_eq!(ea.guide_pos, 2);
    assert_eq!(ea.guide_rot, GuideRotation::LEFT);
    ea.rotate_pair();
    assert_eq!(ea.guide_pos, 2);
    assert_eq!(ea.guide_rot, GuideRotation::UP);
    let t1 = ea.pair_1.occupant.unwrap().track;
    let t2 = ea.pair_2.occupant.unwrap().track;
    ea.drop_pair();
    let h = ea.height;
    assert_eq!(h, 8);
    assert_eq!(ea.occupant_at(2, h - 1).unwrap().track, t1);
    assert_eq!(ea.occupant_at(2, h - 2).unwrap().track, t2);
    assert!(ea.pair_1.occupant.is_none());
    assert!(ea.pair_2.occupant.is_none());
    assert_eq!(ea.guide_pos, 2);
    assert_eq!(ea.guide_rot, GuideRotation::LEFT);
}

#[test]
fn commit_left_and_right() {
    let mut ea = ElementArray::new(&GridSize::FIVE);
    let t1 = ea.pair_1.occupant.unwrap().track;
    let t2 = ea.pair_2.occupant.unwrap().track;
    ea.drop_pair();
    assert_eq!(ea.occupant_at(1, 6).unwrap().track, t1);
    assert_eq!(ea.occupant_at(2, 6).unwrap().track, t2);

    let mut ea = ElementArray::new(&GridSize::FIVE);
    ea.rotate_pair();
    ea.rotate_pair();
    assert_eq!((ea.guide_pos, ea.guide_rot), (2, GuideRotation::RIGHT));
    let t1 = ea.pair_1.occupant.unwrap().track;
    let t2 = ea.pair_2.occupant.unwrap().track;
    ea.drop_pair();
    assert_eq!(ea.occupant_at(2, 6).unwrap().track, t1);
    assert_eq!(ea.occupant_at(1, 6).unwrap().track, t2);
}

#[test]
fn game_over_resets() {
    let mut g = Grid::new();
    g.reset_grid(GridSize::FOUR);
    let mut track = 1000;
    for x in 0..4 {
        for y in 0..4 {
            g.elements.set_occupant(x, y, Some(Element::new(0, 0, ElementType::GOLD, track)));
            track += 1;
        }
    }
    g.drop_pair();
    assert_eq!(g.game_state, GameState::FALLING);
    assert_eq!(kind(&g.elements, 1, 4), Some(ElementType::AIR));
    assert_eq!(kind(&g.elements, 2, 4), Some(ElementType::AIR));
    g.update(false);
    assert_eq!(g.game_state, GameState::FALLING);
    g.update(true);
    assert_eq!(g.game_state, GameState::PLAY);
    assert_eq!(g.grid_size, GridSize::FOUR);
    for x in 0..4 {
        for y in 0..6 {
            assert_eq!(kind(&g.elements, x, y), None);
        }
    }
    assert!(g.elements.pair_1.occupant.is_some());
    assert!(g.elements.next_1.occupant.is_some());
    assert!(g.elements.next_2.occupant.is_some());
}

#[test]
fn full_round_then_reaction() {
    let mut g = Grid::new();
    assert_eq!(g.game_state, GameState::PLAY);
    g.drop_pair();
    assert_eq!(g.game_state, GameState::FALLING);
    assert_eq!(kind(&g.elements, 2, 0), Some(ElementType::AIR));
    assert_eq!(kind(&g.elements, 3, 0), Some(ElementType::AIR));
    g.rotate_pair();
    g.move_pair(1);
    assert_eq!(g.elements.guide_rot, GuideRotation::LEFT);
    g.update(true);
    assert_eq!(g.game_state, GameState::READYING);
    assert_eq!(g.elements.next_1.y, 13);
    g.update(true);
    assert_eq!(g.game_state, GameState::PLAY);
    assert_eq!(g.elements.next_1.y, 9);
    assert!(column_filled_below(&g.elements));
    g.drop_pair();
    assert_eq!(kind(&g.elements, 2, 1), Some(ElementType::AIR));
    g.update(true);
    assert_eq!(g.game_state, GameState::REACTING);
    assert_eq!(kind(&g.elements, 2, 0), Some(ElementType::SALT));
    assert_eq!(kind(&g.elements, 3, 0), None);
    assert_eq!(kind(&g.elements, 2, 1), None);
    assert!(g.elements.unlocks.contains(&ElementType::SALT));
    g.update(true);
    assert_eq!(g.game_state, GameState::READYING);
    assert!(column_filled_below(&g.elements));
}

#[test]
fn reactions_reach_a_fixed_point() {
    let mut ea = ElementArray::new(&GridSize::SIX);
    put(&mut ea, 0, 0, ElementType::SALT, 1);
    put(&mut ea, 1, 0, ElementType::SALT, 2);
    put(&mut ea, 2, 0, ElementType::SALT, 3);
    put(&mut ea, 0, 1, ElementType::SULFUR, 4);
    put(&mut ea, 1, 1, ElementType::SULFUR, 5);
    ea.make_fall();
    let mut ticks = 0;
    while ea.test_reactions() {
        ea.make_fall();
        ticks += 1;
        assert!(ticks < 10);
    }
    assert_eq!(ticks, 2);
    assert_eq!(kind(&ea, 0, 0), Some(ElementType::MERCURY));
    let before = board_kinds(&ea);
    assert!(!ea.test_reactions());
    assert_eq!(board_kinds(&ea), before);
}

#[test]
fn bonds_are_symmetric() {
    let table = ElementTypeList::new();
    for a in ALL.iter() {
        for b in ALL.iter() {
            assert_eq!(table.can_react(a, b), table.can_react(b, a));
        }
    }
    assert!(table.can_react(&ElementType::AIR, &ElementType::AETHER));
    assert!(table.can_react(&ElementType::FIRE, &ElementType::EARTH));
    assert!(table.can_react(&ElementType::AIR, &ElementType::FIRE));
    assert!(table.can_react(&ElementType::FIRE, &ElementType::WATER));
    assert!(table.can_react(&ElementType::EARTH, &ElementType::EARTH));
    assert!(!table.can_react(&ElementType::AIR, &ElementType::SALT));
    assert!(table.can_react(&ElementType::SILVER, &ElementType::ANTIMONY));
    assert!(!table.can_react(&ElementType::GOLD, &ElementType::ANTIMONY));
    assert!(!table.can_react(&ElementType::GOLD, &ElementType::GOLD));
}

#[test]
fn single_reagent_product() {
    let table = ElementTypeList::new();
    for k in ALL.iter() {
        assert_eq!(table.get_product(&vec![*k]), table.get_data(k).produces);
    }
    assert_eq!(table.get_product(&vec![ElementType::ASH]), Some(ElementType::ASH));
    assert_eq!(table.get_product(&vec![ElementType::SILVER]), Some(ElementType::GOLD));
    assert_eq!(table.get_data(&ElementType::COPPER).value, 2187);
    assert_eq!(table.get_data(&ElementType::ASH).x_offset, 3);
    assert_eq!(table.get_data(&ElementType::ASH).y_offset, 2);
}

#[test]
fn preview_full_in_play() {
    let mut g = Grid::new();
    let count = |g: &Grid| {
        g.elements.next_1.occupant.is_some() as u32 + g.elements.next_2.occupant.is_some() as u32
    };
    assert_eq!(count(&g), 2);
    g.drop_pair();
    g.update(true);
    g.update(true);
    assert_eq!(g.game_state, GameState::PLAY);
    assert_eq!(count(&g), 2);
    g.upscale();
    assert_eq!(count(&g), 2);
}

#[test]
fn move_pair_clamps() {
    let mut ea = ElementArray::new(&GridSize::SIX);
    ea.move_pair(100);
    assert_eq!(ea.guide_pos, 4);
    ea.move_pair(-100);
    assert_eq!(ea.guide_pos, 0);
    ea.move_pair(i32::MAX);
    assert_eq!(ea.guide_pos, 4);
    ea.move_pair(i32::MIN);
    assert_eq!(ea.guide_pos, 0);
    ea.rotate_pair();
    ea.rotate_pair();
    assert_eq!((ea.guide_pos, ea.guide_rot), (1, GuideRotation::RIGHT));
    ea.move_pair(-5);
    assert_eq!(ea.guide_pos, 1);
    ea.move_pair(9);
    assert_eq!(ea.guide_pos, 5);
}

#[test]
fn rotation_stays_on_board() {
    let mut ea = ElementArray::new(&GridSize::FOUR);
    ea.move_pair(10);
    assert_eq!(ea.guide_pos, 2);
    ea.rotate_pair();
    assert_eq!((ea.guide_pos, ea.guide_rot), (2, GuideRotation::UP));
    ea.move_pair(10);
    assert_eq!(ea.guide_pos, 3);
    ea.rotate_pair();
    assert_eq!((ea.guide_pos, ea.guide_rot), (3, GuideRotation::RIGHT));
    ea.rotate_pair();
    assert_eq!((ea.guide_pos, ea.guide_rot), (2, GuideRotation::DOWN));
    ea.move_pair(1);
    ea.rotate_pair();
    assert_eq!((ea.guide_pos, ea.guide_rot), (2, GuideRotation::LEFT));
}

#[test]
fn pair_anchors_follow_guide() {
    let mut ea = ElementArray::new(&GridSize::SIX);
    assert_eq!((ea.pair_1.x, ea.pair_1.y), (-5, 5));
    assert_eq!((ea.pair_2.x, ea.pair_2.y), (-3, 5));
    ea.rotate_pair();
    assert_eq!((ea.pair_1.x, ea.pair_1.y), (-5, 6));
    assert_eq!((ea.pair_2.x, ea.pair_2.y), (-5, 4));
    let t = ea.array_at(0, 0).unwrap();
    assert_eq!((t.x, t.y), (-9, -9));
    let t = ea.array_at(5, 7).unwrap();
    assert_eq!((t.x, t.y), (1, 5));
    assert!(ea.array_at(6, 0).is_none());
    assert!(ea.array_at(0, 8).is_none());
    assert!(ea.array_at(-1, 0).is_none());
}

#[test]
fn fresh_tokens_start_offset() {
    let ea = ElementArray::new(&GridSize::SIX);
    let p = ea.pair_1.occupant.unwrap();
    assert_eq!((p.x, p.y), (ea.pair_1.x, ea.pair_1.y + 5));
    let n = ea.next_2.occupant.unwrap();
    assert_eq!((n.x, n.y), (9, 5));
    assert_eq!(n.t, ElementType::AIR);
    assert_eq!(ea.unlocks, vec![ElementType::AIR, ElementType::WATER, ElementType::EARTH, ElementType::FIRE]);
}

#[test]
fn resizing_limits() {
    let mut g = Grid::new();
    g.upscale();
    g.upscale();
    g.upscale();
    assert_eq!(g.grid_size, GridSize::EIGHT);
    assert_eq!(g.elements.width, 8);
    assert_eq!(g.elements.height, 10);
    assert_eq!(g.elements.array.len(), 80);
    for _ in 0..6 {
        g.downscale();
    }
    assert_eq!(g.grid_size, GridSize::FOUR);
    assert_eq!(g.elements.array.len(), 24);
    assert_eq!(g.elements.guide_pos, 1);
}

#[test]
fn inputs_ignored_outside_play() {
    let mut g = Grid::new();
    g.drop_pair();
    let pos = g.elements.guide_pos;
    g.move_pair(1);
    g.rotate_pair();
    g.drop_pair();
    assert_eq!(g.game_state, GameState::FALLING);
    assert_eq!(g.elements.guide_pos, pos);
    assert_eq!(g.elements.guide_rot, GuideRotation::LEFT);
}

#[test]
fn render_snapshot() {
    let mut ea = ElementArray::new(&GridSize::FOUR);
    put(&mut ea, 1, 0, ElementType::LEAD, 5);
    let main = ea.main_tokens();
    assert_eq!(main.len(), 3);
    assert_eq!(main[0].token.t, ElementType::LEAD);
    assert!(!main[0].floating);
    assert_eq!((main[0].target_x, main[0].target_y), (-5, -7));
    assert!(main[1].floating && main[2].floating);
    let next = ea.next_tokens();
    assert_eq!(next.len(), 2);
    assert_eq!((next[0].target_x, next[0].target_y), (7, 9));
}

#[test]
fn square_corner_order() {
    let sq = Square { top_left: 1, top_right: 2, bottom_left: 3, bottom_right: 4 };
    assert_eq!(sq.get_vec(), vec![1, 2, 3, 3, 2, 4]);
}

#[test]
fn ash_transmutes_to_itself() {
    let mut ea = ElementArray::new(&GridSize::FOUR);
    put(&mut ea, 0, 0, ElementType::ASH, 1);
    put(&mut ea, 0, 1, ElementType::ASH, 2);
    put(&mut ea, 0, 2, ElementType::ASH, 3);
    let next = ea.next_track;
    assert!(ea.test_reactions());
    assert_eq!(kind(&ea, 0, 0), Some(ElementType::ASH));
    assert_eq!(kind(&ea, 0, 1), None);
    let fresh = ea.occupant_at(0, 0).unwrap();
    assert_eq!(fresh.track, next);
    assert_eq!((fresh.x, fresh.y), (-7, -7));
    assert_eq!(ea.next_track, next + 1);
}

#[test]
fn products_unlock_once() {
    let mut ea = ElementArray::new(&GridSize::SIX);
    for x in 0..3 {
        put(&mut ea, x, 0, ElementType::SALT, x as u64);
        put(&mut ea, x, 2, ElementType::SALT, 10 + x as u64);
    }
    let mut expected = ea.unlocks.clone();
    expected.push(ElementType::SULFUR);
    assert!(ea.test_reactions());
    assert_eq!(kind(&ea, 0, 0), Some(ElementType::SULFUR));
    assert_eq!(kind(&ea, 0, 2), Some(ElementType::SULFUR));
    assert_eq!(ea.unlocks, expected);
    assert!(!ea.test_reactions());
    assert_eq!(ea.unlocks, expected);
}

#[test]
fn unproductive_group_stays() {
    let mut ea = ElementArray::new(&GridSize::FOUR);
    put(&mut ea, 0, 0, ElementType::GOLD, 1);
    put(&mut ea, 1, 0, ElementType::ANTIMONY, 2);
    put(&mut ea, 2, 0, ElementType::AETHER, 3);
    put(&mut ea, 3, 0, ElementType::GOLD, 4);
    assert!(!ea.test_reactions());
    assert_eq!(kind(&ea, 1, 0), Some(ElementType::ANTIMONY));
}

#[test]
fn coord_equality() {
    assert_eq!(Coord { x: 1, y: 2 }, Coord { x: 1, y: 2 });
    assert_ne!(Coord { x: 1, y: 2 }, Coord { x: 2, y: 1 });
}
