//! The board: its tiles, the controlled pair and its guide, the preview pair,
//! and the operations on them (commit, gravity, spawning, the reaction tick).
use vstd::prelude::*;
use crate::element::{Element, ElementType, ElementTypeList};
use crate::grid::GridSize;
use crate::element::{bonds, lemma_product_of_kinds, kind_in};
use crate::column::{lemma_lift_token, lemma_settled_column, stacked, tokens_of};
use crate::reaction::{
    on_board,
    kind_at,
    linked,
    connected,
    group,
    group_kinds,
    kind_reader,
    scan,
    place_products,
    tick_board,
    tick_seeds,
    closed_at,
    kinds_in,
    cleared,
    lemma_connected_on_board,
    lemma_connected_self,
    lemma_closed_holds_group,
    lemma_cleared_group,
    lemma_prefix_contains,
    lemma_visit_closed,
    lemma_visit_connected,
};

verus! {

/// World-space offset of a board's centre.
pub const CENTER: i32 = -3;

/// World-space centre of the preview window.
pub const NEXT_CENTER: i32 = 8;

/// A fixed place that holds at most one token; `(x, y)` is its world-space anchor.
#[derive(Copy, Clone, Debug)]
pub struct Tile {
    pub x: i32,
    pub y: i32,
    pub occupant: Option<Element>,
}

/// A board cell, `(0, 0)` being the bottom-left one.
#[derive(Copy, Clone, Debug, PartialEq, Eq, Structural)]
pub struct Coord {
    pub x: i32,
    pub y: i32,
}

/// Where the first token of the controlled pair sits relative to the second.
#[derive(Copy, Clone, Debug, PartialEq, Eq, Structural)]
pub enum GuideRotation {
    LEFT,
    UP,
    RIGHT,
    DOWN,
}

/// Position of cell `(x, y)` in a column-major board of height `h`.
pub open spec fn cell_index(h: int, x: int, y: int) -> int {
    x * h + y
}

pub proof fn lemma_cell_index(w: int, h: int, x: int, y: int)
    requires
        0 <= x < w <= 8,
        0 <= y < h <= 10,
    ensures
        0 <= x * h <= cell_index(h, x, y) < w * h <= 80,
        cell_index(h, x, y) - y + h <= w * h,
{
    assert(w * h <= 80) by (nonlinear_arith)
        requires
            0 <= w <= 8,
            0 <= h <= 10,
    ;
    assert(0 <= x * h) by (nonlinear_arith)
        requires
            0 <= x,
            0 <= h,
    ;
    assert(x * h + h <= w * h) by (nonlinear_arith)
        requires
            x + 1 <= w,
            0 <= h,
    ;
}

pub proof fn lemma_cell_index_inj(h: int, x1: int, y1: int, x2: int, y2: int)
    requires
        0 <= y1 < h,
        0 <= y2 < h,
        cell_index(h, x1, y1) == cell_index(h, x2, y2),
    ensures
        x1 == x2,
        y1 == y2,
{
    if x1 < x2 {
        assert(x1 * h + h <= x2 * h) by (nonlinear_arith)
            requires
                x1 + 1 <= x2,
                0 <= h,
        ;
    } else if x2 < x1 {
        assert(x2 * h + h <= x1 * h) by (nonlinear_arith)
            requires
                x2 + 1 <= x1,
                0 <= h,
        ;
    }
}

/// World-space anchor coordinate of board column or row `i` on a board of width `w`.
pub open spec fn anchor(w: int, i: int) -> int {
    CENTER - w + 2 * i
}

/// The tile of board cell `(x, y)` on a board of width `w`, empty.
pub open spec fn empty_tile(w: int, x: int, y: int) -> Tile {
    Tile { x: anchor(w, x) as i32, y: anchor(w, y) as i32, occupant: None }
}

/// The guide columns allowed with each rotation.
pub open spec fn guide_ok(w: int, g: int, rot: GuideRotation) -> bool {
    match rot {
        GuideRotation::LEFT => 0 <= g <= w - 2,
        GuideRotation::RIGHT => 1 <= g <= w - 1,
        _ => 0 <= g <= w - 1,
    }
}

/// Anchors `(x1, y1, x2, y2)` of the two pair slots for guide `(g, rot)` on a
/// board of width `w`.
pub open spec fn pair_anchors(w: int, g: int, rot: GuideRotation) -> (int, int, int, int) {
    let top = anchor(w, w + 1);
    match rot {
        GuideRotation::LEFT => (anchor(w, g), top, anchor(w, g + 1), top),
        GuideRotation::RIGHT => (anchor(w, g), top, anchor(w, g - 1), top),
        GuideRotation::UP => (anchor(w, g), top + 1, anchor(w, g), top - 1),
        GuideRotation::DOWN => (anchor(w, g), top - 1, anchor(w, g), top + 1),
    }
}

/// Board cells `(x1, y1, x2, y2)` where the pair lands on commit.
pub open spec fn drop_cells(w: int, g: int, rot: GuideRotation) -> (int, int, int, int) {
    let h = w + 2;
    match rot {
        GuideRotation::LEFT => (g, h - 1, g + 1, h - 1),
        GuideRotation::RIGHT => (g, h - 1, g - 1, h - 1),
        GuideRotation::UP => (g, h - 1, g, h - 2),
        GuideRotation::DOWN => (g, h - 2, g, h - 1),
    }
}

/// Guide after one rotation step on a board of width `w`.
pub open spec fn rotated(w: int, g: int, rot: GuideRotation) -> (int, GuideRotation) {
    match rot {
        GuideRotation::LEFT => (g, GuideRotation::UP),
        GuideRotation::UP => (if g + 1 >= w { w - 1 } else { g + 1 }, GuideRotation::RIGHT),
        GuideRotation::RIGHT => (g - 1, GuideRotation::DOWN),
        GuideRotation::DOWN => (if g >= w - 1 { w - 2 } else { g }, GuideRotation::LEFT),
    }
}

/// Lowest and highest guide column allowed with `rot`.
pub open spec fn guide_bounds(w: int, rot: GuideRotation) -> (int, int) {
    match rot {
        GuideRotation::RIGHT => (1, w - 1),
        GuideRotation::LEFT => (0, w - 2),
        _ => (0, w - 1),
    }
}

/// `v` clamped to `[lo, hi]`.
pub open spec fn clamp(v: int, lo: int, hi: int) -> int {
    if v < lo {
        lo
    } else if v > hi {
        hi
    } else {
        v
    }
}

/// World-space row of the preview slots, raised (`top`) or lowered.
pub open spec fn next_row(top: bool) -> int {
    if top {
        NEXT_CENTER + 5
    } else {
        NEXT_CENTER + 1
    }
}

/// The kind held by an optional token.
pub open spec fn kind_of(o: Option<Element>) -> Option<ElementType> {
    match o {
        Some(e) => Some(e.t),
        None => None,
    }
}

/// Track number `i` steps after `start`, counting on from zero past the largest.
pub open spec fn nth_track(start: u64, i: int) -> u64 {
    ((start as int + i) % (u64::MAX as int + 1)) as u64
}

pub proof fn lemma_nth_track_next(start: u64, i: int)
    requires
        0 <= i,
    ensures
        (if nth_track(start, i) == u64::MAX {
            0
        } else {
            (nth_track(start, i) + 1) as u64
        }) == nth_track(start, i + 1),
{
    let m = u64::MAX as int + 1;
    vstd::arithmetic::div_mod::lemma_add_mod_noop(start as int + i, 1, m);
    vstd::arithmetic::div_mod::lemma_small_mod(1nat, m as nat);
    vstd::arithmetic::div_mod::lemma_mod_bound(start as int + i, m);
    if nth_track(start, i) == u64::MAX {
        vstd::arithmetic::div_mod::lemma_mod_self_0(m);
    } else {
        vstd::arithmetic::div_mod::lemma_small_mod((nth_track(start, i) + 1) as nat, m as nat);
    }
}

/// Board tiles with every cell that `b` leaves empty emptied.
pub open spec fn after_clear(tiles: Seq<Tile>, b: Seq<Option<ElementType>>) -> Seq<Tile> {
    Seq::new(
        tiles.len(),
        |j: int|
            if b[j].is_none() {
                Tile { occupant: None, ..tiles[j] }
            } else {
                tiles[j]
            },
    )
}

/// Board tiles after each seed's cell gets a fresh token of the seed's
/// product, starting at the tile's anchor; seed `i` gets track
/// `nth_track(start, i)`.
pub open spec fn place_tokens(
    tiles: Seq<Tile>,
    h: int,
    seeds: Seq<(Coord, ElementType)>,
    start: u64,
) -> Seq<Tile>
    decreases seeds.len(),
{
    if seeds.len() == 0 {
        tiles
    } else {
        let prev = place_tokens(tiles, h, seeds.drop_last(), start);
        let (c, k) = seeds.last();
        let i = cell_index(h, c.x as int, c.y as int);
        prev.update(
            i,
            Tile {
                occupant: Some(
                    Element {
                        x: prev[i].x,
                        y: prev[i].y,
                        t: k,
                        track: nth_track(start, seeds.len() - 1),
                    },
                ),
                ..prev[i]
            },
        )
    }
}

/// The unlocked kinds `u` with each seed's product appended, in order, unless
/// already present.
pub open spec fn unlocked_after(u: Seq<ElementType>, seeds: Seq<(Coord, ElementType)>) -> Seq<
    ElementType,
>
    decreases seeds.len(),
{
    if seeds.len() == 0 {
        u
    } else {
        let v = unlocked_after(u, seeds.drop_last());
        let k = seeds.last().1;
        if v.contains(k) {
            v
        } else {
            v.push(k)
        }
    }
}

pub proof fn lemma_after_clear_self(tiles: Seq<Tile>)
    ensures
        after_clear(tiles, tiles.map_values(|t: Tile| kind_of(t.occupant))) == tiles,
{
    assert(after_clear(tiles, tiles.map_values(|t: Tile| kind_of(t.occupant))) =~= tiles);
}

/// Clearing more cells after clearing some is clearing them all at once.
pub proof fn lemma_after_clear_twice(
    tiles: Seq<Tile>,
    b1: Seq<Option<ElementType>>,
    b2: Seq<Option<ElementType>>,
)
    requires
        forall|j: int| 0 <= j < tiles.len() && b1[j].is_none() ==> b2[j].is_none(),
    ensures
        after_clear(after_clear(tiles, b1), b2) == after_clear(tiles, b2),
{
    assert(after_clear(after_clear(tiles, b1), b2) =~= after_clear(tiles, b2));
}

/// A token as the renderer sees it: the token, the anchor it moves toward,
/// and whether it floats (pair and preview slots) or falls (board).
#[derive(Copy, Clone, Debug)]
pub struct Placed {
    pub token: Element,
    pub target_x: i32,
    pub target_y: i32,
    pub floating: bool,
}

/// The token of `t`, if any, with the tile's anchor.
pub open spec fn placed_one(t: Tile, floating: bool) -> Seq<Placed> {
    match t.occupant {
        Some(e) => seq![Placed { token: e, target_x: t.x, target_y: t.y, floating }],
        None => seq![],
    }
}

/// The tokens held by `tiles`, in order, each with its tile's anchor.
pub open spec fn placed_of(tiles: Seq<Tile>, floating: bool) -> Seq<Placed>
    decreases tiles.len(),
{
    if tiles.len() == 0 {
        seq![]
    } else {
        placed_of(tiles.drop_last(), floating) + placed_one(tiles.last(), floating)
    }
}

pub proof fn lemma_placed_push(s: Seq<Tile>, t: Tile, floating: bool)
    ensures
        placed_of(s.push(t), floating) == placed_of(s, floating) + placed_one(t, floating),
{
    assert(s.push(t).drop_last() =~= s);
}

/// Whether `c` is among the cells of `v`.
fn coord_in(v: &Vec<Coord>, c: Coord) -> (r: bool)
    ensures
        r == v@.contains(c),
{
    let mut i: usize = 0;
    while i < v.len()
        invariant
            i <= v.len(),
            forall|j: int| 0 <= j < i ==> v@[j] != c,
        decreases v.len() - i,
    {
        if v[i] == c {
            return true;
        }
        i = i + 1;
    }
    false
}

/// The board: its tiles, the controlled pair with its guide, the preview
/// pair, the unlocked kinds and the catalog.
pub struct ElementArray {
    pub grid_size: GridSize,
    pub width: i32,
    pub height: i32,
    /// Tile of cell `(x, y)` at `x * height + y`.
    pub array: Vec<Tile>,
    pub guide_pos: i32,
    pub guide_rot: GuideRotation,
    pub pair_1: Tile,
    pub pair_2: Tile,
    pub next_1: Tile,
    pub next_2: Tile,
    pub unlocks: Vec<ElementType>,
    pub element_data: ElementTypeList,
    /// The track the next fresh token gets.
    pub next_track: u64,
}

impl ElementArray {
    /// The board's dimensions agree with its size.
    pub open spec fn dims_ok(&self) -> bool {
        &&& self.width == self.grid_size.spec_width()
        &&& self.height == self.width + 2
        &&& self.array.len() == self.width * self.height
    }

    pub open spec fn wf(&self) -> bool {
        &&& self.dims_ok()
        &&& guide_ok(self.width as int, self.guide_pos as int, self.guide_rot)
        &&& self.pair_anchors_ok()
        &&& self.next_1.x == NEXT_CENTER - 1
        &&& self.next_2.x == NEXT_CENTER + 1
        &&& self.next_1.y == self.next_2.y
        &&& (self.next_1.y == next_row(false) || self.next_1.y == next_row(true))
        &&& self.element_data.wf()
        &&& self.anchors_ok()
    }

    /// Every board tile sits at its cell's anchor.
    pub open spec fn anchors_ok(&self) -> bool {
        forall|x: int, y: int|
            0 <= x < self.width && 0 <= y < self.height ==> {
                let t = #[trigger] self.array@[cell_index(self.height as int, x, y)];
                t.x == anchor(self.width as int, x) && t.y == anchor(self.width as int, y)
            }
    }

    /// The pair slots sit where the guide puts them.
    pub open spec fn pair_anchors_ok(&self) -> bool {
        pair_anchors(self.width as int, self.guide_pos as int, self.guide_rot) == (
            self.pair_1.x as int,
            self.pair_1.y as int,
            self.pair_2.x as int,
            self.pair_2.y as int,
        )
    }

    /// The occupant of board cell `(x, y)`.
    pub open spec fn cell(&self, x: int, y: int) -> Option<Element> {
        self.array@[cell_index(self.height as int, x, y)].occupant
    }

    /// `(x, y)` is a board cell.
    pub open spec fn in_board(&self, x: int, y: int) -> bool {
        0 <= x < self.width && 0 <= y < self.height
    }

    /// The kinds on the board, cell `(x, y)` at `x * height + y`.
    pub open spec fn kinds(&self) -> Seq<Option<ElementType>> {
        self.array@.map_values(|t: Tile| kind_of(t.occupant))
    }

    /// Column `x`, bottom first.
    pub open spec fn column(&self, x: int) -> Seq<Option<Element>> {
        Seq::new(self.height as nat, |y: int| self.cell(x, y))
    }

    /// No token sits above an empty cell.
    pub open spec fn packed(&self) -> bool {
        forall|x: int, y: int|
            0 <= x < self.width && 1 <= y < self.height && (#[trigger] self.cell(x, y)).is_some()
                ==> self.cell(x, y - 1).is_some()
    }

    /// The tiles have the same anchors as in `o`.
    pub open spec fn anchors_same(&self, o: &ElementArray) -> bool {
        &&& self.array.len() == o.array.len()
        &&& forall|i: int|
            0 <= i < self.array.len() ==> (#[trigger] self.array@[i]).x == o.array@[i].x
                && self.array@[i].y == o.array@[i].y
    }

    /// `self` is `o` after one reaction tick: the cells of reacting groups
    /// emptied and every other tile as it was; each seed's cell holding a
    /// fresh token of its product at the tile's anchor, the seeds taking the
    /// next tracks in scan order; each product not yet unlocked appended to
    /// the unlocked kinds, once.
    pub open spec fn ticked(&self, o: &ElementArray) -> bool {
        let w = o.width as int;
        let h = o.height as int;
        let sc = scan(o.kinds(), w, h, 0, 0, seq![]);
        &&& self.same_frame(o)
        &&& self.array@ == place_tokens(after_clear(o.array@, sc.0), h, sc.1, o.next_track)
        &&& self.next_track == nth_track(o.next_track, sc.1.len() as int)
        &&& self.unlocks@ == unlocked_after(o.unlocks@, sc.1)
    }

    /// The board's size, guide, pair and preview slots and catalog are as in `o`.
    pub open spec fn same_frame(&self, o: &ElementArray) -> bool {
        &&& self.grid_size == o.grid_size
        &&& self.width == o.width
        &&& self.height == o.height
        &&& self.guide_pos == o.guide_pos
        &&& self.guide_rot == o.guide_rot
        &&& self.pair_1 == o.pair_1
        &&& self.pair_2 == o.pair_2
        &&& self.next_1 == o.next_1
        &&& self.next_2 == o.next_2
        &&& self.element_data == o.element_data
    }

    /// Everything but the board's tiles is as in `o`.
    pub open spec fn same_but_array(&self, o: &ElementArray) -> bool {
        &&& self.grid_size == o.grid_size
        &&& self.width == o.width
        &&& self.height == o.height
        &&& self.guide_pos == o.guide_pos
        &&& self.guide_rot == o.guide_rot
        &&& self.pair_1 == o.pair_1
        &&& self.pair_2 == o.pair_2
        &&& self.next_1 == o.next_1
        &&& self.next_2 == o.next_2
        &&& self.unlocks@ == o.unlocks@
        &&& self.element_data == o.element_data
        &&& self.next_track == o.next_track
    }

    /// Nothing but the guide and the pair slots' anchors differs from `o`.
    pub open spec fn same_but_guide(&self, o: &ElementArray) -> bool {
        &&& self.grid_size == o.grid_size
        &&& self.width == o.width
        &&& self.height == o.height
        &&& self.array@ == o.array@
        &&& self.pair_1.occupant == o.pair_1.occupant
        &&& self.pair_2.occupant == o.pair_2.occupant
        &&& self.next_1 == o.next_1
        &&& self.next_2 == o.next_2
        &&& self.unlocks@ == o.unlocks@
        &&& self.element_data == o.element_data
        &&& self.next_track == o.next_track
    }

    /// No token sits in the two reserve rows.
    pub open spec fn reserve_clear(&self) -> bool {
        forall|x: int, y: int|
            0 <= x < self.width && self.height - 2 <= y < self.height ==> (#[trigger] self.cell(
                x,
                y,
            )).is_none()
    }

    /// The state right after a reset to `size`: an empty board, the guide at
    /// its starting place, fresh tokens in both pairs, the four base kinds
    /// unlocked.
    pub open spec fn fresh(&self, size: GridSize) -> bool {
        let w = size.spec_width();
        &&& self.grid_size == size
        &&& self.wf()
        &&& forall|x: int, y: int|
            0 <= x < w && 0 <= y < w + 2 ==> #[trigger] self.array@[cell_index(w + 2, x, y)]
                == empty_tile(w, x, y)
        &&& self.guide_pos == w / 2 - 1
        &&& self.guide_rot == GuideRotation::LEFT
        &&& self.pair_spawned(self.pair_1)
        &&& self.pair_spawned(self.pair_2)
        &&& self.next_spawned(self.next_1)
        &&& self.next_spawned(self.next_2)
        &&& self.next_1.y == next_row(false)
        &&& self.unlocks@ == seq![
            ElementType::AIR,
            ElementType::WATER,
            ElementType::EARTH,
            ElementType::FIRE,
        ]
    }

    /// A pair slot holding a token placed five units above it.
    pub open spec fn pair_holds_raised(t: Tile) -> bool {
        t.occupant.is_some() && t.occupant.unwrap().x == t.x && t.occupant.unwrap().y == t.y + 5
    }

    /// A pair slot holding a freshly made token, placed five units above it.
    pub open spec fn pair_spawned(&self, t: Tile) -> bool {
        Self::pair_holds_raised(t) && t.occupant.unwrap().t == ElementType::AIR
    }

    /// A preview slot holding a freshly made token, placed four units below it.
    pub open spec fn next_spawned(&self, t: Tile) -> bool {
        &&& t.occupant.is_some()
        &&& t.occupant.unwrap().t == ElementType::AIR
        &&& t.occupant.unwrap().x == t.x
        &&& t.occupant.unwrap().y == t.y - 4
    }

    /// The tiles of a board of width `w` and height `h`, all empty.
    fn reset_array(w: i32, h: i32) -> (r: Vec<Tile>)
        requires
            4 <= w <= 8,
            h == w + 2,
        ensures
            r.len() == w * h,
            forall|x: int, y: int|
                0 <= x < w && 0 <= y < h ==> #[trigger] r@[cell_index(h as int, x, y)]
                    == empty_tile(w as int, x, y),
    {
        let zero: i32 = CENTER - w;
        let mut tilevec: Vec<Tile> = Vec::new();
        let mut px: i32 = 0;
        while px < w
            invariant
                4 <= w <= 8,
                h == w + 2,
                zero == CENTER - w,
                0 <= px <= w,
                tilevec.len() == px * h,
                forall|x: int, y: int|
                    0 <= x < w && 0 <= y < h && cell_index(h as int, x, y) < tilevec.len()
                        ==> #[trigger] tilevec@[cell_index(h as int, x, y)] == empty_tile(
                        w as int,
                        x,
                        y,
                    ),
            decreases w - px,
        {
            let mut py: i32 = 0;
            while py < h
                invariant
                    4 <= w <= 8,
                    h == w + 2,
                    zero == CENTER - w,
                    0 <= px < w,
                    0 <= py <= h,
                    tilevec.len() == px * h + py,
                    forall|x: int, y: int|
                        0 <= x < w && 0 <= y < h && cell_index(h as int, x, y) < tilevec.len()
                            ==> #[trigger] tilevec@[cell_index(h as int, x, y)] == empty_tile(
                            w as int,
                            x,
                            y,
                        ),
                decreases h - py,
            {
                proof {
                    lemma_cell_index(w as int, h as int, px as int, py as int);
                }
                let ghost before = tilevec@;
                tilevec.push(Tile { x: zero + 2 * px, y: zero + 2 * py, occupant: None });
                proof {
                    assert forall|x: int, y: int|
                        0 <= x < w && 0 <= y < h && cell_index(h as int, x, y) < tilevec.len()
                            implies #[trigger] tilevec@[cell_index(h as int, x, y)] == empty_tile(
                            w as int,
                            x,
                            y,
                        ) by {
                        if cell_index(h as int, x, y) == before.len() {
                            lemma_cell_index_inj(h as int, x, y, px as int, py as int);
                        }
                    }
                }
                py = py + 1;
            }
            assert(px * h + h == (px + 1) * h) by (nonlinear_arith);
            px = px + 1;
        }
        assert forall|x: int, y: int| 0 <= x < w && 0 <= y < h implies #[trigger] tilevec@[cell_index(h as int, x, y)]
            == empty_tile(w as int, x, y) by {
            lemma_cell_index(w as int, h as int, x, y);
        }
        tilevec
    }

    /// The two pair slots of a board of width `w`, for the guide's starting place.
    fn reset_pairs(w: i32, h: i32) -> (r: (Tile, Tile))
        requires
            4 <= w <= 8,
            h == w + 2,
        ensures
            pair_anchors(w as int, w / 2 - 1, GuideRotation::LEFT) == (
                r.0.x as int,
                r.0.y as int,
                r.1.x as int,
                r.1.y as int,
            ),
            r.0.occupant.is_none(),
            r.1.occupant.is_none(),
    {
        let zero: i32 = CENTER - w;
        (
            Tile { x: zero + 2 * (w / 2 - 1), y: zero + 2 * (h - 1), occupant: None },
            Tile { x: zero + 2 * (w / 2), y: zero + 2 * (h - 1), occupant: None },
        )
    }

    /// The two preview slots, in their lower place.
    fn reset_next() -> (r: (Tile, Tile))
        ensures
            r.0.x == NEXT_CENTER - 1,
            r.1.x == NEXT_CENTER + 1,
            r.0.y == next_row(false),
            r.1.y == next_row(false),
            r.0.occupant.is_none(),
            r.1.occupant.is_none(),
    {
        (
            Tile { x: NEXT_CENTER - 1, y: NEXT_CENTER + 1, occupant: None },
            Tile { x: NEXT_CENTER + 1, y: NEXT_CENTER + 1, occupant: None },
        )
    }

    /// Raises the preview slots (`top`) or lowers them.
    pub fn set_next_position(&mut self, top: bool)
        requires
            old(self).wf(),
        ensures
            final(self).wf(),
            final(self).next_1.x == NEXT_CENTER - 1,
            final(self).next_2.x == NEXT_CENTER + 1,
            final(self).next_1.y == next_row(top),
            final(self).next_2.y == next_row(top),
            final(self).next_1.occupant == old(self).next_1.occupant,
            final(self).next_2.occupant == old(self).next_2.occupant,
            final(self).array@ == old(self).array@,
            final(self).pair_1 == old(self).pair_1,
            final(self).pair_2 == old(self).pair_2,
            final(self).grid_size == old(self).grid_size,
            final(self).guide_pos == old(self).guide_pos,
            final(self).guide_rot == old(self).guide_rot,
            final(self).unlocks@ == old(self).unlocks@,
    {
        let c = NEXT_CENTER;
        self.next_1.x = c - 1;
        self.next_2.x = c + 1;
        let y_offset: i32 = if top {
            5
        } else {
            1
        };
        self.next_1.y = c + y_offset;
        self.next_2.y = c + y_offset;
    }
}

impl ElementArray {
    /// Takes the next track.
    fn fresh_track(&mut self) -> (r: u64)
        ensures
            r == old(self).next_track,
            *final(self) == (ElementArray {
                next_track: if old(self).next_track == u64::MAX {
                    0
                } else {
                    (old(self).next_track + 1) as u64
                },
                ..*old(self)
            }),
    {
        let r = self.next_track;
        self.next_track = if r == u64::MAX {
            0
        } else {
            r + 1
        };
        r
    }

    /// Places the pair slots where the guide says.
    pub fn set_pair_positions(&mut self)
        requires
            old(self).dims_ok(),
            guide_ok(old(self).width as int, old(self).guide_pos as int, old(self).guide_rot),
        ensures
            final(self).pair_anchors_ok(),
            final(self).same_but_guide(old(self)),
            final(self).guide_pos == old(self).guide_pos,
            final(self).guide_rot == old(self).guide_rot,
    {
        let zero: i32 = CENTER - self.width;
        let top: i32 = zero + 2 * (self.height - 1);
        let g = self.guide_pos;
        match self.guide_rot {
            GuideRotation::UP => {
                self.pair_1.x = zero + 2 * g;
                self.pair_1.y = top + 1;
                self.pair_2.x = zero + 2 * g;
                self.pair_2.y = top - 1;
            },
            GuideRotation::RIGHT => {
                self.pair_1.x = zero + 2 * g;
                self.pair_1.y = top;
                self.pair_2.x = zero + 2 * (g - 1);
                self.pair_2.y = top;
            },
            GuideRotation::DOWN => {
                self.pair_1.x = zero + 2 * g;
                self.pair_1.y = top - 1;
                self.pair_2.x = zero + 2 * g;
                self.pair_2.y = top + 1;
            },
            GuideRotation::LEFT => {
                self.pair_1.x = zero + 2 * g;
                self.pair_1.y = top;
                self.pair_2.x = zero + 2 * (g + 1);
                self.pair_2.y = top;
            },
        }
    }

    /// Turns the pair one step: LEFT, UP, RIGHT, DOWN, LEFT; the guide moves
    /// so that the pair stays on the board.
    pub fn rotate_pair(&mut self)
        requires
            old(self).wf(),
        ensures
            final(self).wf(),
            final(self).same_but_guide(old(self)),
            (final(self).guide_pos as int, final(self).guide_rot) == rotated(
                old(self).width as int,
                old(self).guide_pos as int,
                old(self).guide_rot,
            ),
    {
        self.guide_rot = match self.guide_rot {
            GuideRotation::LEFT => GuideRotation::UP,
            GuideRotation::UP => {
                self.guide_pos = self.guide_pos + 1;
                if self.guide_pos >= self.width {
                    self.guide_pos = self.width - 1;
                }
                GuideRotation::RIGHT
            },
            GuideRotation::RIGHT => {
                self.guide_pos = self.guide_pos - 1;
                GuideRotation::DOWN
            },
            GuideRotation::DOWN => {
                if self.guide_pos >= self.width - 1 {
                    self.guide_pos = self.width - 2;
                }
                GuideRotation::LEFT
            },
        };
        self.set_pair_positions();
    }

    /// Shifts the guide by `dx` columns, clamped to the columns its rotation allows.
    pub fn move_pair(&mut self, dx: i32)
        requires
            old(self).wf(),
        ensures
            final(self).wf(),
            final(self).same_but_guide(old(self)),
            final(self).guide_rot == old(self).guide_rot,
            final(self).guide_pos == clamp(
                old(self).guide_pos + dx,
                guide_bounds(old(self).width as int, old(self).guide_rot).0,
                guide_bounds(old(self).width as int, old(self).guide_rot).1,
            ),
    {
        let (min, max): (i32, i32) = match self.guide_rot {
            GuideRotation::RIGHT => (1, self.width - 1),
            GuideRotation::LEFT => (0, self.width - 2),
            _ => (0, self.width - 1),
        };
        let p: i64 = self.guide_pos as i64 + dx as i64;
        if p < min as i64 {
            self.guide_pos = min;
        } else if p > max as i64 {
            self.guide_pos = max;
        } else {
            self.guide_pos = p as i32;
        }
        self.set_pair_positions();
    }

    /// Commits the pair: slot 1's token goes to the first landing cell of the
    /// guide, slot 2's to the second; both slots empty and the guide returns to
    /// its starting place.
    pub fn drop_pair(&mut self)
        requires
            old(self).wf(),
            ({
                let (x1, y1, x2, y2) = drop_cells(
                    old(self).width as int,
                    old(self).guide_pos as int,
                    old(self).guide_rot,
                );
                old(self).cell(x1, y1).is_none() && old(self).cell(x2, y2).is_none()
            }),
        ensures
            final(self).wf(),
            ({
                let (x1, y1, x2, y2) = drop_cells(
                    old(self).width as int,
                    old(self).guide_pos as int,
                    old(self).guide_rot,
                );
                let h = old(self).height as int;
                let i1 = cell_index(h, x1, y1);
                let i2 = cell_index(h, x2, y2);
                final(self).array@ == old(self).array@.update(
                    i1,
                    Tile { occupant: old(self).pair_1.occupant, ..old(self).array@[i1] },
                ).update(i2, Tile { occupant: old(self).pair_2.occupant, ..old(self).array@[i2] })
            }),
            final(self).pair_1.occupant.is_none(),
            final(self).pair_2.occupant.is_none(),
            final(self).guide_pos == old(self).width / 2 - 1,
            final(self).guide_rot == GuideRotation::LEFT,
            final(self).grid_size == old(self).grid_size,
            final(self).next_1 == old(self).next_1,
            final(self).next_2 == old(self).next_2,
            final(self).unlocks@ == old(self).unlocks@,
            final(self).next_track == old(self).next_track,
    {
        let x1 = self.guide_pos;
        let x2 = self.guide_pos + match self.guide_rot {
            GuideRotation::LEFT => 1,
            GuideRotation::RIGHT => -1,
            _ => 0,
        };
        let (y1, y2): (i32, i32) = match self.guide_rot {
            GuideRotation::UP => (self.height - 1, self.height - 2),
            GuideRotation::DOWN => (self.height - 2, self.height - 1),
            _ => (self.height - 1, self.height - 1),
        };
        let p1 = self.pair_1.occupant;
        let p2 = self.pair_2.occupant;
        let ghost h = self.height as int;
        let ghost i1 = cell_index(h, x1 as int, y1 as int);
        let ghost i2 = cell_index(h, x2 as int, y2 as int);
        proof {
            if i1 == i2 {
                lemma_cell_index_inj(h, x1 as int, y1 as int, x2 as int, y2 as int);
            }
            lemma_cell_index(self.width as int, h, x1 as int, y1 as int);
            lemma_cell_index(self.width as int, h, x2 as int, y2 as int);
        }
        self.set_occupant(x1, y1, p1);
        self.set_occupant(x2, y2, p2);
        self.pair_1.occupant = None;
        self.pair_2.occupant = None;
        self.guide_pos = (self.width / 2) - 1;
        self.guide_rot = GuideRotation::LEFT;
        self.set_pair_positions();
    }

    /// Fills the pair slots, from the preview slots (`from_next`) or with new
    /// tokens, raises their tokens five units above them, and puts new tokens
    /// four units below the preview slots.
    pub fn get_next_pair(&mut self, from_next: bool)
        requires
            old(self).wf(),
        ensures
            final(self).wf(),
            final(self).array@ == old(self).array@,
            final(self).grid_size == old(self).grid_size,
            final(self).guide_pos == old(self).guide_pos,
            final(self).guide_rot == old(self).guide_rot,
            final(self).unlocks@ == old(self).unlocks@,
            (final(self).pair_1.x, final(self).pair_1.y) == (old(self).pair_1.x, old(self).pair_1.y),
            (final(self).pair_2.x, final(self).pair_2.y) == (old(self).pair_2.x, old(self).pair_2.y),
            (final(self).next_1.x, final(self).next_1.y) == (old(self).next_1.x, old(self).next_1.y),
            (final(self).next_2.x, final(self).next_2.y) == (old(self).next_2.x, old(self).next_2.y),
            kind_of(final(self).pair_1.occupant) == if from_next {
                kind_of(old(self).next_1.occupant)
            } else {
                Some(ElementType::AIR)
            },
            kind_of(final(self).pair_2.occupant) == if from_next {
                kind_of(old(self).next_2.occupant)
            } else {
                Some(ElementType::AIR)
            },
            final(self).pair_1.occupant.is_some() ==> Self::pair_holds_raised(final(self).pair_1),
            final(self).pair_2.occupant.is_some() ==> Self::pair_holds_raised(final(self).pair_2),
            final(self).next_spawned(final(self).next_1),
            final(self).next_spawned(final(self).next_2),
    {
        if from_next {
            let a = self.pair_1.occupant;
            self.pair_1.occupant = self.next_1.occupant;
            self.next_1.occupant = a;
            let b = self.pair_2.occupant;
            self.pair_2.occupant = self.next_2.occupant;
            self.next_2.occupant = b;
        } else {
            let t_1 = self.element_data.get_element(&self.unlocks);
            let k_1 = self.fresh_track();
            self.pair_1.occupant = Some(Element::new(0, 0, t_1, k_1));
            let t_2 = self.element_data.get_element(&self.unlocks);
            let k_2 = self.fresh_track();
            self.pair_2.occupant = Some(Element::new(0, 0, t_2, k_2));
        }
        if let Some(mut e) = self.pair_1.occupant {
            let k = self.fresh_track();
            e.set_pos(self.pair_1.x, self.pair_1.y + 5, k);
            self.pair_1.occupant = Some(e);
        }
        if let Some(mut e) = self.pair_2.occupant {
            let k = self.fresh_track();
            e.set_pos(self.pair_2.x, self.pair_2.y + 5, k);
            self.pair_2.occupant = Some(e);
        }
        let t1 = self.element_data.get_element(&self.unlocks);
        let k1 = self.fresh_track();
        self.next_1.occupant = Some(Element::new(self.next_1.x, self.next_1.y - 4, t1, k1));
        let t2 = self.element_data.get_element(&self.unlocks);
        let k2 = self.fresh_track();
        self.next_2.occupant = Some(Element::new(self.next_2.x, self.next_2.y - 4, t2, k2));
    }

    /// Empties and resizes the board, recentres the guide, fills both pairs
    /// with fresh tokens and unlocks the four base kinds.
    pub fn reset(&mut self, size: &GridSize)
        requires
            old(self).element_data.wf(),
        ensures
            final(self).fresh(*size),
    {
        self.grid_size = *size;
        self.width = size.width();
        self.height = self.width + 2;
        self.array = ElementArray::reset_array(self.width, self.height);
        let (p1, p2) = ElementArray::reset_pairs(self.width, self.height);
        self.pair_1 = p1;
        self.pair_2 = p2;
        let (n1, n2) = ElementArray::reset_next();
        self.next_1 = n1;
        self.next_2 = n2;
        self.guide_pos = (self.width / 2) - 1;
        self.guide_rot = GuideRotation::LEFT;
        self.unlocks = Vec::new();
        self.unlocks.push(ElementType::AIR);
        self.unlocks.push(ElementType::WATER);
        self.unlocks.push(ElementType::EARTH);
        self.unlocks.push(ElementType::FIRE);
        self.get_next_pair(false);
        assert(self.unlocks@ =~= seq![
            ElementType::AIR,
            ElementType::WATER,
            ElementType::EARTH,
            ElementType::FIRE,
        ]);
    }

    /// A board of the given size in its fresh state.
    pub fn new(size: &GridSize) -> (r: ElementArray)
        ensures
            r.fresh(*size),
    {
        let mut r = ElementArray {
            grid_size: *size,
            width: 4,
            height: 6,
            array: Vec::new(),
            guide_pos: 0,
            guide_rot: GuideRotation::LEFT,
            pair_1: Tile { x: 0, y: 0, occupant: None },
            pair_2: Tile { x: 0, y: 0, occupant: None },
            next_1: Tile { x: 0, y: 0, occupant: None },
            next_2: Tile { x: 0, y: 0, occupant: None },
            unlocks: Vec::new(),
            element_data: ElementTypeList::new(),
            next_track: 0,
        };
        r.reset(size);
        r
    }

    /// The tile of board cell `(x, y)`, or nothing off the board.
    pub fn array_at(&self, x: i32, y: i32) -> (r: Option<&Tile>)
        requires
            self.wf(),
        ensures
            r.is_some() == self.in_board(x as int, y as int),
            r.is_some() ==> *r.unwrap() == self.array@[cell_index(
                self.height as int,
                x as int,
                y as int,
            )],
            r.is_some() ==> r.unwrap().x == anchor(self.width as int, x as int) && r.unwrap().y
                == anchor(self.width as int, y as int),
    {
        if !(x < self.width) || !(y < self.height) || x < 0 || y < 0 {
            return None;
        }
        proof {
            lemma_cell_index(self.width as int, self.height as int, x as int, y as int);
        }
        Some(&self.array[(x * self.height + y) as usize])
    }

    /// Exchanges the occupants of cells `(x, y1)` and `(x, y2)`.
    fn swap_in_column(&mut self, x: i32, y1: i32, y2: i32)
        requires
            old(self).wf(),
            old(self).in_board(x as int, y1 as int),
            old(self).in_board(x as int, y2 as int),
        ensures
            final(self).wf(),
            final(self).same_but_array(old(self)),
            final(self).anchors_same(old(self)),
            final(self).column(x as int) == old(self).column(x as int).update(
                y1 as int,
                old(self).cell(x as int, y2 as int),
            ).update(y2 as int, old(self).cell(x as int, y1 as int)),
            forall|x2: int|
                0 <= x2 < old(self).width && x2 != x ==> #[trigger] final(self).column(x2)
                    == old(self).column(x2),
    {
        let ghost pre = *self;
        let a = self.occupant_at(x, y1);
        let b = self.occupant_at(x, y2);
        self.set_occupant(x, y1, b);
        self.set_occupant(x, y2, a);
        proof {
            let h = self.height as int;
            lemma_cell_index(self.width as int, h, x as int, y1 as int);
            lemma_cell_index(self.width as int, h, x as int, y2 as int);
            assert forall|x2: int, y: int|
                0 <= x2 < self.width && 0 <= y < h implies #[trigger] self.cell(x2, y) == (
                if x2 == x && y == y2 {
                    pre.cell(x as int, y1 as int)
                } else if x2 == x && y == y1 {
                    pre.cell(x as int, y2 as int)
                } else {
                    pre.cell(x2, y)
                }) by {
                lemma_cell_index(self.width as int, h, x2, y);
                if cell_index(h, x2, y) == cell_index(h, x as int, y1 as int) {
                    lemma_cell_index_inj(h, x2, y, x as int, y1 as int);
                }
                if cell_index(h, x2, y) == cell_index(h, x as int, y2 as int) {
                    lemma_cell_index_inj(h, x2, y, x as int, y2 as int);
                }
            }
            assert(self.column(x as int) =~= pre.column(x as int).update(
                y1 as int,
                pre.cell(x as int, y2 as int),
            ).update(y2 as int, pre.cell(x as int, y1 as int)));
            assert forall|x2: int|
                0 <= x2 < self.width && x2 != x implies #[trigger] self.column(x2)
                    == pre.column(x2) by {
                assert(self.column(x2) =~= pre.column(x2));
            }
        }
    }

    /// Lets the tokens of column `px` fall to the bottom, in order.
    fn fall_column(&mut self, px: i32)
        requires
            old(self).wf(),
            0 <= px < old(self).width,
        ensures
            final(self).wf(),
            final(self).same_but_array(old(self)),
            final(self).anchors_same(old(self)),
            final(self).column(px as int) == stacked(
                tokens_of(old(self).column(px as int)),
                old(self).height as int,
            ),
            forall|x2: int|
                0 <= x2 < old(self).width && x2 != px ==> #[trigger] final(self).column(x2)
                    == old(self).column(x2),
    {
        let ghost pre = *self;
        let h = self.height;
        let mut py: i32 = 0;
        while py < h
            invariant
                self.wf(),
                self.same_but_array(&pre),
                self.anchors_same(&pre),
                h == self.height,
                0 <= px < self.width,
                0 <= py <= h,
                tokens_of(self.column(px as int)) == tokens_of(pre.column(px as int)),
                forall|i: int|
                    0 <= i < py ==> (#[trigger] self.column(px as int)[i]).is_some() || (forall|
                        j: int,
                    | i <= j < h ==> self.column(px as int)[j].is_none()),
                forall|x2: int|
                    0 <= x2 < self.width && x2 != px ==> #[trigger] self.column(x2) == pre.column(
                        x2,
                    ),
            decreases h - py,
        {
            if self.occupant_at(px, py).is_none() {
                let mut py2: i32 = py + 1;
                let mut found = false;
                while py2 < h && !found
                    invariant
                        self.wf(),
                        self.same_but_array(&pre),
                        self.anchors_same(&pre),
                        h == self.height,
                        0 <= px < self.width,
                        0 <= py < h,
                        py < py2 <= h,
                        tokens_of(self.column(px as int)) == tokens_of(pre.column(px as int)),
                        found ==> self.column(px as int)[py as int].is_some(),
                        !found ==> forall|j: int|
                            py <= j < py2 ==> (#[trigger] self.column(px as int)[j]).is_none(),
                        forall|i: int|
                            0 <= i < py ==> (#[trigger] self.column(px as int)[i]).is_some() || (
                            forall|j: int| i <= j < h ==> self.column(px as int)[j].is_none()),
                        forall|x2: int|
                            0 <= x2 < self.width && x2 != px ==> #[trigger] self.column(x2)
                                == pre.column(x2),
                    decreases h - py2,
                {
                    if self.occupant_at(px, py2).is_some() {
                        let ghost c = self.column(px as int);
                        self.swap_in_column(px, py, py2);
                        proof {
                            lemma_lift_token(c, py as int, py2 as int);
                            let c2 = self.column(px as int);
                            assert forall|i: int|
                                0 <= i < py implies (#[trigger] c2[i]).is_some() || (forall|j: int|
                                    i <= j < h ==> c2[j].is_none()) by {
                                assert(c[i] == c2[i]);
                                if c[i].is_none() {
                                    assert(c[py2 as int].is_some());
                                }
                            }
                        }
                        found = true;
                    }
                    py2 = py2 + 1;
                }
            }
            py = py + 1;
        }
        proof {
            lemma_settled_column(self.column(px as int));
        }
    }

    /// Gravity: in every column the tokens fall to the bottom, keeping their order.
    pub fn make_fall(&mut self)
        requires
            old(self).wf(),
        ensures
            final(self).wf(),
            final(self).same_but_array(old(self)),
            final(self).anchors_same(old(self)),
            forall|x: int|
                0 <= x < old(self).width ==> #[trigger] final(self).column(x) == stacked(
                    tokens_of(old(self).column(x)),
                    old(self).height as int,
                ),
            final(self).packed(),
    {
        let ghost pre = *self;
        let mut px: i32 = 0;
        while px < self.width
            invariant
                self.wf(),
                self.same_but_array(&pre),
                self.anchors_same(&pre),
                0 <= px <= self.width,
                forall|x: int|
                    0 <= x < px ==> #[trigger] self.column(x) == stacked(
                        tokens_of(pre.column(x)),
                        self.height as int,
                    ),
                forall|x: int| px <= x < self.width ==> #[trigger] self.column(x) == pre.column(x),
            decreases self.width - px,
        {
            self.fall_column(px);
            px = px + 1;
        }
        assert forall|x: int, y: int|
            0 <= x < self.width && 1 <= y < self.height && (#[trigger] self.cell(x, y)).is_some()
                implies self.cell(x, y - 1).is_some() by {
            assert(self.column(x)[y] == self.cell(x, y));
            assert(self.column(x)[y - 1] == self.cell(x, y - 1));
        }
    }

    /// The kind on board cell `(x, y)`, read through the kinds view.
    proof fn lemma_kind_at(&self, x: int, y: int)
        requires
            self.wf(),
            self.in_board(x, y),
        ensures
            kind_at(self.kinds(), self.height as int, Coord { x: x as i32, y: y as i32 }) == kind_of(
                self.cell(x, y),
            ),
            0 <= cell_index(self.height as int, x, y) < self.array.len(),
    {
        lemma_cell_index(self.width as int, self.height as int, x, y);
    }

    /// Adds cell `pos` to the group being gathered when it is a board cell not
    /// yet gathered whose token bonds with kind `t`.
    fn neighbor_reaction_test(
        &self,
        pos: Coord,
        t: &ElementType,
        to_react: &mut Vec<Coord>,
        to_test: &mut Vec<Coord>,
        reagents: &mut Vec<ElementType>,
    )
        requires
            self.wf(),
        ensures
            ({
                let b = self.kinds();
                let h = self.height as int;
                let take = !old(to_react)@.contains(pos) && on_board(self.width as int, h, pos)
                    && kind_at(b, h, pos).is_some() && bonds(*t, kind_at(b, h, pos).unwrap());
                if take {
                    &&& final(to_react)@ == old(to_react)@.push(pos)
                    &&& final(to_test)@ == old(to_test)@.push(pos)
                    &&& final(reagents)@ == old(reagents)@.push(kind_at(b, h, pos).unwrap())
                } else {
                    &&& final(to_react)@ == old(to_react)@
                    &&& final(to_test)@ == old(to_test)@
                    &&& final(reagents)@ == old(reagents)@
                }
            }),
    {
        if !coord_in(to_react, pos) && 0 <= pos.x && pos.x < self.width && 0 <= pos.y && pos.y
            < self.height {
            proof {
                self.lemma_kind_at(pos.x as int, pos.y as int);
            }
            if let Some(e) = self.occupant_at(pos.x, pos.y) {
                if self.element_data.can_react(t, &e.t) {
                    to_react.push(pos);
                    to_test.push(pos);
                    reagents.push(e.t);
                }
            }
        }
    }

    /// Gathers those of the four neighbours of the occupied cell `c`, of kind
    /// `t1`, that are linked to it and not yet gathered.
    fn visit_neighbors(
        &self,
        c: Coord,
        t1: ElementType,
        to_react: &mut Vec<Coord>,
        to_test: &mut Vec<Coord>,
        reagents: &mut Vec<ElementType>,
    )
        requires
            self.wf(),
            self.in_board(c.x as int, c.y as int),
            kind_at(self.kinds(), self.height as int, c) == Some(t1),
            old(to_react)@.no_duplicates(),
            old(reagents)@ == kinds_in(self.kinds(), self.height as int, old(to_react)@),
        ensures
            ({
                let b = self.kinds();
                let w = self.width as int;
                let h = self.height as int;
                let r0 = old(to_react)@;
                let r4 = final(to_react)@;
                &&& r0.len() <= r4.len()
                &&& forall|i: int| 0 <= i < r0.len() ==> r4[i] == r0[i]
                &&& forall|i: int| r0.len() <= i < r4.len() ==> #[trigger] linked(b, w, h, c, r4[i])
                &&& final(to_test)@ == old(to_test)@ + r4.subrange(r0.len() as int, r4.len() as int)
                &&& closed_at(b, w, h, r4, c)
                &&& r4.no_duplicates()
                &&& final(reagents)@ == kinds_in(b, h, r4)
            }),
    {
        let ghost b = self.kinds();
        let ghost w = self.width as int;
        let ghost h = self.height as int;
        let ghost r0 = to_react@;
        let ghost tp = to_test@;
        let tx = c.x;
        let ty = c.y;
        let n1 = Coord { x: tx - 1, y: ty };
        let n2 = Coord { x: tx + 1, y: ty };
        let n3 = Coord { x: tx, y: ty + 1 };
        let n4 = Coord { x: tx, y: ty - 1 };
        self.neighbor_reaction_test(n1, &t1, to_react, to_test, reagents);
        let ghost r1 = to_react@;
        assert(to_test@ =~= tp + r1.subrange(r0.len() as int, r1.len() as int));
        assert(reagents@ =~= kinds_in(b, h, r1));
        self.neighbor_reaction_test(n2, &t1, to_react, to_test, reagents);
        let ghost r2 = to_react@;
        assert(to_test@ =~= tp + r2.subrange(r0.len() as int, r2.len() as int));
        assert(reagents@ =~= kinds_in(b, h, r2));
        self.neighbor_reaction_test(n3, &t1, to_react, to_test, reagents);
        let ghost r3 = to_react@;
        assert(to_test@ =~= tp + r3.subrange(r0.len() as int, r3.len() as int));
        assert(reagents@ =~= kinds_in(b, h, r3));
        self.neighbor_reaction_test(n4, &t1, to_react, to_test, reagents);
        let ghost r4 = to_react@;
        assert(to_test@ =~= tp + r4.subrange(r0.len() as int, r4.len() as int));
        assert(reagents@ =~= kinds_in(b, h, r4));
        proof {
            if r1.len() > r0.len() {
                assert(r1[r0.len() as int] == n1);
            }
            if r2.len() > r1.len() {
                assert(r2[r1.len() as int] == n2);
            }
            if r3.len() > r2.len() {
                assert(r3[r2.len() as int] == n3);
            }
            if r4.len() > r3.len() {
                assert(r4[r3.len() as int] == n4);
            }
            lemma_prefix_contains(r0, r1);
            lemma_prefix_contains(r1, r2);
            lemma_prefix_contains(r2, r3);
            lemma_prefix_contains(r3, r4);
            assert(r1.contains(n1) || !linked(b, w, h, c, n1));
            assert(r2.contains(n2) || !linked(b, w, h, c, n2));
            assert(r3.contains(n3) || !linked(b, w, h, c, n3));
            assert(r4.contains(n4) || !linked(b, w, h, c, n4));
            assert(closed_at(b, w, h, r4, c)) by {
                assert forall|d: Coord| #[trigger] linked(b, w, h, c, d) implies r4.contains(d) by {
                    assert(d == n1 || d == n2 || d == n3 || d == n4);
                }
            }
            assert forall|i: int| r0.len() <= i < r4.len() implies #[trigger] linked(b, w, h, c, r4[i]) by {
                assert(r4[i] == n1 || r4[i] == n2 || r4[i] == n3 || r4[i] == n4);
            }
        }
    }

    /// Gathers the group of the occupied cell `(px, py)`: its cells, without
    /// repeats, and their kinds in the same order.
    fn collect_group(&self, px: i32, py: i32) -> (r: (Vec<Coord>, Vec<ElementType>))
        requires
            self.wf(),
            self.in_board(px as int, py as int),
            self.cell(px as int, py as int).is_some(),
        ensures
            r.0@.no_duplicates(),
            r.0@.to_set() == group(
                self.kinds(),
                self.width as int,
                self.height as int,
                Coord { x: px, y: py },
            ),
            r.1@ == kinds_in(self.kinds(), self.height as int, r.0@),
    {
        let ghost b = self.kinds();
        let ghost w = self.width as int;
        let ghost h = self.height as int;
        let seed = Coord { x: px, y: py };
        proof {
            self.lemma_kind_at(px as int, py as int);
            lemma_connected_self(b, w, h, seed);
            lemma_cell_index(w, h, 0, 0);
        }
        let e0 = self.occupant_at(px, py).unwrap();
        let mut reagents: Vec<ElementType> = Vec::new();
        reagents.push(e0.t);
        let mut to_react: Vec<Coord> = Vec::new();
        to_react.push(seed);
        let mut to_test: Vec<Coord> = Vec::new();
        to_test.push(seed);
        assert(reagents@ =~= kinds_in(b, h, to_react@));
        assert(to_react@[0] == seed);
        while to_test.len() > 0
            invariant
                self.wf(),
                b == self.kinds(),
                w == self.width,
                h == self.height,
                to_react@.no_duplicates(),
                to_react@.contains(seed),
                to_react.len() <= w * h,
                forall|i: int|
                    0 <= i < to_react.len() ==> connected(b, w, h, seed, #[trigger] to_react@[i]),
                forall|i: int| 0 <= i < to_test.len() ==> to_react@.contains(#[trigger] to_test@[i]),
                forall|c: Coord|
                    #[trigger] to_react@.contains(c) ==> to_test@.contains(c) || closed_at(
                        b,
                        w,
                        h,
                        to_react@,
                        c,
                    ),
                reagents@ == kinds_in(b, h, to_react@),
            decreases 2 * (w * h - to_react.len()) + to_test.len(),
        {
            let ghost r0 = to_react@;
            let ghost t0 = to_test@;
            let c = to_test.pop().unwrap();
            assert(t0 =~= to_test@.push(c));
            assert(to_react@.contains(c));
            let ghost ic = choose|i: int| 0 <= i < r0.len() && r0[i] == c;
            assert(connected(b, w, h, seed, r0[ic]));
            proof {
                lemma_connected_on_board(b, w, h, seed, c);
                self.lemma_kind_at(c.x as int, c.y as int);
            }
            if let Some(e) = self.occupant_at(c.x, c.y) {
                let t1 = e.t;
                let ghost tp = to_test@;
                self.visit_neighbors(c, t1, &mut to_react, &mut to_test, &mut reagents);
                let ghost r4 = to_react@;
                proof {
                    lemma_visit_connected(b, w, h, seed, c, r0, r4);
                    lemma_visit_closed(b, w, h, c, r0, t0, tp, r4, to_test@);
                }
            }
        }
        proof {
            let r = to_react@;
            assert forall|c1: Coord, d: Coord|
                r.contains(c1) && #[trigger] linked(b, w, h, c1, d) implies r.contains(d) by {
                assert(closed_at(b, w, h, r, c1));
            }
            assert forall|c: Coord| #[trigger] r.to_set().contains(c) == group(b, w, h, seed).contains(c) by {
                if connected(b, w, h, seed, c) {
                    lemma_closed_holds_group(b, w, h, seed, r, c);
                }
                if r.contains(c) {
                    let i = choose|i: int| 0 <= i < r.len() && r[i] == c;
                    assert(connected(b, w, h, seed, r[i]));
                }
            }
            assert(r.to_set() =~= group(b, w, h, seed));
        }
        (to_react, reagents)
    }

    /// Empties the board cells of `cells`.
    fn clear_cells(&mut self, cells: &Vec<Coord>)
        requires
            old(self).wf(),
            forall|i: int|
                0 <= i < cells.len() ==> on_board(
                    old(self).width as int,
                    old(self).height as int,
                    #[trigger] cells@[i],
                ),
        ensures
            final(self).wf(),
            final(self).same_but_array(old(self)),
            final(self).anchors_same(old(self)),
            final(self).array@ == after_clear(old(self).array@, final(self).kinds()),
            final(self).kinds() == cleared(old(self).kinds(), old(self).height as int, cells@),
    {
        let ghost pre = *self;
        let ghost h = self.height as int;
        let mut i: usize = 0;
        proof {
            lemma_after_clear_self(self.array@);
        }
        while i < cells.len()
            invariant
                self.wf(),
                self.same_but_array(&pre),
                self.anchors_same(&pre),
                self.array@ == after_clear(pre.array@, self.kinds()),
                h == self.height,
                i <= cells.len(),
                forall|k: int|
                    0 <= k < cells.len() ==> on_board(self.width as int, h, #[trigger] cells@[k]),
                self.kinds() == cleared(pre.kinds(), h, cells@.take(i as int)),
            decreases cells.len() - i,
        {
            let c = cells[i];
            let ghost before = self.kinds();
            proof {
                lemma_cell_index(self.width as int, h, c.x as int, c.y as int);
            }
            self.set_occupant(c.x, c.y, None);
            proof {
                let ci = cell_index(h, c.x as int, c.y as int);
                assert(self.kinds() =~= before.update(ci, None));
                assert(self.array@ =~= after_clear(pre.array@, self.kinds()));
                let t1 = cells@.take(i + 1);
                let t0 = cells@.take(i as int);
                assert forall|j: int| 0 <= j < self.kinds().len() implies #[trigger] self.kinds()[j]
                    == cleared(pre.kinds(), h, t1)[j] by {
                    if j == ci {
                        assert(cell_index(h, t1[i as int].x as int, t1[i as int].y as int) == j);
                    } else {
                        if exists|k: int|
                            0 <= k < t1.len() && #[trigger] cell_index(
                                h,
                                t1[k].x as int,
                                t1[k].y as int,
                            ) == j {
                            let k = choose|k: int|
                                0 <= k < t1.len() && #[trigger] cell_index(
                                    h,
                                    t1[k].x as int,
                                    t1[k].y as int,
                                ) == j;
                            assert(t0[k] == t1[k]);
                        }
                        if exists|k: int|
                            0 <= k < t0.len() && #[trigger] cell_index(
                                h,
                                t0[k].x as int,
                                t0[k].y as int,
                            ) == j {
                            let k = choose|k: int|
                                0 <= k < t0.len() && #[trigger] cell_index(
                                    h,
                                    t0[k].x as int,
                                    t0[k].y as int,
                                ) == j;
                            assert(t0[k] == t1[k]);
                        }
                    }
                }
                assert(self.kinds() =~= cleared(pre.kinds(), h, t1));
            }
            i = i + 1;
        }
        assert(cells@.take(cells.len() as int) =~= cells@);
    }

    /// Puts a fresh token of each product's kind in its cell, starting at the
    /// cell's anchor, and unlocks the kinds produced.
    fn apply_products(&mut self, products: &Vec<(Coord, ElementType)>)
        requires
            old(self).wf(),
            forall|i: int|
                0 <= i < products.len() ==> on_board(
                    old(self).width as int,
                    old(self).height as int,
                    (#[trigger] products@[i]).0,
                ),
        ensures
            final(self).wf(),
            final(self).same_frame(old(self)),
            final(self).anchors_same(old(self)),
            final(self).array@ == place_tokens(
                old(self).array@,
                old(self).height as int,
                products@,
                old(self).next_track,
            ),
            final(self).next_track == nth_track(old(self).next_track, products.len() as int),
            final(self).unlocks@ == unlocked_after(old(self).unlocks@, products@),
            final(self).kinds() == place_products(
                old(self).kinds(),
                old(self).height as int,
                products@,
            ),
    {
        let ghost pre = *self;
        let ghost h = self.height as int;
        let mut i: usize = 0;
        proof {
            assert(products@.take(0) =~= Seq::<(Coord, ElementType)>::empty());
            vstd::arithmetic::div_mod::lemma_small_mod(pre.next_track as nat, u64::MAX as nat + 1);
        }
        while i < products.len()
            invariant
                self.wf(),
                self.same_frame(&pre),
                self.anchors_same(&pre),
                h == self.height,
                i <= products.len(),
                forall|k: int|
                    0 <= k < products.len() ==> on_board(
                        self.width as int,
                        h,
                        (#[trigger] products@[k]).0,
                    ),
                self.kinds() == place_products(pre.kinds(), h, products@.take(i as int)),
                self.array@ == place_tokens(pre.array@, h, products@.take(i as int), pre.next_track),
                self.next_track == nth_track(pre.next_track, i as int),
                self.unlocks@ == unlocked_after(pre.unlocks@, products@.take(i as int)),
            decreases products.len() - i,
        {
            let (c, prod) = products[i];
            let ghost t1 = products@.take(i + 1);
            proof {
                assert(t1.drop_last() =~= products@.take(i as int));
                assert(t1.last() == (c, prod));
                lemma_cell_index(self.width as int, h, c.x as int, c.y as int);
            }
            if !kind_in(&self.unlocks, &prod) {
                self.unlocks.push(prod);
            }
            let tile = self.array[(c.x * self.height + c.y) as usize];
            let track = self.fresh_track();
            proof {
                lemma_nth_track_next(pre.next_track, i as int);
            }
            let ghost before = self.kinds();
            self.set_occupant(c.x, c.y, Some(Element::new(tile.x, tile.y, prod, track)));
            proof {
                let ci = cell_index(h, c.x as int, c.y as int);
                assert(self.kinds() =~= before.update(ci, Some(prod)));
                assert(self.array@ =~= place_tokens(pre.array@, h, t1, pre.next_track));
            }
            i = i + 1;
        }
        assert(products@.take(products.len() as int) =~= products@);
    }

    /// One reaction tick. Scanning the board row by row from the bottom, left
    /// to right, each occupied cell's group is gathered; a group of at least
    /// three cells with a product is emptied and its product recorded at the
    /// scanned cell. Afterwards each recorded cell gets a fresh token of its
    /// product, which is unlocked. Returns whether any group reacted.
    pub fn test_reactions(&mut self) -> (r: bool)
        requires
            old(self).wf(),
        ensures
            final(self).wf(),
            final(self).same_frame(old(self)),
            final(self).anchors_same(old(self)),
            final(self).ticked(old(self)),
            final(self).kinds() == tick_board(
                old(self).kinds(),
                old(self).width as int,
                old(self).height as int,
            ),
            r == (tick_seeds(old(self).kinds(), old(self).width as int, old(self).height as int).len()
                > 0),
            !r ==> final(self).array@ == old(self).array@ && final(self).unlocks@ == old(
                self,
            ).unlocks@ && final(self).next_track == old(self).next_track,
    {
        let ghost pre = *self;
        let ghost w = self.width as int;
        let ghost h = self.height as int;
        let ghost target = scan(pre.kinds(), w, h, 0, 0, seq![]);
        let mut products: Vec<(Coord, ElementType)> = Vec::new();
        let mut py: i32 = 0;
        while py < self.height
            invariant
                self.wf(),
                self.same_but_array(&pre),
                self.anchors_same(&pre),
                self.array@ == after_clear(pre.array@, self.kinds()),
                w == self.width,
                h == self.height,
                0 <= py <= h,
                scan(self.kinds(), w, h, py as int, 0, products@) == target,
                products.len() == 0 ==> self.array@ == pre.array@,
                forall|k: int| 0 <= k < products.len() ==> on_board(w, h, (#[trigger] products@[k]).0),
            decreases h - py,
        {
            let mut px: i32 = 0;
            while px < self.width
                invariant
                    self.wf(),
                    self.same_but_array(&pre),
                    self.anchors_same(&pre),
                    self.array@ == after_clear(pre.array@, self.kinds()),
                    w == self.width,
                    h == self.height,
                    0 <= py < h,
                    0 <= px <= w,
                    scan(self.kinds(), w, h, py as int, px as int, products@) == target,
                    products.len() == 0 ==> self.array@ == pre.array@,
                    forall|k: int|
                        0 <= k < products.len() ==> on_board(w, h, (#[trigger] products@[k]).0),
                decreases w - px,
            {
                let ghost b = self.kinds();
                let ghost c = Coord { x: px, y: py };
                proof {
                    self.lemma_kind_at(px as int, py as int);
                }
                if self.occupant_at(px, py).is_some() {
                    let (to_react, reagents) = self.collect_group(px, py);
                    proof {
                        to_react@.unique_seq_to_set();
                    }
                    if to_react.len() >= 3 {
                        let prod = self.element_data.get_product(&reagents);
                        proof {
                            lemma_product_of_kinds(reagents@);
                            to_react@.lemma_to_set_map_commutes(kind_reader(b, h));
                            assert(reagents@.to_set() == group_kinds(b, w, h, c));
                        }
                        if let Some(p) = prod {
                            proof {
                                assert forall|k: int| 0 <= k < to_react.len() implies on_board(
                                    w,
                                    h,
                                    #[trigger] to_react@[k],
                                ) by {
                                    assert(to_react@.to_set().contains(to_react@[k]));
                                    lemma_connected_on_board(b, w, h, c, to_react@[k]);
                                }
                            }
                            self.clear_cells(&to_react);
                            proof {
                                lemma_cleared_group(b, w, h, c, to_react@);
                                lemma_after_clear_twice(pre.array@, b, self.kinds());
                            }
                            products.push((Coord { x: px, y: py }, p));
                        }
                    }
                }
                px = px + 1;
            }
            py = py + 1;
        }
        self.apply_products(&products);
        products.len() > 0
    }

    /// A fresh board is empty, so settled with its reserve clear, and both
    /// pairs hold tokens.
    pub proof fn lemma_fresh_is_settled(&self, size: GridSize)
        requires
            self.fresh(size),
        ensures
            self.packed(),
            self.reserve_clear(),
            self.pair_1.occupant.is_some(),
            self.pair_2.occupant.is_some(),
            self.next_1.occupant.is_some(),
            self.next_2.occupant.is_some(),
            forall|x: int, y: int| self.in_board(x, y) ==> (#[trigger] self.cell(x, y)).is_none(),
    {
        let w = size.spec_width();
        assert forall|x: int, y: int| self.in_board(x, y) implies (#[trigger] self.cell(
            x,
            y,
        )).is_none() by {
            assert(self.array@[cell_index(w + 2, x, y)] == empty_tile(w, x, y));
        }
    }

    /// Boards with the same tiles and dimensions agree on every cell.
    pub proof fn lemma_same_cells(&self, o: &ElementArray)
        requires
            self.array@ == o.array@,
            self.width == o.width,
            self.height == o.height,
        ensures
            forall|x: int, y: int| #[trigger] self.cell(x, y) == o.cell(x, y),
            self.packed() == o.packed(),
            self.reserve_clear() == o.reserve_clear(),
    {
        assert forall|x: int, y: int| #[trigger] self.cell(x, y) == o.cell(x, y) by {}
        if o.packed() {
            assert forall|x: int, y: int|
                0 <= x < self.width && 1 <= y < self.height && (#[trigger] self.cell(x, y)).is_some()
                    implies self.cell(x, y - 1).is_some() by {
                assert(o.cell(x, y).is_some());
            }
        }
        if self.packed() {
            assert forall|x: int, y: int|
                0 <= x < o.width && 1 <= y < o.height && (#[trigger] o.cell(x, y)).is_some()
                    implies o.cell(x, y - 1).is_some() by {
                assert(self.cell(x, y).is_some());
            }
        }
        if o.reserve_clear() {
            assert forall|x: int, y: int|
                0 <= x < self.width && self.height - 2 <= y < self.height implies (
                #[trigger] self.cell(x, y)).is_none() by {
                assert(o.cell(x, y).is_none());
            }
        }
        if self.reserve_clear() {
            assert forall|x: int, y: int|
                0 <= x < o.width && o.height - 2 <= y < o.height implies (#[trigger] o.cell(
                    x,
                    y,
                )).is_none() by {
                assert(self.cell(x, y).is_none());
            }
        }
    }

    /// With the reserve clear, the cells where the pair lands are free.
    pub proof fn lemma_drop_cells_free(&self)
        requires
            self.wf(),
            self.reserve_clear(),
        ensures
            ({
                let (x1, y1, x2, y2) = drop_cells(
                    self.width as int,
                    self.guide_pos as int,
                    self.guide_rot,
                );
                self.cell(x1, y1).is_none() && self.cell(x2, y2).is_none()
            }),
    {
        let (x1, y1, x2, y2) = drop_cells(self.width as int, self.guide_pos as int, self.guide_rot);
        assert(self.cell(x1, y1).is_none());
        assert(self.cell(x2, y2).is_none());
    }

    /// Appends the token of `t`, if any, to `out`.
    fn push_placed(out: &mut Vec<Placed>, t: Tile, floating: bool)
        ensures
            final(out)@ == old(out)@ + placed_one(t, floating),
    {
        if let Some(e) = t.occupant {
            out.push(Placed { token: e, target_x: t.x, target_y: t.y, floating });
        }
        assert(out@ =~= old(out)@ + placed_one(t, floating));
    }

    /// The tokens drawn in the main region: those of the board, in tile
    /// order, falling, then those of the two pair slots, floating.
    pub fn main_tokens(&self) -> (r: Vec<Placed>)
        ensures
            r@ == placed_of(self.array@, false) + placed_of(seq![self.pair_1, self.pair_2], true),
    {
        let mut out: Vec<Placed> = Vec::new();
        let mut i: usize = 0;
        assert(self.array@.take(0) =~= Seq::<Tile>::empty());
        while i < self.array.len()
            invariant
                i <= self.array.len(),
                out@ == placed_of(self.array@.take(i as int), false),
            decreases self.array.len() - i,
        {
            Self::push_placed(&mut out, self.array[i], false);
            proof {
                assert(self.array@.take(i + 1) =~= self.array@.take(i as int).push(self.array@[i as int]));
                lemma_placed_push(self.array@.take(i as int), self.array@[i as int], false);
            }
            i = i + 1;
        }
        assert(self.array@.take(self.array.len() as int) =~= self.array@);
        let ghost board = out@;
        Self::push_placed(&mut out, self.pair_1, true);
        Self::push_placed(&mut out, self.pair_2, true);
        proof {
            Self::lemma_placed_two(self.pair_1, self.pair_2);
            assert(out@ =~= board + placed_of(seq![self.pair_1, self.pair_2], true));
        }
        out
    }

    proof fn lemma_placed_two(a: Tile, b: Tile)
        ensures
            placed_of(seq![a, b], true) == placed_one(a, true) + placed_one(b, true),
    {
        assert(seq![a, b] =~= seq![a].push(b));
        assert(seq![a] =~= Seq::<Tile>::empty().push(a));
        lemma_placed_push(seq![a], b, true);
        lemma_placed_push(Seq::<Tile>::empty(), a, true);
        assert(placed_of(Seq::<Tile>::empty(), true) + placed_one(a, true) =~= placed_one(a, true));
    }

    /// The tokens drawn in the preview region, floating.
    pub fn next_tokens(&self) -> (r: Vec<Placed>)
        ensures
            r@ == placed_of(seq![self.next_1, self.next_2], true),
    {
        let mut out: Vec<Placed> = Vec::new();
        Self::push_placed(&mut out, self.next_1, true);
        Self::push_placed(&mut out, self.next_2, true);
        proof {
            Self::lemma_placed_two(self.next_1, self.next_2);
            assert(out@ =~= placed_of(seq![self.next_1, self.next_2], true));
        }
        out
    }

    /// Whether the two reserve rows are empty.
    pub fn test_above(&self) -> (r: bool)
        requires
            self.wf(),
        ensures
            r == self.reserve_clear(),
    {
        let mut px: i32 = 0;
        while px < self.width
            invariant
                self.wf(),
                0 <= px <= self.width,
                forall|x: int, y: int|
                    0 <= x < px && self.height - 2 <= y < self.height ==> (#[trigger] self.cell(
                        x,
                        y,
                    )).is_none(),
            decreases self.width - px,
        {
            let mut py: i32 = self.height - 2;
            while py < self.height
                invariant
                    self.wf(),
                    0 <= px < self.width,
                    self.height - 2 <= py <= self.height,
                    forall|x: int, y: int|
                        (0 <= x < px && self.height - 2 <= y < self.height) || (x == px
                            && self.height - 2 <= y < py) ==> (#[trigger] self.cell(x, y)).is_none(),
                decreases self.height - py,
            {
                if self.occupant_at(px, py).is_some() {
                    return false;
                }
                py = py + 1;
            }
            px = px + 1;
        }
        true
    }

    /// The occupant of board cell `(x, y)`.
    pub fn occupant_at(&self, x: i32, y: i32) -> (r: Option<Element>)
        requires
            self.wf(),
            self.in_board(x as int, y as int),
        ensures
            r == self.cell(x as int, y as int),
    {
        proof {
            lemma_cell_index(self.width as int, self.height as int, x as int, y as int);
        }
        self.array[(x * self.height + y) as usize].occupant
    }

    /// Puts `o` in board cell `(x, y)`.
    pub fn set_occupant(&mut self, x: i32, y: i32, o: Option<Element>)
        requires
            old(self).wf(),
            old(self).in_board(x as int, y as int),
        ensures
            final(self).wf(),
            final(self).same_but_array(old(self)),
            final(self).array@ == old(self).array@.update(
                cell_index(old(self).height as int, x as int, y as int),
                Tile { occupant: o, ..old(self).array@[cell_index(old(self).height as int, x as int, y as int)] },
            ),
    {
        proof {
            lemma_cell_index(self.width as int, self.height as int, x as int, y as int);
        }
        let ghost pre = *self;
        let i = (x * self.height + y) as usize;
        let mut t = self.array[i];
        t.occupant = o;
        self.array.set(i, t);
        assert forall|x2: int, y2: int| 0 <= x2 < self.width && 0 <= y2 < self.height implies {
            let u = #[trigger] self.array@[cell_index(self.height as int, x2, y2)];
            u.x == anchor(self.width as int, x2) && u.y == anchor(self.width as int, y2)
        } by {
            lemma_cell_index(self.width as int, self.height as int, x2, y2);
            assert(pre.array@[cell_index(self.height as int, x2, y2)].x == anchor(self.width as int, x2));
        }
    }
}

} // verus!
