//! The game state machine that drives a round: play, falling, reacting,
//! readying, and the restart on game over.
use vstd::prelude::*;
use crate::element_array::{
    ElementArray,
    GuideRotation,
    Tile,
    Coord,
    cell_index,
    drop_cells,
    kind_of,
    next_row,
};
use crate::column::{stacked, tokens_of};
use crate::element::{ElementType, produces_of};
use crate::reaction::{
    group,
    group_kinds,
    kind_at,
    lemma_empty_board_quiet,
    on_board,
    tick_board,
    tick_seeds,
};

verus! {

/// Width of the board; its height is always two more.
#[derive(Copy, Clone, Debug, PartialEq, Eq, Structural)]
pub enum GridSize {
    FOUR,
    FIVE,
    SIX,
    SEVEN,
    EIGHT,
}

impl GridSize {
    /// The number of columns this size stands for.
    pub open spec fn spec_width(self) -> int {
        match self {
            GridSize::FOUR => 4,
            GridSize::FIVE => 5,
            GridSize::SIX => 6,
            GridSize::SEVEN => 7,
            GridSize::EIGHT => 8,
        }
    }

    /// The number of columns.
    pub fn width(&self) -> (r: i32)
        ensures
            r == self.spec_width(),
    {
        match self {
            GridSize::FOUR => 4,
            GridSize::FIVE => 5,
            GridSize::SIX => 6,
            GridSize::SEVEN => 7,
            GridSize::EIGHT => 8,
        }
    }
}

/// Where the game is in its round.
#[allow(non_camel_case_types)]
#[derive(Copy, Clone, Debug, PartialEq, Eq, Structural)]
pub enum GameState {
    SPAWNING,
    PLAY,
    FALLING,
    REACTING,
    READYING,
    GAME_OVER,
}

/// The next larger size, the largest staying.
pub open spec fn larger(s: GridSize) -> GridSize {
    match s {
        GridSize::FOUR => GridSize::FIVE,
        GridSize::FIVE => GridSize::SIX,
        GridSize::SIX => GridSize::SEVEN,
        GridSize::SEVEN => GridSize::EIGHT,
        GridSize::EIGHT => GridSize::EIGHT,
    }
}

/// The next smaller size, the smallest staying.
pub open spec fn smaller(s: GridSize) -> GridSize {
    match s {
        GridSize::FOUR => GridSize::FOUR,
        GridSize::FIVE => GridSize::FOUR,
        GridSize::SIX => GridSize::FIVE,
        GridSize::SEVEN => GridSize::SIX,
        GridSize::EIGHT => GridSize::SEVEN,
    }
}

/// The game: its state and its board.
pub struct Grid {
    pub game_state: GameState,
    pub grid_size: GridSize,
    pub elements: ElementArray,
}

impl Grid {
    pub open spec fn wf(&self) -> bool {
        let e = &self.elements;
        &&& e.wf()
        &&& e.grid_size == self.grid_size
        &&& e.packed()
        &&& e.next_1.occupant.is_some()
        &&& e.next_2.occupant.is_some()
        &&& match self.game_state {
            GameState::PLAY => e.pair_1.occupant.is_some() && e.pair_2.occupant.is_some()
                && e.reserve_clear() && self.at_rest(),
            GameState::FALLING | GameState::REACTING => e.pair_1.occupant.is_none()
                && e.pair_2.occupant.is_none(),
            GameState::READYING => e.pair_1.occupant.is_none() && e.pair_2.occupant.is_none()
                && e.reserve_clear() && self.at_rest(),
            _ => false,
        }
    }

    /// A reaction tick on the board would record nothing.
    pub open spec fn at_rest(&self) -> bool {
        tick_seeds(
            self.elements.kinds(),
            self.elements.width as int,
            self.elements.height as int,
        ).len() == 0
    }

    /// How many preview slots hold a token.
    pub open spec fn preview_count(&self) -> int {
        (if self.elements.next_1.occupant.is_some() {
            1int
        } else {
            0
        }) + (if self.elements.next_2.occupant.is_some() {
            1int
        } else {
            0
        })
    }

    /// A new game on a board of width six.
    pub fn new() -> (r: Grid)
        ensures
            r.wf(),
            r.game_state == GameState::PLAY,
            r.grid_size == GridSize::SIX,
            r.elements.fresh(GridSize::SIX),
    {
        let size = GridSize::SIX;
        let elements = ElementArray::new(&size);
        proof {
            lemma_fresh_at_rest(&elements, size);
        }
        Grid { game_state: GameState::PLAY, grid_size: size, elements }
    }

    /// Restarts on a board one size larger, the largest staying.
    pub fn upscale(&mut self)
        requires
            old(self).wf(),
        ensures
            final(self).wf(),
            final(self).game_state == GameState::PLAY,
            final(self).grid_size == larger(old(self).grid_size),
            final(self).elements.fresh(larger(old(self).grid_size)),
    {
        let size = match self.grid_size {
            GridSize::FOUR => GridSize::FIVE,
            GridSize::FIVE => GridSize::SIX,
            GridSize::SIX => GridSize::SEVEN,
            GridSize::SEVEN => GridSize::EIGHT,
            GridSize::EIGHT => GridSize::EIGHT,
        };
        self.reset_grid(size)
    }

    /// Restarts on a board one size smaller, the smallest staying.
    pub fn downscale(&mut self)
        requires
            old(self).wf(),
        ensures
            final(self).wf(),
            final(self).game_state == GameState::PLAY,
            final(self).grid_size == smaller(old(self).grid_size),
            final(self).elements.fresh(smaller(old(self).grid_size)),
    {
        let size = match self.grid_size {
            GridSize::FOUR => GridSize::FOUR,
            GridSize::FIVE => GridSize::FOUR,
            GridSize::SIX => GridSize::FIVE,
            GridSize::SEVEN => GridSize::SIX,
            GridSize::EIGHT => GridSize::SEVEN,
        };
        self.reset_grid(size)
    }

    /// Restarts on an empty board of the given size, in PLAY.
    pub fn reset_grid(&mut self, size: GridSize)
        requires
            old(self).elements.element_data.wf(),
        ensures
            final(self).wf(),
            final(self).game_state == GameState::PLAY,
            final(self).grid_size == size,
            final(self).elements.fresh(size),
    {
        self.grid_size = size;
        self.elements.reset(&size);
        proof {
            lemma_fresh_at_rest(&self.elements, size);
        }
        self.game_state = GameState::PLAY;
    }

    /// Ends a settling round with the board at rest and nothing reacting: with
    /// the reserve rows clear, raises the preview and goes to READYING;
    /// otherwise the game is over and restarts.
    fn finish_settling(&mut self)
        requires
            old(self).elements.wf(),
            old(self).elements.grid_size == old(self).grid_size,
            old(self).elements.packed(),
            old(self).elements.next_1.occupant.is_some(),
            old(self).elements.next_2.occupant.is_some(),
            old(self).elements.pair_1.occupant.is_none(),
            old(self).elements.pair_2.occupant.is_none(),
            tick_seeds(
                old(self).elements.kinds(),
                old(self).elements.width as int,
                old(self).elements.height as int,
            ).len() == 0,
        ensures
            final(self).wf(),
            final(self).grid_size == old(self).grid_size,
            old(self).elements.reserve_clear() ==> {
                &&& final(self).game_state == GameState::READYING
                &&& final(self).elements.array@ == old(self).elements.array@
                &&& final(self).elements.unlocks@ == old(self).elements.unlocks@
                &&& final(self).elements.guide_pos == old(self).elements.guide_pos
                &&& final(self).elements.guide_rot == old(self).elements.guide_rot
                &&& final(self).elements.next_1.y == next_row(true)
                &&& final(self).elements.next_1.occupant == old(self).elements.next_1.occupant
                &&& final(self).elements.next_2.occupant == old(self).elements.next_2.occupant
            },
            !old(self).elements.reserve_clear() ==> {
                &&& final(self).game_state == GameState::PLAY
                &&& final(self).elements.fresh(old(self).grid_size)
            },
    {
        if self.elements.test_above() {
            let ghost pre = self.elements;
            self.elements.set_next_position(true);
            proof {
                self.elements.lemma_same_cells(&pre);
            }
            self.game_state = GameState::READYING;
        } else {
            let size = self.grid_size;
            self.reset_grid(size);
        }
    }

    /// Advances the round once the caller has moved every token toward its
    /// tile; `settled` tells whether all of them have arrived. In PLAY, or while
    /// tokens are still moving, nothing changes. When FALLING or REACTING comes
    /// to rest, one reaction tick runs: if a group reacted, the board falls
    /// again and the state is REACTING; otherwise the round ends (see
    /// `finish_settling`). When READYING comes to rest, the preview pair
    /// becomes the controlled pair, a new preview pair is made, and play resumes.
    pub fn update(&mut self, settled: bool)
        requires
            old(self).wf(),
        ensures
            final(self).wf(),
            final(self).grid_size == old(self).grid_size,
            !settled || old(self).game_state == GameState::PLAY ==> *final(self) == *old(self),
            settled && (old(self).game_state == GameState::FALLING || old(self).game_state
                == GameState::REACTING) ==> {
                let b = old(self).elements.kinds();
                let w = old(self).elements.width as int;
                let h = old(self).elements.height as int;
                if tick_seeds(b, w, h).len() > 0 {
                    &&& final(self).game_state == GameState::REACTING
                    &&& exists|mid: ElementArray|
                        {
                            &&& mid.ticked(&old(self).elements)
                            &&& mid.kinds() == tick_board(b, w, h)
                            &&& mid.height == h
                            &&& final(self).elements.same_but_array(&mid)
                            &&& forall|x: int|
                                0 <= x < w ==> #[trigger] final(self).elements.column(x) == stacked(
                                    tokens_of(mid.column(x)),
                                    h,
                                )
                        }
                } else if old(self).elements.reserve_clear() {
                    &&& final(self).game_state == GameState::READYING
                    &&& final(self).elements.array@ == old(self).elements.array@
                    &&& final(self).elements.unlocks@ == old(self).elements.unlocks@
                    &&& final(self).elements.guide_pos == old(self).elements.guide_pos
                    &&& final(self).elements.guide_rot == old(self).elements.guide_rot
                    &&& final(self).elements.next_1.y == next_row(true)
                } else {
                    &&& final(self).game_state == GameState::PLAY
                    &&& final(self).elements.fresh(old(self).grid_size)
                }
            },
            settled && old(self).game_state == GameState::READYING ==> {
                &&& final(self).game_state == GameState::PLAY
                &&& final(self).elements.array@ == old(self).elements.array@
                &&& kind_of(final(self).elements.pair_1.occupant) == kind_of(
                    old(self).elements.next_1.occupant,
                )
                &&& kind_of(final(self).elements.pair_2.occupant) == kind_of(
                    old(self).elements.next_2.occupant,
                )
                &&& final(self).elements.next_1.y == next_row(false)
                &&& final(self).elements.unlocks@ == old(self).elements.unlocks@
                &&& final(self).elements.guide_pos == old(self).elements.guide_pos
                &&& final(self).elements.guide_rot == old(self).elements.guide_rot
                &&& final(self).elements.next_spawned(final(self).elements.next_1)
                &&& final(self).elements.next_spawned(final(self).elements.next_2)
            },
    {
        if !settled {
            return;
        }
        match self.game_state {
            GameState::FALLING | GameState::REACTING => self.react_step(),
            GameState::READYING => self.ready_step(),
            _ => {},
        }
    }

    /// FALLING or REACTING at rest: one reaction tick, then gravity and
    /// REACTING if a group reacted, else the end of the round.
    fn react_step(&mut self)
        requires
            old(self).wf(),
            old(self).game_state == GameState::FALLING || old(self).game_state
                == GameState::REACTING,
        ensures
            final(self).wf(),
            final(self).grid_size == old(self).grid_size,
            ({
                let b = old(self).elements.kinds();
                let w = old(self).elements.width as int;
                let h = old(self).elements.height as int;
                if tick_seeds(b, w, h).len() > 0 {
                    &&& final(self).game_state == GameState::REACTING
                    &&& exists|mid: ElementArray|
                        {
                            &&& mid.ticked(&old(self).elements)
                            &&& mid.kinds() == tick_board(b, w, h)
                            &&& mid.height == h
                            &&& final(self).elements.same_but_array(&mid)
                            &&& forall|x: int|
                                0 <= x < w ==> #[trigger] final(self).elements.column(x) == stacked(
                                    tokens_of(mid.column(x)),
                                    h,
                                )
                        }
                } else if old(self).elements.reserve_clear() {
                    &&& final(self).game_state == GameState::READYING
                    &&& final(self).elements.array@ == old(self).elements.array@
                    &&& final(self).elements.unlocks@ == old(self).elements.unlocks@
                    &&& final(self).elements.guide_pos == old(self).elements.guide_pos
                    &&& final(self).elements.guide_rot == old(self).elements.guide_rot
                    &&& final(self).elements.next_1.y == next_row(true)
                } else {
                    &&& final(self).game_state == GameState::PLAY
                    &&& final(self).elements.fresh(old(self).grid_size)
                }
            }),
    {
        let ghost pre = self.elements;
        if self.elements.test_reactions() {
            let ghost mid = self.elements;
            self.elements.make_fall();
            self.game_state = GameState::REACTING;
            assert(mid.kinds() == tick_board(pre.kinds(), pre.width as int, pre.height as int));
        } else {
            proof {
                crate::reaction::lemma_quiet_tick_is_stable(
                    pre.kinds(),
                    pre.width as int,
                    pre.height as int,
                );
                assert(crate::reaction::place_products(
                    crate::reaction::scan(pre.kinds(), pre.width as int, pre.height as int, 0, 0, seq![]).0,
                    pre.height as int,
                    seq![],
                ) == pre.kinds());
                lemma_same_kinds_same_occupancy(&self.elements, &pre);
            }
            self.finish_settling();
        }
    }

    /// READYING at rest: the preview pair becomes the controlled pair, a new
    /// preview pair is made, and play resumes.
    fn ready_step(&mut self)
        requires
            old(self).wf(),
            old(self).game_state == GameState::READYING,
        ensures
            final(self).wf(),
            final(self).grid_size == old(self).grid_size,
            final(self).game_state == GameState::PLAY,
            final(self).elements.array@ == old(self).elements.array@,
            kind_of(final(self).elements.pair_1.occupant) == kind_of(
                old(self).elements.next_1.occupant,
            ),
            kind_of(final(self).elements.pair_2.occupant) == kind_of(
                old(self).elements.next_2.occupant,
            ),
            final(self).elements.next_1.y == next_row(false),
            final(self).elements.unlocks@ == old(self).elements.unlocks@,
            final(self).elements.guide_pos == old(self).elements.guide_pos,
            final(self).elements.guide_rot == old(self).elements.guide_rot,
            final(self).elements.next_spawned(final(self).elements.next_1),
            final(self).elements.next_spawned(final(self).elements.next_2),
    {
        let ghost pre = self.elements;
        self.elements.set_next_position(false);
        self.elements.get_next_pair(true);
        proof {
            self.elements.lemma_same_cells(&pre);
        }
        self.game_state = GameState::PLAY;
    }

    /// In PLAY, commits the pair, lets the board fall and goes to FALLING;
    /// otherwise does nothing.
    pub fn drop_pair(&mut self)
        requires
            old(self).wf(),
        ensures
            final(self).wf(),
            old(self).game_state != GameState::PLAY ==> *final(self) == *old(self),
            old(self).game_state == GameState::PLAY ==> {
                let e = old(self).elements;
                let (x1, y1, x2, y2) = drop_cells(e.width as int, e.guide_pos as int, e.guide_rot);
                let h = e.height as int;
                let i1 = cell_index(h, x1, y1);
                let i2 = cell_index(h, x2, y2);
                &&& final(self).game_state == GameState::FALLING
                &&& final(self).grid_size == old(self).grid_size
                &&& final(self).elements.pair_1.occupant.is_none()
                &&& final(self).elements.pair_2.occupant.is_none()
                &&& final(self).elements.guide_pos == e.width / 2 - 1
                &&& final(self).elements.guide_rot == GuideRotation::LEFT
                &&& final(self).elements.unlocks@ == e.unlocks@
                &&& final(self).elements.next_1 == e.next_1
                &&& final(self).elements.next_2 == e.next_2
                &&& final(self).elements.next_track == e.next_track
                &&& exists|mid: ElementArray|
                    {
                        &&& mid.height == h
                        &&& mid.array@ == e.array@.update(
                            i1,
                            Tile { occupant: e.pair_1.occupant, ..e.array@[i1] },
                        ).update(i2, Tile { occupant: e.pair_2.occupant, ..e.array@[i2] })
                        &&& forall|x: int|
                            0 <= x < e.width ==> #[trigger] final(self).elements.column(x)
                                == stacked(tokens_of(mid.column(x)), h)
                    }
            },
    {
        match self.game_state {
            GameState::PLAY => {
                self.game_state = GameState::FALLING;
                proof {
                    self.elements.lemma_drop_cells_free();
                }
                self.elements.drop_pair();
                let ghost mid = self.elements;
                self.elements.make_fall();
                assert(mid.height == self.elements.height);
            },
            _ => {},
        }
    }

    /// In PLAY, turns the pair one step; otherwise does nothing.
    pub fn rotate_pair(&mut self)
        requires
            old(self).wf(),
        ensures
            final(self).wf(),
            old(self).game_state != GameState::PLAY ==> *final(self) == *old(self),
            old(self).game_state == GameState::PLAY ==> {
                &&& final(self).game_state == GameState::PLAY
                &&& final(self).elements.same_but_guide(&old(self).elements)
                &&& (final(self).elements.guide_pos as int, final(self).elements.guide_rot)
                    == crate::element_array::rotated(
                    old(self).elements.width as int,
                    old(self).elements.guide_pos as int,
                    old(self).elements.guide_rot,
                )
            },
    {
        match self.game_state {
            GameState::PLAY => {
                let ghost pre = self.elements;
                self.elements.rotate_pair();
                proof {
                    self.elements.lemma_same_cells(&pre);
                }
            },
            _ => {},
        }
    }

    /// In PLAY, shifts the pair by `dx` columns within the board; otherwise
    /// does nothing.
    pub fn move_pair(&mut self, dx: i32)
        requires
            old(self).wf(),
        ensures
            final(self).wf(),
            old(self).game_state != GameState::PLAY ==> *final(self) == *old(self),
            old(self).game_state == GameState::PLAY ==> {
                &&& final(self).game_state == GameState::PLAY
                &&& final(self).elements.same_but_guide(&old(self).elements)
                &&& final(self).elements.guide_rot == old(self).elements.guide_rot
                &&& final(self).elements.guide_pos == crate::element_array::clamp(
                    old(self).elements.guide_pos + dx,
                    crate::element_array::guide_bounds(
                        old(self).elements.width as int,
                        old(self).elements.guide_rot,
                    ).0,
                    crate::element_array::guide_bounds(
                        old(self).elements.width as int,
                        old(self).elements.guide_rot,
                    ).1,
                )
            },
    {
        match self.game_state {
            GameState::PLAY => {
                let ghost pre = self.elements;
                self.elements.move_pair(dx);
                proof {
                    self.elements.lemma_same_cells(&pre);
                }
            },
            _ => {},
        }
    }
}

/// A fresh board is settled, clear and at rest.
proof fn lemma_fresh_at_rest(e: &ElementArray, size: GridSize)
    requires
        e.fresh(size),
    ensures
        e.packed(),
        e.reserve_clear(),
        e.pair_1.occupant.is_some(),
        e.pair_2.occupant.is_some(),
        e.next_1.occupant.is_some(),
        e.next_2.occupant.is_some(),
        tick_seeds(e.kinds(), e.width as int, e.height as int).len() == 0,
{
    e.lemma_fresh_is_settled(size);
    let w = e.width as int;
    let h = e.height as int;
    let b = e.kinds();
    assert forall|c: Coord| on_board(w, h, c) implies (#[trigger] kind_at(b, h, c)).is_none() by {
        crate::element_array::lemma_cell_index(w, h, c.x as int, c.y as int);
        assert(e.cell(c.x as int, c.y as int).is_none());
    }
    lemma_empty_board_quiet(b, w, h, 0, 0, seq![]);
}

/// Boards whose kinds agree agree on which cells are occupied.
proof fn lemma_same_kinds_same_occupancy(a: &ElementArray, o: &ElementArray)
    requires
        a.kinds() == o.kinds(),
        a.wf(),
        o.wf(),
        a.width == o.width,
        a.height == o.height,
    ensures
        a.packed() == o.packed(),
        a.reserve_clear() == o.reserve_clear(),
{
    assert forall|x: int, y: int| a.in_board(x, y) implies (#[trigger] a.cell(x, y)).is_some()
        == o.cell(x, y).is_some() by {
        crate::element_array::lemma_cell_index(a.width as int, a.height as int, x, y);
        let i = crate::element_array::cell_index(a.height as int, x, y);
        assert(a.kinds()[i] == kind_of(a.array@[i].occupant));
        assert(o.kinds()[i] == kind_of(o.array@[i].occupant));
    }
    if o.packed() {
        assert forall|x: int, y: int|
            0 <= x < a.width && 1 <= y < a.height && (#[trigger] a.cell(x, y)).is_some() implies a.cell(
            x,
            y - 1,
        ).is_some() by {
            assert(a.in_board(x, y - 1));
            assert(o.cell(x, y).is_some());
        }
    }
    if a.packed() {
        assert forall|x: int, y: int|
            0 <= x < o.width && 1 <= y < o.height && (#[trigger] o.cell(x, y)).is_some() implies o.cell(
            x,
            y - 1,
        ).is_some() by {
            assert(a.in_board(x, y - 1));
            assert(a.cell(x, y).is_some());
        }
    }
    if o.reserve_clear() {
        assert forall|x: int, y: int|
            0 <= x < a.width && a.height - 2 <= y < a.height implies (#[trigger] a.cell(
                x,
                y,
            )).is_none() by {
            assert(o.cell(x, y).is_none());
        }
    }
    if a.reserve_clear() {
        assert forall|x: int, y: int|
            0 <= x < o.width && o.height - 2 <= y < o.height implies (#[trigger] o.cell(
                x,
                y,
            )).is_none() by {
            assert(a.in_board(x, y));
            assert(a.cell(x, y).is_none());
        }
    }
}

/// In every state the game can be in, a token's column is filled below it.
pub proof fn lemma_columns_filled_below(g: &Grid, x: int, y: int, y2: int)
    requires
        g.wf(),
        0 <= x < g.elements.width,
        0 <= y2 <= y < g.elements.height,
        g.elements.cell(x, y).is_some(),
    ensures
        g.elements.cell(x, y2).is_some(),
    decreases y - y2,
{
    if y2 < y {
        lemma_columns_filled_below(g, x, y - 1, y2);
    }
}

/// While the game waits for input or for the next pair, no group on the board
/// can react: every group has fewer than three cells or holds no kind with a
/// product.
pub proof fn lemma_resting_board_is_stable(g: &Grid)
    requires
        g.wf(),
        g.game_state == GameState::PLAY || g.game_state == GameState::READYING,
    ensures
        ({
            let b = g.elements.kinds();
            let w = g.elements.width as int;
            let h = g.elements.height as int;
            forall|c: Coord|
                on_board(w, h, c) && kind_at(b, h, c).is_some() ==> (#[trigger] group(
                    b,
                    w,
                    h,
                    c,
                )).len() < 3 || forall|k: ElementType|
                    group_kinds(b, w, h, c).contains(k) ==> produces_of(k).is_none()
        }),
{
    crate::reaction::lemma_quiet_tick_is_stable(
        g.elements.kinds(),
        g.elements.width as int,
        g.elements.height as int,
    );
}

/// In PLAY both preview slots hold a token.
pub proof fn lemma_preview_full_in_play(g: &Grid)
    requires
        g.wf(),
        g.game_state == GameState::PLAY,
    ensures
        g.preview_count() == 2,
{
}

} // verus!
