//! What one reaction tick does to a board of kinds, stated over a board
//! `b` of width `w` and height `h` whose cell `(x, y)` sits at `x * h + y`.
use vstd::prelude::*;
use vstd::set_lib::{lemma_int_range, lemma_len_subset, set_int_range};
use crate::element::{ElementType, bonds, group_product, produces_of, lemma_strongest_exists};
use crate::element_array::{Coord, cell_index, lemma_cell_index, lemma_cell_index_inj};

verus! {

pub open spec fn on_board(w: int, h: int, c: Coord) -> bool {
    0 <= c.x < w && 0 <= c.y < h
}

pub open spec fn kind_at(b: Seq<Option<ElementType>>, h: int, c: Coord) -> Option<ElementType> {
    b[cell_index(h, c.x as int, c.y as int)]
}

/// `c` and `d` share a side.
pub open spec fn adjacent(c: Coord, d: Coord) -> bool {
    ||| (c.x == d.x && (c.y - d.y == 1 || d.y - c.y == 1))
    ||| (c.y == d.y && (c.x - d.x == 1 || d.x - c.x == 1))
}

/// `c` and `d` are neighbouring occupied cells whose kinds bond.
pub open spec fn linked(b: Seq<Option<ElementType>>, w: int, h: int, c: Coord, d: Coord) -> bool {
    &&& on_board(w, h, c)
    &&& on_board(w, h, d)
    &&& adjacent(c, d)
    &&& kind_at(b, h, c).is_some()
    &&& kind_at(b, h, d).is_some()
    &&& bonds(kind_at(b, h, c).unwrap(), kind_at(b, h, d).unwrap())
}

/// `p` is a walk from an occupied cell along linked cells.
pub open spec fn is_path(b: Seq<Option<ElementType>>, w: int, h: int, p: Seq<Coord>) -> bool {
    &&& p.len() >= 1
    &&& on_board(w, h, p[0])
    &&& kind_at(b, h, p[0]).is_some()
    &&& forall|i: int| 0 <= i < p.len() - 1 ==> linked(b, w, h, #[trigger] p[i], p[i + 1])
}

/// Some walk along linked cells leads from `s` to `c`.
pub open spec fn connected(b: Seq<Option<ElementType>>, w: int, h: int, s: Coord, c: Coord) -> bool {
    exists|p: Seq<Coord>| #[trigger] is_path(b, w, h, p) && p[0] == s && p.last() == c
}

/// The group of cell `s`: every cell connected to it.
pub open spec fn group(b: Seq<Option<ElementType>>, w: int, h: int, s: Coord) -> Set<Coord> {
    Set::new(|c: Coord| connected(b, w, h, s, c))
}

/// Reads the kind of an occupied cell.
pub open spec fn kind_reader(b: Seq<Option<ElementType>>, h: int) -> spec_fn(Coord) -> ElementType {
    |c: Coord| kind_at(b, h, c).unwrap()
}

/// The kinds present in the group of `s`.
pub open spec fn group_kinds(b: Seq<Option<ElementType>>, w: int, h: int, s: Coord) -> Set<
    ElementType,
> {
    group(b, w, h, s).map(kind_reader(b, h))
}

/// The group of the occupied cell `s` has at least three cells and a product.
pub open spec fn reacts(b: Seq<Option<ElementType>>, w: int, h: int, s: Coord) -> bool {
    &&& kind_at(b, h, s).is_some()
    &&& group(b, w, h, s).len() >= 3
    &&& group_product(group_kinds(b, w, h, s)).is_some()
}

/// The board with the group of `s` emptied.
pub open spec fn without_group(b: Seq<Option<ElementType>>, w: int, h: int, s: Coord) -> Seq<
    Option<ElementType>,
> {
    Seq::new(
        b.len(),
        |i: int|
            if exists|c: Coord| #[trigger]
                group(b, w, h, s).contains(c) && cell_index(h, c.x as int, c.y as int) == i {
                None
            } else {
                b[i]
            },
    )
}

/// The scan of one tick from cell `(x, y)` on, row by row from the bottom and
/// left to right within a row: each reacting group is emptied as its first
/// cell is met, and that cell with the group's product is recorded in `seeds`.
/// Yields the emptied board and the seeds.
pub open spec fn scan(
    b: Seq<Option<ElementType>>,
    w: int,
    h: int,
    y: int,
    x: int,
    seeds: Seq<(Coord, ElementType)>,
) -> (Seq<Option<ElementType>>, Seq<(Coord, ElementType)>)
    decreases h - y, w - x,
{
    if !(0 <= y < h) || !(0 <= x <= w) {
        (b, seeds)
    } else if x == w {
        scan(b, w, h, y + 1, 0, seeds)
    } else {
        let c = Coord { x: x as i32, y: y as i32 };
        if reacts(b, w, h, c) {
            scan(
                without_group(b, w, h, c),
                w,
                h,
                y,
                x + 1,
                seeds.push((c, group_product(group_kinds(b, w, h, c)).unwrap())),
            )
        } else {
            scan(b, w, h, y, x + 1, seeds)
        }
    }
}

/// The board with each seed's cell holding the seed's product.
pub open spec fn place_products(
    b: Seq<Option<ElementType>>,
    h: int,
    seeds: Seq<(Coord, ElementType)>,
) -> Seq<Option<ElementType>>
    decreases seeds.len(),
{
    if seeds.len() == 0 {
        b
    } else {
        let (c, k) = seeds.last();
        place_products(b, h, seeds.drop_last()).update(
            cell_index(h, c.x as int, c.y as int),
            Some(k),
        )
    }
}

/// The seeds of one tick on board `b`.
pub open spec fn tick_seeds(b: Seq<Option<ElementType>>, w: int, h: int) -> Seq<
    (Coord, ElementType),
> {
    scan(b, w, h, 0, 0, seq![]).1
}

/// The board after one tick: reacting groups emptied, products in their seeds.
pub open spec fn tick_board(b: Seq<Option<ElementType>>, w: int, h: int) -> Seq<
    Option<ElementType>,
> {
    place_products(scan(b, w, h, 0, 0, seq![]).0, h, tick_seeds(b, w, h))
}

pub proof fn lemma_connected_on_board(
    b: Seq<Option<ElementType>>,
    w: int,
    h: int,
    s: Coord,
    c: Coord,
)
    requires
        connected(b, w, h, s, c),
    ensures
        on_board(w, h, c),
        kind_at(b, h, c).is_some(),
{
    let p = choose|p: Seq<Coord>| #[trigger] is_path(b, w, h, p) && p[0] == s && p.last() == c;
    if p.len() > 1 {
        assert(linked(b, w, h, p[p.len() - 2], p[p.len() - 2 + 1]));
    }
}

/// An occupied cell is connected to itself.
pub proof fn lemma_connected_self(b: Seq<Option<ElementType>>, w: int, h: int, s: Coord)
    requires
        on_board(w, h, s),
        kind_at(b, h, s).is_some(),
    ensures
        connected(b, w, h, s, s),
{
    assert(is_path(b, w, h, seq![s]));
}

/// A set of cells that holds `s` and every cell linked to one of its cells
/// holds every cell connected to `s`.
pub proof fn lemma_closed_holds_group(
    b: Seq<Option<ElementType>>,
    w: int,
    h: int,
    s: Coord,
    cells: Seq<Coord>,
    c: Coord,
)
    requires
        cells.contains(s),
        forall|c1: Coord, d: Coord|
            cells.contains(c1) && #[trigger] linked(b, w, h, c1, d) ==> cells.contains(d),
        connected(b, w, h, s, c),
    ensures
        cells.contains(c),
{
    let p = choose|p: Seq<Coord>| #[trigger] is_path(b, w, h, p) && p[0] == s && p.last() == c;
    lemma_path_inside(b, w, h, cells, p, p.len() - 1);
}

proof fn lemma_path_inside(
    b: Seq<Option<ElementType>>,
    w: int,
    h: int,
    cells: Seq<Coord>,
    p: Seq<Coord>,
    i: int,
)
    requires
        is_path(b, w, h, p),
        cells.contains(p[0]),
        forall|c1: Coord, d: Coord|
            cells.contains(c1) && #[trigger] linked(b, w, h, c1, d) ==> cells.contains(d),
        0 <= i < p.len(),
    ensures
        cells.contains(p[i]),
    decreases i,
{
    if i > 0 {
        lemma_path_inside(b, w, h, cells, p, i - 1);
        assert(linked(b, w, h, p[i - 1], p[i - 1 + 1]));
    }
}

/// A cell linked to a connected cell is connected.
pub proof fn lemma_connected_step(
    b: Seq<Option<ElementType>>,
    w: int,
    h: int,
    s: Coord,
    c: Coord,
    d: Coord,
)
    requires
        connected(b, w, h, s, c),
        linked(b, w, h, c, d),
    ensures
        connected(b, w, h, s, d),
{
    let p = choose|p: Seq<Coord>| #[trigger] is_path(b, w, h, p) && p[0] == s && p.last() == c;
    let q = p.push(d);
    assert forall|i: int| 0 <= i < q.len() - 1 implies linked(b, w, h, #[trigger] q[i], q[i + 1]) by {
        if i < p.len() - 1 {
            assert(linked(b, w, h, p[i], p[i + 1]));
        }
    }
    assert(is_path(b, w, h, q));
}

/// A scan from `(x, y)` keeps the seeds it is given; when it adds none, the
/// board is left as it was and no group of a cell from `(x, y)` on reacts.
pub proof fn lemma_scan_quiet(
    b: Seq<Option<ElementType>>,
    w: int,
    h: int,
    y: int,
    x: int,
    seeds: Seq<(Coord, ElementType)>,
)
    requires
        0 <= w <= 8,
        0 <= h <= 10,
        0 <= y,
        0 <= x <= w,
    ensures
        scan(b, w, h, y, x, seeds).1.len() >= seeds.len(),
        scan(b, w, h, y, x, seeds).1.len() == seeds.len() ==> {
            &&& scan(b, w, h, y, x, seeds).0 == b
            &&& forall|c: Coord|
                on_board(w, h, c) && (c.y > y || (c.y == y && c.x >= x)) ==> !#[trigger] reacts(
                    b,
                    w,
                    h,
                    c,
                )
        },
    decreases h - y, w - x,
{
    if !(0 <= y < h) {
    } else if x == w {
        lemma_scan_quiet(b, w, h, y + 1, 0, seeds);
    } else {
        let c = Coord { x: x as i32, y: y as i32 };
        if reacts(b, w, h, c) {
            let s2 = seeds.push((c, group_product(group_kinds(b, w, h, c)).unwrap()));
            lemma_scan_quiet(without_group(b, w, h, c), w, h, y, x + 1, s2);
        } else {
            lemma_scan_quiet(b, w, h, y, x + 1, seeds);
            assert forall|d: Coord|
                on_board(w, h, d) && (d.y > y || (d.y == y && d.x >= x)) && scan(
                    b,
                    w,
                    h,
                    y,
                    x,
                    seeds,
                ).1.len() == seeds.len() implies !#[trigger] reacts(b, w, h, d) by {
                if d.y == y && d.x == x {
                    assert(d == c);
                }
            }
        }
    }
}

/// A reaction tick that records nothing leaves the board as it is, and on such
/// a board every group has fewer than three cells or holds no kind with a
/// product.
pub proof fn lemma_quiet_tick_is_stable(b: Seq<Option<ElementType>>, w: int, h: int)
    requires
        0 <= w <= 8,
        0 <= h <= 10,
        tick_seeds(b, w, h).len() == 0,
    ensures
        tick_board(b, w, h) == b,
        forall|c: Coord|
            on_board(w, h, c) && kind_at(b, h, c).is_some() ==> (#[trigger] group(b, w, h, c)).len()
                < 3 || forall|k: ElementType|
                group_kinds(b, w, h, c).contains(k) ==> produces_of(k).is_none(),
{
    lemma_scan_quiet(b, w, h, 0, 0, seq![]);
    assert forall|c: Coord|
        on_board(w, h, c) && kind_at(b, h, c).is_some() && (#[trigger] group(b, w, h, c)).len()
            >= 3 implies forall|k: ElementType|
        group_kinds(b, w, h, c).contains(k) ==> produces_of(k).is_none() by {
        assert(!reacts(b, w, h, c));
        assert forall|k: ElementType| group_kinds(b, w, h, c).contains(k) implies produces_of(
            k,
        ).is_none() by {
            if produces_of(k).is_some() {
                lemma_strongest_exists(group_kinds(b, w, h, c), k);
            }
        }
    }
}

/// A scan over a board with no token records nothing and changes nothing.
pub proof fn lemma_empty_board_quiet(
    b: Seq<Option<ElementType>>,
    w: int,
    h: int,
    y: int,
    x: int,
    seeds: Seq<(Coord, ElementType)>,
)
    requires
        0 <= w <= 8,
        0 <= h <= 10,
        forall|c: Coord| on_board(w, h, c) ==> (#[trigger] kind_at(b, h, c)).is_none(),
    ensures
        scan(b, w, h, y, x, seeds) == (b, seeds),
    decreases h - y, w - x,
{
    if !(0 <= y < h) || !(0 <= x <= w) {
    } else if x == w {
        lemma_empty_board_quiet(b, w, h, y + 1, 0, seeds);
    } else {
        let c = Coord { x: x as i32, y: y as i32 };
        assert(kind_at(b, h, c).is_none());
        lemma_empty_board_quiet(b, w, h, y, x + 1, seeds);
    }
}

/// Distinct board cells are at most as many as the board has.
pub proof fn lemma_distinct_cells_bound(cells: Seq<Coord>, w: int, h: int)
    requires
        0 <= w <= 8,
        0 <= h <= 10,
        cells.no_duplicates(),
        forall|i: int| 0 <= i < cells.len() ==> on_board(w, h, #[trigger] cells[i]),
    ensures
        cells.len() <= w * h,
{
    let f = |c: Coord| cell_index(h, c.x as int, c.y as int);
    let m = cells.map_values(f);
    assert forall|i: int, j: int| 0 <= i < j < m.len() implies m[i] != m[j] by {
        lemma_cell_index(w, h, cells[i].x as int, cells[i].y as int);
        if m[i] == m[j] {
            lemma_cell_index_inj(
                h,
                cells[i].x as int,
                cells[i].y as int,
                cells[j].x as int,
                cells[j].y as int,
            );
            assert(cells[i] == cells[j]);
        }
    }
    assert(m.no_duplicates());
    m.unique_seq_to_set();
    lemma_int_range(0, w * h);
    assert forall|v: int| m.to_set().contains(v) implies set_int_range(0, w * h).contains(v) by {
        let i = choose|i: int| 0 <= i < m.len() && m[i] == v;
        lemma_cell_index(w, h, cells[i].x as int, cells[i].y as int);
    }
    lemma_len_subset(m.to_set(), set_int_range(0, w * h));
}

/// Every cell linked to `c` is among `cells`.
pub open spec fn closed_at(
    b: Seq<Option<ElementType>>,
    w: int,
    h: int,
    cells: Seq<Coord>,
    c: Coord,
) -> bool {
    forall|d: Coord| #[trigger] linked(b, w, h, c, d) ==> cells.contains(d)
}

/// The kinds of `cells` on board `b`, in order.
pub open spec fn kinds_in(b: Seq<Option<ElementType>>, h: int, cells: Seq<Coord>) -> Seq<
    ElementType,
> {
    cells.map_values(kind_reader(b, h))
}

/// Board `b` with the cells of `cells` emptied.
pub open spec fn cleared(b: Seq<Option<ElementType>>, h: int, cells: Seq<Coord>) -> Seq<
    Option<ElementType>,
> {
    Seq::new(
        b.len(),
        |j: int|
            if exists|k: int|
                0 <= k < cells.len() && #[trigger] cell_index(h, cells[k].x as int, cells[k].y as int)
                    == j {
                None
            } else {
                b[j]
            },
    )
}

/// What a sequence holds, its extensions hold too.
pub proof fn lemma_prefix_contains(r0: Seq<Coord>, r1: Seq<Coord>)
    requires
        r0.len() <= r1.len(),
        forall|i: int| 0 <= i < r0.len() ==> r1[i] == r0[i],
    ensures
        forall|d: Coord| #[trigger] r0.contains(d) ==> r1.contains(d),
{
    assert forall|d: Coord| #[trigger] r0.contains(d) implies r1.contains(d) by {
        let j = choose|j: int| 0 <= j < r0.len() && r0[j] == d;
        assert(r1[j] == d);
    }
}

/// Cells gathered from a connected cell `c` keep every gathered cell connected
/// to the seed, and stay within the board's size.
pub proof fn lemma_visit_connected(
    b: Seq<Option<ElementType>>,
    w: int,
    h: int,
    seed: Coord,
    c: Coord,
    r0: Seq<Coord>,
    r4: Seq<Coord>,
)
    requires
        0 <= w <= 8,
        0 <= h <= 10,
        connected(b, w, h, seed, c),
        r4.no_duplicates(),
        r0.len() <= r4.len(),
        forall|i: int| 0 <= i < r0.len() ==> r4[i] == r0[i],
        forall|i: int| 0 <= i < r0.len() ==> connected(b, w, h, seed, #[trigger] r0[i]),
        forall|i: int| r0.len() <= i < r4.len() ==> #[trigger] linked(b, w, h, c, r4[i]),
    ensures
        forall|i: int| 0 <= i < r4.len() ==> connected(b, w, h, seed, #[trigger] r4[i]),
        r4.len() <= w * h,
{
    assert forall|i: int| 0 <= i < r4.len() implies connected(b, w, h, seed, #[trigger] r4[i]) by {
        if i >= r0.len() {
            assert(linked(b, w, h, c, r4[i]));
            lemma_connected_step(b, w, h, seed, c, r4[i]);
        } else {
            assert(r4[i] == r0[i]);
        }
    }
    assert forall|i: int| 0 <= i < r4.len() implies on_board(w, h, #[trigger] r4[i]) by {
        lemma_connected_on_board(b, w, h, seed, r4[i]);
    }
    lemma_distinct_cells_bound(r4, w, h);
}

/// After cell `c` is taken from the work list and its neighbours gathered,
/// every gathered cell is still either waiting or has all its links gathered.
pub proof fn lemma_visit_closed(
    b: Seq<Option<ElementType>>,
    w: int,
    h: int,
    c: Coord,
    r0: Seq<Coord>,
    t0: Seq<Coord>,
    tp: Seq<Coord>,
    r4: Seq<Coord>,
    t4: Seq<Coord>,
)
    requires
        t0 == tp.push(c),
        r0.len() <= r4.len(),
        forall|i: int| 0 <= i < r0.len() ==> r4[i] == r0[i],
        t4 == tp + r4.subrange(r0.len() as int, r4.len() as int),
        closed_at(b, w, h, r4, c),
        forall|d: Coord|
            #[trigger] r0.contains(d) ==> t0.contains(d) || closed_at(b, w, h, r0, d),
    ensures
        forall|d: Coord|
            #[trigger] r4.contains(d) ==> t4.contains(d) || closed_at(b, w, h, r4, d),
{
    lemma_prefix_contains(r0, r4);
    assert forall|d: Coord| #[trigger] r4.contains(d) implies t4.contains(d) || closed_at(
        b,
        w,
        h,
        r4,
        d,
    ) by {
        let i = choose|i: int| 0 <= i < r4.len() && r4[i] == d;
        if i >= r0.len() {
            assert(t4[tp.len() + i - r0.len()] == d);
        } else if d != c {
            assert(r0[i] == d);
            assert(r0.contains(d));
            if t0.contains(d) {
                let j = choose|j: int| 0 <= j < t0.len() && t0[j] == d;
                assert(j < tp.len());
                assert(t4[j] == d);
            } else {
                assert forall|d2: Coord| #[trigger] linked(b, w, h, d, d2) implies r4.contains(d2) by {
                    assert(closed_at(b, w, h, r0, d));
                    assert(r0.contains(d2));
                }
            }
        }
    }
}

/// Emptying the gathered cells of a group empties the group.
pub proof fn lemma_cleared_group(
    b: Seq<Option<ElementType>>,
    w: int,
    h: int,
    s: Coord,
    cells: Seq<Coord>,
)
    requires
        cells.to_set() == group(b, w, h, s),
    ensures
        cleared(b, h, cells) == without_group(b, w, h, s),
{
    assert forall|j: int| 0 <= j < b.len() implies #[trigger] cleared(b, h, cells)[j] == without_group(
        b,
        w,
        h,
        s,
    )[j] by {
        if exists|k: int|
            0 <= k < cells.len() && #[trigger] cell_index(h, cells[k].x as int, cells[k].y as int)
                == j {
            let k = choose|k: int|
                0 <= k < cells.len() && #[trigger] cell_index(h, cells[k].x as int, cells[k].y as int)
                    == j;
            assert(cells.to_set().contains(cells[k]));
            assert(group(b, w, h, s).contains(cells[k]));
        }
        if exists|c: Coord| #[trigger]
            group(b, w, h, s).contains(c) && cell_index(h, c.x as int, c.y as int) == j {
            let c = choose|c: Coord| #[trigger]
                group(b, w, h, s).contains(c) && cell_index(h, c.x as int, c.y as int) == j;
            assert(cells.to_set().contains(c));
            let k = choose|k: int| 0 <= k < cells.len() && cells[k] == c;
            assert(cell_index(h, cells[k].x as int, cells[k].y as int) == j);
        }
    }
    assert(cleared(b, h, cells) =~= without_group(b, w, h, s));
}

} // verus!
