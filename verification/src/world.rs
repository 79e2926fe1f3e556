//! The spatial grid and area-of-interest (AoI) logic: integer grid cells,
//! square interest blocks, per-player [`Subscription`]s that emit an
//! [`AoiUpdate`] only when a player crosses a cell boundary, and the
//! entity-by-cell index ([`World`]).
use std::collections::BTreeMap;
use std::collections::HashMap;
use vstd::arithmetic::div_mod::lemma_fundamental_div_mod_converse;
use vstd::prelude::*;
use vstd::std_specs::iter::IteratorSpec;

verus! {

broadcast use vstd::std_specs::hash::group_hash_axioms;

/// Entity identifier as used on the wire (player id or boat id).
pub type EntityId = u64;

/// Default AoI radius in cells: a radius-2 block is a 5x5 neighbourhood.
pub const AOI_RADIUS_CELLS: i32 = 2;

/// An integer grid cell keyed by its `(cx, cz)` coordinates.
#[derive(Debug, Clone, Copy, PartialEq, Eq, Hash, Structural)]
pub struct Cell {
    pub cx: i32,
    pub cz: i32,
}

/// `|v|` as a mathematical integer.
pub open spec fn abs_int(v: int) -> int {
    if v < 0 {
        -v
    } else {
        v
    }
}

/// Chebyshev (king-move) distance between two cells.
pub open spec fn chebyshev(a: Cell, b: Cell) -> int {
    let dx = abs_int(a.cx - b.cx);
    let dz = abs_int(a.cz - b.cz);
    if dx >= dz {
        dx
    } else {
        dz
    }
}

impl Cell {
    pub fn new(cx: i32, cz: i32) -> (r: Cell)
        ensures
            r == (Cell { cx, cz }),
    {
        Cell { cx, cz }
    }

    /// Chebyshev (king-move) distance: the AoI block is a square of this
    /// radius. Both coordinate differences must fit an `i32` magnitude.
    pub fn chebyshev_distance(self, other: Cell) -> (r: i32)
        requires
            abs_int(self.cx - other.cx) <= i32::MAX,
            abs_int(self.cz - other.cz) <= i32::MAX,
        ensures
            r == chebyshev(self, other),
    {
        let dx = self.cx - other.cx;
        let dz = self.cz - other.cz;
        let ax = if dx < 0 {
            -dx
        } else {
            dx
        };
        let az = if dz < 0 {
            -dz
        } else {
            dz
        };
        if ax >= az {
            ax
        } else {
            az
        }
    }
}

/// The side of the square block of Chebyshev `radius`.
pub open spec fn block_side(radius: int) -> int {
    2 * radius + 1
}

/// The `i`-th cell of the block around `center`: rows of increasing `cz`,
/// each row of increasing `cx`.
pub open spec fn block_cell(center: Cell, radius: int, i: int) -> Cell {
    Cell {
        cx: (center.cx - radius + i % block_side(radius)) as i32,
        cz: (center.cz - radius + i / block_side(radius)) as i32,
    }
}

/// All cells within Chebyshev `radius` of `center`, in row-major order.
pub open spec fn block(center: Cell, radius: int) -> Seq<Cell> {
    Seq::new(
        (block_side(radius) * block_side(radius)) as nat,
        |i: int| block_cell(center, radius, i),
    )
}

/// The block of `radius` around `center` can be enumerated without leaving
/// the `i32` coordinate range or the `usize` length range.
pub open spec fn block_fits(center: Cell, radius: int) -> bool {
    &&& 0 <= radius
    &&& block_side(radius) <= i32::MAX
    &&& block_side(radius) * block_side(radius) <= usize::MAX
    &&& i32::MIN <= center.cx - radius
    &&& center.cx + radius <= i32::MAX
    &&& i32::MIN <= center.cz - radius
    &&& center.cz + radius <= i32::MAX
}

/// Whether `c` lies in the block of `radius` around `center`.
pub open spec fn in_block(c: Cell, center: Cell, radius: int) -> bool {
    abs_int(c.cx - center.cx) <= radius && abs_int(c.cz - center.cz) <= radius
}

proof fn lemma_block_index(center: Cell, radius: int, row: int, col: int)
    requires
        0 <= radius,
        0 <= row < block_side(radius),
        0 <= col < block_side(radius),
        i32::MIN <= center.cx - radius,
        center.cx + radius <= i32::MAX,
        i32::MIN <= center.cz - radius,
        center.cz + radius <= i32::MAX,
    ensures
        0 <= row * block_side(radius) + col < block_side(radius) * block_side(radius),
        block_cell(center, radius, row * block_side(radius) + col) == (Cell {
            cx: (center.cx - radius + col) as i32,
            cz: (center.cz - radius + row) as i32,
        }),
{
    let side = block_side(radius);
    let i = row * side + col;
    lemma_fundamental_div_mod_converse(i, side, row, col);
    assert(0 <= row * side <= (side - 1) * side) by (nonlinear_arith)
        requires
            0 <= row < side,
    ;
    assert((side - 1) * side + side == side * side) by (nonlinear_arith);
}

proof fn lemma_block_cell_in_range(center: Cell, radius: int, i: int)
    requires
        0 <= radius,
        0 <= i < block_side(radius) * block_side(radius),
    ensures
        0 <= i % block_side(radius) < block_side(radius),
        0 <= i / block_side(radius) < block_side(radius),
        i == (i / block_side(radius)) * block_side(radius) + i % block_side(radius),
{
    let side = block_side(radius);
    vstd::arithmetic::div_mod::lemma_fundamental_div_mod(i, side);
    vstd::arithmetic::div_mod::lemma_mod_bound(i, side);
    vstd::arithmetic::div_mod::lemma_div_pos_is_pos(i, side);
    vstd::arithmetic::div_mod::lemma_div_is_ordered(i, side * side, side);
    vstd::arithmetic::div_mod::lemma_div_by_multiple(side, side);
    if i / side >= side {
        assert(i >= side * side) by (nonlinear_arith)
            requires
                i == side * (i / side) + i % side,
                i % side >= 0,
                i / side >= side,
                side > 0,
        ;
    }
    assert(side * (i / side) == (i / side) * side) by (nonlinear_arith);
}

/// The block holds exactly the cells within Chebyshev `radius` of its
/// center, each of them once.
pub proof fn lemma_block_members(center: Cell, radius: int)
    requires
        block_fits(center, radius),
    ensures
        forall|c: Cell| block(center, radius).contains(c) <==> in_block(c, center, radius),
        block(center, radius).no_duplicates(),
        block(center, radius).len() == block_side(radius) * block_side(radius),
{
    let side = block_side(radius);
    let b = block(center, radius);
    assert forall|c: Cell| b.contains(c) implies in_block(c, center, radius) by {
        let i = choose|i: int| 0 <= i < b.len() && b[i] == c;
        lemma_block_cell_in_range(center, radius, i);
    }
    assert forall|c: Cell| in_block(c, center, radius) implies b.contains(c) by {
        let row = c.cz - center.cz + radius;
        let col = c.cx - center.cx + radius;
        lemma_block_index(center, radius, row, col);
        assert(b[row * side + col] == c);
    }
    assert forall|i: int, j: int| 0 <= i < b.len() && 0 <= j < b.len() && i != j implies b[i]
        != b[j] by {
        lemma_block_cell_in_range(center, radius, i);
        lemma_block_cell_in_range(center, radius, j);
    }
}

/// All cells within Chebyshev `radius` of `center` (a `(2*radius+1)` square),
/// in row-major order.
pub fn cells_in_radius(center: Cell, radius: i32) -> (r: Vec<Cell>)
    requires
        block_fits(center, radius as int),
    ensures
        r@ == block(center, radius as int),
{
    let side: i32 = 2 * radius + 1;
    let ghost rad = radius as int;
    let mut cells: Vec<Cell> = Vec::new();
    let mut dz: i32 = -radius;
    assert((dz + radius) * side == 0) by (nonlinear_arith)
        requires
            dz + radius == 0,
    ;
    while dz <= radius
        invariant
            block_fits(center, rad),
            rad == radius,
            side == block_side(rad),
            -radius <= dz <= radius + 1,
            cells@.len() == (dz + radius) * side,
            forall|i: int| 0 <= i < cells@.len() ==> cells@[i] == block_cell(center, rad, i),
        decreases radius + 1 - dz,
    {
        let mut dx: i32 = -radius;
        while dx <= radius
            invariant
                block_fits(center, rad),
                rad == radius,
                side == block_side(rad),
                -radius <= dz <= radius,
                -radius <= dx <= radius + 1,
                cells@.len() == (dz + radius) * side + (dx + radius),
                forall|i: int| 0 <= i < cells@.len() ==> cells@[i] == block_cell(center, rad, i),
            decreases radius + 1 - dx,
        {
            proof {
                lemma_block_index(center, rad, dz + rad, dx + rad);
            }
            cells.push(Cell { cx: center.cx + dx, cz: center.cz + dz });
            dx += 1;
        }
        proof {
            assert((dz + radius) * side + side == (dz + 1 + radius) * side) by (nonlinear_arith);
        }
        dz += 1;
    }
    proof {
        assert(cells@ =~= block(center, rad));
    }
    cells
}

/// The delta a player's interest set undergoes when it recentres.
#[derive(Debug, Clone, Default, PartialEq, Eq)]
pub struct AoiUpdate {
    pub added: Vec<Cell>,
    pub removed: Vec<Cell>,
}

impl AoiUpdate {
    /// True when nothing changed (the player stayed in the same cell).
    pub fn is_empty(&self) -> (r: bool)
        ensures
            r == (self.added@.len() == 0 && self.removed@.len() == 0),
    {
        self.added.len() == 0 && self.removed.len() == 0
    }
}

/// The cells a subscription centred at `center` (if placed) watches.
pub open spec fn interest(center: Option<Cell>, radius: int) -> Seq<Cell> {
    match center {
        Some(c) => block(c, radius),
        None => Seq::empty(),
    }
}

/// Whether `c` is watched by a subscription centred at `center` (if placed).
pub open spec fn watches(center: Option<Cell>, radius: int, c: Cell) -> bool {
    match center {
        Some(x) => in_block(c, x, radius),
        None => false,
    }
}

/// A single player's area-of-interest subscription: the block of `radius`
/// around its centre, once it has been placed.
#[derive(Debug)]
pub struct Subscription {
    radius: i32,
    center: Option<Cell>,
    cells: Vec<Cell>,
}

impl Subscription {
    #[verifier::type_invariant]
    spec fn inv(self) -> bool {
        &&& self.radius >= 0
        &&& self.cells@ == interest(self.center, self.radius as int)
        &&& (self.center matches Some(c) ==> block_fits(c, self.radius as int))
    }

    /// The radius in cells.
    pub closed spec fn spec_radius(&self) -> int {
        self.radius as int
    }

    /// The current centre cell, if the subscription has been placed.
    pub closed spec fn spec_center(&self) -> Option<Cell> {
        self.center
    }

    /// The cells currently subscribed to.
    pub open spec fn spec_cells(&self) -> Seq<Cell> {
        interest(self.spec_center(), self.spec_radius())
    }

    pub fn new(radius: i32) -> (r: Subscription)
        requires
            radius >= 0,
        ensures
            r.spec_radius() == radius,
            r.spec_center() is None,
    {
        Subscription { radius, center: None, cells: Vec::new() }
    }

    /// The player's current centre cell, if it has ever been placed.
    pub fn center(&self) -> (r: Option<Cell>)
        ensures
            r == self.spec_center(),
    {
        self.center
    }

    /// The full set of cells the player is currently subscribed to, each once.
    pub fn cells(&self) -> (r: &[Cell])
        ensures
            r@ == self.spec_cells(),
            r@.no_duplicates(),
    {
        proof {
            use_type_invariant(self);
            if let Some(c) = self.center {
                lemma_block_members(c, self.radius as int);
            }
        }
        self.cells.as_slice()
    }

    /// True if `cell` is currently in view: exactly the cells within the
    /// radius of the centre.
    pub fn contains(&self, cell: Cell) -> (r: bool)
        ensures
            r == self.spec_cells().contains(cell),
            r == watches(self.spec_center(), self.spec_radius(), cell),
    {
        proof {
            use_type_invariant(self);
        }
        match self.center {
            None => false,
            Some(c) => {
                proof {
                    lemma_block_members(c, self.radius as int);
                }
                within_radius(cell, c, self.radius)
            },
        }
    }

    /// Recentre on `center`, returning the cells that entered view (in block
    /// order) and those that left it (in the old block's order). An empty
    /// update means the centre cell did not change.
    pub fn recenter(&mut self, center: Cell) -> (r: AoiUpdate)
        requires
            block_fits(center, old(self).spec_radius()),
        ensures
            final(self).spec_radius() == old(self).spec_radius(),
            final(self).spec_center() == Some(center),
            old(self).spec_center() == Some(center) ==> r.added@.len() == 0 && r.removed@.len()
                == 0,
            old(self).spec_center() != Some(center) ==> {
                &&& r.added@ == final(self).spec_cells().filter(
                    |c: Cell| !old(self).spec_cells().contains(c),
                )
                &&& r.removed@ == old(self).spec_cells().filter(
                    |c: Cell| !final(self).spec_cells().contains(c),
                )
            },
    {
        proof {
            use_type_invariant(&*self);
        }
        if self.center == Some(center) {
            return AoiUpdate { added: Vec::new(), removed: Vec::new() };
        }
        let radius = self.radius;
        let ghost old_cells = self.cells@;
        let prev = self.center;
        let ghost old_center = prev;
        let new_cells = cells_in_radius(center, radius);
        proof {
            lemma_block_members(center, radius as int);
            if let Some(c) = old_center {
                lemma_block_members(c, radius as int);
            }
        }
        let ghost not_old = |c: Cell| !old_cells.contains(c);
        let ghost not_new = |c: Cell| !new_cells@.contains(c);
        let mut added: Vec<Cell> = Vec::new();
        let mut i: usize = 0;
        while i < new_cells.len()
            invariant
                i <= new_cells@.len(),
                old_center == prev,
                old_cells == interest(old_center, radius as int),
                old_center matches Some(c) ==> block_fits(c, radius as int),
                forall|c: Cell| old_cells.contains(c) <==> watches(old_center, radius as int, c),
                not_old == (|c: Cell| !old_cells.contains(c)),
                added@ == new_cells@.take(i as int).filter(not_old),
            decreases new_cells@.len() - i,
        {
            let c = new_cells[i];
            let seen = match prev {
                None => false,
                Some(o) => within_radius(c, o, radius),
            };
            if !seen {
                added.push(c);
            }
            proof {
                assert(new_cells@.take(i + 1) =~= new_cells@.take(i as int).push(c));
                new_cells@.take(i as int).lemma_filter_push(c, not_old);
            }
            i += 1;
        }
        proof {
            assert(new_cells@.take(new_cells@.len() as int) =~= new_cells@);
        }
        let mut removed: Vec<Cell> = Vec::new();
        let mut j: usize = 0;
        while j < self.cells.len()
            invariant
                j <= self.cells@.len(),
                self.cells@ == old_cells,
                forall|c: Cell| new_cells@.contains(c) <==> in_block(c, center, radius as int),
                not_new == (|c: Cell| !new_cells@.contains(c)),
                removed@ == old_cells.take(j as int).filter(not_new),
            decreases self.cells@.len() - j,
        {
            let c = self.cells[j];
            if !within_radius(c, center, radius) {
                removed.push(c);
            }
            proof {
                assert(old_cells.take(j + 1) =~= old_cells.take(j as int).push(c));
                old_cells.take(j as int).lemma_filter_push(c, not_new);
            }
            j += 1;
        }
        proof {
            assert(old_cells.take(old_cells.len() as int) =~= old_cells);
        }
        *self = Subscription { radius, center: Some(center), cells: new_cells };
        AoiUpdate { added, removed }
    }
}

/// Whether `c` is within Chebyshev `radius` of `center`, computed without
/// any possibility of overflow.
fn within_radius(c: Cell, center: Cell, radius: i32) -> (r: bool)
    ensures
        r == in_block(c, center, radius as int),
{
    let dx: i64 = c.cx as i64 - center.cx as i64;
    let dz: i64 = c.cz as i64 - center.cz as i64;
    let ax = if dx < 0 {
        -dx
    } else {
        dx
    };
    let az = if dz < 0 {
        -dz
    } else {
        dz
    };
    ax <= radius as i64 && az <= radius as i64
}

/// An update computed by [`Subscription::recenter`] carries the old interest
/// set to the new one: a cell is in the new set exactly when it was in the old
/// set and not removed, or was added; nothing added was already in view and
/// nothing removed stays in view.
pub proof fn lemma_aoi_update_reconstructs_interest(old_cells: Seq<Cell>, new_cells: Seq<Cell>)
    ensures
        ({
            let added = new_cells.filter(|c: Cell| !old_cells.contains(c));
            let removed = old_cells.filter(|c: Cell| !new_cells.contains(c));
            &&& forall|c: Cell|
                new_cells.contains(c) <==> (old_cells.contains(c) && !removed.contains(c))
                    || added.contains(c)
            &&& forall|c: Cell| added.contains(c) ==> !old_cells.contains(c)
            &&& forall|c: Cell| removed.contains(c) ==> !new_cells.contains(c)
        }),
{
    let not_old = |c: Cell| !old_cells.contains(c);
    let not_new = |c: Cell| !new_cells.contains(c);
    let added = new_cells.filter(not_old);
    let removed = old_cells.filter(not_new);
    assert forall|c: Cell| added.contains(c) implies new_cells.contains(c) && !old_cells.contains(
        c,
    ) by {
        let i = choose|i: int| 0 <= i < added.len() && added[i] == c;
        new_cells.lemma_filter_contains_rev(not_old, c);
        new_cells.filter_lemma(not_old);
    }
    assert forall|c: Cell| removed.contains(c) implies old_cells.contains(c) && !new_cells.contains(
        c,
    ) by {
        old_cells.lemma_filter_contains_rev(not_new, c);
        old_cells.filter_lemma(not_new);
    }
    assert forall|c: Cell| new_cells.contains(c) && !old_cells.contains(c) implies added.contains(
        c,
    ) by {
        let i = choose|i: int| 0 <= i < new_cells.len() && new_cells[i] == c;
        new_cells.lemma_filter_contains(not_old, i);
    }
    assert forall|c: Cell| old_cells.contains(c) && !new_cells.contains(c) implies removed.contains(
        c,
    ) by {
        let i = choose|i: int| 0 <= i < old_cells.len() && old_cells[i] == c;
        old_cells.lemma_filter_contains(not_new, i);
    }
}

proof fn lemma_filter_keeps_all(s: Seq<Cell>, p: spec_fn(Cell) -> bool)
    requires
        forall|i: int| 0 <= i < s.len() ==> p(s[i]),
    ensures
        s.filter(p) == s,
    decreases s.len(),
{
    if s.len() > 0 {
        let d = s.drop_last();
        assert forall|i: int| 0 <= i < d.len() implies p(d[i]) by {
            assert(d[i] == s[i]);
        }
        lemma_filter_keeps_all(d, p);
        assert(p(s[s.len() - 1]));
        reveal_with_fuel(Seq::<_>::filter, 1);
        assert(s.filter(p) == d.filter(p).push(s.last()));
        assert(d.push(s.last()) =~= s);
    }
}

/// The first recentre of a fresh subscription reports its whole interest
/// block as added (and, the old set being empty, nothing as removed).
pub proof fn lemma_first_recenter_adds_full_block(center: Cell, radius: int)
    ensures
        block(center, radius).filter(|c: Cell| !Seq::<Cell>::empty().contains(c)) == block(
            center,
            radius,
        ),
        Seq::<Cell>::empty().filter(|c: Cell| !block(center, radius).contains(c)) == Seq::<
            Cell,
        >::empty(),
{
    let b = block(center, radius);
    let p = |c: Cell| !Seq::<Cell>::empty().contains(c);
    assert forall|i: int| 0 <= i < b.len() implies p(b[i]) by {}
    lemma_filter_keeps_all(b, p);
    assert(Seq::<Cell>::empty().filter(|c: Cell| !block(center, radius).contains(c)) =~= Seq::<
        Cell,
    >::empty()) by {
        reveal_with_fuel(Seq::<_>::filter, 1);
    }
}

/// The key a cell is indexed under.
pub open spec fn cell_key(c: Cell) -> (i32, i32) {
    (c.cx, c.cz)
}

/// Cells and their keys determine each other.
proof fn lemma_cell_key_injective(a: Cell, b: Cell)
    ensures
        cell_key(a) == cell_key(b) <==> a == b,
{
}

/// Cell keys are ordered the way `BTreeMap` needs.
proof fn lemma_cell_keys_ordered()
    ensures
        vstd::std_specs::btree::key_obeys_cmp_spec::<(i32, i32)>(),
{
    broadcast use vstd::laws_cmp::group_laws_cmp;

    assert(vstd::laws_cmp::obeys_cmp::<i32>());
    assert(vstd::laws_cmp::obeys_cmp::<(i32, i32)>());
}

/// Spatial index of entities keyed by grid cell: where each entity is, and
/// for each occupied cell the entities in it.
#[derive(Debug)]
pub struct World {
    cell_of: HashMap<EntityId, Cell>,
    index: BTreeMap<(i32, i32), Vec<EntityId>>,
}

/// The entities of `positions` that occupy a cell satisfying `p`.
pub open spec fn entities_where(positions: Map<EntityId, Cell>, p: spec_fn(Cell) -> bool) -> Set<
    EntityId,
> {
    positions.dom().filter(|e: EntityId| p(positions[e]))
}

/// `index` lists, under each occupied cell's key, exactly the entities that
/// `cell_of` places there, each once; no cell is listed empty.
pub open spec fn index_matches(cell_of: Map<EntityId, Cell>, index: Map<(i32, i32), Vec<EntityId>>) -> bool {
    &&& forall|e: EntityId| #[trigger]
        cell_of.contains_key(e) ==> index.contains_key(cell_key(cell_of[e])) && index[cell_key(
            cell_of[e],
        )]@.contains(e)
    &&& forall|k: (i32, i32)| #[trigger]
        index.contains_key(k) ==> {
            &&& index[k]@.no_duplicates()
            &&& index[k]@.len() > 0
            &&& forall|i: int|
                0 <= i < index[k]@.len() ==> cell_of.contains_key(#[trigger] index[k]@[i])
                    && cell_key(cell_of[index[k]@[i]]) == k
        }
}

/// `v` without `id`, in order.
fn without(v: &Vec<EntityId>, id: EntityId) -> (r: Vec<EntityId>)
    requires
        v@.no_duplicates(),
    ensures
        r@.no_duplicates(),
        forall|x: EntityId| r@.contains(x) <==> v@.contains(x) && x != id,
        r@.len() < v@.len() <==> v@.contains(id),
{
    let mut out: Vec<EntityId> = Vec::new();
    let mut i: usize = 0;
    while i < v.len()
        invariant
            i <= v@.len(),
            v@.no_duplicates(),
            out@.no_duplicates(),
            forall|x: EntityId| out@.contains(x) <==> v@.take(i as int).contains(x) && x != id,
            out@.len() + (if v@.take(i as int).contains(id) { 1int } else { 0int }) == i,
        decreases v@.len() - i,
    {
        let x = v[i];
        let ghost before = out@;
        proof {
            assert(v@.take(i + 1) =~= v@.take(i as int).push(x));
            assert(!v@.take(i as int).contains(x)) by {
                if v@.take(i as int).contains(x) {
                    let j = choose|j: int| 0 <= j < i && v@.take(i as int)[j] == x;
                    assert(v@[j] == v@[i as int]);
                }
            }
            assert forall|y: EntityId| v@.take(i + 1).contains(y) <==> v@.take(i as int).contains(y)
                || y == x by {
                if v@.take(i + 1).contains(y) {
                    let t1 = v@.take(i + 1);
                    let j = choose|j: int| 0 <= j < i + 1 && t1[j] == y;
                    if j < i {
                        assert(v@.take(i as int)[j] == y);
                    }
                }
                if v@.take(i as int).contains(y) {
                    let j = choose|j: int| 0 <= j < i && v@.take(i as int)[j] == y;
                    assert(v@.take(i + 1)[j] == y);
                }
                if y == x {
                    assert(v@.take(i + 1)[i as int] == y);
                }
            }
        }
        if x != id {
            proof {
                assert(!before.contains(x));
            }
            out.push(x);
            proof {
                assert forall|a: int, b: int| 0 <= a < b < out@.len() implies out@[a] != out@[b] by {
                    if b == before.len() {
                        assert(out@[a] == before[a]);
                        assert(before.contains(out@[a]));
                    } else {
                        assert(out@[a] == before[a] && out@[b] == before[b]);
                    }
                }
                assert forall|y: EntityId| out@.contains(y) <==> before.contains(y) || y == x by {
                    if out@.contains(y) && y != x {
                        let j = choose|j: int| 0 <= j < out@.len() && out@[j] == y;
                        assert(before[j] == y);
                    }
                    if before.contains(y) {
                        let j = choose|j: int| 0 <= j < before.len() && before[j] == y;
                        assert(out@[j] == y);
                    }
                    if y == x {
                        assert(out@[before.len() as int] == y);
                    }
                }
            }
        }
        proof {
            assert forall|y: EntityId| out@.contains(y) <==> v@.take(i + 1).contains(y) && y != id by {
                if x != id {
                    assert(out@.contains(y) <==> before.contains(y) || y == x);
                } else {
                    assert(out@ == before);
                }
                assert(v@.take(i + 1).contains(y) <==> v@.take(i as int).contains(y) || y == x);
                assert(before.contains(y) <==> v@.take(i as int).contains(y) && y != id);
            }
        }
        i = i + 1;
    }
    proof {
        assert(v@.take(v@.len() as int) =~= v@);
    }
    out
}

fn copy_ids(v: &Vec<EntityId>) -> (r: Vec<EntityId>)
    ensures
        r@ == v@,
{
    let r = v.clone();
    proof {
        assert(r@ =~= v@);
    }
    r
}

impl World {
    /// The cell each tracked entity occupies.
    pub closed spec fn positions(&self) -> Map<EntityId, Cell> {
        self.cell_of@
    }

    /// The per-cell index agrees with the positions.
    pub closed spec fn wf(&self) -> bool {
        index_matches(self.cell_of@, self.index@)
    }

    /// An empty index.
    pub fn new() -> (r: World)
        ensures
            r.wf(),
            r.positions() == Map::<EntityId, Cell>::empty(),
    {
        World { cell_of: HashMap::new(), index: BTreeMap::new() }
    }

    /// Number of tracked entities.
    pub fn len(&self) -> (r: usize)
        ensures
            r == self.positions().len(),
    {
        self.cell_of.len()
    }

    /// True when no entity is tracked.
    pub fn is_empty(&self) -> (r: bool)
        ensures
            r == (self.positions().len() == 0),
    {
        proof {
            assert(self.cell_of@.dom().finite());
            if self.cell_of@.dom().len() == 0 {
                assert(self.cell_of@.dom() =~= Set::empty());
            }
            if self.cell_of@.is_empty() {
                assert(self.cell_of@.dom() =~= Set::empty());
            }
        }
        self.cell_of.is_empty()
    }

    /// The cell an entity currently occupies.
    pub fn cell_of_entity(&self, id: EntityId) -> (r: Option<Cell>)
        ensures
            r == (if self.positions().contains_key(id) {
                Some(self.positions()[id])
            } else {
                None
            }),
    {
        match self.cell_of.get(&id) {
            Some(c) => Some(*c),
            None => None,
        }
    }

    /// Take `id` out of the index entry of `cell`, dropping the entry when it
    /// empties.
    fn unlist(&mut self, id: EntityId, cell: Cell)
        requires
            old(self).wf(),
            old(self).cell_of@.contains_key(id),
            old(self).cell_of@[id] == cell,
        ensures
            final(self).cell_of@ == old(self).cell_of@,
            index_matches(old(self).cell_of@.remove(id), final(self).index@),
    {
        proof {
            lemma_cell_keys_ordered();
        }
        let key = (cell.cx, cell.cz);
        let ghost m = self.cell_of@;
        let ghost old_index = self.index@;
        let entry = self.index.remove(&key);
        match entry {
            Some(v) => {
                proof {
                    assert(old_index.contains_key(key));
                    assert(v == old_index[key]);
                }
                let rest = without(&v, id);
                let ghost m2 = m.remove(id);
                if rest.len() > 0 {
                    self.index.insert(key, rest);
                }
                proof {
                    assert forall|e: EntityId| #[trigger] m2.contains_key(e) implies self.index@.contains_key(
                        cell_key(m2[e]),
                    ) && self.index@[cell_key(m2[e])]@.contains(e) by {
                        assert(m.contains_key(e));
                        assert(old_index[cell_key(m[e])]@.contains(e));
                        if cell_key(m[e]) == key {
                            assert(rest@.contains(e));
                        }
                    }
                    assert forall|k: (i32, i32)| #[trigger] self.index@.contains_key(k) implies {
                        &&& self.index@[k]@.no_duplicates()
                        &&& self.index@[k]@.len() > 0
                        &&& forall|i: int|
                            0 <= i < self.index@[k]@.len() ==> m2.contains_key(
                                #[trigger] self.index@[k]@[i],
                            ) && cell_key(m2[self.index@[k]@[i]]) == k
                    } by {
                        assert(old_index.contains_key(k));
                        if k == key {
                            assert forall|i: int| 0 <= i < rest@.len() implies m2.contains_key(
                                #[trigger] rest@[i],
                            ) && cell_key(m2[rest@[i]]) == k by {
                                assert(rest@.contains(rest@[i]));
                                assert(v@.contains(rest@[i]));
                                let j = choose|j: int| 0 <= j < v@.len() && v@[j] == rest@[i];
                                assert(m.contains_key(v@[j]) && cell_key(m[v@[j]]) == k);
                            }
                        } else {
                            assert forall|i: int| 0 <= i < self.index@[k]@.len() implies m2.contains_key(
                                #[trigger] self.index@[k]@[i],
                            ) && cell_key(m2[self.index@[k]@[i]]) == k by {
                                let e = old_index[k]@[i];
                                assert(m.contains_key(e) && cell_key(m[e]) == k);
                                assert(e != id);
                            }
                        }
                    }
                }
            },
            None => {
                proof {
                    assert(false);
                }
            },
        }
    }

    /// List `id` under `cell` in the index.
    fn enlist(&mut self, id: EntityId, cell: Cell)
        requires
            index_matches(old(self).cell_of@.remove(id), old(self).index@),
        ensures
            final(self).cell_of@ == old(self).cell_of@,
            index_matches(old(self).cell_of@.insert(id, cell), final(self).index@),
    {
        proof {
            lemma_cell_keys_ordered();
        }
        let key = (cell.cx, cell.cz);
        let ghost m0 = self.cell_of@.remove(id);
        let ghost m1 = self.cell_of@.insert(id, cell);
        let ghost old_index = self.index@;
        let entry = self.index.remove(&key);
        let mut v = match entry {
            Some(v) => v,
            None => Vec::new(),
        };
        proof {
            if old_index.contains_key(key) {
                assert(v == old_index[key]);
            } else {
                assert(v@.len() == 0);
            }
            assert(!v@.contains(id)) by {
                if v@.contains(id) {
                    let j = choose|j: int| 0 <= j < v@.len() && v@[j] == id;
                    assert(m0.contains_key(v@[j]));
                }
            }
        }
        let ghost before = v@;
        v.push(id);
        self.index.insert(key, v);
        proof {
            assert(self.index@ == old_index.insert(key, v));
            assert(v@ == before.push(id));
            assert forall|y: EntityId| v@.contains(y) <==> before.contains(y) || y == id by {
                if v@.contains(y) && y != id {
                    let j = choose|j: int| 0 <= j < v@.len() && v@[j] == y;
                    assert(before[j] == y);
                }
                if before.contains(y) {
                    let j = choose|j: int| 0 <= j < before.len() && before[j] == y;
                    assert(v@[j] == y);
                }
                if y == id {
                    assert(v@[before.len() as int] == y);
                }
            }
            assert forall|e: EntityId| #[trigger] m1.contains_key(e) implies self.index@.contains_key(
                cell_key(m1[e]),
            ) && self.index@[cell_key(m1[e])]@.contains(e) by {
                if e != id {
                    assert(m0.contains_key(e));
                    assert(old_index[cell_key(m0[e])]@.contains(e));
                }
            }
            assert forall|k: (i32, i32)| #[trigger] self.index@.contains_key(k) implies {
                &&& self.index@[k]@.no_duplicates()
                &&& self.index@[k]@.len() > 0
                &&& forall|i: int|
                    0 <= i < self.index@[k]@.len() ==> m1.contains_key(#[trigger] self.index@[k]@[i])
                        && cell_key(m1[self.index@[k]@[i]]) == k
            } by {
                if k == key {
                    assert forall|i: int, j: int| 0 <= i < j < v@.len() implies v@[i] != v@[j] by {
                        if j == before.len() {
                            assert(before.contains(v@[i]) || i == j) by {
                                assert(before[i] == v@[i]);
                            }
                        } else {
                            assert(before[i] == v@[i] && before[j] == v@[j]);
                        }
                    }
                    assert forall|i: int| 0 <= i < v@.len() implies m1.contains_key(#[trigger] v@[i])
                        && cell_key(m1[v@[i]]) == k by {
                        if i < before.len() {
                            assert(v@[i] == before[i]);
                            assert(m0.contains_key(before[i]) && cell_key(m0[before[i]]) == k);
                        }
                    }
                } else {
                    assert(old_index.contains_key(k));
                    assert forall|i: int| 0 <= i < self.index@[k]@.len() implies m1.contains_key(
                        #[trigger] self.index@[k]@[i],
                    ) && cell_key(m1[self.index@[k]@[i]]) == k by {
                        let e = old_index[k]@[i];
                        assert(m0.contains_key(e) && cell_key(m0[e]) == k);
                    }
                }
            }
        }
    }

    /// Place or move `id` directly into `cell`. Returns `true` on cell change
    /// (including the first placement).
    pub fn place_in_cell(&mut self, id: EntityId, cell: Cell) -> (r: bool)
        requires
            old(self).wf(),
        ensures
            final(self).wf(),
            final(self).positions() == old(self).positions().insert(id, cell),
            r == !(old(self).positions().contains_key(id) && old(self).positions()[id] == cell),
    {
        let current = match self.cell_of.get(&id) {
            Some(c) => Some(*c),
            None => None,
        };
        match current {
            Some(old_cell) => {
                if old_cell == cell {
                    proof {
                        assert(self.cell_of@.insert(id, cell) =~= self.cell_of@);
                    }
                    return false;
                }
                self.unlist(id, old_cell);
            },
            None => {
                proof {
                    assert(self.cell_of@.remove(id) =~= self.cell_of@);
                }
            },
        }
        self.enlist(id, cell);
        let ghost before = self.cell_of@;
        self.cell_of.insert(id, cell);
        proof {
            assert(self.cell_of@ =~= before.insert(id, cell));
        }
        true
    }

    /// Remove an entity from the index entirely.
    pub fn remove(&mut self, id: EntityId)
        requires
            old(self).wf(),
        ensures
            final(self).wf(),
            final(self).positions() == old(self).positions().remove(id),
    {
        let current = match self.cell_of.get(&id) {
            Some(c) => Some(*c),
            None => None,
        };
        match current {
            Some(c) => {
                self.unlist(id, c);
                self.cell_of.remove(&id);
            },
            None => {
                proof {
                    assert(self.cell_of@.remove(id) =~= self.cell_of@);
                }
            },
        }
    }

    /// Entities in a single cell, each once (in no particular order).
    pub fn entities_in(&self, cell: Cell) -> (r: Vec<EntityId>)
        requires
            self.wf(),
        ensures
            r@.to_set() == entities_where(self.positions(), |c: Cell| c == cell),
            r@.no_duplicates(),
    {
        proof {
            lemma_cell_keys_ordered();
        }
        let key = (cell.cx, cell.cz);
        let ghost m = self.cell_of@;
        let ghost want = entities_where(m, |c: Cell| c == cell);
        match self.index.get(&key) {
            Some(v) => {
                let r = copy_ids(v);
                proof {
                    assert forall|e: EntityId| r@.to_set().contains(e) <==> want.contains(e) by {
                        if r@.contains(e) {
                            let i = choose|i: int| 0 <= i < r@.len() && r@[i] == e;
                            assert(m.contains_key(v@[i]) && cell_key(m[v@[i]]) == key);
                            lemma_cell_key_injective(m[e], cell);
                        }
                        if want.contains(e) {
                            assert(m.contains_key(e));
                        }
                    }
                    assert(r@.to_set() =~= want);
                }
                r
            },
            None => {
                proof {
                    assert forall|e: EntityId| !want.contains(e) by {
                        if want.contains(e) {
                            assert(m.contains_key(e));
                        }
                    }
                    assert(Seq::<EntityId>::empty().to_set() =~= want);
                }
                Vec::new()
            },
        }
    }

    /// Entities anywhere within Chebyshev `radius` of `center`, each once (in
    /// no particular order): the entries of each cell of the block in turn.
    pub fn entities_in_radius(&self, center: Cell, radius: i32) -> (r: Vec<EntityId>)
        requires
            self.wf(),
            block_fits(center, radius as int),
        ensures
            r@.to_set() == entities_where(
                self.positions(),
                |c: Cell| in_block(c, center, radius as int),
            ),
            r@.no_duplicates(),
    {
        proof {
            lemma_cell_keys_ordered();
            lemma_block_members(center, radius as int);
        }
        let cells = cells_in_radius(center, radius);
        let ghost m = self.cell_of@;
        let mut out: Vec<EntityId> = Vec::new();
        let mut i: usize = 0;
        while i < cells.len()
            invariant
                i <= cells@.len(),
                m == self.cell_of@,
                self.wf(),
                cells@ == block(center, radius as int),
                cells@.no_duplicates(),
                out@.no_duplicates(),
                forall|e: EntityId|
                    out@.contains(e) <==> m.contains_key(e) && cells@.take(i as int).contains(m[e]),
            decreases cells@.len() - i,
        {
            let cell = cells[i];
            let key = (cell.cx, cell.cz);
            proof {
                assert(cells@.take(i + 1) =~= cells@.take(i as int).push(cell));
                assert forall|c: Cell| cells@.take(i + 1).contains(c) <==> cells@.take(i as int).contains(c)
                    || c == cell by {
                    if cells@.take(i + 1).contains(c) {
                        let t1 = cells@.take(i + 1);
                        let j = choose|j: int| 0 <= j < i + 1 && t1[j] == c;
                        if j < i {
                            assert(cells@.take(i as int)[j] == c);
                        }
                    }
                    if cells@.take(i as int).contains(c) {
                        let j = choose|j: int| 0 <= j < i && cells@.take(i as int)[j] == c;
                        assert(cells@.take(i + 1)[j] == c);
                    }
                    if c == cell {
                        assert(cells@.take(i + 1)[i as int] == c);
                    }
                }
                assert(!cells@.take(i as int).contains(cell)) by {
                    if cells@.take(i as int).contains(cell) {
                        let j = choose|j: int| 0 <= j < i && cells@.take(i as int)[j] == cell;
                        assert(cells@[j] == cells@[i as int]);
                    }
                }
            }
            match self.index.get(&key) {
                Some(v) => {
                    let ghost out0 = out@;
                    let mut k: usize = 0;
                    while k < v.len()
                        invariant
                            k <= v@.len(),
                            m == self.cell_of@,
                            self.wf(),
                            key == cell_key(cell),
                            self.index@.contains_key(key),
                            *v == self.index@[key],
                            out@.no_duplicates(),
                            forall|e: EntityId|
                                out@.contains(e) <==> out0.contains(e) || v@.take(k as int).contains(e),
                            forall|e: EntityId| out0.contains(e) ==> m.contains_key(e) && m[e] != cell,
                        decreases v@.len() - k,
                    {
                        let e = v[k];
                        let ghost before = out@;
                        proof {
                            assert(m.contains_key(e) && cell_key(m[e]) == key);
                            lemma_cell_key_injective(m[e], cell);
                            assert(v@.take(k + 1) =~= v@.take(k as int).push(e));
                            assert(!v@.take(k as int).contains(e)) by {
                                if v@.take(k as int).contains(e) {
                                    let j = choose|j: int| 0 <= j < k && v@.take(k as int)[j] == e;
                                    assert(v@[j] == v@[k as int]);
                                }
                            }
                            assert(m[e] == cell);
                            assert(!out0.contains(e));
                            assert(!before.contains(e)) by {
                                if before.contains(e) {
                                    assert(out0.contains(e) || v@.take(k as int).contains(e));
                                }
                            }
                        }
                        out.push(e);
                        proof {
                            assert forall|y: EntityId| out@.contains(y) <==> out0.contains(y) || v@.take(
                                k + 1,
                            ).contains(y) by {
                                if out@.contains(y) && y != e {
                                    let j = choose|j: int| 0 <= j < out@.len() && out@[j] == y;
                                    assert(before[j] == y);
                                }
                                if before.contains(y) {
                                    let j = choose|j: int| 0 <= j < before.len() && before[j] == y;
                                    assert(out@[j] == y);
                                }
                                if y == e {
                                    assert(out@[before.len() as int] == y);
                                    assert(v@.take(k + 1)[k as int] == y);
                                }
                                if v@.take(k + 1).contains(y) {
                                    let t1 = v@.take(k + 1);
                                    let j = choose|j: int| 0 <= j < k + 1 && t1[j] == y;
                                    if j < k {
                                        assert(v@.take(k as int)[j] == y);
                                    }
                                }
                                if v@.take(k as int).contains(y) {
                                    let j = choose|j: int| 0 <= j < k && v@.take(k as int)[j] == y;
                                    assert(v@.take(k + 1)[j] == y);
                                }
                            }
                            assert forall|a: int, b: int| 0 <= a < b < out@.len() implies out@[a]
                                != out@[b] by {
                                if b == before.len() {
                                    assert(out@[a] == before[a]);
                                    assert(before.contains(out@[a]));
                                } else {
                                    assert(out@[a] == before[a] && out@[b] == before[b]);
                                }
                            }
                        }
                        k = k + 1;
                    }
                    proof {
                        assert(v@.take(v@.len() as int) =~= v@);
                        assert forall|e: EntityId| out@.contains(e) <==> m.contains_key(e) && cells@.take(
                            i + 1,
                        ).contains(m[e]) by {
                            if v@.contains(e) {
                                let j = choose|j: int| 0 <= j < v@.len() && v@[j] == e;
                                assert(m.contains_key(v@[j]) && cell_key(m[v@[j]]) == key);
                                lemma_cell_key_injective(m[e], cell);
                            }
                            if m.contains_key(e) && m[e] == cell {
                                assert(self.index@[cell_key(m[e])]@.contains(e));
                            }
                        }
                    }
                },
                None => {
                    proof {
                        assert forall|e: EntityId| out@.contains(e) <==> m.contains_key(e) && cells@.take(
                            i + 1,
                        ).contains(m[e]) by {
                            if m.contains_key(e) && m[e] == cell {
                                assert(self.index@.contains_key(cell_key(m[e])));
                            }
                        }
                    }
                },
            }
            i = i + 1;
        }
        proof {
            assert(cells@.take(cells@.len() as int) =~= cells@);
            let want = entities_where(m, |c: Cell| in_block(c, center, radius as int));
            assert forall|e: EntityId| out@.to_set().contains(e) <==> want.contains(e) by {}
            assert(out@.to_set() =~= want);
        }
        out
    }
}

} // verus!
