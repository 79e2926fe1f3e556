//! Bounded interest-management planning: which cells one AoI update
//! publishes or retracts, which players a snapshot advertises, and which
//! live sessions a queued fan-out reaches. Everything here is planning over
//! plain tables; encoding and sending stay with the caller.
use std::collections::HashMap;
use std::collections::VecDeque;
use vstd::arithmetic::div_mod::lemma_fundamental_div_mod_converse;
use vstd::prelude::*;

use crate::dispatch::MAX_MOORING_NAME_BYTES;
use crate::net::host::DEFAULT_MAX_PEERS;
use crate::net::protocol::{HEADER_SIZE, MTU};
use crate::ratelimit::{admits, last_of, RateLimiter};
use crate::session::{next_hydration_cell, next_hydration_spec};
use crate::world::{chebyshev, Cell, Subscription};

verus! {

broadcast use vstd::std_specs::hash::group_hash_axioms;

/// Most cells one AoI update adds and removes together.
pub const AOI_CELLS_PER_UPDATE: usize = 32;

/// Most players one cell snapshot carries.
pub const CELL_ENTITIES_PER_PACKET: usize = 5;

/// Whether `a` comes before `b` in row order: by `cz`, then by `cx`.
pub open spec fn cell_before(a: Cell, b: Cell) -> bool {
    a.cz < b.cz || (a.cz == b.cz && a.cx < b.cx)
}

fn cell_before_exec(a: Cell, b: Cell) -> (r: bool)
    ensures
        r == cell_before(a, b),
{
    a.cz < b.cz || (a.cz == b.cz && a.cx < b.cx)
}

/// The cells of `from` that `other` lacks.
pub open spec fn in_difference(from: Seq<Cell>, other: Seq<Cell>, c: Cell) -> bool {
    from.contains(c) && !other.contains(c)
}

/// `r` is the first `k` cells of `from` minus `other`, in row order: strictly
/// increasing, drawn from the difference, and either `k` long or holding
/// all of it, with every left-out cell after each chosen one.
pub open spec fn first_in_row_order(from: Seq<Cell>, other: Seq<Cell>, k: nat, r: Seq<Cell>) -> bool {
    &&& r.len() <= k
    &&& forall|i: int, j: int| 0 <= i < j < r.len() ==> cell_before(r[i], r[j])
    &&& forall|i: int| 0 <= i < r.len() ==> in_difference(from, other, r[i])
    &&& forall|c: Cell|
        in_difference(from, other, c) && !r.contains(c) ==> r.len() == k && forall|i: int|
            0 <= i < r.len() ==> cell_before(r[i], c)
}

fn contains_cell(s: &[Cell], c: Cell) -> (r: bool)
    ensures
        r == s@.contains(c),
{
    let mut i: usize = 0;
    while i < s.len()
        invariant
            i <= s@.len(),
            forall|j: int| 0 <= j < i ==> s@[j] != c,
        decreases s@.len() - i,
    {
        if s[i] == c {
            proof {
                assert(s@[i as int] == c);
            }
            return true;
        }
        i = i + 1;
    }
    false
}

/// The first `k` cells of `from` that `other` lacks, in row order.
fn first_cells_missing(from: &[Cell], other: &[Cell], k: usize) -> (r: Vec<Cell>)
    ensures
        first_in_row_order(from@, other@, k as nat, r@),
{
    let mut out: Vec<Cell> = Vec::new();
    let mut exhausted = false;
    while !exhausted && out.len() < k
        invariant
            out@.len() <= k,
            exhausted ==> forall|c: Cell| in_difference(from@, other@, c) ==> out@.contains(c),
            forall|i: int, j: int| 0 <= i < j < out@.len() ==> cell_before(out@[i], out@[j]),
            forall|i: int| 0 <= i < out@.len() ==> in_difference(from@, other@, out@[i]),
            forall|c: Cell|
                in_difference(from@, other@, c) && !out@.contains(c) ==> forall|i: int|
                    0 <= i < out@.len() ==> cell_before(out@[i], c),
        decreases k - out@.len() + (if exhausted { 0int } else { 1int }),
    {
        let mut best: Option<Cell> = None;
        let mut m: usize = 0;
        while m < from.len()
            invariant
                m <= from@.len(),
                forall|i: int, j: int| 0 <= i < j < out@.len() ==> cell_before(out@[i], out@[j]),
                forall|c: Cell|
                    in_difference(from@, other@, c) && !out@.contains(c) ==> forall|i: int|
                        0 <= i < out@.len() ==> cell_before(out@[i], c),
                match best {
                    Some(b) => in_difference(from@, other@, b) && !out@.contains(b),
                    None => true,
                },
                forall|j: int|
                    0 <= j < m && in_difference(from@, other@, from@[j]) && !out@.contains(
                        from@[j],
                    ) ==> (best matches Some(b) && (b == from@[j] || cell_before(b, from@[j]))),
            decreases from@.len() - m,
        {
            let c = from[m];
            let fresh = if out.len() == 0 {
                true
            } else {
                cell_before_exec(out[out.len() - 1], c)
            };
            if fresh && !contains_cell(other, c) {
                proof {
                    assert(from@[m as int] == c);
                    assert(!out@.contains(c)) by {
                        if out@.contains(c) {
                            let i = choose|i: int| 0 <= i < out@.len() && out@[i] == c;
                            if i < out@.len() - 1 {
                                assert(cell_before(out@[i], out@[out@.len() - 1]));
                            }
                        }
                    }
                }
                let better = match best {
                    Some(b) => cell_before_exec(c, b),
                    None => true,
                };
                if better {
                    best = Some(c);
                }
            } else {
                proof {
                    let c0 = from@[m as int];
                    if in_difference(from@, other@, c0) && !out@.contains(c0) {
                        assert(out@.len() > 0);
                        assert(cell_before(out@[out@.len() - 1], c0));
                    }
                }
            }
            m = m + 1;
        }
        match best {
            None => {
                proof {
                    assert forall|c: Cell| in_difference(from@, other@, c) implies out@.contains(c) by {
                        if !out@.contains(c) {
                            let j = choose|j: int| 0 <= j < from@.len() && from@[j] == c;
                            assert(in_difference(from@, other@, from@[j]));
                        }
                    }
                }
                exhausted = true;
            },
            Some(b) => {
                let ghost before = out@;
                out.push(b);
                proof {
                    assert(out@ == before.push(b));
                    assert forall|c: Cell|
                        in_difference(from@, other@, c) && !out@.contains(c) implies forall|i: int|
                        0 <= i < out@.len() ==> cell_before(out@[i], c) by {
                        assert(!before.contains(c)) by {
                            if before.contains(c) {
                                let i = choose|i: int| 0 <= i < before.len() && before[i] == c;
                                assert(out@[i] == c);
                            }
                        }
                        assert(c != b) by {
                            assert(out@[before.len() as int] == b);
                        }
                        let j = choose|j: int| 0 <= j < from@.len() && from@[j] == c;
                        assert(b == from@[j] || cell_before(b, from@[j]));
                        assert forall|i: int| 0 <= i < out@.len() implies cell_before(out@[i], c) by {
                            if i < before.len() {
                                assert(out@[i] == before[i]);
                            }
                        }
                    }
                    assert forall|i: int, j: int| 0 <= i < j < out@.len() implies cell_before(
                        out@[i],
                        out@[j],
                    ) by {
                        if j == out@.len() - 1 {
                            assert(out@[i] == before[i]);
                        }
                    }
                }
            },
        }
    }
    out
}

/// One AoI update for a session that has published `published` and whose
/// interest set is `interest`: the retracted cells first, at most
/// `AOI_CELLS_PER_UPDATE` of them in row order, then as many newly
/// interesting cells as the remaining room allows, also in row order.
/// `None` when the two sets already agree.
pub fn aoi_chunk(published: &[Cell], interest: &[Cell]) -> (r: Option<(Vec<Cell>, Vec<Cell>)>)
    ensures
        match r {
            Some((added, removed)) => {
                &&& first_in_row_order(published@, interest@, AOI_CELLS_PER_UPDATE as nat, removed@)
                &&& first_in_row_order(
                    interest@,
                    published@,
                    (AOI_CELLS_PER_UPDATE - removed@.len()) as nat,
                    added@,
                )
                &&& added@.len() + removed@.len() <= AOI_CELLS_PER_UPDATE
                &&& added@.len() + removed@.len() > 0
            },
            None => forall|c: Cell|
                !in_difference(published@, interest@, c) && !in_difference(interest@, published@, c),
        },
{
    let removed = first_cells_missing(published, interest, AOI_CELLS_PER_UPDATE);
    let room = AOI_CELLS_PER_UPDATE - removed.len();
    let added = first_cells_missing(interest, published, room);
    if added.len() == 0 && removed.len() == 0 {
        proof {
            assert forall|c: Cell|
                !in_difference(published@, interest@, c) && !in_difference(interest@, published@, c) by {
                if in_difference(published@, interest@, c) {
                    assert(!removed@.contains(c));
                }
                if in_difference(interest@, published@, c) {
                    assert(!added@.contains(c));
                }
            }
        }
        return None;
    }
    Some((added, removed))
}

/// Where a rotation after `cursor` starts in the ascending `keys`: the
/// number of leading keys not above the cursor (0 without a cursor).
pub open spec fn split_after(keys: Seq<int>, cursor: Option<int>) -> int
    decreases keys.len(),
{
    match cursor {
        None => 0,
        Some(c) => if keys.len() == 0 {
            0
        } else if keys.last() <= c {
            keys.len() as int
        } else {
            split_after(keys.drop_last(), cursor)
        },
    }
}

/// The first `limit` items of `s` (all of them if fewer) read cyclically
/// from index `start`.
pub open spec fn rotated<T>(s: Seq<T>, start: int, limit: nat) -> Seq<T> {
    Seq::new(
        if limit < s.len() {
            limit
        } else {
            s.len()
        },
        |k: int| s[(start + k) % s.len() as int],
    )
}

/// Keys strictly ascending, as a `BTreeSet` yields them.
pub open spec fn ascending(keys: Seq<int>) -> bool {
    forall|i: int, j: int| 0 <= i < j < keys.len() ==> keys[i] < keys[j]
}

pub open spec fn peer_keys(peers: Seq<u32>) -> Seq<int> {
    peers.map_values(|p: u32| p as int)
}

pub open spec fn player_keys(players: Seq<(u64, Option<Cell>)>) -> Seq<int> {
    players.map_values(|e: (u64, Option<Cell>)| e.0 as int)
}

pub open spec fn peer_cursor(cursor: Option<u32>) -> Option<int> {
    match cursor {
        Some(c) => Some(c as int),
        None => None,
    }
}

pub open spec fn player_cursor(cursor: Option<u64>) -> Option<int> {
    match cursor {
        Some(c) => Some(c as int),
        None => None,
    }
}

/// `(start + k) % len` without overflow, for `start <= len` and `k < len`.
fn cyclic_index(start: usize, k: usize, len: usize) -> (r: usize)
    requires
        start <= len,
        k < len,
    ensures
        r == (start + k) % (len as int),
        r < len,
{
    let off = len - start;
    let r = if k < off {
        start + k
    } else {
        k - off
    };
    proof {
        if k < off {
            lemma_fundamental_div_mod_converse(start + k, len as int, 0, start + k);
        } else {
            lemma_fundamental_div_mod_converse(start + k, len as int, 1, k - off);
        }
    }
    r
}

/// With ascending keys the split separates the keys up to the cursor from
/// those after it.
pub proof fn lemma_split_after_separates(keys: Seq<int>, c: int)
    requires
        ascending(keys),
    ensures
        0 <= split_after(keys, Some(c)) <= keys.len(),
        forall|i: int| 0 <= i < split_after(keys, Some(c)) ==> keys[i] <= c,
        forall|i: int| split_after(keys, Some(c)) <= i < keys.len() ==> keys[i] > c,
    decreases keys.len(),
{
    if keys.len() > 0 {
        let last = keys.len() - 1;
        if keys.last() > c {
            let d = keys.drop_last();
            assert(ascending(d));
            lemma_split_after_separates(d, c);
            assert forall|i: int| 0 <= i < split_after(keys, Some(c)) implies keys[i] <= c by {
                assert(d[i] == keys[i]);
            }
            assert forall|i: int| split_after(keys, Some(c)) <= i < keys.len() implies keys[i]
                > c by {
                if i < last {
                    assert(d[i] == keys[i]);
                }
            }
        } else {
            assert forall|i: int| 0 <= i < split_after(keys, Some(c)) implies keys[i] <= c by {
                if i < last {
                    assert(keys[i] < keys[last]);
                }
            }
        }
    }
}

/// In ascending keys, the split after a member falls just past it.
proof fn lemma_split_after_member(keys: Seq<int>, m: int)
    requires
        ascending(keys),
        0 <= m < keys.len(),
    ensures
        split_after(keys, Some(keys[m])) == m + 1,
{
    lemma_split_after_separates(keys, keys[m]);
    let p = split_after(keys, Some(keys[m]));
    if p <= m {
        assert(keys[m] > keys[m]);
    }
    if p > m + 1 {
        assert(keys[m + 1] <= keys[m]);
        assert(keys[m] < keys[m + 1]);
    }
}

/// Resuming a rotation from the last peer it handed out continues exactly
/// where it stopped: over successive ticks every peer's turn comes round
/// once per cycle, whatever the per-tick budget.
pub proof fn lemma_rotation_resumes_after_last(peers: Seq<u32>, cursor: Option<u32>, limit: nat)
    requires
        ascending(peer_keys(peers)),
        peers.len() > 0,
        limit > 0,
    ensures
        ({
            let len = peers.len() as int;
            let start = split_after(peer_keys(peers), peer_cursor(cursor));
            let first = rotated(peers, start, limit);
            let next = split_after(peer_keys(peers), peer_cursor(Some(first.last())));
            &&& 0 <= start <= len
            &&& first.len() > 0
            &&& next % len == (start + first.len()) % len
        }),
{
    let keys = peer_keys(peers);
    let len = peers.len() as int;
    let start = split_after(keys, peer_cursor(cursor));
    match cursor {
        Some(c) => {
            lemma_split_after_separates(keys, c as int);
        },
        None => {},
    }
    let first = rotated(peers, start, limit);
    let n = first.len() as int;
    let m = (start + n - 1) % len;
    lemma_fundamental_div_mod_converse(0, len, 0, 0);
    vstd::arithmetic::div_mod::lemma_mod_bound(start + n - 1, len);
    assert(first.last() == peers[m]);
    assert(keys[m] == peers[m] as int);
    lemma_split_after_member(keys, m);
    assert(peer_cursor(Some(first.last())) == Some(keys[m]));
    let q = (start + n - 1) / len;
    vstd::arithmetic::div_mod::lemma_fundamental_div_mod(start + n - 1, len);
    assert(start + n == q * len + (m + 1));
    if m + 1 < len {
        lemma_fundamental_div_mod_converse(start + n, len, q, m + 1);
        lemma_fundamental_div_mod_converse(m + 1, len, 0, m + 1);
    } else {
        assert(start + n == (q + 1) * len + 0) by (nonlinear_arith)
            requires
                start + n == q * len + (m + 1),
                m + 1 == len,
        ;
        lemma_fundamental_div_mod_converse(start + n, len, q + 1, 0);
        lemma_fundamental_div_mod_converse(m + 1, len, 1, 0);
    }
}

/// The peers in ascending `peers` that come after `cursor`, wrapping round
/// to the smallest, at most `limit` of them: the rotation that spreads a
/// per-tick budget fairly over a set of peers.
pub fn peers_after(peers: &[u32], cursor: Option<u32>, limit: usize) -> (r: Vec<u32>)
    ensures
        r@ == rotated(
            peers@,
            split_after(peer_keys(peers@), peer_cursor(cursor)),
            limit as nat,
        ),
{
    let ghost keys = peer_keys(peers@);
    let mut split: usize = 0;
    match cursor {
        None => {},
        Some(c) => {
            let mut i: usize = peers.len();
            proof {
                assert(keys.take(peers@.len() as int) =~= keys);
            }
            while i > 0 && peers[i - 1] > c
                invariant
                    i <= peers@.len(),
                    keys == peer_keys(peers@),
                    split_after(keys, Some(c as int)) == split_after(keys.take(i as int), Some(c as int)),
                decreases i,
            {
                proof {
                    assert(keys.take(i as int).drop_last() =~= keys.take(i - 1));
                }
                i = i - 1;
            }
            proof {
                if i > 0 {
                    assert(keys.take(i as int).last() == peers@[i - 1] as int);
                } else {
                    assert(keys.take(0) =~= Seq::<int>::empty());
                }
            }
            split = i;
        },
    }
    let n = if limit < peers.len() {
        limit
    } else {
        peers.len()
    };
    let mut out: Vec<u32> = Vec::new();
    let mut k: usize = 0;
    while k < n
        invariant
            k <= n,
            n <= peers@.len(),
            split <= peers@.len(),
            split == split_after(keys, peer_cursor(cursor)),
            keys == peer_keys(peers@),
            out@.len() == k,
            forall|j: int| 0 <= j < k ==> out@[j] == peers@[(split + j) % peers@.len() as int],
        decreases n - k,
    {
        let idx = cyclic_index(split, k, peers.len());
        out.push(peers[idx]);
        k = k + 1;
    }
    proof {
        assert(out@ =~= rotated(peers@, split as int, limit as nat));
    }
    out
}

/// The players in the ascending player `order` (each with its current
/// cell) that come after `cursor`, wrapping round, at most `limit` of them.
pub fn players_after(order: &[(u64, Option<Cell>)], cursor: Option<u64>, limit: usize) -> (r: Vec<(u64, Option<Cell>)>)
    ensures
        r@ == rotated(
            order@,
            split_after(player_keys(order@), player_cursor(cursor)),
            limit as nat,
        ),
{
    let ghost keys = player_keys(order@);
    let mut split: usize = 0;
    match cursor {
        None => {},
        Some(c) => {
            let mut i: usize = order.len();
            proof {
                assert(keys.take(order@.len() as int) =~= keys);
            }
            while i > 0 && order[i - 1].0 > c
                invariant
                    i <= order@.len(),
                    keys == player_keys(order@),
                    split_after(keys, Some(c as int)) == split_after(keys.take(i as int), Some(c as int)),
                decreases i,
            {
                proof {
                    assert(keys.take(i as int).drop_last() =~= keys.take(i - 1));
                }
                i = i - 1;
            }
            proof {
                if i > 0 {
                    assert(keys.take(i as int).last() == order@[i - 1].0 as int);
                } else {
                    assert(keys.take(0) =~= Seq::<int>::empty());
                }
            }
            split = i;
        },
    }
    let n = if limit < order.len() {
        limit
    } else {
        order.len()
    };
    let mut out: Vec<(u64, Option<Cell>)> = Vec::new();
    let mut k: usize = 0;
    while k < n
        invariant
            k <= n,
            n <= order@.len(),
            split <= order@.len(),
            split == split_after(keys, player_cursor(cursor)),
            keys == player_keys(order@),
            out@.len() == k,
            forall|j: int| 0 <= j < k ==> out@[j] == order@[(split + j) % order@.len() as int],
        decreases n - k,
    {
        let idx = cyclic_index(split, k, order.len());
        out.push(order[idx]);
        k = k + 1;
    }
    proof {
        assert(out@ =~= rotated(order@, split as int, limit as nat));
    }
    out
}

/// The players among `candidates` standing in `cell`, in order.
pub open spec fn players_in_cell(candidates: Seq<(u64, Option<Cell>)>, cell: Cell) -> Seq<u64>
    decreases candidates.len(),
{
    if candidates.len() == 0 {
        Seq::empty()
    } else {
        let prev = players_in_cell(candidates.drop_last(), cell);
        if candidates.last().1 == Some(cell) {
            prev.push(candidates.last().0)
        } else {
            prev
        }
    }
}

/// The outcome of one player pass of a cell hydration.
pub struct CellScan {
    /// The players to put in this cell snapshot, in scan order.
    pub players: Vec<u64>,
    /// How many candidates were looked at.
    pub examined: usize,
    /// The player cursor after the pass.
    pub player_cursor: Option<u64>,
    /// Players still to scan after the pass.
    pub players_remaining: usize,
    /// Whether the player phase of this cell is over.
    pub players_complete: bool,
}

/// One player pass of a cell hydration over `candidates` (the next players
/// in rotation with their cells): it takes those standing in `cell` until
/// `CELL_ENTITIES_PER_PACKET` are found, moves the cursor to the last one
/// looked at, and ends the player phase when nothing is left to scan or
/// nothing was looked at.
pub fn cell_player_pass(
    candidates: &[(u64, Option<Cell>)],
    cell: Cell,
    player_cursor: Option<u64>,
    players_remaining: usize,
) -> (r: CellScan)
    ensures
        r.examined <= candidates@.len(),
        r.players@ == players_in_cell(candidates@.take(r.examined as int), cell),
        r.players@.len() <= CELL_ENTITIES_PER_PACKET,
        r.players@.len() < CELL_ENTITIES_PER_PACKET ==> r.examined == candidates@.len(),
        r.examined < candidates@.len() ==> r.examined > 0 && candidates@[r.examined - 1].1 == Some(cell),
        r.player_cursor == if r.examined == 0 {
            player_cursor
        } else {
            Some(candidates@[r.examined - 1].0)
        },
        r.players_remaining == if players_remaining >= r.examined {
            (players_remaining - r.examined) as usize
        } else {
            0
        },
        r.players_complete == (r.players_remaining == 0 || r.examined == 0),
{
    let mut players: Vec<u64> = Vec::new();
    let mut i: usize = 0;
    let mut full = false;
    while !full && i < candidates.len()
        invariant
            i <= candidates@.len(),
            players@ == players_in_cell(candidates@.take(i as int), cell),
            players@.len() <= CELL_ENTITIES_PER_PACKET,
            full == (players@.len() == CELL_ENTITIES_PER_PACKET),
            full ==> i > 0 && candidates@[i - 1].1 == Some(cell),
        decreases candidates@.len() - i,
    {
        let (p, c) = candidates[i];
        proof {
            assert(candidates@.take(i + 1).drop_last() =~= candidates@.take(i as int));
            assert(candidates@.take(i + 1).last() == candidates@[i as int]);
        }
        i = i + 1;
        if c == Some(cell) {
            players.push(p);
            if players.len() == CELL_ENTITIES_PER_PACKET {
                full = true;
            }
        }
    }
    let player_cursor = if i == 0 {
        player_cursor
    } else {
        Some(candidates[i - 1].0)
    };
    let remaining = if players_remaining >= i {
        players_remaining - i
    } else {
        0
    };
    CellScan {
        players,
        examined: i,
        player_cursor,
        players_remaining: remaining,
        players_complete: remaining == 0 || i == 0,
    }
}

/// `from` without the cells of `drop`, in order.
fn cells_without(from: &[Cell], drop: &[Cell]) -> (r: Vec<Cell>)
    ensures
        r@.to_set() == from@.to_set().difference(drop@.to_set()),
{
    let mut out: Vec<Cell> = Vec::new();
    let mut i: usize = 0;
    while i < from.len()
        invariant
            i <= from@.len(),
            out@.to_set() == from@.take(i as int).to_set().difference(drop@.to_set()),
        decreases from@.len() - i,
    {
        let c = from[i];
        proof {
            assert(from@.take(i + 1) =~= from@.take(i as int).push(c));
            from@.take(i as int).lemma_push_to_set_commute(c);
        }
        if !contains_cell(drop, c) {
            proof {
                out@.lemma_push_to_set_commute(c);
            }
            out.push(c);
            proof {
                assert(out@.to_set() =~= from@.take(i + 1).to_set().difference(drop@.to_set()));
            }
        } else {
            proof {
                assert(drop@.to_set().contains(c));
                assert(out@.to_set() =~= from@.take(i + 1).to_set().difference(drop@.to_set()));
            }
        }
        i = i + 1;
    }
    proof {
        assert(from@.take(from@.len() as int) =~= from@);
    }
    out
}

/// `base` followed by `more`.
fn cells_then(base: Vec<Cell>, more: &[Cell]) -> (r: Vec<Cell>)
    ensures
        r@.to_set() == base@.to_set().union(more@.to_set()),
{
    let mut out = base;
    let ghost b = out@;
    let mut i: usize = 0;
    while i < more.len()
        invariant
            i <= more@.len(),
            out@.to_set() == b.to_set().union(more@.take(i as int).to_set()),
        decreases more@.len() - i,
    {
        let c = more[i];
        proof {
            assert(more@.take(i + 1) =~= more@.take(i as int).push(c));
            more@.take(i as int).lemma_push_to_set_commute(c);
            out@.lemma_push_to_set_commute(c);
        }
        out.push(c);
        proof {
            assert(out@.to_set() =~= b.to_set().union(more@.take(i + 1).to_set()));
        }
        i = i + 1;
    }
    proof {
        assert(more@.take(more@.len() as int) =~= more@);
    }
    out
}

/// The hydration of one published cell in progress: the player scan's
/// cursor and remaining count, whether the player phase is over, the
/// mooring cursor, and whether anything was sent for the cell yet.
#[derive(Debug, Clone, Copy)]
pub struct CellHydration {
    pub cell: Cell,
    pub player_cursor: Option<u64>,
    pub players_remaining: usize,
    pub mooring_cursor: Option<u64>,
    pub players_complete: bool,
    pub sent_any: bool,
}

/// A hydration of `cell` just started, with `active_players` to scan.
pub open spec fn fresh_hydration(cell: Cell, active_players: usize) -> CellHydration {
    CellHydration {
        cell,
        player_cursor: None,
        players_remaining: active_players,
        mooring_cursor: None,
        players_complete: active_players == 0,
        sent_any: false,
    }
}

/// What the mooring phase of a cell hydration does with the next stored
/// mooring after its cursor.
#[derive(Debug, Clone, Copy, PartialEq, Eq, Structural)]
pub enum MooringAction {
    /// Send a cell snapshot holding this boat's mooring.
    Send(u64),
    /// Skip this boat: its stored name is longer than any reply can carry.
    SkipCorrupt(u64),
    /// No moorings left and nothing was sent for the cell: send an empty
    /// cell snapshot, then finish.
    SendEmpty,
    /// No moorings left; the hydration is done.
    Finish,
}

impl CellHydration {
    /// Take the result of one player pass (see [`cell_player_pass`]): its
    /// cursor, remaining count and completion, and whether its snapshot was
    /// sent.
    pub fn record_player_pass(&mut self, scan: &CellScan, sent: bool)
        ensures
            final(self).cell == old(self).cell,
            final(self).mooring_cursor == old(self).mooring_cursor,
            final(self).player_cursor == scan.player_cursor,
            final(self).players_remaining == scan.players_remaining,
            final(self).players_complete == scan.players_complete,
            final(self).sent_any == (old(self).sent_any || sent),
    {
        self.player_cursor = scan.player_cursor;
        self.players_remaining = scan.players_remaining;
        self.players_complete = scan.players_complete;
        self.sent_any = self.sent_any || sent;
    }

    /// One mooring step, given the next stored mooring after the cursor as
    /// (boat id, name length in bytes), if any: a row moves the cursor past
    /// it and is sent unless its name is over [`MAX_MOORING_NAME_BYTES`];
    /// no row ends the phase, with an empty snapshot first when nothing was
    /// sent for the cell.
    pub fn mooring_step(&mut self, row: Option<(u64, usize)>) -> (r: MooringAction)
        ensures
            match row {
                Some((boat, name_bytes)) => {
                    &&& final(self).mooring_cursor == Some(boat)
                    &&& final(self).cell == old(self).cell
                    &&& final(self).player_cursor == old(self).player_cursor
                    &&& final(self).players_remaining == old(self).players_remaining
                    &&& final(self).players_complete == old(self).players_complete
                    &&& final(self).sent_any == old(self).sent_any
                    &&& r == if name_bytes <= MAX_MOORING_NAME_BYTES {
                        MooringAction::Send(boat)
                    } else {
                        MooringAction::SkipCorrupt(boat)
                    }
                },
                None => {
                    &&& *final(self) == *old(self)
                    &&& r == if old(self).sent_any {
                        MooringAction::Finish
                    } else {
                        MooringAction::SendEmpty
                    }
                },
            },
    {
        match row {
            Some((boat, name_bytes)) => {
                self.mooring_cursor = Some(boat);
                if name_bytes <= MAX_MOORING_NAME_BYTES {
                    MooringAction::Send(boat)
                } else {
                    MooringAction::SkipCorrupt(boat)
                }
            },
            None => if self.sent_any {
                MooringAction::Finish
            } else {
                MooringAction::SendEmpty
            },
        }
    }

    /// Note that a snapshot for this cell was sent (`sent`) or not.
    pub fn note_sent(&mut self, sent: bool)
        ensures
            *final(self) == (CellHydration { sent_any: old(self).sent_any || sent, ..*old(self) }),
    {
        self.sent_any = self.sent_any || sent;
    }
}

/// What a session has told its client about cells: the cells it has
/// published, those still to hydrate with the hydration cursor, and the
/// hydration in progress.
pub struct AoiPublication {
    pub published: Vec<Cell>,
    pub hydration: Vec<Cell>,
    pub hydration_cursor: Option<Cell>,
    pub active: Option<CellHydration>,
}

impl AoiPublication {
    /// Compute the next AoI update against `interest` (see [`aoi_chunk`])
    /// and record it: retracted cells leave the published and hydration
    /// sets (and stop an active hydration of one of them), new cells join
    /// both. `None`, and nothing changed, when the sets already agree.
    pub fn next_chunk(&mut self, interest: &[Cell]) -> (r: Option<(Vec<Cell>, Vec<Cell>)>)
        ensures
            match r {
                Some((added, removed)) => {
                    &&& first_in_row_order(
                        old(self).published@,
                        interest@,
                        AOI_CELLS_PER_UPDATE as nat,
                        removed@,
                    )
                    &&& first_in_row_order(
                        interest@,
                        old(self).published@,
                        (AOI_CELLS_PER_UPDATE - removed@.len()) as nat,
                        added@,
                    )
                    &&& added@.len() + removed@.len() <= AOI_CELLS_PER_UPDATE
                    &&& added@.len() + removed@.len() > 0
                    &&& final(self).published@.to_set() == old(self).published@.to_set().difference(
                        removed@.to_set(),
                    ).union(added@.to_set())
                    &&& final(self).hydration@.to_set() == old(self).hydration@.to_set().difference(
                        removed@.to_set(),
                    ).union(added@.to_set())
                    &&& final(self).hydration_cursor == old(self).hydration_cursor
                    &&& final(self).active == if old(self).active matches Some(h) && removed@.contains(
                        h.cell,
                    ) {
                        None
                    } else {
                        old(self).active
                    }
                },
                None => {
                    &&& *final(self) == *old(self)
                    &&& forall|c: Cell|
                        !in_difference(old(self).published@, interest@, c) && !in_difference(
                            interest@,
                            old(self).published@,
                            c,
                        )
                },
            },
    {
        match aoi_chunk(self.published.as_slice(), interest) {
            None => None,
            Some((added, removed)) => {
                let kept = cells_without(self.published.as_slice(), removed.as_slice());
                self.published = cells_then(kept, added.as_slice());
                let kept_h = cells_without(self.hydration.as_slice(), removed.as_slice());
                self.hydration = cells_then(kept_h, added.as_slice());
                let stop = match self.active {
                    Some(h) => contains_cell(removed.as_slice(), h.cell),
                    None => false,
                };
                if stop {
                    self.active = None;
                }
                Some((added, removed))
            },
        }
    }

    /// End the hydration in progress: none is active afterwards, and the
    /// hydration cursor rests on the finished cell.
    pub fn finish_hydration(&mut self)
        ensures
            final(self).active is None,
            final(self).hydration_cursor == match old(self).active {
                Some(h) => Some(h.cell),
                None => old(self).hydration_cursor,
            },
            final(self).published == old(self).published,
            final(self).hydration == old(self).hydration,
    {
        if let Some(h) = self.active {
            self.hydration_cursor = Some(h.cell);
        }
        self.active = None;
    }

    /// Make sure a cell hydration is in progress and return its cell,
    /// player cursor, players left to scan and whether the player phase is
    /// over. A hydration whose cell left the interest set or was retracted
    /// is dropped first; with none in progress, the next cell to hydrate
    /// after the cursor (see [`next_hydration_cell`]) leaves the hydration
    /// set and starts with `active_players` to scan. `None` when nothing is
    /// left to hydrate.
    pub fn prepare_hydration(&mut self, interest: &[Cell], active_players: usize) -> (r: Option<(Cell, Option<u64>, usize, bool)>)
        ensures
            final(self).published == old(self).published,
            ({
                let kept = match old(self).active {
                    Some(h) => if interest@.contains(h.cell) && old(self).published@.contains(h.cell) {
                        Some(h)
                    } else {
                        None
                    },
                    None => None,
                };
                match kept {
                    Some(h) => {
                        &&& r == Some((h.cell, h.player_cursor, h.players_remaining, h.players_complete))
                        &&& final(self).active == kept
                        &&& final(self).hydration == old(self).hydration
                        &&& final(self).hydration_cursor == old(self).hydration_cursor
                    },
                    None => match r {
                        None => {
                            &&& next_hydration_spec(old(self).hydration@, old(self).hydration_cursor, None)
                            &&& final(self).active is None
                            &&& final(self).hydration == old(self).hydration
                            &&& final(self).hydration_cursor == old(self).hydration_cursor
                        },
                        Some((c, pc, pr, done)) => {
                            &&& next_hydration_spec(old(self).hydration@, old(self).hydration_cursor, Some(c))
                            &&& pc is None && pr == active_players && done == (active_players == 0)
                            &&& final(self).hydration@.to_set() == old(self).hydration@.to_set().remove(c)
                            &&& final(self).hydration_cursor == Some(c)
                            &&& final(self).active == Some(fresh_hydration(c, active_players))
                        },
                    },
                }
            }),
    {
        let keep = match self.active {
            Some(h) => contains_cell(interest, h.cell) && contains_cell(self.published.as_slice(), h.cell),
            None => false,
        };
        if !keep {
            self.active = None;
        }
        match self.active {
            Some(h) => Some((h.cell, h.player_cursor, h.players_remaining, h.players_complete)),
            None => {
                match next_hydration_cell(self.hydration.as_slice(), self.hydration_cursor) {
                    None => None,
                    Some(cell) => {
                        let one = [cell];
                        let rest = cells_without(self.hydration.as_slice(), &one);
                        proof {
                            assert(one@.to_set() =~= Set::empty().insert(cell)) by {
                                assert(one@ =~= seq![cell]);
                            }
                            assert(rest@.to_set() =~= old(self).hydration@.to_set().remove(cell));
                        }
                        self.hydration = rest;
                        self.hydration_cursor = Some(cell);
                        self.active = Some(
                            CellHydration {
                                cell,
                                player_cursor: None,
                                players_remaining: active_players,
                                mooring_cursor: None,
                                players_complete: active_players == 0,
                                sent_any: false,
                            },
                        );
                        Some((cell, None, active_players, active_players == 0))
                    },
                }
            },
        }
    }
}

/// Each AoI update brings the published cells strictly closer to the
/// interest set: the retracted cells leave the published-but-uninteresting
/// ones, the added cells leave the interesting-but-unpublished ones, and
/// nothing else moves. Repeated updates therefore converge.
pub proof fn lemma_chunk_converges(
    old_published: Seq<Cell>,
    interest: Seq<Cell>,
    added: Seq<Cell>,
    removed: Seq<Cell>,
    new_published: Set<Cell>,
)
    requires
        first_in_row_order(old_published, interest, AOI_CELLS_PER_UPDATE as nat, removed),
        first_in_row_order(
            interest,
            old_published,
            (AOI_CELLS_PER_UPDATE - removed.len()) as nat,
            added,
        ),
        new_published == old_published.to_set().difference(removed.to_set()).union(added.to_set()),
    ensures
        new_published.difference(interest.to_set()) == old_published.to_set().difference(
            interest.to_set(),
        ).difference(removed.to_set()),
        interest.to_set().difference(new_published) == interest.to_set().difference(
            old_published.to_set(),
        ).difference(added.to_set()),
{
    assert forall|c: Cell| added.to_set().contains(c) implies interest.contains(c)
        && !old_published.contains(c) by {
        let i = choose|i: int| 0 <= i < added.len() && added[i] == c;
        assert(in_difference(interest, old_published, added[i]));
    }
    assert forall|c: Cell| removed.to_set().contains(c) implies old_published.contains(c)
        && !interest.contains(c) by {
        let i = choose|i: int| 0 <= i < removed.len() && removed[i] == c;
        assert(in_difference(old_published, interest, removed[i]));
    }
    assert(new_published.difference(interest.to_set()) =~= old_published.to_set().difference(
        interest.to_set(),
    ).difference(removed.to_set()));
    assert(interest.to_set().difference(new_published) =~= interest.to_set().difference(
        old_published.to_set(),
    ).difference(added.to_set()));
}

/// Whether a player at `other` is visible from a viewer at `cell`.
pub open spec fn within_view(other: Option<Cell>, cell: Cell, radius: int) -> bool {
    other matches Some(o) && chebyshev(o, cell) <= radius
}

/// The players a snapshot for the viewer `self_pid` at `cell` may
/// advertise, from `candidates` (player, current cell) in their order:
/// everyone but the viewer within Chebyshev `radius`, the first `ceiling`
/// of them.
pub open spec fn visible_players(
    candidates: Seq<(u64, Option<Cell>)>,
    self_pid: u64,
    cell: Cell,
    radius: int,
    ceiling: nat,
) -> Seq<u64>
    decreases candidates.len(),
{
    if candidates.len() == 0 {
        Seq::empty()
    } else {
        let prev = visible_players(candidates.drop_last(), self_pid, cell, radius, ceiling);
        let (p, c) = candidates.last();
        if prev.len() < ceiling && p != self_pid && within_view(c, cell, radius) {
            prev.push(p)
        } else {
            prev
        }
    }
}

/// Whether `a` lies within Chebyshev `radius` of `b`, computed in 64 bits so
/// that no coordinate difference can overflow.
fn within_chebyshev(a: Cell, b: Cell, radius: i32) -> (r: bool)
    ensures
        r == (chebyshev(a, b) <= radius),
{
    let dx: i64 = a.cx as i64 - b.cx as i64;
    let dz: i64 = a.cz as i64 - b.cz as i64;
    let ax: i64 = if dx < 0 {
        -dx
    } else {
        dx
    };
    let az: i64 = if dz < 0 {
        -dz
    } else {
        dz
    };
    let d: i64 = if ax >= az {
        ax
    } else {
        az
    };
    d <= radius as i64
}

/// The players a snapshot for `self_pid` at `cell` may advertise; see
/// [`visible_players`].
pub fn snapshot_candidates(
    candidates: &[(u64, Option<Cell>)],
    self_pid: u64,
    cell: Cell,
    radius: i32,
    ceiling: usize,
) -> (r: Vec<u64>)
    ensures
        r@ == visible_players(candidates@, self_pid, cell, radius as int, ceiling as nat),
        r@.len() <= ceiling,
        forall|i: int| 0 <= i < r@.len() ==> r@[i] != self_pid,
{
    let mut out: Vec<u64> = Vec::new();
    let mut i: usize = 0;
    while i < candidates.len()
        invariant
            i <= candidates@.len(),
            out@ == visible_players(candidates@.take(i as int), self_pid, cell, radius as int, ceiling as nat),
            out@.len() <= ceiling,
            forall|j: int| 0 <= j < out@.len() ==> out@[j] != self_pid,
        decreases candidates@.len() - i,
    {
        let (p, c) = candidates[i];
        proof {
            assert(candidates@.take(i + 1).drop_last() =~= candidates@.take(i as int));
            assert(candidates@.take(i + 1).last() == candidates@[i as int]);
        }
        let visible = match c {
            Some(o) => within_chebyshev(o, cell, radius),
            None => false,
        };
        if out.len() < ceiling && p != self_pid && visible {
            out.push(p);
        }
        i = i + 1;
    }
    proof {
        assert(candidates@.take(candidates@.len() as int) =~= candidates@);
    }
    out
}

/// Every player `visible_players` lists is someone other than the viewer,
/// taken from the candidates, and standing within the radius.
pub proof fn lemma_visible_players_sound(
    candidates: Seq<(u64, Option<Cell>)>,
    self_pid: u64,
    cell: Cell,
    radius: int,
    ceiling: nat,
)
    ensures
        visible_players(candidates, self_pid, cell, radius, ceiling).len() <= ceiling,
        forall|k: int|
            0 <= k < visible_players(candidates, self_pid, cell, radius, ceiling).len() ==> {
                let p = #[trigger] visible_players(candidates, self_pid, cell, radius, ceiling)[k];
                &&& p != self_pid
                &&& exists|j: int|
                    0 <= j < candidates.len() && candidates[j].0 == p && within_view(
                        candidates[j].1,
                        cell,
                        radius,
                    )
            },
    decreases candidates.len(),
{
    if candidates.len() > 0 {
        let d = candidates.drop_last();
        lemma_visible_players_sound(d, self_pid, cell, radius, ceiling);
        let prev = visible_players(d, self_pid, cell, radius, ceiling);
        let cur = visible_players(candidates, self_pid, cell, radius, ceiling);
        assert forall|k: int| 0 <= k < cur.len() implies {
            let p = #[trigger] cur[k];
            &&& p != self_pid
            &&& exists|j: int|
                0 <= j < candidates.len() && candidates[j].0 == p && within_view(
                    candidates[j].1,
                    cell,
                    radius,
                )
        } by {
            if k < prev.len() {
                assert(cur[k] == prev[k]);
                let j = choose|j: int|
                    0 <= j < d.len() && d[j].0 == prev[k] && within_view(d[j].1, cell, radius);
                assert(candidates[j] == d[j]);
            } else {
                assert(candidates[candidates.len() - 1] == candidates.last());
            }
        }
    }
}

/// Selection is complete: a candidate other than the viewer standing within
/// Chebyshev `radius` of the viewer's cell (its own cell included) is
/// advertised whenever fewer than `ceiling` players were selected before
/// it, and it keeps its place after every later candidate.
pub proof fn lemma_visible_players_complete(
    candidates: Seq<(u64, Option<Cell>)>,
    self_pid: u64,
    cell: Cell,
    radius: int,
    ceiling: nat,
    j: int,
)
    requires
        0 <= j < candidates.len(),
        candidates[j].0 != self_pid,
        candidates[j].1 matches Some(o) && chebyshev(o, cell) <= radius,
        visible_players(candidates.take(j), self_pid, cell, radius, ceiling).len() < ceiling,
    ensures
        visible_players(candidates, self_pid, cell, radius, ceiling).contains(candidates[j].0),
    decreases candidates.len(),
{
    if j == candidates.len() - 1 {
        assert(candidates.drop_last() =~= candidates.take(j));
        let v = visible_players(candidates, self_pid, cell, radius, ceiling);
        assert(v[v.len() - 1] == candidates[j].0);
    } else {
        let d = candidates.drop_last();
        assert(d.take(j) =~= candidates.take(j));
        assert(d[j] == candidates[j]);
        lemma_visible_players_complete(d, self_pid, cell, radius, ceiling, j);
        let prev = visible_players(d, self_pid, cell, radius, ceiling);
        let v = visible_players(candidates, self_pid, cell, radius, ceiling);
        let i = choose|i: int| 0 <= i < prev.len() && prev[i] == candidates[j].0;
        assert(v[i] == prev[i]);
    }
}

/// When fewer than `ceiling` players are selected, every candidate other
/// than the viewer within Chebyshev `radius` of the viewer's cell (its own
/// cell included) is among them.
pub proof fn lemma_visible_players_all_when_below_ceiling(
    candidates: Seq<(u64, Option<Cell>)>,
    self_pid: u64,
    cell: Cell,
    radius: int,
    ceiling: nat,
)
    requires
        visible_players(candidates, self_pid, cell, radius, ceiling).len() < ceiling,
    ensures
        forall|j: int|
            0 <= j < candidates.len() && candidates[j].0 != self_pid && (candidates[j].1 matches Some(
                o,
            ) && chebyshev(o, cell) <= radius) ==> visible_players(
                candidates,
                self_pid,
                cell,
                radius,
                ceiling,
            ).contains(#[trigger] candidates[j].0),
{
    assert forall|j: int|
        0 <= j < candidates.len() && candidates[j].0 != self_pid && (candidates[j].1 matches Some(
            o,
        ) && chebyshev(o, cell) <= radius) implies visible_players(
        candidates,
        self_pid,
        cell,
        radius,
        ceiling,
    ).contains(#[trigger] candidates[j].0) by {
        lemma_visible_players_prefix_shorter(candidates, self_pid, cell, radius, ceiling, j);
        lemma_visible_players_complete(candidates, self_pid, cell, radius, ceiling, j);
    }
}

/// Selection over a prefix never picks more than over the whole.
pub proof fn lemma_visible_players_prefix_shorter(
    candidates: Seq<(u64, Option<Cell>)>,
    self_pid: u64,
    cell: Cell,
    radius: int,
    ceiling: nat,
    j: int,
)
    requires
        0 <= j <= candidates.len(),
    ensures
        visible_players(candidates.take(j), self_pid, cell, radius, ceiling).len()
            <= visible_players(candidates, self_pid, cell, radius, ceiling).len(),
    decreases candidates.len(),
{
    if j < candidates.len() {
        let d = candidates.drop_last();
        assert(d.take(j) =~= candidates.take(j));
        lemma_visible_players_prefix_shorter(d, self_pid, cell, radius, ceiling, j);
    } else {
        assert(candidates.take(j) =~= candidates);
    }
}

/// The recipients of `rotation` that have a placed session, each with the
/// players its snapshot may advertise: those visible from its cell among
/// the next `scan` players after it in the player `order`.
pub open spec fn planned_visits(
    rotation: Seq<u32>,
    sessions: Map<u32, (u64, Option<Cell>)>,
    order: Seq<(u64, Option<Cell>)>,
    scan: nat,
    radius: int,
    ceiling: nat,
) -> Seq<(u32, Seq<u64>)>
    decreases rotation.len(),
{
    if rotation.len() == 0 {
        Seq::empty()
    } else {
        let prev = planned_visits(rotation.drop_last(), sessions, order, scan, radius, ceiling);
        let peer = rotation.last();
        if sessions.contains_key(peer) && sessions[peer].1 is Some {
            let (pid, cell) = sessions[peer];
            let candidates = rotated(order, split_after(player_keys(order), Some(pid as int)), scan);
            prev.push((peer, visible_players(candidates, pid, cell->0, radius, ceiling)))
        } else {
            prev
        }
    }
}

/// One tick of snapshot planning: the next `budget` snapshot recipients
/// after `cursor` (ascending `recipients`), each placed one with the players
/// it may be told about. `sessions` maps a peer to its player and cell;
/// `order` lists the active players ascending with their cells.
pub fn snapshot_plan(
    recipients: &[u32],
    cursor: Option<u32>,
    budget: usize,
    sessions: &HashMap<u32, (u64, Option<Cell>)>,
    order: &[(u64, Option<Cell>)],
    scan: usize,
    radius: i32,
    ceiling: usize,
) -> (r: Vec<(u32, Vec<u64>)>)
    ensures
        ({
            let rotation = rotated(
                recipients@,
                split_after(peer_keys(recipients@), peer_cursor(cursor)),
                budget as nat,
            );
            let plan = planned_visits(
                rotation,
                sessions@,
                order@,
                scan as nat,
                radius as int,
                ceiling as nat,
            );
            &&& r@.len() == plan.len()
            &&& forall|i: int| 0 <= i < r@.len() ==> r@[i].0 == plan[i].0 && r@[i].1@ == plan[i].1
        }),
        r@.len() <= budget,
        forall|i: int|
            0 <= i < r@.len() ==> {
                &&& sessions@.contains_key(#[trigger] r@[i].0)
                &&& sessions@[r@[i].0].1 is Some
                &&& r@[i].1@.len() <= ceiling
                &&& forall|k: int|
                    0 <= k < r@[i].1@.len() ==> r@[i].1@[k] != sessions@[r@[i].0].0
                        && exists|j: int|
                        0 <= j < order@.len() && order@[j].0 == r@[i].1@[k] && within_view(
                            order@[j].1,
                            sessions@[r@[i].0].1->0,
                            radius as int,
                        )
            },
{
    let rotation = peers_after(recipients, cursor, budget);
    let ghost plan_all = planned_visits(rotation@, sessions@, order@, scan as nat, radius as int, ceiling as nat);
    let mut out: Vec<(u32, Vec<u64>)> = Vec::new();
    let mut i: usize = 0;
    while i < rotation.len()
        invariant
            i <= rotation@.len(),
            rotation@.len() <= budget,
            out@.len() <= i,
            ({
                let plan = planned_visits(
                    rotation@.take(i as int),
                    sessions@,
                    order@,
                    scan as nat,
                    radius as int,
                    ceiling as nat,
                );
                &&& out@.len() == plan.len()
                &&& forall|k: int|
                    0 <= k < out@.len() ==> out@[k].0 == plan[k].0 && out@[k].1@ == plan[k].1
            }),
            forall|m: int|
                0 <= m < out@.len() ==> {
                    &&& sessions@.contains_key(#[trigger] out@[m].0)
                    &&& sessions@[out@[m].0].1 is Some
                    &&& out@[m].1@.len() <= ceiling
                    &&& forall|k: int|
                        0 <= k < out@[m].1@.len() ==> out@[m].1@[k] != sessions@[out@[m].0].0
                            && exists|j: int|
                            0 <= j < order@.len() && order@[j].0 == out@[m].1@[k] && within_view(
                                order@[j].1,
                                sessions@[out@[m].0].1->0,
                                radius as int,
                            )
                },
        decreases rotation@.len() - i,
    {
        let peer = rotation[i];
        proof {
            assert(rotation@.take(i + 1).drop_last() =~= rotation@.take(i as int));
            assert(rotation@.take(i + 1).last() == rotation@[i as int]);
        }
        match sessions.get(&peer) {
            Some(entry) => {
                let (pid, c) = *entry;
                match c {
                    Some(cell) => {
                        let candidates = players_after(order, Some(pid), scan);
                        let visible = snapshot_candidates(candidates.as_slice(), pid, cell, radius, ceiling);
                        proof {
                            lemma_visible_players_sound(candidates@, pid, cell, radius as int, ceiling as nat);
                            assert(player_cursor(Some(pid)) == Some(pid as int));
                            assert forall|k: int| 0 <= k < visible@.len() implies exists|j: int|
                                0 <= j < order@.len() && order@[j].0 == #[trigger] visible@[k] && within_view(
                                    order@[j].1,
                                    cell,
                                    radius as int,
                                ) by {
                                let jj = choose|jj: int|
                                    0 <= jj < candidates@.len() && candidates@[jj].0 == visible@[k]
                                        && within_view(candidates@[jj].1, cell, radius as int);
                                let idx = (split_after(player_keys(order@), Some(pid as int)) + jj)
                                    % order@.len() as int;
                                assert(candidates@[jj] == order@[idx]);
                            }
                        }
                        let ghost before = out@;
                        out.push((peer, visible));
                        proof {
                            assert forall|k: int| 0 <= k < before.len() implies out@[k] == before[k] by {}
                        }
                    },
                    None => {},
                }
            },
            None => {},
        }
        i = i + 1;
    }
    proof {
        assert(rotation@.take(rotation@.len() as int) =~= rotation@);
    }
    out
}

/// Where one snapshot visit starts in `selected`: just after the cursor
/// when the cursor is still listed, else at the beginning.
pub open spec fn window_start(selected: Seq<u64>, cursor: Option<u64>) -> int {
    match cursor {
        Some(c) => match selected.index_of_first(c) {
            Some(i) => (i + 1) % selected.len() as int,
            None => 0,
        },
        None => 0,
    }
}

/// How many of `selected` the rotation still owes before it wraps.
pub open spec fn window_remaining(selected: Seq<u64>, cursor: Option<u64>, remaining: nat) -> nat {
    if remaining == 0 || !(cursor matches Some(c) && selected.index_of_first(c) is Some) {
        selected.len()
    } else if remaining < selected.len() {
        remaining
    } else {
        selected.len()
    }
}

fn position_of(s: &[u64], x: u64) -> (r: Option<usize>)
    ensures
        match r {
            Some(i) => i < s@.len() && s@.index_of_first(x) == Some(i as int),
            None => s@.index_of_first(x) is None,
        },
{
    proof {
        s@.index_of_first_ensures(x);
    }
    let mut i: usize = 0;
    while i < s.len()
        invariant
            i <= s@.len(),
            forall|j: int| 0 <= j < i ==> s@[j] != x,
            match s@.index_of_first(x) {
                Some(f) => 0 <= f < s@.len() && s@[f] == x && forall|j: int|
                    0 <= j < f ==> s@[j] != x,
                None => !s@.contains(x),
            },
        decreases s@.len() - i,
    {
        if s[i] == x {
            proof {
                assert(s@[i as int] == x);
                assert(s@.contains(x));
                let f = s@.index_of_first(x)->0;
                assert(f == i) by {
                    if f > i {
                        assert(s@[i as int] != x);
                    }
                }
            }
            return Some(i);
        }
        i = i + 1;
    }
    proof {
        if s@.contains(x) {
            let j = choose|j: int| 0 <= j < s@.len() && s@[j] == x;
            assert(s@[j] != x);
        }
    }
    None
}

/// One snapshot visit over the `selected` players: it advertises up to
/// `per_packet` of them in rotation, starting after `cursor`, and returns
/// them with the new cursor (the last one advertised) and how many the
/// rotation still owes. An empty selection resets the rotation.
pub fn snapshot_window(selected: &[u64], cursor: Option<u64>, remaining: usize, per_packet: usize) -> (r: (Vec<u64>, Option<u64>, usize))
    ensures
        selected@.len() == 0 ==> r.0@.len() == 0 && r.1 is None && r.2 == 0,
        selected@.len() > 0 ==> {
            let start = window_start(selected@, cursor);
            let rem = window_remaining(selected@, cursor, remaining as nat);
            let n = if rem < per_packet {
                rem
            } else {
                per_packet as nat
            };
            &&& r.0@.len() == n
            &&& forall|k: int|
                0 <= k < n ==> r.0@[k] == selected@[(start + k) % selected@.len() as int]
            &&& r.1 == if n == 0 {
                None
            } else {
                Some(r.0@[n - 1])
            }
            &&& r.2 == rem - n
        },
{
    if selected.len() == 0 {
        return (Vec::new(), None, 0);
    }
    let pos = match cursor {
        Some(c) => position_of(selected, c),
        None => None,
    };
    let rem = match pos {
        Some(_) => if remaining == 0 {
            selected.len()
        } else if remaining < selected.len() {
            remaining
        } else {
            selected.len()
        },
        None => selected.len(),
    };
    let start = match pos {
        Some(p) => (p + 1) % selected.len(),
        None => 0,
    };
    let n = if rem < per_packet {
        rem
    } else {
        per_packet
    };
    let mut out: Vec<u64> = Vec::new();
    let mut k: usize = 0;
    while k < n
        invariant
            k <= n,
            n <= selected@.len(),
            start < selected@.len(),
            out@.len() == k,
            forall|j: int| 0 <= j < k ==> out@[j] == selected@[(start + j) % selected@.len() as int],
        decreases n - k,
    {
        let idx = cyclic_index(start, k, selected.len());
        out.push(selected[idx]);
        k = k + 1;
    }
    let last = if n == 0 {
        None
    } else {
        Some(out[n - 1])
    };
    (out, last, rem - n)
}

/// A queued fan-out: encoded bytes, the sender's cell when only sessions
/// interested in it should hear them, the audience captured at queue time
/// as (peer, session generation), and the next audience member to visit.
pub struct FanoutJob {
    pub bytes: Vec<u8>,
    pub sender_cell: Option<Cell>,
    pub recipients: Vec<(u32, u64)>,
    pub next_recipient: usize,
}

/// A live session as fan-out sees it: its generation and its interest.
pub struct FanoutSession {
    pub generation: u64,
    pub sub: Subscription,
}

/// Whether a fan-out captured for `(peer, generation)` still reaches that
/// peer: the peer's live session is the very one captured (same generation)
/// and, for a located message, is interested in the sender's cell.
pub open spec fn reaches(sessions: Map<u32, FanoutSession>, peer: u32, generation: u64, sender_cell: Option<Cell>) -> bool {
    &&& sessions.contains_key(peer)
    &&& sessions[peer].generation == generation
    &&& match sender_cell {
        Some(c) => sessions[peer].sub.spec_cells().contains(c),
        None => true,
    }
}

/// The peers among `recipients[from..to]`, in order, that the message
/// still reaches.
pub open spec fn reached(
    recipients: Seq<(u32, u64)>,
    from: int,
    to: int,
    sessions: Map<u32, FanoutSession>,
    sender_cell: Option<Cell>,
) -> Seq<u32>
    decreases to - from,
{
    if to <= from {
        Seq::empty()
    } else {
        let prev = reached(recipients, from, to - 1, sessions, sender_cell);
        let (p, g) = recipients[to - 1];
        if reaches(sessions, p, g, sender_cell) {
            prev.push(p)
        } else {
            prev
        }
    }
}

/// Where a visit of `recipients` from index `i` stops with `scans_left`
/// visits and `sends_left` sends still allowed: at the end of the audience
/// or as soon as either budget is spent.
pub open spec fn fanout_stop(
    recipients: Seq<(u32, u64)>,
    i: int,
    sessions: Map<u32, FanoutSession>,
    sender_cell: Option<Cell>,
    scans_left: int,
    sends_left: int,
) -> int
    decreases recipients.len() - i,
{
    if i < 0 || i >= recipients.len() || scans_left <= 0 || sends_left <= 0 {
        i
    } else {
        fanout_stop(
            recipients,
            i + 1,
            sessions,
            sender_cell,
            scans_left - 1,
            if reaches(sessions, recipients[i].0, recipients[i].1, sender_cell) {
                sends_left - 1
            } else {
                sends_left
            },
        )
    }
}

/// A visit never moves the cursor back nor past the audience, visits each
/// member at most once within its scan budget, and, with both budgets left
/// and members still to visit, visits at least one.
pub proof fn lemma_fanout_stop_bounds(
    recipients: Seq<(u32, u64)>,
    i: int,
    sessions: Map<u32, FanoutSession>,
    sender_cell: Option<Cell>,
    scans_left: int,
    sends_left: int,
)
    requires
        0 <= i <= recipients.len(),
    ensures
        i <= fanout_stop(recipients, i, sessions, sender_cell, scans_left, sends_left)
            <= recipients.len(),
        scans_left >= 0 ==> fanout_stop(recipients, i, sessions, sender_cell, scans_left, sends_left)
            - i <= scans_left,
        (i < recipients.len() && scans_left > 0 && sends_left > 0) ==> fanout_stop(
            recipients,
            i,
            sessions,
            sender_cell,
            scans_left,
            sends_left,
        ) > i,
    decreases recipients.len() - i,
{
    if i < recipients.len() && scans_left > 0 && sends_left > 0 {
        lemma_fanout_stop_bounds(
            recipients,
            i + 1,
            sessions,
            sender_cell,
            scans_left - 1,
            if reaches(sessions, recipients[i].0, recipients[i].1, sender_cell) {
                sends_left - 1
            } else {
                sends_left
            },
        );
    }
}

/// Visit the job's audience from where it stopped, at most `scan_budget`
/// members and until `send_budget` deliveries, and return the peers the
/// message is sent to: exactly those visited whose captured session is
/// still live (same generation) and, for a located message, interested in
/// the sender's cell. A retired or reused peer id is never reached.
pub fn deliver_fanout(
    job: &mut FanoutJob,
    sessions: &HashMap<u32, FanoutSession>,
    scan_budget: usize,
    send_budget: usize,
) -> (r: Vec<u32>)
    requires
        old(job).next_recipient <= old(job).recipients@.len(),
    ensures
        final(job).bytes == old(job).bytes,
        final(job).sender_cell == old(job).sender_cell,
        final(job).recipients == old(job).recipients,
        old(job).next_recipient <= final(job).next_recipient <= final(job).recipients@.len(),
        final(job).next_recipient - old(job).next_recipient <= scan_budget,
        r@.len() <= send_budget,
        r@ == reached(
            old(job).recipients@,
            old(job).next_recipient as int,
            final(job).next_recipient as int,
            sessions@,
            old(job).sender_cell,
        ),
        final(job).next_recipient < final(job).recipients@.len() ==> (final(job).next_recipient
            - old(job).next_recipient == scan_budget || r@.len() == send_budget),
        final(job).next_recipient == fanout_stop(
            old(job).recipients@,
            old(job).next_recipient as int,
            sessions@,
            old(job).sender_cell,
            scan_budget as int,
            send_budget as int,
        ),
{
    let start = job.next_recipient;
    let mut out: Vec<u32> = Vec::new();
    let mut scans: usize = 0;
    while job.next_recipient < job.recipients.len() && scans < scan_budget && out.len()
        < send_budget
        invariant
            job.bytes == old(job).bytes,
            job.sender_cell == old(job).sender_cell,
            job.recipients == old(job).recipients,
            start == old(job).next_recipient,
            start <= job.next_recipient <= job.recipients@.len(),
            scans == job.next_recipient - start,
            scans <= scan_budget,
            out@.len() <= send_budget,
            out@ == reached(job.recipients@, start as int, job.next_recipient as int, sessions@, job.sender_cell),
            fanout_stop(job.recipients@, start as int, sessions@, job.sender_cell, scan_budget as int, send_budget as int)
                == fanout_stop(
                job.recipients@,
                job.next_recipient as int,
                sessions@,
                job.sender_cell,
                scan_budget - scans,
                send_budget - out@.len(),
            ),
        decreases job.recipients@.len() - job.next_recipient,
    {
        let (peer, generation) = job.recipients[job.next_recipient];
        job.next_recipient = job.next_recipient + 1;
        scans = scans + 1;
        let send = match sessions.get(&peer) {
            Some(s) => s.generation == generation && match job.sender_cell {
                Some(c) => s.sub.contains(c),
                None => true,
            },
            None => false,
        };
        if send {
            out.push(peer);
        }
    }
    out
}

/// Every peer `reached` lists was captured in `recipients[from..to]` and is
/// still reached under that capture: the returned indices say where.
pub proof fn lemma_reached_sound(
    recipients: Seq<(u32, u64)>,
    from: int,
    to: int,
    sessions: Map<u32, FanoutSession>,
    sender_cell: Option<Cell>,
) -> (w: Seq<int>)
    requires
        0 <= from,
        to <= recipients.len(),
    ensures
        w.len() == reached(recipients, from, to, sessions, sender_cell).len(),
        forall|k: int|
            #![trigger w[k]]
            0 <= k < w.len() ==> {
                &&& from <= w[k] < to
                &&& recipients[w[k]].0 == reached(recipients, from, to, sessions, sender_cell)[k]
                &&& reaches(sessions, recipients[w[k]].0, recipients[w[k]].1, sender_cell)
            },
    decreases to - from,
{
    if to > from {
        let wp = lemma_reached_sound(recipients, from, to - 1, sessions, sender_cell);
        let last = to - 1;
        if reaches(sessions, recipients[last].0, recipients[last].1, sender_cell) {
            let w = wp.push(last);
            assert forall|k: int| #![trigger w[k]] 0 <= k < w.len() implies {
                &&& from <= w[k] < to
                &&& recipients[w[k]].0 == reached(recipients, from, to, sessions, sender_cell)[k]
                &&& reaches(sessions, recipients[w[k]].0, recipients[w[k]].1, sender_cell)
            } by {
                if k < wp.len() {
                    assert(w[k] == wp[k]);
                }
            }
            w
        } else {
            wp
        }
    } else {
        Seq::empty()
    }
}

/// The queued fan-out work: at most one coalesced clock job, the FIFO of
/// chat jobs with their total byte count, and which queue goes next.
pub struct FanoutQueues {
    pub clock: Option<FanoutJob>,
    pub chat: VecDeque<FanoutJob>,
    pub chat_bytes: usize,
    pub prefer_clock: bool,
}

/// Two jobs carry the same message to the same captured audience.
pub open spec fn same_job(a: FanoutJob, b: FanoutJob) -> bool {
    &&& a.bytes@ == b.bytes@
    &&& a.sender_cell == b.sender_cell
    &&& a.recipients@ == b.recipients@
}

/// Sending `bytes` to `peer` delivers `job`: its message, to a member of its
/// captured audience whose session is still the captured one (and, for a
/// located message, interested in the sender's cell).
pub open spec fn delivers(job: FanoutJob, peer: u32, bytes: Seq<u8>, sessions: Map<u32, FanoutSession>) -> bool {
    &&& bytes == job.bytes@
    &&& exists|j: int|
        0 <= j < job.recipients@.len() && #[trigger] job.recipients@[j].0 == peer && reaches(
            sessions,
            peer,
            job.recipients@[j].1,
            job.sender_cell,
        )
}

/// A send delivers one of the jobs queued in `q`.
pub open spec fn queued_delivery(q: FanoutQueues, peer: u32, bytes: Seq<u8>, sessions: Map<u32, FanoutSession>) -> bool {
    ||| (q.clock matches Some(c) && delivers(c, peer, bytes, sessions))
    ||| exists|i: int| 0 <= i < q.chat@.len() && delivers(#[trigger] q.chat@[i], peer, bytes, sessions)
}

fn copy_bytes(b: &Vec<u8>) -> (r: Vec<u8>)
    ensures
        r@ == b@,
{
    let r = b.clone();
    proof {
        assert(r@ =~= b@);
    }
    r
}

/// The fan-out queues as a value: the clock job, the chat jobs in order,
/// the chat byte count and whether the clock goes next.
pub type FanoutModel = (Option<FanoutJob>, Seq<FanoutJob>, int, bool);

impl FanoutQueues {
    /// The queues as a value.
    pub open spec fn model(&self) -> FanoutModel {
        (self.clock, self.chat@, self.chat_bytes as int, self.prefer_clock)
    }
}

/// How many jobs are queued.
pub open spec fn queued_jobs(q: FanoutModel) -> nat {
    (if q.0 is Some {
        1nat
    } else {
        0nat
    }) + q.1.len()
}

/// Sends as (peer, message bytes).
pub open spec fn sends_view(s: Seq<(u32, Vec<u8>)>) -> Seq<(u32, Seq<u8>)> {
    s.map_values(|e: (u32, Vec<u8>)| (e.0, e.1@))
}

/// Whether the clock job takes the next turn.
pub open spec fn clock_turn(q: FanoutModel) -> bool {
    q.0 is Some && (q.3 || q.1.len() == 0)
}

/// The job whose turn it is (the queues must not both be empty).
pub open spec fn turn_job(q: FanoutModel) -> FanoutJob {
    if clock_turn(q) {
        q.0->0
    } else {
        q.1[0]
    }
}

/// The queues with the job whose turn it is taken out.
pub open spec fn without_turn_job(q: FanoutModel) -> FanoutModel {
    if clock_turn(q) {
        (None, q.1, q.2, q.3)
    } else {
        (q.0, q.1.drop_first(), q.2, q.3)
    }
}

/// Where the job whose turn it is stops under the remaining budgets (its
/// cursor stays put when it lies past the audience).
pub open spec fn turn_stop(q: FanoutModel, sessions: Map<u32, FanoutSession>, scans_left: int, sends_left: int) -> int {
    let j = turn_job(q);
    if j.next_recipient <= j.recipients@.len() {
        fanout_stop(j.recipients@, j.next_recipient as int, sessions, j.sender_cell, scans_left, sends_left)
    } else {
        j.next_recipient as int
    }
}

/// One tick of fan-out from the queues `q` with `scans_left` visits and
/// `sends_left` sends allowed: while both budgets last and a job is queued,
/// the clock job goes when it is its turn or chat is empty, else the front
/// chat job; the job visits its audience from its cursor (see
/// [`fanout_stop`]) and sends its message to each member still reached. A
/// finished clock job gives the turn to chat, a finished chat job releases
/// its bytes and gives the turn to the clock, and the next job goes; an
/// unfinished job goes back to the front of its queue with its advanced
/// cursor and the tick ends. Returns the queues after, the sends in order
/// and the number of visits.
pub open spec fn fanout_tick(
    q: FanoutModel,
    sessions: Map<u32, FanoutSession>,
    scans_left: int,
    sends_left: int,
    fuel: nat,
) -> (FanoutModel, Seq<(u32, Seq<u8>)>, int)
    decreases fuel,
{
    if fuel == 0 || scans_left <= 0 || sends_left <= 0 || (!clock_turn(q) && q.1.len() == 0) {
        (q, Seq::empty(), 0)
    } else {
        let j = turn_job(q);
        let rest = without_turn_job(q);
        let start = j.next_recipient as int;
        let to = turn_stop(q, sessions, scans_left, sends_left);
        let sent = if start <= j.recipients@.len() {
            reached(j.recipients@, start, to, sessions, j.sender_cell)
        } else {
            Seq::empty()
        };
        let sends = sent.map_values(|p: u32| (p, j.bytes@));
        if to == j.recipients@.len() {
            let next = if clock_turn(q) {
                (rest.0, rest.1, rest.2, false)
            } else {
                (
                    rest.0,
                    rest.1,
                    if rest.2 >= j.bytes@.len() {
                        rest.2 - j.bytes@.len()
                    } else {
                        0
                    },
                    true,
                )
            };
            let after = fanout_tick(next, sessions, scans_left - (to - start), sends_left - sent.len(), (fuel - 1) as nat);
            (after.0, sends + after.1, (to - start) + after.2)
        } else {
            let back = FanoutJob {
                bytes: j.bytes,
                sender_cell: j.sender_cell,
                recipients: j.recipients,
                next_recipient: to as usize,
            };
            let put = if clock_turn(q) {
                (Some(back), rest.1, rest.2, rest.3)
            } else {
                (rest.0, seq![back] + rest.1, rest.2, rest.3)
            };
            (put, sends, to - start)
        }
    }
}

/// A send delivers one of the jobs queued in `q`.
pub open spec fn model_delivery(q: FanoutModel, peer: u32, bytes: Seq<u8>, sessions: Map<u32, FanoutSession>) -> bool {
    ||| (q.0 matches Some(c) && delivers(c, peer, bytes, sessions))
    ||| exists|i: int| 0 <= i < q.1.len() && delivers(#[trigger] q.1[i], peer, bytes, sessions)
}

/// Every send of a fan-out tick delivers a queued job's message to a
/// member of its captured audience whose session is still the captured
/// one: a retired or reused connection never hears it.
pub proof fn lemma_fanout_tick_sound(
    q: FanoutModel,
    sessions: Map<u32, FanoutSession>,
    scans_left: int,
    sends_left: int,
    fuel: nat,
)
    ensures
        forall|i: int|
            0 <= i < fanout_tick(q, sessions, scans_left, sends_left, fuel).1.len() ==> model_delivery(
                q,
                #[trigger] fanout_tick(q, sessions, scans_left, sends_left, fuel).1[i].0,
                fanout_tick(q, sessions, scans_left, sends_left, fuel).1[i].1,
                sessions,
            ),
    decreases fuel,
{
    let t = fanout_tick(q, sessions, scans_left, sends_left, fuel);
    if fuel == 0 || scans_left <= 0 || sends_left <= 0 || (!clock_turn(q) && q.1.len() == 0) {
    } else {
        let j = turn_job(q);
        let rest = without_turn_job(q);
        let start = j.next_recipient as int;
        let to = turn_stop(q, sessions, scans_left, sends_left);
        let sent = if start <= j.recipients@.len() {
            reached(j.recipients@, start, to, sessions, j.sender_cell)
        } else {
            Seq::empty()
        };
        let sends = sent.map_values(|p: u32| (p, j.bytes@));
        let mut w: Seq<int> = Seq::empty();
        if start <= j.recipients@.len() {
            lemma_fanout_stop_bounds(j.recipients@, start, sessions, j.sender_cell, scans_left, sends_left);
            w = lemma_reached_sound(j.recipients@, start, to, sessions, j.sender_cell);
        }
        assert forall|k: int| 0 <= k < sends.len() implies model_delivery(q, sends[k].0, sends[k].1, sessions) by {
            assert(w[k] == w[k]);
            assert(j.recipients@[w[k]].0 == sent[k]);
            assert(delivers(j, sent[k], j.bytes@, sessions));
            if !clock_turn(q) {
                assert(q.1[0] == j);
            }
        }
        if to == j.recipients@.len() {
            let next = if clock_turn(q) {
                (rest.0, rest.1, rest.2, false)
            } else {
                (
                    rest.0,
                    rest.1,
                    if rest.2 >= j.bytes@.len() {
                        rest.2 - j.bytes@.len()
                    } else {
                        0
                    },
                    true,
                )
            };
            let after = fanout_tick(next, sessions, scans_left - (to - start), sends_left - sent.len(), (fuel - 1) as nat);
            lemma_fanout_tick_sound(next, sessions, scans_left - (to - start), sends_left - sent.len(), (fuel - 1) as nat);
            assert(t.1 == sends + after.1);
            assert forall|i: int| 0 <= i < t.1.len() implies model_delivery(q, #[trigger] t.1[i].0, t.1[i].1, sessions) by {
                if i < sends.len() {
                    assert(t.1[i] == sends[i]);
                } else {
                    let k = i - sends.len();
                    assert(t.1[i] == after.1[k]);
                    assert(model_delivery(next, after.1[k].0, after.1[k].1, sessions));
                    if !(next.0 matches Some(c) && delivers(c, after.1[k].0, after.1[k].1, sessions)) {
                        let m = choose|m: int| 0 <= m < next.1.len() && delivers(#[trigger] next.1[m], after.1[k].0, after.1[k].1, sessions);
                        if clock_turn(q) {
                            assert(q.1[m] == next.1[m]);
                        } else {
                            assert(q.1[m + 1] == next.1[m]);
                        }
                    }
                }
            }
        } else {
            assert(t.1 == sends);
        }
    }
}

/// With both budgets left and the job whose turn it is still owing visits,
/// a tick visits someone: queued work always advances.
pub proof fn lemma_fanout_tick_progress(
    q: FanoutModel,
    sessions: Map<u32, FanoutSession>,
    scans_left: int,
    sends_left: int,
    fuel: nat,
)
    requires
        fuel > 0,
        scans_left > 0,
        sends_left > 0,
        clock_turn(q) || q.1.len() > 0,
        turn_job(q).next_recipient < turn_job(q).recipients@.len(),
    ensures
        fanout_tick(q, sessions, scans_left, sends_left, fuel).2 > 0,
{
    let j = turn_job(q);
    lemma_fanout_stop_bounds(j.recipients@, j.next_recipient as int, sessions, j.sender_cell, scans_left, sends_left);
    let to = turn_stop(q, sessions, scans_left, sends_left);
    if to == j.recipients@.len() {
        let start = j.next_recipient as int;
        let rest = without_turn_job(q);
        let sent = reached(j.recipients@, start, to, sessions, j.sender_cell);
        let next = if clock_turn(q) {
            (rest.0, rest.1, rest.2, false)
        } else {
            (
                rest.0,
                rest.1,
                if rest.2 >= j.bytes@.len() {
                    rest.2 - j.bytes@.len()
                } else {
                    0
                },
                true,
            )
        };
        lemma_fanout_tick_visits_nonnegative(next, sessions, scans_left - (to - start), sends_left - sent.len(), (fuel - 1) as nat);
    }
}

/// A tick never counts negative visits.
pub proof fn lemma_fanout_tick_visits_nonnegative(
    q: FanoutModel,
    sessions: Map<u32, FanoutSession>,
    scans_left: int,
    sends_left: int,
    fuel: nat,
)
    ensures
        fanout_tick(q, sessions, scans_left, sends_left, fuel).2 >= 0,
    decreases fuel,
{
    if fuel == 0 || scans_left <= 0 || sends_left <= 0 || (!clock_turn(q) && q.1.len() == 0) {
    } else {
        let j = turn_job(q);
        let start = j.next_recipient as int;
        if start <= j.recipients@.len() {
            lemma_fanout_stop_bounds(j.recipients@, start, sessions, j.sender_cell, scans_left, sends_left);
        }
        let to = turn_stop(q, sessions, scans_left, sends_left);
        if to == j.recipients@.len() {
            let rest = without_turn_job(q);
            let sent = if start <= j.recipients@.len() {
                reached(j.recipients@, start, to, sessions, j.sender_cell)
            } else {
                Seq::empty()
            };
            let next = if clock_turn(q) {
                (rest.0, rest.1, rest.2, false)
            } else {
                (
                    rest.0,
                    rest.1,
                    if rest.2 >= j.bytes@.len() {
                        rest.2 - j.bytes@.len()
                    } else {
                        0
                    },
                    true,
                )
            };
            lemma_fanout_tick_visits_nonnegative(next, sessions, scans_left - (to - start), sends_left - sent.len(), (fuel - 1) as nat);
        }
    }
}

/// One tick of fan-out under a budget of `scan_budget` audience visits and
/// `send_budget` sends, exactly as [`fanout_tick`] describes: returns the
/// sends, each a (peer, message) pair, and the number of visits, and leaves
/// the queues as the tick does.
pub fn run_fanout(
    q: &mut FanoutQueues,
    sessions: &HashMap<u32, FanoutSession>,
    scan_budget: usize,
    send_budget: usize,
) -> (r: (Vec<(u32, Vec<u8>)>, usize))
    ensures
        ({
            let t = fanout_tick(
                old(q).model(),
                sessions@,
                scan_budget as int,
                send_budget as int,
                queued_jobs(old(q).model()) + 1,
            );
            &&& final(q).model() == t.0
            &&& sends_view(r.0@) == t.1
            &&& r.1 == t.2
        }),
        r.0@.len() <= send_budget,
        r.1 <= scan_budget,
{
    let ghost total = fanout_tick(
        q.model(),
        sessions@,
        scan_budget as int,
        send_budget as int,
        queued_jobs(q.model()) + 1,
    );
    let mut out: Vec<(u32, Vec<u8>)> = Vec::new();
    let mut scans: usize = 0;
    let mut done = false;
    proof {
        assert(sends_view(out@) =~= Seq::<(u32, Seq<u8>)>::empty());
        let t = fanout_tick(q.model(), sessions@, scan_budget as int, send_budget as int, queued_jobs(q.model()) + 1);
        assert(sends_view(out@) + t.1 =~= t.1);
    }
    while !done && scans < scan_budget && out.len() < send_budget
        invariant
            scans <= scan_budget,
            out@.len() <= send_budget,
            total == fanout_tick(
                old(q).model(),
                sessions@,
                scan_budget as int,
                send_budget as int,
                queued_jobs(old(q).model()) + 1,
            ),
            !done ==> ({
                let t = fanout_tick(
                    q.model(),
                    sessions@,
                    scan_budget - scans,
                    send_budget - out@.len(),
                    queued_jobs(q.model()) + 1,
                );
                total == (t.0, sends_view(out@) + t.1, scans + t.2)
            }),
            done ==> total == (q.model(), sends_view(out@), scans as int),
        decreases (if done { 0int } else { 1int }) + q.chat@.len() + (if q.clock is Some { 1int } else { 0int }),
    {
        let ghost m0 = q.model();
        let ghost s0 = scan_budget - scans;
        let ghost b0 = send_budget - out@.len();
        let ghost out0 = out@;
        let ghost scans0 = scans as int;
        let from_clock = q.clock.is_some() && (q.prefer_clock || q.chat.len() == 0);
        proof {
            assert(from_clock == clock_turn(m0));
        }
        let taken = if from_clock {
            q.clock.take()
        } else {
            q.chat.pop_front()
        };
        match taken {
            None => {
                proof {
                    assert(!clock_turn(m0) && m0.1.len() == 0);
                    assert(q.model() == m0);
                    assert(sends_view(out@) + Seq::<(u32, Seq<u8>)>::empty() =~= sends_view(out@));
                }
                done = true;
            },
            Some(job) => {
                let mut job = job;
                let ghost j = turn_job(m0);
                let ghost rest = without_turn_job(m0);
                proof {
                    assert(job == j);
                    assert(q.model() == rest);
                }
                let start = job.next_recipient;
                let sent = if job.next_recipient <= job.recipients.len() {
                    let v = deliver_fanout(&mut job, sessions, scan_budget - scans, send_budget - out.len());
                    proof {
                        lemma_fanout_stop_bounds(j.recipients@, start as int, sessions@, j.sender_cell, s0, b0);
                    }
                    scans = scans + (job.next_recipient - start);
                    v
                } else {
                    Vec::new()
                };
                let ghost to = turn_stop(m0, sessions@, s0, b0);
                let ghost sends = sent@.map_values(|p: u32| (p, j.bytes@));
                proof {
                    assert(job.next_recipient == to);
                    assert(job.bytes == j.bytes && job.recipients == j.recipients && job.sender_cell == j.sender_cell);
                    if start as int <= j.recipients@.len() {
                        assert(sent@ == reached(j.recipients@, start as int, to, sessions@, j.sender_cell));
                    } else {
                        assert(sent@ =~= Seq::<u32>::empty());
                    }
                }
                let mut k: usize = 0;
                while k < sent.len()
                    invariant
                        k <= sent@.len(),
                        out@.len() == out0.len() + k,
                        out0.len() + sent@.len() <= send_budget,
                        job.bytes == j.bytes,
                        sends == sent@.map_values(|p: u32| (p, j.bytes@)),
                        sends_view(out@) == sends_view(out0) + sends.take(k as int),
                    decreases sent@.len() - k,
                {
                    let bytes = copy_bytes(&job.bytes);
                    let ghost before = out@;
                    out.push((sent[k], bytes));
                    proof {
                        assert(sends_view(out@) =~= sends_view(before).push((sent@[k as int], j.bytes@)));
                        assert(sends.take(k + 1) =~= sends.take(k as int).push(sends[k as int]));
                        assert(sends_view(out@) =~= sends_view(out0) + sends.take(k + 1));
                    }
                    k = k + 1;
                }
                proof {
                    assert(sends.take(sent@.len() as int) =~= sends);
                    assert(sends_view(out@) == sends_view(out0) + sends);
                }
                if job.next_recipient == job.recipients.len() {
                    if from_clock {
                        q.prefer_clock = false;
                    } else {
                        q.chat_bytes = q.chat_bytes.saturating_sub(job.bytes.len());
                        q.prefer_clock = true;
                    }
                    proof {
                        let next = q.model();
                        let after = fanout_tick(next, sessions@, s0 - (to - start), b0 - sent@.len(), queued_jobs(next) + 1);
                        assert(queued_jobs(next) + 1 == queued_jobs(m0));
                        assert(fanout_tick(m0, sessions@, s0, b0, queued_jobs(m0) + 1) == (after.0, sends + after.1, (to - start) + after.2));
                        assert(sends_view(out0) + (sends + after.1) =~= sends_view(out@) + after.1);
                    }
                } else {
                    if from_clock {
                        q.clock = Some(job);
                    } else {
                        q.chat.push_front(job);
                    }
                    proof {
                        let back = FanoutJob {
                            bytes: j.bytes,
                            sender_cell: j.sender_cell,
                            recipients: j.recipients,
                            next_recipient: to as usize,
                        };
                        assert(job == back);
                        if !from_clock {
                            assert(q.chat@ =~= seq![back] + rest.1);
                        }
                        assert(fanout_tick(m0, sessions@, s0, b0, queued_jobs(m0) + 1) == (q.model(), sends, to - start));
                    }
                    done = true;
                }
            },
        }
    }
    proof {
        if !done {
            let t = fanout_tick(q.model(), sessions@, scan_budget - scans, send_budget - out@.len(), queued_jobs(q.model()) + 1);
            assert(sends_view(out@) + t.1 =~= sends_view(out@));
        }
    }
    (out, scans)
}

/// Most chat jobs queued at once.
pub const CHAT_QUEUE_ITEMS: usize = 256;

/// Largest chat message payload: one datagram's worth.
pub const CHAT_PAYLOAD_BYTES: usize = MTU - HEADER_SIZE;

/// Byte budget of the chat queue.
pub const CHAT_QUEUE_BYTES: usize = CHAT_QUEUE_ITEMS * CHAT_PAYLOAD_BYTES;

/// Most captured audience entries all queued jobs may hold together.
pub const FANOUT_QUEUE_RECIPIENTS: usize = (CHAT_QUEUE_ITEMS + 1) * DEFAULT_MAX_PEERS;

/// Decide whether a chat line of `text_bytes` bytes from `sender` may be
/// queued: a line longer than `max_len` is dropped first; then a full chat
/// queue (by count, or by bytes once fewer than a datagram's worth remain)
/// drops it; then the sender's throttle decides. Only a line that reaches
/// the throttle charges it.
pub fn admit_chat(
    q: &FanoutQueues,
    limiter: &mut RateLimiter,
    sender: u64,
    text_bytes: usize,
    max_len: usize,
    now_ms: i64,
) -> (r: bool)
    ensures
        final(limiter).interval() == old(limiter).interval(),
        ({
            let too_long = text_bytes > max_len;
            let full = q.chat@.len() >= CHAT_QUEUE_ITEMS || q.chat_bytes > CHAT_QUEUE_BYTES
                - CHAT_PAYLOAD_BYTES;
            let ok = admits(old(limiter).interval(), last_of(old(limiter).entries(), sender), now_ms);
            &&& r == (!too_long && !full && ok)
            &&& final(limiter).entries() == if !too_long && !full && ok && old(limiter).interval()
                > 0 {
                old(limiter).entries().insert(sender, now_ms)
            } else {
                old(limiter).entries()
            }
        }),
{
    if text_bytes > max_len {
        return false;
    }
    if q.chat.len() >= CHAT_QUEUE_ITEMS || q.chat_bytes > CHAT_QUEUE_BYTES - CHAT_PAYLOAD_BYTES {
        return false;
    }
    limiter.allow(sender, now_ms)
}

/// Queue an encoded chat message from `cell` to the captured `recipients`:
/// refused, with nothing changed, when it does not fit one datagram;
/// otherwise appended to the chat queue with its cursor at the start, and
/// its bytes counted.
pub fn enqueue_chat(q: &mut FanoutQueues, bytes: Vec<u8>, cell: Cell, recipients: Vec<(u32, u64)>) -> (r: bool)
    requires
        bytes@.len() <= CHAT_PAYLOAD_BYTES ==> old(q).chat_bytes + bytes@.len() <= usize::MAX,
    ensures
        r == (bytes@.len() <= CHAT_PAYLOAD_BYTES),
        !r ==> final(q).model() == old(q).model(),
        r ==> {
            &&& final(q).clock == old(q).clock
            &&& final(q).prefer_clock == old(q).prefer_clock
            &&& final(q).chat_bytes == old(q).chat_bytes + bytes@.len()
            &&& final(q).chat@ == old(q).chat@.push(
                FanoutJob { bytes, sender_cell: Some(cell), recipients, next_recipient: 0 },
            )
        },
{
    if bytes.len() > CHAT_PAYLOAD_BYTES {
        return false;
    }
    q.chat_bytes = q.chat_bytes + bytes.len();
    q.chat.push_back(FanoutJob { bytes, sender_cell: Some(cell), recipients, next_recipient: 0 });
    true
}

/// The audience a fan-out captures from the snapshot `recipients`: each
/// peer with a live session, with that session's generation, in order, at
/// most `max_peers` of them.
pub open spec fn captured(
    recipients: Seq<u32>,
    generations: Map<u32, u64>,
    max_peers: nat,
) -> Seq<(u32, u64)>
    decreases recipients.len(),
{
    if recipients.len() == 0 {
        Seq::empty()
    } else {
        let prev = captured(recipients.drop_last(), generations, max_peers);
        let p = recipients.last();
        if prev.len() < max_peers && generations.contains_key(p) {
            prev.push((p, generations[p]))
        } else {
            prev
        }
    }
}

/// Capture a fan-out audience (see [`captured`]) when the queues can hold
/// it: none when nobody would hear the message, or when the `retained`
/// entries already held by queued jobs plus this audience would exceed
/// [`FANOUT_QUEUE_RECIPIENTS`].
pub fn capture_audience(
    recipients: &[u32],
    generations: &HashMap<u32, u64>,
    max_peers: usize,
    retained: usize,
) -> (r: Option<Vec<(u32, u64)>>)
    ensures
        ({
            let a = captured(recipients@, generations@, max_peers as nat);
            match r {
                Some(v) => v@ == a && a.len() > 0 && retained + a.len() <= FANOUT_QUEUE_RECIPIENTS,
                None => a.len() == 0 || retained + a.len() > FANOUT_QUEUE_RECIPIENTS,
            }
        }),
{
    let mut out: Vec<(u32, u64)> = Vec::new();
    let mut i: usize = 0;
    while i < recipients.len()
        invariant
            i <= recipients@.len(),
            out@ == captured(recipients@.take(i as int), generations@, max_peers as nat),
            out@.len() <= max_peers,
        decreases recipients@.len() - i,
    {
        let p = recipients[i];
        proof {
            assert(recipients@.take(i + 1).drop_last() =~= recipients@.take(i as int));
            assert(recipients@.take(i + 1).last() == p);
        }
        if out.len() < max_peers {
            match generations.get(&p) {
                Some(g) => {
                    out.push((p, *g));
                },
                None => {},
            }
        }
        i = i + 1;
    }
    proof {
        assert(recipients@.take(recipients@.len() as int) =~= recipients@);
    }
    if out.len() == 0 || retained > FANOUT_QUEUE_RECIPIENTS || out.len() > FANOUT_QUEUE_RECIPIENTS
        - retained {
        return None;
    }
    Some(out)
}

/// Hand out the next session generation: never 0, one more than the last;
/// when the counter is exhausted it restarts at 1 and every queued fan-out
/// job is dropped first, since their captured generations could be handed
/// out again.
pub fn allocate_generation(next_generation: &mut u64, q: &mut FanoutQueues) -> (r: u64)
    ensures
        r == if *old(next_generation) == u64::MAX {
            1
        } else {
            *old(next_generation) + 1
        },
        *final(next_generation) == r,
        *old(next_generation) == u64::MAX ==> {
            &&& final(q).clock is None
            &&& final(q).chat@.len() == 0
            &&& final(q).chat_bytes == 0
            &&& final(q).prefer_clock == old(q).prefer_clock
        },
        *old(next_generation) < u64::MAX ==> final(q).model() == old(q).model(),
{
    if *next_generation == u64::MAX {
        q.chat.clear();
        q.chat_bytes = 0;
        q.clock = None;
        *next_generation = 0;
    }
    *next_generation = *next_generation + 1;
    *next_generation
}

/// Ticks from `last` to `now` on a 32-bit counter that wraps.
pub open spec fn ticks_since(now: u32, last: u32) -> int {
    if now >= last {
        now - last
    } else {
        now - last + 0x1_0000_0000
    }
}

/// The snapshot tick counter after one more tick (wrapping).
pub fn advance_snapshot_tick(tick: u32) -> (r: u32)
    ensures
        r == if tick == u32::MAX {
            0
        } else {
            tick + 1
        },
{
    tick.wrapping_add(1)
}

/// Whether a snapshot recipient last visited at `last_visit` (0: never) is
/// due at `server_tick`, with a cadence of `ticks_per_snapshot` ticks
/// (capped to the 32-bit counter).
pub fn snapshot_due(server_tick: u32, last_visit: u32, ticks_per_snapshot: u64) -> (r: bool)
    ensures
        r == (last_visit == 0 || ticks_since(server_tick, last_visit) >= if ticks_per_snapshot
            > u32::MAX {
            u32::MAX as int
        } else {
            ticks_per_snapshot as int
        }),
{
    let cadence: u32 = if ticks_per_snapshot > u32::MAX as u64 {
        u32::MAX
    } else {
        ticks_per_snapshot as u32
    };
    last_visit == 0 || server_tick.wrapping_sub(last_visit) >= cadence
}

} // verus!
