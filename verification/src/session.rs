//! Pure helpers of the server's session layer: recipient rotation, hydration
//! ordering, identity hashing, and hello-string validation.
use std::collections::BTreeSet;
use crate::world::Cell;
use vstd::prelude::*;
use vstd::string::StringExecFns;
use vstd::string::StringSliceAdditionalSpecFns;
use vstd::std_specs::cmp::OrdSpec;
use vstd::std_specs::iter::IteratorSpec;

verus! {

broadcast use {vstd::std_specs::btree::group_btree_axioms, vstd::laws_cmp::group_laws_cmp};

fn collect_ascending(peers: &BTreeSet<u32>) -> (r: Vec<u32>)
    ensures
        r@.to_set() == peers@,
        r@.no_duplicates(),
        r@.len() == peers@.len(),
        forall|i: int, j: int| 0 <= i < j < r@.len() ==> r@[i] < r@[j],
{
    let ghost ks = vstd::std_specs::btree::spec_btree_keys_iter(peers).remaining();
    proof {
        assert(vstd::laws_cmp::obeys_cmp::<u32>());
        assert(vstd::laws_cmp::obeys_cmp::<&u32>());
        assert(vstd::std_specs::btree::increasing_seq(ks));
        vstd::std_specs::btree::axiom_increasing_seq_meaning(ks);
        assert forall|i: int, j: int| 0 <= i < j < ks.len() implies *ks[i] < *ks[j] by {
            assert(OrdSpec::cmp_spec(&ks[i], &ks[j]) is Less);
        }
    }
    let mut out: Vec<u32> = Vec::new();
    for p in it: peers.iter()
        invariant
            it.seq() == ks,
            out@ == ks.take(it.index()).map_values(|p: &u32| *p),
            ks.unref().to_set() == peers@,
            ks.no_duplicates(),
            forall|i: int, j: int| 0 <= i < j < ks.len() ==> *ks[i] < *ks[j],
    {
        proof {
            assert(ks.take(it.index() + 1) =~= ks.take(it.index()).push(ks[it.index()]));
        }
        out.push(*p);
        proof {
            assert(out@ =~= ks.take(it.index() + 1).map_values(|p: &u32| *p));
        }
    }
    proof {
        assert(out@ =~= ks.unref());
        out@.unique_seq_to_set();
    }
    out
}

/// The position of peer `p` in the round-robin order that resumes after
/// `cursor`: peers after the cursor come first, in increasing order, then the
/// peers up to and including the cursor, in increasing order.
pub open spec fn rotation_key(p: u32, cursor: Option<u32>) -> int {
    match cursor {
        Some(c) => if p > c {
            p as int
        } else {
            p + 0x1_0000_0000
        },
        None => p as int,
    }
}

/// `r` is the first `min(limit, |peers|)` members of `peers` in the
/// round-robin order after `cursor`: strictly increasing in
/// [`rotation_key`], drawn from `peers`, and no member left out precedes
/// any member taken.
pub open spec fn is_rotation_prefix(r: Seq<u32>, peers: Set<u32>, cursor: Option<u32>, limit: int) -> bool {
    &&& r.len() == (if limit < peers.len() {
        limit
    } else {
        peers.len() as int
    })
    &&& forall|k: int| 0 <= k < r.len() ==> peers.contains(#[trigger] r[k])
    &&& forall|k: int, l: int|
        0 <= k < l < r.len() ==> rotation_key(r[k], cursor) < rotation_key(r[l], cursor)
    &&& forall|p: u32, k: int|
        peers.contains(p) && !r.contains(p) && 0 <= k < r.len() ==> rotation_key(r[k], cursor)
            < rotation_key(p, cursor)
}

/// Up to `limit` recipients from `peers`, continuing the round robin after
/// `cursor` (from the smallest peer when there is no cursor) and wrapping
/// around.
pub fn ordered_peers_after(peers: &BTreeSet<u32>, cursor: Option<u32>, limit: usize) -> (r: Vec<u32>)
    ensures
        is_rotation_prefix(r@, peers@, cursor, limit as int),
{
    let v = collect_ascending(peers);
    let n = v.len();
    let ghost vs = v@;
    let mut rot: Vec<u32> = Vec::new();
    // Peers after the cursor, ascending.
    let mut i: usize = 0;
    while i < n
        invariant
            n == vs.len(),
            v@ == vs,
            i <= n,
            forall|a: int, b: int| 0 <= a < b < vs.len() ==> vs[a] < vs[b],
            forall|k: int| 0 <= k < rot@.len() ==> vs.contains(#[trigger] rot@[k]),
            i < n ==> forall|k: int| 0 <= k < rot@.len() ==> #[trigger] rot@[k] < vs[i as int],
            forall|k: int| 0 <= k < rot@.len() ==> rotation_key(#[trigger] rot@[k], cursor) == rot@[k],
            forall|k: int, l: int|
                0 <= k < l < rot@.len() ==> rotation_key(rot@[k], cursor) < rotation_key(rot@[l], cursor),
            forall|j: int|
                0 <= j < i && rotation_key(vs[j], cursor) < 0x1_0000_0000 ==> rot@.contains(#[trigger] vs[j]),
        decreases n - i,
    {
        let p = v[i];
        let first = match cursor {
            Some(c) => p > c,
            None => true,
        };
        if first {
            let ghost before = rot@;
            rot.push(p);
            proof {
                assert forall|j: int| 0 <= j < i + 1 && rotation_key(vs[j], cursor) < 0x1_0000_0000
                    implies rot@.contains(vs[j]) by {
                    if j < i {
                        let k = choose|k: int| 0 <= k < before.len() && before[k] == vs[j];
                        assert(rot@[k] == vs[j]);
                    } else {
                        assert(rot@[before.len() as int] == vs[j]);
                    }
                }
                assert(vs.contains(p)) by {
                    assert(vs[i as int] == p);
                }
            }
        }
        i += 1;
    }
    let ghost split = rot@.len();
    // Peers up to the cursor, ascending.
    let mut i: usize = 0;
    while i < n
        invariant
            n == vs.len(),
            v@ == vs,
            i <= n,
            split <= rot@.len(),
            forall|a: int, b: int| 0 <= a < b < vs.len() ==> vs[a] < vs[b],
            forall|k: int| 0 <= k < rot@.len() ==> vs.contains(#[trigger] rot@[k]),
            i < n ==> forall|k: int|
                split <= k < rot@.len() ==> #[trigger] rot@[k] < vs[i as int],
            forall|k: int| 0 <= k < split ==> rotation_key(#[trigger] rot@[k], cursor) < 0x1_0000_0000,
            forall|k: int|
                split <= k < rot@.len() ==> rotation_key(#[trigger] rot@[k], cursor) == rot@[k]
                    + 0x1_0000_0000,
            forall|k: int, l: int|
                0 <= k < l < rot@.len() ==> rotation_key(rot@[k], cursor) < rotation_key(rot@[l], cursor),
            forall|j: int|
                0 <= j < n && rotation_key(vs[j], cursor) < 0x1_0000_0000 ==> rot@.contains(#[trigger] vs[j]),
            forall|j: int|
                0 <= j < i && rotation_key(vs[j], cursor) >= 0x1_0000_0000 ==> rot@.contains(#[trigger] vs[j]),
        decreases n - i,
    {
        let p = v[i];
        let second = match cursor {
            Some(c) => p <= c,
            None => false,
        };
        if second {
            let ghost before = rot@;
            rot.push(p);
            proof {
                assert forall|j: int| 0 <= j < n && rotation_key(vs[j], cursor) < 0x1_0000_0000
                    implies rot@.contains(vs[j]) by {
                    let k = choose|k: int| 0 <= k < before.len() && before[k] == vs[j];
                    assert(rot@[k] == vs[j]);
                }
                assert forall|j: int| 0 <= j < i + 1 && rotation_key(vs[j], cursor) >= 0x1_0000_0000
                    implies rot@.contains(vs[j]) by {
                    if j < i {
                        let k = choose|k: int| 0 <= k < before.len() && before[k] == vs[j];
                        assert(rot@[k] == vs[j]);
                    } else {
                        assert(rot@[before.len() as int] == vs[j]);
                    }
                }
                assert(vs.contains(p)) by {
                    assert(vs[i as int] == p);
                }
            }
        }
        i += 1;
    }
    let lim = if limit < n {
        limit
    } else {
        n
    };
    proof {
        assert forall|p: u32| vs.contains(p) implies rot@.contains(p) by {
            let j = choose|j: int| 0 <= j < vs.len() && vs[j] == p;
            assert(vs[j] == p);
            if rotation_key(vs[j], cursor) < 0x1_0000_0000 {
            } else {
            }
        }
        assert forall|a: int, b: int| 0 <= a < rot@.len() && 0 <= b < rot@.len() && a != b implies rot@[a]
            != rot@[b] by {
            if a < b {
                assert(rotation_key(rot@[a], cursor) < rotation_key(rot@[b], cursor));
            } else {
                assert(rotation_key(rot@[b], cursor) < rotation_key(rot@[a], cursor));
            }
        }
        assert(rot@.to_set() =~= vs.to_set());
        rot@.unique_seq_to_set();
        assert(rot@.len() == n);
    }
    let mut out: Vec<u32> = Vec::new();
    let mut k: usize = 0;
    while k < lim
        invariant
            lim <= rot@.len(),
            k <= lim,
            out@ == rot@.take(k as int),
        decreases lim - k,
    {
        out.push(rot[k]);
        k += 1;
        proof {
            assert(out@ =~= rot@.take(k as int));
        }
    }
    proof {
        assert forall|p: u32, a: int|
            peers@.contains(p) && !out@.contains(p) && 0 <= a < out@.len() implies rotation_key(
            out@[a],
            cursor,
        ) < rotation_key(p, cursor) by {
            assert(vs.to_set().contains(p));
            assert(rot@.contains(p));
            let b = choose|b: int| 0 <= b < rot@.len() && rot@[b] == p;
            if b < lim {
                assert(out@[b] == p);
            }
        }
        assert forall|a: int| 0 <= a < out@.len() implies peers@.contains(#[trigger] out@[a]) by {
            assert(vs.contains(rot@[a]));
            assert(vs.to_set().contains(rot@[a]));
        }
    }
    out
}

/// Counts the recipient-index operations a tick performs.
#[derive(Debug, Default, PartialEq, Eq)]
pub struct RecipientIndexWork {
    pub recipient_index_operations: usize,
}

impl RecipientIndexWork {
    /// Remove `peer` from a recipient index, counting the operation.
    pub fn remove(&mut self, recipients: &mut BTreeSet<u32>, peer: u32)
        requires
            old(self).recipient_index_operations < usize::MAX,
        ensures
            final(self).recipient_index_operations == old(self).recipient_index_operations + 1,
            final(recipients)@ == old(recipients)@.remove(peer),
    {
        self.recipient_index_operations += 1;
        recipients.remove(&peer);
    }
}

/// Hydration order over cells: by row (`cz`), then by column (`cx`).
pub open spec fn hydration_before(a: Cell, b: Cell) -> bool {
    a.cz < b.cz || (a.cz == b.cz && a.cx < b.cx)
}

/// Whether `x` is the first cell of `cells` satisfying `p` in hydration order.
pub open spec fn is_first_where(cells: Seq<Cell>, p: spec_fn(Cell) -> bool, x: Cell) -> bool {
    &&& cells.contains(x)
    &&& p(x)
    &&& forall|y: Cell| cells.contains(y) && p(y) ==> x == y || hydration_before(x, y)
}

/// The next cell to hydrate after `cursor`: the first cell past the cursor
/// in hydration order, or, when none is past it (or there is no cursor), the
/// first cell overall; `None` only for an empty set.
pub open spec fn next_hydration_spec(cells: Seq<Cell>, cursor: Option<Cell>, r: Option<Cell>) -> bool {
    let after = |c: Cell| cursor matches Some(k) && hydration_before(k, c);
    let any = |c: Cell| true;
    if exists|c: Cell| cells.contains(c) && after(c) {
        r matches Some(x) && is_first_where(cells, after, x)
    } else if cells.len() > 0 {
        r matches Some(x) && is_first_where(cells, any, x)
    } else {
        r is None
    }
}

fn before(a: Cell, b: Cell) -> (r: bool)
    ensures
        r == hydration_before(a, b),
{
    a.cz < b.cz || (a.cz == b.cz && a.cx < b.cx)
}

fn first_where(cells: &[Cell], cursor: Option<Cell>) -> (r: Option<Cell>)
    ensures
        ({
            let p = |c: Cell| cursor matches Some(k) ==> hydration_before(k, c);
            match r {
                Some(x) => is_first_where(cells@, p, x),
                None => !exists|c: Cell| cells@.contains(c) && p(c),
            }
        }),
{
    let ghost p = |c: Cell| cursor matches Some(k) ==> hydration_before(k, c);
    let mut best: Option<Cell> = None;
    let mut i: usize = 0;
    while i < cells.len()
        invariant
            i <= cells@.len(),
            p == (|c: Cell| cursor matches Some(k) ==> hydration_before(k, c)),
            match best {
                Some(x) => {
                    &&& cells@.take(i as int).contains(x)
                    &&& p(x)
                    &&& forall|y: Cell|
                        cells@.take(i as int).contains(y) && p(y) ==> x == y || hydration_before(x, y)
                },
                None => !exists|c: Cell| cells@.take(i as int).contains(c) && p(c),
            },
        decreases cells@.len() - i,
    {
        let c = cells[i];
        let eligible = match cursor {
            Some(k) => before(k, c),
            None => true,
        };
        let ghost old_best = best;
        if eligible {
            match best {
                Some(x) => {
                    if before(c, x) {
                        best = Some(c);
                    }
                },
                None => {
                    best = Some(c);
                },
            }
        }
        proof {
            let t0 = cells@.take(i as int);
            let t1 = cells@.take(i + 1);
            assert(t1 =~= t0.push(c));
            assert forall|y: Cell| t1.contains(y) implies t0.contains(y) || y == c by {
                let j = choose|j: int| 0 <= j < t1.len() && t1[j] == y;
                if j < t0.len() {
                    assert(t0[j] == y);
                }
            }
            assert(t1[i as int] == c);
            assert(p(c) == eligible);
            if let Some(x) = old_best {
                if !hydration_before(c, x) && !hydration_before(x, c) {
                    assert(c.cz == x.cz && c.cx == x.cx);
                    assert(c == x);
                }
            }
            assert forall|y: Cell| t0.contains(y) implies t1.contains(y) by {
                let j = choose|j: int| 0 <= j < t0.len() && t0[j] == y;
                assert(t1[j] == y);
            }
            if let Some(b) = best {
                assert(t1.contains(b));
                assert(p(b));
                assert forall|y: Cell| t1.contains(y) && p(y) implies b == y || hydration_before(
                    b,
                    y,
                ) by {
                    if y != c {
                        assert(t0.contains(y));
                        if let Some(x) = old_best {
                            assert(x == y || hydration_before(x, y));
                        }
                    } else {
                        if let Some(x) = old_best {
                            if b == x && !hydration_before(x, c) {
                                assert(!hydration_before(c, x));
                                assert(c.cz == x.cz && c.cx == x.cx);
                                assert(c == x);
                            }
                        }
                    }
                }
            } else {
                assert(!exists|y: Cell| t1.contains(y) && p(y)) by {
                    if exists|y: Cell| t1.contains(y) && p(y) {
                        let y = choose|y: Cell| t1.contains(y) && p(y);
                        if y != c {
                            assert(t0.contains(y));
                        }
                    }
                }
            }
        }
        i += 1;
    }
    proof {
        assert(cells@.take(cells@.len() as int) =~= cells@);
    }
    best
}

/// The next cell to hydrate after `cursor`, in row-then-column order,
/// wrapping around to the first cell.
pub fn next_hydration_cell(cells: &[Cell], cursor: Option<Cell>) -> (r: Option<Cell>)
    ensures
        next_hydration_spec(cells@, cursor, r),
{
    let after = match cursor {
        Some(k) => first_where(cells, Some(k)),
        None => None,
    };
    match after {
        Some(x) => Some(x),
        None => {
            let r = first_where(cells, None);
            proof {
                if cells@.len() > 0 {
                    assert(cells@.contains(cells@[0]));
                }
            }
            r
        },
    }
}

/// Calls `String::push`, which appends one character to the string.
#[verifier::external_body]
pub(crate) fn push_char(s: &mut String, c: char)
    ensures
        final(s)@ == old(s)@.push(c),
{
    s.push(c)
}

/// FNV-1a 64-bit offset basis.
pub const FNV_OFFSET_BASIS: u64 = 0xcbf2_9ce4_8422_2325;

/// FNV-1a 64-bit prime.
pub const FNV_PRIME: u64 = 0x0000_0100_0000_01b3;

/// The 64-bit FNV-1a hash of `bytes`.
pub open spec fn fnv1a(bytes: Seq<u8>) -> u64
    decreases bytes.len(),
{
    if bytes.len() == 0 {
        FNV_OFFSET_BASIS
    } else {
        vstd::wrapping::u64_specs::wrapping_mul(
            fnv1a(bytes.drop_last()) ^ (bytes.last() as u64),
            FNV_PRIME,
        )
    }
}

/// The lower-case hexadecimal digit of `d` (for `d < 16`).
pub open spec fn hex_digit(d: u64) -> char {
    if d == 0 {
        '0'
    } else if d == 1 {
        '1'
    } else if d == 2 {
        '2'
    } else if d == 3 {
        '3'
    } else if d == 4 {
        '4'
    } else if d == 5 {
        '5'
    } else if d == 6 {
        '6'
    } else if d == 7 {
        '7'
    } else if d == 8 {
        '8'
    } else if d == 9 {
        '9'
    } else if d == 10 {
        'a'
    } else if d == 11 {
        'b'
    } else if d == 12 {
        'c'
    } else if d == 13 {
        'd'
    } else if d == 14 {
        'e'
    } else {
        'f'
    }
}

/// `h` as exactly 16 lower-case hexadecimal digits, most significant first.
pub open spec fn hex16(h: u64) -> Seq<char> {
    Seq::new(16, |i: int| hex_digit((h >> ((60 - 4 * i) as u64)) & 15u64))
}

fn hex_digit_exec(d: u64) -> (r: char)
    ensures
        r == hex_digit(d),
{
    if d == 0 {
        '0'
    } else if d == 1 {
        '1'
    } else if d == 2 {
        '2'
    } else if d == 3 {
        '3'
    } else if d == 4 {
        '4'
    } else if d == 5 {
        '5'
    } else if d == 6 {
        '6'
    } else if d == 7 {
        '7'
    } else if d == 8 {
        '8'
    } else if d == 9 {
        '9'
    } else if d == 10 {
        'a'
    } else if d == 11 {
        'b'
    } else if d == 12 {
        'c'
    } else if d == 13 {
        'd'
    } else if d == 14 {
        'e'
    } else {
        'f'
    }
}

/// The FNV-1a hash of a token's UTF-8 bytes: the numeric identity key.
pub fn token_key(token: &str) -> (r: u64)
    ensures
        r == fnv1a(token.spec_bytes()),
{
    let bytes = token.as_bytes();
    let mut h: u64 = FNV_OFFSET_BASIS;
    let mut i: usize = 0;
    while i < bytes.len()
        invariant
            i <= bytes@.len(),
            bytes@ == token.spec_bytes(),
            h == fnv1a(bytes@.take(i as int)),
        decreases bytes@.len() - i,
    {
        proof {
            let t = bytes@.take(i + 1);
            assert(t.drop_last() =~= bytes@.take(i as int));
            assert(t.last() == bytes@[i as int]);
        }
        h = (h ^ bytes[i] as u64).wrapping_mul(FNV_PRIME);
        i += 1;
    }
    proof {
        assert(bytes@.take(bytes@.len() as int) =~= bytes@);
    }
    h
}

/// An identity key as 16 lower-case hex digits, most significant first.
pub fn identity_hex(h: u64) -> (r: String)
    ensures
        r@ == hex16(h),
{
    let mut out = String::new();
    let mut k: u64 = 0;
    while k < 16
        invariant
            k <= 16,
            out@ == hex16(h).take(k as int),
        decreases 16 - k,
    {
        let d = (h >> (60 - 4 * k)) & 15u64;
        push_char(&mut out, hex_digit_exec(d));
        proof {
            assert(out@ =~= hex16(h).take(k + 1));
        }
        k += 1;
    }
    proof {
        assert(out@ =~= hex16(h));
    }
    out
}

/// FNV-1a hash of a token, as 16 lower-case hex digits. A stable identity
/// key, not a cryptographic hash.
pub fn token_hash(token: &str) -> (r: String)
    ensures
        r@ == hex16(fnv1a(token.spec_bytes())),
{
    identity_hex(token_key(token))
}

/// The decimal digits of `n`, most significant first, without leading zeros.
pub open spec fn decimal(n: nat) -> Seq<char>
    decreases n,
{
    if n < 10 {
        seq![hex_digit(n as u64)]
    } else {
        decimal(n / 10).push(hex_digit((n % 10) as u64))
    }
}

pub(crate) fn push_decimal(s: &mut String, n: usize)
    ensures
        final(s)@ == old(s)@ + decimal(n as nat),
    decreases n,
{
    if n >= 10 {
        push_decimal(s, n / 10);
    }
    push_char(s, hex_digit_exec((n % 10) as u64));
    proof {
        if n < 10 {
            assert(final(s)@ =~= old(s)@ + decimal(n as nat));
        } else {
            assert(final(s)@ =~= old(s)@ + decimal(n as nat));
        }
    }
}

/// The message a hello string that is missing, or too long, is refused with.
pub open spec fn hello_string_error(
    value: Option<Seq<char>>,
    value_bytes: nat,
    field: Seq<char>,
    required: bool,
    max_len: usize,
) -> Option<Seq<char>> {
    if required && (value is None || value.unwrap().len() == 0) {
        Some("missing "@ + field)
    } else if value is Some && value_bytes > max_len {
        Some(field + " exceeds maximum length ("@ + decimal(max_len as nat) + " bytes)"@)
    } else {
        None
    }
}

/// Check an optional hello string: a required one must be present and
/// non-empty, and any present one must fit `max_len` bytes. Returns the value
/// unchanged when it passes.
pub fn validate_hello_string<'a>(
    value: Option<&'a str>,
    field: &str,
    required: bool,
    max_len: usize,
) -> (r: Result<Option<&'a str>, String>)
    ensures
        ({
            let v = match value {
                Some(s) => Some(s@),
                None => None,
            };
            let bytes = match value {
                Some(s) => s.spec_bytes().len(),
                None => 0,
            };
            match hello_string_error(v, bytes, field@, required, max_len) {
                Some(m) => r matches Err(e) && e@ == m,
                None => r == Ok::<Option<&'a str>, String>(value),
            }
        }),
{
    let missing = match value {
        None => true,
        Some(s) => s.is_empty(),
    };
    if required && missing {
        let mut m = String::from_str("missing ");
        m.append(field);
        return Err(m);
    }
    match value {
        Some(s) => {
            if !crate::validate::string_within_limit(s, max_len) {
                let mut m = String::from_str(field);
                m.append(" exceeds maximum length (");
                push_decimal(&mut m, max_len);
                m.append(" bytes)");
                return Err(m);
            }
        },
        None => {},
    }
    Ok(value)
}

} // verus!
