//! Aggregate per-session-key rate limiter: a minimum-interval throttle keyed
//! by a connected peer or authenticated player. Callers clear a key when its
//! peer or player disconnects, keeping the map bounded to active keys.
use std::collections::BTreeMap;
use std::collections::HashMap;
use vstd::prelude::*;

verus! {

broadcast use {
    vstd::std_specs::hash::group_hash_axioms,
    vstd::std_specs::btree::group_btree_axioms,
    vstd::laws_cmp::group_laws_cmp,
};

/// `now - last`, saturated into the `i64` range (a timestamp rollback yields
/// a non-positive elapsed time).
pub open spec fn saturating_elapsed(now: i64, last: i64) -> i64 {
    let d = now - last;
    if d > i64::MAX {
        i64::MAX
    } else if d < i64::MIN {
        i64::MIN
    } else {
        d as i64
    }
}

/// Whether a message by a key last admitted at `last` (if ever) is admitted
/// at `now` under `min_interval_ms`.
pub open spec fn admits(min_interval_ms: i64, last: Option<i64>, now: i64) -> bool {
    min_interval_ms <= 0 || match last {
        None => true,
        Some(t) => saturating_elapsed(now, t) >= min_interval_ms,
    }
}

/// The last admitted time of `key` in `last`, if any.
pub open spec fn last_of(last: Map<u64, i64>, key: u64) -> Option<i64> {
    if last.contains_key(key) {
        Some(last[key])
    } else {
        None
    }
}

/// Tracks the last accepted message time per key and admits a new message
/// only once the configured interval has elapsed.
#[derive(Debug)]
pub struct RateLimiter {
    min_interval_ms: i64,
    last: HashMap<u64, i64>,
}

impl RateLimiter {
    /// The configured minimum interval.
    pub closed spec fn interval(&self) -> i64 {
        self.min_interval_ms
    }

    /// The last admitted time per tracked key.
    pub closed spec fn entries(&self) -> Map<u64, i64> {
        self.last@
    }

    /// Build a limiter with the given per-key minimum interval in
    /// milliseconds. A non-positive interval disables throttling.
    pub fn new(min_interval_ms: i64) -> (r: RateLimiter)
        ensures
            r.interval() == min_interval_ms,
            r.entries() == Map::<u64, i64>::empty(),
    {
        RateLimiter { min_interval_ms, last: HashMap::new() }
    }

    /// Try to admit a new message by `key` at time `now_ms`: admitted messages
    /// record `now_ms`; a rejected attempt records nothing, so it never
    /// extends the cooldown. A disabled limiter admits everything and stores
    /// nothing.
    pub fn allow(&mut self, key: u64, now_ms: i64) -> (r: bool)
        ensures
            r == admits(old(self).interval(), last_of(old(self).entries(), key), now_ms),
            final(self).interval() == old(self).interval(),
            final(self).entries() == if r && old(self).interval() > 0 {
                old(self).entries().insert(key, now_ms)
            } else {
                old(self).entries()
            },
    {
        if self.min_interval_ms <= 0 {
            return true;
        }
        match self.last.get(&key) {
            None => {
                self.last.insert(key, now_ms);
                true
            },
            Some(last) => {
                let d: i128 = now_ms as i128 - *last as i128;
                let elapsed: i64 = if d > i64::MAX as i128 {
                    i64::MAX
                } else if d < i64::MIN as i128 {
                    i64::MIN
                } else {
                    d as i64
                };
                if elapsed < self.min_interval_ms {
                    return false;
                }
                self.last.insert(key, now_ms);
                true
            },
        }
    }

    /// Forget a key's throttle state on disconnect.
    pub fn clear(&mut self, key: u64)
        ensures
            final(self).interval() == old(self).interval(),
            final(self).entries() == old(self).entries().remove(key),
    {
        self.last.remove(&key);
    }

    /// Number of keys the limiter is tracking.
    pub fn tracked_count(&self) -> (r: usize)
        ensures
            r == self.entries().len(),
    {
        self.last.len()
    }

    /// Last admitted timestamp for a key.
    pub fn last_accepted_ms(&self, key: u64) -> (r: Option<i64>)
        ensures
            r == last_of(self.entries(), key),
    {
        match self.last.get(&key) {
            Some(t) => Some(*t),
            None => None,
        }
    }
}

/// Within the window, a key admitted at `t` is refused at every `now` with
/// `now < t + min_interval_ms`, including every `now` before `t` (a
/// timestamp rollback never bypasses the window).
pub proof fn lemma_window_refuses_early_and_rolled_back_times(min_interval_ms: i64, t: i64, now: i64)
    requires
        min_interval_ms > 0,
        now < t + min_interval_ms,
    ensures
        !admits(min_interval_ms, Some(t), now),
{
}

/// Once the full interval has passed since the last admission, the next
/// message is admitted.
pub proof fn lemma_window_admits_after_interval(min_interval_ms: i64, t: i64, now: i64)
    requires
        now >= t + min_interval_ms,
    ensures
        admits(min_interval_ms, Some(t), now),
{
}

/// A key never seen (or cleared) is always admitted: the first message, or the
/// first after a disconnect, goes through.
pub proof fn lemma_fresh_key_is_admitted(min_interval_ms: i64, now: i64)
    ensures
        admits(min_interval_ms, None, now),
{
}

/// Keys are independent: admitting one key never changes what is recorded
/// for another.
pub proof fn lemma_keys_are_independent(
    entries: Map<u64, i64>,
    key: u64,
    now: i64,
    other: u64,
)
    requires
        other != key,
    ensures
        last_of(entries.insert(key, now), other) == last_of(entries, other),
{
}


/// A source address: the family tag (4 or 6) and the address bits.
pub type SourceIp = (u8, u128);

/// The last admitted time of `ip` in `last`, if any.
pub open spec fn source_last(last: Map<SourceIp, i64>, ip: SourceIp) -> Option<i64> {
    if last.contains_key(ip) {
        Some(last[ip])
    } else {
        None
    }
}

proof fn lemma_source_keys_ordered()
    ensures
        vstd::laws_cmp::obeys_cmp::<SourceIp>(),
        vstd::std_specs::btree::key_obeys_cmp_spec::<SourceIp>(),
{
    assert(vstd::laws_cmp::obeys_cmp::<u8>());
    assert(vstd::laws_cmp::obeys_cmp::<u128>());
    assert(vstd::laws_cmp::obeys_cmp::<SourceIp>());
}

/// The same minimum-interval throttle keyed by source address, for session
/// admission per source IP.
#[derive(Debug)]
pub struct SourceLimiter {
    min_interval_ms: i64,
    last: BTreeMap<SourceIp, i64>,
}

impl SourceLimiter {
    /// The configured minimum interval.
    pub closed spec fn interval(&self) -> i64 {
        self.min_interval_ms
    }

    /// The last admitted time per tracked source.
    pub closed spec fn entries(&self) -> Map<SourceIp, i64> {
        self.last@
    }

    /// A limiter with the given per-source minimum interval (milliseconds);
    /// a non-positive interval disables throttling.
    pub fn new(min_interval_ms: i64) -> (r: SourceLimiter)
        ensures
            r.interval() == min_interval_ms,
            r.entries() == Map::<SourceIp, i64>::empty(),
    {
        SourceLimiter { min_interval_ms, last: BTreeMap::new() }
    }

    /// Try to admit a new session from `ip` at `now_ms`; see
    /// [`RateLimiter::allow`].
    pub fn allow(&mut self, ip: SourceIp, now_ms: i64) -> (r: bool)
        ensures
            r == admits(old(self).interval(), source_last(old(self).entries(), ip), now_ms),
            final(self).interval() == old(self).interval(),
            final(self).entries() == if r && old(self).interval() > 0 {
                old(self).entries().insert(ip, now_ms)
            } else {
                old(self).entries()
            },
    {
        proof {
            lemma_source_keys_ordered();
        }
        if self.min_interval_ms <= 0 {
            return true;
        }
        let prev = match self.last.get(&ip) {
            Some(t) => Some(*t),
            None => None,
        };
        match prev {
            None => {
                self.last.insert(ip, now_ms);
                true
            },
            Some(last) => {
                let elapsed = saturating_elapsed_exec(now_ms, last);
                if elapsed < self.min_interval_ms {
                    return false;
                }
                self.last.insert(ip, now_ms);
                true
            },
        }
    }

    /// Number of sources the limiter is tracking.
    pub fn tracked_count(&self) -> (r: usize)
        ensures
            r == self.entries().len(),
    {
        proof {
            lemma_source_keys_ordered();
        }
        self.last.len()
    }
}

fn saturating_elapsed_exec(now: i64, last: i64) -> (r: i64)
    ensures
        r == saturating_elapsed(now, last),
{
    let d: i128 = now as i128 - last as i128;
    if d > i64::MAX as i128 {
        i64::MAX
    } else if d < i64::MIN as i128 {
        i64::MIN
    } else {
        d as i64
    }
}

} // verus!
