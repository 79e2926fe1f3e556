//! Server configuration knobs, their validation, and the saturating accessors
//! the rest of the server reads them through.
//!
//! The grid cell size (a float) is validated by the caller, which passes the
//! outcome of that range check to [`Config::validate`].
use vstd::prelude::*;
use vstd::string::StringExecFns;

use crate::net::host::{DEFAULT_MAX_PEERS, DEFAULT_MAX_PEERS_PER_IP};

verus! {

/// Upper bound on the AoI radius, in cells.
pub const MAX_AOI_RADIUS_CELLS: u32 = 16;

/// Upper bound on any aggregate player message-class min-interval (ms).
pub const MAX_TRADE_MIN_INTERVAL_MS: u32 = 3_600_000;

/// Upper bound on the pre-authentication hello throttle (ms).
pub const MAX_HELLO_MIN_INTERVAL_MS: u32 = 250;

/// Lower bound on the pre-authentication hello throttle (ms).
pub const MIN_HELLO_MIN_INTERVAL_MS: u32 = 1;

/// Upper bound on the process-wide new-session admission interval (ms).
pub const MAX_NEW_SESSION_MIN_INTERVAL_MS: u32 = 1_000;

/// Highest configurable live transport-peer ceiling.
pub const MAX_TRANSPORT_PEERS: u32 = 65_535;

/// Highest configurable persistent player-row ceiling.
pub const MAX_PLAYER_ROWS: u32 = 1_000_000;

/// Upper bound on the per-message wire-string length cap, in bytes.
pub const MAX_WIRE_STRING_LEN: u32 = 4_096;

/// Default AoI radius, in cells.
pub const DEFAULT_AOI_RADIUS_CELLS: u32 = 2;

/// Runtime configuration for the server (every knob but the grid cell size).
#[derive(Debug, Clone)]
pub struct Config {
    /// UDP address to bind.
    pub bind: String,
    /// SQLite database path.
    pub db_path: String,
    /// Fixed tick / network pump rate (Hz).
    pub tick_hz: u32,
    /// Snapshot broadcast rate (Hz), advertised to clients.
    pub snapshot_hz: u32,
    /// Interval (seconds) between standalone world-clock broadcasts.
    pub clock_broadcast_secs: u32,
    /// AoI interest radius, in grid cells.
    pub aoi_radius_cells: u32,
    /// Minimum interval (ms) between two processed `ClientHello`s per peer.
    pub hello_min_interval_ms: u32,
    /// Process-wide minimum interval (ms) between new-identity admissions.
    pub new_session_min_interval_ms: u32,
    /// Hard ceiling on all live transport peers.
    pub max_transport_peers: u32,
    /// Hard ceiling on live transport peers sharing a source IP.
    pub max_transport_peers_per_ip: u32,
    /// Hard ceiling on persistent rows in the `players` table.
    pub max_player_rows: u32,
    /// Minimum interval (ms) between two accepted trades by one player.
    pub trade_min_interval_ms: u32,
    /// Minimum interval (ms) between two processed `ClientState`s per player.
    pub client_state_min_interval_ms: u32,
    /// Minimum interval (ms) between two processed chat messages per player.
    pub chat_min_interval_ms: u32,
    /// Minimum interval (ms) between two new econ transactions per player.
    pub econ_min_interval_ms: u32,
    /// Minimum interval (ms) between two accepted mooring requests per player.
    pub moor_min_interval_ms: u32,
    /// Maximum length, in bytes, of any inbound wire string.
    pub max_wire_string_len: u32,
    /// Human-readable server name in ServerHello.
    pub server_name: String,
}

impl Default for Config {
    fn default() -> (r: Config)
        ensures
            r.bind@ == "0.0.0.0:38455"@,
            r.db_path@ == "sailwind.db"@,
            r.tick_hz == 30,
            r.snapshot_hz == 4,
            r.clock_broadcast_secs == 10,
            r.aoi_radius_cells == DEFAULT_AOI_RADIUS_CELLS,
            r.hello_min_interval_ms == 250,
            r.new_session_min_interval_ms == 30,
            r.max_transport_peers == DEFAULT_MAX_PEERS,
            r.max_transport_peers_per_ip == DEFAULT_MAX_PEERS_PER_IP,
            r.max_player_rows == 10_000,
            r.trade_min_interval_ms == 250,
            r.client_state_min_interval_ms == 20,
            r.chat_min_interval_ms == 500,
            r.econ_min_interval_ms == 100,
            r.moor_min_interval_ms == 250,
            r.max_wire_string_len == 512,
            r.server_name@ == "Sailwind Online (dev)"@,
    {
        Config {
            bind: "0.0.0.0:38455".to_owned(),
            db_path: "sailwind.db".to_owned(),
            tick_hz: 30,
            snapshot_hz: 4,
            clock_broadcast_secs: 10,
            aoi_radius_cells: DEFAULT_AOI_RADIUS_CELLS,
            hello_min_interval_ms: 250,
            new_session_min_interval_ms: 30,
            max_transport_peers: DEFAULT_MAX_PEERS as u32,
            max_transport_peers_per_ip: DEFAULT_MAX_PEERS_PER_IP as u32,
            max_player_rows: 10_000,
            trade_min_interval_ms: 250,
            client_state_min_interval_ms: 20,
            chat_min_interval_ms: 500,
            econ_min_interval_ms: 100,
            moor_min_interval_ms: 250,
            max_wire_string_len: 512,
            server_name: "Sailwind Online (dev)".to_owned(),
        }
    }
}

/// The per-player message classes whose throttle interval is bounded by
/// [`MAX_TRADE_MIN_INTERVAL_MS`].
#[derive(Debug, Clone, Copy, PartialEq, Eq, Structural)]
pub enum IntervalKnob {
    Trade,
    ClientState,
    Chat,
    Econ,
    Moor,
}

/// Why a configuration was refused: the first knob, in validation order,
/// that is out of range.
#[derive(Debug, Clone, Copy, PartialEq, Eq, Structural)]
pub enum ConfigError {
    /// `tick_hz` must be > 0.
    TickHz,
    /// `snapshot_hz` must be in `1..=tick_hz`.
    SnapshotHz,
    /// `aoi_radius_cells` must be in `1..=MAX_AOI_RADIUS_CELLS`.
    AoiRadius,
    /// `cell_size_m` must be a finite value in its bounds.
    CellSize,
    /// `hello_min_interval_ms` must be in `1..=MAX_HELLO_MIN_INTERVAL_MS`.
    HelloInterval,
    /// `new_session_min_interval_ms` must be in `1..=MAX_NEW_SESSION_MIN_INTERVAL_MS`.
    NewSessionInterval,
    /// `max_transport_peers` must be in `1..=MAX_TRANSPORT_PEERS`.
    TransportPeers,
    /// `max_transport_peers_per_ip` must be in `1..=max_transport_peers`.
    TransportPeersPerIp,
    /// `max_player_rows` must be in `1..=MAX_PLAYER_ROWS`.
    PlayerRows,
    /// A message-class interval must be in `0..=MAX_TRADE_MIN_INTERVAL_MS`.
    MessageInterval(IntervalKnob),
    /// `max_wire_string_len` must be in `1..=MAX_WIRE_STRING_LEN`.
    WireStringLen,
}

/// The first out-of-range knob of `c`, in validation order, if any;
/// `cell_size_ok` is the outcome of the cell-size range check.
pub open spec fn config_error(c: Config, cell_size_ok: bool) -> Option<ConfigError> {
    if c.tick_hz == 0 {
        Some(ConfigError::TickHz)
    } else if c.snapshot_hz == 0 || c.snapshot_hz > c.tick_hz {
        Some(ConfigError::SnapshotHz)
    } else if c.aoi_radius_cells == 0 || c.aoi_radius_cells > MAX_AOI_RADIUS_CELLS {
        Some(ConfigError::AoiRadius)
    } else if !cell_size_ok {
        Some(ConfigError::CellSize)
    } else if !(MIN_HELLO_MIN_INTERVAL_MS <= c.hello_min_interval_ms <= MAX_HELLO_MIN_INTERVAL_MS) {
        Some(ConfigError::HelloInterval)
    } else if !(MIN_HELLO_MIN_INTERVAL_MS <= c.new_session_min_interval_ms
        <= MAX_NEW_SESSION_MIN_INTERVAL_MS) {
        Some(ConfigError::NewSessionInterval)
    } else if c.max_transport_peers == 0 || c.max_transport_peers > MAX_TRANSPORT_PEERS {
        Some(ConfigError::TransportPeers)
    } else if c.max_transport_peers_per_ip == 0 || c.max_transport_peers_per_ip
        > c.max_transport_peers {
        Some(ConfigError::TransportPeersPerIp)
    } else if c.max_player_rows == 0 || c.max_player_rows > MAX_PLAYER_ROWS {
        Some(ConfigError::PlayerRows)
    } else if c.trade_min_interval_ms > MAX_TRADE_MIN_INTERVAL_MS {
        Some(ConfigError::MessageInterval(IntervalKnob::Trade))
    } else if c.client_state_min_interval_ms > MAX_TRADE_MIN_INTERVAL_MS {
        Some(ConfigError::MessageInterval(IntervalKnob::ClientState))
    } else if c.chat_min_interval_ms > MAX_TRADE_MIN_INTERVAL_MS {
        Some(ConfigError::MessageInterval(IntervalKnob::Chat))
    } else if c.econ_min_interval_ms > MAX_TRADE_MIN_INTERVAL_MS {
        Some(ConfigError::MessageInterval(IntervalKnob::Econ))
    } else if c.moor_min_interval_ms > MAX_TRADE_MIN_INTERVAL_MS {
        Some(ConfigError::MessageInterval(IntervalKnob::Moor))
    } else if c.max_wire_string_len == 0 || c.max_wire_string_len > MAX_WIRE_STRING_LEN {
        Some(ConfigError::WireStringLen)
    } else {
        None
    }
}

/// `v` clamped into `[lo, hi]` (for `lo <= hi`).
pub open spec fn clamp_u32(v: u32, lo: u32, hi: u32) -> u32 {
    if v < lo {
        lo
    } else if v > hi {
        hi
    } else {
        v
    }
}

fn clamp(v: u32, lo: u32, hi: u32) -> (r: u32)
    requires
        lo <= hi,
    ensures
        r == clamp_u32(v, lo, hi),
{
    if v < lo {
        lo
    } else if v > hi {
        hi
    } else {
        v
    }
}

fn min_u32(v: u32, hi: u32) -> (r: u32)
    ensures
        r == (if v > hi {
            hi
        } else {
            v
        }),
{
    if v > hi {
        hi
    } else {
        v
    }
}

impl Config {
    /// Check every knob's range; `cell_size_ok` is the outcome of the caller's
    /// range check on the grid cell size. Returns the first failing knob.
    pub fn validate(&self, cell_size_ok: bool) -> (r: Result<(), ConfigError>)
        ensures
            match config_error(*self, cell_size_ok) {
                Some(e) => r == Err::<(), ConfigError>(e),
                None => r is Ok,
            },
    {
        if self.tick_hz == 0 {
            return Err(ConfigError::TickHz);
        }
        if self.snapshot_hz == 0 || self.snapshot_hz > self.tick_hz {
            return Err(ConfigError::SnapshotHz);
        }
        if self.aoi_radius_cells == 0 || self.aoi_radius_cells > MAX_AOI_RADIUS_CELLS {
            return Err(ConfigError::AoiRadius);
        }
        if !cell_size_ok {
            return Err(ConfigError::CellSize);
        }
        if !(MIN_HELLO_MIN_INTERVAL_MS <= self.hello_min_interval_ms
            && self.hello_min_interval_ms <= MAX_HELLO_MIN_INTERVAL_MS) {
            return Err(ConfigError::HelloInterval);
        }
        if !(MIN_HELLO_MIN_INTERVAL_MS <= self.new_session_min_interval_ms
            && self.new_session_min_interval_ms <= MAX_NEW_SESSION_MIN_INTERVAL_MS) {
            return Err(ConfigError::NewSessionInterval);
        }
        if self.max_transport_peers == 0 || self.max_transport_peers > MAX_TRANSPORT_PEERS {
            return Err(ConfigError::TransportPeers);
        }
        if self.max_transport_peers_per_ip == 0 || self.max_transport_peers_per_ip
            > self.max_transport_peers {
            return Err(ConfigError::TransportPeersPerIp);
        }
        if self.max_player_rows == 0 || self.max_player_rows > MAX_PLAYER_ROWS {
            return Err(ConfigError::PlayerRows);
        }
        if self.trade_min_interval_ms > MAX_TRADE_MIN_INTERVAL_MS {
            return Err(ConfigError::MessageInterval(IntervalKnob::Trade));
        }
        if self.client_state_min_interval_ms > MAX_TRADE_MIN_INTERVAL_MS {
            return Err(ConfigError::MessageInterval(IntervalKnob::ClientState));
        }
        if self.chat_min_interval_ms > MAX_TRADE_MIN_INTERVAL_MS {
            return Err(ConfigError::MessageInterval(IntervalKnob::Chat));
        }
        if self.econ_min_interval_ms > MAX_TRADE_MIN_INTERVAL_MS {
            return Err(ConfigError::MessageInterval(IntervalKnob::Econ));
        }
        if self.moor_min_interval_ms > MAX_TRADE_MIN_INTERVAL_MS {
            return Err(ConfigError::MessageInterval(IntervalKnob::Moor));
        }
        if self.max_wire_string_len == 0 || self.max_wire_string_len > MAX_WIRE_STRING_LEN {
            return Err(ConfigError::WireStringLen);
        }
        Ok(())
    }

    /// AoI radius as a bounded `i32`, saturating at [`MAX_AOI_RADIUS_CELLS`].
    pub fn aoi_radius_i32(&self) -> (r: i32)
        ensures
            r == (if self.aoi_radius_cells > MAX_AOI_RADIUS_CELLS {
                MAX_AOI_RADIUS_CELLS
            } else {
                self.aoi_radius_cells
            }),
            0 <= r <= MAX_AOI_RADIUS_CELLS,
    {
        min_u32(self.aoi_radius_cells, MAX_AOI_RADIUS_CELLS) as i32
    }

    /// Trade min-interval in ms, saturating at [`MAX_TRADE_MIN_INTERVAL_MS`].
    pub fn trade_min_interval_ms_i64(&self) -> (r: i64)
        ensures
            r == (if self.trade_min_interval_ms > MAX_TRADE_MIN_INTERVAL_MS {
                MAX_TRADE_MIN_INTERVAL_MS
            } else {
                self.trade_min_interval_ms
            }),
    {
        min_u32(self.trade_min_interval_ms, MAX_TRADE_MIN_INTERVAL_MS) as i64
    }

    /// Hello min-interval in ms, clamped into the hello-specific range.
    pub fn hello_min_interval_ms_i64(&self) -> (r: i64)
        ensures
            r == clamp_u32(
                self.hello_min_interval_ms,
                MIN_HELLO_MIN_INTERVAL_MS,
                MAX_HELLO_MIN_INTERVAL_MS,
            ),
    {
        clamp(self.hello_min_interval_ms, MIN_HELLO_MIN_INTERVAL_MS, MAX_HELLO_MIN_INTERVAL_MS) as i64
    }

    /// Process-wide new-session admission interval in ms, clamped.
    pub fn new_session_min_interval_ms_i64(&self) -> (r: i64)
        ensures
            r == clamp_u32(
                self.new_session_min_interval_ms,
                MIN_HELLO_MIN_INTERVAL_MS,
                MAX_NEW_SESSION_MIN_INTERVAL_MS,
            ),
    {
        clamp(
            self.new_session_min_interval_ms,
            MIN_HELLO_MIN_INTERVAL_MS,
            MAX_NEW_SESSION_MIN_INTERVAL_MS,
        ) as i64
    }

    /// Per-source session-admission interval in ms: the hello interval, or one
    /// more than the global new-session interval when that is longer. It is
    /// always strictly longer than the global new-session interval.
    pub fn source_session_min_interval_ms_i64(&self) -> (r: i64)
        ensures
            ({
                let hello = clamp_u32(
                    self.hello_min_interval_ms,
                    MIN_HELLO_MIN_INTERVAL_MS,
                    MAX_HELLO_MIN_INTERVAL_MS,
                ) as int;
                let global = clamp_u32(
                    self.new_session_min_interval_ms,
                    MIN_HELLO_MIN_INTERVAL_MS,
                    MAX_NEW_SESSION_MIN_INTERVAL_MS,
                ) as int;
                r == (if hello >= global + 1 {
                    hello
                } else {
                    global + 1
                })
            }),
            r > clamp_u32(
                self.new_session_min_interval_ms,
                MIN_HELLO_MIN_INTERVAL_MS,
                MAX_NEW_SESSION_MIN_INTERVAL_MS,
            ),
    {
        let hello = self.hello_min_interval_ms_i64();
        let global = self.new_session_min_interval_ms_i64() + 1;
        if hello >= global {
            hello
        } else {
            global
        }
    }

    /// Global live-peer ceiling, clamped into `1..=MAX_TRANSPORT_PEERS`.
    pub fn max_transport_peers_usize(&self) -> (r: usize)
        ensures
            r == clamp_u32(self.max_transport_peers, 1, MAX_TRANSPORT_PEERS),
    {
        clamp(self.max_transport_peers, 1, MAX_TRANSPORT_PEERS) as usize
    }

    /// Per-source-IP live-peer ceiling, clamped into `1..=` the global ceiling.
    pub fn max_transport_peers_per_ip_usize(&self) -> (r: usize)
        ensures
            r == clamp_u32(
                self.max_transport_peers_per_ip,
                1,
                clamp_u32(self.max_transport_peers, 1, MAX_TRANSPORT_PEERS),
            ),
    {
        let global = clamp(self.max_transport_peers, 1, MAX_TRANSPORT_PEERS);
        clamp(self.max_transport_peers_per_ip, 1, global) as usize
    }

    /// Persistent player-row ceiling, clamped into `1..=MAX_PLAYER_ROWS`.
    pub fn max_player_rows_u32(&self) -> (r: u32)
        ensures
            r == clamp_u32(self.max_player_rows, 1, MAX_PLAYER_ROWS),
    {
        clamp(self.max_player_rows, 1, MAX_PLAYER_ROWS)
    }

    /// Client-state min-interval in ms, saturating at the message bound.
    pub fn client_state_min_interval_ms_i64(&self) -> (r: i64)
        ensures
            r == (if self.client_state_min_interval_ms > MAX_TRADE_MIN_INTERVAL_MS {
                MAX_TRADE_MIN_INTERVAL_MS
            } else {
                self.client_state_min_interval_ms
            }),
    {
        min_u32(self.client_state_min_interval_ms, MAX_TRADE_MIN_INTERVAL_MS) as i64
    }

    /// Chat min-interval in ms, saturating at the message bound.
    pub fn chat_min_interval_ms_i64(&self) -> (r: i64)
        ensures
            r == (if self.chat_min_interval_ms > MAX_TRADE_MIN_INTERVAL_MS {
                MAX_TRADE_MIN_INTERVAL_MS
            } else {
                self.chat_min_interval_ms
            }),
    {
        min_u32(self.chat_min_interval_ms, MAX_TRADE_MIN_INTERVAL_MS) as i64
    }

    /// Econ min-interval in ms, saturating at the message bound.
    pub fn econ_min_interval_ms_i64(&self) -> (r: i64)
        ensures
            r == (if self.econ_min_interval_ms > MAX_TRADE_MIN_INTERVAL_MS {
                MAX_TRADE_MIN_INTERVAL_MS
            } else {
                self.econ_min_interval_ms
            }),
    {
        min_u32(self.econ_min_interval_ms, MAX_TRADE_MIN_INTERVAL_MS) as i64
    }

    /// Moor min-interval in ms, saturating at the message bound.
    pub fn moor_min_interval_ms_i64(&self) -> (r: i64)
        ensures
            r == (if self.moor_min_interval_ms > MAX_TRADE_MIN_INTERVAL_MS {
                MAX_TRADE_MIN_INTERVAL_MS
            } else {
                self.moor_min_interval_ms
            }),
    {
        min_u32(self.moor_min_interval_ms, MAX_TRADE_MIN_INTERVAL_MS) as i64
    }

    /// Wire-string length cap in bytes, saturating at [`MAX_WIRE_STRING_LEN`].
    pub fn max_wire_string_len_usize(&self) -> (r: usize)
        ensures
            r == (if self.max_wire_string_len > MAX_WIRE_STRING_LEN {
                MAX_WIRE_STRING_LEN
            } else {
                self.max_wire_string_len
            }),
    {
        min_u32(self.max_wire_string_len, MAX_WIRE_STRING_LEN) as usize
    }

    /// Number of ticks between snapshot broadcasts (at least 1).
    pub fn ticks_per_snapshot(&self) -> (r: u64)
        requires
            self.snapshot_hz != 0,
        ensures
            r == (if self.tick_hz / self.snapshot_hz == 0 {
                1
            } else {
                self.tick_hz / self.snapshot_hz
            }),
    {
        let q = self.tick_hz / self.snapshot_hz;
        if q == 0 {
            1
        } else {
            q as u64
        }
    }

    /// Number of ticks between world-clock broadcasts: `tick_hz *
    /// clock_broadcast_secs`, saturating at `u32::MAX`, and at least 1.
    pub fn ticks_per_clock_broadcast(&self) -> (r: u64)
        ensures
            ({
                let p = self.tick_hz * self.clock_broadcast_secs;
                let s = if p > u32::MAX {
                    u32::MAX as int
                } else {
                    p
                };
                r == (if s == 0 {
                    1
                } else {
                    s
                })
            }),
    {
        let a = self.tick_hz as u64;
        let b = self.clock_broadcast_secs as u64;
        assert(a * b <= u32::MAX as int * u32::MAX as int) by (nonlinear_arith)
            requires
                a <= u32::MAX,
                b <= u32::MAX,
        ;
        let p: u64 = a * b;
        let s: u64 = if p > u32::MAX as u64 {
            u32::MAX as u64
        } else {
            p
        };
        if s == 0 {
            1
        } else {
            s
        }
    }
}

/// On a configuration that validates, every saturating accessor returns the
/// configured value unchanged.
pub proof fn lemma_valid_config_accessors_are_exact(c: Config, cell_size_ok: bool)
    requires
        config_error(c, cell_size_ok) is None,
    ensures
        c.aoi_radius_cells <= MAX_AOI_RADIUS_CELLS,
        c.trade_min_interval_ms <= MAX_TRADE_MIN_INTERVAL_MS,
        c.client_state_min_interval_ms <= MAX_TRADE_MIN_INTERVAL_MS,
        c.chat_min_interval_ms <= MAX_TRADE_MIN_INTERVAL_MS,
        c.econ_min_interval_ms <= MAX_TRADE_MIN_INTERVAL_MS,
        c.moor_min_interval_ms <= MAX_TRADE_MIN_INTERVAL_MS,
        c.max_wire_string_len <= MAX_WIRE_STRING_LEN,
        clamp_u32(c.hello_min_interval_ms, MIN_HELLO_MIN_INTERVAL_MS, MAX_HELLO_MIN_INTERVAL_MS)
            == c.hello_min_interval_ms,
        clamp_u32(
            c.new_session_min_interval_ms,
            MIN_HELLO_MIN_INTERVAL_MS,
            MAX_NEW_SESSION_MIN_INTERVAL_MS,
        ) == c.new_session_min_interval_ms,
        clamp_u32(c.max_transport_peers, 1, MAX_TRANSPORT_PEERS) == c.max_transport_peers,
        clamp_u32(c.max_transport_peers_per_ip, 1, c.max_transport_peers)
            == c.max_transport_peers_per_ip,
        clamp_u32(c.max_player_rows, 1, MAX_PLAYER_ROWS) == c.max_player_rows,
        c.snapshot_hz != 0,
{
}

/// The per-source admission window is strictly longer than the global
/// new-session window for every configuration, so one source can never take
/// two consecutive global admission slots.
pub proof fn lemma_source_window_exceeds_global_window(hello_ms: u32, new_session_ms: u32)
    ensures
        ({
            let hello = clamp_u32(hello_ms, MIN_HELLO_MIN_INTERVAL_MS, MAX_HELLO_MIN_INTERVAL_MS)
                as int;
            let global = clamp_u32(
                new_session_ms,
                MIN_HELLO_MIN_INTERVAL_MS,
                MAX_NEW_SESSION_MIN_INTERVAL_MS,
            ) as int;
            (if hello >= global + 1 {
                hello
            } else {
                global + 1
            }) > global
        }),
{
}

/// Take the value that follows the flag at `args[*i]`, advancing `*i` to it;
/// the error names the flag when no value follows.
pub fn expect_value(args: &[String], i: &mut usize, flag: &str) -> (r: Result<String, String>)
    requires
        *old(i) < usize::MAX,
    ensures
        *final(i) == *old(i) + 1,
        *final(i) < args@.len() ==> (r matches Ok(v) && v@ == args@[*final(i) as int]@),
        *final(i) >= args@.len() ==> (r matches Err(m) && m@ == flag@ + " requires a value"@),
{
    *i += 1;
    if *i < args.len() {
        Ok(args[*i].clone())
    } else {
        let mut m = String::from_str(flag);
        m.append(" requires a value");
        Err(m)
    }
}


/// What the command line asked for: `--config <file>`, `--bind <addr>` and
/// `--db <path>`, each optional; a repeated flag keeps its last value.
#[derive(Debug, Clone)]
pub struct CliArgs {
    pub config_path: Option<String>,
    pub bind: Option<String>,
    pub db: Option<String>,
}

/// The view of an optional string.
pub open spec fn opt_view(o: Option<String>) -> Option<Seq<char>> {
    match o {
        Some(s) => Some(s@),
        None => None,
    }
}

/// The flags read from `args[i..]`, given those read before: the three
/// flags each take the next argument as their value, and anything else is
/// refused. The error text is `<flag> requires a value` or
/// `unknown argument: <arg>`.
pub open spec fn parse_args_from(
    args: Seq<Seq<char>>,
    i: int,
    config: Option<Seq<char>>,
    bind: Option<Seq<char>>,
    db: Option<Seq<char>>,
) -> Result<(Option<Seq<char>>, Option<Seq<char>>, Option<Seq<char>>), Seq<char>>
    decreases args.len() - i,
{
    if i < 0 || i >= args.len() {
        Ok((config, bind, db))
    } else {
        let a = args[i];
        if a == "--config"@ || a == "--bind"@ || a == "--db"@ {
            if i + 1 < args.len() {
                let v = Some(args[i + 1]);
                parse_args_from(
                    args,
                    i + 2,
                    if a == "--config"@ {
                        v
                    } else {
                        config
                    },
                    if a == "--bind"@ {
                        v
                    } else {
                        bind
                    },
                    if a == "--db"@ {
                        v
                    } else {
                        db
                    },
                )
            } else {
                Err(a + " requires a value"@)
            }
        } else {
            Err("unknown argument: "@ + a)
        }
    }
}

/// The views of a list of arguments.
pub open spec fn arg_views(args: Seq<String>) -> Seq<Seq<char>> {
    args.map_values(|s: String| s@)
}

/// Read the process arguments (without the program name).
pub fn parse_args(args: &[String]) -> (r: Result<CliArgs, String>)
    ensures
        match r {
            Ok(c) => parse_args_from(arg_views(args@), 0, None, None, None) == Ok::<
                (Option<Seq<char>>, Option<Seq<char>>, Option<Seq<char>>),
                Seq<char>,
            >((opt_view(c.config_path), opt_view(c.bind), opt_view(c.db))),
            Err(m) => parse_args_from(arg_views(args@), 0, None, None, None) == Err::<
                (Option<Seq<char>>, Option<Seq<char>>, Option<Seq<char>>),
                Seq<char>,
            >(m@),
        },
{
    let config_flag = String::from_str("--config");
    let bind_flag = String::from_str("--bind");
    let db_flag = String::from_str("--db");
    let mut config_path: Option<String> = None;
    let mut bind: Option<String> = None;
    let mut db: Option<String> = None;
    let ghost views = arg_views(args@);
    proof {
        reveal_strlit("--config");
        reveal_strlit("--bind");
        reveal_strlit("--db");
        assert("--config"@.len() == 8 && "--bind"@.len() == 6 && "--db"@.len() == 4);
        assert("--config"@ != "--bind"@ && "--config"@ != "--db"@ && "--bind"@ != "--db"@);
    }
    let mut i: usize = 0;
    while i < args.len()
        invariant
            views == arg_views(args@),
            config_flag@ == "--config"@,
            bind_flag@ == "--bind"@,
            db_flag@ == "--db"@,
            "--config"@ != "--bind"@ && "--config"@ != "--db"@ && "--bind"@ != "--db"@,
            i <= args@.len(),
            parse_args_from(views, 0, None, None, None) == parse_args_from(
                views,
                i as int,
                opt_view(config_path),
                opt_view(bind),
                opt_view(db),
            ),
        decreases args@.len() - i,
    {
        let a = &args[i];
        proof {
            assert(views[i as int] == a@);
        }
        if *a == config_flag || *a == bind_flag || *a == db_flag {
            let is_config = *a == config_flag;
            let is_bind = *a == bind_flag;
            let flag = a.as_str();
            let v = match expect_value(args, &mut i, flag) {
                Ok(v) => v,
                Err(m) => return Err(m),
            };
            proof {
                assert(views[i as int] == v@);
            }
            if is_config {
                config_path = Some(v);
            } else if is_bind {
                bind = Some(v);
            } else {
                db = Some(v);
            }
        } else {
            let mut m = String::from_str("unknown argument: ");
            m.append(a.as_str());
            return Err(m);
        }
        i = i + 1;
    }
    Ok(CliArgs { config_path, bind, db })
}

/// The highest-precedence value present: `hi`, else `mid`, else `lo`.
pub open spec fn pick(hi: Option<String>, mid: Option<String>, lo: String) -> String {
    match hi {
        Some(v) => v,
        None => match mid {
            Some(v) => v,
            None => lo,
        },
    }
}

impl Config {
    /// Apply the `SWO_BIND` / `SWO_DB` environment values and then the
    /// `--bind` / `--db` flags over the current bind address and database
    /// path (defaults or file); every other knob is left as it is.
    pub fn apply_overrides(
        &mut self,
        env_bind: Option<String>,
        env_db: Option<String>,
        cli_bind: Option<String>,
        cli_db: Option<String>,
    )
        ensures
            *final(self) == (Config {
                bind: pick(cli_bind, env_bind, old(self).bind),
                db_path: pick(cli_db, env_db, old(self).db_path),
                ..*old(self)
            }),
    {
        if let Some(b) = env_bind {
            if cli_bind.is_none() {
                self.bind = b;
            }
        }
        if let Some(d) = env_db {
            if cli_db.is_none() {
                self.db_path = d;
            }
        }
        if let Some(b) = cli_bind {
            self.bind = b;
        }
        if let Some(d) = cli_db {
            self.db_path = d;
        }
    }
}

} // verus!
