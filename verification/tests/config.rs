use sailwind_online::config::{
    expect_value, parse_args, Config, ConfigError, IntervalKnob,
    MAX_AOI_RADIUS_CELLS, MAX_HELLO_MIN_INTERVAL_MS, MAX_NEW_SESSION_MIN_INTERVAL_MS,
    MAX_PLAYER_ROWS, MAX_TRADE_MIN_INTERVAL_MS, MAX_TRANSPORT_PEERS, MAX_WIRE_STRING_LEN,
    MIN_HELLO_MIN_INTERVAL_MS,
};
use sailwind_online::net::host::{DEFAULT_MAX_PEERS, DEFAULT_MAX_PEERS_PER_IP};

#[test]
fn defaults_are_valid() {
    let cfg = Config::default();
    cfg.validate(true).unwrap();
    assert_eq!(cfg.bind, "0.0.0.0:38455");
    assert_eq!(cfg.ticks_per_snapshot(), 30 / 4);
}

#[test]
fn clock_broadcast_cadence() {
    let cfg = Config::default();
    assert_eq!(cfg.clock_broadcast_secs, 10);
    assert_eq!(cfg.ticks_per_clock_broadcast(), 30 * 10);

    let fast = Config {
        tick_hz: 20,
        clock_broadcast_secs: 3,
        ..Config::default()
    };
    assert_eq!(fast.ticks_per_clock_broadcast(), 60);
}

#[test]
fn ticks_per_clock_broadcast_saturates_and_never_overflows() {
    let cfg = Config {
        tick_hz: u32::MAX,
        clock_broadcast_secs: u32::MAX,
        ..Config::default()
    };
    assert_eq!(cfg.ticks_per_clock_broadcast(), u32::MAX as u64);
    let zero = Config {
        clock_broadcast_secs: 0,
        ..Config::default()
    };
    assert_eq!(zero.ticks_per_clock_broadcast(), 1);
}

#[test]
fn rejects_bad_snapshot_rate() {
    let zero = Config {
        snapshot_hz: 0,
        ..Config::default()
    };
    assert_eq!(zero.validate(true), Err(ConfigError::SnapshotHz));
    let too_fast = Config {
        snapshot_hz: 31,
        ..Config::default()
    };
    assert_eq!(too_fast.validate(true), Err(ConfigError::SnapshotHz));
    let no_ticks = Config {
        tick_hz: 0,
        ..Config::default()
    };
    assert_eq!(no_ticks.validate(true), Err(ConfigError::TickHz));
}

#[test]
fn aoi_defaults_are_valid() {
    let cfg = Config::default();
    cfg.validate(true).unwrap();
    assert_eq!(cfg.aoi_radius_cells, 2);
    assert_eq!(cfg.aoi_radius_i32(), 2);
}

#[test]
fn rejects_out_of_range_aoi_radius() {
    let zero = Config {
        aoi_radius_cells: 0,
        ..Config::default()
    };
    assert!(zero.validate(true).is_err(), "radius 0 sees no neighbours");
    let huge = Config {
        aoi_radius_cells: MAX_AOI_RADIUS_CELLS + 1,
        ..Config::default()
    };
    assert!(huge.validate(true).is_err(), "radius past the bound is rejected");
}

#[test]
fn aoi_radius_i32_saturates_and_never_overflows() {
    let cfg = Config {
        aoi_radius_cells: u32::MAX,
        ..Config::default()
    };
    let r = cfg.aoi_radius_i32();
    assert_eq!(r, MAX_AOI_RADIUS_CELLS as i32);
    let side = 2i32
        .checked_mul(r)
        .and_then(|v| v.checked_add(1))
        .expect("2r+1 must not overflow i32");
    assert!(side.checked_mul(side).is_some(), "block area stays finite");
}

#[test]
fn trade_rate_limit_default_is_valid_and_bounded() {
    let cfg = Config::default();
    cfg.validate(true).unwrap();
    assert!(cfg.trade_min_interval_ms > 0);
    assert!(cfg.trade_min_interval_ms <= MAX_TRADE_MIN_INTERVAL_MS);
    assert_eq!(
        cfg.trade_min_interval_ms_i64(),
        cfg.trade_min_interval_ms as i64
    );
}

#[test]
fn rejects_out_of_range_trade_interval() {
    let huge = Config {
        trade_min_interval_ms: MAX_TRADE_MIN_INTERVAL_MS + 1,
        ..Config::default()
    };
    assert!(
        huge.validate(true).is_err(),
        "an interval past the bound is rejected"
    );
}

#[test]
fn trade_interval_accessor_saturates_at_the_bound() {
    let cfg = Config {
        trade_min_interval_ms: u32::MAX,
        ..Config::default()
    };
    assert_eq!(
        cfg.trade_min_interval_ms_i64(),
        MAX_TRADE_MIN_INTERVAL_MS as i64
    );
}

#[test]
fn hello_interval_enforces_security_and_client_retry_liveness() {
    for value in [0, MAX_HELLO_MIN_INTERVAL_MS + 1, 3_600_000] {
        let cfg = Config {
            hello_min_interval_ms: value,
            ..Config::default()
        };
        assert!(
            cfg.validate(true).is_err(),
            "hello interval {value} must be rejected"
        );
    }

    let disabled = Config {
        hello_min_interval_ms: 0,
        ..Config::default()
    };
    assert_eq!(
        disabled.hello_min_interval_ms_i64(),
        i64::from(MIN_HELLO_MIN_INTERVAL_MS)
    );

    let boundary = Config {
        hello_min_interval_ms: MAX_HELLO_MIN_INTERVAL_MS,
        ..Config::default()
    };
    boundary.validate(true).unwrap();
    assert_eq!(
        boundary.hello_min_interval_ms_i64(),
        i64::from(MAX_HELLO_MIN_INTERVAL_MS)
    );
}

#[test]
fn message_rate_limit_defaults_are_valid_and_bounded() {
    let cfg = Config::default();
    cfg.validate(true).unwrap();
    assert_eq!(cfg.hello_min_interval_ms, 250);
    assert!(cfg.hello_min_interval_ms <= MAX_HELLO_MIN_INTERVAL_MS);
    assert!(cfg.client_state_min_interval_ms <= MAX_TRADE_MIN_INTERVAL_MS);
    assert!(cfg.chat_min_interval_ms <= MAX_TRADE_MIN_INTERVAL_MS);
    assert!(cfg.econ_min_interval_ms <= MAX_TRADE_MIN_INTERVAL_MS);
    assert!(cfg.moor_min_interval_ms <= MAX_TRADE_MIN_INTERVAL_MS);
    let snapshot_period_ms = 1000 / cfg.snapshot_hz;
    assert!(cfg.client_state_min_interval_ms < snapshot_period_ms);
    assert_eq!(
        cfg.hello_min_interval_ms_i64(),
        cfg.hello_min_interval_ms as i64
    );
    assert_eq!(
        cfg.client_state_min_interval_ms_i64(),
        cfg.client_state_min_interval_ms as i64
    );
    assert_eq!(
        cfg.chat_min_interval_ms_i64(),
        cfg.chat_min_interval_ms as i64
    );
    assert_eq!(
        cfg.econ_min_interval_ms_i64(),
        cfg.econ_min_interval_ms as i64
    );
    assert_eq!(
        cfg.moor_min_interval_ms_i64(),
        cfg.moor_min_interval_ms as i64
    );
}

#[test]
fn rejects_out_of_range_message_intervals() {
    for mutate in [
        |c: &mut Config| c.client_state_min_interval_ms = MAX_TRADE_MIN_INTERVAL_MS + 1,
        |c: &mut Config| c.chat_min_interval_ms = MAX_TRADE_MIN_INTERVAL_MS + 1,
        |c: &mut Config| c.econ_min_interval_ms = MAX_TRADE_MIN_INTERVAL_MS + 1,
        |c: &mut Config| c.moor_min_interval_ms = MAX_TRADE_MIN_INTERVAL_MS + 1,
    ] {
        let mut cfg = Config::default();
        mutate(&mut cfg);
        assert!(
            cfg.validate(true).is_err(),
            "an interval past the bound must be rejected"
        );
    }
}

#[test]
fn message_interval_accessors_saturate_at_the_bound() {
    let cfg = Config {
        hello_min_interval_ms: u32::MAX,
        client_state_min_interval_ms: u32::MAX,
        chat_min_interval_ms: u32::MAX,
        econ_min_interval_ms: u32::MAX,
        moor_min_interval_ms: u32::MAX,
        ..Config::default()
    };
    assert_eq!(
        cfg.hello_min_interval_ms_i64(),
        MAX_HELLO_MIN_INTERVAL_MS as i64
    );
    assert_eq!(
        cfg.client_state_min_interval_ms_i64(),
        MAX_TRADE_MIN_INTERVAL_MS as i64
    );
    assert_eq!(
        cfg.chat_min_interval_ms_i64(),
        MAX_TRADE_MIN_INTERVAL_MS as i64
    );
    assert_eq!(
        cfg.econ_min_interval_ms_i64(),
        MAX_TRADE_MIN_INTERVAL_MS as i64
    );
    assert_eq!(
        cfg.moor_min_interval_ms_i64(),
        MAX_TRADE_MIN_INTERVAL_MS as i64
    );
}

#[test]
fn wire_string_len_default_is_valid_and_accessor_saturates() {
    let cfg = Config::default();
    cfg.validate(true).unwrap();
    assert!(cfg.max_wire_string_len > 0);
    assert!(cfg.max_wire_string_len <= MAX_WIRE_STRING_LEN);
    assert_eq!(
        cfg.max_wire_string_len_usize(),
        cfg.max_wire_string_len as usize
    );
    let huge = Config {
        max_wire_string_len: u32::MAX,
        ..Config::default()
    };
    assert_eq!(
        huge.max_wire_string_len_usize(),
        MAX_WIRE_STRING_LEN as usize
    );
}

#[test]
fn rejects_out_of_range_wire_string_len() {
    let zero = Config {
        max_wire_string_len: 0,
        ..Config::default()
    };
    assert!(zero.validate(true).is_err(), "a zero-length cap is rejected");
    let huge = Config {
        max_wire_string_len: MAX_WIRE_STRING_LEN + 1,
        ..Config::default()
    };
    assert!(huge.validate(true).is_err(), "a cap past the bound is rejected");
}

#[test]
fn new_session_budget_defaults_and_bounds_are_safe() {
    let cfg = Config::default();
    cfg.validate(true).unwrap();
    assert_eq!(cfg.new_session_min_interval_ms, 30);
    assert_eq!(cfg.max_transport_peers, DEFAULT_MAX_PEERS as u32);
    assert_eq!(
        cfg.max_transport_peers_per_ip,
        DEFAULT_MAX_PEERS_PER_IP as u32
    );
    assert_eq!(cfg.max_player_rows, 10_000);
    assert_eq!(
        cfg.new_session_min_interval_ms_i64(),
        i64::from(cfg.new_session_min_interval_ms)
    );
    assert_eq!(cfg.max_player_rows_u32(), cfg.max_player_rows);

    for value in [0, MAX_NEW_SESSION_MIN_INTERVAL_MS + 1, u32::MAX] {
        let invalid = Config {
            new_session_min_interval_ms: value,
            ..Config::default()
        };
        assert!(
            invalid.validate(true).is_err(),
            "new-session interval {value} must be rejected"
        );
    }
    for value in [0, MAX_PLAYER_ROWS + 1, u32::MAX] {
        let invalid = Config {
            max_player_rows: value,
            ..Config::default()
        };
        assert!(
            invalid.validate(true).is_err(),
            "player-row capacity {value} must be rejected"
        );
    }
    for value in [0, MAX_TRANSPORT_PEERS + 1, u32::MAX] {
        let invalid = Config {
            max_transport_peers: value,
            ..Config::default()
        };
        assert!(
            invalid.validate(true).is_err(),
            "transport-peer capacity {value} must be rejected"
        );
    }
    for value in [0, Config::default().max_transport_peers + 1, u32::MAX] {
        let invalid = Config {
            max_transport_peers_per_ip: value,
            ..Config::default()
        };
        assert!(
            invalid.validate(true).is_err(),
            "per-IP transport-peer capacity {value} must be rejected"
        );
    }
}

#[test]
fn source_admission_window_is_strictly_longer_than_every_global_window() {
    for hello_ms in MIN_HELLO_MIN_INTERVAL_MS..=MAX_HELLO_MIN_INTERVAL_MS {
        for new_session_ms in MIN_HELLO_MIN_INTERVAL_MS..=MAX_NEW_SESSION_MIN_INTERVAL_MS {
            let cfg = Config {
                hello_min_interval_ms: hello_ms,
                new_session_min_interval_ms: new_session_ms,
                ..Config::default()
            };
            cfg.validate(true).unwrap();
            assert!(
                cfg.source_session_min_interval_ms_i64()
                    > cfg.new_session_min_interval_ms_i64(),
                "one source must never be eligible for two consecutive global slots"
            );
        }
    }
}

#[test]
fn new_session_budget_accessors_clamp_bypassed_validation() {
    let invalid = Config {
        new_session_min_interval_ms: u32::MAX,
        max_transport_peers: u32::MAX,
        max_transport_peers_per_ip: u32::MAX,
        max_player_rows: u32::MAX,
        ..Config::default()
    };
    assert_eq!(
        invalid.new_session_min_interval_ms_i64(),
        i64::from(MAX_NEW_SESSION_MIN_INTERVAL_MS)
    );
    assert_eq!(invalid.max_player_rows_u32(), MAX_PLAYER_ROWS);
    assert_eq!(
        invalid.max_transport_peers_usize(),
        MAX_TRANSPORT_PEERS as usize
    );
    assert_eq!(
        invalid.max_transport_peers_per_ip_usize(),
        MAX_TRANSPORT_PEERS as usize
    );
}

#[test]
fn validation_reports_the_first_failing_knob_in_order() {
    let cfg = Config {
        aoi_radius_cells: 0,
        hello_min_interval_ms: 0,
        ..Config::default()
    };
    assert_eq!(cfg.validate(true), Err(ConfigError::AoiRadius));
    let cfg = Config {
        hello_min_interval_ms: 0,
        ..Config::default()
    };
    assert_eq!(cfg.validate(false), Err(ConfigError::CellSize));
    assert_eq!(cfg.validate(true), Err(ConfigError::HelloInterval));
    let cfg = Config {
        moor_min_interval_ms: MAX_TRADE_MIN_INTERVAL_MS + 1,
        max_wire_string_len: 0,
        ..Config::default()
    };
    assert_eq!(
        cfg.validate(true),
        Err(ConfigError::MessageInterval(IntervalKnob::Moor))
    );
    let cfg = Config {
        max_transport_peers: 8,
        max_transport_peers_per_ip: 9,
        ..Config::default()
    };
    assert_eq!(cfg.validate(true), Err(ConfigError::TransportPeersPerIp));
    assert_eq!(cfg.max_transport_peers_per_ip_usize(), 8);
}

#[test]
fn source_window_uses_hello_interval_when_it_is_longer() {
    let cfg = Config {
        hello_min_interval_ms: 250,
        new_session_min_interval_ms: 30,
        ..Config::default()
    };
    assert_eq!(cfg.source_session_min_interval_ms_i64(), 250);
    let cfg = Config {
        hello_min_interval_ms: 100,
        new_session_min_interval_ms: 1000,
        ..Config::default()
    };
    assert_eq!(cfg.source_session_min_interval_ms_i64(), 1001);
}

#[test]
fn snapshot_cadence_is_at_least_one_tick() {
    let cfg = Config {
        tick_hz: 3,
        snapshot_hz: 4,
        ..Config::default()
    };
    assert_eq!(cfg.ticks_per_snapshot(), 1);
    let cfg = Config {
        tick_hz: 20,
        snapshot_hz: 5,
        ..Config::default()
    };
    assert_eq!(cfg.ticks_per_snapshot(), 4);
}

#[test]
fn expect_value_takes_the_next_argument_or_names_the_flag() {
    let args = vec!["--config".to_string(), "server.toml".to_string(), "--db".to_string()];
    let mut i = 0;
    assert_eq!(expect_value(&args, &mut i, "--config"), Ok("server.toml".to_string()));
    assert_eq!(i, 1);
    let mut j = 2;
    assert_eq!(
        expect_value(&args, &mut j, "--db"),
        Err("--db requires a value".to_string())
    );
    assert_eq!(j, 3);
}

fn strings(items: &[&str]) -> Vec<String> {
    items.iter().map(|s| s.to_string()).collect()
}

#[test]
fn arguments_name_a_file_an_address_and_a_database() {
    let cli = parse_args(&strings(&["--bind", "127.0.0.1:9", "--db", "x.db", "--config", "a.toml"]))
        .unwrap();
    assert_eq!(cli.bind.as_deref(), Some("127.0.0.1:9"));
    assert_eq!(cli.db.as_deref(), Some("x.db"));
    assert_eq!(cli.config_path.as_deref(), Some("a.toml"));

    let cli = parse_args(&strings(&[])).unwrap();
    assert!(cli.bind.is_none() && cli.db.is_none() && cli.config_path.is_none());

    let cli = parse_args(&strings(&["--db", "first.db", "--db", "second.db"])).unwrap();
    assert_eq!(cli.db.as_deref(), Some("second.db"));
}

#[test]
fn bad_arguments_are_refused_with_a_message() {
    assert_eq!(
        parse_args(&strings(&["--bind"])).unwrap_err(),
        "--bind requires a value"
    );
    assert_eq!(
        parse_args(&strings(&["--db", "x.db", "--verbose"])).unwrap_err(),
        "unknown argument: --verbose"
    );
}

#[test]
fn flags_override_the_environment_which_overrides_the_file() {
    let mut cfg = Config::default();
    cfg.apply_overrides(Some("env:1".to_string()), Some("env.db".to_string()), None, None);
    assert_eq!(cfg.bind, "env:1");
    assert_eq!(cfg.db_path, "env.db");

    let mut cfg = Config::default();
    cfg.apply_overrides(
        Some("env:1".to_string()),
        None,
        Some("flag:2".to_string()),
        None,
    );
    assert_eq!(cfg.bind, "flag:2");
    assert_eq!(cfg.db_path, "sailwind.db");
    assert_eq!(cfg.tick_hz, 30);
}
