use sailwind_online::interest::{
    admit_chat, advance_snapshot_tick, allocate_generation, capture_audience, enqueue_chat,
    snapshot_due, MooringAction, CHAT_PAYLOAD_BYTES, CHAT_QUEUE_ITEMS,
    aoi_chunk, cell_player_pass, deliver_fanout, peers_after, players_after, snapshot_candidates,
    run_fanout, snapshot_plan, AoiPublication, CellHydration, snapshot_window, FanoutJob, FanoutQueues, FanoutSession,
    AOI_CELLS_PER_UPDATE,
    CELL_ENTITIES_PER_PACKET,
};
use sailwind_online::ratelimit::RateLimiter;
use sailwind_online::world::{Cell, Subscription};
use std::collections::{HashMap, VecDeque};

fn c(cx: i32, cz: i32) -> Cell {
    Cell::new(cx, cz)
}

#[test]
fn aoi_chunk_publishes_new_cells_in_row_order() {
    let interest = vec![c(1, 1), c(0, 0), c(5, 0), c(0, 1)];
    let (added, removed) = aoi_chunk(&[], &interest).unwrap();
    assert!(removed.is_empty());
    assert_eq!(added, vec![c(0, 0), c(5, 0), c(0, 1), c(1, 1)]);
}

#[test]
fn aoi_chunk_is_none_once_published() {
    let cells = vec![c(0, 0), c(1, 0)];
    assert!(aoi_chunk(&cells, &cells).is_none());
    assert!(aoi_chunk(&[], &[]).is_none());
}

#[test]
fn aoi_chunk_retracts_before_publishing_and_caps_the_update() {
    let published: Vec<Cell> = (0..20).map(|i| c(i, 100)).collect();
    let interest: Vec<Cell> = (0..20).map(|i| c(i, -100)).collect();
    let (added, removed) = aoi_chunk(&published, &interest).unwrap();
    assert_eq!(removed, published);
    assert_eq!(added.len(), AOI_CELLS_PER_UPDATE - 20);
    assert_eq!(added, interest[..12].to_vec());
    assert_eq!(added.len() + removed.len(), 32);
}

#[test]
fn aoi_chunk_caps_retractions_alone() {
    let published: Vec<Cell> = (0..40).rev().map(|i| c(0, i)).collect();
    let (added, removed) = aoi_chunk(&published, &[]).unwrap();
    assert!(added.is_empty());
    let expected: Vec<Cell> = (0..32).map(|i| c(0, i)).collect();
    assert_eq!(removed, expected);
}

#[test]
fn snapshot_candidates_skip_self_absent_and_far_players() {
    let candidates = vec![
        (1, Some(c(0, 0))),
        (2, Some(c(2, -2))),
        (3, Some(c(3, 0))),
        (4, None),
        (5, Some(c(-1, 1))),
        (6, Some(c(0, 2))),
    ];
    let r = snapshot_candidates(&candidates, 1, c(0, 0), 2, 10);
    assert_eq!(r, vec![2, 5, 6]);
    let capped = snapshot_candidates(&candidates, 1, c(0, 0), 2, 2);
    assert_eq!(capped, vec![2, 5]);
}

#[test]
fn snapshot_candidates_far_coordinates_do_not_overflow() {
    let candidates = vec![(2, Some(c(i32::MIN, i32::MAX)))];
    assert!(snapshot_candidates(&candidates, 1, c(i32::MAX, i32::MIN), 2, 10).is_empty());
}

#[test]
fn snapshot_window_rotates_through_selection() {
    let selected = vec![1, 2, 3, 4, 5, 6, 7];
    let (first, cursor, remaining) = snapshot_window(&selected, None, 0, 5);
    assert_eq!(first, vec![1, 2, 3, 4, 5]);
    assert_eq!(cursor, Some(5));
    assert_eq!(remaining, 2);
    let (second, cursor, remaining) = snapshot_window(&selected, cursor, remaining, 5);
    assert_eq!(second, vec![6, 7]);
    assert_eq!(cursor, Some(7));
    assert_eq!(remaining, 0);
    let (third, cursor, remaining) = snapshot_window(&selected, cursor, remaining, 5);
    assert_eq!(third, vec![1, 2, 3, 4, 5]);
    assert_eq!((cursor, remaining), (Some(5), 2));
}

#[test]
fn snapshot_window_restarts_when_cursor_left_and_resets_when_empty() {
    let (w, cursor, remaining) = snapshot_window(&[4, 8, 9], Some(5), 1, 5);
    assert_eq!(w, vec![4, 8, 9]);
    assert_eq!((cursor, remaining), (Some(9), 0));
    assert_eq!(snapshot_window(&[], Some(5), 3, 5), (vec![], None, 0));
}

#[test]
fn peers_after_wraps_round_the_cursor() {
    let peers = [1, 3, 5, 7];
    assert_eq!(peers_after(&peers, Some(3), 3), vec![5, 7, 1]);
    assert_eq!(peers_after(&peers, Some(4), 10), vec![5, 7, 1, 3]);
    assert_eq!(peers_after(&peers, None, 2), vec![1, 3]);
    assert_eq!(peers_after(&peers, Some(9), 2), vec![1, 3]);
    assert!(peers_after(&[], Some(1), 2).is_empty());
}

#[test]
fn players_after_starts_after_the_viewer() {
    let order = [(10, Some(c(0, 0))), (20, None), (30, Some(c(1, 1)))];
    assert_eq!(
        players_after(&order, Some(20), 2),
        vec![(30, Some(c(1, 1))), (10, Some(c(0, 0)))]
    );
}

#[test]
fn cell_pass_stops_at_a_full_packet() {
    let cell = c(2, 2);
    let mut candidates = Vec::new();
    for pid in 1..=8u64 {
        let at = if pid == 3 { c(9, 9) } else { cell };
        candidates.push((pid, Some(at)));
    }
    let scan = cell_player_pass(&candidates, cell, None, 8);
    assert_eq!(scan.players, vec![1, 2, 4, 5, 6]);
    assert_eq!(scan.players.len(), CELL_ENTITIES_PER_PACKET);
    assert_eq!(scan.examined, 6);
    assert_eq!(scan.player_cursor, Some(6));
    assert_eq!(scan.players_remaining, 2);
    assert!(!scan.players_complete);
}

#[test]
fn cell_pass_completes_when_nothing_is_left() {
    let scan = cell_player_pass(&[(4, None), (6, Some(c(1, 0)))], c(0, 0), Some(2), 2);
    assert!(scan.players.is_empty());
    assert_eq!(scan.examined, 2);
    assert_eq!(scan.player_cursor, Some(6));
    assert_eq!(scan.players_remaining, 0);
    assert!(scan.players_complete);
    let idle = cell_player_pass(&[], c(0, 0), Some(2), 5);
    assert_eq!(idle.player_cursor, Some(2));
    assert!(idle.players_complete);
}

fn session(generation: u64, at: Cell) -> FanoutSession {
    let mut sub = Subscription::new(1);
    let _ = sub.recenter(at);
    FanoutSession { generation, sub }
}

#[test]
fn fanout_reaches_only_live_interested_sessions() {
    let mut sessions = HashMap::new();
    sessions.insert(1, session(1, c(0, 0)));
    sessions.insert(2, session(9, c(0, 0)));
    sessions.insert(3, session(1, c(10, 10)));
    let mut job = FanoutJob {
        bytes: vec![1, 2, 3],
        sender_cell: Some(c(1, 1)),
        recipients: vec![(1, 1), (2, 1), (3, 1), (4, 1)],
        next_recipient: 0,
    };
    let sent = deliver_fanout(&mut job, &sessions, 10, 10);
    assert_eq!(sent, vec![1]);
    assert_eq!(job.next_recipient, 4);
}

#[test]
fn fanout_respects_scan_and_send_budgets() {
    let mut sessions = HashMap::new();
    for p in 1..=4u32 {
        sessions.insert(p, session(7, c(0, 0)));
    }
    let mut job = FanoutJob {
        bytes: vec![],
        sender_cell: None,
        recipients: vec![(1, 7), (2, 7), (3, 7), (4, 7)],
        next_recipient: 0,
    };
    assert_eq!(deliver_fanout(&mut job, &sessions, 3, 10), vec![1, 2, 3]);
    assert_eq!(job.next_recipient, 3);
    assert_eq!(deliver_fanout(&mut job, &sessions, 10, 0), Vec::<u32>::new());
    assert_eq!(deliver_fanout(&mut job, &sessions, 10, 10), vec![4]);
    assert_eq!(job.next_recipient, 4);
}

#[test]
fn snapshot_plan_lists_visible_players_per_recipient() {
    let mut sessions = HashMap::new();
    sessions.insert(1u32, (100u64, Some(c(0, 0))));
    sessions.insert(2u32, (200u64, Some(c(1, 0))));
    sessions.insert(3u32, (300u64, None));
    sessions.insert(4u32, (400u64, Some(c(50, 50))));
    let order = [
        (100, Some(c(0, 0))),
        (200, Some(c(1, 0))),
        (300, None),
        (400, Some(c(50, 50))),
    ];
    let plan = snapshot_plan(&[1, 2, 3, 4], Some(1), 3, &sessions, &order, 4, 2, 10);
    assert_eq!(plan, vec![(2, vec![100]), (4, vec![])]);
    let plan = snapshot_plan(&[1, 2, 3, 4], None, 4, &sessions, &order, 4, 2, 10);
    assert_eq!(plan, vec![(1, vec![200]), (2, vec![100]), (4, vec![])]);
}

fn job(bytes: Vec<u8>, recipients: Vec<(u32, u64)>) -> FanoutJob {
    FanoutJob {
        bytes,
        sender_cell: None,
        recipients,
        next_recipient: 0,
    }
}

#[test]
fn fanout_queues_take_turns_and_resume_after_budget() {
    let mut sessions = HashMap::new();
    for p in 1..=3u32 {
        sessions.insert(p, session(1, c(0, 0)));
    }
    let mut chat = VecDeque::new();
    chat.push_back(job(vec![1], vec![(1, 1), (2, 1)]));
    chat.push_back(job(vec![2], vec![(3, 1)]));
    let mut q = FanoutQueues {
        clock: Some(job(vec![9], vec![(1, 1), (2, 1), (3, 1)])),
        chat,
        chat_bytes: 2,
        prefer_clock: false,
    };
    let (sends, scans) = run_fanout(&mut q, &sessions, 4, 10);
    assert_eq!(scans, 4);
    assert_eq!(sends, vec![(1, vec![1]), (2, vec![1]), (1, vec![9]), (2, vec![9])]);
    assert_eq!(q.chat_bytes, 1);
    assert!(q.prefer_clock);
    assert_eq!(q.clock.as_ref().map(|j| j.next_recipient), Some(2));
    assert_eq!(q.chat.len(), 1);
    let (sends, scans) = run_fanout(&mut q, &sessions, 10, 10);
    assert_eq!(scans, 2);
    assert_eq!(sends, vec![(3, vec![9]), (3, vec![2])]);
    assert!(q.clock.is_none());
    assert!(q.chat.is_empty());
    assert_eq!(q.chat_bytes, 0);
    let (sends, scans) = run_fanout(&mut q, &sessions, 10, 10);
    assert!(sends.is_empty());
    assert_eq!(scans, 0);
}

#[test]
fn fanout_send_budget_stops_the_tick() {
    let mut sessions = HashMap::new();
    sessions.insert(1u32, session(1, c(0, 0)));
    sessions.insert(2u32, session(1, c(0, 0)));
    let mut chat = VecDeque::new();
    chat.push_back(job(vec![5], vec![(1, 1), (2, 1)]));
    let mut q = FanoutQueues {
        clock: None,
        chat,
        chat_bytes: 1,
        prefer_clock: true,
    };
    let (sends, _) = run_fanout(&mut q, &sessions, 10, 1);
    assert_eq!(sends, vec![(1, vec![5])]);
    assert_eq!(q.chat.len(), 1);
    assert_eq!(q.chat[0].next_recipient, 1);
}

#[test]
fn rotation_resumes_after_last_peer_served() {
    let peers = [1, 3, 5, 7, 9];
    let first = peers_after(&peers, Some(3), 2);
    assert_eq!(first, vec![5, 7]);
    let second = peers_after(&peers, first.last().copied(), 2);
    assert_eq!(second, vec![9, 1]);
    let third = peers_after(&peers, second.last().copied(), 2);
    assert_eq!(third, vec![3, 5]);
}

#[test]
fn publication_converges_in_bounded_chunks() {
    let interest: Vec<Cell> = (0..40).map(|i| c(i % 8, i / 8)).collect();
    let mut p = AoiPublication {
        published: vec![c(100, 100)],
        hydration: vec![c(100, 100)],
        hydration_cursor: None,
        active: Some(CellHydration {
            cell: c(100, 100),
            player_cursor: None,
            players_remaining: 3,
            mooring_cursor: None,
            players_complete: false,
            sent_any: false,
        }),
    };
    let (added, removed) = p.next_chunk(&interest).unwrap();
    assert_eq!(removed, vec![c(100, 100)]);
    assert_eq!(added.len(), 31);
    assert!(p.active.is_none());
    assert_eq!(p.published.len(), 31);
    let (added, removed) = p.next_chunk(&interest).unwrap();
    assert!(removed.is_empty());
    assert_eq!(added.len(), 9);
    assert_eq!(p.hydration.len(), 40);
    assert!(p.next_chunk(&interest).is_none());
    let mut sorted = p.published.clone();
    sorted.sort_by_key(|x| (x.cz, x.cx));
    let mut want = interest.clone();
    want.sort_by_key(|x| (x.cz, x.cx));
    assert_eq!(sorted, want);
}

#[test]
fn hydration_walks_cells_in_row_order_after_cursor() {
    let cells = vec![c(1, 0), c(0, 1), c(0, 0)];
    let mut p = AoiPublication {
        published: cells.clone(),
        hydration: cells.clone(),
        hydration_cursor: Some(c(0, 0)),
        active: None,
    };
    assert_eq!(p.prepare_hydration(&cells, 4), Some((c(1, 0), None, 4, false)));
    assert_eq!(p.hydration_cursor, Some(c(1, 0)));
    assert_eq!(p.hydration.len(), 2);
    // The hydration in progress is kept while its cell stays published.
    assert_eq!(p.prepare_hydration(&cells, 9), Some((c(1, 0), None, 4, false)));
    // Once the cell leaves the interest set, the next one starts.
    let smaller = vec![c(0, 1), c(0, 0)];
    assert_eq!(p.prepare_hydration(&smaller, 0), Some((c(0, 1), None, 0, true)));
    assert_eq!(p.prepare_hydration(&smaller, 0), Some((c(0, 1), None, 0, true)));
    p.active = None;
    assert_eq!(p.prepare_hydration(&smaller, 2), Some((c(0, 0), None, 2, false)));
    p.active = None;
    assert_eq!(p.prepare_hydration(&smaller, 2), None);
}

fn hydration(cell: Cell) -> CellHydration {
    CellHydration {
        cell,
        player_cursor: None,
        players_remaining: 4,
        mooring_cursor: None,
        players_complete: false,
        sent_any: false,
    }
}

#[test]
fn mooring_phase_pages_skips_corrupt_and_finishes() {
    let mut h = hydration(c(1, 1));
    assert_eq!(h.mooring_step(Some((40, 10))), MooringAction::Send(40));
    assert_eq!(h.mooring_cursor, Some(40));
    assert!(!h.sent_any);
    h.note_sent(true);
    assert_eq!(h.mooring_step(Some((41, 836))), MooringAction::SkipCorrupt(41));
    assert_eq!(h.mooring_cursor, Some(41));
    assert_eq!(h.mooring_step(Some((42, 835))), MooringAction::Send(42));
    assert_eq!(h.mooring_step(None), MooringAction::Finish);
    assert_eq!(h.mooring_cursor, Some(42));
    let mut empty = hydration(c(2, 2));
    assert_eq!(empty.mooring_step(None), MooringAction::SendEmpty);
}

#[test]
fn player_pass_is_recorded_on_the_hydration() {
    let cell = c(0, 0);
    let mut h = hydration(cell);
    let scan = cell_player_pass(&[(3, Some(cell)), (4, None)], cell, h.player_cursor, h.players_remaining);
    h.record_player_pass(&scan, true);
    assert_eq!(h.player_cursor, Some(4));
    assert_eq!(h.players_remaining, 2);
    assert!(!h.players_complete);
    assert!(h.sent_any);
    let scan = cell_player_pass(&[], cell, h.player_cursor, h.players_remaining);
    h.record_player_pass(&scan, false);
    assert!(h.players_complete);
    assert!(h.sent_any);
}

#[test]
fn finishing_a_hydration_keeps_its_cell_as_cursor() {
    let cells = vec![c(0, 0), c(1, 0)];
    let mut p = AoiPublication {
        published: cells.clone(),
        hydration: cells.clone(),
        hydration_cursor: None,
        active: None,
    };
    assert_eq!(p.prepare_hydration(&cells, 0), Some((c(0, 0), None, 0, true)));
    p.finish_hydration();
    assert!(p.active.is_none());
    assert_eq!(p.hydration_cursor, Some(c(0, 0)));
    assert_eq!(p.prepare_hydration(&cells, 0), Some((c(1, 0), None, 0, true)));
}

fn empty_queues() -> FanoutQueues {
    FanoutQueues {
        clock: None,
        chat: VecDeque::new(),
        chat_bytes: 0,
        prefer_clock: true,
    }
}

#[test]
fn chat_gates_apply_in_order() {
    let mut q = empty_queues();
    let mut limiter = RateLimiter::new(1000);
    assert!(!admit_chat(&q, &mut limiter, 7, 300, 256, 0));
    assert!(admit_chat(&q, &mut limiter, 7, 10, 256, 0));
    assert!(!admit_chat(&q, &mut limiter, 7, 10, 256, 10));
    for i in 0..CHAT_QUEUE_ITEMS {
        assert!(enqueue_chat(&mut q, vec![1], c(0, 0), vec![(1, i as u64)]));
    }
    // A full queue refuses before the throttle is charged.
    assert!(!admit_chat(&q, &mut limiter, 8, 10, 256, 0));
    assert!(admit_chat(&empty_queues(), &mut limiter, 8, 10, 256, 0));
}

#[test]
fn chat_queue_byte_budget_keeps_room_for_one_datagram() {
    let mut q = empty_queues();
    q.chat_bytes = 256 * CHAT_PAYLOAD_BYTES - CHAT_PAYLOAD_BYTES;
    let mut limiter = RateLimiter::new(0);
    assert!(admit_chat(&q, &mut limiter, 1, 1, 256, 0));
    q.chat_bytes += 1;
    assert!(!admit_chat(&q, &mut limiter, 1, 1, 256, 0));
}

#[test]
fn enqueue_refuses_oversized_messages_and_counts_bytes() {
    let mut q = empty_queues();
    assert!(!enqueue_chat(&mut q, vec![0; CHAT_PAYLOAD_BYTES + 1], c(0, 0), vec![(1, 1)]));
    assert!(q.chat.is_empty());
    assert!(enqueue_chat(&mut q, vec![0; 5], c(3, 4), vec![(1, 1), (2, 2)]));
    assert_eq!(q.chat_bytes, 5);
    assert_eq!(q.chat[0].next_recipient, 0);
    assert_eq!(q.chat[0].sender_cell, Some(c(3, 4)));
    assert_eq!(q.chat[0].recipients, vec![(1, 1), (2, 2)]);
}

#[test]
fn audience_capture_takes_live_sessions_under_the_cap() {
    let mut generations = HashMap::new();
    generations.insert(1u32, 10u64);
    generations.insert(3u32, 30u64);
    generations.insert(4u32, 40u64);
    assert_eq!(
        capture_audience(&[1, 2, 3, 4], &generations, 2, 0),
        Some(vec![(1, 10), (3, 30)])
    );
    assert_eq!(capture_audience(&[2, 5], &generations, 10, 0), None);
    assert_eq!(capture_audience(&[1], &generations, 10, 257 * 1024), None);
    assert_eq!(capture_audience(&[1], &generations, 10, 257 * 1024 - 1), Some(vec![(1, 10)]));
}

#[test]
fn exhausted_generations_restart_and_drop_queued_jobs() {
    let mut q = empty_queues();
    enqueue_chat(&mut q, vec![1, 2], c(0, 0), vec![(1, 5)]);
    let mut next = 5u64;
    assert_eq!(allocate_generation(&mut next, &mut q), 6);
    assert_eq!(q.chat.len(), 1);
    next = u64::MAX;
    assert_eq!(allocate_generation(&mut next, &mut q), 1);
    assert_eq!(next, 1);
    assert!(q.chat.is_empty());
    assert_eq!(q.chat_bytes, 0);
}

#[test]
fn snapshot_cadence_wraps_with_the_tick_counter() {
    assert!(snapshot_due(5, 0, 3));
    assert!(!snapshot_due(5, 4, 3));
    assert!(snapshot_due(7, 4, 3));
    assert!(!snapshot_due(1, u32::MAX, 3));
    assert!(snapshot_due(2, u32::MAX, 3));
    assert!(!snapshot_due(10, 1, u64::MAX));
    assert_eq!(advance_snapshot_tick(u32::MAX), 0);
    assert_eq!(advance_snapshot_tick(41), 42);
}

#[test]
fn reset_cursor_is_never_revisited_across_ticks() {
    let mut sessions = HashMap::new();
    for p in 1..=3u32 {
        sessions.insert(p, session(1, c(0, 0)));
    }
    let mut q = empty_queues();
    enqueue_chat(&mut q, vec![9], c(0, 0), vec![(1, 1), (2, 1), (3, 1)]);
    let mut seen = Vec::new();
    for _ in 0..5 {
        let (sends, _) = run_fanout(&mut q, &sessions, 1, 10);
        seen.extend(sends.into_iter().map(|(p, _)| p));
    }
    assert_eq!(seen, vec![1, 2, 3]);
    assert!(q.chat.is_empty());
}
