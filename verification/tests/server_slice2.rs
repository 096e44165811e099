use hermes_tui::server_slice2::{
    announce_session_reclaimed, announce_session_reclaimed_payload, attach_worker,
    cancel_ws_orphan_reap, close_session_by_id, close_sessions_for_transport,
    collect_idle_victims, enforce_session_cap, finalize_close_slash_worker,
    finalize_commit_memory, finalize_db_ownership, finalize_interrupt_delegations,
    finalize_invoke_session_end_hook, finalize_notify_boundary, finalize_persist_session,
    idle_reaper_trim_memory, interrupt_session_turn, is_gateway_owned_source,
    is_gateway_owned_source_with, is_reclaim_reason, live_lease_ids, pop_session_by_id,
    reap_idle_sessions_collect, schedule_ws_orphan_reap, session_cap_int, session_async_delegation_selectors,
    session_has_active_delegations, session_has_pending_kind, session_is_evictable,
    session_is_lru_evictable, session_owns_durable_lifecycle,
    session_owns_durable_lifecycle_default, session_source, session_transport_dead,
    should_schedule_ws_orphan_reap, shutdown_sessions, teardown_popped_session, teardown_session,
    transport_is_dead, ws_orphan_reap_step, ws_orphan_should_reschedule_grace,
    ws_session_is_detached, ws_session_is_orphaned, AgentStub, PendingWsReaps, ReapAction,
    RunThreadState, Session, SessionsRegistry, SlashWorkerStub, TransportKind, ViewerEntry,
    NON_GATEWAY_SOURCES, RECLAIM_END_REASONS, WS_ORPHAN_INTERRUPT_MAX_POLLS,
};
use std::sync::atomic::Ordering;

/// The default session TTL, in milliseconds.
const TTL_MS: i64 = 6 * 3600 * 1000;

/// A session whose last activity and creation are `ttl_age_factor` TTLs before the clock
/// `1_000_000` seconds.
fn sess_with(key: &str, ttl_age_factor: f64, running: bool, transport: TransportKind) -> Session {
    let now: i64 = 1_000_000_000;
    let age = (ttl_age_factor * TTL_MS as f64) as i64;
    Session {
        session_key: Some(key.to_string()),
        sid: Some(format!("sid-{}", key)),
        history: vec![],
        finalized: false,
        closing: false,
        running,
        transport,
        viewers: Vec::new(),
        agent: None,
        slash_worker: None,
        agent_ready_set: None,
        lazy: false,
        close_on_disconnect: false,
        last_active: now - age,
        created_at: now - age,
        active_session_lease: None,
        client_gone_interrupt_requested: false,
        client_gone_interrupt_polls: 0,
        run_thread: None,
        queued_prompt: None,
        queued_prompts: None,
        queued_prompt_generation: 0,
        turn_cancel_requested: false,
        extras: Vec::new(),
        source: String::new(),
    }
}

#[test]
fn reclaim_reasons() {
    assert!(is_reclaim_reason("idle_timeout"));
    assert!(is_reclaim_reason("lru_evict"));
    assert!(is_reclaim_reason("ws_orphan_reap"));
    assert!(!is_reclaim_reason("tui_close"));
    assert!(!is_reclaim_reason("tui_shutdown"));
    assert!(!is_reclaim_reason(""));
    assert_eq!(RECLAIM_END_REASONS.len(), 3);
}

#[test]
fn gateway_owned_source() {
    assert!(!is_gateway_owned_source("tui"));
    assert!(!is_gateway_owned_source("cli"));
    assert!(!is_gateway_owned_source("desktop"));
    assert!(!is_gateway_owned_source(""));
    assert!(is_gateway_owned_source("telegram"));
    assert!(is_gateway_owned_source("discord"));
    assert!(is_gateway_owned_source("slack"));
    assert!(is_gateway_owned_source("some_random_platform"));
    assert!(!is_gateway_owned_source_with("telegram", |s: &str| s == "other"));
    assert!(is_gateway_owned_source_with("telegram", |s: &str| s == "telegram"));
    assert!(!is_gateway_owned_source_with("", |_: &str| true));
}

#[test]
fn transport_is_dead_cases() {
    assert!(transport_is_dead(&TransportKind::DetachedWs));
    assert!(!transport_is_dead(&TransportKind::Stdio));
    assert!(!transport_is_dead(&TransportKind::Live { closed: false, peer: "ws".into() }));
    assert!(transport_is_dead(&TransportKind::Live { closed: true, peer: "ws".into() }));
}

// ---------------------------------------------------------------------------
// Further cases
// ---------------------------------------------------------------------------

#[test]
fn constructors_and_stubs() {
    assert_eq!(TransportKind::stdio(), TransportKind::Stdio);
    assert_eq!(TransportKind::detached_ws(), TransportKind::DetachedWs);
    assert!(!transport_is_dead(&TransportKind::live("p")));
    assert!(transport_is_dead(&TransportKind::live_closed("p")));
    let mut w = SlashWorkerStub::default();
    assert!(!w.is_closed());
    w.close();
    assert!(w.is_closed());
    assert!(RunThreadState::alive_on_current().is_current_thread);
    assert!(!RunThreadState::alive_on_other().is_current_thread);
    assert!(!RunThreadState::dead().alive);
    assert!(ws_orphan_should_reschedule_grace(true));
    assert!(!ws_orphan_should_reschedule_grace(false));
    assert_eq!(NON_GATEWAY_SOURCES.len(), 14);
}

#[test]
fn durable_lifecycle_ownership() {
    assert!(session_owns_durable_lifecycle_default(None, |_: &str| Some("telegram".to_string())));
    assert!(session_owns_durable_lifecycle_default(Some(""), |_: &str| Some("telegram".to_string())));
    assert!(!session_owns_durable_lifecycle_default(Some("s1"), |_: &str| Some("telegram".to_string())));
    assert!(session_owns_durable_lifecycle_default(Some("s1"), |_: &str| Some("tui".to_string())));
    assert!(session_owns_durable_lifecycle_default(Some("s1"), |_: &str| None));
}

#[test]
fn ws_detached_and_orphaned() {
    let mut s = sess_with("k1", 1.0, false, TransportKind::DetachedWs);
    assert!(ws_session_is_detached(Some(&s)));
    assert!(ws_session_is_orphaned(Some(&s)));
    s.running = true;
    assert!(ws_session_is_detached(Some(&s)));
    assert!(!ws_session_is_orphaned(Some(&s)));
    s.running = false;
    s.finalized = true;
    assert!(!ws_session_is_detached(Some(&s)));
    assert!(!ws_session_is_orphaned(Some(&s)));
    let s2 = sess_with("k2", 1.0, false, TransportKind::Stdio);
    assert!(!ws_session_is_detached(Some(&s2)));
}

#[test]
fn session_is_evictable_cases() {
    let now: i64 = 1_000_000_000;
    let ttl = TTL_MS;
    let no_active = |_: &str, _: Option<&Session>| false;
    let has_active = |_: &str, _: Option<&Session>| true;

    let s = sess_with("k", 2.0, false, TransportKind::DetachedWs);
    assert!(session_is_evictable("sid-k", &s, now, ttl, no_active));

    let s2 = sess_with("k", 2.0, true, TransportKind::DetachedWs);
    assert!(!session_is_evictable("sid-k", &s2, now, ttl, no_active));

    let s3 = sess_with("k", 2.0, false, TransportKind::Live { closed: false, peer: "ws".into() });
    assert!(!session_is_evictable("sid-k", &s3, now, ttl, no_active));

    let s4 = sess_with("k", 2.0, false, TransportKind::DetachedWs);
    assert!(!session_is_evictable("sid-k", &s4, now, ttl, has_active));

    let mut s5 = sess_with("k", 2.0, false, TransportKind::DetachedWs);
    s5.agent_ready_set = Some(false);
    s5.lazy = false;
    assert!(!session_is_evictable("sid-k", &s5, now, ttl, no_active));
    s5.lazy = true;
    assert!(session_is_evictable("sid-k", &s5, now, ttl, no_active));
    s5.agent_ready_set = Some(true);
    s5.lazy = false;
    assert!(session_is_evictable("sid-k", &s5, now, ttl, no_active));
    s5.agent_ready_set = None;
    assert!(session_is_evictable("sid-k", &s5, now, ttl, no_active));

    let s6 = sess_with("k", 0.1, false, TransportKind::DetachedWs);
    assert!(!session_is_evictable("sid-k", &s6, now, ttl, no_active));
}

#[test]
fn session_is_lru_evictable_no_age_gate() {
    let no_active = |_: &str, _: Option<&Session>| false;
    let s = sess_with("k", 0.01, false, TransportKind::DetachedWs);
    assert!(session_is_lru_evictable("sid-k", &s, no_active));

    let s2 = sess_with("k", 10.0, false, TransportKind::Live { closed: false, peer: "ws".into() });
    assert!(!session_is_lru_evictable("sid-k", &s2, no_active));

    let s3 = sess_with("k", 10.0, true, TransportKind::DetachedWs);
    assert!(!session_is_lru_evictable("sid-k", &s3, no_active));
}

#[test]
fn pop_and_close_session() {
    let mut reg = SessionsRegistry::new();
    reg.insert("sid1".into(), sess_with("k1", 2.0, false, TransportKind::DetachedWs));
    reg.insert("sid2".into(), sess_with("k2", 2.0, false, TransportKind::Stdio));

    let popped = pop_session_by_id(&mut reg, "sid1");
    assert!(popped.is_some());
    assert_eq!(popped.unwrap().sid.as_deref(), Some("sid1"));
    assert!(reg.get("sid1").is_none());
    assert_eq!(reg.len(), 1);
    assert!(pop_session_by_id(&mut reg, "sid1").is_none());

    let mut reg2 = SessionsRegistry::new();
    reg2.insert("a".into(), sess_with("ka", 2.0, false, TransportKind::DetachedWs));
    reg2.insert("b".into(), sess_with("kb", 2.0, false, TransportKind::Stdio));
    let ok = close_session_by_id(
        &mut reg2,
        "b",
        "tui_close",
        Some(&|s: &Session| transport_is_dead(&s.transport)),
        |_: &RunThreadState| true,
        |s: Session, _: &str| {
            let _ = s;
        },
    );
    assert!(!ok);
    assert!(reg2.contains_key("b"));
    let ok2 = close_session_by_id(
        &mut reg2,
        "a",
        "tui_close",
        Some(&|s: &Session| transport_is_dead(&s.transport)),
        |_: &RunThreadState| true,
        |s: Session, _: &str| {
            let _ = s;
        },
    );
    assert!(ok2);
    assert!(!reg2.contains_key("a"));
}

#[test]
fn teardown_popped_respects_shutdown() {
    let mut sess = sess_with("k", 2.0, false, TransportKind::DetachedWs);
    sess.run_thread = Some(RunThreadState::alive_on_other());
    let mut waited = false;
    let ok = teardown_popped_session(
        Some(sess),
        "tui_shutdown",
        |_: &RunThreadState| {
            waited = true;
            true
        },
        |_s: Session, _r: &str| {},
    );
    assert!(ok);
    assert!(!waited, "tui_shutdown skips join");

    let mut sess2 = sess_with("k2", 2.0, false, TransportKind::DetachedWs);
    sess2.run_thread = Some(RunThreadState::alive_on_other());
    let mut waited2 = false;
    let ok2 = teardown_popped_session(
        Some(sess2),
        "tui_close",
        |_: &RunThreadState| {
            waited2 = true;
            true
        },
        |_s: Session, _r: &str| {},
    );
    assert!(ok2);
    assert!(waited2);

    let mut sess3 = sess_with("k3", 2.0, false, TransportKind::DetachedWs);
    sess3.run_thread = Some(RunThreadState::alive_on_current());
    let mut waited3 = false;
    let ok3 = teardown_popped_session(
        Some(sess3),
        "tui_close",
        |_: &RunThreadState| {
            waited3 = true;
            true
        },
        |_s: Session, _r: &str| {},
    );
    assert!(ok3);
    assert!(!waited3);
}

#[test]
fn attach_worker_race() {
    let mut reg = SessionsRegistry::new();
    let s = sess_with("k1", 1.0, false, TransportKind::Stdio);
    reg.insert("sid1".into(), s.clone());
    let w = SlashWorkerStub { closed: false };
    assert!(attach_worker(&mut reg, "sid1", s.clone(), w));
    assert!(reg.get("sid1").unwrap().slash_worker.is_some());

    let mut reg2 = SessionsRegistry::new();
    reg2.insert("sid1".into(), s.clone());
    let w2 = SlashWorkerStub { closed: false };
    assert!(!attach_worker(&mut reg2, "sid_missing", s, w2));
    assert!(reg2.get("sid1").unwrap().slash_worker.is_none());
}

#[test]
fn announce_reclaimed_only_for_reclaim_reasons() {
    let mut s = sess_with("k1", 1.0, false, TransportKind::Stdio);
    s.sid = Some("sid-123".into());
    assert!(announce_session_reclaimed(&s, "idle_timeout", |_: &_| {}));
    assert!(!announce_session_reclaimed(&s, "tui_close", |_: &_| {}));
    let p = announce_session_reclaimed_payload(&s, "ws_orphan_reap").unwrap();
    assert_eq!(p.session_id, "sid-123");
    assert_eq!(p.stored_session_id, "k1");
    assert!(announce_session_reclaimed_payload(&s, "tui_close").is_none());
}

#[test]
fn finalize_ownership_and_persist() {
    let mut s = Session::default();
    s.session_key = Some("key-1".into());
    s.agent = Some(AgentStub {
        session_id: Some("sess-1".into()),
        model: "m".into(),
        platform: Some("tui".into()),
        session_messages: Some(vec!["a".into()]),
        owns_session_db: false,
    });
    let own = finalize_db_ownership(
        &s,
        "tui_close",
        |_id: &str| Some("tui".into()),
        is_gateway_owned_source,
        |_: &str, _: &str| {},
    );
    assert!(own.tui_owns_lifecycle);
    assert_eq!(own.session_id.as_deref(), Some("sess-1"));
    let own2 = finalize_db_ownership(
        &s,
        "tui_close",
        |_id: &str| Some("telegram".into()),
        is_gateway_owned_source,
        |_: &str, _: &str| {},
    );
    assert!(!own2.tui_owns_lifecycle);

    let mut called = false;
    assert!(finalize_persist_session(&s, |msgs: &[String]| {
        assert_eq!(msgs, &["a".to_string()]);
        called = true;
    }));
    assert!(called);
    let mut s2 = s.clone();
    s2.agent.as_mut().unwrap().session_messages = Some(vec![]);
    assert!(!finalize_persist_session(&s2, |_: &[String]| panic!("should not call")));
}

#[test]
fn pending_ws_reaps_cancel_and_schedule() {
    let mut pending = PendingWsReaps::new();
    assert!(!schedule_ws_orphan_reap(&mut pending, "sid1", None, 0, |_: i64, _: String| {}));
    assert!(pending.is_empty());
    let mut spawned = Vec::new();
    assert!(schedule_ws_orphan_reap(&mut pending, "sid1", None, 20_000, |delay: i64, sid: String| spawned
        .push((delay, sid))));
    assert_eq!(pending.len(), 1);
    assert_eq!(spawned[0], (20_000, "sid1".to_string()));
    let prior_cancelled = pending.get("sid1").unwrap().cancelled.clone();
    assert!(schedule_ws_orphan_reap(&mut pending, "sid1", Some(5_000), 20_000, |_: i64, _: String| {}));
    assert!(prior_cancelled.load(Ordering::SeqCst));
    assert_eq!(pending.get("sid1").unwrap().delay_ms, 5_000);

    cancel_ws_orphan_reap(&mut pending, "sid1");
    assert!(pending.is_empty());
    cancel_ws_orphan_reap(&mut pending, "sid1");
}

#[test]
fn interrupt_session_turn_contract() {
    let mut s = sess_with("k", 1.0, true, TransportKind::Live { closed: false, peer: "ws".into() });
    s.session_key = Some("k".into());
    s.queued_prompt = Some("hello".into());
    s.queued_prompts = Some(vec!["a".into()]);
    let out = interrupt_session_turn(
        "sid-1",
        &mut s,
        Some("req-1"),
        false,
        |_: &str, _: Option<&str>| {},
        |_: &mut AgentStub| {},
        |_: &str| {},
        |_: &str| {},
        |_: &mut Session| {},
    );
    assert!(!out.used_compute_host);
    assert!(out.hard_interrupted);
    assert!(s.turn_cancel_requested);
    assert!(s.queued_prompt.is_none());
    assert!(s.queued_prompts.is_none());
    assert_eq!(s.queued_prompt_generation, 1);
    let mut s2 = sess_with("k2", 1.0, true, TransportKind::Live { closed: false, peer: "ws".into() });
    let mut sup_called = false;
    let out2 = interrupt_session_turn(
        "sid-2",
        &mut s2,
        Some("r"),
        true,
        |_sid: &str, _req: Option<&str>| {
            sup_called = true;
        },
        |_: &mut AgentStub| panic!("hard should not call"),
        |_: &str| {},
        |_: &str| {},
        |_: &mut Session| {},
    );
    assert!(out2.used_compute_host);
    assert!(!out2.hard_interrupted);
    assert!(sup_called);
}

#[test]
fn close_sessions_for_transport_cases() {
    let mut reg = SessionsRegistry::new();
    let mut s1 = sess_with("k1", 1.0, false, TransportKind::Live { closed: false, peer: "p1".into() });
    s1.close_on_disconnect = true;
    reg.insert("s1".into(), s1);
    let mut s2 = sess_with("k2", 1.0, false, TransportKind::Live { closed: false, peer: "p1".into() });
    s2.close_on_disconnect = false;
    reg.insert("s2".into(), s2);
    let mut s3 = sess_with("k3", 1.0, false, TransportKind::Live { closed: false, peer: "p1".into() });
    s3.close_on_disconnect = false;
    s3.viewers.push((
        "viewer2".into(),
        ViewerEntry {
            transport: TransportKind::Live { closed: false, peer: "viewer2".into() },
            timestamp: 200,
        },
    ));
    reg.insert("s3".into(), s3);

    let mut pending = PendingWsReaps::new();
    let transport = TransportKind::Live { closed: false, peer: "p1".into() };
    let mut reaped: Vec<String> = Vec::new();
    let res = close_sessions_for_transport(
        &mut reg,
        &transport,
        "ws_disconnect",
        &mut pending,
        20_000,
        |k: &TransportKind| transport_is_dead(k),
        |sid: &str, _reason: &str| {
            reaped.push(sid.to_string());
            true
        },
        |_sid: &str| {},
    );
    assert_eq!(res.reaped, 1);
    assert_eq!(res.detached, 1);
    assert!(reaped.contains(&"s1".to_string()));
    assert_eq!(reg.get("s2").unwrap().transport, TransportKind::DetachedWs);
    assert_eq!(
        reg.get("s3").unwrap().transport,
        TransportKind::Live { closed: false, peer: "viewer2".into() }
    );
}

#[test]
fn shutdown_sessions_drains() {
    let mut reg = SessionsRegistry::new();
    reg.insert("a".into(), sess_with("ka", 1.0, false, TransportKind::Stdio));
    reg.insert("b".into(), sess_with("kb", 1.0, false, TransportKind::DetachedWs));
    let mut closed = Vec::new();
    shutdown_sessions(&mut reg, || {}, |sid: &str, reason: &str| {
        assert_eq!(reason, "tui_shutdown");
        closed.push(sid.to_string());
        true
    });
    assert_eq!(closed.len(), 2);
}

#[test]
fn ws_orphan_reap_step_cases() {
    let s = sess_with("k", 1.0, false, TransportKind::DetachedWs);
    let (act, _, _) = ws_orphan_reap_step(Some(&s), true, false, false, 0, 60, false);
    assert_eq!(act, ReapAction::Reap);

    let (act2, _, _) = ws_orphan_reap_step(Some(&s), true, true, false, 0, 60, false);
    assert_eq!(act2, ReapAction::RescheduleGrace);

    let (act3, polls3, flag3) = ws_orphan_reap_step(Some(&s), true, false, true, 0, 60, false);
    assert_eq!(act3, ReapAction::Interrupt);
    assert_eq!(polls3, 1);
    assert!(flag3);

    let (act4, polls4, flag4) = ws_orphan_reap_step(Some(&s), true, false, true, 1, 60, true);
    assert_eq!(act4, ReapAction::ReschedulePoll);
    assert_eq!(polls4, 2);
    assert!(!flag4);
}

#[test]
fn collect_idle_and_lru() {
    let now: i64 = 1_000_000_000;
    let ttl = TTL_MS;
    let mut reg = SessionsRegistry::new();
    reg.insert("old-detached".into(), sess_with("k-old", 2.0, false, TransportKind::DetachedWs));
    reg.insert("young-detached".into(), sess_with("k-young", 0.01, false, TransportKind::DetachedWs));
    reg.insert(
        "live".into(),
        sess_with("k-live", 2.0, false, TransportKind::Live { closed: false, peer: "ws".into() }),
    );

    let idle = reap_idle_sessions_collect(&reg, now, ttl, |_: &str, _: Option<&Session>| false);
    assert!(idle.contains(&"old-detached".to_string()));
    assert!(!idle.contains(&"young-detached".to_string()));

    let lru_ok = session_is_lru_evictable(
        "young-detached",
        reg.get("young-detached").unwrap(),
        |_: &str, _: Option<&Session>| false,
    );
    assert!(lru_ok);
}

// ---------------------------------------------------------------------------
// Further lifecycle cases
// ---------------------------------------------------------------------------

#[test]
fn sid_map_keeps_insertion_order_and_replaces_in_place() {
    let mut reg = SessionsRegistry::new();
    assert!(reg.insert("a".into(), sess_with("ka", 1.0, false, TransportKind::Stdio)).is_none());
    assert!(reg.insert("b".into(), sess_with("kb", 1.0, false, TransportKind::Stdio)).is_none());
    let old = reg.insert("a".into(), sess_with("ka2", 1.0, false, TransportKind::Stdio));
    assert_eq!(old.unwrap().session_key.as_deref(), Some("ka"));
    assert_eq!(reg.keys(), vec!["a".to_string(), "b".to_string()]);
    assert_eq!(reg.get("a").unwrap().session_key.as_deref(), Some("ka2"));
    assert_eq!(reg.remove("a").unwrap().session_key.as_deref(), Some("ka2"));
    assert!(reg.remove("a").is_none());
    assert_eq!(reg.keys(), vec!["b".to_string()]);
}

#[test]
fn popped_session_is_marked_closing() {
    let mut reg = SessionsRegistry::new();
    reg.insert("sid9".into(), sess_with("k9", 1.0, false, TransportKind::Stdio));
    let s = pop_session_by_id(&mut reg, "sid9").unwrap();
    assert!(s.closing);
    assert_eq!(s.session_key.as_deref(), Some("k9"));
    assert!(reg.is_empty());
}

#[test]
fn close_without_predicate_and_missing_id() {
    let mut reg = SessionsRegistry::new();
    reg.insert("a".into(), sess_with("ka", 1.0, false, TransportKind::Stdio));
    let mut torn: Vec<(Option<String>, String)> = Vec::new();
    let ok = close_session_by_id(
        &mut reg,
        "a",
        "tui_close",
        None::<&fn(&Session) -> bool>,
        |_: &RunThreadState| true,
        |s: Session, r: &str| torn.push((s.sid.clone(), r.to_string())),
    );
    assert!(ok);
    assert_eq!(torn, vec![(Some("a".to_string()), "tui_close".to_string())]);
    let missing = close_session_by_id(
        &mut reg,
        "a",
        "tui_close",
        None::<&fn(&Session) -> bool>,
        |_: &RunThreadState| true,
        |_: Session, _: &str| panic!("nothing to tear down"),
    );
    assert!(!missing);
    assert!(!teardown_popped_session(None, "tui_close", |_: &RunThreadState| true, |_: Session, _: &str| {}));
}

#[test]
fn finalize_hooks_get_their_arguments() {
    let mut s = Session::default();
    s.session_key = Some("key-1".into());
    s.source = "desktop".into();
    s.agent = Some(AgentStub::default());
    let mut seen = Vec::new();
    finalize_invoke_session_end_hook(&s, |sid: &str, completed: bool, interrupted: bool, model: &str, platform: &str| {
        seen.push(format!("{}|{}|{}|{}|{}", sid, completed, interrupted, model, platform));
    });
    assert_eq!(seen, vec!["key-1|false|true|unknown|tui".to_string()]);

    let none = Session::default();
    finalize_invoke_session_end_hook(&none, |_: &str, _: bool, _: bool, _: &str, _: &str| panic!("no agent"));

    let mut notes = Vec::new();
    finalize_notify_boundary(&s, Some("sess-1"), |ev: &str, sid: &str, src: &str| {
        notes.push(format!("{}|{}|{}", ev, sid, src))
    });
    finalize_notify_boundary(&s, None, |ev: &str, sid: &str, src: &str| {
        notes.push(format!("{}|{}|{}", ev, sid, src))
    });
    assert_eq!(notes, vec![
        "on_session_finalize|sess-1|desktop".to_string(),
        "on_session_finalize||desktop".to_string(),
    ]);

    assert!(finalize_commit_memory(&s, &["m".to_string()], |_: &[String]| {}));
    assert!(!finalize_commit_memory(&s, &[], |_: &[String]| panic!("empty history")));
    assert!(!finalize_commit_memory(&none, &["m".to_string()], |_: &[String]| panic!("no agent")));
}

#[test]
fn finalize_interrupt_recovers_the_live_id() {
    let mut reg = SessionsRegistry::new();
    let mut live = sess_with("k1", 1.0, false, TransportKind::Stdio);
    live.sid = None;
    reg.insert("other".into(), sess_with("k0", 1.0, false, TransportKind::Stdio));
    reg.insert("live-1".into(), live.clone());
    let mut calls = Vec::new();
    finalize_interrupt_delegations(&live, &reg, "idle_timeout", true, Some("k1"), |k: &str, sid: &str, why: &str| {
        calls.push((k.to_string(), sid.to_string(), why.to_string()))
    });
    finalize_interrupt_delegations(&live, &reg, "idle_timeout", false, Some("k1"), |k: &str, sid: &str, why: &str| {
        calls.push((k.to_string(), sid.to_string(), why.to_string()))
    });
    assert_eq!(calls, vec![
        ("k1".to_string(), "live-1".to_string(), "idle_timeout".to_string()),
        (String::new(), "live-1".to_string(), "idle_timeout".to_string()),
    ]);
}

#[test]
fn finalize_ownership_without_id_and_worker_close() {
    let s = Session::default();
    let own = finalize_db_ownership(&s, "tui_close", |_: &str| panic!("no id"), is_gateway_owned_source, |_: &str, _: &str| {});
    assert!(own.tui_owns_lifecycle);
    assert!(own.session_id.is_none());

    let mut keyed = Session::default();
    keyed.session_key = Some("key-2".into());
    let mut ended = Vec::new();
    let own2 = finalize_db_ownership(&keyed, "lru_evict", |_: &str| None, is_gateway_owned_source, |id: &str, why: &str| {
        ended.push((id.to_string(), why.to_string()))
    });
    assert!(own2.tui_owns_lifecycle);
    assert_eq!(ended, vec![("key-2".to_string(), "lru_evict".to_string())]);

    let mut w = Session::default();
    w.slash_worker = Some(SlashWorkerStub { closed: false });
    finalize_close_slash_worker(&mut w);
    assert!(w.slash_worker.unwrap().closed);
    let mut n = Session::default();
    finalize_close_slash_worker(&mut n);
    assert!(n.slash_worker.is_none());
}

#[test]
fn teardown_unregisters_and_closes_agent() {
    let mut s = Session::default();
    s.session_key = Some("key-3".into());
    s.agent = Some(AgentStub::default());
    let mut unregistered = Vec::new();
    teardown_session(&mut s, "tui_close", |k: &str| unregistered.push(k.to_string()), |a: &mut AgentStub| {
        a.model = "closed".into()
    });
    assert_eq!(unregistered, vec!["key-3".to_string()]);
    assert_eq!(s.agent.unwrap().model, "closed");
    let mut bare = Session::default();
    teardown_session(&mut bare, "tui_close", |_: &str| panic!("no key"), |_: &mut AgentStub| panic!("no agent"));
}

#[test]
fn delegation_selectors_and_activity() {
    let mut reg = SessionsRegistry::new();
    let mut s = sess_with("k1", 1.0, false, TransportKind::Stdio);
    s.sid = None;
    reg.insert("ui-1".into(), s.clone());
    let tui = |_: &str| Some("tui".to_string());
    let (own, owned) = session_async_delegation_selectors(Some(&s), "", Some(&reg), tui, is_gateway_owned_source);
    assert_eq!((own.as_str(), owned.as_str()), ("ui-1", "k1"));
    let (own2, owned2) = session_async_delegation_selectors(
        Some(&s),
        "hint",
        Some(&reg),
        |_: &str| Some("telegram".to_string()),
        is_gateway_owned_source,
    );
    assert_eq!((own2.as_str(), owned2.as_str()), ("hint", ""));
    let (e1, e2) = session_async_delegation_selectors(None, "hint", None, tui, is_gateway_owned_source);
    assert!(e1.is_empty() && e2.is_empty());

    let mut asked = Vec::new();
    let live = session_has_active_delegations("ui-1", Some(&s), Some(&reg), tui, is_gateway_owned_source, |k: &str, sid: &str| {
        k == "k1" && sid == "ui-1"
    });
    assert!(live);
    asked.push(live);
    assert!(!session_has_active_delegations("", None, None, tui, is_gateway_owned_source, |_: &str, _: &str| true));
    assert!(session_owns_durable_lifecycle(Some("x"), |_: &str| None, is_gateway_owned_source));
    assert!(!session_owns_durable_lifecycle(Some("x"), |_: &str| Some("slack".into()), is_gateway_owned_source));
    assert!(session_owns_durable_lifecycle(None, |_: &str| Some("slack".into()), is_gateway_owned_source));
    assert_eq!(asked.len(), 1);
}

#[test]
fn reap_step_budget_and_noops() {
    let s = sess_with("k", 1.0, false, TransportKind::DetachedWs);
    assert_eq!(ws_orphan_reap_step(None, true, false, false, 3, 60, false), (ReapAction::Noop, 3, false));
    assert_eq!(ws_orphan_reap_step(Some(&s), false, true, true, 3, 60, false), (ReapAction::Noop, 3, false));
    let max = WS_ORPHAN_INTERRUPT_MAX_POLLS;
    assert_eq!(ws_orphan_reap_step(Some(&s), true, false, true, max, max, true), (ReapAction::Reap, max + 1, false));
    assert_eq!(ws_orphan_reap_step(Some(&s), true, false, true, max - 1, max, true), (ReapAction::ReschedulePoll, max, false));
    assert!(should_schedule_ws_orphan_reap(1));
    assert!(!should_schedule_ws_orphan_reap(0));
}

#[test]
fn disconnect_skips_other_transports_and_prefers_newest_viewer() {
    let mut reg = SessionsRegistry::new();
    let t = TransportKind::Live { closed: false, peer: "p1".into() };
    let mut s = sess_with("k", 1.0, false, t.clone());
    s.client_gone_interrupt_requested = true;
    s.viewers.push(("old".into(), ViewerEntry { transport: TransportKind::Live { closed: false, peer: "old".into() }, timestamp: 100 }));
    s.viewers.push(("p1".into(), ViewerEntry { transport: t.clone(), timestamp: 300 }));
    s.viewers.push(("new".into(), ViewerEntry { transport: TransportKind::Live { closed: false, peer: "new".into() }, timestamp: 200 }));
    s.viewers.push(("gone".into(), ViewerEntry { transport: TransportKind::Live { closed: true, peer: "gone".into() }, timestamp: 900 }));
    reg.insert("s".into(), s);
    reg.insert("other".into(), sess_with("ko", 1.0, false, TransportKind::Stdio));
    let mut parked = Vec::new();
    let mut pending = PendingWsReaps::new();
    let res = close_sessions_for_transport(
        &mut reg,
        &t,
        "ws_disconnect",
        &mut pending,
        20_000,
        |k: &TransportKind| transport_is_dead(k),
        |_: &str, _: &str| panic!("nothing closes on disconnect"),
        |sid: &str| parked.push(sid.to_string()),
    );
    assert_eq!((res.reaped, res.detached), (0, 0));
    let s = reg.get("s").unwrap();
    assert_eq!(s.transport, TransportKind::Live { closed: false, peer: "new".into() });
    assert_eq!(s.viewers.len(), 3);
    assert!(s.client_gone_interrupt_requested);
    assert_eq!(reg.get("other").unwrap().transport, TransportKind::Stdio);
    assert!(parked.is_empty());
    assert!(pending.is_empty());
}

#[test]
fn cap_enforcement_closes_oldest_first_until_under_cap() {
    let mut reg = SessionsRegistry::new();
    reg.insert("mid".into(), sess_with("k2", 1.0, false, TransportKind::DetachedWs));
    reg.insert("oldest".into(), sess_with("k1", 2.0, false, TransportKind::DetachedWs));
    reg.insert("live".into(), sess_with("k3", 3.0, false, TransportKind::Stdio));
    reg.insert("newest".into(), sess_with("k4", 0.5, false, TransportKind::DetachedWs));
    let mut closed = Vec::new();
    let n = enforce_session_cap(&mut reg, 2, |_: &str, _: Option<&Session>| false, |sid: &str, why: &str| {
        assert_eq!(why, "lru_evict");
        closed.push(sid.to_string());
        true
    });
    assert_eq!(n, 2);
    assert_eq!(closed, vec!["oldest".to_string(), "mid".to_string()]);
    assert_eq!(reg.len(), 4);
    assert_eq!(enforce_session_cap(&mut reg, 0, |_: &str, _: Option<&Session>| false, |_: &str, _: &str| true), 0);
    assert_eq!(enforce_session_cap(&mut reg, 4, |_: &str, _: Option<&Session>| false, |_: &str, _: &str| true), 0);
}

#[test]
fn idle_victims_in_order_and_leases() {
    let now: i64 = 1_000_000_000;
    let mut reg = SessionsRegistry::new();
    let mut a = sess_with("ka", 2.0, false, TransportKind::DetachedWs);
    a.active_session_lease = Some("L1".into());
    let mut b = sess_with("kb", 3.0, false, TransportKind::Live { closed: true, peer: "x".into() });
    b.active_session_lease = Some("L1".into());
    let mut c = sess_with("kc", 3.0, false, TransportKind::DetachedWs);
    c.extras.push(("_pending_kind".into(), "approval".into()));
    c.active_session_lease = Some("L2".into());
    let mut d = sess_with("kd", 3.0, false, TransportKind::DetachedWs);
    d.active_session_lease = Some(String::new());
    reg.insert("a".into(), a);
    reg.insert("b".into(), b);
    reg.insert("c".into(), c);
    reg.insert("d".into(), d);
    let victims = collect_idle_victims(&reg, now, TTL_MS, |_: &str, _: Option<&Session>| false);
    assert_eq!(victims, vec!["a".to_string(), "b".to_string(), "d".to_string()]);
    assert!(session_has_pending_kind(reg.get("c").unwrap()));
    assert!(!session_has_pending_kind(reg.get("a").unwrap()));
    assert!(session_transport_dead(reg.get("b").unwrap()));
    assert_eq!(live_lease_ids(&reg), vec!["L1".to_string(), "L2".to_string()]);
}

#[test]
fn small_helpers() {
    let mut s = Session::default();
    assert_eq!(session_source(Some(&s)), "");
    s.source = "cli".into();
    assert_eq!(session_source(Some(&s)), "cli");
    assert_eq!(session_source(None), "");
    let mut reasons = Vec::new();
    idle_reaper_trim_memory(|r: &str| reasons.push(r.to_string()));
    assert_eq!(reasons, vec!["idle reaper periodic trim".to_string()]);
}

#[test]
fn interrupt_dead_turn_clears_queue_and_denies_approvals() {
    let mut s = sess_with("k", 1.0, true, TransportKind::Live { closed: false, peer: "ws".into() });
    s.session_key = Some("k".into());
    s.queued_prompt = Some("hello".into());
    s.queued_prompts = Some(vec!["a".into()]);
    assert!(s.agent.is_none() && s.run_thread.is_none());
    let mut pending: Vec<String> = Vec::new();
    let mut denied: Vec<String> = Vec::new();
    let mut supervised = false;
    let mut cleared: Vec<bool> = Vec::new();
    let out = interrupt_session_turn(
        "sid-1",
        &mut s,
        Some("req-1"),
        false,
        |_: &str, _: Option<&str>| supervised = true,
        |_: &mut AgentStub| {},
        |sid: &str| pending.push(sid.to_string()),
        |key: &str| denied.push(key.to_string()),
        |sess: &mut Session| cleared.push(sess.running),
    );
    assert!(!out.used_compute_host);
    assert!(out.hard_interrupted);
    assert!(s.turn_cancel_requested);
    assert!(s.queued_prompt.is_none());
    assert!(s.queued_prompts.is_none());
    assert_eq!(s.queued_prompt_generation, 1);
    assert!(!s.running);
    assert_eq!(cleared, vec![false]);
    assert_eq!(pending, vec!["sid-1".to_string()]);
    assert_eq!(denied, vec!["k".to_string()]);
    assert!(!supervised);
}

#[test]
fn session_cap_integer_settings() {
    assert_eq!(session_cap_int(None), Some(0));
    assert_eq!(session_cap_int(Some("  ")), Some(0));
    assert_eq!(session_cap_int(Some("NULL")), Some(0));
    assert_eq!(session_cap_int(Some("None")), Some(0));
    assert_eq!(session_cap_int(Some(" 12 ")), Some(12));
    assert_eq!(session_cap_int(Some("-3")), Some(0));
    assert_eq!(session_cap_int(Some("2.5")), None);
    assert_eq!(session_cap_int(Some("lots")), None);
}

#[test]
fn close_on_transport_drop_touches_only_its_sessions() {
    let mut reg = SessionsRegistry::new();
    let mut s1 = sess_with("k1", 1.0, false, TransportKind::Live { closed: false, peer: "p1".into() });
    s1.close_on_disconnect = true;
    reg.insert("s1".to_string(), s1);
    let mut s2 = sess_with("k2", 1.0, false, TransportKind::Live { closed: false, peer: "p1".into() });
    s2.close_on_disconnect = false;
    reg.insert("s2".to_string(), s2);
    let mut s4 = sess_with("k4", 1.0, false, TransportKind::Live { closed: false, peer: "other".into() });
    s4.close_on_disconnect = true;
    reg.insert("s4".to_string(), s4);
    let mut pending = PendingWsReaps::new();
    let transport = TransportKind::Live { closed: false, peer: "p1".into() };
    let mut closed: Vec<(String, String)> = Vec::new();
    let mut scheduled: Vec<String> = Vec::new();
    let res = close_sessions_for_transport(
        &mut reg,
        &transport,
        "ws_disconnect",
        &mut pending,
        20_000,
        |k: &TransportKind| transport_is_dead(k),
        |sid: &str, reason: &str| {
            closed.push((sid.to_string(), reason.to_string()));
            true
        },
        |sid: &str| scheduled.push(sid.to_string()),
    );
    assert_eq!(res.reaped, 1);
    assert_eq!(res.detached, 1);
    assert_eq!(closed, vec![("s1".to_string(), "ws_disconnect".to_string())]);
    assert_eq!(scheduled, vec!["s2".to_string()]);
}
