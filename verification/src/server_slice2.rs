//! The gateway's session lifecycle: the live-session registry, finalising and tearing
//! sessions down, closing one through a single funnel, interrupting a turn, parking the
//! sessions of a dropped WebSocket and reaping them when orphaned, and idle and LRU
//! eviction. Times are milliseconds on one clock; calls to the database, hooks and timers
//! are callbacks.
use std::sync::Arc;
use std::sync::atomic::AtomicBool;
use vstd::prelude::*;
use crate::server_slice3::{pair_lookup, pair_lookup_exec};
use crate::text::{accepts_all_text, called_with, chars_eq_str, opt_string, opt_text, own_str, to_chars};

verus! {

/// Env var for the session TTL.
pub const ENV_SESSION_TTL_S: &'static str = "HERMES_TUI_SESSION_TTL_S";

/// Env var for the WS orphan reap grace.
pub const ENV_WS_ORPHAN_REAP_GRACE_S: &'static str = "HERMES_TUI_WS_ORPHAN_REAP_GRACE_S";

/// Config key of the WS orphan reap grace.
pub const CFG_WS_ORPHAN_REAP_GRACE: &'static str = "dashboard.ws_orphan_reap_grace_s";

/// Polls of a running detached turn before it is reaped anyway.
pub const WS_ORPHAN_INTERRUPT_MAX_POLLS: usize = 60;

/// The end reasons that get a global `session.reclaimed` broadcast.
pub const RECLAIM_END_REASONS: [&'static str; 3] = ["idle_timeout", "lru_evict", "ws_orphan_reap"];

/// Sources that are not the messaging gateway's.
pub const NON_GATEWAY_SOURCES: [&'static str; 14] = [
    "",
    "tui",
    "cli",
    "webui",
    "desktop",
    "cron",
    "kanban",
    "subagent",
    "test",
    "local",
    "acp",
    "webhook",
    "api_server",
    "msgraph_webhook",
];

/// `reason` warrants a `session.reclaimed` broadcast.
pub open spec fn reclaim_reason(reason: Seq<char>) -> bool {
    reason == "idle_timeout"@ || reason == "lru_evict"@ || reason == "ws_orphan_reap"@
}

pub fn is_reclaim_reason(reason: &str) -> (r: bool)
    ensures
        r == reclaim_reason(reason@),
{
    let v = to_chars(reason);
    chars_eq_str(v.as_slice(), "idle_timeout") || chars_eq_str(v.as_slice(), "lru_evict")
        || chars_eq_str(v.as_slice(), "ws_orphan_reap")
}

/// `source` is one of the non-gateway sources.
pub open spec fn non_gateway(source: Seq<char>) -> bool {
    exists|i: int| 0 <= i < 14 && #[trigger] NON_GATEWAY_SOURCES@[i]@ == source
}

fn is_non_gateway(source: &str) -> (r: bool)
    ensures
        r == non_gateway(source@),
{
    let v = to_chars(source);
    let table = NON_GATEWAY_SOURCES;
    let mut i: usize = 0;
    while i < 14
        invariant
            i <= 14,
            v@ == source@,
            table@ == NON_GATEWAY_SOURCES@,
            forall|t: int| 0 <= t < i ==> NON_GATEWAY_SOURCES@[t]@ != source@,
        decreases 14 - i,
    {
        let w = table[i];
        assert(w == NON_GATEWAY_SOURCES@[i as int]);
        if chars_eq_str(v.as_slice(), w) {
            assert(NON_GATEWAY_SOURCES@[i as int]@ == source@);
            return true;
        }
        i = i + 1;
    }
    false
}

/// A source is the gateway's unless it is one of the non-gateway sources.
pub fn is_gateway_owned_source(source: &str) -> (r: bool)
    ensures
        r == !non_gateway(source@),
{
    !is_non_gateway(source)
}

/// A source is the gateway's when it is not a non-gateway source and `is_platform` says it
/// names a gateway platform.
pub fn is_gateway_owned_source_with<P: Fn(&str) -> bool>(source: &str, is_platform: P) -> (r: bool)
    requires
        !non_gateway(source@) ==> forall|x: &str| x@ == source@ ==> #[trigger] is_platform.requires((x,)),
    ensures
        non_gateway(source@) ==> !r,
        !non_gateway(source@) ==> called_with(is_platform, source@, r),
{
    if is_non_gateway(source) {
        return false;
    }
    let r = is_platform(source);
    assert(called_with(is_platform, source@, r));
    r
}

/// Whether a TUI session owns its durable row: a missing or empty id does; otherwise the
/// source the database records (empty when it has no row) must not be the gateway's.
pub fn session_owns_durable_lifecycle_default<G: Fn(&str) -> Option<String>>(
    session_id: Option<&str>,
    get_source: G,
) -> (r: bool)
    requires
        session_id matches Some(x) ==> forall|y: &str| y@ == x@ && y@.len() > 0 ==> #[trigger] get_source.requires(
            (y,),
        ),
    ensures
        session_id.is_none() || session_id.unwrap()@.len() == 0 ==> r,
        session_id.is_some() && session_id.unwrap()@.len() > 0 ==> exists|src: Option<String>|
            #[trigger] called_with(get_source, session_id.unwrap()@, src) && r == non_gateway(
                match src {
                    Some(s) => s@,
                    None => Seq::empty(),
                },
            ),
{
    let sid = match session_id {
        None => {
            return true;
        },
        Some(s) => s,
    };
    let sv = to_chars(sid);
    if sv.len() == 0 {
        return true;
    }
    let src = get_source(sid);
    assert(called_with(get_source, sid@, src));
    let s = match &src {
        Some(x) => own_str(x.as_str()),
        None => {
            let e = String::new();
            assert(e@ =~= Seq::<char>::empty());
            e
        },
    };
    !is_gateway_owned_source(s.as_str())
}

/// Where a session's frames go.
#[derive(Debug, Clone, PartialEq, Eq)]
pub enum TransportKind {
    /// The real stdio transport of a standalone TUI (never dead).
    Stdio,
    /// The sentinel a session is parked on after its WebSocket dropped (always dead).
    DetachedWs,
    /// A socket transport, possibly latched closed.
    Live { closed: bool, peer: String },
}

impl TransportKind {
    pub fn stdio() -> (r: Self)
        ensures
            r == TransportKind::Stdio,
    {
        TransportKind::Stdio
    }

    pub fn detached_ws() -> (r: Self)
        ensures
            r == TransportKind::DetachedWs,
    {
        TransportKind::DetachedWs
    }

    pub fn live(peer: &str) -> (r: Self)
        ensures
            r matches TransportKind::Live { closed, peer: p } && !closed && p@ == peer@,
    {
        TransportKind::Live { closed: false, peer: own_str(peer) }
    }

    pub fn live_closed(peer: &str) -> (r: Self)
        ensures
            r matches TransportKind::Live { closed, peer: p } && closed && p@ == peer@,
    {
        TransportKind::Live { closed: true, peer: own_str(peer) }
    }
}

/// A transport is dead when it is the detached sentinel or a live one latched closed.
pub open spec fn dead_transport(kind: TransportKind) -> bool {
    match kind {
        TransportKind::DetachedWs => true,
        TransportKind::Live { closed, .. } => closed,
        TransportKind::Stdio => false,
    }
}

pub fn transport_is_dead(kind: &TransportKind) -> (r: bool)
    ensures
        r == dead_transport(*kind),
{
    match kind {
        TransportKind::DetachedWs => true,
        TransportKind::Live { closed, .. } => *closed,
        TransportKind::Stdio => false,
    }
}

/// The agent fields the lifecycle code reads.
#[derive(Debug, Clone, PartialEq, Eq, Default)]
pub struct AgentStub {
    pub session_id: Option<String>,
    pub model: String,
    pub platform: Option<String>,
    pub session_messages: Option<Vec<String>>,
    pub owns_session_db: bool,
}

/// A session's slash worker, as far as closing it goes.
#[derive(Debug, Clone, PartialEq, Eq, Default)]
pub struct SlashWorkerStub {
    pub closed: bool,
}

impl SlashWorkerStub {
    pub fn close(&mut self)
        ensures
            final(self).closed,
    {
        self.closed = true;
    }

    pub fn is_closed(&self) -> (r: bool)
        ensures
            r == self.closed,
    {
        self.closed
    }
}

/// A session's turn thread: whether it runs, and whether it is the calling thread.
#[derive(Debug, Clone, PartialEq, Eq)]
pub struct RunThreadState {
    pub alive: bool,
    pub is_current_thread: bool,
}

impl RunThreadState {
    pub fn alive_on_current() -> (r: Self)
        ensures
            r.alive && r.is_current_thread,
    {
        RunThreadState { alive: true, is_current_thread: true }
    }

    pub fn alive_on_other() -> (r: Self)
        ensures
            r.alive && !r.is_current_thread,
    {
        RunThreadState { alive: true, is_current_thread: false }
    }

    pub fn dead() -> (r: Self)
        ensures
            !r.alive && !r.is_current_thread,
    {
        RunThreadState { alive: false, is_current_thread: false }
    }
}

/// Who ends a finalised session's durable row.
#[derive(Debug, Clone, PartialEq, Eq)]
pub struct FinalizeOwnership {
    pub tui_owns_lifecycle: bool,
    pub session_id: Option<String>,
    pub session_key: Option<String>,
}

/// The payload of a `session.reclaimed` broadcast.
#[derive(Debug, Clone, PartialEq, Eq)]
pub struct ReclaimedPayload {
    pub session_id: String,
    pub stored_session_id: String,
    pub reason: String,
}

/// What an interrupt did.
#[derive(Debug, Clone, PartialEq, Eq)]
pub struct InterruptOutcome {
    pub used_compute_host: bool,
    pub hard_interrupted: bool,
}

/// What the orphan-reap timer decides.
#[derive(Debug, Clone, PartialEq, Eq)]
pub enum ReapAction {
    Noop,
    RescheduleGrace,
    ReschedulePoll,
    Reap,
    Interrupt,
}

/// The orphan reap waits another grace period exactly while the session still has live
/// background work.
pub fn ws_orphan_should_reschedule_grace(has_active: bool) -> (r: bool)
    ensures
        r == has_active,
{
    has_active
}

/// Sessions reaped and detached when a transport went away.
#[derive(Debug, Clone, Copy, PartialEq, Eq, Default)]
pub struct CloseTransportResult {
    pub reaped: usize,
    pub detached: usize,
}

/// The fate of one session when its transport disconnects.
#[derive(Debug, Clone, PartialEq, Eq)]
pub enum DisconnectFate {
    ReapedImmediate,
    Detached,
    ReboundToViewer { viewer_peer: String },
    SkippedResumedTransport,
}


// ---------------------------------------------------------------------------
// Maps keyed by live session id
// ---------------------------------------------------------------------------

/// No key occurs twice.
pub open spec fn unique_keys<V>(v: Seq<(Seq<char>, V)>) -> bool {
    forall|i: int, j: int|
        0 <= i < v.len() && 0 <= j < v.len() && i != j ==> #[trigger] v[i].0 != #[trigger] v[j].0
}

/// Some entry has key `k`.
pub open spec fn has_sid<V>(v: Seq<(Seq<char>, V)>, k: Seq<char>) -> bool {
    exists|i: int| 0 <= i < v.len() && #[trigger] v[i].0 == k
}

/// The value stored under `k`, if any.
pub open spec fn lookup<V>(v: Seq<(Seq<char>, V)>, k: Seq<char>) -> Option<V> {
    if has_sid(v, k) {
        Some(v[choose|i: int| 0 <= i < v.len() && #[trigger] v[i].0 == k].1)
    } else {
        None
    }
}

/// With unique keys, the value under a key is the one of the entry that holds it.
pub proof fn lemma_lookup_at<V>(v: Seq<(Seq<char>, V)>, i: int)
    requires
        unique_keys(v),
        0 <= i < v.len(),
    ensures
        lookup(v, v[i].0) == Some(v[i].1),
{
    let k = v[i].0;
    assert(has_sid(v, k));
    let j = choose|j: int| 0 <= j < v.len() && #[trigger] v[j].0 == k;
    assert(v[j].0 == v[i].0);
}

/// A map from live session id to `V`, in insertion order, with no id twice.
#[derive(Debug)]
pub struct SidMap<V> {
    entries: Vec<(String, V)>,
}

impl<V: Clone> Clone for SidMap<V> {
    /// A copy with the same ids in the same order; each value is cloned.
    fn clone(&self) -> (r: Self)
        ensures
            r@.len() == self@.len(),
            forall|i: int| 0 <= i < r@.len() ==> (#[trigger] r@[i]).0 == self@[i].0,
    {
        proof {
            use_type_invariant(self);
        }
        let mut out: Vec<(String, V)> = Vec::new();
        let mut i: usize = 0;
        while i < self.entries.len()
            invariant
                i <= self.entries@.len(),
                self@.len() == self.entries@.len(),
                out@.len() == i,
                forall|j: int| 0 <= j < i ==> (#[trigger] out@[j]).0@ == self@[j].0,
            decreases self.entries@.len() - i,
        {
            assert(self@[i as int].0 == self.entries@[i as int].0@);
            out.push((own_str(self.entries[i].0.as_str()), self.entries[i].1.clone()));
            i = i + 1;
        }
        let ghost v = out@.map_values(|e: (String, V)| (e.0@, e.1));
        assert forall|a: int, b: int|
            0 <= a < v.len() && 0 <= b < v.len() && a != b implies #[trigger] v[a].0 != #[trigger] v[b].0 by {
            assert(v[a].0 == self@[a].0);
            assert(v[b].0 == self@[b].0);
        }
        SidMap { entries: out }
    }
}

impl<V> View for SidMap<V> {
    type V = Seq<(Seq<char>, V)>;

    closed spec fn view(&self) -> Seq<(Seq<char>, V)> {
        self.entries@.map_values(|e: (String, V)| (e.0@, e.1))
    }
}

impl<V> SidMap<V> {
    /// No id occurs twice.
    #[verifier::type_invariant]
    spec fn wf(&self) -> bool {
        unique_keys(self@)
    }

    pub fn new() -> (r: Self)
        ensures
            r@ == Seq::<(Seq<char>, V)>::empty(),
    {
        let entries: Vec<(String, V)> = Vec::new();
        assert(entries@.map_values(|e: (String, V)| (e.0@, e.1)) =~= Seq::<(Seq<char>, V)>::empty());
        SidMap { entries }
    }

    pub fn len(&self) -> (r: usize)
        ensures
            r == self@.len(),
    {
        self.entries.len()
    }

    pub fn is_empty(&self) -> (r: bool)
        ensures
            r == (self@.len() == 0),
    {
        self.entries.len() == 0
    }

    /// The id of the entry at `i`.
    pub fn key_at(&self, i: usize) -> (r: &String)
        requires
            i < self@.len(),
        ensures
            r@ == self@[i as int].0,
    {
        &self.entries[i].0
    }

    /// The value of the entry at `i`.
    pub fn value_at(&self, i: usize) -> (r: &V)
        requires
            i < self@.len(),
        ensures
            *r == self@[i as int].1,
    {
        &self.entries[i].1
    }

    /// The position of `sid`, if it is present.
    pub fn position(&self, sid: &str) -> (r: Option<usize>)
        ensures
            match r {
                Some(i) => i < self@.len() && self@[i as int].0 == sid@,
                None => !has_sid(self@, sid@),
            },
    {
        let key = own_str(sid);
        let mut i: usize = 0;
        while i < self.entries.len()
            invariant
                i <= self.entries@.len(),
                self@.len() == self.entries@.len(),
                key@ == sid@,
                forall|j: int| 0 <= j < i ==> self@[j].0 != sid@,
            decreases self.entries@.len() - i,
        {
            assert(self@[i as int] == (self.entries@[i as int].0@, self.entries@[i as int].1));
            if self.entries[i].0 == key {
                return Some(i);
            }
            i = i + 1;
        }
        proof {
            if has_sid(self@, sid@) {
                let j = choose|j: int| 0 <= j < self@.len() && #[trigger] self@[j].0 == sid@;
                assert(self@[j].0 != sid@);
            }
        }
        None
    }

    pub fn contains_key(&self, sid: &str) -> (r: bool)
        ensures
            r == has_sid(self@, sid@),
    {
        self.position(sid).is_some()
    }

    pub fn get(&self, sid: &str) -> (r: Option<&V>)
        ensures
            match r {
                Some(x) => lookup(self@, sid@) == Some(*x),
                None => lookup(self@, sid@) is None,
            },
    {
        proof {
            use_type_invariant(self);
        }
        match self.position(sid) {
            Some(i) => {
                proof {
                    lemma_lookup_at(self@, i as int);
                }
                Some(&self.entries[i].1)
            },
            None => None,
        }
    }

    /// Puts `v` under `sid`: in place of the value there, or as a new last entry.
    pub fn insert(&mut self, sid: String, v: V) -> (r: Option<V>)
        ensures
            match r {
                Some(o) => exists|i: int|
                    0 <= i < old(self)@.len() && #[trigger] old(self)@[i] == (sid@, o)
                        && final(self)@ == old(self)@.update(i, (sid@, v)),
                None => !has_sid(old(self)@, sid@) && final(self)@ == old(self)@.push((sid@, v)),
            },
    {
        proof {
            use_type_invariant(&*self);
        }
        let ghost before = self@;
        let pos = self.position(sid.as_str());
        let mut entries: Vec<(String, V)> = Vec::new();
        std::mem::swap(&mut entries, &mut self.entries);
        assert(entries@.map_values(|e: (String, V)| (e.0@, e.1)) == before);
        match pos {
            Some(i) => {
                let ghost sv = sid@;
                let (k, o) = entries.remove(i);
                entries.insert(i, (k, v));
                let ghost after = entries@.map_values(|e: (String, V)| (e.0@, e.1));
                proof {
                    assert(after =~= before.update(i as int, (sv, v)));
                    assert(before[i as int] == (sv, o));
                    assert forall|a: int, b: int|
                        0 <= a < after.len() && 0 <= b < after.len() && a != b implies #[trigger] after[a].0
                        != #[trigger] after[b].0 by {
                        assert(after[a].0 == before[a].0);
                        assert(after[b].0 == before[b].0);
                    }
                }
                self.entries = entries;
                Some(o)
            },
            None => {
                let ghost sv = sid@;
                entries.push((sid, v));
                let ghost after = entries@.map_values(|e: (String, V)| (e.0@, e.1));
                proof {
                    assert(after =~= before.push((sv, v)));
                    assert forall|a: int, b: int|
                        0 <= a < after.len() && 0 <= b < after.len() && a != b implies #[trigger] after[a].0
                        != #[trigger] after[b].0 by {
                        if a == before.len() as int {
                            assert(before[b].0 == after[b].0);
                        } else if b == before.len() as int {
                            assert(before[a].0 == after[a].0);
                        }
                    }
                }
                self.entries = entries;
                None
            },
        }
    }

    /// Takes the entry under `sid` out, keeping the order of the others.
    pub fn remove(&mut self, sid: &str) -> (r: Option<V>)
        ensures
            !has_sid(final(self)@, sid@),
            match r {
                Some(o) => exists|i: int|
                    0 <= i < old(self)@.len() && #[trigger] old(self)@[i] == (sid@, o)
                        && final(self)@ == old(self)@.remove(i),
                None => !has_sid(old(self)@, sid@) && final(self)@ == old(self)@,
            },
    {
        proof {
            use_type_invariant(&*self);
        }
        match self.position(sid) {
            Some(i) => {
                let ghost before = self@;
                let mut entries: Vec<(String, V)> = Vec::new();
                std::mem::swap(&mut entries, &mut self.entries);
                assert(entries@.map_values(|e: (String, V)| (e.0@, e.1)) == before);
                let (_k, o) = entries.remove(i);
                let ghost after = entries@.map_values(|e: (String, V)| (e.0@, e.1));
                proof {
                    assert(after =~= before.remove(i as int));
                    assert(before[i as int] == (sid@, o));
                    assert forall|a: int, b: int|
                        0 <= a < after.len() && 0 <= b < after.len() && a != b implies #[trigger] after[a].0
                        != #[trigger] after[b].0 by {
                        let a0 = if a < i { a } else { a + 1 };
                        let b0 = if b < i { b } else { b + 1 };
                        assert(after[a] == before[a0]);
                        assert(after[b] == before[b0]);
                    }
                    if has_sid(after, sid@) {
                        let j = choose|j: int| 0 <= j < after.len() && #[trigger] after[j].0 == sid@;
                        let j0 = if j < i { j } else { j + 1 };
                        assert(after[j] == before[j0]);
                        assert(before[j0].0 == before[i as int].0);
                    }
                }
                self.entries = entries;
                Some(o)
            },
            None => None,
        }
    }

    /// The ids, in order.
    pub fn keys(&self) -> (r: Vec<String>)
        ensures
            r@.len() == self@.len(),
            forall|i: int| 0 <= i < r@.len() ==> #[trigger] r@[i]@ == self@[i].0,
    {
        let mut out: Vec<String> = Vec::new();
        let mut i: usize = 0;
        while i < self.entries.len()
            invariant
                i <= self.entries@.len(),
                self@.len() == self.entries@.len(),
                out@.len() == i,
                forall|j: int| 0 <= j < i ==> #[trigger] out@[j]@ == self@[j].0,
            decreases self.entries@.len() - i,
        {
            out.push(self.entries[i].0.clone());
            i = i + 1;
        }
        out
    }

    /// Takes the entry at `i` out.
    fn take_at(&mut self, i: usize) -> (r: (String, V))
        requires
            i < old(self)@.len(),
        ensures
            (r.0@, r.1) == old(self)@[i as int],
            final(self)@ == old(self)@.remove(i as int),
            !has_sid(final(self)@, r.0@),
    {
        proof {
            use_type_invariant(&*self);
        }
        let ghost before = self@;
        let mut entries: Vec<(String, V)> = Vec::new();
        std::mem::swap(&mut entries, &mut self.entries);
        assert(entries@.map_values(|e: (String, V)| (e.0@, e.1)) == before);
        let r = entries.remove(i);
        let ghost after = entries@.map_values(|e: (String, V)| (e.0@, e.1));
        proof {
            assert(after =~= before.remove(i as int));
            assert forall|a: int, b: int|
                0 <= a < after.len() && 0 <= b < after.len() && a != b implies #[trigger] after[a].0
                != #[trigger] after[b].0 by {
                let a0 = if a < i { a } else { a + 1 };
                let b0 = if b < i { b } else { b + 1 };
                assert(after[a] == before[a0]);
                assert(after[b] == before[b0]);
            }
            if has_sid(after, r.0@) {
                let j = choose|j: int| 0 <= j < after.len() && #[trigger] after[j].0 == r.0@;
                let j0 = if j < i { j } else { j + 1 };
                assert(after[j] == before[j0]);
                assert(before[j0].0 == before[i as int].0);
            }
        }
        self.entries = entries;
        r
    }

    /// Puts an entry whose id is not present back at `i`.
    fn put_at(&mut self, i: usize, k: String, v: V)
        requires
            i <= old(self)@.len(),
            !has_sid(old(self)@, k@),
        ensures
            final(self)@ == old(self)@.insert(i as int, (k@, v)),
    {
        proof {
            use_type_invariant(&*self);
        }
        let ghost kv = k@;
        let ghost before = self@;
        let mut entries: Vec<(String, V)> = Vec::new();
        std::mem::swap(&mut entries, &mut self.entries);
        assert(entries@.map_values(|e: (String, V)| (e.0@, e.1)) == before);
        entries.insert(i, (k, v));
        let ghost after = entries@.map_values(|e: (String, V)| (e.0@, e.1));
        proof {
            assert(after =~= before.insert(i as int, (kv, v)));
            assert forall|a: int, b: int|
                0 <= a < after.len() && 0 <= b < after.len() && a != b implies #[trigger] after[a].0
                != #[trigger] after[b].0 by {
                if a == i {
                    let b0 = if b < i { b } else { b - 1 };
                    assert(after[b] == before[b0]);
                } else if b == i {
                    let a0 = if a < i { a } else { a - 1 };
                    assert(after[a] == before[a0]);
                } else {
                    let a0 = if a < i { a } else { a - 1 };
                    let b0 = if b < i { b } else { b - 1 };
                    assert(after[a] == before[a0]);
                    assert(after[b] == before[b0]);
                }
            }
        }
        self.entries = entries;
    }
}


// ---------------------------------------------------------------------------
// Sessions
// ---------------------------------------------------------------------------

/// A viewer attached to a session: its transport and when it attached (milliseconds).
#[derive(Debug, Clone, PartialEq)]
pub struct ViewerEntry {
    pub transport: TransportKind,
    pub timestamp: i64,
}

/// A live gateway session, as far as its lifecycle goes. Times are milliseconds on one clock.
#[derive(Debug, Clone)]
pub struct Session {
    pub session_key: Option<String>,
    /// The live UI session id, stamped when the session is claimed for closing.
    pub sid: Option<String>,
    pub history: Vec<String>,
    pub finalized: bool,
    pub closing: bool,
    pub running: bool,
    pub transport: TransportKind,
    /// Viewers by peer name.
    pub viewers: Vec<(String, ViewerEntry)>,
    pub agent: Option<AgentStub>,
    pub slash_worker: Option<SlashWorkerStub>,
    /// Whether the agent-ready event is set, when the session has one.
    pub agent_ready_set: Option<bool>,
    pub lazy: bool,
    pub close_on_disconnect: bool,
    pub last_active: i64,
    pub created_at: i64,
    pub active_session_lease: Option<String>,
    pub client_gone_interrupt_requested: bool,
    pub client_gone_interrupt_polls: usize,
    pub run_thread: Option<RunThreadState>,
    pub queued_prompt: Option<String>,
    pub queued_prompts: Option<Vec<String>>,
    pub queued_prompt_generation: i64,
    pub turn_cancel_requested: bool,
    /// Further keys, by name.
    pub extras: Vec<(String, String)>,
    pub source: String,
}

impl Default for Session {
    fn default() -> (r: Self)
        ensures
            r.session_key is None,
            r.sid is None,
            r.history@.len() == 0,
            !r.finalized && !r.closing && !r.running,
            r.transport == TransportKind::Stdio,
            r.viewers@.len() == 0,
            r.agent is None && r.slash_worker is None && r.agent_ready_set is None,
            !r.lazy && !r.close_on_disconnect,
            r.last_active == 0 && r.created_at == 0,
            r.active_session_lease is None,
            !r.client_gone_interrupt_requested && r.client_gone_interrupt_polls == 0,
            r.run_thread is None,
            r.queued_prompt is None && r.queued_prompts is None,
            r.queued_prompt_generation == 0,
            !r.turn_cancel_requested,
            r.extras@.len() == 0,
            r.source@.len() == 0,
    {
        Session {
            session_key: None,
            sid: None,
            history: Vec::new(),
            finalized: false,
            closing: false,
            running: false,
            transport: TransportKind::Stdio,
            viewers: Vec::new(),
            agent: None,
            slash_worker: None,
            agent_ready_set: None,
            lazy: false,
            close_on_disconnect: false,
            last_active: 0,
            created_at: 0,
            active_session_lease: None,
            client_gone_interrupt_requested: false,
            client_gone_interrupt_polls: 0,
            run_thread: None,
            queued_prompt: None,
            queued_prompts: None,
            queued_prompt_generation: 0,
            turn_cancel_requested: false,
            extras: Vec::new(),
            source: String::new(),
        }
    }
}

/// The live sessions by UI session id.
pub type SessionsRegistry = SidMap<Session>;

/// The text of an optional string, empty when absent.
pub open spec fn text_or_empty(o: Option<String>) -> Seq<char> {
    match o {
        Some(s) => s@,
        None => Seq::empty(),
    }
}

/// A copy of an optional string.
fn clone_opt(o: &Option<String>) -> (r: Option<String>)
    ensures
        r == *o,
{
    match o {
        Some(s) => Some(s.clone()),
        None => None,
    }
}

/// The text of an optional string, empty when absent.
fn text_or_empty_exec(o: &Option<String>) -> (r: String)
    ensures
        r@ == text_or_empty(*o),
{
    match o {
        Some(s) => s.clone(),
        None => String::new(),
    }
}

/// Two optional strings hold the same text, or are both absent.
fn opt_text_eq(a: &Option<String>, b: &Option<String>) -> (r: bool)
    ensures
        r == (opt_string(*a) == opt_string(*b)),
{
    match (a, b) {
        (Some(x), Some(y)) => *x == *y,
        (None, None) => true,
        _ => false,
    }
}

/// The source a session was created with; empty without a session.
pub fn session_source(session: Option<&Session>) -> (r: String)
    ensures
        r@ == match session {
            Some(s) => s.source@,
            None => Seq::empty(),
        },
{
    match session {
        None => String::new(),
        Some(s) => s.source.clone(),
    }
}

/// `new` is `old` claimed for closing under UI session id `sid`.
pub open spec fn claimed(old: Session, new: Session, sid: Seq<char>) -> bool {
    &&& new == Session { closing: true, sid: new.sid, ..old }
    &&& new.sid matches Some(x) && x@ == sid
}

/// Detaches session `sid` from the registry, marked closing and stamped with its id: the
/// ownership claim of a close. `None` when no such session is live.
pub fn pop_session_by_id(registry: &mut SessionsRegistry, sid: &str) -> (r: Option<Session>)
    ensures
        !has_sid(final(registry)@, sid@),
        match r {
            Some(s) => exists|i: int|
                0 <= i < old(registry)@.len() && #[trigger] old(registry)@[i].0 == sid@
                    && claimed(old(registry)@[i].1, s, sid@) && final(registry)@ == old(registry)@.remove(i),
            None => !has_sid(old(registry)@, sid@) && final(registry)@ == old(registry)@,
        },
{
    match registry.position(sid) {
        None => None,
        Some(i) => {
            let (_k, mut session) = registry.take_at(i);
            session.closing = true;
            session.sid = Some(own_str(sid));
            Some(session)
        },
    }
}

/// Stores `worker` on session `sid` when that id still maps to a session with the same key;
/// otherwise the worker is closed and dropped. Says whether it was stored.
pub fn attach_worker(
    registry: &mut SessionsRegistry,
    sid: &str,
    session: Session,
    worker: SlashWorkerStub,
) -> (r: bool)
    ensures
        r == (has_sid(old(registry)@, sid@) && opt_string(lookup(old(registry)@, sid@).unwrap().session_key)
            == opt_string(session.session_key)),
        r ==> exists|i: int|
            0 <= i < old(registry)@.len() && #[trigger] old(registry)@[i].0 == sid@
                && final(registry)@ == old(registry)@.update(
                i,
                (sid@, Session { slash_worker: Some(worker), ..old(registry)@[i].1 }),
            ),
        !r ==> final(registry)@ == old(registry)@,
{
    proof {
        use_type_invariant(&*registry);
    }
    match registry.position(sid) {
        None => false,
        Some(i) => {
            proof {
                lemma_lookup_at(registry@, i as int);
            }
            let same = opt_text_eq(&registry.value_at(i).session_key, &session.session_key);
            if !same {
                let mut w = worker;
                w.close();
                return false;
            }
            let (k, mut cand) = registry.take_at(i);
            cand.slash_worker = Some(worker);
            registry.put_at(i, k, cand);
            proof {
                assert(registry@ =~= old(registry)@.update(
                    i as int,
                    (sid@, Session { slash_worker: Some(worker), ..old(registry)@[i as int].1 }),
                ));
            }
            true
        },
    }
}

/// Still bound to the disconnected-WebSocket sentinel and not finalised.
pub open spec fn detached_session(session: Option<&Session>) -> bool {
    session matches Some(s) && !s.finalized && s.transport == TransportKind::DetachedWs
}

pub fn ws_session_is_detached(session: Option<&Session>) -> (r: bool)
    ensures
        r == detached_session(session),
{
    match session {
        None => false,
        Some(s) => !s.finalized && match s.transport {
            TransportKind::DetachedWs => true,
            _ => false,
        },
    }
}

/// Detached and with no turn in flight.
pub fn ws_session_is_orphaned(session: Option<&Session>) -> (r: bool)
    ensures
        r == (detached_session(session) && !session.unwrap().running),
{
    match session {
        None => false,
        Some(s) => ws_session_is_detached(session) && !s.running,
    }
}

/// The session has a non-empty `_pending_kind` key: a gateway request waits on it.
pub open spec fn pending_kind(session: Session) -> bool {
    match pair_lookup(session.extras@, "_pending_kind"@, 0) {
        Some(v) => v@.len() > 0,
        None => false,
    }
}

pub fn session_has_pending_kind(session: &Session) -> (r: bool)
    ensures
        r == pending_kind(*session),
{
    let key = to_chars("_pending_kind");
    proof {
        reveal_strlit("_pending_kind");
    }
    match pair_lookup_exec(session.extras.as_slice(), key.as_slice()) {
        Some(i) => to_chars(session.extras[i].1.as_str()).len() > 0,
        None => false,
    }
}

pub fn session_transport_dead(session: &Session) -> (r: bool)
    ensures
        r == dead_transport(session.transport),
{
    transport_is_dead(&session.transport)
}

/// The `session.reclaimed` payload when `end_reason` is a reclaim reason: the live id and
/// the stored key, each empty when absent.
pub fn announce_session_reclaimed_payload(session: &Session, end_reason: &str) -> (r: Option<
    ReclaimedPayload,
>)
    ensures
        r is Some == reclaim_reason(end_reason@),
        r matches Some(p) ==> p.session_id@ == text_or_empty(session.sid) && p.stored_session_id@
            == text_or_empty(session.session_key) && p.reason@ == end_reason@,
{
    if !is_reclaim_reason(end_reason) {
        return None;
    }
    Some(
        ReclaimedPayload {
            session_id: text_or_empty_exec(&session.sid),
            stored_session_id: text_or_empty_exec(&session.session_key),
            reason: own_str(end_reason),
        },
    )
}

/// Hands the reclaim payload to `broadcast` when `end_reason` is a reclaim reason; says
/// whether it did.
pub fn announce_session_reclaimed<B: FnMut(&ReclaimedPayload)>(
    session: &Session,
    end_reason: &str,
    mut broadcast: B,
) -> (r: bool)
    requires
        reclaim_reason(end_reason@) ==> forall|p: &ReclaimedPayload| #[trigger] call_requires(broadcast, (p,)),
    ensures
        r == reclaim_reason(end_reason@),
{
    match announce_session_reclaimed_payload(session, end_reason) {
        Some(payload) => {
            broadcast(&payload);
            true
        },
        None => false,
    }
}

/// The agent has unflushed messages to persist.
pub open spec fn has_unflushed(session: Session) -> bool {
    session.agent matches Some(a) && a.session_messages matches Some(m) && m@.len() > 0
}

/// Hands the agent's unflushed messages to `persist`; says whether there were any.
pub fn finalize_persist_session<P: FnMut(&[String])>(session: &Session, mut persist: P) -> (r: bool)
    requires
        has_unflushed(*session) ==> forall|m: &[String]|
            m@ == session.agent->0.session_messages->0@ ==> #[trigger] call_requires(persist, (m,)),
    ensures
        r == has_unflushed(*session),
{
    if let Some(agent) = &session.agent {
        if let Some(msgs) = &agent.session_messages {
            if msgs.len() > 0 {
                persist(msgs.as_slice());
                return true;
            }
        }
    }
    false
}

/// Hands `history` to `commit` when the session has an agent and the history is not empty;
/// says whether it did.
pub fn finalize_commit_memory<C: FnMut(&[String])>(session: &Session, history: &[String], mut commit: C) -> (r:
    bool)
    requires
        session.agent is Some && history@.len() > 0 ==> forall|m: &[String]|
            m@ == history@ ==> #[trigger] call_requires(commit, (m,)),
    ensures
        r == (session.agent is Some && history@.len() > 0),
{
    if session.agent.is_none() || history.len() == 0 {
        return false;
    }
    commit(history);
    true
}

/// `s` with its slash worker, if any, closed.
pub open spec fn worker_closed(s: Session) -> Session {
    Session {
        slash_worker: match s.slash_worker {
            Some(_) => Some(SlashWorkerStub { closed: true }),
            None => None,
        },
        ..s
    }
}

/// Closes the session's slash worker, if it has one.
pub fn finalize_close_slash_worker(session: &mut Session)
    ensures
        *final(session) == worker_closed(*old(session)),
{
    if session.slash_worker.is_some() {
        session.slash_worker = Some(SlashWorkerStub { closed: true });
    }
}


// ---------------------------------------------------------------------------
// Finalising a session
// ---------------------------------------------------------------------------

/// `out` is a result that `f` may give, as its state was before any call, when called with a
/// `&str` whose text is `arg`.
pub open spec fn gave<T, F: FnMut(&str) -> T>(f: F, arg: Seq<char>, out: T) -> bool {
    exists|s: &str| s@ == arg && #[trigger] call_ensures(f, (s,), out)
}

/// The id whose durable row a finalise ends: the agent's session id, else the session key.
pub open spec fn finalize_session_id(session: Session) -> Option<String> {
    match session.agent {
        Some(a) => match a.session_id {
            Some(x) => Some(x),
            None => session.session_key,
        },
        None => session.session_key,
    }
}

/// Decides who owns the durable row of a session being finalised, and ends the row when the
/// TUI owns it. Without an id, or with an empty one, the TUI owns it. Otherwise the source
/// `get_source` gives for the id (empty when there is no row) decides: the TUI owns the row
/// unless `is_gateway_owned` says that source is the gateway's. The callbacks are called
/// directly; one that panics is not caught.
pub fn finalize_db_ownership<
    G: FnMut(&str) -> Option<String>,
    O: Fn(&str) -> bool,
    E: FnMut(&str, &str),
>(
    session: &Session,
    end_reason: &str,
    mut get_source: G,
    is_gateway_owned: O,
    mut end_session_cb: E,
) -> (r: FinalizeOwnership)
    requires
        forall|s: &str|
            s@ == text_or_empty(finalize_session_id(*session)) && s@.len() > 0 ==> #[trigger] call_requires(
                get_source,
                (s,),
            ),
        forall|y: &str|
            (exists|src: Option<String>|
                gave(get_source, text_or_empty(finalize_session_id(*session)), src) && y@ == text_or_empty(
                    src,
                )) ==> #[trigger] is_gateway_owned.requires((y,)),
        forall|a: &str, b: &str|
            a@ == text_or_empty(finalize_session_id(*session)) && a@.len() > 0 && b@ == end_reason@
                ==> #[trigger] call_requires(end_session_cb, (a, b)),
    ensures
        r.session_key == session.session_key,
        r.session_id == finalize_session_id(*session),
        text_or_empty(r.session_id).len() == 0 ==> r.tui_owns_lifecycle,
        text_or_empty(r.session_id).len() > 0 ==> exists|src: Option<String>, g: bool|
            #[trigger] gave(get_source, text_or_empty(r.session_id), src) && #[trigger] called_with(
                is_gateway_owned,
                text_or_empty(src),
                g,
            ) && r.tui_owns_lifecycle == !g,
{
    let session_key = clone_opt(&session.session_key);
    let session_id = match &session.agent {
        Some(a) => match &a.session_id {
            Some(x) => Some(x.clone()),
            None => clone_opt(&session.session_key),
        },
        None => clone_opt(&session.session_key),
    };
    let mut owns = true;
    if let Some(sid) = &session_id {
        let sv = to_chars(sid.as_str());
        if sv.len() > 0 {
            let src = get_source(sid.as_str());
            assert(gave(get_source, sid@, src));
            let source = text_or_empty_exec(&src);
            let gateway_owned = is_gateway_owned(source.as_str());
            assert(called_with(is_gateway_owned, text_or_empty(src), gateway_owned));
            owns = !gateway_owned;
            if owns {
                end_session_cb(sid.as_str(), end_reason);
            }
        }
    }
    FinalizeOwnership { tui_owns_lifecycle: owns, session_id, session_key }
}

/// The session id the end hook reports: the agent's, else the session key, else empty.
pub open spec fn hook_session_id(session: Session, agent: AgentStub) -> Seq<char> {
    match agent.session_id {
        Some(x) => x@,
        None => text_or_empty(session.session_key),
    }
}

/// The model the end hook reports: the agent's, `unknown` when it has none.
pub open spec fn hook_model(agent: AgentStub) -> Seq<char> {
    if agent.model@.len() == 0 {
        "unknown"@
    } else {
        agent.model@
    }
}

/// The platform the end hook reports: the agent's, `tui` when it has none.
pub open spec fn hook_platform(agent: AgentStub) -> Seq<char> {
    match agent.platform {
        Some(p) => p@,
        None => "tui"@,
    }
}

/// Calls the `on_session_end` hook for a session with an agent: with its session id, not
/// completed, interrupted, its model and its platform.
pub fn finalize_invoke_session_end_hook<I: FnMut(&str, bool, bool, &str, &str)>(
    session: &Session,
    mut invoke: I,
)
    requires
        session.agent matches Some(agent) ==> forall|a: &str, m: &str, p: &str|
            a@ == hook_session_id(*session, agent) && m@ == hook_model(agent) && p@ == hook_platform(agent)
                ==> #[trigger] call_requires(invoke, (a, false, true, m, p)),
    ensures
        session.agent matches Some(agent) ==> exists|a: &str, m: &str, p: &str|
            a@ == hook_session_id(*session, agent) && m@ == hook_model(agent) && p@ == hook_platform(agent)
                && #[trigger] call_ensures(invoke, (a, false, true, m, p), ()),
{
    let agent = match &session.agent {
        Some(a) => a,
        None => {
            return;
        },
    };
    let sid = match &agent.session_id {
        Some(x) => x.clone(),
        None => text_or_empty_exec(&session.session_key),
    };
    let model = if to_chars(agent.model.as_str()).len() == 0 {
        proof {
            reveal_strlit("unknown");
        }
        own_str("unknown")
    } else {
        agent.model.clone()
    };
    let platform = match &agent.platform {
        Some(p) => p.clone(),
        None => {
            proof {
                reveal_strlit("tui");
            }
            own_str("tui")
        },
    };
    invoke(sid.as_str(), false, true, model.as_str(), platform.as_str());
}

/// Notifies the `on_session_finalize` boundary with the session id (empty when absent) and
/// the session's source.
pub fn finalize_notify_boundary<N: FnMut(&str, &str, &str)>(
    session: &Session,
    session_id: Option<&str>,
    mut notify: N,
)
    requires
        forall|a: &str, b: &str, c: &str|
            a@ == "on_session_finalize"@ && b@ == match session_id {
                Some(x) => x@,
                None => Seq::empty(),
            } && c@ == session.source@ ==> #[trigger] call_requires(notify, (a, b, c)),
    ensures
        exists|a: &str, b: &str, c: &str|
            a@ == "on_session_finalize"@ && b@ == match session_id {
                Some(x) => x@,
                None => Seq::empty(),
            } && c@ == session.source@ && #[trigger] call_ensures(notify, (a, b, c), ()),
{
    let sid: &str = match session_id {
        Some(x) => x,
        None => "",
    };
    proof {
        reveal_strlit("");
    }
    let src = session_source(Some(session));
    let a = "on_session_finalize";
    let c = src.as_str();
    assert(c@ == session.source@);
    assert(sid@ == match session_id {
        Some(x) => x@,
        None => Seq::<char>::empty(),
    });
    notify(a, sid, c);
}

/// The id of the first entry from `i` on holding a session with `key` and a history as long
/// as `len`.
pub open spec fn same_session_sid(
    v: Seq<(Seq<char>, Session)>,
    key: Option<Seq<char>>,
    len: nat,
    i: int,
) -> Option<Seq<char>>
    decreases v.len() - i,
{
    if i < 0 || i >= v.len() {
        None
    } else if opt_string(v[i].1.session_key) == key && v[i].1.history@.len() == len {
        Some(v[i].0)
    } else {
        same_session_sid(v, key, len, i + 1)
    }
}

/// The live id of a session being finalised: its stamped id, else the id of the first live
/// entry with the same key and history length, else empty.
pub open spec fn finalize_own_sid(session: Session, v: Seq<(Seq<char>, Session)>) -> Seq<char> {
    if text_or_empty(session.sid).len() > 0 {
        text_or_empty(session.sid)
    } else {
        match same_session_sid(v, opt_string(session.session_key), session.history@.len(), 0) {
            Some(k) => k,
            None => Seq::empty(),
        }
    }
}

/// The id of the first live entry holding a session with `key` and a history of `hlen`.
fn find_same_session(registry: &SessionsRegistry, key: &Option<String>, hlen: usize) -> (r: Option<String>)
    ensures
        opt_string(r) == same_session_sid(registry@, opt_string(*key), hlen as nat, 0),
{
    let n = registry.len();
    let mut i: usize = 0;
    while i < n
        invariant
            n == registry@.len(),
            i <= n,
            same_session_sid(registry@, opt_string(*key), hlen as nat, i as int) == same_session_sid(
                registry@,
                opt_string(*key),
                hlen as nat,
                0,
            ),
        decreases n - i,
    {
        let cand = registry.value_at(i);
        if opt_text_eq(&cand.session_key, key) && cand.history.len() == hlen {
            return Some(registry.key_at(i).clone());
        }
        i = i + 1;
    }
    None
}

/// Asks `interrupt` to stop the background work of a session being finalised: with the
/// session key when the TUI owns the session's lifecycle (else empty), the session's live id,
/// and the end reason.
pub fn finalize_interrupt_delegations<I: FnMut(&str, &str, &str)>(
    session: &Session,
    registry: &SessionsRegistry,
    end_reason: &str,
    tui_owns_lifecycle: bool,
    session_key: Option<&str>,
    mut interrupt: I,
)
    requires
        forall|a: &str, b: &str, c: &str|
            a@ == (if tui_owns_lifecycle {
                match session_key {
                    Some(k) => k@,
                    None => Seq::empty(),
                }
            } else {
                Seq::empty()
            }) && b@ == finalize_own_sid(*session, registry@) && c@ == end_reason@ ==> #[trigger] call_requires(
                interrupt,
                (a, b, c),
            ),
    ensures
        exists|a: &str, b: &str, c: &str|
            a@ == (if tui_owns_lifecycle {
                match session_key {
                    Some(k) => k@,
                    None => Seq::empty(),
                }
            } else {
                Seq::empty()
            }) && b@ == finalize_own_sid(*session, registry@) && c@ == end_reason@ && #[trigger] call_ensures(
                interrupt,
                (a, b, c),
                (),
            ),
{
    let mut own_sid = text_or_empty_exec(&session.sid);
    if to_chars(own_sid.as_str()).len() == 0 {
        own_sid = match find_same_session(registry, &session.session_key, session.history.len()) {
            Some(k) => k,
            None => String::new(),
        };
    }
    let key: &str = if tui_owns_lifecycle {
        match session_key {
            Some(k) => k,
            None => "",
        }
    } else {
        ""
    };
    proof {
        reveal_strlit("");
    }
    let b = own_sid.as_str();
    assert(b@ == finalize_own_sid(*session, registry@));
    assert(key@ == (if tui_owns_lifecycle {
        match session_key {
            Some(k) => k@,
            None => Seq::<char>::empty(),
        }
    } else {
        Seq::<char>::empty()
    }));
    interrupt(key, b, end_reason);
}


// ---------------------------------------------------------------------------
// Tearing a session down
// ---------------------------------------------------------------------------

/// Tears a finalised session down: hands its reclaim payload to a broadcast that does
/// nothing, unregisters its approval notifier under its key (when the key is not empty) and
/// closes its agent. Only the agent changes, and only through `close_agent`.
pub fn teardown_session<U: FnMut(&str), C: FnMut(&mut AgentStub)>(
    session: &mut Session,
    end_reason: &str,
    mut unregister_notify: U,
    mut close_agent: C,
)
    requires
        forall|k: &str|
            k@ == text_or_empty(old(session).session_key) && k@.len() > 0 ==> #[trigger] call_requires(
                unregister_notify,
                (k,),
            ),
        old(session).agent is Some ==> forall|a: &mut AgentStub|
            mut_ref_current(a) == old(session).agent.unwrap() ==> #[trigger] call_requires(close_agent, (a,)),
    ensures
        *final(session) == (Session { agent: final(session).agent, ..*old(session) }),
        old(session).agent is None ==> final(session).agent is None,
        old(session).agent is Some ==> exists|a: &mut AgentStub|
            mut_ref_current(a) == old(session).agent.unwrap() && #[trigger] call_ensures(
                close_agent,
                (a,),
                (),
            ) && final(session).agent == Some(mut_ref_future(a)),
        text_or_empty(old(session).session_key).len() > 0 ==> exists|k: &str|
            k@ == text_or_empty(old(session).session_key) && #[trigger] call_ensures(
                unregister_notify,
                (k,),
                (),
            ),
{
    let _ = announce_session_reclaimed(&*session, end_reason, |_p: &ReclaimedPayload| {});
    let key = text_or_empty_exec(&session.session_key);
    if to_chars(key.as_str()).len() > 0 {
        unregister_notify(key.as_str());
    }
    match &mut session.agent {
        Some(agent) => {
            close_agent(agent);
        },
        None => {},
    }
}

/// Finishes a close once the session has been detached from the registry: unless the end
/// reason is `tui_shutdown`, first waits for a turn thread that is not the calling one; then
/// hands the session and end reason to `teardown`. `false` when there is no session.
pub fn teardown_popped_session<W: FnMut(&RunThreadState) -> bool, T: FnMut(Session, &str)>(
    session: Option<Session>,
    end_reason: &str,
    mut wait_for_turn: W,
    mut teardown: T,
) -> (r: bool)
    requires
        session matches Some(s) ==> forall|u: &RunThreadState|
            s.run_thread == Some(*u) ==> #[trigger] call_requires(wait_for_turn, (u,)),
        session matches Some(s) ==> forall|x: Session, e: &str|
            x == s && e@ == end_reason@ ==> #[trigger] call_requires(teardown, (x, e)),
    ensures
        r == session is Some,
        session matches Some(s) ==> exists|e: &str|
            e@ == end_reason@ && #[trigger] call_ensures(teardown, (s, e), ()),
        session matches Some(s) ==> (end_reason@ != "tui_shutdown"@ ==> (s.run_thread matches Some(t)
            ==> (!t.is_current_thread ==> exists|b: bool| #[trigger] call_ensures(wait_for_turn, (&t,), b)))),
{
    let s = match session {
        Some(v) => v,
        None => {
            return false;
        },
    };
    let reason = to_chars(end_reason);
    proof {
        reveal_strlit("tui_shutdown");
    }
    if !chars_eq_str(reason.as_slice(), "tui_shutdown") {
        match &s.run_thread {
            Some(t) => {
                if !t.is_current_thread {
                    let _ = wait_for_turn(t);
                }
            },
            None => {},
        }
    }
    teardown(s, end_reason);
    true
}

/// Closes session `sid` through one funnel: when a predicate is given it must still hold of
/// the live session; then the session is detached from the registry and torn down. Says
/// whether it was.
pub fn close_session_by_id<
    P: Fn(&Session) -> bool,
    W: FnMut(&RunThreadState) -> bool,
    T: FnMut(Session, &str),
>(
    registry: &mut SessionsRegistry,
    sid: &str,
    end_reason: &str,
    predicate: Option<&P>,
    wait_for_turn: W,
    teardown: T,
) -> (r: bool)
    requires
        predicate matches Some(p) ==> forall|s: &Session|
            has_sid(old(registry)@, sid@) && *s == lookup(old(registry)@, sid@).unwrap() ==> #[trigger] call_requires(
                *p,
                (s,),
            ),
        has_sid(old(registry)@, sid@) ==> forall|u: &RunThreadState|
            lookup(old(registry)@, sid@).unwrap().run_thread == Some(*u) ==> #[trigger] call_requires(
                wait_for_turn,
                (u,),
            ),
        has_sid(old(registry)@, sid@) ==> forall|x: Session, e: &str|
            claimed(lookup(old(registry)@, sid@).unwrap(), x, sid@) && e@ == end_reason@
                ==> #[trigger] call_requires(teardown, (x, e)),
    ensures
        !has_sid(old(registry)@, sid@) ==> !r,
        has_sid(old(registry)@, sid@) && predicate is None ==> r,
        has_sid(old(registry)@, sid@) ==> (predicate matches Some(p) ==> exists|b: bool|
            #[trigger] call_ensures(*p, (&lookup(old(registry)@, sid@).unwrap(),), b) && r == b),
        r ==> exists|i: int|
            0 <= i < old(registry)@.len() && #[trigger] old(registry)@[i].0 == sid@
                && final(registry)@ == old(registry)@.remove(i),
        r ==> !has_sid(final(registry)@, sid@),
        !r ==> final(registry)@ == old(registry)@,
{
    if let Some(pred) = predicate {
        match registry.get(sid) {
            None => {
                return false;
            },
            Some(current) => {
                let keep = pred(current);
                assert(call_ensures(*pred, (current,), keep));
                assert(*current == lookup(registry@, sid@).unwrap());
                assert(call_ensures(*pred, (&lookup(registry@, sid@).unwrap(),), keep));
                if !keep {
                    return false;
                }
            },
        }
    }
    proof {
        use_type_invariant(&*registry);
    }
    let ghost before = registry@;
    let session = pop_session_by_id(registry, sid);
    proof {
        if session is Some {
            let sv = session->0;
            let i = choose|i: int|
                0 <= i < before.len() && #[trigger] before[i].0 == sid@ && claimed(before[i].1, sv, sid@)
                    && registry@ == before.remove(i);
            lemma_lookup_at(before, i);
        }
    }
    teardown_popped_session(session, end_reason, wait_for_turn, teardown)
}

/// The turn thread of `s` is alive.
pub open spec fn turn_alive(s: Session) -> bool {
    s.run_thread matches Some(t) && t.alive
}

/// `s` with its queued prompts dropped, a cancel requested and the queue generation bumped.
pub open spec fn queue_cancelled(s: Session) -> Session {
    Session {
        turn_cancel_requested: true,
        queued_prompt: None,
        queued_prompts: None,
        queued_prompt_generation: (s.queued_prompt_generation + 1) as i64,
        ..s
    }
}

/// Applies the `session.interrupt` contract to a claimed session. On a compute host a running
/// turn is interrupted through the supervisor. The queued prompts are dropped, a cancel is
/// requested and the queue generation bumped. Otherwise a running session takes the hard
/// interrupt path (its agent, if any, is handed to `request_hard_interrupt`), and a running session whose turn thread is gone is marked idle and handed to
/// `clear_inflight_turn`. Then the session's pending requests are cleared and its approvals
/// denied under its key (empty when absent).
pub fn interrupt_session_turn<
    S: FnMut(&str, Option<&str>),
    H: FnMut(&mut AgentStub),
    P: FnMut(&str),
    A: FnMut(&str),
    C: FnMut(&mut Session),
>(
    sid: &str,
    session: &mut Session,
    request_id: Option<&str>,
    use_compute_host: bool,
    mut supervisor_interrupt: S,
    mut request_hard_interrupt: H,
    mut clear_pending: P,
    mut resolve_approval: A,
    mut clear_inflight_turn: C,
) -> (r: InterruptOutcome)
    requires
        old(session).queued_prompt_generation < i64::MAX,
        use_compute_host && old(session).running ==> forall|a: &str, b: Option<&str>|
            a@ == sid@ && opt_text(b) == opt_text(request_id) ==> #[trigger] call_requires(
                supervisor_interrupt,
                (a, b),
            ),
        !use_compute_host && old(session).running && old(session).agent is Some ==> forall|a: &mut AgentStub|
            mut_ref_current(a) == old(session).agent.unwrap() ==> #[trigger] call_requires(
                request_hard_interrupt,
                (a,),
            ),
        forall|a: &str| a@ == sid@ ==> #[trigger] call_requires(clear_pending, (a,)),
        forall|a: &str|
            (a@ == text_or_empty(old(session).session_key) || (!use_compute_host && old(session).running
                && !turn_alive(*old(session)))) ==> #[trigger] call_requires(resolve_approval, (a,)),
        !use_compute_host && old(session).running && !turn_alive(*old(session)) ==> forall|m: &mut Session|
            mut_ref_current(m).running == false && mut_ref_current(m).session_key == old(
                session,
            ).session_key ==> #[trigger] call_requires(clear_inflight_turn, (m,)),
    ensures
        r.used_compute_host == use_compute_host,
        r.hard_interrupted == (!use_compute_host && old(session).running),
        use_compute_host && old(session).running ==> exists|a: &str, b: Option<&str>|
            a@ == sid@ && opt_text(b) == opt_text(request_id) && #[trigger] call_ensures(
                supervisor_interrupt,
                (a, b),
                (),
            ),
        exists|a: &str| a@ == sid@ && #[trigger] call_ensures(clear_pending, (a,), ()),
        !(!use_compute_host && old(session).running && !turn_alive(*old(session))) ==> {
            &&& *final(session) == (Session { agent: final(session).agent, ..queue_cancelled(*old(session)) })
            &&& !r.hard_interrupted ==> final(session).agent == old(session).agent
            &&& r.hard_interrupted && old(session).agent is None ==> final(session).agent is None
            &&& r.hard_interrupted && old(session).agent is Some ==> exists|h: &mut AgentStub|
                mut_ref_current(h) == old(session).agent.unwrap() && #[trigger] call_ensures(
                    request_hard_interrupt,
                    (h,),
                    (),
                ) && final(session).agent == Some(mut_ref_future(h))
        },
        !use_compute_host && old(session).running && !turn_alive(*old(session)) ==> exists|m: &mut Session|
            {
                &&& mut_ref_current(m) == (Session {
                    running: false,
                    agent: mut_ref_current(m).agent,
                    ..queue_cancelled(*old(session))
                })
                &&& old(session).agent is None ==> mut_ref_current(m).agent is None
                &&& old(session).agent is Some ==> exists|h: &mut AgentStub|
                    mut_ref_current(h) == old(session).agent.unwrap() && #[trigger] call_ensures(
                        request_hard_interrupt,
                        (h,),
                        (),
                    ) && mut_ref_current(m).agent == Some(mut_ref_future(h))
                &&& #[trigger] call_ensures(clear_inflight_turn, (m,), ())
                &&& *final(session) == mut_ref_future(m)
            },
        exists|a: &str|
            a@ == text_or_empty(final(session).session_key) && #[trigger] call_ensures(
                resolve_approval,
                (a,),
                (),
            ),
{
    let should_interrupt = session.running;
    let run_thread_alive = match &session.run_thread {
        Some(t) => t.alive,
        None => false,
    };
    if use_compute_host && should_interrupt {
        supervisor_interrupt(sid, request_id);
    }
    session.turn_cancel_requested = true;
    session.queued_prompt = None;
    session.queued_prompts = None;
    session.queued_prompt_generation = session.queued_prompt_generation + 1;
    let mut hard_interrupted = false;
    if !use_compute_host {
        if should_interrupt {
            match &mut session.agent {
                Some(agent) => {
                    request_hard_interrupt(agent);
                },
                None => {},
            }
            hard_interrupted = true;
        }
        if !run_thread_alive && session.running {
            session.running = false;
            clear_inflight_turn(session);
        }
    }
    clear_pending(sid);
    let key = text_or_empty_exec(&session.session_key);
    resolve_approval(key.as_str());
    InterruptOutcome { used_compute_host: use_compute_host, hard_interrupted }
}


// ---------------------------------------------------------------------------
// Durable ownership and background work
// ---------------------------------------------------------------------------

/// `r` is whether a session id owns its durable row, given the answers of `get_source` and
/// `is_gateway_owned`: an empty id does; otherwise the recorded source (empty without a row)
/// must not be the gateway's.
pub open spec fn owns_by<G: Fn(&str) -> Option<String>, O: Fn(&str) -> bool>(
    get_source: G,
    is_gateway_owned: O,
    id: Seq<char>,
    r: bool,
) -> bool {
    &&& id.len() == 0 ==> r
    &&& id.len() > 0 ==> exists|src: Option<String>, g: bool|
        #[trigger] called_with(get_source, id, src) && #[trigger] called_with(
            is_gateway_owned,
            text_or_empty(src),
            g,
        ) && r == !g
}

/// Whether a session may end its durable row by key: a missing or empty id may; otherwise the
/// source `get_source` gives (empty without a row) must not be one `is_gateway_owned` claims.
pub fn session_owns_durable_lifecycle<G: Fn(&str) -> Option<String>, O: Fn(&str) -> bool>(
    session_id: Option<&str>,
    get_source: G,
    is_gateway_owned: O,
) -> (r: bool)
    requires
        session_id matches Some(x) ==> forall|y: &str| y@ == x@ && y@.len() > 0 ==> #[trigger] get_source.requires(
            (y,),
        ),
        session_id matches Some(x) ==> forall|y: &str|
            (exists|src: Option<String>| called_with(get_source, x@, src) && y@ == text_or_empty(src))
                ==> #[trigger] is_gateway_owned.requires((y,)),
    ensures
        owns_by(get_source, is_gateway_owned, opt_text(session_id).unwrap_or(Seq::empty()), r),
{
    let sid = match session_id {
        None => {
            return true;
        },
        Some(s) => s,
    };
    if to_chars(sid).len() == 0 {
        return true;
    }
    let src = get_source(sid);
    assert(called_with(get_source, sid@, src));
    let text = text_or_empty_exec(&src);
    let g = is_gateway_owned(text.as_str());
    assert(called_with(is_gateway_owned, text_or_empty(src), g));
    !g
}

/// The registry's entries, when there is a registry.
pub open spec fn reg_view(registry: Option<&SessionsRegistry>) -> Option<Seq<(Seq<char>, Session)>> {
    match registry {
        Some(r) => Some(r@),
        None => None,
    }
}

/// The id of the first entry from `i` on holding a session with `key`.
pub open spec fn first_same_key(v: Seq<(Seq<char>, Session)>, key: Option<Seq<char>>, i: int) -> Option<
    Seq<char>,
>
    decreases v.len() - i,
{
    if i < 0 || i >= v.len() {
        None
    } else if opt_string(v[i].1.session_key) == key {
        Some(v[i].0)
    } else {
        first_same_key(v, key, i + 1)
    }
}

/// The live id that owns a session's background work: the hint, else the session's stamped
/// id, else the id of the first live entry with the same key, else empty.
pub open spec fn selector_own_sid(
    s: Session,
    hint: Seq<char>,
    reg: Option<Seq<(Seq<char>, Session)>>,
) -> Seq<char> {
    if hint.len() > 0 {
        hint
    } else if text_or_empty(s.sid).len() > 0 {
        text_or_empty(s.sid)
    } else {
        match reg {
            Some(v) => match first_same_key(v, opt_string(s.session_key), 0) {
                Some(k) => k,
                None => Seq::empty(),
            },
            None => Seq::empty(),
        }
    }
}

/// The id of a session's durable row: the agent's session id when not empty, else the key.
pub open spec fn durable_id(s: Session) -> Seq<char> {
    let a = match s.agent {
        Some(ag) => text_or_empty(ag.session_id),
        None => Seq::empty(),
    };
    if a.len() > 0 {
        a
    } else {
        text_or_empty(s.session_key)
    }
}

/// `own` and `owned` are the selectors of a session's background work: its owning live id,
/// and its key when the session owns its durable row (else empty). Both empty without a
/// session.
pub open spec fn selected<G: Fn(&str) -> Option<String>, O: Fn(&str) -> bool>(
    session: Option<&Session>,
    hint: Seq<char>,
    reg: Option<Seq<(Seq<char>, Session)>>,
    get_source: G,
    is_gateway_owned: O,
    own: Seq<char>,
    owned: Seq<char>,
) -> bool {
    match session {
        None => own.len() == 0 && owned.len() == 0,
        Some(s) => own == selector_own_sid(*s, hint, reg) && exists|o: bool|
            #[trigger] owns_by(get_source, is_gateway_owned, durable_id(*s), o) && owned == (if o {
                text_or_empty(s.session_key)
            } else {
                Seq::empty()
            }),
    }
}

/// The id of the first entry holding a session with `key`.
fn find_same_key(registry: &SessionsRegistry, key: &Option<String>) -> (r: Option<String>)
    ensures
        opt_string(r) == first_same_key(registry@, opt_string(*key), 0),
{
    let n = registry.len();
    let mut i: usize = 0;
    while i < n
        invariant
            n == registry@.len(),
            i <= n,
            first_same_key(registry@, opt_string(*key), i as int) == first_same_key(
                registry@,
                opt_string(*key),
                0,
            ),
        decreases n - i,
    {
        if opt_text_eq(&registry.value_at(i).session_key, key) {
            return Some(registry.key_at(i).clone());
        }
        i = i + 1;
    }
    None
}

/// The selectors of a session's background work: the live id that owns it and the key of
/// its durable row when the session owns that row (else empty).
pub fn session_async_delegation_selectors<G: Fn(&str) -> Option<String>, O: Fn(&str) -> bool>(
    session: Option<&Session>,
    sid_hint: &str,
    registry: Option<&SessionsRegistry>,
    get_source: G,
    is_gateway_owned: O,
) -> (r: (String, String))
    requires
        accepts_all_text(get_source),
        accepts_all_text(is_gateway_owned),
    ensures
        selected(session, sid_hint@, reg_view(registry), get_source, is_gateway_owned, r.0@, r.1@),
{
    let sess = match session {
        None => {
            return (String::new(), String::new());
        },
        Some(s) => s,
    };
    let mut own_sid = own_str(sid_hint);
    if to_chars(own_sid.as_str()).len() == 0 {
        own_sid = text_or_empty_exec(&sess.sid);
    }
    if to_chars(own_sid.as_str()).len() == 0 {
        if let Some(reg) = registry {
            own_sid = match find_same_key(reg, &sess.session_key) {
                Some(k) => k,
                None => String::new(),
            };
        }
    }
    let agent_sid = match &sess.agent {
        Some(a) => text_or_empty_exec(&a.session_id),
        None => String::new(),
    };
    let session_key = text_or_empty_exec(&sess.session_key);
    let durable = if to_chars(agent_sid.as_str()).len() > 0 {
        agent_sid
    } else {
        session_key.clone()
    };
    assert(durable@ == durable_id(*sess));
    assert(own_sid@ == selector_own_sid(*sess, sid_hint@, reg_view(registry)));
    let o = session_owns_durable_lifecycle(Some(durable.as_str()), get_source, is_gateway_owned);
    assert(owns_by(get_source, is_gateway_owned, durable_id(*sess), o));
    let owned = if o {
        session_key
    } else {
        String::new()
    };
    (own_sid, owned)
}

/// Whether live session `sid` still owns background work: when it has selectors, what
/// `has_live` answers for its owned key and live id; `false` when both are empty.
pub fn session_has_active_delegations<
    G: Fn(&str) -> Option<String>,
    O: Fn(&str) -> bool,
    L: Fn(&str, &str) -> bool,
>(
    sid: &str,
    session: Option<&Session>,
    registry: Option<&SessionsRegistry>,
    get_source: G,
    is_gateway_owned: O,
    has_live: L,
) -> (r: bool)
    requires
        accepts_all_text(get_source),
        accepts_all_text(is_gateway_owned),
        forall|a: &str, b: &str| call_requires(has_live, (a, b)),
    ensures
        exists|own: Seq<char>, owned: Seq<char>|
            #[trigger] selected(session, sid@, reg_view(registry), get_source, is_gateway_owned, own, owned)
                && (own.len() == 0 && owned.len() == 0 ==> !r) && (own.len() > 0 || owned.len() > 0
                ==> exists|a: &str, b: &str|
                a@ == owned && b@ == own && #[trigger] call_ensures(has_live, (a, b), r)),
{
    let (own_sid, owned_key) = session_async_delegation_selectors(
        session,
        sid,
        registry,
        get_source,
        is_gateway_owned,
    );
    assert(selected(session, sid@, reg_view(registry), get_source, is_gateway_owned, own_sid@, owned_key@));
    if to_chars(own_sid.as_str()).len() == 0 && to_chars(owned_key.as_str()).len() == 0 {
        return false;
    }
    has_live(owned_key.as_str(), own_sid.as_str())
}

// ---------------------------------------------------------------------------
// Reaping sessions whose WebSocket dropped
// ---------------------------------------------------------------------------

/// A pending orphan reap: its delay in milliseconds and a flag that cancels it.
#[derive(Debug, Clone)]
pub struct WsReapTimer {
    pub delay_ms: i64,
    pub cancelled: Arc<AtomicBool>,
    pub daemon: bool,
}

impl WsReapTimer {
    /// A daemon timer for `delay_ms`, not cancelled.
    pub fn new(delay_ms: i64) -> (r: Self)
        ensures
            r.delay_ms == delay_ms,
            r.daemon,
    {
        WsReapTimer { delay_ms, cancelled: Arc::new(AtomicBool::new(false)), daemon: true }
    }

    /// Raises the cancel flag.
    pub fn cancel(&self) {
        self.cancelled.store(true, std::sync::atomic::Ordering::SeqCst);
    }

    /// Whether the cancel flag is raised; another thread may raise it at any time.
    pub fn is_cancelled(&self) -> bool {
        self.cancelled.load(std::sync::atomic::Ordering::SeqCst)
    }
}

/// The pending orphan reaps by live session id.
pub type PendingWsReaps = SidMap<WsReapTimer>;

/// Cancels and drops the pending orphan reap of `sid` (its client came back).
pub fn cancel_ws_orphan_reap(pending: &mut PendingWsReaps, sid: &str)
    ensures
        !has_sid(final(pending)@, sid@),
        has_sid(old(pending)@, sid@) ==> exists|i: int|
            0 <= i < old(pending)@.len() && #[trigger] old(pending)@[i].0 == sid@ && final(pending)@ == old(
                pending,
            )@.remove(i),
        !has_sid(old(pending)@, sid@) ==> final(pending)@ == old(pending)@,
{
    let prior = pending.remove(sid);
    match prior {
        Some(t) => {
            proof {
                let i = choose|i: int|
                    0 <= i < old(pending)@.len() && #[trigger] old(pending)@[i] == (sid@, t)
                        && pending@ == old(pending)@.remove(i);
                assert(old(pending)@[i].0 == sid@);
            }
            t.cancel();
        },
        None => {},
    }
}

/// `f` is `o` with `v` put under `k`: in place of the entry there, or as a new last entry.
pub open spec fn put<V>(o: Seq<(Seq<char>, V)>, f: Seq<(Seq<char>, V)>, k: Seq<char>, v: V) -> bool {
    ||| exists|i: int| 0 <= i < o.len() && #[trigger] o[i].0 == k && f == o.update(i, (k, v))
    ||| !has_sid(o, k) && f == o.push((k, v))
}

/// The delay of an orphan reap: the one asked for, else the grace, never below zero.
pub open spec fn reap_delay(delay_ms: Option<i64>, grace_ms: i64) -> i64 {
    let d = match delay_ms {
        Some(d) => d,
        None => grace_ms,
    };
    if d < 0 {
        0
    } else {
        d
    }
}

/// Arms the orphan reap of `sid` after `delay_ms` (the grace when absent), replacing and
/// cancelling one already pending, and hands the delay and id to `spawn`. A grace of zero or
/// less disables reaping: nothing happens. Says whether a reap was armed.
pub fn schedule_ws_orphan_reap<F: FnMut(i64, String)>(
    pending: &mut PendingWsReaps,
    sid: &str,
    delay_ms: Option<i64>,
    grace_ms: i64,
    mut spawn: F,
) -> (r: bool)
    requires
        forall|d: i64, s: String| call_requires(spawn, (d, s)),
    ensures
        r == (grace_ms > 0),
        !r ==> final(pending)@ == old(pending)@,
        r ==> exists|t: WsReapTimer|
            t.delay_ms == reap_delay(delay_ms, grace_ms) && t.daemon && #[trigger] put(
                old(pending)@,
                final(pending)@,
                sid@,
                t,
            ),
        r ==> exists|s: String|
            s@ == sid@ && #[trigger] call_ensures(spawn, (reap_delay(delay_ms, grace_ms), s), ()),
{
    if grace_ms <= 0 {
        return false;
    }
    let want = match delay_ms {
        Some(d) => d,
        None => grace_ms,
    };
    let delay = if want < 0 {
        0
    } else {
        want
    };
    let timer = WsReapTimer::new(delay);
    let ghost t = timer;
    let prior = pending.insert(own_str(sid), timer);
    match prior {
        Some(p) => {
            proof {
                let i = choose|i: int|
                    0 <= i < old(pending)@.len() && #[trigger] old(pending)@[i] == (sid@, p)
                        && pending@ == old(pending)@.update(i, (sid@, t));
                assert(old(pending)@[i].0 == sid@);
            }
            p.cancel();
        },
        None => {},
    }
    assert(put(old(pending)@, pending@, sid@, t));
    let name = own_str(sid);
    spawn(delay, name);
    assert(call_ensures(spawn, (reap_delay(delay_ms, grace_ms), name), ()));
    true
}

/// What the orphan-reap timer does for a session: nothing when it is gone or no longer
/// detached; wait another grace while it has background work; reap it when idle; while a
/// turn runs, count a poll and reap once the polls exceed `max_polls`, else interrupt the turn
/// the first time and keep polling after. Gives the action, the poll count, and whether to
/// mark the interrupt as requested.
pub open spec fn reap_step(
    present: bool,
    detached: bool,
    active: bool,
    running: bool,
    polls: int,
    max_polls: int,
    requested: bool,
) -> (ReapAction, int, bool) {
    if !present || !detached {
        (ReapAction::Noop, polls, false)
    } else if active {
        (ReapAction::RescheduleGrace, polls, false)
    } else if running {
        if polls + 1 > max_polls {
            (ReapAction::Reap, polls + 1, false)
        } else if !requested {
            (ReapAction::Interrupt, polls + 1, true)
        } else {
            (ReapAction::ReschedulePoll, polls + 1, false)
        }
    } else {
        (ReapAction::Reap, polls, false)
    }
}

pub fn ws_orphan_reap_step(
    session: Option<&Session>,
    is_detached: bool,
    has_active_delegations: bool,
    running: bool,
    polls: usize,
    max_polls: usize,
    interrupt_requested: bool,
) -> (r: (ReapAction, usize, bool))
    requires
        session is Some && is_detached && !has_active_delegations && running ==> polls < usize::MAX,
    ensures
        (r.0, r.1 as int, r.2) == reap_step(
            session is Some,
            is_detached,
            has_active_delegations,
            running,
            polls as int,
            max_polls as int,
            interrupt_requested,
        ),
{
    if session.is_none() || !is_detached {
        return (ReapAction::Noop, polls, false);
    }
    if has_active_delegations {
        return (ReapAction::RescheduleGrace, polls, false);
    }
    if running {
        let next_polls = polls + 1;
        if next_polls > max_polls {
            return (ReapAction::Reap, next_polls, false);
        }
        if !interrupt_requested {
            return (ReapAction::Interrupt, next_polls, true);
        }
        return (ReapAction::ReschedulePoll, next_polls, false);
    }
    (ReapAction::Reap, polls, false)
}


// ---------------------------------------------------------------------------
// Closing or parking the sessions of a dropped transport
// ---------------------------------------------------------------------------

/// The same transport: the same kind and, for sockets, the same latch and peer.
pub open spec fn same_transport(a: TransportKind, b: TransportKind) -> bool {
    match a {
        TransportKind::Stdio => b is Stdio,
        TransportKind::DetachedWs => b is DetachedWs,
        TransportKind::Live { closed, peer } => b matches TransportKind::Live { closed: c2, peer: p2 }
            && closed == c2 && peer@ == p2@,
    }
}

fn transport_eq(a: &TransportKind, b: &TransportKind) -> (r: bool)
    ensures
        r == same_transport(*a, *b),
{
    match (a, b) {
        (TransportKind::Stdio, TransportKind::Stdio) => true,
        (TransportKind::DetachedWs, TransportKind::DetachedWs) => true,
        (TransportKind::Live { closed: c1, peer: p1 }, TransportKind::Live { closed: c2, peer: p2 }) => *c1
            == *c2 && *p1 == *p2,
        _ => false,
    }
}

/// A copy of a transport.
fn copy_transport(t: &TransportKind) -> (r: TransportKind)
    ensures
        r == *t,
{
    match t {
        TransportKind::Stdio => TransportKind::Stdio,
        TransportKind::DetachedWs => TransportKind::DetachedWs,
        TransportKind::Live { closed, peer } => TransportKind::Live { closed: *closed, peer: peer.clone() },
    }
}

/// `f` answers whether a transport is dead, the same way each time it is asked.
pub open spec fn decides_dead<F: Fn(&TransportKind) -> bool>(f: F) -> bool {
    &&& forall|k: &TransportKind| call_requires(f, (k,))
    &&& forall|k: &TransportKind, a: bool, b: bool|
        #[trigger] call_ensures(f, (k,), a) && #[trigger] call_ensures(f, (k,), b) ==> a == b
}

/// `f` says transport `k` is dead.
pub open spec fn answers_dead<F: Fn(&TransportKind) -> bool>(f: F, k: TransportKind) -> bool {
    call_ensures(f, (&k,), true)
}

proof fn lemma_dead_answer<F: Fn(&TransportKind) -> bool>(f: F, k: &TransportKind, r: bool)
    requires
        decides_dead(f),
        call_ensures(f, (k,), r),
    ensures
        r == answers_dead(f, *k),
{
    if !r && answers_dead(f, *k) {
        assert(call_ensures(f, (k,), true));
    }
}

/// The viewers that are not on transport `t`, in order.
pub open spec fn kept_viewers(v: Seq<(String, ViewerEntry)>, t: TransportKind) -> Seq<(String, ViewerEntry)>
    decreases v.len(),
{
    if v.len() == 0 {
        v
    } else {
        let rest = kept_viewers(v.drop_last(), t);
        if same_transport(v.last().1.transport, t) {
            rest
        } else {
            rest.push(v.last())
        }
    }
}

/// The position of the most recently attached live viewer (the last one among equals).
pub open spec fn best_viewer<F: Fn(&TransportKind) -> bool>(v: Seq<(String, ViewerEntry)>, is_dead: F) -> Option<
    int,
>
    decreases v.len(),
{
    if v.len() == 0 {
        None
    } else {
        let b = best_viewer(v.drop_last(), is_dead);
        let j = v.len() - 1;
        if !answers_dead(is_dead, v[j].1.transport) && (b is None || v[b.unwrap()].1.timestamp
            <= v[j].1.timestamp) {
            Some(j)
        } else {
            b
        }
    }
}

/// A session on `t` that is not closed on disconnect, whose transport has not moved on to a
/// live one, and that keeps no live viewer: it is parked on the detached sentinel.
pub open spec fn parks<F: Fn(&TransportKind) -> bool>(s: Session, t: TransportKind, is_dead: F) -> bool {
    &&& same_transport(s.transport, t)
    &&& !s.close_on_disconnect
    &&& !(!same_transport(s.transport, t) && !answers_dead(is_dead, s.transport))
    &&& best_viewer(kept_viewers(s.viewers@, t), is_dead) is None
}

/// `new` is session `old` after transport `t` dropped: the viewers on `t` are gone; then,
/// unless its transport already moved on to a live one, it is rebound to its most recent
/// live viewer or, without one, parked on the detached sentinel with no interrupt requested.
pub open spec fn parked<F: Fn(&TransportKind) -> bool>(
    old: Session,
    new: Session,
    t: TransportKind,
    is_dead: F,
) -> bool {
    let kept = kept_viewers(old.viewers@, t);
    &&& new.viewers@ == kept
    &&& if !same_transport(old.transport, t) && !answers_dead(is_dead, old.transport) {
        new == Session { viewers: new.viewers, ..old }
    } else {
        match best_viewer(kept, is_dead) {
            Some(j) => new == Session { viewers: new.viewers, transport: kept[j].1.transport, ..old },
            None => new == Session {
                viewers: new.viewers,
                transport: TransportKind::DetachedWs,
                client_gone_interrupt_requested: false,
                ..old
            },
        }
    }
}

/// `new` is the registry `old` after transport `t` dropped: sessions on `t` that close on
/// disconnect are left to the close callback, the others on `t` are rebound or parked, and
/// the rest are untouched.
pub open spec fn disconnected<F: Fn(&TransportKind) -> bool>(
    old: Seq<(Seq<char>, Session)>,
    new: Seq<(Seq<char>, Session)>,
    t: TransportKind,
    is_dead: F,
) -> bool {
    &&& new.len() == old.len()
    &&& forall|i: int|
        0 <= i < old.len() ==> #[trigger] new[i].0 == old[i].0 && (if same_transport(old[i].1.transport, t)
            && !old[i].1.close_on_disconnect {
            parked(old[i].1, new[i].1, t, is_dead)
        } else {
            new[i].1 == old[i].1
        })
}

/// How many sessions on `t` close on disconnect.
pub open spec fn reaped_count(v: Seq<(Seq<char>, Session)>, t: TransportKind) -> nat
    decreases v.len(),
{
    if v.len() == 0 {
        0
    } else {
        reaped_count(v.drop_last(), t) + if same_transport(v.last().1.transport, t)
            && v.last().1.close_on_disconnect {
            1nat
        } else {
            0nat
        }
    }
}

/// How many sessions get parked.
pub open spec fn parked_count<F: Fn(&TransportKind) -> bool>(
    v: Seq<(Seq<char>, Session)>,
    t: TransportKind,
    is_dead: F,
) -> nat
    decreases v.len(),
{
    if v.len() == 0 {
        0
    } else {
        parked_count(v.drop_last(), t, is_dead) + if parks(v.last().1, t, is_dead) {
            1nat
        } else {
            0nat
        }
    }
}

proof fn lemma_counts_bounded<F: Fn(&TransportKind) -> bool>(
    v: Seq<(Seq<char>, Session)>,
    t: TransportKind,
    is_dead: F,
)
    ensures
        reaped_count(v, t) + parked_count(v, t, is_dead) <= v.len(),
    decreases v.len(),
{
    if v.len() > 0 {
        lemma_counts_bounded(v.drop_last(), t, is_dead);
    }
}

/// The session after transport `t` dropped, and whether it was parked.
fn park_session<F: Fn(&TransportKind) -> bool>(s: Session, t: &TransportKind, is_dead: &F) -> (r: (
    Session,
    bool,
))
    requires
        decides_dead(*is_dead),
        same_transport(s.transport, *t),
        !s.close_on_disconnect,
    ensures
        parked(s, r.0, *t, *is_dead),
        r.1 == parks(s, *t, *is_dead),
{
    let ghost old_s = s;
    let ghost ov = s.viewers@;
    let mut s = s;
    let mut src: Vec<(String, ViewerEntry)> = Vec::new();
    std::mem::swap(&mut src, &mut s.viewers);
    let mut kept: Vec<(String, ViewerEntry)> = Vec::new();
    let n = src.len();
    let mut i: usize = 0;
    while i < n
        invariant
            n == ov.len(),
            i <= n,
            src@ == ov.skip(i as int),
            kept@ == kept_viewers(ov.take(i as int), *t),
        decreases n - i,
    {
        let e = src.remove(0);
        proof {
            assert(ov.take(i as int + 1).drop_last() =~= ov.take(i as int));
            assert(ov.take(i as int + 1).last() == ov[i as int]);
            assert(ov.skip(i as int + 1) =~= ov.skip(i as int).drop_first());
        }
        if !transport_eq(&e.1.transport, t) {
            kept.push(e);
        }
        i = i + 1;
    }
    assert(ov.take(n as int) =~= ov);
    let moved = !transport_eq(&s.transport, t) && {
        let d = is_dead(&s.transport);
        proof {
            lemma_dead_answer(*is_dead, &s.transport, d);
        }
        !d
    };
    if moved {
        s.viewers = kept;
        return (s, false);
    }
    let m = kept.len();
    let mut best: Option<usize> = None;
    let mut j: usize = 0;
    while j < m
        invariant
            m == kept@.len(),
            j <= m,
            decides_dead(*is_dead),
            match best {
                Some(b) => b < j && best_viewer(kept@.take(j as int), *is_dead) == Some(b as int),
                None => best_viewer(kept@.take(j as int), *is_dead) is None,
            },
        decreases m - j,
    {
        let d = is_dead(&kept[j].1.transport);
        proof {
            lemma_dead_answer(*is_dead, &kept@[j as int].1.transport, d);
            assert(kept@.take(j as int + 1).drop_last() =~= kept@.take(j as int));
            assert(kept@.take(j as int + 1)[j as int] == kept@[j as int]);
            if let Some(b) = best {
                assert(kept@.take(j as int + 1)[b as int] == kept@[b as int]);
            }
        }
        if !d {
            let better = match best {
                None => true,
                Some(b) => kept[b].1.timestamp <= kept[j].1.timestamp,
            };
            if better {
                best = Some(j);
            }
        }
        j = j + 1;
    }
    assert(kept@.take(m as int) =~= kept@);
    match best {
        Some(b) => {
            s.transport = copy_transport(&kept[b].1.transport);
            s.viewers = kept;
            (s, false)
        },
        None => {
            s.transport = TransportKind::DetachedWs;
            s.client_gone_interrupt_requested = false;
            s.viewers = kept;
            (s, true)
        },
    }
}


proof fn lemma_kept_not_on(v: Seq<(String, ViewerEntry)>, t: TransportKind)
    ensures
        forall|j: int|
            0 <= j < kept_viewers(v, t).len() ==> !same_transport(#[trigger] kept_viewers(v, t)[j].1.transport, t),
    decreases v.len(),
{
    if v.len() > 0 {
        lemma_kept_not_on(v.drop_last(), t);
        let rest = kept_viewers(v.drop_last(), t);
        if !same_transport(v.last().1.transport, t) {
            assert forall|j: int| 0 <= j < kept_viewers(v, t).len() implies !same_transport(
                #[trigger] kept_viewers(v, t)[j].1.transport,
                t,
            ) by {
                if j < rest.len() {
                    assert(kept_viewers(v, t)[j] == rest[j]);
                }
            }
        }
    }
}

proof fn lemma_best_in_range<F: Fn(&TransportKind) -> bool>(v: Seq<(String, ViewerEntry)>, is_dead: F)
    ensures
        best_viewer(v, is_dead) matches Some(j) ==> 0 <= j < v.len(),
    decreases v.len(),
{
    if v.len() > 0 {
        lemma_best_in_range(v.drop_last(), is_dead);
    }
}

/// A dropped transport keeps no session bound to it: every session that was on it and does
/// not close on disconnect ends up on a surviving viewer's transport or on the detached
/// sentinel.
pub proof fn lemma_disconnect_unbinds<F: Fn(&TransportKind) -> bool>(
    old: Seq<(Seq<char>, Session)>,
    new: Seq<(Seq<char>, Session)>,
    t: TransportKind,
    is_dead: F,
)
    requires
        disconnected(old, new, t, is_dead),
    ensures
        forall|i: int|
            0 <= i < old.len() && same_transport(#[trigger] old[i].1.transport, t) && !old[i].1.close_on_disconnect
                ==> new[i].1.transport == TransportKind::DetachedWs || !same_transport(new[i].1.transport, t),
{
    assert forall|i: int|
        0 <= i < old.len() && same_transport(#[trigger] old[i].1.transport, t) && !old[i].1.close_on_disconnect implies new[i].1.transport
        == TransportKind::DetachedWs || !same_transport(new[i].1.transport, t) by {
        assert(new[i].0 == old[i].0);
        let kept = kept_viewers(old[i].1.viewers@, t);
        lemma_kept_not_on(old[i].1.viewers@, t);
        lemma_best_in_range(kept, is_dead);
        match best_viewer(kept, is_dead) {
            Some(j) => {
                assert(!same_transport(kept[j].1.transport, t));
            },
            None => {},
        }
    }
}

/// Some session on `t` with id `id` in `v` closes when its transport drops.
pub open spec fn closes_on_drop(v: Seq<(Seq<char>, Session)>, t: TransportKind, id: Seq<char>) -> bool {
    exists|j: int|
        0 <= j < v.len() && #[trigger] v[j].0 == id && same_transport(v[j].1.transport, t)
            && v[j].1.close_on_disconnect
}

/// Some session with id `id` in `v` is parked when `t` drops.
pub open spec fn parked_on_drop<F: Fn(&TransportKind) -> bool>(
    v: Seq<(Seq<char>, Session)>,
    t: TransportKind,
    is_dead: F,
    id: Seq<char>,
) -> bool {
    exists|j: int| 0 <= j < v.len() && #[trigger] v[j].0 == id && parks(v[j].1, t, is_dead)
}

/// Handles a dropped transport for every session on it: those that close on disconnect are
/// handed to `close_one` with the end reason and counted as reaped (their entries stay for
/// the caller's close to detach); the others lose their viewers on the transport and are
/// rebound to their most recent live viewer or parked on the detached sentinel, each parked
/// one counted and handed to `schedule_reap`. Gives the two counts. `pending` is left as it
/// is: `schedule_reap` arms the timers.
pub fn close_sessions_for_transport<
    D: Fn(&TransportKind) -> bool,
    C: FnMut(&str, &str) -> bool,
    S: FnMut(&str),
>(
    registry: &mut SessionsRegistry,
    transport: &TransportKind,
    end_reason: &str,
    pending: &mut PendingWsReaps,
    grace_ms: i64,
    is_dead: D,
    mut close_one: C,
    mut schedule_reap: S,
) -> (r: CloseTransportResult)
    requires
        decides_dead(is_dead),
        forall|a: &str, b: &str|
            closes_on_drop(old(registry)@, *transport, a@) && b@ == end_reason@ ==> #[trigger] call_requires(
                close_one,
                (a, b),
            ),
        forall|a: &str|
            parked_on_drop(old(registry)@, *transport, is_dead, a@) ==> #[trigger] call_requires(
                schedule_reap,
                (a,),
            ),
    ensures
        disconnected(old(registry)@, final(registry)@, *transport, is_dead),
        r.reaped == reaped_count(old(registry)@, *transport),
        r.detached == parked_count(old(registry)@, *transport, is_dead),
        final(pending)@ == old(pending)@,
        forall|j: int|
            0 <= j < old(registry)@.len() && same_transport(old(registry)@[j].1.transport, *transport)
                && old(registry)@[j].1.close_on_disconnect ==> handed_to(
                close_one,
                #[trigger] old(registry)@[j].0,
                end_reason@,
            ),
        forall|j: int|
            0 <= j < old(registry)@.len() && parks(old(registry)@[j].1, *transport, is_dead) ==> scheduled(
                schedule_reap,
                #[trigger] old(registry)@[j].0,
            ),
{
    let ghost ov = registry@;
    let ghost close0 = close_one;
    let ghost sched0 = schedule_reap;
    let n = registry.len();
    let mut res = CloseTransportResult { reaped: 0, detached: 0 };
    let mut i: usize = 0;
    while i < n
        invariant
            n == ov.len(),
            i <= n,
            registry@.len() == n,
            decides_dead(is_dead),
            forall|a: &str, b: &str|
                closes_on_drop(ov, *transport, a@) && b@ == end_reason@ ==> #[trigger] call_requires(
                    close_one,
                    (a, b),
                ),
            forall|a: &str|
                parked_on_drop(ov, *transport, is_dead, a@) ==> #[trigger] call_requires(
                    schedule_reap,
                    (a,),
                ),
            forall|j: int|
                0 <= j < n ==> #[trigger] registry@[j].0 == ov[j].0,
            forall|j: int|
                i <= j < n ==> #[trigger] registry@[j] == ov[j],
            forall|j: int|
                0 <= j < i ==> (if same_transport(#[trigger] ov[j].1.transport, *transport)
                    && !ov[j].1.close_on_disconnect {
                    parked(ov[j].1, registry@[j].1, *transport, is_dead)
                } else {
                    registry@[j].1 == ov[j].1
                }),
            res.reaped == reaped_count(ov.take(i as int), *transport),
            res.detached == parked_count(ov.take(i as int), *transport, is_dead),
            close_one == close0,
            schedule_reap == sched0,
            forall|j: int|
                0 <= j < i && same_transport(ov[j].1.transport, *transport) && ov[j].1.close_on_disconnect
                    ==> handed_to(close0, #[trigger] ov[j].0, end_reason@),
            forall|j: int| 0 <= j < i && parks(ov[j].1, *transport, is_dead) ==> scheduled(sched0, #[trigger] ov[j].0),
        decreases n - i,
    {
        proof {
            assert(ov.take(i as int + 1).drop_last() =~= ov.take(i as int));
            assert(ov.take(i as int + 1).last() == ov[i as int]);
            lemma_counts_bounded(ov.take(i as int + 1), *transport, is_dead);
        }
        let on_t = transport_eq(&registry.value_at(i).transport, transport);
        if on_t {
            if registry.value_at(i).close_on_disconnect {
                let a = registry.key_at(i).as_str();
                assert(closes_on_drop(ov, *transport, a@)) by {
                    assert(ov[i as int].0 == a@);
                }
                let c = close_one(a, end_reason);
                assert(call_ensures(close0, (a, end_reason), c));
                assert(handed_to(close0, ov[i as int].0, end_reason@));
                res.reaped = res.reaped + 1;
            } else {
                let ghost before = registry@;
                let (k, sess) = registry.take_at(i);
                let name = k.clone();
                let (ns, det) = park_session(sess, transport, &is_dead);
                let ghost nsv = ns;
                registry.put_at(i, k, ns);
                proof {
                    assert(registry@ =~= before.update(i as int, (before[i as int].0, nsv)));
                }
                if det {
                    res.detached = res.detached + 1;
                    let a = name.as_str();
                    assert(parked_on_drop(ov, *transport, is_dead, a@)) by {
                        assert(ov[i as int].0 == a@);
                    }
                    schedule_reap(a);
                    assert(call_ensures(sched0, (a,), ()));
                    assert(scheduled(sched0, ov[i as int].0));
                }
            }
        }
        i = i + 1;
    }
    assert(ov.take(n as int) =~= ov);
    res
}


/// `schedule_reap` was handed session id `id`.
pub open spec fn scheduled<S: FnMut(&str)>(schedule_reap: S, id: Seq<char>) -> bool {
    exists|a: &str| a@ == id && #[trigger] call_ensures(schedule_reap, (a,), ())
}

/// `close_one` was handed session id `id` with end reason `reason` (and may have answered
/// something).
pub open spec fn handed_to<C: FnMut(&str, &str) -> bool>(close_one: C, id: Seq<char>, reason: Seq<char>) -> bool {
    exists|a: &str, b: &str, c: bool| a@ == id && b@ == reason && #[trigger] call_ensures(close_one, (a, b), c)
}

/// Drains every live session: after `release_wake`, hands each id, in order, to `close_one`
/// with the end reason `tui_shutdown`. The registry itself is left to the close callback.
pub fn shutdown_sessions<R: FnMut(), C: FnMut(&str, &str) -> bool>(
    registry: &mut SessionsRegistry,
    mut release_wake: R,
    mut close_one: C,
)
    requires
        call_requires(release_wake, ()),
        forall|a: &str, b: &str|
            has_sid(old(registry)@, a@) && b@ == "tui_shutdown"@ ==> #[trigger] call_requires(close_one, (a, b)),
    ensures
        final(registry)@ == old(registry)@,
        call_ensures(release_wake, (), ()),
        forall|i: int|
            0 <= i < old(registry)@.len() ==> handed_to(close_one, #[trigger] old(registry)@[i].0, "tui_shutdown"@),
{
    let ghost close0 = close_one;
    release_wake();
    let sids = registry.keys();
    let mut i: usize = 0;
    while i < sids.len()
        invariant
            close_one == close0,
            i <= sids@.len(),
            sids@.len() == registry@.len(),
            forall|j: int| 0 <= j < sids@.len() ==> #[trigger] sids@[j]@ == registry@[j].0,
            call_ensures(release_wake, (), ()),
            forall|a: &str, b: &str|
                has_sid(registry@, a@) && b@ == "tui_shutdown"@ ==> #[trigger] call_requires(close_one, (a, b)),
            forall|j: int| 0 <= j < i ==> handed_to(close_one, #[trigger] registry@[j].0, "tui_shutdown"@),
        decreases sids@.len() - i,
    {
        let a = sids[i].as_str();
        let b = "tui_shutdown";
        proof {
            reveal_strlit("tui_shutdown");
        }
        assert(has_sid(registry@, a@)) by {
            assert(registry@[i as int].0 == a@);
        }
        let c = close_one(a, b);
        assert(call_ensures(close_one, (a, b), c));
        assert(handed_to(close_one, registry@[i as int].0, "tui_shutdown"@));
        i = i + 1;
    }
}

// ---------------------------------------------------------------------------
// Idle and LRU reaping
// ---------------------------------------------------------------------------

/// Neither running a turn nor waiting on a gateway request.
pub open spec fn evict_guard(s: Session) -> bool {
    !s.running && !pending_kind(s)
}

/// The agent-ready event, when there is one, is set, or the session is lazy.
pub open spec fn ready_ok(s: Session) -> bool {
    match s.agent_ready_set {
        Some(set) => set || s.lazy,
        None => true,
    }
}

/// Both the last activity and the creation are more than `ttl` before `now`.
pub open spec fn idle_past(s: Session, now: int, ttl: int) -> bool {
    now - s.last_active > ttl && now - s.created_at > ttl
}

/// `h` may answer `a` for live session `sid` holding `s`.
pub open spec fn answered_active<H: Fn(&str, Option<&Session>) -> bool>(
    h: H,
    sid: Seq<char>,
    s: Session,
    a: bool,
) -> bool {
    exists|x: &str| x@ == sid && #[trigger] call_ensures(h, (x, Some(&s)), a)
}

/// `h` accepts every call and answers each the same way each time it is asked.
pub open spec fn decides_active<H: Fn(&str, Option<&Session>) -> bool>(h: H) -> bool {
    &&& forall|x: &str, s: Option<&Session>| call_requires(h, (x, s))
    &&& forall|x: &str, y: &str, s: Option<&Session>, a: bool, b: bool|
        x@ == y@ && #[trigger] call_ensures(h, (x, s), a) && #[trigger] call_ensures(h, (y, s), b) ==> a
            == b
}

/// `h` says live session `sid` holding `s` still has background work.
pub open spec fn active<H: Fn(&str, Option<&Session>) -> bool>(h: H, sid: Seq<char>, s: Session) -> bool {
    answered_active(h, sid, s, true)
}

proof fn lemma_active_answer<H: Fn(&str, Option<&Session>) -> bool>(h: H, sid: Seq<char>, s: Session, a: bool)
    requires
        decides_active(h),
        answered_active(h, sid, s, a),
    ensures
        a == active(h, sid, s),
{
    if !a && active(h, sid, s) {
        let x = choose|x: &str| x@ == sid && #[trigger] call_ensures(h, (x, Some(&s)), a);
        let y = choose|y: &str| y@ == sid && #[trigger] call_ensures(h, (y, Some(&s)), true);
        assert(call_ensures(h, (x, Some(&s)), a) && call_ensures(h, (y, Some(&s)), true));
    }
}

/// The guard, readiness and liveness conditions shared by idle and LRU eviction, given what
/// `has_active` said.
fn evictable_with<H: Fn(&str, Option<&Session>) -> bool>(
    sid: &str,
    session: &Session,
    has_active: &H,
) -> (r: bool)
    requires
        forall|x: &str, s: Option<&Session>| call_requires(*has_active, (x, s)),
    ensures
        !evict_guard(*session) ==> !r,
        evict_guard(*session) ==> exists|a: bool|
            #[trigger] answered_active(*has_active, sid@, *session, a) && r == (!a && ready_ok(*session)
                && dead_transport(session.transport)),
{
    if session.running {
        return false;
    }
    if session_has_pending_kind(session) {
        return false;
    }
    let a = has_active(sid, Some(session));
    assert(answered_active(*has_active, sid@, *session, a));
    if a {
        return false;
    }
    match session.agent_ready_set {
        Some(set) => {
            if !set && !session.lazy {
                return false;
            }
        },
        None => {},
    }
    transport_is_dead(&session.transport)
}

/// Idle for longer than `ttl`, as the clock reads `now`.
fn idle_past_exec(session: &Session, now: i64, ttl: i64) -> (r: bool)
    ensures
        r == idle_past(*session, now as int, ttl as int),
{
    let n = now as i128;
    let t = ttl as i128;
    n - (session.last_active as i128) > t && n - (session.created_at as i128) > t
}

/// Whether a session may be reaped as idle: not running, not waiting on a gateway request,
/// without background work (as `has_active_delegation` says), ready or lazy, with a dead
/// transport, and both last active and created more than `ttl` before `now`.
pub fn session_is_evictable<H: Fn(&str, Option<&Session>) -> bool>(
    sid: &str,
    session: &Session,
    now: i64,
    ttl: i64,
    has_active_delegation: H,
) -> (r: bool)
    requires
        forall|x: &str, s: Option<&Session>| call_requires(has_active_delegation, (x, s)),
    ensures
        !evict_guard(*session) ==> !r,
        evict_guard(*session) ==> exists|a: bool|
            #[trigger] answered_active(has_active_delegation, sid@, *session, a) && r == (!a && ready_ok(
                *session,
            ) && dead_transport(session.transport) && idle_past(*session, now as int, ttl as int)),
        r ==> now - session.last_active > ttl && now - session.created_at > ttl,
        now - session.last_active <= ttl ==> !r,
        now - session.created_at <= ttl ==> !r,
{
    evictable_with(sid, session, &has_active_delegation) && idle_past_exec(session, now, ttl)
}

/// Whether a session may be evicted to honour the live-session cap: the idle conditions
/// without the age gate.
pub fn session_is_lru_evictable<H: Fn(&str, Option<&Session>) -> bool>(
    sid: &str,
    session: &Session,
    has_active_delegation: H,
) -> (r: bool)
    requires
        forall|x: &str, s: Option<&Session>| call_requires(has_active_delegation, (x, s)),
    ensures
        !evict_guard(*session) ==> !r,
        evict_guard(*session) ==> exists|a: bool|
            #[trigger] answered_active(has_active_delegation, sid@, *session, a) && r == (!a && ready_ok(
                *session,
            ) && dead_transport(session.transport)),
{
    evictable_with(sid, session, &has_active_delegation)
}

/// Evictable without the age gate, by what a deciding `h` says.
pub open spec fn lru_evictable<H: Fn(&str, Option<&Session>) -> bool>(h: H, sid: Seq<char>, s: Session) -> bool {
    evict_guard(s) && !active(h, sid, s) && ready_ok(s) && dead_transport(s.transport)
}

/// The ids of the sessions that may be reaped as idle, in order.
pub open spec fn idle_victims<H: Fn(&str, Option<&Session>) -> bool>(
    v: Seq<(Seq<char>, Session)>,
    now: int,
    ttl: int,
    h: H,
) -> Seq<Seq<char>>
    decreases v.len(),
{
    if v.len() == 0 {
        Seq::empty()
    } else {
        let rest = idle_victims(v.drop_last(), now, ttl, h);
        if lru_evictable(h, v.last().0, v.last().1) && idle_past(v.last().1, now, ttl) {
            rest.push(v.last().0)
        } else {
            rest
        }
    }
}

/// Every idle victim is a live session that may also be evicted for the cap, idle for
/// longer than the TTL: the idle reaper takes nothing the cap could not.
pub proof fn lemma_idle_victims_lru_evictable<H: Fn(&str, Option<&Session>) -> bool>(
    v: Seq<(Seq<char>, Session)>,
    now: int,
    ttl: int,
    h: H,
)
    ensures
        forall|k: int|
            #![trigger idle_victims(v, now, ttl, h)[k]]
            0 <= k < idle_victims(v, now, ttl, h).len() ==> exists|i: int|
                0 <= i < v.len() && #[trigger] v[i].0 == idle_victims(v, now, ttl, h)[k] && lru_evictable(
                    h,
                    v[i].0,
                    v[i].1,
                ) && idle_past(v[i].1, now, ttl),
    decreases v.len(),
{
    if v.len() > 0 {
        let w = v.drop_last();
        lemma_idle_victims_lru_evictable(w, now, ttl, h);
        let rest = idle_victims(w, now, ttl, h);
        assert forall|k: int|
            #![trigger idle_victims(v, now, ttl, h)[k]]
            0 <= k < idle_victims(v, now, ttl, h).len() implies exists|i: int|
            0 <= i < v.len() && #[trigger] v[i].0 == idle_victims(v, now, ttl, h)[k] && lru_evictable(
                h,
                v[i].0,
                v[i].1,
            ) && idle_past(v[i].1, now, ttl) by {
            if k < rest.len() {
                let i = choose|i: int|
                    0 <= i < w.len() && #[trigger] w[i].0 == rest[k] && lru_evictable(h, w[i].0, w[i].1)
                        && idle_past(w[i].1, now, ttl);
                assert(v[i] == w[i]);
            } else {
                assert(v[v.len() - 1] == v.last());
            }
        }
    }
}

/// The ids, in order, of the entries of `v` that may be reaped as idle at `now`, when the
/// background-work question for entry `i` was answered `answers[i]`.
pub open spec fn idle_victims_by(
    v: Seq<(Seq<char>, Session)>,
    now: int,
    ttl: int,
    answers: Seq<bool>,
) -> Seq<Seq<char>>
    decreases v.len(),
{
    if v.len() == 0 {
        Seq::empty()
    } else {
        let rest = idle_victims_by(v.drop_last(), now, ttl, answers);
        let s = v.last().1;
        if evict_guard(s) && !answers[v.len() - 1] && ready_ok(s) && dead_transport(s.transport)
            && idle_past(s, now, ttl) {
            rest.push(v.last().0)
        } else {
            rest
        }
    }
}

/// `answers[i]` is an answer `h` may give about entry `i` of `v`, for every entry that gets
/// as far as the question (not running, no pending request).
pub open spec fn answers_of<H: Fn(&str, Option<&Session>) -> bool>(
    h: H,
    v: Seq<(Seq<char>, Session)>,
    answers: Seq<bool>,
) -> bool {
    &&& answers.len() == v.len()
    &&& forall|i: int|
        0 <= i < v.len() && evict_guard(v[i].1) ==> #[trigger] answered_active(
            h,
            v[i].0,
            v[i].1,
            answers[i],
        )
}

proof fn lemma_idle_victims_by_prefix(
    v: Seq<(Seq<char>, Session)>,
    now: int,
    ttl: int,
    a: Seq<bool>,
    b: Seq<bool>,
)
    requires
        a.len() >= v.len(),
        b.len() >= v.len(),
        forall|i: int| 0 <= i < v.len() ==> a[i] == b[i],
    ensures
        idle_victims_by(v, now, ttl, a) == idle_victims_by(v, now, ttl, b),
    decreases v.len(),
{
    if v.len() > 0 {
        lemma_idle_victims_by_prefix(v.drop_last(), now, ttl, a, b);
    }
}

/// Every id the idle reaper takes names a live session whose last activity and whose
/// creation both lie more than `ttl` before `now`: a session active within the TTL is
/// never reaped, however old it is.
pub proof fn lemma_idle_victims_by_stale(
    v: Seq<(Seq<char>, Session)>,
    now: int,
    ttl: int,
    answers: Seq<bool>,
)
    ensures
        forall|k: int|
            #![trigger idle_victims_by(v, now, ttl, answers)[k]]
            0 <= k < idle_victims_by(v, now, ttl, answers).len() ==> exists|i: int|
                0 <= i < v.len() && #[trigger] v[i].0 == idle_victims_by(v, now, ttl, answers)[k]
                    && now - v[i].1.last_active > ttl && now - v[i].1.created_at > ttl,
    decreases v.len(),
{
    if v.len() > 0 {
        let w = v.drop_last();
        lemma_idle_victims_by_stale(w, now, ttl, answers);
        let rest = idle_victims_by(w, now, ttl, answers);
        assert forall|k: int|
            #![trigger idle_victims_by(v, now, ttl, answers)[k]]
            0 <= k < idle_victims_by(v, now, ttl, answers).len() implies exists|i: int|
            0 <= i < v.len() && #[trigger] v[i].0 == idle_victims_by(v, now, ttl, answers)[k]
                && now - v[i].1.last_active > ttl && now - v[i].1.created_at > ttl by {
            if k < rest.len() {
                let i = choose|i: int|
                    0 <= i < w.len() && #[trigger] w[i].0 == rest[k] && now - w[i].1.last_active
                        > ttl && now - w[i].1.created_at > ttl;
                assert(v[i] == w[i]);
            } else {
                assert(v[v.len() - 1] == v.last());
            }
        }
    }
}

/// With a `has_active` that answers each question one way, the victims taken on its answers
/// are the idle victims it decides.
pub proof fn lemma_idle_victims_by_decided<H: Fn(&str, Option<&Session>) -> bool>(
    h: H,
    v: Seq<(Seq<char>, Session)>,
    now: int,
    ttl: int,
    answers: Seq<bool>,
)
    requires
        decides_active(h),
        answers_of(h, v, answers),
    ensures
        idle_victims_by(v, now, ttl, answers) == idle_victims(v, now, ttl, h),
    decreases v.len(),
{
    if v.len() > 0 {
        let w = v.drop_last();
        let i = v.len() - 1;
        assert(answers_of(h, w, answers.take(w.len() as int)));
        lemma_idle_victims_by_decided(h, w, now, ttl, answers.take(w.len() as int));
        lemma_idle_victims_by_prefix(w, now, ttl, answers, answers.take(w.len() as int));
        if evict_guard(v[i].1) {
            assert(answered_active(h, v[i].0, v[i].1, answers[i]));
            lemma_active_answer(h, v.last().0, v.last().1, answers[i]);
        }
    }
}

/// The ids, in order, of the sessions that may be reaped as idle at `now`, on the answers
/// `has_active` gave when asked about each of them.
pub fn collect_idle_victims<F: Fn(&str, Option<&Session>) -> bool>(
    registry: &SessionsRegistry,
    now: i64,
    ttl: i64,
    has_active: F,
) -> (r: Vec<String>)
    requires
        forall|x: &str, s: Option<&Session>| call_requires(has_active, (x, s)),
    ensures
        exists|answers: Seq<bool>|
            #[trigger] answers_of(has_active, registry@, answers) && r@.len() == idle_victims_by(
                registry@,
                now as int,
                ttl as int,
                answers,
            ).len() && forall|i: int|
                0 <= i < r@.len() ==> #[trigger] r@[i]@ == idle_victims_by(
                    registry@,
                    now as int,
                    ttl as int,
                    answers,
                )[i],
        forall|k: int|
            #![trigger r@[k]]
            0 <= k < r@.len() ==> exists|i: int|
                0 <= i < registry@.len() && #[trigger] registry@[i].0 == r@[k]@ && now
                    - registry@[i].1.last_active > ttl && now - registry@[i].1.created_at > ttl,
{
    let ghost v = registry@;
    let n = registry.len();
    let mut out: Vec<String> = Vec::new();
    let ghost mut answers: Seq<bool> = Seq::empty();
    let mut i: usize = 0;
    while i < n
        invariant
            n == v.len(),
            v == registry@,
            i <= n,
            forall|x: &str, s: Option<&Session>| call_requires(has_active, (x, s)),
            answers.len() == i,
            forall|j: int|
                0 <= j < i && evict_guard(v[j].1) ==> #[trigger] answered_active(
                    has_active,
                    v[j].0,
                    v[j].1,
                    answers[j],
                ),
            out@.len() == idle_victims_by(v.take(i as int), now as int, ttl as int, answers).len(),
            forall|j: int|
                0 <= j < out@.len() ==> #[trigger] out@[j]@ == idle_victims_by(
                    v.take(i as int),
                    now as int,
                    ttl as int,
                    answers,
                )[j],
        decreases n - i,
    {
        let key = registry.key_at(i);
        let s = registry.value_at(i);
        let e = evictable_with(key.as_str(), s, &has_active);
        let ghost before = answers;
        proof {
            let a = if evict_guard(*s) {
                choose|a: bool|
                    #[trigger] answered_active(has_active, key@, *s, a) && e == (!a && ready_ok(*s)
                        && dead_transport(s.transport))
            } else {
                false
            };
            answers = answers.push(a);
            assert(v.take(i as int + 1).drop_last() =~= v.take(i as int));
            assert(v.take(i as int + 1).last() == v[i as int]);
            lemma_idle_victims_by_prefix(v.take(i as int), now as int, ttl as int, before, answers);
        }
        if e && idle_past_exec(s, now, ttl) {
            out.push(key.clone());
        }
        i = i + 1;
    }
    assert(v.take(n as int) =~= v);
    assert(answers_of(has_active, registry@, answers));
    proof {
        lemma_idle_victims_by_stale(v, now as int, ttl as int, answers);
        assert forall|k: int| #![trigger out@[k]] 0 <= k < out@.len() implies exists|i: int|
            0 <= i < registry@.len() && #[trigger] registry@[i].0 == out@[k]@ && now
                - registry@[i].1.last_active > ttl && now - registry@[i].1.created_at > ttl by {
            assert(out@[k]@ == idle_victims_by(v, now as int, ttl as int, answers)[k]);
        }
    }
    out
}

/// The ids of the sessions the idle reaper would close at `now`, in order, on the answers
/// `has_active` gave about each of them (see `collect_idle_victims`).
pub fn reap_idle_sessions_collect<F: Fn(&str, Option<&Session>) -> bool>(
    registry: &SessionsRegistry,
    now: i64,
    ttl: i64,
    has_active: F,
) -> (r: Vec<String>)
    requires
        forall|x: &str, s: Option<&Session>| call_requires(has_active, (x, s)),
    ensures
        exists|answers: Seq<bool>|
            #[trigger] answers_of(has_active, registry@, answers) && r@.len() == idle_victims_by(
                registry@,
                now as int,
                ttl as int,
                answers,
            ).len() && forall|i: int|
                0 <= i < r@.len() ==> #[trigger] r@[i]@ == idle_victims_by(
                    registry@,
                    now as int,
                    ttl as int,
                    answers,
                )[i],
        forall|k: int|
            #![trigger r@[k]]
            0 <= k < r@.len() ==> exists|i: int|
                0 <= i < registry@.len() && #[trigger] registry@[i].0 == r@[k]@ && now
                    - registry@[i].1.last_active > ttl && now - registry@[i].1.created_at > ttl,
{
    collect_idle_victims(registry, now, ttl, has_active)
}


/// Inserts position `j` into `out`, kept in nondecreasing order of last activity, after
/// the positions with the same activity.
fn insert_by_activity(out: &mut Vec<usize>, registry: &SessionsRegistry, j: usize)
    requires
        j < registry@.len(),
        forall|k: int| 0 <= k < old(out)@.len() ==> #[trigger] old(out)@[k] < j,
        forall|a: int, b: int| 0 <= a < b < old(out)@.len() ==> #[trigger] old(out)@[a] != #[trigger] old(out)@[b],
        forall|a: int, b: int|
            0 <= a < b < old(out)@.len() ==> registry@[#[trigger] old(out)@[a] as int].1.last_active
                <= registry@[#[trigger] old(out)@[b] as int].1.last_active,
    ensures
        final(out)@.len() == old(out)@.len() + 1,
        final(out)@.contains(j),
        forall|x: usize| old(out)@.contains(x) ==> final(out)@.contains(x),
        forall|k: int| 0 <= k < final(out)@.len() ==> #[trigger] final(out)@[k] == j || old(out)@.contains(final(out)@[k]),
        forall|a: int, b: int| 0 <= a < b < final(out)@.len() ==> #[trigger] final(out)@[a] != #[trigger] final(out)@[b],
        forall|a: int, b: int|
            0 <= a < b < final(out)@.len() ==> registry@[#[trigger] final(out)@[a] as int].1.last_active
                <= registry@[#[trigger] final(out)@[b] as int].1.last_active,
{
    let ghost v = registry@;
    let n = registry.len();
    let la = registry.value_at(j).last_active;
    let mut p: usize = 0;
    while p < out.len() && registry.value_at(out[p]).last_active <= la
        invariant
            p <= out@.len(),
            out@ == old(out)@,
            v == registry@,
            n == v.len(),
            j < n,
            la == v[j as int].1.last_active,
            forall|k: int| 0 <= k < out@.len() ==> #[trigger] out@[k] < j,
            forall|k: int| 0 <= k < p ==> v[#[trigger] out@[k] as int].1.last_active <= la,
        decreases out@.len() - p,
    {
        p = p + 1;
    }
    let ghost before = out@;
    out.insert(p, j);
    proof {
        assert(out@ == before.insert(p as int, j));
        assert(out@[p as int] == j);
        assert forall|x: usize| before.contains(x) implies out@.contains(x) by {
            let k = choose|k: int| 0 <= k < before.len() && before[k] == x;
            if k < p {
                assert(out@[k] == before[k]);
            } else {
                assert(out@[k + 1] == before[k]);
            }
        }
        assert forall|k: int| 0 <= k < out@.len() implies #[trigger] out@[k] == j || before.contains(out@[k]) by {
            if k < p {
                assert(out@[k] == before[k]);
            } else if k > p {
                assert(out@[k] == before[k - 1]);
            }
        }
        assert forall|a: int, b: int| 0 <= a < b < out@.len() implies #[trigger] out@[a] != #[trigger] out@[b] by {
            let a0 = if a < p { a } else { a - 1 };
            let b0 = if b < p { b } else { b - 1 };
            if a != p && b != p {
                assert(out@[a] == before[a0]);
                assert(out@[b] == before[b0]);
            } else if a == p {
                assert(out@[b] == before[b0]);
            } else {
                assert(out@[a] == before[a0]);
            }
        }
        assert forall|a: int, b: int| 0 <= a < b < out@.len() implies v[#[trigger] out@[a] as int].1.last_active
            <= v[#[trigger] out@[b] as int].1.last_active by {
            let a0 = if a < p { a } else { a - 1 };
            let b0 = if b < p { b } else { b - 1 };
            if a != p && b != p {
                assert(out@[a] == before[a0]);
                assert(out@[b] == before[b0]);
            } else if a == p {
                assert(out@[b] == before[b0]);
                assert(p < before.len());
                assert(v[before[p as int] as int].1.last_active > la);
                if b0 > p {
                    assert(v[before[p as int] as int].1.last_active <= v[before[b0] as int].1.last_active);
                }
            } else {
                assert(out@[a] == before[a0]);
            }
        }
    }
}

/// The positions of the sessions that may be evicted for the cap, least recently active
/// first (equals in registry order).
fn lru_order<H: Fn(&str, Option<&Session>) -> bool>(registry: &SessionsRegistry, has_active: &H) -> (r: Vec<
    usize,
>)
    requires
        decides_active(*has_active),
    ensures
        forall|k: int|
            0 <= k < r@.len() ==> #[trigger] r@[k] < registry@.len() && lru_evictable(
                *has_active,
                registry@[r@[k] as int].0,
                registry@[r@[k] as int].1,
            ),
        forall|j: int|
            0 <= j < registry@.len() && lru_evictable(*has_active, registry@[j].0, registry@[j].1)
                ==> r@.contains(j as usize),
        forall|a: int, b: int| 0 <= a < b < r@.len() ==> #[trigger] r@[a] != #[trigger] r@[b],
        forall|a: int, b: int|
            0 <= a < b < r@.len() ==> registry@[#[trigger] r@[a] as int].1.last_active
                <= registry@[#[trigger] r@[b] as int].1.last_active,
{
    let ghost v = registry@;
    let n = registry.len();
    let mut out: Vec<usize> = Vec::new();
    let mut j: usize = 0;
    while j < n
        invariant
            n == v.len(),
            v == registry@,
            j <= n,
            decides_active(*has_active),
            forall|k: int|
                0 <= k < out@.len() ==> #[trigger] out@[k] < j && lru_evictable(
                    *has_active,
                    v[out@[k] as int].0,
                    v[out@[k] as int].1,
                ),
            forall|jj: int|
                0 <= jj < j && lru_evictable(*has_active, v[jj].0, v[jj].1) ==> out@.contains(jj as usize),
            forall|a: int, b: int| 0 <= a < b < out@.len() ==> #[trigger] out@[a] != #[trigger] out@[b],
            forall|a: int, b: int|
                0 <= a < b < out@.len() ==> v[#[trigger] out@[a] as int].1.last_active
                    <= v[#[trigger] out@[b] as int].1.last_active,
        decreases n - j,
    {
        let key = registry.key_at(j);
        let s = registry.value_at(j);
        let e = evictable_with(key.as_str(), s, has_active);
        proof {
            if evict_guard(*s) {
                let a = choose|a: bool|
                    #[trigger] answered_active(*has_active, key@, *s, a) && e == (!a && ready_ok(*s)
                        && dead_transport(s.transport));
                lemma_active_answer(*has_active, key@, *s, a);
            }
        }
        if e {
            let ghost before = out@;
            insert_by_activity(&mut out, registry, j);
            proof {
                assert forall|k: int| 0 <= k < out@.len() implies #[trigger] out@[k] < j + 1
                    && lru_evictable(*has_active, v[out@[k] as int].0, v[out@[k] as int].1) by {
                    if out@[k] != j {
                        let q = choose|q: int| 0 <= q < before.len() && before[q] == out@[k];
                        assert(before[q] < j);
                    }
                }
                assert forall|jj: int|
                    0 <= jj < j + 1 && lru_evictable(*has_active, v[jj].0, v[jj].1) implies out@.contains(
                    jj as usize,
                ) by {
                    if jj < j {
                        assert(before.contains(jj as usize));
                    }
                }
            }
        }
        j = j + 1;
    }
    out
}

/// How many of `s` are true.
pub open spec fn count_true(s: Seq<bool>) -> nat
    decreases s.len(),
{
    if s.len() == 0 {
        0
    } else {
        count_true(s.drop_last()) + if s.last() {
            1nat
        } else {
            0nat
        }
    }
}

/// `close_one` may answer `c` when handed session id `id` and end reason `reason`.
pub open spec fn answered<C: FnMut(&str, &str) -> bool>(close_one: C, id: Seq<char>, reason: Seq<char>, c: bool) -> bool {
    exists|a: &str, b: &str| a@ == id && b@ == reason && #[trigger] call_ensures(close_one, (a, b), c)
}

/// A run of cap enforcement over the entries `v` with more than `cap` of them: the positions
/// `offered` were handed to `close_one`, in order, with the end reason `lru_evict`, and it
/// answered `answers`; `r` closes succeeded. The positions offered are distinct sessions that
/// may be evicted, least recently active first, and older than any evictable one not
/// offered; each was offered while the closes so far left more than `cap`; and unless the
/// closes brought the count down to `cap`, every evictable session was offered.
pub open spec fn cap_run<H: Fn(&str, Option<&Session>) -> bool, C: FnMut(&str, &str) -> bool>(
    v: Seq<(Seq<char>, Session)>,
    cap: int,
    h: H,
    close_one: C,
    offered: Seq<usize>,
    answers: Seq<bool>,
    r: int,
) -> bool {
    &&& offered.len() == answers.len()
    &&& forall|k: int|
        0 <= k < offered.len() ==> #[trigger] offered[k] < v.len() && lru_evictable(
            h,
            v[offered[k] as int].0,
            v[offered[k] as int].1,
        ) && answered(close_one, v[offered[k] as int].0, "lru_evict"@, answers[k])
            && count_true(answers.take(k)) < v.len() - cap
    &&& forall|a: int, b: int| 0 <= a < b < offered.len() ==> #[trigger] offered[a] != #[trigger] offered[b]
    &&& forall|a: int, b: int|
        0 <= a < b < offered.len() ==> v[#[trigger] offered[a] as int].1.last_active
            <= v[#[trigger] offered[b] as int].1.last_active
    &&& forall|j: int, k: int|
        0 <= j < v.len() && lru_evictable(h, v[j].0, v[j].1) && !offered.contains(j as usize) && 0 <= k
            < offered.len() ==> v[#[trigger] offered[k] as int].1.last_active <= #[trigger] v[j].1.last_active
    &&& r == count_true(answers)
    &&& r < v.len() - cap ==> forall|j: int|
        0 <= j < v.len() && lru_evictable(h, #[trigger] v[j].0, v[j].1) ==> offered.contains(j as usize)
}

/// Some entry of `v` with id `id` may be evicted for the cap, by what `h` says.
pub open spec fn evictable_id<H: Fn(&str, Option<&Session>) -> bool>(
    h: H,
    v: Seq<(Seq<char>, Session)>,
    id: Seq<char>,
) -> bool {
    exists|j: int| 0 <= j < v.len() && #[trigger] v[j].0 == id && lru_evictable(h, v[j].0, v[j].1)
}

/// Enforces the soft cap on live sessions: when there are more than `cap` (zero disables
/// the cap), hands the ids of sessions that may be evicted, least recently active first and
/// each checked again, to `close_one` with the end reason `lru_evict` until enough closes
/// succeeded to bring the count down to the cap. Gives the number that succeeded; the
/// registry itself is left to the close callback.
pub fn enforce_session_cap<H: Fn(&str, Option<&Session>) -> bool, C: FnMut(&str, &str) -> bool>(
    registry: &mut SessionsRegistry,
    cap: usize,
    has_active: H,
    mut close_one: C,
) -> (r: usize)
    requires
        decides_active(has_active),
        forall|a: &str, b: &str|
            evictable_id(has_active, old(registry)@, a@) && b@ == "lru_evict"@ ==> #[trigger] call_requires(
                close_one,
                (a, b),
            ),
    ensures
        final(registry)@ == old(registry)@,
        cap == 0 || old(registry)@.len() <= cap ==> r == 0,
        cap > 0 && old(registry)@.len() > cap ==> r <= old(registry)@.len() - cap,
        cap > 0 && old(registry)@.len() > cap ==> exists|offered: Seq<usize>, answers: Seq<bool>|
            #[trigger] cap_run(old(registry)@, cap as int, has_active, close_one, offered, answers, r as int),
{
    if cap == 0 {
        return 0;
    }
    let n = registry.len();
    if n <= cap {
        return 0;
    }
    let ghost v = registry@;
    let ghost close0 = close_one;
    let order = lru_order(&*registry, &has_active);
    let mut evicted: usize = 0;
    let mut k: usize = 0;
    let ghost mut answers: Seq<bool> = Seq::empty();
    while k < order.len() && n - evicted > cap
        invariant
            close_one == close0,
            v == registry@,
            n == v.len(),
            n > cap,
            evicted <= n - cap,
            decides_active(has_active),
            forall|a: &str, b: &str|
                evictable_id(has_active, v, a@) && b@ == "lru_evict"@ ==> #[trigger] call_requires(
                    close_one,
                    (a, b),
                ),
            forall|q: int|
                0 <= q < order@.len() ==> #[trigger] order@[q] < n && lru_evictable(
                    has_active,
                    v[order@[q] as int].0,
                    v[order@[q] as int].1,
                ),
            forall|j: int|
                0 <= j < v.len() && lru_evictable(has_active, v[j].0, v[j].1) ==> order@.contains(j as usize),
            forall|a: int, b: int| 0 <= a < b < order@.len() ==> #[trigger] order@[a] != #[trigger] order@[b],
            forall|a: int, b: int|
                0 <= a < b < order@.len() ==> v[#[trigger] order@[a] as int].1.last_active
                    <= v[#[trigger] order@[b] as int].1.last_active,
            answers.len() == k,
            k <= order@.len(),
            evicted == count_true(answers),
            forall|q: int|
                0 <= q < k ==> answered(close0, v[#[trigger] order@[q] as int].0, "lru_evict"@, answers[q])
                    && count_true(answers.take(q)) < n - cap,
        decreases order@.len() - k,
    {
        let idx = order[k];
        let key = registry.key_at(idx);
        let s = registry.value_at(idx);
        let should_close = evictable_with(key.as_str(), s, &has_active);
        proof {
            let a = choose|a: bool|
                #[trigger] answered_active(has_active, key@, *s, a) && should_close == (!a && ready_ok(*s)
                    && dead_transport(s.transport));
            lemma_active_answer(has_active, key@, *s, a);
        }
        let ghost before = answers;
        if should_close {
            let a = key.as_str();
            let b = "lru_evict";
            proof {
                reveal_strlit("lru_evict");
            }
            assert(evictable_id(has_active, v, a@)) by {
                assert(v[idx as int].0 == a@);
            }
            let c = close_one(a, b);
            assert(call_ensures(close0, (a, b), c));
            assert(answered(close0, v[order@[k as int] as int].0, "lru_evict"@, c));
            proof {
                answers = answers.push(c);
                assert(answers.drop_last() =~= before);
                assert(answers.take(k as int) =~= before);
                assert forall|q: int| 0 <= q < k implies answers.take(q) =~= before.take(q) by {}
            }
            if c {
                evicted = evicted + 1;
            }
        }
        k = k + 1;
    }
    proof {
        let offered = order@.take(k as int);
        assert forall|j: int, q: int|
            0 <= j < v.len() && lru_evictable(has_active, v[j].0, v[j].1) && !offered.contains(j as usize) && 0
                <= q < offered.len() implies v[#[trigger] offered[q] as int].1.last_active
            <= #[trigger] v[j].1.last_active by {
            let p = choose|p: int| 0 <= p < order@.len() && order@[p] == j as usize;
            if p < k {
                assert(offered[p] == j as usize);
            }
            assert(offered[q] == order@[q]);
        }
        assert forall|q: int| 0 <= q < offered.len() implies #[trigger] offered[q] < v.len() && lru_evictable(
            has_active,
            v[offered[q] as int].0,
            v[offered[q] as int].1,
        ) && answered(close_one, v[offered[q] as int].0, "lru_evict"@, answers[q])
            && count_true(answers.take(q)) < v.len() - cap by {
            assert(offered[q] == order@[q]);
        }
        assert forall|a: int, b: int| 0 <= a < b < offered.len() implies #[trigger] offered[a]
            != #[trigger] offered[b] by {
            assert(offered[a] == order@[a] && offered[b] == order@[b]);
        }
        assert forall|a: int, b: int|
            0 <= a < b < offered.len() implies v[#[trigger] offered[a] as int].1.last_active
            <= v[#[trigger] offered[b] as int].1.last_active by {
            assert(offered[a] == order@[a] && offered[b] == order@[b]);
        }
        if evicted < n - cap {
            assert(offered =~= order@);
        }
        assert(cap_run(v, cap as int, has_active, close_one, offered, answers, evicted as int));
    }
    evicted
}

/// The lease ids held by live sessions: each non-empty lease once, in order of first holder.
pub open spec fn holds_lease(v: Seq<(Seq<char>, Session)>, id: Seq<char>) -> bool {
    exists|i: int| 0 <= i < v.len() && #[trigger] lease_is(v[i].1, id)
}

/// Session `s` holds the non-empty lease `id`.
pub open spec fn lease_is(s: Session, id: Seq<char>) -> bool {
    s.active_session_lease matches Some(x) && x@ == id && id.len() > 0
}

/// The lease ids this process still holds, each once.
pub fn live_lease_ids(registry: &SessionsRegistry) -> (r: Vec<String>)
    ensures
        forall|a: int, b: int| 0 <= a < b < r@.len() ==> #[trigger] r@[a]@ != #[trigger] r@[b]@,
        forall|a: int| 0 <= a < r@.len() ==> holds_lease(registry@, #[trigger] r@[a]@),
        forall|id: Seq<char>| holds_lease(registry@, id) ==> exists|a: int| 0 <= a < r@.len() && #[trigger] r@[a]@ == id,
{
    let ghost v = registry@;
    let n = registry.len();
    let mut out: Vec<String> = Vec::new();
    let mut i: usize = 0;
    while i < n
        invariant
            n == v.len(),
            v == registry@,
            i <= n,
            forall|a: int, b: int| 0 <= a < b < out@.len() ==> #[trigger] out@[a]@ != #[trigger] out@[b]@,
            forall|a: int| 0 <= a < out@.len() ==> holds_lease(v, #[trigger] out@[a]@),
            forall|j: int, x: String|
                0 <= j < i && v[j].1.active_session_lease == Some(x) && x@.len() > 0 ==> exists|a: int|
                    0 <= a < out@.len() && #[trigger] out@[a]@ == x@,
        decreases n - i,
    {
        match &registry.value_at(i).active_session_lease {
            Some(id) => {
                if to_chars(id.as_str()).len() > 0 {
                    let mut seen = false;
                    let mut q: usize = 0;
                    while q < out.len()
                        invariant
                            q <= out@.len(),
                            !seen ==> forall|a: int| 0 <= a < q ==> #[trigger] out@[a]@ != id@,
                            seen ==> exists|a: int| 0 <= a < out@.len() && #[trigger] out@[a]@ == id@,
                        decreases out@.len() - q,
                    {
                        if out[q] == *id {
                            seen = true;
                        }
                        q = q + 1;
                    }
                    if !seen {
                        let ghost before = out@;
                        out.push(id.clone());
                        proof {
                            assert(holds_lease(v, id@)) by {
                                assert(lease_is(v[i as int].1, id@));
                            }
                            assert forall|a: int| 0 <= a < out@.len() implies holds_lease(v, #[trigger] out@[a]@) by {
                                if a < before.len() {
                                    assert(out@[a] == before[a]);
                                }
                            }
                            assert forall|a: int, b: int| 0 <= a < b < out@.len() implies #[trigger] out@[a]@
                                != #[trigger] out@[b]@ by {
                                if b < before.len() {
                                    assert(out@[a] == before[a]);
                                    assert(out@[b] == before[b]);
                                } else {
                                    assert(out@[a] == before[a]);
                                }
                            }
                            assert forall|j: int, x: String|
                                0 <= j < i + 1 && v[j].1.active_session_lease == Some(x) && x@.len() > 0 implies exists|a: int|
                                0 <= a < out@.len() && #[trigger] out@[a]@ == x@ by {
                                if j < i {
                                    let a = choose|a: int| 0 <= a < before.len() && #[trigger] before[a]@ == x@;
                                    assert(out@[a] == before[a]);
                                } else {
                                    assert(out@[before.len() as int]@ == x@);
                                }
                            }
                        }
                    }
                }
            },
            None => {},
        }
        i = i + 1;
    }
    proof {
        assert forall|id: Seq<char>| holds_lease(v, id) implies exists|a: int| 0 <= a < out@.len() && #[trigger] out@[a]@ == id by {
            let j = choose|j: int| 0 <= j < v.len() && #[trigger] lease_is(v[j].1, id);
            let x = v[j].1.active_session_lease.unwrap();
            assert(v[j].1.active_session_lease == Some(x));
        }
    }
    out
}

/// Asks for a periodic memory trim, with the idle reaper's reason.
pub fn idle_reaper_trim_memory<T: FnMut(&str)>(mut trim: T)
    requires
        forall|a: &str| call_requires(trim, (a,)),
    ensures
        exists|a: &str| a@ == "idle reaper periodic trim"@ && #[trigger] call_ensures(trim, (a,), ()),
{
    trim("idle reaper periodic trim");
}

/// Orphan reaping is on exactly while its grace is positive.
pub fn should_schedule_ws_orphan_reap(grace_ms: i64) -> (r: bool)
    ensures
        r == (grace_ms > 0),
{
    grace_ms > 0
}

/// The live-session cap a raw setting gives without reading it as a float: zero when it is
/// missing, blank, `0`, `null` or `none` (any case), the integer itself when it is a positive
/// integer, zero for any other integer; `None` when it is no integer, left to a float reading.
pub open spec fn session_cap_int_spec(raw: Option<Seq<char>>) -> Option<usize> {
    match raw {
        None => Some(0usize),
        Some(s) => {
            let t = crate::text::trim(s);
            if t.len() == 0 || t == "0"@ || crate::text::ascii_lower(t) == "null"@ || crate::text::ascii_lower(t)
                == "none"@ {
                Some(0usize)
            } else if crate::number::parses_i64(t) {
                if crate::number::int_value(t) <= 0 {
                    Some(0usize)
                } else {
                    Some(crate::number::int_value(t) as usize)
                }
            } else {
                None
            }
        },
    }
}

/// See `session_cap_int_spec`.
pub fn session_cap_int(raw: Option<&str>) -> (r: Option<usize>)
    ensures
        r == session_cap_int_spec(opt_text(raw)),
{
    let s = match raw {
        None => {
            return Some(0);
        },
        Some(s) => s,
    };
    let v = to_chars(s);
    let t = crate::text::trim_exec(v.as_slice());
    let lower = crate::text::ascii_lower_exec(t.as_slice());
    if t.len() == 0 || chars_eq_str(t.as_slice(), "0") || chars_eq_str(lower.as_slice(), "null")
        || chars_eq_str(lower.as_slice(), "none") {
        return Some(0);
    }
    match crate::number::parse_i64_chars(t.as_slice()) {
        Some(n) => if n <= 0 {
            Some(0)
        } else {
            Some(n as usize)
        },
        None => None,
    }
}

} // verus!
