//! The keeper: everything that happens between two packets, or between a packet
//! and a command.
//!
//! Starting a capture is a single step taken between two packets: flush the
//! ring buffer into the capture, then snapshot the tables. Because both happen
//! at the same point in the same packet stream, the snapshot is aligned with
//! the capture by construction rather than by timing luck.
use vstd::prelude::*;
use vstd::string::*;

use crate::bytes::{add64, off_plus};
use crate::pkt::{parse_ethernet, segment_in, SegmentView, TcpSegment};
use crate::ring::{oldest, put, Ring, RingView};
use crate::snapshot::{
    conns_view, text_of, CaptureSnapshot, ConnSnapshot, ConnSnapshotView, DirSnapshotView,
    SNAPSHOT_VERSION,
};
use crate::status::{conn_statuses, conn_statuses_view, health, health_of, ConnStatus, Health};
use crate::text::{chars_of, decimal, push_decimal, same_text};
use crate::tracker::{
    conn_snapshot_of, elapsed, segment_tracked, time_passed, usable_count, ConnView, Tracker,
    TrackerView,
};

verus! {

/// How often connections are looked after.
pub const TICK_US: u64 = 1_000_000;

/// What the keeper is told to do.
#[derive(Debug, Clone)]
pub struct Config {
    pub iface: String,
    pub ports: Vec<u16>,
    pub out_dir: String,
    pub ring_bytes: usize,
    pub idle_secs: u64,
    pub max_conns: usize,
    pub promiscuous: bool,
    pub snaplen: u32,
    pub ring_secs: u64,
    pub max_table_bytes: usize,
    pub kernel_filter: bool,
    pub read_buffer_bytes: usize,
}

/// A request to start a capture.
#[derive(Debug, Clone)]
pub struct StartReq {
    pub name: Option<String>,
    pub pcap: Option<String>,
    pub snapshot: Option<String>,
}

impl Default for StartReq {
    fn default() -> (r: Self)
        ensures
            r.name is None,
            r.pcap is None,
            r.snapshot is None,
    {
        StartReq { name: None, pcap: None, snapshot: None }
    }
}

// ---------------------------------------------------------------------------
// Packets
// ---------------------------------------------------------------------------

/// Whether a segment is from or to a watched port. No ports means every port.
pub open spec fn interesting(ports: Seq<u16>, s: SegmentView) -> bool {
    ports.len() == 0 || ports.contains(s.src_port) || ports.contains(s.dst_port)
}

/// Whether a port is in the list.
fn listed(ports: &[u16], p: u16) -> (r: bool)
    ensures
        r == ports@.contains(p),
{
    let mut i: usize = 0;
    while i < ports.len()
        invariant
            i <= ports@.len(),
            forall|j: int| 0 <= j < i ==> ports@[j] != p,
        decreases ports@.len() - i,
    {
        if ports[i] == p {
            return true;
        }
        i += 1;
    }
    false
}

/// Whether a segment is from or to a watched port.
pub fn is_interesting(ports: &[u16], seg: &TcpSegment<'_>) -> (r: bool)
    ensures
        r == interesting(ports@, seg@),
{
    ports.len() == 0 || listed(ports, seg.src_port) || listed(ports, seg.dst_port)
}

// ---------------------------------------------------------------------------
// Captures
// ---------------------------------------------------------------------------

/// A capture that is running.
#[derive(Debug, Clone)]
pub struct Session {
    pub id: String,
    pub pcap_path: String,
    pub snapshot_path: String,
    pub packets: u64,
    pub bytes: u64,
    pub started_us: u64,
    pub conns_usable: usize,
    pub conns_degraded: usize,
}

/// The same as a mathematical value.
#[verifier::ext_equal]
pub struct SessionView {
    pub id: Seq<char>,
    pub pcap_path: Seq<char>,
    pub snapshot_path: Seq<char>,
    pub packets: u64,
    pub bytes: u64,
    pub started_us: u64,
    pub conns_usable: usize,
    pub conns_degraded: usize,
}

impl View for Session {
    type V = SessionView;

    open spec fn view(&self) -> SessionView {
        SessionView {
            id: self.id@,
            pcap_path: self.pcap_path@,
            snapshot_path: self.snapshot_path@,
            packets: self.packets,
            bytes: self.bytes,
            started_us: self.started_us,
            conns_usable: self.conns_usable,
            conns_degraded: self.conns_degraded,
        }
    }
}

/// The capture, where there is one.
pub open spec fn session_view(s: Option<Session>) -> Option<SessionView> {
    match s {
        Some(s) => Some(s@),
        None => None,
    }
}

/// Where a file of a capture goes.
#[derive(Debug)]
pub enum Target {
    /// To the path that was asked for.
    Given(String),
    /// To a file of this name in the output directory.
    InOutDir(String),
}

/// The same as a mathematical value.
#[verifier::ext_equal]
pub enum TargetView {
    Given(Seq<char>),
    InOutDir(Seq<char>),
}

impl View for Target {
    type V = TargetView;

    open spec fn view(&self) -> TargetView {
        match self {
            Target::Given(s) => TargetView::Given(s@),
            Target::InOutDir(s) => TargetView::InOutDir(s@),
        }
    }
}

/// What it takes to start a capture.
#[derive(Debug)]
pub struct StartPlan {
    pub id: String,
    pub started_us: u64,
    pub pcap: Target,
    pub snapshot: Target,
}

/// Why a capture is not started.
#[derive(Debug)]
pub enum StartError {
    /// One capture runs at a time.
    AlreadyRunning(String),
    /// The name would lead out of the output directory.
    PathSeparator,
}

impl StartError {
    /// The error in words.
    pub fn message(&self) -> (r: String)
        ensures
            r@ == (match *self {
                StartError::AlreadyRunning(id) => "capture "@ + id@ + " is already running"@,
                StartError::PathSeparator => "capture name must not contain path separators"@,
            }),
    {
        match self {
            StartError::AlreadyRunning(id) => {
                let mut s = String::from_str("capture ");
                s.append(id.as_str());
                s.append(" is already running");
                s
            },
            StartError::PathSeparator => {
                String::from_str("capture name must not contain path separators")
            },
        }
    }
}

/// Why a capture is not stopped.
#[derive(Debug)]
pub enum StopError {
    /// The capture that runs is another one: the wanted one, and that one.
    NotThatOne(String, String),
    NoneRunning,
}

impl StopError {
    /// The error in words.
    pub fn message(&self) -> (r: String)
        ensures
            r@ == (match *self {
                StopError::NotThatOne(want, have) => "no capture "@ + want@ + " (running: "@
                    + have@ + ")"@,
                StopError::NoneRunning => "no capture is running"@,
            }),
    {
        match self {
            StopError::NotThatOne(want, have) => {
                let mut s = String::from_str("no capture ");
                s.append(want.as_str());
                s.append(" (running: ");
                s.append(have.as_str());
                s.append(")");
                s
            },
            StopError::NoneRunning => String::from_str("no capture is running"),
        }
    }
}

/// The id of a capture that is asked for at `now_us`: the name it is given, or
/// one made of the time.
pub open spec fn capture_id(req: StartReq, now_us: u64) -> Seq<char> {
    match req.name {
        Some(n) => n@,
        None => "cap-"@ + decimal(now_us as nat),
    }
}

/// Whether a name holds a path separator.
pub open spec fn has_separator(s: Seq<char>) -> bool {
    s.contains('/') || s.contains('\\')
}

/// Where a file goes, with what it is called unless the request says so.
pub open spec fn target_of(given: Option<String>, name: Seq<char>) -> TargetView {
    match given {
        Some(p) => TargetView::Given(p@),
        None => TargetView::InOutDir(name),
    }
}

fn separated(s: &str) -> (r: bool)
    ensures
        r == has_separator(s@),
{
    let cs: Vec<char> = chars_of(s);
    let mut i: usize = 0;
    while i < cs.len()
        invariant
            i <= cs@.len(),
            cs@ == s@,
            forall|j: int| 0 <= j < i ==> cs@[j] != '/' && cs@[j] != '\\',
        decreases cs@.len() - i,
    {
        if cs[i] == '/' || cs[i] == '\\' {
            assert(s@[i as int] == cs@[i as int]);
            return true;
        }
        i += 1;
    }
    assert(!has_separator(s@)) by {
        if s@.contains('/') {
            let j = s@.index_of('/');
            assert(cs@[j] == '/');
        }
        if s@.contains('\\') {
            let j = s@.index_of('\\');
            assert(cs@[j] == '\\');
        }
    }
    false
}

fn choose_target(given: &Option<String>, id: &str, suffix: &str) -> (r: Target)
    ensures
        r@ == target_of(*given, id@ + suffix@),
{
    match given {
        Some(p) => Target::Given(p.clone()),
        None => {
            let mut name: String = id.to_owned();
            name.append(suffix);
            Target::InOutDir(name)
        },
    }
}

/// A direction that cannot be vouched for.
#[derive(Debug)]
pub struct Degraded {
    pub conn_id: String,
    pub dir: String,
    pub reason: Option<String>,
}

/// The same as a mathematical value.
#[verifier::ext_equal]
pub struct DegradedView {
    pub conn_id: Seq<char>,
    pub dir: Seq<char>,
    pub reason: Option<Seq<char>>,
}

impl View for Degraded {
    type V = DegradedView;

    open spec fn view(&self) -> DegradedView {
        DegradedView { conn_id: self.conn_id@, dir: self.dir@, reason: text_of(self.reason) }
    }
}

/// The directions of a list, one by one.
pub open spec fn degraded_view(s: Seq<Degraded>) -> Seq<DegradedView> {
    Seq::new(s.len(), |i: int| s[i]@)
}

/// Those of a connection's directions that cannot be vouched for.
pub open spec fn degraded_dirs(conn_id: Seq<char>, dirs: Seq<DirSnapshotView>) -> Seq<DegradedView>
    decreases dirs.len(),
{
    if dirs.len() == 0 {
        Seq::empty()
    } else {
        let before = degraded_dirs(conn_id, dirs.drop_last());
        let d = dirs.last();
        if d.usable {
            before
        } else {
            before.push(DegradedView { conn_id, dir: d.dir, reason: d.reason })
        }
    }
}

/// Those of all connections.
pub open spec fn degraded_of(conns: Seq<ConnSnapshotView>) -> Seq<DegradedView>
    decreases conns.len(),
{
    if conns.len() == 0 {
        Seq::empty()
    } else {
        degraded_of(conns.drop_last()) + degraded_dirs(conns.last().conn_id, conns.last().dirs)
    }
}

/// Adds those of a connection's directions that cannot be vouched for.
fn push_degraded(out: &mut Vec<Degraded>, c: &ConnSnapshot)
    ensures
        degraded_view(final(out)@) == degraded_view(old(out)@) + degraded_dirs(
            c@.conn_id,
            c@.dirs,
        ),
{
    let ghost start = degraded_view(out@);
    let ghost ds = c@.dirs;
    let mut i: usize = 0;
    assert(start + degraded_dirs(c@.conn_id, ds.take(0)) =~= start);
    while i < c.dirs.len()
        invariant
            i <= c.dirs@.len(),
            ds == c@.dirs,
            degraded_view(out@) == start + degraded_dirs(c@.conn_id, ds.take(i as int)),
        decreases c.dirs@.len() - i,
    {
        let d = &c.dirs[i];
        let ghost before = degraded_view(out@);
        proof {
            assert(ds.take(i + 1).drop_last() =~= ds.take(i as int));
            assert(ds.take(i + 1).last() == d@);
        }
        if !d.usable {
            let e = Degraded {
                conn_id: c.conn_id.clone(),
                dir: d.dir.clone(),
                reason: d.reason.clone(),
            };
            let ghost ev = e@;
            out.push(e);
            proof {
                assert(degraded_view(out@) =~= before.push(ev));
                assert(degraded_view(out@) =~= start + degraded_dirs(
                    c@.conn_id,
                    ds.take(i + 1),
                ));
            }
        }
        i += 1;
    }
    assert(ds.take(ds.len() as int) =~= ds);
}

/// The directions that cannot be vouched for, so that one finds out before the
/// test rather than after.
pub fn degraded(conns: &[ConnSnapshot]) -> (r: Vec<Degraded>)
    ensures
        degraded_view(r@) == degraded_of(conns_view(conns@)),
{
    let ghost cs = conns_view(conns@);
    let mut out: Vec<Degraded> = Vec::new();
    let mut i: usize = 0;
    assert(degraded_view(out@) =~= degraded_of(cs.take(0)));
    while i < conns.len()
        invariant
            i <= conns@.len(),
            cs == conns_view(conns@),
            degraded_view(out@) == degraded_of(cs.take(i as int)),
        decreases conns@.len() - i,
    {
        proof {
            assert(cs.take(i + 1).drop_last() =~= cs.take(i as int));
            assert(cs.take(i + 1).last() == conns@[i as int]@);
        }
        push_degraded(&mut out, &conns[i]);
        i += 1;
    }
    assert(cs.take(cs.len() as int) =~= cs);
    out
}

// ---------------------------------------------------------------------------
// The keeper
// ---------------------------------------------------------------------------

/// The keeper's state as a mathematical value.
#[verifier::ext_equal]
pub struct KeeperView {
    pub ports: Seq<u16>,
    pub iface: Seq<char>,
    pub tracker: TrackerView,
    pub ring: RingView,
    pub session: Option<SessionView>,
    pub last_tick: u64,
    pub read_errors: u64,
}

/// The keeper once a frame was read.
pub open spec fn frame_kept(k: KeeperView, frame: Seq<u8>, now_us: u64) -> KeeperView {
    match segment_in(frame) {
        Some(s) if interesting(k.ports, s) => KeeperView {
            ring: put(k.ring, now_us, frame),
            tracker: segment_tracked(k.tracker, s, now_us),
            ..k
        },
        _ => k,
    }
}

/// Whether a frame belongs into a capture.
pub open spec fn frame_wanted(k: KeeperView, frame: Seq<u8>) -> bool {
    segment_in(frame) is Some && interesting(k.ports, segment_in(frame)->Some_0)
}

/// The capture once a packet was written to it. The totals wrap.
pub open spec fn session_wrote(s: SessionView, len: int) -> SessionView {
    SessionView { packets: add64(s.packets, 1), bytes: add64(s.bytes, len), ..s }
}

/// The keeper.
#[derive(Debug)]
pub struct Keeper {
    pub ports: Vec<u16>,
    pub iface: String,
    pub tracker: Tracker,
    pub ring: Ring,
    pub session: Option<Session>,
    pub last_tick: u64,
    pub read_errors: u64,
}

impl View for Keeper {
    type V = KeeperView;

    open spec fn view(&self) -> KeeperView {
        KeeperView {
            ports: self.ports@,
            iface: self.iface@,
            tracker: self.tracker@,
            ring: self.ring@,
            session: session_view(self.session),
            last_tick: self.last_tick,
            read_errors: self.read_errors,
        }
    }
}

impl Keeper {
    /// The parts are well-formed.
    pub open spec fn wf(&self) -> bool {
        self.tracker.wf() && self.ring.wf()
    }

    /// A keeper that has seen nothing. The times have to fit in microseconds.
    pub fn new(cfg: &Config, now_us: u64) -> (r: Self)
        requires
            cfg.idle_secs * 1_000_000 <= u64::MAX,
            cfg.ring_secs * 1_000_000 <= u64::MAX,
        ensures
            r.wf(),
            r@ == (KeeperView {
                ports: cfg.ports@,
                iface: cfg.iface@,
                tracker: TrackerView {
                    conns: Seq::empty(),
                    server_ports: cfg.ports@.to_set(),
                    max_conns: cfg.max_conns,
                    idle_us: (cfg.idle_secs * 1_000_000) as u64,
                    table_limit: cfg.max_table_bytes,
                    segments: 0,
                    evicted: 0,
                    rejected_full: 0,
                },
                ring: RingView {
                    q: Seq::empty(),
                    limit: cfg.ring_bytes,
                    max_age_us: (cfg.ring_secs * 1_000_000) as u64,
                },
                session: None,
                last_tick: now_us,
                read_errors: 0,
            }),
    {
        Keeper {
            ports: copy_ports(&cfg.ports),
            iface: cfg.iface.clone(),
            tracker: Tracker::new(
                copy_ports(&cfg.ports),
                cfg.max_conns,
                cfg.idle_secs,
                cfg.max_table_bytes,
            ),
            ring: Ring::new(cfg.ring_bytes, cfg.ring_secs),
            session: None,
            last_tick: now_us,
            read_errors: 0,
        }
    }

    /// A frame was read. Returns whether it belongs into a capture that is
    /// running.
    pub fn on_frame(&mut self, frame: &[u8], now_us: u64) -> (r: bool)
        requires
            old(self).wf(),
        ensures
            final(self).wf(),
            final(self)@ == frame_kept(old(self)@, frame@, now_us),
            r == frame_wanted(old(self)@, frame@),
    {
        match parse_ethernet(frame) {
            None => false,
            Some(seg) => {
                if !is_interesting(&self.ports, &seg) {
                    return false;
                }
                self.ring.push(now_us, frame);
                self.tracker.on_segment(&seg, now_us);
                true
            },
        }
    }

    /// A packet was written to the capture that is running.
    pub fn wrote(&mut self, len: u64)
        requires
            old(self).wf(),
        ensures
            final(self).wf(),
            final(self)@ == (KeeperView {
                session: match old(self)@.session {
                    Some(s) => Some(session_wrote(s, len as int)),
                    None => None,
                },
                ..old(self)@
            }),
    {
        if let Some(s) = &mut self.session {
            s.packets = off_plus(s.packets, 1);
            s.bytes = off_plus(s.bytes, len);
        }
    }

    /// Reading failed. Returns whether it is worth a line: once in a thousand
    /// times.
    pub fn on_read_error(&mut self) -> (r: bool)
        requires
            old(self).wf(),
        ensures
            final(self).wf(),
            final(self)@ == (KeeperView {
                read_errors: add64(old(self)@.read_errors, 1),
                ..old(self)@
            }),
            r == (final(self)@.read_errors % 1000 == 1),
    {
        self.read_errors = off_plus(self.read_errors, 1);
        self.read_errors % 1000 == 1
    }

    /// Time passes. Connections are looked after every so often; returns whether
    /// they were.
    pub fn on_time(&mut self, now_us: u64) -> (r: bool)
        requires
            old(self).wf(),
        ensures
            final(self).wf(),
            r == (elapsed(now_us, old(self)@.last_tick) > TICK_US),
            final(self)@ == (if r {
                KeeperView {
                    tracker: time_passed(old(self)@.tracker, now_us),
                    last_tick: now_us,
                    ..old(self)@
                }
            } else {
                old(self)@
            }),
    {
        if now_us.saturating_sub(self.last_tick) > TICK_US {
            self.tracker.tick(now_us);
            self.last_tick = now_us;
            true
        } else {
            false
        }
    }

    /// A capture is asked for.
    pub fn plan_start(&self, req: &StartReq, now_us: u64) -> (r: Result<StartPlan, StartError>)
        ensures
            match r {
                Err(StartError::AlreadyRunning(id)) => self@.session is Some && id@
                    == self@.session->Some_0.id,
                Err(StartError::PathSeparator) => self@.session is None && has_separator(
                    capture_id(*req, now_us),
                ),
                Ok(p) => {
                    let id = capture_id(*req, now_us);
                    &&& self@.session is None
                    &&& !has_separator(id)
                    &&& p.id@ == id
                    &&& p.started_us == now_us
                    &&& p.pcap@ == target_of(req.pcap, id + ".pcap"@)
                    &&& p.snapshot@ == target_of(req.snapshot, id + ".snapshot.json"@)
                },
            },
    {
        if let Some(s) = &self.session {
            return Err(StartError::AlreadyRunning(s.id.clone()));
        }
        let id: String = match &req.name {
            Some(n) => n.clone(),
            None => {
                let mut s = String::from_str("cap-");
                push_decimal(&mut s, now_us);
                s
            },
        };
        if separated(id.as_str()) {
            return Err(StartError::PathSeparator);
        }
        let pcap: Target = choose_target(&req.pcap, id.as_str(), ".pcap");
        let snapshot: Target = choose_target(&req.snapshot, id.as_str(), ".snapshot.json");
        Ok(StartPlan { id, started_us: now_us, pcap, snapshot })
    }

    /// The snapshot as of exactly this point in the packet stream.
    pub fn snapshot(&self, id: &str, started_us: u64, pcap_path: &str) -> (r: CaptureSnapshot)
        requires
            self.wf(),
        ensures
            r.version == SNAPSHOT_VERSION,
            r.capture_id@ == id@,
            r.started_unix_us == started_us,
            r.iface@ == self@.iface,
            r.pcap_path@ == pcap_path@,
            conns_view(r.conns@) == self@.tracker.conns.map_values(
                |c: ConnView| conn_snapshot_of(c, oldest(self@.ring)),
            ),
            r.conns_usable == usable_count(self@.tracker.conns, oldest(self@.ring)),
            r.conns_usable + r.conns_degraded == self@.tracker.conns.len(),
    {
        let (conns, usable, broken) = self.tracker.snapshot(self.ring.oldest_us());
        CaptureSnapshot {
            version: SNAPSHOT_VERSION,
            capture_id: id.to_owned(),
            started_unix_us: started_us,
            iface: self.iface.clone(),
            pcap_path: pcap_path.to_owned(),
            conns_usable: usable,
            conns_degraded: broken,
            conns,
        }
    }

    /// A capture has started.
    pub fn begin(&mut self, session: Session)
        requires
            old(self).wf(),
        ensures
            final(self).wf(),
            final(self)@ == (KeeperView { session: Some(session@), ..old(self)@ }),
    {
        self.session = Some(session);
    }

    /// A capture is to stop: the one that runs, or the one with this id.
    pub fn stop(&mut self, id: &Option<String>) -> (r: Result<Session, StopError>)
        requires
            old(self).wf(),
        ensures
            final(self).wf(),
            match old(self)@.session {
                None => r matches Err(StopError::NoneRunning) && final(self)@ == old(self)@,
                Some(s) => if text_of(*id) is None || text_of(*id) == Some(s.id) {
                    &&& r is Ok
                    &&& r->Ok_0@ == s
                    &&& final(self)@ == (KeeperView { session: None, ..old(self)@ })
                } else {
                    &&& r matches Err(StopError::NotThatOne(want, have))
                    &&& Some(want@) == text_of(*id)
                    &&& have@ == s.id
                    &&& final(self)@ == old(self)@
                },
            },
    {
        match self.session.take() {
            None => Err(StopError::NoneRunning),
            Some(s) => match id {
                None => Ok(s),
                Some(want) => {
                    if same_text(want.as_str(), s.id.as_str()) {
                        Ok(s)
                    } else {
                        let e = StopError::NotThatOne(want.clone(), s.id.clone());
                        self.session = Some(s);
                        Err(e)
                    }
                },
            },
        }
    }

    /// How the keeper is doing.
    pub fn health(&self, now_us: u64) -> (r: Health)
        requires
            self.wf(),
        ensures
            r == health_of(
                self@.tracker.conns,
                self@.tracker.segments,
                self@.tracker.evicted,
                self@.tracker.rejected_full,
                self@.ring,
                self@.read_errors,
                now_us,
            ),
    {
        health(&self.tracker, &self.ring, self.read_errors, now_us)
    }

    /// What there is to say of every tracked connection.
    pub fn connections(&self, now_us: u64) -> (r: Vec<ConnStatus>)
        requires
            self.wf(),
        ensures
            conn_statuses_view(r@) == self@.tracker.conns.map_values(
                |c: ConnView| crate::status::conn_status_of(c, now_us),
            ),
    {
        conn_statuses(&self.tracker, now_us)
    }
}

/// A copy of the ports.
fn copy_ports(ports: &[u16]) -> (r: Vec<u16>)
    ensures
        r@ == ports@,
{
    vstd::slice::slice_to_vec(ports)
}

/// The degraded directions are those that cannot be used, each under the id of its
/// connection and with its own name and reason, and no others.
pub proof fn law_degraded_are_the_unusable(conns: Seq<ConnSnapshotView>, e: DegradedView)
    ensures
        degraded_of(conns).contains(e) <==> exists|i: int, j: int|
            0 <= i < conns.len() && 0 <= j < conns[i].dirs.len() && !(
            #[trigger] conns[i].dirs[j]).usable && e == (DegradedView {
                conn_id: conns[i].conn_id,
                dir: conns[i].dirs[j].dir,
                reason: conns[i].dirs[j].reason,
            }),
    decreases conns.len(),
{
    if conns.len() > 0 {
        let n = conns.len() - 1;
        let front = conns.drop_last();
        let c = conns.last();
        let a = degraded_of(front);
        let b = degraded_dirs(c.conn_id, c.dirs);
        law_degraded_are_the_unusable(front, e);
        lemma_degraded_dirs(c.conn_id, c.dirs, e);
        if (a + b).contains(e) {
            let k = choose|k: int| 0 <= k < (a + b).len() && (a + b)[k] == e;
            if k < a.len() {
                assert(a.contains(a[k]));
                let (i, j) = choose|i: int, j: int|
                    0 <= i < front.len() && 0 <= j < front[i].dirs.len() && !(
                    #[trigger] front[i].dirs[j]).usable && e == (DegradedView {
                        conn_id: front[i].conn_id,
                        dir: front[i].dirs[j].dir,
                        reason: front[i].dirs[j].reason,
                    });
                assert(front[i] == conns[i]);
                assert(!conns[i].dirs[j].usable);
            } else {
                assert(b[k - a.len()] == e);
                assert(b.contains(e));
                let j = choose|j: int|
                    0 <= j < c.dirs.len() && !(#[trigger] c.dirs[j]).usable && e == (DegradedView {
                        conn_id: c.conn_id,
                        dir: c.dirs[j].dir,
                        reason: c.dirs[j].reason,
                    });
                assert(!conns[n].dirs[j].usable);
            }
        }
        if exists|i: int, j: int|
            0 <= i < conns.len() && 0 <= j < conns[i].dirs.len() && !(
            #[trigger] conns[i].dirs[j]).usable && e == (DegradedView {
                conn_id: conns[i].conn_id,
                dir: conns[i].dirs[j].dir,
                reason: conns[i].dirs[j].reason,
            }) {
            let (i, j) = choose|i: int, j: int|
                0 <= i < conns.len() && 0 <= j < conns[i].dirs.len() && !(
                #[trigger] conns[i].dirs[j]).usable && e == (DegradedView {
                    conn_id: conns[i].conn_id,
                    dir: conns[i].dirs[j].dir,
                    reason: conns[i].dirs[j].reason,
                });
            if i < n {
                assert(front[i] == conns[i]);
                assert(!front[i].dirs[j].usable);
                let k = choose|k: int| 0 <= k < a.len() && a[k] == e;
                assert((a + b)[k] == e);
            } else {
                assert(!c.dirs[j].usable);
                let k = choose|k: int| 0 <= k < b.len() && b[k] == e;
                assert((a + b)[a.len() + k] == e);
            }
        }
    }
}

proof fn lemma_degraded_dirs(conn_id: Seq<char>, dirs: Seq<DirSnapshotView>, e: DegradedView)
    ensures
        degraded_dirs(conn_id, dirs).contains(e) <==> exists|j: int|
            0 <= j < dirs.len() && !(#[trigger] dirs[j]).usable && e == (DegradedView {
                conn_id,
                dir: dirs[j].dir,
                reason: dirs[j].reason,
            }),
    decreases dirs.len(),
{
    if dirs.len() > 0 {
        let front = dirs.drop_last();
        let d = dirs.last();
        let before = degraded_dirs(conn_id, front);
        let all = degraded_dirs(conn_id, dirs);
        lemma_degraded_dirs(conn_id, front, e);
        if all.contains(e) {
            let k = choose|k: int| 0 <= k < all.len() && all[k] == e;
            if k < before.len() {
                assert(before[k] == e);
                let j = choose|j: int|
                    0 <= j < front.len() && !(#[trigger] front[j]).usable && e == (DegradedView {
                        conn_id,
                        dir: front[j].dir,
                        reason: front[j].reason,
                    });
                assert(dirs[j] == front[j]);
            } else {
                assert(!dirs[dirs.len() - 1].usable);
            }
        }
        if exists|j: int|
            0 <= j < dirs.len() && !(#[trigger] dirs[j]).usable && e == (DegradedView {
                conn_id,
                dir: dirs[j].dir,
                reason: dirs[j].reason,
            }) {
            let j = choose|j: int|
                0 <= j < dirs.len() && !(#[trigger] dirs[j]).usable && e == (DegradedView {
                    conn_id,
                    dir: dirs[j].dir,
                    reason: dirs[j].reason,
                });
            if j < front.len() {
                assert(front[j] == dirs[j]);
                let k = choose|k: int| 0 <= k < before.len() && before[k] == e;
                assert(all[k] == e);
            } else {
                assert(all[before.len() as int] == e);
            }
        }
    }
}

/// A frame of a wanted port, either way, is put in the ring with its time and followed,
/// and any other changes nothing. With no ports listed every one is wanted.
pub proof fn law_unwanted_frames_change_nothing(k: KeeperView, frame: Seq<u8>, now_us: u64)
    ensures
        ({
            let after = frame_kept(k, frame, now_us);
            let seg = segment_in(frame);
            let wanted = seg is Some && (k.ports.len() == 0 || k.ports.contains(
                seg->Some_0.src_port,
            ) || k.ports.contains(seg->Some_0.dst_port));
            &&& !wanted ==> after == k
            &&& wanted ==> after.ring == put(k.ring, now_us, frame) && after.tracker
                == segment_tracked(k.tracker, seg->Some_0, now_us)
            &&& after.session == k.session && after.ports == k.ports && after.iface == k.iface
            &&& wanted ==> after.tracker.segments == add64(k.tracker.segments, 1)
        }),
{
}

} // verus!
