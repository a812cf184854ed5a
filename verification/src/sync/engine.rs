//! The sync engine's plain values and decisions: who a device is, what the
//! peers table holds, how a timestamp reads, and what each answer of a peer
//! means to a pairing or to one pull-merge-push cycle. The sockets, threads
//! and channels live with the caller, which performs each step and hands
//! back what came of it.

use vstd::prelude::*;

use crate::sync::model::SyncSnapshot;
use crate::sync::http::SYNC_PORT;
use crate::text::{chars_of, decimal, decimal_text, parse_bounded, parse_unsigned, slice_chars, string_of, trim, trimmed};
use vstd::string::StringExecFns;

verus! {

broadcast use vstd::string::group_string_axioms;

/// How a device announces itself. `id` is stable across runs, so a rename
/// or a new address does not orphan a pairing.
pub struct DeviceInfo {
    pub id: String,
    pub name: String,
    /// "windows" / "android" / "linux" / "macos" / "other"
    pub kind: String,
    pub port: u16,
}

/// One line of the peers table.
pub struct PeerRecord {
    pub id: String,
    pub name: String,
    pub kind: String,
    pub ip: String,
    pub port: u16,
    pub paired: bool,
    /// Unix seconds of the last announcement seen (0 = never).
    pub last_seen: u64,
    /// When the last successful sync happened ("" = never).
    pub last_sync: String,
}

/// One line of the sync log, newest last.
pub struct LogLine {
    pub at: String,
    pub peer: String,
    pub ok: bool,
    pub message: String,
}

/// A command for the sync worker.
pub enum Cmd {
    /// Run a full pull-merge-push against one peer.
    SyncWith(PeerRecord),
    /// Ask a discovered device to pair.
    PairWith(PeerRecord),
    /// A device typed in by hand: ask it who it is and pair on the answer.
    ProbeAdd { ip: String, port: u16 },
}

/// The device kind for an operating system's name (as
/// `std::env::consts::OS` spells it).
pub open spec fn kind_spec(os: Seq<char>) -> Seq<char> {
    if os == "android"@ {
        "android"@
    } else if os == "windows"@ {
        "windows"@
    } else if os == "macos"@ {
        "macos"@
    } else if os == "linux"@ {
        "linux"@
    } else {
        "other"@
    }
}

pub fn kind_for_os(os: &str) -> (r: String)
    ensures
        r@ == kind_spec(os@),
{
    let oc = crate::text::chars_of(os);
    if same(&oc, "android") {
        String::from_str("android")
    } else if same(&oc, "windows") {
        String::from_str("windows")
    } else if same(&oc, "macos") {
        String::from_str("macos")
    } else if same(&oc, "linux") {
        String::from_str("linux")
    } else {
        String::from_str("other")
    }
}

fn same(a: &Vec<char>, b: &str) -> (r: bool)
    ensures
        r == (a@ == b@),
{
    let bc = crate::text::chars_of(b);
    if a.len() != bc.len() {
        return false;
    }
    let mut i: usize = 0;
    while i < a.len()
        invariant
            bc@ == b@,
            a@.len() == bc@.len(),
            i <= a@.len(),
            forall|j: int| 0 <= j < i ==> a@[j] == bc@[j],
        decreases a@.len() - i,
    {
        if a[i] != bc[i] {
            return false;
        }
        i = i + 1;
    }
    assert(a@ =~= b@);
    true
}

/// The readable name of a device whose host has none: "Quire (kind)".
pub open spec fn fallback_name(kind: Seq<char>) -> Seq<char> {
    "Quire ("@ + kind + ")"@
}

/// A device's default name: the host name, unless it is empty or
/// "localhost"; then a name made of the kind.
pub fn default_name_for(host: &str, kind: &str) -> (r: String)
    ensures
        r@ == if host@.len() > 0 && host@ != "localhost"@ { host@ } else { fallback_name(kind@) },
{
    let hc = crate::text::chars_of(host);
    if hc.len() > 0 && !same(&hc, "localhost") {
        return String::from_str(host);
    }
    let mut s = String::from_str("Quire (");
    s.append(kind);
    s.append(")");
    s
}

// ─── a readable UTC timestamp ───────────────────────────────────────────────

/// The civil (proleptic Gregorian, UTC) date of a day count since
/// 1970-01-01: (year, month, day).
pub open spec fn civil_from_days(days: int) -> (int, int, int) {
    let z = days + 719468;
    let era = (if z >= 0 { z } else { z - 146096 }) / 146097;
    let doe = z - era * 146097;
    let yoe = (doe - doe / 1460 + doe / 36524 - doe / 146096) / 365;
    let y = yoe + era * 400;
    let doy = doe - (365 * yoe + yoe / 4 - yoe / 100);
    let mp = (5 * doy + 2) / 153;
    let d = doy - (153 * mp + 2) / 5 + 1;
    let month = if mp < 10 { mp + 3 } else { mp - 9 };
    (if month <= 2 { y + 1 } else { y }, month, d)
}

/// `n` in decimal, zero-padded to at least `w` digits.
pub open spec fn padded(n: nat, w: nat) -> Seq<char> {
    let d = decimal(n);
    if d.len() >= w {
        d
    } else {
        Seq::new((w - d.len()) as nat, |i: int| '0') + d
    }
}

/// "YYYY-MM-DD HH:MM" of a unix second, in UTC.
pub open spec fn stamp_spec(secs: nat) -> Seq<char> {
    let days = secs / 86400;
    let rem = secs % 86400;
    let (y, m, d) = civil_from_days(days as int);
    padded(y as nat, 4) + "-"@ + padded(m as nat, 2) + "-"@ + padded(d as nat, 2) + " "@ + padded(
        rem / 3600,
        2,
    ) + ":"@ + padded((rem % 3600) / 60, 2)
}

fn padded_text(n: u64, w: usize) -> (r: String)
    requires
        w <= 20,
    ensures
        r@ == padded(n as nat, w as nat),
{
    let d = decimal_text(n);
    let len = d.as_str().unicode_len();
    if len >= w {
        return d;
    }
    let mut s = String::new();
    let mut k: usize = len;
    while k < w
        invariant
            len <= k <= w,
            len == d@.len(),
            s@ == Seq::new((k - len) as nat, |i: int| '0'),
        decreases w - k,
    {
        s.push('0');
        k = k + 1;
        assert(s@ =~= Seq::new((k - len) as nat, |i: int| '0'));
    }
    s.append(d.as_str());
    s
}

/// The readable UTC time of a unix second ("2026-09-23 14:05"): for a
/// person reading the peers table, not for a parser.
pub fn stamp_of(secs: u64) -> (r: String)
    ensures
        r@ == stamp_spec(secs as nat),
{
    let days: u64 = secs / 86400;
    let rem: u64 = secs % 86400;
    let h = rem / 3600;
    let m = (rem % 3600) / 60;
    let z: u64 = days + 719468;
    let era: u64 = z / 146097;
    let doe: u64 = z - era * 146097;
    assert(doe < 146097) by (nonlinear_arith)
        requires
            era == z / 146097,
            doe == z - era * 146097,
    ;
    let yoe: u64 = (doe - doe / 1460 + doe / 36524 - doe / 146096) / 365;
    let y: u64 = yoe + era * 400;
    let doy: u64 = doe - (365 * yoe + yoe / 4 - yoe / 100);
    let mp: u64 = (5 * doy + 2) / 153;
    let d: u64 = doy - (153 * mp + 2) / 5 + 1;
    let month: u64 = if mp < 10 { mp + 3 } else { mp - 9 };
    let year: u64 = if month <= 2 { y + 1 } else { y };
    let mut s = padded_text(year, 4);
    s.append("-");
    let t = padded_text(month, 2);
    s.append(t.as_str());
    s.append("-");
    let t = padded_text(d, 2);
    s.append(t.as_str());
    s.append(" ");
    let t = padded_text(h, 2);
    s.append(t.as_str());
    s.append(":");
    let t = padded_text(m, 2);
    s.append(t.as_str());
    s
}

// ─── pairing ────────────────────────────────────────────────────────────────

/// What came of a pairing request or a probe.
pub enum PairOutcome {
    /// The device is now trusted, at this address.
    Paired { device: DeviceInfo, ip: String },
    /// Nothing paired; the log line says why.
    Failed { peer_id: String, message: String },
}

/// `a` then `b`.
fn cat(a: &str, b: &str) -> (r: String)
    ensures
        r@ == a@ + b@,
{
    let mut s = String::from_str(a);
    s.append(b);
    s
}

/// The answer to asking `peer` to pair (the POST of this device's info):
/// 200 pairs it; any other status or a transport error is logged.
pub fn pair_outcome(peer: &PeerRecord, reply: Result<(u16, String), String>) -> (r: PairOutcome)
    ensures
        match reply {
            Ok((200, _)) => r matches PairOutcome::Paired { device, ip } && device.id@ == peer.id@
                && device.name@ == peer.name@ && device.kind@ == peer.kind@ && device.port
                == peer.port && ip@ == peer.ip@,
            Ok((status, body)) => r matches PairOutcome::Failed { peer_id, message } && peer_id@
                == peer.id@ && message@ == peer.name@ + ": pairing answered "@ + decimal(
                status as nat,
            ) + ": "@ + body@,
            Err(e) => r matches PairOutcome::Failed { peer_id, message } && peer_id@ == peer.id@
                && message@ == peer.name@ + ": "@ + e@,
        },
{
    match reply {
        Ok((status, body)) => {
            if status == 200 {
                PairOutcome::Paired {
                    device: DeviceInfo {
                        id: peer.id.clone(),
                        name: peer.name.clone(),
                        kind: peer.kind.clone(),
                        port: peer.port,
                    },
                    ip: peer.ip.clone(),
                }
            } else {
                let mut m = cat(peer.name.as_str(), ": pairing answered ");
                let code = decimal_text(status as u64);
                m.append(code.as_str());
                m.append(": ");
                m.append(body.as_str());
                PairOutcome::Failed { peer_id: peer.id.clone(), message: m }
            }
        },
        Err(e) => {
            let mut m = cat(peer.name.as_str(), ": ");
            m.append(e.as_str());
            PairOutcome::Failed { peer_id: peer.id.clone(), message: m }
        },
    }
}

/// "ip:port" as the probe's log lines name the address.
pub open spec fn address(ip: Seq<char>, port: u16) -> Seq<char> {
    ip + ":"@ + decimal(port as nat)
}

fn address_text(ip: &str, port: u16) -> (r: String)
    ensures
        r@ == address(ip@, port),
{
    let mut s = cat(ip, ":");
    let p = decimal_text(port as u64);
    s.append(p.as_str());
    s
}

/// The answer to asking a typed-in address who it is: a 200 whose body
/// reads as device info pairs that device; anything else is logged.
/// `reply` is the transport's result: the status and the body read as
/// device info.
pub fn probe_outcome(ip: &str, port: u16, reply: Result<(u16, Result<DeviceInfo, String>), String>) -> (r: PairOutcome)
    ensures
        match reply {
            Ok((200, Ok(d))) => r matches PairOutcome::Paired { device, ip: at } && device == d && at@ == ip@,
            Ok((200, Err(e))) => r matches PairOutcome::Failed { peer_id, message } && peer_id@ == ip@
                && message@ == address(ip@, port) + ": "@ + e@,
            Ok((status, _)) => r matches PairOutcome::Failed { peer_id, message } && peer_id@ == ip@
                && message@ == address(ip@, port) + ": info answered "@ + decimal(status as nat),
            Err(e) => r matches PairOutcome::Failed { peer_id, message } && peer_id@ == ip@
                && message@ == address(ip@, port) + ": "@ + e@,
        },
{
    match reply {
        Ok((status, parsed)) => {
            if status == 200 {
                match parsed {
                    Ok(device) => PairOutcome::Paired { device, ip: String::from_str(ip) },
                    Err(e) => {
                        let mut m = address_text(ip, port);
                        m.append(": ");
                        m.append(e.as_str());
                        PairOutcome::Failed { peer_id: String::from_str(ip), message: m }
                    },
                }
            } else {
                let mut m = address_text(ip, port);
                m.append(": info answered ");
                let code = decimal_text(status as u64);
                m.append(code.as_str());
                PairOutcome::Failed { peer_id: String::from_str(ip), message: m }
            }
        },
        Err(e) => {
            let mut m = address_text(ip, port);
            m.append(": ");
            m.append(e.as_str());
            PairOutcome::Failed { peer_id: String::from_str(ip), message: m }
        },
    }
}

// ─── who may push, and who is asked ─────────────────────────────────────────

/// Some row of the peers table is `id`, paired.
pub open spec fn paired_in(peers: Seq<PeerRecord>, id: Seq<char>) -> bool {
    exists|i: int| 0 <= i < peers.len() && (#[trigger] peers[i]).id@ == id && peers[i].paired
}

/// The log line of a refused push: the sender's name, or a stand-in for a
/// sender that gave none.
pub open spec fn refusal_text(name: Seq<char>) -> Seq<char> {
    (if name.len() == 0 { "未知设备"@ } else { name }) + " 推送了快照，但未配对 — 已拒绝"@
}

/// May this snapshot be merged? A push that reached this device's server
/// arrives without a kind (the server names the sender by the snapshot
/// alone) and is refused unless the sender is paired in the peers table;
/// otherwise anything on the network could write into this library. A pull
/// carries the full peers-table record and is always let through.
pub fn inbound_push_check(peer: &PeerRecord, peers: &Vec<PeerRecord>) -> (r: Result<(), String>)
    ensures
        r is Err <==> (peer.kind@.len() == 0 && !paired_in(peers@, peer.id@)),
        r matches Err(m) ==> m@ == refusal_text(peer.name@),
{
    if peer.kind.as_str().unicode_len() > 0 {
        return Ok(());
    }
    let mut i: usize = 0;
    while i < peers.len()
        invariant
            i <= peers@.len(),
            forall|j: int| 0 <= j < i ==> !((#[trigger] peers@[j]).id@ == peer.id@ && peers@[j].paired),
        decreases peers@.len() - i,
    {
        if peers[i].paired && str_same(peers[i].id.as_str(), peer.id.as_str()) {
            assert(peers@[i as int].id@ == peer.id@);
            return Ok(());
        }
        i = i + 1;
    }
    let mut m = if peer.name.as_str().unicode_len() == 0 { String::from_str("未知设备") } else { String::from_str(peer.name.as_str()) };
    m.append(" 推送了快照，但未配对 — 已拒绝");
    Err(m)
}

/// Whether two strings hold the same characters.
fn str_same(a: &str, b: &str) -> (r: bool)
    ensures
        r == (a@ == b@),
{
    let x = chars_of(a);
    let y = chars_of(b);
    if x.len() != y.len() {
        return false;
    }
    let mut i: usize = 0;
    while i < x.len()
        invariant
            x@ == a@,
            y@ == b@,
            x@.len() == y@.len(),
            i <= x@.len(),
            forall|j: int| 0 <= j < i ==> x@[j] == y@[j],
        decreases x@.len() - i,
    {
        if x[i] != y[i] {
            return false;
        }
        i = i + 1;
    }
    assert(x@ =~= y@);
    true
}

/// The index of the last `:` in `s`, if any.
pub open spec fn last_colon(s: Seq<char>) -> Option<int>
    decreases s.len(),
{
    if s.len() == 0 {
        None
    } else if s.last() == ':' {
        Some(s.len() - 1)
    } else {
        last_colon(s.drop_last())
    }
}

/// Where a typed-in device is asked: the text trimmed; `host:port` when the
/// part after the last colon reads as a port, else the whole text on the
/// sync port; nothing for empty text.
pub open spec fn device_target(text: Seq<char>) -> Option<(Seq<char>, u16)> {
    let t = trim(text);
    if t.len() == 0 {
        None
    } else {
        match last_colon(t) {
            Some(i) => match parse_unsigned(t.skip(i + 1), u16::MAX as nat) {
                Some(p) => Some((t.take(i), p as u16)),
                None => Some((t, SYNC_PORT)),
            },
            None => Some((t, SYNC_PORT)),
        }
    }
}

/// Read the address a user typed to add a device by hand.
pub fn parse_device_target(text: &str) -> (r: Option<(String, u16)>)
    ensures
        match device_target(text@) {
            Some((host, port)) => r matches Some((h, p)) && h@ == host && p == port,
            None => r is None,
        },
{
    let cs = chars_of(text);
    let t = trimmed(cs.as_slice(), 0, cs.len());
    assert(cs@.subrange(0, cs@.len() as int) =~= text@);
    if t.len() == 0 {
        return None;
    }
    let mut i: usize = t.len();
    assert(t@.take(i as int) =~= t@);
    while i > 0 && t[i - 1] != ':'
        invariant
            i <= t@.len(),
            last_colon(t@) == last_colon(t@.take(i as int)),
        decreases i,
    {
        assert(t@.take(i as int).drop_last() =~= t@.take(i - 1));
        i = i - 1;
    }
    if i == 0 {
        assert(t@.take(0) =~= Seq::<char>::empty());
        return Some((string_of(t.as_slice()), SYNC_PORT));
    }
    assert(t@.take(i as int).last() == ':');
    assert(last_colon(t@.take(i as int)) == Some(i - 1));
    let tail_chars = slice_chars(t.as_slice(), i, t.len());
    let tail = string_of(tail_chars.as_slice());
    assert(tail@ =~= t@.skip(i as int));
    match parse_bounded(tail.as_str(), u16::MAX as u64) {
        Some(p) => {
            let host_chars = slice_chars(t.as_slice(), 0, i - 1);
            let host = string_of(host_chars.as_slice());
            assert(host@ =~= t@.take(i - 1));
            Some((host, p as u16))
        },
        None => Some((string_of(t.as_slice()), SYNC_PORT)),
    }
}

/// Whether a periodic round starts now (auto sync on and `interval_secs`
/// passed since the last one; the caller then restarts its clock), and which
/// peers it asks: every paired one, in table order; none when no round
/// starts.
pub fn auto_round(auto: bool, elapsed_secs: u64, interval_secs: u64, peers: &Vec<PeerRecord>) -> (r: (bool, Vec<usize>))
    ensures
        r.0 == (auto && elapsed_secs >= interval_secs),
        !r.0 ==> r.1@.len() == 0,
        r.0 ==> r.1@ == Seq::new(peers@.len() as nat, |j: int| j).filter(|j: int| peers@[j].paired).map_values(|j: int| j as usize),
{
    let mut out: Vec<usize> = Vec::new();
    if !(auto && elapsed_secs >= interval_secs) {
        return (false, out);
    }
    let ghost all = Seq::new(peers@.len() as nat, |j: int| j);
    let ghost pred = |j: int| peers@[j].paired;
    let mut i: usize = 0;
    while i < peers.len()
        invariant
            i <= peers@.len(),
            all == Seq::new(peers@.len() as nat, |j: int| j),
            pred == (|j: int| peers@[j].paired),
            out@ == all.take(i as int).filter(pred).map_values(|j: int| j as usize),
        decreases peers@.len() - i,
    {
        assert(all.take(i + 1) =~= all.take(i as int).push(i as int));
        proof {
            all.take(i as int).lemma_filter_push(i as int, pred);
        }
        if peers[i].paired {
            out.push(i);
            assert(out@ =~= all.take(i + 1).filter(pred).map_values(|j: int| j as usize));
        } else {
            assert(all.take(i + 1).filter(pred) == all.take(i as int).filter(pred));
        }
        i = i + 1;
    }
    assert(all.take(peers@.len() as int) =~= all);
    (true, out)
}

// ─── one pull-merge-push cycle ──────────────────────────────────────────────

/// Where a sync cycle stands: which answer it waits for.
#[derive(Clone, Copy, PartialEq, Eq, Structural)]
pub enum Stage {
    /// The peer's `/sync/info`.
    Info,
    /// The ids of the attachments this device stores.
    LocalIds,
    /// The peer's `/sync/snapshot`.
    Snapshot,
    /// One attachment's bytes.
    Attachment,
    /// The workspace's merge of the peer's snapshot.
    Apply,
    /// The peer's answer to the pushed merged snapshot.
    Push,
    /// Nothing: the cycle is over.
    Done,
}

/// What the caller does next for a sync cycle.
pub enum SyncStep {
    /// GET `path` from the peer, waiting at most `timeout_secs`.
    Get { path: String, timeout_secs: u64 },
    /// Ask the workspace which attachment ids it already stores.
    ListLocalAttachments,
    /// Hand the peer's snapshot and the fetched attachment bytes to the
    /// workspace to merge.
    Apply { snapshot: SyncSnapshot, bytes: Vec<(u64, Vec<u8>)> },
    /// POST the merged snapshot to the peer's `/sync/snapshot`.
    Push { merged: SyncSnapshot, timeout_secs: u64 },
    /// The cycle is over; log the outcome.
    Finish { ok: bool, message: String },
}

/// One pull-merge-push cycle against a peer: the peer is alive and is who
/// we paired with; which attachments live here already; the peer's snapshot;
/// the bytes of the attachments we lack; the merge; the push of the merged
/// snapshot.
pub struct SyncCycle {
    peer_id: String,
    peer_name: String,
    stage: Stage,
    local_ids: Vec<u64>,
    fetch: Vec<u64>,
    next: usize,
    bytes: Vec<(u64, Vec<u8>)>,
    remote: Option<SyncSnapshot>,
}

/// What a finished cycle logs when the app went away mid-cycle.
pub open spec fn shutting_down() -> Seq<char> {
    "the app is shutting down"@
}

/// The attachment ids of a snapshot this device lacks, in snapshot order.
pub open spec fn missing_ids(atts: Seq<crate::sync::model::SAttachmentV>, local: Seq<u64>) -> Seq<u64> {
    atts.map_values(|a: crate::sync::model::SAttachmentV| a.id).filter(|id: u64| !local.contains(id))
}

pub open spec fn finished(step: SyncStep, ok: bool, message: Seq<char>) -> bool {
    step matches SyncStep::Finish { ok: o, message: m } && o == ok && m@ == message
}

pub open spec fn get_step(step: SyncStep, path: Seq<char>, timeout: u64) -> bool {
    step matches SyncStep::Get { path: p, timeout_secs: t } && p@ == path && t == timeout
}

impl SyncCycle {
    pub closed spec fn stage_of(&self) -> Stage {
        self.stage
    }

    pub closed spec fn name_of(&self) -> Seq<char> {
        self.peer_name@
    }

    pub closed spec fn id_of(&self) -> Seq<char> {
        self.peer_id@
    }

    /// The attachment ids this device stores.
    pub closed spec fn local_of(&self) -> Seq<u64> {
        self.local_ids@
    }

    /// The attachment ids still to fetch.
    pub closed spec fn pending(&self) -> Seq<u64> {
        self.fetch@.skip(self.next as int)
    }

    /// The (id, bytes) pairs fetched so far.
    pub closed spec fn fetched(&self) -> Seq<(u64, Seq<u8>)> {
        self.bytes@.map_values(|p: (u64, Vec<u8>)| (p.0, p.1@))
    }

    /// The peer's snapshot, once it arrived.
    pub closed spec fn remote_of(&self) -> Option<crate::sync::model::SyncSnapshotV> {
        match self.remote {
            Some(r) => Some(r@),
            None => None,
        }
    }

    /// The cycle's own consistency: the fetch cursor is within its list.
    pub closed spec fn wf(&self) -> bool {
        self.next <= self.fetch@.len()
    }

    pub fn stage(&self) -> (r: Stage)
        ensures
            r == self.stage_of(),
    {
        self.stage
    }

    fn finish(&mut self, ok: bool, message: String) -> (r: SyncStep)
        ensures
            finished(r, ok, message@),
            final(self).stage_of() == Stage::Done,
            final(self).name_of() == old(self).name_of(),
            final(self).id_of() == old(self).id_of(),
            final(self).wf() == old(self).wf(),
    {
        self.stage = Stage::Done;
        SyncStep::Finish { ok, message }
    }

    fn named(&self, tail: &str) -> (r: String)
        ensures
            r@ == self.name_of() + tail@,
    {
        cat(self.peer_name.as_str(), tail)
    }

    /// Begin a cycle: ask the peer who it is.
    pub fn start(peer: &PeerRecord) -> (r: (SyncCycle, SyncStep))
        ensures
            r.0.stage_of() == Stage::Info,
            r.0.name_of() == peer.name@,
            r.0.id_of() == peer.id@,
            r.0.wf(),
            get_step(r.1, "/sync/info"@, 5),
    {
        let c = SyncCycle {
            peer_id: peer.id.clone(),
            peer_name: peer.name.clone(),
            stage: Stage::Info,
            local_ids: Vec::new(),
            fetch: Vec::new(),
            next: 0,
            bytes: Vec::new(),
            remote: None,
        };
        (c, SyncStep::Get { path: String::from_str("/sync/info"), timeout_secs: 5 })
    }

    /// The peer answered who it is (its status, and its body read as device
    /// info). A peer that answers as another device has moved address.
    pub fn on_info(&mut self, reply: Result<(u16, Result<DeviceInfo, String>), String>) -> (r: SyncStep)
        requires
            old(self).stage_of() == Stage::Info,
            old(self).wf(),
        ensures
            final(self).wf(),
            final(self).name_of() == old(self).name_of(),
            final(self).id_of() == old(self).id_of(),
            match reply {
                Err(e) => finished(r, false, old(self).name_of() + ": "@ + e@),
                Ok((status, parsed)) => if status != 200 {
                    finished(r, false, old(self).name_of() + ": info answered "@ + decimal(status as nat))
                } else {
                    match parsed {
                        Err(e) => finished(r, false, e@),
                        Ok(info) => if info.id@ != old(self).id_of() {
                            finished(
                                r,
                                false,
                                old(self).name_of() + ": answered as "@ + info.name@
                                    + " \u{2014} the address moved to another device"@,
                            )
                        } else {
                            r is ListLocalAttachments && final(self).stage_of() == Stage::LocalIds
                        },
                    }
                },
            },
            r is Finish ==> final(self).stage_of() == Stage::Done,
    {
        match reply {
            Err(e) => {
                let m = cat(self.named(": ").as_str(), e.as_str());
                self.finish(false, m)
            },
            Ok((status, parsed)) => {
                if status != 200 {
                    let mut m = self.named(": info answered ");
                    let code = decimal_text(status as u64);
                    m.append(code.as_str());
                    return self.finish(false, m);
                }
                match parsed {
                    Err(e) => self.finish(false, e),
                    Ok(info) => {
                        if info.id != self.peer_id {
                            let mut m = self.named(": answered as ");
                            m.append(info.name.as_str());
                            m.append(" \u{2014} the address moved to another device");
                            return self.finish(false, m);
                        }
                        self.stage = Stage::LocalIds;
                        SyncStep::ListLocalAttachments
                    },
                }
            },
        }
    }

    /// The workspace answered which attachments it stores (`None`: the app
    /// went away). Next, the peer's snapshot.
    pub fn on_local_ids(&mut self, ids: Option<Vec<u64>>) -> (r: SyncStep)
        requires
            old(self).stage_of() == Stage::LocalIds,
            old(self).wf(),
        ensures
            final(self).wf(),
            final(self).name_of() == old(self).name_of(),
            final(self).id_of() == old(self).id_of(),
            match ids {
                None => finished(r, false, shutting_down()) && final(self).stage_of() == Stage::Done,
                Some(v) => get_step(r, "/sync/snapshot"@, 60) && final(self).stage_of() == Stage::Snapshot
                    && final(self).local_of() == v@,
            },
    {
        match ids {
            None => self.finish(false, String::from_str("the app is shutting down")),
            Some(v) => {
                self.local_ids = v;
                self.stage = Stage::Snapshot;
                SyncStep::Get { path: String::from_str("/sync/snapshot"), timeout_secs: 60 }
            },
        }
    }

    /// The step after the attachments fetched so far: the next missing
    /// one, or the merge when none is left.
    fn after_fetch(&mut self) -> (r: SyncStep)
        requires
            old(self).wf(),
            old(self).remote is Some,
        ensures
            final(self).wf(),
            final(self).name_of() == old(self).name_of(),
            final(self).id_of() == old(self).id_of(),
            final(self).fetch == old(self).fetch,
            final(self).next == old(self).next,
            old(self).pending().len() > 0 ==> get_step(
                r,
                "/sync/attachment/"@ + decimal(old(self).pending()[0] as nat),
                120,
            ) && final(self).stage_of() == Stage::Attachment && final(self).remote == old(self).remote
                && final(self).bytes == old(self).bytes,
            old(self).pending().len() == 0 ==> (r matches SyncStep::Apply { snapshot, bytes } && Some(snapshot@) == old(self).remote_of()
                && bytes@.map_values(|p: (u64, Vec<u8>)| (p.0, p.1@)) == old(self).fetched()) && final(self).stage_of() == Stage::Apply
                && final(self).fetched() == Seq::<(u64, Seq<u8>)>::empty(),
    {
        if self.next < self.fetch.len() {
            let mut path = String::from_str("/sync/attachment/");
            let id = decimal_text(self.fetch[self.next]);
            path.append(id.as_str());
            self.stage = Stage::Attachment;
            return SyncStep::Get { path, timeout_secs: 120 };
        }
        let snapshot = match self.remote.take() {
            Some(s) => s,
            None => {
                proof {
                    assert(false);
                }
                SyncSnapshot::default()
            },
        };
        let mut bytes: Vec<(u64, Vec<u8>)> = Vec::new();
        std::mem::swap(&mut bytes, &mut self.bytes);
        assert(self.fetched() =~= Seq::<(u64, Seq<u8>)>::empty());
        self.stage = Stage::Apply;
        SyncStep::Apply { snapshot, bytes }
    }

    /// The peer answered its snapshot: its status, its body as text, and
    /// its body read as a snapshot. Next, the attachments this device
    /// lacks, one by one, then the merge.
    pub fn on_snapshot(&mut self, reply: Result<(u16, String, Result<SyncSnapshot, String>), String>) -> (r: SyncStep)
        requires
            old(self).stage_of() == Stage::Snapshot,
            old(self).wf(),
        ensures
            final(self).wf(),
            final(self).name_of() == old(self).name_of(),
            final(self).id_of() == old(self).id_of(),
            match reply {
                Err(e) => finished(r, false, old(self).name_of() + ": "@ + e@),
                Ok((status, body, parsed)) => if status != 200 {
                    finished(r, false, old(self).name_of() + ": snapshot answered "@ + decimal(status as nat) + ": "@ + body@)
                } else {
                    match parsed {
                        Err(e) => finished(r, false, e@),
                        Ok(snap) => {
                            &&& final(self).remote_of() == Some(snap@) || final(self).stage_of() == Stage::Apply
                            &&& final(self).pending() == missing_ids(snap@.attachments, old(self).local_of())
                            &&& final(self).fetched() == Seq::<(u64, Seq<u8>)>::empty()
                            &&& if final(self).pending().len() > 0 {
                                get_step(r, "/sync/attachment/"@ + decimal(final(self).pending()[0] as nat), 120)
                                    && final(self).stage_of() == Stage::Attachment
                            } else {
                                r matches SyncStep::Apply { snapshot, bytes } && snapshot@ == snap@ && bytes@.len() == 0
                                    && final(self).stage_of() == Stage::Apply
                            }
                        },
                    }
                },
            },
            r is Finish ==> final(self).stage_of() == Stage::Done,
    {
        match reply {
            Err(e) => {
                let m = cat(self.named(": ").as_str(), e.as_str());
                self.finish(false, m)
            },
            Ok((status, body, parsed)) => {
                if status != 200 {
                    let mut m = self.named(": snapshot answered ");
                    let code = decimal_text(status as u64);
                    m.append(code.as_str());
                    m.append(": ");
                    m.append(body.as_str());
                    return self.finish(false, m);
                }
                match parsed {
                    Err(e) => self.finish(false, e),
                    Ok(snap) => {
                        let ghost pred = |id: u64| !self.local_ids@.contains(id);
                        let ghost all = snap@.attachments.map_values(|a: crate::sync::model::SAttachmentV| a.id);
                        let mut fetch: Vec<u64> = Vec::new();
                        let mut i: usize = 0;
                        while i < snap.attachments.len()
                            invariant
                                i <= snap.attachments@.len(),
                                all == snap@.attachments.map_values(|a: crate::sync::model::SAttachmentV| a.id),
                                all.len() == snap.attachments@.len(),
                                forall|t: int| 0 <= t < all.len() ==> #[trigger] all[t] == snap.attachments@[t].id,
                                pred == (|id: u64| !self.local_ids@.contains(id)),
                                fetch@ == all.take(i as int).filter(pred),
                            decreases snap.attachments@.len() - i,
                        {
                            let id = snap.attachments[i].id;
                            proof {
                                assert(all.take(i + 1) =~= all.take(i as int).push(id));
                                all.take(i as int).lemma_filter_push(id, pred);
                            }
                            let mut have = false;
                            let mut j: usize = 0;
                            while j < self.local_ids.len()
                                invariant
                                    j <= self.local_ids@.len(),
                                    have == exists|u: int| 0 <= u < j && self.local_ids@[u] == id,
                                decreases self.local_ids@.len() - j,
                            {
                                if self.local_ids[j] == id {
                                    have = true;
                                }
                                j = j + 1;
                            }
                            if !have {
                                fetch.push(id);
                            }
                            i = i + 1;
                        }
                        assert(all.take(all.len() as int) =~= all);
                        assert(pred =~= (|id: u64| !old(self).local_of().contains(id)));
                        assert(fetch@ == missing_ids(snap@.attachments, old(self).local_of()));
                        self.fetch = fetch;
                        self.next = 0;
                        self.bytes = Vec::new();
                        self.remote = Some(snap);
                        proof {
                            assert(self.fetch@.skip(0) =~= self.fetch@);
                            assert(self.fetched() =~= Seq::<(u64, Seq<u8>)>::empty());
                        }
                        self.after_fetch()
                    },
                }
            },
        }
    }

    /// One attachment arrived (status and bytes). A 200 keeps the bytes and
    /// moves on; anything else ends the cycle.
    pub fn on_attachment(&mut self, reply: Result<(u16, Vec<u8>), String>) -> (r: SyncStep)
        requires
            old(self).stage_of() == Stage::Attachment,
            old(self).wf(),
            old(self).pending().len() > 0,
            old(self).remote_of() is Some,
        ensures
            final(self).wf(),
            final(self).name_of() == old(self).name_of(),
            final(self).id_of() == old(self).id_of(),
            match reply {
                Err(e) => finished(r, false, old(self).name_of() + ": "@ + e@),
                Ok((status, data)) => if status != 200 {
                    finished(
                        r,
                        false,
                        old(self).name_of() + ": attachment "@ + decimal(old(self).pending()[0] as nat)
                            + " answered "@ + decimal(status as nat),
                    )
                } else {
                    let got = old(self).fetched().push((old(self).pending()[0], data@));
                    let rest = old(self).pending().drop_first();
                    if rest.len() > 0 {
                        get_step(r, "/sync/attachment/"@ + decimal(rest[0] as nat), 120)
                            && final(self).stage_of() == Stage::Attachment && final(self).pending() == rest
                            && final(self).fetched() == got && final(self).remote_of() == old(self).remote_of()
                    } else {
                        r matches SyncStep::Apply { snapshot, bytes } && Some(snapshot@) == old(self).remote_of()
                            && bytes@.map_values(|p: (u64, Vec<u8>)| (p.0, p.1@)) == got
                            && final(self).stage_of() == Stage::Apply
                    }
                },
            },
            r is Finish ==> final(self).stage_of() == Stage::Done,
    {
        assert(self.fetch@.skip(self.next as int).len() > 0);
        assert(self.next < self.fetch@.len());
        assert(self.pending()[0] == self.fetch@[self.next as int]);
        let fetch_len = self.fetch.len();
        let id = self.fetch[self.next];
        match reply {
            Err(e) => {
                let m = cat(self.named(": ").as_str(), e.as_str());
                self.finish(false, m)
            },
            Ok((status, data)) => {
                if status != 200 {
                    let mut m = self.named(": attachment ");
                    let n = decimal_text(id);
                    m.append(n.as_str());
                    m.append(" answered ");
                    let code = decimal_text(status as u64);
                    m.append(code.as_str());
                    return self.finish(false, m);
                }
                let ghost got0 = self.fetched();
                self.bytes.push((id, data));
                assert(self.next < fetch_len);
                self.next = self.next + 1;
                proof {
                    assert(self.fetched() =~= got0.push((id, data@)));
                    assert(self.pending() =~= old(self).pending().drop_first());
                }
                self.after_fetch()
            },
        }
    }

    /// The workspace merged the peer's snapshot (`None`: the app went
    /// away). Next, push the merged snapshot back.
    pub fn on_applied(&mut self, result: Option<Result<SyncSnapshot, String>>) -> (r: SyncStep)
        requires
            old(self).stage_of() == Stage::Apply,
            old(self).wf(),
        ensures
            final(self).wf(),
            final(self).name_of() == old(self).name_of(),
            final(self).id_of() == old(self).id_of(),
            match result {
                None => finished(r, false, shutting_down()) && final(self).stage_of() == Stage::Done,
                Some(Err(e)) => finished(r, false, old(self).name_of() + ": "@ + e@) && final(self).stage_of() == Stage::Done,
                Some(Ok(m)) => r matches SyncStep::Push { merged, timeout_secs } && merged@ == m@ && timeout_secs == 120
                    && final(self).stage_of() == Stage::Push,
            },
    {
        match result {
            None => self.finish(false, String::from_str("the app is shutting down")),
            Some(Err(e)) => {
                let m = cat(self.named(": ").as_str(), e.as_str());
                self.finish(false, m)
            },
            Some(Ok(merged)) => {
                self.stage = Stage::Push;
                SyncStep::Push { merged, timeout_secs: 120 }
            },
        }
    }

    /// The peer answered the push (status and text). A 200 ends the cycle
    /// well and logs the size of the merged workspace (`pages`, `blocks`,
    /// `dbs`: the merged snapshot's row counts).
    pub fn on_pushed(&mut self, reply: Result<(u16, String), String>, pages: usize, blocks: usize, dbs: usize) -> (r: SyncStep)
        requires
            old(self).stage_of() == Stage::Push,
            old(self).wf(),
        ensures
            final(self).wf(),
            final(self).stage_of() == Stage::Done,
            match reply {
                Err(e) => finished(r, false, old(self).name_of() + ": "@ + e@),
                Ok((status, answer)) => if status != 200 {
                    finished(r, false, old(self).name_of() + ": push answered "@ + decimal(status as nat) + ": "@ + answer@)
                } else {
                    finished(
                        r,
                        true,
                        "Synced with "@ + old(self).name_of() + ": "@ + decimal(pages as nat) + " pages, "@ + decimal(
                            blocks as nat,
                        ) + " blocks, "@ + decimal(dbs as nat) + " databases in the merged workspace"@,
                    )
                },
            },
    {
        match reply {
            Err(e) => {
                let m = cat(self.named(": ").as_str(), e.as_str());
                self.finish(false, m)
            },
            Ok((status, answer)) => {
                if status != 200 {
                    let mut m = self.named(": push answered ");
                    let code = decimal_text(status as u64);
                    m.append(code.as_str());
                    m.append(": ");
                    m.append(answer.as_str());
                    return self.finish(false, m);
                }
                let mut m = cat("Synced with ", self.peer_name.as_str());
                m.append(": ");
                let t = decimal_text(pages as u64);
                m.append(t.as_str());
                m.append(" pages, ");
                let t = decimal_text(blocks as u64);
                m.append(t.as_str());
                m.append(" blocks, ");
                let t = decimal_text(dbs as u64);
                m.append(t.as_str());
                m.append(" databases in the merged workspace");
                self.finish(true, m)
            },
        }
    }
}

} // verus!
