//! The sync engine's decisions: device kinds, names, timestamps, pairing
//! and one pull-merge-push cycle.

use quire::sync::engine::{
    default_name_for, kind_for_os, pair_outcome, probe_outcome, stamp_of, DeviceInfo,
    PairOutcome, PeerRecord, Stage, SyncCycle, SyncStep,
};
use quire::sync::model::{SAttachment, SyncSnapshot};

fn peer() -> PeerRecord {
    PeerRecord {
        id: "dev-1".into(),
        name: "desk".into(),
        kind: "linux".into(),
        ip: "10.0.0.2".into(),
        port: 5878,
        paired: true,
        last_seen: 0,
        last_sync: String::new(),
    }
}

fn device(id: &str, name: &str) -> DeviceInfo {
    DeviceInfo { id: id.into(), name: name.into(), kind: "linux".into(), port: 5878 }
}

fn att(id: u64) -> SAttachment {
    SAttachment {
        id,
        name: format!("a{id}"),
        file: String::new(),
        thumb: String::new(),
        mime: String::new(),
        bytes: 0,
        width: 0,
        height: 0,
    }
}

fn message(step: &SyncStep) -> (bool, String) {
    match step {
        SyncStep::Finish { ok, message } => (*ok, message.clone()),
        _ => panic!("not a finish"),
    }
}

fn get_path(step: &SyncStep) -> (String, u64) {
    match step {
        SyncStep::Get { path, timeout_secs } => (path.clone(), *timeout_secs),
        _ => panic!("not a get"),
    }
}

#[test]
fn the_device_kind_follows_the_os() {
    assert_eq!(kind_for_os("android"), "android");
    assert_eq!(kind_for_os("windows"), "windows");
    assert_eq!(kind_for_os("macos"), "macos");
    assert_eq!(kind_for_os("linux"), "linux");
    assert_eq!(kind_for_os("freebsd"), "other");
}

#[test]
fn a_default_name_is_the_host_unless_it_says_nothing() {
    assert_eq!(default_name_for("studio", "linux"), "studio");
    assert_eq!(default_name_for("", "android"), "Quire (android)");
    assert_eq!(default_name_for("localhost", "windows"), "Quire (windows)");
}

#[test]
fn a_timestamp_reads_as_the_utc_date_and_minute() {
    assert_eq!(stamp_of(0), "1970-01-01 00:00");
    assert_eq!(stamp_of(1_758_636_300), "2025-09-23 14:05");
    assert_eq!(stamp_of(951_782_400), "2000-02-29 00:00");
    assert_eq!(stamp_of(4_102_444_799), "2099-12-31 23:59");
}

#[test]
fn pairing_succeeds_on_200_only() {
    match pair_outcome(&peer(), Ok((200, String::new()))) {
        PairOutcome::Paired { device, ip } => {
            assert_eq!(device.id, "dev-1");
            assert_eq!(ip, "10.0.0.2");
        }
        _ => panic!("should pair"),
    }
    match pair_outcome(&peer(), Ok((503, "pairing refused".into()))) {
        PairOutcome::Failed { peer_id, message } => {
            assert_eq!(peer_id, "dev-1");
            assert_eq!(message, "desk: pairing answered 503: pairing refused");
        }
        _ => panic!("should fail"),
    }
    match pair_outcome(&peer(), Err("connect refused".into())) {
        PairOutcome::Failed { message, .. } => assert_eq!(message, "desk: connect refused"),
        _ => panic!("should fail"),
    }
}

#[test]
fn a_probe_pairs_the_device_that_answers() {
    match probe_outcome("10.0.0.9", 5878, Ok((200, Ok(device("dev-9", "tab"))))) {
        PairOutcome::Paired { device, ip } => {
            assert_eq!(device.name, "tab");
            assert_eq!(ip, "10.0.0.9");
        }
        _ => panic!("should pair"),
    }
    match probe_outcome("10.0.0.9", 5878, Ok((404, Ok(device("x", "y"))))) {
        PairOutcome::Failed { peer_id, message } => {
            assert_eq!(peer_id, "10.0.0.9");
            assert_eq!(message, "10.0.0.9:5878: info answered 404");
        }
        _ => panic!("should fail"),
    }
    match probe_outcome("10.0.0.9", 5878, Ok((200, Err("bad device info: eof".into())))) {
        PairOutcome::Failed { message, .. } => assert_eq!(message, "10.0.0.9:5878: bad device info: eof"),
        _ => panic!("should fail"),
    }
}

#[test]
fn a_full_cycle_fetches_only_missing_attachments() {
    let (mut c, step) = SyncCycle::start(&peer());
    assert_eq!(get_path(&step), ("/sync/info".to_string(), 5));
    let step = c.on_info(Ok((200, Ok(device("dev-1", "desk")))));
    assert!(matches!(step, SyncStep::ListLocalAttachments));
    let step = c.on_local_ids(Some(vec![1]));
    assert_eq!(get_path(&step), ("/sync/snapshot".to_string(), 60));
    let mut remote = SyncSnapshot::default();
    remote.attachments.push(att(1));
    remote.attachments.push(att(2));
    let step = c.on_snapshot(Ok((200, String::new(), Ok(remote))));
    assert_eq!(get_path(&step), ("/sync/attachment/2".to_string(), 120));
    assert!(c.stage() == Stage::Attachment);
    let step = c.on_attachment(Ok((200, vec![7, 8])));
    let merged = match step {
        SyncStep::Apply { snapshot, bytes } => {
            assert_eq!(snapshot.attachments.len(), 2);
            assert_eq!(bytes, vec![(2u64, vec![7u8, 8])]);
            snapshot
        }
        _ => panic!("should apply"),
    };
    let step = c.on_applied(Some(Ok(merged)));
    assert!(matches!(step, SyncStep::Push { timeout_secs: 120, .. }));
    let step = c.on_pushed(Ok((200, String::new())), 3, 4, 1);
    assert_eq!(
        message(&step),
        (true, "Synced with desk: 3 pages, 4 blocks, 1 databases in the merged workspace".to_string())
    );
    assert!(c.stage() == Stage::Done);
}

#[test]
fn a_cycle_stops_on_the_first_bad_answer() {
    let (mut c, _) = SyncCycle::start(&peer());
    let step = c.on_info(Ok((200, Ok(device("dev-2", "phone")))));
    assert_eq!(
        message(&step),
        (false, "desk: answered as phone \u{2014} the address moved to another device".to_string())
    );
    assert!(c.stage() == Stage::Done);

    let (mut c, _) = SyncCycle::start(&peer());
    assert_eq!(message(&c.on_info(Ok((500, Ok(device("dev-1", "desk")))))), (false, "desk: info answered 500".to_string()));

    let (mut c, _) = SyncCycle::start(&peer());
    c.on_info(Ok((200, Ok(device("dev-1", "desk")))));
    assert_eq!(message(&c.on_local_ids(None)), (false, "the app is shutting down".to_string()));

    let (mut c, _) = SyncCycle::start(&peer());
    c.on_info(Ok((200, Ok(device("dev-1", "desk")))));
    c.on_local_ids(Some(Vec::new()));
    assert_eq!(
        message(&c.on_snapshot(Ok((409, "busy".into(), Err("x".into()))))),
        (false, "desk: snapshot answered 409: busy".to_string())
    );

    let (mut c, _) = SyncCycle::start(&peer());
    c.on_info(Ok((200, Ok(device("dev-1", "desk")))));
    c.on_local_ids(Some(Vec::new()));
    let mut remote = SyncSnapshot::default();
    remote.attachments.push(att(5));
    c.on_snapshot(Ok((200, String::new(), Ok(remote))));
    assert_eq!(message(&c.on_attachment(Ok((404, Vec::new())))), (false, "desk: attachment 5 answered 404".to_string()));

    let (mut c, _) = SyncCycle::start(&peer());
    c.on_info(Ok((200, Ok(device("dev-1", "desk")))));
    c.on_local_ids(Some(Vec::new()));
    let step = c.on_snapshot(Ok((200, String::new(), Ok(SyncSnapshot::default()))));
    assert!(matches!(step, SyncStep::Apply { .. }));
    assert_eq!(message(&c.on_applied(Some(Err("merge refused".into())))), (false, "desk: merge refused".to_string()));
}
