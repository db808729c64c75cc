use syncd::json::Json;
use syncd::monitor::{
    conclude, proxy_status, verdict_status, watch_list, DeviceState, Monitor, Verdict, MAX_EVENTS, SHOWN_EVENTS,
};

fn text(t: &str) -> Json {
    Json::Text(t.to_string())
}

fn object(members: Vec<(&str, Json)>) -> Json {
    Json::Object(members.into_iter().map(|(k, v)| (k.to_string(), v)).collect())
}

fn report(device: &str, fingerprint: &str) -> Option<Json> {
    Some(object(vec![("device", text(device)), ("fingerprint", text(fingerprint))]))
}

fn device(name: &str, fingerprint: &str, reachable: bool) -> DeviceState {
    DeviceState {
        device: name.to_string(),
        fingerprint: fingerprint.to_string(),
        entries: Vec::new(),
        vv: Json::Null,
        reachable,
        online: true,
        last_seen: 0,
    }
}

fn told(verdict: Verdict) -> (bool, bool, String) {
    (verdict.converged, verdict.live_aligned, verdict.detail)
}

#[test]
fn only_so_many_events_are_kept_newest_first() {
    let mut m = Monitor::new();
    assert!(m.can_ingest());
    for n in 0..(MAX_EVENTS as u64 + 10) {
        m.ingest(1000 + n, "a".to_string(), "op.local".to_string(), Json::Number(n.to_string()));
    }
    let recent = m.recent();
    assert_eq!((MAX_EVENTS, SHOWN_EVENTS, recent.len()), (400, 120, 120));
    assert_eq!((recent[0].seq, recent[0].ts), (410, 1409));
    assert_eq!(recent[119].seq, 291);
    assert!(matches!(&recent[0].data, Json::Number(n) if n == "409"));
    assert_eq!((recent[0].device.as_str(), recent[0].kind.as_str()), ("a", "op.local"));
}

#[test]
fn few_events_are_all_shown() {
    let mut m = Monitor::new();
    assert!(m.recent().is_empty());
    m.ingest(1, "a".to_string(), "x".to_string(), Json::Null);
    m.ingest(2, "b".to_string(), "y".to_string(), Json::Null);
    let recent: Vec<u64> = m.recent().iter().map(|e| e.seq).collect();
    assert_eq!(recent, vec![2, 1]);
}

#[test]
fn an_answer_is_taken_down() {
    let mut m = Monitor::new();
    let answer = object(vec![
        ("device", text("a")),
        ("fingerprint", text("f00d")),
        ("entries", Json::Array(vec![object(vec![("entity", text("k")), ("value", text("v"))])])),
        ("vv", object(vec![("a", Json::Number("3".to_string()))])),
        ("online", Json::Bool(false)),
    ]);
    m.record_poll("a:7", Some(answer), 99);
    let all = m.device_states();
    assert_eq!(all.len(), 1);
    let d = &all[0];
    assert_eq!((d.device.as_str(), d.fingerprint.as_str()), ("a", "f00d"));
    assert_eq!((d.reachable, d.online, d.last_seen), (true, false, 99));
    assert_eq!(d.entries[0].member("entity").unwrap().as_text().unwrap(), "k");
    assert!(matches!(d.vv.member("a"), Some(Json::Number(n)) if n == "3"));
    assert_eq!(m.route("a"), Some("a:7".to_string()));
    assert_eq!(m.route("a:7"), None);
}

#[test]
fn what_an_answer_leaves_out_is_empty() {
    let mut m = Monitor::new();
    m.record_poll("a:7", Some(object(vec![("entries", Json::Null), ("online", text("no"))])), 1);
    let all = m.device_states();
    assert_eq!((all[0].device.as_str(), all[0].fingerprint.as_str()), ("a:7", ""));
    assert!(all[0].entries.is_empty());
    assert!(matches!(&all[0].vv, Json::Object(members) if members.is_empty()));
    assert!(all[0].online);
    assert_eq!(m.route("a:7"), Some("a:7".to_string()));
}

#[test]
fn silence_marks_a_known_node() {
    let mut m = Monitor::new();
    m.record_poll("a:7", None, 1);
    assert!(m.device_states().is_empty());
    m.record_poll("a:7", report("a", "f1"), 2);
    m.record_poll("b:7", report("b", "f1"), 2);
    assert!(m.converged().converged);
    m.record_poll("a:7", None, 3);
    let all = m.device_states();
    assert_eq!((all[0].reachable, all[0].fingerprint.as_str(), all[0].last_seen), (false, "f1", 2));
    assert!(!m.converged().converged);
    m.record_poll("a:7", report("a", "f1"), 4);
    assert!(m.converged().converged);
}

#[test]
fn the_verdicts() {
    assert_eq!(told(conclude(&vec![])), (false, false, "no node seen yet".to_string()));
    assert_eq!(
        told(conclude(&vec![device("a", "f", true)])),
        (false, false, "only one node: nothing to converge".to_string())
    );
    assert_eq!(
        told(conclude(&vec![device("a", "f", true), device("b", "f", true)])),
        (true, true, "2 nodes aligned on f".to_string())
    );
    assert_eq!(
        told(conclude(&vec![device("a", "f", true), device("b", "g", true)])),
        (false, false, "a=f  b=g".to_string())
    );
    assert_eq!(
        told(conclude(&vec![
            device("a", "f", true),
            device("b", "f", false),
            device("c", "f", true),
            device("d", "g", false),
        ])),
        (false, true, "unreachable: b, d — live nodes are aligned with each other".to_string())
    );
    assert_eq!(
        told(conclude(&vec![device("a", "f", true), device("b", "f", false)])),
        (false, false, "unreachable: b — and live nodes are not aligned".to_string())
    );
    assert_eq!(
        told(conclude(&vec![
            device("a", "f", true),
            device("b", "g", true),
            device("c", "f", false),
        ])),
        (false, false, "unreachable: c — and live nodes are not aligned".to_string())
    );
}

#[test]
fn a_verdict_has_a_status() {
    assert_eq!(verdict_status(&conclude(&vec![device("a", "f", true), device("b", "f", true)])), 200);
    assert_eq!(verdict_status(&conclude(&vec![])), 409);
}

#[test]
fn devices_are_listed_by_name() {
    let mut m = Monitor::new();
    for name in ["c", "a", "b"] {
        m.record_poll(&format!("{name}:7"), report(name, "f"), 1);
    }
    let listed: Vec<String> = m.device_states().into_iter().map(|d| d.device).collect();
    assert_eq!(listed, vec!["a", "b", "c"]);
    assert_eq!(told(m.converged()), (true, true, "3 nodes aligned on f".to_string()));
}

#[test]
fn the_watch_list() {
    assert_eq!(
        watch_list(None),
        vec!["device-a:47100", "device-b:47100", "device-c:47100"]
    );
    assert_eq!(watch_list(Some(" a:1 ,, b:2,\t".to_string())), vec!["a:1", "b:2"]);
    assert!(watch_list(Some(String::new())).is_empty());
}

#[test]
fn a_forwarded_command_has_a_status() {
    assert_eq!(proxy_status(false, Some(200)), 404);
    assert_eq!(proxy_status(true, Some(204)), 204);
    assert_eq!(proxy_status(true, Some(99)), 502);
    assert_eq!(proxy_status(true, Some(1000)), 502);
    assert_eq!(proxy_status(true, None), 502);
}
