use syncd::discovery::{
    announcement_counts, candidates, ipv4_of, lan_ip_of, my_tailnet_ip, own_ip,
    tailnet_candidates, tailscale_status_json, Ip, NodeInfo, Peer, PexCache, StatusRun,
    AGENT_PORT, LAN_DISCOVERY_PORT,
};
use syncd::json::Json;
use syncd::textmap::TextMap;

fn peer(hostname: &str, addr: &str, device_id: &str) -> Peer {
    Peer {
        hostname: hostname.to_string(),
        addr: addr.to_string(),
        device_id: device_id.to_string(),
    }
}

fn run(success: bool, stdout: &str) -> Option<StatusRun> {
    Some(StatusRun { success, stdout: stdout.as_bytes().to_vec() })
}

fn addrs(cache: &PexCache) -> Vec<(String, String)> {
    cache.list().into_iter().map(|p| (p.device_id, p.addr)).collect()
}

fn text(t: &str) -> Json {
    Json::Text(t.to_string())
}

fn object(members: Vec<(&str, Json)>) -> Json {
    Json::Object(members.into_iter().map(|(k, v)| (k.to_string(), v)).collect())
}

fn node(online: Json, host: Json, ips: Json) -> Json {
    object(vec![("Online", online), ("HostName", host), ("TailscaleIPs", ips)])
}

const STATUS: &str = r#"{
  "Self": {"HostName": "me", "TailscaleIPs": ["fd7a::1", "100.64.0.1"]},
  "Peer": {
    "k2": {"HostName": "syncd-b", "Online": true, "TailscaleIPs": ["100.64.0.3"]},
    "k1": {"HostName": "syncd-a", "Online": true, "TailscaleIPs": ["fd7a::2", "100.64.0.2"]},
    "k3": {"HostName": "syncd-c", "Online": false, "TailscaleIPs": ["100.64.0.4"]},
    "k4": {"HostName": "phone", "Online": true, "TailscaleIPs": ["100.64.0.5"]},
    "k5": {"HostName": "syncd-d", "Online": true, "TailscaleIPs": ["fd7a::5"]},
    "k6": {"HostName": "syncd-e", "TailscaleIPs": ["100.64.0.7"]}
  }
}"#;

#[test]
fn ports_differ() {
    assert_eq!((AGENT_PORT, LAN_DISCOVERY_PORT), (47100, 47188));
}

#[test]
fn a_node_lists_its_services() {
    let mut services: TextMap<u16> = TextMap::new();
    services.insert("sync".to_string(), AGENT_PORT);
    let info = NodeInfo {
        proto: 1,
        device_id: "d".to_string(),
        hostname: "h".to_string(),
        services,
    };
    assert_eq!(info.services.get("sync"), Some(&47100));
    assert_eq!(info.services.get("other"), None);
    assert_eq!((info.proto, info.device_id.as_str(), info.hostname.as_str()), (1, "d", "h"));
}

#[test]
fn the_last_word_on_a_device_counts() {
    let mut cache = PexCache::new();
    assert!(cache.list().is_empty());
    cache.merge(vec![peer("h", "old:1", "z"), peer("h", "x:1", "a"), peer("h", "new:1", "z")]);
    let expected =
        vec![("a".to_string(), "x:1".to_string()), ("z".to_string(), "new:1".to_string())];
    assert_eq!(addrs(&cache), expected);
    cache.merge(vec![peer("h", "newer:1", "z")]);
    assert_eq!(addrs(&cache)[1].1, "newer:1");
    assert_eq!(addrs(&cache).len(), 2);
}

#[test]
fn peers_are_listed_by_device_each_once() {
    let mut cache = PexCache::default();
    for device in ["m", "z", "a", "m", "", "é", "a"] {
        cache.merge(vec![peer("h", "x:1", device)]);
    }
    let listed = cache.list();
    let ids: Vec<&str> = listed.iter().map(|p| p.device_id.as_str()).collect();
    assert_eq!(ids, vec!["", "a", "m", "z", "é"]);
    assert_eq!(cache.list(), listed);
    assert_eq!(listed[1], peer("h", "x:1", "a"));
}

#[test]
fn hearing_a_list_again_changes_nothing() {
    let list = || vec![peer("h", "1", "b"), peer("h", "2", "a"), peer("h", "3", "b")];
    let mut cache = PexCache::new();
    cache.merge(list());
    let once = addrs(&cache);
    cache.merge(list());
    assert_eq!(addrs(&cache), once);
}

#[test]
fn a_status_report_is_parsed() {
    assert!(tailscale_status_json(&None).is_none());
    assert!(tailscale_status_json(&run(false, STATUS)).is_none());
    assert!(tailscale_status_json(&run(true, "not json")).is_none());
    assert!(tailscale_status_json(&run(true, "{}")).is_some());
    assert!(tailscale_status_json(&run(true, STATUS)).is_some());
}

#[test]
fn the_own_address_is_the_first_with_a_point() {
    assert_eq!(my_tailnet_ip(&run(true, STATUS)), Some("100.64.0.1".to_string()));
    assert_eq!(my_tailnet_ip(&run(false, STATUS)), None);
    assert_eq!(my_tailnet_ip(&None), None);
    assert_eq!(my_tailnet_ip(&run(true, "{}")), None);
    assert_eq!(my_tailnet_ip(&run(true, r#"{"Self": {"TailscaleIPs": "100.64.0.1"}}"#)), None);
    assert_eq!(
        my_tailnet_ip(&run(true, r#"{"Self": {"TailscaleIPs": [7, null, "1.2.3.4", "5.6.7.8"]}}"#)),
        Some("1.2.3.4".to_string())
    );
}

#[test]
fn candidates_are_online_with_the_wanted_name_and_an_address() {
    let found = tailnet_candidates(&run(true, STATUS), "syncd-");
    assert_eq!(
        found,
        vec![
            ("syncd-a".to_string(), "100.64.0.2".to_string()),
            ("syncd-b".to_string(), "100.64.0.3".to_string()),
        ]
    );
    let all: Vec<String> =
        tailnet_candidates(&run(true, STATUS), "").into_iter().map(|c| c.0).collect();
    assert_eq!(all, vec!["syncd-a", "syncd-b", "phone"]);
    assert!(tailnet_candidates(&run(true, STATUS), "x").is_empty());
    assert!(tailnet_candidates(&None, "").is_empty());
    assert!(tailnet_candidates(&run(true, "{}"), "").is_empty());
    assert!(tailnet_candidates(&run(true, r#"{"Peer": null}"#), "").is_empty());
}

#[test]
fn a_report_can_be_built_by_hand() {
    let ips = || Json::Array(vec![text("fd7a::2"), text("100.64.0.2")]);
    let status = object(vec![
        ("Self", object(vec![("TailscaleIPs", Json::Array(vec![text("100.64.0.9")]))])),
        (
            "Peer",
            object(vec![
                ("p", node(Json::Bool(true), text("h1"), ips())),
                ("q", node(text("true"), text("h2"), ips())),
                ("r", node(Json::Bool(true), Json::Null, ips())),
                ("s", node(Json::Bool(true), text("h3"), Json::Array(vec![]))),
            ]),
        ),
    ]);
    assert_eq!(own_ip(&status), Some("100.64.0.9".to_string()));
    assert_eq!(candidates(&status, ""), vec![("h1".to_string(), "100.64.0.2".to_string())]);
    assert_eq!(ipv4_of(&Json::Null), None);
}

#[test]
fn announcements_are_filtered() {
    let p = peer("syncd-b", "x:1", "b");
    assert!(announcement_counts(&p, "a", ""));
    assert!(announcement_counts(&p, "a", "syncd-"));
    assert!(!announcement_counts(&p, "a", "other"));
    assert!(!announcement_counts(&p, "b", ""));
}

#[test]
fn loopback_addresses() {
    assert!(Ip::V4(127, 0, 0, 1).is_loopback());
    assert!(Ip::V4(127, 9, 9, 9).is_loopback());
    assert!(!Ip::V4(128, 0, 0, 1).is_loopback());
    assert!(Ip::V6(1).is_loopback());
    assert!(!Ip::V6(0).is_loopback());
    // an IPv4 loopback address mapped into IPv6
    assert!(!Ip::V6(0xffff_7f00_0001).is_loopback());
}

#[test]
fn the_lan_address_is_routable_ipv4() {
    assert_eq!(lan_ip_of(&Ip::V4(192, 168, 0, 10)), Some("192.168.0.10".to_string()));
    assert_eq!(lan_ip_of(&Ip::V4(0, 0, 0, 0)), Some("0.0.0.0".to_string()));
    assert_eq!(lan_ip_of(&Ip::V4(127, 0, 0, 1)), None);
    assert_eq!(lan_ip_of(&Ip::V6(0xfe80)), None);
}
