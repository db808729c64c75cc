use syncd::settings::{
    advertised_address, arg, configure, endpoint, generate_device_id, has_flag,
    kept_device_id, machine_name, parse_or, resolve_device_id,
};

fn args(list: &[&str]) -> Vec<String> {
    list.iter().map(|a| a.to_string()).collect()
}

fn some(t: &str) -> Option<String> {
    Some(t.to_string())
}

#[test]
fn a_flag_takes_either_form() {
    assert_eq!(arg(&args(&["syncd", "--port", "7"]), "--port"), some("7"));
    assert_eq!(arg(&args(&["syncd", "--port=7"]), "--port"), some("7"));
    assert_eq!(arg(&args(&["syncd", "--port", "7", "--port=8"]), "--port"), some("8"));
    assert_eq!(arg(&args(&["syncd", "--port=8", "--port=9"]), "--port"), some("8"));
    assert_eq!(arg(&args(&["syncd", "--port="]), "--port"), some(""));
    assert_eq!(arg(&args(&["syncd", "--port"]), "--port"), None);
    assert_eq!(arg(&args(&["syncd", "--ports=7"]), "--port"), None);
    assert_eq!(arg(&args(&["--port", "--port", "7"]), "--port"), some("--port"));
    assert_eq!(arg(&args(&[]), "--port"), None);
}

#[test]
fn a_bare_flag_is_there_or_not() {
    assert!(has_flag(&args(&["syncd", "--no-lan-discovery"]), "--no-lan-discovery"));
    assert!(!has_flag(&args(&["syncd", "--no-lan-discovery=1"]), "--no-lan-discovery"));
}

#[test]
fn the_defaults() {
    let s = configure(&args(&["syncd"]));
    assert_eq!((s.data, s.device, s.advertise), (None, None, None));
    assert_eq!((s.port, s.interval), (47100, 5));
    assert!(s.bootstrap.is_empty());
    assert_eq!(s.peer_prefix, "");
    assert!(s.lan_discovery);
    assert!(!s.insecure_local_api);
}

#[test]
fn every_flag() {
    let s = configure(&args(&[
        "syncd",
        "--device",
        "laptop",
        "--port=47101",
        "--data",
        "/tmp/ledger.csv",
        "--bootstrap=a:1,b:2,,c",
        "--peer-prefix",
        "syncd-",
        "--advertise=1.2.3.4:5",
        "--interval",
        "9",
        "--no-lan-discovery",
        "--insecure-local-api",
    ]));
    assert_eq!((s.data, s.device), (some("/tmp/ledger.csv"), some("laptop")));
    assert_eq!(s.advertise, some("1.2.3.4:5"));
    assert_eq!((s.port, s.interval), (47101, 9));
    assert_eq!(s.bootstrap, args(&["a:1", "b:2", "", "c"]));
    assert_eq!(s.peer_prefix, "syncd-");
    assert!(!s.lan_discovery);
    assert!(s.insecure_local_api);
}

#[test]
fn numbers_that_do_not_fit_are_defaulted() {
    assert_eq!(configure(&args(&["--port=65536"])).port, 47100);
    assert_eq!(configure(&args(&["--port=65535"])).port, 65535);
    assert_eq!(configure(&args(&["--port=x"])).port, 47100);
    assert_eq!(configure(&args(&["--interval=-1"])).interval, 5);
    assert_eq!(configure(&args(&["--bootstrap="])).bootstrap, args(&[""]));
    assert_eq!(parse_or(&some("12"), 20, 9), 12);
    assert_eq!(parse_or(&some("21"), 20, 9), 9);
    assert_eq!(parse_or(&None, 20, 9), 9);
}

#[test]
fn a_made_id_tells_time_and_process() {
    assert_eq!(generate_device_id(0, 0), "device-0-0");
    assert_eq!(generate_device_id(0x18abcdef, 0x1f), "device-18abcdef-1f");
    assert_eq!(
        generate_device_id(u128::MAX, u32::MAX),
        "device-ffffffffffffffffffffffffffffffff-ffffffff"
    );
    assert_ne!(generate_device_id(0x11, 0x1), generate_device_id(0x1, 0x11));
}

#[test]
fn the_identity_given_wins() {
    let id = resolve_device_id(some("flag"), some("kept"), 1, 2);
    assert_eq!((id.device.as_str(), id.fresh), ("flag", false));
    let id = resolve_device_id(None, some("kept"), 1, 2);
    assert_eq!((id.device.as_str(), id.fresh), ("kept", false));
    let id = resolve_device_id(None, None, 26, 2);
    assert_eq!((id.device.as_str(), id.fresh), ("device-1a-2", true));
}

#[test]
fn the_advertised_address_falls_back() {
    let addr = |flag, env, tail, lan| advertised_address(flag, env, tail, lan, 7);
    assert_eq!(addr(some("f"), some("e"), some("t"), some("l")), "f");
    assert_eq!(addr(None, some("e"), some("t"), some("l")), "e");
    assert_eq!(addr(None, None, some("t"), some("l")), "t:7");
    assert_eq!(addr(None, None, None, some("l")), "l:7");
    assert_eq!(addr(None, None, None, None), "127.0.0.1:7");
    assert_eq!(endpoint("::1", 65535), "::1:65535");
}

#[test]
fn the_machine_has_a_name() {
    assert_eq!(machine_name(some(" host \n"), "dev"), "host");
    assert_eq!(machine_name(some("\n"), "dev"), "");
    assert_eq!(machine_name(None, "dev"), "dev");
}

#[test]
fn a_kept_identity_is_read() {
    assert_eq!(kept_device_id("device-1a-2\n"), some("device-1a-2"));
    assert_eq!(kept_device_id(" \n"), None);
    assert_eq!(kept_device_id(""), None);
}
