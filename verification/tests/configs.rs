use std::collections::HashMap;
use std::io::Read;
use std::sync::Arc;
use std::time::Duration;

use cs_ping::archive::{config_entry, config_file_name, write_archive};
use cs_ping::asn::{format_asn_set, Asn};
use chrono::TimeZone as _;
use cs_ping::context::{
    mmdb_is_stale, MmdbDateError, WireguardConfig, MAX_UTC_TIMESTAMP, MIN_UTC_TIMESTAMP,
};
use cs_ping::host::Host;
use cs_ping::ping::HostStats;
use cs_ping::pinger::PingAttempts;
use cs_ping::wireguard::{Config, MissingVar};

fn wireguard() -> WireguardConfig {
    WireguardConfig {
        client_private_key: "PRIV".to_string(),
        client_address: "10.0.0.2/32".to_string(),
        client_dns: "10.0.0.1".to_string(),
        client_allowed_ips: "0.0.0.0/0".to_string(),
        server_preshared_key: Some("PSK".to_string()),
        pre_up: vec!["a".to_string(), "b".to_string()],
        post_up: vec![],
        pre_down: vec!["c".to_string()],
        post_down: vec!["d".to_string()],
        persistent_keepalive: Some("25".to_string()),
    }
}

#[test]
fn make_config_writes_both_sections() {
    let text = wireguard().make_config("x.cstorm.is:443", "PUB");
    assert_eq!(
        text,
        "[Interface]\nPrivateKey = PRIV\nAddress = 10.0.0.2/32\nDNS = 10.0.0.1\nPreUp = a\nPreUp = b\nPreDown = c\nPostDown = d\n\n[Peer]\nPublicKey = PUB\nEndpoint = x.cstorm.is:443\nPresharedKey = PSK\nPersistentKeepalive = 25\nAllowedIPs = 0.0.0.0/0\n"
    );
}

#[test]
fn make_config_leaves_out_missing_options() {
    let text = WireguardConfig::default().make_config("e", "k");
    assert_eq!(text, "[Interface]\nPrivateKey = \nAddress = \nDNS = \n\n[Peer]\nPublicKey = k\nEndpoint = e\nAllowedIPs = \n");
}

#[test]
fn template_config_from_values() {
    let c = Config::from_env(
        Some("P".to_string()),
        Some("A".to_string()),
        Some("D".to_string()),
        Some("S".to_string()),
        "host.example",
        "KEY",
    )
    .unwrap();
    assert_eq!(
        c.to_string(),
        "[Interface]\nPrivateKey = P\nAddress = A\nDNS = D\n\n[Peer]\nPresharedkey = S\nPublicKey = KEY\nEndpoint = host.example:443\nAllowedIPs = 0.0.0.0/0\nPersistentKeepalive = 25\n"
    );
}

#[test]
fn template_config_reports_the_first_missing_variable() {
    let s = || Some("v".to_string());
    assert_eq!(Config::from_env(None, None, s(), s(), "h", "k").err(), Some(MissingVar::ClientPrivateKey));
    assert_eq!(Config::from_env(s(), None, None, s(), "h", "k").err(), Some(MissingVar::ClientAddress));
    assert_eq!(Config::from_env(s(), s(), None, None, "h", "k").err(), Some(MissingVar::ClientDns));
    assert_eq!(Config::from_env(s(), s(), s(), None, "h", "k").err(), Some(MissingVar::ServerPresharedKey));
    assert_eq!(MissingVar::ClientDns.var_name(), "CONFIG_CLIENT_DNS");
}

#[test]
fn file_names_are_padded_and_trimmed() {
    assert_eq!(config_file_name(42, "frankfurt", 3), "cs-0042ms-frankfur-03ips.conf");
    assert_eq!(config_file_name(0, "oslo", 0), "cs-0000ms-oslo-00ips.conf");
    assert_eq!(config_file_name(123456, "a", 123), "cs-123456ms-a-123ips.conf");
    assert_eq!(config_file_name(u64::MAX, "zürichsee", 10), "cs-18446744073709551615ms-zürichse-10ips.conf");
}

#[test]
fn config_entry_names_and_fills_the_file() {
    let mut durations = HashMap::new();
    durations.insert(1u32, vec![Duration::from_millis(5)]);
    durations.insert(2u32, vec![Duration::from_millis(6)]);
    let stats = HostStats {
        host: Arc::new(Host { location: "stockholm".to_string(), public_key: "PK".to_string() }),
        durations,
    };
    let (name, contents) = config_entry(&wireguard(), &stats, 7);
    assert_eq!(name, "cs-0007ms-stockhol-02ips.conf");
    assert_eq!(contents, wireguard().make_config("stockholm.cstorm.is:443", "PK"));
}

#[test]
fn archive_holds_the_files() {
    let entries = vec![("a.conf".to_string(), "hello".to_string()), ("b.conf".to_string(), "world\n".to_string())];
    let bytes = write_archive(&entries).unwrap();
    assert_eq!(&bytes[..2], b"PK");
    let mut archive = zip::ZipArchive::new(std::io::Cursor::new(bytes)).unwrap();
    assert_eq!(archive.len(), 2);
    let mut s = String::new();
    archive.by_name("b.conf").unwrap().read_to_string(&mut s).unwrap();
    assert_eq!(s, "world\n");
}

#[test]
fn archive_refuses_a_name_twice() {
    let entries = vec![("a.conf".to_string(), "1".to_string()), ("a.conf".to_string(), "2".to_string())];
    match write_archive(&entries) {
        Err(cs_ping::archive::ArchiveError::StartFile { index, .. }) => assert_eq!(index, 1),
        other => panic!("unexpected: {:?}", other.map(|b| b.len())),
    }
}

fn asn(domain: &str) -> Asn {
    Asn { asn: "AS1".to_string(), domain: domain.to_string(), name: "n".to_string() }
}

#[test]
fn asn_label_joins_domain_names_in_domain_order() {
    let set = vec![asn("google.com"), asn("cloudflare.net"), asn("a-b_c.example.org")];
    assert_eq!(format_asn_set(&set), "example-cloudflare-google");
    assert_eq!(format_asn_set(&vec![]), "");
    assert_eq!(format_asn_set(&vec![asn("localhost")]), "localhost");
    assert_eq!(format_asn_set(&vec![asn("x.co-m"), asn(".com")]), ".com-x.co-m");
    assert_eq!(format_asn_set(&vec![asn("Zeta.io"), asn("alpha.io")]), "Zeta-alpha");
}

#[test]
fn ping_attempts_allow_a_number_of_timeouts() {
    let mut p = PingAttempts::new(3, 1);
    assert!(p.wants_ping());
    assert!(p.record(Some(Duration::from_millis(3))));
    assert!(p.record(None));
    assert_eq!(p.timeouts_left, 0);
    assert!(!p.record(None));
    assert_eq!(p.results, vec![Duration::from_millis(3)]);
    assert_eq!(p.outcome(), None);
}

#[test]
fn ping_attempts_end_with_all_replies() {
    let mut p = PingAttempts::new(2, 0);
    assert!(p.record(Some(Duration::from_millis(1))));
    assert!(!p.record(Some(Duration::from_millis(2))));
    assert!(!p.wants_ping());
    assert_eq!(p.outcome(), Some(vec![Duration::from_millis(1), Duration::from_millis(2)]));
}

#[test]
fn zero_pings_end_at_once() {
    let p = PingAttempts::new(0, 0);
    assert!(!p.wants_ping());
    assert_eq!(p.outcome(), Some(vec![]));
}

#[test]
fn mmdb_age() {
    let day = 86_400i64;
    assert_eq!(mmdb_is_stale(0, 30 * day, 0), Ok(false));
    assert_eq!(mmdb_is_stale(0, 30 * day, 1), Ok(true));
    assert_eq!(mmdb_is_stale(1_000, 1_000 + 31 * day, 0), Ok(true));
    assert_eq!(mmdb_is_stale(1_000, 0, 0), Ok(false));
    assert_eq!(mmdb_is_stale(u64::MAX, 0, 0), Err(MmdbDateError::EpochTooLarge));
    assert_eq!(mmdb_is_stale(8_210_266_876_800, 0, 0), Err(MmdbDateError::NoSuchDate));
    assert_eq!(mmdb_is_stale(8_210_266_876_799, 0, 0), Ok(false));
}

#[test]
fn archive_bytes_depend_only_on_the_files() {
    let entries = vec![("x.conf".to_string(), "[Interface]\n".to_string()), ("y.conf".to_string(), String::new())];
    let first = write_archive(&entries).unwrap();
    let second = write_archive(&entries).unwrap();
    assert_eq!(first, second);
    let other = vec![("x.conf".to_string(), "[Peer]\n".to_string()), ("y.conf".to_string(), String::new())];
    assert_ne!(first, write_archive(&other).unwrap());
    let mut archive = zip::ZipArchive::new(std::io::Cursor::new(first)).unwrap();
    assert_eq!(archive.by_index(0).unwrap().name(), "x.conf");
    assert_eq!(archive.by_index(1).unwrap().name(), "y.conf");
    assert_eq!(archive.by_index(1).unwrap().size(), 0);
}

#[test]
fn utc_dates_cover_the_range_of_chrono() {
    assert!(chrono::Utc.timestamp_opt(MIN_UTC_TIMESTAMP, 0).earliest().is_some());
    assert!(chrono::Utc.timestamp_opt(MIN_UTC_TIMESTAMP - 1, 0).earliest().is_none());
    assert!(chrono::Utc.timestamp_opt(MAX_UTC_TIMESTAMP, 0).earliest().is_some());
    assert!(chrono::Utc.timestamp_opt(MAX_UTC_TIMESTAMP + 1, 0).earliest().is_none());
}

/// A MaxMind database with an empty search tree whose metadata records `build_epoch`.
fn tiny_mmdb(build_epoch: u64) -> Vec<u8> {
    fn key(out: &mut Vec<u8>, k: &str) {
        out.push(0x40 | k.len() as u8);
        out.extend_from_slice(k.as_bytes());
    }
    let mut db = vec![0u8; 16];
    db.extend_from_slice(b"\xab\xcd\xefMaxMind.com");
    db.push(0xe9); // a map of nine entries
    key(&mut db, "binary_format_major_version");
    db.extend_from_slice(&[0xa1, 2]);
    key(&mut db, "binary_format_minor_version");
    db.push(0xa0);
    key(&mut db, "build_epoch");
    db.extend_from_slice(&[0x08, 0x02]);
    db.extend_from_slice(&build_epoch.to_be_bytes());
    key(&mut db, "database_type");
    key(&mut db, "asn");
    key(&mut db, "description");
    db.push(0xe0);
    key(&mut db, "ip_version");
    db.extend_from_slice(&[0xa1, 4]);
    key(&mut db, "languages");
    db.extend_from_slice(&[0x00, 0x04]);
    key(&mut db, "node_count");
    db.push(0xc0);
    key(&mut db, "record_size");
    db.extend_from_slice(&[0xa1, 24]);
    db
}

#[test]
fn an_mmdb_is_read_and_its_age_checked() {
    let day = 86_400i64;
    let reader = maxminddb::Reader::from_source(tiny_mmdb(1_000)).unwrap();
    let epoch = reader.metadata.build_epoch;
    assert_eq!(epoch, 1_000);
    assert_eq!(mmdb_is_stale(epoch, 1_000 + 10 * day, 0), Ok(false));
    assert_eq!(mmdb_is_stale(epoch, 1_000 + 31 * day, 0), Ok(true));
    let far = maxminddb::Reader::from_source(tiny_mmdb(MAX_UTC_TIMESTAMP as u64 + 1)).unwrap();
    assert_eq!(mmdb_is_stale(far.metadata.build_epoch, 0, 0), Err(MmdbDateError::NoSuchDate));
    assert!(maxminddb::Reader::from_source(vec![1u8, 2, 3]).is_err());
}
