use tansu_nvme::address::Address;
use tansu_nvme::config::{Config, FsyncMode};
use tansu_nvme::error::Error;
use tansu_nvme::time::Duration;

fn message(url: &str) -> String {
    match Config::from_url(url) {
        Err(Error::Message(message)) => message,
        otherwise => panic!("{otherwise:?}"),
    }
}

#[test]
fn config_defaults_from_bare_url() {
    assert_eq!(
        Config::default(),
        Config::from_url("nvme:///var/lib/tansu").expect("config")
    );
}

#[test]
fn config_parses_knobs_and_ignores_unknown_keys() {
    let config = Config::from_url(
        "nvme:///data?fsync=interval:5ms&fetch_max_block=100ms\
         &segment_bytes=64M&snapshot_wal_bytes=1M&tail_cache_bytes=2M\
         &maintenance_interval=5m",
    )
    .expect("config");

    assert_eq!(FsyncMode::Interval(Duration::from_millis(5)), config.fsync);
    assert_eq!(Duration::from_millis(100), config.fetch_max_block);
    assert_eq!(64 * 1024 * 1024, config.segment_bytes);
    assert_eq!(1024 * 1024, config.snapshot_wal_bytes);
    assert_eq!(2 * 1024 * 1024, config.tail_cache_bytes);
}

#[test]
fn config_rejects_bad_fsync() {
    assert!(Config::from_url("nvme:///data?fsync=sometimes").is_err());
}

#[test]
fn default_knobs_are_these() {
    let config = Config::default();
    assert_eq!(FsyncMode::Always, config.fsync);
    assert_eq!(Duration::from_millis(250), config.fetch_max_block);
    assert_eq!(256 * 1024 * 1024, config.segment_bytes);
    assert_eq!(64 * 1024 * 1024, config.snapshot_wal_bytes);
    assert_eq!(8 * 1024 * 1024, config.tail_cache_bytes);
    assert_eq!(0, config.disk_budget_bytes);
    assert_eq!(None, config.tier);
    assert_eq!(Duration::from_secs(5), config.tier_interval);
    assert_eq!(Duration::from_secs(300), config.segment_age);
}

#[test]
fn remaining_knobs_are_read() {
    let config = Config::from_url(
        "nvme:///data?fsync=always&disk_budget=3k&tier=s3%3A%2F%2Fbucket%2Fdir\
         &tier_interval=7s&segment_age=2m",
    )
    .expect("config");
    assert_eq!(FsyncMode::Always, config.fsync);
    assert_eq!(3 * 1024, config.disk_budget_bytes);
    assert_eq!(Some("s3://bucket/dir".to_owned()), config.tier);
    assert_eq!(Duration::from_secs(7), config.tier_interval);
    assert_eq!(Duration::from_secs(120), config.segment_age);
}

#[test]
fn later_pair_counts() {
    let config = Config::from_url("nvme:///data?segment_bytes=1k&segment_bytes=2k").expect("config");
    assert_eq!(2048, config.segment_bytes);
}

#[test]
fn complaints_name_the_knob() {
    assert_eq!(
        "nvme fsync must be `always` or `interval:<duration>`, got: sometimes",
        message("nvme:///data?fsync=sometimes")
    );
    assert_eq!(
        "nvme fsync interval: soon",
        message("nvme:///data?fsync=interval:soon")
    );
    assert_eq!(
        "nvme fetch_max_block: x",
        message("nvme:///data?fetch_max_block=x")
    );
    assert_eq!(
        "nvme segment_bytes: huge",
        message("nvme:///data?segment_bytes=huge")
    );
    assert_eq!(
        "nvme snapshot_wal_bytes: huge",
        message("nvme:///data?snapshot_wal_bytes=huge")
    );
    assert_eq!(
        "nvme tail_cache_bytes: huge",
        message("nvme:///data?tail_cache_bytes=huge")
    );
    assert_eq!(
        "nvme disk_budget: huge",
        message("nvme:///data?disk_budget=huge")
    );
    assert_eq!(
        "nvme tier_interval: x",
        message("nvme:///data?tier_interval=x")
    );
    assert_eq!("nvme segment_age: x", message("nvme:///data?segment_age=x"));
}

#[test]
fn first_complaint_wins() {
    assert_eq!(
        "nvme tier_interval: x",
        message("nvme:///data?tier_interval=x&segment_bytes=y")
    );
}

#[test]
fn number_that_is_not_ascii_is_refused() {
    assert_eq!(
        "nvme: a number in the query is not ASCII",
        message("nvme:///data?segment_bytes=%C2%BD")
    );
    // A number of another script before an ASCII one is merely unreadable.
    assert_eq!(
        "nvme segment_bytes: ½1",
        message("nvme:///data?segment_bytes=%C2%BD1")
    );
    // Behind something wrong it is not looked at.
    assert_eq!(
        "nvme tier_interval: x",
        message("nvme:///data?tier_interval=x&segment_bytes=%C2%BD")
    );
    // Of a key that is not the engine's it does not matter.
    assert!(Config::from_url("nvme:///data?other=%C2%BD").is_ok());
}

#[test]
fn microseconds_keep_their_letter() {
    let config = Config::from_url("nvme:///data?fetch_max_block=10%CE%BCs").expect("config");
    assert_eq!(Duration::from_nanos(10_000), config.fetch_max_block);
}

#[test]
fn pairs_without_a_url() {
    let pairs = vec![
        ("segment_bytes".to_owned(), "4k".to_owned()),
        ("unknown".to_owned(), "4x".to_owned()),
    ];
    assert_eq!(
        4096,
        Config::from_query_pairs(&pairs).expect("config").segment_bytes
    );
}

#[test]
fn text_that_is_no_url() {
    assert_eq!("relative URL without a base", message("nowhere"));
}

#[test]
fn listener_and_its_fallbacks() {
    let address = Address::parse("tcp://127.0.0.1:9093").expect("url");
    assert_eq!("127.0.0.1", address.listen_host());
    assert_eq!(9093, address.listen_port());

    let bare = Address::parse("tcp:///").expect("url");
    assert_eq!("0.0.0.0", bare.listen_host());
    assert_eq!(9092, bare.listen_port());
}

#[test]
fn query_pairs_are_decoded() {
    let address = Address::parse("nvme:///data?a=1+2&b=%2F").expect("url");
    assert_eq!(
        vec![
            ("a".to_owned(), "1 2".to_owned()),
            ("b".to_owned(), "/".to_owned())
        ],
        address.query_pairs()
    );
}
