use vesper::config::flag_word;
use vesper::Config;

fn defaults() -> Config {
    Config::defaults("/home/me/lightnovels".to_string(), "/home/me/vesper.log".to_string())
}

#[test]
fn write_then_read_roundtrips() {
    let mut cfg = defaults();
    cfg.request_delay_ms = 2000;
    cfg.auto_export = true;
    cfg.split_every_chapters = 100;
    cfg.retention_days = 7;
    let text = cfg.write();

    let read = Config::read(&text, defaults()).unwrap();
    assert_eq!(read.request_delay_ms, 2000);
    assert!(read.auto_export);
    assert!(!read.auto_append);
    assert_eq!(read.split_every_chapters, 100);
    assert_eq!(read.retention_days, 7);
}

#[test]
fn windows_paths_roundtrip_without_escaping() {
    let mut cfg = defaults();
    cfg.output_dir = r"C:\Users\test\Documents\lightnovels".to_string();
    cfg.log_path = r"C:\Users\test\AppData\Local\wc\crawler.log".to_string();
    let text = cfg.write();

    let read = Config::read(&text, defaults()).unwrap();
    assert_eq!(read.output_dir, r"C:\Users\test\Documents\lightnovels");
    assert_eq!(read.log_path, r"C:\Users\test\AppData\Local\wc\crawler.log");
}

#[test]
fn missing_keys_fall_back_to_defaults() {
    let read = Config::read("[general]\nrequest_delay_ms = 500\n", defaults()).unwrap();
    assert_eq!(read.request_delay_ms, 500);
    // Unspecified keys use defaults.
    assert_eq!(read.poll_interval_minutes, defaults().poll_interval_minutes);
    assert!(!read.auto_export);
}

#[test]
fn the_defaults_are_the_documented_ones() {
    let d = defaults();
    assert_eq!(d.request_delay_ms, 1500);
    assert_eq!(d.poll_interval_minutes, 60);
    assert!(!d.auto_export && !d.auto_append);
    assert_eq!(d.split_every_chapters, 0);
}

#[test]
fn every_setting_survives_a_round_trip() {
    let cfg = Config {
        output_dir: "/srv/books".to_string(),
        request_delay_ms: 1,
        poll_interval_minutes: 2,
        retention_days: 3,
        quiet_grace_days: 4,
        likely_complete_recheck_days: 5,
        auto_export: true,
        auto_append: true,
        split_every_chapters: 6,
        log_path: "/var/log/v.log".to_string(),
    };
    let read = Config::read(&cfg.write(), defaults()).unwrap();
    assert_eq!(format!("{read:?}"), format!("{cfg:?}"));
}

#[test]
fn a_first_run_writes_the_defaults_and_a_second_reads_them() {
    let (cfg, written) = Config::load_or_create(None, defaults()).unwrap();
    let text = written.unwrap();
    assert_eq!(format!("{cfg:?}"), format!("{:?}", defaults()));
    let (again, rewritten) = Config::load_or_create(Some(&text), defaults()).unwrap();
    assert!(rewritten.is_none());
    assert_eq!(format!("{again:?}"), format!("{cfg:?}"));
}

#[test]
fn a_mangled_file_is_refused() {
    assert!(Config::read("[general\nrequest_delay_ms = 500\n", defaults()).is_err());
}

#[test]
fn unreadable_values_fall_back_one_by_one() {
    let read = Config::read(
        "[general]\nrequest_delay_ms = soon\nauto_export = yes\nretention_days = 9\n",
        defaults(),
    )
    .unwrap();
    assert_eq!(read.request_delay_ms, defaults().request_delay_ms);
    assert_eq!(read.retention_days, 9);
}

#[test]
fn flags_are_words() {
    assert_eq!((flag_word(true), flag_word(false)), ("true", "false"));
}

#[test]
fn a_file_needs_no_section() {
    let flat = Config::read("request_delay_ms = 500\nauto_append = on\n", defaults()).unwrap();
    assert_eq!((flat.request_delay_ms, flat.auto_append), (500, true));
    assert_eq!(flat.retention_days, defaults().retention_days);
    let both = Config::read("retention_days = 9\n[general]\nauto_append = on\n", defaults()).unwrap();
    assert_eq!((both.retention_days, both.auto_append), (defaults().retention_days, true));
    let empty = Config::read("", defaults()).unwrap();
    assert_eq!(empty.request_delay_ms, 1500);
}
