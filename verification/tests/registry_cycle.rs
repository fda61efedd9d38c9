use onewire_temps::devices::{filter_sensor_names, is_sensor_name};
use onewire_temps::registry::{DevicePoll, Registry};
use onewire_temps::render::format_millis;

fn poll(name: &str, content: &str) -> DevicePoll {
    DevicePoll { name: name.to_string(), content: Some(content.to_string()) }
}

#[test]
fn sensor_name_rule() {
    assert!(is_sensor_name("28-0001"));
    assert!(is_sensor_name("28-"));
    assert!(!is_sensor_name("foo-bar"));
    assert!(!is_sensor_name("00-xyz"));
    assert!(!is_sensor_name("28"));
    assert!(!is_sensor_name(""));
}

#[test]
fn enumeration_filter_keeps_only_family_prefix() {
    let names = vec![
        "28-0001".to_string(),
        "28-0002".to_string(),
        "foo-bar".to_string(),
        "00-xyz".to_string(),
    ];
    let kept = filter_sensor_names(&names);
    assert_eq!(kept, vec!["28-0001".to_string(), "28-0002".to_string()]);
}

#[test]
fn get_or_create_is_idempotent() {
    let mut r = Registry::new();
    let id = "28-aaaa".to_string();
    let h1 = r.get_or_create_metric(&id);
    let h2 = r.get_or_create_metric(&id);
    assert_eq!(h1, h2);
    assert_eq!(r.metric_count(), 1);
    let other = "28-bbbb".to_string();
    let h3 = r.get_or_create_metric(&other);
    assert_ne!(h1, h3);
    assert_eq!(r.metric_count(), 2);
    r.get_or_create_metric(&other);
    r.get_or_create_metric(&id);
    assert_eq!(r.metric_count(), 2);
}

#[test]
fn upsert_then_snapshot() {
    let mut r = Registry::new();
    let id = "28-cafe".to_string();
    r.upsert(&id, 21500, 100);
    let snap = r.snapshot();
    assert_eq!(snap.len(), 1);
    assert_eq!(snap[0].id, "28-cafe");
    assert_eq!(snap[0].millis, 21500);
    assert_eq!(snap[0].last_updated, 100);
    // An upsert of the same sensor updates in place.
    r.upsert(&id, 22000, 160);
    let snap2 = r.snapshot();
    assert_eq!(snap2.len(), 1);
    assert_eq!(snap2[0].millis, 22000);
    assert_eq!(snap2[0].last_updated, 160);
}

#[test]
fn snapshot_is_a_copy_not_a_live_view() {
    let mut r = Registry::new();
    r.upsert(&"28-1".to_string(), 1000, 1);
    let snap = r.snapshot();
    r.upsert(&"28-1".to_string(), 2000, 2);
    assert_eq!(snap[0].millis, 1000);
    assert_eq!(r.snapshot()[0].millis, 2000);
}

#[test]
fn end_to_end_one_cycle() {
    let mut r = Registry::new();
    let polls = vec![poll("28-aaaa", "abc\nxyz t=23625 def\n")];
    r.run_cycle(&polls, 7);
    let snap = r.snapshot();
    assert_eq!(snap.len(), 1);
    assert_eq!(snap[0].id, "28-aaaa");
    assert_eq!(snap[0].millis, 23625);
    assert_eq!(snap[0].last_updated, 7);
    let text = r.render_all();
    assert!(text.contains("temperature_celsius{sensor=\"28-aaaa\"} 23.625\n"));
    assert!(text.contains("# TYPE temperature_celsius gauge\n"));
}

#[test]
fn cycle_skips_non_sensors_and_bad_reads() {
    let mut r = Registry::new();
    let polls = vec![
        poll("28-good", "a\nb t=1500\n"),
        poll("not-a-sensor", "a\nb t=9999\n"),
        poll("28-malformed", "single line"),
        DevicePoll { name: "28-unreadable".to_string(), content: None },
        poll("28-other", "a\nb t=-250\n"),
    ];
    r.run_cycle(&polls, 5);
    let snap = r.snapshot();
    assert_eq!(snap.len(), 2);
    assert_eq!(snap[0].id, "28-good");
    assert_eq!(snap[0].millis, 1500);
    assert_eq!(snap[1].id, "28-other");
    assert_eq!(snap[1].millis, -250);
    assert_eq!(r.metric_count(), 2);
}

#[test]
fn empty_cycle_changes_nothing() {
    // An unlistable devices root yields zero polls: the cycle completes and
    // the snapshot stays what it was.
    let mut r = Registry::new();
    r.run_cycle(&Vec::new(), 1);
    assert_eq!(r.snapshot().len(), 0);
    assert_eq!(r.metric_count(), 0);
    r.upsert(&"28-kept".to_string(), 300, 1);
    r.run_cycle(&Vec::new(), 2);
    let snap = r.snapshot();
    assert_eq!(snap.len(), 1);
    assert_eq!(snap[0].millis, 300);
    assert_eq!(snap[0].last_updated, 1);
}

#[test]
fn two_cycles_same_files_same_snapshot_values() {
    let polls = vec![
        poll("28-a", "x\ny t=1000\n"),
        poll("28-b", "x\ny t=2000\n"),
        poll("28-broken", "nope"),
    ];
    let mut r = Registry::new();
    r.run_cycle(&polls, 10);
    let first = r.snapshot();
    let first_text = r.render_all();
    r.run_cycle(&polls, 20);
    let second = r.snapshot();
    assert_eq!(first.len(), second.len());
    for (a, b) in first.iter().zip(second.iter()) {
        assert_eq!(a.id, b.id);
        assert_eq!(a.millis, b.millis);
    }
    assert_eq!(first[0].last_updated, 10);
    assert_eq!(second[0].last_updated, 20);
    assert_eq!(first_text, r.render_all());
}

#[test]
fn last_write_wins_within_a_cycle() {
    let polls = vec![poll("28-a", "x\ny t=1\n"), poll("28-a", "x\ny t=2\n")];
    let mut r = Registry::new();
    r.run_cycle(&polls, 3);
    let snap = r.snapshot();
    assert_eq!(snap.len(), 1);
    assert_eq!(snap[0].millis, 2);
    assert_eq!(r.metric_count(), 1);
}

#[test]
fn set_value_updates_series() {
    let mut r = Registry::new();
    let id = "28-x".to_string();
    let h = r.get_or_create_metric(&id);
    r.set_value(h, 17250);
    let text = r.render_all();
    assert!(text.contains("temperature_celsius{sensor=\"28-x\"} 17.250\n"));
}

#[test]
fn render_empty_registry_is_empty() {
    let r = Registry::new();
    assert_eq!(r.render_all(), "");
}

#[test]
fn render_exact_text_two_sensors() {
    let mut r = Registry::new();
    let a = "28-0001".to_string();
    let b = "28-0002".to_string();
    let ha = r.get_or_create_metric(&a);
    let hb = r.get_or_create_metric(&b);
    r.set_value(ha, 21062);
    r.set_value(hb, -500);
    let expected = "# HELP temperature_celsius Temperature reading in degrees Celsius\n# TYPE temperature_celsius gauge\ntemperature_celsius{sensor=\"28-0001\"} 21.062\ntemperature_celsius{sensor=\"28-0002\"} -0.500\n";
    assert_eq!(r.render_all(), expected);
}

#[test]
fn format_millis_exact() {
    assert_eq!(format_millis(23625), "23.625");
    assert_eq!(format_millis(-1250), "-1.250");
    assert_eq!(format_millis(0), "0.000");
    assert_eq!(format_millis(500), "0.500");
    assert_eq!(format_millis(-50), "-0.050");
    assert_eq!(format_millis(1000), "1.000");
    assert_eq!(format_millis(-1000000), "-1000.000");
}
