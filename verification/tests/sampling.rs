use memwatch::bandwidth::{counter_delta, pack_config, EventFormat};
use memwatch::cli::{should_quit, view_step, wait_time, Interval, Key, ViewStep};
use memwatch::order::sort_by_keys;
use memwatch::snapshot::BandwidthTracker;

#[derive(Debug, Clone, PartialEq)]
struct Sample {
    controller: String,
    read: u64,
}

#[test]
fn bandwidth_tracker_requires_previous_sample() {
    let mut tracker: BandwidthTracker<Vec<Sample>> = BandwidthTracker::default();
    let first = vec![Sample { controller: "imc0".to_string(), read: 100 }];
    let second = vec![Sample { controller: "imc0".to_string(), read: 160 }];
    let now: u64 = 5_000_000_000;

    assert_eq!(tracker.update(first.clone(), now), None);

    let (previous, elapsed_ns) = tracker.update(second.clone(), now + 3_000_000_000).unwrap();
    assert_eq!(previous, first);
    assert_eq!(elapsed_ns, 3_000_000_000);
    let read_mib_s = counter_delta(previous[0].read, second[0].read) as f64 * 1.0
        / (elapsed_ns as f64 / 1e9);
    assert_eq!(Some(read_mib_s), Some(20.0));
}

#[test]
fn tracker_counts_a_clock_going_back_as_no_time() {
    let mut tracker: BandwidthTracker<u32> = BandwidthTracker::default();
    assert_eq!(tracker.update(1, 100), None);
    assert_eq!(tracker.update(2, 40), Some((1, 0)));
    assert_eq!(tracker.update(3, 45), Some((2, 5)));
}

fn iv(secs: u64, nanos: u32) -> Interval {
    Interval { secs, nanos }
}

#[test]
fn waits_for_the_rest_of_the_interval() {
    assert_eq!(wait_time(iv(1, 0), iv(0, 250_000_000)), iv(0, 750_000_000));
    assert_eq!(wait_time(iv(2, 100), iv(1, 200)), iv(0, 999_999_900));
    assert_eq!(wait_time(iv(1, 0), iv(1, 0)), iv(0, 0));
    assert_eq!(wait_time(iv(1, 0), iv(3, 5)), iv(0, 0));
}

#[test]
fn view_steps_quit_then_sample_then_wait() {
    let interval = iv(1, 0);
    assert_eq!(view_step(Some((Key::Char('q'), false)), iv(5, 0), interval), ViewStep::Quit);
    assert_eq!(view_step(Some((Key::Char('c'), true)), iv(0, 0), interval), ViewStep::Quit);
    assert_eq!(view_step(Some((Key::Char('c'), false)), iv(0, 10), interval), ViewStep::Wait);
    assert_eq!(view_step(Some((Key::Other, false)), iv(1, 0), interval), ViewStep::Sample);
    assert_eq!(view_step(None, iv(0, 999_999_999), interval), ViewStep::Wait);
    assert_eq!(view_step(None, iv(2, 0), interval), ViewStep::Sample);
    assert!(should_quit(Key::Esc, false));
}

fn key(a: &str, b: &str) -> (String, String) {
    (a.to_string(), b.to_string())
}

#[test]
fn sorts_items_by_key_pairs_stably() {
    let items = vec!["w1", "r0", "w0", "r1", "r0b"];
    let keys = vec![
        key("imc1", "data_write"),
        key("imc0", "data_read"),
        key("imc0", "data_write"),
        key("imc1", "data_read"),
        key("imc0", "data_read"),
    ];
    assert_eq!(sort_by_keys(items, &keys), vec!["r0", "r0b", "w0", "r1", "w1"]);
    let none: Vec<u8> = vec![];
    assert_eq!(sort_by_keys(none, &vec![]), Vec::<u8>::new());
    let by_name = vec![key("umask", ""), key("event", ""), key("edge", "")];
    assert_eq!(sort_by_keys(vec![1, 2, 3], &by_name), vec![3, 2, 1]);
}

#[test]
fn packed_fields_read_back() {
    let formats = vec![
        EventFormat { name: "event".to_string(), start_bit: 0, end_bit: 7 },
        EventFormat { name: "umask".to_string(), start_bit: 8, end_bit: 15 },
        EventFormat { name: "cmask".to_string(), start_bit: 24, end_bit: 31 },
    ];
    let config = pack_config("event=0x1d3,umask=0x20,cmask=7", &formats).unwrap();
    assert_eq!(config & 0xff, 0xd3);
    assert_eq!((config >> 8) & 0xff, 0x20);
    assert_eq!((config >> 24) & 0xff, 7);
    assert_eq!(config & !0xff00_ffff, 0);
}
