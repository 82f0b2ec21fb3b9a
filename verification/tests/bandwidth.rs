use memwatch::bandwidth::{
    attribute_value, counter_cpu, counter_delta, event_format, group_by_controller, is_imc_device,
    pack_config, pair_controllers, parse_bit_range, parse_first_cpu, parse_u32, parse_u64,
    plan_bandwidth, pmu_type, unit_to_mib, discover_events, ControllerCounters, CounterDelta,
    CounterRead, DeviceFiles, EventFiles, EventFormat, MibScale, TotalPlan,
};

fn formats() -> Vec<EventFormat> {
    vec![
        EventFormat { name: "event".to_string(), start_bit: 0, end_bit: 7 },
        EventFormat { name: "umask".to_string(), start_bit: 8, end_bit: 15 },
    ]
}

#[test]
fn packs_event_config_from_format_fields() {
    let formats = formats();

    assert_eq!(pack_config("event=0xff,umask=0x20", &formats), Some(0x20ff));
}

#[test]
fn pack_config_cuts_values_to_field_width_and_skips_blank_pieces() {
    let formats = formats();
    assert_eq!(pack_config(" event = 0x1ff , , umask=3", &formats), Some(0x3ff));
    assert_eq!(pack_config("", &formats), Some(0));
}

#[test]
fn pack_config_rejects_bad_pieces() {
    let formats = formats();
    assert_eq!(pack_config("event", &formats), None);
    assert_eq!(pack_config("event=zz", &formats), None);
    assert_eq!(pack_config("cmask=1", &formats), None);
    let reversed = vec![EventFormat { name: "event".to_string(), start_bit: 9, end_bit: 2 }];
    assert_eq!(pack_config("event=1", &reversed), None);
}

#[test]
fn pack_config_full_width_field() {
    let wide = vec![EventFormat { name: "x".to_string(), start_bit: 0, end_bit: 63 }];
    assert_eq!(pack_config("x=0xffffffffffffffff", &wide), Some(u64::MAX));
}

#[test]
fn calculates_counter_wraparound() {
    let delta = counter_delta(u64::MAX - 9, 10);
    assert_eq!(delta, 20);
    assert_eq!(unit_to_mib("MiB"), Some(MibScale::Mib));
    assert_eq!(Some(delta as f64 * 1.0 / 2.0), Some(10.0));
}

#[test]
fn units_convert_to_mib() {
    assert_eq!(unit_to_mib("GiB"), Some(MibScale::Gib));
    assert_eq!(unit_to_mib("KiB"), Some(MibScale::Kib));
    assert_eq!(unit_to_mib("B"), Some(MibScale::Bytes));
    assert_eq!(unit_to_mib("Bytes"), Some(MibScale::Bytes));
    assert_eq!(unit_to_mib("bytes"), Some(MibScale::Bytes));
    assert_eq!(unit_to_mib("count"), None);
    assert_eq!(unit_to_mib("mib"), None);
}

#[test]
fn sysfs_numbers() {
    assert_eq!(parse_u64("0x20"), Some(0x20));
    assert_eq!(parse_u64("29"), Some(29));
    assert_eq!(parse_u64("0xg"), None);
    assert_eq!(parse_u32("4294967296"), None);
    assert_eq!(parse_u32("4294967295"), Some(u32::MAX));
}

#[test]
fn bit_ranges_and_cpus() {
    assert_eq!(parse_bit_range("0-7"), Some((0, 7)));
    assert_eq!(parse_bit_range("12"), Some((12, 12)));
    assert_eq!(parse_bit_range("0-256"), None);
    assert_eq!(parse_first_cpu("0-3,8"), Some(0));
    assert_eq!(parse_first_cpu(" 5 ,6"), Some(5));
    assert_eq!(parse_first_cpu("x"), None);
    assert_eq!(counter_cpu(Some("2-5\n")), 2);
    assert_eq!(counter_cpu(Some("\n")), 0);
    assert_eq!(counter_cpu(None), 0);
}

#[test]
fn sysfs_attributes() {
    assert_eq!(attribute_value("  29\n"), Some("29".to_string()));
    assert_eq!(attribute_value(" \n"), None);
    assert_eq!(pmu_type("29\n"), Some(29));
    assert_eq!(pmu_type(""), None);
    let f = event_format("umask", "config:8-15\n").unwrap();
    assert_eq!((f.name.as_str(), f.start_bit, f.end_bit), ("umask", 8, 15));
    assert!(event_format("umask", "config1:8-15").is_none());
    assert!(is_imc_device("uncore_imc_free_running_0"));
    assert!(is_imc_device("uncore_imc_0"));
    assert!(!is_imc_device("uncore_cha_0"));
    assert!(!is_imc_device("uncore_imc"));
}

#[test]
fn pairs_current_controllers_with_previous_ones() {
    let prev = vec!["imc1".to_string(), "imc0".to_string(), "imc1".to_string()];
    let curr = vec!["imc0".to_string(), "imc2".to_string(), "imc1".to_string()];
    assert_eq!(pair_controllers(&prev, &curr), vec![(1, 0), (2, 2)]);
}

#[test]
fn groups_counters_by_controller_in_name_order() {
    let controllers = vec!["imc1".to_string(), "imc0".to_string(), "imc1".to_string()];
    let events = vec!["data_read".to_string(), "data_write".to_string(), "data_total".to_string()];
    let groups = group_by_controller(&controllers, &events);
    assert_eq!(groups.len(), 2);
    assert_eq!(groups[0].controller, "imc0");
    assert_eq!((groups[0].read, groups[0].write, groups[0].total), (None, Some(1), None));
    assert_eq!(groups[1].controller, "imc1");
    assert_eq!((groups[1].read, groups[1].write, groups[1].total), (Some(0), None, Some(2)));
}

fn reading(raw: u64, unit: &str) -> Option<CounterRead> {
    Some(CounterRead { raw, unit: unit.to_string() })
}

fn counters(
    controller: &str,
    read: Option<CounterRead>,
    write: Option<CounterRead>,
    total: Option<CounterRead>,
) -> ControllerCounters {
    ControllerCounters { controller: controller.to_string(), read, write, total }
}

#[test]
fn calculates_bandwidth_from_counter_deltas() {
    let prev = vec![counters("imc0", reading(1_000, "MiB"), reading(2_000, "MiB"), None)];
    let curr = vec![counters("imc0", reading(1_200, "MiB"), reading(2_400, "MiB"), None)];

    let plans = plan_bandwidth(&prev, &curr, 2_000_000_000).unwrap();

    assert_eq!(plans.len(), 1);
    let read = plans[0].read.unwrap();
    let write = plans[0].write.unwrap();
    assert_eq!(read, CounterDelta { delta: 200, scale: MibScale::Mib });
    assert_eq!(write, CounterDelta { delta: 400, scale: MibScale::Mib });
    assert_eq!(plans[0].total, TotalPlan::FromParts);
    // The scales (0.5 and 0.25 MiB per count) and the seconds are floats.
    let read_mib_s = read.delta as f64 * 0.5 / 2.0;
    let write_mib_s = write.delta as f64 * 0.25 / 2.0;
    assert_eq!(Some(read_mib_s), Some(50.0));
    assert_eq!(Some(write_mib_s), Some(50.0));
    assert_eq!(Some(read_mib_s + write_mib_s), Some(100.0));
}

#[test]
fn bandwidth_plans_need_time_and_a_common_controller() {
    let prev = vec![counters("imc0", reading(1, "MiB"), None, None)];
    let curr = vec![counters("imc0", reading(5, "MiB"), None, None)];
    assert_eq!(plan_bandwidth(&prev, &curr, 0), None);
    let other = vec![counters("imc1", reading(5, "MiB"), None, None)];
    assert_eq!(plan_bandwidth(&prev, &other, 10), None);
    assert_eq!(plan_bandwidth(&vec![], &curr, 10), None);
}

#[test]
fn bandwidth_plans_follow_the_counters_present() {
    let prev = vec![
        counters("imc0", reading(10, "MiB"), reading(20, "MiB"), reading(u64::MAX, "GiB")),
        counters("imc1", reading(10, "count"), None, None),
        counters("imc2", None, reading(3, "B"), None),
    ];
    let curr = vec![
        counters("imc2", None, reading(9, "KiB"), None),
        counters("imc1", reading(20, "count"), None, None),
        counters("imc9", reading(1, "MiB"), None, None),
        counters("imc0", reading(15, "MiB"), None, reading(4, "GiB")),
    ];
    let plans = plan_bandwidth(&prev, &curr, 1).unwrap();
    assert_eq!(plans.len(), 3);
    assert_eq!((plans[0].prev, plans[0].curr), (2, 0));
    assert_eq!(plans[0].read, None);
    assert_eq!(plans[0].write, Some(CounterDelta { delta: 6, scale: MibScale::Kib }));
    assert_eq!(plans[0].total, TotalPlan::FromParts);
    assert_eq!((plans[1].prev, plans[1].curr), (1, 1));
    assert_eq!(plans[1].read, None);
    assert_eq!(plans[1].total, TotalPlan::Missing);
    assert_eq!((plans[2].prev, plans[2].curr), (0, 3));
    assert_eq!(plans[2].read, Some(CounterDelta { delta: 5, scale: MibScale::Mib }));
    assert_eq!(plans[2].write, None);
    assert_eq!(plans[2].total, TotalPlan::Measured(CounterDelta { delta: 5, scale: MibScale::Gib }));
}

#[test]
fn joined_event_specs_pack_as_the_or_of_both() {
    let formats = vec![
        EventFormat { name: "event".to_string(), start_bit: 0, end_bit: 7 },
        EventFormat { name: "umask".to_string(), start_bit: 8, end_bit: 15 },
    ];
    let a = "event=0x1f";
    let b = "umask=0x3,event=0x20";
    let x = pack_config(a, &formats).unwrap();
    let y = pack_config(b, &formats).unwrap();
    assert_eq!(pack_config(&format!("{a},{b}"), &formats), Some(x | y));
    assert_eq!(pack_config(&format!("{b},{a}"), &formats), Some(x | y));
    assert_eq!(pack_config(&format!("{a},bogus"), &formats), None);
}

fn files(spec: Option<&str>, scale: Option<&str>, unit: Option<&str>) -> EventFiles {
    EventFiles {
        spec: spec.map(|s| s.to_string()),
        scale: scale.map(|s| s.to_string()),
        unit: unit.map(|s| s.to_string()),
    }
}

fn device(name: &str, type_attr: Option<&str>, read: EventFiles, write: EventFiles, total: EventFiles) -> DeviceFiles {
    DeviceFiles {
        name: name.to_string(),
        type_attr: type_attr.map(|s| s.to_string()),
        cpumask: Some("0\n".to_string()),
        formats: vec![
            event_format("event", "config:0-7\n").unwrap(),
            event_format("umask", "config:8-15\n").unwrap(),
        ],
        read,
        write,
        total,
    }
}

#[test]
fn discovers_imc_free_running_events_from_sysfs() {
    let devices = vec![device(
        "uncore_imc_free_running_0",
        Some("29\n"),
        files(Some("event=0xff,umask=0x20\n"), Some("6.103515625e-5\n"), Some("MiB\n")),
        files(Some("event=0xff,umask=0x30\n"), Some("6.103515625e-5\n"), Some("MiB\n")),
        files(None, None, None),
    )];

    let events = discover_events(&devices).unwrap();

    assert_eq!(events.len(), 2);
    assert_eq!(events[0].controller, "uncore_imc_free_running_0");
    assert_eq!(events[0].name, "data_read");
    assert_eq!(events[0].event_type, 29);
    assert_eq!(events[0].cpu, 0);
    assert_eq!(events[0].config, 0x20ff);
    let scale: f64 = events[0].scale.as_deref().unwrap().parse().unwrap();
    assert_eq!(scale, 6.103515625e-5);
    assert_eq!(events[0].unit, "MiB");
}

#[test]
fn discovery_takes_imc_devices_in_order_of_controller_and_event() {
    let devices = vec![
        device("uncore_imc_1", Some("13"), files(Some("event=0x1"), None, None), files(None, None, None), files(Some("event=0x3"), Some(" "), Some("GiB"))),
        device("cpu", Some("4"), files(Some("event=0x1"), None, None), files(None, None, None), files(None, None, None)),
        device("uncore_imc_0", Some("13"), files(Some("event=0x1"), None, Some("MiB")), files(Some("event=0x2"), None, Some("MiB")), files(Some("bogus=1"), None, None)),
        device("uncore_imc_2", None, files(Some("event=0x1"), None, None), files(None, None, None), files(None, None, None)),
    ];
    let events = discover_events(&devices).unwrap();
    let names: Vec<(&str, &str, u64)> =
        events.iter().map(|e| (e.controller.as_str(), e.name.as_str(), e.config)).collect();
    assert_eq!(
        names,
        vec![
            ("uncore_imc_0", "data_read", 0x1),
            ("uncore_imc_0", "data_write", 0x2),
            ("uncore_imc_1", "data_read", 0x1),
            ("uncore_imc_1", "data_total", 0x3),
        ]
    );
    assert_eq!(events[2].unit, "count");
    assert_eq!(events[3].scale, None);
    assert_eq!(events[3].unit, "GiB");
}

#[test]
fn discovery_stops_at_a_field_out_of_range() {
    let mut dev = device("uncore_imc_0", Some("13"), files(Some("event=1"), None, None), files(None, None, None), files(None, None, None));
    dev.formats = vec![EventFormat { name: "event".to_string(), start_bit: 70, end_bit: 80 }];
    assert_eq!(discover_events(&vec![dev]), Err("data_read".to_string()));
}
