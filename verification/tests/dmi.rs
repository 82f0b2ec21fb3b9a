use memwatch::dmi::{parse_dmidecode_memory, summarize_devices, MemoryDevice};

const DMIDECODE: &str = "\
# dmidecode 3.5
Handle 0x002D, DMI type 17, 92 bytes
Memory Device
\tSize: 32 GB
\tLocator: Controller0-ChannelA-DIMM0
\tBank Locator: BANK 0
\tType: DDR5
\tSpeed: 5600 MT/s
\tManufacturer: Kingston
\tConfigured Memory Speed: 5600 MT/s

Handle 0x002E, DMI type 17, 92 bytes
Memory Device
\tSize: No Module Installed
\tLocator: Controller0-ChannelA-DIMM1
\tType: Unknown

Handle 0x002F, DMI type 17, 92 bytes
Memory Device
\tSize: 32768 MB
\tLocator: Controller0-ChannelB-DIMM0
\tType: DDR5
\tSpeed: 5600 MT/s
\tManufacturer: Kingston
\tConfigured Memory Speed: 5200 MT/s
";

#[test]
fn parses_installed_memory_devices() {
    let devices = parse_dmidecode_memory(DMIDECODE);

    assert_eq!(devices.len(), 2);
    assert_eq!(devices[0].locator.as_deref(), Some("Controller0-ChannelA-DIMM0"));
    assert_eq!(devices[0].size_bytes, 32 * 1024 * 1024 * 1024);
    assert_eq!(devices[0].memory_type.as_deref(), Some("DDR5"));
    assert_eq!(devices[0].speed_mts, Some(5600));
    assert_eq!(devices[0].configured_speed_mts, Some(5600));
    assert_eq!(devices[0].manufacturer.as_deref(), Some("Kingston"));
    assert_eq!(devices[1].configured_speed_mts, Some(5200));
}

#[test]
fn summarizes_installed_memory_details() {
    let details = summarize_devices(parse_dmidecode_memory(DMIDECODE));

    assert_eq!(details.total_installed_bytes, 64 * 1024 * 1024 * 1024);
    assert_eq!(details.configured_speed_mts, Some(5600));
    assert_eq!(details.devices.len(), 2);
}

#[test]
fn dmidecode_fields_before_first_header_are_ignored() {
    let devices = parse_dmidecode_memory("Size: 8 GB\nMemory Device\nLocator: A\n");
    assert!(devices.is_empty());
}

#[test]
fn dmidecode_size_units_and_bank_locator() {
    let devices = parse_dmidecode_memory(
        "Memory Device\n Size: 2 kib\n Bank Locator: BANK 1\n Type: unknown\n Manufacturer: \n\
         Memory Device\n Size: 3\n Speed: Unknown\n\
         Memory Device\n Size: 1 TB\n\
         Memory Device\n Size: 4 parsecs\n\
         Memory Device\n Size: unknown\n",
    );
    assert_eq!(devices.len(), 3);
    assert_eq!(devices[0].size_bytes, 2048);
    assert_eq!(devices[0].bank_locator.as_deref(), Some("BANK 1"));
    assert_eq!(devices[0].memory_type, None);
    assert_eq!(devices[0].manufacturer, None);
    assert_eq!(devices[1].size_bytes, 3);
    assert_eq!(devices[1].speed_mts, None);
    assert_eq!(devices[2].size_bytes, 1024u64.pow(4));
}

#[test]
fn dmidecode_size_saturates() {
    let devices = parse_dmidecode_memory("Memory Device\nSize: 18446744073709551615 GB\n");
    assert_eq!(devices[0].size_bytes, u64::MAX);
}

#[test]
fn summary_prefers_configured_speed_and_takes_the_fastest() {
    let devices = vec![
        MemoryDevice { size_bytes: 1, speed_mts: Some(6000), ..MemoryDevice::default() },
        MemoryDevice {
            size_bytes: 2,
            speed_mts: Some(7000),
            configured_speed_mts: Some(4800),
            ..MemoryDevice::default()
        },
    ];
    let details = summarize_devices(devices);
    assert_eq!(details.total_installed_bytes, 3);
    assert_eq!(details.configured_speed_mts, Some(6000));
}

#[test]
fn summary_of_no_devices() {
    let details = summarize_devices(Vec::new());
    assert_eq!(details.total_installed_bytes, 0);
    assert_eq!(details.configured_speed_mts, None);
}

#[test]
fn dmidecode_texts_read_one_after_another() {
    let b = "Memory Device\n\tSize: 8 GB\n\tLocator: DIMM9\n";
    let joined = parse_dmidecode_memory(&format!("{DMIDECODE}{b}"));
    let mut expected = parse_dmidecode_memory(DMIDECODE);
    expected.extend(parse_dmidecode_memory(b));
    assert_eq!(joined, expected);
    assert_eq!(joined.len(), 3);
}
