use fleetwatch::info::{parse_extended_info, ExtendedInfo};
use fleetwatch::textscan::{parse_u64, sanitize, trim_ws};

fn info_with(hostname: &str, cpuinfo: &str, meminfo: &str, ipaddr: &str) -> ExtendedInfo {
    ExtendedInfo {
        hostname: hostname.to_string(),
        cpuinfo: cpuinfo.to_string(),
        meminfo: meminfo.to_string(),
        ipaddr: ipaddr.to_string(),
    }
}

#[test]
fn trim_removes_surrounding_whitespace_only() {
    assert_eq!(trim_ws("  model  name \t\r\n"), "model  name");
    assert_eq!(trim_ws("\t \n"), "");
    assert_eq!(trim_ws("plain"), "plain");
    assert_eq!(trim_ws(""), "");
}

#[test]
fn sanitize_trims_and_strips_commas() {
    assert_eq!(sanitize("  a,b, c  "), "a b  c");
    assert_eq!(sanitize("clean"), "clean");
    assert_eq!(sanitize(" , "), " ");
}

#[test]
fn decimal_fields_parse_exactly() {
    assert_eq!(parse_u64("0"), Some(0));
    assert_eq!(parse_u64("16384"), Some(16384));
    assert_eq!(parse_u64("18446744073709551615"), Some(u64::MAX));
    assert_eq!(parse_u64("18446744073709551616"), None);
    assert_eq!(parse_u64(""), None);
    assert_eq!(parse_u64("12a"), None);
    assert_eq!(parse_u64(" 12"), None);
    assert_eq!(parse_u64("-3"), None);
}

#[test]
fn cpu_model_is_read_from_processor_listing() {
    let info = info_with(
        "host1",
        "processor\t: 0\nvendor_id\t: GenuineIntel\nmodel name\t: Intel(R) Xeon(R) CPU E5-2670\nstepping\t: 4\n",
        "",
        "",
    );
    assert_eq!(info.cpu(), Some("Intel(R) Xeon(R) CPU E5-2670"));
    let none = info_with("host1", "vendor_id\t: GenuineIntel\n", "", "");
    assert_eq!(none.cpu(), None);
}

#[test]
fn memory_fields_convert_kilobytes_to_bytes() {
    let info = info_with(
        "host1",
        "",
        "MemTotal:       16384 kB\nMemFree:        1000 kB\nSwapTotal:       2048 kB\n",
        "",
    );
    assert_eq!(info.ram(), Some(16384000));
    assert_eq!(info.swap(), Some(2048000));
    let missing = info_with("host1", "", "MemFree: 12 kB\n", "");
    assert_eq!(missing.ram(), None);
    assert_eq!(missing.swap(), None);
    let garbled = info_with("host1", "", "MemTotal: lots kB\n", "");
    assert_eq!(garbled.ram(), None);
    let too_big = info_with("host1", "", "MemTotal: 18446744073709552 kB\n", "");
    assert_eq!(too_big.ram(), None);
}

#[test]
fn mac_address_is_extracted_and_trimmed() {
    let info = info_with(
        "host1",
        "",
        "",
        "2: eno1: <BROADCAST>\n    link/ether aa:bb:cc:dd:ee:ff brd ff:ff:ff:ff:ff:ff\n",
    );
    assert_eq!(info.mac(), Some("aa:bb:cc:dd:ee:ff"));
    let none = info_with("host1", "", "", "lo: <LOOPBACK>\n");
    assert_eq!(none.mac(), None);
}

#[test]
fn probe_output_splits_into_four_sections() {
    let blob = "host42\nMUBELOTIX-SEPARATOR\nmodel name\t: CPU X\nMUBELOTIX-SEPARATOR\nMemTotal: 4096 kB\nMUBELOTIX-SEPARATOR\n    link/ether 11:22:33:44:55:66 brd ff\n";
    let info = parse_extended_info(blob).expect("blob should parse");
    assert_eq!(info.hostname, "host42");
    assert_eq!(info.cpuinfo, "model name\t: CPU X");
    assert_eq!(info.meminfo, "MemTotal: 4096 kB");
    assert_eq!(info.ipaddr, "link/ether 11:22:33:44:55:66 brd ff");
}

#[test]
fn probe_output_with_commas_is_sanitised() {
    let blob = "host,42\nMUBELOTIX-SEPARATOR\ncpu, info\nMUBELOTIX-SEPARATOR\nmem, info\nMUBELOTIX-SEPARATOR\nip, info\n";
    let info = parse_extended_info(blob).expect("blob should parse");
    assert_eq!(info.hostname, "host 42");
    assert_eq!(info.cpuinfo, "cpu  info");
    assert_eq!(info.meminfo, "mem  info");
    assert_eq!(info.ipaddr, "ip  info");
}

#[test]
fn probe_output_with_missing_sections_is_rejected() {
    assert!(parse_extended_info("no separators at all").is_none());
    assert!(parse_extended_info("a\nMUBELOTIX-SEPARATOR\nb").is_none());
    assert!(parse_extended_info("a\nMUBELOTIX-SEPARATOR\nb\nMUBELOTIX-SEPARATOR\nc").is_none());
}
