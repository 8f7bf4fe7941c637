use appvis::probe::{interface_status, parse_ifconfig_output, ProbeError};

#[test]
fn test_parse_ifconfig_output() {
    let input = "ap1: flags=9999<UP,BROADCAST,RUNNING,SIMPLEX,MULTICAST> mtu 9999
\toptions=0000<TSO4,TSO6,CHANNEL_IO,PARTIAL_CSUM,ZEROINVERT_CSUM>
\tether 11:22:33:44:55:66
\tinet6 abcd::efe:1111:2222:cba2%ap1 prefixlen 64 scopeid 0xb 
\tnd6 options=201<PERFORMNUD,DAD>
\tmedia: autoselect (<unknown type>)
\tstatus: inactive
en0: flags=9999<UP,BROADCAST,SMART,RUNNING,SIMPLEX,MULTICAST> mtu 9999
\toptions=0000<TSO4,TSO6,CHANNEL_IO,PARTIAL_CSUM,ZEROINVERT_CSUM>
\tether 11:22:33:44:55:66
\tinet6 abcd::efe:1111:2222:3333%en0 prefixlen 64 secured scopeid 0xc 
\tinet6 0000:aaaa:1111:2222:3333:4444:5555:6666 prefixlen 64 autoconf secured 
\tinet6 0000:bbbb:2222:3333:4444:5555:6666:7777 prefixlen 64 autoconf temporary 
\tinet 0.0.0.0 netmask 0xffffffff broadcast 255.255.255.255
\tnd6 options=000<PERFORMNUD,DAD>
\tmedia: autoselect
\tstatus: active
";
    let mp = parse_ifconfig_output(input).unwrap();
    assert_eq!(mp.get("ap1"), Some(false));
    assert_eq!(mp.get("en0"), Some(true));
    assert_eq!(mp.get("hoge"), None);
}

#[test]
fn active_status_reads_true() {
    let out = "en0: flags=8863<UP> mtu 1500\n\tstatus: active\n";
    assert_eq!(interface_status(out, "en0"), Ok(true));
}

#[test]
fn inactive_status_reads_false() {
    let out = "en0: flags=8863<UP> mtu 1500\n\tstatus: inactive\n";
    assert_eq!(interface_status(out, "en0"), Ok(false));
}

#[test]
fn absent_interface_is_not_found() {
    let out = "en1: flags=8863<UP> mtu 1500\n\tstatus: active\n";
    assert_eq!(interface_status(out, "en0"), Err(ProbeError::InterfaceNotFound));
}

#[test]
fn empty_output_is_not_found() {
    assert_eq!(interface_status("", "en0"), Err(ProbeError::InterfaceNotFound));
}

#[test]
fn header_without_separator_is_unparseable() {
    let out = "garbage\n\tstatus: active\n";
    assert_eq!(interface_status(out, "en0"), Err(ProbeError::CommandError));
    assert!(parse_ifconfig_output(out).is_err());
}

#[test]
fn empty_line_is_unparseable() {
    let out = "en0: flags\n\n\tstatus: active\n";
    assert_eq!(interface_status(out, "en0"), Err(ProbeError::CommandError));
}

#[test]
fn record_order_does_not_matter() {
    let a = "en0: x\n\tstatus: active\nen1: y\n\tstatus: inactive\n";
    let b = "en1: y\n\tstatus: inactive\nen0: x\n\tstatus: active\n";
    for out in [a, b] {
        let mp = parse_ifconfig_output(out).unwrap();
        assert_eq!(mp.get("en0"), Some(true));
        assert_eq!(mp.get("en1"), Some(false));
    }
}

#[test]
fn attribute_before_any_header_is_ignored() {
    let out = "\tstatus: active\nen1: y\n\tstatus: inactive\n";
    let mp = parse_ifconfig_output(out).unwrap();
    assert_eq!(mp.get("en1"), Some(false));
    assert_eq!(mp.get("status"), None);
    assert_eq!(interface_status(out, "en0"), Err(ProbeError::InterfaceNotFound));
}

#[test]
fn status_line_closes_the_record() {
    let out = "en0: x\n\tstatus: inactive\n\tstatus: active\n";
    assert_eq!(interface_status(out, "en0"), Ok(false));
}

#[test]
fn status_line_after_closed_record_needs_new_header() {
    let out = "en0: x\n\tstatus: inactive\nen1: y\n\tstatus: active\n";
    assert_eq!(interface_status(out, "en0"), Ok(false));
    assert_eq!(interface_status(out, "en1"), Ok(true));
}

#[test]
fn attribute_whitespace_is_trimmed() {
    let out = "en0: x\n\t  status: active \t\n";
    assert_eq!(interface_status(out, "en0"), Ok(true));
}

#[test]
fn crlf_line_endings_are_accepted() {
    let out = "en0: x\r\n\tstatus: active\r\n";
    assert_eq!(interface_status(out, "en0"), Ok(true));
}

#[test]
fn last_line_needs_no_newline() {
    let out = "en0: x\n\tstatus: active";
    assert_eq!(interface_status(out, "en0"), Ok(true));
}

#[test]
fn space_indented_line_is_an_attribute() {
    let out = "en0: x\n  status: active\n";
    let mp = parse_ifconfig_output(out).unwrap();
    assert_eq!(mp.get("en0"), Some(true));
    assert_eq!(mp.get("  status"), None);
    assert_eq!(interface_status("en0: flags=1\n    status: active\n", "en0"), Ok(true));
}

#[test]
fn space_indented_lines_before_any_header_are_ignored() {
    let rest = "en1: y\n\tstatus: inactive\n";
    let out = format!("  x\n \tstatus: active\n{}", rest);
    let with = parse_ifconfig_output(&out).unwrap();
    let without = parse_ifconfig_output(rest).unwrap();
    assert_eq!(with.get("en1"), Some(false));
    assert_eq!(without.get("en1"), Some(false));
    assert_eq!(with.get("x"), None);
}

#[test]
fn record_order_does_not_matter_with_space_indented_attributes() {
    let a = "a: x\n  f: y\n\tstatus: active\n";
    let b = "b: x\n  f: y\n\tstatus: inactive\n";
    for out in [format!("{}{}", a, b), format!("{}{}", b, a)] {
        let mp = parse_ifconfig_output(&out).unwrap();
        assert_eq!(mp.get("a"), Some(true));
        assert_eq!(mp.get("b"), Some(false));
        assert_eq!(mp.get("  f"), None);
    }
}

#[test]
fn other_attribute_with_status_value_is_ignored() {
    let out = "en0: x\n\tmedia: active\n\tstatus: inactive\n";
    assert_eq!(interface_status(out, "en0"), Ok(false));
}

#[test]
fn value_must_be_exactly_active() {
    let out = "en0: x\n\tstatus: active yes\n";
    assert_eq!(interface_status(out, "en0"), Ok(false));
}

#[test]
fn later_record_of_same_name_wins() {
    let out = "en0: x\n\tstatus: inactive\nen0: x\n\tstatus: active\n";
    assert_eq!(interface_status(out, "en0"), Ok(true));
}
