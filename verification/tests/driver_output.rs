use rustflow::driver::{parse_cpp_output, parse_driver_report};

#[test]
fn driver_report_reads_samples_in_order_and_checksum() {
    let m = parse_driver_report("sample_ns 120\nchecksum 42\nsample_ns 80\n").unwrap();
    assert_eq!(m.samples_ns, vec![120, 80]);
    assert_eq!(m.checksum, 42);
}

#[test]
fn driver_report_last_checksum_wins() {
    let m = parse_driver_report("checksum 1\nchecksum 2").unwrap();
    assert_eq!(m.checksum, 2);
    assert!(m.samples_ns.is_empty());
}

#[test]
fn driver_report_handles_crlf_spacing_and_other_lines() {
    let text = "  warming up\r\n\tsample_ns\t7 extra\r\n\r\nchecksum   +9\r\nsample_ns\nnote 3\n";
    let m = parse_driver_report(text).unwrap();
    assert_eq!(m.samples_ns, vec![7]);
    assert_eq!(m.checksum, 9);
}

#[test]
fn driver_report_without_checksum_is_refused() {
    let e = parse_driver_report("sample_ns 5\n").unwrap_err();
    assert_eq!(e, "cpp-taskflow driver did not return checksum");
    let e = parse_driver_report("").unwrap_err();
    assert_eq!(e, "cpp-taskflow driver did not return checksum");
}

#[test]
fn driver_report_bad_checksum_is_refused() {
    let e = parse_driver_report("checksum abc\n").unwrap_err();
    assert_eq!(e, format!("invalid checksum output: {}", "abc".parse::<u64>().unwrap_err()));
    let e = parse_driver_report("checksum -1\n").unwrap_err();
    assert!(e.starts_with("invalid checksum output: "));
    let e = parse_driver_report("checksum 18446744073709551616\n").unwrap_err();
    assert_eq!(
        e,
        format!("invalid checksum output: {}", "18446744073709551616".parse::<u64>().unwrap_err())
    );
}

#[test]
fn driver_report_bad_sample_stops_reading() {
    let text = "sample_ns 1\nsample_ns 1e3\nchecksum 5\n";
    let e = parse_driver_report(text).unwrap_err();
    assert_eq!(e, format!("invalid sample output: {}", "1e3".parse::<u128>().unwrap_err()));
}

#[test]
fn driver_report_largest_values_fit() {
    let text = "checksum 18446744073709551615\nsample_ns 340282366920938463463374607431768211455\n";
    let m = parse_driver_report(text).unwrap();
    assert_eq!(m.checksum, u64::MAX);
    assert_eq!(m.samples_ns, vec![u128::MAX]);
}

#[test]
fn cpp_output_decodes_bytes_lossily() {
    let mut bytes = b"sample_ns 3\n".to_vec();
    bytes.extend_from_slice(&[0xff, 0xfe, b'\n']);
    bytes.extend_from_slice(b"checksum 11\n");
    let m = parse_cpp_output(&bytes).unwrap();
    assert_eq!(m.samples_ns, vec![3]);
    assert_eq!(m.checksum, 11);
}
