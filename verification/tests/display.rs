use paddler::dashboard::constraint_len_calculator;
use paddler::dashboard::dec_len;
use paddler::dashboard::format_usize;
use paddler::dashboard::ref_array;
use paddler::upstream_peer::UpstreamPeer;

fn peer(name: Option<&str>, error: Option<&str>, addr: &str, idle: usize, processing: usize, last_update: u64) -> UpstreamPeer {
    UpstreamPeer {
        agent_id: name.unwrap_or("anon").to_string(),
        agent_name: name.map(str::to_string),
        error: error.map(str::to_string),
        external_llamacpp_addr: addr.to_string(),
        is_authorized: Some(true),
        is_slots_endpoint_enabled: Some(true),
        slots_idle: idle,
        slots_processing: processing,
        slots_taken: 0,
        last_update,
        quarantined_until: None,
    }
}

#[test]
fn formats_decimal_counts() {
    assert_eq!(format_usize(0), "0");
    assert_eq!(format_usize(7), "7");
    assert_eq!(format_usize(10), "10");
    assert_eq!(format_usize(905), "905");
    assert_eq!(format_usize(1000000), "1000000");
}

#[test]
fn counts_decimal_digits() {
    assert_eq!(dec_len(0), 1);
    assert_eq!(dec_len(9), 1);
    assert_eq!(dec_len(10), 2);
    assert_eq!(dec_len(99999), 5);
}

#[test]
fn renders_row_cells() {
    let row = ref_array(peer(Some("a1"), None, "10.0.0.7:8080", 5, 12, 0));
    assert_eq!(row[0], "a1");
    assert_eq!(row[1], "None");
    assert_eq!(row[2], "10.0.0.7:8080");
    assert_eq!(row[3], "1970/01/01, 00:00:00");
    assert_eq!(row[4], "5");
    assert_eq!(row[5], "12");
}

#[test]
fn renders_row_for_errored_peer() {
    let row = ref_array(peer(
        None,
        Some("backend down"),
        "h:1",
        0,
        0,
        86_400_000,
    ));
    assert_eq!(row[0], "");
    assert_eq!(row[1], "backend down");
    assert_eq!(row[3], "1970/01/02, 00:00:00");
}

#[test]
fn accumulates_column_widths() {
    let items = vec![
        peer(Some("ab"), None, "h:1", 5, 0, 0),
        peer(Some("c"), Some("oops"), "host:8080", 123, 7, 0),
    ];
    let widths = constraint_len_calculator(items);
    // name: 2, then 1 is not wider
    assert_eq!(widths.0, 2);
    // error: only the second row has one
    assert_eq!(widths.1, 4);
    // addr: 3, then 9 is wider, so 3 + 9
    assert_eq!(widths.2, 12);
    // date: both render 20 characters
    assert_eq!(widths.3, 20);
    // idle: 1, then 3 is wider, so 1 + 3
    assert_eq!(widths.4, 4);
    // processing: both 1 digit
    assert_eq!(widths.5, 1);
}

#[test]
fn empty_table_has_zero_widths() {
    let widths = constraint_len_calculator(Vec::new());
    assert_eq!(widths, (0, 0, 0, 0, 0, 0));
}
