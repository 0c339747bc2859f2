use paddler::codec::parse_status_update;
use paddler::codec::serialize_status_update;
use paddler::ingress::FrameStep;
use paddler::ingress::StatusIngress;
use paddler::status_update::Slot;
use paddler::status_update::StatusUpdate;

fn full_update() -> StatusUpdate {
    StatusUpdate {
        agent_name: Some("agent one".to_string()),
        error: None,
        external_llamacpp_addr: "10.0.0.7:8080".to_string(),
        slots_idle: 5,
        slots_processing: 1,
        is_authorized: Some(true),
        is_slots_endpoint_enabled: Some(false),
    }
}

#[test]
fn serializes_canonical_frame() {
    let bytes = serialize_status_update(&full_update());
    let text = String::from_utf8(bytes).expect("utf-8 frame");
    assert_eq!(
        text,
        "{\"agent_name\":\"agent one\",\"error\":null,\
         \"external_llamacpp_addr\":\"10.0.0.7:8080\",\"slots_idle\":5,\
         \"slots_processing\":1,\"is_authorized\":true,\
         \"is_slots_endpoint_enabled\":false}"
    );
}

#[test]
fn round_trip_plain_fields() {
    let update = full_update();
    let bytes = serialize_status_update(&update);
    let (parsed, used) = parse_status_update(&bytes, 0).expect("parses back");
    assert_eq!(used, bytes.len());
    assert_eq!(parsed, update);
}

#[test]
fn round_trip_escapes_and_unicode() {
    let update = StatusUpdate {
        agent_name: Some("a \"quoted\" \\ name\u{1}\n".to_string()),
        error: Some("café ⚙ done".to_string()),
        external_llamacpp_addr: "[::1]:8080".to_string(),
        slots_idle: 0,
        slots_processing: 0,
        is_authorized: None,
        is_slots_endpoint_enabled: None,
    };
    let bytes = serialize_status_update(&update);
    let (parsed, used) = parse_status_update(&bytes, 0).expect("parses back");
    assert_eq!(used, bytes.len());
    assert_eq!(parsed, update);
}

#[test]
fn parses_handwritten_frame_with_trailing_bytes() {
    let text = "{\"agent_name\":null,\"error\":\"down\",\
                \"external_llamacpp_addr\":\"h:1\",\"slots_idle\":12,\
                \"slots_processing\":3,\"is_authorized\":null,\
                \"is_slots_endpoint_enabled\":true}"
        .to_string();
    let frame_len = text.len();
    let mut bytes = text.into_bytes();
    bytes.extend_from_slice(b"{\"next\":");
    let (parsed, used) = parse_status_update(&bytes, 0).expect("parses");
    assert_eq!(used, frame_len);
    assert_eq!(parsed.agent_name, None);
    assert_eq!(parsed.error.as_deref(), Some("down"));
    assert_eq!(parsed.external_llamacpp_addr, "h:1");
    assert_eq!(parsed.slots_idle, 12);
    assert_eq!(parsed.slots_processing, 3);
    assert_eq!(parsed.is_authorized, None);
    assert_eq!(parsed.is_slots_endpoint_enabled, Some(true));
}

#[test]
fn rejects_malformed_frames() {
    // key order is part of the wire contract
    let swapped = b"{\"error\":null,\"agent_name\":null".to_vec();
    assert!(parse_status_update(&swapped, 0).is_none());

    let truncated = b"{\"agent_name\":nu".to_vec();
    assert!(parse_status_update(&truncated, 0).is_none());

    let missing_count = "{\"agent_name\":null,\"error\":null,\
                         \"external_llamacpp_addr\":\"h:1\",\"slots_idle\":,"
        .to_string()
        .into_bytes();
    assert!(parse_status_update(&missing_count, 0).is_none());
}

#[test]
fn rejects_oversized_counts() {
    let text = "{\"agent_name\":null,\"error\":null,\
                \"external_llamacpp_addr\":\"h:1\",\"slots_idle\":99999999999999999999,\
                \"slots_processing\":0,\"is_authorized\":null,\
                \"is_slots_endpoint_enabled\":null}"
        .to_string();
    assert!(parse_status_update(&text.into_bytes(), 0).is_none());
}

#[test]
fn status_update_new_counts_slots() {
    let slots = vec![
        Slot { is_processing: false },
        Slot { is_processing: true },
        Slot { is_processing: false },
        Slot { is_processing: false },
    ];
    let update = StatusUpdate::new(
        Some("a".to_string()),
        None,
        "h:1".to_string(),
        Some(true),
        Some(true),
        Some(slots),
    );
    assert_eq!(update.slots_idle, 3);
    assert_eq!(update.slots_processing, 1);

    let empty = StatusUpdate::new(None, None, "h:1".to_string(), None, None, None);
    assert_eq!(empty.slots_idle, 0);
    assert_eq!(empty.slots_processing, 0);
}

#[test]
fn ingress_assembles_rechunked_frames() {
    let update = full_update();
    let bytes = serialize_status_update(&update);
    let (front, back) = bytes.split_at(10);

    let mut ingress = StatusIngress::new();
    ingress.push_chunk(front);
    assert!(matches!(ingress.next_frame(), FrameStep::Incomplete));

    ingress.push_chunk(back);
    match ingress.next_frame() {
        FrameStep::Frame(parsed) => assert_eq!(parsed, update),
        _ => panic!("expected a complete frame"),
    }
    assert!(matches!(ingress.next_frame(), FrameStep::Incomplete));
}

#[test]
fn ingress_returns_frames_in_order() {
    let first = full_update();
    let mut second = full_update();
    second.agent_name = Some("two".to_string());
    second.slots_idle = 9;

    let mut bytes = serialize_status_update(&first);
    bytes.extend(serialize_status_update(&second));

    let mut ingress = StatusIngress::new();
    ingress.push_chunk(&bytes);
    match ingress.next_frame() {
        FrameStep::Frame(parsed) => assert_eq!(parsed, first),
        _ => panic!("expected the first frame"),
    }
    match ingress.next_frame() {
        FrameStep::Frame(parsed) => assert_eq!(parsed, second),
        _ => panic!("expected the second frame"),
    }
}

#[test]
fn ingress_flags_malformed_frames() {
    let mut ingress = StatusIngress::new();
    ingress.push_chunk(b"{\"unexpected\":1}");
    assert!(matches!(ingress.next_frame(), FrameStep::Malformed));
}

#[test]
fn ingress_ignores_braces_inside_strings() {
    let mut update = full_update();
    update.agent_name = Some("brace } in name".to_string());
    let bytes = serialize_status_update(&update);

    let mut ingress = StatusIngress::new();
    ingress.push_chunk(&bytes);
    match ingress.next_frame() {
        FrameStep::Frame(parsed) => assert_eq!(parsed, update),
        _ => panic!("expected a complete frame"),
    }
}

#[test]
fn round_trip_largest_counts() {
    let update = StatusUpdate {
        agent_name: None,
        error: None,
        external_llamacpp_addr: "h:1".to_string(),
        slots_idle: usize::MAX,
        slots_processing: usize::MAX,
        is_authorized: Some(true),
        is_slots_endpoint_enabled: Some(true),
    };
    let bytes = serialize_status_update(&update);
    let (parsed, used) = parse_status_update(&bytes, 0).expect("parses back");
    assert_eq!(used, bytes.len());
    assert_eq!(parsed, update);
}
