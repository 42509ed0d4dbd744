use udp::render::{
    byte_list, fresh_buffer, listening_banner, packet_entry_text, push_decimal, render_packet,
    render_received, RECV_BUFFER_LEN,
};
use udp::text::{decode_lossy, REPLACEMENT};

fn crafted_inputs() -> Vec<Vec<u8>> {
    vec![
        vec![],
        b"hello".to_vec(),
        vec![0x80],
        vec![0xBF, 0x41],
        vec![0xC0, 0x80],
        vec![0xC1, 0xBF],
        vec![0xC2],
        vec![0xC2, 0x41],
        vec![0xE0, 0x80, 0x80],
        vec![0xE0, 0xA0],
        vec![0xE2, 0x82],
        vec![0xE2, 0x82, 0xAC],
        vec![0xED, 0xA0, 0x80],
        vec![0xED, 0x9F, 0xBF],
        vec![0xEF, 0xBF, 0xBF],
        vec![0xF0, 0x80, 0x80, 0x80],
        vec![0xF0, 0x9F, 0x98],
        vec![0xF0, 0x9F, 0x98, 0x80],
        vec![0xF4, 0x8F, 0xBF, 0xBF],
        vec![0xF4, 0x90, 0x80, 0x80],
        vec![0xF5, 0x80],
        vec![0xFF, 0xFE, 0x00],
        vec![0x61, 0xF1, 0x80, 0x41, 0xE1, 0x80, 0xC2],
    ]
}

#[test]
fn lossy_decoding_matches_std() {
    for bytes in crafted_inputs() {
        assert_eq!(decode_lossy(&bytes), String::from_utf8_lossy(&bytes), "input {:?}", bytes);
    }
}

#[test]
fn lossy_decoding_of_every_two_byte_input_matches_std() {
    for a in 0..=255u8 {
        for b in 0..=255u8 {
            let bytes = [a, b];
            assert_eq!(decode_lossy(&bytes), String::from_utf8_lossy(&bytes));
        }
    }
}

#[test]
fn invalid_bytes_become_replacement_characters() {
    assert_eq!(decode_lossy(&[0x61, 0xFF, 0x62]), "a\u{FFFD}b");
    assert_eq!(decode_lossy(&[0xE2, 0x82]), "\u{FFFD}");
    assert_eq!(decode_lossy(&[0xC0, 0x80]), "\u{FFFD}\u{FFFD}");
    assert_eq!(decode_lossy(&[0xED, 0xA0, 0x80]), "\u{FFFD}\u{FFFD}\u{FFFD}");
    assert_eq!(decode_lossy(&[0x80, 0x80]).chars().filter(|c| *c == REPLACEMENT).count(), 2);
}

#[test]
fn valid_text_decodes_unchanged() {
    let text = "héllo, wörld: 😀 €";
    assert_eq!(decode_lossy(text.as_bytes()), text);
    assert_eq!(decode_lossy(&[0xF0, 0x9F, 0x98, 0x80]), "😀");
}

#[test]
fn byte_list_matches_debug_form() {
    assert_eq!(byte_list(&[]), "[]");
    assert_eq!(byte_list(&[0]), "[0]");
    assert_eq!(byte_list(&[104, 105]), "[104, 105]");
    let all: Vec<u8> = (0..=255u8).collect();
    assert_eq!(byte_list(&all), format!("{:?}", all));
}

#[test]
fn decimal_forms() {
    let mut s = String::from("n=");
    push_decimal(&mut s, 0);
    assert_eq!(s, "n=0");
    let mut s = String::new();
    push_decimal(&mut s, u64::MAX);
    assert_eq!(s, "18446744073709551615");
    let mut s = String::new();
    push_decimal(&mut s, 1000);
    assert_eq!(s, "1000");
}

#[test]
fn packet_entry_layout() {
    let entry = packet_entry_text("10.0.0.1:9", "\"x\"", &[120]);
    assert_eq!(
        entry,
        "Received a packet from 10.0.0.1:9\nUTF-8 representation: \"x\"\nByte array representation: [120]\n\n"
    );
}

#[test]
fn render_plain_packet() {
    let entry = render_packet("127.0.0.1:5000", b"hi");
    assert_eq!(
        entry,
        "Received a packet from 127.0.0.1:5000\nUTF-8 representation: \"hi\"\nByte array representation: [104, 105]\n\n"
    );
}

#[test]
fn render_escapes_text_and_keeps_raw_bytes() {
    let entry = render_packet("127.0.0.1:5000", b"a\"b\n");
    assert_eq!(
        entry,
        "Received a packet from 127.0.0.1:5000\nUTF-8 representation: \"a\\\"b\\n\"\nByte array representation: [97, 34, 98, 10]\n\n"
    );
}

#[test]
fn render_invalid_packet_marks_and_keeps_bytes() {
    let entry = render_packet("[::1]:7", &[0x66, 0xFF, 0xC2]);
    assert_eq!(
        entry,
        "Received a packet from [::1]:7\nUTF-8 representation: \"f\u{FFFD}\u{FFFD}\"\nByte array representation: [102, 255, 194]\n\n"
    );
}

#[test]
fn render_empty_packet() {
    let entry = render_packet("127.0.0.1:1", &[]);
    assert_eq!(
        entry,
        "Received a packet from 127.0.0.1:1\nUTF-8 representation: \"\"\nByte array representation: []\n\n"
    );
}

#[test]
fn received_bytes_only_are_shown() {
    let mut buf = fresh_buffer();
    for i in 0..10 {
        buf[i] = b'z';
    }
    buf[0] = b'o';
    buf[1] = b'k';
    let entry = render_received("1.2.3.4:5", &buf, 2);
    assert_eq!(entry, render_packet("1.2.3.4:5", b"ok"));
    let empty = render_received("1.2.3.4:5", &buf, 0);
    assert_eq!(empty, render_packet("1.2.3.4:5", &[]));
}

#[test]
fn fresh_buffer_is_zeroed_and_large_enough() {
    let buf = fresh_buffer();
    assert_eq!(buf.len(), 65536);
    assert_eq!(RECV_BUFFER_LEN, 65536);
    assert!(buf.iter().all(|b| *b == 0));
}

#[test]
fn largest_payload_is_listed_in_full() {
    let payload = vec![7u8; 65507];
    let entry = render_packet("127.0.0.1:2", &payload);
    assert!(entry.ends_with(&format!("Byte array representation: {:?}\n\n", payload)));
}

#[test]
fn banner_names_the_port() {
    assert_eq!(listening_banner(8080), "Listening on port 8080...");
    assert_eq!(listening_banner(0), "Listening on port 0...");
    assert_eq!(listening_banner(65535), "Listening on port 65535...");
}

#[test]
fn byte_lists_tell_payloads_apart() {
    assert_ne!(byte_list(&[1, 23]), byte_list(&[12, 3]));
    assert_ne!(byte_list(&[1, 2, 3]), byte_list(&[123]));
    assert_ne!(byte_list(&[]), byte_list(&[0]));
    assert_eq!(byte_list(&[12, 3]), "[12, 3]");
}
