use microbit_animator::frame::Frame;
use microbit_animator::text::{decode_document, encode_document};

fn zeros_then(vals: &[u8]) -> [u8; 25] {
    let mut v = [0u8; 25];
    v[..vals.len()].copy_from_slice(vals);
    v
}

#[test]
fn encode_two_frames_exact_text() {
    let frames = vec![Frame::with_values([0u8; 25]), Frame::with_values([255u8; 25])];
    let text = String::from_utf8(encode_document(&frames)).unwrap();
    let zeros = vec!["0"; 25].join(",");
    let full = vec!["255"; 25].join(",");
    let expected = format!(".byte {}\n.byte 1\n.byte {}\n.byte 0\n", zeros, full);
    assert_eq!(text, expected);
}

#[test]
fn encode_then_decode_gives_same_frames() {
    let mut frames = Vec::new();
    for k in 0..4u32 {
        let mut v = [0u8; 25];
        for (i, x) in v.iter_mut().enumerate() {
            *x = ((i as u32 * 37 + k * 101) % 256) as u8;
        }
        frames.push(Frame::with_values(v));
    }
    let text = encode_document(&frames);
    assert_eq!(decode_document(&text), frames);
}

#[test]
fn non_numeric_token_discards_line() {
    let got = decode_document(b".byte 1,2,x,4\n");
    assert_eq!(got.len(), 0);
}

#[test]
fn bad_line_is_skipped_and_others_kept() {
    let got = decode_document(b".byte 1,2,x,4\n.byte 1\n.byte 5,6\n.byte 0\n");
    assert_eq!(got, vec![Frame::with_values(zeros_then(&[5, 6]))]);
}

#[test]
fn short_blob_fills_with_zeros() {
    let got = decode_document(b".byte 1,2,3,4,5,6,7,8,9,10\n");
    assert_eq!(got.len(), 1);
    assert_eq!(got[0].leds, zeros_then(&[1, 2, 3, 4, 5, 6, 7, 8, 9, 10]));
}

#[test]
fn extra_values_are_dropped() {
    let vals: Vec<String> = (1..=30).map(|i| i.to_string()).collect();
    let text = format!(".byte {}", vals.join(","));
    let got = decode_document(text.as_bytes());
    assert_eq!(got.len(), 1);
    let expected: Vec<u8> = (1..=25).collect();
    assert_eq!(got[0].leds.to_vec(), expected);
}

#[test]
fn value_above_255_discards_line() {
    assert_eq!(decode_document(b".byte 1,256,3").len(), 0);
}

#[test]
fn plus_sign_and_leading_zeros_parse() {
    let got = decode_document(b".byte +5,007,0000000000012");
    assert_eq!(got[0].leds, zeros_then(&[5, 7, 12]));
}

#[test]
fn separator_lines_are_skipped_even_padded() {
    assert_eq!(decode_document(b"  .byte 0  \n\t.byte 1\n").len(), 0);
}

#[test]
fn empty_and_blank_lines_yield_nothing() {
    assert_eq!(decode_document(b"").len(), 0);
    assert_eq!(decode_document(b"\n\n   \n").len(), 0);
}

#[test]
fn crlf_lines_and_missing_final_newline() {
    let got = decode_document(b".byte 9,8\r\n.byte 1\r\n.byte 3");
    assert_eq!(
        got,
        vec![
            Frame::with_values(zeros_then(&[9, 8])),
            Frame::with_values(zeros_then(&[3]))
        ]
    );
}

#[test]
fn blob_is_last_space_separated_token() {
    let got = decode_document(b"db foo 4,5");
    assert_eq!(got[0].leds, zeros_then(&[4, 5]));
    assert_eq!(decode_document(b".byte 4,5 ").len(), 0);
}
