use microbit_animator::frame::Frame;

fn line(f: &Frame) -> String {
    String::from_utf8(f.encode()).unwrap()
}

#[test]
fn new_frame_is_fully_lit() {
    let f = Frame::new();
    assert_eq!(f.leds, [255u8; 25]);
}

#[test]
fn with_values_keeps_values() {
    let mut v = [0u8; 25];
    for (i, x) in v.iter_mut().enumerate() {
        *x = (i * 10) as u8;
    }
    let f = Frame::with_values(v);
    assert_eq!(f.leds, v);
}

#[test]
fn invert_maps_each_value() {
    let mut v = [0u8; 25];
    v[0] = 0;
    v[1] = 255;
    v[2] = 100;
    let mut f = Frame::with_values(v);
    f.invert();
    assert_eq!(f.leds[0], 255);
    assert_eq!(f.leds[1], 0);
    assert_eq!(f.leds[2], 155);
    assert_eq!(f.leds[3], 255);
}

#[test]
fn invert_twice_is_identity() {
    let mut v = [0u8; 25];
    for (i, x) in v.iter_mut().enumerate() {
        *x = (i * 7 + 3) as u8;
    }
    let mut f = Frame::with_values(v);
    f.invert();
    assert_ne!(f.leds, v);
    f.invert();
    assert_eq!(f.leds, v);
}

#[test]
fn set_row_touches_only_that_row() {
    let mut v = [0u8; 25];
    for (i, x) in v.iter_mut().enumerate() {
        *x = i as u8;
    }
    let mut f = Frame::with_values(v);
    f.set_row(2, 200);
    for i in 0..25 {
        if i % 5 == 2 {
            assert_eq!(f.leds[i], 200);
        } else {
            assert_eq!(f.leds[i], i as u8);
        }
    }
}

#[test]
fn set_row_out_of_range_is_noop() {
    let mut f = Frame::new();
    f.set_row(5, 0);
    assert_eq!(f.leds, [255u8; 25]);
}

#[test]
fn set_col_touches_only_that_column() {
    let mut f = Frame::with_values([0u8; 25]);
    f.set_col(4, 9);
    for i in 0..25 {
        assert_eq!(f.leds[i], if i / 5 == 4 { 9 } else { 0 });
    }
    f.set_col(7, 1);
    assert_eq!(f.leds.iter().filter(|v| **v == 1).count(), 0);
}

#[test]
fn set_all_sets_every_led() {
    let mut f = Frame::new();
    f.set_all(42);
    assert_eq!(f.leds, [42u8; 25]);
}

#[test]
fn encode_line_of_mixed_values() {
    let mut v = [0u8; 25];
    v[0] = 7;
    v[1] = 10;
    v[2] = 255;
    v[24] = 99;
    let f = Frame::with_values(v);
    assert_eq!(
        line(&f),
        ".byte 7,10,255,0,0,0,0,0,0,0,0,0,0,0,0,0,0,0,0,0,0,0,0,0,99"
    );
}
