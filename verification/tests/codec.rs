use ppm_canvas::{
    clamp, decode, encode, encode_channel, generate_body, generate_header, parse_body,
    parse_header, round_decimal, Canvas, Color, DecodeError, HUNDREDTH, OUTPUT_SCALE, UNIT,
};

/// The color with the given channels in hundredths.
fn hundredths(r: i64, g: i64, b: i64) -> Color {
    Color::new(r * HUNDREDTH, g * HUNDREDTH, b * HUNDREDTH)
}

#[test]
fn test_edit_canvas() {
    let mut canvas = Canvas::new(8, 8);
    let pixel = canvas.pixel_at(0, 0).unwrap();
    assert_eq!(*pixel, Color::new(0, 0, 0));

    let new_color = Color::new(UNIT / 2, UNIT / 2, UNIT / 2);
    canvas.set_pixel(0, 0, new_color);
    assert_eq!(*canvas.pixel_at(0, 0).unwrap(), Color::new(UNIT / 2, UNIT / 2, UNIT / 2));
}

#[test]
fn test_parse_header() {
    let input = "P3
32 64
255
";

    let lines = input.split('\n').collect();
    let (width, height, scale_max) = parse_header(&lines).unwrap();
    assert!(width == 32);
    assert!(height == 64);
    assert!(scale_max == 255);
}

#[test]
fn test_parse_body() {
    let input = "P3
8 8
255
255 127 255 0 0 0 0 0 0 0 0 0 0 0 0 0 0 0 0 0 0 0 0 0
0 0 0 255 127 255 0 0 0 0 0 0 0 0 0 0 0 0 0 0 0 0 0 0
0 0 0 0 0 0 255 127 255 0 0 0 0 0 0 0 0 0 0 0 0 0 0 0
0 0 0 0 0 0 0 0 0 255 127 255 0 0 0 0 0 0 0 0 0 0 0 0
0 0 0 0 0 0 0 0 0 0 0 0 255 127 255 0 0 0 0 0 0 0 0 0
0 0 0 0 0 0 0 0 0 0 0 0 0 0 0 255 127 255 0 0 0 0 0 0
0 0 0 0 0 0 0 0 0 0 0 0 0 0 0 0 0 0 255 127 255 0 0 0
0 0 0 0 0 0 0 0 0 0 0 0 0 0 0 0 0 0 0 0 0 255 127 255
";

    let lines = input.split('\n').collect();

    let pixels = parse_body(&lines, 255).unwrap();
    assert!(pixels[0] == Color::new(UNIT, UNIT / 2, UNIT))
}

#[test]
fn test_parse_body_different_scale() {
    let input = "P3
2 2
16
16 4 8 0 0 0
0 0 0 0 0 0";

    let lines = input.split('\n').collect();

    let pixels = parse_body(&lines, 16).unwrap();
    assert!(pixels[0] == Color::new(UNIT, UNIT / 4, UNIT / 2))
}

#[test]
fn test_generate_head() {
    let canvas = Canvas::new(8, 8);
    let header = generate_header(&canvas);

    let expected_header = "P3
8 8
255";
    assert!(header == expected_header);
}

#[test]
fn parse_body_reads_every_pixel_in_row_order() {
    let lines = vec!["P3", "2 2", "16", "16 4 8 0 0 0", "1 2 3 16 16 16", ""];
    let pixels = parse_body(&lines, 16).unwrap();
    assert_eq!(
        pixels,
        vec![
            hundredths(100, 25, 50),
            hundredths(0, 0, 0),
            hundredths(6, 13, 19),
            hundredths(100, 100, 100),
        ]
    );
}

#[test]
fn round_decimal_rounds_to_the_nearest_hundredth() {
    assert_eq!(round_decimal(127, 255), UNIT / 2);
    assert_eq!(round_decimal(128, 255), 50 * HUNDREDTH);
    assert_eq!(round_decimal(126, 255), 49 * HUNDREDTH);
    assert_eq!(round_decimal(0, 255), 0);
    assert_eq!(round_decimal(255, 255), UNIT);
    assert_eq!(round_decimal(4, 16), UNIT / 4);
    assert_eq!(round_decimal(300, 255), 118 * HUNDREDTH);
}

#[test]
fn round_decimal_rounds_halves_up() {
    assert_eq!(round_decimal(1, 200), HUNDREDTH);
    assert_eq!(round_decimal(3, 200), 2 * HUNDREDTH);
    assert_eq!(round_decimal(1, 8), 13 * HUNDREDTH);
    assert_eq!(round_decimal(u32::MAX, 1), 429_496_729_500 * HUNDREDTH);
}

#[test]
fn encode_channel_clamps_to_the_scale() {
    assert_eq!(encode_channel(150 * HUNDREDTH, 255), 255);
    assert_eq!(encode_channel(UNIT + 1, 255), 255);
    assert_eq!(encode_channel(-1, 255), 0);
    assert_eq!(encode_channel(i64::MIN, 255), 0);
    assert_eq!(encode_channel(i64::MAX, u32::MAX), u32::MAX);
}

#[test]
fn encode_channel_truncates() {
    assert_eq!(encode_channel(0, 255), 0);
    assert_eq!(encode_channel(HUNDREDTH, 255), 2);
    assert_eq!(encode_channel(UNIT / 2, 255), 127);
    assert_eq!(encode_channel(99 * HUNDREDTH, 255), 252);
    assert_eq!(encode_channel(UNIT - 1, 255), 254);
    assert_eq!(encode_channel(UNIT, 255), 255);
    assert_eq!(encode_channel(UNIT / 4, 16), 4);
}

#[test]
fn encode_channel_tells_255_levels_apart() {
    for level in 0..=255u32 {
        let channel = i64::from(level) * (UNIT / 255);
        assert_eq!(encode_channel(channel, 255), level);
        assert_eq!(encode_channel(channel + UNIT / 255 - 1, 255), level);
    }
}

#[test]
fn clamp_holds_the_value_between_the_bounds() {
    assert_eq!(clamp(5, 0, 3), 3);
    assert_eq!(clamp(-5, 0, 3), 0);
    assert_eq!(clamp(2, 0, 3), 2);
    assert_eq!(clamp(7, 7, 7), 7);
}

#[test]
fn output_scale_is_255() {
    assert_eq!(OUTPUT_SCALE, 255);
}

#[test]
fn generate_body_writes_rows_of_triplets() {
    let mut canvas = Canvas::new(2, 2);
    canvas.set_pixel(0, 0, hundredths(100, 50, 0));
    canvas.set_pixel(1, 0, hundredths(150, -20, 25));
    canvas.set_pixel(1, 1, hundredths(1, 99, 100));
    assert_eq!(generate_body(&canvas, 255), "255 127 0 255 0 63\n0 0 0 2 252 255");
    assert_eq!(generate_body(&canvas, 16), "16 8 0 16 0 4\n0 0 0 0 15 16");
}

#[test]
fn generate_body_of_an_empty_canvas() {
    assert_eq!(generate_body(&Canvas::new(0, 0), 255), "");
    assert_eq!(generate_body(&Canvas::new(3, 0), 255), "");
    assert_eq!(generate_body(&Canvas::new(0, 3), 255), "\n\n");
}

#[test]
fn encode_ends_header_and_body_with_a_newline() {
    let mut canvas = Canvas::new(2, 1);
    canvas.set_pixel(0, 0, hundredths(100, 50, 0));
    assert_eq!(encode(&canvas), "P3\n2 1\n255\n255 127 0 0 0 0\n");
}

#[test]
fn generate_header_writes_large_sizes() {
    let canvas = Canvas::new(0, 0).with_pixels(Vec::new());
    assert_eq!(generate_header(&canvas), "P3\n0 0\n255");
    let wide = Canvas { width: 1234567890, height: 10, pixels: Vec::new() };
    assert_eq!(generate_header(&wide), "P3\n1234567890 10\n255");
}

#[test]
fn decode_reads_header_and_body() {
    let canvas = decode("P3\n2 1\n255\n255 127 0\n0 51 255\n").unwrap();
    assert_eq!(canvas.width, 2);
    assert_eq!(canvas.height, 1);
    assert_eq!(canvas.pixels, vec![hundredths(100, 50, 0), hundredths(0, 20, 100)]);
}

#[test]
fn decode_does_not_look_at_the_first_line() {
    let canvas = decode("anything at all\n1 1\n10\n1 5 10").unwrap();
    assert_eq!(canvas.pixels, vec![hundredths(10, 50, 100)]);
}

#[test]
fn decode_does_not_count_the_pixels() {
    let canvas = decode("P3\n5 5\n255\n255 255 255").unwrap();
    assert_eq!((canvas.width, canvas.height), (5, 5));
    assert_eq!(canvas.pixels.len(), 1);
}

#[test]
fn decode_and_encode_use_independent_scales() {
    let canvas = decode("P3\n1 1\n16\n16 4 8\n").unwrap();
    assert_eq!(encode(&canvas), "P3\n1 1\n255\n255 63 127\n");
}

#[test]
fn round_trip_reproduces_the_canvas() {
    let mut canvas = Canvas::new(3, 2);
    canvas.set_pixel(0, 0, hundredths(100, 0, 100));
    canvas.set_pixel(1, 0, hundredths(20, 40, 60));
    canvas.set_pixel(2, 0, hundredths(1, 50, 99));
    canvas.set_pixel(0, 1, hundredths(33, 67, 80));
    canvas.set_pixel(2, 1, hundredths(7, 13, 91));
    let decoded = decode(&encode(&canvas)).unwrap();
    assert_eq!(decoded.width, 3);
    assert_eq!(decoded.height, 2);
    assert_eq!(decoded.pixels, canvas.pixels);
}

#[test]
fn round_trip_holds_for_every_channel_in_range() {
    for value in 0..=100 {
        let channel = value * HUNDREDTH;
        assert_eq!(round_decimal(encode_channel(channel, OUTPUT_SCALE), OUTPUT_SCALE), channel);
    }
}

#[test]
fn round_trip_clamps_channels_out_of_range() {
    let mut canvas = Canvas::new(1, 1);
    canvas.set_pixel(0, 0, hundredths(150, -20, 100));
    let decoded = decode(&encode(&canvas)).unwrap();
    assert_eq!(decoded.pixels, vec![hundredths(100, 0, 100)]);
}

#[test]
fn round_trip_rounds_channels_to_hundredths() {
    let mut canvas = Canvas::new(1, 1);
    canvas.set_pixel(0, 0, Color::new(UNIT / 255, 128 * (UNIT / 255), 254 * (UNIT / 255)));
    assert_eq!(encode(&canvas), "P3\n1 1\n255\n1 128 254\n");
    let decoded = decode(&encode(&canvas)).unwrap();
    assert_eq!(decoded.pixels, vec![hundredths(0, 50, 100)]);
}

#[test]
fn round_trip_fails_on_a_canvas_without_cells() {
    assert_eq!(encode(&Canvas::new(0, 0)), "P3\n0 0\n255\n\n");
    assert_eq!(decode(&encode(&Canvas::new(0, 0))).err(), Some(DecodeError::InvalidNumber));
    assert_eq!(decode(&encode(&Canvas::new(0, 2))).err(), Some(DecodeError::InvalidNumber));
    assert_eq!(decode(&encode(&Canvas::new(2, 0))).err(), Some(DecodeError::InvalidNumber));
}

#[test]
fn missing_header_lines_are_reported() {
    assert_eq!(decode("").err(), Some(DecodeError::MissingHeaderLine));
    assert_eq!(decode("P3").err(), Some(DecodeError::MissingHeaderLine));
    assert_eq!(decode("P3\n2 2").err(), Some(DecodeError::MissingHeaderLine));
    assert_eq!(parse_header(&vec!["P3"]), Err(DecodeError::MissingHeaderLine));
    assert_eq!(parse_header(&vec!["P3", "2 2"]), Err(DecodeError::MissingHeaderLine));
    assert_eq!(parse_header(&Vec::new()), Err(DecodeError::MissingHeaderLine));
}

#[test]
fn malformed_dimensions_are_reported_before_a_missing_scale() {
    assert_eq!(parse_header(&vec!["P3", "2"]), Err(DecodeError::InvalidNumber));
    assert_eq!(parse_header(&vec!["P3", "two 2", "255"]), Err(DecodeError::InvalidNumber));
    assert_eq!(parse_header(&vec!["P3", "2 -2", "255"]), Err(DecodeError::InvalidNumber));
    assert_eq!(parse_header(&vec!["P3", "2  2", "255"]), Err(DecodeError::InvalidNumber));
    assert_eq!(parse_header(&vec!["P3", "", "255"]), Err(DecodeError::InvalidNumber));
    assert_eq!(
        parse_header(&vec!["P3", "99999999999999999999999 2", "255"]),
        Err(DecodeError::InvalidNumber)
    );
}

#[test]
fn malformed_scale_is_reported() {
    assert_eq!(parse_header(&vec!["P3", "2 2", "max"]), Err(DecodeError::InvalidNumber));
    assert_eq!(parse_header(&vec!["P3", "2 2", ""]), Err(DecodeError::InvalidNumber));
    assert_eq!(parse_header(&vec!["P3", "2 2", "255 "]), Err(DecodeError::InvalidNumber));
    assert_eq!(parse_header(&vec!["P3", "2 2", "4294967296"]), Err(DecodeError::InvalidNumber));
    assert_eq!(parse_header(&vec!["P3", "2 2", "4294967295"]), Ok((2, 2, u32::MAX)));
}

#[test]
fn header_numbers_may_carry_a_plus_sign_and_leading_zeros() {
    assert_eq!(parse_header(&vec!["P3", "+2 003 rest", "+0255"]), Ok((2, 3, 255)));
    assert_eq!(parse_header(&vec!["P3", "+ 3", "255"]), Err(DecodeError::InvalidNumber));
    assert_eq!(parse_header(&vec!["P3", "++2 3", "255"]), Err(DecodeError::InvalidNumber));
}

#[test]
fn malformed_channel_values_are_reported() {
    assert_eq!(decode("P3\n1 1\n255\n1 2 x").err(), Some(DecodeError::InvalidNumber));
    assert_eq!(decode("P3\n1 1\n255\n1  2 3").err(), Some(DecodeError::InvalidNumber));
    assert_eq!(decode("P3\n1 1\n255\n 1 2 3").err(), Some(DecodeError::InvalidNumber));
    assert_eq!(decode("P3\n1 1\n255\n1 2 3\r\n4 5 6\r\n").err(), Some(DecodeError::InvalidNumber));
    assert_eq!(decode("P3\n1 1\n255\n1 2 4294967296").err(), Some(DecodeError::InvalidNumber));
    assert_eq!(decode("P3\n1 1\n255\n1.5 2 3").err(), Some(DecodeError::InvalidNumber));
}

#[test]
fn an_empty_body_holds_one_empty_token() {
    assert_eq!(decode("P3\n1 1\n255").err(), Some(DecodeError::InvalidNumber));
    assert_eq!(decode("P3\n1 1\n255\n").err(), Some(DecodeError::InvalidNumber));
    assert_eq!(decode("P3\n1 1\n255\n\n \n").err(), Some(DecodeError::InvalidNumber));
    assert_eq!(parse_body(&vec!["P3", "1 1", "255"], 255), Err(DecodeError::InvalidNumber));
}

#[test]
fn a_body_that_is_not_in_threes_is_reported() {
    assert_eq!(decode("P3\n1 1\n255\n1 2").err(), Some(DecodeError::BodyLengthMismatch));
    assert_eq!(decode("P3\n1 1\n255\n1 2 3 4").err(), Some(DecodeError::BodyLengthMismatch));
    assert_eq!(
        parse_body(&vec!["", "", "", "1", "2 3", "4"], 255),
        Err(DecodeError::BodyLengthMismatch)
    );
}

#[test]
fn a_zero_scale_is_reported_last() {
    assert_eq!(decode("P3\n1 1\n0\n1 2 3").err(), Some(DecodeError::ZeroScale));
    assert_eq!(decode("P3\n1 1\n0\n1 2").err(), Some(DecodeError::BodyLengthMismatch));
    assert_eq!(decode("P3\n1 1\n0\n1 2 x").err(), Some(DecodeError::InvalidNumber));
    assert_eq!(parse_header(&vec!["P3", "1 1", "0"]), Ok((1, 1, 0)));
}

#[test]
fn trailing_whitespace_of_the_body_is_dropped() {
    let canvas = decode("P3\n1 1\n255\n0 51 255 \t\r\n\u{a0}\u{3000} \n\n").unwrap();
    assert_eq!(canvas.pixels, vec![hundredths(0, 20, 100)]);
}

#[test]
fn body_lines_are_joined_by_one_space() {
    let canvas = decode("P3\n1 2\n255\n0\n51\n255\n102 153\n204").unwrap();
    assert_eq!(canvas.pixels, vec![hundredths(0, 20, 100), hundredths(40, 60, 80)]);
}
