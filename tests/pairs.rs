use mandelbrot::{parse_pair, split_pair};

#[test]
fn test_parse_pair() {
    // T cannot be inferred
    assert_eq!(parse_pair::<u8>("3:", ':'), None);
    assert_eq!(parse_pair::<u16>(":4", ':'), None);
    assert_eq!(parse_pair::<u32>(":", ':'), None);
    // T can be inferred from Some((3,4))
    assert_eq!(parse_pair("3,4", ','), Some((3, 4)));
    assert_eq!(parse_pair("3:4", ':'), Some((3, 4)));
}

#[test]
fn parse_pair_reads_image_sizes() {
    assert_eq!(parse_pair::<usize>("1000x750", 'x'), Some((1000, 750)));
    assert_eq!(parse_pair::<usize>("1000750", 'x'), None);
    assert_eq!(parse_pair::<usize>("", 'x'), None);
}

#[test]
fn parse_pair_splits_at_the_first_separator() {
    assert_eq!(parse_pair::<u32>("1x2x3", 'x'), None);
    assert_eq!(split_pair("1x2x3", 'x'), Some(("1", "2x3")));
    assert_eq!(split_pair("x", 'x'), Some(("", "")));
    assert_eq!(split_pair("12", 'x'), None);
}

#[test]
fn parse_pair_respects_signs_and_ranges() {
    assert_eq!(parse_pair::<u8>("255,0", ','), Some((255, 0)));
    assert_eq!(parse_pair::<u8>("256,0", ','), None);
    assert_eq!(parse_pair::<u8>("+7,+8", ','), Some((7, 8)));
    assert_eq!(parse_pair::<u8>("-7,8", ','), None);
    assert_eq!(parse_pair::<u8>("+,8", ','), None);
    assert_eq!(parse_pair::<i32>("-7,8", ','), Some((-7, 8)));
    assert_eq!(parse_pair::<i32>("-2147483648,2147483647", ','), Some((i32::MIN, i32::MAX)));
    assert_eq!(parse_pair::<i32>("-2147483649,0", ','), None);
    assert_eq!(parse_pair::<i32>("-,0", ','), None);
    assert_eq!(parse_pair::<u64>("18446744073709551615,1", ','), Some((u64::MAX, 1)));
    assert_eq!(parse_pair::<u64>("18446744073709551616,1", ','), None);
    assert_eq!(parse_pair::<i64>("-9223372036854775808,9", ','), Some((i64::MIN, 9)));
    assert_eq!(parse_pair::<u16>(" 3,4", ','), None);
    assert_eq!(parse_pair::<u16>("3,4a", ','), None);
    assert_eq!(parse_pair::<u16>("007,65535", ','), Some((7, 65535)));
}

#[test]
fn parse_pair_agrees_with_from_str() {
    let samples = ["0", "+0", "-0", "12", "-12", "+", "-", "", "1_0", "99999", "65535", "65536", "4294967296", "x"];
    for s in samples.iter() {
        let text = format!("{},1", s);
        let expected_u16 = s.parse::<u16>().ok().map(|v| (v, 1u16));
        assert_eq!(parse_pair::<u16>(&text, ','), expected_u16, "u16 {}", s);
        let expected_i32 = s.parse::<i32>().ok().map(|v| (v, 1i32));
        assert_eq!(parse_pair::<i32>(&text, ','), expected_i32, "i32 {}", s);
        let expected_u32 = s.parse::<u32>().ok().map(|v| (v, 1u32));
        assert_eq!(parse_pair::<u32>(&text, ','), expected_u32, "u32 {}", s);
    }
}
