use vision::io::depth::{depth_rows_in_order, depth_tokens};
use vision::io::intrinsics::intrinsics_number_texts;
use vision::io::names::{has_extension, image_number_of, order_images_by_number};
use vision::io::text::{is_f64_literal_text, is_white_space_char, parse_i32, parse_usize, split_on, trim};
use vision::io::{closest_ts_index, is_float_literal_text, parse_to_float, MAX_DELTA_KEY};

fn chars(s: &str) -> Vec<char> {
    s.chars().collect()
}

fn delta_keys(ts: f64, list: &[f64]) -> Vec<u64> {
    list.iter().map(|t| (ts - t).abs().to_bits()).collect()
}

#[test]
fn max_delta_key_is_the_key_of_the_largest_float() {
    assert_eq!(MAX_DELTA_KEY, f64::MAX.to_bits());
}

#[test]
fn closest_timestamp_in_sorted_list() {
    let list = vec![1.0, 2.0, 3.0, 4.0, 5.0];
    assert_eq!(closest_ts_index(&delta_keys(2.9, &list)), 2);
    assert_eq!(closest_ts_index(&delta_keys(0.0, &list)), 0);
    assert_eq!(closest_ts_index(&delta_keys(100.0, &list)), 4);
    assert_eq!(closest_ts_index(&delta_keys(3.0, &list)), 2);
}

#[test]
fn closest_timestamp_keeps_the_first_of_equal_distances() {
    let list = vec![1.0, 2.0, 3.0];
    assert_eq!(closest_ts_index(&delta_keys(1.5, &list)), 0);
}

#[test]
fn closest_timestamp_with_infinite_first_distance_is_last() {
    let list = vec![f64::INFINITY, 2.0, 3.0];
    assert_eq!(closest_ts_index(&delta_keys(2.0, &list)), 2);
}

#[test]
fn closest_timestamp_with_nan_distance_stops() {
    let list = vec![1.0, f64::NAN, 0.5];
    assert_eq!(closest_ts_index(&delta_keys(0.4, &list)), 0);
}

#[test]
fn trims_unicode_white_space() {
    assert_eq!(trim(&chars(" \t1.5\u{3000}\n")), chars("1.5"));
    assert_eq!(trim(&chars("   ")), chars(""));
    assert_eq!(trim(&chars("a b")), chars("a b"));
    assert!(is_white_space_char('\u{85}'));
    assert!(!is_white_space_char('x'));
}

#[test]
fn splits_at_every_separator() {
    assert_eq!(split_on(&chars("1e5"), 'e'), vec![chars("1"), chars("5")]);
    assert_eq!(split_on(&chars("1e5e"), 'e'), vec![chars("1"), chars("5"), chars("")]);
    assert_eq!(split_on(&chars(""), 'e'), vec![chars("")]);
}

#[test]
fn parses_i32_like_std() {
    for s in ["0", "+5", "-5", "-", "+", "", "2147483647", "2147483648", "-2147483648",
              "-2147483649", "12a", "007", " 1", "99999999999999999999"] {
        assert_eq!(parse_i32(&chars(s)), s.parse::<i32>().ok(), "{}", s);
    }
}

#[test]
fn splits_float_literals() {
    let lit = parse_to_float(&chars("  1.5e-3 "), true);
    assert!(lit.negate);
    assert_eq!(lit.mantissa, chars("1.5"));
    assert_eq!(lit.exponent, Some(-3));

    let lit = parse_to_float(&chars("2.25"), false);
    assert!(!lit.negate);
    assert_eq!(lit.mantissa, chars("2.25"));
    assert_eq!(lit.exponent, None);
}

#[test]
fn recognises_float_literal_shapes() {
    assert!(is_float_literal_text(&chars("1.0e10")));
    assert!(is_float_literal_text(&chars("1.0")));
    assert!(!is_float_literal_text(&chars("1e2e3")));
    assert!(!is_float_literal_text(&chars("1ex")));
}

#[test]
fn closest_timestamp_is_the_minimum_for_falling_then_rising_distances() {
    let keys: Vec<u64> = vec![9, 7, 4, 2, 3, 3, 8];
    let idx = closest_ts_index(&keys);
    assert_eq!(idx, 3);
    assert!(keys.iter().all(|&k| keys[idx] <= k));
}

#[test]
fn recognises_floats_like_std() {
    for s in ["1", "1.", ".5", "1.5", "+1.5", "-0.0", ".", "", "+", "-", "abc", "1E5", "1E+5",
              "1E-5", "1E", "1E+", "1.2.3", "inf", "-Inf", "+INFINITY", "infinity", "nan", "NaN",
              "-nan", "infinit", "in", " 1", "1 ", "1_0", "E5", ".E5", "5.E3", "0x10", "1e5",
              "++1", "1E5E6", "٣"] {
        assert_eq!(is_f64_literal_text(&chars(s)), s.parse::<f64>().is_ok(), "{}", s);
    }
}

#[test]
fn rejects_texts_that_are_not_numbers() {
    assert!(!is_float_literal_text(&chars("abc")));
    assert!(!is_float_literal_text(&chars("")));
    assert!(!is_float_literal_text(&chars("e5")));
    assert!(!is_float_literal_text(&chars("1e2.5")));
    assert!(is_float_literal_text(&chars(" -1.5E2e3 ")));
}

fn texts(tokens: &[Vec<char>]) -> Vec<String> {
    tokens.iter().map(|t| t.iter().collect()).collect()
}

#[test]
fn depth_text_splits_at_spaces_commas_and_line_breaks() {
    let tokens = depth_tokens(&chars("  1,2 3\n4,5,6\n"));
    assert_eq!(texts(&tokens), vec!["1", "2", "3", "4", "5", "6"]);
}

#[test]
fn depth_text_keeps_empty_values_between_adjacent_separators() {
    let tokens = depth_tokens(&chars("1, 2"));
    assert_eq!(texts(&tokens), vec!["1", "", "2"]);
}

#[test]
fn depth_rows_keep_their_order_when_not_flipped() {
    let values = vec![1, 2, 3, 4, 5, 6];
    assert_eq!(depth_rows_in_order(&values, 3, 2, false), vec![1, 2, 3, 4, 5, 6]);
}

#[test]
fn depth_rows_are_flipped_vertically() {
    let values = vec![1, 2, 3, 4, 5, 6];
    assert_eq!(depth_rows_in_order(&values, 3, 2, true), vec![4, 5, 6, 1, 2, 3]);
    assert_eq!(depth_rows_in_order(&values, 2, 3, true), vec![5, 6, 3, 4, 1, 2]);
}

#[test]
fn parses_unsigned_integers_like_std() {
    for text in ["0", "42", "+5", "007", "-0", "-3", "", "+", "1 ", "1_000", "x1"] {
        assert_eq!(parse_usize(&chars(text)), text.parse::<usize>().ok(), "{}", text);
    }
    let max = usize::MAX.to_string();
    assert_eq!(parse_usize(&chars(&max)), Some(usize::MAX));
    let over = format!("{}0", usize::MAX);
    assert_eq!(parse_usize(&chars(&over)), None);
}

#[test]
fn image_number_is_the_second_field_of_the_name() {
    assert_eq!(image_number_of(&chars("img_12.png")), Some(12));
    assert_eq!(image_number_of(&chars("frame_0003_left.png")), Some(3));
    assert_eq!(image_number_of(&chars("a.+7.jpg")), Some(7));
    assert_eq!(image_number_of(&chars("img.png")), None);
    assert_eq!(image_number_of(&chars("img")), None);
    assert_eq!(image_number_of(&chars("img_-1.png")), None);
}

#[test]
fn images_are_ordered_by_the_number_in_their_name() {
    let names: Vec<Vec<char>> = ["img_10.png", "img_2.png", "img_7.png", "img_2.PNG"].iter().map(|n| chars(n)).collect();
    assert_eq!(order_images_by_number(&names), Some(vec![1, 3, 2, 0]));
}

#[test]
fn images_without_a_number_cannot_be_ordered() {
    let names: Vec<Vec<char>> = ["img_1.png", "cover.png"].iter().map(|n| chars(n)).collect();
    assert_eq!(order_images_by_number(&names), None);
    assert_eq!(order_images_by_number(&Vec::new()), Some(Vec::new()));
}

#[test]
fn trimmed_and_untrimmed_numbers_read_alike() {
    for text in ["  1.5e-3 ", "\t-2E2e4\n", "7"] {
        for negate in [false, true] {
            let raw = parse_to_float(&chars(text), negate);
            let pre_trimmed = parse_to_float(&chars(text.trim()), negate);
            assert_eq!(raw.negate, pre_trimmed.negate);
            assert_eq!(raw.mantissa, pre_trimmed.mantissa);
            assert_eq!(raw.exponent, pre_trimmed.exponent);
        }
        let positive = parse_to_float(&chars(text), false);
        let negative = parse_to_float(&chars(text), true);
        assert!(!positive.negate && negative.negate);
        assert_eq!(positive.mantissa, negative.mantissa);
        assert_eq!(positive.exponent, negative.exponent);
    }
    assert_eq!(is_float_literal_text(&chars(" 1e2 ")), is_float_literal_text(&chars("1e2")));
}

fn wanted(name: &str, ext: &str) -> bool {
    has_extension(&chars(name), &chars(&ext.to_lowercase()), &chars(&ext.to_uppercase()))
}

fn wanted_by_path(name: &str, ext: &str) -> bool {
    match std::path::Path::new(name).extension() {
        Some(v) => v.to_str().unwrap().ends_with(&ext.to_uppercase()) || v.to_str().unwrap().ends_with(&ext.to_lowercase()),
        None => false,
    }
}

#[test]
fn image_files_are_chosen_by_extension_like_path() {
    for name in ["img_1.png", "img_1.PNG", "img_1.Png", "img.tar.png", ".png", "png", "a.xpng", "a.png.txt", "a.", "..foo", "..", "noext"] {
        assert_eq!(wanted(name, "png"), wanted_by_path(name, "png"), "{}", name);
    }
    assert!(wanted("img_1.png", "png"));
    assert!(wanted("img_1.PNG", "png"));
    assert!(!wanted("img_1.Png", "png"));
    assert!(!wanted(".png", "png"));
    assert!(wanted("a.", ""));
    assert!(!wanted("..", ""));
}

fn intrinsics_texts_by_std(contents: &str) -> Vec<String> {
    contents.trim().split(|c: char| !c.is_numeric()).filter(|s| s.parse::<f64>().is_ok()).map(|s| s.to_string()).collect()
}

#[test]
fn intrinsics_numbers_are_the_numeric_runs_that_parse() {
    for contents in ["fx: 525.0 fy: 525.5\ncx 319.5 cy 239.5\n", " 12 x\u{b2}3 \u{216b} 4 ", "", "abc", "7"] {
        let texts = intrinsics_number_texts(&chars(contents));
        let as_strings: Vec<String> = texts.iter().map(|t| t.iter().collect()).collect();
        assert_eq!(as_strings, intrinsics_texts_by_std(contents), "{:?}", contents);
    }
    let texts = intrinsics_number_texts(&chars("fx: 525.0 fy: 525.5"));
    let as_strings: Vec<String> = texts.iter().map(|t| t.iter().collect()).collect();
    assert_eq!(as_strings, vec!["525", "0", "525", "5"]);
}
