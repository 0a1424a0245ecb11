use polyline_codec::{decode, encode, InvalidEncodingError, LatLng};

fn degrees(path: &[LatLng], precision: u32) -> Vec<(f64, f64)> {
    let factor = 10_f64.powi(precision as i32);
    path.iter().map(|p| (p.0 as f64 / factor, p.1 as f64 / factor)).collect()
}

#[test]
fn test_decodes_to_an_empty_array() {
    let v: Vec<LatLng> = vec![];
    assert_eq!(decode("", 5).unwrap(), v);
}

#[test]
fn test_decodes_a_string_into_a_vec_of_lat_lng_pairs() {
    let path = decode("_p~iF~ps|U_ulLnnqC_mqNvxq`@", 5).unwrap();
    assert_eq!(
        degrees(&path, 5),
        vec![(38.5, -120.2), (40.7, -120.95), (43.252, -126.453)]
    );
    assert_eq!(
        path,
        vec![
            LatLng(3850000, -12020000),
            LatLng(4070000, -12095000),
            LatLng(4325200, -12645300)
        ]
    );
}

#[test]
fn test_decodes_with_precision_0() {
    let path = decode("mAnFC@CH", 0).unwrap();
    assert_eq!(
        degrees(&path, 0),
        vec![(39.0, -120.0), (41.0, -121.0), (43.0, -126.0)]
    );
    assert_eq!(path, &[(39, -120), (41, -121), (43, -126)]);
}

#[test]
fn decode_is_empty_at_every_precision() {
    for precision in [0, 1, 5, 6, 7, 18, 19, u32::MAX] {
        assert_eq!(decode("", precision).unwrap(), Vec::<LatLng>::new());
    }
}

#[test]
fn decode_does_not_depend_on_precision() {
    let at_five = decode("_p~iF~ps|U_ulLnnqC_mqNvxq`@", 5).unwrap();
    let at_six = decode("_p~iF~ps|U_ulLnnqC_mqNvxq`@", 6).unwrap();
    assert_eq!(at_five, at_six);
}

#[test]
fn decode_reads_single_characters() {
    assert_eq!(decode("??", 5).unwrap(), vec![LatLng(0, 0)]);
    assert_eq!(decode("@A", 5).unwrap(), vec![LatLng(-1, 1)]);
    assert_eq!(decode("^]", 5).unwrap(), vec![LatLng(-16, 15)]);
    assert_eq!(decode("_@`@", 5).unwrap(), vec![LatLng(16, -17)]);
}

#[test]
fn decode_accumulates_differences() {
    assert_eq!(
        decode("AAAA@@", 5).unwrap(),
        vec![LatLng(1, 1), LatLng(2, 2), LatLng(1, 1)]
    );
}

#[test]
fn decode_rejects_a_chunk_cut_short() {
    let cut = "_p~iF~ps|";
    let e: InvalidEncodingError = decode(cut, 5).unwrap_err();
    assert_eq!(e.encoded_path, cut);
}

#[test]
fn decode_rejects_a_latitude_without_longitude() {
    let e = decode("_p~iF", 5).unwrap_err();
    assert_eq!(e.encoded_path, "_p~iF");
    assert!(decode("?", 5).is_err());
    assert!(decode("???", 5).is_err());
}

#[test]
fn decode_rejects_a_lone_continuation() {
    assert!(decode("_", 5).is_err());
    assert!(decode("?_", 5).is_err());
    assert!(decode("~~~~", 5).is_err());
}

#[test]
fn decode_fails_on_every_cut_inside_a_position() {
    let whole = "_p~iF~ps|U_ulLnnqC_mqNvxq`@";
    let path = decode(whole, 5).unwrap();
    let mut ends = vec![0];
    for j in 1..=path.len() {
        ends.push(encode(&path[..j], 5).unwrap().len());
    }
    assert_eq!(ends, vec![0, 10, 18, 27]);
    for k in 0..=whole.len() {
        let r = decode(&whole[..k], 5);
        match ends.iter().position(|&e| e == k) {
            Some(j) => assert_eq!(r.unwrap(), path[..j].to_vec()),
            None => assert_eq!(r.unwrap_err().encoded_path, &whole[..k]),
        }
    }
}

#[test]
fn decode_rejects_characters_outside_ascii() {
    let e = decode("??\u{e9}", 5).unwrap_err();
    assert_eq!(e.encoded_path, "??\u{e9}");
    assert!(decode("\u{e9}??", 5).is_err());
    assert!(decode("?\u{20ac}?", 5).is_err());
}

#[test]
fn decode_counts_low_characters_as_negative_digits() {
    assert_eq!(decode(" ?", 5).unwrap(), vec![LatLng(15, 0)]);
    assert_eq!(decode(">?", 5).unwrap(), vec![LatLng(0, 0)]);
    assert_eq!(decode("_>?", 5).unwrap(), vec![LatLng(-16, 0)]);
}

#[test]
fn decode_counts_the_character_above_the_alphabet_as_thirty_two() {
    assert_eq!(decode("\u{7f}??", 5).unwrap(), vec![LatLng(16, 0)]);
    assert_eq!(decode("\u{7f}>?", 5).unwrap(), vec![LatLng(0, 0)]);
}

#[test]
fn decode_accepts_empty_high_groups() {
    assert_eq!(decode("____________________?@", 5).unwrap(), vec![LatLng(0, -1)]);
    assert_eq!(
        decode("A___________________________________________?", 5).unwrap(),
        vec![LatLng(1, 0)]
    );
}

#[test]
fn decode_rejects_a_coordinate_beyond_64_bits() {
    let long = "~~~~~~~~~~~~~~~~~~~~~~~~~~~~~~~~~~~~~~~~?".to_string() + "?";
    assert_eq!(decode(&long, 5).unwrap_err().encoded_path, long);
    let max = encode(&[(i64::MAX, 0)], 19).unwrap();
    assert_eq!(decode(&max, 19).unwrap(), vec![LatLng(i64::MAX, 0)]);
    let beyond = max.clone() + "A?";
    assert_eq!(decode(&beyond, 19).unwrap_err().encoded_path, beyond);
    let min = encode(&[(i64::MIN, 0)], 19).unwrap();
    assert_eq!(decode(&min, 19).unwrap(), vec![LatLng(i64::MIN, 0)]);
    let below = min.clone() + "@?";
    assert!(decode(&below, 19).is_err());
}

#[test]
fn decode_does_not_check_the_range() {
    let far = encode(&[(9_100_000, 18_100_000)], 6).unwrap();
    assert_eq!(decode(&far, 5).unwrap(), vec![LatLng(9_100_000, 18_100_000)]);
}

#[test]
fn invalid_encoding_message() {
    let e = decode("_", 5).unwrap_err();
    assert_eq!(e.message(), "error: invalid encoding: _");
    let empty = InvalidEncodingError { encoded_path: String::new() };
    assert_eq!(empty.message(), "error: invalid encoding: ");
}
