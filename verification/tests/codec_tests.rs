use prefix_lookup::codec::bool_vec_from_str;
use prefix_lookup::codec::str_from_bool_slice;

#[test]
fn encode_maps_digits_to_bits() {
    assert_eq!(bool_vec_from_str("").unwrap(), Vec::<bool>::new());
    assert_eq!(bool_vec_from_str("0").unwrap(), vec![false]);
    assert_eq!(bool_vec_from_str("1").unwrap(), vec![true]);
    assert_eq!(
        bool_vec_from_str("0110").unwrap(),
        vec![false, true, true, false]
    );
}

#[test]
fn encode_rejects_unknown_symbols() {
    assert!(bool_vec_from_str("2").is_err());
    assert!(bool_vec_from_str("01a").is_err());
    assert!(bool_vec_from_str("x01").is_err());
    assert!(bool_vec_from_str("01 0").is_err());
    // Nothing is silently coerced: one bad character fails the whole string.
    assert!(bool_vec_from_str("111101111b").is_err());
}

#[test]
fn decode_emits_bits_in_reverse_order() {
    assert_eq!(str_from_bool_slice(&[]), "");
    assert_eq!(str_from_bool_slice(&[true]), "1");
    assert_eq!(str_from_bool_slice(&[true, true, false]), "011");
    assert_eq!(
        str_from_bool_slice(&[false, false, false, false, true, false, false, true]),
        "10010000"
    );
}

#[test]
fn encode_then_decode_reverses() {
    let v = bool_vec_from_str("00110").unwrap();
    assert_eq!(str_from_bool_slice(&v), "01100");
}
