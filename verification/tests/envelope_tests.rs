use field_cipher::envelope::{decode, encode};

#[test]
fn encode_of_nothing_is_the_empty_string() {
    assert_eq!(encode(&[]), "");
}

#[test]
fn encode_writes_each_byte_in_decimal() {
    assert_eq!(encode(&[0]), "0");
    assert_eq!(encode(&[7]), "7");
    assert_eq!(encode(&[10]), "10");
    assert_eq!(encode(&[99]), "99");
    assert_eq!(encode(&[100]), "100");
    assert_eq!(encode(&[255]), "255");
}

#[test]
fn encode_joins_with_a_slash_and_leaves_none_at_the_ends() {
    assert_eq!(encode(&[1, 22, 255]), "1/22/255");
    assert_eq!(encode(&[0, 0]), "0/0");
    assert_eq!(encode(&[104, 105]), "104/105");
}

#[test]
fn encode_agrees_with_the_standard_formatting_of_a_byte() {
    for b in 0..=255u8 {
        assert_eq!(encode(&[b]), b.to_string());
    }
}

#[test]
fn decode_reads_the_bytes_in_order() {
    assert_eq!(decode("1/22/255"), Some(vec![1, 22, 255]));
    assert_eq!(decode("0"), Some(vec![0]));
    assert_eq!(decode("0/0/0"), Some(vec![0, 0, 0]));
}

#[test]
fn decode_refuses_the_empty_string() {
    assert_eq!(decode(""), None);
}

#[test]
fn decode_refuses_an_empty_fragment() {
    assert_eq!(decode("/"), None);
    assert_eq!(decode("1//2"), None);
    assert_eq!(decode("/1"), None);
    assert_eq!(decode("1/"), None);
}

#[test]
fn decode_refuses_a_number_above_255() {
    assert_eq!(decode("256"), None);
    assert_eq!(decode("1/1000/2"), None);
    assert_eq!(decode("99999999999999999999999999"), None);
}

#[test]
fn decode_refuses_what_is_no_number() {
    assert_eq!(decode("a"), None);
    assert_eq!(decode("1/x/2"), None);
    assert_eq!(decode("-1"), None);
    assert_eq!(decode(" 1"), None);
    assert_eq!(decode("1 "), None);
    assert_eq!(decode("0x10"), None);
    assert_eq!(decode("1_0"), None);
    assert_eq!(decode("\u{e9}"), None);
    assert_eq!(decode("1/\u{663}"), None);
}

#[test]
fn decode_takes_a_plus_sign_and_leading_zeros() {
    assert_eq!(decode("+5"), Some(vec![5]));
    assert_eq!(decode("007"), Some(vec![7]));
    assert_eq!(decode("+0255/000"), Some(vec![255, 0]));
    assert_eq!(decode("+"), None);
    assert_eq!(decode("++5"), None);
    assert_eq!(decode("5+"), None);
    assert_eq!(decode("1/+"), None);
}

#[test]
fn decode_of_one_fragment_agrees_with_the_standard_parser() {
    let fragments = [
        "", "0", "9", "10", "255", "256", "300", "0255", "00000000000", "+1", "+", "-0", "+-1",
        "1a", "a1", " 1", "12 ", "2_5", "٣", "1e1", "0.5", "99", "100", "+255", "+256",
    ];
    for f in fragments {
        let expected = f.parse::<u8>().ok().map(|b| vec![b]);
        assert_eq!(decode(f), expected, "fragment {:?}", f);
    }
}

#[test]
fn decode_gives_back_every_single_byte() {
    for b in 0..=255u8 {
        assert_eq!(decode(&encode(&[b])), Some(vec![b]));
    }
}

#[test]
fn decode_gives_back_what_was_encoded() {
    let all: Vec<u8> = (0..=255u8).collect();
    assert_eq!(decode(&encode(&all)), Some(all));
    let mixed = vec![0u8, 255, 1, 100, 99, 10, 9, 0, 0, 200];
    assert_eq!(decode(&encode(&mixed)), Some(mixed));
}

#[test]
fn decode_does_not_give_back_the_empty_byte_string() {
    assert_eq!(decode(&encode(&[])), None);
}
