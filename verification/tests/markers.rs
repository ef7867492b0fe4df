use tstr::asserts::assert_equal;
use tstr::asserts::check_round_trip;
use tstr::utils::bytes_cmp;
use tstr::utils::bytes_eq;
use tstr::StrOrdering;
use tstr::TStr;

#[test]
fn text_round_trips_through_marker() {
    let text = b"hello world".to_vec();
    let marker = TStr::from_bytes(&text);
    assert_eq!(marker.text_of(), text);
    assert!(check_round_trip(&text));
}

#[test]
fn arbitrary_bytes_round_trip() {
    let text = vec![0u8, 255, 10, 128, 7];
    let marker = TStr::from_bytes(&text);
    assert_eq!(marker.text_of(), text);
    assert!(check_round_trip(&text));
}

#[test]
fn same_text_gives_equal_markers() {
    let a = TStr::from_bytes(&b"name".to_vec());
    let b = TStr::from_bytes(&b"name".to_vec());
    assert!(a.tstr_eq(&b));
    assert!(assert_equal(&a, &b).is_ok());
}

#[test]
fn different_texts_give_unequal_markers() {
    let a = TStr::from_bytes(&b"name".to_vec());
    let b = TStr::from_bytes(&b"surname".to_vec());
    assert!(!a.tstr_eq(&b));
    assert_eq!(a.tstr_cmp(&b), StrOrdering::Less);
    assert_eq!(b.tstr_cmp(&a), StrOrdering::Greater);
}

#[test]
fn number_and_its_spelling_give_the_same_marker() {
    let from_number = TStr::from_uint(123);
    let from_text = TStr::from_bytes(&b"123".to_vec());
    assert!(from_number.tstr_eq(&from_text));
    assert_eq!(from_number.text_of(), b"123".to_vec());
}

#[test]
fn zero_spells_as_one_digit() {
    let marker = TStr::from_uint(0);
    assert_eq!(marker.text_of(), b"0".to_vec());
    assert_eq!(marker.len(), 1);
}

#[test]
fn empty_text_gives_empty_marker() {
    let empty = Vec::new();
    let marker = TStr::from_bytes(&empty);
    assert_eq!(marker.len(), 0);
    assert_eq!(marker.text_of(), empty);
    assert!(check_round_trip(&empty));
}

#[test]
fn mismatched_claim_reports_both_texts() {
    let a = TStr::from_bytes(&b"a".to_vec());
    let b = TStr::from_bytes(&b"b".to_vec());
    match assert_equal(&a, &b) {
        Ok(()) => panic!("markers for different texts were claimed equal"),
        Err(e) => {
            assert_eq!(e.left, b"a".to_vec());
            assert_eq!(e.right, b"b".to_vec());
        },
    }
}

#[test]
fn ordering_is_lexicographic_with_prefix_rule() {
    let name = TStr::from_bytes(&b"name".to_vec());
    let names = TStr::from_bytes(&b"names".to_vec());
    assert_eq!(name.tstr_cmp(&names), StrOrdering::Less);
    assert_eq!(names.tstr_cmp(&name), StrOrdering::Greater);
    assert_eq!(name.tstr_cmp(&name), StrOrdering::Equal);

    let abc = TStr::from_bytes(&b"abc".to_vec());
    let abd = TStr::from_bytes(&b"abd".to_vec());
    assert_eq!(abc.tstr_cmp(&abd), StrOrdering::Less);
}

#[test]
fn ordering_chains_transitively_on_examples() {
    let a = TStr::from_bytes(&b"apple".to_vec());
    let b = TStr::from_bytes(&b"banana".to_vec());
    let c = TStr::from_bytes(&b"cherry".to_vec());
    assert_eq!(a.tstr_cmp(&b), StrOrdering::Less);
    assert_eq!(b.tstr_cmp(&c), StrOrdering::Less);
    assert_eq!(a.tstr_cmp(&c), StrOrdering::Less);
}

#[test]
fn byte_comparisons_match_marker_comparisons() {
    assert!(bytes_eq(&b"same".to_vec(), &b"same".to_vec()));
    assert!(!bytes_eq(&b"same".to_vec(), &b"sane".to_vec()));
    assert_eq!(
        bytes_cmp(&b"ab".to_vec(), &b"b".to_vec()),
        StrOrdering::Less
    );
    assert_eq!(bytes_cmp(&b"".to_vec(), &b"a".to_vec()), StrOrdering::Less);
    assert_eq!(bytes_cmp(&b"a".to_vec(), &b"".to_vec()), StrOrdering::Greater);
    assert_eq!(bytes_cmp(&b"".to_vec(), &b"".to_vec()), StrOrdering::Equal);
}

#[test]
fn large_numbers_spell_out_fully() {
    let marker = TStr::from_uint(100000000000000000000000000000000000000u128);
    let mut expected = b"1".to_vec();
    for _ in 0..38 {
        expected.push(b'0');
    }
    assert_eq!(marker.text_of(), expected);
    assert_eq!(marker.len(), 39);
}
