use paperpack::fonts::metric_identifier;

#[test]
fn test_identifier() {
    let input = b"HelloWorld".to_vec();
    assert_eq!(b"HELLO_WORLD".to_vec(), metric_identifier(&input));
}

#[test]
fn identifier_of_plain_and_mixed_names() {
    assert_eq!(b"COURIER".to_vec(), metric_identifier(&b"Courier".to_vec()));
    assert_eq!(
        b"HELVETICA_BOLD".to_vec(),
        metric_identifier(&b"HelveticaBold".to_vec())
    );
    assert_eq!(b"".to_vec(), metric_identifier(&b"".to_vec()));
    assert_eq!(b"A_B".to_vec(), metric_identifier(&b"AB".to_vec()));
    assert_eq!(
        b"TIMES2".to_vec(),
        metric_identifier(&b"times2".to_vec())
    );
}
