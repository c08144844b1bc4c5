#[test]
fn empty_input_yields_empty_output() {
    assert!(lzhuf::decompress(&[], 1024).is_empty());
}
