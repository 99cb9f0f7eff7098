use eyebrowse::error::DType;

#[test]
fn dtype_sizes() {
    assert_eq!(DType::F32.size(), 4);
    assert_eq!(DType::U32.size(), 4);
    assert_eq!(DType::I32.size(), 4);
    assert_eq!(DType::F16.size(), 2);
}
