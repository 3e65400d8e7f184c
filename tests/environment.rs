use pattern_parser::interpreter::{PrimativeArray, Stack};
use pattern_parser::source::ByteSource;
use pattern_parser::values::{dtype_width, DType, Endianness};

#[test]
fn stack_lookup_searches_innermost_first() {
    let mut s = Stack::new();
    s.add_layer();
    s.set_var("a".to_string(), PrimativeArray::U8(vec![1]));
    s.add_layer();
    assert!(matches!(s.get_var(&"a".to_string()), Some(PrimativeArray::U8(v)) if *v == vec![1]));
    s.set_var("a".to_string(), PrimativeArray::U16(vec![2]));
    assert!(matches!(s.get_var(&"a".to_string()), Some(PrimativeArray::U16(v)) if *v == vec![2]));
    s.set_var("a".to_string(), PrimativeArray::U32(vec![3]));
    assert!(matches!(s.get_var(&"a".to_string()), Some(PrimativeArray::U32(v)) if *v == vec![3]));
    s.remove_layer();
    assert!(matches!(s.get_var(&"a".to_string()), Some(PrimativeArray::U8(v)) if *v == vec![1]));
    assert!(s.get_var(&"b".to_string()).is_none());
    s.remove_layer();
    assert_eq!(s.depth(), 0);
    assert!(s.get_var(&"a".to_string()).is_none());
}

#[test]
fn byte_source_reads_forward() {
    let mut src = ByteSource::new(vec![1, 2, 3, 4]);
    assert!(src.has_more());
    assert_eq!(src.next(), Some(1));
    assert_eq!(src.take(5), None);
    assert_eq!(src.remaining(), 3);
    assert_eq!(src.take(2), Some(vec![2, 3]));
    assert_eq!(src.take(0), Some(vec![]));
    assert_eq!(src.next(), Some(4));
    assert!(!src.has_more());
    assert_eq!(src.next(), None);
}

#[test]
fn from_chunked_array_decodes_whole_chunks() {
    let a = PrimativeArray::from_chunked_array(vec![1, 2, 3, 4, 5], DType::U16(Endianness::Little));
    assert!(matches!(a, PrimativeArray::U16(v) if v == vec![0x0201, 0x0403]));
    let a = PrimativeArray::from_chunked_array(vec![0xAB, 0xCD], DType::Char);
    assert!(matches!(a, PrimativeArray::Char(v) if v == vec![0xAB, 0xCD]));
    let a = PrimativeArray::from_chunked_array(vec![0, 0, 0, 0, 0, 0, 1, 0], DType::U64(Endianness::Big));
    assert!(matches!(a, PrimativeArray::U64(v) if v == vec![256]));
}

#[test]
fn widths_of_types() {
    assert_eq!(dtype_width(DType::U8), 1);
    assert_eq!(dtype_width(DType::Char), 1);
    assert_eq!(dtype_width(DType::U16(Endianness::Big)), 2);
    assert_eq!(dtype_width(DType::U32(Endianness::Big)), 4);
    assert_eq!(dtype_width(DType::U64(Endianness::Little)), 8);
    assert_eq!(dtype_width(DType::U128(Endianness::Little)), 16);
}

#[test]
fn duplicate_copies_the_elements() {
    let a = PrimativeArray::U32(vec![7, 8]);
    assert!(matches!(a.duplicate(), PrimativeArray::U32(v) if v == vec![7, 8]));
}
