use pattern_parser::interpreter::{evaluate, process_bytes, Data, PrimativeArray, Stack};
use pattern_parser::parser::{compile_pattern, Count, DType, Endianness, Expr};
use pattern_parser::semantics::EvalError;
use pattern_parser::source::ByteSource;

fn run(pattern: &str, bytes: &[u8]) -> (Result<Data, EvalError>, usize) {
    let p = compile_pattern(pattern).unwrap();
    let mut src = ByteSource::new(bytes.to_vec());
    let r = evaluate(&p, &mut src);
    (r, src.remaining())
}

fn list(d: &Data) -> &Vec<Data> {
    match d {
        Data::List(v) => v,
        Data::Primative(_) => panic!("expected a group, got {:?}", d),
    }
}

fn array(d: &Data) -> &PrimativeArray {
    match d {
        Data::Primative(a) => a,
        Data::List(_) => panic!("expected an array, got {:?}", d),
    }
}

#[test]
fn identifier_count_resolves_end_to_end() {
    let (r, left) = run("u32le 1 width u8 width height", &[4, 0, 0, 0, 0xAA, 0xBB, 0xCC, 0xDD]);
    let d = r.unwrap();
    let top = list(&d);
    assert_eq!(top.len(), 2);
    assert!(matches!(array(&top[0]), PrimativeArray::U32(v) if *v == vec![4]));
    assert!(matches!(array(&top[1]), PrimativeArray::U8(v) if *v == vec![0xAA, 0xBB, 0xCC, 0xDD]));
    assert_eq!(left, 0);
}

#[test]
fn take_over_runs_once_per_element_in_order() {
    let (r, left) = run(
        "u8 2 lengths TAKE_OVER lengths i { u8 i _ }",
        &[2, 3, 0xAA, 0xBB, 0xCC, 0xDD, 0xEE],
    );
    let d = r.unwrap();
    let top = list(&d);
    let reps = list(&top[1]);
    assert_eq!(reps.len(), 2);
    assert!(matches!(array(&list(&reps[0])[0]), PrimativeArray::U8(v) if *v == vec![0xAA, 0xBB]));
    assert!(
        matches!(array(&list(&reps[1])[0]), PrimativeArray::U8(v) if *v == vec![0xCC, 0xDD, 0xEE])
    );
    assert_eq!(left, 0);
}

#[test]
fn take_over_fails_on_second_element_when_bytes_run_out() {
    let (r, _) = run("u8 2 lengths TAKE_OVER lengths i { u8 i _ }", &[2, 3, 0xAA, 0xBB, 0xCC]);
    match r.unwrap_err() {
        EvalError::DeclarationFailure { index: 1, cause } => match *cause {
            EvalError::RepetitionFailure { index: 1, cause } => match *cause {
                EvalError::DeclarationFailure { index: 0, cause } => match *cause {
                    EvalError::SourceExhausted { needed: 3, available: 1 } => {}
                    other => panic!("unexpected cause {:?}", other),
                },
                other => panic!("unexpected cause {:?}", other),
            },
            other => panic!("unexpected cause {:?}", other),
        },
        other => panic!("unexpected error {:?}", other),
    }
}

#[test]
fn loop_variable_is_gone_after_take_over() {
    let (r, _) = run("u8 1 n TAKE_OVER n i { } u8 i x", &[1, 5]);
    let e = r.unwrap_err();
    assert!(matches!(e.root_cause(), EvalError::UnboundName(s) if s == "i"));
}

#[test]
fn endianness_and_widths_decode_exactly() {
    let bytes = [
        0x01, 0x02, // u16be
        0x01, 0x02, // u16le
        0x01, 0x02, 0x03, 0x04, // u32be
        0x01, 0x02, 0x03, 0x04, 0x05, 0x06, 0x07, 0x08, // u64le
        0x01, 0x00, 0x00, 0x00, 0x00, 0x00, 0x00, 0x00, 0x00, 0x00, 0x00, 0x00, 0x00, 0x00, 0x00,
        0xFF, // u128be
        0x41, // char
    ];
    let (r, left) = run("u16be 1 a u16le 1 b u32be 1 c u64le 1 d u128be 1 e char 1 f", &bytes);
    let d = r.unwrap();
    let top = list(&d);
    assert!(matches!(array(&top[0]), PrimativeArray::U16(v) if *v == vec![0x0102]));
    assert!(matches!(array(&top[1]), PrimativeArray::U16(v) if *v == vec![0x0201]));
    assert!(matches!(array(&top[2]), PrimativeArray::U32(v) if *v == vec![0x01020304]));
    assert!(matches!(array(&top[3]), PrimativeArray::U64(v) if *v == vec![0x0807060504030201]));
    assert!(matches!(
        array(&top[4]),
        PrimativeArray::U128(v) if *v == vec![(1u128 << 120) | 0xFF]
    ));
    assert!(matches!(array(&top[5]), PrimativeArray::Char(v) if *v == vec![0x41]));
    assert_eq!(left, 0);
}

#[test]
fn bounded_read_takes_count_times_width() {
    let (r, left) = run("u32be 2 a", &[0, 0, 0, 1, 0, 0, 0, 2, 9]);
    let d = r.unwrap();
    assert!(matches!(array(&list(&d)[0]), PrimativeArray::U32(v) if *v == vec![1, 2]));
    assert_eq!(left, 1);
}

#[test]
fn unbounded_read_leaves_partial_scalar() {
    let (r, left) = run("u16be * rest", &[0, 1, 0, 2, 7]);
    let d = r.unwrap();
    assert!(matches!(array(&list(&d)[0]), PrimativeArray::U16(v) if *v == vec![1, 2]));
    assert_eq!(left, 1);
}

#[test]
fn unbounded_read_of_empty_source() {
    let (r, left) = run("u64le * rest", &[]);
    let d = r.unwrap();
    assert!(matches!(array(&list(&d)[0]), PrimativeArray::U64(v) if v.is_empty()));
    assert_eq!(left, 0);
}

#[test]
fn too_few_bytes_is_source_exhausted() {
    let (r, _) = run("u32le 2 a", &[1, 2, 3, 4, 5]);
    let e = r.unwrap_err();
    assert!(matches!(e, EvalError::DeclarationFailure { index: 0, .. }));
    assert!(matches!(e.root_cause(), EvalError::SourceExhausted { needed: 8, available: 5 }));
}

#[test]
fn huge_count_is_source_exhausted() {
    let (r, _) = run("u128le 18446744073709551615 a", &[1, 2]);
    let e = r.unwrap_err();
    assert!(matches!(
        e.root_cause(),
        EvalError::SourceExhausted { needed, available: 2 } if *needed == (u64::MAX as u128) * 16
    ));
}

#[test]
fn name_bound_in_body_is_not_visible_after_it() {
    let (r, _) = run("TAKE_N 1 { u8 1 inner } u8 inner x", &[1, 2]);
    let e = r.unwrap_err();
    assert!(matches!(e, EvalError::DeclarationFailure { index: 1, .. }));
    assert!(matches!(e.root_cause(), EvalError::UnboundName(s) if s == "inner"));
}

#[test]
fn name_bound_before_block_is_visible_inside() {
    let (r, left) = run("u8 1 n TAKE_N 1 { u8 n x }", &[2, 7, 8]);
    let d = r.unwrap();
    let top = list(&d);
    let reps = list(&top[1]);
    assert!(matches!(array(&list(&reps[0])[0]), PrimativeArray::U8(v) if *v == vec![7, 8]));
    assert_eq!(left, 0);
}

#[test]
fn inner_binding_shadows_outer_only_inside() {
    let (r, left) = run("u8 1 n TAKE_N 1 { u8 1 n u8 n a } u8 n b", &[1, 2, 5, 6, 9]);
    let d = r.unwrap();
    let top = list(&d);
    let inner = list(&list(&top[1])[0]);
    assert!(matches!(array(&inner[1]), PrimativeArray::U8(v) if *v == vec![5, 6]));
    assert!(matches!(array(&top[2]), PrimativeArray::U8(v) if *v == vec![9]));
    assert_eq!(left, 0);
}

#[test]
fn wide_scalar_is_refused_as_count() {
    let mut bytes = vec![0u8; 16];
    bytes[0] = 1;
    bytes.push(0xAA);
    for pattern in ["u128le 1 big u8 big x", "u128le 1 big TAKE_N big { }", "u128le 1 big TAKE_OVER big i { }"] {
        let (r, _) = run(pattern, &bytes);
        let e = r.unwrap_err();
        assert!(matches!(e, EvalError::DeclarationFailure { index: 1, .. }));
        assert!(matches!(e.root_cause(), EvalError::UnsupportedWidthAsCount(s) if s == "big"));
    }
}

#[test]
fn char_and_empty_arrays_are_not_counts() {
    let (r, _) = run("char 1 c u8 c x", &[3, 1, 2, 3]);
    assert!(matches!(r.unwrap_err().root_cause(), EvalError::NotACount(s) if s == "c"));
    let (r, _) = run("u8 0 e u8 e x", &[3]);
    assert!(matches!(r.unwrap_err().root_cause(), EvalError::NotACount(s) if s == "e"));
    let (r, _) = run("char 2 c TAKE_OVER c i { }", &[3, 1]);
    assert!(matches!(r.unwrap_err().root_cause(), EvalError::NotACount(s) if s == "c"));
}

#[test]
fn unbound_count_name() {
    let (r, _) = run("u8 missing x", &[1]);
    assert!(matches!(r.unwrap_err().root_cause(), EvalError::UnboundName(s) if s == "missing"));
    let (r, _) = run("TAKE_OVER missing i { }", &[1]);
    assert!(matches!(r.unwrap_err().root_cause(), EvalError::UnboundName(s) if s == "missing"));
}

#[test]
fn take_until_over_exhausted_source_is_empty() {
    let (r, left) = run("TAKE_UNTIL { u8 1 x }", &[]);
    let d = r.unwrap();
    assert!(list(&list(&d)[0]).is_empty());
    assert_eq!(left, 0);
    let (r, _) = run("TAKE_N * { u8 1 x }", &[]);
    assert!(list(&list(&r.unwrap())[0]).is_empty());
}

#[test]
fn take_until_repeats_to_the_end() {
    let (r, left) = run("u8 1 a TAKE_UNTIL { u8 1 x u8 x y }", &[9, 1, 5, 2, 6, 7]);
    let d = r.unwrap();
    let reps = list(&list(&d)[1]);
    assert_eq!(reps.len(), 2);
    assert!(matches!(array(&list(&reps[1])[1]), PrimativeArray::U8(v) if *v == vec![6, 7]));
    assert_eq!(left, 0);
}

#[test]
fn take_until_without_progress_fails() {
    let (r, left) = run("TAKE_UNTIL { }", &[1]);
    assert!(matches!(r.unwrap_err().root_cause(), EvalError::NoProgress));
    assert_eq!(left, 1);
}

#[test]
fn take_n_repeats_count_times() {
    let (r, left) = run("u16le 1 n TAKE_N n { u8 1 x }", &[3, 0, 7, 8, 9, 10]);
    let d = r.unwrap();
    assert_eq!(list(&list(&d)[1]).len(), 3);
    assert_eq!(left, 1);
    let (r, _) = run("TAKE_N 0 { u8 1 x }", &[]);
    assert!(list(&list(&r.unwrap())[0]).is_empty());
}

#[test]
fn take_n_failure_names_the_repetition() {
    let (r, _) = run("TAKE_N 3 { u8 1 x }", &[1, 2]);
    match r.unwrap_err() {
        EvalError::DeclarationFailure { index: 0, cause } => {
            assert!(matches!(*cause, EvalError::RepetitionFailure { index: 2, .. }));
        }
        other => panic!("unexpected error {:?}", other),
    }
}

#[test]
fn evaluating_twice_gives_the_same_tree() {
    let p = compile_pattern("u8 1 n TAKE_N n { u16be 1 v } u8 * rest").unwrap();
    let bytes = vec![2, 0, 1, 0, 2, 3, 4];
    let mut a = ByteSource::new(bytes.clone());
    let mut b = ByteSource::new(bytes);
    let ra = evaluate(&p, &mut a).unwrap();
    let rb = evaluate(&p, &mut b).unwrap();
    assert_eq!(format!("{:?}", ra), format!("{:?}", rb));
    assert_eq!(a.remaining(), b.remaining());
}

#[test]
fn process_bytes_restores_the_stack() {
    let p = vec![Expr::Primative {
        dtype: DType::U16(Endianness::Little),
        count: Count::Number(1),
        identifier: Some("x".to_string()),
    }];
    let mut stack = Stack::new();
    let mut src = ByteSource::new(vec![1, 2]);
    let d = process_bytes(&p, &mut src, &mut stack).unwrap();
    assert!(matches!(array(&list(&d)[0]), PrimativeArray::U16(v) if *v == vec![0x0201]));
    assert_eq!(stack.depth(), 0);
    assert!(stack.get_var(&"x".to_string()).is_none());
}
