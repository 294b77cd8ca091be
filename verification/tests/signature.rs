use ringfire::signature::{compute_layout_signature, fnv1a64, strip_module_paths, LayoutSignature};

#[allow(dead_code)]
struct StructA {
    a: u64,
    b: u32,
}

#[allow(dead_code)]
struct StructB {
    a: u64,
    b: u64,
}

impl LayoutSignature for StructA {
    const FULL_NAME: &'static str = "signature::StructA";
}

impl LayoutSignature for StructB {
    const FULL_NAME: &'static str = "signature::StructB";
}

#[test]
fn test_signature_uniqueness() {
    let sig_a = StructA::layout_signature();
    let sig_b = StructB::layout_signature();
    let sig_u64 = u64::layout_signature();

    assert_ne!(sig_a, sig_b);
    assert_ne!(sig_a, sig_u64);
    assert_eq!(sig_a, StructA::layout_signature());
}

#[test]
fn fnv_of_known_strings() {
    assert_eq!(fnv1a64(b""), 0xcbf2_9ce4_8422_2325);
    assert_eq!(fnv1a64(b"a"), 0xaf63_dc4c_8601_ec8c);
    assert_eq!(fnv1a64(b"foobar"), 0x8594_4171_f739_67e8);
}

#[test]
fn module_paths_do_not_count() {
    assert_eq!(strip_module_paths("alloc::vec::Vec<app::model::Tick>"), "Vec<Tick>");
    assert_eq!(strip_module_paths("(a::X, &b::Y)"), "(X, &Y)");
    assert_eq!(strip_module_paths("u64"), "u64");
    assert_eq!(
        compute_layout_signature::<u64>("crate_a::types::Tick"),
        compute_layout_signature::<u64>("crate_b::Tick")
    );
    assert_ne!(compute_layout_signature::<u64>("Tick"), compute_layout_signature::<u64>("Tock"));
    assert_ne!(compute_layout_signature::<u64>("Tick"), compute_layout_signature::<u32>("Tick"));
}

#[test]
fn primitive_types_have_signatures() {
    assert_eq!(<u128 as LayoutSignature>::FULL_NAME, "u128");
    assert_eq!(i32::layout_signature(), compute_layout_signature::<i32>("core::i32"));
    assert_ne!(i32::layout_signature(), u32::layout_signature());
    assert_ne!(bool::layout_signature(), u8::layout_signature());
    assert_ne!(char::layout_signature(), u32::layout_signature());
    assert_ne!(isize::layout_signature(), usize::layout_signature());
    assert_ne!(<()>::layout_signature(), i8::layout_signature());
    let mut bytes = b"i16".to_vec();
    bytes.extend_from_slice(&2u64.to_le_bytes());
    bytes.extend_from_slice(&2u64.to_le_bytes());
    assert_eq!(i16::layout_signature(), fnv1a64(&bytes));
}
