use bitfield::layout::{
    get_function_param_ty, representation_class, resolve, RepresentationClass, SchemaError,
};
use bitfield::widths::{distinct_widths, width_markers, WidthMarker};

#[test]
fn resolve_assigns_contiguous_offsets() {
    let fields = vec![
        ("a".to_string(), 3u8),
        ("b".to_string(), 5u8),
        ("c".to_string(), 8u8),
    ];
    let layout = resolve(&fields).unwrap();
    assert_eq!(layout.fields.len(), 3);
    assert_eq!(layout.fields[0].name, "a");
    assert_eq!(layout.fields[0].width, 3);
    assert_eq!(layout.fields[0].offset, 0);
    assert_eq!(layout.fields[1].name, "b");
    assert_eq!(layout.fields[1].width, 5);
    assert_eq!(layout.fields[1].offset, 3);
    assert_eq!(layout.fields[2].name, "c");
    assert_eq!(layout.fields[2].width, 8);
    assert_eq!(layout.fields[2].offset, 8);
    assert_eq!(layout.total_bytes, 2);
}

#[test]
fn resolve_rejects_misaligned_total() {
    let fields = vec![("a".to_string(), 3u8), ("b".to_string(), 4u8)];
    match resolve(&fields) {
        Err(SchemaError::MisalignedTotal(total)) => assert_eq!(total, 7),
        _ => panic!("a 7-bit schema must be rejected as misaligned"),
    }
}

#[test]
fn resolve_rejects_zero_width() {
    let fields = vec![("ok".to_string(), 8u8), ("bad".to_string(), 0u8)];
    match resolve(&fields) {
        Err(SchemaError::InvalidWidth(name, width)) => {
            assert_eq!(name, "bad");
            assert_eq!(width, 0);
        },
        _ => panic!("a zero-width field must be rejected"),
    }
}

#[test]
fn resolve_rejects_overwide_field() {
    let fields = vec![("huge".to_string(), 65u8), ("late".to_string(), 0u8)];
    match resolve(&fields) {
        Err(SchemaError::InvalidWidth(name, width)) => {
            // The first offending field is the one reported.
            assert_eq!(name, "huge");
            assert_eq!(width, 65);
        },
        _ => panic!("a 65-bit field must be rejected"),
    }
}

#[test]
fn resolve_accepts_empty_schema() {
    let fields: Vec<(String, u8)> = Vec::new();
    let layout = resolve(&fields).unwrap();
    assert_eq!(layout.fields.len(), 0);
    assert_eq!(layout.total_bytes, 0);
    assert_eq!(layout.markers.len(), 0);
}

#[test]
fn identical_schemas_resolve_identically() {
    let fields1 = vec![
        ("x".to_string(), 4u8),
        ("y".to_string(), 12u8),
        ("z".to_string(), 16u8),
    ];
    let fields2 = vec![
        ("x".to_string(), 4u8),
        ("y".to_string(), 12u8),
        ("z".to_string(), 16u8),
    ];
    let l1 = resolve(&fields1).unwrap();
    let l2 = resolve(&fields2).unwrap();
    assert_eq!(l1.fields.len(), l2.fields.len());
    for i in 0..l1.fields.len() {
        assert_eq!(l1.fields[i].offset, l2.fields[i].offset);
        assert_eq!(l1.fields[i].width, l2.fields[i].width);
    }
    assert_eq!(l1.total_bytes, l2.total_bytes);
    assert_eq!(l1.markers, l2.markers);
}

#[test]
fn distinct_widths_keeps_first_occurrences() {
    let fields = vec![
        ("a".to_string(), 3u8),
        ("b".to_string(), 5u8),
        ("c".to_string(), 3u8),
        ("d".to_string(), 8u8),
        ("e".to_string(), 5u8),
    ];
    assert_eq!(distinct_widths(&fields), vec![3u8, 5u8, 8u8]);
}

#[test]
fn width_markers_carry_their_widths() {
    let fields = vec![
        ("a".to_string(), 3u8),
        ("b".to_string(), 5u8),
        ("c".to_string(), 3u8),
    ];
    let markers = width_markers(&fields);
    assert_eq!(markers, vec![WidthMarker { width: 3 }, WidthMarker { width: 5 }]);
    assert_eq!(markers[0].bits(), 3);
    assert_eq!(markers[1].bits(), 5);
}

#[test]
fn markers_recorded_in_layout() {
    let fields = vec![
        ("a".to_string(), 7u8),
        ("b".to_string(), 7u8),
        ("c".to_string(), 2u8),
    ];
    let layout = resolve(&fields).unwrap();
    assert_eq!(
        layout.markers,
        vec![WidthMarker { width: 7 }, WidthMarker { width: 2 }]
    );
}

#[test]
fn param_ty_picks_smallest_unsigned_type() {
    assert_eq!(get_function_param_ty(1).unwrap(), "u8");
    assert_eq!(get_function_param_ty(8).unwrap(), "u8");
    assert_eq!(get_function_param_ty(9).unwrap(), "u16");
    assert_eq!(get_function_param_ty(16).unwrap(), "u16");
    assert_eq!(get_function_param_ty(17).unwrap(), "u32");
    assert_eq!(get_function_param_ty(32).unwrap(), "u32");
    assert_eq!(get_function_param_ty(33).unwrap(), "u64");
    assert_eq!(get_function_param_ty(64).unwrap(), "u64");
}

#[test]
fn param_ty_rejects_bad_widths() {
    assert_eq!(
        get_function_param_ty(0).unwrap_err(),
        "field size must between 1 to 64 "
    );
    assert_eq!(
        get_function_param_ty(65).unwrap_err(),
        "field size must between 1 to 64 "
    );
    assert!(get_function_param_ty(255).is_err());
}

#[test]
fn representation_class_is_smallest_class() {
    assert_eq!(representation_class(1), Some(RepresentationClass::R8));
    assert_eq!(representation_class(8), Some(RepresentationClass::R8));
    assert_eq!(representation_class(9), Some(RepresentationClass::R16));
    assert_eq!(representation_class(33), Some(RepresentationClass::R64));
    assert_eq!(representation_class(64), Some(RepresentationClass::R64));
    assert_eq!(representation_class(0), None);
    assert_eq!(representation_class(65), None);
    assert_eq!(RepresentationClass::R16.bits(), 16);
    assert_eq!(RepresentationClass::R32.bits(), 32);
}
