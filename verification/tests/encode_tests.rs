use ron::encode::{Encoder, EncoderError, Expect};

fn struct_xy(e: &mut Encoder) {
    assert_eq!(e.emit_struct_open("MyStruct", 2), Ok(true));
    e.emit_struct_field_open("x");
    e.emit_i32(4).unwrap();
    e.emit_struct_field_close();
    e.emit_struct_field_open("y");
    e.emit_i32(7).unwrap();
    e.emit_struct_field_close();
    e.emit_struct_close(2);
}

#[test]
fn encoder_compact_struct() {
    let mut e = Encoder::new();
    struct_xy(&mut e);
    assert_eq!(e.output(), "MyStruct(x:4,y:7,)");
    assert_eq!(e.indent_level(), 0);
}

#[test]
fn encoder_pretty_struct() {
    let mut e = Encoder::new_pretty("    ");
    struct_xy(&mut e);
    assert_eq!(e.into_string(), "MyStruct(\n    x: 4,\n    y: 7,\n)");
}

#[test]
fn encoder_unit_struct_and_single_field() {
    let mut e = Encoder::new();
    assert_eq!(e.emit_struct_open("Unit", 0), Ok(false));
    assert_eq!(e.output(), "Unit");
    let mut e = Encoder::new_pretty("  ");
    assert_eq!(e.emit_struct_open("Some", 1), Ok(true));
    let own_line = e.emit_tuple_arg_open();
    assert!(!own_line);
    e.emit_u8(1).unwrap();
    e.emit_tuple_arg_close(own_line);
    e.emit_struct_close(1);
    assert_eq!(e.output(), "Some(1)");
}

#[test]
fn encoder_scalars() {
    let mut e = Encoder::new();
    e.emit_nil().unwrap();
    e.emit_bool(true).unwrap();
    e.emit_bool(false).unwrap();
    e.emit_i64(-1234567890123).unwrap();
    e.emit_u64(18446744073709551615).unwrap();
    e.emit_i8(-128).unwrap();
    e.emit_usize(0).unwrap();
    e.emit_char('c').unwrap();
    e.emit_str("Hello \"RON\"").unwrap();
    e.emit_option_none().unwrap();
    e.emit_constant("2.18").unwrap();
    assert_eq!(
        e.output(),
        "()truefalse-123456789012318446744073709551615-1280'c'\"Hello \"RON\"\"None2.18"
    );
}

#[test]
fn encoder_sequence_pretty() {
    let mut e = Encoder::new_pretty("\t");
    assert_eq!(e.emit_seq_open(2), Ok(true));
    for v in [1u16, 2u16] {
        let own = e.emit_tuple_arg_open();
        assert!(own);
        e.emit_u16(v).unwrap();
        e.emit_tuple_arg_close(own);
    }
    e.emit_seq_close();
    assert_eq!(e.output(), "[\n\t1,\n\t2,\n]");
    let mut e = Encoder::new();
    assert_eq!(e.emit_seq_open(0), Ok(false));
    assert_eq!(e.output(), "[]");
}

#[test]
fn encoder_map_keys_must_be_constants() {
    let mut e = Encoder::new();
    assert_eq!(e.emit_map_open(1), Ok(true));
    let saved = e.emit_map_elt_key_open();
    assert_eq!(saved, Expect::Element);
    assert_eq!(e.expect(), Expect::Constant);
    // a compound key is refused, and nothing is written for it
    assert_eq!(e.emit_seq_open(1), Err(EncoderError::Expectation(Expect::Constant)));
    assert_eq!(e.emit_struct_open("K", 2), Err(EncoderError::Expectation(Expect::Constant)));
    assert_eq!(e.emit_nil(), Err(EncoderError::Expectation(Expect::Constant)));
    assert_eq!(e.emit_enum_open(), Err(EncoderError::Expectation(Expect::Constant)));
    e.emit_u8(0).unwrap();
    e.emit_map_elt_key_close(saved);
    let saved = e.emit_map_elt_val_open();
    e.emit_char('1').unwrap();
    e.emit_map_elt_val_close(saved);
    e.emit_map_close();
    assert_eq!(e.output(), "{0,:'1'}");
    assert_eq!(e.expect(), Expect::Element);
}

#[test]
fn encoder_struct_variant() {
    let mut e = Encoder::new_pretty(" ");
    e.emit_enum_struct_variant_open("D");
    e.emit_struct_field_open("a");
    e.emit_i32(2).unwrap();
    e.emit_struct_field_close();
    e.emit_enum_struct_variant_close();
    assert_eq!(e.output(), "D{\n a: 2,\n}");
}

#[test]
fn encoder_nested_indentation() {
    let mut e = Encoder::new_pretty("  ");
    assert_eq!(e.emit_seq_open(1), Ok(true));
    let own = e.emit_tuple_arg_open();
    assert_eq!(e.emit_seq_open(1), Ok(true));
    assert_eq!(e.indent_level(), 2);
    let inner = e.emit_tuple_arg_open();
    e.emit_bool(true).unwrap();
    e.emit_tuple_arg_close(inner);
    e.emit_seq_close();
    e.emit_tuple_arg_close(own);
    e.emit_seq_close();
    assert_eq!(e.output(), "[\n  [\n    true,\n  ],\n]");
}
