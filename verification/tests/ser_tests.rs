use ron::ser::{Error, Serializer};

// EmptyStruct1 is a unit struct; EmptyStruct2 a struct with no field.
#[test]
fn ser_test_empty_struct() {
    let mut s = Serializer::new();
    s.serialize_unit_struct("EmptyStruct1").unwrap();
    assert_eq!(s.into_string(), "EmptyStruct1");

    let mut s = Serializer::new();
    s.serialize_struct("EmptyStruct2").unwrap();
    s.end().unwrap();
    assert_eq!(s.into_string(), "EmptyStruct2()");
}

fn float_field(s: &mut Serializer, key: &str, v: f32) {
    s.serialize_field(key).unwrap();
    s.serialize_float_text(&(v as f64).to_string()).unwrap();
    s.end_element().unwrap();
}

#[test]
fn ser_test_struct() {
    let mut s = Serializer::new();
    s.serialize_struct("MyStruct").unwrap();
    float_field(&mut s, "x", 4.0);
    float_field(&mut s, "y", 7.0);
    s.end().unwrap();
    assert_eq!(s.into_string(), "MyStruct(x:4,y:7,)");
}

#[test]
fn ser_test_enum() {
    let mut s = Serializer::new();
    s.serialize_unit_variant("A").unwrap();
    assert_eq!(s.into_string(), "A");

    let mut s = Serializer::new();
    s.serialize_tuple_variant("B").unwrap();
    s.serialize_bool(true).unwrap();
    s.end_element().unwrap();
    s.end().unwrap();
    assert_eq!(s.into_string(), "B(true,)");

    let mut s = Serializer::new();
    s.serialize_tuple_variant("C").unwrap();
    s.serialize_bool(true).unwrap();
    s.end_element().unwrap();
    s.serialize_float_text(&(3.5f32 as f64).to_string()).unwrap();
    s.end_element().unwrap();
    s.end().unwrap();
    assert_eq!(s.into_string(), "C(true,3.5,)");

    let mut s = Serializer::new();
    s.serialize_struct_variant("D").unwrap();
    s.serialize_field("a").unwrap();
    s.serialize_i32(2).unwrap();
    s.end_element().unwrap();
    s.serialize_field("b").unwrap();
    s.serialize_i32(3).unwrap();
    s.end_element().unwrap();
    s.end().unwrap();
    assert_eq!(s.into_string(), "D(a:2,b:3,)");
}

// An empty array is a tuple of no element; an empty slice a sequence.
#[test]
fn ser_test_array() {
    let mut s = Serializer::new();
    s.serialize_tuple().unwrap();
    s.end().unwrap();
    assert_eq!(s.into_string(), "()");

    let mut s = Serializer::new();
    s.serialize_seq().unwrap();
    s.end_seq().unwrap();
    assert_eq!(s.into_string(), "[]");
}

#[test]
fn ser_scalars_and_options() {
    let mut s = Serializer::new();
    s.serialize_some().unwrap();
    s.serialize_u8(1).unwrap();
    s.end().unwrap();
    s.serialize_none().unwrap();
    s.serialize_unit().unwrap();
    s.serialize_char('c').unwrap();
    s.serialize_str("Quoted").unwrap();
    s.serialize_i64(-9223372036854775808).unwrap();
    s.serialize_u64(42).unwrap();
    assert_eq!(
        s.output(),
        "Some(1)None()\"c\"\"Quoted\"-922337203685477580842"
    );
}

#[test]
fn ser_bytes_newtypes_and_maps() {
    let mut s = Serializer::new();
    s.serialize_bytes(&[0, 1, 255]).unwrap();
    assert_eq!(s.output(), "[0,1,255,]");

    let mut s = Serializer::new();
    s.serialize_newtype_struct("NewType").unwrap();
    s.serialize_i16(42).unwrap();
    s.end().unwrap();
    s.serialize_newtype_variant("V").unwrap();
    s.serialize_u16(7).unwrap();
    s.end_newtype_variant().unwrap();
    assert_eq!(s.output(), "NewType(42)V(7,)");

    let mut s = Serializer::new();
    s.serialize_map().unwrap();
    s.serialize_tuple().unwrap();
    s.serialize_bool(true).unwrap();
    s.end_element().unwrap();
    s.end().unwrap();
    s.serialize_value().unwrap();
    s.serialize_u32(4).unwrap();
    s.end_map().unwrap();
    assert_eq!(s.output(), "{(true,):4}");

    let mut s = Serializer::new();
    s.serialize_tuple_struct("TupleStruct").unwrap();
    s.serialize_i8(-2).unwrap();
    s.end_element().unwrap();
    s.end().unwrap();
    assert_eq!(s.output(), "TupleStruct(-2,)");
}

#[test]
fn ser_error_description() {
    let e = Error::Message("my-error".to_string());
    assert_eq!(e.description(), "my-error");
}
