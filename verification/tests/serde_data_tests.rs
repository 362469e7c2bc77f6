use ron::extensions::Extensions;
use ron::serde_data::{SerdeDataType, SerdeDataVariantType, SerdeEnumRepresentation};

fn b(t: SerdeDataType) -> Box<SerdeDataType> {
    Box::new(t)
}

#[test]
fn untagged_scalars_and_wide_integers() {
    let e = Extensions::empty();
    assert!(SerdeDataType::Bool.supported_inside_untagged(e, false, false));
    assert!(SerdeDataType::String.supported_inside_untagged(e, false, false));
    assert!(!SerdeDataType::I128.supported_inside_untagged(e, false, false));
    assert!(!SerdeDataType::U128.supported_inside_untagged(e, false, false));
}

#[test]
fn untagged_units_under_implicit_some() {
    let plain = Extensions::empty();
    let some = Extensions::implicit_some();
    assert!(SerdeDataType::Unit.supported_inside_untagged(some, false, false));
    assert!(SerdeDataType::Unit.supported_inside_untagged(plain, false, true));
    assert!(!SerdeDataType::Unit.supported_inside_untagged(some, false, true));
    // an option of a unit puts the unit inside an option
    let opt_unit = SerdeDataType::Option { inner: b(SerdeDataType::Unit) };
    assert!(!opt_unit.supported_inside_untagged(some, false, false));
    assert!(opt_unit.supported_inside_untagged(plain, false, false));
}

#[test]
fn untagged_arrays_and_tuples() {
    let e = Extensions::unwrap_variant_newtypes();
    let empty = SerdeDataType::Array { kind: b(SerdeDataType::U8), len: 0 };
    assert!(!empty.supported_inside_untagged(e, false, false));
    let one = SerdeDataType::Array { kind: b(SerdeDataType::U8), len: 1 };
    assert!(one.supported_inside_untagged(e, false, false));
    assert!(!one.supported_inside_untagged(e, true, false));
    assert!(one.supported_inside_untagged(Extensions::empty(), true, false));
    let tuple = SerdeDataType::Tuple { elems: vec![SerdeDataType::Bool, SerdeDataType::I128] };
    assert!(!tuple.supported_inside_untagged(e, false, false));
    let tuple = SerdeDataType::Tuple { elems: vec![SerdeDataType::Bool, SerdeDataType::Char] };
    assert!(tuple.supported_inside_untagged(e, false, false));
    let newtype = SerdeDataType::Newtype { name: "N".to_string(), inner: b(SerdeDataType::Bool) };
    assert!(!newtype.supported_inside_untagged(e, false, false));
}

fn enum_of(variants: Vec<SerdeDataVariantType>, representation: SerdeEnumRepresentation) -> SerdeDataType {
    let names = variants.iter().map(|_| "V".to_string()).collect();
    SerdeDataType::Enum { name: "E".to_string(), variants: (names, variants), representation }
}

#[test]
fn untagged_enums() {
    let e = Extensions::empty();
    let one_tuple = enum_of(
        vec![SerdeDataVariantType::Tuple { fields: vec![SerdeDataType::Bool] }],
        SerdeEnumRepresentation::ExternallyTagged,
    );
    assert!(!one_tuple.supported_inside_untagged(e, false, false));
    let one_tuple_untagged = enum_of(
        vec![SerdeDataVariantType::Tuple { fields: vec![SerdeDataType::Bool] }],
        SerdeEnumRepresentation::Untagged,
    );
    assert!(one_tuple_untagged.supported_inside_untagged(e, false, false));
    let unit = enum_of(vec![SerdeDataVariantType::Unit], SerdeEnumRepresentation::Untagged);
    assert!(!unit.supported_inside_untagged(Extensions::implicit_some(), false, true));
    assert!(unit.supported_inside_untagged(Extensions::implicit_some(), false, false));
}

#[test]
fn internally_tagged_newtype_content() {
    assert!(SerdeDataType::Unit.supported_inside_internally_tagged_newtype(false));
    assert!(!SerdeDataType::Unit.supported_inside_internally_tagged_newtype(true));
    assert!(!SerdeDataType::Bool.supported_inside_internally_tagged_newtype(false));
    let map = SerdeDataType::Mapping { key: b(SerdeDataType::String), value: b(SerdeDataType::U8) };
    assert!(map.supported_inside_internally_tagged_newtype(true));
    let adjacent = enum_of(
        vec![SerdeDataVariantType::Tuple { fields: vec![] }],
        SerdeEnumRepresentation::AdjacentlyTagged { tag: "t".to_string(), content: "c".to_string() },
    );
    assert!(!adjacent.supported_inside_internally_tagged_newtype(false));
}

#[test]
fn flatten_content_and_keys() {
    let string_map = SerdeDataType::Mapping { key: b(SerdeDataType::String), value: b(SerdeDataType::U8) };
    assert!(string_map.supported_inside_flatten(false));
    let int_map = SerdeDataType::Mapping { key: b(SerdeDataType::U8), value: b(SerdeDataType::U8) };
    assert!(!int_map.supported_inside_flatten(false));
    assert!(SerdeDataType::String.supported_inside_flatten_key());
    assert!(!SerdeDataType::Char.supported_inside_flatten_key());
    let raw = SerdeDataType::Newtype {
        name: "$ron::private::RawValue".to_string(),
        inner: b(SerdeDataType::String),
    };
    assert!(!raw.supported_inside_flatten(false));
    let other = SerdeDataType::Newtype { name: "Wrapper".to_string(), inner: b(string_map) };
    assert!(other.supported_inside_flatten(false));
    let units = enum_of(vec![SerdeDataVariantType::Unit], SerdeEnumRepresentation::ExternallyTagged);
    assert!(!units.supported_inside_flatten(false));
}

#[test]
fn flattened_maps_at_most_one() {
    let e = Extensions::empty();
    let map = SerdeDataType::Mapping { key: b(SerdeDataType::String), value: b(SerdeDataType::U8) };
    let (mut has_map, mut has_unknown) = (false, false);
    assert!(map.supported_flattened_map_inside_flatten_field(e, true, false, &mut has_map, &mut has_unknown));
    assert!(has_map && !has_unknown);
    // a second flattened map is refused
    assert!(!map.supported_flattened_map_inside_flatten_field(e, true, false, &mut has_map, &mut has_unknown));
    // not flattened, a map changes nothing
    let (mut m2, mut u2) = (false, false);
    assert!(map.supported_flattened_map_inside_flatten_field(e, false, false, &mut m2, &mut u2));
    assert!(!m2 && !u2);
}

#[test]
fn flattened_struct_with_tag_sees_unknown_key() {
    let e = Extensions::empty();
    let map = SerdeDataType::Mapping { key: b(SerdeDataType::String), value: b(SerdeDataType::U8) };
    let tagged = SerdeDataType::Struct {
        name: "S".to_string(),
        tag: Some("t".to_string()),
        fields: (vec!["a".to_string()], vec![map], vec![true]),
    };
    let (mut has_map, mut has_unknown) = (false, false);
    // the tag is an unknown key, which the flattened map then also sees
    assert!(!tagged.supported_flattened_map_inside_flatten_field(e, true, false, &mut has_map, &mut has_unknown));
    assert!(has_unknown);
    let untagged_struct = SerdeDataType::Struct {
        name: "S".to_string(),
        tag: None,
        fields: (vec!["a".to_string()], vec![SerdeDataType::Bool], vec![true]),
    };
    let (mut m, mut u) = (false, false);
    assert!(untagged_struct.supported_flattened_map_inside_flatten_field(e, false, false, &mut m, &mut u));
    assert!(!m && u);
}

#[test]
fn flattened_option_inside_untagged() {
    let e = Extensions::empty();
    let opt = SerdeDataType::Option { inner: b(SerdeDataType::Bool) };
    let (mut m, mut u) = (false, false);
    assert!(!opt.supported_flattened_map_inside_flatten_field(e, true, true, &mut m, &mut u));
    assert!(opt.supported_flattened_map_inside_flatten_field(e, true, false, &mut m, &mut u));
    let newtype_variant = enum_of(
        vec![SerdeDataVariantType::Newtype { inner: b(SerdeDataType::Bool) }],
        SerdeEnumRepresentation::ExternallyTagged,
    );
    let (mut m, mut u) = (false, true);
    assert!(!newtype_variant.supported_flattened_map_inside_flatten_field(e, true, false, &mut m, &mut u));
    let (mut m, mut u) = (false, false);
    assert!(newtype_variant.supported_flattened_map_inside_flatten_field(e, true, false, &mut m, &mut u));
    assert!(u);
}
