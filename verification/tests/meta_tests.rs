use ron::meta::{Field, Fields};

#[test]
fn field_meta() {
    let mut field = Field::empty();
    assert_eq!(field.meta(), "");
    assert!(!field.has_meta());
    field.with_meta("some meta");
    assert_eq!(field.meta(), "some meta");
    assert!(field.has_meta());
    let field = Field::new("doc", None);
    assert_eq!(field.meta(), "doc");
    assert!(!field.has_fields());
}

#[test]
fn field_inner_fields() {
    let mut field = Field::empty();
    assert!(!field.has_fields());
    field.with_fields(Some(Fields::new()));
    assert!(field.has_fields());
    field.fields_mut().unwrap().field("inner field");
    assert!(field.fields().unwrap().contains("inner field"));
    field.with_fields(None).with_meta("chained");
    assert!(!field.has_fields());
    assert_eq!(field.meta(), "chained");
    assert!(field.fields_mut().is_none());
}

#[test]
fn fields_map() {
    let mut fields = Fields::new();
    assert!(fields.is_empty());
    assert!(fields.insert("field", Field::empty()).is_none());
    assert!(!fields.is_empty());
    let old = fields.insert("field", Field::new("second", None));
    assert_eq!(old.unwrap().meta(), "");
    assert_eq!(fields.get("field").unwrap().meta(), "second");
    assert!(fields.contains("field"));
    assert!(!fields.contains("not a thing"));
    assert!(fields.get("not a thing").is_none());
    fields.get_mut("field").unwrap().with_meta("third");
    assert_eq!(fields.get("field").unwrap().meta(), "third");
    assert!(fields.get_mut("not a thing").is_none());
    assert!(!fields.contains("thing"));
    fields.field("thing").with_meta("made");
    assert!(fields.contains("thing"));
    assert_eq!(fields.get("thing").unwrap().meta(), "made");
    fields.field("thing");
    assert_eq!(fields.get("thing").unwrap().meta(), "made");
}
