use ron::extensions::Extensions;
use ron::options::{Options, DEFAULT_RECURSION_LIMIT};

#[test]
fn options_default_and_limits() {
    let o = Options::build();
    assert!(o.default_extensions.is_empty());
    assert_eq!(o.recursion_limit, Some(DEFAULT_RECURSION_LIMIT));
    assert_eq!(Options::default(), o);
    assert_eq!(o.with_recursion_limit(3).recursion_limit, Some(3));
    assert_eq!(o.without_recursion_limit().recursion_limit, None);
}

#[test]
fn options_with_then_without() {
    let some = Extensions::implicit_some();
    let both = some.union(Extensions::unwrap_newtypes());
    let base = Options::build().with_default_extension(Extensions::unwrap_newtypes());
    assert_eq!(
        base.with_default_extension(some).without_default_extension(some),
        base.without_default_extension(some)
    );
    let enabled = base.with_default_extension(some);
    assert!(enabled.default_extensions.contains(both));
    assert_eq!(enabled.with_default_extension(some), enabled);
    let disabled = enabled.without_default_extension(some);
    assert!(!disabled.default_extensions.contains(some));
    assert!(disabled.default_extensions.contains(Extensions::unwrap_newtypes()));
}
