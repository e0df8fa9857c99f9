use codesearch::patterns::{build_fuzzy_pattern, class_hint_from_symbol, short_symbol_name};

#[test]
fn pattern_utils_test_short_symbol_name() {
    assert_eq!(short_symbol_name("Namespace\\Class#method"), "method");
    assert_eq!(short_symbol_name("Namespace\\Class"), "Class");
    assert_eq!(short_symbol_name("crate::module::func"), "func");
    assert_eq!(short_symbol_name("com.example.Foo"), "Foo");
    assert_eq!(short_symbol_name("bare"), "bare");
    // SCIP call-signature suffixes are stripped before splitting.
    assert_eq!(short_symbol_name("src/foo/Bar#baz()."), "baz");
    assert_eq!(short_symbol_name("Autoloader#load()"), "load");
    // Path-qualified without a method separator.
    assert_eq!(short_symbol_name("src/foo/bar"), "bar");
    // Malformed: separator at the end → empty short name
    assert_eq!(short_symbol_name("Class#"), "");
    assert_eq!(short_symbol_name("module::"), "");
    assert_eq!(short_symbol_name("pkg."), "");
    assert_eq!(short_symbol_name("Ns\\"), "");
}

#[test]
fn test_class_hint_from_symbol() {
    // '#' separator (SCIP / PHP)
    assert_eq!(
        class_hint_from_symbol("Namespace\\Class#method"),
        Some("Class")
    );
    assert_eq!(
        class_hint_from_symbol("GenericUtils#getIp"),
        Some("GenericUtils")
    );
    // Path-qualified SCIP symbol: hint is the last path segment of the scope.
    assert_eq!(class_hint_from_symbol("src/foo/Bar#baz()."), Some("Bar"));
    // '::' separator (Rust / Go)
    assert_eq!(
        class_hint_from_symbol("crate::module::Class::method"),
        Some("Class")
    );
    assert_eq!(
        class_hint_from_symbol("MyModule::authenticate"),
        Some("MyModule")
    );
    // '.' separator (Java / Python / JS)
    assert_eq!(
        class_hint_from_symbol("com.example.Foo.method"),
        Some("Foo")
    );
    assert_eq!(
        class_hint_from_symbol("module.MyClass.do_thing"),
        Some("MyClass")
    );
    // No method separator → None
    assert_eq!(class_hint_from_symbol("bare_function"), None);
    assert_eq!(class_hint_from_symbol("Namespace\\Class"), None);
}

#[test]
fn patterns_tolerate_lost_separators() {
    assert_eq!(
        build_fuzzy_pattern("Acme\\Home#get"),
        "Acme[/\\\\#.:]*Home[/\\\\#.:]*get"
    );
    assert_eq!(build_fuzzy_pattern("AcmeHome"), "Acme[/\\\\#.:]*Home");
    assert_eq!(build_fuzzy_pattern("a::b"), "a[/\\\\#.:]*b");
    assert_eq!(build_fuzzy_pattern("x(1)"), "x\\(1\\)");
    assert_eq!(build_fuzzy_pattern("éÀ"), "é[/\\\\#.:]*À");
    assert_eq!(build_fuzzy_pattern(""), "");
}
