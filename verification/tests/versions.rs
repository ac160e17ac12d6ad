use smysl::{
    format_version_supported, kernel_major, FORMAT_VERSIONS_SUPPORTED, FORMAT_VERSION_DEFAULT,
    KERNEL_MAJOR, KERNEL_SCHEMA,
};

#[test]
fn declares_format_and_kernel_versions() {
    assert_eq!(FORMAT_VERSIONS_SUPPORTED, ["smysl/0.1", "smysl/1.0"]);
    assert_eq!(FORMAT_VERSION_DEFAULT, "smysl/0.1", "the writer has not been flipped yet");
    assert_eq!(KERNEL_SCHEMA, "smysl.kernel/0.1");
    assert_eq!(kernel_major(KERNEL_SCHEMA), Some(KERNEL_MAJOR));
}

#[test]
fn accepts_only_declared_format_versions() {
    for v in FORMAT_VERSIONS_SUPPORTED {
        assert!(format_version_supported(v), "`{v}` is declared but not accepted");
    }
    for v in ["smysl/0.2", "smysl/2.0", "smysl/1.1", "smysl", "", "SMYSL/0.1"] {
        assert!(!format_version_supported(v), "`{v}` is not declared and must not be accepted");
    }
}

#[test]
fn parses_kernel_majors() {
    assert_eq!(kernel_major("smysl.kernel/0"), Some(0));
    assert_eq!(kernel_major("smysl.kernel/0.1"), Some(0));
    assert_eq!(kernel_major("smysl.kernel/12.7"), Some(12));
    assert_eq!(kernel_major("x.sre/1"), None);
    assert_eq!(kernel_major("smysl.kernel/x"), None);
    assert_eq!(kernel_major("smysl.kernel/"), None);
}

#[test]
fn kernel_minor_does_not_change_the_major() {
    assert_eq!(kernel_major("smysl.kernel/0.9"), kernel_major(KERNEL_SCHEMA));
    assert_ne!(kernel_major("smysl.kernel/1.0"), kernel_major(KERNEL_SCHEMA));
}
