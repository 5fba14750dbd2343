use dotpacks::package::version::{
    dyn_version_eq, erase_version, DotPackageVersion, ErasedVersion, NumericVersion, UnitVersion,
};

#[test]
fn different_concrete_types_never_compare_equal() {
    let unit = UnitVersion;
    let numeric = NumericVersion { value: 0 };
    // regardless of field contents, the concrete types differ
    assert!(!dyn_version_eq(&unit, &numeric));
    assert!(!dyn_version_eq(&numeric, &unit));
    let other = NumericVersion { value: u64::MAX };
    assert!(!dyn_version_eq(&unit, &other));
}

#[test]
fn same_type_compares_by_value() {
    let a = NumericVersion { value: 42 };
    let b = NumericVersion { value: 42 };
    let c = NumericVersion { value: 43 };
    assert!(dyn_version_eq(&a, &b));
    assert!(!dyn_version_eq(&a, &c));
    assert!(dyn_version_eq(&UnitVersion, &UnitVersion));
}

#[test]
fn erased_equality_requires_tag_and_bytes() {
    let a = ErasedVersion {
        tag: 9,
        repr: vec![1, 2, 3],
    };
    let same = ErasedVersion {
        tag: 9,
        repr: vec![1, 2, 3],
    };
    let other_tag = ErasedVersion {
        tag: 10,
        repr: vec![1, 2, 3],
    };
    let other_bytes = ErasedVersion {
        tag: 9,
        repr: vec![1, 2, 4],
    };
    let shorter = ErasedVersion {
        tag: 9,
        repr: vec![1, 2],
    };
    assert!(a.dyn_eq(&same));
    assert!(!a.dyn_eq(&other_tag));
    assert!(!a.dyn_eq(&other_bytes));
    assert!(!a.dyn_eq(&shorter));
}

#[test]
fn numeric_version_serializes_little_endian() {
    let v = NumericVersion {
        value: 0x0102030405060708,
    };
    assert_eq!(
        v.serialize(),
        vec![0x08, 0x07, 0x06, 0x05, 0x04, 0x03, 0x02, 0x01]
    );
    let erased = erase_version(&v);
    assert_eq!(erased.repr.len(), 8);
}

#[test]
fn unit_version_serializes_empty() {
    let erased = erase_version(&UnitVersion);
    assert_eq!(erased.repr.len(), 0);
}

#[test]
fn version_renderings() {
    assert_eq!(NumericVersion { value: 42 }.debug_render(), "42");
    assert_eq!(NumericVersion { value: 0 }.debug_render(), "0");
    assert_eq!(
        NumericVersion { value: u64::MAX }.debug_render(),
        "18446744073709551615"
    );
    assert_eq!(UnitVersion.debug_render(), "unit");
}

#[test]
fn decimal_rendering_exact_values() {
    assert_eq!(dotpacks::text::u64_to_decimal(0), "0");
    assert_eq!(dotpacks::text::u64_to_decimal(7), "7");
    assert_eq!(dotpacks::text::u64_to_decimal(10), "10");
    assert_eq!(dotpacks::text::u64_to_decimal(905), "905");
    assert_eq!(dotpacks::text::u64_to_decimal(1000000), "1000000");
}
