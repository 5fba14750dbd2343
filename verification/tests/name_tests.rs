use dotpacks::package::name::{DotPackageName, NameRegistry};

fn package_a_1(reg: &mut NameRegistry) -> DotPackageName {
    reg.create_identity("package_a_1", "package_a")
}

fn package_a_2(reg: &mut NameRegistry) -> DotPackageName {
    reg.create_identity("package_a_2", "package_a")
}

fn package_b(reg: &mut NameRegistry) -> DotPackageName {
    reg.create_identity("package_b", "package_b")
}

#[test]
fn dotpackagename_should_be_unique() {
    let mut reg = NameRegistry::new();

    assert_eq!(package_a_1(&mut reg).display, "package_a");
    assert_eq!(package_a_2(&mut reg).display, "package_a");
    assert_eq!(package_b(&mut reg).display, "package_b");
    assert_eq!(package_a_1(&mut reg).render(), "package_a");
    assert_eq!(package_a_2(&mut reg).render(), "package_a");
    assert_eq!(package_b(&mut reg).render(), "package_b");

    assert_eq!(package_a_1(&mut reg).unique, package_a_1(&mut reg).unique);
    assert_eq!(package_a_2(&mut reg).unique, package_a_2(&mut reg).unique);
    assert_eq!(package_b(&mut reg).unique, package_b(&mut reg).unique);
    assert_ne!(package_a_1(&mut reg).unique, package_a_2(&mut reg).unique);
    assert_ne!(package_a_1(&mut reg).unique, package_b(&mut reg).unique);
    assert_ne!(package_a_2(&mut reg).unique, package_b(&mut reg).unique);
}

#[test]
fn same_call_site_yields_equal_identities() {
    let mut reg = NameRegistry::new();
    let first = reg.create_identity("site", "example");
    // other defining sites run in between
    let _ = reg.create_identity("other_site", "example");
    let _ = reg.create_identity("third_site", "unrelated");
    let second = reg.create_identity("site", "example");
    assert_eq!(first, second);
    assert_eq!(first.unique, second.unique);
    assert_eq!(first.render(), second.render());
}

#[test]
fn distinct_call_sites_yield_unequal_identities() {
    let mut reg = NameRegistry::new();
    let a = reg.create_identity("site_one", "example");
    let b = reg.create_identity("site_two", "example");
    assert_ne!(a, b);
    assert_ne!(a.unique, b.unique);
    // the labels agree, so the rendered text is identical
    assert_eq!(a.render(), b.render());
    assert_eq!(a.render(), "example");
}

#[test]
fn rendering_is_exactly_the_display_label() {
    let name = DotPackageName {
        display: "some label".to_string(),
        unique: 12345,
    };
    assert_eq!(name.render(), "some label");
    let other = DotPackageName {
        display: "some label".to_string(),
        unique: 777,
    };
    // the unique value plays no part in the rendering
    assert_eq!(name.render(), other.render());
}

#[test]
fn equality_goes_by_unique_alone() {
    let a = DotPackageName {
        display: "one".to_string(),
        unique: 5,
    };
    let b = DotPackageName {
        display: "two".to_string(),
        unique: 5,
    };
    let c = DotPackageName {
        display: "one".to_string(),
        unique: 6,
    };
    assert_eq!(a, b);
    assert_ne!(a, c);
}

#[test]
fn counter_counts_distinct_sites() {
    let mut reg = NameRegistry::new();
    assert_eq!(reg.counter_value(), 0);
    let first = reg.create_identity("s1", "l");
    assert_eq!(first.unique, 0);
    assert_eq!(reg.counter_value(), 1);
    let _ = reg.create_identity("s1", "l");
    assert_eq!(reg.counter_value(), 1);
    let second = reg.create_identity("s2", "l");
    assert_eq!(second.unique, 1);
    assert_eq!(reg.counter_value(), 2);
}

#[test]
fn known_token_keeps_its_first_label() {
    let mut reg = NameRegistry::new();
    let first = reg.create_identity("site", "original");
    // a later creation for the same site passes another label; the identity
    // was created once and is reused immutably, label included
    let second = reg.create_identity("site", "renamed");
    assert_eq!(first, second);
    assert_eq!(second.display, "original");
    assert_eq!(first.render(), second.render());
    // other sites are untouched
    let other = reg.create_identity("elsewhere", "elsewhere label");
    assert_eq!(other.display, "elsewhere label");
    assert_eq!(reg.create_identity("site", "third try").display, "original");
}
