use dotpacks::package::name::{DotPackageName, NameRegistry};
use dotpacks::package::version::{erase_version, ErasedVersion, NumericVersion, UnitVersion};
use dotpacks::package::{InstallError, ScriptedPackage, SimplePackage};
use dotpacks::runner::{ConfigError, Dotpacks, DotpacksRunner, PackageStatus, RunOutcome};

type Ctx = ();

fn name(reg: &mut NameRegistry, token: &str) -> DotPackageName {
    reg.create_identity(token, token)
}

fn ok_package(name: DotPackageName, deps: Vec<DotPackageName>) -> ScriptedPackage {
    ScriptedPackage {
        name,
        deps,
        installed: None,
        target: erase_version(&NumericVersion { value: 1 }),
        install_ok: true,
        failure: String::new(),
    }
}

#[test]
fn new_configuration_is_empty() {
    let config: Dotpacks<Ctx, ScriptedPackage> = Dotpacks::new();
    assert_eq!(config.len(), 0);
    let by_default: Dotpacks<Ctx, ScriptedPackage> = Default::default();
    assert_eq!(by_default.len(), 0);
}

#[test]
fn count_line_reports_zero_packages() {
    let config: Dotpacks<Ctx, ScriptedPackage> = Dotpacks::new();
    let runner = DotpacksRunner::from(config);
    let report = runner.run(());
    assert_eq!(report.count_line, "0 packages found.");
}

#[test]
fn count_line_reports_three_packages() {
    let mut reg = NameRegistry::new();
    let mut config: Dotpacks<Ctx, ScriptedPackage> = Dotpacks::new();
    config.add(ok_package(name(&mut reg, "one"), vec![]));
    config.add(ok_package(name(&mut reg, "two"), vec![]));
    config.add(ok_package(name(&mut reg, "three"), vec![]));
    assert_eq!(config.len(), 3);
    let runner = DotpacksRunner::from(config);
    let report = runner.run(());
    assert_eq!(report.count_line, "3 packages found.");
    assert!(report.success());
}

#[test]
fn installs_dependency_and_skips_up_to_date_dependent() {
    let mut reg = NameRegistry::new();
    let name_a = name(&mut reg, "a");
    let name_b = name(&mut reg, "b");
    // A is not installed and must be installed
    let pkg_a = ok_package(name_a.clone(), vec![]);
    // B depends on A and already carries the selected version
    let target_b = erase_version(&NumericVersion { value: 7 });
    let pkg_b = ScriptedPackage {
        name: name_b.clone(),
        deps: vec![name_a.clone()],
        installed: Some(erase_version(&NumericVersion { value: 7 })),
        target: target_b,
        install_ok: false, // must never run
        failure: "b install must not run".to_string(),
    };
    let mut config: Dotpacks<Ctx, ScriptedPackage> = Dotpacks::new();
    config.add(pkg_a);
    config.add(pkg_b);
    let report = DotpacksRunner::from(config).run(());
    match &report.outcome {
        RunOutcome::Completed(results) => {
            assert_eq!(results.len(), 2);
            assert_eq!(results[0].name, name_a);
            assert_eq!(results[1].name, name_b);
            // A's install ran (exactly the packages marked Installed were
            // installed, once each); B's never did
            assert!(matches!(results[0].status, PackageStatus::Installed));
            assert!(matches!(results[1].status, PackageStatus::UpToDate));
        }
        RunOutcome::Rejected(_) => panic!("run was rejected"),
    }
    assert!(report.success());
    assert_eq!(report.failures().len(), 0);
}

#[test]
fn failure_blocks_dependents_but_not_independent_packages() {
    let mut reg = NameRegistry::new();
    let name_a = name(&mut reg, "a");
    let name_b = name(&mut reg, "b");
    let name_c = name(&mut reg, "c");
    let pkg_a = ScriptedPackage {
        name: name_a.clone(),
        deps: vec![],
        installed: None,
        target: erase_version(&NumericVersion { value: 1 }),
        install_ok: false,
        failure: "disk full".to_string(),
    };
    let pkg_b = ok_package(name_b.clone(), vec![name_a.clone()]);
    let pkg_c = ok_package(name_c.clone(), vec![]);
    let mut config: Dotpacks<Ctx, ScriptedPackage> = Dotpacks::new();
    config.add(pkg_a);
    config.add(pkg_b);
    config.add(pkg_c);
    let report = DotpacksRunner::from(config).run(());
    match &report.outcome {
        RunOutcome::Completed(results) => {
            assert!(matches!(&results[0].status, PackageStatus::InstallFailed(m) if m == "disk full"));
            assert!(matches!(results[1].status, PackageStatus::DepBlocked));
            // C is unrelated to A and still succeeds
            assert!(matches!(results[2].status, PackageStatus::Installed));
        }
        RunOutcome::Rejected(_) => panic!("run was rejected"),
    }
    assert!(!report.success());
    let failures = report.failures();
    assert_eq!(failures.len(), 2);
    assert_eq!(failures[0], name_a);
    assert_eq!(failures[1], name_b);
}

#[test]
fn duplicate_identity_is_rejected() {
    let mut reg = NameRegistry::new();
    let the_name = name(&mut reg, "dup");
    let mut config: Dotpacks<Ctx, ScriptedPackage> = Dotpacks::new();
    config.add(ok_package(the_name.clone(), vec![]));
    config.add(ok_package(the_name.clone(), vec![]));
    let report = DotpacksRunner::from(config).run(());
    assert_eq!(report.count_line, "2 packages found.");
    match &report.outcome {
        RunOutcome::Rejected(ConfigError::DuplicateName(nm)) => {
            assert_eq!(*nm, the_name);
        }
        _ => panic!("expected a duplicate-name rejection"),
    }
    assert!(!report.success());
}

#[test]
fn unknown_dependency_is_rejected() {
    let mut reg = NameRegistry::new();
    let name_a = name(&mut reg, "a");
    let ghost_name = name(&mut reg, "never_configured");
    let mut config: Dotpacks<Ctx, ScriptedPackage> = Dotpacks::new();
    config.add(ok_package(name_a.clone(), vec![ghost_name.clone()]));
    let report = DotpacksRunner::from(config).run(());
    match &report.outcome {
        RunOutcome::Rejected(ConfigError::UnknownDependency {
            dependent,
            dependency,
        }) => {
            assert_eq!(*dependent, name_a);
            assert_eq!(*dependency, ghost_name);
        }
        _ => panic!("expected an unknown-dependency rejection"),
    }
}

#[test]
fn dependency_cycle_is_rejected_naming_the_cycle() {
    let mut reg = NameRegistry::new();
    let name_a = name(&mut reg, "a");
    let name_b = name(&mut reg, "b");
    let mut config: Dotpacks<Ctx, ScriptedPackage> = Dotpacks::new();
    config.add(ok_package(name_a.clone(), vec![name_b.clone()]));
    config.add(ok_package(name_b.clone(), vec![name_a.clone()]));
    let report = DotpacksRunner::from(config).run(());
    match &report.outcome {
        RunOutcome::Rejected(ConfigError::Cycle(names)) => {
            assert_eq!(names.len(), 2);
            assert!(names.contains(&name_a));
            assert!(names.contains(&name_b));
        }
        _ => panic!("expected a cycle rejection"),
    }
    assert!(!report.success());
    assert_eq!(report.failures().len(), 0);
}

#[test]
fn self_dependency_is_a_cycle() {
    let mut reg = NameRegistry::new();
    let name_a = name(&mut reg, "a");
    let mut config: Dotpacks<Ctx, ScriptedPackage> = Dotpacks::new();
    config.add(ok_package(name_a.clone(), vec![name_a.clone()]));
    let report = DotpacksRunner::from(config).run(());
    match &report.outcome {
        RunOutcome::Rejected(ConfigError::Cycle(names)) => {
            assert_eq!(names.len(), 1);
            assert_eq!(names[0], name_a);
        }
        _ => panic!("expected a cycle rejection"),
    }
}

#[test]
fn deep_chain_installs_in_dependency_order() {
    let mut reg = NameRegistry::new();
    let name_a = name(&mut reg, "a");
    let name_b = name(&mut reg, "b");
    let name_c = name(&mut reg, "c");
    // configured dependents-first, so the planner has to reorder
    let mut config: Dotpacks<Ctx, ScriptedPackage> = Dotpacks::new();
    config.add(ok_package(name_c.clone(), vec![name_b.clone()]));
    config.add(ok_package(name_b.clone(), vec![name_a.clone()]));
    config.add(ok_package(name_a.clone(), vec![]));
    let report = DotpacksRunner::from(config).run(());
    match &report.outcome {
        RunOutcome::Completed(results) => {
            for result in results {
                assert!(matches!(result.status, PackageStatus::Installed));
            }
        }
        RunOutcome::Rejected(_) => panic!("run was rejected"),
    }
    assert!(report.success());
}

#[test]
fn blocked_status_propagates_down_a_chain() {
    let mut reg = NameRegistry::new();
    let name_a = name(&mut reg, "a");
    let name_b = name(&mut reg, "b");
    let name_c = name(&mut reg, "c");
    let pkg_a = ScriptedPackage {
        name: name_a.clone(),
        deps: vec![],
        installed: None,
        target: erase_version(&NumericVersion { value: 1 }),
        install_ok: false,
        failure: "boom".to_string(),
    };
    let pkg_b = ok_package(name_b.clone(), vec![name_a.clone()]);
    let pkg_c = ok_package(name_c.clone(), vec![name_b.clone()]);
    let mut config: Dotpacks<Ctx, ScriptedPackage> = Dotpacks::new();
    config.add(pkg_a);
    config.add(pkg_b);
    config.add(pkg_c);
    let report = DotpacksRunner::from(config).run(());
    match &report.outcome {
        RunOutcome::Completed(results) => {
            assert!(matches!(results[0].status, PackageStatus::InstallFailed(_)));
            assert!(matches!(results[1].status, PackageStatus::DepBlocked));
            assert!(matches!(results[2].status, PackageStatus::DepBlocked));
        }
        RunOutcome::Rejected(_) => panic!("run was rejected"),
    }
    assert_eq!(report.failures().len(), 3);
}

#[test]
fn simple_package_runs_its_action() {
    let mut reg = NameRegistry::new();
    let name_s = name(&mut reg, "simple");
    let package = SimplePackage::new(name_s.clone(), |_: &Ctx| Ok(()));
    let mut config = Dotpacks::new();
    config.add(package);
    let report = DotpacksRunner::from(config).run(());
    match &report.outcome {
        RunOutcome::Completed(results) => {
            assert_eq!(results.len(), 1);
            assert_eq!(results[0].name, name_s);
            // the probe reports "not installed", so the action always runs
            assert!(matches!(results[0].status, PackageStatus::Installed));
        }
        RunOutcome::Rejected(_) => panic!("run was rejected"),
    }
    assert!(report.success());
}

#[test]
fn simple_package_failure_is_reported() {
    let mut reg = NameRegistry::new();
    let name_s = name(&mut reg, "failing_simple");
    let package = SimplePackage::new(name_s.clone(), |_: &Ctx| {
        Err(InstallError::new("no permission".to_string()))
    });
    let mut config = Dotpacks::new();
    config.add(package);
    let report = DotpacksRunner::from(config).run(());
    match &report.outcome {
        RunOutcome::Completed(results) => {
            assert!(
                matches!(&results[0].status, PackageStatus::InstallFailed(m) if m == "no permission")
            );
        }
        RunOutcome::Rejected(_) => panic!("run was rejected"),
    }
    assert!(!report.success());
    assert_eq!(report.failures(), vec![name_s]);
}

#[test]
fn install_error_describes_itself() {
    let e = InstallError::new("it broke".to_string());
    assert_eq!(e.describe(), "it broke");
    assert_eq!(e.clone().describe(), "it broke");
}

#[test]
fn scripted_simple_package_targets_the_unit_version() {
    let mut reg = NameRegistry::new();
    let name_s = name(&mut reg, "plain");
    let package = dotpacks::package::ScriptedPackage::simple(name_s.clone());
    // the fixed target is the unit version and the probe reports nothing,
    // so a run always performs the action
    assert!(package.target.dyn_eq(&erase_version(&UnitVersion)));
    assert!(package.installed.is_none());
    let mut config: Dotpacks<Ctx, ScriptedPackage> = Dotpacks::new();
    config.add(package);
    let report = DotpacksRunner::from(config).run(());
    match &report.outcome {
        RunOutcome::Completed(results) => {
            assert_eq!(results[0].name, name_s);
            assert!(matches!(results[0].status, PackageStatus::Installed));
        }
        RunOutcome::Rejected(_) => panic!("run was rejected"),
    }
}
