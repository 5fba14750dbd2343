use std::cell::Cell;
use std::rc::Rc;

use dotpacks::package::name::{DotPackageName, NameRegistry};
use dotpacks::package::version::{erase_version, ErasedVersion, NumericVersion};
use dotpacks::package::{FullPackage, InstallError};
use dotpacks::runner::{Dotpacks, DotpacksRunner, PackageStatus, RunOutcome};

struct Counters {
    a_installs: Cell<u32>,
    b_installs: Cell<u32>,
    c_installs: Cell<u32>,
}

fn fresh_counters() -> Rc<Counters> {
    Rc::new(Counters {
        a_installs: Cell::new(0),
        b_installs: Cell::new(0),
        c_installs: Cell::new(0),
    })
}

type Ctx = Rc<Counters>;
type CheckFn = fn(&Ctx) -> Option<ErasedVersion>;
type SelectFn = fn(&Ctx) -> ErasedVersion;
type InstallFn = fn(&Ctx, &ErasedVersion) -> Result<(), InstallError>;
type Pkg = FullPackage<Ctx, CheckFn, SelectFn, InstallFn>;

fn check_absent(_: &Ctx) -> Option<ErasedVersion> {
    None
}

fn check_has_seven(_: &Ctx) -> Option<ErasedVersion> {
    Some(erase_version(&NumericVersion { value: 7 }))
}

fn select_one(_: &Ctx) -> ErasedVersion {
    erase_version(&NumericVersion { value: 1 })
}

fn select_seven(_: &Ctx) -> ErasedVersion {
    erase_version(&NumericVersion { value: 7 })
}

fn install_a(ctx: &Ctx, version: &ErasedVersion) -> Result<(), InstallError> {
    // the runner hands the install action exactly the selected version
    assert!(version.dyn_eq(&select_one(ctx)));
    ctx.a_installs.set(ctx.a_installs.get() + 1);
    Ok(())
}

fn install_a_failing(ctx: &Ctx, _version: &ErasedVersion) -> Result<(), InstallError> {
    ctx.a_installs.set(ctx.a_installs.get() + 1);
    Err(InstallError::new("a failed".to_string()))
}

fn install_b(ctx: &Ctx, _version: &ErasedVersion) -> Result<(), InstallError> {
    ctx.b_installs.set(ctx.b_installs.get() + 1);
    Ok(())
}

fn install_c(ctx: &Ctx, _version: &ErasedVersion) -> Result<(), InstallError> {
    ctx.c_installs.set(ctx.c_installs.get() + 1);
    Ok(())
}

fn name(reg: &mut NameRegistry, token: &str) -> DotPackageName {
    reg.create_identity(token, token)
}

#[test]
fn dependency_installed_exactly_once_and_up_to_date_dependent_never() {
    let mut reg = NameRegistry::new();
    let name_a = name(&mut reg, "a");
    let name_b = name(&mut reg, "b");
    let mut config: Dotpacks<Ctx, Pkg> = Dotpacks::new();
    // A: not installed, must be installed
    config.add(FullPackage::new(
        name_a.clone(),
        vec![],
        check_absent as CheckFn,
        select_one as SelectFn,
        install_a as InstallFn,
    ));
    // B depends on A and already carries the version it selects
    config.add(FullPackage::new(
        name_b.clone(),
        vec![name_a.clone()],
        check_has_seven as CheckFn,
        select_seven as SelectFn,
        install_b as InstallFn,
    ));
    let counters = fresh_counters();
    let report = DotpacksRunner::from(config).run(counters.clone());
    assert_eq!(counters.a_installs.get(), 1);
    assert_eq!(counters.b_installs.get(), 0);
    match &report.outcome {
        RunOutcome::Completed(results) => {
            assert!(matches!(results[0].status, PackageStatus::Installed));
            assert!(matches!(results[1].status, PackageStatus::UpToDate));
        }
        RunOutcome::Rejected(_) => panic!("run was rejected"),
    }
    assert!(report.success());
}

#[test]
fn failing_install_is_recorded_and_independent_package_still_runs() {
    let mut reg = NameRegistry::new();
    let name_a = name(&mut reg, "a");
    let name_c = name(&mut reg, "c");
    let mut config: Dotpacks<Ctx, Pkg> = Dotpacks::new();
    config.add(FullPackage::new(
        name_a.clone(),
        vec![],
        check_absent as CheckFn,
        select_one as SelectFn,
        install_a_failing as InstallFn,
    ));
    config.add(FullPackage::new(
        name_c.clone(),
        vec![],
        check_absent as CheckFn,
        select_one as SelectFn,
        install_c as InstallFn,
    ));
    let counters = fresh_counters();
    let report = DotpacksRunner::from(config).run(counters.clone());
    // A's failure does not abort the run: C's install is still performed
    assert_eq!(counters.a_installs.get(), 1);
    assert_eq!(counters.c_installs.get(), 1);
    match &report.outcome {
        RunOutcome::Completed(results) => {
            assert!(matches!(&results[0].status, PackageStatus::InstallFailed(m) if m == "a failed"));
            assert!(matches!(results[1].status, PackageStatus::Installed));
        }
        RunOutcome::Rejected(_) => panic!("run was rejected"),
    }
    assert!(!report.success());
    assert_eq!(report.failures(), vec![name_a]);
}

#[test]
fn blocked_dependent_install_is_never_invoked() {
    let mut reg = NameRegistry::new();
    let name_a = name(&mut reg, "a");
    let name_b = name(&mut reg, "b");
    let mut config: Dotpacks<Ctx, Pkg> = Dotpacks::new();
    config.add(FullPackage::new(
        name_a.clone(),
        vec![],
        check_absent as CheckFn,
        select_one as SelectFn,
        install_a_failing as InstallFn,
    ));
    config.add(FullPackage::new(
        name_b.clone(),
        vec![name_a.clone()],
        check_absent as CheckFn,
        select_one as SelectFn,
        install_b as InstallFn,
    ));
    let counters = fresh_counters();
    let report = DotpacksRunner::from(config).run(counters.clone());
    assert_eq!(counters.a_installs.get(), 1);
    assert_eq!(counters.b_installs.get(), 0);
    match &report.outcome {
        RunOutcome::Completed(results) => {
            assert!(matches!(results[1].status, PackageStatus::DepBlocked));
        }
        RunOutcome::Rejected(_) => panic!("run was rejected"),
    }
}
