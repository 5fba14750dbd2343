//! The package abstraction: identity, version capability, and the contract a
//! package description satisfies.
//!
//! The full form of a package description knows its identity, the identities
//! of the packages it depends on, and three operations: a read-only probe for
//! the currently installed version, the selection of the version that should
//! be installed, and the installation action itself. The simple form — a
//! name plus one unconditional action — is covered by a description whose
//! probe always reports "not installed" and whose selection is a fixed unit
//! version.

use vstd::prelude::*;

pub mod name;
pub mod version;

use crate::package::name::DotPackageName;
use crate::package::version::{version_value_eq, ErasedVersion, UnitVersion, erase_version, UNIT_VERSION_TAG};

verus! {

/// An installation failure: an opaque error value carrying a human-readable
/// description. Only the install operation can fail.
#[derive(Debug)]
pub struct InstallError {
    /// The human-readable description of the failure.
    pub message: String,
}

impl InstallError {
    /// Wrap a description in an installation failure.
    pub fn new(message: String) -> (e: InstallError)
        ensures
            e.message@ == message@,
    {
        InstallError { message }
    }

    /// The human-readable description of this failure.
    pub fn describe(&self) -> (r: String)
        ensures
            r@ == self.message@,
    {
        self.message.clone()
    }
}

impl Clone for InstallError {
    fn clone(&self) -> (r: Self)
        ensures
            r == *self,
    {
        InstallError { message: self.message.clone() }
    }
}

/// The contract a full-form package description satisfies.
///
/// `Context` is the application-defined value threaded, by shared reference,
/// into every operation.
pub trait DotPackage<Context>: Sized {
    /// The identity of this package, as the specification sees it.
    spec fn name_spec(&self) -> DotPackageName;

    /// The identities this package depends on, as the specification sees
    /// them.
    spec fn deps_spec(&self) -> Seq<DotPackageName>;

    /// Whether the probe can report `r` on `context`.
    spec fn check_permits(&self, context: &Context, r: Option<ErasedVersion>) -> bool;

    /// Whether the version selection can yield `e` on `context`.
    spec fn select_permits(&self, context: &Context, e: ErasedVersion) -> bool;

    /// Whether the installation can return `r` on `context` and `version`.
    spec fn install_permits(
        &self,
        context: &Context,
        version: &ErasedVersion,
        r: Result<(), InstallError>,
    ) -> bool;

    /// The identifier of the package: a pure, stable function of the
    /// instance.
    fn name(&self) -> (n: DotPackageName)
        ensures
            n == self.name_spec(),
    ;

    /// The identities of the packages that must be processed before this
    /// one. May be empty.
    fn deps(&self) -> (d: Vec<DotPackageName>)
        ensures
            d@ == self.deps_spec(),
    ;

    /// Read-only probe: the currently installed version, or nothing when the
    /// package is not installed. Always succeeds and must not mutate system
    /// state.
    fn check(&self, context: &Context) -> (r: Option<ErasedVersion>)
        ensures
            self.check_permits(context, r),
    ;

    /// The version this package should be brought to. Always succeeds.
    fn select_version(&self, context: &Context) -> (e: ErasedVersion)
        ensures
            self.select_permits(context, e),
    ;

    /// Perform the installation actions for `version`; the one operation
    /// that can fail.
    fn install(&self, context: &Context, version: &ErasedVersion) -> (r: Result<(), InstallError>)
        ensures
            self.install_permits(context, version, r),
    ;
}

/// Whether a data-driven package already carries the version it selects, so
/// that a run skips its installation.
pub open spec fn scripted_up_to_date(p: ScriptedPackage) -> bool {
    p.installed matches Option::Some(w) && version_value_eq(w, p.target)
}

/// A package description given entirely as data: what its probe reports,
/// which version it selects, and whether its installation succeeds.
///
/// This is the library's data-driven realization of the package contract;
/// an embedding application whose behavior is decided at run time describes
/// its packages with [`SimplePackage`] or [`FullPackage`], whose operations
/// are actions over the context.
#[derive(Debug)]
pub struct ScriptedPackage {
    /// The identity of the package.
    pub name: DotPackageName,
    /// The identities of the packages this one depends on.
    pub deps: Vec<DotPackageName>,
    /// What the probe reports: the installed version, or nothing.
    pub installed: Option<ErasedVersion>,
    /// The version to bring the package to.
    pub target: ErasedVersion,
    /// Whether the installation action succeeds.
    pub install_ok: bool,
    /// The description reported when the installation action fails.
    pub failure: String,
}

impl ScriptedPackage {
    /// A simple-form package: a name and an unconditional, always-succeeding
    /// action. Its probe always reports "not installed" and it selects the
    /// fixed unit version, so every run performs its action.
    pub fn simple(name: DotPackageName) -> (p: ScriptedPackage)
        ensures
            p.name == name,
            p.deps@ == Seq::<DotPackageName>::empty(),
            p.installed is None,
            p.target.tag == UNIT_VERSION_TAG,
            p.target.repr@ == Seq::<u8>::empty(),
            p.install_ok,
    {
        ScriptedPackage {
            name,
            deps: Vec::new(),
            installed: None,
            target: erase_version(&UnitVersion),
            install_ok: true,
            failure: String::new(),
        }
    }
}

/// The simple, earlier form of a package description: a name plus one
/// unconditional install action, with no probe, no version selection and no
/// dependencies of its own.
///
/// It satisfies the full contract as a package whose probe always reports
/// "not installed" and whose selection is the fixed unit version, so every
/// run performs the action.
pub struct SimplePackage<Context, F: Fn(&Context) -> Result<(), InstallError>> {
    name: DotPackageName,
    install_action: F,
    _context: core::marker::PhantomData<Context>,
}

impl<Context, F: Fn(&Context) -> Result<(), InstallError>> SimplePackage<Context, F> {
    /// The action must be callable on every context value.
    #[verifier::type_invariant]
    closed spec fn wf(self) -> bool {
        forall|c: Context| self.install_action.requires((&c,))
    }

    /// Build a simple-form package from its name and its one action.
    pub fn new(name: DotPackageName, install_action: F) -> (p: Self)
        requires
            forall|c: Context| install_action.requires((&c,)),
        ensures
            p.name_spec() == name,
            p.deps_spec() == Seq::<DotPackageName>::empty(),
    {
        SimplePackage { name, install_action, _context: core::marker::PhantomData }
    }
}

impl<Context, F: Fn(&Context) -> Result<(), InstallError>> DotPackage<Context> for SimplePackage<
    Context,
    F,
> {
    closed spec fn name_spec(&self) -> DotPackageName {
        self.name
    }

    closed spec fn deps_spec(&self) -> Seq<DotPackageName> {
        Seq::empty()
    }

    /// The probe of a simple-form package always reports "not installed".
    open spec fn check_permits(&self, _context: &Context, r: Option<ErasedVersion>) -> bool {
        r is None
    }

    /// A simple-form package always selects the fixed unit version.
    open spec fn select_permits(&self, _context: &Context, e: ErasedVersion) -> bool {
        e.tag == UNIT_VERSION_TAG && e.repr@ == Seq::<u8>::empty()
    }

    /// What the install operation hands back is exactly an outcome of the
    /// stored action.
    closed spec fn install_permits(
        &self,
        context: &Context,
        _version: &ErasedVersion,
        r: Result<(), InstallError>,
    ) -> bool {
        self.install_action.ensures((context,), r)
    }

    fn name(&self) -> DotPackageName {
        self.name.clone()
    }

    fn deps(&self) -> (d: Vec<DotPackageName>) {
        let d: Vec<DotPackageName> = Vec::new();
        proof {
            assert(d@ =~= self.deps_spec());
        }
        d
    }

    fn check(&self, _context: &Context) -> Option<ErasedVersion> {
        Option::None
    }

    fn select_version(&self, _context: &Context) -> ErasedVersion {
        erase_version(&UnitVersion)
    }

    fn install(&self, context: &Context, _version: &ErasedVersion) -> Result<(), InstallError> {
        proof {
            use_type_invariant(&*self);
        }
        (self.install_action)(context)
    }
}

/// A full-form package description whose probe, selection and installation
/// are actions the application supplies over the context: the way an
/// embedding application describes a package whose behaviour is decided at
/// run time.
pub struct FullPackage<Context, C, S, I> where
    C: Fn(&Context) -> Option<ErasedVersion>,
    S: Fn(&Context) -> ErasedVersion,
    I: Fn(&Context, &ErasedVersion) -> Result<(), InstallError>,
{
    name: DotPackageName,
    deps: Vec<DotPackageName>,
    check_action: C,
    select_action: S,
    install_action: I,
    _context: core::marker::PhantomData<Context>,
}

impl<Context, C, S, I> FullPackage<Context, C, S, I> where
    C: Fn(&Context) -> Option<ErasedVersion>,
    S: Fn(&Context) -> ErasedVersion,
    I: Fn(&Context, &ErasedVersion) -> Result<(), InstallError>,
{
    /// Every action must be callable on every context value.
    #[verifier::type_invariant]
    closed spec fn wf(self) -> bool {
        &&& forall|c: Context| self.check_action.requires((&c,))
        &&& forall|c: Context| self.select_action.requires((&c,))
        &&& forall|c: Context, v: ErasedVersion| self.install_action.requires((&c, &v))
    }

    /// Build a full-form package from its identity, the identities it
    /// depends on, and its three actions.
    pub fn new(
        name: DotPackageName,
        deps: Vec<DotPackageName>,
        check_action: C,
        select_action: S,
        install_action: I,
    ) -> (p: Self)
        requires
            forall|c: Context| check_action.requires((&c,)),
            forall|c: Context| select_action.requires((&c,)),
            forall|c: Context, v: ErasedVersion| install_action.requires((&c, &v)),
        ensures
            p.name_spec() == name,
            p.deps_spec() == deps@,
    {
        FullPackage {
            name,
            deps,
            check_action,
            select_action,
            install_action,
            _context: core::marker::PhantomData,
        }
    }
}

impl<Context, C, S, I> DotPackage<Context> for FullPackage<Context, C, S, I> where
    C: Fn(&Context) -> Option<ErasedVersion>,
    S: Fn(&Context) -> ErasedVersion,
    I: Fn(&Context, &ErasedVersion) -> Result<(), InstallError>,
{
    closed spec fn name_spec(&self) -> DotPackageName {
        self.name
    }

    closed spec fn deps_spec(&self) -> Seq<DotPackageName> {
        self.deps@
    }

    /// The probe's report is an outcome of the stored probe action.
    closed spec fn check_permits(&self, context: &Context, r: Option<ErasedVersion>) -> bool {
        self.check_action.ensures((context,), r)
    }

    /// The selection is an outcome of the stored selection action.
    closed spec fn select_permits(&self, context: &Context, e: ErasedVersion) -> bool {
        self.select_action.ensures((context,), e)
    }

    /// The install result is an outcome of the stored install action.
    closed spec fn install_permits(
        &self,
        context: &Context,
        version: &ErasedVersion,
        r: Result<(), InstallError>,
    ) -> bool {
        self.install_action.ensures((context, version), r)
    }

    fn name(&self) -> DotPackageName {
        self.name.clone()
    }

    fn deps(&self) -> (d: Vec<DotPackageName>) {
        let mut d: Vec<DotPackageName> = Vec::new();
        let n = self.deps.len();
        let mut i: usize = 0;
        while i < n
            invariant
                n == self.deps@.len(),
                i <= n,
                d@ =~= self.deps@.subrange(0, i as int),
            decreases n - i,
        {
            d.push(self.deps[i].clone());
            i += 1;
        }
        proof {
            assert(d@ =~= self.deps@);
        }
        d
    }

    fn check(&self, context: &Context) -> Option<ErasedVersion> {
        proof {
            use_type_invariant(&*self);
        }
        (self.check_action)(context)
    }

    fn select_version(&self, context: &Context) -> ErasedVersion {
        proof {
            use_type_invariant(&*self);
        }
        (self.select_action)(context)
    }

    fn install(&self, context: &Context, version: &ErasedVersion) -> Result<(), InstallError> {
        proof {
            use_type_invariant(&*self);
        }
        (self.install_action)(context, version)
    }
}

impl<Context> DotPackage<Context> for ScriptedPackage {
    open spec fn name_spec(&self) -> DotPackageName {
        self.name
    }

    open spec fn deps_spec(&self) -> Seq<DotPackageName> {
        self.deps@
    }

    /// The probe reports exactly the scripted installed version, if any.
    open spec fn check_permits(&self, _context: &Context, r: Option<ErasedVersion>) -> bool {
        match (r, self.installed) {
            (Option::None, Option::None) => true,
            (Option::Some(v), Option::Some(w)) => v.tag == w.tag && v.repr@ == w.repr@,
            _ => false,
        }
    }

    /// The selection yields exactly the scripted target version.
    open spec fn select_permits(&self, _context: &Context, e: ErasedVersion) -> bool {
        e.tag == self.target.tag && e.repr@ == self.target.repr@
    }

    /// The installation succeeds exactly as scripted; a failure carries the
    /// scripted description.
    open spec fn install_permits(
        &self,
        _context: &Context,
        _version: &ErasedVersion,
        r: Result<(), InstallError>,
    ) -> bool {
        if self.install_ok {
            r is Ok
        } else {
            r matches Result::Err(e) && e.message@ == self.failure@
        }
    }

    fn name(&self) -> DotPackageName {
        self.name.clone()
    }

    fn deps(&self) -> (d: Vec<DotPackageName>) {
        let mut d: Vec<DotPackageName> = Vec::new();
        let n = self.deps.len();
        let mut i: usize = 0;
        while i < n
            invariant
                n == self.deps@.len(),
                i <= n,
                d@ =~= self.deps@.subrange(0, i as int),
            decreases n - i,
        {
            d.push(self.deps[i].clone());
            i += 1;
        }
        proof {
            assert(d@ =~= self.deps@);
        }
        d
    }

    fn check(&self, _context: &Context) -> Option<ErasedVersion> {
        match &self.installed {
            Option::None => Option::None,
            Option::Some(v) => Option::Some(v.clone()),
        }
    }

    fn select_version(&self, _context: &Context) -> ErasedVersion {
        self.target.clone()
    }

    fn install(&self, _context: &Context, _version: &ErasedVersion) -> Result<(), InstallError> {
        if self.install_ok {
            Result::Ok(())
        } else {
            Result::Err(InstallError::new(self.failure.clone()))
        }
    }
}

} // verus!
