//! The configuration container and the runner that drives installation.
//!
//! A `Dotpacks` value accumulates package descriptions; converting it into a
//! `DotpacksRunner` and invoking `run` reconciles installed state with
//! desired state across all packages: dependencies are visited before their
//! dependents, a package whose probe already reports the selected version is
//! skipped, a failed installation blocks its dependents but not independent
//! packages, and every failure is reported at the end of the run.

use vstd::prelude::*;
use vstd::seq_lib::*;
use vstd::set_lib::*;
use vstd::string::StringExecFns;
use core::marker::PhantomData;

use crate::package::{scripted_up_to_date, DotPackage, InstallError, ScriptedPackage};
use crate::package::name::DotPackageName;
use crate::package::version::{version_value_eq, ErasedVersion};
use crate::text::{spec_decimal, u64_to_decimal};

verus! {

/// Why a run rejected its configuration before touching any package.
#[derive(Debug)]
pub enum ConfigError {
    /// Two configured packages carry the same identity.
    DuplicateName(DotPackageName),
    /// A package depends on an identity that no configured package carries.
    UnknownDependency {
        /// The package whose dependency list names the missing identity.
        dependent: DotPackageName,
        /// The identity that no configured package carries.
        dependency: DotPackageName,
    },
    /// The named packages depend on one another in a cycle, so no
    /// dependency-respecting order exists.
    Cycle(Vec<DotPackageName>),
}

/// What a completed run decided and observed for one package.
#[derive(Debug)]
pub enum PackageStatus {
    /// The probe reported a version equal to the selected one, so the
    /// installation was skipped.
    UpToDate,
    /// The installation ran and succeeded.
    Installed,
    /// The installation ran and failed, with the failure's description.
    InstallFailed(String),
    /// A dependency failed, so this package was never attempted.
    DepBlocked,
}

impl Clone for PackageStatus {
    fn clone(&self) -> (r: Self)
        ensures
            r == *self,
    {
        match self {
            PackageStatus::UpToDate => PackageStatus::UpToDate,
            PackageStatus::Installed => PackageStatus::Installed,
            PackageStatus::InstallFailed(m) => PackageStatus::InstallFailed(m.clone()),
            PackageStatus::DepBlocked => PackageStatus::DepBlocked,
        }
    }
}

/// A status that counts as a failure: the package's own installation failed,
/// or a dependency's did and the package was never attempted.
pub open spec fn failing(st: PackageStatus) -> bool {
    st is InstallFailed || st is DepBlocked
}

/// Whether `st` counts as a failure.
pub fn is_failing(st: &PackageStatus) -> (r: bool)
    ensures
        r == failing(*st),
{
    match st {
        PackageStatus::InstallFailed(_) => true,
        PackageStatus::DepBlocked => true,
        _ => false,
    }
}

/// Whether the probe's report already carries the selected version, so that
/// the installation may be skipped.
pub fn is_up_to_date(checked: &Option<ErasedVersion>, selected: &ErasedVersion) -> (r: bool)
    ensures
        r == ((*checked) matches Option::Some(v) && version_value_eq(v, *selected)),
{
    match checked {
        Option::Some(v) => v.dyn_eq(selected),
        Option::None => false,
    }
}

/// The status recorded for a package whose installation ran: success, or a
/// failure carrying the install error's own description — no failure is
/// swallowed.
pub fn status_of_install(outcome: Result<(), InstallError>) -> (st: PackageStatus)
    ensures
        (st is Installed) <==> outcome is Ok,
        outcome matches Result::Err(e) ==> (st matches PackageStatus::InstallFailed(m) && m@
            == e.message@),
{
    match outcome {
        Result::Ok(_) => PackageStatus::Installed,
        Result::Err(e) => PackageStatus::InstallFailed(e.message),
    }
}

/// The outcome a run records for one package.
#[derive(Debug)]
pub struct PackageResult {
    /// The package's identity.
    pub name: DotPackageName,
    /// What the run decided and observed for it.
    pub status: PackageStatus,
}

/// How a run ended: rejected before any work, or completed with one result
/// per configured package, in configuration order.
#[derive(Debug)]
pub enum RunOutcome {
    /// The configuration was rejected; nothing was attempted.
    Rejected(ConfigError),
    /// Every package was visited in dependency order.
    Completed(Vec<PackageResult>),
}

/// Everything a run reports.
#[derive(Debug)]
pub struct RunReport {
    /// The human-readable count line: `"<n> packages found."`.
    pub count_line: String,
    /// How the run ended.
    pub outcome: RunOutcome,
}

/// The text of the count line for `n` configured packages.
pub open spec fn count_line_spec(n: nat) -> Seq<char> {
    spec_decimal(n) + " packages found."@
}

/// The identities of the failing results, in report order.
pub open spec fn failing_names(results: Seq<PackageResult>) -> Seq<DotPackageName>
    decreases results.len(),
{
    if results.len() == 0 {
        Seq::empty()
    } else {
        let rest = failing_names(results.drop_last());
        if failing(results.last().status) {
            rest.push(results.last().name)
        } else {
            rest
        }
    }
}

/// There are no failing names exactly when no result is failing.
pub proof fn lemma_failing_names_empty(results: Seq<PackageResult>)
    ensures
        failing_names(results).len() == 0 <==> (forall|i: int|
            0 <= i < results.len() ==> !failing(#[trigger] results[i].status)),
    decreases results.len(),
{
    if results.len() > 0 {
        lemma_failing_names_empty(results.drop_last());
        if failing(results.last().status) {
            assert(failing(results[results.len() - 1].status));
        } else {
            assert(forall|i: int|
                0 <= i < results.len() - 1 ==> results.drop_last()[i] == results[i]);
        }
    }
}

/// Whether packages `i` and `j` of the configuration stand in the
/// dependency relation: `i` declares a dependency with `j`'s identity.
pub open spec fn depends_on<Context, P: DotPackage<Context>>(
    packages: Seq<P>,
    i: int,
    j: int,
) -> bool {
    exists|k: int|
        0 <= k < packages[i].deps_spec().len() && (#[trigger] packages[i].deps_spec()[k]).unique
            == packages[j].name_spec().unique
}

/// No two configured packages carry the same identity.
pub open spec fn distinct_names<Context, P: DotPackage<Context>>(packages: Seq<P>) -> bool {
    forall|i: int, j: int|
        #![trigger packages[i].name_spec(), packages[j].name_spec()]
        0 <= i < j < packages.len() ==> packages[i].name_spec().unique
            != packages[j].name_spec().unique
}

/// Every declared dependency names a configured package.
pub open spec fn deps_known<Context, P: DotPackage<Context>>(packages: Seq<P>) -> bool {
    forall|i: int, k: int|
        0 <= i < packages.len() && 0 <= k < packages[i].deps_spec().len() ==> exists|j: int|
            0 <= j < packages.len() && packages[j].name_spec().unique == (
            #[trigger] packages[i].deps_spec()[k]).unique
}

/// A witness that the dependency graph has a cycle: a nonempty set of
/// configured packages each of which depends on another member.
pub open spec fn cycle_witness<Context, P: DotPackage<Context>>(
    packages: Seq<P>,
    s: Set<int>,
) -> bool {
    &&& exists|i: int| #[trigger] s.contains(i)
    &&& forall|i: int| #[trigger] s.contains(i) ==> 0 <= i < packages.len()
    &&& forall|i: int|
        #[trigger] s.contains(i) ==> exists|j: int| s.contains(j) && depends_on(packages, i, j)
}

/// The dependency graph has no cycle.
pub open spec fn acyclic<Context, P: DotPackage<Context>>(packages: Seq<P>) -> bool {
    forall|s: Set<int>| !cycle_witness(packages, s)
}

/// A configuration a run accepts: distinct identities, every dependency
/// configured, and no dependency cycle.
pub open spec fn valid_config<Context, P: DotPackage<Context>>(packages: Seq<P>) -> bool {
    &&& distinct_names(packages)
    &&& deps_known(packages)
    &&& acyclic(packages)
}

/// The identity of every configured package, in configuration order.
fn collect_names<Context, P: DotPackage<Context>>(packages: &Vec<P>) -> (names: Vec<
    DotPackageName,
>)
    ensures
        names@.len() == packages@.len(),
        forall|i: int| 0 <= i < names@.len() ==> (#[trigger] names@[i]) == packages@[i].name_spec(),
{
    let n = packages.len();
    let mut names: Vec<DotPackageName> = Vec::new();
    let mut i: usize = 0;
    while i < n
        invariant
            n == packages@.len(),
            i <= n,
            names@.len() == i,
            forall|j: int| 0 <= j < i ==> (#[trigger] names@[j]) == packages@[j].name_spec(),
        decreases n - i,
    {
        names.push(packages[i].name());
        i += 1;
    }
    names
}

/// The position of the first identity carrying `unique`, if any.
fn find_name_index(names: &Vec<DotPackageName>, unique: u64) -> (r: Option<usize>)
    ensures
        match r {
            Option::Some(j) => j < names@.len() && names@[j as int].unique == unique,
            Option::None => forall|j: int|
                0 <= j < names@.len() ==> (#[trigger] names@[j]).unique != unique,
        },
{
    let n = names.len();
    let mut j: usize = 0;
    while j < n
        invariant
            n == names@.len(),
            j <= n,
            forall|q: int| 0 <= q < j ==> (#[trigger] names@[q]).unique != unique,
        decreases n - j,
    {
        if names[j].unique == unique {
            return Option::Some(j);
        }
        j += 1;
    }
    Option::None
}

/// The position of the first identity that repeats an earlier one, if any.
fn find_duplicate(names: &Vec<DotPackageName>) -> (r: Option<usize>)
    ensures
        match r {
            Option::Some(j) => j < names@.len() && exists|i: int|
                0 <= i < j && (#[trigger] names@[i]).unique == names@[j as int].unique,
            Option::None => forall|i: int, j: int|
                #![trigger names@[i], names@[j]]
                0 <= i < j < names@.len() ==> names@[i].unique != names@[j].unique,
        },
{
    let n = names.len();
    let mut j: usize = 0;
    while j < n
        invariant
            n == names@.len(),
            j <= n,
            forall|a: int, b: int|
                #![trigger names@[a], names@[b]]
                0 <= a < b < j ==> names@[a].unique != names@[b].unique,
        decreases n - j,
    {
        let mut i: usize = 0;
        while i < j
            invariant
                j < n == names@.len(),
                i <= j,
                forall|a: int| 0 <= a < i ==> (#[trigger] names@[a]).unique != names@[j as int].unique,
            decreases j - i,
        {
            if names[i].unique == names[j].unique {
                return Option::Some(j);
            }
            i += 1;
        }
        j += 1;
    }
    Option::None
}

/// Every entry of every dependency list is a position inside `d` itself.
pub open spec fn idx_bounded(d: Seq<Vec<usize>>) -> bool {
    forall|i: int, k: int|
        0 <= i < d.len() && 0 <= k < d[i]@.len() ==> ((#[trigger] d[i]@[k]) as int) < d.len()
}

/// Pick an unplaced package all of whose dependencies are placed, if any.
fn find_candidate(dep_idx: &Vec<Vec<usize>>, placed: &Vec<bool>) -> (r: Option<usize>)
    requires
        placed@.len() == dep_idx@.len(),
        idx_bounded(dep_idx@),
    ensures
        match r {
            Option::Some(i) => {
                &&& i < dep_idx@.len()
                &&& !placed@[i as int]
                &&& forall|k: int|
                    0 <= k < dep_idx@[i as int]@.len()
                        ==> placed@[#[trigger] dep_idx@[i as int]@[k] as int]
            },
            Option::None => forall|i: int|
                0 <= i < dep_idx@.len() && !placed@[i] ==> exists|k: int|
                    0 <= k < dep_idx@[i]@.len() && !placed@[#[trigger] dep_idx@[i]@[k] as int],
        },
{
    let n = dep_idx.len();
    let mut i: usize = 0;
    while i < n
        invariant
            n == dep_idx@.len(),
            placed@.len() == n,
            i <= n,
            idx_bounded(dep_idx@),
            forall|a: int|
                0 <= a < i && !placed@[a] ==> exists|k: int|
                    0 <= k < dep_idx@[a]@.len() && !placed@[#[trigger] dep_idx@[a]@[k] as int],
        decreases n - i,
    {
        if !placed[i] {
            let deps = &dep_idx[i];
            let m = deps.len();
            let mut k: usize = 0;
            let mut all_placed = true;
            while k < m
                invariant
                    m == deps@.len(),
                    deps@ == dep_idx@[i as int]@,
                    placed@.len() == dep_idx@.len(),
                    forall|q: int|
                        0 <= q < deps@.len() ==> (deps@[q] as int) < placed@.len(),
                    k <= m,
                    all_placed <==> (forall|q: int|
                        0 <= q < k ==> placed@[#[trigger] deps@[q] as int]),
                decreases m - k,
            {
                if !placed[deps[k]] {
                    all_placed = false;
                    proof {
                        assert(!placed@[deps@[k as int] as int]);
                    }
                    k = m;
                } else {
                    k += 1;
                }
            }
            if all_placed {
                return Option::Some(i);
            }
        }
        i += 1;
    }
    Option::None
}

/// A sequence of fewer than `n` distinct positions below `n` must miss one.
proof fn lemma_missing_index(order: Seq<usize>, n: nat)
    requires
        n <= usize::MAX,
        order.no_duplicates(),
        order_in_bounds(order, n as int),
        order.len() < n,
    ensures
        exists|i: int| 0 <= i < n && !(#[trigger] order.contains(i as usize)),
{
    broadcast use vstd::seq_lib::seq_to_set_is_finite;

    if !(exists|i: int| 0 <= i < n && !(#[trigger] order.contains(i as usize))) {
        let ints = order.map_values(|u: usize| u as int);
        assert(ints.no_duplicates()) by {
            assert forall|q1: int, q2: int|
                0 <= q1 < ints.len() && 0 <= q2 < ints.len() && q1 != q2
                implies ints[q1] != ints[q2] by {
                assert(order[q1] != order[q2]);
            }
        }
        ints.unique_seq_to_set();
        let range = set_int_range(0, n as int);
        assert(range.subset_of(ints.to_set())) by {
            assert forall|i: int| range.contains(i) implies ints.to_set().contains(i) by {
                assert(order.contains(i as usize));
                let q = choose|q: int| 0 <= q < order.len() && order[q] == i as usize;
                assert(ints[q] == i);
                assert(ints.contains(i));
            }
        }
        lemma_int_range(0, n as int);
        lemma_len_subset(range, ints.to_set());
        assert(false);
    }
}

/// Every position of `order` lies below `n`.
pub open spec fn order_in_bounds(order: Seq<usize>, n: int) -> bool {
    forall|q: int| 0 <= q < order.len() ==> ((#[trigger] order[q]) as int) < n
}

/// `placed` marks exactly the positions that occur in `order`.
#[verifier::opaque]
pub open spec fn placed_matches(placed: Seq<bool>, order: Seq<usize>) -> bool {
    forall|x: int|
        0 <= x < placed.len() ==> ((#[trigger] placed[x]) <==> order.contains(x as usize))
}

/// Dependency `k` of the member at position `q` of `order` stands at an
/// earlier position.
pub open spec fn has_earlier_dep(
    dep_idx: Seq<Vec<usize>>,
    order: Seq<usize>,
    q: int,
    k: int,
) -> bool {
    exists|p: int| 0 <= p < q && order[p] == dep_idx[order[q] as int]@[k]
}

/// Every dependency of every member of `order` stands earlier in `order`.
#[verifier::opaque]
pub open spec fn ordered_prefix(dep_idx: Seq<Vec<usize>>, order: Seq<usize>) -> bool {
    forall|q: int, k: int|
        0 <= q < order.len() && 0 <= k < dep_idx[order[q] as int]@.len()
            ==> #[trigger] has_earlier_dep(dep_idx, order, q, k)
}

/// The member at position `m` of `stuck` has a dependency that is itself a
/// member of `stuck`.
pub open spec fn waits_within(dep_idx: Seq<Vec<usize>>, stuck: Seq<usize>, m: int) -> bool {
    exists|k: int|
        0 <= k < dep_idx[stuck[m] as int]@.len() && stuck.contains(dep_idx[stuck[m] as int]@[k])
}

/// Every member of `stuck` has a dependency that is itself a member.
#[verifier::opaque]
pub open spec fn stuck_set(dep_idx: Seq<Vec<usize>>, stuck: Seq<usize>) -> bool {
    forall|m: int| 0 <= m < stuck.len() ==> #[trigger] waits_within(dep_idx, stuck, m)
}

/// Placing a candidate whose dependencies are all placed keeps every
/// invariant of the planning loop.
proof fn lemma_place_step(
    dep_idx: Seq<Vec<usize>>,
    old_order: Seq<usize>,
    new_order: Seq<usize>,
    old_placed: Seq<bool>,
    new_placed: Seq<bool>,
    i: usize,
    n: int,
)
    requires
        n == dep_idx.len(),
        n <= usize::MAX,
        idx_bounded(dep_idx),
        old_placed.len() == n,
        old_order.no_duplicates(),
        order_in_bounds(old_order, n),
        placed_matches(old_placed, old_order),
        ordered_prefix(dep_idx, old_order),
        (i as int) < n,
        !old_placed[i as int],
        forall|k: int|
            0 <= k < dep_idx[i as int]@.len() ==> old_placed[(
            #[trigger] dep_idx[i as int]@[k]) as int],
        new_order == old_order.push(i),
        new_placed == old_placed.update(i as int, true),
    ensures
        new_order.no_duplicates(),
        order_in_bounds(new_order, n),
        placed_matches(new_placed, new_order),
        ordered_prefix(dep_idx, new_order),
{
    reveal(placed_matches);
    reveal(ordered_prefix);
    assert(!old_order.contains(i));
    assert forall|q1: int, q2: int|
        0 <= q1 < new_order.len() && 0 <= q2 < new_order.len() && q1 != q2
        implies new_order[q1] != new_order[q2] by {
        if q1 < old_order.len() && q2 < old_order.len() {
        } else if q2 == old_order.len() {
            if new_order[q1] == i {
                assert(old_order.contains(i));
            }
        } else {
            if new_order[q2] == i {
                assert(old_order.contains(i));
            }
        }
    }
    assert forall|x: int| 0 <= x < new_placed.len()
        implies ((#[trigger] new_placed[x]) <==> new_order.contains(x as usize)) by {
        if x == i as int {
            assert(new_order[new_order.len() - 1] == i);
            assert(new_order.contains(i));
        } else {
            if new_order.contains(x as usize) {
                let q = choose|q: int| 0 <= q < new_order.len() && new_order[q] == x as usize;
                if q == old_order.len() {
                    assert(new_order[q] == i);
                    assert(((x as usize) as int) == x);
                }
                assert(q < old_order.len());
                assert(old_order.contains(x as usize));
            }
            if old_placed[x] {
                let q = choose|q: int| 0 <= q < old_order.len() && old_order[q] == x as usize;
                assert(new_order[q] == x as usize);
                assert(new_order.contains(x as usize));
            }
        }
    }
    assert forall|q: int, k: int|
        0 <= q < new_order.len() && 0 <= k < dep_idx[new_order[q] as int]@.len()
        implies #[trigger] has_earlier_dep(dep_idx, new_order, q, k) by {
        if q < old_order.len() {
            assert(new_order[q] == old_order[q]);
            assert(has_earlier_dep(dep_idx, old_order, q, k));
            let p = choose|p: int|
                0 <= p < q && old_order[p] == dep_idx[old_order[q] as int]@[k];
            assert(new_order[p] == dep_idx[new_order[q] as int]@[k]);
        } else {
            assert(new_order[q] == i);
            let d = dep_idx[i as int]@[k];
            assert(old_placed[d as int]);
            assert(old_order.contains(d));
            let p = choose|p: int| 0 <= p < old_order.len() && old_order[p] == d;
            assert(new_order[p] == d);
        }
    }
}

/// The positions not yet placed, in increasing order.
fn collect_unplaced(placed: &Vec<bool>) -> (stuck: Vec<usize>)
    ensures
        stuck@.no_duplicates(),
        forall|m: int|
            0 <= m < stuck@.len() ==> ((#[trigger] stuck@[m]) as int) < placed@.len()
                && !placed@[stuck@[m] as int],
        forall|x: int|
            0 <= x < placed@.len() && !(#[trigger] placed@[x]) ==> stuck@.contains(x as usize),
{
    let n = placed.len();
    let mut stuck: Vec<usize> = Vec::new();
    let mut idx: usize = 0;
    while idx < n
        invariant
            n == placed@.len(),
            idx <= n,
            forall|m1: int, m2: int|
                0 <= m1 < m2 < stuck@.len() ==> (#[trigger] stuck@[m1]) < (#[trigger] stuck@[m2]),
            forall|m: int| 0 <= m < stuck@.len() ==> ((#[trigger] stuck@[m]) as int) < idx,
            forall|m: int| 0 <= m < stuck@.len() ==> !placed@[(#[trigger] stuck@[m]) as int],
            forall|x: int|
                0 <= x < idx && !(#[trigger] placed@[x]) ==> stuck@.contains(x as usize),
        decreases n - idx,
    {
        if !placed[idx] {
            let ghost old_stuck = stuck@;
            stuck.push(idx);
            proof {
                assert(stuck@[stuck@.len() - 1] == idx);
                assert forall|x: int| 0 <= x < idx + 1 && !(#[trigger] placed@[x])
                    implies stuck@.contains(x as usize) by {
                    if x < idx {
                        let m = choose|m: int|
                            0 <= m < old_stuck.len() && old_stuck[m] == x as usize;
                        assert(stuck@[m] == x as usize);
                    } else {
                        assert(stuck@[stuck@.len() - 1] == x as usize);
                    }
                }
            }
        }
        idx += 1;
    }
    proof {
        assert forall|m1: int, m2: int|
            0 <= m1 < stuck@.len() && 0 <= m2 < stuck@.len() && m1 != m2
            implies stuck@[m1] != stuck@[m2] by {
            if m1 < m2 {
            } else {
            }
        }
    }
    stuck
}

/// When not every position is placed, at least one position is unplaced, so
/// the collection of unplaced positions is nonempty.
proof fn lemma_stuck_nonempty(placed: Seq<bool>, stuck: Seq<usize>, order: Seq<usize>, n: int)
    requires
        0 < n <= usize::MAX,
        placed.len() == n,
        order.no_duplicates(),
        order_in_bounds(order, n),
        order.len() < n,
        placed_matches(placed, order),
        forall|x: int| 0 <= x < n && !(#[trigger] placed[x]) ==> stuck.contains(x as usize),
    ensures
        stuck.len() > 0,
{
    lemma_missing_index(order, n as nat);
    let miss = choose|x: int| 0 <= x < n && !(#[trigger] order.contains(x as usize));
    assert(!placed[miss]) by {
        reveal(placed_matches);
    }
    assert(stuck.contains(miss as usize));
}

/// When no candidate can be placed, every unplaced position waits on an
/// unplaced dependency, so the unplaced positions wait on one another.
proof fn lemma_stuck_set(dep_idx: Seq<Vec<usize>>, placed: Seq<bool>, stuck: Seq<usize>, n: int)
    requires
        n == dep_idx.len(),
        idx_bounded(dep_idx),
        placed.len() == n,
        forall|i: int|
            0 <= i < n && !placed[i] ==> exists|k: int|
                0 <= k < dep_idx[i]@.len() && !placed[(#[trigger] dep_idx[i]@[k]) as int],
        forall|m: int|
            0 <= m < stuck.len() ==> ((#[trigger] stuck[m]) as int) < n && !placed[stuck[m] as int],
        forall|x: int| 0 <= x < n && !(#[trigger] placed[x]) ==> stuck.contains(x as usize),
    ensures
        stuck_set(dep_idx, stuck),
{
    reveal(stuck_set);
    assert forall|m: int| 0 <= m < stuck.len()
        implies #[trigger] waits_within(dep_idx, stuck, m) by {
        let i = stuck[m];
        assert(!placed[i as int]);
        let k = choose|k: int|
            0 <= k < dep_idx[i as int]@.len() && !placed[(
            #[trigger] dep_idx[i as int]@[k]) as int];
        let d = dep_idx[i as int]@[k];
        assert((d as int) < n);
        assert(stuck.contains(d));
        assert(0 <= k < dep_idx[stuck[m] as int]@.len() && stuck.contains(
            dep_idx[stuck[m] as int]@[k],
        ));
    }
}

/// A dependency-respecting order over all packages, or the nonempty set of
/// positions that wait on one another and can never be placed.
fn plan_order(dep_idx: &Vec<Vec<usize>>) -> (r: Result<Vec<usize>, Vec<usize>>)
    requires
        idx_bounded(dep_idx@),
    ensures
        match r {
            Result::Ok(order) => {
                &&& order@.len() == dep_idx@.len()
                &&& order@.no_duplicates()
                &&& order_in_bounds(order@, dep_idx@.len() as int)
                &&& ordered_prefix(dep_idx@, order@)
            },
            Result::Err(stuck) => {
                &&& stuck@.len() > 0
                &&& stuck@.no_duplicates()
                &&& order_in_bounds(stuck@, dep_idx@.len() as int)
                &&& stuck_set(dep_idx@, stuck@)
            },
        },
{
    let n = dep_idx.len();
    let mut placed: Vec<bool> = Vec::new();
    let mut f: usize = 0;
    while f < n
        invariant
            f <= n,
            placed@.len() == f,
            forall|x: int| 0 <= x < f ==> !(#[trigger] placed@[x]),
        decreases n - f,
    {
        placed.push(false);
        f += 1;
    }
    let mut order: Vec<usize> = Vec::new();
    proof {
        reveal(placed_matches);
        reveal(ordered_prefix);
        assert(placed_matches(placed@, order@));
        assert(ordered_prefix(dep_idx@, order@));
    }
    while order.len() < n
        invariant
            n == dep_idx@.len(),
            idx_bounded(dep_idx@),
            placed@.len() == n,
            order@.len() <= n,
            order@.no_duplicates(),
            order_in_bounds(order@, n as int),
            placed_matches(placed@, order@),
            ordered_prefix(dep_idx@, order@),
        decreases n - order@.len(),
    {
        match find_candidate(dep_idx, &placed) {
            Option::Some(i) => {
                let ghost old_order = order@;
                let ghost old_placed = placed@;
                placed.set(i, true);
                order.push(i);
                proof {
                    lemma_place_step(
                        dep_idx@,
                        old_order,
                        order@,
                        old_placed,
                        placed@,
                        i,
                        n as int,
                    );
                }
            },
            Option::None => {
                let stuck = collect_unplaced(&placed);
                proof {
                    lemma_stuck_nonempty(placed@, stuck@, order@, n as int);
                    lemma_stuck_set(dep_idx@, placed@, stuck@, n as int);
                }
                return Result::Err(stuck);
            },
        }
    }
    Result::Ok(order)
}

/// `dep_idx` resolves every declared dependency to the position of the
/// configured package carrying that identity.
pub open spec fn resolves<Context, P: DotPackage<Context>>(
    packages: Seq<P>,
    dep_idx: Seq<Vec<usize>>,
) -> bool {
    &&& dep_idx.len() == packages.len()
    &&& forall|i: int|
        0 <= i < packages.len() ==> (#[trigger] dep_idx[i])@.len() == packages[i].deps_spec().len()
    &&& forall|i: int, k: int|
        0 <= i < packages.len() && 0 <= k < dep_idx[i]@.len() ==> {
            &&& ((#[trigger] dep_idx[i]@[k]) as int) < packages.len()
            &&& packages[dep_idx[i]@[k] as int].name_spec().unique
                == packages[i].deps_spec()[k].unique
        }
}

/// The status recorded for a position, when one is recorded, is failing.
pub open spec fn some_failing(o: Option<PackageStatus>) -> bool {
    o matches Option::Some(st) && failing(st)
}

/// Some resolved dependency of package `i` has a failing recorded status.
pub open spec fn dep_failed(
    dep_idx: Seq<Vec<usize>>,
    status: Seq<Option<PackageStatus>>,
    i: int,
) -> bool {
    exists|k: int|
        0 <= k < dep_idx[i]@.len() && some_failing(status[(#[trigger] dep_idx[i]@[k]) as int])
}

/// A recorded status obeys the blocking rule: it reads `DepBlocked` exactly
/// when some resolved dependency has a failing recorded status.
pub open spec fn status_rule(
    dep_idx: Seq<Vec<usize>>,
    status: Seq<Option<PackageStatus>>,
    i: int,
) -> bool {
    status[i] matches Option::Some(st) ==> ((st is DepBlocked) <==> dep_failed(
        dep_idx,
        status,
        i,
    ))
}

/// The invariant of the processing loop after `pos` packages of `order` have
/// been handled: exactly those packages have a recorded status, and every
/// recorded status obeys the blocking rule.
#[verifier::opaque]
pub open spec fn run_inv(
    dep_idx: Seq<Vec<usize>>,
    order: Seq<usize>,
    status: Seq<Option<PackageStatus>>,
    pos: int,
) -> bool {
    &&& forall|q: int| 0 <= q < pos ==> (#[trigger] status[order[q] as int]) is Some
    &&& forall|i: int|
        0 <= i < status.len() && ((#[trigger] status[i]) is Some) ==> exists|q: int|
            0 <= q < pos && (#[trigger] order[q]) as int == i
    &&& forall|q: int| 0 <= q < pos ==> status_rule(dep_idx, status, (#[trigger] order[q]) as int)
}

/// Every resolved dependency of the package at position `pos` of `order`
/// already has a recorded status.
proof fn lemma_deps_processed(
    dep_idx: Seq<Vec<usize>>,
    order: Seq<usize>,
    status: Seq<Option<PackageStatus>>,
    pos: int,
    q: int,
    k: int,
)
    requires
        idx_bounded(dep_idx),
        status.len() == dep_idx.len(),
        order_in_bounds(order, dep_idx.len() as int),
        ordered_prefix(dep_idx, order),
        run_inv(dep_idx, order, status, pos),
        0 <= q < order.len(),
        q <= pos,
        0 <= k < dep_idx[order[q] as int]@.len(),
    ensures
        status[dep_idx[order[q] as int]@[k] as int] is Some,
{
    reveal(ordered_prefix);
    reveal(run_inv);
    assert(has_earlier_dep(dep_idx, order, q, k));
    let pp = choose|pp: int| 0 <= pp < q && order[pp] == dep_idx[order[q] as int]@[k];
    assert(status[order[pp] as int] is Some);
}

/// Recording a status that obeys the blocking rule for the next package of
/// `order` keeps the processing-loop invariant.
proof fn lemma_run_step(
    dep_idx: Seq<Vec<usize>>,
    order: Seq<usize>,
    old_status: Seq<Option<PackageStatus>>,
    new_status: Seq<Option<PackageStatus>>,
    pos: int,
    st: PackageStatus,
)
    requires
        idx_bounded(dep_idx),
        old_status.len() == dep_idx.len(),
        order.no_duplicates(),
        order_in_bounds(order, dep_idx.len() as int),
        ordered_prefix(dep_idx, order),
        run_inv(dep_idx, order, old_status, pos),
        0 <= pos < order.len(),
        new_status == old_status.update(order[pos] as int, Option::Some(st)),
        (st is DepBlocked) <==> dep_failed(dep_idx, old_status, order[pos] as int),
    ensures
        run_inv(dep_idx, order, new_status, pos + 1),
{
    reveal(run_inv);
    let i = order[pos] as int;
    assert(old_status[i] is None) by {
        if old_status[i] is Some {
            let q = choose|q: int| 0 <= q < pos && (#[trigger] order[q]) as int == i;
            assert(order[q] != order[pos]);
        }
    }
    assert forall|q: int| 0 <= q < pos + 1 implies (#[trigger] new_status[order[q] as int])
        is Some by {
        if q < pos {
            assert(old_status[order[q] as int] is Some);
        }
    }
    assert forall|x: int|
        0 <= x < new_status.len() && ((#[trigger] new_status[x]) is Some) implies exists|q: int|
        0 <= q < pos + 1 && (#[trigger] order[q]) as int == x by {
        if x == i {
            assert(0 <= pos < pos + 1 && (order[pos] as int) == x);
        } else {
            assert(old_status[x] is Some);
            let q = choose|q: int| 0 <= q < pos && (#[trigger] order[q]) as int == x;
            assert(0 <= q < pos + 1 && (order[q] as int) == x);
        }
    }
    assert forall|q: int| 0 <= q < pos + 1 implies status_rule(
        dep_idx,
        new_status,
        (#[trigger] order[q]) as int,
    ) by {
        let j = order[q] as int;
        assert forall|k: int| 0 <= k < dep_idx[j]@.len() implies some_failing(
            new_status[(#[trigger] dep_idx[j]@[k]) as int],
        ) == some_failing(old_status[dep_idx[j]@[k] as int]) by {
            lemma_deps_processed(dep_idx, order, old_status, pos, q, k);
            let d = dep_idx[j]@[k] as int;
            assert(old_status[d] is Some);
            assert(d != i);
        }
        assert(dep_failed(dep_idx, new_status, j) <==> dep_failed(dep_idx, old_status, j)) by {
            if dep_failed(dep_idx, new_status, j) {
                let k = choose|k: int|
                    0 <= k < dep_idx[j]@.len() && some_failing(
                        new_status[(#[trigger] dep_idx[j]@[k]) as int],
                    );
                assert(some_failing(old_status[dep_idx[j]@[k] as int]));
            }
            if dep_failed(dep_idx, old_status, j) {
                let k = choose|k: int|
                    0 <= k < dep_idx[j]@.len() && some_failing(
                        old_status[(#[trigger] dep_idx[j]@[k]) as int],
                    );
                assert(some_failing(new_status[dep_idx[j]@[k] as int]));
            }
        }
        if q < pos {
            assert(new_status[j] == old_status[j]);
        }
    }
}

/// Distinct positions below `n`, as many as `n`, cover every position.
proof fn lemma_full_coverage(order: Seq<usize>, n: int)
    requires
        0 <= n <= usize::MAX,
        order.no_duplicates(),
        order_in_bounds(order, n),
        order.len() == n,
    ensures
        forall|x: int| 0 <= x < n ==> #[trigger] order.contains(x as usize),
{
    broadcast use vstd::seq_lib::seq_to_set_is_finite;

    assert forall|x: int| 0 <= x < n implies #[trigger] order.contains(x as usize) by {
        if !order.contains(x as usize) {
            let ints = order.map_values(|u: usize| u as int);
            assert(ints.no_duplicates()) by {
                assert forall|q1: int, q2: int|
                    0 <= q1 < ints.len() && 0 <= q2 < ints.len() && q1 != q2
                    implies ints[q1] != ints[q2] by {
                    assert(order[q1] != order[q2]);
                }
            }
            ints.unique_seq_to_set();
            let range = set_int_range(0, n);
            lemma_int_range(0, n);
            let small = range.remove(x);
            assert(ints.to_set().subset_of(small)) by {
                assert forall|v: int| ints.to_set().contains(v) implies small.contains(v) by {
                    let q = choose|q: int| 0 <= q < ints.len() && ints[q] == v;
                    assert(order[q] as int == v);
                    if v == x {
                        assert(order.contains(x as usize));
                    }
                }
            }
            lemma_len_subset(ints.to_set(), small);
            assert(small.len() == n - 1);
            assert(false);
        }
    }
}

/// A planner order covering every package rules out any dependency cycle.
proof fn lemma_order_acyclic<Context, P: DotPackage<Context>>(
    packages: Seq<P>,
    dep_idx: Seq<Vec<usize>>,
    order: Seq<usize>,
)
    requires
        packages.len() <= usize::MAX,
        resolves(packages, dep_idx),
        distinct_names(packages),
        order.len() == packages.len(),
        order.no_duplicates(),
        order_in_bounds(order, packages.len() as int),
        ordered_prefix(dep_idx, order),
    ensures
        acyclic(packages),
{
    assert forall|s: Set<int>| !cycle_witness(packages, s) by {
        if cycle_witness(packages, s) {
            let i0 = choose|i: int| #[trigger] s.contains(i);
            lemma_full_coverage(order, packages.len() as int);
            assert(order.contains(i0 as usize));
            let q = choose|q: int| 0 <= q < order.len() && order[q] == i0 as usize;
            lemma_order_avoids_cycle(packages, dep_idx, order, s, q);
            assert(((i0 as usize) as int) == i0);
        }
    }
}

/// No member of a dependency-respecting order can belong to a cycle
/// witness: its position would have to come after itself.
proof fn lemma_order_avoids_cycle<Context, P: DotPackage<Context>>(
    packages: Seq<P>,
    dep_idx: Seq<Vec<usize>>,
    order: Seq<usize>,
    s: Set<int>,
    q: int,
)
    requires
        resolves(packages, dep_idx),
        distinct_names(packages),
        order_in_bounds(order, packages.len() as int),
        ordered_prefix(dep_idx, order),
        cycle_witness(packages, s),
        0 <= q < order.len(),
    ensures
        !s.contains(order[q] as int),
    decreases q,
{
    if s.contains(order[q] as int) {
        let i = order[q] as int;
        let j = choose|j: int| s.contains(j) && depends_on(packages, i, j);
        let k = choose|k: int|
            0 <= k < packages[i].deps_spec().len() && (#[trigger] packages[i].deps_spec()[k]).unique
                == packages[j].name_spec().unique;
        let d = dep_idx[i]@[k];
        assert(packages[d as int].name_spec().unique == packages[i].deps_spec()[k].unique);
        assert((d as int) == j) by {
            if (d as int) < j {
                assert(packages[d as int].name_spec().unique != packages[j].name_spec().unique);
            } else if j < (d as int) {
                assert(packages[j].name_spec().unique != packages[d as int].name_spec().unique);
            }
        }
        assert(has_earlier_dep(dep_idx, order, q, k)) by {
            reveal(ordered_prefix);
        }
        let p = choose|p: int| 0 <= p < q && order[p] == dep_idx[order[q] as int]@[k];
        lemma_order_avoids_cycle(packages, dep_idx, order, s, p);
    }
}

/// The members of a stuck set wait on one another, so the configuration has
/// a dependency cycle.
proof fn lemma_stuck_cycle<Context, P: DotPackage<Context>>(
    packages: Seq<P>,
    dep_idx: Seq<Vec<usize>>,
    stuck: Seq<usize>,
)
    requires
        packages.len() <= usize::MAX,
        resolves(packages, dep_idx),
        stuck.len() > 0,
        order_in_bounds(stuck, packages.len() as int),
        stuck_set(dep_idx, stuck),
    ensures
        !acyclic(packages),
{
    reveal(stuck_set);
    let s = Set::new(|x: int| 0 <= x < packages.len() && stuck.contains(x as usize));
    assert(stuck.contains(stuck[0]));
    assert(s.contains(stuck[0] as int));
    assert forall|i: int| #[trigger] s.contains(i) implies exists|j: int|
        s.contains(j) && depends_on(packages, i, j) by {
        assert(stuck.contains(i as usize));
        let m = choose|m: int| 0 <= m < stuck.len() && stuck[m] == i as usize;
        assert(((i as usize) as int) == i);
        assert((stuck[m] as int) == i);
        assert(waits_within(dep_idx, stuck, m));
        let k = choose|k: int|
            0 <= k < dep_idx[stuck[m] as int]@.len() && stuck.contains(
                dep_idx[stuck[m] as int]@[k],
            );
        let d = dep_idx[i]@[k];
        assert(stuck.contains(d));
        assert((d as int) < packages.len());
        assert(((d as int) as usize) == d);
        assert(s.contains(d as int));
        assert(packages[d as int].name_spec().unique == packages[i].deps_spec()[k].unique);
        assert(depends_on(packages, i, d as int));
        assert(s.contains(d as int) && depends_on(packages, i, d as int));
    }
    assert(cycle_witness(packages, s));
}

/// `st` records the install outcome `out`: success as `Installed`, an error
/// as `InstallFailed` carrying the error's own description.
pub open spec fn install_status_matches(st: PackageStatus, out: Result<(), InstallError>) -> bool {
    match out {
        Result::Ok(_) => st is Installed,
        Result::Err(e) => st matches PackageStatus::InstallFailed(m) && m@ == e.message@,
    }
}

/// The status recorded for an attempted package is explained by permitted
/// outcomes of its own operations: some permitted probe report and permitted
/// selection under which the package was up to date and skipped, or else was
/// installed with some permitted install outcome recorded exactly.
pub open spec fn status_explained<Context, P: DotPackage<Context>>(
    packages: Seq<P>,
    context: &Context,
    i: int,
    st: PackageStatus,
) -> bool {
    exists|cv: Option<ErasedVersion>, sv: ErasedVersion|
        #![trigger packages[i].check_permits(context, cv), packages[i].select_permits(context, sv)]
        {
            &&& packages[i].check_permits(context, cv)
            &&& packages[i].select_permits(context, sv)
            &&& if cv matches Option::Some(v) && version_value_eq(v, sv) {
                st is UpToDate
            } else {
                exists|out: Result<(), InstallError>|
                    #[trigger] packages[i].install_permits(context, &sv, out)
                        && install_status_matches(st, out)
            }
        }
}

/// A recorded, non-blocked status slot is explained by permitted outcomes of
/// the package's own operations.
pub open spec fn recorded_explained<Context, P: DotPackage<Context>>(
    packages: Seq<P>,
    context: &Context,
    status: Seq<Option<PackageStatus>>,
    x: int,
) -> bool {
    status[x] matches Option::Some(st) ==> ((!(st is DepBlocked)) ==> status_explained(
        packages,
        context,
        x,
        st,
    ))
}

/// What a completed run guarantees: one result per package, in
/// configuration order, each carrying the package's identity; a result
/// reads `DepBlocked` exactly when the package depends on a package whose
/// result is failing; and every other result is explained by permitted
/// outcomes of that package's own operations — skipped exactly when a
/// permitted probe report equals the permitted selection, otherwise a
/// permitted install outcome recorded exactly, failures with their own
/// message.
pub open spec fn completed_ok<Context, P: DotPackage<Context>>(
    packages: Seq<P>,
    context: &Context,
    results: Seq<PackageResult>,
) -> bool {
    &&& results.len() == packages.len()
    &&& forall|i: int|
        0 <= i < results.len() ==> (#[trigger] results[i].name) == packages[i].name_spec()
    &&& forall|i: int|
        0 <= i < results.len() ==> (((#[trigger] results[i].status) is DepBlocked) <==> exists|
            j: int,
        |
            0 <= j < results.len() && #[trigger] depends_on(packages, i, j) && failing(
                results[j].status,
            ))
    &&& forall|i: int|
        0 <= i < results.len() && !((#[trigger] results[i].status) is DepBlocked)
            ==> status_explained(packages, context, i, results[i].status)
}

/// An install failure blocks every dependent: a package one of whose
/// dependencies has a failing result is itself reported blocked, never
/// attempted, and counts as failing in turn.
pub proof fn lemma_failure_blocks_dependents<Context, P: DotPackage<Context>>(
    packages: Seq<P>,
    context: &Context,
    results: Seq<PackageResult>,
    i: int,
    j: int,
)
    requires
        completed_ok(packages, context, results),
        0 <= i < results.len(),
        0 <= j < results.len(),
        depends_on(packages, i, j),
        failing(results[j].status),
    ensures
        results[i].status is DepBlocked,
        failing(results[i].status),
{
}

/// An install failure does not spread to independent packages: a package
/// none of whose dependencies has a failing result is never blocked.
pub proof fn lemma_independent_packages_proceed<Context, P: DotPackage<Context>>(
    packages: Seq<P>,
    context: &Context,
    results: Seq<PackageResult>,
    i: int,
)
    requires
        completed_ok(packages, context, results),
        0 <= i < results.len(),
        forall|j: int|
            0 <= j < results.len() && depends_on(packages, i, j) ==> !failing(
                (#[trigger] results[j]).status,
            ),
    ensures
        !(results[i].status is DepBlocked),
{
    if results[i].status is DepBlocked {
        let j = choose|j: int|
            0 <= j < results.len() && #[trigger] depends_on(packages, i, j) && failing(
                results[j].status,
            );
    }
}

/// For data-driven packages the completed run's results are pinned by the
/// script: a package already at its scripted target is skipped, any other
/// non-blocked package has its scripted install outcome recorded exactly —
/// success as `Installed`, failure as `InstallFailed` carrying the scripted
/// description.
pub proof fn lemma_scripted_results_pinned<Context>(
    packages: Seq<ScriptedPackage>,
    context: &Context,
    results: Seq<PackageResult>,
    i: int,
)
    requires
        completed_ok::<Context, ScriptedPackage>(packages, context, results),
        0 <= i < results.len(),
        !(results[i].status is DepBlocked),
    ensures
        scripted_up_to_date(packages[i]) ==> results[i].status is UpToDate,
        !scripted_up_to_date(packages[i]) && packages[i].install_ok ==> results[i].status
            is Installed,
        !scripted_up_to_date(packages[i]) && !packages[i].install_ok ==> (results[i].status
            matches PackageStatus::InstallFailed(m) && m@ == packages[i].failure@),
{
    assert(status_explained(packages, context, i, results[i].status));
    let (cv, sv) = choose|cv: Option<ErasedVersion>, sv: ErasedVersion|
        #![trigger packages[i].check_permits(context, cv), packages[i].select_permits(context, sv)]
        {
            &&& packages[i].check_permits(context, cv)
            &&& packages[i].select_permits(context, sv)
            &&& if cv matches Option::Some(v) && version_value_eq(v, sv) {
                results[i].status is UpToDate
            } else {
                exists|out: Result<(), InstallError>|
                    #[trigger] packages[i].install_permits(context, &sv, out)
                        && install_status_matches(results[i].status, out)
            }
        };
    let p = packages[i];
    if cv matches Option::Some(v) && version_value_eq(v, sv) {
        assert(p.installed matches Option::Some(w) && version_value_eq(w, p.target));
    } else {
        assert(!scripted_up_to_date(p));
        let out = choose|out: Result<(), InstallError>|
            #[trigger] p.install_permits(context, &sv, out) && install_status_matches(
                results[i].status,
                out,
            );
        if p.install_ok {
            assert(out is Ok);
        } else {
            assert(out matches Result::Err(e) && e.message@ == p.failure@);
        }
    }
}

/// The completed-run scenario of a missing dependency under a current
/// dependent: when package `a` carries no dependencies, reports no installed
/// version and its scripted installation succeeds, while package `b` depends
/// on `a` and already carries the version it selects, any results a
/// completed run can report show `a` installed, `b` skipped, and the run
/// fully successful.
pub proof fn lemma_scripted_run_installs_missing_and_skips_current<Context>(
    a: ScriptedPackage,
    b: ScriptedPackage,
    context: &Context,
    packages: Seq<ScriptedPackage>,
    results: Seq<PackageResult>,
)
    requires
        packages == seq![a, b],
        completed_ok::<Context, ScriptedPackage>(packages, context, results),
        a.deps@.len() == 0,
        a.installed is None,
        a.install_ok,
        b.deps@ == seq![a.name],
        scripted_up_to_date(b),
        a.name.unique != b.name.unique,
    ensures
        results[0].status is Installed,
        results[1].status is UpToDate,
        failing_names(results).len() == 0,
{
    assert forall|j: int| 0 <= j < results.len() implies !depends_on::<Context, ScriptedPackage>(packages, 0, j) by {}
    assert(!(results[0].status is DepBlocked));
    lemma_scripted_results_pinned(packages, context, results, 0);
    assert(b.deps@[0] == a.name);
    assert forall|j: int|
        0 <= j < results.len() && #[trigger] depends_on::<Context, ScriptedPackage>(
            packages,
            1,
            j,
        ) implies !failing(results[j].status) by {
        if j == 1 {
            assert(<ScriptedPackage as DotPackage<Context>>::deps_spec(&packages[1])[0].unique
                != <ScriptedPackage as DotPackage<Context>>::name_spec(&packages[1]).unique);
        }
    }
    assert(!(results[1].status is DepBlocked));
    lemma_scripted_results_pinned(packages, context, results, 1);
    lemma_failing_names_empty(results);
}

/// The completed-run scenario of one failing and one independent package:
/// when package `a` carries no dependencies, reports no installed version
/// and its scripted installation fails, while independent package `c`
/// reports no installed version and installs successfully, any results a
/// completed run can report record `a`'s failure with its own description,
/// still show `c` installed, and surface exactly `a` as failing.
pub proof fn lemma_scripted_failure_leaves_independent_package<Context>(
    a: ScriptedPackage,
    c: ScriptedPackage,
    context: &Context,
    packages: Seq<ScriptedPackage>,
    results: Seq<PackageResult>,
)
    requires
        packages == seq![a, c],
        completed_ok::<Context, ScriptedPackage>(packages, context, results),
        a.deps@.len() == 0,
        a.installed is None,
        !a.install_ok,
        c.deps@.len() == 0,
        c.installed is None,
        c.install_ok,
    ensures
        results[0].status matches PackageStatus::InstallFailed(m) && m@ == a.failure@,
        results[1].status is Installed,
        failing_names(results) == seq![a.name],
{
    assert forall|j: int| 0 <= j < results.len() implies !depends_on::<Context, ScriptedPackage>(packages, 0, j) by {}
    assert forall|j: int| 0 <= j < results.len() implies !depends_on::<Context, ScriptedPackage>(packages, 1, j) by {}
    assert(!(results[0].status is DepBlocked));
    assert(!(results[1].status is DepBlocked));
    lemma_scripted_results_pinned(packages, context, results, 0);
    lemma_scripted_results_pinned(packages, context, results, 1);
    let r0 = results[0];
    reveal_with_fuel(failing_names, 3);
    assert(results.drop_last() =~= seq![r0]);
    assert(seq![r0].drop_last() =~= Seq::<PackageResult>::empty());
    assert(failing_names(seq![r0]) =~= seq![r0.name]);
    assert(failing_names(results) =~= seq![a.name]);
}

/// Full recorded statuses that obey the blocking rule yield a result list
/// with the completed-run guarantees.
proof fn lemma_results_ok<Context, P: DotPackage<Context>>(
    packages: Seq<P>,
    context: &Context,
    dep_idx: Seq<Vec<usize>>,
    order: Seq<usize>,
    status: Seq<Option<PackageStatus>>,
    results: Seq<PackageResult>,
)
    requires
        packages.len() <= usize::MAX,
        resolves(packages, dep_idx),
        distinct_names(packages),
        status.len() == packages.len(),
        order.len() == packages.len(),
        order.no_duplicates(),
        order_in_bounds(order, packages.len() as int),
        run_inv(dep_idx, order, status, order.len() as int),
        forall|x: int|
            0 <= x < status.len() ==> #[trigger] recorded_explained(packages, context, status, x),
        results.len() == packages.len(),
        forall|i: int|
            0 <= i < results.len() ==> (#[trigger] results[i].name) == packages[i].name_spec(),
        forall|i: int|
            0 <= i < results.len() ==> status[i] == Option::Some((#[trigger] results[i]).status),
    ensures
        completed_ok(packages, context, results),
{
    assert forall|i: int|
        0 <= i < results.len() && !((#[trigger] results[i].status) is DepBlocked)
        implies status_explained(packages, context, i, results[i].status) by {
        assert(recorded_explained(packages, context, status, i));
    }
    reveal(run_inv);
    lemma_full_coverage(order, packages.len() as int);
    assert forall|i: int| 0 <= i < packages.len() implies status_rule(dep_idx, status, i) by {
        assert(order.contains(i as usize));
        let q = choose|q: int| 0 <= q < order.len() && order[q] == i as usize;
        assert(status_rule(dep_idx, status, (#[trigger] order[q]) as int));
    }
    assert forall|i: int| 0 <= i < results.len() implies (((#[trigger] results[i].status)
        is DepBlocked) <==> exists|j: int|
        0 <= j < results.len() && #[trigger] depends_on(packages, i, j) && failing(
            results[j].status,
        )) by {
        if results[i].status is DepBlocked {
            assert(dep_failed(dep_idx, status, i));
            let k = choose|k: int|
                0 <= k < dep_idx[i]@.len() && some_failing(
                    status[(#[trigger] dep_idx[i]@[k]) as int],
                );
            let j = dep_idx[i]@[k] as int;
            assert(packages[j].name_spec().unique == packages[i].deps_spec()[k].unique);
            assert(depends_on(packages, i, j));
            assert(failing(results[j].status));
            assert(0 <= j < results.len() && depends_on(packages, i, j) && failing(
                results[j].status,
            ));
        }
        if exists|j: int|
            0 <= j < results.len() && #[trigger] depends_on(packages, i, j) && failing(
                results[j].status,
            ) {
            let j = choose|j: int|
                0 <= j < results.len() && #[trigger] depends_on(packages, i, j) && failing(
                    results[j].status,
                );
            let k = choose|k: int|
                0 <= k < packages[i].deps_spec().len() && (
                #[trigger] packages[i].deps_spec()[k]).unique == packages[j].name_spec().unique;
            let d = dep_idx[i]@[k];
            assert(packages[d as int].name_spec().unique == packages[j].name_spec().unique);
            assert((d as int) == j) by {
                if (d as int) < j {
                    assert(packages[d as int].name_spec().unique
                        != packages[j].name_spec().unique);
                } else if j < (d as int) {
                    assert(packages[j].name_spec().unique
                        != packages[d as int].name_spec().unique);
                }
            }
            assert(some_failing(status[(dep_idx[i]@[k]) as int]));
            assert(dep_failed(dep_idx, status, i));
            assert(results[i].status is DepBlocked);
        }
    }
}

/// Visit every package in the planner's order: mark a package whose
/// dependency failed as blocked, skip one whose probe already reports the
/// selected version, and otherwise install, recording success or failure.
fn process_in_order<Context, P: DotPackage<Context>>(
    packages: &Vec<P>,
    names: &Vec<DotPackageName>,
    dep_idx: &Vec<Vec<usize>>,
    order: &Vec<usize>,
    context: &Context,
) -> (results: Vec<PackageResult>)
    requires
        names@.len() == packages@.len(),
        forall|i: int|
            0 <= i < names@.len() ==> (#[trigger] names@[i]) == packages@[i].name_spec(),
        resolves(packages@, dep_idx@),
        distinct_names(packages@),
        idx_bounded(dep_idx@),
        order@.len() == packages@.len(),
        order@.no_duplicates(),
        order_in_bounds(order@, packages@.len() as int),
        ordered_prefix(dep_idx@, order@),
    ensures
        completed_ok(packages@, context, results@),
{
    let n = packages.len();
    let mut status: Vec<Option<PackageStatus>> = Vec::new();
    let mut f: usize = 0;
    while f < n
        invariant
            f <= n,
            status@.len() == f,
            forall|x: int| 0 <= x < f ==> (#[trigger] status@[x]) is None,
        decreases n - f,
    {
        status.push(Option::None);
        f += 1;
    }
    proof {
        reveal(run_inv);
        assert(run_inv(dep_idx@, order@, status@, 0));
    }
    let mut pos: usize = 0;
    while pos < n
        invariant
            n == packages@.len(),
            names@.len() == n,
            forall|i: int|
                0 <= i < names@.len() ==> (#[trigger] names@[i]) == packages@[i].name_spec(),
            resolves(packages@, dep_idx@),
            distinct_names(packages@),
            idx_bounded(dep_idx@),
            order@.len() == n,
            order@.no_duplicates(),
            order_in_bounds(order@, n as int),
            ordered_prefix(dep_idx@, order@),
            pos <= n,
            status@.len() == n,
            run_inv(dep_idx@, order@, status@, pos as int),
            forall|x: int|
                0 <= x < n ==> #[trigger] recorded_explained(packages@, context, status@, x),
        decreases n - pos,
    {
        let i = order[pos];
        let deps = &dep_idx[i];
        let m = deps.len();
        let mut blocked = false;
        let mut k: usize = 0;
        while k < m
            invariant
                m == deps@.len(),
                deps@ == dep_idx@[i as int]@,
                (i as int) < dep_idx@.len(),
                status@.len() == dep_idx@.len(),
                idx_bounded(dep_idx@),
                k <= m,
                blocked <==> exists|kk: int|
                    0 <= kk < k && some_failing(status@[(#[trigger] deps@[kk]) as int]),
            decreases m - k,
        {
            let d = deps[k];
            match &status[d] {
                Option::Some(st) => {
                    if is_failing(st) {
                        blocked = true;
                        proof {
                            assert(some_failing(status@[deps@[k as int] as int]));
                        }
                        k = m;
                    } else {
                        proof {
                            assert(!some_failing(status@[deps@[k as int] as int]));
                        }
                        k += 1;
                    }
                },
                Option::None => {
                    proof {
                        assert(!some_failing(status@[deps@[k as int] as int]));
                    }
                    k += 1;
                },
            }
        }
        proof {
            assert(blocked <==> dep_failed(dep_idx@, status@, i as int)) by {
                if blocked {
                    let kk = choose|kk: int|
                        0 <= kk < m && some_failing(status@[(#[trigger] deps@[kk]) as int]);
                    assert(some_failing(status@[(dep_idx@[i as int]@[kk]) as int]));
                }
                if dep_failed(dep_idx@, status@, i as int) {
                    let kk = choose|kk: int|
                        0 <= kk < dep_idx@[i as int]@.len() && some_failing(
                            status@[(#[trigger] dep_idx@[i as int]@[kk]) as int],
                        );
                    assert(some_failing(status@[(deps@[kk]) as int]));
                }
            }
        }
        let st: PackageStatus;
        if blocked {
            st = PackageStatus::DepBlocked;
        } else {
            let checked = packages[i].check(context);
            let selected = packages[i].select_version(context);
            let ghost cv = checked;
            let ghost sv = selected;
            if is_up_to_date(&checked, &selected) {
                st = PackageStatus::UpToDate;
                proof {
                    assert(packages@[i as int].check_permits(context, cv) && packages@[
                        i as int
                    ].select_permits(context, sv));
                    assert(status_explained(packages@, context, i as int, st));
                }
            } else {
                let outcome = packages[i].install(context, &selected);
                let ghost out = outcome;
                st = status_of_install(outcome);
                proof {
                    assert(packages@[i as int].check_permits(context, cv) && packages@[
                        i as int
                    ].select_permits(context, sv));
                    assert(packages@[i as int].install_permits(context, &sv, out)
                        && install_status_matches(st, out));
                    assert(status_explained(packages@, context, i as int, st));
                }
            }
        }
        let ghost old_status = status@;
        let ghost the_st = st;
        status.set(i, Option::Some(st));
        proof {
            lemma_run_step(dep_idx@, order@, old_status, status@, pos as int, the_st);
            assert forall|x: int|
                0 <= x < n implies #[trigger] recorded_explained(
                packages@,
                context,
                status@,
                x,
            ) by {
                if x != i as int {
                    assert(status@[x] == old_status[x]);
                    assert(recorded_explained(packages@, context, old_status, x));
                }
            }
        }
        pos += 1;
    }
    proof {
        lemma_full_coverage(order@, n as int);
    }
    let mut results: Vec<PackageResult> = Vec::new();
    let mut idx: usize = 0;
    while idx < n
        invariant
            n == packages@.len(),
            names@.len() == n,
            forall|i: int|
                0 <= i < names@.len() ==> (#[trigger] names@[i]) == packages@[i].name_spec(),
            status@.len() == n,
            order@.len() == n,
            order@.no_duplicates(),
            order_in_bounds(order@, n as int),
            run_inv(dep_idx@, order@, status@, n as int),
            forall|x: int|
                0 <= x < n ==> #[trigger] recorded_explained(packages@, context, status@, x),
            forall|x: int| 0 <= x < n ==> #[trigger] order@.contains(x as usize),
            idx <= n,
            results@.len() == idx,
            forall|x: int|
                0 <= x < idx ==> (#[trigger] results@[x]).name == packages@[x].name_spec(),
            forall|x: int|
                0 <= x < idx ==> status@[x] == Option::Some((#[trigger] results@[x]).status),
        decreases n - idx,
    {
        proof {
            reveal(run_inv);
            assert(order@.contains(idx as usize));
            let q = choose|q: int| 0 <= q < order@.len() && order@[q] == idx as usize;
            assert(status@[order@[q] as int] is Some);
        }
        match &status[idx] {
            Option::Some(st) => {
                results.push(PackageResult { name: names[idx].clone(), status: st.clone() });
            },
            Option::None => {
                results.push(
                    PackageResult { name: names[idx].clone(), status: PackageStatus::DepBlocked },
                );
            },
        }
        idx += 1;
    }
    proof {
        lemma_results_ok(packages@, context, dep_idx@, order@, status@, results@);
    }
    results
}

/// The ordered collection of package descriptions an application wants
/// managed.
///
/// `Context` is the type of the value passed to every package operation; `P`
/// is the shape of the package descriptions held.
pub struct Dotpacks<Context, P: DotPackage<Context>> {
    packages: Vec<P>,
    _context: PhantomData<Context>,
}

impl<Context, P: DotPackage<Context>> View for Dotpacks<Context, P> {
    type V = Seq<P>;

    closed spec fn view(&self) -> Seq<P> {
        self.packages@
    }
}

impl<Context, P: DotPackage<Context>> Dotpacks<Context, P> {
    /// A new configuration holds zero packages.
    pub fn new() -> (r: Self)
        ensures
            r@ == Seq::<P>::empty(),
            r@.len() == 0,
    {
        Dotpacks { packages: Vec::new(), _context: PhantomData }
    }

    /// Append one package description to the configuration.
    pub fn add(&mut self, package: P)
        ensures
            final(self)@ == old(self)@.push(package),
    {
        self.packages.push(package);
    }

    /// How many packages the configuration holds.
    pub fn len(&self) -> (n: usize)
        ensures
            n == self@.len(),
    {
        self.packages.len()
    }
}

impl<Context, P: DotPackage<Context>> Default for Dotpacks<Context, P> {
    /// The default configuration is the empty one.
    fn default() -> (r: Self)
        ensures
            r@ == Seq::<P>::empty(),
    {
        Dotpacks::new()
    }
}

/// Owns one configuration and drives installation across its packages.
pub struct DotpacksRunner<Context, P: DotPackage<Context>> {
    config: Dotpacks<Context, P>,
}

impl<Context, P: DotPackage<Context>> View for DotpacksRunner<Context, P> {
    type V = Seq<P>;

    closed spec fn view(&self) -> Seq<P> {
        self.config@
    }
}

impl<Context, P: DotPackage<Context>> From<Dotpacks<Context, P>> for DotpacksRunner<Context, P> {
    /// A runner is obtained only by consuming a configuration.
    fn from(config: Dotpacks<Context, P>) -> (r: Self)
        ensures
            r@ == config@,
    {
        DotpacksRunner { config }
    }
}

impl<Context, P: DotPackage<Context>> vstd::std_specs::convert::FromSpecImpl<Dotpacks<Context, P>> for DotpacksRunner<Context, P> {
    open spec fn obeys_from_spec() -> bool {
        true
    }

    closed spec fn from_spec(config: Dotpacks<Context, P>) -> Self {
        DotpacksRunner { config }
    }
}

/// What a rejection guarantees: the reported error names a real flaw of the
/// configuration.
pub open spec fn rejected_ok<Context, P: DotPackage<Context>>(
    packages: Seq<P>,
    e: ConfigError,
) -> bool {
    match e {
        ConfigError::DuplicateName(nm) => {
            &&& !distinct_names(packages)
            &&& exists|i: int, j: int|
                #![trigger packages[i].name_spec(), packages[j].name_spec()]
                0 <= i < j < packages.len() && packages[i].name_spec().unique
                    == packages[j].name_spec().unique && packages[j].name_spec().unique
                    == nm.unique
        },
        ConfigError::UnknownDependency { dependent, dependency } => {
            &&& distinct_names(packages)
            &&& !deps_known(packages)
            &&& exists|i: int, k: int|
                0 <= i < packages.len() && 0 <= k < packages[i].deps_spec().len() && (
                #[trigger] packages[i].deps_spec()[k]).unique == dependency.unique && packages[
                    i
                ].name_spec().unique == dependent.unique
            &&& forall|j: int|
                0 <= j < packages.len() ==> (#[trigger] packages[j].name_spec()).unique
                    != dependency.unique
        },
        ConfigError::Cycle(names) => {
            &&& distinct_names(packages)
            &&& deps_known(packages)
            &&& !acyclic(packages)
            &&& names@.len() > 0
            &&& forall|m: int|
                0 <= m < names@.len() ==> exists|i: int|
                    0 <= i < packages.len() && (#[trigger] packages[i].name_spec()).unique == (
                    #[trigger] names@[m]).unique
        },
    }
}

/// Validate the configuration; when it is accepted, visit every package in
/// dependency order and record what happened to each.
#[verifier::rlimit(100)]
fn run_packages<Context, P: DotPackage<Context>>(packages: &Vec<P>, context: &Context) -> (r:
    RunOutcome)
    ensures
        (r is Completed) <==> valid_config(packages@),
        match r {
            RunOutcome::Completed(results) => completed_ok(packages@, context, results@),
            RunOutcome::Rejected(e) => rejected_ok(packages@, e),
        },
{
    let n = packages.len();
    let names = collect_names(packages);
    match find_duplicate(&names) {
        Option::Some(j) => {
            proof {
                let i = choose|i: int|
                    0 <= i < j && (#[trigger] names@[i]).unique == names@[j as int].unique;
                assert(packages@[i].name_spec().unique == packages@[j as int].name_spec().unique);
                assert(!distinct_names(packages@));
            }
            return RunOutcome::Rejected(ConfigError::DuplicateName(names[j].clone()));
        },
        Option::None => {},
    }
    proof {
        assert forall|a: int, b: int|
            0 <= a < b < packages@.len()
            implies (#[trigger] packages@[a].name_spec()).unique != (
            #[trigger] packages@[b].name_spec()).unique by {
            assert(names@[a] == packages@[a].name_spec());
            assert(names@[b] == packages@[b].name_spec());
        }
        assert(distinct_names(packages@));
    }
    let mut dep_idx: Vec<Vec<usize>> = Vec::new();
    let mut i: usize = 0;
    while i < n
        invariant
            n == packages@.len(),
            names@.len() == n,
            forall|a: int|
                0 <= a < names@.len() ==> (#[trigger] names@[a]) == packages@[a].name_spec(),
            distinct_names(packages@),
            i <= n,
            dep_idx@.len() == i,
            forall|a: int|
                0 <= a < i ==> (#[trigger] dep_idx@[a])@.len() == packages@[a].deps_spec().len(),
            forall|a: int, k: int|
                0 <= a < i && 0 <= k < dep_idx@[a]@.len() ==> {
                    &&& ((#[trigger] dep_idx@[a]@[k]) as int) < n
                    &&& packages@[dep_idx@[a]@[k] as int].name_spec().unique
                        == packages@[a].deps_spec()[k].unique
                },
        decreases n - i,
    {
        let d = packages[i].deps();
        let dn = d.len();
        let mut row: Vec<usize> = Vec::new();
        let mut k: usize = 0;
        while k < dn
            invariant
                n == packages@.len(),
                names@.len() == n,
                forall|a: int|
                    0 <= a < names@.len() ==> (#[trigger] names@[a]) == packages@[a].name_spec(),
                distinct_names(packages@),
                i < n,
                dn == d@.len(),
                d@ == packages@[i as int].deps_spec(),
                k <= dn,
                row@.len() == k,
                forall|kk: int|
                    0 <= kk < k ==> {
                        &&& ((#[trigger] row@[kk]) as int) < n
                        &&& packages@[row@[kk] as int].name_spec().unique
                            == packages@[i as int].deps_spec()[kk].unique
                    },
            decreases dn - k,
        {
            match find_name_index(&names, d[k].unique) {
                Option::Some(j) => {
                    row.push(j);
                },
                Option::None => {
                    proof {
                        assert forall|j: int| 0 <= j < n
                            implies (#[trigger] packages@[j].name_spec()).unique
                                != d@[k as int].unique by {
                            assert(names@[j].unique != d@[k as int].unique);
                        }
                        assert(!deps_known(packages@)) by {
                            if deps_known(packages@) {
                                assert(0 <= k < packages@[i as int].deps_spec().len());
                                let j = choose|j: int|
                                    0 <= j < packages@.len() && packages@[j].name_spec().unique == (
                                    packages@[i as int].deps_spec()[k as int]).unique;
                            }
                        }
                    }
                    return RunOutcome::Rejected(
                        ConfigError::UnknownDependency {
                            dependent: names[i].clone(),
                            dependency: d[k].clone(),
                        },
                    );
                },
            }
            k += 1;
        }
        dep_idx.push(row);
        i += 1;
    }
    proof {
        assert(resolves(packages@, dep_idx@));
        assert(idx_bounded(dep_idx@));
        assert(deps_known(packages@)) by {
            assert forall|a: int, k: int|
                0 <= a < packages@.len() && 0 <= k < packages@[a].deps_spec().len()
                implies exists|j: int|
                    0 <= j < packages@.len() && packages@[j].name_spec().unique == (
                    #[trigger] packages@[a].deps_spec()[k]).unique by {
                let j = dep_idx@[a]@[k] as int;
                assert(0 <= j < packages@.len() && packages@[j].name_spec().unique == (
                packages@[a].deps_spec()[k]).unique);
            }
        }
    }
    match plan_order(&dep_idx) {
        Result::Err(stuck) => {
            let sn = stuck.len();
            let mut cyc: Vec<DotPackageName> = Vec::new();
            let mut m: usize = 0;
            while m < sn
                invariant
                    n == packages@.len(),
                    names@.len() == n,
                    forall|a: int|
                        0 <= a < names@.len() ==> (#[trigger] names@[a]) == packages@[
                            a
                        ].name_spec(),
                    sn == stuck@.len(),
                    order_in_bounds(stuck@, n as int),
                    m <= sn,
                    cyc@.len() == m,
                    forall|x: int|
                        0 <= x < m ==> (#[trigger] cyc@[x]) == packages@[stuck@[x] as int].name_spec(),
                decreases sn - m,
            {
                cyc.push(names[stuck[m]].clone());
                m += 1;
            }
            proof {
                lemma_stuck_cycle(packages@, dep_idx@, stuck@);
                assert forall|x: int| 0 <= x < cyc@.len() implies exists|a: int|
                    0 <= a < packages@.len() && (#[trigger] packages@[a].name_spec()).unique == (
                    #[trigger] cyc@[x]).unique by {
                    let a = stuck@[x] as int;
                    assert(0 <= a < packages@.len() && packages@[a].name_spec().unique == cyc@[
                        x
                    ].unique);
                }
            }
            RunOutcome::Rejected(ConfigError::Cycle(cyc))
        },
        Result::Ok(order) => {
            proof {
                lemma_order_acyclic(packages@, dep_idx@, order@);
            }
            let results = process_in_order(packages, &names, &dep_idx, &order, context);
            RunOutcome::Completed(results)
        },
    }
}

impl<Context, P: DotPackage<Context>> DotpacksRunner<Context, P> {
    /// Drive installation across all configured packages.
    ///
    /// The report always carries the human-readable count line
    /// `"<n> packages found."`. A flawed configuration — a repeated
    /// identity, a dependency on an unconfigured identity, a dependency
    /// cycle — is rejected with the flaw named; otherwise every package is
    /// visited, dependencies before dependents: a package whose probe
    /// already reports the selected version is skipped, a failed
    /// installation blocks its dependents but not independent packages, and
    /// every failure appears in the results.
    pub fn run(&self, context: Context) -> (r: RunReport)
        ensures
            r.count_line@ == count_line_spec(self@.len()),
            (r.outcome is Completed) <==> valid_config(self@),
            match r.outcome {
                RunOutcome::Completed(results) => completed_ok(self@, &context, results@),
                RunOutcome::Rejected(e) => rejected_ok(self@, e),
            },
    {
        let n = self.config.packages.len();
        let mut count_line = u64_to_decimal(n as u64);
        count_line.append(" packages found.");
        let outcome = run_packages(&self.config.packages, &context);
        RunReport { count_line, outcome }
    }
}

impl RunReport {
    /// The identities of the packages whose status is failing; empty when
    /// the run was rejected before any work.
    pub fn failures(&self) -> (r: Vec<DotPackageName>)
        ensures
            match self.outcome {
                RunOutcome::Completed(results) => r@ == failing_names(results@),
                RunOutcome::Rejected(_) => r@ == Seq::<DotPackageName>::empty(),
            },
    {
        match &self.outcome {
            RunOutcome::Rejected(_) => Vec::new(),
            RunOutcome::Completed(results) => {
                let n = results.len();
                let mut r: Vec<DotPackageName> = Vec::new();
                let mut i: usize = 0;
                while i < n
                    invariant
                        n == results@.len(),
                        i <= n,
                        r@ == failing_names(results@.subrange(0, i as int)),
                    decreases n - i,
                {
                    if is_failing(&results[i].status) {
                        r.push(results[i].name.clone());
                    }
                    proof {
                        assert(results@.subrange(0, i + 1).drop_last() =~= results@.subrange(
                            0,
                            i as int,
                        ));
                        assert(results@.subrange(0, i + 1).last() == results@[i as int]);
                    }
                    i += 1;
                }
                proof {
                    assert(results@.subrange(0, n as int) =~= results@);
                }
                r
            },
        }
    }

    /// Whether the run completed and no package's status is failing.
    pub fn success(&self) -> (r: bool)
        ensures
            r <==> match self.outcome {
                RunOutcome::Completed(results) => failing_names(results@).len() == 0,
                RunOutcome::Rejected(_) => false,
            },
    {
        match &self.outcome {
            RunOutcome::Rejected(_) => false,
            RunOutcome::Completed(results) => {
                let n = results.len();
                let mut ok = true;
                let mut i: usize = 0;
                while i < n
                    invariant
                        n == results@.len(),
                        i <= n,
                        ok ==> forall|x: int|
                            0 <= x < i ==> !failing((#[trigger] results@[x]).status),
                        !ok ==> exists|x: int|
                            0 <= x < n && failing((#[trigger] results@[x]).status),
                    decreases n - i,
                {
                    if is_failing(&results[i].status) {
                        ok = false;
                        i = n;
                    } else {
                        i += 1;
                    }
                }
                proof {
                    lemma_failing_names_empty(results@);
                }
                ok
            },
        }
    }
}

} // verus!

