//! The version capability: what any "installed version" value must support.
//!
//! Different packages use unrelated concrete version representations (a
//! semantic version string, a file hash, a timestamp), so the rest of the
//! system handles versions only in an erased form: a tag standing for the
//! concrete type plus the value's serialized bytes. Dynamic equality across
//! possibly different concrete types compares the tags first and is false
//! whenever they differ, regardless of the bytes.

use vstd::prelude::*;
use crate::text::u64_to_decimal;

verus! {

/// The tag of [`UnitVersion`].
pub const UNIT_VERSION_TAG: u64 = 0;

/// The tag of [`NumericVersion`].
pub const NUMERIC_VERSION_TAG: u64 = 1;

/// A version value in its erased form: the tag of its concrete type and its
/// serialized bytes.
#[derive(Debug)]
pub struct ErasedVersion {
    /// Stands for the concrete type the value came from. Every type
    /// implementing [`DotPackageVersion`] must use a tag of its own.
    pub tag: u64,
    /// The value's serialized, portable form.
    pub repr: Vec<u8>,
}

/// What dynamic version equality means: same concrete type (tag) and same
/// serialized contents.
pub open spec fn version_value_eq(a: ErasedVersion, b: ErasedVersion) -> bool {
    a.tag == b.tag && a.repr@ == b.repr@
}

impl ErasedVersion {
    /// Dynamic equality against another erased version value.
    pub fn dyn_eq(&self, other: &ErasedVersion) -> (r: bool)
        ensures
            r == version_value_eq(*self, *other),
    {
        if self.tag != other.tag {
            return false;
        }
        if self.repr.len() != other.repr.len() {
            return false;
        }
        let n = self.repr.len();
        let mut i: usize = 0;
        while i < n
            invariant
                n == self.repr@.len() == other.repr@.len(),
                i <= n,
                forall|j: int| 0 <= j < i ==> self.repr@[j] == other.repr@[j],
            decreases n - i,
        {
            if self.repr[i] != other.repr[i] {
                return false;
            }
            i += 1;
        }
        proof {
            assert(self.repr@ =~= other.repr@);
        }
        true
    }
}

impl Clone for ErasedVersion {
    fn clone(&self) -> (r: Self)
        ensures
            r.tag == self.tag,
            r.repr@ == self.repr@,
    {
        ErasedVersion { tag: self.tag, repr: self.repr.clone() }
    }
}

/// Version values of different concrete types — values whose tags differ —
/// are never considered equal, regardless of their contents. "Different
/// concrete types have different tags" is the implementing authors'
/// obligation stated on [`DotPackageVersion::type_tag_spec`]; this law
/// speaks of the tags themselves.
pub proof fn lemma_distinct_types_never_equal(a: ErasedVersion, b: ErasedVersion)
    requires
        a.tag != b.tag,
    ensures
        !version_value_eq(a, b),
{
}

/// The capability an installed-version representation must satisfy: a tag
/// standing for its concrete type, a serialization to a portable form, a
/// textual debug rendering, and safe sharing across concurrent operations.
/// Dynamic equality across unrelated concrete types then comes for free
/// through the erased form.
///
/// Two caveats bound what the equality guarantees. The tag is chosen by the
/// implementing type's author, and nothing here can check that unrelated
/// types chose different tags: the never-equal guarantee for distinct
/// concrete types holds exactly as far as that obligation is kept. And
/// dynamic equality compares serialized bytes, so within one concrete type
/// it coincides with the type's own value equality exactly when the
/// serialization is injective, which this capability does not itself
/// require.
pub trait DotPackageVersion: Sized + Send + Sync {
    /// The tag that stands for the implementing concrete type. Distinct
    /// implementing types must choose distinct tags; the library cannot
    /// enforce this choice.
    spec fn type_tag_spec() -> u64;

    /// The serialized form of this value, as the specification sees it.
    spec fn repr_spec(&self) -> Seq<u8>;

    /// The tag of the concrete type this value belongs to.
    fn type_tag(&self) -> (t: u64)
        ensures
            t == Self::type_tag_spec(),
    ;

    /// Serialize this value to its portable form.
    fn serialize(&self) -> (b: Vec<u8>)
        ensures
            b@ == self.repr_spec(),
    ;

    /// A human-readable rendering of this value.
    fn debug_render(&self) -> String;
}

/// Erase a version value to the form the rest of the system handles.
pub fn erase_version<V: DotPackageVersion>(v: &V) -> (e: ErasedVersion)
    ensures
        e.tag == V::type_tag_spec(),
        e.repr@ == v.repr_spec(),
{
    ErasedVersion { tag: v.type_tag(), repr: v.serialize() }
}

/// Dynamic equality between version values of possibly different concrete
/// types: false whenever the types differ, value equality otherwise.
pub fn dyn_version_eq<A: DotPackageVersion, B: DotPackageVersion>(a: &A, b: &B) -> (r: bool)
    ensures
        r == (A::type_tag_spec() == B::type_tag_spec() && a.repr_spec() == b.repr_spec()),
{
    let ea = erase_version(a);
    let eb = erase_version(b);
    ea.dyn_eq(&eb)
}

/// The fixed version of packages that carry no meaningful version state: the
/// target a simple, unconditional package is always brought to.
#[derive(Debug)]
pub struct UnitVersion;

impl DotPackageVersion for UnitVersion {
    open spec fn type_tag_spec() -> u64 {
        UNIT_VERSION_TAG
    }

    open spec fn repr_spec(&self) -> Seq<u8> {
        Seq::empty()
    }

    fn type_tag(&self) -> u64 {
        UNIT_VERSION_TAG
    }

    fn serialize(&self) -> (b: Vec<u8>)
    {
        let b: Vec<u8> = Vec::new();
        proof {
            assert(b@ =~= self.repr_spec());
        }
        b
    }

    fn debug_render(&self) -> String {
        "unit".to_owned()
    }
}

/// A version carried as one unsigned number (a timestamp, a build number).
#[derive(Debug)]
pub struct NumericVersion {
    /// The number that identifies the version.
    pub value: u64,
}

impl DotPackageVersion for NumericVersion {
    open spec fn type_tag_spec() -> u64 {
        NUMERIC_VERSION_TAG
    }

    /// Eight bytes, least significant first.
    open spec fn repr_spec(&self) -> Seq<u8> {
        Seq::new(8, |i: int| ((self.value >> (8 * i as u64)) & 0xff) as u8)
    }

    fn type_tag(&self) -> u64 {
        NUMERIC_VERSION_TAG
    }

    fn serialize(&self) -> (b: Vec<u8>)
    {
        let mut b: Vec<u8> = Vec::new();
        let mut i: u64 = 0;
        while i < 8
            invariant
                i <= 8,
                b@.len() == i,
                forall|j: int| 0 <= j < i ==> b@[j] == ((self.value >> (8 * j as u64)) & 0xff) as u8,
            decreases 8 - i,
        {
            b.push(((self.value >> (8 * i)) & 0xff) as u8);
            i += 1;
        }
        proof {
            assert(b@ =~= self.repr_spec());
        }
        b
    }

    fn debug_render(&self) -> String {
        u64_to_decimal(self.value)
    }
}

} // verus!
