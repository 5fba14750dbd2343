//! Package identity: a human-readable label paired with a process-unique
//! numeric discriminator, handed out by an explicit registry.
//!
//! The registry gives every package-defining site a stable identity: the
//! first creation for a given defining token draws a fresh value from a
//! monotonically increasing counter, and every later creation for the same
//! token reuses the stored value. Distinct tokens never share a value, even
//! when they carry the same label.

use vstd::prelude::*;

verus! {

/// The identity of a package.
///
/// Equality goes by `unique` alone; `display` is presentation only and may
/// collide across distinct identities.
#[derive(Debug)]
pub struct DotPackageName {
    /// The human-readable label shown to the user.
    pub display: String,
    /// The process-unique discriminator assigned by the registry.
    pub unique: u64,
}

/// What identity equality means: the discriminators agree; labels play no part.
pub open spec fn same_identity(a: DotPackageName, b: DotPackageName) -> bool {
    a.unique == b.unique
}

impl DotPackageName {
    /// The textual rendering of an identity: exactly its display label; the
    /// unique value is never shown.
    pub fn render(&self) -> (r: String)
        ensures
            r@ == self.display@,
    {
        self.display.clone()
    }
}

impl Clone for DotPackageName {
    fn clone(&self) -> (r: Self)
        ensures
            r == *self,
    {
        DotPackageName { display: self.display.clone(), unique: self.unique }
    }
}

impl PartialEq for DotPackageName {
    fn eq(&self, other: &Self) -> bool {
        self.unique == other.unique
    }
}

impl Eq for DotPackageName {}

impl vstd::std_specs::cmp::PartialEqSpecImpl for DotPackageName {
    open spec fn obeys_eq_spec() -> bool {
        true
    }

    open spec fn eq_spec(&self, other: &Self) -> bool {
        same_identity(*self, *other)
    }
}

/// The mathematical model of the identity registry: which defining tokens
/// have been assigned which values, and the counter the next fresh value is
/// drawn from.
pub struct RegistryModel {
    /// Assignments made so far, keyed by defining token.
    pub assigned: Map<Seq<char>, int>,
    /// The next value to hand out; starts at zero and only grows.
    pub counter: int,
}

impl RegistryModel {
    /// Well-formedness: every assigned value lies below the counter, and no
    /// two tokens share a value.
    pub open spec fn wf(self) -> bool {
        &&& 0 <= self.counter
        &&& forall|t: Seq<char>|
            self.assigned.contains_key(t) ==> 0 <= #[trigger] self.assigned[t] < self.counter
        &&& forall|t1: Seq<char>, t2: Seq<char>|
            #![trigger self.assigned[t1], self.assigned[t2]]
            self.assigned.contains_key(t1) && self.assigned.contains_key(t2) && t1 != t2
                ==> self.assigned[t1] != self.assigned[t2]
    }

    /// One creation step for `token`: a new token is assigned the counter's
    /// value and the counter advances; a known token changes nothing.
    pub open spec fn step(self, token: Seq<char>) -> RegistryModel {
        if self.assigned.contains_key(token) {
            self
        } else {
            RegistryModel {
                assigned: self.assigned.insert(token, self.counter),
                counter: self.counter + 1,
            }
        }
    }

    /// The unique value a creation for `token` yields in this state.
    pub open spec fn unique_for(self, token: Seq<char>) -> int {
        if self.assigned.contains_key(token) {
            self.assigned[token]
        } else {
            self.counter
        }
    }
}

/// A sequence of creation steps, one per token, oldest first.
pub open spec fn run_creations(s: RegistryModel, tokens: Seq<Seq<char>>) -> RegistryModel
    decreases tokens.len(),
{
    if tokens.len() == 0 {
        s
    } else {
        run_creations(s.step(tokens.first()), tokens.drop_first())
    }
}

/// A step keeps every assignment already made, keeps the registry
/// well-formed, and never shrinks the counter.
pub proof fn lemma_step_preserves(s: RegistryModel, token: Seq<char>, t: Seq<char>)
    ensures
        s.assigned.contains_key(t) ==> {
            &&& s.step(token).assigned.contains_key(t)
            &&& s.step(token).assigned[t] == s.assigned[t]
        },
        s.wf() ==> s.step(token).wf(),
        s.counter <= s.step(token).counter,
{
}

/// Any run of creation steps keeps assignments, well-formedness, and the
/// counter's monotonicity.
pub proof fn lemma_run_preserves(s: RegistryModel, tokens: Seq<Seq<char>>, t: Seq<char>)
    ensures
        s.assigned.contains_key(t) ==> {
            &&& run_creations(s, tokens).assigned.contains_key(t)
            &&& run_creations(s, tokens).assigned[t] == s.assigned[t]
        },
        s.wf() ==> run_creations(s, tokens).wf(),
        s.counter <= run_creations(s, tokens).counter,
    decreases tokens.len(),
{
    if tokens.len() > 0 {
        lemma_step_preserves(s, tokens.first(), t);
        lemma_run_preserves(s.step(tokens.first()), tokens.drop_first(), t);
    }
}

/// Two invocations of the identity facility from the same defining
/// call-site — with any creations for other call-sites in between — yield
/// identities that compare equal and, given the call-site's one label,
/// render identical text.
pub proof fn lemma_same_call_site_stable(
    s: RegistryModel,
    token: Seq<char>,
    between: Seq<Seq<char>>,
    label: Seq<char>,
    n1: DotPackageName,
    n2: DotPackageName,
)
    requires
        n1.unique as int == s.unique_for(token),
        n1.display@ == label,
        n2.unique as int == run_creations(s.step(token), between).unique_for(token),
        n2.display@ == label,
    ensures
        same_identity(n1, n2),
        n1.display@ == n2.display@,
{
    let s1 = s.step(token);
    assert(s1.assigned.contains_key(token));
    assert(s1.assigned[token] == s.unique_for(token));
    lemma_run_preserves(s1, between, token);
}

/// The unique-value assignments a list of registry entries denotes, keyed
/// by token. An entry is a token, the label given at first creation, and
/// the assigned value.
pub closed spec fn entries_map(entries: Seq<(String, String, u64)>) -> Map<Seq<char>, int>
    decreases entries.len(),
{
    if entries.len() == 0 {
        Map::empty()
    } else {
        entries_map(entries.drop_last()).insert(entries.last().0@, entries.last().2 as int)
    }
}

/// The stored labels a list of registry entries denotes, keyed by token.
pub closed spec fn entries_labels(entries: Seq<(String, String, u64)>) -> Map<Seq<char>, Seq<char>>
    decreases entries.len(),
{
    if entries.len() == 0 {
        Map::empty()
    } else {
        entries_labels(entries.drop_last()).insert(entries.last().0@, entries.last().1@)
    }
}

proof fn lemma_entries_labels_value(entries: Seq<(String, String, u64)>, i: int)
    requires
        forall|j: int, k: int|
            0 <= j < k < entries.len() ==> (#[trigger] entries[j].0@) != (#[trigger] entries[k].0@),
        0 <= i < entries.len(),
    ensures
        entries_labels(entries).contains_key(entries[i].0@),
        entries_labels(entries)[entries[i].0@] == entries[i].1@,
    decreases entries.len(),
{
    if i < entries.len() - 1 {
        lemma_entries_labels_value(entries.drop_last(), i);
        assert(entries.drop_last()[i] == entries[i]);
        assert(entries.last().0@ != entries[i].0@);
    }
}

proof fn lemma_entries_map_contains(entries: Seq<(String, String, u64)>, t: Seq<char>)
    ensures
        entries_map(entries).contains_key(t) <==> exists|i: int|
            0 <= i < entries.len() && #[trigger] entries[i].0@ == t,
    decreases entries.len(),
{
    if entries.len() > 0 {
        lemma_entries_map_contains(entries.drop_last(), t);
        if entries.last().0@ == t {
            assert(entries[entries.len() - 1].0@ == t);
        } else if entries_map(entries).contains_key(t) {
            let i = choose|i: int| 0 <= i < entries.drop_last().len() && #[trigger] entries.drop_last()[i].0@ == t;
            assert(entries[i].0@ == t);
        } else if exists|i: int| 0 <= i < entries.len() && #[trigger] entries[i].0@ == t {
            let i = choose|i: int| 0 <= i < entries.len() && #[trigger] entries[i].0@ == t;
            assert(entries.drop_last()[i].0@ == t);
        }
    }
}

proof fn lemma_entries_map_value(entries: Seq<(String, String, u64)>, i: int)
    requires
        forall|j: int, k: int|
            0 <= j < k < entries.len() ==> (#[trigger] entries[j].0@) != (#[trigger] entries[k].0@),
        0 <= i < entries.len(),
    ensures
        entries_map(entries).contains_key(entries[i].0@),
        entries_map(entries)[entries[i].0@] == entries[i].2 as int,
    decreases entries.len(),
{
    if i == entries.len() - 1 {
        lemma_entries_map_contains(entries, entries[i].0@);
    } else {
        lemma_entries_map_value(entries.drop_last(), i);
        assert(entries.drop_last()[i] == entries[i]);
        assert(entries.last().0@ != entries[i].0@);
    }
}

/// The identity registry: the explicit, process-wide identity facility. An
/// embedding application keeps one registry for the life of the process and
/// asks it for the identity of each package-defining site, naming the site
/// by a token of the application's choosing.
pub struct NameRegistry {
    entries: Vec<(String, String, u64)>,
    next_unique: u64,
}

impl View for NameRegistry {
    type V = RegistryModel;

    closed spec fn view(&self) -> RegistryModel {
        RegistryModel { assigned: entries_map(self.entries@), counter: self.next_unique as int }
    }
}

impl NameRegistry {
    /// The stored entries carry pairwise distinct tokens and values below the
    /// counter, so the model they denote is well-formed.
    pub closed spec fn wf(&self) -> bool {
        &&& forall|j: int, k: int|
            0 <= j < k < self.entries@.len()
                ==> (#[trigger] self.entries@[j].0@) != (#[trigger] self.entries@[k].0@)
        &&& forall|j: int|
            0 <= j < self.entries@.len() ==> (#[trigger] self.entries@[j].2) < self.next_unique
        &&& forall|j: int, k: int|
            0 <= j < k < self.entries@.len()
                ==> (#[trigger] self.entries@[j].2) != (#[trigger] self.entries@[k].2)
    }

    proof fn lemma_wf_model(&self)
        requires
            self.wf(),
        ensures
            self@.wf(),
    {
        assert forall|t: Seq<char>| self@.assigned.contains_key(t)
            implies 0 <= #[trigger] self@.assigned[t] < self@.counter by {
            lemma_entries_map_contains(self.entries@, t);
            let i = choose|i: int| 0 <= i < self.entries@.len() && #[trigger] self.entries@[i].0@ == t;
            lemma_entries_map_value(self.entries@, i);
        }
        assert forall|t1: Seq<char>, t2: Seq<char>|
            #![trigger self@.assigned[t1], self@.assigned[t2]]
            self@.assigned.contains_key(t1) && self@.assigned.contains_key(t2) && t1 != t2
            implies self@.assigned[t1] != self@.assigned[t2] by {
            lemma_entries_map_contains(self.entries@, t1);
            lemma_entries_map_contains(self.entries@, t2);
            let i1 = choose|i: int| 0 <= i < self.entries@.len() && #[trigger] self.entries@[i].0@ == t1;
            let i2 = choose|i: int| 0 <= i < self.entries@.len() && #[trigger] self.entries@[i].0@ == t2;
            lemma_entries_map_value(self.entries@, i1);
            lemma_entries_map_value(self.entries@, i2);
        }
    }

    /// A fresh registry: nothing assigned, counter at zero.
    pub fn new() -> (r: NameRegistry)
        ensures
            r.wf(),
            r@.wf(),
            r@.assigned == Map::<Seq<char>, int>::empty(),
            r@.counter == 0,
    {
        let r = NameRegistry { entries: Vec::new(), next_unique: 0 };
        proof {
            assert(r@.assigned =~= Map::<Seq<char>, int>::empty());
            r.lemma_wf_model();
        }
        r
    }

    /// The label stored for a known token: the one given when the token's
    /// identity was first created.
    pub closed spec fn label_for(&self, token: Seq<char>) -> Seq<char> {
        entries_labels(self.entries@)[token]
    }

    /// The counter the next fresh identity would be drawn from; equally, how
    /// many distinct identities this registry has handed out so far.
    pub fn counter_value(&self) -> (n: u64)
        ensures
            n as int == self@.counter,
    {
        self.next_unique
    }

    /// Create (or re-create) the identity of the defining site named by
    /// `token`, labelled `label`.
    ///
    /// The first creation for a token assigns the counter's value and stores
    /// `label`; every later creation for the same token yields the stored
    /// value and the stored label again, whatever label it passes: one
    /// defining site receives one identity, created once and immutable.
    #[verifier::loop_isolation(false)]
    pub fn create_identity(&mut self, token: &str, label: &str) -> (r: DotPackageName)
        requires
            old(self).wf(),
            old(self)@.counter < u64::MAX,
        ensures
            final(self).wf(),
            final(self)@.wf(),
            final(self)@ == old(self)@.step(token@),
            r.unique as int == old(self)@.unique_for(token@),
            old(self)@.assigned.contains_key(token@) ==> r.display@ == old(self).label_for(
                token@,
            ),
            !old(self)@.assigned.contains_key(token@) ==> r.display@ == label@,
            final(self).label_for(token@) == r.display@,
            forall|t: Seq<char>|
                old(self)@.assigned.contains_key(t) ==> final(self).label_for(t) == old(
                    self,
                ).label_for(t),
    {
        let ghost pre = self@;
        let token_string = token.to_owned();
        let n = self.entries.len();
        let mut i: usize = 0;
        while i < n
            invariant
                n == self.entries@.len(),
                forall|j: int| 0 <= j < i ==> (#[trigger] self.entries@[j].0@) != token@,
            decreases n - i,
        {
            if self.entries[i].0 == token_string {
                proof {
                    lemma_entries_map_value(self.entries@, i as int);
                    lemma_entries_labels_value(self.entries@, i as int);
                    self.lemma_wf_model();
                }
                let stored_label = self.entries[i].1.clone();
                let unique = self.entries[i].2;
                return DotPackageName { display: stored_label, unique };
            }
            i += 1;
        }
        proof {
            lemma_entries_map_contains(self.entries@, token@);
            assert(!pre.assigned.contains_key(token@));
        }
        let unique = self.next_unique;
        self.entries.push((token_string, label.to_owned(), unique));
        self.next_unique = unique + 1;
        proof {
            assert(self.entries@.drop_last() =~= old(self).entries@);
            assert(self.entries@.last().0@ == token@);
            assert(self@.assigned =~= pre.assigned.insert(token@, unique as int));
            assert forall|j: int, k: int|
                0 <= j < k < self.entries@.len()
                implies (#[trigger] self.entries@[j].0@) != (#[trigger] self.entries@[k].0@) by {
                if k == self.entries@.len() - 1 {
                    lemma_entries_map_contains(old(self).entries@, old(self).entries@[j].0@);
                }
            }
            self.lemma_wf_model();
            lemma_entries_labels_value(self.entries@, self.entries@.len() - 1);
            assert forall|t: Seq<char>| pre.assigned.contains_key(t)
                implies self.label_for(t) == old(self).label_for(t) by {
                lemma_entries_map_contains(old(self).entries@, t);
                let j = choose|j: int|
                    0 <= j < old(self).entries@.len() && #[trigger] old(self).entries@[j].0@ == t;
                lemma_entries_labels_value(old(self).entries@, j);
                assert(self.entries@[j] == old(self).entries@[j]);
                lemma_entries_labels_value(self.entries@, j);
            }
        }
        DotPackageName { display: label.to_owned(), unique }
    }
}

/// Two distinct defining call-sites — even with an identical label — yield
/// identities that compare unequal, though their rendered text agrees.
pub proof fn lemma_distinct_call_sites(
    s: RegistryModel,
    t1: Seq<char>,
    t2: Seq<char>,
    between: Seq<Seq<char>>,
    label: Seq<char>,
    n1: DotPackageName,
    n2: DotPackageName,
)
    requires
        s.wf(),
        t1 != t2,
        n1.unique as int == s.unique_for(t1),
        n1.display@ == label,
        n2.unique as int == run_creations(s.step(t1), between).step(t2).unique_for(t2),
        n2.display@ == label,
    ensures
        !same_identity(n1, n2),
        n1.display@ == n2.display@,
{
    let s1 = s.step(t1);
    assert(s1.assigned.contains_key(t1));
    assert(s1.assigned[t1] == s.unique_for(t1));
    lemma_run_preserves(s1, between, t1);
    let s2 = run_creations(s1, between);
    assert(s2.assigned.contains_key(t1));
    assert(s2.assigned[t1] == n1.unique as int);
    lemma_step_preserves(s2, t2, t1);
    let s3 = s2.step(t2);
    if s2.assigned.contains_key(t2) {
        assert(s3.assigned[t2] != s3.assigned[t1]);
    } else {
        assert(s3.unique_for(t2) == s2.counter);
        assert(s2.assigned[t1] < s2.counter);
    }
}

} // verus!
