//! The cohort: who takes part in one run, in the order that fixes each
//! member's evaluation point.

use crate::error::DkgError;
use crate::group::P;
use crate::identity::{Identity, IdentityRegistry};
use vstd::prelude::*;

verus! {

/// A run needs at least this many members.
pub const MIN_COHORT_SIZE: usize = 3;

/// Every member needs a nonzero evaluation point of its own in the scalar
/// field, so a cohort holds fewer members than the field has elements.
pub const MAX_COHORT_SIZE: usize = 2147483542;

/// The public portion of one member.
#[derive(Clone, Copy, PartialEq, Eq, Structural, Debug)]
pub struct Member {
    pub identity: Identity,
    pub public_key: u64,
}

/// Some identity occurs twice.
pub open spec fn has_duplicate(identities: Seq<Identity>) -> bool {
    exists|i: int, j: int| 0 <= i < j < identities.len() && identities[i] == identities[j]
}

/// The number of members is one that a cohort may have.
pub open spec fn size_allowed(n: nat) -> bool {
    MIN_COHORT_SIZE <= n <= MAX_COHORT_SIZE
}

/// Position of the first identity at or after `from` that is not live in the
/// registry; the length of the sequence when all of them are.
pub open spec fn first_released(
    registry: &IdentityRegistry,
    identities: Seq<Identity>,
    from: int,
) -> int
    decreases identities.len() - from,
{
    if from < 0 || from >= identities.len() {
        identities.len() as int
    } else if !registry.is_live(identities[from]) {
        from
    } else {
        first_released(registry, identities, from + 1)
    }
}

/// The members that a list of live identities stands for, in its order.
pub open spec fn members_of(registry: &IdentityRegistry, identities: Seq<Identity>) -> Seq<
    Member,
> {
    Seq::new(
        identities.len(),
        |i: int| Member { identity: identities[i], public_key: registry.public_of(identities[i]) },
    )
}

/// What [`CohortConfig::build`] answers: the members, or why the list is no
/// cohort. Size and duplicates are looked at before the registry is.
pub open spec fn build_outcome(registry: &IdentityRegistry, identities: Seq<Identity>) -> Result<
    Seq<Member>,
    DkgError,
> {
    if !size_allowed(identities.len()) || has_duplicate(identities) {
        Err(DkgError::InvalidCohort)
    } else if first_released(registry, identities, 0) < identities.len() {
        Err(
            DkgError::UseAfterRelease {
                identity: identities[first_released(registry, identities, 0)],
            },
        )
    } else {
        Ok(members_of(registry, identities))
    }
}

/// Number of shares that reconstruct the joint secret: a strict majority.
pub open spec fn threshold_of(n: nat) -> nat {
    n / 2 + 1
}

/// The scalar at which the member at `index` has every polynomial evaluated.
pub open spec fn evaluation_point(index: int) -> int {
    index + 1
}

/// The member at position `i` carries this identity.
pub open spec fn is_member_at(members: Seq<Member>, identity: Identity, i: int) -> bool {
    0 <= i < members.len() && members[i].identity == identity
}

/// The identity belongs to the cohort.
pub open spec fn is_member(members: Seq<Member>, identity: Identity) -> bool {
    exists|i: int| is_member_at(members, identity, i)
}

/// The canonical index of a member.
pub open spec fn index_of(members: Seq<Member>, identity: Identity) -> int {
    choose|i: int| is_member_at(members, identity, i)
}

/// What every frozen cohort satisfies.
pub open spec fn well_formed_cohort(members: Seq<Member>) -> bool {
    &&& size_allowed(members.len())
    &&& forall|i: int, j: int|
        0 <= i < j < members.len() ==> members[i].identity != members[j].identity
    &&& forall|i: int| 0 <= i < members.len() ==> (#[trigger] members[i]).public_key < P
}

/// In a well-formed cohort an identity sits at one position only.
pub proof fn lemma_index_unique(members: Seq<Member>, identity: Identity, i: int)
    requires
        well_formed_cohort(members),
        is_member_at(members, identity, i),
    ensures
        is_member(members, identity),
        index_of(members, identity) == i,
{
    let j = index_of(members, identity);
    assert(is_member_at(members, identity, j));
    if i < j {
        assert(members[i].identity != members[j].identity);
    } else if j < i {
        assert(members[j].identity != members[i].identity);
    }
}

/// The frozen, ordered set of members of one run.
pub struct CohortConfig {
    members: Vec<Member>,
}

impl View for CohortConfig {
    type V = Seq<Member>;

    closed spec fn view(&self) -> Seq<Member> {
        self.members@
    }
}

impl Clone for CohortConfig {
    fn clone(&self) -> (copy: CohortConfig)
        ensures
            copy@ == self@,
    {
        proof {
            use_type_invariant(self);
        }
        CohortConfig { members: self.members.clone() }
    }
}

impl CohortConfig {
    /// Every cohort is well formed: no other can be made.
    #[verifier::type_invariant]
    spec fn frozen(&self) -> bool {
        well_formed_cohort(self.members@)
    }

    /// The cohort is well formed.
    pub open spec fn wf(&self) -> bool {
        well_formed_cohort(self@)
    }

    /// Freezes a list of identities as the cohort of a run, in the order
    /// given.
    ///
    /// Fails with `InvalidCohort` when the list has fewer than
    /// [`MIN_COHORT_SIZE`] or more than [`MAX_COHORT_SIZE`] entries or names
    /// an identity twice; otherwise with `UseAfterRelease`, naming the first
    /// identity that is not live in the registry, when there is one.
    pub fn build(registry: &IdentityRegistry, identities: &Vec<Identity>) -> (result: Result<
        CohortConfig,
        DkgError,
    >)
        ensures
            match result {
                Ok(config) => build_outcome(registry, identities@) == Ok::<Seq<Member>, DkgError>(
                    config@,
                ) && config.wf(),
                Err(error) => build_outcome(registry, identities@) == Err::<Seq<Member>, DkgError>(
                    error,
                ),
            },
    {
        let n: usize = identities.len();
        if n < MIN_COHORT_SIZE || n > MAX_COHORT_SIZE {
            return Err(DkgError::InvalidCohort);
        }
        if find_duplicate(identities) {
            return Err(DkgError::InvalidCohort);
        }
        let mut members: Vec<Member> = Vec::new();
        let mut i: usize = 0;
        while i < n
            invariant
                n == identities@.len(),
                size_allowed(n as nat),
                !has_duplicate(identities@),
                i <= n,
                members@.len() == i,
                first_released(registry, identities@, 0) == first_released(
                    registry,
                    identities@,
                    i as int,
                ),
                forall|k: int|
                    0 <= k < i ==> #[trigger] members@[k] == members_of(registry, identities@)[k],
                forall|k: int| 0 <= k < i ==> (#[trigger] members@[k]).public_key < P,
            decreases n - i,
        {
            let identity = identities[i];
            match registry.public_key(identity) {
                Err(error) => {
                    assert(first_released(registry, identities@, i as int) == i);
                    return Err(error);
                },
                Ok(public_key) => {
                    assert(first_released(registry, identities@, i as int) == first_released(
                        registry,
                        identities@,
                        i + 1,
                    ));
                    members.push(Member { identity, public_key });
                },
            }
            i = i + 1;
        }
        let config = CohortConfig { members };
        assert(config@ =~= members_of(registry, identities@));
        assert(config.wf()) by {
            assert forall|a: int, b: int| 0 <= a < b < config@.len() implies config@[a].identity
                != config@[b].identity by {
                assert(identities@[a] != identities@[b]);
            }
        }
        Ok(config)
    }

    /// Number of members.
    pub fn len(&self) -> (n: usize)
        ensures
            n == self@.len(),
            self.wf(),
    {
        proof {
            use_type_invariant(self);
        }
        self.members.len()
    }

    /// Number of shares that reconstruct the joint secret.
    pub fn threshold(&self) -> (t: usize)
        ensures
            t == threshold_of(self@.len()),
            self.wf(),
    {
        proof {
            use_type_invariant(self);
        }
        self.members.len() / 2 + 1
    }

    /// The member at a canonical index, or `None` where the cohort has no
    /// such index.
    pub fn member(&self, index: usize) -> (member: Option<Member>)
        ensures
            member == if index < self@.len() {
                Some(self@[index as int])
            } else {
                None
            },
    {
        if index < self.members.len() {
            Some(self.members[index])
        } else {
            None
        }
    }

    pub(crate) fn member_at(&self, index: usize) -> (member: Member)
        requires
            index < self@.len(),
        ensures
            member == self@[index as int],
    {
        self.members[index]
    }

    /// The canonical index of an identity, or `None` for one that is not a
    /// member.
    pub fn position(&self, identity: Identity) -> (found: Option<usize>)
        ensures
            match found {
                Some(i) => is_member_at(self@, identity, i as int) && forall|k: int|
                    0 <= k < i ==> !is_member_at(self@, identity, k),
                None => !is_member(self@, identity),
            },
            self.wf(),
    {
        proof {
            use_type_invariant(self);
        }
        let mut i: usize = 0;
        while i < self.members.len()
            invariant
                self.wf(),
                i <= self.members@.len(),
                forall|k: int| 0 <= k < i ==> !is_member_at(self@, identity, k),
            decreases self.members@.len() - i,
        {
            if self.members[i].identity == identity {
                return Some(i);
            }
            i = i + 1;
        }
        None
    }

    /// Tells whether an identity is a member.
    pub fn contains(&self, identity: Identity) -> (found: bool)
        ensures
            found == is_member(self@, identity),
            self.wf(),
    {
        self.position(identity).is_some()
    }
}

/// Tells whether some identity occurs twice in the list.
pub fn find_duplicate(identities: &Vec<Identity>) -> (found: bool)
    ensures
        found == has_duplicate(identities@),
{
    let n: usize = identities.len();
    let mut j: usize = 0;
    while j < n
        invariant
            n == identities@.len(),
            j <= n,
            forall|a: int, b: int| 0 <= a < b < j ==> identities@[a] != identities@[b],
        decreases n - j,
    {
        let mut i: usize = 0;
        while i < j
            invariant
                n == identities@.len(),
                i <= j < n,
                forall|a: int| 0 <= a < i ==> identities@[a] != identities@[j as int],
            decreases j - i,
        {
            if identities[i] == identities[j] {
                assert(0 <= i < j < identities@.len() && identities@[i as int] == identities@[j as int]);
                return true;
            }
            i = i + 1;
        }
        j = j + 1;
    }
    false
}

} // verus!
