//! The organization tree: node lookup by identifier and slug, children
//! queries, and general membership (a set of organization/user pairs with
//! idempotent addition).

use vstd::prelude::*;

use crate::model::Error;
use crate::model::Organization;
use crate::model::OrganizationUser;
use crate::model::Store;

verus! {

/// The first organization in store order with the given identifier.
pub open spec fn org_by_id(orgs: Seq<Organization>, id: i32) -> Option<Organization>
    decreases orgs.len(),
{
    if orgs.len() == 0 {
        None
    } else if orgs.first().id == id {
        Some(orgs.first())
    } else {
        org_by_id(orgs.drop_first(), id)
    }
}

/// The first organization in store order with the given slug.
pub open spec fn org_by_slug(orgs: Seq<Organization>, slug: Seq<char>) -> Option<Organization>
    decreases orgs.len(),
{
    if orgs.len() == 0 {
        None
    } else if orgs.first().slug@ == slug {
        Some(orgs.first())
    } else {
        org_by_slug(orgs.drop_first(), slug)
    }
}

/// The direct children of `org`, in store (creation) order.
pub open spec fn children_of(orgs: Seq<Organization>, org: i32) -> Seq<Organization>
    decreases orgs.len(),
{
    if orgs.len() == 0 {
        Seq::empty()
    } else {
        let rest = children_of(orgs.drop_last(), org);
        let x = orgs.last();
        if x.parent_id == Some(org) {
            rest.push(x)
        } else {
            rest
        }
    }
}

/// Whether the `(org, user)` membership pair is present.
pub open spec fn member_present(members: Seq<OrganizationUser>, org: i32, user: i32) -> bool {
    exists|i: int|
        0 <= i < members.len() && (#[trigger] members[i]).organization_id == org
            && members[i].user_id == user
}

/// Membership after an idempotent add: unchanged if the pair is present,
/// extended by it otherwise.
pub open spec fn add_member(members: Seq<OrganizationUser>, org: i32, user: i32) -> Seq<
    OrganizationUser,
> {
    if member_present(members, org, user) {
        members
    } else {
        members.push(OrganizationUser { organization_id: org, user_id: user })
    }
}

/// Membership with every occurrence of the pair removed.
pub open spec fn remove_member(members: Seq<OrganizationUser>, org: i32, user: i32) -> Seq<
    OrganizationUser,
>
    decreases members.len(),
{
    if members.len() == 0 {
        Seq::empty()
    } else {
        let rest = remove_member(members.drop_last(), org, user);
        let x = members.last();
        if x.organization_id == org && x.user_id == user {
            rest
        } else {
            rest.push(x)
        }
    }
}

/// How many times the pair occurs.
pub open spec fn member_count(members: Seq<OrganizationUser>, org: i32, user: i32) -> nat
    decreases members.len(),
{
    if members.len() == 0 {
        0nat
    } else {
        member_count(members.drop_last(), org, user) + if members.last().organization_id == org
            && members.last().user_id == user {
            1nat
        } else {
            0nat
        }
    }
}

/// The member users of `org` — and, when `include_children` is set, of its
/// direct children — in store order, one entry per membership record.
pub open spec fn users_of(
    members: Seq<OrganizationUser>,
    orgs: Seq<Organization>,
    org: i32,
    include_children: bool,
) -> Seq<i32>
    decreases members.len(),
{
    if members.len() == 0 {
        Seq::empty()
    } else {
        let rest = users_of(members.drop_last(), orgs, org, include_children);
        let m = members.last();
        if m.organization_id == org || (include_children && (match org_by_id(
            orgs,
            m.organization_id,
        ) {
            Some(o) => o.parent_id == Some(org),
            None => false,
        })) {
            rest.push(m.user_id)
        } else {
            rest
        }
    }
}

impl Store {
    /// The member users of `org` and, when `include_children` is set, of its
    /// direct children.
    #[verifier::loop_isolation(false)]
    pub fn find_users(&self, org: i32, include_children: bool) -> (r: Vec<i32>)
        ensures
            r@ == users_of(self.members@, self.orgs@, org, include_children),
    {
        let mut out: Vec<i32> = Vec::new();
        let mut i: usize = 0;
        while i < self.members.len()
            invariant
                0 <= i <= self.members@.len(),
                out@ == users_of(self.members@.take(i as int), self.orgs@, org, include_children),
            decreases self.members@.len() - i,
        {
            proof {
                assert(self.members@.take(i + 1).drop_last() =~= self.members@.take(i as int));
                assert(self.members@.take(i + 1).last() == self.members@[i as int]);
            }
            let m = &self.members[i];
            let mut keep = m.organization_id == org;
            if !keep && include_children {
                keep = match self.find_by_id(m.organization_id) {
                    Ok(o) => match o.parent_id {
                        Some(p) => p == org,
                        None => false,
                    },
                    Err(_) => false,
                };
            }
            if keep {
                out.push(m.user_id);
            }
            i = i + 1;
        }
        proof {
            assert(self.members@.take(self.members@.len() as int) =~= self.members@);
        }
        out
    }
}

impl Store {
    /// The organization with the given identifier; `NotFound` otherwise.
    #[verifier::loop_isolation(false)]
    pub fn find_by_id(&self, id: i32) -> (r: Result<Organization, Error>)
        ensures
            match r {
                Ok(o) => org_by_id(self.orgs@, id) == Some(o),
                Err(e) => e == Error::NotFound && org_by_id(self.orgs@, id) is None,
            },
    {
        proof {
            assert(self.orgs@.skip(0) =~= self.orgs@);
        }
        let mut i: usize = 0;
        while i < self.orgs.len()
            invariant
                0 <= i <= self.orgs@.len(),
                org_by_id(self.orgs@, id) == org_by_id(self.orgs@.skip(i as int), id),
            decreases self.orgs@.len() - i,
        {
            proof {
                assert(self.orgs@.skip(i as int).first() == self.orgs@[i as int]);
                assert(self.orgs@.skip(i as int).drop_first() =~= self.orgs@.skip(i + 1));
            }
            if self.orgs[i].id == id {
                return Ok(self.orgs[i].clone());
            }
            i = i + 1;
        }
        proof {
            assert(self.orgs@.skip(self.orgs@.len() as int) =~= Seq::<Organization>::empty());
        }
        Err(Error::NotFound)
    }

    /// The organization with the given slug; `NotFound` otherwise.
    #[verifier::loop_isolation(false)]
    pub fn find_by_slug(&self, slug: &String) -> (r: Result<Organization, Error>)
        ensures
            match r {
                Ok(o) => org_by_slug(self.orgs@, slug@) == Some(o),
                Err(e) => e == Error::NotFound && org_by_slug(self.orgs@, slug@) is None,
            },
    {
        proof {
            assert(self.orgs@.skip(0) =~= self.orgs@);
        }
        let mut i: usize = 0;
        while i < self.orgs.len()
            invariant
                0 <= i <= self.orgs@.len(),
                org_by_slug(self.orgs@, slug@) == org_by_slug(self.orgs@.skip(i as int), slug@),
            decreases self.orgs@.len() - i,
        {
            proof {
                assert(self.orgs@.skip(i as int).first() == self.orgs@[i as int]);
                assert(self.orgs@.skip(i as int).drop_first() =~= self.orgs@.skip(i + 1));
            }
            if self.orgs[i].slug == *slug {
                return Ok(self.orgs[i].clone());
            }
            i = i + 1;
        }
        proof {
            assert(self.orgs@.skip(self.orgs@.len() as int) =~= Seq::<Organization>::empty());
        }
        Err(Error::NotFound)
    }

    /// The direct children of `org`, in creation order.
    #[verifier::loop_isolation(false)]
    pub fn find_children(&self, org: i32) -> (r: Vec<Organization>)
        ensures
            r@ == children_of(self.orgs@, org),
    {
        let mut out: Vec<Organization> = Vec::new();
        let mut i: usize = 0;
        while i < self.orgs.len()
            invariant
                0 <= i <= self.orgs@.len(),
                out@ == children_of(self.orgs@.take(i as int), org),
            decreases self.orgs@.len() - i,
        {
            proof {
                assert(self.orgs@.take(i + 1).drop_last() =~= self.orgs@.take(i as int));
                assert(self.orgs@.take(i + 1).last() == self.orgs@[i as int]);
            }
            let is_child = match self.orgs[i].parent_id {
                Some(p) => p == org,
                None => false,
            };
            if is_child {
                out.push(self.orgs[i].clone());
            }
            i = i + 1;
        }
        proof {
            assert(self.orgs@.take(self.orgs@.len() as int) =~= self.orgs@);
        }
        out
    }

    /// Every organization, in store order.
    #[verifier::loop_isolation(false)]
    pub fn find_all(&self) -> (r: Vec<Organization>)
        ensures
            r@ == self.orgs@,
    {
        let mut out: Vec<Organization> = Vec::new();
        let mut i: usize = 0;
        while i < self.orgs.len()
            invariant
                0 <= i <= self.orgs@.len(),
                out@ == self.orgs@.take(i as int),
            decreases self.orgs@.len() - i,
        {
            out.push(self.orgs[i].clone());
            proof {
                assert(out@ =~= self.orgs@.take(i + 1));
            }
            i = i + 1;
        }
        proof {
            assert(self.orgs@.take(self.orgs@.len() as int) =~= self.orgs@);
        }
        out
    }

    /// Whether `user` is a general member of `org`.
    #[verifier::loop_isolation(false)]
    pub fn is_user_org_member(&self, org: i32, user: i32) -> (r: bool)
        ensures
            r == member_present(self.members@, org, user),
    {
        let mut i: usize = 0;
        while i < self.members.len()
            invariant
                0 <= i <= self.members@.len(),
                forall|j: int|
                    0 <= j < i ==> !((#[trigger] self.members@[j]).organization_id == org
                        && self.members@[j].user_id == user),
            decreases self.members@.len() - i,
        {
            if self.members[i].organization_id == org && self.members[i].user_id == user {
                return true;
            }
            i = i + 1;
        }
        false
    }

    /// Adds the membership pair; adding a pair that is already present is a
    /// no-op reported as success, so membership stays a set.
    pub fn add_user(&mut self, org: i32, user: i32) -> (r: bool)
        ensures
            r == true,
            final(self).members@ == add_member(old(self).members@, org, user),
            final(self).orgs@ == old(self).orgs@,
            final(self).roles@ == old(self).roles@,
            final(self).reports@ == old(self).reports@,
            old(self).wf() ==> final(self).wf(),
    {
        if self.is_user_org_member(org, user) {
            return true;
        }
        self.members.push(OrganizationUser { organization_id: org, user_id: user });
        true
    }

    /// Removes every occurrence of the membership pair; reports whether it
    /// was present.
    #[verifier::loop_isolation(false)]
    pub fn remove_user(&mut self, org: i32, user: i32) -> (r: bool)
        ensures
            r == member_present(old(self).members@, org, user),
            final(self).members@ == remove_member(old(self).members@, org, user),
            final(self).orgs@ == old(self).orgs@,
            final(self).roles@ == old(self).roles@,
            final(self).reports@ == old(self).reports@,
            old(self).wf() ==> final(self).wf(),
    {
        let ghost orig = self.members@;
        let mut out: Vec<OrganizationUser> = Vec::new();
        let mut found = false;
        let mut i: usize = 0;
        while i < self.members.len()
            invariant
                0 <= i <= self.members@.len(),
                *self == *old(self),
                out@ == remove_member(self.members@.take(i as int), org, user),
                found == member_present(self.members@.take(i as int), org, user),
            decreases self.members@.len() - i,
        {
            proof {
                assert(self.members@.take(i + 1).drop_last() =~= self.members@.take(i as int));
                assert(self.members@.take(i + 1).last() == self.members@[i as int]);
            }
            let x = &self.members[i];
            if x.organization_id == org && x.user_id == user {
                found = true;
                proof {
                    assert(member_present(self.members@.take(i + 1), org, user));
                }
            } else {
                out.push(OrganizationUser { organization_id: x.organization_id, user_id: x.user_id });
                proof {
                    if member_present(self.members@.take(i as int), org, user) {
                        assert(member_present(self.members@.take(i + 1), org, user));
                    } else {
                        assert forall|j: int|
                            0 <= j < i + 1 implies !((#[trigger] self.members@.take(i + 1)[
                        j]).organization_id == org && self.members@.take(i + 1)[j].user_id == user) by {
                            if j < i {
                                assert(!member_present(self.members@.take(i as int), org, user));
                                assert(self.members@.take(i as int)[j] == self.members@.take(i + 1)[j]);
                            }
                        }
                    }
                }
            }
            i = i + 1;
        }
        proof {
            assert(self.members@.take(self.members@.len() as int) =~= self.members@);
        }
        self.members = out;
        proof {
            if old(self).wf() {
                lemma_remove_member_keeps_distinct(orig, org, user);
            }
        }
        found
    }
}

/// Removal preserves pairwise-distinct memberships.
proof fn lemma_remove_member_keeps_distinct(members: Seq<OrganizationUser>, org: i32, user: i32)
    requires
        forall|i: int, j: int|
            0 <= i < j < members.len() ==> !((#[trigger] members[i]).organization_id == (
            #[trigger] members[j]).organization_id && members[i].user_id == members[j].user_id),
    ensures
        forall|i: int, j: int|
            0 <= i < j < remove_member(members, org, user).len() ==> !((#[trigger] remove_member(
                members,
                org,
                user,
            )[i]).organization_id == (#[trigger] remove_member(members, org, user)[j]).organization_id
                && remove_member(members, org, user)[i].user_id == remove_member(
                members,
                org,
                user,
            )[j].user_id),
    decreases members.len(),
{
    if members.len() > 0 {
        lemma_remove_member_keeps_distinct(members.drop_last(), org, user);
        lemma_remove_member_subset(members.drop_last(), org, user);
        let r = remove_member(members, org, user);
        let rest = remove_member(members.drop_last(), org, user);
        let x = members.last();
        if !(x.organization_id == org && x.user_id == user) {
            assert forall|i: int, j: int| 0 <= i < j < r.len() implies !((#[trigger] r[
            i]).organization_id == (#[trigger] r[j]).organization_id && r[i].user_id == r[
            j].user_id) by {
                if j == r.len() - 1 {
                    let k = choose|k: int|
                        0 <= k < members.drop_last().len() && members.drop_last()[k] == rest[i];
                    assert(members[k] == r[i]);
                    assert(members[members.len() - 1] == r[j]);
                }
            }
        }
    }
}

/// Every element of the removal result occurs in the input.
proof fn lemma_remove_member_subset(members: Seq<OrganizationUser>, org: i32, user: i32)
    ensures
        forall|i: int|
            0 <= i < remove_member(members, org, user).len() ==> exists|j: int|
                0 <= j < members.len() && members[j] == #[trigger] remove_member(
                    members,
                    org,
                    user,
                )[i],
    decreases members.len(),
{
    if members.len() > 0 {
        lemma_remove_member_subset(members.drop_last(), org, user);
        assert forall|i: int| 0 <= i < remove_member(members, org, user).len() implies exists|j: int|
            0 <= j < members.len() && members[j] == #[trigger] remove_member(members, org, user)[
        i] by {
            let r = remove_member(members, org, user);
            let rest = remove_member(members.drop_last(), org, user);
            if i < rest.len() {
                let j = choose|j: int|
                    0 <= j < members.drop_last().len() && members.drop_last()[j] == rest[i];
                assert(members[j] == r[i]);
            } else {
                assert(members[members.len() - 1] == r[i]);
            }
        }
    }
}

} // verus!
