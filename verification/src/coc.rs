//! Chain-of-command resolution: the parent of a role, the upward walk that
//! produces a chain, and the membership questions authorization rests on.
//!
//! The parent of a role is the greatest eligible role strictly below it in
//! its own organization's role order (its nearest superior). At the top of an
//! organization, resolution crosses to the nearest ancestor organization that
//! has a ranked role and continues from that organization's lowest-authority
//! role. Every upward traversal is fuel-bounded; exhausting the fuel, or
//! meeting a parent link that points to no organization, is reported as
//! `HierarchyCorruption` rather than looping forever on corrupted data.

use vstd::prelude::*;

use crate::model::ChainOfCommand;
use crate::model::Error;
use crate::model::Organization;
use crate::model::OrganizationRole;
use crate::model::RoleRankScope;
use crate::model::Store;
use crate::orgs::org_by_id;
use crate::roles::max_eligible_below;
use crate::roles::min_scoped_above;
use crate::roles::role_by_id;
use crate::roles::user_ranked_role;

verus! {

/// The role resolution continues with after leaving `o` upward: the
/// lowest-authority eligible role of the nearest ancestor organization that
/// has one; `None` past the root; `HierarchyCorruption` on a dangling parent
/// link or exhausted fuel.
pub open spec fn cross_parent(
    orgs: Seq<Organization>,
    roles: Seq<OrganizationRole>,
    o: Organization,
    max_rank: int,
    fuel: nat,
) -> Result<Option<OrganizationRole>, Error>
    decreases fuel,
{
    match o.parent_id {
        None => Ok(None),
        Some(p) => match org_by_id(orgs, p) {
            None => Err(Error::HierarchyCorruption),
            Some(po) => match max_eligible_below(roles, p, max_rank, None) {
                Some(r) => Ok(Some(r)),
                None => if fuel == 0 {
                    Err(Error::HierarchyCorruption)
                } else {
                    cross_parent(orgs, roles, po, max_rank, (fuel - 1) as nat)
                },
            },
        },
    }
}

/// The parent of `role`: its nearest superior within its own organization,
/// or, unless `self_org_only`, the crossing into ancestor organizations.
pub open spec fn parent_of(
    orgs: Seq<Organization>,
    roles: Seq<OrganizationRole>,
    role: OrganizationRole,
    max_rank: int,
    self_org_only: bool,
) -> Result<Option<OrganizationRole>, Error> {
    match max_eligible_below(roles, role.organization_id, max_rank, Some(role)) {
        Some(p) => Ok(Some(p)),
        None => if self_org_only {
            Ok(None)
        } else {
            match org_by_id(orgs, role.organization_id) {
                None => Err(Error::HierarchyCorruption),
                Some(o) => cross_parent(orgs, roles, o, max_rank, orgs.len()),
            }
        },
    }
}

/// The chain of command from `role` upward: `role` first, then its parent,
/// and so on until no parent remains.
pub open spec fn coc_walk(
    orgs: Seq<Organization>,
    roles: Seq<OrganizationRole>,
    role: OrganizationRole,
    max_rank: int,
    fuel: nat,
) -> Result<Seq<OrganizationRole>, Error>
    decreases fuel,
{
    match parent_of(orgs, roles, role, max_rank, false) {
        Err(e) => Err(e),
        Ok(None) => Ok(seq![role]),
        Ok(Some(p)) => if fuel == 0 {
            Err(Error::HierarchyCorruption)
        } else {
            match coc_walk(orgs, roles, p, max_rank, (fuel - 1) as nat) {
                Err(e) => Err(e),
                Ok(tail) => Ok(seq![role] + tail),
            }
        },
    }
}

/// The identifiers of `o` and its ancestor organizations, nearest first.
pub open spec fn ancestor_ids(orgs: Seq<Organization>, o: Organization, fuel: nat) -> Result<
    Seq<i32>,
    Error,
>
    decreases fuel,
{
    match o.parent_id {
        None => Ok(seq![o.id]),
        Some(p) => match org_by_id(orgs, p) {
            None => Err(Error::HierarchyCorruption),
            Some(po) => if fuel == 0 {
                Err(Error::HierarchyCorruption)
            } else {
                match ancestor_ids(orgs, po, (fuel - 1) as nat) {
                    Err(e) => Err(e),
                    Ok(t) => Ok(seq![o.id] + t),
                }
            },
        },
    }
}

/// Whether `user` holds a ranked role in `o` or any ancestor organization —
/// that is, anywhere in `o`'s chain of command.
pub open spec fn user_in_coc_at(
    orgs: Seq<Organization>,
    roles: Seq<OrganizationRole>,
    o: Organization,
    user: i32,
) -> Result<bool, Error> {
    match ancestor_ids(orgs, o, orgs.len()) {
        Err(e) => Err(e),
        Ok(ids) => Ok(
            exists|i: int|
                0 <= i < roles.len() && (#[trigger] roles[i]).rank is Some && roles[i].user_id
                    == Some(user) && ids.contains(roles[i].organization_id),
        ),
    }
}

/// The ranked role `user` holds nearest to `o` along `o`'s chain of command.
pub open spec fn role_in_coc_at(
    orgs: Seq<Organization>,
    roles: Seq<OrganizationRole>,
    o: Organization,
    user: i32,
    fuel: nat,
) -> Result<Option<OrganizationRole>, Error>
    decreases fuel,
{
    match user_ranked_role(roles, o.id, user) {
        Some(r) => Ok(Some(r)),
        None => match o.parent_id {
            None => Ok(None),
            Some(p) => match org_by_id(orgs, p) {
                None => Err(Error::HierarchyCorruption),
                Some(po) => if fuel == 0 {
                    Err(Error::HierarchyCorruption)
                } else {
                    role_in_coc_at(orgs, roles, po, user, (fuel - 1) as nat)
                },
            },
        },
    }
}

/// The chain returned by [`Store::find_user_coc`]: from the ranked role
/// `user` holds in the organization — or the organization's top-ranked role
/// if `user` holds none — upward to the root of the forest.
pub open spec fn user_coc_spec(
    orgs: Seq<Organization>,
    roles: Seq<OrganizationRole>,
    org_id: i32,
    user: i32,
) -> Result<Seq<OrganizationRole>, Error> {
    match org_by_id(orgs, org_id) {
        None => Err(Error::NotFound),
        Some(o) => {
            let start = match user_ranked_role(roles, org_id, user) {
                Some(r) => Some(r),
                None => min_scoped_above(roles, org_id, RoleRankScope::RankedOnly, None),
            };
            match start {
                Some(s) => coc_walk(orgs, roles, s, i32::MAX as int, roles.len()),
                None => Ok(Seq::empty()),
            }
        },
    }
}

/// The chain returned by [`Store::find_org_coc`]: from the organization's
/// lowest-authority role with rank at most `max_rank` upward to the root.
pub open spec fn org_coc_spec(
    orgs: Seq<Organization>,
    roles: Seq<OrganizationRole>,
    org_id: i32,
    max_rank: int,
) -> Result<Seq<OrganizationRole>, Error> {
    match org_by_id(orgs, org_id) {
        None => Err(Error::NotFound),
        Some(o) => match max_eligible_below(roles, org_id, max_rank, None) {
            Some(s) => coc_walk(orgs, roles, s, max_rank, roles.len()),
            None => match cross_parent(orgs, roles, o, max_rank, orgs.len()) {
                Err(e) => Err(e),
                Ok(Some(s)) => coc_walk(orgs, roles, s, max_rank, roles.len()),
                Ok(None) => Ok(Seq::empty()),
            },
        },
    }
}

impl Store {
    /// Executes [`cross_parent`].
    fn cross_parent_exec(&self, o: &Organization, max_rank: i32, fuel: usize) -> (r: Result<
        Option<OrganizationRole>,
        Error,
    >)
        ensures
            r == cross_parent(self.orgs@, self.roles@, *o, max_rank as int, fuel as nat),
        decreases fuel,
    {
        match o.parent_id {
            None => Ok(None),
            Some(p) => {
                let po = match self.find_by_id(p) {
                    Ok(po) => po,
                    Err(_) => {
                        return Err(Error::HierarchyCorruption);
                    },
                };
                match self.scan_max_below(p, max_rank, None) {
                    Some(r) => Ok(Some(r)),
                    None => if fuel == 0 {
                        Err(Error::HierarchyCorruption)
                    } else {
                        self.cross_parent_exec(&po, max_rank, fuel - 1)
                    },
                }
            },
        }
    }

    /// Executes [`parent_of`] for a role value.
    pub fn parent_of_role(
        &self,
        role: &OrganizationRole,
        max_rank: i32,
        include_self_org_only: bool,
    ) -> (r: Result<Option<OrganizationRole>, Error>)
        ensures
            r == parent_of(
                self.orgs@,
                self.roles@,
                *role,
                max_rank as int,
                include_self_org_only,
            ),
    {
        match self.scan_max_below(role.organization_id, max_rank, Some(role)) {
            Some(p) => Ok(Some(p)),
            None => {
                if include_self_org_only {
                    return Ok(None);
                }
                match self.find_by_id(role.organization_id) {
                    Err(_) => Err(Error::HierarchyCorruption),
                    Ok(o) => self.cross_parent_exec(&o, max_rank, self.orgs.len()),
                }
            },
        }
    }

    /// The parent role of the role identified by `role_id`: its nearest
    /// superior in its own organization or, unless `include_self_org_only`,
    /// in the nearest ancestor organization with a ranked role. `NotFound`
    /// if the role does not exist.
    pub fn find_parent_role(&self, role_id: i32, include_self_org_only: bool) -> (r: Result<
        Option<OrganizationRole>,
        Error,
    >)
        ensures
            r == match role_by_id(self.roles@, role_id) {
                None => Err::<Option<OrganizationRole>, Error>(Error::NotFound),
                Some(role) => parent_of(
                    self.orgs@,
                    self.roles@,
                    role,
                    i32::MAX as int,
                    include_self_org_only,
                ),
            },
    {
        let role = match self.find_role_by_id(role_id) {
            Some(role) => role,
            None => {
                return Err(Error::NotFound);
            },
        };
        self.parent_of_role(&role, i32::MAX, include_self_org_only)
    }

    /// Executes [`coc_walk`]: the chain from `role` upward.
    fn coc_walk_exec(&self, role: &OrganizationRole, max_rank: i32, fuel: usize) -> (r: Result<
        Vec<OrganizationRole>,
        Error,
    >)
        ensures
            match r {
                Ok(v) => coc_walk(self.orgs@, self.roles@, *role, max_rank as int, fuel as nat)
                    == Ok::<Seq<OrganizationRole>, Error>(v@),
                Err(e) => coc_walk(self.orgs@, self.roles@, *role, max_rank as int, fuel as nat)
                    == Err::<Seq<OrganizationRole>, Error>(e),
            },
        decreases fuel,
    {
        let parent = match self.parent_of_role(role, max_rank, false) {
            Ok(p) => p,
            Err(e) => {
                return Err(e);
            },
        };
        match parent {
            None => {
                let mut out: Vec<OrganizationRole> = Vec::new();
                out.push(role.clone());
                proof {
                    assert(out@ =~= seq![*role]);
                }
                Ok(out)
            },
            Some(p) => {
                if fuel == 0 {
                    return Err(Error::HierarchyCorruption);
                }
                match self.coc_walk_exec(&p, max_rank, fuel - 1) {
                    Err(e) => Err(e),
                    Ok(mut tail) => {
                        let mut out: Vec<OrganizationRole> = Vec::new();
                        out.push(role.clone());
                        out.append(&mut tail);
                        proof {
                            assert(out@ =~= seq![*role] + coc_walk(
                                self.orgs@,
                                self.roles@,
                                p,
                                max_rank as int,
                                (fuel - 1) as nat,
                            )->Ok_0);
                        }
                        Ok(out)
                    },
                }
            },
        }
    }

    /// The chain of command of `user` within the organization: from the
    /// ranked role `user` holds there — or the organization's top-ranked
    /// role if `user` holds none — upward to the root of the forest.
    /// `NotFound` if the organization does not exist.
    pub fn find_user_coc(&self, org_id: i32, user_id: i32) -> (r: Result<ChainOfCommand, Error>)
        ensures
            match r {
                Ok(c) => user_coc_spec(self.orgs@, self.roles@, org_id, user_id) == Ok::<
                    Seq<OrganizationRole>,
                    Error,
                >(c.roles@),
                Err(e) => user_coc_spec(self.orgs@, self.roles@, org_id, user_id) == Err::<
                    Seq<OrganizationRole>,
                    Error,
                >(e),
            },
    {
        if let Err(e) = self.find_by_id(org_id) {
            return Err(Error::NotFound);
        }
        let start = match self.find_org_role_by_user_id(org_id, user_id) {
            Ok(role) => Some(role),
            Err(_) => self.scan_min_above(org_id, RoleRankScope::RankedOnly, None),
        };
        match start {
            Some(s) => match self.coc_walk_exec(&s, i32::MAX, self.roles.len()) {
                Ok(v) => Ok(ChainOfCommand { roles: v }),
                Err(e) => Err(e),
            },
            None => Ok(ChainOfCommand { roles: Vec::new() }),
        }
    }

    /// The full chain of command of the organization, bounded to roles of
    /// rank at most `max_rank`: from its lowest-authority eligible role
    /// upward to the root. `NotFound` if the organization does not exist.
    pub fn find_org_coc(&self, org_id: i32, max_rank: i32) -> (r: Result<ChainOfCommand, Error>)
        ensures
            match r {
                Ok(c) => org_coc_spec(self.orgs@, self.roles@, org_id, max_rank as int) == Ok::<
                    Seq<OrganizationRole>,
                    Error,
                >(c.roles@),
                Err(e) => org_coc_spec(self.orgs@, self.roles@, org_id, max_rank as int) == Err::<
                    Seq<OrganizationRole>,
                    Error,
                >(e),
            },
    {
        let o = match self.find_by_id(org_id) {
            Ok(o) => o,
            Err(_) => {
                return Err(Error::NotFound);
            },
        };
        let start = match self.scan_max_below(org_id, max_rank, None) {
            Some(s) => Some(s),
            None => match self.cross_parent_exec(&o, max_rank, self.orgs.len()) {
                Ok(s) => s,
                Err(e) => {
                    return Err(e);
                },
            },
        };
        match start {
            Some(s) => match self.coc_walk_exec(&s, max_rank, self.roles.len()) {
                Ok(v) => Ok(ChainOfCommand { roles: v }),
                Err(e) => Err(e),
            },
            None => Ok(ChainOfCommand { roles: Vec::new() }),
        }
    }

    /// Executes [`ancestor_ids`]: the organization and its ancestors.
    fn ancestor_ids_exec(&self, o: &Organization, fuel: usize) -> (r: Result<Vec<i32>, Error>)
        ensures
            match r {
                Ok(v) => ancestor_ids(self.orgs@, *o, fuel as nat) == Ok::<Seq<i32>, Error>(v@),
                Err(e) => ancestor_ids(self.orgs@, *o, fuel as nat) == Err::<Seq<i32>, Error>(e),
            },
        decreases fuel,
    {
        match o.parent_id {
            None => {
                let mut out: Vec<i32> = Vec::new();
                out.push(o.id);
                proof {
                    assert(out@ =~= seq![o.id]);
                }
                Ok(out)
            },
            Some(p) => {
                let po = match self.find_by_id(p) {
                    Ok(po) => po,
                    Err(_) => {
                        return Err(Error::HierarchyCorruption);
                    },
                };
                if fuel == 0 {
                    return Err(Error::HierarchyCorruption);
                }
                match self.ancestor_ids_exec(&po, fuel - 1) {
                    Err(e) => Err(e),
                    Ok(mut tail) => {
                        let mut out: Vec<i32> = Vec::new();
                        out.push(o.id);
                        out.append(&mut tail);
                        proof {
                            assert(out@ =~= seq![o.id] + ancestor_ids(
                                self.orgs@,
                                po,
                                (fuel - 1) as nat,
                            )->Ok_0);
                        }
                        Ok(out)
                    },
                }
            },
        }
    }

    /// Whether `user` holds a ranked role anywhere in the chain of command
    /// of the organization — in it or any of its ancestors. `NotFound` if
    /// the organization does not exist.
    #[verifier::loop_isolation(false)]
    pub fn is_user_in_coc(&self, user_id: i32, org_id: i32) -> (r: Result<bool, Error>)
        ensures
            r == match org_by_id(self.orgs@, org_id) {
                None => Err::<bool, Error>(Error::NotFound),
                Some(o) => user_in_coc_at(self.orgs@, self.roles@, o, user_id),
            },
    {
        let o = match self.find_by_id(org_id) {
            Ok(o) => o,
            Err(_) => {
                return Err(Error::NotFound);
            },
        };
        let ids = match self.ancestor_ids_exec(&o, self.orgs.len()) {
            Ok(v) => v,
            Err(e) => {
                return Err(e);
            },
        };
        let mut i: usize = 0;
        while i < self.roles.len()
            invariant
                0 <= i <= self.roles@.len(),
                forall|j: int|
                    0 <= j < i ==> !((#[trigger] self.roles@[j]).rank is Some
                        && self.roles@[j].user_id == Some(user_id)
                        && ids@.contains(self.roles@[j].organization_id)),
            decreases self.roles@.len() - i,
        {
            let x = &self.roles[i];
            if x.rank.is_some() && crate::roles::option_i32_eq(x.user_id, Some(user_id))
                && crate::roles::vec_contains_i32(&ids, x.organization_id) {
                return Ok(true);
            }
            i = i + 1;
        }
        Ok(false)
    }

    /// Whether `user` holds a ranked role in the chain of command of the
    /// organization's parent — required for structural changes such as
    /// reordering roles. False for a root organization; `NotFound` if the
    /// organization does not exist.
    pub fn is_user_in_parent_coc(&self, user_id: i32, org_id: i32) -> (r: Result<bool, Error>)
        ensures
            r == match org_by_id(self.orgs@, org_id) {
                None => Err::<bool, Error>(Error::NotFound),
                Some(o) => match o.parent_id {
                    None => Ok::<bool, Error>(false),
                    Some(p) => match org_by_id(self.orgs@, p) {
                        None => Err::<bool, Error>(Error::HierarchyCorruption),
                        Some(po) => user_in_coc_at(self.orgs@, self.roles@, po, user_id),
                    },
                },
            },
    {
        let o = match self.find_by_id(org_id) {
            Ok(o) => o,
            Err(_) => {
                return Err(Error::NotFound);
            },
        };
        let p = match o.parent_id {
            None => {
                return Ok(false);
            },
            Some(p) => p,
        };
        match self.find_by_id(p) {
            Err(_) => Err(Error::HierarchyCorruption),
            Ok(_) => match self.is_user_in_coc(user_id, p) {
                Ok(b) => Ok(b),
                Err(e) => Err(e),
            },
        }
    }

    /// The ranked role `user` holds nearest to the organization along its
    /// chain of command, if any. `NotFound` if the organization does not
    /// exist.
    pub fn find_role_in_coc(&self, user_id: i32, org_id: i32) -> (r: Result<
        Option<OrganizationRole>,
        Error,
    >)
        ensures
            r == match org_by_id(self.orgs@, org_id) {
                None => Err::<Option<OrganizationRole>, Error>(Error::NotFound),
                Some(o) => role_in_coc_at(self.orgs@, self.roles@, o, user_id, self.orgs@.len()),
            },
    {
        let o = match self.find_by_id(org_id) {
            Ok(o) => o,
            Err(_) => {
                return Err(Error::NotFound);
            },
        };
        self.role_in_coc_exec(&o, user_id, self.orgs.len())
    }

    /// Executes [`role_in_coc_at`].
    fn role_in_coc_exec(&self, o: &Organization, user_id: i32, fuel: usize) -> (r: Result<
        Option<OrganizationRole>,
        Error,
    >)
        ensures
            r == role_in_coc_at(self.orgs@, self.roles@, *o, user_id, fuel as nat),
        decreases fuel,
    {
        match self.find_org_role_by_user_id(o.id, user_id) {
            Ok(role) => Ok(Some(role)),
            Err(_) => {
                let p = match o.parent_id {
                    None => {
                        return Ok(None);
                    },
                    Some(p) => p,
                };
                let po = match self.find_by_id(p) {
                    Ok(po) => po,
                    Err(_) => {
                        return Err(Error::HierarchyCorruption);
                    },
                };
                if fuel == 0 {
                    return Err(Error::HierarchyCorruption);
                }
                self.role_in_coc_exec(&po, user_id, fuel - 1)
            },
        }
    }
}

} // verus!
