//! The authorization engine: allow/deny decisions derived from the
//! chain-of-command resolver, and the checked operations that apply them in
//! the order the routes enforce — the position check first, then the
//! mutation, so the error kind that surfaces first is fixed.

use vstd::prelude::*;

use crate::model::Error;
use crate::model::NewOrganizationRole;
use crate::model::Organization;
use crate::model::OrganizationRole;
use crate::model::Report;
use crate::model::Store;
use crate::model::UpdateOrganizationRole;
use crate::model::ValidationReason;
use crate::coc::parent_of;
use crate::coc::role_in_coc_at;
use crate::coc::user_in_coc_at;
use crate::orgs::org_by_id;
use crate::reports::acked_report;
use crate::reports::report_by_id;
use crate::reports::reports_of_org;
use crate::reports::reports_of_org_up_to_rank;
use crate::reports::unacked;
use crate::reports::unacked_by_role_ids;
use crate::roles::fresh_role;
use crate::roles::max_role_id;
use crate::roles::ranked_of_user;
use crate::roles::reorder_applied;
use crate::roles::role_by_id;
use crate::roles::valid_reorder;

verus! {

/// Whether creating a role for the given assignee in `org_id` is allowed:
/// rejected when the assignee already holds a ranked role anywhere in the
/// organization's chain of command.
pub open spec fn create_decision(
    orgs: Seq<Organization>,
    roles: Seq<OrganizationRole>,
    org_id: i32,
    user_id: Option<i32>,
) -> Result<(), Error> {
    match user_id {
        None => Ok(()),
        Some(u) => match org_by_id(orgs, org_id) {
            None => Err(Error::NotFound),
            Some(o) => match user_in_coc_at(orgs, roles, o, u) {
                Err(e) => Err(e),
                Ok(true) => Err(Error::ValidationError(ValidationReason::AssigneeAlreadyInCoc)),
                Ok(false) => Ok(()),
            },
        },
    }
}

/// Whether updating a role of `org_id` to the given assignee is allowed:
/// rejected when the assignee's existing role in the chain of command
/// belongs to a different organization than the one being edited.
pub open spec fn update_decision(
    orgs: Seq<Organization>,
    roles: Seq<OrganizationRole>,
    org_id: i32,
    user_id: Option<i32>,
) -> Result<(), Error> {
    match user_id {
        None => Ok(()),
        Some(u) => match org_by_id(orgs, org_id) {
            None => Err(Error::NotFound),
            Some(o) => match role_in_coc_at(orgs, roles, o, u, orgs.len()) {
                Err(e) => Err(e),
                Ok(Some(role)) => if role.organization_id != org_id {
                    Err(Error::ValidationError(ValidationReason::AssigneeAlreadyInCoc))
                } else {
                    Ok(())
                },
                Ok(None) => Ok(()),
            },
        },
    }
}

/// Whether `acting` may reorder the roles of `org_id`: only a holder of a
/// ranked role in the chain of command of the organization's parent.
pub open spec fn reorder_decision(
    orgs: Seq<Organization>,
    roles: Seq<OrganizationRole>,
    org_id: i32,
    acting: i32,
) -> Result<(), Error> {
    match org_by_id(orgs, org_id) {
        None => Err(Error::NotFound),
        Some(o) => match o.parent_id {
            None => Err(Error::AuthenticationError),
            Some(p) => match org_by_id(orgs, p) {
                None => Err(Error::HierarchyCorruption),
                Some(po) => match user_in_coc_at(orgs, roles, po, acting) {
                    Err(e) => Err(e),
                    Ok(true) => Ok(()),
                    Ok(false) => Err(Error::AuthenticationError),
                },
            },
        },
    }
}

/// The outcome of an acknowledgment attempt: the acknowledged report when
/// `user` holds the direct parent role of the report's submitting role and
/// the report is still unacknowledged; the error that surfaces otherwise,
/// in route order — existence, position, then terminality.
pub open spec fn ack_decision(
    orgs: Seq<Organization>,
    roles: Seq<OrganizationRole>,
    reports: Seq<Report>,
    report_id: i32,
    user: i32,
    now: i64,
) -> Result<Report, Error> {
    match report_by_id(reports, report_id) {
        None => Err(Error::NotFound),
        Some(rep) => match role_by_id(roles, rep.role_id) {
            None => Err(Error::NotFound),
            Some(subr) => match parent_of(orgs, roles, subr, i32::MAX as int, false) {
                Err(e) => Err(e),
                Ok(None) => Err(Error::AuthenticationError),
                Ok(Some(par)) => if par.user_id != Some(user) {
                    Err(Error::AuthenticationError)
                } else if !unacked(rep) {
                    Err(Error::ValidationError(ValidationReason::ReportAlreadyAcknowledged))
                } else {
                    Ok(acked_report(rep, user, now))
                },
            },
        },
    }
}

/// The reports `user` may list for `org_id`: all reports at or below the
/// rank of the role `user` holds in the organization itself; every report of
/// the organization when the role sits higher up the chain; denied when
/// `user` holds no ranked role in the chain at all.
pub open spec fn list_reports_decision(
    orgs: Seq<Organization>,
    roles: Seq<OrganizationRole>,
    reports: Seq<Report>,
    org_id: i32,
    user: i32,
) -> Result<Seq<Report>, Error> {
    match org_by_id(orgs, org_id) {
        None => Err(Error::NotFound),
        Some(o) => match role_in_coc_at(orgs, roles, o, user, orgs.len()) {
            Err(e) => Err(e),
            Ok(None) => Err(Error::AuthenticationError),
            Ok(Some(role)) => if role.organization_id == org_id {
                match role.rank {
                    Some(k) => Ok(reports_of_org_up_to_rank(reports, roles, org_id, k)),
                    None => Ok(reports_of_org(reports, roles, org_id)),
                }
            } else {
                Ok(reports_of_org(reports, roles, org_id))
            },
        },
    }
}

/// The first role of `org` carrying exactly the given rank, in store order.
pub open spec fn role_at_rank(roles: Seq<OrganizationRole>, org: i32, rank: i32) -> Option<
    OrganizationRole,
>
    decreases roles.len(),
{
    if roles.len() == 0 {
        None
    } else if roles.first().organization_id == org && roles.first().rank == Some(rank) {
        Some(roles.first())
    } else {
        role_at_rank(roles.drop_first(), org, rank)
    }
}

/// The ranked roles in `scan` whose resolved parent is the role identified
/// by `target_id`; resolution errors abort the whole query.
pub open spec fn direct_reports_upto(
    orgs: Seq<Organization>,
    roles: Seq<OrganizationRole>,
    scan: Seq<OrganizationRole>,
    target_id: i32,
) -> Result<Seq<OrganizationRole>, Error>
    decreases scan.len(),
{
    if scan.len() == 0 {
        Ok(Seq::empty())
    } else {
        match direct_reports_upto(orgs, roles, scan.drop_last(), target_id) {
            Err(e) => Err(e),
            Ok(rest) => {
                let x = scan.last();
                if x.rank is Some {
                    match parent_of(orgs, roles, x, i32::MAX as int, false) {
                        Err(e) => Err(e),
                        Ok(Some(p)) => if p.id == target_id {
                            Ok(rest.push(x))
                        } else {
                            Ok(rest)
                        },
                        Ok(None) => Ok(rest),
                    }
                } else {
                    Ok(rest)
                }
            },
        }
    }
}

/// The direct reports of the role at `(org_id, rank)`: every ranked role
/// whose resolved parent is that role.
pub open spec fn direct_reports_spec(
    orgs: Seq<Organization>,
    roles: Seq<OrganizationRole>,
    org_id: i32,
    rank: i32,
) -> Result<Seq<OrganizationRole>, Error> {
    match role_at_rank(roles, org_id, rank) {
        None => Err(Error::NotFound),
        Some(t) => direct_reports_upto(orgs, roles, roles, t.id),
    }
}

/// The identifiers of a role sequence.
pub open spec fn ids_of(roles: Seq<OrganizationRole>) -> Seq<i32> {
    roles.map_values(|r: OrganizationRole| r.id)
}

/// The identifiers of the direct reports of each of `user_roles`, in order.
pub open spec fn inbox_ids(
    orgs: Seq<Organization>,
    roles: Seq<OrganizationRole>,
    user_roles: Seq<OrganizationRole>,
) -> Result<Seq<i32>, Error>
    decreases user_roles.len(),
{
    if user_roles.len() == 0 {
        Ok(Seq::empty())
    } else {
        match inbox_ids(orgs, roles, user_roles.drop_last()) {
            Err(e) => Err(e),
            Ok(acc) => {
                let x = user_roles.last();
                match x.rank {
                    None => Ok(acc),
                    Some(k) => match direct_reports_spec(orgs, roles, x.organization_id, k) {
                        Err(e) => Err(e),
                        Ok(drs) => Ok(acc + ids_of(drs)),
                    },
                }
            },
        }
    }
}

/// A superior's pending-acknowledgment inbox: the unacknowledged reports
/// submitted by any direct report of any ranked role `user` holds.
pub open spec fn inbox_spec(
    orgs: Seq<Organization>,
    roles: Seq<OrganizationRole>,
    reports: Seq<Report>,
    user: i32,
) -> Result<Seq<Report>, Error> {
    match inbox_ids(orgs, roles, ranked_of_user(roles, user)) {
        Err(e) => Err(e),
        Ok(ids) => Ok(unacked_by_role_ids(reports, ids)),
    }
}

/// The full effect of an acknowledgment attempt at instant `now`: the store
/// is untouched on every denial, and on success exactly the acknowledged
/// report is replaced.
pub open spec fn ack_report_post(
    pre: Store,
    post: Store,
    report_id: i32,
    user_id: i32,
    now: i64,
    r: Result<Report, Error>,
) -> bool {
    &&& post.orgs@ == pre.orgs@
    &&& post.roles@ == pre.roles@
    &&& post.members@ == pre.members@
    &&& match ack_decision(pre.orgs@, pre.roles@, pre.reports@, report_id, user_id, now) {
        Err(e) => r == Err::<Report, Error>(e) && post == pre,
        Ok(rep2) => {
            &&& r == Ok::<Report, Error>(rep2)
            &&& exists|i: int|
                {
                    &&& 0 <= i < pre.reports@.len()
                    &&& pre.reports@[i].id == report_id
                    &&& post.reports@ == pre.reports@.update(i, rep2)
                }
        },
    }
}

/// An erring prefix of the scan decides the whole scan.
proof fn lemma_direct_upto_err(
    orgs: Seq<Organization>,
    roles: Seq<OrganizationRole>,
    scan: Seq<OrganizationRole>,
    target_id: i32,
    k: int,
)
    requires
        0 <= k <= scan.len(),
        direct_reports_upto(orgs, roles, scan.take(k), target_id) is Err,
    ensures
        direct_reports_upto(orgs, roles, scan, target_id) == direct_reports_upto(
            orgs,
            roles,
            scan.take(k),
            target_id,
        ),
    decreases scan.len() - k,
{
    if scan.len() == k {
        assert(scan.take(k) =~= scan);
    } else {
        assert(scan.drop_last().take(k) =~= scan.take(k));
        lemma_direct_upto_err(orgs, roles, scan.drop_last(), target_id, k);
    }
}

/// An erring prefix of the role list decides the whole inbox query.
proof fn lemma_inbox_ids_err(
    orgs: Seq<Organization>,
    roles: Seq<OrganizationRole>,
    user_roles: Seq<OrganizationRole>,
    k: int,
)
    requires
        0 <= k <= user_roles.len(),
        inbox_ids(orgs, roles, user_roles.take(k)) is Err,
    ensures
        inbox_ids(orgs, roles, user_roles) == inbox_ids(orgs, roles, user_roles.take(k)),
    decreases user_roles.len() - k,
{
    if user_roles.len() == k {
        assert(user_roles.take(k) =~= user_roles);
    } else {
        assert(user_roles.drop_last().take(k) =~= user_roles.take(k));
        lemma_inbox_ids_err(orgs, roles, user_roles.drop_last(), k);
    }
}

impl Store {
    /// Creates a role in `org_id` after the duplicate-assignment check: a
    /// proposed assignee already ranked anywhere in the organization's chain
    /// of command is rejected.
    pub fn create_organization_role_checked(
        &mut self,
        org_id: i32,
        fields: &UpdateOrganizationRole,
    ) -> (r: Result<OrganizationRole, Error>)
        requires
            old(self).wf(),
            old(self).roles@.len() < i32::MAX,
        ensures
            final(self).wf(),
            final(self).orgs@ == old(self).orgs@,
            final(self).reports@ == old(self).reports@,
            final(self).members@ == old(self).members@,
            match create_decision(old(self).orgs@, old(self).roles@, org_id, fields.user_id) {
                Err(e) => r == Err::<OrganizationRole, Error>(e) && *final(self) == *old(self),
                Ok(()) => match r {
                    Ok(role) => {
                        &&& role == fresh_role(
                            old(self).roles@,
                            (NewOrganizationRole {
                                organization_id: org_id,
                                user_id: fields.user_id,
                                role: fields.role,
                                rank: fields.rank,
                            }),
                        )
                        &&& final(self).roles@ == old(self).roles@.push(role)
                    },
                    Err(e) => {
                        &&& e == Error::ValidationError(ValidationReason::IdSpaceExhausted)
                        &&& max_role_id(old(self).roles@) == i32::MAX
                        &&& *final(self) == *old(self)
                    },
                },
            },
    {
        if let Some(u) = fields.user_id {
            match self.is_user_in_coc(u, org_id) {
                Err(e) => {
                    return Err(e);
                },
                Ok(true) => {
                    return Err(Error::ValidationError(ValidationReason::AssigneeAlreadyInCoc));
                },
                Ok(false) => {},
            }
        }
        let new_role = NewOrganizationRole {
            organization_id: org_id,
            user_id: fields.user_id,
            role: fields.role.clone(),
            rank: fields.rank,
        };
        self.create_role(&new_role)
    }

    /// Updates a role of `org_id` after the duplicate-assignment check: a
    /// proposed assignee whose existing chain-of-command role belongs to a
    /// different organization is rejected.
    pub fn update_organization_role_checked(
        &mut self,
        role_id: i32,
        org_id: i32,
        fields: &UpdateOrganizationRole,
    ) -> (r: Result<OrganizationRole, Error>)
        requires
            old(self).wf(),
        ensures
            final(self).wf(),
            final(self).orgs@ == old(self).orgs@,
            final(self).reports@ == old(self).reports@,
            final(self).members@ == old(self).members@,
            match update_decision(old(self).orgs@, old(self).roles@, org_id, fields.user_id) {
                Err(e) => r == Err::<OrganizationRole, Error>(e) && *final(self) == *old(self),
                Ok(()) => match r {
                    Ok(role) => exists|i: int|
                        {
                            &&& 0 <= i < old(self).roles@.len()
                            &&& old(self).roles@[i].id == role_id
                            &&& old(self).roles@[i].organization_id == org_id
                            &&& role == crate::roles::apply_update(old(self).roles@[i], *fields)
                            &&& final(self).roles@ == old(self).roles@.update(i, role)
                        },
                    Err(e) => {
                        &&& e == Error::NotFound
                        &&& (forall|i: int|
                            0 <= i < old(self).roles@.len() ==> !(old(self).roles@[i].id == role_id
                                && #[trigger] old(self).roles@[i].organization_id == org_id))
                        &&& *final(self) == *old(self)
                    },
                },
            },
    {
        if let Some(u) = fields.user_id {
            match self.find_role_in_coc(u, org_id) {
                Err(e) => {
                    return Err(e);
                },
                Ok(Some(role)) => {
                    if role.organization_id != org_id {
                        return Err(
                            Error::ValidationError(ValidationReason::AssigneeAlreadyInCoc),
                        );
                    }
                },
                Ok(None) => {},
            }
        }
        self.update_role(role_id, org_id, fields)
    }

    /// Reorders the ranked roles of `org_id` for `acting_user`: only a
    /// holder of a ranked role in the parent organization's chain of command
    /// may reorder, and the request must list exactly the ranked roles.
    pub fn reorder_roles_checked(&mut self, org_id: i32, role_ids: &Vec<i32>, acting_user: i32) -> (r:
        Result<(), Error>)
        requires
            old(self).wf(),
            role_ids@.len() <= i32::MAX,
        ensures
            final(self).wf(),
            final(self).orgs@ == old(self).orgs@,
            final(self).reports@ == old(self).reports@,
            final(self).members@ == old(self).members@,
            match reorder_decision(old(self).orgs@, old(self).roles@, org_id, acting_user) {
                Err(e) => r == Err::<(), Error>(e) && *final(self) == *old(self),
                Ok(()) => match r {
                    Ok(()) => {
                        &&& valid_reorder(old(self).roles@, org_id, role_ids@)
                        &&& reorder_applied(old(self).roles@, final(self).roles@, org_id, role_ids@)
                    },
                    Err(e) => {
                        &&& e == Error::ValidationError(ValidationReason::MalformedReorderSet)
                        &&& !valid_reorder(old(self).roles@, org_id, role_ids@)
                        &&& *final(self) == *old(self)
                    },
                },
            },
    {
        match self.is_user_in_parent_coc(acting_user, org_id) {
            Err(e) => {
                return Err(e);
            },
            Ok(false) => {
                return Err(Error::AuthenticationError);
            },
            Ok(true) => {},
        }
        self.reorder_roles(org_id, role_ids)
    }

    /// Acknowledges a report on behalf of `user_id` at instant `now`, after
    /// verifying that `user_id` holds the direct parent role of the report's
    /// submitting role; acknowledgment is terminal.
    pub fn ack_organization_report_checked(&mut self, report_id: i32, user_id: i32, now: i64) -> (r:
        Result<Report, Error>)
        requires
            old(self).wf(),
        ensures
            final(self).wf(),
            ack_report_post(*old(self), *final(self), report_id, user_id, now, r),
    {
        let report = match self.find_report_by_id(report_id) {
            Ok(rep) => rep,
            Err(_) => {
                return Err(Error::NotFound);
            },
        };
        let parent = match self.find_parent_role(report.role_id, false) {
            Ok(p) => p,
            Err(e) => {
                return Err(e);
            },
        };
        let parent_role = match parent {
            Some(p) => p,
            None => {
                return Err(Error::AuthenticationError);
            },
        };
        let authorized = match parent_role.user_id {
            Some(holder) => holder == user_id,
            None => false,
        };
        if !authorized {
            return Err(Error::AuthenticationError);
        }
        proof {
            crate::reports::lemma_report_by_id_id(self.reports@, report_id);
        }
        self.ack_report(report_id, user_id, now)
    }

    /// The reports of `org_id` visible to `user_id` (see
    /// [`list_reports_decision`]).
    pub fn list_organization_reports_checked(&self, org_id: i32, user_id: i32) -> (r: Result<
        Vec<Report>,
        Error,
    >)
        ensures
            match r {
                Ok(v) => list_reports_decision(
                    self.orgs@,
                    self.roles@,
                    self.reports@,
                    org_id,
                    user_id,
                ) == Ok::<Seq<Report>, Error>(v@),
                Err(e) => list_reports_decision(
                    self.orgs@,
                    self.roles@,
                    self.reports@,
                    org_id,
                    user_id,
                ) == Err::<Seq<Report>, Error>(e),
            },
    {
        let role = match self.find_role_in_coc(user_id, org_id) {
            Err(e) => {
                return Err(e);
            },
            Ok(None) => {
                return Err(Error::AuthenticationError);
            },
            Ok(Some(role)) => role,
        };
        if role.organization_id == org_id {
            match role.rank {
                Some(k) => Ok(self.find_all_by_org_up_to_rank(org_id, k)),
                None => Ok(self.find_all_by_organization(org_id)),
            }
        } else {
            Ok(self.find_all_by_organization(org_id))
        }
    }

    /// The first role of `org` carrying exactly the given rank.
    #[verifier::loop_isolation(false)]
    fn find_role_at_rank(&self, org: i32, rank: i32) -> (r: Option<OrganizationRole>)
        ensures
            r == role_at_rank(self.roles@, org, rank),
    {
        proof {
            assert(self.roles@.skip(0) =~= self.roles@);
        }
        let mut i: usize = 0;
        while i < self.roles.len()
            invariant
                0 <= i <= self.roles@.len(),
                role_at_rank(self.roles@, org, rank) == role_at_rank(
                    self.roles@.skip(i as int),
                    org,
                    rank,
                ),
            decreases self.roles@.len() - i,
        {
            proof {
                assert(self.roles@.skip(i as int).first() == self.roles@[i as int]);
                assert(self.roles@.skip(i as int).drop_first() =~= self.roles@.skip(i + 1));
            }
            let x = &self.roles[i];
            let hit = match x.rank {
                Some(k) => k == rank,
                None => false,
            };
            if x.organization_id == org && hit {
                return Some(x.clone());
            }
            i = i + 1;
        }
        proof {
            assert(self.roles@.skip(self.roles@.len() as int) =~= Seq::<OrganizationRole>::empty());
        }
        None
    }

    /// The direct reports of the role at `(org_id, rank)`: every ranked role
    /// whose resolved parent is that role. `NotFound` if no role of `org_id`
    /// carries that rank.
    #[verifier::loop_isolation(false)]
    pub fn find_direct_reports(&self, org_id: i32, rank: i32) -> (r: Result<
        Vec<OrganizationRole>,
        Error,
    >)
        ensures
            match r {
                Ok(v) => direct_reports_spec(self.orgs@, self.roles@, org_id, rank) == Ok::<
                    Seq<OrganizationRole>,
                    Error,
                >(v@),
                Err(e) => direct_reports_spec(self.orgs@, self.roles@, org_id, rank) == Err::<
                    Seq<OrganizationRole>,
                    Error,
                >(e),
            },
    {
        let target = match self.find_role_at_rank(org_id, rank) {
            Some(t) => t,
            None => {
                return Err(Error::NotFound);
            },
        };
        let mut out: Vec<OrganizationRole> = Vec::new();
        let mut i: usize = 0;
        while i < self.roles.len()
            invariant
                0 <= i <= self.roles@.len(),
                direct_reports_upto(self.orgs@, self.roles@, self.roles@.take(i as int), target.id)
                    == Ok::<Seq<OrganizationRole>, Error>(out@),
            decreases self.roles@.len() - i,
        {
            proof {
                assert(self.roles@.take(i + 1).drop_last() =~= self.roles@.take(i as int));
                assert(self.roles@.take(i + 1).last() == self.roles@[i as int]);
            }
            let x = &self.roles[i];
            if x.rank.is_some() {
                match self.parent_of_role(x, i32::MAX, false) {
                    Err(e) => {
                        proof {
                            lemma_direct_upto_err(
                                self.orgs@,
                                self.roles@,
                                self.roles@,
                                target.id,
                                i + 1,
                            );
                        }
                        return Err(e);
                    },
                    Ok(Some(p)) => {
                        if p.id == target.id {
                            out.push(x.clone());
                        }
                    },
                    Ok(None) => {},
                }
            }
            i = i + 1;
        }
        proof {
            assert(self.roles@.take(self.roles@.len() as int) =~= self.roles@);
        }
        Ok(out)
    }

    /// The pending-acknowledgment inbox of `user_id`: the unacknowledged
    /// reports submitted by any direct report of any ranked role the user
    /// holds.
    #[verifier::loop_isolation(false)]
    pub fn find_unacknowledged_for_user(&self, user_id: i32) -> (r: Result<Vec<Report>, Error>)
        ensures
            match r {
                Ok(v) => inbox_spec(self.orgs@, self.roles@, self.reports@, user_id) == Ok::<
                    Seq<Report>,
                    Error,
                >(v@),
                Err(e) => inbox_spec(self.orgs@, self.roles@, self.reports@, user_id) == Err::<
                    Seq<Report>,
                    Error,
                >(e),
            },
    {
        let user_roles = self.find_ranked_by_user_id(user_id);
        let mut ids: Vec<i32> = Vec::new();
        let mut i: usize = 0;
        while i < user_roles.len()
            invariant
                0 <= i <= user_roles@.len(),
                user_roles@ == ranked_of_user(self.roles@, user_id),
                inbox_ids(self.orgs@, self.roles@, user_roles@.take(i as int)) == Ok::<
                    Seq<i32>,
                    Error,
                >(ids@),
            decreases user_roles@.len() - i,
        {
            proof {
                assert(user_roles@.take(i + 1).drop_last() =~= user_roles@.take(i as int));
                assert(user_roles@.take(i + 1).last() == user_roles@[i as int]);
            }
            let x = &user_roles[i];
            match x.rank {
                None => {},
                Some(k) => match self.find_direct_reports(x.organization_id, k) {
                    Err(e) => {
                        proof {
                            lemma_inbox_ids_err(self.orgs@, self.roles@, user_roles@, i + 1);
                        }
                        return Err(e);
                    },
                    Ok(drs) => {
                        let ghost prev = ids@;
                        let mut j: usize = 0;
                        while j < drs.len()
                            invariant
                                0 <= j <= drs@.len(),
                                ids@ == prev + ids_of(drs@).take(j as int),
                            decreases drs@.len() - j,
                        {
                            ids.push(drs[j].id);
                            proof {
                                assert(ids@ =~= prev + ids_of(drs@).take(j + 1));
                            }
                            j = j + 1;
                        }
                        proof {
                            assert(ids_of(drs@).take(drs@.len() as int) =~= ids_of(drs@));
                        }
                    },
                },
            }
            i = i + 1;
        }
        proof {
            assert(user_roles@.take(user_roles@.len() as int) =~= user_roles@);
        }
        Ok(self.find_unacknowledged_by_role_ids(&ids))
    }
}

} // verus!
