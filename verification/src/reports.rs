//! The report lifecycle: submission against a ranked role, acknowledgment by
//! the holder of the submitting role's direct parent, and rank-scoped report
//! queries. A report is unacknowledged iff its acknowledging user and date
//! are both unset; acknowledgment sets both together, exactly once.

use vstd::prelude::*;

use crate::model::Error;
use crate::model::NewReport;
use crate::model::Report;
use crate::model::Store;
use crate::model::ValidationReason;
use crate::roles::role_by_id;

verus! {

/// The first report in store order with the given identifier.
pub open spec fn report_by_id(reports: Seq<Report>, id: i32) -> Option<Report>
    decreases reports.len(),
{
    if reports.len() == 0 {
        None
    } else if reports.first().id == id {
        Some(reports.first())
    } else {
        report_by_id(reports.drop_first(), id)
    }
}

/// The greatest report identifier in the store, or zero if there are none.
pub open spec fn max_report_id(reports: Seq<Report>) -> int
    decreases reports.len(),
{
    if reports.len() == 0 {
        0
    } else {
        let m = max_report_id(reports.drop_last());
        if reports.last().id as int > m {
            reports.last().id as int
        } else {
            m
        }
    }
}

/// Every report identifier is at most [`max_report_id`].
pub proof fn lemma_max_report_id_ge(reports: Seq<Report>, i: int)
    requires
        0 <= i < reports.len(),
    ensures
        reports[i].id as int <= max_report_id(reports),
    decreases reports.len(),
{
    if i < reports.len() - 1 {
        lemma_max_report_id_ge(reports.drop_last(), i);
    }
}

/// A found report carries the identifier it was looked up by.
pub proof fn lemma_report_by_id_id(reports: Seq<Report>, id: i32)
    ensures
        match report_by_id(reports, id) {
            Some(rep) => rep.id == id,
            None => true,
        },
    decreases reports.len(),
{
    if reports.len() > 0 && reports.first().id != id {
        lemma_report_by_id_id(reports.drop_first(), id);
    }
}

/// Whether the report is still unacknowledged.
pub open spec fn unacked(r: Report) -> bool {
    r.ack_user_id is None && r.ack_date is None
}

/// The report after acknowledgment by `user` at instant `now`.
pub open spec fn acked_report(r: Report, user: i32, now: i64) -> Report {
    Report { ack_user_id: Some(user), ack_date: Some(now), date_modified: now, ..r }
}

/// The report a [`NewReport`] persists to, under the given identifier.
pub open spec fn report_from_new(n: NewReport, id: i32) -> Report {
    Report {
        id: id,
        role_id: n.role_id,
        term_start_date: n.term_start_date,
        submission_date: n.submission_date,
        comments: n.comments,
        ack_user_id: n.ack_user_id,
        ack_date: n.ack_date,
        date_created: n.date_created,
        date_modified: n.date_modified,
    }
}

/// The unacknowledged reports whose submitting role is listed in `ids`, in
/// store order.
pub open spec fn unacked_by_role_ids(reports: Seq<Report>, ids: Seq<i32>) -> Seq<Report>
    decreases reports.len(),
{
    if reports.len() == 0 {
        Seq::empty()
    } else {
        let rest = unacked_by_role_ids(reports.drop_last(), ids);
        let x = reports.last();
        if unacked(x) && ids.contains(x.role_id) {
            rest.push(x)
        } else {
            rest
        }
    }
}

/// The reports submitted by roles of `org`, in store order.
pub open spec fn reports_of_org(
    reports: Seq<Report>,
    roles: Seq<crate::model::OrganizationRole>,
    org: i32,
) -> Seq<Report>
    decreases reports.len(),
{
    if reports.len() == 0 {
        Seq::empty()
    } else {
        let rest = reports_of_org(reports.drop_last(), roles, org);
        let x = reports.last();
        if (match role_by_id(roles, x.role_id) {
            Some(role) => role.organization_id == org,
            None => false,
        }) {
            rest.push(x)
        } else {
            rest
        }
    }
}

/// The reports submitted by roles of `org` whose rank is numerically at
/// least `rank` — the roles of equal or lower authority than rank `rank`.
pub open spec fn reports_of_org_up_to_rank(
    reports: Seq<Report>,
    roles: Seq<crate::model::OrganizationRole>,
    org: i32,
    rank: i32,
) -> Seq<Report>
    decreases reports.len(),
{
    if reports.len() == 0 {
        Seq::empty()
    } else {
        let rest = reports_of_org_up_to_rank(reports.drop_last(), roles, org, rank);
        let x = reports.last();
        if (match role_by_id(roles, x.role_id) {
            Some(role) => role.organization_id == org && (match role.rank {
                Some(k) => k >= rank,
                None => false,
            }),
            None => false,
        }) {
            rest.push(x)
        } else {
            rest
        }
    }
}

/// The record a report submission persists, dated at instant `now`.
pub open spec fn new_report_at(role_id: i32, term: i64, comments: String, now: i64) -> NewReport {
    NewReport {
        role_id: role_id,
        term_start_date: term,
        submission_date: Some(now),
        comments: Some(comments),
        ack_user_id: None,
        ack_date: None,
        date_created: now,
        date_modified: now,
    }
}

/// The full effect of a report submission by `user_id` against the ranked
/// role it holds in `org_id`, dated at instant `now`: `NotFound` when the
/// user holds no ranked role there, a freshly identified report otherwise.
pub open spec fn create_report_post(
    pre: Store,
    post: Store,
    org_id: i32,
    user_id: i32,
    term: i64,
    comments: String,
    now: i64,
    r: Result<Report, Error>,
) -> bool {
    &&& post.orgs@ == pre.orgs@
    &&& post.roles@ == pre.roles@
    &&& post.members@ == pre.members@
    &&& match crate::roles::user_ranked_role(pre.roles@, org_id, user_id) {
        None => r == Err::<Report, Error>(Error::NotFound) && post == pre,
        Some(role) => match r {
            Ok(rep) => {
                &&& max_report_id(pre.reports@) < i32::MAX
                &&& rep == report_from_new(
                    new_report_at(role.id, term, comments, now),
                    (max_report_id(pre.reports@) + 1) as i32,
                )
                &&& post.reports@ == pre.reports@.push(rep)
            },
            Err(e) => {
                &&& e == Error::ValidationError(ValidationReason::IdSpaceExhausted)
                &&& max_report_id(pre.reports@) == i32::MAX
                &&& post == pre
            },
        },
    }
}

impl Store {
    /// Submits a report by `user_id` against the ranked role it holds in
    /// `org_id`, dating every timestamp at instant `now`; `NotFound` when the
    /// user holds no ranked role there.
    pub fn create_organization_report(
        &mut self,
        org_id: i32,
        user_id: i32,
        term_start_date: i64,
        comments: &String,
        now: i64,
    ) -> (r: Result<Report, Error>)
        requires
            old(self).wf(),
            old(self).reports@.len() < i32::MAX,
        ensures
            final(self).wf(),
            create_report_post(
                *old(self),
                *final(self),
                org_id,
                user_id,
                term_start_date,
                *comments,
                now,
                r,
            ),
    {
        let role = match self.find_org_role_by_user_id(org_id, user_id) {
            Ok(role) => role,
            Err(_) => {
                return Err(Error::NotFound);
            },
        };
        let new_report = NewReport {
            role_id: role.id,
            term_start_date: term_start_date,
            submission_date: Some(now),
            comments: Some(comments.clone()),
            ack_user_id: None,
            ack_date: None,
            date_created: now,
            date_modified: now,
        };
        self.save_report(&new_report)
    }

    /// Submits a report dated at the current instant; the submission, the
    /// creation, and the modification date all carry the same timestamp.
    pub fn create_organization_report_now(
        &mut self,
        org_id: i32,
        user_id: i32,
        term_start_date: i64,
        comments: &String,
    ) -> (r: Result<Report, Error>)
        requires
            old(self).wf(),
            old(self).reports@.len() < i32::MAX,
        ensures
            final(self).wf(),
            exists|t: i64|
                create_report_post(
                    *old(self),
                    *final(self),
                    org_id,
                    user_id,
                    term_start_date,
                    *comments,
                    t,
                    r,
                ),
    {
        let now = now_timestamp();
        self.create_organization_report(org_id, user_id, term_start_date, comments, now)
    }

    /// Acknowledges a report at the current instant (see
    /// `ack_organization_report_checked`).
    pub fn ack_organization_report_now(&mut self, report_id: i32, user_id: i32) -> (r: Result<
        Report,
        Error,
    >)
        requires
            old(self).wf(),
        ensures
            final(self).wf(),
            exists|t: i64|
                crate::authz::ack_report_post(*old(self), *final(self), report_id, user_id, t, r),
    {
        let now = now_timestamp();
        self.ack_organization_report_checked(report_id, user_id, now)
    }
}

/// Relies on chrono::Utc::now: the current instant, read from the system
/// clock, in whole seconds since the Unix epoch. Nothing is assumed of its
/// value; callers state what holds for every timestamp. On a host whose
/// clock is set before 1970, chrono::Utc::now itself panics.
#[verifier::external_body]
fn now_timestamp() -> (r: i64) {
    chrono::Utc::now().timestamp()
}

impl Store {
    /// The report with the given identifier; `NotFound` otherwise.
    #[verifier::loop_isolation(false)]
    pub fn find_report_by_id(&self, id: i32) -> (r: Result<Report, Error>)
        ensures
            match r {
                Ok(rep) => report_by_id(self.reports@, id) == Some(rep),
                Err(e) => e == Error::NotFound && report_by_id(self.reports@, id) is None,
            },
    {
        proof {
            assert(self.reports@.skip(0) =~= self.reports@);
        }
        let mut i: usize = 0;
        while i < self.reports.len()
            invariant
                0 <= i <= self.reports@.len(),
                report_by_id(self.reports@, id) == report_by_id(self.reports@.skip(i as int), id),
            decreases self.reports@.len() - i,
        {
            proof {
                assert(self.reports@.skip(i as int).first() == self.reports@[i as int]);
                assert(self.reports@.skip(i as int).drop_first() =~= self.reports@.skip(i + 1));
            }
            if self.reports[i].id == id {
                return Ok(self.reports[i].clone());
            }
            i = i + 1;
        }
        proof {
            assert(self.reports@.skip(self.reports@.len() as int) =~= Seq::<Report>::empty());
        }
        Err(Error::NotFound)
    }

    /// Persists a new report under a fresh identifier; rejects only when the
    /// identifier space is exhausted.
    #[verifier::loop_isolation(false)]
    pub fn save_report(&mut self, new_report: &NewReport) -> (r: Result<Report, Error>)
        requires
            old(self).wf(),
            old(self).reports@.len() < i32::MAX,
        ensures
            final(self).wf(),
            final(self).orgs@ == old(self).orgs@,
            final(self).roles@ == old(self).roles@,
            final(self).members@ == old(self).members@,
            match r {
                Ok(rep) => {
                    &&& max_report_id(old(self).reports@) < i32::MAX
                    &&& rep == report_from_new(
                        *new_report,
                        (max_report_id(old(self).reports@) + 1) as i32,
                    )
                    &&& final(self).reports@ == old(self).reports@.push(rep)
                },
                Err(e) => {
                    &&& e == Error::ValidationError(ValidationReason::IdSpaceExhausted)
                    &&& max_report_id(old(self).reports@) == i32::MAX
                    &&& *final(self) == *old(self)
                },
            },
    {
        let mut mx: i32 = 0;
        let mut i: usize = 0;
        while i < self.reports.len()
            invariant
                0 <= i <= self.reports@.len(),
                mx as int == max_report_id(self.reports@.take(i as int)),
                mx >= 0,
            decreases self.reports@.len() - i,
        {
            proof {
                assert(self.reports@.take(i + 1).drop_last() =~= self.reports@.take(i as int));
                assert(self.reports@.take(i + 1).last() == self.reports@[i as int]);
            }
            if self.reports[i].id > mx {
                mx = self.reports[i].id;
            }
            i = i + 1;
        }
        proof {
            assert(self.reports@.take(self.reports@.len() as int) =~= self.reports@);
        }
        if mx == i32::MAX {
            return Err(Error::ValidationError(ValidationReason::IdSpaceExhausted));
        }
        let rep = Report {
            id: mx + 1,
            role_id: new_report.role_id,
            term_start_date: new_report.term_start_date,
            submission_date: new_report.submission_date,
            comments: match &new_report.comments {
                Some(c) => Some(c.clone()),
                None => None,
            },
            ack_user_id: new_report.ack_user_id,
            ack_date: new_report.ack_date,
            date_created: new_report.date_created,
            date_modified: new_report.date_modified,
        };
        proof {
            assert forall|k: int| 0 <= k < self.reports@.len() implies
                self.reports@[k].id as int <= max_report_id(self.reports@) by {
                lemma_max_report_id_ge(self.reports@, k);
            }
        }
        let out = rep.clone();
        self.reports.push(rep);
        Ok(out)
    }

    /// Acknowledges the report at instant `now`: sets the acknowledging user
    /// and date together and touches the modification date. `NotFound` if the
    /// report does not exist; rejected if it was already acknowledged, since
    /// acknowledgment is terminal. Position-based authorization is the
    /// caller's duty (see `ack_organization_report_checked`).
    #[verifier::loop_isolation(false)]
    pub fn ack_report(&mut self, report_id: i32, user_id: i32, now: i64) -> (r: Result<
        Report,
        Error,
    >)
        requires
            old(self).wf(),
        ensures
            final(self).wf(),
            final(self).orgs@ == old(self).orgs@,
            final(self).roles@ == old(self).roles@,
            final(self).members@ == old(self).members@,
            match report_by_id(old(self).reports@, report_id) {
                None => r == Err::<Report, Error>(Error::NotFound) && *final(self) == *old(self),
                Some(rep) => if unacked(rep) {
                    &&& r == Ok::<Report, Error>(acked_report(rep, user_id, now))
                    &&& exists|i: int|
                        {
                            &&& 0 <= i < old(self).reports@.len()
                            &&& old(self).reports@[i] == rep
                            &&& final(self).reports@ == old(self).reports@.update(
                                i,
                                acked_report(rep, user_id, now),
                            )
                        }
                } else {
                    &&& r == Err::<Report, Error>(
                        Error::ValidationError(ValidationReason::ReportAlreadyAcknowledged),
                    )
                    &&& *final(self) == *old(self)
                },
            },
    {
        proof {
            assert(self.reports@.skip(0) =~= self.reports@);
        }
        let mut i: usize = 0;
        while i < self.reports.len()
            invariant
                0 <= i <= self.reports@.len(),
                *self == *old(self),
                report_by_id(self.reports@, report_id) == report_by_id(
                    self.reports@.skip(i as int),
                    report_id,
                ),
            decreases self.reports@.len() - i,
        {
            proof {
                assert(self.reports@.skip(i as int).first() == self.reports@[i as int]);
                assert(self.reports@.skip(i as int).drop_first() =~= self.reports@.skip(i + 1));
            }
            if self.reports[i].id == report_id {
                let x = &self.reports[i];
                if x.ack_user_id.is_some() || x.ack_date.is_some() {
                    return Err(
                        Error::ValidationError(ValidationReason::ReportAlreadyAcknowledged),
                    );
                }
                let updated = Report {
                    id: x.id,
                    role_id: x.role_id,
                    term_start_date: x.term_start_date,
                    submission_date: x.submission_date,
                    comments: match &x.comments {
                        Some(c) => Some(c.clone()),
                        None => None,
                    },
                    ack_user_id: Some(user_id),
                    ack_date: Some(now),
                    date_created: x.date_created,
                    date_modified: now,
                };
                let out = updated.clone();
                self.reports.set(i, updated);
                proof {
                    assert(forall|a: int, b: int|
                        0 <= a < b < self.reports@.len() ==> self.reports@[a].id != self.reports@[
                        b].id);
                }
                return Ok(out);
            }
            i = i + 1;
        }
        proof {
            assert(self.reports@.skip(self.reports@.len() as int) =~= Seq::<Report>::empty());
        }
        Err(Error::NotFound)
    }

    /// The unacknowledged reports submitted by any of the listed roles.
    #[verifier::loop_isolation(false)]
    pub fn find_unacknowledged_by_role_ids(&self, role_ids: &Vec<i32>) -> (r: Vec<Report>)
        ensures
            r@ == unacked_by_role_ids(self.reports@, role_ids@),
    {
        let mut out: Vec<Report> = Vec::new();
        let mut i: usize = 0;
        while i < self.reports.len()
            invariant
                0 <= i <= self.reports@.len(),
                out@ == unacked_by_role_ids(self.reports@.take(i as int), role_ids@),
            decreases self.reports@.len() - i,
        {
            proof {
                assert(self.reports@.take(i + 1).drop_last() =~= self.reports@.take(i as int));
                assert(self.reports@.take(i + 1).last() == self.reports@[i as int]);
            }
            let x = &self.reports[i];
            if x.ack_user_id.is_none() && x.ack_date.is_none()
                && crate::roles::vec_contains_i32(role_ids, x.role_id) {
                out.push(x.clone());
            }
            i = i + 1;
        }
        proof {
            assert(self.reports@.take(self.reports@.len() as int) =~= self.reports@);
        }
        out
    }

    /// Every report submitted by a role of `org`.
    #[verifier::loop_isolation(false)]
    pub fn find_all_by_organization(&self, org: i32) -> (r: Vec<Report>)
        ensures
            r@ == reports_of_org(self.reports@, self.roles@, org),
    {
        let mut out: Vec<Report> = Vec::new();
        let mut i: usize = 0;
        while i < self.reports.len()
            invariant
                0 <= i <= self.reports@.len(),
                out@ == reports_of_org(self.reports@.take(i as int), self.roles@, org),
            decreases self.reports@.len() - i,
        {
            proof {
                assert(self.reports@.take(i + 1).drop_last() =~= self.reports@.take(i as int));
                assert(self.reports@.take(i + 1).last() == self.reports@[i as int]);
            }
            let x = &self.reports[i];
            let keep = match self.find_role_by_id(x.role_id) {
                Some(role) => role.organization_id == org,
                None => false,
            };
            if keep {
                out.push(x.clone());
            }
            i = i + 1;
        }
        proof {
            assert(self.reports@.take(self.reports@.len() as int) =~= self.reports@);
        }
        out
    }

    /// The reports of `org` visible at rank `rank`: those submitted by roles
    /// of numerically equal or greater rank — equal or lower authority.
    #[verifier::loop_isolation(false)]
    pub fn find_all_by_org_up_to_rank(&self, org: i32, rank: i32) -> (r: Vec<Report>)
        ensures
            r@ == reports_of_org_up_to_rank(self.reports@, self.roles@, org, rank),
    {
        let mut out: Vec<Report> = Vec::new();
        let mut i: usize = 0;
        while i < self.reports.len()
            invariant
                0 <= i <= self.reports@.len(),
                out@ == reports_of_org_up_to_rank(
                    self.reports@.take(i as int),
                    self.roles@,
                    org,
                    rank,
                ),
            decreases self.reports@.len() - i,
        {
            proof {
                assert(self.reports@.take(i + 1).drop_last() =~= self.reports@.take(i as int));
                assert(self.reports@.take(i + 1).last() == self.reports@[i as int]);
            }
            let x = &self.reports[i];
            let keep = match self.find_role_by_id(x.role_id) {
                Some(role) => role.organization_id == org && (match role.rank {
                    Some(k) => k >= rank,
                    None => false,
                }),
                None => false,
            };
            if keep {
                out.push(x.clone());
            }
            i = i + 1;
        }
        proof {
            assert(self.reports@.take(self.reports@.len() as int) =~= self.reports@);
        }
        out
    }
}

} // verus!
