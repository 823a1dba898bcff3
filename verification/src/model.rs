//! Data model: organizations, roles, reports, memberships, the in-memory
//! store they live in, and the error kinds the engine returns.

use vstd::prelude::*;

verus! {

/// A node of the organization forest. `parent_id` is `None` for a root.
#[derive(Debug)]
pub struct Organization {
    pub id: i32,
    pub slug: String,
    pub name: String,
    pub parent_id: Option<i32>,
}

/// A role scoped to one organization. `rank` is `None` for an unranked role;
/// among ranked roles a lower numeric rank means higher authority. `ordinal`
/// breaks ties between equal ranks; it is rewritten by reordering.
#[derive(Debug)]
pub struct OrganizationRole {
    pub id: i32,
    pub organization_id: i32,
    pub user_id: Option<i32>,
    pub rank: Option<i32>,
    pub role: String,
    pub ordinal: i32,
}

/// Fields for creating a role; the store assigns the identifier.
#[derive(Debug)]
pub struct NewOrganizationRole {
    pub organization_id: i32,
    pub user_id: Option<i32>,
    pub role: String,
    pub rank: Option<i32>,
}

/// Patch applied by a role update; the identifier and ordinal are kept.
#[derive(Debug)]
pub struct UpdateOrganizationRole {
    pub user_id: Option<i32>,
    pub role: String,
    pub rank: Option<i32>,
}

/// A report submitted by the holder of a ranked role. It is unacknowledged
/// iff `ack_user_id` and `ack_date` are both unset; acknowledgment sets both
/// together, exactly once. Dates are seconds since the epoch.
#[derive(Debug)]
pub struct Report {
    pub id: i32,
    pub role_id: i32,
    pub term_start_date: i64,
    pub submission_date: Option<i64>,
    pub comments: Option<String>,
    pub ack_user_id: Option<i32>,
    pub ack_date: Option<i64>,
    pub date_created: i64,
    pub date_modified: i64,
}

/// Fields for creating a report; the store assigns the identifier.
#[derive(Debug)]
pub struct NewReport {
    pub role_id: i32,
    pub term_start_date: i64,
    pub submission_date: Option<i64>,
    pub comments: Option<String>,
    pub ack_user_id: Option<i32>,
    pub ack_date: Option<i64>,
    pub date_created: i64,
    pub date_modified: i64,
}

/// General membership of a user in an organization, independent of rank.
/// Memberships form a set: adding an existing pair is a no-op success.
#[derive(Debug)]
pub struct OrganizationUser {
    pub organization_id: i32,
    pub user_id: i32,
}

/// A resolved chain of command: ranked roles ordered from the starting role
/// upward, each later entry holding higher authority than the one before.
#[derive(Debug)]
pub struct ChainOfCommand {
    pub roles: Vec<OrganizationRole>,
}

/// Which roles a role listing returns.
#[derive(PartialEq, Eq, Structural, Clone, Copy, Debug)]
pub enum RoleRankScope {
    All,
    RankedOnly,
}

/// Why a request was rejected as violating a domain invariant.
#[derive(PartialEq, Eq, Structural, Clone, Copy, Debug)]
pub enum ValidationReason {
    /// The proposed assignee already occupies a ranked role in the chain of
    /// command of the target organization.
    AssigneeAlreadyInCoc,
    /// A reorder request did not carry exactly the ranked role identifiers of
    /// the organization (missing, extra, or duplicate entries).
    MalformedReorderSet,
    /// The report was already acknowledged; acknowledgment is terminal.
    ReportAlreadyAcknowledged,
    /// The identifier space of the store is exhausted.
    IdSpaceExhausted,
}

/// The error kinds the engine returns.
#[derive(PartialEq, Eq, Structural, Clone, Copy, Debug)]
pub enum Error {
    /// A referenced organization, role, or report does not exist.
    NotFound,
    /// The request violates a domain invariant.
    ValidationError(ValidationReason),
    /// The acting identity lacks the required chain-of-command position.
    AuthenticationError,
    /// Traversal exceeded its bound or found a dangling parent link.
    HierarchyCorruption,
}

impl Error {
    /// A user-readable description of the error.
    pub fn message(&self) -> (r: &'static str)
        ensures
            *self == Error::ValidationError(ValidationReason::AssigneeAlreadyInCoc)
                ==> r@ == "Assignee is already in CoC"@,
    {
        match self {
            Error::NotFound => "Not found",
            Error::ValidationError(ValidationReason::AssigneeAlreadyInCoc) => {
                "Assignee is already in CoC"
            },
            Error::ValidationError(ValidationReason::MalformedReorderSet) => {
                "Reorder request must list exactly the ranked roles of the organization"
            },
            Error::ValidationError(ValidationReason::ReportAlreadyAcknowledged) => {
                "Report is already acknowledged"
            },
            Error::ValidationError(ValidationReason::IdSpaceExhausted) => {
                "Identifier space is exhausted"
            },
            Error::AuthenticationError => "Authentication error",
            Error::HierarchyCorruption => "Hierarchy corruption",
        }
    }
}

impl Clone for Organization {
    fn clone(&self) -> (r: Self)
        ensures
            r == *self,
    {
        Organization {
            id: self.id,
            slug: self.slug.clone(),
            name: self.name.clone(),
            parent_id: self.parent_id,
        }
    }
}

impl Clone for OrganizationRole {
    fn clone(&self) -> (r: Self)
        ensures
            r == *self,
    {
        OrganizationRole {
            id: self.id,
            organization_id: self.organization_id,
            user_id: self.user_id,
            rank: self.rank,
            role: self.role.clone(),
            ordinal: self.ordinal,
        }
    }
}

impl Clone for Report {
    fn clone(&self) -> (r: Self)
        ensures
            r == *self,
    {
        Report {
            id: self.id,
            role_id: self.role_id,
            term_start_date: self.term_start_date,
            submission_date: self.submission_date,
            comments: match &self.comments {
                Some(c) => Some(c.clone()),
                None => None,
            },
            ack_user_id: self.ack_user_id,
            ack_date: self.ack_date,
            date_created: self.date_created,
            date_modified: self.date_modified,
        }
    }
}

/// The in-memory relational store the engine reads and mutates.
pub struct Store {
    pub orgs: Vec<Organization>,
    pub roles: Vec<OrganizationRole>,
    pub reports: Vec<Report>,
    pub members: Vec<OrganizationUser>,
}

impl Store {
    /// Well-formedness: identifiers are unique per table, memberships form a
    /// set, and table sizes stay within the identifier type (machine limit).
    pub open spec fn wf(self) -> bool {
        &&& (forall|i: int, j: int|
            0 <= i < j < self.orgs@.len() ==> self.orgs@[i].id != self.orgs@[j].id)
        &&& (forall|i: int, j: int|
            0 <= i < j < self.roles@.len() ==> self.roles@[i].id != self.roles@[j].id)
        &&& (forall|i: int, j: int|
            0 <= i < j < self.reports@.len() ==> self.reports@[i].id != self.reports@[j].id)
        &&& (forall|i: int, j: int|
            0 <= i < j < self.members@.len()
                ==> !(self.members@[i].organization_id == self.members@[j].organization_id
                    && self.members@[i].user_id == self.members@[j].user_id))
        &&& self.roles@.len() <= i32::MAX
        &&& self.reports@.len() <= i32::MAX
    }

    /// Whether the store is well-formed, decided at run time; lets a caller
    /// test the precondition of the mutating operations before making them.
    #[verifier::loop_isolation(false)]
    pub fn is_well_formed(&self) -> (r: bool)
        ensures
            r == self.wf(),
    {
        if self.roles.len() > i32::MAX as usize {
            return false;
        }
        if self.reports.len() > i32::MAX as usize {
            return false;
        }
        let mut i: usize = 0;
        while i < self.orgs.len()
            invariant
                0 <= i <= self.orgs@.len(),
                forall|a: int, b: int|
                    0 <= a < b < self.orgs@.len() && a < i ==> self.orgs@[a].id != self.orgs@[b].id,
            decreases self.orgs@.len() - i,
        {
            let mut j: usize = i + 1;
            while j < self.orgs.len()
                invariant
                    i < self.orgs@.len(),
                    i + 1 <= j <= self.orgs@.len(),
                    forall|b: int| i < b < j ==> self.orgs@[i as int].id != self.orgs@[b].id,
                decreases self.orgs@.len() - j,
            {
                if self.orgs[i].id == self.orgs[j].id {
                    return false;
                }
                j = j + 1;
            }
            i = i + 1;
        }
        let mut i: usize = 0;
        while i < self.roles.len()
            invariant
                0 <= i <= self.roles@.len(),
                forall|a: int, b: int|
                    0 <= a < b < self.roles@.len() && a < i
                        ==> self.roles@[a].id != self.roles@[b].id,
            decreases self.roles@.len() - i,
        {
            let mut j: usize = i + 1;
            while j < self.roles.len()
                invariant
                    i < self.roles@.len(),
                    i + 1 <= j <= self.roles@.len(),
                    forall|b: int| i < b < j ==> self.roles@[i as int].id != self.roles@[b].id,
                decreases self.roles@.len() - j,
            {
                if self.roles[i].id == self.roles[j].id {
                    return false;
                }
                j = j + 1;
            }
            i = i + 1;
        }
        let mut i: usize = 0;
        while i < self.reports.len()
            invariant
                0 <= i <= self.reports@.len(),
                forall|a: int, b: int|
                    0 <= a < b < self.reports@.len() && a < i ==> self.reports@[a].id
                        != self.reports@[b].id,
            decreases self.reports@.len() - i,
        {
            let mut j: usize = i + 1;
            while j < self.reports.len()
                invariant
                    i < self.reports@.len(),
                    i + 1 <= j <= self.reports@.len(),
                    forall|b: int| i < b < j ==> self.reports@[i as int].id != self.reports@[b].id,
                decreases self.reports@.len() - j,
            {
                if self.reports[i].id == self.reports[j].id {
                    return false;
                }
                j = j + 1;
            }
            i = i + 1;
        }
        let mut i: usize = 0;
        while i < self.members.len()
            invariant
                0 <= i <= self.members@.len(),
                forall|a: int, b: int|
                    0 <= a < b < self.members@.len() && a < i
                        ==> !(self.members@[a].organization_id == self.members@[b].organization_id
                            && self.members@[a].user_id == self.members@[b].user_id),
            decreases self.members@.len() - i,
        {
            let mut j: usize = i + 1;
            while j < self.members.len()
                invariant
                    i < self.members@.len(),
                    i + 1 <= j <= self.members@.len(),
                    forall|b: int|
                        i < b < j ==> !(self.members@[i as int].organization_id
                            == self.members@[b].organization_id
                            && self.members@[i as int].user_id == self.members@[b].user_id),
                decreases self.members@.len() - j,
            {
                if self.members[i].organization_id == self.members[j].organization_id
                    && self.members[i].user_id == self.members[j].user_id {
                    return false;
                }
                j = j + 1;
            }
            i = i + 1;
        }
        true
    }

    /// An empty store, trivially well-formed.
    pub fn new() -> (r: Store)
        ensures
            r.wf(),
            r.orgs@ == Seq::<Organization>::empty(),
            r.roles@ == Seq::<OrganizationRole>::empty(),
            r.reports@ == Seq::<Report>::empty(),
            r.members@ == Seq::<OrganizationUser>::empty(),
    {
        Store { orgs: Vec::new(), roles: Vec::new(), reports: Vec::new(), members: Vec::new() }
    }
}

} // verus!
