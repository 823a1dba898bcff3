//! The role ledger: rank ordering, role listing, lookup, creation, update,
//! and atomic reordering of the ranked roles of an organization.
//!
//! The ordering convention is centralized here: a lower numeric rank means
//! higher authority; ties between equal ranks are broken by the ordinal
//! position, and then by the role identifier, so the order is total over a
//! well-formed store.

use vstd::prelude::*;

use crate::model::Error;
use crate::model::NewOrganizationRole;
use crate::model::OrganizationRole;
use crate::model::RoleRankScope;
use crate::model::Store;
use crate::model::UpdateOrganizationRole;
use crate::model::ValidationReason;

verus! {

/// The major sort key of a role: its rank, with unranked roles placed after
/// every ranked role.
pub open spec fn rank_key(r: OrganizationRole) -> int {
    match r.rank {
        Some(k) => k as int,
        None => i32::MAX as int + 1,
    }
}

/// The total order on roles: rank, then ordinal, then identifier.
pub open spec fn key_lt(a: OrganizationRole, b: OrganizationRole) -> bool {
    ||| rank_key(a) < rank_key(b)
    ||| (rank_key(a) == rank_key(b) && a.ordinal < b.ordinal)
    ||| (rank_key(a) == rank_key(b) && a.ordinal == b.ordinal && a.id < b.id)
}

/// Whether `x` participates in chain-of-command resolution for organization
/// `org` under a rank bound: it belongs to `org`, is ranked, and its rank is
/// at most `max_rank`.
pub open spec fn eligible(x: OrganizationRole, org: i32, max_rank: int) -> bool {
    x.organization_id == org && x.rank is Some && rank_key(x) <= max_rank
}

/// Whether a listing with the given scope includes `x`.
pub open spec fn in_scope(x: OrganizationRole, org: i32, scope: RoleRankScope) -> bool {
    x.organization_id == org && (scope == RoleRankScope::RankedOnly ==> x.rank is Some)
}

/// Whether `x` lies strictly below `bound` in the role order; no bound means
/// everything qualifies.
pub open spec fn below_ok(x: OrganizationRole, bound: Option<OrganizationRole>) -> bool {
    match bound {
        None => true,
        Some(b) => key_lt(x, b),
    }
}

/// Whether `x` lies strictly above `lo` in the role order; no bound means
/// everything qualifies.
pub open spec fn above_ok(x: OrganizationRole, lo: Option<OrganizationRole>) -> bool {
    match lo {
        None => true,
        Some(b) => key_lt(b, x),
    }
}

/// The greatest eligible role of `org` strictly below `bound`: the nearest
/// superior of `bound` inside its own organization, or, with no bound, the
/// lowest-authority eligible role of `org`.
pub open spec fn max_eligible_below(
    roles: Seq<OrganizationRole>,
    org: i32,
    max_rank: int,
    bound: Option<OrganizationRole>,
) -> Option<OrganizationRole>
    decreases roles.len(),
{
    if roles.len() == 0 {
        None
    } else {
        let prev = max_eligible_below(roles.drop_last(), org, max_rank, bound);
        let x = roles.last();
        if eligible(x, org, max_rank) && below_ok(x, bound) {
            match prev {
                None => Some(x),
                Some(p) => if key_lt(p, x) {
                    Some(x)
                } else {
                    Some(p)
                },
            }
        } else {
            prev
        }
    }
}

/// The least role of `org` in `scope` strictly above `lo`, or, with no bound,
/// the first role of the listing order.
pub open spec fn min_scoped_above(
    roles: Seq<OrganizationRole>,
    org: i32,
    scope: RoleRankScope,
    lo: Option<OrganizationRole>,
) -> Option<OrganizationRole>
    decreases roles.len(),
{
    if roles.len() == 0 {
        None
    } else {
        let prev = min_scoped_above(roles.drop_last(), org, scope, lo);
        let x = roles.last();
        if in_scope(x, org, scope) && above_ok(x, lo) {
            match prev {
                None => Some(x),
                Some(p) => if key_lt(x, p) {
                    Some(x)
                } else {
                    Some(p)
                },
            }
        } else {
            prev
        }
    }
}

/// The roles of `org` in `scope` listed in ascending order (highest authority
/// first), starting strictly above `lo`.
pub open spec fn asc_roles(
    roles: Seq<OrganizationRole>,
    org: i32,
    scope: RoleRankScope,
    lo: Option<OrganizationRole>,
    fuel: nat,
) -> Seq<OrganizationRole>
    decreases fuel,
{
    if fuel == 0 {
        Seq::empty()
    } else {
        match min_scoped_above(roles, org, scope, lo) {
            None => Seq::empty(),
            Some(x) => seq![x] + asc_roles(roles, org, scope, Some(x), (fuel - 1) as nat),
        }
    }
}

/// The first role in store order that is ranked, belongs to `org`, and is
/// held by `user`.
pub open spec fn user_ranked_role(
    roles: Seq<OrganizationRole>,
    org: i32,
    user: i32,
) -> Option<OrganizationRole>
    decreases roles.len(),
{
    if roles.len() == 0 {
        None
    } else if roles.first().organization_id == org && roles.first().rank is Some
        && roles.first().user_id == Some(user) {
        Some(roles.first())
    } else {
        user_ranked_role(roles.drop_first(), org, user)
    }
}

/// The first role in store order with the given identifier.
pub open spec fn role_by_id(roles: Seq<OrganizationRole>, id: i32) -> Option<OrganizationRole>
    decreases roles.len(),
{
    if roles.len() == 0 {
        None
    } else if roles.first().id == id {
        Some(roles.first())
    } else {
        role_by_id(roles.drop_first(), id)
    }
}

/// The unranked roles of `org` in store order.
pub open spec fn unranked_of(roles: Seq<OrganizationRole>, org: i32) -> Seq<OrganizationRole>
    decreases roles.len(),
{
    if roles.len() == 0 {
        Seq::empty()
    } else {
        let rest = unranked_of(roles.drop_last(), org);
        let x = roles.last();
        if x.organization_id == org && x.rank is None {
            rest.push(x)
        } else {
            rest
        }
    }
}

/// The ranked roles held by `user` across all organizations, in store order.
pub open spec fn ranked_of_user(roles: Seq<OrganizationRole>, user: i32) -> Seq<OrganizationRole>
    decreases roles.len(),
{
    if roles.len() == 0 {
        Seq::empty()
    } else {
        let rest = ranked_of_user(roles.drop_last(), user);
        let x = roles.last();
        if x.rank is Some && x.user_id == Some(user) {
            rest.push(x)
        } else {
            rest
        }
    }
}

/// Whether `x` is a ranked role of `org`.
pub open spec fn ranked_in(x: OrganizationRole, org: i32) -> bool {
    x.organization_id == org && x.rank is Some
}

/// Whether `id` identifies a ranked role of `org`.
pub open spec fn is_ranked_role_id(roles: Seq<OrganizationRole>, org: i32, id: i32) -> bool {
    exists|i: int| 0 <= i < roles.len() && ranked_in(#[trigger] roles[i], org) && roles[i].id == id
}

/// Whether a reorder request is acceptable: the listed identifiers are
/// exactly the ranked role identifiers of `org`, without duplicates.
pub open spec fn valid_reorder(roles: Seq<OrganizationRole>, org: i32, ids: Seq<i32>) -> bool {
    &&& (forall|i: int, j: int| 0 <= i < j < ids.len() ==> ids[i] != ids[j])
    &&& (forall|j: int| 0 <= j < ids.len() ==> is_ranked_role_id(roles, org, #[trigger] ids[j]))
    &&& (forall|i: int|
        0 <= i < roles.len() && ranked_in(#[trigger] roles[i], org) ==> ids.contains(roles[i].id))
}

/// The greatest role identifier in the store, or zero if there are none;
/// fresh identifiers are allocated above it.
pub open spec fn max_role_id(roles: Seq<OrganizationRole>) -> int
    decreases roles.len(),
{
    if roles.len() == 0 {
        0
    } else {
        let m = max_role_id(roles.drop_last());
        if roles.last().id as int > m {
            roles.last().id as int
        } else {
            m
        }
    }
}

/// A role update applied to an existing role: the identifier and ordinal are
/// kept, the assignee, label, and rank are replaced.
pub open spec fn apply_update(x: OrganizationRole, patch: UpdateOrganizationRole) -> OrganizationRole {
    OrganizationRole {
        id: x.id,
        organization_id: x.organization_id,
        user_id: patch.user_id,
        rank: patch.rank,
        role: patch.role,
        ordinal: x.ordinal,
    }
}

/// The role a [`NewOrganizationRole`] creates: a fresh identifier above
/// every existing one, the requested fields, and ordinal zero.
pub open spec fn fresh_role(roles: Seq<OrganizationRole>, new_role: NewOrganizationRole) -> OrganizationRole {
    OrganizationRole {
        id: (max_role_id(roles) + 1) as i32,
        organization_id: new_role.organization_id,
        user_id: new_role.user_id,
        rank: new_role.rank,
        role: new_role.role,
        ordinal: 0,
    }
}

/// The effect of an accepted reorder: every ranked role of `org` carries the
/// ordinal of its position in `ids`, and every other role is untouched.
pub open spec fn reorder_applied(
    orig: Seq<OrganizationRole>,
    now: Seq<OrganizationRole>,
    org: i32,
    ids: Seq<i32>,
) -> bool {
    &&& now.len() == orig.len()
    &&& (forall|k: int|
        0 <= k < orig.len() && !ranked_in(#[trigger] orig[k], org) ==> now[k] == orig[k])
    &&& (forall|k: int, j: int|
        0 <= k < orig.len() && ranked_in(#[trigger] orig[k], org) && 0 <= j < ids.len()
            && #[trigger] ids[j] == orig[k].id ==> now[k] == (OrganizationRole {
            ordinal: j as i32,
            ..orig[k]
        }))
}

/// Every role identifier is at most [`max_role_id`].
pub proof fn lemma_max_role_id_ge(roles: Seq<OrganizationRole>, i: int)
    requires
        0 <= i < roles.len(),
    ensures
        roles[i].id as int <= max_role_id(roles),
    decreases roles.len(),
{
    if i < roles.len() - 1 {
        lemma_max_role_id_ge(roles.drop_last(), i);
    }
}

impl Store {
    /// The greatest eligible role of `org` strictly below `bound` (see
    /// [`max_eligible_below`]).
    #[verifier::loop_isolation(false)]
    pub fn scan_max_below(
        &self,
        org: i32,
        max_rank: i32,
        bound: Option<&OrganizationRole>,
    ) -> (r: Option<OrganizationRole>)
        ensures
            r == max_eligible_below(
                self.roles@,
                org,
                max_rank as int,
                match bound {
                    None => None::<OrganizationRole>,
                    Some(b) => Some(*b),
                },
            ),
    {
        let ghost bound_spec = match bound {
            None => None::<OrganizationRole>,
            Some(b) => Some(*b),
        };
        let mut best: Option<OrganizationRole> = None;
        let mut i: usize = 0;
        while i < self.roles.len()
            invariant
                0 <= i <= self.roles@.len(),
                best == max_eligible_below(self.roles@.take(i as int), org, max_rank as int, bound_spec),
            decreases self.roles@.len() - i,
        {
            let x = &self.roles[i];
            proof {
                assert(self.roles@.take(i + 1).drop_last() =~= self.roles@.take(i as int));
                assert(self.roles@.take(i + 1).last() == self.roles@[i as int]);
            }
            let x_ok = x.organization_id == org && x.rank.is_some()
                && x.rank.unwrap() <= max_rank && role_below(x, bound);
            if x_ok {
                best = match best {
                    None => Some(x.clone()),
                    Some(p) => if role_lt(&p, x) {
                        Some(x.clone())
                    } else {
                        Some(p)
                    },
                };
            }
            i = i + 1;
        }
        proof {
            assert(self.roles@.take(self.roles@.len() as int) =~= self.roles@);
        }
        best
    }

    /// The least role of `org` in `scope` strictly above `lo` (see
    /// [`min_scoped_above`]).
    #[verifier::loop_isolation(false)]
    pub fn scan_min_above(
        &self,
        org: i32,
        scope: RoleRankScope,
        lo: Option<&OrganizationRole>,
    ) -> (r: Option<OrganizationRole>)
        ensures
            r == min_scoped_above(
                self.roles@,
                org,
                scope,
                match lo {
                    None => None::<OrganizationRole>,
                    Some(b) => Some(*b),
                },
            ),
    {
        let ghost lo_spec = match lo {
            None => None::<OrganizationRole>,
            Some(b) => Some(*b),
        };
        let mut best: Option<OrganizationRole> = None;
        let mut i: usize = 0;
        while i < self.roles.len()
            invariant
                0 <= i <= self.roles@.len(),
                best == min_scoped_above(self.roles@.take(i as int), org, scope, lo_spec),
            decreases self.roles@.len() - i,
        {
            let x = &self.roles[i];
            proof {
                assert(self.roles@.take(i + 1).drop_last() =~= self.roles@.take(i as int));
                assert(self.roles@.take(i + 1).last() == self.roles@[i as int]);
            }
            let scope_ok = x.organization_id == org
                && (!matches!(scope, RoleRankScope::RankedOnly) || x.rank.is_some());
            let x_ok = scope_ok && role_above(x, lo);
            if x_ok {
                best = match best {
                    None => Some(x.clone()),
                    Some(p) => if role_lt(x, &p) {
                        Some(x.clone())
                    } else {
                        Some(p)
                    },
                };
            }
            i = i + 1;
        }
        proof {
            assert(self.roles@.take(self.roles@.len() as int) =~= self.roles@);
        }
        best
    }

    /// The roles of `org` selected by `scope`, ordered by ascending rank with
    /// ties broken by ordinal and then identifier; with scope `All`, unranked
    /// roles come after every ranked role.
    #[verifier::loop_isolation(false)]
    pub fn find_org_roles(&self, org: i32, scope: RoleRankScope) -> (r: Vec<OrganizationRole>)
        ensures
            r@ == asc_roles(self.roles@, org, scope, None::<OrganizationRole>, self.roles@.len()),
    {
        let mut out: Vec<OrganizationRole> = Vec::new();
        let mut lo: Option<OrganizationRole> = None;
        let mut fuel: usize = self.roles.len();
        let ghost total = self.roles@.len();
        while fuel > 0
            invariant
                fuel <= total,
                self.roles@.len() == total,
                asc_roles(self.roles@, org, scope, None::<OrganizationRole>, total)
                    =~= out@ + asc_roles(self.roles@, org, scope, lo, fuel as nat),
            decreases fuel,
        {
            let lo_ref = match &lo {
                None => None,
                Some(b) => Some(b),
            };
            let next = self.scan_min_above(org, scope, lo_ref);
            match next {
                None => {
                    proof {
                        assert(asc_roles(self.roles@, org, scope, lo, fuel as nat)
                            =~= Seq::<OrganizationRole>::empty());
                    }
                    fuel = 0;
                },
                Some(x) => {
                    out.push(x.clone());
                    lo = Some(x);
                    fuel = fuel - 1;
                },
            }
        }
        proof {
            assert(asc_roles(self.roles@, org, scope, lo, 0nat) =~= Seq::<OrganizationRole>::empty());
        }
        out
    }

    /// The unranked roles of `org`, in store order.
    #[verifier::loop_isolation(false)]
    pub fn find_unranked_roles(&self, org: i32) -> (r: Vec<OrganizationRole>)
        ensures
            r@ == unranked_of(self.roles@, org),
    {
        let mut out: Vec<OrganizationRole> = Vec::new();
        let mut i: usize = 0;
        while i < self.roles.len()
            invariant
                0 <= i <= self.roles@.len(),
                out@ == unranked_of(self.roles@.take(i as int), org),
            decreases self.roles@.len() - i,
        {
            let x = &self.roles[i];
            proof {
                assert(self.roles@.take(i + 1).drop_last() =~= self.roles@.take(i as int));
                assert(self.roles@.take(i + 1).last() == self.roles@[i as int]);
            }
            if x.rank.is_none() && x.organization_id == org {
                out.push(x.clone());
            }
            i = i + 1;
        }
        proof {
            assert(self.roles@.take(self.roles@.len() as int) =~= self.roles@);
        }
        out
    }

    /// The ranked roles held by `user` across all organizations.
    #[verifier::loop_isolation(false)]
    pub fn find_ranked_by_user_id(&self, user: i32) -> (r: Vec<OrganizationRole>)
        ensures
            r@ == ranked_of_user(self.roles@, user),
    {
        let mut out: Vec<OrganizationRole> = Vec::new();
        let mut i: usize = 0;
        while i < self.roles.len()
            invariant
                0 <= i <= self.roles@.len(),
                out@ == ranked_of_user(self.roles@.take(i as int), user),
            decreases self.roles@.len() - i,
        {
            let x = &self.roles[i];
            proof {
                assert(self.roles@.take(i + 1).drop_last() =~= self.roles@.take(i as int));
                assert(self.roles@.take(i + 1).last() == self.roles@[i as int]);
            }
            if x.rank.is_some() && option_i32_eq(x.user_id, Some(user)) {
                out.push(x.clone());
            }
            i = i + 1;
        }
        proof {
            assert(self.roles@.take(self.roles@.len() as int) =~= self.roles@);
        }
        out
    }

    /// The ranked role `user` holds in `org`, if any; `NotFound` otherwise.
    #[verifier::loop_isolation(false)]
    pub fn find_org_role_by_user_id(&self, org: i32, user: i32) -> (r: Result<
        OrganizationRole,
        Error,
    >)
        ensures
            match r {
                Ok(role) => user_ranked_role(self.roles@, org, user) == Some(role),
                Err(e) => e == Error::NotFound && user_ranked_role(self.roles@, org, user) is None,
            },
    {
        proof {
            assert(self.roles@.skip(0) =~= self.roles@);
        }
        let mut i: usize = 0;
        while i < self.roles.len()
            invariant
                0 <= i <= self.roles@.len(),
                user_ranked_role(self.roles@, org, user)
                    == user_ranked_role(self.roles@.skip(i as int), org, user),
            decreases self.roles@.len() - i,
        {
            let x = &self.roles[i];
            proof {
                assert(self.roles@.skip(i as int).first() == self.roles@[i as int]);
                assert(self.roles@.skip(i as int).drop_first() =~= self.roles@.skip(i + 1));
            }
            if x.organization_id == org && x.rank.is_some() && option_i32_eq(x.user_id, Some(user)) {
                return Ok(x.clone());
            }
            i = i + 1;
        }
        proof {
            assert(self.roles@.skip(self.roles@.len() as int)
                =~= Seq::<OrganizationRole>::empty());
        }
        Err(Error::NotFound)
    }

    /// The role with the given identifier, if any.
    #[verifier::loop_isolation(false)]
    pub fn find_role_by_id(&self, id: i32) -> (r: Option<OrganizationRole>)
        ensures
            r == role_by_id(self.roles@, id),
    {
        proof {
            assert(self.roles@.skip(0) =~= self.roles@);
        }
        let mut i: usize = 0;
        while i < self.roles.len()
            invariant
                0 <= i <= self.roles@.len(),
                role_by_id(self.roles@, id) == role_by_id(self.roles@.skip(i as int), id),
            decreases self.roles@.len() - i,
        {
            let x = &self.roles[i];
            proof {
                assert(self.roles@.skip(i as int).first() == self.roles@[i as int]);
                assert(self.roles@.skip(i as int).drop_first() =~= self.roles@.skip(i + 1));
            }
            if x.id == id {
                return Some(x.clone());
            }
            i = i + 1;
        }
        proof {
            assert(self.roles@.skip(self.roles@.len() as int)
                =~= Seq::<OrganizationRole>::empty());
        }
        None
    }
}

/// Equality of optional user identifiers.
pub fn option_i32_eq(a: Option<i32>, b: Option<i32>) -> (r: bool)
    ensures
        r == (a == b),
{
    match (a, b) {
        (None, None) => true,
        (Some(x), Some(y)) => x == y,
        _ => false,
    }
}

/// The strict role order (see [`key_lt`]): rank, then ordinal, then
/// identifier, with unranked roles after every ranked role.
pub fn role_lt(a: &OrganizationRole, b: &OrganizationRole) -> (r: bool)
    ensures
        r == key_lt(*a, *b),
{
    let ka = rank_key_exec(a);
    let kb = rank_key_exec(b);
    if ka < kb {
        true
    } else if ka == kb && a.ordinal < b.ordinal {
        true
    } else {
        ka == kb && a.ordinal == b.ordinal && a.id < b.id
    }
}

/// The major sort key of a role as a machine integer (see [`rank_key`]).
fn rank_key_exec(r: &OrganizationRole) -> (k: i64)
    ensures
        k as int == rank_key(*r),
{
    match r.rank {
        Some(v) => v as i64,
        None => i32::MAX as i64 + 1,
    }
}

/// Whether `x` is strictly below `bound`, with no bound meaning yes.
fn role_below(x: &OrganizationRole, bound: Option<&OrganizationRole>) -> (r: bool)
    ensures
        r == below_ok(
            *x,
            match bound {
                None => None::<OrganizationRole>,
                Some(b) => Some(*b),
            },
        ),
{
    match bound {
        None => true,
        Some(b) => role_lt(x, b),
    }
}

/// Whether `x` is strictly above `lo`, with no bound meaning yes.
fn role_above(x: &OrganizationRole, lo: Option<&OrganizationRole>) -> (r: bool)
    ensures
        r == above_ok(
            *x,
            match lo {
                None => None::<OrganizationRole>,
                Some(b) => Some(*b),
            },
        ),
{
    match lo {
        None => true,
        Some(b) => role_lt(b, x),
    }
}

impl Store {
    /// Creates a role with a fresh identifier and ordinal zero; rejects only
    /// when the identifier space is exhausted.
    #[verifier::loop_isolation(false)]
    pub fn create_role(&mut self, new_role: &NewOrganizationRole) -> (r: Result<
        OrganizationRole,
        Error,
    >)
        requires
            old(self).wf(),
            old(self).roles@.len() < i32::MAX,
        ensures
            final(self).wf(),
            final(self).orgs@ == old(self).orgs@,
            final(self).reports@ == old(self).reports@,
            final(self).members@ == old(self).members@,
            match r {
                Ok(role) => {
                    &&& max_role_id(old(self).roles@) < i32::MAX
                    &&& role == fresh_role(old(self).roles@, *new_role)
                    &&& final(self).roles@ == old(self).roles@.push(role)
                },
                Err(e) => {
                    &&& e == Error::ValidationError(ValidationReason::IdSpaceExhausted)
                    &&& max_role_id(old(self).roles@) == i32::MAX
                    &&& *final(self) == *old(self)
                },
            },
    {
        let mut mx: i32 = 0;
        let mut i: usize = 0;
        while i < self.roles.len()
            invariant
                0 <= i <= self.roles@.len(),
                mx as int == max_role_id(self.roles@.take(i as int)),
                mx >= 0,
            decreases self.roles@.len() - i,
        {
            proof {
                assert(self.roles@.take(i + 1).drop_last() =~= self.roles@.take(i as int));
                assert(self.roles@.take(i + 1).last() == self.roles@[i as int]);
            }
            if self.roles[i].id > mx {
                mx = self.roles[i].id;
            }
            i = i + 1;
        }
        proof {
            assert(self.roles@.take(self.roles@.len() as int) =~= self.roles@);
        }
        if mx == i32::MAX {
            return Err(Error::ValidationError(ValidationReason::IdSpaceExhausted));
        }
        let role = OrganizationRole {
            id: mx + 1,
            organization_id: new_role.organization_id,
            user_id: new_role.user_id,
            rank: new_role.rank,
            role: new_role.role.clone(),
            ordinal: 0,
        };
        proof {
            assert forall|k: int| 0 <= k < self.roles@.len() implies
                self.roles@[k].id as int <= max_role_id(self.roles@) by {
                lemma_max_role_id_ge(self.roles@, k);
            }
        }
        let out = role.clone();
        self.roles.push(role);
        Ok(out)
    }

    /// Replaces the assignee, label, and rank of the role identified by
    /// `role_id` within `org`; `NotFound` if no such role exists.
    #[verifier::loop_isolation(false)]
    pub fn update_role(&mut self, role_id: i32, org: i32, patch: &UpdateOrganizationRole) -> (r:
        Result<OrganizationRole, Error>)
        requires
            old(self).wf(),
        ensures
            final(self).wf(),
            final(self).orgs@ == old(self).orgs@,
            final(self).reports@ == old(self).reports@,
            final(self).members@ == old(self).members@,
            match r {
                Ok(role) => exists|i: int|
                    {
                        &&& 0 <= i < old(self).roles@.len()
                        &&& old(self).roles@[i].id == role_id
                        &&& old(self).roles@[i].organization_id == org
                        &&& (forall|j: int|
                            0 <= j < i ==> !(old(self).roles@[j].id == role_id
                                && old(self).roles@[j].organization_id == org))
                        &&& role == apply_update(old(self).roles@[i], *patch)
                        &&& final(self).roles@ == old(self).roles@.update(i, role)
                    },
                Err(e) => {
                    &&& e == Error::NotFound
                    &&& (forall|i: int|
                        0 <= i < old(self).roles@.len()
                            ==> !(old(self).roles@[i].id == role_id
                                && #[trigger] old(self).roles@[i].organization_id == org))
                    &&& *final(self) == *old(self)
                },
            },
    {
        let mut i: usize = 0;
        while i < self.roles.len()
            invariant
                0 <= i <= self.roles@.len(),
                *self == *old(self),
                forall|j: int|
                    0 <= j < i ==> !(self.roles@[j].id == role_id
                        && #[trigger] self.roles@[j].organization_id == org),
            decreases self.roles@.len() - i,
        {
            if self.roles[i].id == role_id && self.roles[i].organization_id == org {
                let x = &self.roles[i];
                let updated = OrganizationRole {
                    id: x.id,
                    organization_id: x.organization_id,
                    user_id: patch.user_id,
                    rank: patch.rank,
                    role: patch.role.clone(),
                    ordinal: x.ordinal,
                };
                let out = updated.clone();
                self.roles.set(i, updated);
                proof {
                    assert(forall|a: int, b: int|
                        0 <= a < b < self.roles@.len() ==> self.roles@[a].id != self.roles@[b].id);
                }
                return Ok(out);
            }
            i = i + 1;
        }
        Err(Error::NotFound)
    }

    /// Whether `id` identifies a ranked role of `org`.
    #[verifier::loop_isolation(false)]
    fn has_ranked_role_id(&self, org: i32, id: i32) -> (r: bool)
        ensures
            r == is_ranked_role_id(self.roles@, org, id),
    {
        let mut i: usize = 0;
        while i < self.roles.len()
            invariant
                0 <= i <= self.roles@.len(),
                forall|j: int|
                    0 <= j < i ==> !(ranked_in(#[trigger] self.roles@[j], org)
                        && self.roles@[j].id == id),
            decreases self.roles@.len() - i,
        {
            if self.roles[i].organization_id == org && self.roles[i].rank.is_some()
                && self.roles[i].id == id {
                return true;
            }
            i = i + 1;
        }
        false
    }

    /// Whether the reorder request is acceptable (see [`valid_reorder`]).
    #[verifier::loop_isolation(false)]
    fn check_reorder(&self, org: i32, ids: &Vec<i32>) -> (r: bool)
        ensures
            r == valid_reorder(self.roles@, org, ids@),
    {
        let mut j: usize = 0;
        while j < ids.len()
            invariant
                0 <= j <= ids@.len(),
                forall|a: int, b: int| 0 <= a < b < j ==> ids@[a] != ids@[b],
                forall|b: int| 0 <= b < j ==> is_ranked_role_id(self.roles@, org, #[trigger] ids@[b]),
            decreases ids@.len() - j,
        {
            let mut a: usize = 0;
            while a < j
                invariant
                    0 <= a <= j < ids@.len(),
                    forall|b: int| 0 <= b < a ==> ids@[b] != ids@[j as int],
                decreases j - a,
            {
                if ids[a] == ids[j] {
                    return false;
                }
                a = a + 1;
            }
            if !self.has_ranked_role_id(org, ids[j]) {
                return false;
            }
            j = j + 1;
        }
        let mut i: usize = 0;
        while i < self.roles.len()
            invariant
                0 <= i <= self.roles@.len(),
                forall|k: int|
                    0 <= k < i && ranked_in(#[trigger] self.roles@[k], org)
                        ==> ids@.contains(self.roles@[k].id),
            decreases self.roles@.len() - i,
        {
            if self.roles[i].organization_id == org && self.roles[i].rank.is_some() {
                if !vec_contains_i32(ids, self.roles[i].id) {
                    return false;
                }
            }
            i = i + 1;
        }
        true
    }

    /// Atomically assigns ordinal positions to the ranked roles of `org` in
    /// the order given by `ids`; rejects the whole request, leaving the store
    /// unchanged, unless `ids` is exactly the set of ranked role identifiers
    /// of `org`.
    #[verifier::loop_isolation(false)]
    pub fn reorder_roles(&mut self, org: i32, ids: &Vec<i32>) -> (r: Result<(), Error>)
        requires
            old(self).wf(),
            ids@.len() <= i32::MAX,
        ensures
            final(self).wf(),
            final(self).orgs@ == old(self).orgs@,
            final(self).reports@ == old(self).reports@,
            final(self).members@ == old(self).members@,
            match r {
                Ok(()) => {
                    &&& valid_reorder(old(self).roles@, org, ids@)
                    &&& reorder_applied(old(self).roles@, final(self).roles@, org, ids@)
                },
                Err(e) => {
                    &&& e == Error::ValidationError(ValidationReason::MalformedReorderSet)
                    &&& !valid_reorder(old(self).roles@, org, ids@)
                    &&& *final(self) == *old(self)
                },
            },
    {
        if !self.check_reorder(org, ids) {
            return Err(Error::ValidationError(ValidationReason::MalformedReorderSet));
        }
        let ghost orig = self.roles@;
        let mut i: usize = 0;
        while i < self.roles.len()
            invariant
                0 <= i <= self.roles@.len(),
                self.roles@.len() == orig.len(),
                self.orgs@ == old(self).orgs@,
                self.reports@ == old(self).reports@,
                self.members@ == old(self).members@,
                valid_reorder(orig, org, ids@),
                forall|k: int| i <= k < orig.len() ==> self.roles@[k] == orig[k],
                forall|k: int|
                    0 <= k < i && !ranked_in(#[trigger] orig[k], org) ==> self.roles@[k] == orig[k],
                forall|k: int, j: int|
                    0 <= k < i && ranked_in(#[trigger] orig[k], org) && 0 <= j < ids@.len()
                        && #[trigger] ids@[j] == orig[k].id ==> self.roles@[k] == (OrganizationRole {
                        ordinal: j as i32,
                        ..orig[k]
                    }),
            decreases self.roles@.len() - i,
        {
            if self.roles[i].organization_id == org && self.roles[i].rank.is_some() {
                let pos = pos_of_id(ids, self.roles[i].id);
                match pos {
                    Some(p) => {
                        let x = &self.roles[i];
                        let updated = OrganizationRole {
                            id: x.id,
                            organization_id: x.organization_id,
                            user_id: x.user_id,
                            rank: x.rank,
                            role: x.role.clone(),
                            ordinal: p as i32,
                        };
                        self.roles.set(i, updated);
                        proof {
                            assert(forall|a: int, b: int| 0 <= a < b < ids@.len() ==> ids@[a] != ids@[b]);
                            assert forall|j: int|
                                0 <= j < ids@.len() && ids@[j] == orig[i as int].id implies j
                                == p as int by {}
                        }
                    },
                    None => {
                        proof {
                            assert(ranked_in(orig[i as int], org));
                            assert(ids@.contains(orig[i as int].id));
                        }
                    },
                }
            }
            i = i + 1;
        }
        proof {
            assert forall|k: int| 0 <= k < orig.len() implies self.roles@[k].id == orig[k].id by {
                if ranked_in(orig[k], org) {
                    assert(ids@.contains(orig[k].id));
                    let j = choose|j: int| 0 <= j < ids@.len() && ids@[j] == orig[k].id;
                    assert(self.roles@[k] == (OrganizationRole { ordinal: j as i32, ..orig[k] }));
                }
            }
            assert forall|a: int, b: int| 0 <= a < b < self.roles@.len() implies self.roles@[
                a].id != self.roles@[b].id by {
                assert(orig[a].id != orig[b].id);
            }
        }
        Ok(())
    }
}

/// Whether `v` contains `x`.
#[verifier::loop_isolation(false)]
pub fn vec_contains_i32(v: &Vec<i32>, x: i32) -> (r: bool)
    ensures
        r == v@.contains(x),
{
    let mut i: usize = 0;
    while i < v.len()
        invariant
            0 <= i <= v@.len(),
            forall|j: int| 0 <= j < i ==> v@[j] != x,
        decreases v@.len() - i,
    {
        if v[i] == x {
            return true;
        }
        i = i + 1;
    }
    false
}

/// The first position of `x` in `v`, if any.
#[verifier::loop_isolation(false)]
pub fn pos_of_id(v: &Vec<i32>, x: i32) -> (r: Option<usize>)
    ensures
        match r {
            Some(p) => p < v@.len() && v@[p as int] == x,
            None => !v@.contains(x),
        },
{
    let mut i: usize = 0;
    while i < v.len()
        invariant
            0 <= i <= v@.len(),
            forall|j: int| 0 <= j < i ==> v@[j] != x,
        decreases v@.len() - i,
    {
        if v[i] == x {
            return Some(i);
        }
        i = i + 1;
    }
    None
}

} // verus!
