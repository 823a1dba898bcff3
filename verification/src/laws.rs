//! Laws of the engine, stated and proved over the specification model:
//! the shape and ordering of resolved chains of command, idempotence of
//! membership addition, the acknowledgment authorization discipline, the
//! duplicate-assignee rejection rule, and rank-scoped report visibility.

use vstd::prelude::*;

use crate::authz::ack_decision;
use crate::authz::create_decision;
use crate::coc::ancestor_ids;
use crate::coc::coc_walk;
use crate::coc::cross_parent;
use crate::coc::parent_of;
use crate::coc::user_coc_spec;
use crate::coc::user_in_coc_at;
use crate::model::Organization;
use crate::model::OrganizationRole;
use crate::model::OrganizationUser;
use crate::model::Report;
use crate::model::Error;
use crate::model::RoleRankScope;
use crate::model::ValidationReason;
use crate::orgs::add_member;
use crate::orgs::member_count;
use crate::orgs::member_present;
use crate::orgs::org_by_id;
use crate::reports::report_by_id;
use crate::reports::reports_of_org_up_to_rank;
use crate::reports::unacked;
use crate::roles::below_ok;
use crate::roles::eligible;
use crate::roles::in_scope;
use crate::roles::key_lt;
use crate::roles::max_eligible_below;
use crate::roles::min_scoped_above;
use crate::roles::rank_key;
use crate::roles::role_by_id;
use crate::roles::user_ranked_role;

verus! {

/// A found maximum is an eligible role of the organization, lies strictly
/// below the bound, and occurs in the ledger.
pub proof fn lemma_max_eligible_below_props(
    roles: Seq<OrganizationRole>,
    org: i32,
    max_rank: int,
    bound: Option<OrganizationRole>,
)
    ensures
        match max_eligible_below(roles, org, max_rank, bound) {
            Some(x) => eligible(x, org, max_rank) && below_ok(x, bound) && roles.contains(x),
            None => true,
        },
    decreases roles.len(),
{
    if roles.len() > 0 {
        lemma_max_eligible_below_props(roles.drop_last(), org, max_rank, bound);
        match max_eligible_below(roles.drop_last(), org, max_rank, bound) {
            Some(p) => {
                let j = choose|j: int|
                    0 <= j < roles.drop_last().len() && roles.drop_last()[j] == p;
                assert(roles[j] == p);
            },
            None => {},
        }
        assert(roles[roles.len() - 1] == roles.last());
    }
}

/// A found minimum is a role of the organization in scope and occurs in the
/// ledger.
pub proof fn lemma_min_scoped_above_props(
    roles: Seq<OrganizationRole>,
    org: i32,
    scope: RoleRankScope,
    lo: Option<OrganizationRole>,
)
    ensures
        match min_scoped_above(roles, org, scope, lo) {
            Some(x) => in_scope(x, org, scope) && crate::roles::above_ok(x, lo)
                && roles.contains(x),
            None => true,
        },
    decreases roles.len(),
{
    if roles.len() > 0 {
        lemma_min_scoped_above_props(roles.drop_last(), org, scope, lo);
        match min_scoped_above(roles.drop_last(), org, scope, lo) {
            Some(p) => {
                let j = choose|j: int|
                    0 <= j < roles.drop_last().len() && roles.drop_last()[j] == p;
                assert(roles[j] == p);
            },
            None => {},
        }
        assert(roles[roles.len() - 1] == roles.last());
    }
}

/// A role found for a user is ranked, belongs to the organization, is held
/// by the user, and occurs in the ledger.
pub proof fn lemma_user_ranked_role_props(roles: Seq<OrganizationRole>, org: i32, user: i32)
    ensures
        match user_ranked_role(roles, org, user) {
            Some(x) => x.organization_id == org && x.rank is Some && x.user_id == Some(user)
                && roles.contains(x),
            None => true,
        },
    decreases roles.len(),
{
    if roles.len() > 0 {
        lemma_user_ranked_role_props(roles.drop_first(), org, user);
        match user_ranked_role(roles.drop_first(), org, user) {
            Some(p) => {
                if roles.first().organization_id == org && roles.first().rank is Some
                    && roles.first().user_id == Some(user) {
                } else {
                    let j = choose|j: int|
                        0 <= j < roles.drop_first().len() && roles.drop_first()[j] == p;
                    assert(roles[j + 1] == p);
                }
            },
            None => {},
        }
        assert(roles[0] == roles.first());
    }
}

/// If any role qualifies, the minimum search finds one.
proof fn lemma_min_scoped_above_some(
    roles: Seq<OrganizationRole>,
    org: i32,
    scope: RoleRankScope,
    lo: Option<OrganizationRole>,
    x: OrganizationRole,
)
    requires
        roles.contains(x),
        in_scope(x, org, scope),
        crate::roles::above_ok(x, lo),
    ensures
        min_scoped_above(roles, org, scope, lo) is Some,
    decreases roles.len(),
{
    let i = choose|i: int| 0 <= i < roles.len() && roles[i] == x;
    if i < roles.len() - 1 {
        assert(roles.drop_last()[i] == x);
        lemma_min_scoped_above_some(roles.drop_last(), org, scope, lo, x);
    }
}

/// The found minimum lies at or below every qualifying role.
proof fn lemma_min_scoped_above_minimal(
    roles: Seq<OrganizationRole>,
    org: i32,
    scope: RoleRankScope,
    lo: Option<OrganizationRole>,
)
    ensures
        match min_scoped_above(roles, org, scope, lo) {
            Some(m) => forall|i: int|
                0 <= i < roles.len() && in_scope(#[trigger] roles[i], org, scope)
                    && crate::roles::above_ok(roles[i], lo) ==> !key_lt(roles[i], m),
            None => true,
        },
    decreases roles.len(),
{
    if roles.len() > 0 {
        lemma_min_scoped_above_minimal(roles.drop_last(), org, scope, lo);
        match min_scoped_above(roles, org, scope, lo) {
            None => {},
            Some(m) => {
                assert forall|i: int|
                    0 <= i < roles.len() && in_scope(#[trigger] roles[i], org, scope)
                        && crate::roles::above_ok(roles[i], lo) implies !key_lt(roles[i], m) by {
                    if i < roles.len() - 1 {
                        assert(roles.drop_last()[i] == roles[i]);
                        if min_scoped_above(roles.drop_last(), org, scope, lo) is None {
                            lemma_min_scoped_above_some(
                                roles.drop_last(),
                                org,
                                scope,
                                lo,
                                roles[i],
                            );
                        }
                    }
                }
            },
        }
    }
}

/// How many roles of `org` in `scope` lie strictly above `lo`.
pub open spec fn count_scoped_above(
    roles: Seq<OrganizationRole>,
    org: i32,
    scope: RoleRankScope,
    lo: Option<OrganizationRole>,
) -> nat
    decreases roles.len(),
{
    if roles.len() == 0 {
        0nat
    } else {
        count_scoped_above(roles.drop_last(), org, scope, lo) + if in_scope(
            roles.last(),
            org,
            scope,
        ) && crate::roles::above_ok(roles.last(), lo) {
            1nat
        } else {
            0nat
        }
    }
}

/// The count never exceeds the ledger's size.
proof fn lemma_count_scoped_above_len(
    roles: Seq<OrganizationRole>,
    org: i32,
    scope: RoleRankScope,
    lo: Option<OrganizationRole>,
)
    ensures
        count_scoped_above(roles, org, scope, lo) <= roles.len(),
    decreases roles.len(),
{
    if roles.len() > 0 {
        lemma_count_scoped_above_len(roles.drop_last(), org, scope, lo);
    }
}

/// Raising the lower bound to a qualifying role never lets the count grow.
proof fn lemma_count_scoped_above_le(
    roles: Seq<OrganizationRole>,
    org: i32,
    scope: RoleRankScope,
    m: OrganizationRole,
    lo: Option<OrganizationRole>,
)
    requires
        crate::roles::above_ok(m, lo),
    ensures
        count_scoped_above(roles, org, scope, Some(m)) <= count_scoped_above(
            roles,
            org,
            scope,
            lo,
        ),
    decreases roles.len(),
{
    if roles.len() > 0 {
        lemma_count_scoped_above_le(roles.drop_last(), org, scope, m, lo);
    }
}

/// Raising the lower bound to a qualifying role of the ledger strictly
/// shrinks the count: the role itself no longer qualifies.
proof fn lemma_count_scoped_above_strict(
    roles: Seq<OrganizationRole>,
    org: i32,
    scope: RoleRankScope,
    m: OrganizationRole,
    lo: Option<OrganizationRole>,
    k: int,
)
    requires
        0 <= k < roles.len(),
        roles[k] == m,
        in_scope(m, org, scope),
        crate::roles::above_ok(m, lo),
    ensures
        count_scoped_above(roles, org, scope, Some(m)) < count_scoped_above(roles, org, scope, lo),
    decreases roles.len(),
{
    if k == roles.len() - 1 {
        lemma_count_scoped_above_le(roles.drop_last(), org, scope, m, lo);
    } else {
        assert(roles.drop_last()[k] == roles[k]);
        lemma_count_scoped_above_strict(roles.drop_last(), org, scope, m, lo, k);
    }
}

/// Completeness of the enumeration: with fuel covering the count, every
/// qualifying role appears in the ascending listing.
proof fn lemma_asc_roles_complete_above(
    roles: Seq<OrganizationRole>,
    org: i32,
    scope: RoleRankScope,
    lo: Option<OrganizationRole>,
    fuel: nat,
    x: OrganizationRole,
)
    requires
        forall|i: int, j: int| 0 <= i < j < roles.len() ==> roles[i].id != roles[j].id,
        roles.contains(x),
        in_scope(x, org, scope),
        crate::roles::above_ok(x, lo),
        fuel >= count_scoped_above(roles, org, scope, lo),
    ensures
        crate::roles::asc_roles(roles, org, scope, lo, fuel).contains(x),
    decreases fuel,
{
    lemma_min_scoped_above_some(roles, org, scope, lo, x);
    let m = match min_scoped_above(roles, org, scope, lo) {
        Some(m) => m,
        None => x,
    };
    lemma_min_scoped_above_props(roles, org, scope, lo);
    lemma_min_scoped_above_minimal(roles, org, scope, lo);
    let xi = choose|i: int| 0 <= i < roles.len() && roles[i] == x;
    let mi = choose|i: int| 0 <= i < roles.len() && roles[i] == m;
    lemma_count_scoped_above_strict(roles, org, scope, m, lo, mi);
    assert(count_scoped_above(roles, org, scope, lo) >= 1);
    let asc = crate::roles::asc_roles(roles, org, scope, lo, fuel);
    assert(asc =~= seq![m] + crate::roles::asc_roles(roles, org, scope, Some(m), (fuel - 1) as nat));
    if x == m {
        assert(asc[0] == x);
    } else {
        assert(!key_lt(x, m));
        if xi != mi {
            assert(roles[xi].id != roles[mi].id);
        }
        assert(key_lt(m, x));
        lemma_asc_roles_complete_above(roles, org, scope, Some(m), (fuel - 1) as nat, x);
        let tail = crate::roles::asc_roles(roles, org, scope, Some(m), (fuel - 1) as nat);
        let j = choose|j: int| 0 <= j < tail.len() && tail[j] == x;
        assert(asc[j + 1] == x);
    }
}

/// The role listing of an organization is sound, complete, and strictly
/// ordered: it holds exactly the roles of the organization selected by the
/// scope, each exactly the ledger's role, in strictly ascending role order —
/// rank first, ties by ordinal, then identifier.
pub proof fn lemma_org_roles_listing(
    roles: Seq<OrganizationRole>,
    org: i32,
    scope: RoleRankScope,
)
    requires
        forall|i: int, j: int| 0 <= i < j < roles.len() ==> roles[i].id != roles[j].id,
    ensures
        ({
            let listing = crate::roles::asc_roles(
                roles,
                org,
                scope,
                None::<OrganizationRole>,
                roles.len(),
            );
            &&& (forall|i: int|
                0 <= i < listing.len() ==> roles.contains(#[trigger] listing[i]) && in_scope(
                    listing[i],
                    org,
                    scope,
                ))
            &&& (forall|i: int|
                0 <= i < roles.len() && in_scope(#[trigger] roles[i], org, scope)
                    ==> listing.contains(roles[i]))
            &&& (forall|i: int| 0 <= i < listing.len() - 1 ==> key_lt(#[trigger] listing[i], listing[i + 1]))
        }),
{
    lemma_count_scoped_above_len(roles, org, scope, None);
    assert forall|i: int|
        0 <= i < roles.len() && in_scope(#[trigger] roles[i], org, scope) implies crate::roles::asc_roles(
        roles,
        org,
        scope,
        None::<OrganizationRole>,
        roles.len(),
    ).contains(roles[i]) by {
        lemma_asc_roles_complete_above(roles, org, scope, None, roles.len(), roles[i]);
    }
    lemma_asc_roles_sound(roles, org, scope, None, roles.len());
}

/// Soundness and ordering of the enumeration: every listed role is a role of
/// the organization in scope, and the listing strictly ascends.
proof fn lemma_asc_roles_sound(
    roles: Seq<OrganizationRole>,
    org: i32,
    scope: RoleRankScope,
    lo: Option<OrganizationRole>,
    fuel: nat,
)
    ensures
        ({
            let listing = crate::roles::asc_roles(roles, org, scope, lo, fuel);
            &&& (forall|i: int|
                0 <= i < listing.len() ==> roles.contains(#[trigger] listing[i]) && in_scope(
                    listing[i],
                    org,
                    scope,
                ) && crate::roles::above_ok(listing[i], lo))
            &&& (forall|i: int| 0 <= i < listing.len() - 1 ==> key_lt(#[trigger] listing[i], listing[i + 1]))
        }),
    decreases fuel,
{
    let listing = crate::roles::asc_roles(roles, org, scope, lo, fuel);
    lemma_min_scoped_above_props(roles, org, scope, lo);
    match min_scoped_above(roles, org, scope, lo) {
        None => {},
        Some(m) => {
            if fuel > 0 {
                lemma_asc_roles_sound(roles, org, scope, Some(m), (fuel - 1) as nat);
                let tail = crate::roles::asc_roles(roles, org, scope, Some(m), (fuel - 1) as nat);
                assert(listing =~= seq![m] + tail);
                assert forall|i: int| 0 <= i < listing.len() - 1 implies key_lt(
                    #[trigger] listing[i],
                    listing[i + 1],
                ) by {
                    if i == 0 {
                        assert(listing[1] == tail[0]);
                        assert(crate::roles::above_ok(tail[0], Some(m)));
                    } else {
                        assert(listing[i] == tail[i - 1] && listing[i + 1] == tail[i]);
                    }
                }
                assert forall|i: int|
                    0 <= i < listing.len() implies roles.contains(#[trigger] listing[i])
                    && in_scope(listing[i], org, scope) && crate::roles::above_ok(
                    listing[i],
                    lo,
                ) by {
                    if i > 0 {
                        assert(listing[i] == tail[i - 1]);
                    }
                }
            }
        },
    }
}

/// Whether no two ranked roles of `org` share a rank.
pub open spec fn distinct_ranks(roles: Seq<OrganizationRole>, org: i32) -> bool {
    forall|i: int, j: int|
        0 <= i < j < roles.len() && crate::roles::ranked_in(#[trigger] roles[i], org)
            && crate::roles::ranked_in(#[trigger] roles[j], org) ==> roles[i].rank != roles[j].rank
}

/// The shape of a resolved chain: it starts at the starting role, every
/// later entry is the resolved parent of the one before it, and the last
/// entry has no parent — so a role with N resolvable ancestors yields a
/// chain of exactly N + 1 roles.
pub proof fn lemma_coc_walk_shape(
    orgs: Seq<Organization>,
    roles: Seq<OrganizationRole>,
    role: OrganizationRole,
    max_rank: int,
    fuel: nat,
)
    requires
        coc_walk(orgs, roles, role, max_rank, fuel) is Ok,
    ensures
        ({
            let chain = coc_walk(orgs, roles, role, max_rank, fuel)->Ok_0;
            &&& chain.len() >= 1
            &&& chain[0] == role
            &&& (forall|i: int|
                0 <= i < chain.len() - 1 ==> parent_of(orgs, roles, #[trigger] chain[i], max_rank, false)
                    == Ok::<Option<OrganizationRole>, Error>(Some(chain[i + 1])))
            &&& parent_of(orgs, roles, chain.last(), max_rank, false) == Ok::<
                Option<OrganizationRole>,
                Error,
            >(None)
        }),
    decreases fuel,
{
    let chain = coc_walk(orgs, roles, role, max_rank, fuel)->Ok_0;
    match parent_of(orgs, roles, role, max_rank, false) {
        Err(_) => {},
        Ok(None) => {
            assert(chain =~= seq![role]);
        },
        Ok(Some(p)) => {
            lemma_coc_walk_shape(orgs, roles, p, max_rank, (fuel - 1) as nat);
            let tail = coc_walk(orgs, roles, p, max_rank, (fuel - 1) as nat)->Ok_0;
            assert(chain =~= seq![role] + tail);
            assert(chain.last() == tail.last());
            assert forall|i: int| 0 <= i < chain.len() - 1 implies parent_of(
                orgs,
                roles,
                #[trigger] chain[i],
                max_rank,
                false,
            ) == Ok::<Option<OrganizationRole>, Error>(Some(chain[i + 1])) by {
                if i == 0 {
                    assert(chain[0] == role && chain[1] == tail[0] && tail[0] == p);
                } else {
                    assert(chain[i] == tail[i - 1] && chain[i + 1] == tail[i]);
                }
            }
        },
    }
}

/// A chain resolved inside a root organization stays in that organization
/// and strictly descends in the role order — so its ranks never increase,
/// and where the organization's ranks are duplicate-free they strictly
/// decrease, each subsequent role holding strictly higher authority.
pub proof fn lemma_coc_walk_root_org(
    orgs: Seq<Organization>,
    roles: Seq<OrganizationRole>,
    role: OrganizationRole,
    max_rank: int,
    fuel: nat,
)
    requires
        coc_walk(orgs, roles, role, max_rank, fuel) is Ok,
        match org_by_id(orgs, role.organization_id) {
            Some(o) => o.parent_id is None,
            None => false,
        },
    ensures
        ({
            let chain = coc_walk(orgs, roles, role, max_rank, fuel)->Ok_0;
            &&& (forall|i: int|
                0 <= i < chain.len() ==> (#[trigger] chain[i]).organization_id
                    == role.organization_id)
            &&& (forall|i: int|
                1 <= i < chain.len() ==> roles.contains(#[trigger] chain[i]) && eligible(
                    chain[i],
                    role.organization_id,
                    max_rank,
                ))
            &&& (forall|i: int| 0 <= i < chain.len() - 1 ==> key_lt(chain[i + 1], #[trigger] chain[i]))
        }),
    decreases fuel,
{
    let org = role.organization_id;
    let chain = coc_walk(orgs, roles, role, max_rank, fuel)->Ok_0;
    lemma_max_eligible_below_props(roles, org, max_rank, Some(role));
    match max_eligible_below(roles, org, max_rank, Some(role)) {
        None => {
            assert(cross_parent(orgs, roles, org_by_id(orgs, org)->Some_0, max_rank, orgs.len())
                == Ok::<Option<OrganizationRole>, Error>(None));
            assert(chain =~= seq![role]);
        },
        Some(p) => {
            lemma_coc_walk_root_org(orgs, roles, p, max_rank, (fuel - 1) as nat);
            let tail = coc_walk(orgs, roles, p, max_rank, (fuel - 1) as nat)->Ok_0;
            assert(chain =~= seq![role] + tail);
            assert forall|i: int| 0 <= i < chain.len() - 1 implies key_lt(
                chain[i + 1],
                #[trigger] chain[i],
            ) by {
                if i == 0 {
                    assert(chain[0] == role && chain[1] == tail[0] && tail[0] == p);
                } else {
                    assert(chain[i] == tail[i - 1] && chain[i + 1] == tail[i]);
                }
            }
        },
    }
}

/// The chain `find_user_coc` resolves for a user of a root organization with
/// duplicate-free ranks is ordered by strictly increasing authority: each
/// subsequent role's rank is numerically smaller than the one before it.
pub proof fn lemma_user_coc_strictly_ordered(
    orgs: Seq<Organization>,
    roles: Seq<OrganizationRole>,
    org_id: i32,
    user: i32,
)
    requires
        user_coc_spec(orgs, roles, org_id, user) is Ok,
        match org_by_id(orgs, org_id) {
            Some(o) => o.parent_id is None,
            None => false,
        },
        distinct_ranks(roles, org_id),
    ensures
        ({
            let chain = user_coc_spec(orgs, roles, org_id, user)->Ok_0;
            &&& (forall|i: int|
                0 <= i < chain.len() ==> (#[trigger] chain[i]).organization_id == org_id)
            &&& (forall|i: int|
                0 <= i < chain.len() - 1 ==> rank_key(chain[i + 1]) < rank_key(#[trigger] chain[i]))
        }),
{
    let chain = user_coc_spec(orgs, roles, org_id, user)->Ok_0;
    let start = match user_ranked_role(roles, org_id, user) {
        Some(r) => Some(r),
        None => min_scoped_above(roles, org_id, RoleRankScope::RankedOnly, None),
    };
    lemma_user_ranked_role_props(roles, org_id, user);
    lemma_min_scoped_above_props(roles, org_id, RoleRankScope::RankedOnly, None);
    match start {
        None => {},
        Some(s) => {
            lemma_coc_walk_root_org(orgs, roles, s, i32::MAX as int, roles.len());
            assert(roles.contains(s));
            assert forall|i: int| 0 <= i < chain.len() - 1 implies rank_key(chain[i + 1])
                < rank_key(#[trigger] chain[i]) by {
                assert(key_lt(chain[i + 1], chain[i]));
                assert(roles.contains(chain[i]) && roles.contains(chain[i + 1]));
                let a = choose|a: int| 0 <= a < roles.len() && roles[a] == chain[i];
                let b = choose|b: int| 0 <= b < roles.len() && roles[b] == chain[i + 1];
                assert(crate::roles::ranked_in(roles[a], org_id));
                assert(crate::roles::ranked_in(roles[b], org_id));
                if a != b {
                    assert(roles[a].rank != roles[b].rank);
                }
            }
        },
    }
}

/// Adding a membership pair twice is the same as adding it once, both adds
/// report success, and over a duplicate-free membership table exactly one
/// record of the pair remains.
pub proof fn lemma_membership_idempotent(members: Seq<OrganizationUser>, org: i32, user: i32)
    ensures
        add_member(add_member(members, org, user), org, user) == add_member(members, org, user),
        member_present(add_member(members, org, user), org, user),
        (forall|i: int, j: int|
            0 <= i < j < members.len() ==> !((#[trigger] members[i]).organization_id == (
            #[trigger] members[j]).organization_id && members[i].user_id == members[j].user_id))
            ==> member_count(add_member(members, org, user), org, user) == 1,
{
    let pair = OrganizationUser { organization_id: org, user_id: user };
    if !member_present(members, org, user) {
        let m2 = members.push(pair);
        assert(m2[members.len() as int] == pair);
        assert(member_present(m2, org, user));
    }
    if (forall|i: int, j: int|
        0 <= i < j < members.len() ==> !((#[trigger] members[i]).organization_id == (
        #[trigger] members[j]).organization_id && members[i].user_id == members[j].user_id)) {
        lemma_member_count_zero(members, org, user);
        if member_present(members, org, user) {
            lemma_member_count_distinct(members, org, user);
        } else {
            let m2 = members.push(pair);
            assert(m2.drop_last() =~= members);
            assert(m2.last() == pair);
            assert(member_count(m2, org, user) == member_count(members, org, user) + 1);
        }
    }
}

/// A pair is absent exactly when it is counted zero times.
proof fn lemma_member_count_zero(members: Seq<OrganizationUser>, org: i32, user: i32)
    ensures
        (member_count(members, org, user) == 0) == !member_present(members, org, user),
    decreases members.len(),
{
    if members.len() > 0 {
        lemma_member_count_zero(members.drop_last(), org, user);
        let x = members.last();
        if x.organization_id == org && x.user_id == user {
            assert(members[members.len() - 1] == x);
            assert(member_present(members, org, user));
        } else {
            if member_present(members, org, user) {
                let j = choose|j: int|
                    0 <= j < members.len() && (#[trigger] members[j]).organization_id == org
                        && members[j].user_id == user;
                assert(j < members.len() - 1);
                assert(members.drop_last()[j] == members[j]);
                assert(member_present(members.drop_last(), org, user));
            }
            if member_present(members.drop_last(), org, user) {
                let j = choose|j: int|
                    0 <= j < members.drop_last().len() && (#[trigger] members.drop_last()[
                    j]).organization_id == org && members.drop_last()[j].user_id == user;
                assert(members[j] == members.drop_last()[j]);
                assert(member_present(members, org, user));
            }
        }
    }
}

/// Over a duplicate-free membership table a pair is counted at most once.
proof fn lemma_member_count_distinct(members: Seq<OrganizationUser>, org: i32, user: i32)
    requires
        forall|i: int, j: int|
            0 <= i < j < members.len() ==> !((#[trigger] members[i]).organization_id == (
            #[trigger] members[j]).organization_id && members[i].user_id == members[j].user_id),
    ensures
        member_count(members, org, user) <= 1,
    decreases members.len(),
{
    if members.len() > 0 {
        assert forall|i: int, j: int| 0 <= i < j < members.drop_last().len() implies !((
        #[trigger] members.drop_last()[i]).organization_id == (#[trigger] members.drop_last()[
        j]).organization_id && members.drop_last()[i].user_id == members.drop_last()[
        j].user_id) by {
            assert(members.drop_last()[i] == members[i]);
            assert(members.drop_last()[j] == members[j]);
        }
        lemma_member_count_distinct(members.drop_last(), org, user);
        let x = members.last();
        if x.organization_id == org && x.user_id == user {
            if member_present(members.drop_last(), org, user) {
                let j = choose|j: int|
                    0 <= j < members.drop_last().len() && (#[trigger] members.drop_last()[
                    j]).organization_id == org && members.drop_last()[j].user_id == user;
                assert(members[j] == members.drop_last()[j]);
                assert(members[members.len() - 1] == x);
                assert(false);
            }
            lemma_member_count_zero(members.drop_last(), org, user);
        }
    }
}

/// If some ranked role of `org` is held by `user`, the first-match search
/// finds one.
proof fn lemma_user_ranked_role_some(roles: Seq<OrganizationRole>, org: i32, user: i32, k: int)
    requires
        0 <= k < roles.len(),
        roles[k].organization_id == org,
        roles[k].rank is Some,
        roles[k].user_id == Some(user),
    ensures
        user_ranked_role(roles, org, user) is Some,
    decreases roles.len(),
{
    if !(roles.first().organization_id == org && roles.first().rank is Some
        && roles.first().user_id == Some(user)) {
        assert(roles.drop_first()[k - 1] == roles[k]);
        lemma_user_ranked_role_some(roles.drop_first(), org, user, k - 1);
    }
}

/// The nearest-role walk agrees with the ancestor list: wherever the
/// ancestors resolve, the walk resolves too, finds a ranked role of the user
/// inside an ancestor organization, and finds none exactly when the user
/// holds none there.
proof fn lemma_role_walk_vs_ancestors(
    orgs: Seq<Organization>,
    roles: Seq<OrganizationRole>,
    o: Organization,
    user: i32,
    fuel: nat,
)
    requires
        ancestor_ids(orgs, o, fuel) is Ok,
    ensures
        crate::coc::role_in_coc_at(orgs, roles, o, user, fuel) is Ok,
        ({
            let ids = ancestor_ids(orgs, o, fuel)->Ok_0;
            match crate::coc::role_in_coc_at(orgs, roles, o, user, fuel)->Ok_0 {
                Some(r) => r.rank is Some && r.user_id == Some(user) && roles.contains(r)
                    && ids.contains(r.organization_id),
                None => forall|i: int|
                    0 <= i < roles.len() && (#[trigger] roles[i]).rank is Some && roles[i].user_id
                        == Some(user) ==> !ids.contains(roles[i].organization_id),
            }
        }),
    decreases fuel,
{
    let ids = ancestor_ids(orgs, o, fuel)->Ok_0;
    lemma_user_ranked_role_props(roles, o.id, user);
    match user_ranked_role(roles, o.id, user) {
        Some(r) => {
            assert(ids[0] == o.id);
        },
        None => {
            match o.parent_id {
                None => {
                    assert(ids =~= seq![o.id]);
                    assert forall|i: int|
                        0 <= i < roles.len() && (#[trigger] roles[i]).rank is Some && roles[
                    i].user_id == Some(user) implies !ids.contains(roles[i].organization_id) by {
                        if ids.contains(roles[i].organization_id) {
                            assert(roles[i].organization_id == o.id);
                            lemma_user_ranked_role_some(roles, o.id, user, i);
                        }
                    }
                },
                Some(p) => {
                    let po = org_by_id(orgs, p)->Some_0;
                    lemma_role_walk_vs_ancestors(orgs, roles, po, user, (fuel - 1) as nat);
                    let tail = ancestor_ids(orgs, po, (fuel - 1) as nat)->Ok_0;
                    assert(ids =~= seq![o.id] + tail);
                    match crate::coc::role_in_coc_at(orgs, roles, po, user, (fuel - 1) as nat)->Ok_0 {
                        Some(r) => {
                            let j = choose|j: int| 0 <= j < tail.len() && tail[j] == r.organization_id;
                            assert(ids[j + 1] == r.organization_id);
                        },
                        None => {
                            assert forall|i: int|
                                0 <= i < roles.len() && (#[trigger] roles[i]).rank is Some
                                    && roles[i].user_id == Some(user) implies !ids.contains(
                                roles[i].organization_id,
                            ) by {
                                if ids.contains(roles[i].organization_id) {
                                    let j = choose|j: int|
                                        0 <= j < ids.len() && ids[j] == roles[i].organization_id;
                                    if j == 0 {
                                        lemma_user_ranked_role_some(roles, o.id, user, i);
                                    } else {
                                        assert(tail[j - 1] == roles[i].organization_id);
                                        assert(tail.contains(roles[i].organization_id));
                                    }
                                }
                            }
                        },
                    }
                },
            }
        },
    }
}

/// The two membership answers of the resolver agree: the user holds a role
/// somewhere in the organization's chain of command exactly when the
/// nearest-role search finds one.
pub proof fn lemma_coc_membership_consistent(
    orgs: Seq<Organization>,
    roles: Seq<OrganizationRole>,
    o: Organization,
    user: i32,
)
    requires
        ancestor_ids(orgs, o, orgs.len()) is Ok,
    ensures
        crate::coc::role_in_coc_at(orgs, roles, o, user, orgs.len()) is Ok,
        user_in_coc_at(orgs, roles, o, user) is Ok,
        (crate::coc::role_in_coc_at(orgs, roles, o, user, orgs.len())->Ok_0 is Some)
            == user_in_coc_at(orgs, roles, o, user)->Ok_0,
{
    lemma_role_walk_vs_ancestors(orgs, roles, o, user, orgs.len());
    let ids = ancestor_ids(orgs, o, orgs.len())->Ok_0;
    match crate::coc::role_in_coc_at(orgs, roles, o, user, orgs.len())->Ok_0 {
        Some(r) => {
            assert(user_in_coc_at(orgs, roles, o, user)->Ok_0) by {
                let j = choose|j: int| 0 <= j < roles.len() && roles[j] == r;
            };
        },
        None => {},
    }
}

/// An acknowledgment by anyone but the holder of the submitting role's
/// direct parent is denied as an authentication error.
pub proof fn lemma_ack_wrong_user(
    orgs: Seq<Organization>,
    roles: Seq<OrganizationRole>,
    reports: Seq<Report>,
    report_id: i32,
    user: i32,
    now: i64,
)
    requires
        match report_by_id(reports, report_id) {
            Some(rep) => match role_by_id(roles, rep.role_id) {
                Some(subr) => match parent_of(orgs, roles, subr, i32::MAX as int, false) {
                    Ok(Some(par)) => par.user_id != Some(user),
                    _ => false,
                },
                None => false,
            },
            None => false,
        },
    ensures
        ack_decision(orgs, roles, reports, report_id, user, now) == Err::<Report, Error>(
            Error::AuthenticationError,
        ),
{
}

/// An acknowledgment by the holder of the direct parent role of a still
/// unacknowledged report succeeds and sets the acknowledging user and a
/// date together.
pub proof fn lemma_ack_success(
    orgs: Seq<Organization>,
    roles: Seq<OrganizationRole>,
    reports: Seq<Report>,
    report_id: i32,
    user: i32,
    now: i64,
)
    requires
        match report_by_id(reports, report_id) {
            Some(rep) => unacked(rep) && match role_by_id(roles, rep.role_id) {
                Some(subr) => match parent_of(orgs, roles, subr, i32::MAX as int, false) {
                    Ok(Some(par)) => par.user_id == Some(user),
                    _ => false,
                },
                None => false,
            },
            None => false,
        },
    ensures
        ack_decision(orgs, roles, reports, report_id, user, now) is Ok,
        ({
            let acked = ack_decision(orgs, roles, reports, report_id, user, now)->Ok_0;
            acked.ack_user_id == Some(user) && acked.ack_date == Some(now)
        }),
{
}

/// Acknowledgment is terminal: a second attempt on an acknowledged report
/// fails, whoever makes it.
pub proof fn lemma_ack_terminal(
    orgs: Seq<Organization>,
    roles: Seq<OrganizationRole>,
    reports: Seq<Report>,
    report_id: i32,
    user: i32,
    now: i64,
)
    requires
        match report_by_id(reports, report_id) {
            Some(rep) => !unacked(rep),
            None => true,
        },
    ensures
        ack_decision(orgs, roles, reports, report_id, user, now) is Err,
{
}

/// Assigning a user already ranked somewhere in the target organization's
/// chain of command — in it or any ancestor — is rejected as a duplicate.
pub proof fn lemma_create_rejects_duplicate_coc(
    orgs: Seq<Organization>,
    roles: Seq<OrganizationRole>,
    org_id: i32,
    user: i32,
    k: int,
)
    requires
        match org_by_id(orgs, org_id) {
            Some(o) => ancestor_ids(orgs, o, orgs.len()) is Ok,
            None => false,
        },
        0 <= k < roles.len(),
        roles[k].rank is Some,
        roles[k].user_id == Some(user),
        match org_by_id(orgs, org_id) {
            Some(o) => ancestor_ids(orgs, o, orgs.len())->Ok_0.contains(
                roles[k].organization_id,
            ),
            None => false,
        },
    ensures
        create_decision(orgs, roles, org_id, Some(user)) == Err::<(), Error>(
            Error::ValidationError(ValidationReason::AssigneeAlreadyInCoc),
        ),
{
    let o = org_by_id(orgs, org_id)->Some_0;
    let ids = ancestor_ids(orgs, o, orgs.len())->Ok_0;
    assert((#[trigger] roles[k]).rank is Some && roles[k].user_id == Some(user) && ids.contains(
        roles[k].organization_id,
    ));
    assert(user_in_coc_at(orgs, roles, o, user) == Ok::<bool, Error>(true));
}

/// Assigning a user to an organization in whose chain of command the user
/// holds no ranked role is allowed.
pub proof fn lemma_create_allows_unrelated(
    orgs: Seq<Organization>,
    roles: Seq<OrganizationRole>,
    org_id: i32,
    user: i32,
)
    requires
        match org_by_id(orgs, org_id) {
            Some(o) => ancestor_ids(orgs, o, orgs.len()) is Ok,
            None => false,
        },
        forall|i: int|
            0 <= i < roles.len() && (#[trigger] roles[i]).rank is Some && roles[i].user_id
                == Some(user) ==> !(match org_by_id(orgs, org_id) {
                Some(o) => ancestor_ids(orgs, o, orgs.len())->Ok_0.contains(
                    roles[i].organization_id,
                ),
                None => true,
            }),
    ensures
        create_decision(orgs, roles, org_id, Some(user)) == Ok::<(), Error>(()),
{
    let o = org_by_id(orgs, org_id)->Some_0;
    assert(user_in_coc_at(orgs, roles, o, user) == Ok::<bool, Error>(false));
}

/// Rank-scoped visibility: every report listed at rank `rank` was submitted
/// by a role of the organization whose rank is numerically at least `rank` —
/// reports of strictly higher authority never appear.
pub proof fn lemma_scoped_reports_rank_bound(
    reports: Seq<Report>,
    roles: Seq<OrganizationRole>,
    org: i32,
    rank: i32,
)
    ensures
        ({
            let visible = reports_of_org_up_to_rank(reports, roles, org, rank);
            forall|i: int|
                0 <= i < visible.len() ==> (match role_by_id(
                    roles,
                    (#[trigger] visible[i]).role_id,
                ) {
                    Some(role) => role.organization_id == org && rank_key(role) >= rank,
                    None => false,
                })
        }),
    decreases reports.len(),
{
    if reports.len() > 0 {
        lemma_scoped_reports_rank_bound(reports.drop_last(), roles, org, rank);
    }
}

} // verus!
