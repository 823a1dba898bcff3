//! Tests of chain-of-command resolution, authorization decisions, and the
//! report lifecycle.

use titan_core::model::Error;
use titan_core::model::Organization;
use titan_core::model::OrganizationRole;
use titan_core::model::Store;
use titan_core::model::UpdateOrganizationRole;
use titan_core::model::ValidationReason;

fn org(id: i32, slug: &str, parent_id: Option<i32>) -> Organization {
    Organization { id, slug: slug.to_string(), name: slug.to_uppercase(), parent_id }
}

fn role(id: i32, org_id: i32, user_id: Option<i32>, rank: Option<i32>, ordinal: i32) -> OrganizationRole {
    OrganizationRole {
        id,
        organization_id: org_id,
        user_id,
        rank,
        role: format!("role-{}", id),
        ordinal,
    }
}

/// A root organization 1 with ranks 0..2, and a child organization 2 with
/// ranks 0..1. Users 10, 11, 12 hold the roles of organization 1 from the
/// top down; users 20, 21 those of organization 2.
fn two_level_store() -> Store {
    let mut store = Store::new();
    store.orgs.push(org(1, "command", None));
    store.orgs.push(org(2, "squad", Some(1)));
    store.roles.push(role(1, 1, Some(10), Some(0), 0));
    store.roles.push(role(2, 1, Some(11), Some(1), 0));
    store.roles.push(role(3, 1, Some(12), Some(2), 0));
    store.roles.push(role(4, 2, Some(20), Some(0), 0));
    store.roles.push(role(5, 2, Some(21), Some(1), 0));
    store
}

#[test]
fn parent_role_is_nearest_superior() {
    let store = two_level_store();
    // within the organization: rank 2 reports to rank 1
    let p = store.find_parent_role(3, false).unwrap().unwrap();
    assert_eq!(p.id, 2);
    // the top of the root organization has no parent
    assert!(store.find_parent_role(1, false).unwrap().is_none());
    // the top of the child crosses into the parent organization's lowest role
    let p = store.find_parent_role(4, false).unwrap().unwrap();
    assert_eq!(p.id, 3);
    // unless resolution is confined to the role's own organization
    assert!(store.find_parent_role(4, true).unwrap().is_none());
    assert_eq!(store.find_parent_role(99, false).unwrap_err(), Error::NotFound);
}

#[test]
fn user_coc_chain_is_ordered_by_increasing_authority() {
    let store = two_level_store();
    // user 12 in the root organization: rank 2 -> 1 -> 0
    let chain = store.find_user_coc(1, 12).unwrap();
    let ids: Vec<i32> = chain.roles.iter().map(|r| r.id).collect();
    assert_eq!(ids, vec![3, 2, 1]);
    let ranks: Vec<i32> = chain.roles.iter().map(|r| r.rank.unwrap()).collect();
    assert_eq!(ranks, vec![2, 1, 0]);

    // user 21 in the child: up through the child, then the whole root chain
    let chain = store.find_user_coc(2, 21).unwrap();
    let ids: Vec<i32> = chain.roles.iter().map(|r| r.id).collect();
    assert_eq!(ids, vec![5, 4, 3, 2, 1]);

    // a user without a role starts at the organization's top-ranked role
    let chain = store.find_user_coc(1, 99).unwrap();
    let ids: Vec<i32> = chain.roles.iter().map(|r| r.id).collect();
    assert_eq!(ids, vec![1]);

    assert_eq!(store.find_user_coc(9, 10).unwrap_err(), Error::NotFound);
}

#[test]
fn org_coc_respects_rank_bound() {
    let store = two_level_store();
    let chain = store.find_org_coc(1, i32::MAX).unwrap();
    let ids: Vec<i32> = chain.roles.iter().map(|r| r.id).collect();
    assert_eq!(ids, vec![3, 2, 1]);

    // bounded to rank <= 1: the chain starts at rank 1
    let chain = store.find_org_coc(1, 1).unwrap();
    let ids: Vec<i32> = chain.roles.iter().map(|r| r.id).collect();
    assert_eq!(ids, vec![2, 1]);
}

#[test]
fn coc_membership_spans_ancestors() {
    let store = two_level_store();
    // user 11 holds a role in the root, so it is in the child's chain too
    assert_eq!(store.is_user_in_coc(11, 2), Ok(true));
    assert_eq!(store.is_user_in_coc(21, 2), Ok(true));
    // but a child role is not in the root's chain
    assert_eq!(store.is_user_in_coc(21, 1), Ok(false));
    assert_eq!(store.is_user_in_coc(99, 2), Ok(false));

    // the parent-chain requirement: false at a root, ancestor-based below it
    assert_eq!(store.is_user_in_parent_coc(10, 1), Ok(false));
    assert_eq!(store.is_user_in_parent_coc(10, 2), Ok(true));
    assert_eq!(store.is_user_in_parent_coc(21, 2), Ok(false));

    let found = store.find_role_in_coc(11, 2).unwrap().unwrap();
    assert_eq!(found.id, 2);
    assert!(store.find_role_in_coc(99, 2).unwrap().is_none());
}

#[test]
fn corrupted_hierarchy_is_reported_not_followed() {
    let mut store = Store::new();
    // a parent link that points to no organization
    store.orgs.push(org(1, "alpha", Some(9)));
    store.roles.push(role(1, 1, Some(10), Some(0), 0));
    assert_eq!(store.find_parent_role(1, false).unwrap_err(), Error::HierarchyCorruption);

    // a parent cycle between two organizations without ranked roles
    let mut store = Store::new();
    store.orgs.push(org(1, "alpha", Some(2)));
    store.orgs.push(org(2, "bravo", Some(1)));
    store.roles.push(role(1, 1, Some(10), Some(0), 0));
    assert_eq!(store.is_user_in_coc(10, 1).unwrap_err(), Error::HierarchyCorruption);
}

#[test]
fn duplicate_coc_assignment_is_rejected() {
    let mut store = two_level_store();
    store.orgs.push(org(3, "independent", None));

    // user 11 is ranked in the root organization, hence in the child's chain
    let err = store
        .create_organization_role_checked(
            2,
            &UpdateOrganizationRole { user_id: Some(11), role: "second".to_string(), rank: Some(2) },
        )
        .unwrap_err();
    assert_eq!(err, Error::ValidationError(ValidationReason::AssigneeAlreadyInCoc));
    assert_eq!(err.message(), "Assignee is already in CoC");
    assert_eq!(store.roles.len(), 5);

    // an unrelated organization shares no ancestor: the assignment succeeds
    let created = store
        .create_organization_role_checked(
            3,
            &UpdateOrganizationRole { user_id: Some(11), role: "liaison".to_string(), rank: Some(0) },
        )
        .unwrap();
    assert_eq!(created.organization_id, 3);
    assert_eq!(store.roles.len(), 6);
}

#[test]
fn update_rejects_assignee_from_other_organization() {
    let mut store = two_level_store();
    // user 11's chain role belongs to organization 1, not 2
    let err = store
        .update_organization_role_checked(
            5,
            2,
            &UpdateOrganizationRole { user_id: Some(11), role: "swap".to_string(), rank: Some(1) },
        )
        .unwrap_err();
    assert_eq!(err, Error::ValidationError(ValidationReason::AssigneeAlreadyInCoc));

    // reassigning within the same organization passes the check
    let updated = store
        .update_organization_role_checked(
            5,
            2,
            &UpdateOrganizationRole { user_id: Some(21), role: "kept".to_string(), rank: Some(1) },
        )
        .unwrap();
    assert_eq!(updated.user_id, Some(21));
}

#[test]
fn reorder_requires_a_parent_chain_position() {
    let mut store = two_level_store();
    // user 21 holds a role in the child itself, not in the parent's chain
    let err = store.reorder_roles_checked(2, &vec![5, 4], 21).unwrap_err();
    assert_eq!(err, Error::AuthenticationError);

    // user 11 is ranked in the parent organization
    assert_eq!(store.reorder_roles_checked(2, &vec![5, 4], 11), Ok(()));
    assert_eq!(store.find_role_by_id(5).unwrap().ordinal, 0);
    assert_eq!(store.find_role_by_id(4).unwrap().ordinal, 1);
}

#[test]
fn acknowledgment_requires_the_direct_parent_holder() {
    let mut store = two_level_store();
    store.orgs.push(org(3, "independent", None));
    store.roles.push(role(6, 3, Some(30), Some(0), 0));

    // user 12 submits a report against its rank-2 role
    let report = store
        .create_organization_report(1, 12, 500, &"term report".to_string(), 1000)
        .unwrap();
    assert_eq!(report.role_id, 3);
    assert!(report.ack_user_id.is_none() && report.ack_date.is_none());
    assert_eq!(report.submission_date, Some(1000));

    // an unrelated role holder may not acknowledge
    let err = store
        .ack_organization_report_checked(report.id, 30, 2000)
        .unwrap_err();
    assert_eq!(err, Error::AuthenticationError);

    // the direct parent (rank 1, user 11) may
    let acked = store
        .ack_organization_report_checked(report.id, 11, 2000)
        .unwrap();
    assert_eq!(acked.ack_user_id, Some(11));
    assert_eq!(acked.ack_date, Some(2000));
    assert_eq!(acked.date_modified, 2000);

    // acknowledgment is terminal: a second attempt fails
    let err = store
        .ack_organization_report_checked(report.id, 11, 3000)
        .unwrap_err();
    assert_eq!(err, Error::ValidationError(ValidationReason::ReportAlreadyAcknowledged));

    assert_eq!(
        store.ack_organization_report_checked(999, 11, 2000).unwrap_err(),
        Error::NotFound
    );
}

#[test]
fn report_listing_is_scoped_by_rank() {
    let mut store = two_level_store();
    let rep1 = store.create_organization_report(1, 10, 1, &"top".to_string(), 100).unwrap();
    let rep2 = store.create_organization_report(1, 11, 1, &"middle".to_string(), 100).unwrap();
    let rep3 = store.create_organization_report(1, 12, 1, &"bottom".to_string(), 100).unwrap();

    // user 12 holds rank 2: it sees reports of ranks >= 2 only
    let seen: Vec<i32> = store
        .list_organization_reports_checked(1, 12)
        .unwrap()
        .iter()
        .map(|r| r.id)
        .collect();
    assert_eq!(seen, vec![rep3.id]);

    // user 11 holds rank 1: ranks 1 and 2
    let seen: Vec<i32> = store
        .list_organization_reports_checked(1, 11)
        .unwrap()
        .iter()
        .map(|r| r.id)
        .collect();
    assert_eq!(seen, vec![rep2.id, rep3.id]);

    // user 10 holds rank 0: everything
    assert_eq!(store.list_organization_reports_checked(1, 10).unwrap().len(), 3);

    // a superior from the parent organization sees all child reports
    let rep4 = store.create_organization_report(2, 20, 1, &"child".to_string(), 100).unwrap();
    let seen: Vec<i32> = store
        .list_organization_reports_checked(2, 11)
        .unwrap()
        .iter()
        .map(|r| r.id)
        .collect();
    assert_eq!(seen, vec![rep4.id]);

    // a stranger is denied
    assert_eq!(
        store.list_organization_reports_checked(1, 99).unwrap_err(),
        Error::AuthenticationError
    );
    let _ = rep1;
}

#[test]
fn direct_reports_follow_parent_resolution() {
    let store = two_level_store();
    // the rank-1 role of the root is the parent of the root's rank-2 role
    let drs: Vec<i32> = store
        .find_direct_reports(1, 1)
        .unwrap()
        .iter()
        .map(|r| r.id)
        .collect();
    assert_eq!(drs, vec![3]);

    // the root's rank-2 role is the crossing target of the child's top role
    let drs: Vec<i32> = store
        .find_direct_reports(1, 2)
        .unwrap()
        .iter()
        .map(|r| r.id)
        .collect();
    assert_eq!(drs, vec![4]);

    assert_eq!(store.find_direct_reports(1, 7).unwrap_err(), Error::NotFound);
}

#[test]
fn unacknowledged_inbox_collects_direct_reports() {
    let mut store = two_level_store();
    let rep_child = store.create_organization_report(2, 20, 1, &"from child top".to_string(), 100).unwrap();
    let rep_mid = store.create_organization_report(1, 12, 1, &"from rank two".to_string(), 100).unwrap();

    // user 12 (rank 2 of the root) supervises the child's top role
    let inbox: Vec<i32> = store
        .find_unacknowledged_for_user(12)
        .unwrap()
        .iter()
        .map(|r| r.id)
        .collect();
    assert_eq!(inbox, vec![rep_child.id]);

    // once acknowledged, the report leaves the inbox
    store.ack_organization_report_checked(rep_child.id, 12, 200).unwrap();
    assert!(store.find_unacknowledged_for_user(12).unwrap().is_empty());

    // user 11 (rank 1) supervises rank 2
    let inbox: Vec<i32> = store
        .find_unacknowledged_for_user(11)
        .unwrap()
        .iter()
        .map(|r| r.id)
        .collect();
    assert_eq!(inbox, vec![rep_mid.id]);
}

#[test]
fn report_submission_dated_at_the_current_instant() {
    let mut store = two_level_store();
    let report = store
        .create_organization_report_now(1, 12, 500, &"dated now".to_string())
        .unwrap();
    assert_eq!(report.role_id, 3);
    assert!(report.ack_user_id.is_none() && report.ack_date.is_none());
    assert_eq!(report.submission_date, Some(report.date_created));
    assert_eq!(report.date_modified, report.date_created);
    // the clock reads a present-day instant, well after the epoch
    assert!(report.date_created > 1_000_000_000);

    // submitting without a ranked role in the organization fails
    assert_eq!(
        store
            .create_organization_report_now(1, 99, 500, &"no role".to_string())
            .unwrap_err(),
        Error::NotFound
    );
}

#[test]
fn empty_and_cross_organization_chains() {
    let mut store = Store::new();
    store.orgs.push(org(1, "root", None));
    store.orgs.push(org(2, "mid", Some(1)));
    store.orgs.push(org(3, "leaf", Some(2)));
    store.roles.push(role(1, 1, Some(10), Some(0), 0));

    // an organization without ranked roles resolves an empty user chain
    let chain = store.find_user_coc(2, 99).unwrap();
    assert!(chain.roles.is_empty());

    // its organization chain crosses straight into the nearest ancestor
    let chain = store.find_org_coc(3, i32::MAX).unwrap();
    let ids: Vec<i32> = chain.roles.iter().map(|r| r.id).collect();
    assert_eq!(ids, vec![1]);

    // an unranked role never participates in a chain of command
    store.roles.push(role(2, 2, Some(50), None, 0));
    assert_eq!(store.is_user_in_coc(50, 2), Ok(false));
    assert!(store.find_role_in_coc(50, 2).unwrap().is_none());
}

#[test]
fn reorder_of_a_roleless_organization_accepts_the_empty_list() {
    let mut store = Store::new();
    store.orgs.push(org(1, "root", None));
    assert_eq!(store.reorder_roles(1, &vec![]), Ok(()));
    let err = store.reorder_roles(1, &vec![7]).unwrap_err();
    assert_eq!(err, Error::ValidationError(ValidationReason::MalformedReorderSet));
}
