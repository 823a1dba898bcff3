//! Tests of the organization tree, the membership set, and the role ledger.

use titan_core::model::Error;
use titan_core::model::NewOrganizationRole;
use titan_core::model::Organization;
use titan_core::model::OrganizationRole;
use titan_core::model::RoleRankScope;
use titan_core::model::Store;
use titan_core::model::UpdateOrganizationRole;
use titan_core::model::ValidationReason;
use titan_core::requests::parse_org_id_list;

fn org(id: i32, slug: &str, parent_id: Option<i32>) -> Organization {
    Organization { id, slug: slug.to_string(), name: slug.to_uppercase(), parent_id }
}

fn role(id: i32, org_id: i32, user_id: Option<i32>, rank: Option<i32>, ordinal: i32) -> OrganizationRole {
    OrganizationRole {
        id,
        organization_id: org_id,
        user_id,
        rank,
        role: format!("role-{}", id),
        ordinal,
    }
}

#[test]
fn find_organizations_by_id_and_slug() {
    let mut store = Store::new();
    store.orgs.push(org(1, "alpha", None));
    store.orgs.push(org(2, "bravo", Some(1)));

    assert_eq!(store.find_by_id(1).unwrap().slug, "alpha");
    assert_eq!(store.find_by_id(9).unwrap_err(), Error::NotFound);
    assert_eq!(store.find_by_slug(&"bravo".to_string()).unwrap().id, 2);
    assert_eq!(
        store.find_by_slug(&"missing".to_string()).unwrap_err(),
        Error::NotFound
    );
}

#[test]
fn find_children_and_all_in_creation_order() {
    let mut store = Store::new();
    store.orgs.push(org(1, "alpha", None));
    store.orgs.push(org(2, "bravo", Some(1)));
    store.orgs.push(org(3, "charlie", Some(1)));
    store.orgs.push(org(4, "delta", Some(2)));

    let children: Vec<i32> = store.find_children(1).iter().map(|o| o.id).collect();
    assert_eq!(children, vec![2, 3]);
    assert_eq!(store.find_all().len(), 4);
}

#[test]
fn membership_add_is_idempotent() {
    let mut store = Store::new();
    store.orgs.push(org(1, "alpha", None));

    assert!(!store.is_user_org_member(1, 42));
    assert!(store.add_user(1, 42));
    assert!(store.add_user(1, 42));
    assert_eq!(store.members.len(), 1);
    assert!(store.is_user_org_member(1, 42));
}

#[test]
fn membership_remove_reports_presence() {
    let mut store = Store::new();
    store.add_user(1, 42);
    assert!(store.remove_user(1, 42));
    assert!(!store.remove_user(1, 42));
    assert!(store.members.is_empty());
}

#[test]
fn find_users_with_and_without_children() {
    let mut store = Store::new();
    store.orgs.push(org(1, "alpha", None));
    store.orgs.push(org(2, "bravo", Some(1)));
    store.add_user(1, 10);
    store.add_user(2, 20);

    assert_eq!(store.find_users(1, false), vec![10]);
    assert_eq!(store.find_users(1, true), vec![10, 20]);
}

#[test]
fn org_roles_ordered_by_rank_ordinal_id() {
    let mut store = Store::new();
    store.orgs.push(org(1, "alpha", None));
    store.roles.push(role(1, 1, None, Some(2), 0));
    store.roles.push(role(2, 1, None, Some(0), 0));
    store.roles.push(role(3, 1, None, Some(2), 1));
    store.roles.push(role(4, 1, None, None, 0));
    store.roles.push(role(5, 2, None, Some(0), 0));

    let ranked: Vec<i32> = store
        .find_org_roles(1, RoleRankScope::RankedOnly)
        .iter()
        .map(|r| r.id)
        .collect();
    assert_eq!(ranked, vec![2, 1, 3]);

    let all: Vec<i32> = store
        .find_org_roles(1, RoleRankScope::All)
        .iter()
        .map(|r| r.id)
        .collect();
    assert_eq!(all, vec![2, 1, 3, 4]);

    let unranked: Vec<i32> = store.find_unranked_roles(1).iter().map(|r| r.id).collect();
    assert_eq!(unranked, vec![4]);
}

#[test]
fn create_role_assigns_fresh_id_and_ordinal_zero() {
    let mut store = Store::new();
    store.roles.push(role(7, 1, None, Some(0), 0));

    let created = store
        .create_role(&NewOrganizationRole {
            organization_id: 1,
            user_id: Some(3),
            role: "adjutant".to_string(),
            rank: Some(1),
        })
        .unwrap();
    assert_eq!(created.id, 8);
    assert_eq!(created.ordinal, 0);
    assert_eq!(created.user_id, Some(3));
    assert_eq!(store.roles.len(), 2);
}

#[test]
fn create_role_rejects_exhausted_id_space() {
    let mut store = Store::new();
    store.roles.push(role(i32::MAX, 1, None, Some(0), 0));

    let err = store
        .create_role(&NewOrganizationRole {
            organization_id: 1,
            user_id: None,
            role: "overflow".to_string(),
            rank: None,
        })
        .unwrap_err();
    assert_eq!(err, Error::ValidationError(ValidationReason::IdSpaceExhausted));
    assert_eq!(store.roles.len(), 1);
}

#[test]
fn update_role_replaces_fields_and_keeps_ordinal() {
    let mut store = Store::new();
    store.roles.push(role(1, 1, Some(5), Some(2), 9));

    let updated = store
        .update_role(
            1,
            1,
            &UpdateOrganizationRole { user_id: Some(6), role: "leader".to_string(), rank: Some(0) },
        )
        .unwrap();
    assert_eq!(updated.user_id, Some(6));
    assert_eq!(updated.rank, Some(0));
    assert_eq!(updated.ordinal, 9);
    assert_eq!(updated.role, "leader");

    let err = store
        .update_role(
            1,
            2,
            &UpdateOrganizationRole { user_id: None, role: "x".to_string(), rank: None },
        )
        .unwrap_err();
    assert_eq!(err, Error::NotFound);
}

#[test]
fn reorder_assigns_ordinals_atomically() {
    let mut store = Store::new();
    store.orgs.push(org(1, "alpha", None));
    // ranked roles A, B, C with equal rank and ordinals 0, 1, 2
    store.roles.push(role(1, 1, None, Some(5), 0)); // A
    store.roles.push(role(2, 1, None, Some(5), 1)); // B
    store.roles.push(role(3, 1, None, Some(5), 2)); // C

    assert_eq!(store.reorder_roles(1, &vec![3, 1, 2]), Ok(()));
    let order: Vec<(i32, i32)> = store
        .find_org_roles(1, RoleRankScope::RankedOnly)
        .iter()
        .map(|r| (r.id, r.ordinal))
        .collect();
    assert_eq!(order, vec![(3, 0), (1, 1), (2, 2)]);

    // omitting B fails and leaves the ordering intact
    let err = store.reorder_roles(1, &vec![3, 1]).unwrap_err();
    assert_eq!(err, Error::ValidationError(ValidationReason::MalformedReorderSet));
    let order2: Vec<(i32, i32)> = store
        .find_org_roles(1, RoleRankScope::RankedOnly)
        .iter()
        .map(|r| (r.id, r.ordinal))
        .collect();
    assert_eq!(order2, vec![(3, 0), (1, 1), (2, 2)]);
}

#[test]
fn reorder_rejects_duplicates_and_extras() {
    let mut store = Store::new();
    store.roles.push(role(1, 1, None, Some(0), 0));
    store.roles.push(role(2, 1, None, Some(1), 0));

    assert!(store.reorder_roles(1, &vec![1, 1]).is_err());
    assert!(store.reorder_roles(1, &vec![1, 2, 3]).is_err());
    assert!(store.reorder_roles(1, &vec![2, 1]).is_ok());
}

#[test]
fn error_messages_are_fixed() {
    assert_eq!(
        Error::ValidationError(ValidationReason::AssigneeAlreadyInCoc).message(),
        "Assignee is already in CoC"
    );
    assert_eq!(Error::NotFound.message(), "Not found");
    assert_eq!(Error::AuthenticationError.message(), "Authentication error");
    assert_eq!(Error::HierarchyCorruption.message(), "Hierarchy corruption");
}

#[test]
fn well_formedness_is_decidable() {
    let mut store = Store::new();
    assert!(store.is_well_formed());
    store.orgs.push(org(1, "alpha", None));
    store.orgs.push(org(2, "bravo", Some(1)));
    store.roles.push(role(1, 1, None, Some(0), 0));
    store.add_user(1, 10);
    assert!(store.is_well_formed());

    let mut dup_org = Store::new();
    dup_org.orgs.push(org(1, "alpha", None));
    dup_org.orgs.push(org(1, "copy", None));
    assert!(!dup_org.is_well_formed());

    let mut dup_role = Store::new();
    dup_role.roles.push(role(1, 1, None, Some(0), 0));
    dup_role.roles.push(role(1, 2, None, Some(0), 0));
    assert!(!dup_role.is_well_formed());

    let mut dup_member = Store::new();
    dup_member.members.push(titan_core::model::OrganizationUser { organization_id: 1, user_id: 2 });
    dup_member.members.push(titan_core::model::OrganizationUser { organization_id: 1, user_id: 2 });
    assert!(!dup_member.is_well_formed());
}

#[test]
fn org_id_list_parses_exactly() {
    assert_eq!(parse_org_id_list(&b"1,2,3".to_vec()), Some(vec![1, 2, 3]));
    assert_eq!(parse_org_id_list(&b"42".to_vec()), Some(vec![42]));
    assert_eq!(parse_org_id_list(&b"007".to_vec()), Some(vec![7]));
    assert_eq!(parse_org_id_list(&b"2147483647".to_vec()), Some(vec![i32::MAX]));
    assert_eq!(parse_org_id_list(&b"2147483648".to_vec()), None);
    assert_eq!(parse_org_id_list(&b"".to_vec()), None);
    assert_eq!(parse_org_id_list(&b"1,,2".to_vec()), None);
    assert_eq!(parse_org_id_list(&b"1,".to_vec()), None);
    assert_eq!(parse_org_id_list(&b",1".to_vec()), None);
    assert_eq!(parse_org_id_list(&b"12a".to_vec()), None);
    assert_eq!(parse_org_id_list(&b" 1".to_vec()), None);
}
