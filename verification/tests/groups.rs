//! Tests of the group set ordering helpers.
use motor_back::ids::Id;
use motor_back::services::groups::{
    new_group_position, recount_default_ordering, recount_ordering, update_recents,
    InsertDefaultGroupSetItem, InsertGroupSetItem, InsertRecentSet,
};

fn entry(group_id: &str, order: i32) -> InsertGroupSetItem {
    InsertGroupSetItem {
        user_id: Id::from_str("u"),
        group_id: Id::from_str(group_id),
        group_name: format!("group {}", group_id),
        set_name: "some_set".to_string(),
        order,
    }
}

#[test]
fn recount_ordering_renumbers_contiguously() {
    // orders [0, 2, 5] will be [0, 1, 2]
    let mut group_set = vec![entry("a", 0), entry("b", 2), entry("c", 5)];
    recount_ordering(&mut group_set);
    let orders: Vec<i32> = group_set.iter().map(|g| g.order).collect();
    assert_eq!(orders, vec![0, 1, 2]);
    assert_eq!(group_set[1].group_id, Id::from_str("b"));
}

#[test]
fn recount_default_ordering_renumbers_contiguously() {
    let mut group_set = vec![
        InsertDefaultGroupSetItem {
            user_id: Id::from_str("u"),
            group_id: Id::from_str("g"),
            group_name: "group 0".to_string(),
            order: 7,
        },
        InsertDefaultGroupSetItem {
            user_id: Id::from_str("u"),
            group_id: Id::from_str("h"),
            group_name: "group 1".to_string(),
            order: 9,
        },
    ];
    recount_default_ordering(&mut group_set);
    assert_eq!(group_set[0].order, 0);
    assert_eq!(group_set[1].order, 1);
}

#[test]
fn new_group_lands_after_named_group() {
    let group_set = vec![entry("a", 0), entry("b", 1), entry("c", 2)];
    assert_eq!(new_group_position(&group_set, &Some(Id::from_str("b"))), 2);
}

#[test]
fn new_group_lands_at_front_without_anchor() {
    let group_set = vec![entry("a", 0)];
    assert_eq!(new_group_position(&group_set, &None), 0);
    assert_eq!(new_group_position(&group_set, &Some(Id::from_str("zz"))), 0);
}

#[test]
fn update_recents_moves_used_set_to_front() {
    let recents = vec![
        InsertRecentSet { user_id: Id::from_str("u"), set_id: Id::from_str("s1") },
        InsertRecentSet { user_id: Id::from_str("u"), set_id: Id::from_str("s2") },
        InsertRecentSet { user_id: Id::from_str("u"), set_id: Id::from_str("s3") },
    ];
    let after = update_recents(recents, &Id::from_str("u"), &Id::from_str("s2"));
    let order: Vec<String> = after.iter().map(|e| e.set_id.0.clone()).collect();
    assert_eq!(order, vec!["s2", "s1", "s3"]);
}

#[test]
fn update_recents_prepends_a_new_set() {
    let recents = vec![InsertRecentSet {
        user_id: Id::from_str("u"),
        set_id: Id::from_str("s1"),
    }];
    let after = update_recents(recents, &Id::from_str("u"), &Id::from_str("new"));
    assert_eq!(after.len(), 2);
    assert_eq!(after[0].set_id, Id::from_str("new"));
    assert_eq!(after[1].set_id, Id::from_str("s1"));
}
