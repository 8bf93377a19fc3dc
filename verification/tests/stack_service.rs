//! End-to-end tests of the update orchestrator over the in-memory store.
use motor_back::changes::{ChangeMark, NewBlock, NewMark, NewStackItem, StackItemChangeSet, UpdateBlock};
use motor_back::errors::AppErrorType;
use motor_back::ids::Id;
use motor_back::repos::users::User;
use motor_back::services::stack::StackService;

fn user(name: &str) -> User {
    User {
        id: Id::from_str(name),
        username: name.to_string(),
        password: "secret".to_string(),
    }
}

fn new_block(text: &str, marks: Vec<(i32, i32)>) -> NewBlock {
    NewBlock {
        text: text.to_string(),
        marks: marks.into_iter().map(|(from, to)| NewMark { from, to }).collect(),
    }
}

#[test]
fn can_not_add_emtpy_item() {
    let mut service = StackService::new();
    let err = service
        .add_to_my_stack(user("u"), NewStackItem { blocks: vec![] })
        .unwrap_err();
    assert_eq!(err.message(), "Can not add empty stack item");
    assert_eq!(err.get_type(), "validation_error");
}

#[test]
fn item_with_empty_block_added() {
    let mut service = StackService::new();
    let item = service
        .add_to_my_stack(user("u"), NewStackItem { blocks: vec![new_block("", vec![])] })
        .unwrap();
    assert_eq!(item.blocks.len(), 1);
    assert_eq!(item.blocks[0].text, "");
    assert_eq!(item.blocks[0].order, 0);
    assert_eq!(item.blocks[0].current_version, 0);
    assert_eq!(item.blocks[0].initial_version, 0);
    assert!(item.blocks[0].marks.is_empty());
}

#[test]
fn item_with_blocks_and_marks_added() {
    let mut service = StackService::new();
    let item = service
        .add_to_my_stack(
            user("u"),
            NewStackItem { blocks: vec![new_block("Block!", vec![(0, 3), (4, 6)])] },
        )
        .unwrap();
    assert_eq!(item.blocks.len(), 1);
    assert_eq!(item.blocks[0].text, "Block!");
    assert_eq!(item.blocks[0].marks.len(), 2);
    assert_eq!(item.blocks[0].marks[0].from, 0);
    assert_eq!(item.blocks[0].marks[0].to, 3);
    assert_eq!(item.blocks[0].marks[1].from, 4);
    assert_eq!(item.blocks[0].marks[1].to, 6);
    let fetched = service.my_stack(&user("u"));
    assert_eq!(fetched.len(), 1);
    assert_eq!(fetched[0], item);
}

#[test]
fn update_identity_change_set_returns_same_item() {
    let mut service = StackService::new();
    let u = user("u");
    let item = service
        .add_to_my_stack(
            u.clone(),
            NewStackItem { blocks: vec![new_block("a", vec![]), new_block("b", vec![(0, 1)])] },
        )
        .unwrap();
    let updated = service
        .update_stack_item(
            u,
            StackItemChangeSet { stack_id: item.id.clone(), removed: vec![], updated: vec![] },
        )
        .unwrap();
    assert_eq!(updated, item);
    assert!(service.history().is_empty());
}

#[test]
fn update_with_intersecting_changes_rejected_and_store_unchanged() {
    let mut service = StackService::new();
    let u = user("u");
    let item = service
        .add_to_my_stack(u.clone(), NewStackItem { blocks: vec![new_block("a", vec![])] })
        .unwrap();
    let bid = item.blocks[0].id.clone();
    let err = service
        .update_stack_item(
            u.clone(),
            StackItemChangeSet {
                stack_id: item.id.clone(),
                removed: vec![bid.clone()],
                updated: vec![UpdateBlock {
                    id: Some(bid),
                    order: 0,
                    text: "a2".to_string(),
                    marks: vec![],
                }],
            },
        )
        .unwrap_err();
    assert_eq!(err.message(), "updated and removed changes intersects");
    assert_eq!(err.error_type(), AppErrorType::ValidationError);
    let after = service.my_stack(&u);
    assert_eq!(after.len(), 1);
    assert_eq!(after[0], item);
    assert!(service.history().is_empty());
}

#[test]
fn update_removing_every_block_rejected() {
    let mut service = StackService::new();
    let u = user("u");
    let item = service
        .add_to_my_stack(
            u.clone(),
            NewStackItem { blocks: vec![new_block("a", vec![]), new_block("b", vec![])] },
        )
        .unwrap();
    let ids: Vec<Id> = item.blocks.iter().map(|b| b.id.clone()).collect();
    let err = service
        .update_stack_item(
            u.clone(),
            StackItemChangeSet { stack_id: item.id.clone(), removed: ids, updated: vec![] },
        )
        .unwrap_err();
    assert_eq!(err.message(), "cannot reduce stack item to empty");
    assert_eq!(err.error_type(), AppErrorType::ValidationError);
    let after = service.my_stack(&u);
    assert_eq!(after[0], item);
}

#[test]
fn update_of_missing_item_not_found() {
    let mut service = StackService::new();
    let err = service
        .update_stack_item(
            user("u"),
            StackItemChangeSet {
                stack_id: Id::from_str("nope"),
                removed: vec![],
                updated: vec![],
            },
        )
        .unwrap_err();
    assert_eq!(err.message(), "Stack item not found");
    assert_eq!(err.get_type(), "not_found");
}

#[test]
fn update_scenario_remove_one_and_overwrite_one() {
    // Blocks [B0("a", []), B1("b", [M0(0,1)]), B2("c", [M1(0,1), M2(2,3)])];
    // remove B1, overwrite B2 with text "c2" and marks [M1(0,2)].
    let mut service = StackService::new();
    let u = user("u");
    let item = service
        .add_to_my_stack(
            u.clone(),
            NewStackItem {
                blocks: vec![
                    new_block("a", vec![]),
                    new_block("b", vec![(0, 1)]),
                    new_block("c", vec![(0, 1), (2, 3)]),
                ],
            },
        )
        .unwrap();
    let b0 = item.blocks[0].clone();
    let b1 = item.blocks[1].clone();
    let b2 = item.blocks[2].clone();
    let m1 = b2.marks[0].clone();
    let m2 = b2.marks[1].clone();

    let updated = service
        .update_stack_item(
            u.clone(),
            StackItemChangeSet {
                stack_id: item.id.clone(),
                removed: vec![b1.id.clone()],
                updated: vec![UpdateBlock {
                    id: Some(b2.id.clone()),
                    order: 1,
                    text: "c2".to_string(),
                    marks: vec![ChangeMark { id: Some(m1.id.clone()), from: 0, to: 2 }],
                }],
            },
        )
        .unwrap();

    // result: two blocks, B0 untouched at order 0, B2 overwritten at order 1
    assert_eq!(updated.blocks.len(), 2);
    assert_eq!(updated.blocks[0].id, b0.id);
    assert_eq!(updated.blocks[0].order, 0);
    assert_eq!(updated.blocks[0].current_version, 0);
    assert_eq!(updated.blocks[0].text, "a");
    assert_eq!(updated.blocks[1].id, b2.id);
    assert_eq!(updated.blocks[1].order, 1);
    assert_eq!(updated.blocks[1].text, "c2");
    assert_eq!(updated.blocks[1].current_version, 1);
    // M1 kept with the new range, M2 gone (absent means removed)
    assert_eq!(updated.blocks[1].marks.len(), 1);
    assert_eq!(updated.blocks[1].marks[0].id, m1.id);
    assert_eq!(updated.blocks[1].marks[0].from, 0);
    assert_eq!(updated.blocks[1].marks[0].to, 2);

    // history: one snapshot for removed B1, one for overwritten B2, both
    // capturing the pre-update state at version 0
    let history = service.history();
    assert_eq!(history.len(), 2);
    assert_eq!(history[0].block_id, b1.id);
    assert_eq!(history[0].version, 0);
    assert_eq!(history[0].text, "b");
    assert_eq!(history[0].marks.len(), 1);
    assert_eq!(history[0].marks[0].from, 0);
    assert_eq!(history[0].marks[0].to, 1);
    assert_eq!(history[1].block_id, b2.id);
    assert_eq!(history[1].version, 0);
    assert_eq!(history[1].text, "c");
    assert_eq!(history[1].marks.len(), 2);
    assert_eq!(history[1].marks[0].mark_id, m1.id);
    assert_eq!(history[1].marks[1].mark_id, m2.id);
    // the stored item matches what update returned
    let after = service.my_stack(&u);
    assert_eq!(after[0], updated);
}

#[test]
fn unchanged_entry_bumps_nothing_and_writes_no_history() {
    let mut service = StackService::new();
    let u = user("u");
    let item = service
        .add_to_my_stack(u.clone(), NewStackItem { blocks: vec![new_block("a", vec![(1, 2)])] })
        .unwrap();
    let b = item.blocks[0].clone();
    let updated = service
        .update_stack_item(
            u.clone(),
            StackItemChangeSet {
                stack_id: item.id.clone(),
                removed: vec![],
                updated: vec![UpdateBlock {
                    id: Some(b.id.clone()),
                    order: 0,
                    text: "a".to_string(),
                    marks: vec![ChangeMark { id: Some(b.marks[0].id.clone()), from: 1, to: 2 }],
                }],
            },
        )
        .unwrap();
    assert_eq!(updated, item);
    assert!(service.history().is_empty());
}

#[test]
fn entry_without_id_inserts_new_block() {
    let mut service = StackService::new();
    let u = user("u");
    let item = service
        .add_to_my_stack(u.clone(), NewStackItem { blocks: vec![new_block("a", vec![])] })
        .unwrap();
    let updated = service
        .update_stack_item(
            u.clone(),
            StackItemChangeSet {
                stack_id: item.id.clone(),
                removed: vec![],
                updated: vec![UpdateBlock {
                    id: None,
                    order: 1,
                    text: "fresh".to_string(),
                    marks: vec![ChangeMark { id: None, from: 0, to: 2 }],
                }],
            },
        )
        .unwrap();
    assert_eq!(updated.blocks.len(), 2);
    assert_eq!(updated.blocks[0].text, "a");
    assert_eq!(updated.blocks[1].text, "fresh");
    assert_eq!(updated.blocks[1].order, 1);
    assert_eq!(updated.blocks[1].current_version, 0);
    assert_eq!(updated.blocks[1].initial_version, 0);
    assert_eq!(updated.blocks[1].marks.len(), 1);
    assert_ne!(updated.blocks[1].id, updated.blocks[0].id);
    assert!(service.history().is_empty());
}

#[test]
fn invalid_mark_range_rejected() {
    let mut service = StackService::new();
    let u = user("u");
    let item = service
        .add_to_my_stack(u.clone(), NewStackItem { blocks: vec![new_block("a", vec![])] })
        .unwrap();
    let err = service
        .update_stack_item(
            u.clone(),
            StackItemChangeSet {
                stack_id: item.id.clone(),
                removed: vec![],
                updated: vec![UpdateBlock {
                    id: None,
                    order: 0,
                    text: "x".to_string(),
                    marks: vec![ChangeMark { id: None, from: 3, to: 1 }],
                }],
            },
        )
        .unwrap_err();
    assert_eq!(err.message(), "mark range is invalid");
    assert_eq!(err.error_type(), AppErrorType::ValidationError);
}

#[test]
fn other_users_item_is_not_found() {
    let mut service = StackService::new();
    let owner = user("owner");
    let other = user("other");
    let item = service
        .add_to_my_stack(owner, NewStackItem { blocks: vec![new_block("a", vec![])] })
        .unwrap();
    let err = service
        .update_stack_item(
            other,
            StackItemChangeSet { stack_id: item.id.clone(), removed: vec![], updated: vec![] },
        )
        .unwrap_err();
    assert_eq!(err.get_type(), "not_found");
}

#[test]
fn stale_mark_id_is_dropped_not_created() {
    let mut service = StackService::new();
    let u = user("u");
    let item = service
        .add_to_my_stack(u.clone(), NewStackItem { blocks: vec![new_block("a", vec![(0, 1)])] })
        .unwrap();
    let b = item.blocks[0].clone();
    let updated = service
        .update_stack_item(
            u,
            StackItemChangeSet {
                stack_id: item.id.clone(),
                removed: vec![],
                updated: vec![UpdateBlock {
                    id: Some(b.id.clone()),
                    order: 0,
                    text: "a".to_string(),
                    marks: vec![
                        ChangeMark { id: Some(b.marks[0].id.clone()), from: 0, to: 1 },
                        // names a mark that does not exist on this block
                        ChangeMark { id: Some(Id::from_str("stale")), from: 5, to: 6 },
                    ],
                }],
            },
        )
        .unwrap();
    // the stale name produces nothing; the known mark is kept
    assert_eq!(updated.blocks[0].marks.len(), 1);
    assert_eq!(updated.blocks[0].marks[0].id, b.marks[0].id);
    // the mark-id set changed from the block's point of view, so this counts
    // as an overwrite: version bumped, one snapshot written
    assert_eq!(updated.blocks[0].current_version, 1);
    assert_eq!(service.history().len(), 1);
}

#[test]
fn only_first_entry_for_a_block_counts() {
    let mut service = StackService::new();
    let u = user("u");
    let item = service
        .add_to_my_stack(u.clone(), NewStackItem { blocks: vec![new_block("a", vec![])] })
        .unwrap();
    let b = item.blocks[0].clone();
    let updated = service
        .update_stack_item(
            u,
            StackItemChangeSet {
                stack_id: item.id.clone(),
                removed: vec![],
                updated: vec![
                    UpdateBlock {
                        id: Some(b.id.clone()),
                        order: 0,
                        text: "first wins".to_string(),
                        marks: vec![],
                    },
                    UpdateBlock {
                        id: Some(b.id.clone()),
                        order: 1,
                        text: "later duplicate is dropped".to_string(),
                        marks: vec![],
                    },
                ],
            },
        )
        .unwrap();
    assert_eq!(updated.blocks.len(), 1);
    assert_eq!(updated.blocks[0].text, "first wins");
    assert_eq!(updated.blocks[0].current_version, 1);
}

#[test]
fn entry_with_unknown_id_is_an_insertion() {
    let mut service = StackService::new();
    let u = user("u");
    let item = service
        .add_to_my_stack(u.clone(), NewStackItem { blocks: vec![new_block("a", vec![])] })
        .unwrap();
    let updated = service
        .update_stack_item(
            u,
            StackItemChangeSet {
                stack_id: item.id.clone(),
                removed: vec![],
                updated: vec![UpdateBlock {
                    id: Some(Id::from_str("never-stored")),
                    order: 5,
                    text: "new content".to_string(),
                    marks: vec![],
                }],
            },
        )
        .unwrap();
    assert_eq!(updated.blocks.len(), 2);
    assert_eq!(updated.blocks[1].text, "new content");
    assert_eq!(updated.blocks[1].current_version, 0);
    // the insertion gets a storage-assigned id, not the unknown one
    assert_ne!(updated.blocks[1].id, Id::from_str("never-stored"));
    assert!(service.history().is_empty());
}

#[test]
fn removed_id_not_stored_is_a_no_op() {
    let mut service = StackService::new();
    let u = user("u");
    let item = service
        .add_to_my_stack(u.clone(), NewStackItem { blocks: vec![new_block("a", vec![])] })
        .unwrap();
    let updated = service
        .update_stack_item(
            u,
            StackItemChangeSet {
                stack_id: item.id.clone(),
                removed: vec![Id::from_str("never-stored")],
                updated: vec![],
            },
        )
        .unwrap();
    assert_eq!(updated, item);
    assert!(service.history().is_empty());
}

#[test]
fn find_stack_item_checks_the_owner() {
    let mut service = StackService::new();
    let owner = user("owner");
    let item = service
        .add_to_my_stack(owner.clone(), NewStackItem { blocks: vec![new_block("a", vec![])] })
        .unwrap();
    let found = service
        .find_stack_item_by_user_id_and_stack_item_id(&owner.id, &item.id)
        .unwrap();
    assert_eq!(found, item);
    assert!(service
        .find_stack_item_by_user_id_and_stack_item_id(&Id::from_str("other"), &item.id)
        .is_none());
    assert!(service
        .find_stack_item_by_user_id_and_stack_item_id(&owner.id, &Id::from_str("nope"))
        .is_none());
}

#[test]
fn marks_move_between_blocks_only_as_delete_plus_create() {
    // a mark id of one block named from another block's entry is stale there:
    // moving content means deleting the mark in one block and creating a new
    // one in the other
    let mut service = StackService::new();
    let u = user("u");
    let item = service
        .add_to_my_stack(
            u.clone(),
            NewStackItem { blocks: vec![new_block("a", vec![(0, 1)]), new_block("b", vec![])] },
        )
        .unwrap();
    let a = item.blocks[0].clone();
    let b = item.blocks[1].clone();
    let updated = service
        .update_stack_item(
            u,
            StackItemChangeSet {
                stack_id: item.id.clone(),
                removed: vec![],
                updated: vec![UpdateBlock {
                    id: Some(b.id.clone()),
                    order: 1,
                    text: "b".to_string(),
                    marks: vec![ChangeMark { id: Some(a.marks[0].id.clone()), from: 0, to: 1 }],
                }],
            },
        )
        .unwrap();
    // the foreign mark id is stale for block b: nothing is created there and
    // block a keeps its mark untouched
    let ub = updated.blocks.iter().find(|x| x.id == b.id).unwrap();
    assert!(ub.marks.is_empty());
    let ua = updated.blocks.iter().find(|x| x.id == a.id).unwrap();
    assert_eq!(ua.marks.len(), 1);
    assert_eq!(ua.marks[0].id, a.marks[0].id);
}
