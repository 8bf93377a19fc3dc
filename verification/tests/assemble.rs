//! Tests of the read path: reassembling a stack item from stored rows.
use motor_back::ids::Id;
use motor_back::repos::blocks::Block as BlockRow;
use motor_back::repos::marks::Mark as MarkRow;
use motor_back::repos::stack::StackItem as StackItemRow;
use motor_back::services::stack::assemble_stack_item;

fn block_row(id: &str, text: &str, marks_ids: Vec<&str>) -> BlockRow {
    BlockRow {
        id: Id::from_str(id),
        stack_id: Id::from_str("s"),
        order: 0,
        text: text.to_string(),
        marks_ids: marks_ids.into_iter().map(Id::from_str).collect(),
        current_version: 0,
        initial_version: 0,
    }
}

fn mark_row(id: &str, block_id: &str, from: i32, to: i32) -> MarkRow {
    MarkRow { id: Id::from_str(id), block_id: Id::from_str(block_id), from, to }
}

#[test]
fn assemble_keeps_blocks_ids_and_marks_ids_order() {
    let row = StackItemRow {
        id: Id::from_str("s"),
        user_id: Id::from_str("u"),
        blocks_ids: vec![Id::from_str("b2"), Id::from_str("b1")],
        marks_ids: vec![Id::from_str("m1"), Id::from_str("m2")],
    };
    // fetched out of order on purpose: `blocks_ids` is authoritative
    let blocks = vec![
        block_row("b1", "one", vec!["m2", "m1"]),
        block_row("b2", "two", vec![]),
    ];
    let marks = vec![mark_row("m1", "b1", 0, 1), mark_row("m2", "b1", 2, 3)];
    let item = assemble_stack_item(&row, &blocks, &marks).unwrap();
    assert_eq!(item.id, Id::from_str("s"));
    assert_eq!(item.blocks.len(), 2);
    assert_eq!(item.blocks[0].id, Id::from_str("b2"));
    assert_eq!(item.blocks[0].text, "two");
    assert_eq!(item.blocks[1].id, Id::from_str("b1"));
    assert_eq!(item.blocks[1].marks.len(), 2);
    assert_eq!(item.blocks[1].marks[0].id, Id::from_str("m2"));
    assert_eq!(item.blocks[1].marks[0].from, 2);
    assert_eq!(item.blocks[1].marks[1].id, Id::from_str("m1"));
    assert_eq!(item.blocks[1].marks[1].to, 1);
}

#[test]
fn assemble_fails_closed_on_missing_block() {
    let row = StackItemRow {
        id: Id::from_str("s"),
        user_id: Id::from_str("u"),
        blocks_ids: vec![Id::from_str("absent")],
        marks_ids: vec![],
    };
    let err = assemble_stack_item(&row, &vec![], &vec![]).unwrap_err();
    assert_eq!(err.get_type(), "internal_server_error");
}

#[test]
fn assemble_fails_closed_on_missing_mark() {
    let row = StackItemRow {
        id: Id::from_str("s"),
        user_id: Id::from_str("u"),
        blocks_ids: vec![Id::from_str("b1")],
        marks_ids: vec![Id::from_str("m1")],
    };
    let blocks = vec![block_row("b1", "one", vec!["m1"])];
    let err = assemble_stack_item(&row, &blocks, &vec![]).unwrap_err();
    assert_eq!(err.get_type(), "internal_server_error");
}
