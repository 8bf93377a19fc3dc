//! Tests of the pure diff engine: classification of new, deleted, removed and
//! updated blocks.
use motor_back::changes::{ChangeMark, UpdateBlock};
use motor_back::ids::Id;
use motor_back::services::diff::{
    block_matches_update, get_deleted_blocks, get_new_blocks, get_removed_blocks,
    get_updated_blocks,
};
use motor_back::services::stack::{Block, Mark};

#[test]
fn new_blocks_returns_empty_result_if_both_args_has_empty_blocks() {
    let existent_blocks = vec![];
    let updated_blocks = vec![];

    let added_blocks = get_new_blocks(&existent_blocks, &updated_blocks);
    assert!(added_blocks.is_empty());
}

#[test]
fn new_blocks_returns_nothing_if_updated_blocks_empty() {
    let existent_blocks = vec![
        Block {
            id: Id("1".to_string()),
            stack_id: Id::from_str("1"),
            order: 0,
            text: "some_test".to_string(),
            marks: vec![],
            current_version: 0,
            initial_version: 0,
        },
        Block {
            id: Id("2".to_string()),
            stack_id: Id::from_str("1"),
            order: 1,
            text: "some_other_text".to_string(),
            marks: vec![Mark { id: Id("1".to_string()), from: 0, to: 3 }],
            current_version: 0,
            initial_version: 0,
        },
    ];
    let updated_blocks = vec![];

    let added_blocks = get_new_blocks(&existent_blocks, &updated_blocks);
    assert!(added_blocks.is_empty());
}

#[test]
fn new_blocks_returns_all_updated_blocks_if_existent_blocks_empty_1() {
    let existent_blocks = vec![];
    let updated_blocks = vec![UpdateBlock {
        id: None,
        order: 0,
        text: "block_1".to_string(),
        marks: vec![],
    }];

    let added_blocks = get_new_blocks(&existent_blocks, &updated_blocks);
    assert_eq!(
        added_blocks,
        vec![UpdateBlock { id: None, order: 0, text: "block_1".to_string(), marks: vec![] }]
    );
}

#[test]
fn new_blocks_returns_all_updated_blocks_if_existent_blocks_empty_2() {
    let existent_blocks = vec![];
    let updated_blocks = vec![UpdateBlock {
        id: None,
        order: 0,
        text: "block_1".to_string(),
        marks: vec![ChangeMark { id: None, from: 0, to: 3 }],
    }];

    let added_blocks = get_new_blocks(&existent_blocks, &updated_blocks);
    assert_eq!(
        added_blocks,
        vec![UpdateBlock {
            id: None,
            order: 0,
            text: "block_1".to_string(),
            marks: vec![ChangeMark { id: None, from: 0, to: 3 }]
        }]
    );
}

#[test]
fn new_blocks_returns_all_updated_blocks_if_existent_blocks_empty_3() {
    let existent_blocks = vec![];
    let updated_blocks = vec![UpdateBlock {
        id: None,
        order: 0,
        text: "block_1".to_string(),
        marks: vec![
            ChangeMark { id: None, from: 0, to: 3 },
            ChangeMark { id: Some(Id("1".to_string())), from: 2, to: 4 },
        ],
    }];

    let added_blocks = get_new_blocks(&existent_blocks, &updated_blocks);
    assert_eq!(
        added_blocks,
        vec![UpdateBlock {
            id: None,
            order: 0,
            text: "block_1".to_string(),
            marks: vec![
                ChangeMark { id: None, from: 0, to: 3 },
                ChangeMark { id: Some(Id("1".to_string())), from: 2, to: 4 },
            ]
        }]
    );
}

#[test]
fn new_blocks_returns_blocks_with_ids_that_absent_in_existent() {
    let existent_blocks = vec![Block {
        id: Id::from_str("1"),
        stack_id: Id::from_str("1"),
        order: 0,
        text: "some_text".to_string(),
        marks: vec![],
        current_version: 0,
        initial_version: 0,
    }];
    let updated_blocks = vec![
        // this block should not be presented in added blocks
        UpdateBlock {
            id: Some(Id::from_str("1")),
            order: 0,
            text: "block_1".to_string(),
            marks: vec![],
        },
        UpdateBlock { id: None, order: 1, text: "block_1".to_string(), marks: vec![] },
        UpdateBlock {
            id: Some(Id::from_str("2")),
            order: 2,
            text: "block_2".to_string(),
            marks: vec![],
        },
    ];

    let added_blocks = get_new_blocks(&existent_blocks, &updated_blocks);
    assert_eq!(
        added_blocks,
        vec![
            UpdateBlock { id: None, order: 1, text: "block_1".to_string(), marks: vec![] },
            UpdateBlock {
                id: Some(Id::from_str("2")),
                order: 2,
                text: "block_2".to_string(),
                marks: vec![],
            },
        ]
    );
}

#[test]
fn deleted_blocks_returns_blocks_not_presented_in_updated_blocks_1() {
    let existent_blocks = vec![Block {
        id: Id::from_str("1"),
        stack_id: Id::from_str("1"),
        order: 0,
        text: "some_text".to_string(),
        marks: vec![],
        current_version: 0,
        initial_version: 0,
    }];
    let updated_blocks = vec![];
    let deleted_blocks = get_deleted_blocks(&existent_blocks, &updated_blocks);
    assert_eq!(
        deleted_blocks,
        vec![Block {
            id: Id::from_str("1"),
            stack_id: Id::from_str("1"),
            order: 0,
            text: "some_text".to_string(),
            marks: vec![],
            current_version: 0,
            initial_version: 0,
        }]
    );
}

#[test]
fn deleted_blocks_returns_blocks_not_presented_in_updated_blocks_2() {
    let existent_blocks = vec![Block {
        id: Id::from_str("1"),
        stack_id: Id::from_str("1"),
        order: 0,
        text: "some_text".to_string(),
        marks: vec![],
        current_version: 0,
        initial_version: 0,
    }];
    let updated_blocks = vec![UpdateBlock {
        id: Some(Id::from_str("2")),
        order: 0,
        text: "some_other_text".to_string(),
        marks: vec![],
    }];

    let deleted_blocks = get_deleted_blocks(&existent_blocks, &updated_blocks);

    assert_eq!(
        deleted_blocks,
        vec![Block {
            id: Id::from_str("1"),
            stack_id: Id::from_str("1"),
            order: 0,
            text: "some_text".to_string(),
            marks: vec![],
            current_version: 0,
            initial_version: 0,
        }]
    );
}

fn block(id: &str, text: &str, marks: Vec<Mark>) -> Block {
    Block {
        id: Id::from_str(id),
        stack_id: Id::from_str("1"),
        order: 0,
        text: text.to_string(),
        marks,
        current_version: 0,
        initial_version: 0,
    }
}

#[test]
fn removed_blocks_returns_blocks_named_in_removed_list() {
    let existent_blocks = vec![block("1", "a", vec![]), block("2", "b", vec![])];
    let removed = vec![Id::from_str("2"), Id::from_str("9")];
    let removed_blocks = get_removed_blocks(&existent_blocks, &removed);
    assert_eq!(removed_blocks, vec![block("2", "b", vec![])]);
}

#[test]
fn updated_blocks_empty_if_entry_identical() {
    let existent_blocks = vec![block(
        "1",
        "some_text",
        vec![Mark { id: Id::from_str("7"), from: 0, to: 2 }],
    )];
    let updated_blocks = vec![UpdateBlock {
        id: Some(Id::from_str("1")),
        order: 0,
        text: "some_text".to_string(),
        marks: vec![ChangeMark { id: Some(Id::from_str("7")), from: 0, to: 2 }],
    }];
    let result = get_updated_blocks(&existent_blocks, &updated_blocks);
    assert_eq!(result.len(), 0);
}

#[test]
fn updated_blocks_returned_if_text_differs() {
    let existent_blocks = vec![block("1", "some_text", vec![])];
    let updated_blocks = vec![UpdateBlock {
        id: Some(Id::from_str("1")),
        order: 0,
        text: "some_other_text".to_string(),
        marks: vec![],
    }];
    let result = get_updated_blocks(&existent_blocks, &updated_blocks);
    assert_eq!(result.len(), 1);
    assert_eq!(result[0].0, existent_blocks[0]);
    assert_eq!(result[0].1, updated_blocks[0]);
}

#[test]
fn updated_blocks_returned_if_mark_range_changes() {
    let existent_blocks = vec![block(
        "1",
        "some_text",
        vec![Mark { id: Id::from_str("7"), from: 0, to: 2 }],
    )];
    let updated_blocks = vec![UpdateBlock {
        id: Some(Id::from_str("1")),
        order: 0,
        text: "some_text".to_string(),
        marks: vec![ChangeMark { id: Some(Id::from_str("7")), from: 1, to: 2 }],
    }];
    let result = get_updated_blocks(&existent_blocks, &updated_blocks);
    assert_eq!(result.len(), 1);
}

#[test]
fn block_matches_update_detects_mark_removal() {
    let b = block("1", "t", vec![Mark { id: Id::from_str("7"), from: 0, to: 2 }]);
    let same = UpdateBlock {
        id: Some(Id::from_str("1")),
        order: 0,
        text: "t".to_string(),
        marks: vec![ChangeMark { id: Some(Id::from_str("7")), from: 0, to: 2 }],
    };
    let without_mark = UpdateBlock {
        id: Some(Id::from_str("1")),
        order: 0,
        text: "t".to_string(),
        marks: vec![],
    };
    assert!(block_matches_update(&b, &same));
    assert!(!block_matches_update(&b, &without_mark));
}
