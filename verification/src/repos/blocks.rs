//! Block rows: one row per text block, carrying the ordered ids of its marks.
use vstd::prelude::*;

use crate::ids::Id;

verus! {

/// A stored block row.
#[derive(Debug, Clone, PartialEq, Eq)]
pub struct Block {
    pub id: Id,
    pub stack_id: Id,
    pub order: i32,
    pub text: String,
    pub marks_ids: Vec<Id>,
    pub current_version: i32,
    pub initial_version: i32,
}

/// The mathematical content of a stored block row.
pub ghost struct BlockRowView {
    pub id: Seq<char>,
    pub stack_id: Seq<char>,
    pub order: int,
    pub text: Seq<char>,
    pub marks_ids: Seq<Seq<char>>,
    pub current_version: int,
    pub initial_version: int,
}

impl View for Block {
    type V = BlockRowView;

    open spec fn view(&self) -> BlockRowView {
        BlockRowView {
            id: self.id@,
            stack_id: self.stack_id@,
            order: self.order as int,
            text: self.text@,
            marks_ids: self.marks_ids.deep_view(),
            current_version: self.current_version as int,
            initial_version: self.initial_version as int,
        }
    }
}

impl DeepView for Block {
    type V = BlockRowView;

    open spec fn deep_view(&self) -> BlockRowView {
        self.view()
    }
}

/// A block to be inserted: the storage layer assigns the row its id.
#[derive(Debug, Clone, PartialEq, Eq)]
pub struct InsertBlock {
    pub stack_id: Id,
    pub order: i32,
    pub text: String,
    pub marks_ids: Vec<Id>,
    pub current_version: i32,
    pub initial_version: i32,
}

/// The mathematical content of an [`InsertBlock`].
pub ghost struct InsertBlockView {
    pub stack_id: Seq<char>,
    pub order: int,
    pub text: Seq<char>,
    pub marks_ids: Seq<Seq<char>>,
    pub current_version: int,
    pub initial_version: int,
}

impl View for InsertBlock {
    type V = InsertBlockView;

    open spec fn view(&self) -> InsertBlockView {
        InsertBlockView {
            stack_id: self.stack_id@,
            order: self.order as int,
            text: self.text@,
            marks_ids: self.marks_ids.deep_view(),
            current_version: self.current_version as int,
            initial_version: self.initial_version as int,
        }
    }
}

impl DeepView for InsertBlock {
    type V = InsertBlockView;

    open spec fn deep_view(&self) -> InsertBlockView {
        self.view()
    }
}

} // verus!
