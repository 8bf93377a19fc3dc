//! Mark rows: one row per character-range annotation, keyed by the block that
//! owns it.
use vstd::prelude::*;

use crate::ids::Id;

verus! {

/// A stored mark row.
#[derive(Debug, Clone, PartialEq, Eq)]
pub struct Mark {
    pub id: Id,
    pub block_id: Id,
    pub from: i32,
    pub to: i32,
}

/// The mathematical content of a stored mark row.
pub ghost struct MarkRowView {
    pub id: Seq<char>,
    pub block_id: Seq<char>,
    pub from: int,
    pub to: int,
}

impl View for Mark {
    type V = MarkRowView;

    open spec fn view(&self) -> MarkRowView {
        MarkRowView {
            id: self.id@,
            block_id: self.block_id@,
            from: self.from as int,
            to: self.to as int,
        }
    }
}

impl DeepView for Mark {
    type V = MarkRowView;

    open spec fn deep_view(&self) -> MarkRowView {
        self.view()
    }
}

/// A mark to be inserted: the storage layer assigns the row its id.
#[derive(Debug, Clone, PartialEq, Eq)]
pub struct InsertMark {
    pub block_id: Id,
    pub from: i32,
    pub to: i32,
}

/// The mathematical content of an [`InsertMark`].
pub ghost struct InsertMarkView {
    pub block_id: Seq<char>,
    pub from: int,
    pub to: int,
}

impl View for InsertMark {
    type V = InsertMarkView;

    open spec fn view(&self) -> InsertMarkView {
        InsertMarkView { block_id: self.block_id@, from: self.from as int, to: self.to as int }
    }
}

impl DeepView for InsertMark {
    type V = InsertMarkView;

    open spec fn deep_view(&self) -> InsertMarkView {
        self.view()
    }
}

} // verus!
