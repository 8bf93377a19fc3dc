//! Stack item rows: the top-level container, carrying the authoritative order
//! of its blocks and the denormalized union of their mark ids.
use vstd::prelude::*;

use crate::ids::Id;

verus! {

/// A stored stack item row.  `blocks_ids` is the authoritative block order;
/// `marks_ids` is the denormalized union of the mark ids of all blocks, used
/// for bulk fetches.
#[derive(Debug, Clone, PartialEq, Eq)]
pub struct StackItem {
    pub id: Id,
    pub user_id: Id,
    pub blocks_ids: Vec<Id>,
    pub marks_ids: Vec<Id>,
}

/// The mathematical content of a stored stack item row.
pub ghost struct StackItemRowView {
    pub id: Seq<char>,
    pub user_id: Seq<char>,
    pub blocks_ids: Seq<Seq<char>>,
    pub marks_ids: Seq<Seq<char>>,
}

impl View for StackItem {
    type V = StackItemRowView;

    open spec fn view(&self) -> StackItemRowView {
        StackItemRowView {
            id: self.id@,
            user_id: self.user_id@,
            blocks_ids: self.blocks_ids.deep_view(),
            marks_ids: self.marks_ids.deep_view(),
        }
    }
}

impl DeepView for StackItem {
    type V = StackItemRowView;

    open spec fn deep_view(&self) -> StackItemRowView {
        self.view()
    }
}

/// A stack item to be inserted: the storage layer assigns the row its id.
#[derive(Debug, Clone, PartialEq, Eq)]
pub struct NewStackItem {
    pub user_id: Id,
    pub blocks_ids: Vec<Id>,
    pub marks_ids: Vec<Id>,
    pub version: i32,
}

/// The mathematical content of a [`NewStackItem`].
pub ghost struct NewStackItemView {
    pub user_id: Seq<char>,
    pub blocks_ids: Seq<Seq<char>>,
    pub marks_ids: Seq<Seq<char>>,
    pub version: int,
}

impl View for NewStackItem {
    type V = NewStackItemView;

    open spec fn view(&self) -> NewStackItemView {
        NewStackItemView {
            user_id: self.user_id@,
            blocks_ids: self.blocks_ids.deep_view(),
            marks_ids: self.marks_ids.deep_view(),
            version: self.version as int,
        }
    }
}

impl DeepView for NewStackItem {
    type V = NewStackItemView;

    open spec fn deep_view(&self) -> NewStackItemView {
        self.view()
    }
}

} // verus!
