//! Caller-facing change descriptions: the payload of a stack item creation and
//! of an update call.
//!
//! An update names the blocks to remove by id and carries a list of block
//! entries.  An entry with the id of a stored block describes that block's new
//! content; an entry without an id, or with an id that matches no stored
//! block, is a new insertion.  The entry list's order is the caller's
//! submitted ordering for the blocks it mentions.
use vstd::prelude::*;

use crate::ids::Id;

verus! {

/// A mark inside a creation payload.
#[derive(Debug, Clone, PartialEq, Eq)]
pub struct NewMark {
    pub from: i32,
    pub to: i32,
}

/// The mathematical content of a [`NewMark`].
pub ghost struct NewMarkView {
    pub from: int,
    pub to: int,
}

impl View for NewMark {
    type V = NewMarkView;

    open spec fn view(&self) -> NewMarkView {
        NewMarkView { from: self.from as int, to: self.to as int }
    }
}

impl DeepView for NewMark {
    type V = NewMarkView;

    open spec fn deep_view(&self) -> NewMarkView {
        self.view()
    }
}

impl NewMarkView {
    /// A mark range is well-formed when `0 <= from <= to`.
    pub open spec fn wf(self) -> bool {
        0 <= self.from <= self.to
    }
}

/// A block inside a creation payload.
#[derive(Debug, Clone, PartialEq, Eq)]
pub struct NewBlock {
    pub text: String,
    pub marks: Vec<NewMark>,
}

/// The mathematical content of a [`NewBlock`].
pub ghost struct NewBlockView {
    pub text: Seq<char>,
    pub marks: Seq<NewMarkView>,
}

impl View for NewBlock {
    type V = NewBlockView;

    open spec fn view(&self) -> NewBlockView {
        NewBlockView { text: self.text@, marks: self.marks.deep_view() }
    }
}

impl DeepView for NewBlock {
    type V = NewBlockView;

    open spec fn deep_view(&self) -> NewBlockView {
        self.view()
    }
}

impl NewBlockView {
    /// All mark ranges of the block are well-formed.
    pub open spec fn ranges_ok(self) -> bool {
        forall|k: int| 0 <= k < self.marks.len() ==> (#[trigger] self.marks[k]).wf()
    }
}

/// The payload of a stack item creation: the ordered blocks of the new item.
#[derive(Debug, Clone, PartialEq, Eq)]
pub struct NewStackItem {
    pub blocks: Vec<NewBlock>,
}

/// The mathematical content of a [`NewStackItem`].
pub ghost struct NewStackItemView {
    pub blocks: Seq<NewBlockView>,
}

impl View for NewStackItem {
    type V = NewStackItemView;

    open spec fn view(&self) -> NewStackItemView {
        NewStackItemView { blocks: self.blocks.deep_view() }
    }
}

impl NewStackItemView {
    /// All mark ranges of the payload are well-formed.
    pub open spec fn ranges_ok(self) -> bool {
        forall|i: int| 0 <= i < self.blocks.len() ==> (#[trigger] self.blocks[i]).ranges_ok()
    }
}

/// A mark inside an update entry.  `id: Some` refers to a mark already stored
/// on the entry's block; `id: None` asks for a new mark.
#[derive(Debug, Clone, PartialEq, Eq)]
pub struct ChangeMark {
    pub id: Option<Id>,
    pub from: i32,
    pub to: i32,
}

/// The mathematical content of a [`ChangeMark`].
pub ghost struct ChangeMarkView {
    pub id: Option<Seq<char>>,
    pub from: int,
    pub to: int,
}

impl View for ChangeMark {
    type V = ChangeMarkView;

    open spec fn view(&self) -> ChangeMarkView {
        ChangeMarkView { id: self.id.deep_view(), from: self.from as int, to: self.to as int }
    }
}

impl DeepView for ChangeMark {
    type V = ChangeMarkView;

    open spec fn deep_view(&self) -> ChangeMarkView {
        self.view()
    }
}

impl ChangeMarkView {
    /// A mark range is well-formed when `0 <= from <= to`.
    pub open spec fn wf(self) -> bool {
        0 <= self.from <= self.to
    }
}

/// One entry of an update's block list.  `id: Some` of a stored block's id
/// describes that block's new content; `id: None`, or an id matching no stored
/// block, is a new insertion.
#[derive(Debug, Clone, PartialEq, Eq)]
pub struct UpdateBlock {
    pub id: Option<Id>,
    pub order: i32,
    pub text: String,
    pub marks: Vec<ChangeMark>,
}

/// The mathematical content of an [`UpdateBlock`].
pub ghost struct UpdateBlockView {
    pub id: Option<Seq<char>>,
    pub order: int,
    pub text: Seq<char>,
    pub marks: Seq<ChangeMarkView>,
}

impl View for UpdateBlock {
    type V = UpdateBlockView;

    open spec fn view(&self) -> UpdateBlockView {
        UpdateBlockView {
            id: self.id.deep_view(),
            order: self.order as int,
            text: self.text@,
            marks: self.marks.deep_view(),
        }
    }
}

impl DeepView for UpdateBlock {
    type V = UpdateBlockView;

    open spec fn deep_view(&self) -> UpdateBlockView {
        self.view()
    }
}

impl UpdateBlockView {
    /// All mark ranges of the entry are well-formed.
    pub open spec fn ranges_ok(self) -> bool {
        forall|k: int| 0 <= k < self.marks.len() ==> (#[trigger] self.marks[k]).wf()
    }
}

/// The payload of an update call: the stack item to change, the ids of the
/// blocks to remove, and the entries describing changed and new blocks.
#[derive(Debug, Clone, PartialEq, Eq)]
pub struct StackItemChangeSet {
    pub stack_id: Id,
    pub removed: Vec<Id>,
    pub updated: Vec<UpdateBlock>,
}

/// The mathematical content of a [`StackItemChangeSet`].
pub ghost struct ChangeSetView {
    pub stack_id: Seq<char>,
    pub removed: Seq<Seq<char>>,
    pub updated: Seq<UpdateBlockView>,
}

impl View for StackItemChangeSet {
    type V = ChangeSetView;

    open spec fn view(&self) -> ChangeSetView {
        ChangeSetView {
            stack_id: self.stack_id@,
            removed: self.removed.deep_view(),
            updated: self.updated.deep_view(),
        }
    }
}

impl ChangeSetView {
    /// Some id is named both in `removed` and by an entry of `updated`: the
    /// change set is ambiguous and must be rejected.
    pub open spec fn intersects(self) -> bool {
        exists|i: int, j: int|
            0 <= i < self.updated.len() && 0 <= j < self.removed.len() && (
            #[trigger] self.updated[i]).id == Some(#[trigger] self.removed[j])
    }

    /// All mark ranges of all entries are well-formed.
    pub open spec fn ranges_ok(self) -> bool {
        forall|i: int| 0 <= i < self.updated.len() ==> (#[trigger] self.updated[i]).ranges_ok()
    }
}

impl ChangeMark {
    /// An owned copy, equal to the original.
    pub fn clone_change_mark(&self) -> (r: ChangeMark)
        ensures
            r@ == self@,
    {
        let id = match &self.id {
            Some(id) => Some(id.dup()),
            None => None,
        };
        ChangeMark { id, from: self.from, to: self.to }
    }
}

impl UpdateBlock {
    /// An owned copy whose view equals the original's.
    pub fn clone_update_block(&self) -> (r: UpdateBlock)
        ensures
            r@ == self@,
    {
        let id = match &self.id {
            Some(id) => Some(id.dup()),
            None => None,
        };
        let mut marks: Vec<ChangeMark> = Vec::new();
        let mut k: usize = 0;
        while k < self.marks.len()
            invariant
                k <= self.marks.len(),
                marks.deep_view() == self.marks.deep_view().take(k as int),
            decreases self.marks.len() - k,
        {
            let ghost before = marks.deep_view();
            marks.push(self.marks[k].clone_change_mark());
            proof {
                assert(marks.deep_view() =~= before.push(self.marks.deep_view()[k as int]));
                assert(self.marks.deep_view().take(k as int + 1) =~= self.marks.deep_view().take(
                    k as int,
                ).push(self.marks.deep_view()[k as int]));
            }
            k = k + 1;
        }
        proof {
            assert(self.marks.deep_view().take(self.marks.len() as int) =~= self.marks.deep_view());
        }
        UpdateBlock { id, order: self.order, text: self.text.clone(), marks }
    }
}

} // verus!
