//! The history store: an append-only log of superseded block snapshots.
//!
//! A snapshot captures exactly the state of a block (text, marks, version) the
//! instant before it was removed or overwritten.  Entries are never updated or
//! deleted.
use vstd::prelude::*;

use crate::ids::Id;

verus! {

/// An immutable snapshot of one mark as it was inside a superseded block.
#[derive(Debug, Clone, PartialEq, Eq)]
pub struct InsertHistoryMark {
    pub mark_id: Id,
    pub from: i32,
    pub to: i32,
}

/// The mathematical content of an [`InsertHistoryMark`].
pub ghost struct HistoryMarkView {
    pub mark_id: Seq<char>,
    pub from: int,
    pub to: int,
}

impl View for InsertHistoryMark {
    type V = HistoryMarkView;

    open spec fn view(&self) -> HistoryMarkView {
        HistoryMarkView { mark_id: self.mark_id@, from: self.from as int, to: self.to as int }
    }
}

impl DeepView for InsertHistoryMark {
    type V = HistoryMarkView;

    open spec fn deep_view(&self) -> HistoryMarkView {
        self.view()
    }
}

/// An immutable snapshot of one block (and its marks) the instant before it
/// was removed or overwritten.
#[derive(Debug, Clone, PartialEq, Eq)]
pub struct InsertHistoryBlock {
    pub stack_id: Id,
    pub block_id: Id,
    pub version: i32,
    pub text: String,
    pub marks: Vec<InsertHistoryMark>,
}

/// The mathematical content of an [`InsertHistoryBlock`].
pub ghost struct HistoryBlockView {
    pub stack_id: Seq<char>,
    pub block_id: Seq<char>,
    pub version: int,
    pub text: Seq<char>,
    pub marks: Seq<HistoryMarkView>,
}

impl View for InsertHistoryBlock {
    type V = HistoryBlockView;

    open spec fn view(&self) -> HistoryBlockView {
        HistoryBlockView {
            stack_id: self.stack_id@,
            block_id: self.block_id@,
            version: self.version as int,
            text: self.text@,
            marks: self.marks.deep_view(),
        }
    }
}

impl DeepView for InsertHistoryBlock {
    type V = HistoryBlockView;

    open spec fn deep_view(&self) -> HistoryBlockView {
        self.view()
    }
}

/// The append-only history store.  Its view is the sequence of snapshots in
/// the order they were appended.
#[derive(Debug)]
pub struct StackHistoryRepo {
    rows: Vec<InsertHistoryBlock>,
}

impl View for StackHistoryRepo {
    type V = Seq<HistoryBlockView>;

    closed spec fn view(&self) -> Seq<HistoryBlockView> {
        self.rows.deep_view()
    }
}

impl StackHistoryRepo {
    /// An empty log.
    pub fn new() -> (r: StackHistoryRepo)
        ensures
            r@ == Seq::<HistoryBlockView>::empty(),
    {
        let r = StackHistoryRepo { rows: Vec::new() };
        proof {
            assert(r.rows.deep_view() =~= Seq::<HistoryBlockView>::empty());
        }
        r
    }

    /// Append the given snapshots, in order, to the end of the log.  Nothing
    /// already in the log moves or changes; an empty batch is a no-op.
    pub fn insert_many(&mut self, blocks: Vec<InsertHistoryBlock>) -> (n: usize)
        ensures
            final(self)@ == old(self)@ + blocks.deep_view(),
            n == blocks.len(),
    {
        let n = blocks.len();
        let mut blocks = blocks;
        let ghost pre = self.rows.deep_view();
        let ghost add = blocks.deep_view();
        self.rows.append(&mut blocks);
        proof {
            assert(self.rows.deep_view() =~= pre + add);
        }
        n
    }

    /// The snapshots appended so far, oldest first.
    pub fn entries(&self) -> (r: &Vec<InsertHistoryBlock>)
        ensures
            r.deep_view() == self@,
    {
        &self.rows
    }
}

impl InsertHistoryMark {
    /// An owned copy, equal to the original.
    pub fn clone_history_mark(&self) -> (r: InsertHistoryMark)
        ensures
            r@ == self@,
    {
        InsertHistoryMark { mark_id: self.mark_id.dup(), from: self.from, to: self.to }
    }
}

impl InsertHistoryBlock {
    /// An owned copy, equal to the original.
    pub fn clone_history_block(&self) -> (r: InsertHistoryBlock)
        ensures
            r@ == self@,
    {
        let mut marks: Vec<InsertHistoryMark> = Vec::new();
        let mut i: usize = 0;
        while i < self.marks.len()
            invariant
                i <= self.marks.len(),
                marks.deep_view() == self.marks.deep_view().take(i as int),
            decreases self.marks.len() - i,
        {
            let ghost before = marks.deep_view();
            marks.push(self.marks[i].clone_history_mark());
            proof {
                assert(marks.deep_view() =~= before.push(self.marks.deep_view()[i as int]));
                assert(self.marks.deep_view().take(i as int + 1) =~= self.marks.deep_view().take(
                    i as int,
                ).push(self.marks.deep_view()[i as int]));
            }
            i = i + 1;
        }
        proof {
            assert(self.marks.deep_view().take(self.marks.len() as int) =~= self.marks.deep_view());
        }
        InsertHistoryBlock {
            stack_id: self.stack_id.dup(),
            block_id: self.block_id.dup(),
            version: self.version,
            text: self.text.clone(),
            marks,
        }
    }
}

} // verus!
