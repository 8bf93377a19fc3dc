//! The resolved stack item model and the update orchestrator.
//!
//! A [`StackItem`] here is the fully hydrated shape a client edits: its blocks
//! in order, each block carrying its marks.  The orchestrator validates a
//! change set, classifies blocks and marks, writes history snapshots for
//! everything removed or overwritten, applies the change, and renumbers the
//! surviving blocks contiguously.
use vstd::prelude::*;

use crate::changes::{ChangeMarkView, ChangeSetView, NewStackItem, StackItemChangeSet, UpdateBlockView};
use crate::errors::{AppError, AppErrorType, AppErrorView, AppResult};
use crate::ids::{dec_digits, Id, IdGen};
use crate::repos::stack_history::{
    HistoryBlockView, HistoryMarkView, InsertHistoryBlock, InsertHistoryMark, StackHistoryRepo,
};
use crate::repos::users::User;
use crate::services::diff::{
    block_matches_entry, blocks_have_id, id_list_contains, spec_removed_blocks, spec_updated_pairs,
    updated_have_id,
};

verus! {

/// A character-range annotation of one block, as a client sees it.
#[derive(Debug, Clone, PartialEq, Eq)]
pub struct Mark {
    pub id: Id,
    pub from: i32,
    pub to: i32,
}

/// The mathematical content of a [`Mark`].
pub ghost struct MarkView {
    pub id: Seq<char>,
    pub from: int,
    pub to: int,
}

impl View for Mark {
    type V = MarkView;

    open spec fn view(&self) -> MarkView {
        MarkView { id: self.id@, from: self.from as int, to: self.to as int }
    }
}

impl DeepView for Mark {
    type V = MarkView;

    open spec fn deep_view(&self) -> MarkView {
        self.view()
    }
}

impl MarkView {
    /// A mark's range is well-formed when `0 <= from <= to`.
    pub open spec fn wf(self) -> bool {
        0 <= self.from <= self.to
    }
}

/// An ordered text unit of a stack item, with its marks resolved.
#[derive(Debug, Clone, PartialEq, Eq)]
pub struct Block {
    pub id: Id,
    pub stack_id: Id,
    pub order: i32,
    pub text: String,
    pub marks: Vec<Mark>,
    pub current_version: i32,
    pub initial_version: i32,
}

/// The mathematical content of a [`Block`].
pub ghost struct BlockView {
    pub id: Seq<char>,
    pub stack_id: Seq<char>,
    pub order: int,
    pub text: Seq<char>,
    pub marks: Seq<MarkView>,
    pub current_version: int,
    pub initial_version: int,
}

impl View for Block {
    type V = BlockView;

    open spec fn view(&self) -> BlockView {
        BlockView {
            id: self.id@,
            stack_id: self.stack_id@,
            order: self.order as int,
            text: self.text@,
            marks: self.marks.deep_view(),
            current_version: self.current_version as int,
            initial_version: self.initial_version as int,
        }
    }
}

impl DeepView for Block {
    type V = BlockView;

    open spec fn deep_view(&self) -> BlockView {
        self.view()
    }
}

/// Whether a mark with the given id occurs in the sequence.
pub open spec fn marks_have_id(marks: Seq<MarkView>, mark_id: Seq<char>) -> bool {
    exists|k: int| 0 <= k < marks.len() && (#[trigger] marks[k]).id == mark_id
}

/// Whether the block carries a mark with the given id.
pub open spec fn block_has_mark(b: BlockView, mark_id: Seq<char>) -> bool {
    marks_have_id(b.marks, mark_id)
}

impl BlockView {
    /// Well-formedness of one block: mark ranges are valid, mark ids are
    /// pairwise distinct, and the version counters are consistent.
    pub open spec fn wf(self) -> bool {
        &&& forall|k: int| 0 <= k < self.marks.len() ==> (#[trigger] self.marks[k]).wf()
        &&& forall|k: int, l: int|
            0 <= k < l < self.marks.len() ==> (#[trigger] self.marks[k]).id != (
            #[trigger] self.marks[l]).id
        &&& 0 <= self.initial_version <= self.current_version
        &&& 0 <= self.order
    }
}

/// The top-level ordered container of blocks a user edits as one unit.
#[derive(Debug, Clone, PartialEq, Eq)]
pub struct StackItem {
    pub id: Id,
    pub blocks: Vec<Block>,
}

/// The mathematical content of a [`StackItem`].
pub ghost struct StackItemView {
    pub id: Seq<char>,
    pub blocks: Seq<BlockView>,
}

impl View for StackItem {
    type V = StackItemView;

    open spec fn view(&self) -> StackItemView {
        StackItemView { id: self.id@, blocks: self.blocks.deep_view() }
    }
}

impl DeepView for StackItem {
    type V = StackItemView;

    open spec fn deep_view(&self) -> StackItemView {
        self.view()
    }
}

impl StackItemView {
    /// Well-formedness of a resolved stack item: every block is well-formed,
    /// belongs to this item, sits at the order equal to its position (the
    /// contiguous `0..n` renumbering invariant), block ids are pairwise
    /// distinct, and no mark id occurs in two different blocks.
    pub open spec fn wf(self) -> bool {
        &&& forall|i: int| 0 <= i < self.blocks.len() ==> (#[trigger] self.blocks[i]).wf()
        &&& forall|i: int|
            0 <= i < self.blocks.len() ==> (#[trigger] self.blocks[i]).stack_id == self.id
        &&& forall|i: int| 0 <= i < self.blocks.len() ==> (#[trigger] self.blocks[i]).order == i
        &&& forall|i: int, j: int|
            0 <= i < j < self.blocks.len() ==> (#[trigger] self.blocks[i]).id != (
            #[trigger] self.blocks[j]).id
        &&& forall|i: int, j: int, mark_id: Seq<char>|
            0 <= i < self.blocks.len() && 0 <= j < self.blocks.len() && i != j ==> !(
            #[trigger] block_has_mark(self.blocks[i], mark_id) && #[trigger] block_has_mark(
                self.blocks[j],
                mark_id,
            ))
    }
}

impl Mark {
    /// An owned copy whose view equals the original's.
    pub fn clone_mark(&self) -> (r: Mark)
        ensures
            r@ == self@,
    {
        Mark { id: self.id.dup(), from: self.from, to: self.to }
    }
}

impl Block {
    /// An owned copy whose view equals the original's.
    pub fn clone_block(&self) -> (r: Block)
        ensures
            r@ == self@,
    {
        let mut marks: Vec<Mark> = Vec::new();
        let mut k: usize = 0;
        while k < self.marks.len()
            invariant
                k <= self.marks.len(),
                marks.deep_view() == self.marks.deep_view().take(k as int),
            decreases self.marks.len() - k,
        {
            let ghost before = marks.deep_view();
            marks.push(self.marks[k].clone_mark());
            proof {
                assert(marks.deep_view() =~= before.push(self.marks.deep_view()[k as int]));
                assert(self.marks.deep_view().take(k as int + 1) =~= self.marks.deep_view().take(
                    k as int,
                ).push(self.marks.deep_view()[k as int]));
            }
            k = k + 1;
        }
        proof {
            assert(self.marks.deep_view().take(self.marks.len() as int) =~= self.marks.deep_view());
        }
        Block {
            id: self.id.dup(),
            stack_id: self.stack_id.dup(),
            order: self.order,
            text: self.text.clone(),
            marks,
            current_version: self.current_version,
            initial_version: self.initial_version,
        }
    }
}

impl StackItem {
    /// An owned copy whose view equals the original's.
    pub fn clone_stack_item(&self) -> (r: StackItem)
        ensures
            r@ == self@,
    {
        let mut blocks: Vec<Block> = Vec::new();
        let mut i: usize = 0;
        while i < self.blocks.len()
            invariant
                i <= self.blocks.len(),
                blocks.deep_view() == self.blocks.deep_view().take(i as int),
            decreases self.blocks.len() - i,
        {
            let ghost before = blocks.deep_view();
            blocks.push(self.blocks[i].clone_block());
            proof {
                assert(blocks.deep_view() =~= before.push(self.blocks.deep_view()[i as int]));
                assert(self.blocks.deep_view().take(i as int + 1) =~= self.blocks.deep_view().take(
                    i as int,
                ).push(self.blocks.deep_view()[i as int]));
            }
            i = i + 1;
        }
        proof {
            assert(self.blocks.deep_view().take(self.blocks.len() as int)
                =~= self.blocks.deep_view());
        }
        StackItem { id: self.id.dup(), blocks }
    }
}

// ---------------------------------------------------------------------------
// The mathematical model of an update: what the orchestrator computes, stated
// over views.  The executable code below is proved against these functions.
// ---------------------------------------------------------------------------
/// A block is untouched by a change set when it is neither removed nor
/// targeted by any entry.
pub open spec fn is_untouched(cs: ChangeSetView, b: BlockView) -> bool {
    !id_list_contains(cs.removed, b.id) && !updated_have_id(cs.updated, b.id)
}

/// The untouched blocks, in stored order.
pub open spec fn spec_untouched_blocks(blocks: Seq<BlockView>, cs: ChangeSetView) -> Seq<BlockView> {
    blocks.filter(|b: BlockView| is_untouched(cs, b))
}

/// The first stored block carrying the given id.
pub open spec fn block_by_id(blocks: Seq<BlockView>, id: Seq<char>) -> BlockView
    recommends
        blocks_have_id(blocks, id),
    decreases blocks.len(),
{
    if blocks.len() == 0 {
        arbitrary()
    } else if blocks[0].id == id {
        blocks[0]
    } else {
        block_by_id(blocks.drop_first(), id)
    }
}

/// The block by id is the one at the first matching position.
pub proof fn lemma_block_by_id(blocks: Seq<BlockView>, id: Seq<char>, j: int)
    requires
        0 <= j < blocks.len(),
        blocks[j].id == id,
        forall|k: int| 0 <= k < j ==> (#[trigger] blocks[k]).id != id,
    ensures
        block_by_id(blocks, id) == blocks[j],
    decreases j,
{
    if j > 0 {
        lemma_block_by_id(blocks.drop_first(), id, j - 1);
    }
}

/// The ids named by `Some` entries among the first `upto` change marks.
pub open spec fn seen_mark_ids(cms: Seq<ChangeMarkView>, upto: int) -> Set<Seq<char>> {
    Set::new(|mid: Seq<char>| exists|j: int| 0 <= j < upto && (#[trigger] cms[j]).id == Some(mid))
}

/// The ids named by `Some` entries among the first `upto` block entries.
pub open spec fn seen_entry_ids(entries: Seq<UpdateBlockView>, upto: int) -> Set<Seq<char>> {
    Set::new(
        |id: Seq<char>| exists|j: int| 0 <= j < upto && (#[trigger] entries[j]).id == Some(id),
    )
}

/// The merged mark list of a modified block, and the allocator counter after
/// it.  Change marks are processed in list order: a mark naming a stored
/// mark's id keeps that identity and takes the entry's range (the first such
/// entry wins; later duplicates are dropped); a mark naming an unknown id is
/// stale and dropped; a mark without an id becomes a new mark under a fresh
/// id.  Stored marks that no change mark names are gone from the result:
/// absent means removed.
pub open spec fn spec_merge_marks(
    old_marks: Seq<MarkView>,
    cms: Seq<ChangeMarkView>,
    next: nat,
    seen: Set<Seq<char>>,
) -> (Seq<MarkView>, nat)
    decreases cms.len(),
{
    if cms.len() == 0 {
        (Seq::<MarkView>::empty(), next)
    } else {
        let cm = cms[0];
        let rest = cms.drop_first();
        match cm.id {
            Some(mid) => {
                if marks_have_id(old_marks, mid) && !seen.contains(mid) {
                    let r = spec_merge_marks(old_marks, rest, next, seen.insert(mid));
                    (seq![MarkView { id: mid, from: cm.from, to: cm.to }] + r.0, r.1)
                } else {
                    spec_merge_marks(old_marks, rest, next, seen.insert(mid))
                }
            },
            None => {
                let r = spec_merge_marks(old_marks, rest, next + 1, seen);
                (seq![MarkView { id: dec_digits(next), from: cm.from, to: cm.to }] + r.0, r.1)
            },
        }
    }
}

/// The marks of a newly inserted block: every change mark becomes a new mark
/// under a fresh id, whatever id it carried, since marks are never moved
/// between blocks.
pub open spec fn spec_new_marks(cms: Seq<ChangeMarkView>, next: nat) -> (Seq<MarkView>, nat)
    decreases cms.len(),
{
    if cms.len() == 0 {
        (Seq::<MarkView>::empty(), next)
    } else {
        let r = spec_new_marks(cms.drop_first(), next + 1);
        (seq![MarkView { id: dec_digits(next), from: cms[0].from, to: cms[0].to }] + r.0, r.1)
    }
}

/// The blocks produced from the caller's entry list, in entry order, and the
/// allocator counter after them.  An entry targeting a stored block yields
/// that block unchanged (when the entry matches it) or overwritten with a
/// version bump; only the first entry for a given stored block counts.  Any
/// other entry yields a new block under a fresh id with version `0`.
pub open spec fn spec_entry_blocks(
    old_blocks: Seq<BlockView>,
    stack_id: Seq<char>,
    entries: Seq<UpdateBlockView>,
    next: nat,
    seen: Set<Seq<char>>,
) -> (Seq<BlockView>, nat)
    decreases entries.len(),
{
    if entries.len() == 0 {
        (Seq::<BlockView>::empty(), next)
    } else {
        let e = entries[0];
        let rest = entries.drop_first();
        match e.id {
            Some(id) => {
                if blocks_have_id(old_blocks, id) {
                    if seen.contains(id) {
                        spec_entry_blocks(old_blocks, stack_id, rest, next, seen.insert(id))
                    } else {
                        let b = block_by_id(old_blocks, id);
                        if block_matches_entry(b, e) {
                            let r = spec_entry_blocks(
                                old_blocks,
                                stack_id,
                                rest,
                                next,
                                seen.insert(id),
                            );
                            (seq![b] + r.0, r.1)
                        } else {
                            let m = spec_merge_marks(b.marks, e.marks, next, Set::empty());
                            let nb = BlockView {
                                id,
                                stack_id,
                                order: b.order,
                                text: e.text,
                                marks: m.0,
                                current_version: b.current_version + 1,
                                initial_version: b.initial_version,
                            };
                            let r = spec_entry_blocks(
                                old_blocks,
                                stack_id,
                                rest,
                                m.1,
                                seen.insert(id),
                            );
                            (seq![nb] + r.0, r.1)
                        }
                    }
                } else {
                    let m = spec_new_marks(e.marks, (next + 1) as nat);
                    let nb = BlockView {
                        id: dec_digits(next),
                        stack_id,
                        order: 0,
                        text: e.text,
                        marks: m.0,
                        current_version: 0,
                        initial_version: 0,
                    };
                    let r = spec_entry_blocks(old_blocks, stack_id, rest, m.1, seen.insert(id));
                    (seq![nb] + r.0, r.1)
                }
            },
            None => {
                let m = spec_new_marks(e.marks, (next + 1) as nat);
                let nb = BlockView {
                    id: dec_digits(next),
                    stack_id,
                    order: 0,
                    text: e.text,
                    marks: m.0,
                    current_version: 0,
                    initial_version: 0,
                };
                let r = spec_entry_blocks(old_blocks, stack_id, rest, m.1, seen);
                (seq![nb] + r.0, r.1)
            },
        }
    }
}

/// The same blocks with their `order` fields recomputed to the contiguous
/// sequence `0, 1, …, n-1`.
pub open spec fn spec_renumber(blocks: Seq<BlockView>) -> Seq<BlockView> {
    Seq::new(blocks.len(), |i: int| BlockView { order: i, ..blocks[i] })
}

/// The blocks of the updated item (untouched blocks in stored order, then the
/// entry-list blocks in entry order, renumbered), and the allocator counter
/// after the update.
pub open spec fn spec_updated_blocks(old_item: StackItemView, cs: ChangeSetView, next: nat) -> (
    Seq<BlockView>,
    nat,
) {
    let built = spec_entry_blocks(old_item.blocks, old_item.id, cs.updated, next, Set::empty());
    (spec_renumber(spec_untouched_blocks(old_item.blocks, cs) + built.0), built.1)
}

/// The updated stack item.
pub open spec fn spec_updated_item(old_item: StackItemView, cs: ChangeSetView, next: nat)
    -> StackItemView {
    StackItemView { id: old_item.id, blocks: spec_updated_blocks(old_item, cs, next).0 }
}

/// The history snapshot of a block: its pre-mutation text, marks and version.
pub open spec fn history_of_block(stack_id: Seq<char>, b: BlockView) -> HistoryBlockView {
    HistoryBlockView {
        stack_id,
        block_id: b.id,
        version: b.current_version,
        text: b.text,
        marks: b.marks.map_values(
            |m: MarkView| HistoryMarkView { mark_id: m.id, from: m.from, to: m.to },
        ),
    }
}

/// The history snapshots an update appends: one per removed block, then one
/// per modified block, each capturing the block as loaded before the update.
pub open spec fn spec_update_history(old_item: StackItemView, cs: ChangeSetView) -> Seq<
    HistoryBlockView,
> {
    spec_removed_blocks(old_item.blocks, cs.removed).map_values(
        |b: BlockView| history_of_block(old_item.id, b),
    ) + spec_updated_pairs(old_item.blocks, cs.updated).map_values(
        |p: (BlockView, UpdateBlockView)| history_of_block(old_item.id, p.0),
    )
}

/// Some stored block both is targeted by an entry that changes it and already
/// sits at the largest representable version, so its version cannot be
/// bumped.
pub open spec fn spec_version_guard(old_item: StackItemView, cs: ChangeSetView) -> bool {
    exists|i: int|
        0 <= i < spec_updated_pairs(old_item.blocks, cs.updated).len() && (
        #[trigger] spec_updated_pairs(old_item.blocks, cs.updated)[i]).0.current_version
            >= i32::MAX
}

/// The marks of a block in a creation payload: one fresh mark per given
/// range, in order.
pub open spec fn spec_create_marks(nms: Seq<crate::changes::NewMarkView>, next: nat) -> (
    Seq<MarkView>,
    nat,
)
    decreases nms.len(),
{
    if nms.len() == 0 {
        (Seq::<MarkView>::empty(), next)
    } else {
        let r = spec_create_marks(nms.drop_first(), next + 1);
        (seq![MarkView { id: dec_digits(next), from: nms[0].from, to: nms[0].to }] + r.0, r.1)
    }
}

/// The blocks of a creation payload: each under a fresh id at version `0`,
/// with fresh marks, in payload order.
pub open spec fn spec_create_blocks(
    blocks: Seq<crate::changes::NewBlockView>,
    stack_id: Seq<char>,
    next: nat,
) -> (Seq<BlockView>, nat)
    decreases blocks.len(),
{
    if blocks.len() == 0 {
        (Seq::<BlockView>::empty(), next)
    } else {
        let m = spec_create_marks(blocks[0].marks, next + 1);
        let b = BlockView {
            id: dec_digits(next),
            stack_id,
            order: 0,
            text: blocks[0].text,
            marks: m.0,
            current_version: 0,
            initial_version: 0,
        };
        let r = spec_create_blocks(blocks.drop_first(), stack_id, m.1);
        (seq![b] + r.0, r.1)
    }
}

/// The stack item a creation payload produces, and the allocator counter
/// after it: the item id first, then each block and its marks.
pub open spec fn spec_new_stack_item(ns: crate::changes::NewStackItemView, next: nat) -> (
    StackItemView,
    nat,
) {
    let id = dec_digits(next);
    let b = spec_create_blocks(ns.blocks, id, next + 1);
    (StackItemView { id, blocks: spec_renumber(b.0) }, b.1)
}

/// The number of identifiers a creation payload's blocks consume: one per
/// block plus one per mark (the item's own id not counted).
pub open spec fn spec_create_ids_need(blocks: Seq<crate::changes::NewBlockView>) -> nat
    decreases blocks.len(),
{
    if blocks.len() == 0 {
        0
    } else {
        (spec_create_ids_need(blocks.drop_last()) + 1 + blocks.last().marks.len()) as nat
    }
}

/// The creation identifier need decomposes at the front of the list.
pub proof fn lemma_create_need_first(blocks: Seq<crate::changes::NewBlockView>)
    requires
        blocks.len() > 0,
    ensures
        spec_create_ids_need(blocks) == 1 + blocks[0].marks.len() + spec_create_ids_need(
            blocks.drop_first(),
        ),
    decreases blocks.len(),
{
    if blocks.len() == 1 {
        assert(blocks.drop_last() =~= Seq::<crate::changes::NewBlockView>::empty());
        assert(blocks.drop_first() =~= Seq::<crate::changes::NewBlockView>::empty());
        assert(blocks.last() == blocks[0]);
    } else {
        lemma_create_need_first(blocks.drop_last());
        assert(blocks.drop_last().drop_first() =~= blocks.drop_first().drop_last());
        assert(blocks.drop_last()[0] == blocks[0]);
        assert(blocks.drop_first().last() == blocks.last());
    }
}

/// The creation identifier need of a prefix never exceeds the whole list's.
pub proof fn lemma_create_need_prefix(blocks: Seq<crate::changes::NewBlockView>, i: int)
    requires
        0 <= i <= blocks.len(),
    ensures
        spec_create_ids_need(blocks.take(i)) <= spec_create_ids_need(blocks),
    decreases blocks.len() - i,
{
    if i == blocks.len() {
        assert(blocks.take(i) =~= blocks);
    } else {
        assert(blocks.take(i + 1).drop_last() =~= blocks.take(i));
        assert(blocks.take(i + 1).last() == blocks[i]);
        assert(spec_create_ids_need(blocks.take(i)) <= spec_create_ids_need(blocks.take(i + 1)));
        lemma_create_need_prefix(blocks, i + 1);
    }
}

/// The error a creation returns, or `None` when it succeeds: the payload must
/// hold at least one block, all mark ranges must be valid, and the allocator
/// and order counters must be representable.
pub open spec fn spec_add_error(ns: crate::changes::NewStackItemView, next: nat) -> Option<
    AppErrorView,
> {
    if ns.blocks.len() == 0 {
        Some(
            AppErrorView {
                message: "Can not add empty stack item"@,
                error_type: AppErrorType::ValidationError,
            },
        )
    } else if !ns.ranges_ok() {
        Some(
            AppErrorView {
                message: "mark range is invalid"@,
                error_type: AppErrorType::ValidationError,
            },
        )
    } else if next + 1 + spec_create_ids_need(ns.blocks) > u64::MAX {
        Some(
            AppErrorView {
                message: "internal server error"@,
                error_type: AppErrorType::InternalServerError,
            },
        )
    } else if ns.blocks.len() > i32::MAX {
        Some(
            AppErrorView {
                message: "internal server error"@,
                error_type: AppErrorType::InternalServerError,
            },
        )
    } else {
        None
    }
}

/// The error an update returns, or `None` when the update succeeds, checked
/// in this order: the stack item must exist and be owned by the caller;
/// `removed` and the entry ids must be disjoint; all mark ranges must be
/// valid; every overwritten block's version and the allocator and order
/// counters must be representable; and the resulting item must keep at least
/// one block.
pub open spec fn spec_update_error(
    items: Seq<StoredItemView>,
    user_id: Seq<char>,
    cs: ChangeSetView,
    next: nat,
) -> Option<AppErrorView> {
    let idx = find_item_idx(items, cs.stack_id);
    if idx == -1 || items[idx].user_id != user_id {
        Some(
            AppErrorView {
                message: "Stack item not found"@,
                error_type: AppErrorType::NotFound,
            },
        )
    } else {
        let old_item = items[idx].item;
        if cs.intersects() {
            Some(
                AppErrorView {
                    message: "updated and removed changes intersects"@,
                    error_type: AppErrorType::ValidationError,
                },
            )
        } else if !cs.ranges_ok() {
            Some(
                AppErrorView {
                    message: "mark range is invalid"@,
                    error_type: AppErrorType::ValidationError,
                },
            )
        } else if spec_version_guard(old_item, cs) {
            Some(
                AppErrorView {
                    message: "internal server error"@,
                    error_type: AppErrorType::InternalServerError,
                },
            )
        } else if next + spec_ids_need(cs.updated) > u64::MAX {
            Some(
                AppErrorView {
                    message: "internal server error"@,
                    error_type: AppErrorType::InternalServerError,
                },
            )
        } else if spec_updated_item(old_item, cs, next).blocks.len() == 0 {
            Some(
                AppErrorView {
                    message: "cannot reduce stack item to empty"@,
                    error_type: AppErrorType::ValidationError,
                },
            )
        } else if spec_updated_item(old_item, cs, next).blocks.len() > i32::MAX {
            Some(
                AppErrorView {
                    message: "internal server error"@,
                    error_type: AppErrorType::InternalServerError,
                },
            )
        } else {
            None
        }
    }
}

// ---------------------------------------------------------------------------
// The in-memory store and the orchestrator.
// ---------------------------------------------------------------------------
/// A stack item as stored, together with the user who owns it.
#[derive(Debug, Clone, PartialEq, Eq)]
pub struct StoredStackItem {
    pub user_id: Id,
    pub item: StackItem,
}

/// The mathematical content of a [`StoredStackItem`].
pub ghost struct StoredItemView {
    pub user_id: Seq<char>,
    pub item: StackItemView,
}

impl View for StoredStackItem {
    type V = StoredItemView;

    open spec fn view(&self) -> StoredItemView {
        StoredItemView { user_id: self.user_id@, item: self.item@ }
    }
}

impl DeepView for StoredStackItem {
    type V = StoredItemView;

    open spec fn deep_view(&self) -> StoredItemView {
        self.view()
    }
}

/// The mathematical content of the whole service: the stored items in order,
/// the history log, and the identifier allocator's counter.
pub ghost struct StackServiceView {
    pub items: Seq<StoredItemView>,
    pub history: Seq<HistoryBlockView>,
    pub next: nat,
}

/// The update orchestrator over the in-memory store: it owns the stored stack
/// items, the append-only history log, and the identifier allocator.
#[derive(Debug)]
pub struct StackService {
    items: Vec<StoredStackItem>,
    stack_history_repo: StackHistoryRepo,
    id_gen: IdGen,
}

impl View for StackService {
    type V = StackServiceView;

    closed spec fn view(&self) -> StackServiceView {
        StackServiceView {
            items: self.items.deep_view(),
            history: self.stack_history_repo@,
            next: self.id_gen@,
        }
    }
}

/// The id was allocated before the counter reached `n`.
pub open spec fn id_bounded(id: Seq<char>, n: nat) -> bool {
    exists|k: nat| k < n && id == dec_digits(k)
}

/// All ids a stack item carries were allocated before the counter reached
/// `n`.
pub open spec fn item_ids_bounded(item: StackItemView, n: nat) -> bool {
    &&& id_bounded(item.id, n)
    &&& forall|i: int| 0 <= i < item.blocks.len() ==> id_bounded((#[trigger] item.blocks[i]).id, n)
    &&& forall|i: int, k: int|
        0 <= i < item.blocks.len() && 0 <= k < item.blocks[i].marks.len() ==> id_bounded(
            (#[trigger] item.blocks[i].marks[k]).id,
            n,
        )
}

impl StackServiceView {
    /// The store's invariant: every stored item is well-formed, item ids are
    /// pairwise distinct, and every entity id was handed out by the
    /// allocator before its current counter value.
    pub open spec fn wf(self) -> bool {
        &&& forall|i: int| 0 <= i < self.items.len() ==> (#[trigger] self.items[i]).item.wf()
        &&& forall|i: int|
            0 <= i < self.items.len() ==> item_ids_bounded(
                (#[trigger] self.items[i]).item,
                self.next,
            )
        &&& forall|i: int, j: int|
            0 <= i < j < self.items.len() ==> (#[trigger] self.items[i]).item.id != (
            #[trigger] self.items[j]).item.id
    }
}

/// The position of the stored item with the given id, or `-1`.
pub open spec fn find_item_idx(items: Seq<StoredItemView>, stack_id: Seq<char>) -> int
    decreases items.len(),
{
    if items.len() == 0 {
        -1
    } else if items[0].item.id == stack_id {
        0
    } else {
        let r = find_item_idx(items.drop_first(), stack_id);
        if r == -1 {
            -1
        } else {
            r + 1
        }
    }
}

/// What `find_item_idx` returns: `-1` when no item has the id, else the first
/// position with it.
pub proof fn lemma_find_item_idx(items: Seq<StoredItemView>, stack_id: Seq<char>)
    ensures
        find_item_idx(items, stack_id) == -1 ==> forall|i: int|
            0 <= i < items.len() ==> (#[trigger] items[i]).item.id != stack_id,
        find_item_idx(items, stack_id) != -1 ==> {
            let r = find_item_idx(items, stack_id);
            &&& 0 <= r < items.len()
            &&& items[r].item.id == stack_id
            &&& forall|i: int| 0 <= i < r ==> (#[trigger] items[i]).item.id != stack_id
        },
    decreases items.len(),
{
    if items.len() > 0 && items[0].item.id != stack_id {
        let rest = items.drop_first();
        lemma_find_item_idx(rest, stack_id);
        assert forall|i: int| 1 <= i < items.len() implies items[i] == rest[i - 1] by {
            assert(rest[i - 1] == items[i]);
        }
        let rr = find_item_idx(rest, stack_id);
        if rr == -1 {
            assert forall|i: int|
                0 <= i < items.len() implies (#[trigger] items[i]).item.id != stack_id by {
                if i >= 1 {
                    assert(items[i] == rest[i - 1]);
                }
            }
        } else {
            assert(find_item_idx(items, stack_id) == rr + 1);
            assert(items[rr + 1] == rest[rr]);
            assert forall|i: int| 0 <= i < rr + 1 implies (#[trigger] items[i]).item.id
                != stack_id by {
                if i >= 1 {
                    assert(items[i] == rest[i - 1]);
                }
            }
        }
    }
}

impl StackService {
    /// An empty store with a fresh allocator.
    pub fn new() -> (r: StackService)
        ensures
            r@.items == Seq::<StoredItemView>::empty(),
            r@.history == Seq::<HistoryBlockView>::empty(),
            r@.next == 0,
            r@.wf(),
    {
        let r = StackService {
            items: Vec::new(),
            stack_history_repo: StackHistoryRepo::new(),
            id_gen: IdGen::new(),
        };
        proof {
            assert(r.items.deep_view() =~= Seq::<StoredItemView>::empty());
        }
        r
    }

    /// The position of the stored item owned by `user_id` with id `stack_id`,
    /// if any.  An item with the right id but another owner is not found.
    fn find_index(&self, user_id: &Id, stack_item_id: &Id) -> (r: Option<usize>)
        ensures
            ({
                let idx = find_item_idx(self@.items, stack_item_id@);
                match r {
                    Some(i) => idx >= 0 && i == idx && i < self@.items.len()
                        && self@.items[idx].user_id == user_id@,
                    None => idx == -1 || self@.items[idx].user_id != user_id@,
                }
            }),
    {
        proof {
            lemma_find_item_idx(self@.items, stack_item_id@);
        }
        let mut i: usize = 0;
        while i < self.items.len()
            invariant
                i <= self.items.len(),
                forall|j: int|
                    0 <= j < i ==> (#[trigger] self.items.deep_view()[j]).item.id
                        != stack_item_id@,
            decreases self.items.len() - i,
        {
            if self.items[i].item.id == *stack_item_id {
                assert(self.items.deep_view()[i as int].item.id == stack_item_id@);
                assert(find_item_idx(self@.items, stack_item_id@) == i as int);
                if self.items[i].user_id == *user_id {
                    return Some(i);
                } else {
                    return None;
                }
            }
            i = i + 1;
        }
        None
    }

    /// The stack item owned by `user_id` with id `stack_item_id`, fully
    /// hydrated, if the store holds one.
    pub fn find_stack_item_by_user_id_and_stack_item_id(
        &self,
        user_id: &Id,
        stack_item_id: &Id,
    ) -> (r: Option<StackItem>)
        ensures
            ({
                let idx = find_item_idx(self@.items, stack_item_id@);
                match r {
                    Some(item) => idx >= 0 && self@.items[idx].user_id == user_id@ && item@
                        == self@.items[idx].item,
                    None => idx == -1 || self@.items[idx].user_id != user_id@,
                }
            }),
    {
        match self.find_index(user_id, stack_item_id) {
            Some(i) => Some(self.items[i].item.clone_stack_item()),
            None => None,
        }
    }

    /// All stack items of the user, in store order, fully hydrated.
    pub fn my_stack(&self, user: &User) -> (r: Vec<StackItem>)
        ensures
            r.deep_view() == self@.items.filter(
                |s: StoredItemView| s.user_id == user@.id,
            ).map_values(|s: StoredItemView| s.item),
    {
        let ghost items = self@.items;
        let ghost pred = |s: StoredItemView| s.user_id == user@.id;
        let ghost f = |s: StoredItemView| s.item;
        let mut r: Vec<StackItem> = Vec::new();
        let mut i: usize = 0;
        while i < self.items.len()
            invariant
                i <= self.items.len(),
                items == self.items.deep_view(),
                r.deep_view() == items.take(i as int).filter(pred).map_values(f),
            decreases self.items.len() - i,
        {
            let s = &self.items[i];
            let ghost before = r.deep_view();
            let hit = s.user_id == user.id;
            if hit {
                r.push(s.item.clone_stack_item());
                proof {
                    assert(r.deep_view() =~= before.push(items[i as int].item));
                }
            }
            proof {
                assert(pred(items[i as int]) == hit);
                assert(items.take(i as int + 1).drop_last() =~= items.take(i as int));
                assert(items.take(i as int + 1).last() == items[i as int]);
                reveal_with_fuel(Seq::filter, 2);
                assert(items.take(i as int + 1).filter(pred) == if pred(items[i as int]) {
                    items.take(i as int).filter(pred).push(items[i as int])
                } else {
                    items.take(i as int).filter(pred)
                });
                if hit {
                    assert(items.take(i as int + 1).filter(pred).map_values(f) =~= items.take(
                        i as int,
                    ).filter(pred).map_values(f).push(f(items[i as int])));
                } else {
                    assert(items.take(i as int + 1).filter(pred).map_values(f) =~= items.take(
                        i as int,
                    ).filter(pred).map_values(f));
                }
            }
            i = i + 1;
        }
        proof {
            assert(items.take(self.items.len() as int) =~= items);
        }
        r
    }

    /// The history snapshots appended so far, oldest first.
    pub fn history(&self) -> (r: &Vec<InsertHistoryBlock>)
        ensures
            r.deep_view() == self@.history,
    {
        self.stack_history_repo.entries()
    }

    /// Create a new stack item for the caller from the given payload.
    ///
    /// The payload must hold at least one block and every mark range must
    /// satisfy `0 <= from <= to`; otherwise a validation error is returned
    /// and nothing is stored.  On success the new item holds one block per
    /// payload block, in payload order with orders `0, 1, …, n-1`, every
    /// block at version `0` under a fresh id, with one fresh mark per given
    /// range.  No history is written.
    pub fn add_to_my_stack(&mut self, user: User, stack_item: NewStackItem) -> (r: AppResult<
        StackItem,
    >)
        requires
            old(self)@.wf(),
        ensures
            final(self)@.wf(),
            final(self)@.next >= old(self)@.next,
            final(self)@.history == old(self)@.history,
            ({
                let pre = old(self)@;
                let err = spec_add_error(stack_item@, pre.next);
                match r {
                    Result::Err(e) => err == Some(e@) && final(self)@.items == pre.items,
                    Result::Ok(item) => {
                        &&& err is None
                        &&& item@ == spec_new_stack_item(stack_item@, pre.next).0
                        &&& item@.wf()
                        &&& final(self)@.items == pre.items.push(
                            StoredItemView { user_id: user@.id, item: item@ },
                        )
                        &&& final(self)@.next == spec_new_stack_item(stack_item@, pre.next).1
                    },
                }
            }),
    {
        let ghost pre = self@;
        if stack_item.blocks.len() == 0 {
            return Err(AppError::validation("Can not add empty stack item"));
        }
        if !new_item_ranges_ok(&stack_item) {
            return Err(AppError::validation("mark range is invalid"));
        }
        let need = match compute_create_ids_need(&stack_item.blocks) {
            Some(n) => n,
            None => {
                return Err(AppError::internal());
            },
        };
        if need > u64::MAX - 1 || !self.id_gen.fits(need + 1) {
            return Err(AppError::internal());
        }
        if stack_item.blocks.len() > (i32::MAX as usize) {
            return Err(AppError::internal());
        }
        let ghost next0 = pre.next;
        let item_id = self.id_gen.fresh();
        let mut blocks = build_create_blocks(&stack_item.blocks, &item_id, &mut self.id_gen);
        let ghost built_v = blocks.deep_view();
        let ghost next1 = self.id_gen@;
        renumber_blocks(&mut blocks);
        let new_item = StackItem { id: item_id, blocks };
        let ghost niv = new_item@;
        proof {
            assert(niv.blocks =~= spec_renumber(built_v));
            assert(niv == spec_new_stack_item(stack_item@, next0).0);
            assert(niv.wf()) by {
                assert forall|i: int| 0 <= i < niv.blocks.len() implies ((
                #[trigger] niv.blocks[i]).wf() && niv.blocks[i].stack_id == niv.id
                    && niv.blocks[i].order == i) by {
                    assert(niv.blocks[i] == (BlockView { order: i, ..built_v[i] }));
                    assert(built_v[i].wf());
                }
                assert forall|i: int, j: int|
                    0 <= i < j < niv.blocks.len() implies (#[trigger] niv.blocks[i]).id != (
                #[trigger] niv.blocks[j]).id by {
                    assert(built_v[i].id != built_v[j].id);
                }
                assert forall|i: int, j: int, mark_id: Seq<char>|
                    0 <= i < niv.blocks.len() && 0 <= j < niv.blocks.len() && i != j implies !(
                #[trigger] block_has_mark(niv.blocks[i], mark_id) && #[trigger] block_has_mark(
                    niv.blocks[j],
                    mark_id,
                )) by {
                    if block_has_mark(niv.blocks[i], mark_id) && block_has_mark(
                        niv.blocks[j],
                        mark_id,
                    ) {
                        let k = choose|k: int|
                            0 <= k < niv.blocks[i].marks.len() && (
                            #[trigger] niv.blocks[i].marks[k]).id == mark_id;
                        let l = choose|l: int|
                            0 <= l < niv.blocks[j].marks.len() && (
                            #[trigger] niv.blocks[j].marks[l]).id == mark_id;
                        assert(built_v[i].marks[k].id != built_v[j].marks[l].id);
                    }
                }
            }
            assert(item_ids_bounded(niv, next1)) by {
                assert(next0 < next1 && niv.id == dec_digits(next0));
                assert forall|i: int| 0 <= i < niv.blocks.len() implies id_bounded(
                    (#[trigger] niv.blocks[i]).id,
                    next1,
                ) by {
                    assert(id_bounded(built_v[i].id, next1));
                }
                assert forall|i: int, k: int|
                    0 <= i < niv.blocks.len() && 0 <= k < niv.blocks[i].marks.len() implies
                    id_bounded((#[trigger] niv.blocks[i].marks[k]).id, next1) by {
                    assert(id_bounded(built_v[i].marks[k].id, next1));
                }
            }
        }
        let stored = new_item.clone_stack_item();
        self.items.push(StoredStackItem { user_id: user.id, item: stored });
        proof {
            assert(self.items.deep_view() =~= pre.items.push(
                StoredItemView { user_id: user@.id, item: niv },
            ));
            assert(self@.wf()) by {
                assert forall|i: int| 0 <= i < self@.items.len() implies ((
                #[trigger] self@.items[i]).item.wf() && item_ids_bounded(
                    self@.items[i].item,
                    self@.next,
                )) by {
                    if i < pre.items.len() {
                        assert(self@.items[i] == pre.items[i]);
                        lemma_item_ids_bounded_mono(pre.items[i].item, pre.next, self@.next);
                    }
                }
                assert forall|i: int, j: int|
                    0 <= i < j < self@.items.len() implies (#[trigger] self@.items[i]).item.id != (
                #[trigger] self@.items[j]).item.id by {
                    if j == pre.items.len() as int {
                        assert(self@.items[i] == pre.items[i]);
                        assert(id_bounded(pre.items[i].item.id, next0));
                        lemma_fresh_not_bounded(next0, next0);
                        if self@.items[i].item.id == niv.id {
                            assert(id_bounded(niv.id, next0));
                        }
                    } else {
                        assert(self@.items[i] == pre.items[i]);
                        assert(self@.items[j] == pre.items[j]);
                    }
                }
            }
        }
        Ok(new_item)
    }

    /// Apply a change set to one of the caller's stack items.
    ///
    /// Validation comes first and writes nothing: the item must exist and be
    /// owned by the caller, `removed` and the entry ids must not intersect,
    /// and every mark range must satisfy `0 <= from <= to`.  Then one history
    /// snapshot is appended for every removed block and one for every
    /// overwritten block, capturing its pre-update text, marks and version;
    /// unchanged blocks leave no trace.  The stored item is replaced by the
    /// untouched blocks in their old order followed by the entry-list blocks
    /// in entry order, renumbered `0, 1, …, n-1`; every overwritten block's
    /// version grows by exactly one, new blocks start at version `0` under
    /// fresh ids.  On any error the store is left as it was.
    pub fn update_stack_item(&mut self, user: User, changes: StackItemChangeSet) -> (r: AppResult<
        StackItem,
    >)
        requires
            old(self)@.wf(),
        ensures
            final(self)@.wf(),
            final(self)@.next >= old(self)@.next,
            ({
                let pre = old(self)@;
                let err = spec_update_error(pre.items, user@.id, changes@, pre.next);
                match r {
                    Result::Err(e) => err == Some(e@) && final(self)@.items == pre.items
                        && final(self)@.history == pre.history,
                    Result::Ok(item) => {
                        let idx = find_item_idx(pre.items, changes@.stack_id);
                        &&& err is None
                        &&& 0 <= idx < pre.items.len()
                        &&& item@ == spec_updated_item(pre.items[idx].item, changes@, pre.next)
                        &&& item@.wf()
                        &&& final(self)@.items == pre.items.update(
                            idx,
                            StoredItemView { user_id: pre.items[idx].user_id, item: item@ },
                        )
                        &&& final(self)@.history == pre.history + spec_update_history(
                            pre.items[idx].item,
                            changes@,
                        )
                        &&& final(self)@.next == spec_updated_blocks(
                            pre.items[idx].item,
                            changes@,
                            pre.next,
                        ).1
                    },
                }
            }),
    {
        let ghost pre = self@;
        let idx = match self.find_index(&user.id, &changes.stack_id) {
            Some(i) => i,
            None => {
                return Err(AppError::not_found("Stack item not found"));
            },
        };
        if change_set_intersects(&changes) {
            return Err(AppError::validation("updated and removed changes intersects"));
        }
        if !change_set_ranges_ok(&changes) {
            return Err(AppError::validation("mark range is invalid"));
        }
        let old_item = self.items[idx].item.clone_stack_item();
        let ghost oldv = old_item@;
        let ghost cs = changes@;
        let ghost next0 = pre.next;
        proof {
            assert(oldv == pre.items[idx as int].item);
            assert(oldv.wf());
            assert(item_ids_bounded(oldv, next0));
        }
        let removed_blocks = crate::services::diff::get_removed_blocks(
            &old_item.blocks,
            &changes.removed,
        );
        let pairs = crate::services::diff::get_updated_blocks(&old_item.blocks, &changes.updated);
        let mut g: usize = 0;
        while g < pairs.len()
            invariant
                g <= pairs.len(),
                pairs.deep_view() == spec_updated_pairs(oldv.blocks, cs.updated),
                forall|x: int|
                    0 <= x < g ==> (#[trigger] pairs.deep_view()[x]).0.current_version < i32::MAX,
            decreases pairs.len() - g,
        {
            if pairs[g].0.current_version == i32::MAX {
                assert(pairs.deep_view()[g as int].0.current_version >= i32::MAX);
                assert(spec_version_guard(oldv, cs));
                return Err(AppError::internal());
            }
            assert(pairs.deep_view()[g as int].0.current_version < i32::MAX);
            g = g + 1;
        }
        proof {
            assert(!spec_version_guard(oldv, cs));
        }
        let need = match compute_ids_need(&changes.updated) {
            Some(n) => n,
            None => {
                return Err(AppError::internal());
            },
        };
        if !self.id_gen.fits(need) {
            return Err(AppError::internal());
        }
        let untouched = untouched_blocks_of(&old_item.blocks, &changes);
        let ghost unt_v = untouched.deep_view();
        let mut built = build_entry_blocks(
            &old_item.blocks,
            &old_item.id,
            &changes.updated,
            &mut self.id_gen,
            Ghost(next0),
        );
        let ghost built_v = built.deep_view();
        let ghost next1 = self.id_gen@;
        let mut combined = untouched;
        combined.append(&mut built);
        proof {
            assert(combined.deep_view() =~= unt_v + built_v);
        }
        if combined.len() == 0 {
            proof {
                assert(spec_updated_item(oldv, cs, next0).blocks.len() == 0);
                lemma_service_wf_grow(pre, self@);
            }
            return Err(AppError::validation("cannot reduce stack item to empty"));
        }
        if combined.len() > (i32::MAX as usize) {
            proof {
                assert(spec_updated_item(oldv, cs, next0).blocks.len() > i32::MAX);
                lemma_service_wf_grow(pre, self@);
            }
            return Err(AppError::internal());
        }
        renumber_blocks(&mut combined);
        let new_item = StackItem { id: old_item.id.dup(), blocks: combined };
        let ghost niv = new_item@;
        proof {
            assert(niv.blocks =~= spec_renumber(unt_v + built_v));
            assert(niv == spec_updated_item(oldv, cs, next0));
            lemma_updated_item_wf(oldv, cs, next0, next1, unt_v, built_v);
        }
        let mut hist = history_snapshots(&old_item.id, &removed_blocks);
        let mut hist2 = history_snapshots_of_pairs(&old_item.id, &pairs);
        let ghost h1 = hist.deep_view();
        let ghost h2 = hist2.deep_view();
        hist.append(&mut hist2);
        proof {
            assert(hist.deep_view() =~= h1 + h2);
            assert(hist.deep_view() == spec_update_history(oldv, cs));
        }
        self.stack_history_repo.insert_many(hist);
        let stored = new_item.clone_stack_item();
        self.items[idx].item = stored;
        proof {
            assert(self.items.deep_view() =~= pre.items.update(
                idx as int,
                StoredItemView { user_id: pre.items[idx as int].user_id, item: niv },
            ));
            assert(self@.wf()) by {
                assert forall|i: int| 0 <= i < self@.items.len() implies (
                #[trigger] self@.items[i]).item.wf() by {
                    if i != idx as int {
                        assert(self@.items[i] == pre.items[i]);
                    }
                }
                assert forall|i: int| 0 <= i < self@.items.len() implies item_ids_bounded(
                    (#[trigger] self@.items[i]).item,
                    self@.next,
                ) by {
                    if i != idx as int {
                        assert(self@.items[i] == pre.items[i]);
                        lemma_item_ids_bounded_mono(pre.items[i].item, pre.next, self@.next);
                    }
                }
                assert forall|i: int, j: int|
                    0 <= i < j < self@.items.len() implies (#[trigger] self@.items[i]).item.id != (
                #[trigger] self@.items[j]).item.id by {
                    assert(self@.items[i].item.id == pre.items[i].item.id);
                    assert(self@.items[j].item.id == pre.items[j].item.id);
                }
            }
        }
        Ok(new_item)
    }
}

/// Whether one of the first `upto` change marks names the given id.
fn change_marks_prefix_has_id(cms: &Vec<crate::changes::ChangeMark>, upto: usize, id: &Id) -> (r:
    bool)
    requires
        upto <= cms.len(),
    ensures
        r == seen_mark_ids(cms.deep_view(), upto as int).contains(id@),
{
    let mut j: usize = 0;
    while j < upto
        invariant
            j <= upto <= cms.len(),
            forall|x: int| 0 <= x < j ==> (#[trigger] cms.deep_view()[x]).id != Some(id@),
        decreases upto - j,
    {
        let hit = match &cms[j].id {
            Some(mid) => *mid == *id,
            None => false,
        };
        if hit {
            assert(cms.deep_view()[j as int].id == Some(id@));
            assert(seen_mark_ids(cms.deep_view(), upto as int).contains(id@));
            return true;
        }
        assert(cms.deep_view()[j as int].id != Some(id@));
        j = j + 1;
    }
    assert(!seen_mark_ids(cms.deep_view(), upto as int).contains(id@));
    false
}

/// Whether one of the first `upto` entries targets the given id.
fn entries_prefix_has_id(entries: &Vec<crate::changes::UpdateBlock>, upto: usize, id: &Id) -> (r:
    bool)
    requires
        upto <= entries.len(),
    ensures
        r == seen_entry_ids(entries.deep_view(), upto as int).contains(id@),
{
    let mut j: usize = 0;
    while j < upto
        invariant
            j <= upto <= entries.len(),
            forall|x: int| 0 <= x < j ==> (#[trigger] entries.deep_view()[x]).id != Some(id@),
        decreases upto - j,
    {
        let hit = match &entries[j].id {
            Some(eid) => *eid == *id,
            None => false,
        };
        if hit {
            assert(entries.deep_view()[j as int].id == Some(id@));
            assert(seen_entry_ids(entries.deep_view(), upto as int).contains(id@));
            return true;
        }
        assert(entries.deep_view()[j as int].id != Some(id@));
        j = j + 1;
    }
    assert(!seen_entry_ids(entries.deep_view(), upto as int).contains(id@));
    false
}

/// An id allocated before the counter reached `n` differs from any id the
/// allocator hands out at or after `n`.
proof fn lemma_bounded_ne_fresh(id: Seq<char>, n: nat, k: nat)
    requires
        id_bounded(id, n),
        k >= n,
    ensures
        id != dec_digits(k),
{
    let k0 = choose|k0: nat| k0 < n && id == dec_digits(k0);
    if id == dec_digits(k) {
        crate::ids::lemma_dec_digits_injective(k0, k);
    }
}

/// Two identifiers the allocator hands out at different counter values
/// differ.
pub proof fn lemma_fresh_ne_fresh(k1: nat, k2: nat)
    requires
        k1 != k2,
    ensures
        dec_digits(k1) != dec_digits(k2),
{
    if dec_digits(k1) == dec_digits(k2) {
        crate::ids::lemma_dec_digits_injective(k1, k2);
    }
}

/// Apply an entry's change marks to a stored block's marks: keep the marks
/// the entry names (with the entry's ranges), drop the rest and the stale
/// names, create a fresh mark for every change mark without an id.
fn merge_entry_marks(
    old_marks: &Vec<Mark>,
    cms: &Vec<crate::changes::ChangeMark>,
    gen: &mut IdGen,
    Ghost(bound): Ghost<nat>,
) -> (r: Vec<Mark>)
    requires
        old(gen)@ + cms.len() <= u64::MAX,
        forall|k: int| 0 <= k < cms.deep_view().len() ==> (#[trigger] cms.deep_view()[k]).wf(),
        forall|l: int|
            0 <= l < old_marks.deep_view().len() ==> id_bounded(
                (#[trigger] old_marks.deep_view()[l]).id,
                bound,
            ),
        bound <= old(gen)@,
    ensures
        ({
            let m = spec_merge_marks(
                old_marks.deep_view(),
                cms.deep_view(),
                old(gen)@,
                Set::empty(),
            );
            r.deep_view() == m.0 && final(gen)@ == m.1
        }),
        old(gen)@ <= final(gen)@ <= old(gen)@ + cms.len(),
        forall|x: int| 0 <= x < r.deep_view().len() ==> (#[trigger] r.deep_view()[x]).wf(),
        forall|x: int, y: int|
            0 <= x < y < r.deep_view().len() ==> (#[trigger] r.deep_view()[x]).id != (
            #[trigger] r.deep_view()[y]).id,
        forall|x: int|
            0 <= x < r.deep_view().len() ==> marks_have_id(
                old_marks.deep_view(),
                (#[trigger] r.deep_view()[x]).id,
            ) || !id_bounded(r.deep_view()[x].id, old(gen)@),
        forall|x: int|
            0 <= x < r.deep_view().len() ==> marks_have_id(
                old_marks.deep_view(),
                (#[trigger] r.deep_view()[x]).id,
            ) || id_bounded(r.deep_view()[x].id, final(gen)@),
{
    let ghost oldv = old_marks.deep_view();
    let ghost cmsv = cms.deep_view();
    let ghost next0 = gen@;
    let mut r: Vec<Mark> = Vec::new();
    proof {
        assert(cmsv.skip(0) =~= cmsv);
        assert(seen_mark_ids(cmsv, 0) =~= Set::<Seq<char>>::empty());
        assert(r.deep_view() =~= Seq::<MarkView>::empty());
        assert(r.deep_view() + spec_merge_marks(oldv, cmsv, next0, Set::empty()).0
            =~= spec_merge_marks(oldv, cmsv, next0, Set::empty()).0);
    }
    let mut k: usize = 0;
    while k < cms.len()
        invariant
            k <= cms.len(),
            next0 <= gen@ <= next0 + k,
            gen@ + (cms.len() - k) <= u64::MAX,
            spec_merge_marks(oldv, cmsv, next0, Set::empty()).0 == r.deep_view()
                + spec_merge_marks(oldv, cmsv.skip(k as int), gen@, seen_mark_ids(cmsv, k as int)).0,
            spec_merge_marks(oldv, cmsv, next0, Set::empty()).1 == spec_merge_marks(
                oldv,
                cmsv.skip(k as int),
                gen@,
                seen_mark_ids(cmsv, k as int),
            ).1,
            forall|x: int| 0 <= x < r.deep_view().len() ==> (#[trigger] r.deep_view()[x]).wf(),
            forall|x: int|
                0 <= x < r.deep_view().len() ==> (marks_have_id(
                    oldv,
                    (#[trigger] r.deep_view()[x]).id,
                ) && seen_mark_ids(cmsv, k as int).contains(r.deep_view()[x].id)) || (!id_bounded(
                    r.deep_view()[x].id,
                    next0,
                ) && id_bounded(r.deep_view()[x].id, gen@)),
            forall|x: int, y: int|
                0 <= x < y < r.deep_view().len() ==> (#[trigger] r.deep_view()[x]).id != (
                #[trigger] r.deep_view()[y]).id,
        decreases cms.len() - k,
    {
        let ghost gpre = gen@;
        let ghost seen_k = seen_mark_ids(cmsv, k as int);
        proof {
            assert(cmsv.skip(k as int)[0] == cmsv[k as int]);
            assert(cmsv.skip(k as int).drop_first() =~= cmsv.skip(k as int + 1));
        }
        let cm = &cms[k];
        let ghost before = r.deep_view();
        match &cm.id {
            Some(mid) => {
                let known = match crate::services::diff::find_mark_by_id(old_marks, mid) {
                    Some(_) => true,
                    None => false,
                };
                let dup = change_marks_prefix_has_id(cms, k, mid);
                proof {
                    assert(known == marks_have_id(oldv, mid@));
                    assert(dup == seen_k.contains(mid@));
                    assert(seen_mark_ids(cmsv, k as int + 1) =~= seen_k.insert(mid@));
                }
                if known && !dup {
                    r.push(Mark { id: mid.dup(), from: cm.from, to: cm.to });
                    proof {
                        let mv = MarkView { id: mid@, from: cm.from as int, to: cm.to as int };
                        let tail = spec_merge_marks(
                            oldv,
                            cmsv.skip(k as int + 1),
                            gen@,
                            seen_mark_ids(cmsv, k as int + 1),
                        );
                        assert(r.deep_view() =~= before.push(mv));
                        assert(before.push(mv) + tail.0 =~= before + (seq![mv] + tail.0));
                        assert(cmsv[k as int].wf());
                        assert forall|x: int, y: int|
                            0 <= x < y < r.deep_view().len() implies (#[trigger] r.deep_view()[x]).id
                            != (#[trigger] r.deep_view()[y]).id by {
                            if y == r.deep_view().len() - 1 {
                                if !(marks_have_id(oldv, before[x].id) && seen_k.contains(
                                    before[x].id,
                                )) {
                                    let k0 = choose|k0: nat|
                                        k0 < gpre && before[x].id == dec_digits(k0);
                                    assert(!id_bounded(before[x].id, next0));
                                    if before[x].id == mid@ {
                                        let km = choose|km: nat|
                                            km < bound && mid@ == dec_digits(km);
                                        crate::ids::lemma_dec_digits_injective(k0, km);
                                    }
                                }
                            }
                        }
                    }
                }
            },
            None => {
                let fid = gen.fresh();
                r.push(Mark { id: fid, from: cm.from, to: cm.to });
                proof {
                    let mv = MarkView {
                        id: dec_digits(gpre),
                        from: cm.from as int,
                        to: cm.to as int,
                    };
                    assert(seen_mark_ids(cmsv, k as int + 1) =~= seen_k);
                    let tail = spec_merge_marks(oldv, cmsv.skip(k as int + 1), gen@, seen_k);
                    assert(r.deep_view() =~= before.push(mv));
                    assert(before.push(mv) + tail.0 =~= before + (seq![mv] + tail.0));
                    assert(cmsv[k as int].wf());
                    assert forall|x: int, y: int|
                        0 <= x < y < r.deep_view().len() implies (#[trigger] r.deep_view()[x]).id
                        != (#[trigger] r.deep_view()[y]).id by {
                        if y == r.deep_view().len() - 1 {
                            if marks_have_id(oldv, before[x].id) && seen_k.contains(before[x].id) {
                                let lm = choose|lm: int|
                                    0 <= lm < oldv.len() && oldv[lm].id == before[x].id;
                                assert(id_bounded(before[x].id, bound));
                                lemma_bounded_ne_fresh(before[x].id, bound, gpre);
                            } else {
                                let k0 = choose|k0: nat| k0 < gpre && before[x].id == dec_digits(k0);
                                lemma_fresh_ne_fresh(k0, gpre);
                            }
                        }
                    }
                    assert(!id_bounded(dec_digits(gpre), next0)) by {
                        if id_bounded(dec_digits(gpre), next0) {
                            let k0 = choose|k0: nat| k0 < next0 && dec_digits(gpre) == dec_digits(k0);
                            crate::ids::lemma_dec_digits_injective(k0, gpre);
                        }
                    }
                    assert(id_bounded(dec_digits(gpre), gen@)) by {
                        assert(gpre < gen@ && dec_digits(gpre) == dec_digits(gpre));
                    }
                }
            },
        }
        k = k + 1;
    }
    proof {
        assert(cmsv.skip(cms.len() as int) =~= Seq::<ChangeMarkView>::empty());
        let t = spec_merge_marks(oldv, cmsv.skip(cms.len() as int), gen@, seen_mark_ids(cmsv, cms.len() as int));
        assert(t.0 =~= Seq::<MarkView>::empty());
        assert(r.deep_view() + t.0 =~= r.deep_view());
        assert forall|x: int|
            0 <= x < r.deep_view().len() implies marks_have_id(
            oldv,
            (#[trigger] r.deep_view()[x]).id,
        ) || (!id_bounded(r.deep_view()[x].id, next0) && id_bounded(r.deep_view()[x].id, gen@)) by {}
    }
    r
}

/// An id bounded by a smaller counter value is bounded by a larger one.
pub proof fn lemma_bounded_mono(id: Seq<char>, n1: nat, n2: nat)
    requires
        id_bounded(id, n1),
        n1 <= n2,
    ensures
        id_bounded(id, n2),
{
    let k = choose|k: nat| k < n1 && id == dec_digits(k);
    assert(k < n2 && id == dec_digits(k));
}

/// An id the allocator hands out at counter `k` is not bounded by any `n`
/// at or below `k`.
pub proof fn lemma_fresh_not_bounded(k: nat, n: nat)
    requires
        n <= k,
    ensures
        !id_bounded(dec_digits(k), n),
{
    if id_bounded(dec_digits(k), n) {
        let k0 = choose|k0: nat| k0 < n && dec_digits(k) == dec_digits(k0);
        crate::ids::lemma_dec_digits_injective(k0, k);
    }
}

/// Marks of two different stored blocks never share an id.
proof fn lemma_old_cross_marks(
    blocks: Seq<BlockView>,
    stack_id: Seq<char>,
    bound: nat,
    id1: Seq<char>,
    id2: Seq<char>,
    mid: Seq<char>,
)
    requires
        old_blocks_ok(blocks, stack_id, bound),
        blocks_have_id(blocks, id1),
        blocks_have_id(blocks, id2),
        id1 != id2,
        marks_have_id(block_by_id(blocks, id1).marks, mid),
    ensures
        !marks_have_id(block_by_id(blocks, id2).marks, mid),
{
    lemma_block_by_id_mem(blocks, id1);
    lemma_block_by_id_mem(blocks, id2);
    let j1 = choose|j: int| 0 <= j < blocks.len() && #[trigger] blocks[j] == block_by_id(blocks, id1);
    let j2 = choose|j: int| 0 <= j < blocks.len() && #[trigger] blocks[j] == block_by_id(blocks, id2);
    assert(blocks[j1].id == id1 && blocks[j2].id == id2);
    assert(j1 != j2);
    assert(block_has_mark(blocks[j1], mid));
    assert(!(block_has_mark(blocks[j1], mid) && block_has_mark(blocks[j2], mid)));
}

/// The stored blocks handed to the entry builder come from one well-formed
/// item: each block well-formed and owned by `stack_id`, block ids pairwise
/// distinct, no mark id shared between two blocks, every id allocated below
/// `bound`.
pub open spec fn old_blocks_ok(blocks: Seq<BlockView>, stack_id: Seq<char>, bound: nat) -> bool {
    &&& forall|i: int| 0 <= i < blocks.len() ==> (#[trigger] blocks[i]).wf()
    &&& forall|i: int| 0 <= i < blocks.len() ==> (#[trigger] blocks[i]).stack_id == stack_id
    &&& forall|i: int, j: int|
        0 <= i < j < blocks.len() ==> (#[trigger] blocks[i]).id != (#[trigger] blocks[j]).id
    &&& forall|i: int, j: int, mid: Seq<char>|
        0 <= i < blocks.len() && 0 <= j < blocks.len() && i != j ==> !(#[trigger] block_has_mark(
            blocks[i],
            mid,
        ) && #[trigger] block_has_mark(blocks[j], mid))
    &&& forall|i: int| 0 <= i < blocks.len() ==> id_bounded((#[trigger] blocks[i]).id, bound)
    &&& forall|i: int, k: int|
        0 <= i < blocks.len() && 0 <= k < blocks[i].marks.len() ==> id_bounded(
            (#[trigger] blocks[i].marks[k]).id,
            bound,
        )
}

/// What holds of the blocks the entry builder produces: each well-formed and
/// owned by `stack_id`; block ids pairwise distinct; every block either a
/// stored block some entry targets or a block under a fresh id; every mark
/// either a mark of that block's stored original or a fresh mark; and no mark
/// id shared between two produced blocks.
pub open spec fn built_blocks_ok(
    res: Seq<BlockView>,
    old_blocks: Seq<BlockView>,
    entries: Seq<UpdateBlockView>,
    stack_id: Seq<char>,
    next0: nat,
    next1: nat,
) -> bool {
    &&& forall|i: int| 0 <= i < res.len() ==> (#[trigger] res[i]).wf()
    &&& forall|i: int| 0 <= i < res.len() ==> (#[trigger] res[i]).stack_id == stack_id
    &&& forall|i: int, j: int|
        0 <= i < j < res.len() ==> (#[trigger] res[i]).id != (#[trigger] res[j]).id
    &&& forall|i: int|
        0 <= i < res.len() ==> (blocks_have_id(old_blocks, (#[trigger] res[i]).id)
            && updated_have_id(entries, res[i].id)) || (!id_bounded(res[i].id, next0)
            && id_bounded(res[i].id, next1))
    &&& forall|i: int, k: int|
        0 <= i < res.len() && 0 <= k < res[i].marks.len() ==> (blocks_have_id(
            old_blocks,
            (#[trigger] res[i]).id,
        ) && marks_have_id(
            block_by_id(old_blocks, res[i].id).marks,
            (#[trigger] res[i].marks[k]).id,
        )) || (!id_bounded(res[i].marks[k].id, next0) && id_bounded(res[i].marks[k].id, next1))
    &&& forall|i: int, j: int, k: int, l: int|
        0 <= i < res.len() && 0 <= j < res.len() && i != j && 0 <= k < res[i].marks.len() && 0 <= l
            < res[j].marks.len() ==> (#[trigger] res[i].marks[k]).id != (
        #[trigger] res[j].marks[l]).id
}

/// The block found by id is an element of the sequence and carries the id.
pub proof fn lemma_block_by_id_mem(blocks: Seq<BlockView>, id: Seq<char>)
    requires
        blocks_have_id(blocks, id),
    ensures
        block_by_id(blocks, id).id == id,
        exists|j: int| 0 <= j < blocks.len() && #[trigger] blocks[j] == block_by_id(blocks, id),
    decreases blocks.len(),
{
    if blocks[0].id == id {
        assert(blocks[0] == block_by_id(blocks, id));
    } else {
        let rest = blocks.drop_first();
        assert(blocks_have_id(rest, id)) by {
            let w = choose|i: int| 0 <= i < blocks.len() && (#[trigger] blocks[i]).id == id;
            assert(rest[w - 1] == blocks[w]);
        }
        lemma_block_by_id_mem(rest, id);
        let j = choose|j: int| 0 <= j < rest.len() && #[trigger] rest[j] == block_by_id(rest, id);
        assert(blocks[j + 1] == rest[j]);
    }
}

/// The position of the first stored block carrying the given id, if any.
fn find_block_by_id(blocks: &Vec<Block>, id: &Id) -> (r: Option<usize>)
    ensures
        match r {
            Some(j) => {
                &&& j < blocks.len()
                &&& blocks.deep_view()[j as int].id == id@
                &&& blocks_have_id(blocks.deep_view(), id@)
                &&& block_by_id(blocks.deep_view(), id@) == blocks.deep_view()[j as int]
            },
            None => !blocks_have_id(blocks.deep_view(), id@),
        },
{
    let mut j: usize = 0;
    while j < blocks.len()
        invariant
            j <= blocks.len(),
            forall|x: int| 0 <= x < j ==> (#[trigger] blocks.deep_view()[x]).id != id@,
        decreases blocks.len() - j,
    {
        if blocks[j].id == *id {
            proof {
                assert(blocks.deep_view()[j as int].id == id@);
                lemma_block_by_id(blocks.deep_view(), id@, j as int);
            }
            return Some(j);
        }
        assert(blocks.deep_view()[j as int].id != id@);
        j = j + 1;
    }
    None
}

/// The exact number of identifiers an entry list can consume: one per entry
/// plus one per change mark.
pub open spec fn spec_ids_need(entries: Seq<UpdateBlockView>) -> nat
    decreases entries.len(),
{
    if entries.len() == 0 {
        0
    } else {
        (spec_ids_need(entries.drop_last()) + 1 + entries.last().marks.len()) as nat
    }
}

/// The identifier need decomposes at the front of the list.
pub proof fn lemma_ids_need_first(entries: Seq<UpdateBlockView>)
    requires
        entries.len() > 0,
    ensures
        spec_ids_need(entries) == 1 + entries[0].marks.len() + spec_ids_need(entries.drop_first()),
    decreases entries.len(),
{
    if entries.len() == 1 {
        assert(entries.drop_last() =~= Seq::<UpdateBlockView>::empty());
        assert(entries.drop_first() =~= Seq::<UpdateBlockView>::empty());
        assert(entries.last() == entries[0]);
    } else {
        lemma_ids_need_first(entries.drop_last());
        assert(entries.drop_last().drop_first() =~= entries.drop_first().drop_last());
        assert(entries.drop_last()[0] == entries[0]);
        assert(entries.drop_first().last() == entries.last());
    }
}

/// The identifier need of a prefix never exceeds the whole list's.
pub proof fn lemma_ids_need_prefix(entries: Seq<UpdateBlockView>, i: int)
    requires
        0 <= i <= entries.len(),
    ensures
        spec_ids_need(entries.take(i)) <= spec_ids_need(entries),
    decreases entries.len() - i,
{
    if i == entries.len() {
        assert(entries.take(i) =~= entries);
    } else {
        assert(entries.take(i + 1).drop_last() =~= entries.take(i));
        assert(entries.take(i + 1).last() == entries[i]);
        assert(spec_ids_need(entries.take(i)) <= spec_ids_need(entries.take(i + 1)));
        lemma_ids_need_prefix(entries, i + 1);
    }
}

/// The exact number of identifiers the entry list can consume, or `None` when
/// that number does not fit in `u64`.
fn compute_ids_need(entries: &Vec<crate::changes::UpdateBlock>) -> (r: Option<u64>)
    ensures
        match r {
            Some(n) => n == spec_ids_need(entries.deep_view()),
            None => spec_ids_need(entries.deep_view()) > u64::MAX,
        },
{
    let ghost ev = entries.deep_view();
    let mut acc: u64 = 0;
    let mut i: usize = 0;
    while i < entries.len()
        invariant
            i <= entries.len(),
            acc == spec_ids_need(ev.take(i as int)),
        decreases entries.len() - i,
    {
        proof {
            assert(ev.take(i as int + 1).drop_last() =~= ev.take(i as int));
            assert(ev.take(i as int + 1).last() == ev[i as int]);
        }
        let m = entries[i].marks.len() as u64;
        if m == u64::MAX || acc > u64::MAX - 1 - m {
            proof {
                lemma_ids_need_prefix(ev, i as int + 1);
            }
            return None;
        }
        acc = acc + 1 + m;
        i = i + 1;
    }
    proof {
        assert(ev.take(entries.len() as int) =~= ev);
    }
    Some(acc)
}

/// Build the blocks the caller's entry list asks for, in entry order: stored
/// blocks kept or overwritten (with their history-relevant version bump), and
/// new blocks under fresh ids.
#[verifier::rlimit(100)]
fn build_entry_blocks(
    old_blocks: &Vec<Block>,
    stack_id: &Id,
    entries: &Vec<crate::changes::UpdateBlock>,
    gen: &mut IdGen,
    Ghost(bound): Ghost<nat>,
) -> (r: Vec<Block>)
    requires
        old(gen)@ + spec_ids_need(entries.deep_view()) <= u64::MAX,
        forall|i: int|
            0 <= i < entries.deep_view().len() ==> (#[trigger] entries.deep_view()[i]).ranges_ok(),
        old_blocks_ok(old_blocks.deep_view(), stack_id@, bound),
        bound <= old(gen)@,
        forall|x: int|
            0 <= x < spec_updated_pairs(old_blocks.deep_view(), entries.deep_view()).len() ==> (
            #[trigger] spec_updated_pairs(
                old_blocks.deep_view(),
                entries.deep_view(),
            )[x]).0.current_version < i32::MAX,
    ensures
        r.deep_view() == spec_entry_blocks(
            old_blocks.deep_view(),
            stack_id@,
            entries.deep_view(),
            old(gen)@,
            Set::empty(),
        ).0,
        final(gen)@ == spec_entry_blocks(
            old_blocks.deep_view(),
            stack_id@,
            entries.deep_view(),
            old(gen)@,
            Set::empty(),
        ).1,
        old(gen)@ <= final(gen)@,
        built_blocks_ok(
            r.deep_view(),
            old_blocks.deep_view(),
            entries.deep_view(),
            stack_id@,
            old(gen)@,
            final(gen)@,
        ),
{
    let ghost oldv = old_blocks.deep_view();
    let ghost ev = entries.deep_view();
    let ghost sid = stack_id@;
    let ghost next0 = gen@;
    let mut bs: Vec<Block> = Vec::new();
    proof {
        assert(ev.skip(0) =~= ev);
        assert(seen_entry_ids(ev, 0) =~= Set::<Seq<char>>::empty());
        assert(bs.deep_view() =~= Seq::<BlockView>::empty());
        assert(bs.deep_view() + spec_entry_blocks(oldv, sid, ev, next0, Set::empty()).0
            =~= spec_entry_blocks(oldv, sid, ev, next0, Set::empty()).0);
    }
    let mut t: usize = 0;
    while t < entries.len()
        invariant
            t <= entries.len(),
            next0 <= gen@,
            bound <= next0,
            gen@ + spec_ids_need(ev.skip(t as int)) <= u64::MAX,
            spec_entry_blocks(oldv, sid, ev, next0, Set::empty()).0 == bs.deep_view()
                + spec_entry_blocks(
                oldv,
                sid,
                ev.skip(t as int),
                gen@,
                seen_entry_ids(ev, t as int),
            ).0,
            spec_entry_blocks(oldv, sid, ev, next0, Set::empty()).1 == spec_entry_blocks(
                oldv,
                sid,
                ev.skip(t as int),
                gen@,
                seen_entry_ids(ev, t as int),
            ).1,
            forall|i: int| 0 <= i < bs.deep_view().len() ==> (#[trigger] bs.deep_view()[i]).wf(),
            forall|i: int|
                0 <= i < bs.deep_view().len() ==> (#[trigger] bs.deep_view()[i]).stack_id == sid,
            forall|i: int, j: int|
                0 <= i < j < bs.deep_view().len() ==> (#[trigger] bs.deep_view()[i]).id != (
                #[trigger] bs.deep_view()[j]).id,
            forall|i: int|
                0 <= i < bs.deep_view().len() ==> (blocks_have_id(
                    oldv,
                    (#[trigger] bs.deep_view()[i]).id,
                ) && seen_entry_ids(ev, t as int).contains(bs.deep_view()[i].id)) || (!id_bounded(
                    bs.deep_view()[i].id,
                    next0,
                ) && id_bounded(bs.deep_view()[i].id, gen@)),
            forall|i: int, k: int|
                0 <= i < bs.deep_view().len() && 0 <= k < bs.deep_view()[i].marks.len() ==> (
                blocks_have_id(oldv, (#[trigger] bs.deep_view()[i]).id) && marks_have_id(
                    block_by_id(oldv, bs.deep_view()[i].id).marks,
                    (#[trigger] bs.deep_view()[i].marks[k]).id,
                )) || (!id_bounded(bs.deep_view()[i].marks[k].id, next0) && id_bounded(
                    bs.deep_view()[i].marks[k].id,
                    gen@,
                )),
            forall|i: int, j: int, k: int, l: int|
                0 <= i < bs.deep_view().len() && 0 <= j < bs.deep_view().len() && i != j && 0 <= k
                    < bs.deep_view()[i].marks.len() && 0 <= l < bs.deep_view()[j].marks.len() ==> (
                #[trigger] bs.deep_view()[i].marks[k]).id != (#[trigger] bs.deep_view()[j].marks[l]).id,
        decreases entries.len() - t,
    {
        let ghost gpre = gen@;
        let ghost seen_t = seen_entry_ids(ev, t as int);
        let ghost before = bs.deep_view();
        proof {
            assert(ev.skip(t as int)[0] == ev[t as int]);
            assert(ev.skip(t as int).drop_first() =~= ev.skip(t as int + 1));
            lemma_ids_need_first(ev.skip(t as int));
        }
        let e = &entries[t];
        let known: Option<usize> = match &e.id {
            Some(id) => find_block_by_id(old_blocks, id),
            None => None,
        };
        if let Some(known_at) = known {
            let id = e.id.as_ref().unwrap();
            let dup = entries_prefix_has_id(entries, t, id);
            proof {
                assert(seen_entry_ids(ev, t as int + 1) =~= seen_t.insert(id@));
                assert(blocks_have_id(oldv, id@));
                assert(block_by_id(oldv, id@) == old_blocks.deep_view()[known_at as int]);
            }
            if dup {
                // A later entry for a block already consumed: dropped.
                proof {
                    assert(seen_t.contains(id@));
                }
            } else {
                let b = &old_blocks[known_at];
                let ghost bv = b@;
                proof {
                    assert(bv == block_by_id(oldv, id@));
                    assert(!seen_t.contains(id@));
                    assert forall|x: int| 0 <= x < t implies (#[trigger] ev[x]).id != Some(id@) by {
                        if ev[x].id == Some(id@) {
                            assert(seen_t.contains(id@));
                        }
                    }
                    assert(ev[t as int].id == Some(id@));
                    crate::services::diff::lemma_first_entry_for(ev, id@, t as int);
                }
                if crate::services::diff::block_matches_update(b, e) {
                    // Unchanged: the entry describes exactly the stored
                    // content; keep the block, bump nothing, write no history.
                    bs.push(b.clone_block());
                    proof {
                        let tail = spec_entry_blocks(
                            oldv,
                            sid,
                            ev.skip(t as int + 1),
                            gen@,
                            seen_t.insert(id@),
                        );
                        assert(bs.deep_view() =~= before.push(bv));
                        assert(before.push(bv) + tail.0 =~= before + (seq![bv] + tail.0));
                        assert forall|i: int| 0 <= i < before.len() implies before[i].id != bv.id by {
                            if blocks_have_id(oldv, before[i].id) && seen_t.contains(before[i].id) {
                            } else {
                                lemma_bounded_mono(bv.id, bound, next0);
                                if before[i].id == bv.id {
                                    let k0 = choose|k0: nat|
                                        k0 < next0 && bv.id == dec_digits(k0);
                                    assert(id_bounded(before[i].id, next0));
                                }
                            }
                        }
                        assert forall|k: int| 0 <= k < bv.marks.len() implies marks_have_id(
                            block_by_id(oldv, bv.id).marks,
                            bv.marks[k].id,
                        ) by {
                            assert(block_by_id(oldv, bv.id) == bv);
                        }
                        assert forall|i: int, k: int, l: int|
                            0 <= i < before.len() && 0 <= k < before[i].marks.len() && 0 <= l
                                < bv.marks.len() implies (#[trigger] before[i].marks[k]).id != (
                            #[trigger] bv.marks[l]).id by {
                            assert(marks_have_id(bv.marks, bv.marks[l].id));
                            if blocks_have_id(oldv, before[i].id) && marks_have_id(
                                block_by_id(oldv, before[i].id).marks,
                                before[i].marks[k].id,
                            ) {
                                assert(before[i].id != bv.id);
                                lemma_old_cross_marks(
                                    oldv,
                                    sid,
                                    bound,
                                    before[i].id,
                                    bv.id,
                                    before[i].marks[k].id,
                                );
                            } else {
                                assert(!id_bounded(before[i].marks[k].id, next0));
                                assert(marks_have_id(bv.marks, bv.marks[l].id));
                                lemma_block_by_id_mem(oldv, bv.id);
                                let jj = choose|jj: int|
                                    0 <= jj < oldv.len() && #[trigger] oldv[jj] == block_by_id(
                                        oldv,
                                        bv.id,
                                    );
                                let lw = choose|lw: int|
                                    0 <= lw < bv.marks.len() && (#[trigger] bv.marks[lw]).id
                                        == bv.marks[l].id;
                                assert(id_bounded(oldv[jj].marks[l].id, bound));
                                assert(id_bounded(bv.marks[l].id, bound));
                                lemma_bounded_mono(bv.marks[l].id, bound, next0);
                                if before[i].marks[k].id == bv.marks[l].id {
                                    assert(id_bounded(before[i].marks[k].id, next0));
                                }
                            }
                        }
                    }
                } else {
                    // Modified: snapshot-worthy overwrite; merge the marks and
                    // bump the version by exactly one.
                    proof {
                        let pairs = spec_updated_pairs(oldv, ev);
                        let pred = |bb: BlockView|
                            updated_have_id(ev, bb.id) && !block_matches_entry(
                                bb,
                                crate::services::diff::first_entry_for(ev, bb.id),
                            );
                        assert(pred(oldv[known_at as int]));
                        oldv.lemma_filter_contains(pred, known_at as int);
                        let fs = oldv.filter(pred);
                        let fi = choose|fi: int| 0 <= fi < fs.len() && fs[fi] == bv;
                        assert(pairs[fi].0 == bv);
                        assert(bv.current_version < i32::MAX);
                        assert forall|k: int|
                            0 <= k < e.marks.deep_view().len() implies (
                        #[trigger] e.marks.deep_view()[k]).wf() by {
                            assert(ev[t as int].ranges_ok());
                            assert(ev[t as int].marks[k].wf());
                        }
                        assert forall|l: int|
                            0 <= l < b.marks.deep_view().len() implies id_bounded(
                            (#[trigger] b.marks.deep_view()[l]).id,
                            bound,
                        ) by {
                            lemma_block_by_id_mem(oldv, id@);
                            let jj = choose|jj: int|
                                0 <= jj < oldv.len() && #[trigger] oldv[jj] == block_by_id(
                                    oldv,
                                    id@,
                                );
                            assert(id_bounded(oldv[jj].marks[l].id, bound));
                        }
                        assert(gen@ + e.marks.len() <= u64::MAX);
                    }
                    let merged = merge_entry_marks(&b.marks, &e.marks, gen, Ghost(bound));
                    let nb = Block {
                        id: b.id.dup(),
                        stack_id: stack_id.dup(),
                        order: b.order,
                        text: e.text.clone(),
                        marks: merged,
                        current_version: b.current_version + 1,
                        initial_version: b.initial_version,
                    };
                    let ghost nbv = nb@;
                    bs.push(nb);
                    proof {
                        let m = spec_merge_marks(bv.marks, ev[t as int].marks, gpre, Set::empty());
                        assert(nbv.marks == m.0);
                        assert(gen@ == m.1);
                        let tail = spec_entry_blocks(
                            oldv,
                            sid,
                            ev.skip(t as int + 1),
                            gen@,
                            seen_t.insert(id@),
                        );
                        assert(bs.deep_view() =~= before.push(nbv));
                        assert(before.push(nbv) + tail.0 =~= before + (seq![nbv] + tail.0));
                        // distinct block ids
                        assert forall|i: int| 0 <= i < before.len() implies before[i].id
                            != nbv.id by {
                            if blocks_have_id(oldv, before[i].id) && seen_t.contains(before[i].id) {
                            } else {
                                lemma_bounded_mono(nbv.id, bound, next0);
                                if before[i].id == nbv.id {
                                    assert(id_bounded(before[i].id, next0));
                                }
                            }
                        }
                        // well-formedness of the new block
                        assert(nbv.wf()) by {
                            assert(bv.wf());
                        }
                        // mark classification for the new block
                        assert forall|k: int| 0 <= k < nbv.marks.len() implies (marks_have_id(
                            block_by_id(oldv, nbv.id).marks,
                            (#[trigger] nbv.marks[k]).id,
                        ) || (!id_bounded(nbv.marks[k].id, next0) && id_bounded(
                            nbv.marks[k].id,
                            gen@,
                        ))) by {
                            if marks_have_id(bv.marks, nbv.marks[k].id) {
                            } else {
                                if id_bounded(nbv.marks[k].id, next0) {
                                    lemma_bounded_mono(nbv.marks[k].id, next0, gpre);
                                }
                            }
                        }
                        // cross-block mark distinctness against earlier blocks
                        assert forall|i: int, k: int, l: int|
                            0 <= i < before.len() && 0 <= k < before[i].marks.len() && 0 <= l
                                < nbv.marks.len() implies (#[trigger] before[i].marks[k]).id != (
                            #[trigger] nbv.marks[l]).id by {
                            if marks_have_id(bv.marks, nbv.marks[l].id) {
                                if blocks_have_id(oldv, before[i].id) && marks_have_id(
                                    block_by_id(oldv, before[i].id).marks,
                                    before[i].marks[k].id,
                                ) {
                                    assert(before[i].id != nbv.id);
                                    lemma_old_cross_marks(
                                        oldv,
                                        sid,
                                        bound,
                                        before[i].id,
                                        nbv.id,
                                        before[i].marks[k].id,
                                    );
                                } else {
                                    let lw = choose|lw: int|
                                        0 <= lw < bv.marks.len() && (#[trigger] bv.marks[lw]).id
                                            == nbv.marks[l].id;
                                    lemma_block_by_id_mem(oldv, id@);
                                    let jj = choose|jj: int|
                                        0 <= jj < oldv.len() && #[trigger] oldv[jj] == block_by_id(
                                            oldv,
                                            id@,
                                        );
                                    assert(id_bounded(oldv[jj].marks[lw].id, bound));
                                    lemma_bounded_mono(nbv.marks[l].id, bound, next0);
                                    if before[i].marks[k].id == nbv.marks[l].id {
                                        assert(id_bounded(before[i].marks[k].id, next0));
                                    }
                                }
                            } else {
                                // the merged mark is fresh: allocated at or
                                // after `gpre`
                                assert(!id_bounded(nbv.marks[l].id, gpre));
                                if blocks_have_id(oldv, before[i].id) && marks_have_id(
                                    block_by_id(oldv, before[i].id).marks,
                                    before[i].marks[k].id,
                                ) {
                                    lemma_block_by_id_mem(oldv, before[i].id);
                                    let jj = choose|jj: int|
                                        0 <= jj < oldv.len() && #[trigger] oldv[jj] == block_by_id(
                                            oldv,
                                            before[i].id,
                                        );
                                    let lw = choose|lw: int|
                                        0 <= lw < oldv[jj].marks.len() && (
                                        #[trigger] oldv[jj].marks[lw]).id == before[i].marks[k].id;
                                    assert(id_bounded(before[i].marks[k].id, bound));
                                    lemma_bounded_mono(before[i].marks[k].id, bound, gpre);
                                    if before[i].marks[k].id == nbv.marks[l].id {
                                        assert(id_bounded(nbv.marks[l].id, gpre));
                                    }
                                } else {
                                    assert(id_bounded(before[i].marks[k].id, gpre));
                                    if before[i].marks[k].id == nbv.marks[l].id {
                                        assert(id_bounded(nbv.marks[l].id, gpre));
                                    }
                                }
                            }
                        }
                    }
                }
            }
        } else {
            // A new insertion: an entry without an id, or with an id matching
            // no stored block.  It gets a fresh id, version 0, and fresh
            // marks.
            proof {
                match ev[t as int].id {
                    Some(idv) => {
                        assert(seen_entry_ids(ev, t as int + 1) =~= seen_t.insert(idv));
                    },
                    None => {
                        assert(seen_entry_ids(ev, t as int + 1) =~= seen_t);
                    },
                }
                assert forall|k: int|
                    0 <= k < e.marks.deep_view().len() implies (
                #[trigger] e.marks.deep_view()[k]).wf() by {
                    assert(ev[t as int].ranges_ok());
                    assert(ev[t as int].marks[k].wf());
                }
            }
            let bid = gen.fresh();
            let marks = build_new_marks(&e.marks, gen);
            let ghost mkv = marks.deep_view();
            let nb = Block {
                id: bid,
                stack_id: stack_id.dup(),
                order: 0,
                text: e.text.clone(),
                marks,
                current_version: 0,
                initial_version: 0,
            };
            let ghost nbv = nb@;
            bs.push(nb);
            proof {
                assert(nbv.id == dec_digits(gpre));
                let m = spec_new_marks(ev[t as int].marks, (gpre + 1) as nat);
                assert(nbv.marks == mkv);
                assert(nbv.marks == m.0);
                assert(gen@ == m.1);
                assert forall|l: int| 0 <= l < nbv.marks.len() implies (#[trigger] nbv.marks[l])
                    == (MarkView {
                    id: dec_digits((gpre + 1 + l) as nat),
                    from: ev[t as int].marks[l].from,
                    to: ev[t as int].marks[l].to,
                }) by {
                    assert(mkv[l] == (MarkView {
                        id: dec_digits(((gpre + 1) + l) as nat),
                        from: e.marks.deep_view()[l].from,
                        to: e.marks.deep_view()[l].to,
                    }));
                }
                let tail = spec_entry_blocks(
                    oldv,
                    sid,
                    ev.skip(t as int + 1),
                    gen@,
                    seen_entry_ids(ev, t as int + 1),
                );
                assert(bs.deep_view() =~= before.push(nbv));
                assert(before.push(nbv) + tail.0 =~= before + (seq![nbv] + tail.0));
                lemma_fresh_not_bounded(gpre, next0);
                assert(id_bounded(nbv.id, gen@)) by {
                    assert(gpre < gen@ && nbv.id == dec_digits(gpre));
                }
                // the new block is well-formed: its marks carry consecutive
                // fresh ids and validated ranges
                assert forall|k: int, l: int|
                    0 <= k < l < nbv.marks.len() implies (#[trigger] nbv.marks[k]).id != (
                #[trigger] nbv.marks[l]).id by {
                    lemma_fresh_ne_fresh((gpre + 1 + k) as nat, (gpre + 1 + l) as nat);
                }
                assert(nbv.wf());
                // distinct from earlier block ids
                assert forall|i: int| 0 <= i < before.len() implies before[i].id != nbv.id by {
                    if blocks_have_id(oldv, before[i].id) && seen_t.contains(before[i].id) {
                        lemma_block_by_id_mem(oldv, before[i].id);
                        let jj = choose|jj: int|
                            0 <= jj < oldv.len() && #[trigger] oldv[jj] == block_by_id(
                                oldv,
                                before[i].id,
                            );
                        assert(id_bounded(before[i].id, bound));
                        lemma_bounded_mono(before[i].id, bound, gpre);
                        if before[i].id == nbv.id {
                            assert(id_bounded(nbv.id, gpre));
                            lemma_fresh_not_bounded(gpre, gpre);
                        }
                    } else {
                        if before[i].id == nbv.id {
                            assert(id_bounded(nbv.id, gpre));
                            lemma_fresh_not_bounded(gpre, gpre);
                        }
                    }
                }
                // fresh marks are distinct from every earlier mark
                assert forall|i: int, k: int, l: int|
                    0 <= i < before.len() && 0 <= k < before[i].marks.len() && 0 <= l
                        < nbv.marks.len() implies (#[trigger] before[i].marks[k]).id != (
                #[trigger] nbv.marks[l]).id by {
                    assert(nbv.marks[l].id == dec_digits((gpre + 1 + l) as nat));
                    if blocks_have_id(oldv, before[i].id) && marks_have_id(
                        block_by_id(oldv, before[i].id).marks,
                        before[i].marks[k].id,
                    ) {
                        lemma_block_by_id_mem(oldv, before[i].id);
                        let jj = choose|jj: int|
                            0 <= jj < oldv.len() && #[trigger] oldv[jj] == block_by_id(
                                oldv,
                                before[i].id,
                            );
                        let lw = choose|lw: int|
                            0 <= lw < oldv[jj].marks.len() && (#[trigger] oldv[jj].marks[lw]).id
                                == before[i].marks[k].id;
                        assert(id_bounded(before[i].marks[k].id, bound));
                        lemma_bounded_mono(before[i].marks[k].id, bound, (gpre + 1 + l) as nat);
                        lemma_fresh_not_bounded((gpre + 1 + l) as nat, (gpre + 1 + l) as nat);
                        if before[i].marks[k].id == nbv.marks[l].id {
                            assert(id_bounded(nbv.marks[l].id, (gpre + 1 + l) as nat));
                        }
                    } else {
                        lemma_bounded_mono(before[i].marks[k].id, gpre, (gpre + 1 + l) as nat);
                        lemma_fresh_not_bounded((gpre + 1 + l) as nat, (gpre + 1 + l) as nat);
                        if before[i].marks[k].id == nbv.marks[l].id {
                            assert(id_bounded(nbv.marks[l].id, (gpre + 1 + l) as nat));
                        }
                    }
                }
                // the fresh marks' classification
                assert forall|l: int| 0 <= l < nbv.marks.len() implies (!id_bounded(
                    (#[trigger] nbv.marks[l]).id,
                    next0,
                ) && id_bounded(nbv.marks[l].id, gen@)) by {
                    lemma_fresh_not_bounded((gpre + 1 + l) as nat, next0);
                    assert(gpre + 1 + l < gen@ && nbv.marks[l].id == dec_digits(
                        (gpre + 1 + l) as nat,
                    ));
                }
            }
        }
        t = t + 1;
    }
    proof {
        assert(ev.skip(entries.len() as int) =~= Seq::<UpdateBlockView>::empty());
        let tail = spec_entry_blocks(
            oldv,
            sid,
            ev.skip(entries.len() as int),
            gen@,
            seen_entry_ids(ev, entries.len() as int),
        );
        assert(tail.0 =~= Seq::<BlockView>::empty());
        assert(bs.deep_view() + tail.0 =~= bs.deep_view());
        assert forall|i: int|
            0 <= i < bs.deep_view().len() implies (blocks_have_id(
            oldv,
            (#[trigger] bs.deep_view()[i]).id,
        ) && updated_have_id(ev, bs.deep_view()[i].id)) || (!id_bounded(
            bs.deep_view()[i].id,
            next0,
        ) && id_bounded(bs.deep_view()[i].id, gen@)) by {
            if blocks_have_id(oldv, bs.deep_view()[i].id) && seen_entry_ids(
                ev,
                entries.len() as int,
            ).contains(bs.deep_view()[i].id) {
                let w = choose|j: int|
                    0 <= j < entries.len() && (#[trigger] ev[j]).id == Some(bs.deep_view()[i].id);
                assert(updated_have_id(ev, bs.deep_view()[i].id));
            }
        }
    }
    bs
}

// ---------------------------------------------------------------------------
// The read path: reassembling a stack item from its stored rows.
// ---------------------------------------------------------------------------
/// Whether some block row carries the given id.
pub open spec fn block_rows_have_id(
    rows: Seq<crate::repos::blocks::BlockRowView>,
    id: Seq<char>,
) -> bool {
    exists|i: int| 0 <= i < rows.len() && (#[trigger] rows[i]).id == id
}

/// The first block row carrying the given id.
pub open spec fn block_row_by_id(
    rows: Seq<crate::repos::blocks::BlockRowView>,
    id: Seq<char>,
) -> crate::repos::blocks::BlockRowView
    recommends
        block_rows_have_id(rows, id),
    decreases rows.len(),
{
    if rows.len() == 0 {
        arbitrary()
    } else if rows[0].id == id {
        rows[0]
    } else {
        block_row_by_id(rows.drop_first(), id)
    }
}

/// The block row by id is the one at the first matching position.
pub proof fn lemma_block_row_by_id(
    rows: Seq<crate::repos::blocks::BlockRowView>,
    id: Seq<char>,
    j: int,
)
    requires
        0 <= j < rows.len(),
        rows[j].id == id,
        forall|k: int| 0 <= k < j ==> (#[trigger] rows[k]).id != id,
    ensures
        block_row_by_id(rows, id) == rows[j],
    decreases j,
{
    if j > 0 {
        lemma_block_row_by_id(rows.drop_first(), id, j - 1);
    }
}

/// Whether some mark row carries the given id.
pub open spec fn mark_rows_have_id(
    rows: Seq<crate::repos::marks::MarkRowView>,
    id: Seq<char>,
) -> bool {
    exists|i: int| 0 <= i < rows.len() && (#[trigger] rows[i]).id == id
}

/// The first mark row carrying the given id.
pub open spec fn mark_row_by_id(
    rows: Seq<crate::repos::marks::MarkRowView>,
    id: Seq<char>,
) -> crate::repos::marks::MarkRowView
    recommends
        mark_rows_have_id(rows, id),
    decreases rows.len(),
{
    if rows.len() == 0 {
        arbitrary()
    } else if rows[0].id == id {
        rows[0]
    } else {
        mark_row_by_id(rows.drop_first(), id)
    }
}

/// The mark row by id is the one at the first matching position.
pub proof fn lemma_mark_row_by_id(
    rows: Seq<crate::repos::marks::MarkRowView>,
    id: Seq<char>,
    j: int,
)
    requires
        0 <= j < rows.len(),
        rows[j].id == id,
        forall|k: int| 0 <= k < j ==> (#[trigger] rows[k]).id != id,
    ensures
        mark_row_by_id(rows, id) == rows[j],
    decreases j,
{
    if j > 0 {
        lemma_mark_row_by_id(rows.drop_first(), id, j - 1);
    }
}

/// The resolved form of a stored mark row, as a client sees it.
pub open spec fn spec_resolved_mark(mr: crate::repos::marks::MarkRowView) -> MarkView {
    MarkView { id: mr.id, from: mr.from, to: mr.to }
}

/// The resolved form of a stored block row: its marks looked up in
/// `marks_ids` order.
pub open spec fn spec_resolved_block(
    br: crate::repos::blocks::BlockRowView,
    marks: Seq<crate::repos::marks::MarkRowView>,
) -> BlockView {
    BlockView {
        id: br.id,
        stack_id: br.stack_id,
        order: br.order,
        text: br.text,
        marks: Seq::new(
            br.marks_ids.len(),
            |k: int| spec_resolved_mark(mark_row_by_id(marks, br.marks_ids[k])),
        ),
        current_version: br.current_version,
        initial_version: br.initial_version,
    }
}

/// Every id the stack item row and its block rows reference resolves in the
/// fetched rows.  When this fails, referential integrity is broken and the
/// read path fails closed.
pub open spec fn spec_can_assemble(
    row: crate::repos::stack::StackItemRowView,
    blocks: Seq<crate::repos::blocks::BlockRowView>,
    marks: Seq<crate::repos::marks::MarkRowView>,
) -> bool {
    &&& forall|i: int|
        0 <= i < row.blocks_ids.len() ==> block_rows_have_id(blocks, #[trigger] row.blocks_ids[i])
    &&& forall|i: int, k: int|
        0 <= i < row.blocks_ids.len() && 0 <= k < block_row_by_id(
            blocks,
            row.blocks_ids[i],
        ).marks_ids.len() ==> mark_rows_have_id(
            marks,
            #[trigger] block_row_by_id(blocks, #[trigger] row.blocks_ids[i]).marks_ids[k],
        )
}

/// The fully hydrated stack item the stored rows describe: blocks in
/// `blocks_ids` order, each block's marks in its `marks_ids` order.
pub open spec fn spec_assemble(
    row: crate::repos::stack::StackItemRowView,
    blocks: Seq<crate::repos::blocks::BlockRowView>,
    marks: Seq<crate::repos::marks::MarkRowView>,
) -> StackItemView {
    StackItemView {
        id: row.id,
        blocks: Seq::new(
            row.blocks_ids.len(),
            |i: int| spec_resolved_block(block_row_by_id(blocks, row.blocks_ids[i]), marks),
        ),
    }
}

/// The position of the first block row carrying the given id, if any.
fn find_block_row(rows: &Vec<crate::repos::blocks::Block>, id: &Id) -> (r: Option<usize>)
    ensures
        match r {
            Some(j) => {
                &&& j < rows.len()
                &&& rows.deep_view()[j as int].id == id@
                &&& block_rows_have_id(rows.deep_view(), id@)
                &&& block_row_by_id(rows.deep_view(), id@) == rows.deep_view()[j as int]
            },
            None => !block_rows_have_id(rows.deep_view(), id@),
        },
{
    let mut j: usize = 0;
    while j < rows.len()
        invariant
            j <= rows.len(),
            forall|x: int| 0 <= x < j ==> (#[trigger] rows.deep_view()[x]).id != id@,
        decreases rows.len() - j,
    {
        if rows[j].id == *id {
            proof {
                assert(rows.deep_view()[j as int].id == id@);
                lemma_block_row_by_id(rows.deep_view(), id@, j as int);
            }
            return Some(j);
        }
        assert(rows.deep_view()[j as int].id != id@);
        j = j + 1;
    }
    None
}

/// The position of the first mark row carrying the given id, if any.
fn find_mark_row(rows: &Vec<crate::repos::marks::Mark>, id: &Id) -> (r: Option<usize>)
    ensures
        match r {
            Some(j) => {
                &&& j < rows.len()
                &&& rows.deep_view()[j as int].id == id@
                &&& mark_rows_have_id(rows.deep_view(), id@)
                &&& mark_row_by_id(rows.deep_view(), id@) == rows.deep_view()[j as int]
            },
            None => !mark_rows_have_id(rows.deep_view(), id@),
        },
{
    let mut j: usize = 0;
    while j < rows.len()
        invariant
            j <= rows.len(),
            forall|x: int| 0 <= x < j ==> (#[trigger] rows.deep_view()[x]).id != id@,
        decreases rows.len() - j,
    {
        if rows[j].id == *id {
            proof {
                assert(rows.deep_view()[j as int].id == id@);
                lemma_mark_row_by_id(rows.deep_view(), id@, j as int);
            }
            return Some(j);
        }
        assert(rows.deep_view()[j as int].id != id@);
        j = j + 1;
    }
    None
}

/// Reassemble a stack item from its stored rows: resolve `blocks_ids` against
/// the fetched block rows, then each block's `marks_ids` against the fetched
/// mark rows, keeping both orders.  A referenced id the bulk fetch did not
/// return is an invariant violation: the function fails closed with an
/// internal error instead of panicking.
pub fn assemble_stack_item(
    row: &crate::repos::stack::StackItem,
    blocks: &Vec<crate::repos::blocks::Block>,
    marks: &Vec<crate::repos::marks::Mark>,
) -> (r: AppResult<StackItem>)
    ensures
        match r {
            Result::Ok(item) => spec_can_assemble(row@, blocks.deep_view(), marks.deep_view())
                && item@ == spec_assemble(row@, blocks.deep_view(), marks.deep_view()),
            Result::Err(e) => !spec_can_assemble(row@, blocks.deep_view(), marks.deep_view())
                && e@ == (crate::errors::AppErrorView {
                message: "internal server error"@,
                error_type: crate::errors::AppErrorType::InternalServerError,
            }),
        },
{
    let ghost rv = row@;
    let ghost bv = blocks.deep_view();
    let ghost mv = marks.deep_view();
    let mut out: Vec<Block> = Vec::new();
    let mut i: usize = 0;
    while i < row.blocks_ids.len()
        invariant
            i <= row.blocks_ids.len(),
            out.deep_view() =~= Seq::new(
                i as nat,
                |x: int| spec_resolved_block(block_row_by_id(bv, rv.blocks_ids[x]), mv),
            ),
            forall|x: int|
                0 <= x < i ==> block_rows_have_id(bv, #[trigger] rv.blocks_ids[x]),
            forall|x: int, k: int|
                0 <= x < i && 0 <= k < block_row_by_id(bv, rv.blocks_ids[x]).marks_ids.len()
                    ==> mark_rows_have_id(
                    mv,
                    #[trigger] block_row_by_id(bv, #[trigger] rv.blocks_ids[x]).marks_ids[k],
                ),
        decreases row.blocks_ids.len() - i,
    {
        let block_id = &row.blocks_ids[i];
        let bj = match find_block_row(blocks, block_id) {
            Some(bj) => bj,
            None => {
                assert(!block_rows_have_id(bv, rv.blocks_ids[i as int]));
                return Err(AppError::internal());
            },
        };
        let br = &blocks[bj];
        let ghost brv = br@;
        proof {
            assert(brv == block_row_by_id(bv, rv.blocks_ids[i as int]));
        }
        let mut bmarks: Vec<Mark> = Vec::new();
        let mut k: usize = 0;
        while k < br.marks_ids.len()
            invariant
                k <= br.marks_ids.len(),
                brv == block_row_by_id(bv, rv.blocks_ids[i as int]),
                i < row.blocks_ids.len(),
                brv.marks_ids.len() == br.marks_ids.len(),
                bmarks.deep_view() =~= Seq::new(
                    k as nat,
                    |x: int| spec_resolved_mark(mark_row_by_id(mv, brv.marks_ids[x])),
                ),
                forall|x: int| 0 <= x < k ==> mark_rows_have_id(mv, #[trigger] brv.marks_ids[x]),
            decreases br.marks_ids.len() - k,
        {
            let mark_id = &br.marks_ids[k];
            let mj = match find_mark_row(marks, mark_id) {
                Some(mj) => mj,
                None => {
                    assert(!mark_rows_have_id(mv, brv.marks_ids[k as int]));
                    return Err(AppError::internal());
                },
            };
            let mr = &marks[mj];
            let ghost before = bmarks.deep_view();
            bmarks.push(Mark { id: mr.id.dup(), from: mr.from, to: mr.to });
            proof {
                assert(mr@ == mark_row_by_id(mv, brv.marks_ids[k as int]));
                assert(bmarks.deep_view() =~= before.push(
                    spec_resolved_mark(mark_row_by_id(mv, brv.marks_ids[k as int])),
                ));
                assert(bmarks.deep_view() =~= Seq::new(
                    (k + 1) as nat,
                    |x: int| spec_resolved_mark(mark_row_by_id(mv, brv.marks_ids[x])),
                ));
            }
            k = k + 1;
        }
        let ghost before = out.deep_view();
        out.push(
            Block {
                id: br.id.dup(),
                stack_id: br.stack_id.dup(),
                order: br.order,
                text: br.text.clone(),
                marks: bmarks,
                current_version: br.current_version,
                initial_version: br.initial_version,
            },
        );
        proof {
            assert(out.deep_view() =~= before.push(spec_resolved_block(brv, mv))) by {
                assert(out.deep_view()[before.len() as int].marks =~= spec_resolved_block(
                    brv,
                    mv,
                ).marks);
                assert(out.deep_view()[before.len() as int] =~= spec_resolved_block(brv, mv));
                assert(out.deep_view() =~= before.push(out.deep_view()[before.len() as int]));
            }
            assert(out.deep_view() =~= Seq::new(
                (i + 1) as nat,
                |x: int| spec_resolved_block(block_row_by_id(bv, rv.blocks_ids[x]), mv),
            ));
        }
        i = i + 1;
    }
    let item = StackItem { id: row.id.dup(), blocks: out };
    proof {
        assert(item@.blocks =~= spec_assemble(rv, bv, mv).blocks);
        assert(item@ == spec_assemble(rv, bv, mv));
    }
    Ok(item)
}

/// Whether some id is named both in `removed` and by an entry of `updated`.
fn change_set_intersects(changes: &StackItemChangeSet) -> (r: bool)
    ensures
        r == changes@.intersects(),
{
    let mut i: usize = 0;
    while i < changes.updated.len()
        invariant
            i <= changes.updated.len(),
            forall|x: int, j: int|
                0 <= x < i && 0 <= j < changes@.removed.len() ==> (#[trigger] changes@.updated[x]).id
                    != Some(#[trigger] changes@.removed[j]),
        decreases changes.updated.len() - i,
    {
        let hit = match &changes.updated[i].id {
            Some(id) => crate::services::diff::ids_contain(&changes.removed, id),
            None => false,
        };
        if hit {
            proof {
                let idv = changes@.updated[i as int].id->0;
                let j = choose|j: int|
                    0 <= j < changes@.removed.len() && #[trigger] changes@.removed[j] == idv;
                assert(changes@.updated[i as int].id == Some(changes@.removed[j]));
            }
            return true;
        }
        proof {
            assert forall|j: int|
                0 <= j < changes@.removed.len() implies (#[trigger] changes@.updated[i as int]).id
                != Some(#[trigger] changes@.removed[j]) by {
                if changes@.updated[i as int].id == Some(changes@.removed[j]) {
                    assert(id_list_contains(changes@.removed, changes@.removed[j]));
                }
            }
        }
        i = i + 1;
    }
    false
}

/// Whether every mark range of the entry satisfies `0 <= from <= to`.
fn update_block_ranges_ok(e: &crate::changes::UpdateBlock) -> (r: bool)
    ensures
        r == e@.ranges_ok(),
{
    let mut k: usize = 0;
    while k < e.marks.len()
        invariant
            k <= e.marks.len(),
            forall|x: int| 0 <= x < k ==> (#[trigger] e@.marks[x]).wf(),
        decreases e.marks.len() - k,
    {
        let cm = &e.marks[k];
        if !(cm.from >= 0 && cm.from <= cm.to) {
            assert(!e@.marks[k as int].wf());
            return false;
        }
        assert(e@.marks[k as int].wf());
        k = k + 1;
    }
    true
}

/// Whether every mark range of every entry satisfies `0 <= from <= to`.
fn change_set_ranges_ok(changes: &StackItemChangeSet) -> (r: bool)
    ensures
        r == changes@.ranges_ok(),
{
    let mut i: usize = 0;
    while i < changes.updated.len()
        invariant
            i <= changes.updated.len(),
            forall|x: int| 0 <= x < i ==> (#[trigger] changes@.updated[x]).ranges_ok(),
        decreases changes.updated.len() - i,
    {
        if !update_block_ranges_ok(&changes.updated[i]) {
            assert(!changes@.updated[i as int].ranges_ok());
            return false;
        }
        assert(changes@.updated[i as int].ranges_ok());
        i = i + 1;
    }
    true
}

/// The stored blocks the change set leaves untouched: neither removed nor
/// targeted by any entry.
fn untouched_blocks_of(blocks: &Vec<Block>, changes: &StackItemChangeSet) -> (r: Vec<Block>)
    requires
        forall|i: int, j: int|
            0 <= i < j < blocks.deep_view().len() ==> (#[trigger] blocks.deep_view()[i]).id != (
            #[trigger] blocks.deep_view()[j]).id,
    ensures
        r.deep_view() == spec_untouched_blocks(blocks.deep_view(), changes@),
        forall|x: int|
            0 <= x < r.deep_view().len() ==> is_untouched(changes@, #[trigger] r.deep_view()[x]),
        forall|x: int|
            0 <= x < r.deep_view().len() ==> blocks.deep_view().contains(
                #[trigger] r.deep_view()[x],
            ),
        forall|x: int, y: int|
            0 <= x < y < r.deep_view().len() ==> (#[trigger] r.deep_view()[x]).id != (
            #[trigger] r.deep_view()[y]).id,
{
    let ghost bv = blocks.deep_view();
    let ghost cs = changes@;
    let ghost pred = |b: BlockView| is_untouched(cs, b);
    let mut r: Vec<Block> = Vec::new();
    let mut i: usize = 0;
    while i < blocks.len()
        invariant
            i <= blocks.len(),
            r.deep_view() == bv.take(i as int).filter(pred),
            forall|x: int|
                0 <= x < r.deep_view().len() ==> is_untouched(cs, #[trigger] r.deep_view()[x]),
            forall|x: int|
                0 <= x < r.deep_view().len() ==> bv.take(i as int).contains(
                    #[trigger] r.deep_view()[x],
                ),
            forall|x: int, y: int|
                0 <= x < y < r.deep_view().len() ==> (#[trigger] r.deep_view()[x]).id != (
                #[trigger] r.deep_view()[y]).id,
        decreases blocks.len() - i,
    {
        let b = &blocks[i];
        let removed_hit = crate::services::diff::ids_contain(&changes.removed, &b.id);
        let entry_hit = match crate::services::diff::find_entry_for(&changes.updated, &b.id) {
            Some(_) => true,
            None => false,
        };
        let keep = !removed_hit && !entry_hit;
        let ghost before = r.deep_view();
        if keep {
            r.push(b.clone_block());
            proof {
                assert(r.deep_view() =~= before.push(bv[i as int]));
                assert(bv.take(i as int + 1)[i as int] == bv[i as int]);
                assert(bv.take(i as int + 1).contains(bv[i as int]));
                assert forall|x: int|
                    0 <= x < before.len() implies bv.take(i as int + 1).contains(
                    #[trigger] before[x],
                ) by {
                    let j = choose|j: int| 0 <= j < bv.take(i as int).len() && bv.take(i as int)[j] == before[x];
                    assert(bv.take(i as int + 1)[j] == before[x]);
                }
                assert forall|x: int| 0 <= x < before.len() implies (#[trigger] before[x]).id
                    != bv[i as int].id by {
                    let j = choose|j: int| 0 <= j < bv.take(i as int).len() && bv.take(i as int)[j] == before[x];
                    assert(before[x] == bv[j]);
                    assert(bv[j].id != bv[i as int].id);
                }
            }
        }
        proof {
            assert(pred(bv[i as int]) == keep);
            assert(bv.take(i as int + 1).drop_last() =~= bv.take(i as int));
            assert(bv.take(i as int + 1).last() == bv[i as int]);
            reveal_with_fuel(Seq::filter, 2);
            assert(bv.take(i as int + 1).filter(pred) == if pred(bv[i as int]) {
                bv.take(i as int).filter(pred).push(bv[i as int])
            } else {
                bv.take(i as int).filter(pred)
            });
            if !keep {
                assert forall|x: int|
                    0 <= x < r.deep_view().len() implies bv.take(i as int + 1).contains(
                    #[trigger] r.deep_view()[x],
                ) by {
                    let j = choose|j: int|
                        0 <= j < bv.take(i as int).len() && bv.take(i as int)[j]
                            == r.deep_view()[x];
                    assert(bv.take(i as int + 1)[j] == r.deep_view()[x]);
                }
            }
        }
        i = i + 1;
    }
    proof {
        assert(bv.take(blocks.len() as int) =~= bv);
    }
    r
}

/// Recompute every block's `order` to the contiguous sequence `0, 1, …, n-1`;
/// nothing else about any block changes.
fn renumber_blocks(blocks: &mut Vec<Block>)
    requires
        old(blocks).len() <= i32::MAX,
    ensures
        final(blocks).deep_view() == spec_renumber(old(blocks).deep_view()),
{
    let n = blocks.len();
    let mut i: usize = 0;
    while i < n
        invariant
            i <= n,
            n == blocks.len(),
            n <= i32::MAX,
            forall|j: int| i <= j < n ==> (#[trigger] blocks@[j]) == old(blocks)@[j],
            forall|j: int|
                0 <= j < i ==> (#[trigger] blocks@[j]) == (Block {
                    order: j as i32,
                    ..old(blocks)@[j]
                }),
        decreases n - i,
    {
        blocks[i].order = i as i32;
        i = i + 1;
    }
    proof {
        assert(blocks.deep_view() =~= spec_renumber(old(blocks).deep_view()));
    }
}

/// The immutable snapshot of a block: its pre-mutation text, marks and
/// version, tagged with the stack item it belongs to.
fn history_snapshot(stack_id: &Id, b: &Block) -> (r: InsertHistoryBlock)
    ensures
        r@ == history_of_block(stack_id@, b@),
{
    let ghost f = |m: MarkView| HistoryMarkView { mark_id: m.id, from: m.from, to: m.to };
    let mut hm: Vec<InsertHistoryMark> = Vec::new();
    let mut k: usize = 0;
    while k < b.marks.len()
        invariant
            k <= b.marks.len(),
            hm.deep_view() == b.marks.deep_view().take(k as int).map_values(f),
        decreases b.marks.len() - k,
    {
        let m = &b.marks[k];
        let ghost before = hm.deep_view();
        hm.push(InsertHistoryMark { mark_id: m.id.dup(), from: m.from, to: m.to });
        proof {
            assert(hm.deep_view() =~= before.push(f(b.marks.deep_view()[k as int])));
            assert(b.marks.deep_view().take(k as int + 1).map_values(f) =~= b.marks.deep_view().take(
                k as int,
            ).map_values(f).push(f(b.marks.deep_view()[k as int])));
        }
        k = k + 1;
    }
    proof {
        assert(b.marks.deep_view().take(b.marks.len() as int) =~= b.marks.deep_view());
    }
    InsertHistoryBlock {
        stack_id: stack_id.dup(),
        block_id: b.id.dup(),
        version: b.current_version,
        text: b.text.clone(),
        marks: hm,
    }
}

/// One history snapshot per given block, in order.
fn history_snapshots(stack_id: &Id, blocks: &Vec<Block>) -> (r: Vec<InsertHistoryBlock>)
    ensures
        r.deep_view() == blocks.deep_view().map_values(
            |b: BlockView| history_of_block(stack_id@, b),
        ),
{
    let ghost f = |b: BlockView| history_of_block(stack_id@, b);
    let mut r: Vec<InsertHistoryBlock> = Vec::new();
    let mut i: usize = 0;
    while i < blocks.len()
        invariant
            i <= blocks.len(),
            r.deep_view() == blocks.deep_view().take(i as int).map_values(f),
        decreases blocks.len() - i,
    {
        let ghost before = r.deep_view();
        r.push(history_snapshot(stack_id, &blocks[i]));
        proof {
            assert(r.deep_view() =~= before.push(f(blocks.deep_view()[i as int])));
            assert(blocks.deep_view().take(i as int + 1).map_values(f) =~= blocks.deep_view().take(
                i as int,
            ).map_values(f).push(f(blocks.deep_view()[i as int])));
        }
        i = i + 1;
    }
    proof {
        assert(blocks.deep_view().take(blocks.len() as int) =~= blocks.deep_view());
    }
    r
}

/// One history snapshot per modified pair, capturing the stored block of the
/// pair, in order.
fn history_snapshots_of_pairs(
    stack_id: &Id,
    pairs: &Vec<(Block, crate::changes::UpdateBlock)>,
) -> (r: Vec<InsertHistoryBlock>)
    ensures
        r.deep_view() == pairs.deep_view().map_values(
            |p: (BlockView, UpdateBlockView)| history_of_block(stack_id@, p.0),
        ),
{
    let ghost f = |p: (BlockView, UpdateBlockView)| history_of_block(stack_id@, p.0);
    let mut r: Vec<InsertHistoryBlock> = Vec::new();
    let mut i: usize = 0;
    while i < pairs.len()
        invariant
            i <= pairs.len(),
            r.deep_view() == pairs.deep_view().take(i as int).map_values(f),
        decreases pairs.len() - i,
    {
        let ghost before = r.deep_view();
        r.push(history_snapshot(stack_id, &pairs[i].0));
        proof {
            assert(r.deep_view() =~= before.push(f(pairs.deep_view()[i as int])));
            assert(pairs.deep_view().take(i as int + 1).map_values(f) =~= pairs.deep_view().take(
                i as int,
            ).map_values(f).push(f(pairs.deep_view()[i as int])));
        }
        i = i + 1;
    }
    proof {
        assert(pairs.deep_view().take(pairs.len() as int) =~= pairs.deep_view());
    }
    r
}

/// A store stays well-formed when only the allocator's counter grows.
proof fn lemma_service_wf_grow(v1: StackServiceView, v2: StackServiceView)
    requires
        v1.wf(),
        v2.items == v1.items,
        v2.next >= v1.next,
    ensures
        v2.wf(),
{
    assert forall|i: int| 0 <= i < v2.items.len() implies item_ids_bounded(
        (#[trigger] v2.items[i]).item,
        v2.next,
    ) by {
        lemma_item_ids_bounded_mono(v1.items[i].item, v1.next, v2.next);
    }
}

/// With pairwise distinct block ids, looking a block up by its own id gives
/// that block back.
pub proof fn lemma_block_by_own_id(blocks: Seq<BlockView>, j: int)
    requires
        0 <= j < blocks.len(),
        forall|x: int, y: int|
            0 <= x < y < blocks.len() ==> (#[trigger] blocks[x]).id != (#[trigger] blocks[y]).id,
    ensures
        block_by_id(blocks, blocks[j].id) == blocks[j],
{
    assert forall|k: int| 0 <= k < j implies (#[trigger] blocks[k]).id != blocks[j].id by {}
    lemma_block_by_id(blocks, blocks[j].id, j);
}

/// The combined and renumbered result of an update is a well-formed stack
/// item whose ids the allocator's final counter bounds.
#[verifier::rlimit(100)]
proof fn lemma_updated_item_wf(
    oldv: StackItemView,
    cs: ChangeSetView,
    next0: nat,
    next1: nat,
    unt: Seq<BlockView>,
    built: Seq<BlockView>,
)
    requires
        oldv.wf(),
        item_ids_bounded(oldv, next0),
        next0 <= next1,
        forall|x: int| 0 <= x < unt.len() ==> oldv.blocks.contains(#[trigger] unt[x]),
        forall|x: int| 0 <= x < unt.len() ==> is_untouched(cs, #[trigger] unt[x]),
        forall|x: int, y: int|
            0 <= x < y < unt.len() ==> (#[trigger] unt[x]).id != (#[trigger] unt[y]).id,
        built_blocks_ok(built, oldv.blocks, cs.updated, oldv.id, next0, next1),
    ensures
        (StackItemView { id: oldv.id, blocks: spec_renumber(unt + built) }).wf(),
        item_ids_bounded(
            StackItemView { id: oldv.id, blocks: spec_renumber(unt + built) },
            next1,
        ),
{
    let cb = unt + built;
    let item = StackItemView { id: oldv.id, blocks: spec_renumber(cb) };
    let n = cb.len();
    let ul = unt.len();
    assert forall|i: int| 0 <= i < n implies (#[trigger] item.blocks[i]) == (BlockView {
        order: i,
        ..cb[i]
    }) by {}
    assert forall|x: int| 0 <= x < ul implies cb[x] == unt[x] by {}
    assert forall|x: int| ul <= x < n implies cb[x] == built[x - ul] by {}
    // each block of the result is well-formed, owned, and bounded
    assert forall|i: int| 0 <= i < n implies ((#[trigger] item.blocks[i]).wf()
        && item.blocks[i].stack_id == oldv.id && id_bounded(item.blocks[i].id, next1)) by {
        if i < ul {
            let j = choose|j: int| 0 <= j < oldv.blocks.len() && #[trigger] oldv.blocks[j] == unt[i];
            assert(oldv.blocks[j].wf());
            assert(id_bounded(oldv.blocks[j].id, next0));
            lemma_bounded_mono(unt[i].id, next0, next1);
        } else {
            assert(built[i - ul].wf());
            if blocks_have_id(oldv.blocks, built[i - ul].id) {
                let w = choose|w: int|
                    0 <= w < oldv.blocks.len() && (#[trigger] oldv.blocks[w]).id == built[i - ul].id;
                assert(id_bounded(oldv.blocks[w].id, next0));
                lemma_bounded_mono(built[i - ul].id, next0, next1);
            }
        }
    }
    // each mark of each block is bounded
    assert forall|i: int, k: int|
        0 <= i < n && 0 <= k < item.blocks[i].marks.len() implies id_bounded(
        (#[trigger] item.blocks[i].marks[k]).id,
        next1,
    ) by {
        if i < ul {
            let j = choose|j: int| 0 <= j < oldv.blocks.len() && #[trigger] oldv.blocks[j] == unt[i];
            assert(id_bounded(oldv.blocks[j].marks[k].id, next0));
            lemma_bounded_mono(unt[i].marks[k].id, next0, next1);
        } else {
            let c = built[i - ul];
            assert(0 <= k < c.marks.len());
            if blocks_have_id(oldv.blocks, c.id) && marks_have_id(
                block_by_id(oldv.blocks, c.id).marks,
                c.marks[k].id,
            ) {
                lemma_block_by_id_mem(oldv.blocks, c.id);
                let w = choose|w: int|
                    0 <= w < oldv.blocks.len() && #[trigger] oldv.blocks[w] == block_by_id(
                        oldv.blocks,
                        c.id,
                    );
                let l = choose|l: int|
                    0 <= l < oldv.blocks[w].marks.len() && (#[trigger] oldv.blocks[w].marks[l]).id
                        == c.marks[k].id;
                assert(id_bounded(oldv.blocks[w].marks[l].id, next0));
                lemma_bounded_mono(c.marks[k].id, next0, next1);
            }
        }
    }
    // pairwise distinct block ids
    assert forall|i: int, j: int| 0 <= i < j < n implies (#[trigger] item.blocks[i]).id != (
    #[trigger] item.blocks[j]).id by {
        if i < ul && j < ul {
        } else if i >= ul && j >= ul {
        } else {
            let u = cb[i];
            let c = built[j - ul];
            assert(u == unt[i]);
            if u.id == c.id {
                if blocks_have_id(oldv.blocks, c.id) && updated_have_id(cs.updated, c.id) {
                    assert(!updated_have_id(cs.updated, u.id));
                } else {
                    let w = choose|w: int|
                        0 <= w < oldv.blocks.len() && #[trigger] oldv.blocks[w] == unt[i];
                    assert(id_bounded(oldv.blocks[w].id, next0));
                    assert(!id_bounded(c.id, next0));
                }
            }
        }
    }
    // no mark id occurs in two different blocks of the result
    assert forall|i: int, j: int, mid: Seq<char>|
        0 <= i < n && 0 <= j < n && i != j implies !(#[trigger] block_has_mark(item.blocks[i], mid)
        && #[trigger] block_has_mark(item.blocks[j], mid)) by {
        lemma_no_shared_mark(oldv, cs, next0, next1, unt, built, i, j, mid);
        assert(item.blocks[i].marks == cb[i].marks);
        assert(item.blocks[j].marks == cb[j].marks);
    }
    assert(item.wf());
    assert(item_ids_bounded(item, next1)) by {
        lemma_bounded_mono(oldv.id, next0, next1);
    }
}

/// Two different blocks of the combined update result never share a mark id.
#[verifier::rlimit(100)]
proof fn lemma_no_shared_mark(
    oldv: StackItemView,
    cs: ChangeSetView,
    next0: nat,
    next1: nat,
    unt: Seq<BlockView>,
    built: Seq<BlockView>,
    i: int,
    j: int,
    mid: Seq<char>,
)
    requires
        oldv.wf(),
        item_ids_bounded(oldv, next0),
        next0 <= next1,
        forall|x: int| 0 <= x < unt.len() ==> oldv.blocks.contains(#[trigger] unt[x]),
        forall|x: int| 0 <= x < unt.len() ==> is_untouched(cs, #[trigger] unt[x]),
        forall|x: int, y: int|
            0 <= x < y < unt.len() ==> (#[trigger] unt[x]).id != (#[trigger] unt[y]).id,
        built_blocks_ok(built, oldv.blocks, cs.updated, oldv.id, next0, next1),
        0 <= i < unt.len() + built.len(),
        0 <= j < unt.len() + built.len(),
        i != j,
    ensures
        !(marks_have_id((unt + built)[i].marks, mid) && marks_have_id((unt + built)[j].marks, mid)),
{
    let cb = unt + built;
    let ul = unt.len();
    assert forall|x: int| 0 <= x < ul implies cb[x] == unt[x] by {}
    assert forall|x: int| ul <= x < cb.len() implies cb[x] == built[x - ul] by {}
    if marks_have_id(cb[i].marks, mid) && marks_have_id(cb[j].marks, mid) {
    if i < ul && j < ul {
        let wi = choose|w: int| 0 <= w < oldv.blocks.len() && #[trigger] oldv.blocks[w] == unt[i];
        let wj = choose|w: int| 0 <= w < oldv.blocks.len() && #[trigger] oldv.blocks[w] == unt[j];
        assert(unt[i].id != unt[j].id);
        assert(wi != wj);
        assert(block_has_mark(oldv.blocks[wi], mid));
        assert(block_has_mark(oldv.blocks[wj], mid));
    } else if i >= ul && j >= ul {
        let ki = choose|k: int|
            0 <= k < built[i - ul].marks.len() && (#[trigger] built[i - ul].marks[k]).id == mid;
        let kj = choose|k: int|
            0 <= k < built[j - ul].marks.len() && (#[trigger] built[j - ul].marks[k]).id == mid;
        assert(built[i - ul].marks[ki].id != built[j - ul].marks[kj].id);
    } else {
        let (ui, bi) = if i < ul {
            (i, j - ul)
        } else {
            (j, i - ul)
        };
        let u = unt[ui];
        let c = built[bi];
        let wu = choose|w: int| 0 <= w < oldv.blocks.len() && #[trigger] oldv.blocks[w] == unt[ui];
        let ku = choose|k: int| 0 <= k < u.marks.len() && (#[trigger] u.marks[k]).id == mid;
        let kc = choose|k: int| 0 <= k < c.marks.len() && (#[trigger] c.marks[k]).id == mid;
        assert(id_bounded(oldv.blocks[wu].marks[ku].id, next0));
        assert(id_bounded(mid, next0));
        if blocks_have_id(oldv.blocks, c.id) && marks_have_id(
            block_by_id(oldv.blocks, c.id).marks,
            c.marks[kc].id,
        ) {
            // the built block keeps marks of its own stored block, which is a
            // different block than the untouched one
            assert(updated_have_id(cs.updated, c.id) || !id_bounded(c.id, next0)) by {}
            assert(u.id != c.id) by {
                if u.id == c.id {
                    if updated_have_id(cs.updated, c.id) {
                        assert(!updated_have_id(cs.updated, u.id));
                    } else {
                        assert(!id_bounded(c.id, next0));
                        assert(id_bounded(oldv.blocks[wu].id, next0));
                    }
                }
            }
            assert(block_by_id(oldv.blocks, u.id) == oldv.blocks[wu]) by {
                lemma_block_by_own_id(oldv.blocks, wu);
            }
            assert(marks_have_id(block_by_id(oldv.blocks, u.id).marks, mid));
            lemma_old_cross_marks_item(oldv, next0, u.id, c.id, mid);
        } else {
            assert(!id_bounded(c.marks[kc].id, next0));
        }
    }
    }
}

/// Within one well-formed item, marks of blocks with different ids never
/// share a mark id.
proof fn lemma_old_cross_marks_item(
    oldv: StackItemView,
    next0: nat,
    id1: Seq<char>,
    id2: Seq<char>,
    mid: Seq<char>,
)
    requires
        oldv.wf(),
        item_ids_bounded(oldv, next0),
        blocks_have_id(oldv.blocks, id1),
        blocks_have_id(oldv.blocks, id2),
        id1 != id2,
        marks_have_id(block_by_id(oldv.blocks, id1).marks, mid),
    ensures
        !marks_have_id(block_by_id(oldv.blocks, id2).marks, mid),
{
    lemma_block_by_id_mem(oldv.blocks, id1);
    lemma_block_by_id_mem(oldv.blocks, id2);
    let j1 = choose|j: int|
        0 <= j < oldv.blocks.len() && #[trigger] oldv.blocks[j] == block_by_id(oldv.blocks, id1);
    let j2 = choose|j: int|
        0 <= j < oldv.blocks.len() && #[trigger] oldv.blocks[j] == block_by_id(oldv.blocks, id2);
    assert(j1 != j2);
    assert(block_has_mark(oldv.blocks[j1], mid));
    assert(!(block_has_mark(oldv.blocks[j1], mid) && block_has_mark(oldv.blocks[j2], mid)));
}

/// Whether every mark range of every block of the creation payload satisfies
/// `0 <= from <= to`.
fn new_item_ranges_ok(ns: &NewStackItem) -> (r: bool)
    ensures
        r == ns@.ranges_ok(),
{
    let mut i: usize = 0;
    while i < ns.blocks.len()
        invariant
            i <= ns.blocks.len(),
            forall|x: int| 0 <= x < i ==> (#[trigger] ns@.blocks[x]).ranges_ok(),
        decreases ns.blocks.len() - i,
    {
        let b = &ns.blocks[i];
        let mut k: usize = 0;
        while k < b.marks.len()
            invariant
                k <= b.marks.len(),
                forall|x: int| 0 <= x < k ==> (#[trigger] b@.marks[x]).wf(),
            decreases b.marks.len() - k,
        {
            let m = &b.marks[k];
            if !(m.from >= 0 && m.from <= m.to) {
                assert(!b@.marks[k as int].wf());
                assert(!ns@.blocks[i as int].ranges_ok());
                return false;
            }
            assert(b@.marks[k as int].wf());
            k = k + 1;
        }
        assert(ns@.blocks[i as int].ranges_ok()) by {
            assert(ns@.blocks[i as int] == b@);
        }
        i = i + 1;
    }
    true
}

/// The number of identifiers the creation payload's blocks consume, or
/// `None` when that number does not fit in `u64`.
fn compute_create_ids_need(blocks: &Vec<crate::changes::NewBlock>) -> (r: Option<u64>)
    ensures
        match r {
            Some(n) => n == spec_create_ids_need(blocks.deep_view()),
            None => spec_create_ids_need(blocks.deep_view()) > u64::MAX,
        },
{
    let ghost ev = blocks.deep_view();
    let mut acc: u64 = 0;
    let mut i: usize = 0;
    while i < blocks.len()
        invariant
            i <= blocks.len(),
            acc == spec_create_ids_need(ev.take(i as int)),
        decreases blocks.len() - i,
    {
        proof {
            assert(ev.take(i as int + 1).drop_last() =~= ev.take(i as int));
            assert(ev.take(i as int + 1).last() == ev[i as int]);
        }
        let m = blocks[i].marks.len() as u64;
        if m == u64::MAX || acc > u64::MAX - 1 - m {
            proof {
                lemma_create_need_prefix(ev, i as int + 1);
            }
            return None;
        }
        acc = acc + 1 + m;
        i = i + 1;
    }
    proof {
        assert(ev.take(blocks.len() as int) =~= ev);
    }
    Some(acc)
}

/// The fresh marks of one block of a creation payload, in order.
fn build_create_marks(nms: &Vec<crate::changes::NewMark>, gen: &mut IdGen) -> (r: Vec<Mark>)
    requires
        old(gen)@ + nms.len() <= u64::MAX,
    ensures
        ({
            let m = spec_create_marks(nms.deep_view(), old(gen)@);
            r.deep_view() == m.0 && final(gen)@ == m.1
        }),
        final(gen)@ == old(gen)@ + nms.len(),
        r.deep_view().len() == nms.deep_view().len(),
        forall|x: int|
            0 <= x < r.deep_view().len() ==> (#[trigger] r.deep_view()[x]) == (MarkView {
                id: dec_digits((old(gen)@ + x) as nat),
                from: nms.deep_view()[x].from,
                to: nms.deep_view()[x].to,
            }),
{
    let ghost nv = nms.deep_view();
    let ghost next0 = gen@;
    let mut r: Vec<Mark> = Vec::new();
    proof {
        assert(nv.skip(0) =~= nv);
        assert(r.deep_view() =~= Seq::<MarkView>::empty());
        assert(r.deep_view() + spec_create_marks(nv, next0).0 =~= spec_create_marks(nv, next0).0);
    }
    let mut k: usize = 0;
    while k < nms.len()
        invariant
            k <= nms.len(),
            gen@ == next0 + k,
            next0 + nms.len() <= u64::MAX,
            spec_create_marks(nv, next0).0 == r.deep_view() + spec_create_marks(
                nv.skip(k as int),
                gen@,
            ).0,
            spec_create_marks(nv, next0).1 == spec_create_marks(nv.skip(k as int), gen@).1,
            r.deep_view().len() == k,
            forall|x: int|
                0 <= x < k ==> (#[trigger] r.deep_view()[x]) == (MarkView {
                    id: dec_digits((next0 + x) as nat),
                    from: nv[x].from,
                    to: nv[x].to,
                }),
        decreases nms.len() - k,
    {
        let ghost gpre = gen@;
        proof {
            assert(nv.skip(k as int)[0] == nv[k as int]);
            assert(nv.skip(k as int).drop_first() =~= nv.skip(k as int + 1));
        }
        let nm = &nms[k];
        let fid = gen.fresh();
        let ghost before = r.deep_view();
        r.push(Mark { id: fid, from: nm.from, to: nm.to });
        proof {
            let mv = MarkView { id: dec_digits(gpre), from: nm.from as int, to: nm.to as int };
            let tail = spec_create_marks(nv.skip(k as int + 1), gen@);
            assert(r.deep_view() =~= before.push(mv));
            assert(before.push(mv) + tail.0 =~= before + (seq![mv] + tail.0));
        }
        k = k + 1;
    }
    proof {
        assert(nv.skip(nms.len() as int) =~= Seq::<crate::changes::NewMarkView>::empty());
        let t = spec_create_marks(nv.skip(nms.len() as int), gen@);
        assert(t.0 =~= Seq::<MarkView>::empty());
        assert(r.deep_view() + t.0 =~= r.deep_view());
    }
    r
}

/// The fresh blocks of a creation payload, in payload order.
#[verifier::rlimit(100)]
fn build_create_blocks(
    blocks: &Vec<crate::changes::NewBlock>,
    stack_id: &Id,
    gen: &mut IdGen,
) -> (r: Vec<Block>)
    requires
        old(gen)@ + spec_create_ids_need(blocks.deep_view()) <= u64::MAX,
        forall|i: int|
            0 <= i < blocks.deep_view().len() ==> (#[trigger] blocks.deep_view()[i]).ranges_ok(),
    ensures
        ({
            let b = spec_create_blocks(blocks.deep_view(), stack_id@, old(gen)@);
            r.deep_view() == b.0 && final(gen)@ == b.1
        }),
        old(gen)@ <= final(gen)@,
        r.deep_view().len() == blocks.deep_view().len(),
        forall|i: int| 0 <= i < r.deep_view().len() ==> (#[trigger] r.deep_view()[i]).wf(),
        forall|i: int|
            0 <= i < r.deep_view().len() ==> (#[trigger] r.deep_view()[i]).stack_id == stack_id@,
        forall|i: int, j: int|
            0 <= i < j < r.deep_view().len() ==> (#[trigger] r.deep_view()[i]).id != (
            #[trigger] r.deep_view()[j]).id,
        forall|i: int|
            0 <= i < r.deep_view().len() ==> !id_bounded((#[trigger] r.deep_view()[i]).id, old(gen)@)
                && id_bounded(r.deep_view()[i].id, final(gen)@),
        forall|i: int, k: int|
            0 <= i < r.deep_view().len() && 0 <= k < r.deep_view()[i].marks.len() ==> !id_bounded(
                (#[trigger] r.deep_view()[i].marks[k]).id,
                old(gen)@,
            ) && id_bounded(r.deep_view()[i].marks[k].id, final(gen)@),
        forall|i: int, j: int, k: int, l: int|
            0 <= i < r.deep_view().len() && 0 <= j < r.deep_view().len() && i != j && 0 <= k
                < r.deep_view()[i].marks.len() && 0 <= l < r.deep_view()[j].marks.len() ==> (
            #[trigger] r.deep_view()[i].marks[k]).id != (#[trigger] r.deep_view()[j].marks[l]).id,
{
    let ghost bv = blocks.deep_view();
    let ghost sid = stack_id@;
    let ghost next0 = gen@;
    let mut r: Vec<Block> = Vec::new();
    proof {
        assert(bv.skip(0) =~= bv);
        assert(r.deep_view() =~= Seq::<BlockView>::empty());
        assert(r.deep_view() + spec_create_blocks(bv, sid, next0).0 =~= spec_create_blocks(
            bv,
            sid,
            next0,
        ).0);
    }
    let mut i: usize = 0;
    while i < blocks.len()
        invariant
            i <= blocks.len(),
            next0 <= gen@,
            gen@ + spec_create_ids_need(bv.skip(i as int)) <= u64::MAX,
            spec_create_blocks(bv, sid, next0).0 == r.deep_view() + spec_create_blocks(
                bv.skip(i as int),
                sid,
                gen@,
            ).0,
            spec_create_blocks(bv, sid, next0).1 == spec_create_blocks(
                bv.skip(i as int),
                sid,
                gen@,
            ).1,
            r.deep_view().len() == i,
            forall|x: int| 0 <= x < r.deep_view().len() ==> (#[trigger] r.deep_view()[x]).wf(),
            forall|x: int|
                0 <= x < r.deep_view().len() ==> (#[trigger] r.deep_view()[x]).stack_id == sid,
            forall|x: int, y: int|
                0 <= x < y < r.deep_view().len() ==> (#[trigger] r.deep_view()[x]).id != (
                #[trigger] r.deep_view()[y]).id,
            forall|x: int|
                0 <= x < r.deep_view().len() ==> !id_bounded(
                    (#[trigger] r.deep_view()[x]).id,
                    next0,
                ) && id_bounded(r.deep_view()[x].id, gen@),
            forall|x: int, k: int|
                0 <= x < r.deep_view().len() && 0 <= k < r.deep_view()[x].marks.len()
                    ==> !id_bounded((#[trigger] r.deep_view()[x].marks[k]).id, next0) && id_bounded(
                    r.deep_view()[x].marks[k].id,
                    gen@,
                ),
            forall|x: int, y: int, k: int, l: int|
                0 <= x < r.deep_view().len() && 0 <= y < r.deep_view().len() && x != y && 0 <= k
                    < r.deep_view()[x].marks.len() && 0 <= l < r.deep_view()[y].marks.len() ==> (
                #[trigger] r.deep_view()[x].marks[k]).id != (#[trigger] r.deep_view()[y].marks[l]).id,
        decreases blocks.len() - i,
    {
        let ghost gpre = gen@;
        let ghost before = r.deep_view();
        proof {
            assert(bv.skip(i as int)[0] == bv[i as int]);
            assert(bv.skip(i as int).drop_first() =~= bv.skip(i as int + 1));
            lemma_create_need_first(bv.skip(i as int));
        }
        let nb = &blocks[i];
        let bid = gen.fresh();
        let marks = build_create_marks(&nb.marks, gen);
        let ghost mkv = marks.deep_view();
        let blk = Block {
            id: bid,
            stack_id: stack_id.dup(),
            order: 0,
            text: nb.text.clone(),
            marks,
            current_version: 0,
            initial_version: 0,
        };
        let ghost blkv = blk@;
        r.push(blk);
        proof {
            assert(blkv.id == dec_digits(gpre));
            assert(blkv.marks == mkv);
            let m = spec_create_marks(bv[i as int].marks, (gpre + 1) as nat);
            assert(blkv.marks == m.0);
            assert(gen@ == m.1);
            let tail = spec_create_blocks(bv.skip(i as int + 1), sid, gen@);
            assert(r.deep_view() =~= before.push(blkv));
            assert(before.push(blkv) + tail.0 =~= before + (seq![blkv] + tail.0));
            assert forall|l: int| 0 <= l < blkv.marks.len() implies (#[trigger] blkv.marks[l])
                == (MarkView {
                id: dec_digits((gpre + 1 + l) as nat),
                from: bv[i as int].marks[l].from,
                to: bv[i as int].marks[l].to,
            }) by {
                assert(mkv[l] == (MarkView {
                    id: dec_digits(((gpre + 1) + l) as nat),
                    from: nb.marks.deep_view()[l].from,
                    to: nb.marks.deep_view()[l].to,
                }));
            }
            lemma_fresh_not_bounded(gpre, next0);
            assert(id_bounded(blkv.id, gen@)) by {
                assert(gpre < gen@ && blkv.id == dec_digits(gpre));
            }
            assert forall|k: int, l: int|
                0 <= k < l < blkv.marks.len() implies (#[trigger] blkv.marks[k]).id != (
            #[trigger] blkv.marks[l]).id by {
                lemma_fresh_ne_fresh((gpre + 1 + k) as nat, (gpre + 1 + l) as nat);
            }
            assert(blkv.wf()) by {
                assert(bv[i as int].ranges_ok());
                assert forall|l: int| 0 <= l < blkv.marks.len() implies (
                #[trigger] blkv.marks[l]).wf() by {
                    assert(bv[i as int].marks[l].wf());
                }
            }
            assert forall|x: int| 0 <= x < before.len() implies before[x].id != blkv.id by {
                if before[x].id == blkv.id {
                    assert(id_bounded(blkv.id, gpre));
                    lemma_fresh_not_bounded(gpre, gpre);
                }
            }
            assert forall|l: int| 0 <= l < blkv.marks.len() implies (!id_bounded(
                (#[trigger] blkv.marks[l]).id,
                next0,
            ) && id_bounded(blkv.marks[l].id, gen@)) by {
                lemma_fresh_not_bounded((gpre + 1 + l) as nat, next0);
                assert(gpre + 1 + l < gen@ && blkv.marks[l].id == dec_digits((gpre + 1 + l) as nat));
            }
            assert forall|x: int, k: int, l: int|
                0 <= x < before.len() && 0 <= k < before[x].marks.len() && 0 <= l < blkv.marks.len()
                    implies (#[trigger] before[x].marks[k]).id != (#[trigger] blkv.marks[l]).id by {
                lemma_bounded_mono(before[x].marks[k].id, gpre, (gpre + 1 + l) as nat);
                lemma_fresh_not_bounded((gpre + 1 + l) as nat, (gpre + 1 + l) as nat);
                if before[x].marks[k].id == blkv.marks[l].id {
                    assert(id_bounded(blkv.marks[l].id, (gpre + 1 + l) as nat));
                }
            }
        }
        i = i + 1;
    }
    proof {
        assert(bv.skip(blocks.len() as int) =~= Seq::<crate::changes::NewBlockView>::empty());
        let tail = spec_create_blocks(bv.skip(blocks.len() as int), sid, gen@);
        assert(tail.0 =~= Seq::<BlockView>::empty());
        assert(r.deep_view() + tail.0 =~= r.deep_view());
    }
    r
}

/// Bounded ids stay bounded as the allocator's counter grows.
proof fn lemma_item_ids_bounded_mono(item: StackItemView, n1: nat, n2: nat)
    requires
        item_ids_bounded(item, n1),
        n1 <= n2,
    ensures
        item_ids_bounded(item, n2),
{
    lemma_bounded_mono(item.id, n1, n2);
    assert forall|i: int| 0 <= i < item.blocks.len() implies id_bounded(
        (#[trigger] item.blocks[i]).id,
        n2,
    ) by {
        lemma_bounded_mono(item.blocks[i].id, n1, n2);
    }
    assert forall|i: int, k: int|
        0 <= i < item.blocks.len() && 0 <= k < item.blocks[i].marks.len() implies id_bounded(
        (#[trigger] item.blocks[i].marks[k]).id,
        n2,
    ) by {
        lemma_bounded_mono(item.blocks[i].marks[k].id, n1, n2);
    }
}

/// The marks of a newly inserted block: one fresh mark per change mark, in
/// order, whatever ids the change marks carried.
fn build_new_marks(cms: &Vec<crate::changes::ChangeMark>, gen: &mut IdGen) -> (r: Vec<Mark>)
    requires
        old(gen)@ + cms.len() <= u64::MAX,
        forall|k: int| 0 <= k < cms.deep_view().len() ==> (#[trigger] cms.deep_view()[k]).wf(),
    ensures
        ({
            let m = spec_new_marks(cms.deep_view(), old(gen)@);
            r.deep_view() == m.0 && final(gen)@ == m.1
        }),
        final(gen)@ == old(gen)@ + cms.len(),
        r.deep_view().len() == cms.deep_view().len(),
        forall|x: int|
            0 <= x < r.deep_view().len() ==> (#[trigger] r.deep_view()[x]) == (MarkView {
                id: dec_digits((old(gen)@ + x) as nat),
                from: cms.deep_view()[x].from,
                to: cms.deep_view()[x].to,
            }),
        forall|x: int| 0 <= x < r.deep_view().len() ==> (#[trigger] r.deep_view()[x]).wf(),
{
    let ghost cmsv = cms.deep_view();
    let ghost next0 = gen@;
    let mut r: Vec<Mark> = Vec::new();
    proof {
        assert(cmsv.skip(0) =~= cmsv);
        assert(r.deep_view() =~= Seq::<MarkView>::empty());
        assert(r.deep_view() + spec_new_marks(cmsv, next0).0 =~= spec_new_marks(cmsv, next0).0);
    }
    let mut k: usize = 0;
    while k < cms.len()
        invariant
            k <= cms.len(),
            gen@ == next0 + k,
            next0 + cms.len() <= u64::MAX,
            spec_new_marks(cmsv, next0).0 == r.deep_view() + spec_new_marks(
                cmsv.skip(k as int),
                gen@,
            ).0,
            spec_new_marks(cmsv, next0).1 == spec_new_marks(cmsv.skip(k as int), gen@).1,
            r.deep_view().len() == k,
            forall|x: int|
                0 <= x < k ==> (#[trigger] r.deep_view()[x]) == (MarkView {
                    id: dec_digits((next0 + x) as nat),
                    from: cmsv[x].from,
                    to: cmsv[x].to,
                }),
        decreases cms.len() - k,
    {
        let ghost gpre = gen@;
        proof {
            assert(cmsv.skip(k as int)[0] == cmsv[k as int]);
            assert(cmsv.skip(k as int).drop_first() =~= cmsv.skip(k as int + 1));
        }
        let cm = &cms[k];
        let fid = gen.fresh();
        let ghost before = r.deep_view();
        r.push(Mark { id: fid, from: cm.from, to: cm.to });
        proof {
            let mv = MarkView { id: dec_digits(gpre), from: cm.from as int, to: cm.to as int };
            let tail = spec_new_marks(cmsv.skip(k as int + 1), gen@);
            assert(r.deep_view() =~= before.push(mv));
            assert(before.push(mv) + tail.0 =~= before + (seq![mv] + tail.0));
        }
        k = k + 1;
    }
    proof {
        assert(cmsv.skip(cms.len() as int) =~= Seq::<ChangeMarkView>::empty());
        let t = spec_new_marks(cmsv.skip(cms.len() as int), gen@);
        assert(t.0 =~= Seq::<MarkView>::empty());
        assert(r.deep_view() + t.0 =~= r.deep_view());
        assert forall|x: int| 0 <= x < r.deep_view().len() implies (#[trigger] r.deep_view()[x]).wf()
            by {
            assert(cmsv[x].wf());
        }
    }
    r
}

} // verus!
