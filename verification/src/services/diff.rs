//! The pure diff engine: side-effect-free classification of blocks and marks
//! as new, removed, unchanged or modified, given the stored blocks and a
//! caller's block entry list.
//!
//! Nothing here writes anything; the results describe what changed and make no
//! promise about the final identifiers of new entities.
use vstd::prelude::*;

use crate::changes::{ChangeMarkView, UpdateBlock, UpdateBlockView};
use crate::ids::Id;
use crate::services::stack::{Block, BlockView};

verus! {

/// Whether some block in the sequence carries the given id.
pub open spec fn blocks_have_id(blocks: Seq<BlockView>, id: Seq<char>) -> bool {
    exists|i: int| 0 <= i < blocks.len() && (#[trigger] blocks[i]).id == id
}

/// Whether some entry of the list targets the given id.
pub open spec fn updated_have_id(updated: Seq<UpdateBlockView>, id: Seq<char>) -> bool {
    exists|i: int| 0 <= i < updated.len() && (#[trigger] updated[i]).id == Some(id)
}

/// Whether the given id occurs in a list of ids.
pub open spec fn id_list_contains(ids: Seq<Seq<char>>, id: Seq<char>) -> bool {
    exists|i: int| 0 <= i < ids.len() && #[trigger] ids[i] == id
}

/// An entry is a new insertion when it has no id, or its id matches no stored
/// block.
pub open spec fn is_new_entry(blocks: Seq<BlockView>, e: UpdateBlockView) -> bool {
    match e.id {
        None => true,
        Some(id) => !blocks_have_id(blocks, id),
    }
}

/// The first entry of the list targeting the given id.
pub open spec fn first_entry_for(updated: Seq<UpdateBlockView>, id: Seq<char>) -> UpdateBlockView
    recommends
        updated_have_id(updated, id),
    decreases updated.len(),
{
    if updated.len() == 0 {
        arbitrary()
    } else if updated[0].id == Some(id) {
        updated[0]
    } else {
        first_entry_for(updated.drop_first(), id)
    }
}

/// The first entry targeting `id` is the one at the first matching position.
pub proof fn lemma_first_entry_for(updated: Seq<UpdateBlockView>, id: Seq<char>, j: int)
    requires
        0 <= j < updated.len(),
        updated[j].id == Some(id),
        forall|k: int| 0 <= k < j ==> (#[trigger] updated[k]).id != Some(id),
    ensures
        first_entry_for(updated, id) == updated[j],
    decreases j,
{
    if j == 0 {
    } else {
        assert(updated[0].id != Some(id));
        lemma_first_entry_for(updated.drop_first(), id, j - 1);
    }
}

/// A mark of the stored block and a mark of the entry agree: same id, same
/// range.
pub open spec fn entry_mark_matches(m: crate::services::stack::MarkView, cm: ChangeMarkView) -> bool {
    cm.id == Some(m.id) && cm.from == m.from && cm.to == m.to
}

/// Some stored mark agrees with the given change mark.
pub open spec fn entry_mark_covered(
    b_marks: Seq<crate::services::stack::MarkView>,
    cm: ChangeMarkView,
) -> bool {
    exists|l: int| 0 <= l < b_marks.len() && entry_mark_matches(#[trigger] b_marks[l], cm)
}

/// Some change mark of the entry agrees with the given stored mark.
pub open spec fn block_mark_covered(
    cms: Seq<ChangeMarkView>,
    m: crate::services::stack::MarkView,
) -> bool {
    exists|k: int| 0 <= k < cms.len() && entry_mark_matches(m, #[trigger] cms[k])
}

/// A stored block and an entry describe the same content: same id, same text,
/// and the same set of marks with identical ranges.  An update entry matching
/// its block this way is unchanged: no history is written and the version does
/// not move.
pub open spec fn block_matches_entry(b: BlockView, e: UpdateBlockView) -> bool {
    &&& e.id == Some(b.id)
    &&& e.text == b.text
    &&& e.marks.len() == b.marks.len()
    &&& forall|k: int| 0 <= k < e.marks.len() ==> entry_mark_covered(b.marks, #[trigger] e.marks[k])
    &&& forall|l: int| 0 <= l < b.marks.len() ==> block_mark_covered(e.marks, #[trigger] b.marks[l])
}

/// The entries of `updated` that are new insertions with respect to `blocks`,
/// in list order.
pub open spec fn spec_new_entries(blocks: Seq<BlockView>, updated: Seq<UpdateBlockView>) -> Seq<
    UpdateBlockView,
> {
    updated.filter(|e: UpdateBlockView| is_new_entry(blocks, e))
}

/// The stored blocks that no entry of `updated` targets, in stored order.
pub open spec fn spec_deleted_blocks(blocks: Seq<BlockView>, updated: Seq<UpdateBlockView>) -> Seq<
    BlockView,
> {
    blocks.filter(|b: BlockView| !updated_have_id(updated, b.id))
}

/// The stored blocks whose id occurs in `removed`, in stored order.
pub open spec fn spec_removed_blocks(blocks: Seq<BlockView>, removed: Seq<Seq<char>>) -> Seq<
    BlockView,
> {
    blocks.filter(|b: BlockView| id_list_contains(removed, b.id))
}

/// The stored blocks targeted by an entry that actually changes them, each
/// paired with the first entry targeting it, in stored order.
pub open spec fn spec_updated_pairs(blocks: Seq<BlockView>, updated: Seq<UpdateBlockView>) -> Seq<
    (BlockView, UpdateBlockView),
> {
    blocks.filter(
        |b: BlockView|
            updated_have_id(updated, b.id) && !block_matches_entry(b, first_entry_for(updated, b.id)),
    ).map_values(|b: BlockView| (b, first_entry_for(updated, b.id)))
}

/// Whether some stored block carries the given id.
pub fn contains_block_id(blocks: &Vec<Block>, id: &Id) -> (r: bool)
    ensures
        r == blocks_have_id(blocks.deep_view(), id@),
{
    let mut i: usize = 0;
    while i < blocks.len()
        invariant
            i <= blocks.len(),
            forall|j: int| 0 <= j < i ==> (#[trigger] blocks.deep_view()[j]).id != id@,
        decreases blocks.len() - i,
    {
        if blocks[i].id == *id {
            assert(blocks.deep_view()[i as int].id == id@);
            return true;
        }
        i = i + 1;
    }
    false
}

/// Whether the given id occurs in a list of ids.
pub fn ids_contain(ids: &Vec<Id>, id: &Id) -> (r: bool)
    ensures
        r == id_list_contains(ids.deep_view(), id@),
{
    let mut i: usize = 0;
    while i < ids.len()
        invariant
            i <= ids.len(),
            forall|j: int| 0 <= j < i ==> #[trigger] ids.deep_view()[j] != id@,
        decreases ids.len() - i,
    {
        if ids[i] == *id {
            assert(ids.deep_view()[i as int] == id@);
            return true;
        }
        i = i + 1;
    }
    false
}

/// The position of the first entry targeting the given id, if any.
pub fn find_entry_for(updated: &Vec<UpdateBlock>, id: &Id) -> (r: Option<usize>)
    ensures
        match r {
            Some(j) => {
                &&& j < updated.len()
                &&& updated.deep_view()[j as int].id == Some(id@)
                &&& updated_have_id(updated.deep_view(), id@)
                &&& first_entry_for(updated.deep_view(), id@) == updated.deep_view()[j as int]
            },
            None => !updated_have_id(updated.deep_view(), id@),
        },
{
    let mut i: usize = 0;
    while i < updated.len()
        invariant
            i <= updated.len(),
            forall|j: int| 0 <= j < i ==> (#[trigger] updated.deep_view()[j]).id != Some(id@),
        decreases updated.len() - i,
    {
        let matches_id = match &updated[i].id {
            Some(eid) => *eid == *id,
            None => false,
        };
        if matches_id {
            proof {
                assert(updated.deep_view()[i as int].id == Some(id@));
                lemma_first_entry_for(updated.deep_view(), id@, i as int);
            }
            return Some(i);
        }
        proof {
            assert(updated.deep_view()[i as int].id != Some(id@));
        }
        i = i + 1;
    }
    None
}

/// The position of the stored mark with the given id, if any.
pub fn find_mark_by_id(marks: &Vec<crate::services::stack::Mark>, id: &Id) -> (r: Option<usize>)
    ensures
        match r {
            Some(l) => l < marks.len() && marks.deep_view()[l as int].id == id@,
            None => !crate::services::stack::marks_have_id(marks.deep_view(), id@),
        },
{
    let mut l: usize = 0;
    while l < marks.len()
        invariant
            l <= marks.len(),
            forall|j: int| 0 <= j < l ==> (#[trigger] marks.deep_view()[j]).id != id@,
        decreases marks.len() - l,
    {
        if marks[l].id == *id {
            assert(marks.deep_view()[l as int].id == id@);
            return Some(l);
        }
        l = l + 1;
    }
    None
}

/// Whether the stored mark and the change mark agree: same id, same range.
pub fn mark_matches_change(m: &crate::services::stack::Mark, cm: &crate::changes::ChangeMark) -> (r:
    bool)
    ensures
        r == entry_mark_matches(m@, cm@),
{
    match &cm.id {
        Some(mid) => *mid == m.id && cm.from == m.from && cm.to == m.to,
        None => false,
    }
}

/// Whether some stored mark agrees with the given change mark.
pub fn has_matching_mark(
    marks: &Vec<crate::services::stack::Mark>,
    cm: &crate::changes::ChangeMark,
) -> (r: bool)
    ensures
        r == entry_mark_covered(marks.deep_view(), cm@),
{
    let mut l: usize = 0;
    while l < marks.len()
        invariant
            l <= marks.len(),
            forall|j: int|
                0 <= j < l ==> !entry_mark_matches(#[trigger] marks.deep_view()[j], cm@),
        decreases marks.len() - l,
    {
        if mark_matches_change(&marks[l], cm) {
            assert(entry_mark_matches(marks.deep_view()[l as int], cm@));
            return true;
        }
        l = l + 1;
    }
    false
}

/// Whether some change mark of the entry agrees with the given stored mark.
pub fn entry_has_matching_mark(
    cms: &Vec<crate::changes::ChangeMark>,
    m: &crate::services::stack::Mark,
) -> (r: bool)
    ensures
        r == block_mark_covered(cms.deep_view(), m@),
{
    let mut k: usize = 0;
    while k < cms.len()
        invariant
            k <= cms.len(),
            forall|j: int|
                0 <= j < k ==> !entry_mark_matches(m@, #[trigger] cms.deep_view()[j]),
        decreases cms.len() - k,
    {
        if mark_matches_change(m, &cms[k]) {
            assert(entry_mark_matches(m@, cms.deep_view()[k as int]));
            return true;
        }
        k = k + 1;
    }
    false
}

/// Whether the stored block and the entry describe the same content (same id,
/// text and marks): such an entry is classified unchanged.
pub fn block_matches_update(block: &Block, updated: &UpdateBlock) -> (r: bool)
    ensures
        r == block_matches_entry(block@, updated@),
{
    let matches_id = match &updated.id {
        Some(eid) => *eid == block.id,
        None => false,
    };
    if !matches_id {
        return false;
    }
    if !(updated.text == block.text) {
        return false;
    }
    if updated.marks.len() != block.marks.len() {
        return false;
    }
    let ghost bv = block@;
    let ghost ev = updated@;
    let mut k: usize = 0;
    while k < updated.marks.len()
        invariant
            k <= updated.marks.len(),
            forall|k2: int| 0 <= k2 < k ==> entry_mark_covered(bv.marks, #[trigger] ev.marks[k2]),
        decreases updated.marks.len() - k,
    {
        if !has_matching_mark(&block.marks, &updated.marks[k]) {
            assert(!entry_mark_covered(bv.marks, ev.marks[k as int]));
            return false;
        }
        assert(entry_mark_covered(bv.marks, ev.marks[k as int]));
        k = k + 1;
    }
    let mut l: usize = 0;
    while l < block.marks.len()
        invariant
            l <= block.marks.len(),
            forall|l2: int| 0 <= l2 < l ==> block_mark_covered(ev.marks, #[trigger] bv.marks[l2]),
        decreases block.marks.len() - l,
    {
        if !entry_has_matching_mark(&updated.marks, &block.marks[l]) {
            assert(!block_mark_covered(ev.marks, bv.marks[l as int]));
            return false;
        }
        assert(block_mark_covered(ev.marks, bv.marks[l as int]));
        l = l + 1;
    }
    true
}

/// The entries of the caller's block list that are new insertions: entries
/// with no id, or whose id matches no stored block.  Descriptive only: the
/// result promises nothing about the identifiers the new blocks will get.
pub fn get_new_blocks(existent_blocks: &Vec<Block>, updated_blocks: &Vec<UpdateBlock>) -> (r: Vec<
    UpdateBlock,
>)
    ensures
        r.deep_view() == spec_new_entries(existent_blocks.deep_view(), updated_blocks.deep_view()),
{
    let ghost blocks = existent_blocks.deep_view();
    let ghost s = updated_blocks.deep_view();
    let ghost pred = |e: UpdateBlockView| is_new_entry(blocks, e);
    let mut r: Vec<UpdateBlock> = Vec::new();
    let mut i: usize = 0;
    while i < updated_blocks.len()
        invariant
            i <= updated_blocks.len(),
            r.deep_view() == s.take(i as int).filter(pred),
        decreases updated_blocks.len() - i,
    {
        let u = &updated_blocks[i];
        let is_new = match &u.id {
            None => true,
            Some(id) => !contains_block_id(existent_blocks, id),
        };
        let ghost before = r.deep_view();
        if is_new {
            r.push(u.clone_update_block());
            proof {
                assert(r.deep_view() =~= before.push(s[i as int]));
            }
        }
        proof {
            assert(pred(s[i as int]) == is_new);
            assert(s.take(i as int + 1).drop_last() =~= s.take(i as int));
            assert(s.take(i as int + 1).last() == s[i as int]);
            reveal_with_fuel(Seq::filter, 2);
            assert(s.take(i as int + 1).filter(pred) == if pred(s[i as int]) {
                s.take(i as int).filter(pred).push(s[i as int])
            } else {
                s.take(i as int).filter(pred)
            });
        }
        i = i + 1;
    }
    proof {
        assert(s.take(updated_blocks.len() as int) =~= s);
    }
    r
}

/// The stored blocks that no entry of the caller's block list targets.  Under
/// the older full-list update shape this is the set of deleted blocks.
pub fn get_deleted_blocks(existent_blocks: &Vec<Block>, updated_blocks: &Vec<UpdateBlock>) -> (r:
    Vec<Block>)
    ensures
        r.deep_view() == spec_deleted_blocks(
            existent_blocks.deep_view(),
            updated_blocks.deep_view(),
        ),
{
    let ghost blocks = existent_blocks.deep_view();
    let ghost us = updated_blocks.deep_view();
    let ghost pred = |b: BlockView| !updated_have_id(us, b.id);
    let mut r: Vec<Block> = Vec::new();
    let mut i: usize = 0;
    while i < existent_blocks.len()
        invariant
            i <= existent_blocks.len(),
            r.deep_view() == blocks.take(i as int).filter(pred),
        decreases existent_blocks.len() - i,
    {
        let b = &existent_blocks[i];
        let gone = match find_entry_for(updated_blocks, &b.id) {
            Some(_) => false,
            None => true,
        };
        let ghost before = r.deep_view();
        if gone {
            r.push(b.clone_block());
            proof {
                assert(r.deep_view() =~= before.push(blocks[i as int]));
            }
        }
        proof {
            assert(pred(blocks[i as int]) == gone);
            assert(blocks.take(i as int + 1).drop_last() =~= blocks.take(i as int));
            assert(blocks.take(i as int + 1).last() == blocks[i as int]);
            reveal_with_fuel(Seq::filter, 2);
            assert(blocks.take(i as int + 1).filter(pred) == if pred(blocks[i as int]) {
                blocks.take(i as int).filter(pred).push(blocks[i as int])
            } else {
                blocks.take(i as int).filter(pred)
            });
        }
        i = i + 1;
    }
    proof {
        assert(blocks.take(existent_blocks.len() as int) =~= blocks);
    }
    r
}

/// The stored blocks whose id the change set's `removed` list names.
pub fn get_removed_blocks(existent_blocks: &Vec<Block>, removed: &Vec<Id>) -> (r: Vec<Block>)
    ensures
        r.deep_view() == spec_removed_blocks(existent_blocks.deep_view(), removed.deep_view()),
{
    let ghost blocks = existent_blocks.deep_view();
    let ghost ids = removed.deep_view();
    let ghost pred = |b: BlockView| id_list_contains(ids, b.id);
    let mut r: Vec<Block> = Vec::new();
    let mut i: usize = 0;
    while i < existent_blocks.len()
        invariant
            i <= existent_blocks.len(),
            r.deep_view() == blocks.take(i as int).filter(pred),
        decreases existent_blocks.len() - i,
    {
        let b = &existent_blocks[i];
        let hit = ids_contain(removed, &b.id);
        let ghost before = r.deep_view();
        if hit {
            r.push(b.clone_block());
            proof {
                assert(r.deep_view() =~= before.push(blocks[i as int]));
            }
        }
        proof {
            assert(pred(blocks[i as int]) == hit);
            assert(blocks.take(i as int + 1).drop_last() =~= blocks.take(i as int));
            assert(blocks.take(i as int + 1).last() == blocks[i as int]);
            reveal_with_fuel(Seq::filter, 2);
            assert(blocks.take(i as int + 1).filter(pred) == if pred(blocks[i as int]) {
                blocks.take(i as int).filter(pred).push(blocks[i as int])
            } else {
                blocks.take(i as int).filter(pred)
            });
        }
        i = i + 1;
    }
    proof {
        assert(blocks.take(existent_blocks.len() as int) =~= blocks);
    }
    r
}

/// The stored blocks an entry targets and actually changes, each paired with
/// the first entry targeting it.  Blocks whose entry describes identical
/// content are unchanged and omitted.
pub fn get_updated_blocks(existent_blocks: &Vec<Block>, updated_blocks: &Vec<UpdateBlock>) -> (r:
    Vec<(Block, UpdateBlock)>)
    ensures
        r.deep_view() == spec_updated_pairs(existent_blocks.deep_view(), updated_blocks.deep_view()),
{
    let ghost blocks = existent_blocks.deep_view();
    let ghost us = updated_blocks.deep_view();
    let ghost pred = |b: BlockView|
        updated_have_id(us, b.id) && !block_matches_entry(b, first_entry_for(us, b.id));
    let mut r: Vec<(Block, UpdateBlock)> = Vec::new();
    let mut i: usize = 0;
    while i < existent_blocks.len()
        invariant
            i <= existent_blocks.len(),
            r.deep_view() == blocks.take(i as int).filter(pred).map_values(
                |b: BlockView| (b, first_entry_for(us, b.id)),
            ),
        decreases existent_blocks.len() - i,
    {
        let b = &existent_blocks[i];
        let ghost before = r.deep_view();
        let mut changed = false;
        match find_entry_for(updated_blocks, &b.id) {
            Some(j) => {
                let e = &updated_blocks[j];
                if !block_matches_update(b, e) {
                    changed = true;
                    r.push((b.clone_block(), e.clone_update_block()));
                    proof {
                        assert(r.deep_view() =~= before.push(
                            (blocks[i as int], first_entry_for(us, blocks[i as int].id)),
                        ));
                    }
                }
            },
            None => {},
        }
        proof {
            assert(pred(blocks[i as int]) == changed);
            assert(blocks.take(i as int + 1).drop_last() =~= blocks.take(i as int));
            assert(blocks.take(i as int + 1).last() == blocks[i as int]);
            reveal_with_fuel(Seq::filter, 2);
            assert(blocks.take(i as int + 1).filter(pred) == if pred(blocks[i as int]) {
                blocks.take(i as int).filter(pred).push(blocks[i as int])
            } else {
                blocks.take(i as int).filter(pred)
            });
            if changed {
                assert(blocks.take(i as int + 1).filter(pred).map_values(
                    |b: BlockView| (b, first_entry_for(us, b.id)),
                ) =~= blocks.take(i as int).filter(pred).map_values(
                    |b: BlockView| (b, first_entry_for(us, b.id)),
                ).push((blocks[i as int], first_entry_for(us, blocks[i as int].id))));
            } else {
                assert(blocks.take(i as int + 1).filter(pred).map_values(
                    |b: BlockView| (b, first_entry_for(us, b.id)),
                ) =~= blocks.take(i as int).filter(pred).map_values(
                    |b: BlockView| (b, first_entry_for(us, b.id)),
                ));
            }
        }
        i = i + 1;
    }
    proof {
        assert(blocks.take(existent_blocks.len() as int) =~= blocks);
        assert(blocks.filter(pred).map_values(|b: BlockView| (b, first_entry_for(us, b.id)))
            == spec_updated_pairs(blocks, us));
    }
    r
}

} // verus!
