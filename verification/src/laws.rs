//! The engine's laws: properties of the update model that hold for every
//! input, stated and proved over the same specification functions the
//! orchestrator's contracts use.
use vstd::prelude::*;

use crate::changes::ChangeSetView;
use crate::errors::AppErrorType;
use crate::repos::stack_history::HistoryBlockView;
use crate::services::diff::{
    blocks_have_id, id_list_contains, spec_removed_blocks, spec_updated_pairs, updated_have_id,
    is_new_entry,
};
use crate::services::stack::{
    find_item_idx, history_of_block, is_untouched, spec_entry_blocks, spec_renumber,
    spec_untouched_blocks, spec_update_error, spec_update_history, spec_updated_blocks,
    spec_updated_item, BlockView, StackItemView, StoredItemView,
};

verus! {

proof fn lemma_filter_all_true<A>(s: Seq<A>, pred: spec_fn(A) -> bool)
    requires
        forall|i: int| 0 <= i < s.len() ==> pred(#[trigger] s[i]),
    ensures
        s.filter(pred) == s,
    decreases s.len(),
{
    reveal_with_fuel(Seq::filter, 2);
    if s.len() == 0 {
        assert(s.filter(pred) =~= s);
    } else {
        assert forall|i: int| 0 <= i < s.drop_last().len() implies pred(
            #[trigger] s.drop_last()[i],
        ) by {
            assert(s.drop_last()[i] == s[i]);
        }
        lemma_filter_all_true(s.drop_last(), pred);
        assert(pred(s.last()));
        assert(s.filter(pred) =~= s.drop_last().push(s.last()));
        assert(s.drop_last().push(s.last()) =~= s);
    }
}

proof fn lemma_filter_all_false<A>(s: Seq<A>, pred: spec_fn(A) -> bool)
    requires
        forall|i: int| 0 <= i < s.len() ==> !pred(#[trigger] s[i]),
    ensures
        s.filter(pred) == Seq::<A>::empty(),
    decreases s.len(),
{
    reveal_with_fuel(Seq::filter, 2);
    if s.len() == 0 {
        assert(s.filter(pred) =~= Seq::<A>::empty());
    } else {
        assert forall|i: int| 0 <= i < s.drop_last().len() implies !pred(
            #[trigger] s.drop_last()[i],
        ) by {
            assert(s.drop_last()[i] == s[i]);
        }
        lemma_filter_all_false(s.drop_last(), pred);
        assert(!pred(s.last()));
        assert(s.filter(pred) =~= Seq::<A>::empty());
    }
}

/// Identity law: a change set that removes nothing and carries no entries
/// maps a well-formed stack item to itself, consumes no identifiers, and
/// appends no history.
pub proof fn lemma_update_identity(old_item: StackItemView, cs: ChangeSetView, next: nat)
    requires
        old_item.wf(),
        cs.removed.len() == 0,
        cs.updated.len() == 0,
    ensures
        spec_updated_item(old_item, cs, next) == old_item,
        spec_updated_blocks(old_item, cs, next).1 == next,
        spec_update_history(old_item, cs) == Seq::<HistoryBlockView>::empty(),
{
    let pred = |b: BlockView| is_untouched(cs, b);
    assert forall|i: int| 0 <= i < old_item.blocks.len() implies pred(
        #[trigger] old_item.blocks[i],
    ) by {
        assert(!id_list_contains(cs.removed, old_item.blocks[i].id));
        assert(!updated_have_id(cs.updated, old_item.blocks[i].id));
    }
    lemma_filter_all_true(old_item.blocks, pred);
    assert(spec_untouched_blocks(old_item.blocks, cs) == old_item.blocks);
    let built = spec_entry_blocks(old_item.blocks, old_item.id, cs.updated, next, Set::empty());
    assert(built.0 =~= Seq::<BlockView>::empty());
    assert(built.1 == next);
    assert(old_item.blocks + built.0 =~= old_item.blocks);
    assert(spec_renumber(old_item.blocks) =~= old_item.blocks) by {
        assert forall|i: int| 0 <= i < old_item.blocks.len() implies spec_renumber(
            old_item.blocks,
        )[i] == old_item.blocks[i] by {
            assert(old_item.blocks[i].order == i);
        }
    }
    assert(spec_updated_item(old_item, cs, next) =~= old_item);
    let rpred = |b: BlockView| id_list_contains(cs.removed, b.id);
    assert forall|i: int| 0 <= i < old_item.blocks.len() implies !rpred(
        #[trigger] old_item.blocks[i],
    ) by {}
    lemma_filter_all_false(old_item.blocks, rpred);
    let ppred = |b: BlockView|
        updated_have_id(cs.updated, b.id) && !crate::services::diff::block_matches_entry(
            b,
            crate::services::diff::first_entry_for(cs.updated, b.id),
        );
    assert forall|i: int| 0 <= i < old_item.blocks.len() implies !ppred(
        #[trigger] old_item.blocks[i],
    ) by {
        assert(!updated_have_id(cs.updated, old_item.blocks[i].id));
    }
    lemma_filter_all_false(old_item.blocks, ppred);
    assert(spec_update_history(old_item, cs) =~= Seq::<HistoryBlockView>::empty());
}

/// Order contiguity law: after any successful update the blocks' `order`
/// values are exactly `0, 1, …, n-1`, with no gaps or repeats.
pub proof fn lemma_updated_item_orders(old_item: StackItemView, cs: ChangeSetView, next: nat)
    ensures
        forall|i: int|
            0 <= i < spec_updated_item(old_item, cs, next).blocks.len() ==> (
            #[trigger] spec_updated_item(old_item, cs, next).blocks[i]).order == i,
{
}

/// Mutual exclusion law: whenever an id is named both in `removed` and by an
/// entry of `updated`, the update is rejected with a validation error before
/// anything is written, whatever else the change set holds.
pub proof fn lemma_update_mutual_exclusion(
    items: Seq<StoredItemView>,
    user_id: Seq<char>,
    cs: ChangeSetView,
    next: nat,
)
    requires
        cs.intersects(),
        ({
            let idx = find_item_idx(items, cs.stack_id);
            idx != -1 && items[idx].user_id == user_id
        }),
    ensures
        spec_update_error(items, user_id, cs, next) == Some(
            crate::errors::AppErrorView {
                message: "updated and removed changes intersects"@,
                error_type: AppErrorType::ValidationError,
            },
        ),
{
}

/// Non-empty invariant: a change set that removes every stored block and
/// inserts none is rejected with a validation error (whichever validation
/// rule fires first), so the stored item never becomes empty.
pub proof fn lemma_update_to_empty_rejected(
    items: Seq<StoredItemView>,
    user_id: Seq<char>,
    cs: ChangeSetView,
    next: nat,
)
    requires
        next <= u64::MAX,
        ({
            let idx = find_item_idx(items, cs.stack_id);
            idx != -1 && items[idx].user_id == user_id
        }),
        ({
            let old_item = items[find_item_idx(items, cs.stack_id)].item;
            &&& forall|i: int|
                0 <= i < old_item.blocks.len() ==> id_list_contains(
                    cs.removed,
                    (#[trigger] old_item.blocks[i]).id,
                )
            &&& forall|i: int|
                0 <= i < cs.updated.len() ==> !is_new_entry(
                    old_item.blocks,
                    #[trigger] cs.updated[i],
                )
        }),
    ensures
        spec_update_error(items, user_id, cs, next) is Some,
        spec_update_error(items, user_id, cs, next)->0.error_type
            == AppErrorType::ValidationError,
{
    let idx = find_item_idx(items, cs.stack_id);
    let old_item = items[idx].item;
    if cs.intersects() {
    } else if !cs.ranges_ok() {
    } else {
        // with nothing new and everything removed, a non-empty entry list
        // would intersect `removed`; so the entry list is empty
        assert(cs.updated.len() == 0) by {
            if cs.updated.len() > 0 {
                let e = cs.updated[0];
                assert(!is_new_entry(old_item.blocks, e));
                let id = e.id->0;
                assert(blocks_have_id(old_item.blocks, id));
                let j = choose|j: int|
                    0 <= j < old_item.blocks.len() && (#[trigger] old_item.blocks[j]).id == id;
                assert(id_list_contains(cs.removed, old_item.blocks[j].id));
                let k = choose|k: int| 0 <= k < cs.removed.len() && #[trigger] cs.removed[k] == id;
                assert(cs.updated[0].id == Some(cs.removed[k]));
                assert(cs.intersects());
            }
        }
        let ppred = |b: BlockView|
            updated_have_id(cs.updated, b.id) && !crate::services::diff::block_matches_entry(
                b,
                crate::services::diff::first_entry_for(cs.updated, b.id),
            );
        assert forall|i: int| 0 <= i < old_item.blocks.len() implies !ppred(
            #[trigger] old_item.blocks[i],
        ) by {
            assert(!updated_have_id(cs.updated, old_item.blocks[i].id));
        }
        lemma_filter_all_false(old_item.blocks, ppred);
        assert(!crate::services::stack::spec_version_guard(old_item, cs));
        assert(crate::services::stack::spec_ids_need(cs.updated) == 0);
        let upred = |b: BlockView| is_untouched(cs, b);
        assert forall|i: int| 0 <= i < old_item.blocks.len() implies !upred(
            #[trigger] old_item.blocks[i],
        ) by {
            assert(id_list_contains(cs.removed, old_item.blocks[i].id));
        }
        lemma_filter_all_false(old_item.blocks, upred);
        let built = spec_entry_blocks(
            old_item.blocks,
            old_item.id,
            cs.updated,
            next,
            Set::empty(),
        );
        assert(built.0 =~= Seq::<BlockView>::empty());
        assert(spec_untouched_blocks(old_item.blocks, cs) + built.0 =~= Seq::<BlockView>::empty());
        assert(spec_updated_item(old_item, cs, next).blocks.len() == 0);
    }
}

proof fn lemma_new_marks_next(cms: Seq<crate::changes::ChangeMarkView>, next: nat)
    ensures
        crate::services::stack::spec_new_marks(cms, next).1 == next + cms.len(),
    decreases cms.len(),
{
    if cms.len() > 0 {
        lemma_new_marks_next(cms.drop_first(), next + 1);
    }
}

proof fn lemma_merge_marks_next(
    old_marks: Seq<crate::services::stack::MarkView>,
    cms: Seq<crate::changes::ChangeMarkView>,
    next: nat,
    seen: Set<Seq<char>>,
)
    ensures
        next <= crate::services::stack::spec_merge_marks(old_marks, cms, next, seen).1 <= next
            + cms.len(),
    decreases cms.len(),
{
    if cms.len() > 0 {
        let rest = cms.drop_first();
        match cms[0].id {
            Some(mid) => {
                lemma_merge_marks_next(old_marks, rest, next, seen.insert(mid));
            },
            None => {
                lemma_merge_marks_next(old_marks, rest, next + 1, seen);
            },
        }
    }
}

/// The entry builder's counter only grows.
proof fn lemma_entry_blocks_next(
    old_blocks: Seq<BlockView>,
    stack_id: Seq<char>,
    entries: Seq<crate::changes::UpdateBlockView>,
    next: nat,
    seen: Set<Seq<char>>,
)
    ensures
        next <= spec_entry_blocks(old_blocks, stack_id, entries, next, seen).1,
    decreases entries.len(),
{
    if entries.len() > 0 {
        let e = entries[0];
        let rest = entries.drop_first();
        match e.id {
            Some(id) => {
                if blocks_have_id(old_blocks, id) {
                    if seen.contains(id) {
                        lemma_entry_blocks_next(old_blocks, stack_id, rest, next, seen.insert(id));
                    } else {
                        let b = crate::services::stack::block_by_id(old_blocks, id);
                        if crate::services::diff::block_matches_entry(b, e) {
                            lemma_entry_blocks_next(
                                old_blocks,
                                stack_id,
                                rest,
                                next,
                                seen.insert(id),
                            );
                        } else {
                            let m = crate::services::stack::spec_merge_marks(
                                b.marks,
                                e.marks,
                                next,
                                Set::empty(),
                            );
                            lemma_merge_marks_next(b.marks, e.marks, next, Set::empty());
                            lemma_entry_blocks_next(
                                old_blocks,
                                stack_id,
                                rest,
                                m.1,
                                seen.insert(id),
                            );
                        }
                    }
                } else {
                    let m = crate::services::stack::spec_new_marks(e.marks, (next + 1) as nat);
                    lemma_new_marks_next(e.marks, (next + 1) as nat);
                    lemma_entry_blocks_next(old_blocks, stack_id, rest, m.1, seen.insert(id));
                }
            },
            None => {
                let m = crate::services::stack::spec_new_marks(e.marks, (next + 1) as nat);
                lemma_new_marks_next(e.marks, (next + 1) as nat);
                lemma_entry_blocks_next(old_blocks, stack_id, rest, m.1, seen);
            },
        }
    }
}

/// A stored block some entry targets appears in the entry builder's output
/// under its own id, with its version bumped exactly when the first entry
/// targeting it differs from it.
proof fn lemma_entry_blocks_targeted(
    old_blocks: Seq<BlockView>,
    stack_id: Seq<char>,
    entries: Seq<crate::changes::UpdateBlockView>,
    next: nat,
    seen: Set<Seq<char>>,
    id: Seq<char>,
)
    requires
        blocks_have_id(old_blocks, id),
        updated_have_id(entries, id),
        !seen.contains(id),
    ensures
        ({
            let res = spec_entry_blocks(old_blocks, stack_id, entries, next, seen).0;
            let b = crate::services::stack::block_by_id(old_blocks, id);
            let e = crate::services::diff::first_entry_for(entries, id);
            exists|x: int|
                0 <= x < res.len() && (#[trigger] res[x]).id == id && res[x].current_version == (
                if crate::services::diff::block_matches_entry(b, e) {
                    b.current_version
                } else {
                    b.current_version + 1
                })
        }),
    decreases entries.len(),
{
    let res = spec_entry_blocks(old_blocks, stack_id, entries, next, seen).0;
    let b = crate::services::stack::block_by_id(old_blocks, id);
    let e = crate::services::diff::first_entry_for(entries, id);
    assert(entries.len() > 0);
    let e0 = entries[0];
    let rest = entries.drop_first();
    if e0.id == Some(id) {
        crate::services::diff::lemma_first_entry_for(entries, id, 0);
        assert(e == e0);
        if crate::services::diff::block_matches_entry(b, e0) {
            assert(res[0] == b);
        } else {
            assert(res[0].id == id && res[0].current_version == b.current_version + 1);
        }
    } else {
        assert(updated_have_id(rest, id)) by {
            let w = choose|w: int|
                0 <= w < entries.len() && (#[trigger] entries[w]).id == Some(id);
            assert(w != 0);
            assert(rest[w - 1] == entries[w]);
        }
        assert(crate::services::diff::first_entry_for(rest, id) == e);
        match e0.id {
            Some(other) => {
                assert(other != id);
                assert(!seen.insert(other).contains(id));
                if blocks_have_id(old_blocks, other) {
                    if seen.contains(other) {
                        lemma_entry_blocks_targeted(
                            old_blocks,
                            stack_id,
                            rest,
                            next,
                            seen.insert(other),
                            id,
                        );
                        let tail = spec_entry_blocks(
                            old_blocks,
                            stack_id,
                            rest,
                            next,
                            seen.insert(other),
                        ).0;
                        let x = choose|x: int|
                            0 <= x < tail.len() && (#[trigger] tail[x]).id == id
                                && tail[x].current_version == (
                            if crate::services::diff::block_matches_entry(b, e) {
                                b.current_version
                            } else {
                                b.current_version + 1
                            });
                        assert(res[x] == tail[x]);
                    } else {
                        let ob = crate::services::stack::block_by_id(old_blocks, other);
                        if crate::services::diff::block_matches_entry(ob, e0) {
                            lemma_entry_blocks_targeted(
                                old_blocks,
                                stack_id,
                                rest,
                                next,
                                seen.insert(other),
                                id,
                            );
                            let tail = spec_entry_blocks(
                                old_blocks,
                                stack_id,
                                rest,
                                next,
                                seen.insert(other),
                            ).0;
                            let x = choose|x: int|
                                0 <= x < tail.len() && (#[trigger] tail[x]).id == id
                                    && tail[x].current_version == (
                                if crate::services::diff::block_matches_entry(b, e) {
                                    b.current_version
                                } else {
                                    b.current_version + 1
                                });
                            assert(res[x + 1] == tail[x]);
                        } else {
                            let m = crate::services::stack::spec_merge_marks(
                                ob.marks,
                                e0.marks,
                                next,
                                Set::empty(),
                            );
                            lemma_entry_blocks_targeted(
                                old_blocks,
                                stack_id,
                                rest,
                                m.1,
                                seen.insert(other),
                                id,
                            );
                            let tail = spec_entry_blocks(
                                old_blocks,
                                stack_id,
                                rest,
                                m.1,
                                seen.insert(other),
                            ).0;
                            let x = choose|x: int|
                                0 <= x < tail.len() && (#[trigger] tail[x]).id == id
                                    && tail[x].current_version == (
                                if crate::services::diff::block_matches_entry(b, e) {
                                    b.current_version
                                } else {
                                    b.current_version + 1
                                });
                            assert(res[x + 1] == tail[x]);
                        }
                    }
                } else {
                    let m = crate::services::stack::spec_new_marks(e0.marks, (next + 1) as nat);
                    lemma_entry_blocks_targeted(
                        old_blocks,
                        stack_id,
                        rest,
                        m.1,
                        seen.insert(other),
                        id,
                    );
                    let tail = spec_entry_blocks(
                        old_blocks,
                        stack_id,
                        rest,
                        m.1,
                        seen.insert(other),
                    ).0;
                    let x = choose|x: int|
                        0 <= x < tail.len() && (#[trigger] tail[x]).id == id
                            && tail[x].current_version == (
                        if crate::services::diff::block_matches_entry(b, e) {
                            b.current_version
                        } else {
                            b.current_version + 1
                        });
                    assert(res[x + 1] == tail[x]);
                }
            },
            None => {
                let m = crate::services::stack::spec_new_marks(e0.marks, (next + 1) as nat);
                lemma_entry_blocks_targeted(old_blocks, stack_id, rest, m.1, seen, id);
                let tail = spec_entry_blocks(old_blocks, stack_id, rest, m.1, seen).0;
                let x = choose|x: int|
                    0 <= x < tail.len() && (#[trigger] tail[x]).id == id && tail[x].current_version
                        == (if crate::services::diff::block_matches_entry(b, e) {
                        b.current_version
                    } else {
                        b.current_version + 1
                    });
                assert(res[x + 1] == tail[x]);
            },
        }
    }
}

/// No block of the entry builder's output carries an id that no entry
/// targets and that the allocator handed out before `bound`.
proof fn lemma_entry_blocks_not_targeted(
    old_blocks: Seq<BlockView>,
    stack_id: Seq<char>,
    entries: Seq<crate::changes::UpdateBlockView>,
    next: nat,
    seen: Set<Seq<char>>,
    id: Seq<char>,
    bound: nat,
)
    requires
        !updated_have_id(entries, id),
        crate::services::stack::id_bounded(id, bound),
        bound <= next,
    ensures
        forall|x: int|
            0 <= x < spec_entry_blocks(old_blocks, stack_id, entries, next, seen).0.len() ==> (
            #[trigger] spec_entry_blocks(old_blocks, stack_id, entries, next, seen).0[x]).id != id,
    decreases entries.len(),
{
    let res = spec_entry_blocks(old_blocks, stack_id, entries, next, seen).0;
    if entries.len() > 0 {
        let e0 = entries[0];
        let rest = entries.drop_first();
        assert(!updated_have_id(rest, id)) by {
            if updated_have_id(rest, id) {
                let w = choose|w: int| 0 <= w < rest.len() && (#[trigger] rest[w]).id == Some(id);
                assert(entries[w + 1] == rest[w]);
            }
        }
        assert(e0.id != Some(id));
        match e0.id {
            Some(other) => {
                if blocks_have_id(old_blocks, other) {
                    if seen.contains(other) {
                        lemma_entry_blocks_not_targeted(
                            old_blocks,
                            stack_id,
                            rest,
                            next,
                            seen.insert(other),
                            id,
                            bound,
                        );
                        let tail2 = spec_entry_blocks(
                            old_blocks,
                            stack_id,
                            rest,
                            next,
                            seen.insert(other),
                        ).0;
                        assert forall|x: int| 0 <= x < res.len() implies (#[trigger] res[x]).id
                            != id by {
                            assert(res[x] == tail2[x]);
                        }
                    } else {
                        let ob = crate::services::stack::block_by_id(old_blocks, other);
                        if crate::services::diff::block_matches_entry(ob, e0) {
                            lemma_entry_blocks_not_targeted(
                                old_blocks,
                                stack_id,
                                rest,
                                next,
                                seen.insert(other),
                                id,
                                bound,
                            );
                            assert(res[0].id == other);
                            assert(res[0].id != id);
                            let tail2 = spec_entry_blocks(
                                old_blocks,
                                stack_id,
                                rest,
                                next,
                                seen.insert(other),
                            ).0;
                            assert forall|x: int| 0 <= x < res.len() implies (
                            #[trigger] res[x]).id != id by {
                                if x >= 1 {
                                    assert(res[x] == tail2[x - 1]);
                                }
                            }
                        } else {
                            let m = crate::services::stack::spec_merge_marks(
                                ob.marks,
                                e0.marks,
                                next,
                                Set::empty(),
                            );
                            lemma_merge_marks_next(ob.marks, e0.marks, next, Set::empty());
                            lemma_entry_blocks_not_targeted(
                                old_blocks,
                                stack_id,
                                rest,
                                m.1,
                                seen.insert(other),
                                id,
                                bound,
                            );
                            assert(res[0].id == other);
                            assert(res[0].id != id);
                            let tail2 = spec_entry_blocks(
                                old_blocks,
                                stack_id,
                                rest,
                                m.1,
                                seen.insert(other),
                            ).0;
                            assert forall|x: int| 0 <= x < res.len() implies (
                            #[trigger] res[x]).id != id by {
                                if x >= 1 {
                                    assert(res[x] == tail2[x - 1]);
                                }
                            }
                        }
                    }
                } else {
                    let m = crate::services::stack::spec_new_marks(e0.marks, (next + 1) as nat);
                    lemma_new_marks_next(e0.marks, (next + 1) as nat);
                    lemma_entry_blocks_not_targeted(
                        old_blocks,
                        stack_id,
                        rest,
                        m.1,
                        seen.insert(other),
                        id,
                        bound,
                    );
                    assert(res[0].id == crate::ids::dec_digits(next));
                    assert(res[0].id != id) by {
                        if id == crate::ids::dec_digits(next) {
                            let k0 = choose|k0: nat|
                                k0 < bound && id == crate::ids::dec_digits(k0);
                            crate::ids::lemma_dec_digits_injective(k0, next);
                        }
                    }
                    let tail2 = spec_entry_blocks(
                        old_blocks,
                        stack_id,
                        rest,
                        m.1,
                        seen.insert(other),
                    ).0;
                    assert forall|x: int| 0 <= x < res.len() implies (#[trigger] res[x]).id
                        != id by {
                        if x >= 1 {
                            assert(res[x] == tail2[x - 1]);
                        }
                    }
                }
            },
            None => {
                let m = crate::services::stack::spec_new_marks(e0.marks, (next + 1) as nat);
                lemma_new_marks_next(e0.marks, (next + 1) as nat);
                lemma_entry_blocks_not_targeted(old_blocks, stack_id, rest, m.1, seen, id, bound);
                assert(res[0].id == crate::ids::dec_digits(next));
                assert(res[0].id != id) by {
                    if id == crate::ids::dec_digits(next) {
                        let k0 = choose|k0: nat| k0 < bound && id == crate::ids::dec_digits(k0);
                        crate::ids::lemma_dec_digits_injective(k0, next);
                    }
                }
                let tail2 = spec_entry_blocks(old_blocks, stack_id, rest, m.1, seen).0;
                assert forall|x: int| 0 <= x < res.len() implies (#[trigger] res[x]).id != id by {
                    if x >= 1 {
                        assert(res[x] == tail2[x - 1]);
                    }
                }
            },
        }
    }
}

/// Version monotonicity law: an update leaves an untouched block's content
/// and version unchanged, bumps the version of a block its entry actually
/// changes by exactly one, keeps the version of a block whose entry matches
/// it, and drops removed blocks entirely.
pub proof fn lemma_update_versions(
    old_item: StackItemView,
    cs: ChangeSetView,
    next: nat,
    j: int,
)
    requires
        old_item.wf(),
        crate::services::stack::item_ids_bounded(old_item, next),
        0 <= j < old_item.blocks.len(),
    ensures
        ({
            let b = old_item.blocks[j];
            let nb = spec_updated_item(old_item, cs, next).blocks;
            &&& (id_list_contains(cs.removed, b.id) && !updated_have_id(cs.updated, b.id))
                ==> forall|x: int| 0 <= x < nb.len() ==> (#[trigger] nb[x]).id != b.id
            &&& (updated_have_id(cs.updated, b.id) && !id_list_contains(cs.removed, b.id))
                ==> exists|x: int|
                0 <= x < nb.len() && (#[trigger] nb[x]).id == b.id && nb[x].current_version == (
                if crate::services::diff::block_matches_entry(
                    b,
                    crate::services::diff::first_entry_for(cs.updated, b.id),
                ) {
                    b.current_version
                } else {
                    b.current_version + 1
                })
            &&& is_untouched(cs, b) ==> exists|x: int|
                0 <= x < nb.len() && (#[trigger] nb[x]).id == b.id && nb[x].current_version
                    == b.current_version && nb[x].text == b.text && nb[x].marks == b.marks
        }),
{
    let b = old_item.blocks[j];
    let nb = spec_updated_item(old_item, cs, next).blocks;
    let pred = |bb: BlockView| is_untouched(cs, bb);
    let unt = spec_untouched_blocks(old_item.blocks, cs);
    let built = spec_entry_blocks(old_item.blocks, old_item.id, cs.updated, next, Set::empty()).0;
    assert(nb == spec_renumber(unt + built));
    assert(nb.len() == unt.len() + built.len());
    assert forall|x: int| 0 <= x < nb.len() implies (#[trigger] nb[x]) == (BlockView {
        order: x,
        ..(unt + built)[x]
    }) by {}
    if id_list_contains(cs.removed, b.id) && !updated_have_id(cs.updated, b.id) {
        assert forall|x: int| 0 <= x < nb.len() implies (#[trigger] nb[x]).id != b.id by {
            if x < unt.len() {
                old_item.blocks.lemma_filter_pred(pred, x);
                assert(is_untouched(cs, unt[x]));
            } else {
                lemma_entry_blocks_not_targeted(
                    old_item.blocks,
                    old_item.id,
                    cs.updated,
                    next,
                    Set::empty(),
                    b.id,
                    next,
                );
                assert(built[x - unt.len()].id != b.id);
            }
        }
    }
    if updated_have_id(cs.updated, b.id) && !id_list_contains(cs.removed, b.id) {
        assert(blocks_have_id(old_item.blocks, b.id));
        crate::services::stack::lemma_block_by_own_id(old_item.blocks, j);
        lemma_entry_blocks_targeted(
            old_item.blocks,
            old_item.id,
            cs.updated,
            next,
            Set::empty(),
            b.id,
        );
        let e = crate::services::diff::first_entry_for(cs.updated, b.id);
        let x = choose|x: int|
            0 <= x < built.len() && (#[trigger] built[x]).id == b.id && built[x].current_version
                == (if crate::services::diff::block_matches_entry(b, e) {
                b.current_version
            } else {
                b.current_version + 1
            });
        assert(nb[unt.len() + x].id == b.id);
    }
    if is_untouched(cs, b) {
        old_item.blocks.lemma_filter_contains(pred, j);
        assert(unt.contains(b));
        let x = choose|x: int| 0 <= x < unt.len() && unt[x] == b;
        assert(nb[x].id == b.id && nb[x].current_version == b.current_version && nb[x].text
            == b.text && nb[x].marks == b.marks);
    }
}

/// Whether an update removes or overwrites this stored block, so that
/// exactly one history snapshot is owed for it.
pub open spec fn spec_block_superseded(
    old_item: StackItemView,
    cs: ChangeSetView,
    b: BlockView,
) -> bool {
    id_list_contains(cs.removed, b.id) || (updated_have_id(cs.updated, b.id)
        && !crate::services::diff::block_matches_entry(
        b,
        crate::services::diff::first_entry_for(cs.updated, b.id),
    ))
}

proof fn lemma_filter_distinct_ids(s: Seq<BlockView>, pred: spec_fn(BlockView) -> bool)
    requires
        forall|x: int, y: int|
            0 <= x < y < s.len() ==> (#[trigger] s[x]).id != (#[trigger] s[y]).id,
    ensures
        forall|x: int, y: int|
            0 <= x < y < s.filter(pred).len() ==> (#[trigger] s.filter(pred)[x]).id != (
            #[trigger] s.filter(pred)[y]).id,
    decreases s.len(),
{
    reveal_with_fuel(Seq::filter, 2);
    if s.len() > 0 {
        let rest = s.drop_last();
        assert forall|x: int, y: int|
            0 <= x < y < rest.len() implies (#[trigger] rest[x]).id != (#[trigger] rest[y]).id by {
            assert(rest[x] == s[x] && rest[y] == s[y]);
        }
        lemma_filter_distinct_ids(rest, pred);
        if pred(s.last()) {
            assert(s.filter(pred) == rest.filter(pred).push(s.last()));
            assert forall|x: int, y: int|
                0 <= x < y < s.filter(pred).len() implies (#[trigger] s.filter(pred)[x]).id != (
            #[trigger] s.filter(pred)[y]).id by {
                if y == s.filter(pred).len() - 1 {
                    assert(s.filter(pred)[x] == rest.filter(pred)[x]);
                    assert(rest.filter(pred).contains(rest.filter(pred)[x]));
                    rest.lemma_filter_contains_rev(pred, rest.filter(pred)[x]);
                    let w = choose|w: int|
                        0 <= w < rest.len() && rest[w] == rest.filter(pred)[x];
                    assert(s[w] == rest[w]);
                    assert(s[w].id != s.last().id);
                } else {
                    assert(s.filter(pred)[x] == rest.filter(pred)[x]);
                    assert(s.filter(pred)[y] == rest.filter(pred)[y]);
                }
            }
        } else {
            assert(s.filter(pred) == rest.filter(pred));
        }
    }
}

/// History completeness law: an update's history holds exactly one snapshot
/// per removed or overwritten block — each capturing that block's pre-update
/// text, marks and version — and none for any other block.
#[verifier::rlimit(100)]
#[verifier::spinoff_prover]
pub proof fn lemma_history_completeness(old_item: StackItemView, cs: ChangeSetView)
    requires
        old_item.wf(),
        !cs.intersects(),
    ensures
        forall|x: int, y: int|
            0 <= x < y < spec_update_history(old_item, cs).len() ==> (#[trigger] spec_update_history(
                old_item,
                cs,
            )[x]).block_id != (#[trigger] spec_update_history(old_item, cs)[y]).block_id,
        forall|x: int|
            #![trigger spec_update_history(old_item, cs)[x]]
            0 <= x < spec_update_history(old_item, cs).len() ==> {
                let b = crate::services::stack::block_by_id(
                    old_item.blocks,
                    spec_update_history(old_item, cs)[x].block_id,
                );
                &&& blocks_have_id(
                    old_item.blocks,
                    spec_update_history(old_item, cs)[x].block_id,
                )
                &&& spec_update_history(old_item, cs)[x] == history_of_block(old_item.id, b)
                &&& spec_block_superseded(old_item, cs, b)
            },
        forall|j: int|
            0 <= j < old_item.blocks.len() && spec_block_superseded(
                old_item,
                cs,
                #[trigger] old_item.blocks[j],
            ) ==> exists|x: int|
                0 <= x < spec_update_history(old_item, cs).len()
                    && #[trigger] spec_update_history(old_item, cs)[x] == history_of_block(
                    old_item.id,
                    old_item.blocks[j],
                ),
{
    let h = spec_update_history(old_item, cs);
    let rpred = |b: BlockView| id_list_contains(cs.removed, b.id);
    let ppred = |b: BlockView|
        updated_have_id(cs.updated, b.id) && !crate::services::diff::block_matches_entry(
            b,
            crate::services::diff::first_entry_for(cs.updated, b.id),
        );
    let rm = old_item.blocks.filter(rpred);
    let pm = spec_updated_pairs(old_item.blocks, cs.updated);
    let fm = spec_removed_blocks(old_item.blocks, cs.removed).map_values(
        |b: BlockView| history_of_block(old_item.id, b),
    );
    let gm = pm.map_values(
        |p: (BlockView, crate::changes::UpdateBlockView)| history_of_block(old_item.id, p.0),
    );
    assert(spec_removed_blocks(old_item.blocks, cs.removed) == rm);
    assert(h == fm + gm);
    assert(pm == old_item.blocks.filter(ppred).map_values(
        |b: BlockView| (b, crate::services::diff::first_entry_for(cs.updated, b.id)),
    ));
    let fb = old_item.blocks.filter(ppred);
    // removed ids are never targeted, since the change set does not intersect
    assert forall|x: int| 0 <= x < rm.len() implies !updated_have_id(
        cs.updated,
        (#[trigger] rm[x]).id,
    ) by {
        old_item.blocks.lemma_filter_pred(rpred, x);
        if updated_have_id(cs.updated, rm[x].id) {
            let w = choose|w: int|
                0 <= w < cs.updated.len() && (#[trigger] cs.updated[w]).id == Some(rm[x].id);
            let k = choose|k: int|
                0 <= k < cs.removed.len() && #[trigger] cs.removed[k] == rm[x].id;
            assert(cs.updated[w].id == Some(cs.removed[k]));
        }
    }
    assert forall|x: int| 0 <= x < fb.len() implies ppred(#[trigger] fb[x]) by {
        old_item.blocks.lemma_filter_pred(ppred, x);
    }
    // pairwise distinct snapshot ids
    lemma_filter_distinct_ids(old_item.blocks, rpred);
    lemma_filter_distinct_ids(old_item.blocks, ppred);
    assert forall|x: int, y: int| 0 <= x < y < h.len() implies (#[trigger] h[x]).block_id != (
    #[trigger] h[y]).block_id by {
        if x < rm.len() && y < rm.len() {
            assert(h[x] == history_of_block(old_item.id, rm[x]));
            assert(h[y] == history_of_block(old_item.id, rm[y]));
        } else if x >= rm.len() && y >= rm.len() {
            assert(h[x] == history_of_block(old_item.id, fb[x - rm.len()]));
            assert(h[y] == history_of_block(old_item.id, fb[y - rm.len()]));
        } else {
            assert(h[x] == history_of_block(old_item.id, rm[x]));
            assert(h[y] == history_of_block(old_item.id, fb[y - rm.len()]));
            assert(!updated_have_id(cs.updated, rm[x].id));
            assert(ppred(fb[y - rm.len()]));
        }
    }
    // every snapshot captures a superseded stored block, found by its id
    assert forall|x: int|
        #![trigger spec_update_history(old_item, cs)[x]]
        0 <= x < spec_update_history(old_item, cs).len() implies {
        let b = crate::services::stack::block_by_id(
            old_item.blocks,
            spec_update_history(old_item, cs)[x].block_id,
        );
        &&& blocks_have_id(old_item.blocks, spec_update_history(old_item, cs)[x].block_id)
        &&& spec_update_history(old_item, cs)[x] == history_of_block(old_item.id, b)
        &&& spec_block_superseded(old_item, cs, b)
    } by {
        let src = if x < rm.len() {
            rm[x]
        } else {
            fb[x - rm.len()]
        };
        if x < rm.len() {
            old_item.blocks.lemma_filter_pred(rpred, x);
            assert(rm.contains(rm[x]));
            old_item.blocks.lemma_filter_contains_rev(rpred, rm[x]);
        } else {
            let z = x - rm.len();
            assert(ppred(fb[z]));
            assert(fb.contains(fb[z]));
            old_item.blocks.lemma_filter_contains_rev(ppred, fb[z]);
        }
        let j = choose|j: int| 0 <= j < old_item.blocks.len() && old_item.blocks[j] == src;
        assert(h[x] == history_of_block(old_item.id, old_item.blocks[j]));
        assert(spec_block_superseded(old_item, cs, old_item.blocks[j]));
        assert(old_item.blocks[j].id == h[x].block_id);
        assert(blocks_have_id(old_item.blocks, h[x].block_id));
        crate::services::stack::lemma_block_by_own_id(old_item.blocks, j);
        assert(crate::services::stack::block_by_id(old_item.blocks, h[x].block_id)
            == old_item.blocks[j]);
        assert(spec_update_history(old_item, cs)[x] == h[x]);
    }
    // every superseded stored block has a snapshot
    assert forall|j: int|
        0 <= j < old_item.blocks.len() && spec_block_superseded(
            old_item,
            cs,
            #[trigger] old_item.blocks[j],
        ) implies exists|x: int|
        0 <= x < h.len() && #[trigger] h[x] == history_of_block(
            old_item.id,
            old_item.blocks[j],
        ) by {
        let b = old_item.blocks[j];
        if id_list_contains(cs.removed, b.id) {
            old_item.blocks.lemma_filter_contains(rpred, j);
            assert(rm.contains(b));
            let x = choose|x: int| 0 <= x < rm.len() && rm[x] == b;
            assert(h[x] == history_of_block(old_item.id, b));
        } else {
            old_item.blocks.lemma_filter_contains(ppred, j);
            assert(fb.contains(b));
            let x = choose|x: int| 0 <= x < fb.len() && fb[x] == b;
            assert(h[rm.len() + x] == history_of_block(old_item.id, b));
        }
    }
}

} // verus!
