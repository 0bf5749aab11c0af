//! Facts about lists that lose some of their slots.

use crate::ir::LocalId;
use crate::model::keep_slots;
use vstd::prelude::*;

verus! {

/// These positions of one list, in ascending order, hold what another list is.
pub open spec fn is_found_at(part: Seq<LocalId>, list: Seq<LocalId>, at: Seq<int>) -> bool {
    &&& at.len() == part.len()
    &&& forall|i: int|
        0 <= i < part.len() ==> 0 <= #[trigger] at[i] < list.len() && list[at[i]] == part[i]
    &&& forall|i: int, j: int| 0 <= i < j < at.len() ==> #[trigger] at[i] < #[trigger] at[j]
}

/// One list is what is left of another when some of its slots go.
pub open spec fn is_subsequence(part: Seq<LocalId>, list: Seq<LocalId>) -> bool {
    exists|at: Seq<int>| is_found_at(part, list, at)
}

/// A list is a part of itself.
pub proof fn lemma_subsequence_reflexive(list: Seq<LocalId>)
    ensures
        is_subsequence(list, list),
{
    assert(is_found_at(list, list, Seq::new(list.len(), |i: int| i)));
}

/// A part of a part is a part.
pub proof fn lemma_subsequence_transitive(
    part: Seq<LocalId>,
    middle: Seq<LocalId>,
    list: Seq<LocalId>,
)
    requires
        is_subsequence(part, middle),
        is_subsequence(middle, list),
    ensures
        is_subsequence(part, list),
{
    let inner = choose|at: Seq<int>| is_found_at(part, middle, at);
    let outer = choose|at: Seq<int>| is_found_at(middle, list, at);
    let at = Seq::new(part.len(), |i: int| outer[inner[i]]);
    assert forall|i: int| 0 <= i < part.len() implies 0 <= #[trigger] at[i] < list.len()
        && list[at[i]] == part[i] by {
        assert(0 <= inner[i] < middle.len());
    }
    assert forall|i: int, j: int| 0 <= i < j < at.len() implies #[trigger] at[i] < #[trigger] at[j] by {
        assert(inner[i] < inner[j]);
    }
    assert(is_found_at(part, list, at));
}

/// What is kept of a list is a part of it.
pub proof fn lemma_keep_slots_subsequence(locals: Seq<LocalId>, removed: spec_fn(int) -> bool)
    ensures
        is_subsequence(keep_slots(locals, removed), locals),
    decreases locals.len(),
{
    if locals.len() == 0 {
        lemma_subsequence_reflexive(locals);
    } else {
        let shorter = locals.drop_last();
        let kept = keep_slots(shorter, removed);
        lemma_keep_slots_subsequence(shorter, removed);
        let at = choose|at: Seq<int>| is_found_at(kept, shorter, at);
        if removed(locals.len() - 1) {
            assert(is_found_at(kept, locals, at));
        } else {
            let all = at.push(locals.len() - 1);
            assert(is_found_at(kept.push(locals.last()), locals, all));
        }
    }
}

/// What is kept depends only on which slots of the list are removed.
pub proof fn lemma_keep_slots_agree(
    locals: Seq<LocalId>,
    f: spec_fn(int) -> bool,
    g: spec_fn(int) -> bool,
)
    requires
        forall|slot: int| 0 <= slot < locals.len() ==> #[trigger] f(slot) == g(slot),
    ensures
        keep_slots(locals, f) == keep_slots(locals, g),
    decreases locals.len(),
{
    if locals.len() > 0 {
        lemma_keep_slots_agree(locals.drop_last(), f, g);
        assert(f(locals.len() - 1) == g(locals.len() - 1));
    }
}

/// Where nothing is removed, the list stays.
pub proof fn lemma_keep_all_slots(locals: Seq<LocalId>, f: spec_fn(int) -> bool)
    requires
        forall|slot: int| 0 <= slot < locals.len() ==> !#[trigger] f(slot),
    ensures
        keep_slots(locals, f) == locals,
    decreases locals.len(),
{
    if locals.len() > 0 {
        lemma_keep_all_slots(locals.drop_last(), f);
        assert(!f(locals.len() - 1));
        assert(locals.drop_last().push(locals.last()) =~= locals);
    }
}

/// Removing slots makes a list no longer.
pub proof fn lemma_keep_slots_len(locals: Seq<LocalId>, removed: spec_fn(int) -> bool)
    ensures
        keep_slots(locals, removed).len() <= locals.len(),
    decreases locals.len(),
{
    if locals.len() > 0 {
        lemma_keep_slots_len(locals.drop_last(), removed);
    }
}

/// Removing a slot of a list makes it shorter.
pub proof fn lemma_keep_slots_shorter(
    locals: Seq<LocalId>,
    removed: spec_fn(int) -> bool,
    slot: int,
)
    requires
        0 <= slot < locals.len(),
        removed(slot),
    ensures
        keep_slots(locals, removed).len() < locals.len(),
    decreases locals.len(),
{
    lemma_keep_slots_len(locals.drop_last(), removed);
    if slot < locals.len() - 1 {
        lemma_keep_slots_shorter(locals.drop_last(), removed, slot);
    }
}

/// Removing slots from a list of distinct locals leaves distinct locals.
pub proof fn lemma_keep_slots_distinct(locals: Seq<LocalId>, removed: spec_fn(int) -> bool)
    requires
        locals.no_duplicates(),
    ensures
        keep_slots(locals, removed).no_duplicates(),
        forall|local: LocalId| #[trigger]
            keep_slots(locals, removed).contains(local) ==> locals.contains(local),
    decreases locals.len(),
{
    if locals.len() > 0 {
        let shorter = locals.drop_last();
        let kept = keep_slots(shorter, removed);
        assert forall|i: int, j: int| 0 <= i < shorter.len() && 0 <= j < shorter.len() && i
            != j implies shorter[i] != shorter[j] by {
            assert(locals[i] != locals[j]);
        }
        lemma_keep_slots_distinct(shorter, removed);
        assert forall|local: LocalId| #[trigger] kept.contains(local) implies locals.contains(local)
            && local != locals.last() by {
            assert(shorter.contains(local));
            let i = choose|i: int| 0 <= i < shorter.len() && shorter[i] == local;
            assert(locals[i] == local);
        }
        if !removed(locals.len() - 1) {
            let all = kept.push(locals.last());
            assert forall|i: int, j: int| 0 <= i < all.len() && 0 <= j < all.len() && i
                != j implies all[i] != all[j] by {
                if i < kept.len() {
                    assert(kept.contains(kept[i]));
                }
                if j < kept.len() {
                    assert(kept.contains(kept[j]));
                }
            }
            assert forall|local: LocalId| #[trigger] all.contains(local) implies locals.contains(
                local,
            ) by {
                let i = choose|i: int| 0 <= i < all.len() && all[i] == local;
                if i < kept.len() {
                    assert(kept.contains(local));
                } else {
                    assert(locals[locals.len() - 1] == local);
                }
            }
        }
    }
}

/// How many of the slots in front of `slot` are kept: the position that it has among those kept.
pub open spec fn kept_before(removed: spec_fn(int) -> bool, slot: nat) -> nat
    decreases slot,
{
    if slot == 0 {
        0
    } else {
        kept_before(removed, (slot - 1) as nat) + if removed(slot - 1) {
            0nat
        } else {
            1nat
        }
    }
}

/// So many slots are kept.
pub proof fn lemma_keep_slots_count(locals: Seq<LocalId>, removed: spec_fn(int) -> bool)
    ensures
        keep_slots(locals, removed).len() == kept_before(removed, locals.len()),
    decreases locals.len(),
{
    if locals.len() > 0 {
        lemma_keep_slots_count(locals.drop_last(), removed);
    }
}

/// A slot that is not removed is found at its position among those kept.
pub proof fn lemma_keep_slots_at(locals: Seq<LocalId>, removed: spec_fn(int) -> bool, slot: int)
    requires
        0 <= slot < locals.len(),
        !removed(slot),
    ensures
        kept_before(removed, slot as nat) < keep_slots(locals, removed).len(),
        keep_slots(locals, removed)[kept_before(removed, slot as nat) as int] == locals[slot],
    decreases locals.len(),
{
    lemma_keep_slots_count(locals.drop_last(), removed);
    if slot < locals.len() - 1 {
        lemma_keep_slots_at(locals.drop_last(), removed, slot);
    }
}

/// What is kept at a position comes from one slot, whichever list is looked at.
pub proof fn lemma_kept_from(
    removed: spec_fn(int) -> bool,
    slots: nat,
    position: nat,
) -> (slot: int)
    requires
        position < kept_before(removed, slots),
    ensures
        0 <= slot < slots,
        !removed(slot),
        kept_before(removed, slot as nat) == position,
    decreases slots,
{
    if position < kept_before(removed, (slots - 1) as nat) {
        lemma_kept_from(removed, (slots - 1) as nat, position)
    } else {
        slots - 1
    }
}

} // verus!
