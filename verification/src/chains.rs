//! Following a map from local to local until it ends.

use crate::ir::LocalId;
use crate::local_map::LocalMap;
use crate::model::{canonical, follow, resolves, resolves_to};
use crate::plain::{ends_at, is_path, law_ends_of_paths, law_followed_is_a_path};
use vstd::prelude::*;
use vstd::set_lib::{lemma_int_range, lemma_len_subset, set_int_range};

verus! {

/// One step more along a map.
pub proof fn lemma_follow_step(map: Map<LocalId, LocalId>, local: LocalId, steps: nat)
    ensures
        follow(map, local, steps + 1) == if map.dom().contains(follow(map, local, steps)) {
            map[follow(map, local, steps)]
        } else {
            follow(map, local, steps)
        },
    decreases steps,
{
    if map.dom().contains(local) {
        if steps == 0 {
            assert(follow(map, map[local], 0) == map[local]);
        } else {
            lemma_follow_step(map, map[local], (steps - 1) as nat);
        }
    }
}

/// A chain that has ended stays where it is.
proof fn lemma_follow_ended(map: Map<LocalId, LocalId>, local: LocalId, steps: nat, more: nat)
    requires
        !map.dom().contains(follow(map, local, steps)),
        steps <= more,
    ensures
        follow(map, local, more) == follow(map, local, steps),
    decreases more - steps,
{
    if steps < more {
        lemma_follow_ended(map, local, steps, (more - 1) as nat);
        lemma_follow_step(map, local, (more - 1) as nat);
    }
}

/// A chain has one end at most.
pub proof fn lemma_resolves_to_one(
    map: Map<LocalId, LocalId>,
    local: LocalId,
    end1: LocalId,
    end2: LocalId,
)
    requires
        resolves_to(map, local, end1),
        resolves_to(map, local, end2),
    ensures
        end1 == end2,
{
    let steps1 = choose|steps: nat| #[trigger] follow(map, local, steps) == end1;
    let steps2 = choose|steps: nat| #[trigger] follow(map, local, steps) == end2;
    if steps1 <= steps2 {
        lemma_follow_ended(map, local, steps1, steps2);
    } else {
        lemma_follow_ended(map, local, steps2, steps1);
    }
}

/// The ends of chains are what the canonical map holds.
pub proof fn lemma_canonical_entry(map: Map<LocalId, LocalId>, local: LocalId, end: LocalId)
    requires
        map.dom().contains(local),
        resolves_to(map, local, end),
    ensures
        canonical(map).dom().contains(local),
        canonical(map)[local] == end,
{
    let chosen = choose|end: LocalId| resolves_to(map, local, end);
    lemma_resolves_to_one(map, local, end, chosen);
}

/// A chain that comes back to a local goes round for ever.
proof fn lemma_cycle_stays(
    map: Map<LocalId, LocalId>,
    local: LocalId,
    seen: Seq<LocalId>,
    back: int,
    steps: nat,
) -> (at: int)
    requires
        0 <= back < seen.len(),
        forall|i: int|
            0 <= i < seen.len() ==> #[trigger] seen[i] == follow(map, local, i as nat)
                && map.dom().contains(seen[i]),
        follow(map, local, seen.len()) == seen[back],
    ensures
        0 <= at < seen.len(),
        follow(map, local, steps) == seen[at],
    decreases steps,
{
    if steps == 0 {
        0
    } else {
        let prev = lemma_cycle_stays(map, local, seen, back, (steps - 1) as nat);
        lemma_follow_step(map, local, (steps - 1) as nat);
        lemma_follow_step(map, local, prev as nat);
        if prev + 1 == seen.len() {
            back
        } else {
            assert(seen[prev + 1] == follow(map, local, (prev + 1) as nat));
            prev + 1
        }
    }
}

/// There are only so many locals.
proof fn lemma_distinct_locals_bounded(locals: Seq<LocalId>)
    requires
        locals.no_duplicates(),
    ensures
        locals.len() <= 0x1_0000_0000,
{
    let numbers = locals.map_values(|local: LocalId| local as int);
    assert(numbers.no_duplicates());
    numbers.unique_seq_to_set();
    lemma_int_range(0, 0x1_0000_0000);
    assert(numbers.to_set().subset_of(set_int_range(0, 0x1_0000_0000)));
    lemma_len_subset(numbers.to_set(), set_int_range(0, 0x1_0000_0000));
}

/// Whether a list holds a local.
fn contains_local(list: &Vec<LocalId>, local: LocalId) -> (found: bool)
    ensures
        found == list@.contains(local),
{
    let mut i: usize = 0;
    while i < list.len()
        invariant
            i <= list.len(),
            forall|j: int| 0 <= j < i ==> #[trigger] list[j] != local,
        decreases list.len() - i,
    {
        if list[i] == local {
            return true;
        }
        i += 1;
    }
    false
}

/// The locals passed on the way form a path, with the one that comes next behind them.
proof fn lemma_seen_is_a_path(map: Map<LocalId, LocalId>, local: LocalId, seen: Seq<LocalId>)
    requires
        forall|i: int|
            0 <= i < seen.len() ==> #[trigger] seen[i] == follow(map, local, i as nat)
                && map.dom().contains(seen[i]),
    ensures
        is_path(map, seen.push(follow(map, local, seen.len()))),
        seen.push(follow(map, local, seen.len()))[0] == local,
        seen.len() > 0 ==> is_path(map, seen) && map[seen[seen.len() - 1]] == follow(
            map,
            local,
            seen.len(),
        ),
{
    let path = seen.push(follow(map, local, seen.len()));
    assert forall|k: int| 0 <= k < path.len() - 1 implies map.dom().contains(#[trigger] path[k])
        && map[path[k]] == path[k + 1] by {
        assert(seen[k] == follow(map, local, k as nat));
        lemma_follow_step(map, local, k as nat);
        if k + 1 < seen.len() {
            assert(seen[k + 1] == follow(map, local, (k + 1) as nat));
        }
    }
    assert(follow(map, local, 0) == local);
    if seen.len() > 0 {
        assert(seen[0] == follow(map, local, 0));
        assert forall|k: int| 0 <= k < seen.len() - 1 implies map.dom().contains(
            #[trigger] seen[k],
        ) && map[seen[k]] == seen[k + 1] by {
            assert(path[k] == seen[k]);
            assert(path[k + 1] == seen[k + 1]);
        }
        assert(path[seen.len() - 1] == seen[seen.len() - 1]);
    }
}

/// Follows a map from `local` to the end of the chain. The locals passed on the way are left in
/// `seen`. Where the chain comes back to one of them there is no end, and the result is `None`.
pub fn resolve_copy_target_from_snapshot(
    local: LocalId,
    snapshot: &LocalMap,
    seen: &mut Vec<LocalId>,
) -> (end: Option<LocalId>)
    ensures
        match end {
            Some(end) => resolves_to(snapshot@, local, end) && end == follow(
                snapshot@,
                local,
                final(seen)@.len(),
            ),
            None => !resolves(snapshot@, local) && final(seen)@.contains(
                follow(snapshot@, local, final(seen)@.len()),
            ),
        },
        match end {
            Some(end) => ends_at(snapshot@, local, end) && is_path(
                snapshot@,
                final(seen)@.push(end),
            ) && final(seen)@.push(end)[0] == local,
            None => (forall|end: LocalId| !#[trigger] ends_at(snapshot@, local, end)) && is_path(
                snapshot@,
                final(seen)@,
            ) && final(seen)@[0] == local && snapshot@.dom().contains(
                final(seen)@[final(seen)@.len() - 1],
            ) && final(seen)@.contains(snapshot@[final(seen)@[final(seen)@.len() - 1]]),
        },
        final(seen)@.no_duplicates(),
        forall|i: int|
            0 <= i < final(seen).len() ==> #[trigger] final(seen)[i] == follow(
                snapshot@,
                local,
                i as nat,
            ) && snapshot@.dom().contains(final(seen)[i]),
{
    seen.clear();
    let mut current: LocalId = local;
    loop
        invariant
            current == follow(snapshot@, local, seen@.len()),
            seen@.no_duplicates(),
            forall|i: int|
                0 <= i < seen.len() ==> #[trigger] seen[i] == follow(snapshot@, local, i as nat)
                    && snapshot@.dom().contains(seen[i]),
        decreases 0x1_0000_0000 - seen@.len(),
    {
        match snapshot.get(current) {
            Some(next) => {
                if contains_local(seen, current) {
                    proof {
                        let back = choose|i: int| 0 <= i < seen@.len() && seen@[i] == current;
                        assert forall|end: LocalId| !resolves_to(snapshot@, local, end) by {
                            if resolves_to(snapshot@, local, end) {
                                let steps = choose|steps: nat| #[trigger]
                                    follow(snapshot@, local, steps) == end;
                                let at = lemma_cycle_stays(snapshot@, local, seen@, back, steps);
                                assert(snapshot@.dom().contains(seen@[at]));
                            }
                        }
                        assert forall|end: LocalId| !#[trigger] ends_at(snapshot@, local, end) by {
                            law_followed_is_a_path(snapshot@, local, end);
                        }
                        lemma_seen_is_a_path(snapshot@, local, seen@);
                    }
                    return None;
                }
                let ghost prev = seen@;
                proof {
                    lemma_follow_step(snapshot@, local, seen@.len());
                }
                seen.push(current);
                proof {
                    assert(seen@ == prev.push(current));
                    lemma_distinct_locals_bounded(seen@);
                }
                current = next;
            },
            None => {
                proof {
                    assert(resolves_to(snapshot@, local, current));
                    law_followed_is_a_path(snapshot@, local, current);
                    lemma_seen_is_a_path(snapshot@, local, seen@);
                }
                return Some(current);
            },
        }
    }
}

/// Fills a map with the ends of the chains of another, one for every key from which there is an
/// end.
pub fn canonicalize(
    raw_map: &LocalMap,
    canonical_map: &mut LocalMap,
    seen: &mut Vec<LocalId>,
)
    ensures
        final(canonical_map)@ == canonical(raw_map@),
        forall|local: LocalId| #[trigger]
            final(canonical_map)@.dom().contains(local) <==> raw_map@.dom().contains(local)
                && exists|end: LocalId| ends_at(raw_map@, local, end),
        forall|local: LocalId| #[trigger]
            final(canonical_map)@.dom().contains(local) ==> ends_at(
                raw_map@,
                local,
                final(canonical_map)@[local],
            ),
{
    canonical_map.clear();
    let keys = raw_map.keys();
    let mut i: usize = 0;
    while i < keys.len()
        invariant
            i <= keys.len(),
            keys@.no_duplicates(),
            forall|key: LocalId| #[trigger] keys@.contains(key) <==> raw_map@.dom().contains(key),
            forall|local: LocalId| #[trigger]
                canonical_map@.dom().contains(local) <==> canonical(raw_map@).dom().contains(local)
                    && exists|j: int| 0 <= j < i && #[trigger] keys[j] == local,
            forall|local: LocalId| #[trigger]
                canonical_map@.dom().contains(local) ==> canonical_map@[local] == canonical(
                    raw_map@,
                )[local],
        decreases keys.len() - i,
    {
        let key: LocalId = keys[i];
        let ghost prev = canonical_map@;
        assert(keys@.contains(key));
        if let Some(resolved) = resolve_copy_target_from_snapshot(key, raw_map, seen) {
            if resolved != key {
                proof {
                    lemma_canonical_entry(raw_map@, key, resolved);
                }
                canonical_map.insert(key, resolved);
                assert(canonical_map@ == prev.insert(key, resolved));
            }
        }
        proof {
            assert(keys[i as int] == key);
            assert forall|local: LocalId| #[trigger]
                canonical_map@.dom().contains(local) <==> canonical(raw_map@).dom().contains(local)
                    && exists|j: int| 0 <= j < i + 1 && #[trigger] keys[j] == local by {
                assert(local != key ==> (canonical_map@.dom().contains(local)
                    <==> prev.dom().contains(local)));
            }
        }
        i += 1;
    }
    proof {
        assert forall|local: LocalId| #[trigger]
            canonical(raw_map@).dom().contains(local) implies canonical_map@.dom().contains(
            local,
        ) by {
            assert(keys@.contains(local));
        }
        assert(canonical_map@ =~= canonical(raw_map@));
        law_ends_of_paths(raw_map@);
    }
}

} // verus!
