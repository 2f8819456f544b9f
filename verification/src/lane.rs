use vstd::prelude::*;
use crate::commit::CommitId;

verus! {

/// Whether some slot of `table` waits for the commit `id`.
pub open spec fn is_pending(table: Seq<Option<CommitId>>, id: CommitId) -> bool {
    table.contains(Some(id))
}

/// No identifier waits in two slots of `table`.
pub open spec fn distinct(table: Seq<Option<CommitId>>) -> bool {
    forall|i: int, j: int|
        0 <= i < j < table.len() && table[i] is Some ==> #[trigger] table[i] != #[trigger] table[j]
}

/// The last slot of `table`, if there is one, is occupied.
pub open spec fn trimmed(table: Seq<Option<CommitId>>) -> bool {
    table.len() > 0 ==> table.last() is Some
}

/// What holds of every lane table between two assignments: no identifier
/// waits twice, and the table ends with its last occupied slot.
pub open spec fn well_formed(table: Seq<Option<CommitId>>) -> bool {
    distinct(table) && trimmed(table)
}

/// The lane that a visit of `commit` is given: the slot that waits for it,
/// or, when none does, the index one past the end of the table.
pub open spec fn lane_for(table: Seq<Option<CommitId>>, commit: CommitId) -> int {
    if is_pending(table, commit) {
        table.index_of(Some(commit))
    } else {
        table.len() as int
    }
}

/// The table once `commit` is consumed: its slot is free again, and a
/// commit that nothing waited for has a fresh free slot at the end.
pub open spec fn vacate(table: Seq<Option<CommitId>>, commit: CommitId) -> Seq<Option<CommitId>> {
    if is_pending(table, commit) {
        table.update(lane_for(table, commit), None)
    } else {
        table.push(None)
    }
}

/// The index of the last free slot of `table`, or -1 when every slot is
/// occupied.
pub open spec fn highest_free(table: Seq<Option<CommitId>>) -> int
    decreases table.len(),
{
    if table.len() == 0 {
        -1
    } else if table.last() is None {
        table.len() - 1
    } else {
        highest_free(table.drop_last())
    }
}

/// The table once `parent` has a slot: unchanged when it waits already,
/// else with `parent` in the last free slot, or in a new slot at the end
/// when none is free.
pub open spec fn reserve(table: Seq<Option<CommitId>>, parent: CommitId) -> Seq<Option<CommitId>> {
    if is_pending(table, parent) {
        table
    } else if highest_free(table) >= 0 {
        table.update(highest_free(table), Some(parent))
    } else {
        table.push(Some(parent))
    }
}

/// `reserve` for each of `parents` in turn, the first one first.
pub open spec fn reserve_all(table: Seq<Option<CommitId>>, parents: Seq<CommitId>) -> Seq<
    Option<CommitId>,
>
    decreases parents.len(),
{
    if parents.len() == 0 {
        table
    } else {
        reserve(reserve_all(table, parents.drop_last()), parents.last())
    }
}

/// Whether `parent` has a lane already when its turn comes in the visit of
/// `commit`: it waited in `table` before the visit, or it is one of
/// `earlier`, the parents that had their turn before it.
pub open spec fn already_waiting(
    table: Seq<Option<CommitId>>,
    commit: CommitId,
    earlier: Seq<CommitId>,
    parent: CommitId,
) -> bool {
    (is_pending(table, parent) && parent != commit) || earlier.contains(parent)
}

/// The table with the first parent, if there is one and it does not wait
/// elsewhere already, in the slot `lane`.
pub open spec fn continue_lane(
    table: Seq<Option<CommitId>>,
    lane: int,
    parents: Seq<CommitId>,
) -> Seq<Option<CommitId>> {
    if parents.len() > 0 && !is_pending(table, parents[0]) {
        table.update(lane, Some(parents[0]))
    } else {
        table
    }
}

/// The parents after the first: the sources of a merge.
pub open spec fn merge_sources(parents: Seq<CommitId>) -> Seq<CommitId> {
    if parents.len() == 0 {
        parents
    } else {
        parents.subrange(1, parents.len() as int)
    }
}

/// `table` without the free slots at its end.
pub open spec fn trim(table: Seq<Option<CommitId>>) -> Seq<Option<CommitId>>
    decreases table.len(),
{
    if table.len() > 0 && table.last() is None {
        trim(table.drop_last())
    } else {
        table
    }
}

/// The lane table after the visit of `commit` with the parents `parents`:
/// the commit's slot is cleared, its first parent takes that slot, every
/// further parent takes the last free slot or a new one, a parent that
/// waits already is left where it is, and free slots at the end are cut.
pub open spec fn assign(
    table: Seq<Option<CommitId>>,
    commit: CommitId,
    parents: Seq<CommitId>,
) -> Seq<Option<CommitId>> {
    let lane = lane_for(table, commit);
    let cleared = vacate(table, commit);
    let continued = continue_lane(cleared, lane, parents);
    trim(reserve_all(continued, merge_sources(parents)))
}

/// Where `highest_free` points: at a free slot with only occupied slots
/// behind it, or nowhere when every slot is occupied.
pub proof fn lemma_highest_free(table: Seq<Option<CommitId>>)
    ensures
        -1 <= highest_free(table) < table.len(),
        highest_free(table) >= 0 ==> table[highest_free(table)] is None,
        forall|j: int| highest_free(table) < j < table.len() ==> (#[trigger] table[j]) is Some,
    decreases table.len(),
{
    if table.len() > 0 && table.last() is Some {
        let shorter = table.drop_last();
        lemma_highest_free(shorter);
        assert forall|j: int| highest_free(table) < j < table.len() implies (#[trigger] table[j])
            is Some by {
            if j < shorter.len() {
                assert(shorter[j] is Some);
            }
        }
    }
}

/// A reservation keeps every occupied slot, adds at most one slot, and
/// makes `parent` wait beside exactly the commits that waited before.
pub proof fn lemma_reserve(table: Seq<Option<CommitId>>, parent: CommitId)
    requires
        distinct(table),
    ensures
        distinct(reserve(table, parent)),
        table.len() <= reserve(table, parent).len() <= table.len() + 1,
        forall|i: int|
            0 <= i < table.len() && (#[trigger] table[i]) is Some ==> reserve(table, parent)[i]
                == table[i],
        forall|id: CommitId|
            is_pending(reserve(table, parent), id) <==> is_pending(table, id) || id == parent,
{
    let r = reserve(table, parent);
    lemma_highest_free(table);
    if is_pending(table, parent) {
    } else if highest_free(table) >= 0 {
        let h = highest_free(table);
        assert(r[h] == Some(parent));
        assert forall|id: CommitId| is_pending(r, id) <==> is_pending(table, id) || id
            == parent by {
            if is_pending(table, id) {
                let i = choose|i: int| 0 <= i < table.len() && table[i] == Some(id);
                assert(r[i] == Some(id));
            }
            if is_pending(r, id) && id != parent {
                let i = choose|i: int| 0 <= i < r.len() && r[i] == Some(id);
                assert(table[i] == Some(id));
            }
        }
        assert forall|i: int, j: int| 0 <= i < j < r.len() && r[i] is Some implies #[trigger] r[i]
            != #[trigger] r[j] by {
            if i == h {
                if r[j] == Some(parent) {
                    assert(table[j] == Some(parent));
                }
            } else if j == h {
                if r[i] == Some(parent) {
                    assert(table[i] == Some(parent));
                }
            } else {
                assert(table[i] != table[j]);
            }
        }
    } else {
        let n = table.len() as int;
        assert(r[n] == Some(parent));
        assert forall|id: CommitId| is_pending(r, id) <==> is_pending(table, id) || id
            == parent by {
            if is_pending(table, id) {
                let i = choose|i: int| 0 <= i < table.len() && table[i] == Some(id);
                assert(r[i] == Some(id));
            }
            if is_pending(r, id) && id != parent {
                let i = choose|i: int| 0 <= i < r.len() && r[i] == Some(id);
                assert(table[i] == Some(id));
            }
        }
        assert forall|i: int, j: int| 0 <= i < j < r.len() && r[i] is Some implies #[trigger] r[i]
            != #[trigger] r[j] by {
            if j == n {
                if r[i] == Some(parent) {
                    assert(table[i] == Some(parent));
                }
            } else {
                assert(table[i] != table[j]);
            }
        }
    }
}

/// Reservations in turn keep every occupied slot, add at most one slot
/// each, and make the parents wait beside the commits that waited before.
pub proof fn lemma_reserve_all(table: Seq<Option<CommitId>>, parents: Seq<CommitId>)
    requires
        distinct(table),
    ensures
        distinct(reserve_all(table, parents)),
        table.len() <= reserve_all(table, parents).len() <= table.len() + parents.len(),
        forall|i: int|
            0 <= i < table.len() && (#[trigger] table[i]) is Some ==> reserve_all(
                table,
                parents,
            )[i] == table[i],
        forall|id: CommitId|
            is_pending(reserve_all(table, parents), id) <==> is_pending(table, id)
                || parents.contains(id),
    decreases parents.len(),
{
    if parents.len() > 0 {
        let before = reserve_all(table, parents.drop_last());
        lemma_reserve_all(table, parents.drop_last());
        lemma_reserve(before, parents.last());
        let after = reserve_all(table, parents);
        assert forall|i: int| 0 <= i < table.len() && (#[trigger] table[i]) is Some implies after[i]
            == table[i] by {
            assert(before[i] == table[i]);
        }
        assert forall|id: CommitId| is_pending(after, id) <==> is_pending(table, id)
            || parents.contains(id) by {
            if parents.contains(id) {
                let k = choose|k: int| 0 <= k < parents.len() && parents[k] == id;
                if k < parents.len() - 1 {
                    assert(parents.drop_last()[k] == id);
                }
            }
            if parents.drop_last().contains(id) {
                let k = choose|k: int|
                    0 <= k < parents.drop_last().len() && parents.drop_last()[k] == id;
                assert(parents[k] == id);
            }
            if id == parents.last() {
                assert(parents[parents.len() - 1] == id);
            }
        }
    }
}

/// Cutting the free slots at the end leaves a table that ends occupied,
/// is a prefix of the old one and holds every occupied slot of it.
pub proof fn lemma_trim(table: Seq<Option<CommitId>>)
    ensures
        trimmed(trim(table)),
        trim(table).len() <= table.len(),
        forall|i: int| 0 <= i < trim(table).len() ==> (#[trigger] trim(table)[i]) == table[i],
        forall|i: int|
            0 <= i < table.len() && (#[trigger] table[i]) is Some ==> i < trim(table).len(),
        distinct(table) ==> distinct(trim(table)),
        forall|id: CommitId| is_pending(trim(table), id) <==> is_pending(table, id),
    decreases table.len(),
{
    if table.len() > 0 && table.last() is None {
        let shorter = table.drop_last();
        lemma_trim(shorter);
        let t = trim(table);
        assert forall|i: int| 0 <= i < table.len() && (#[trigger] table[i]) is Some implies i
            < t.len() by {
            assert(shorter[i] is Some);
        }
        assert forall|id: CommitId| is_pending(t, id) <==> is_pending(table, id) by {
            if is_pending(table, id) {
                let i = choose|i: int| 0 <= i < table.len() && table[i] == Some(id);
                assert(shorter[i] == Some(id));
            }
            if is_pending(shorter, id) {
                let i = choose|i: int| 0 <= i < shorter.len() && shorter[i] == Some(id);
                assert(table[i] == Some(id));
            }
        }
        if distinct(table) {
            assert forall|i: int, j: int|
                0 <= i < j < shorter.len() && shorter[i] is Some implies #[trigger] shorter[i]
                != #[trigger] shorter[j] by {
                assert(table[i] != table[j]);
            }
        }
    }
}

/// In a table where no identifier waits twice, the slot that holds `id` is
/// the lane that a visit of `id` is given.
pub proof fn lemma_lane_for_unique(table: Seq<Option<CommitId>>, id: CommitId, i: int)
    requires
        distinct(table),
        0 <= i < table.len(),
        table[i] == Some(id),
    ensures
        is_pending(table, id),
        lane_for(table, id) == i,
{
    let k = table.index_of(Some(id));
    assert(0 <= k < table.len() && table[k] == Some(id));
    if k < i {
        assert(table[k] != table[i]);
    } else if i < k {
        assert(table[i] != table[k]);
    }
}

/// Consuming `commit` frees its lane and no other, and `commit` waits
/// nowhere afterwards.
pub proof fn lemma_vacate(table: Seq<Option<CommitId>>, commit: CommitId)
    requires
        distinct(table),
    ensures
        distinct(vacate(table, commit)),
        0 <= lane_for(table, commit) < vacate(table, commit).len(),
        vacate(table, commit)[lane_for(table, commit)] is None,
        is_pending(table, commit) ==> table[lane_for(table, commit)] == Some(commit),
        vacate(table, commit).len() == (if is_pending(table, commit) {
            table.len()
        } else {
            table.len() + 1
        }),
        forall|i: int|
            0 <= i < table.len() && i != lane_for(table, commit) ==> (#[trigger] vacate(
                table,
                commit,
            )[i]) == table[i],
        forall|id: CommitId|
            is_pending(vacate(table, commit), id) <==> is_pending(table, id) && id != commit,
{
    let lane = lane_for(table, commit);
    let v = vacate(table, commit);
    if is_pending(table, commit) {
        assert(0 <= lane < table.len() && table[lane] == Some(commit));
    }
    assert forall|i: int, j: int| 0 <= i < j < v.len() && v[i] is Some implies #[trigger] v[i]
        != #[trigger] v[j] by {
        if j < table.len() {
            assert(table[i] != table[j]);
        }
    }
    assert forall|id: CommitId| is_pending(v, id) <==> is_pending(table, id) && id != commit by {
        if is_pending(table, id) && id != commit {
            let i = choose|i: int| 0 <= i < table.len() && table[i] == Some(id);
            assert(v[i] == Some(id));
        }
        if is_pending(v, id) {
            let i = choose|i: int| 0 <= i < v.len() && v[i] == Some(id);
            assert(table[i] == Some(id));
            if id == commit {
                lemma_lane_for_unique(table, commit, i);
            }
        }
    }
}

/// Handing the freed lane to the first parent changes no other slot.
pub proof fn lemma_continue_lane(table: Seq<Option<CommitId>>, lane: int, parents: Seq<CommitId>)
    requires
        distinct(table),
        0 <= lane < table.len(),
        table[lane] is None,
    ensures
        distinct(continue_lane(table, lane, parents)),
        continue_lane(table, lane, parents).len() == table.len(),
        forall|i: int|
            0 <= i < table.len() && i != lane ==> (#[trigger] continue_lane(
                table,
                lane,
                parents,
            )[i]) == table[i],
        forall|id: CommitId|
            is_pending(continue_lane(table, lane, parents), id) <==> is_pending(table, id) || (
            parents.len() > 0 && id == parents[0]),
        parents.len() > 0 && !is_pending(table, parents[0]) ==> continue_lane(
            table,
            lane,
            parents,
        )[lane] == Some(parents[0]),
{
    let c = continue_lane(table, lane, parents);
    if parents.len() > 0 && !is_pending(table, parents[0]) {
        let first = parents[0];
        assert(c[lane] == Some(first));
        assert forall|i: int, j: int| 0 <= i < j < c.len() && c[i] is Some implies #[trigger] c[i]
            != #[trigger] c[j] by {
            if i == lane {
                if c[j] == Some(first) {
                    assert(table[j] == Some(first));
                }
            } else if j == lane {
                if c[i] == Some(first) {
                    assert(table[i] == Some(first));
                }
            } else {
                assert(table[i] != table[j]);
            }
        }
        assert forall|id: CommitId| is_pending(c, id) <==> is_pending(table, id) || id
            == first by {
            if is_pending(table, id) {
                let i = choose|i: int| 0 <= i < table.len() && table[i] == Some(id);
                assert(c[i] == Some(id));
            }
            if is_pending(c, id) && id != first {
                let i = choose|i: int| 0 <= i < c.len() && c[i] == Some(id);
                assert(table[i] == Some(id));
            }
        }
    }
}

/// What the stages of an assignment come to: the table that is left is
/// well formed; every occupied slot but that of the visited commit is
/// kept; the first parent, unless it waits elsewhere, stands in the lane
/// of the commit; and the commits that wait are the parents and whoever
/// waited before, but for the commit itself.
proof fn lemma_assign_stages(table: Seq<Option<CommitId>>, commit: CommitId, parents: Seq<CommitId>)
    requires
        distinct(table),
    ensures
        well_formed(assign(table, commit, parents)),
        0 <= lane_for(table, commit) <= table.len(),
        is_pending(table, commit) ==> lane_for(table, commit) < table.len() && table[lane_for(
            table,
            commit,
        )] == Some(commit),
        forall|i: int|
            0 <= i < table.len() && (#[trigger] table[i]) is Some && i != lane_for(table, commit)
                ==> i < assign(table, commit, parents).len() && assign(table, commit, parents)[i]
                == table[i],
        parents.len() > 0 && (parents[0] == commit || !is_pending(table, parents[0])) ==> lane_for(
            table,
            commit,
        ) < assign(table, commit, parents).len() && assign(table, commit, parents)[lane_for(
            table,
            commit,
        )] == Some(parents[0]),
        forall|id: CommitId|
            is_pending(assign(table, commit, parents), id) <==> (parents.len() > 0 && id
                == parents[0]) || merge_sources(parents).contains(id) || (is_pending(table, id)
                && id != commit),
{
    let lane = lane_for(table, commit);
    let cleared = vacate(table, commit);
    lemma_vacate(table, commit);
    let continued = continue_lane(cleared, lane, parents);
    lemma_continue_lane(cleared, lane, parents);
    let reserved = reserve_all(continued, merge_sources(parents));
    lemma_reserve_all(continued, merge_sources(parents));
    lemma_trim(reserved);
    let after = assign(table, commit, parents);
    assert forall|i: int|
        0 <= i < table.len() && (#[trigger] table[i]) is Some && i != lane implies i < after.len()
        && after[i] == table[i] by {
        assert(cleared[i] == table[i]);
        assert(continued[i] == table[i]);
        assert(reserved[i] == table[i]);
        assert(after[i] == reserved[i]);
    }
    if parents.len() > 0 && (parents[0] == commit || !is_pending(table, parents[0])) {
        assert(continued[lane] == Some(parents[0]));
        assert(reserved[lane] == Some(parents[0]));
        assert(after[lane] == reserved[lane]);
    }
}

/// An assignment leaves a well-formed table: no identifier waits in two
/// lanes, and the table ends with its last occupied lane.
pub proof fn lemma_assign_well_formed(
    table: Seq<Option<CommitId>>,
    commit: CommitId,
    parents: Seq<CommitId>,
)
    requires
        distinct(table),
    ensures
        well_formed(assign(table, commit, parents)),
{
    lemma_assign_stages(table, commit, parents);
}

/// After an assignment exactly these commits wait: the parents of the
/// visited commit, and whoever waited before, but for the commit itself.
pub proof fn lemma_assign_pending(
    table: Seq<Option<CommitId>>,
    commit: CommitId,
    parents: Seq<CommitId>,
)
    requires
        distinct(table),
    ensures
        forall|id: CommitId|
            is_pending(assign(table, commit, parents), id) <==> parents.contains(id) || (
            is_pending(table, id) && id != commit),
{
    lemma_assign_stages(table, commit, parents);
    let sources = merge_sources(parents);
    assert forall|id: CommitId|
        is_pending(assign(table, commit, parents), id) <==> parents.contains(id) || (is_pending(
            table,
            id,
        ) && id != commit) by {
        if parents.contains(id) {
            let k = choose|k: int| 0 <= k < parents.len() && parents[k] == id;
            if k > 0 {
                assert(sources[k - 1] == id);
            }
        }
        if sources.contains(id) {
            let k = choose|k: int| 0 <= k < sources.len() && sources[k] == id;
            assert(parents[k + 1] == id);
        }
        if parents.len() > 0 && id == parents[0] {
            assert(parents.contains(id));
        }
    }
}

/// A visit never takes the lane of another waiting commit, and moves none:
/// whoever waited in a lane, other than the visited commit, still waits in
/// that lane afterwards.
pub proof fn lemma_assign_keeps_other_lanes(
    table: Seq<Option<CommitId>>,
    commit: CommitId,
    parents: Seq<CommitId>,
)
    requires
        distinct(table),
    ensures
        forall|i: int|
            0 <= i < table.len() && (#[trigger] table[i]) is Some && table[i] != Some(commit) ==> {
                &&& i != lane_for(table, commit)
                &&& i < assign(table, commit, parents).len()
                &&& assign(table, commit, parents)[i] == table[i]
            },
{
    lemma_assign_stages(table, commit, parents);
}

/// The first parent, unless it waits in another lane already, takes over
/// the lane of the visited commit, and is given that lane when its own
/// turn comes.
pub proof fn lemma_assign_first_parent(
    table: Seq<Option<CommitId>>,
    commit: CommitId,
    parents: Seq<CommitId>,
)
    requires
        distinct(table),
        parents.len() > 0,
        parents[0] == commit || !is_pending(table, parents[0]),
    ensures
        lane_for(table, commit) < assign(table, commit, parents).len(),
        assign(table, commit, parents)[lane_for(table, commit)] == Some(parents[0]),
        lane_for(assign(table, commit, parents), parents[0]) == lane_for(table, commit),
{
    lemma_assign_stages(table, commit, parents);
    lemma_lane_for_unique(assign(table, commit, parents), parents[0], lane_for(table, commit));
}

/// The number of occupied slots of `table`.
pub open spec fn pending_count(table: Seq<Option<CommitId>>) -> nat
    decreases table.len(),
{
    if table.len() == 0 {
        0
    } else if table.last() is Some {
        pending_count(table.drop_last()) + 1
    } else {
        pending_count(table.drop_last())
    }
}

/// The number of free slots of `table`.
pub open spec fn free_count(table: Seq<Option<CommitId>>) -> nat
    decreases table.len(),
{
    if table.len() == 0 {
        0
    } else if table.last() is None {
        free_count(table.drop_last()) + 1
    } else {
        free_count(table.drop_last())
    }
}

/// The commits that wait in `table`.
pub open spec fn pending_ids(table: Seq<Option<CommitId>>) -> Set<CommitId> {
    Set::new(|id: CommitId| is_pending(table, id))
}

/// Every slot is either occupied or free.
pub proof fn lemma_slots_counted(table: Seq<Option<CommitId>>)
    ensures
        table.len() == pending_count(table) + free_count(table),
    decreases table.len(),
{
    if table.len() > 0 {
        lemma_slots_counted(table.drop_last());
    }
}

/// Where no identifier waits twice, there are as many waiting commits as
/// occupied slots.
pub proof fn lemma_pending_ids_counted(table: Seq<Option<CommitId>>)
    requires
        distinct(table),
    ensures
        pending_ids(table).finite(),
        pending_ids(table).len() == pending_count(table),
    decreases table.len(),
{
    if table.len() == 0 {
        assert(pending_ids(table) =~= Set::<CommitId>::empty());
    } else {
        let shorter = table.drop_last();
        let n = shorter.len() as int;
        assert forall|i: int, j: int|
            0 <= i < j < shorter.len() && shorter[i] is Some implies #[trigger] shorter[i]
            != #[trigger] shorter[j] by {
            assert(table[i] != table[j]);
        }
        lemma_pending_ids_counted(shorter);
        match table.last() {
            Some(id) => {
                if is_pending(shorter, id) {
                    let i = choose|i: int| 0 <= i < shorter.len() && shorter[i] == Some(id);
                    assert(table[i] != table[n]);
                }
                assert forall|other: CommitId|
                    is_pending(table, other) <==> is_pending(shorter, other) || other == id by {
                    if is_pending(shorter, other) {
                        let i = choose|i: int| 0 <= i < shorter.len() && shorter[i] == Some(other);
                        assert(table[i] == Some(other));
                    }
                    if is_pending(table, other) && other != id {
                        let i = choose|i: int| 0 <= i < table.len() && table[i] == Some(other);
                        assert(shorter[i] == Some(other));
                    }
                    if other == id {
                        assert(table[n] == Some(other));
                    }
                }
                assert(pending_ids(table) =~= pending_ids(shorter).insert(id));
            },
            None => {
                assert forall|other: CommitId|
                    is_pending(table, other) <==> is_pending(shorter, other) by {
                    if is_pending(shorter, other) {
                        let i = choose|i: int| 0 <= i < shorter.len() && shorter[i] == Some(other);
                        assert(table[i] == Some(other));
                    }
                    if is_pending(table, other) {
                        let i = choose|i: int| 0 <= i < table.len() && table[i] == Some(other);
                        assert(shorter[i] == Some(other));
                    }
                }
                assert(pending_ids(table) =~= pending_ids(shorter));
            },
        }
    }
}

/// A table with at most one free slot is at most one longer than the
/// number of commits that wait in it.
pub proof fn lemma_length_bound(table: Seq<Option<CommitId>>)
    requires
        distinct(table),
        free_count(table) <= 1,
    ensures
        table.len() <= pending_ids(table).len() + 1,
{
    lemma_slots_counted(table);
    lemma_pending_ids_counted(table);
}

/// Two commits that wait at the same time wait in different lanes.
pub proof fn lemma_distinct_lanes(table: Seq<Option<CommitId>>, one: CommitId, other: CommitId)
    requires
        is_pending(table, one),
        is_pending(table, other),
        one != other,
    ensures
        lane_for(table, one) != lane_for(table, other),
        table[lane_for(table, one)] == Some(one),
        table[lane_for(table, other)] == Some(other),
{
    let i = table.index_of(Some(one));
    let j = table.index_of(Some(other));
    assert(0 <= i < table.len() && table[i] == Some(one));
    assert(0 <= j < table.len() && table[j] == Some(other));
}

/// The table in which the parent `parents[turn]` of `commit` looks for a
/// lane: the slot of `commit` is cleared, and the parents before it have
/// their lanes.
pub open spec fn before_turn(
    table: Seq<Option<CommitId>>,
    commit: CommitId,
    parents: Seq<CommitId>,
    turn: int,
) -> Seq<Option<CommitId>> {
    if turn == 0 {
        vacate(table, commit)
    } else {
        reserve_all(
            continue_lane(vacate(table, commit), lane_for(table, commit), parents),
            merge_sources(parents).take(turn - 1),
        )
    }
}

/// A parent is given no lane of its own exactly when it has one as its
/// turn comes: it waited before the visit, and is not the visited commit
/// itself, or it stands among the parents a second time.
pub proof fn lemma_already_waiting(
    table: Seq<Option<CommitId>>,
    commit: CommitId,
    parents: Seq<CommitId>,
    turn: int,
)
    requires
        distinct(table),
        0 <= turn < parents.len(),
    ensures
        already_waiting(table, commit, parents.take(turn), parents[turn]) <==> is_pending(
            before_turn(table, commit, parents, turn),
            parents[turn],
        ),
{
    let parent = parents[turn];
    let lane = lane_for(table, commit);
    let cleared = vacate(table, commit);
    lemma_vacate(table, commit);
    if turn == 0 {
        assert(parents.take(0) =~= Seq::<CommitId>::empty());
        assert(!parents.take(0).contains(parent));
    } else {
        let continued = continue_lane(cleared, lane, parents);
        lemma_continue_lane(cleared, lane, parents);
        let earlier = merge_sources(parents).take(turn - 1);
        lemma_reserve_all(continued, earlier);
        let before = parents.take(turn);
        if before.contains(parent) {
            let k = choose|k: int| 0 <= k < before.len() && before[k] == parent;
            if k > 0 {
                assert(earlier[k - 1] == parent);
            }
        }
        if earlier.contains(parent) {
            let k = choose|k: int| 0 <= k < earlier.len() && earlier[k] == parent;
            assert(before[k + 1] == parent);
        }
        if parent == parents[0] {
            assert(before[0] == parent);
        }
    }
}

/// Setting a slot changes the number of free slots by what the slot gains
/// or loses.
pub proof fn lemma_free_count_update(table: Seq<Option<CommitId>>, i: int, slot: Option<CommitId>)
    requires
        0 <= i < table.len(),
    ensures
        free_count(table.update(i, slot)) + (if table[i] is None {
            1int
        } else {
            0int
        }) == free_count(table) + (if slot is None {
            1int
        } else {
            0int
        }),
    decreases table.len(),
{
    let changed = table.update(i, slot);
    if i == table.len() - 1 {
        assert(changed.drop_last() =~= table.drop_last());
    } else {
        lemma_free_count_update(table.drop_last(), i, slot);
        assert(changed.drop_last() =~= table.drop_last().update(i, slot));
    }
}

/// A reservation frees no slot.
pub proof fn lemma_reserve_free_count(table: Seq<Option<CommitId>>, parent: CommitId)
    ensures
        free_count(reserve(table, parent)) <= free_count(table),
{
    lemma_highest_free(table);
    if is_pending(table, parent) {
    } else if highest_free(table) >= 0 {
        lemma_free_count_update(table, highest_free(table), Some(parent));
    } else {
        assert(table.push(Some(parent)).drop_last() =~= table);
    }
}

/// Reservations in turn free no slot.
pub proof fn lemma_reserve_all_free_count(table: Seq<Option<CommitId>>, parents: Seq<CommitId>)
    ensures
        free_count(reserve_all(table, parents)) <= free_count(table),
    decreases parents.len(),
{
    if parents.len() > 0 {
        lemma_reserve_all_free_count(table, parents.drop_last());
        lemma_reserve_free_count(reserve_all(table, parents.drop_last()), parents.last());
    }
}

/// Cutting free slots from the end leaves no more free slots than there
/// were.
pub proof fn lemma_trim_free_count(table: Seq<Option<CommitId>>)
    ensures
        free_count(trim(table)) <= free_count(table),
    decreases table.len(),
{
    if table.len() > 0 && table.last() is None {
        lemma_trim_free_count(table.drop_last());
    }
}

/// A visit leaves at most one free lane more than there was, and none
/// more where the first parent takes over the lane of the commit: a free
/// lane between occupied ones comes only from a lane that ends.
pub proof fn lemma_assign_free_count(
    table: Seq<Option<CommitId>>,
    commit: CommitId,
    parents: Seq<CommitId>,
)
    requires
        distinct(table),
    ensures
        free_count(assign(table, commit, parents)) <= free_count(table) + 1,
        parents.len() > 0 && (parents[0] == commit || !is_pending(table, parents[0]))
            ==> free_count(assign(table, commit, parents)) <= free_count(table),
{
    let lane = lane_for(table, commit);
    let cleared = vacate(table, commit);
    lemma_vacate(table, commit);
    if is_pending(table, commit) {
        lemma_free_count_update(table, lane, None);
    } else {
        assert(cleared.drop_last() =~= table);
    }
    assert(free_count(cleared) == free_count(table) + 1);
    let continued = continue_lane(cleared, lane, parents);
    if parents.len() > 0 && !is_pending(cleared, parents[0]) {
        lemma_free_count_update(cleared, lane, Some(parents[0]));
    }
    lemma_reserve_all_free_count(continued, merge_sources(parents));
    lemma_trim_free_count(reserve_all(continued, merge_sources(parents)));
}

/// A table in which `highest_free` finds nothing has no free slot.
pub proof fn lemma_full_table(table: Seq<Option<CommitId>>)
    requires
        highest_free(table) < 0,
    ensures
        free_count(table) == 0,
    decreases table.len(),
{
    if table.len() > 0 {
        lemma_full_table(table.drop_last());
    }
}

/// Reservations lengthen a table only when no slot is free, and leave
/// none free then.
pub proof fn lemma_reserve_all_growth(table: Seq<Option<CommitId>>, parents: Seq<CommitId>)
    ensures
        reserve_all(table, parents).len() > table.len() ==> free_count(
            reserve_all(table, parents),
        ) == 0,
    decreases parents.len(),
{
    if parents.len() > 0 {
        let before = reserve_all(table, parents.drop_last());
        let after = reserve(before, parents.last());
        lemma_reserve_all_growth(table, parents.drop_last());
        lemma_reserve_free_count(before, parents.last());
        lemma_highest_free(before);
        if after.len() > before.len() {
            lemma_full_table(before);
        }
    }
}

/// A table without free slots has none to cut.
pub proof fn lemma_trim_full(table: Seq<Option<CommitId>>)
    requires
        free_count(table) == 0,
    ensures
        trim(table) == table,
{
}

/// The visit of a commit that is waited for, or of the first commit of
/// all, lengthens the table only when it has to: the longer table has no
/// free lane.
pub proof fn lemma_assign_growth(
    table: Seq<Option<CommitId>>,
    commit: CommitId,
    parents: Seq<CommitId>,
)
    requires
        distinct(table),
        is_pending(table, commit) || table.len() == 0,
    ensures
        assign(table, commit, parents).len() <= table.len() || free_count(
            assign(table, commit, parents),
        ) == 0,
{
    let lane = lane_for(table, commit);
    let cleared = vacate(table, commit);
    lemma_vacate(table, commit);
    let continued = continue_lane(cleared, lane, parents);
    let sources = merge_sources(parents);
    let reserved = reserve_all(continued, sources);
    lemma_reserve_all_growth(continued, sources);
    lemma_reserve_all_free_count(continued, sources);
    lemma_continue_lane(cleared, lane, parents);
    lemma_reserve_all(continued, sources);
    lemma_trim(reserved);
    if is_pending(table, commit) {
        if reserved.len() > continued.len() {
            lemma_trim_full(reserved);
        }
    } else {
        assert(cleared =~= seq![None]);
        assert(cleared.drop_last() =~= Seq::<Option<CommitId>>::empty());
        assert(free_count(cleared.drop_last()) == 0);
        assert(free_count(cleared) == 1);
        if parents.len() > 0 {
            assert(!is_pending(cleared, parents[0]));
            lemma_free_count_update(cleared, 0, Some(parents[0]));
            lemma_trim_full(reserved);
        } else {
            assert(sources.len() == 0);
            assert(reserved == cleared);
            assert(trim(cleared.drop_last()).len() == 0);
        }
    }
}

/// After a visit that starts from a table without free lanes, the table
/// is at most one longer than the number of commits that wait in it.
pub proof fn lemma_assign_length_bound(
    table: Seq<Option<CommitId>>,
    commit: CommitId,
    parents: Seq<CommitId>,
)
    requires
        distinct(table),
        free_count(table) == 0,
    ensures
        assign(table, commit, parents).len() <= pending_ids(assign(table, commit, parents)).len()
            + 1,
{
    lemma_assign_free_count(table, commit, parents);
    lemma_assign_well_formed(table, commit, parents);
    lemma_length_bound(assign(table, commit, parents));
}

/// A free slot with only occupied slots behind it is the one that
/// `highest_free` points at.
proof fn lemma_highest_free_is(table: Seq<Option<CommitId>>, i: int)
    requires
        0 <= i < table.len(),
        table[i] is None,
        forall|j: int| i < j < table.len() ==> (#[trigger] table[j]) is Some,
    ensures
        highest_free(table) == i,
{
    lemma_highest_free(table);
    let h = highest_free(table);
    if h < i {
        assert(table[i] is Some);
    } else if h > i {
        assert(table[h] is Some);
    }
}

/// The lane table of one traversal: for each lane the commit that is
/// expected next in it, if any.
#[derive(Debug)]
pub struct LaneManager {
    lanes: Vec<Option<CommitId>>,
}

impl View for LaneManager {
    type V = Seq<Option<CommitId>>;

    closed spec fn view(&self) -> Seq<Option<CommitId>> {
        self.lanes@
    }
}

impl Clone for LaneManager {
    fn clone(&self) -> (copy: Self)
        ensures
            copy@ == self@,
    {
        proof {
            use_type_invariant(self);
        }
        let mut lanes: Vec<Option<CommitId>> = Vec::new();
        let mut i: usize = 0;
        while i < self.lanes.len()
            invariant
                i <= self.lanes.len(),
                lanes@ == self.lanes@.take(i as int),
            decreases self.lanes.len() - i,
        {
            lanes.push(self.lanes[i]);
            assert(self.lanes@.take(i + 1) =~= self.lanes@.take(i as int).push(self.lanes@[i as int]));
            i += 1;
        }
        assert(self.lanes@.take(i as int) =~= self.lanes@);
        LaneManager { lanes }
    }
}

/// Whether `slot` waits for `id`.
fn holds(slot: &Option<CommitId>, id: &CommitId) -> (r: bool)
    ensures
        r == (*slot == Some(*id)),
{
    match slot {
        Some(waiting) => *waiting == *id,
        None => false,
    }
}

/// The first slot of `lanes` that waits for `id`.
fn find_slot(lanes: &Vec<Option<CommitId>>, id: &CommitId) -> (found: Option<usize>)
    ensures
        match found {
            Some(i) => i < lanes.len() && lanes@[i as int] == Some(*id),
            None => !is_pending(lanes@, *id),
        },
{
    let mut i: usize = 0;
    while i < lanes.len()
        invariant
            i <= lanes.len(),
            forall|j: int| 0 <= j < i ==> lanes@[j] != Some(*id),
        decreases lanes.len() - i,
    {
        if holds(&lanes[i], id) {
            return Some(i);
        }
        i += 1;
    }
    None
}

/// The last free slot of `lanes`.
fn find_free(lanes: &Vec<Option<CommitId>>) -> (found: Option<usize>)
    ensures
        match found {
            Some(i) => i < lanes.len() && i as int == highest_free(lanes@),
            None => highest_free(lanes@) == -1,
        },
{
    let mut i: usize = lanes.len();
    while i > 0
        invariant
            i <= lanes.len(),
            forall|j: int| i <= j < lanes.len() ==> (#[trigger] lanes@[j]) is Some,
        decreases i,
    {
        i -= 1;
        if lanes[i].is_none() {
            proof {
                lemma_highest_free_is(lanes@, i as int);
            }
            return Some(i);
        }
    }
    proof {
        lemma_highest_free(lanes@);
        if highest_free(lanes@) >= 0 {
            assert(lanes@[highest_free(lanes@)] is Some);
        }
    }
    None
}

/// Gives `parent` a slot of `lanes`, unless it waits in one already.
fn reserve_slot(lanes: &mut Vec<Option<CommitId>>, parent: &CommitId)
    ensures
        final(lanes)@ == reserve(old(lanes)@, *parent),
{
    if find_slot(lanes, parent).is_some() {
        return ;
    }
    match find_free(lanes) {
        Some(i) => {
            lanes[i] = Some(*parent);
        },
        None => {
            lanes.push(Some(*parent));
        },
    }
}

impl LaneManager {
    #[verifier::type_invariant]
    spec fn inv(self) -> bool {
        well_formed(self.lanes@)
    }

    /// A table without lanes.
    pub fn new() -> (manager: Self)
        ensures
            manager@ == Seq::<Option<CommitId>>::empty(),
    {
        Self { lanes: Vec::new() }
    }

    /// The lanes in order, each with the commit that it waits for.
    pub fn get_lanes(&self) -> (lanes: &[Option<CommitId>])
        ensures
            lanes@ == self@,
            well_formed(self@),
    {
        proof {
            use_type_invariant(self);
        }
        self.lanes.as_slice()
    }

    /// The lane in which `oid` waits, if it waits.
    pub fn lane_of(&self, oid: &CommitId) -> (lane: Option<usize>)
        ensures
            well_formed(self@),
            match lane {
                Some(i) => is_pending(self@, *oid) && i == lane_for(self@, *oid) && i < self@.len(),
                None => !is_pending(self@, *oid),
            },
    {
        proof {
            use_type_invariant(self);
        }
        let found = find_slot(&self.lanes, oid);
        proof {
            if let Some(i) = found {
                lemma_lane_for_unique(self@, *oid, i as int);
            }
        }
        found
    }

    /// Visits `commit_oid`: returns its lane, frees that lane, and makes
    /// each of `parent_oids` wait in a lane of its own.
    pub fn assign_commit(&mut self, commit_oid: &CommitId, parent_oids: &[CommitId]) -> (lane:
        usize)
        ensures
            well_formed(old(self)@),
            lane == lane_for(old(self)@, *commit_oid),
            final(self)@ == assign(old(self)@, *commit_oid, parent_oids@),
            well_formed(final(self)@),
    {
        proof {
            use_type_invariant(&*self);
        }
        let ghost before = self@;
        let mut lanes: Vec<Option<CommitId>> = Vec::new();
        std::mem::swap(&mut lanes, &mut self.lanes);
        proof {
            lemma_vacate(before, *commit_oid);
        }
        let lane = match find_slot(&lanes, commit_oid) {
            Some(i) => {
                proof {
                    lemma_lane_for_unique(before, *commit_oid, i as int);
                }
                lanes[i] = None;
                i
            },
            None => {
                lanes.push(None);
                lanes.len() - 1
            },
        };
        assert(lanes@ == vacate(before, *commit_oid));
        let ghost cleared = lanes@;
        if parent_oids.len() > 0 {
            let first = parent_oids[0];
            if find_slot(&lanes, &first).is_none() {
                lanes[lane] = Some(first);
            }
        }
        assert(lanes@ == continue_lane(cleared, lane as int, parent_oids@));
        let ghost continued = lanes@;
        let ghost sources = merge_sources(parent_oids@);
        let mut k: usize = 1;
        assert(sources.take(0) =~= Seq::<CommitId>::empty());
        while k < parent_oids.len()
            invariant
                1 <= k,
                parent_oids.len() > 0 ==> k <= parent_oids.len(),
                sources == merge_sources(parent_oids@),
                parent_oids.len() == 0 ==> lanes@ == reserve_all(continued, sources),
                parent_oids.len() > 0 ==> lanes@ == reserve_all(continued, sources.take(k - 1)),
            decreases parent_oids.len() - k,
        {
            proof {
                assert(sources.take(k as int).drop_last() =~= sources.take(k - 1));
                assert(sources.take(k as int).last() == parent_oids@[k as int]);
            }
            reserve_slot(&mut lanes, &parent_oids[k]);
            k += 1;
        }
        proof {
            if parent_oids.len() > 0 {
                assert(sources.take(k - 1) =~= sources);
            }
        }
        let ghost reserved = lanes@;
        while lanes.len() > 0 && lanes[lanes.len() - 1].is_none()
            invariant
                trim(lanes@) == trim(reserved),
            decreases lanes.len(),
        {
            lanes.pop();
        }
        proof {
            lemma_assign_well_formed(before, *commit_oid, parent_oids@);
        }
        self.lanes = lanes;
        lane
    }
}

} // verus!
