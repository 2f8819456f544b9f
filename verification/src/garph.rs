use vstd::prelude::*;
use crate::color::{
    ColorManager,
    ColorState,
    after_request,
    after_retiring,
    color_for,
    fresh,
    lemma_color_in_palette,
    lemma_retiring,
    valid,
};
use crate::commit::{CommitId, CommitNode};
use crate::edge::{Edge, EdgeManager};
use crate::history_oid::{HistoryOid, HistoryOidManager, with_entry};
use crate::lane::{
    LaneManager,
    already_waiting,
    assign,
    is_pending,
    lane_for,
    lemma_assign_first_parent,
    lemma_assign_growth,
    lemma_assign_keeps_other_lanes,
    lemma_assign_pending,
    lemma_assign_well_formed,
    lemma_lane_for_unique,
    lemma_pending_ids_counted,
    lemma_slots_counted,
    lemma_vacate,
    pending_ids,
    well_formed,
};
use crate::bezier::edge_between;
use crate::point::position_of;

verus! {

/// One step of a traversal: the commit that is visited, and its parents
/// in order.
pub struct Visit {
    pub oid: CommitId,
    pub parents: Seq<CommitId>,
}

/// The steps of the traversal that visits `nodes` in order.
pub open spec fn visits_of(nodes: Seq<CommitNode>) -> Seq<Visit> {
    Seq::new(nodes.len(), |k: int| Visit { oid: nodes[k].oid, parents: nodes[k].parents@ })
}

/// The last row in which `oid` is visited, or -1 when the traversal does
/// not visit it.
pub open spec fn last_row_of(visits: Seq<Visit>, oid: CommitId) -> int
    decreases visits.len(),
{
    if visits.len() == 0 {
        -1
    } else if visits.last().oid == oid {
        visits.len() - 1
    } else {
        last_row_of(visits.drop_last(), oid)
    }
}

/// Whether the traversal visits `oid`. A parent that it does not visit is
/// dangling.
pub open spec fn supplied(visits: Seq<Visit>, oid: CommitId) -> bool {
    last_row_of(visits, oid) >= 0
}

/// Those of `parents` that the traversal visits, in their order.
pub open spec fn supplied_parents(visits: Seq<Visit>, parents: Seq<CommitId>) -> Seq<CommitId>
    decreases parents.len(),
{
    if parents.len() == 0 {
        parents
    } else if supplied(visits, parents.last()) {
        supplied_parents(visits, parents.drop_last()).push(parents.last())
    } else {
        supplied_parents(visits, parents.drop_last())
    }
}

/// What a pass has found wrong with the commits it was given. Neither
/// stops the pass.
#[derive(Clone, Copy, Debug, PartialEq, Eq)]
pub enum LayoutReport {
    /// `parent` is named by `commit` but not visited by the traversal;
    /// it is given no lane, and `commit` is laid out without it.
    MalformedDag { commit: CommitId, parent: CommitId },
    /// `parent` had a lane already when `commit` asked for one for it;
    /// it stays in the lane it has.
    DuplicatePendingReservation { commit: CommitId, parent: CommitId },
}

/// What a pass carries from one commit to the next.
pub struct PassState {
    pub table: Seq<Option<CommitId>>,
    pub colors: ColorState,
    pub history: Map<CommitId, Seq<HistoryOid>>,
}

/// The state in which a pass over the palette `palette` starts: no lane,
/// no color handed out, and the history as it was left.
pub open spec fn start_of(palette: Seq<u32>, history: Map<CommitId, Seq<HistoryOid>>) -> PassState {
    PassState { table: Seq::empty(), colors: fresh(palette), history }
}

/// Lane, color and place of the commit `oid` when it is visited in row
/// `row` in the state `state`.
pub open spec fn placement(state: PassState, oid: CommitId, row: nat) -> HistoryOid {
    let lane = lane_for(state.table, oid);
    HistoryOid {
        point: position_of(lane as nat, row),
        color: color_for(state.colors, lane as usize) as usize,
        lane: lane as usize,
    }
}

/// The state after the visit of `oid` with the parents `parents` in row
/// `row`: the lanes are assigned, the lane of `oid` has its color, lanes
/// that are cut from the table lose theirs, and the placement is
/// recorded.
pub open spec fn step(state: PassState, oid: CommitId, parents: Seq<CommitId>, row: nat) -> PassState {
    let lane = lane_for(state.table, oid) as usize;
    let table = assign(state.table, oid, parents);
    PassState {
        table,
        colors: after_retiring(after_request(state.colors, lane), table.len()),
        history: with_entry(state.history, oid, placement(state, oid, row)),
    }
}

/// The state after the first `rows` visits of `visits`.
pub open spec fn state_after(visits: Seq<Visit>, start: PassState, rows: nat) -> PassState
    decreases rows,
{
    if rows == 0 {
        start
    } else {
        let row = (rows - 1) as nat;
        step(
            state_after(visits, start, row),
            visits[row as int].oid,
            supplied_parents(visits, visits[row as int].parents),
            row,
        )
    }
}

/// The placements of the first `rows` visits, in order.
pub open spec fn placements_upto(visits: Seq<Visit>, start: PassState, rows: nat) -> Seq<HistoryOid>
    decreases rows,
{
    if rows == 0 {
        Seq::empty()
    } else {
        let row = (rows - 1) as nat;
        placements_upto(visits, start, row).push(
            placement(state_after(visits, start, row), visits[row as int].oid, row),
        )
    }
}

/// The reports on the first `upto` parents of the visit in row `row`,
/// which starts with the lane table `table`.
pub open spec fn row_reports(
    table: Seq<Option<CommitId>>,
    visits: Seq<Visit>,
    row: int,
    upto: nat,
) -> Seq<LayoutReport>
    decreases upto,
{
    if upto == 0 {
        Seq::empty()
    } else {
        let earlier = row_reports(table, visits, row, (upto - 1) as nat);
        let commit = visits[row].oid;
        let parent = visits[row].parents[upto - 1];
        if !supplied(visits, parent) {
            earlier.push(LayoutReport::MalformedDag { commit, parent })
        } else if already_waiting(
            table,
            commit,
            supplied_parents(visits, visits[row].parents.take(upto - 1)),
            parent,
        ) {
            earlier.push(LayoutReport::DuplicatePendingReservation { commit, parent })
        } else {
            earlier
        }
    }
}

/// The reports of the first `rows` visits, in order.
pub open spec fn reports_upto(visits: Seq<Visit>, start: PassState, rows: nat) -> Seq<LayoutReport>
    decreases rows,
{
    if rows == 0 {
        Seq::empty()
    } else {
        let row = (rows - 1) as nat;
        reports_upto(visits, start, row) + row_reports(
            state_after(visits, start, row).table,
            visits,
            row as int,
            visits[row as int].parents.len(),
        )
    }
}

/// The edges from the commit of row `row` to the first `upto` of its
/// parents: one to each parent that the traversal visits, ending where
/// that parent is placed when it is visited last.
pub open spec fn row_edges(
    visits: Seq<Visit>,
    placements: Seq<HistoryOid>,
    row: int,
    upto: nat,
) -> Seq<Edge>
    decreases upto,
{
    if upto == 0 {
        Seq::empty()
    } else {
        let earlier = row_edges(visits, placements, row, (upto - 1) as nat);
        let parent = visits[row].parents[upto - 1];
        if supplied(visits, parent) {
            earlier.push(
                Edge {
                    from: placements[row].point,
                    to: placements[last_row_of(visits, parent)].point,
                },
            )
        } else {
            earlier
        }
    }
}

/// The edges of the first `rows` visits, in order.
pub open spec fn edges_upto(visits: Seq<Visit>, placements: Seq<HistoryOid>, rows: nat) -> Seq<Edge>
    decreases rows,
{
    if rows == 0 {
        Seq::empty()
    } else {
        let row = (rows - 1) as nat;
        edges_upto(visits, placements, row) + row_edges(
            visits,
            placements,
            row as int,
            visits[row as int].parents.len(),
        )
    }
}

/// Where `last_row_of` points: at the last visit of `oid`, or nowhere.
pub proof fn lemma_last_row_of(visits: Seq<Visit>, oid: CommitId)
    ensures
        -1 <= last_row_of(visits, oid) < visits.len(),
        last_row_of(visits, oid) >= 0 ==> visits[last_row_of(visits, oid)].oid == oid,
        forall|k: int| last_row_of(visits, oid) < k < visits.len() ==> (#[trigger] visits[k]).oid != oid,
    decreases visits.len(),
{
    if visits.len() > 0 && visits.last().oid != oid {
        let shorter = visits.drop_last();
        lemma_last_row_of(shorter, oid);
        assert forall|k: int| last_row_of(visits, oid) < k < visits.len() implies (
        #[trigger] visits[k]).oid != oid by {
            if k < shorter.len() {
                assert(shorter[k].oid != oid);
            }
        }
    }
}

/// Those of `parents` that the traversal visits are the ones that are
/// visited, and no others.
pub proof fn lemma_supplied_parents(visits: Seq<Visit>, parents: Seq<CommitId>, oid: CommitId)
    ensures
        supplied_parents(visits, parents).contains(oid) <==> parents.contains(oid) && supplied(
            visits,
            oid,
        ),
    decreases parents.len(),
{
    if parents.len() > 0 {
        let shorter = parents.drop_last();
        lemma_supplied_parents(visits, shorter, oid);
        let kept = supplied_parents(visits, shorter);
        if parents.contains(oid) {
            let k = choose|k: int| 0 <= k < parents.len() && parents[k] == oid;
            if k < shorter.len() {
                assert(shorter[k] == oid);
            }
        }
        if shorter.contains(oid) {
            let k = choose|k: int| 0 <= k < shorter.len() && shorter[k] == oid;
            assert(parents[k] == oid);
        }
        if supplied(visits, parents.last()) {
            let all = kept.push(parents.last());
            if all.contains(oid) {
                let k = choose|k: int| 0 <= k < all.len() && all[k] == oid;
                if k < kept.len() {
                    assert(kept[k] == oid);
                } else {
                    assert(parents[parents.len() - 1] == oid);
                }
            }
            if kept.contains(oid) {
                let k = choose|k: int| 0 <= k < kept.len() && kept[k] == oid;
                assert(all[k] == oid);
            }
            if oid == parents.last() {
                assert(all[kept.len() as int] == oid);
                assert(parents[parents.len() - 1] == oid);
            }
        }
    }
}

/// What holds of the state of a pass: no commit waits in two lanes, the
/// table ends with its last occupied lane, the colors are those of the
/// palette, and only lanes of the table have one.
pub open spec fn sound(state: PassState) -> bool {
    &&& well_formed(state.table)
    &&& valid(state.colors)
    &&& forall|lane: usize| #[trigger]
        state.colors.assigned.contains_key(lane) ==> lane < state.table.len()
}

/// A visit leaves a sound state sound, keeps the palette, and places the
/// commit in a lane of the table, or the one behind its last, with a
/// color of the palette.
pub proof fn lemma_step_sound(state: PassState, oid: CommitId, parents: Seq<CommitId>, row: nat)
    requires
        sound(state),
    ensures
        sound(step(state, oid, parents, row)),
        step(state, oid, parents, row).colors.palette == state.colors.palette,
        placement(state, oid, row).lane <= state.table.len(),
        1 <= placement(state, oid, row).color <= state.colors.palette.len(),
{
    let lane = lane_for(state.table, oid) as usize;
    lemma_vacate(state.table, oid);
    lemma_assign_well_formed(state.table, oid, parents);
    lemma_color_in_palette(state.colors, lane);
    let requested = after_request(state.colors, lane);
    let table = assign(state.table, oid, parents);
    assert forall|other: usize| #[trigger]
        after_retiring(requested, table.len()).assigned.contains_key(other) implies other
        < table.len() by {
        lemma_retiring(requested, table.len(), other);
    }
    lemma_retiring(requested, table.len(), lane);
}

/// Every state of a pass that starts sound is sound, and has the palette
/// that the pass started with.
pub proof fn lemma_pass_sound(visits: Seq<Visit>, start: PassState, rows: nat)
    requires
        sound(start),
    ensures
        sound(state_after(visits, start, rows)),
        state_after(visits, start, rows).colors.palette == start.colors.palette,
    decreases rows,
{
    if rows > 0 {
        let row = (rows - 1) as nat;
        lemma_pass_sound(visits, start, row);
        lemma_step_sound(
            state_after(visits, start, row),
            visits[row as int].oid,
            supplied_parents(visits, visits[row as int].parents),
            row,
        );
    }
}

/// Every commit of a pass is placed in the row of its visit, in a lane
/// that the table had or the one behind its last, with a color of the
/// palette, never 0.
pub proof fn lemma_placements_in_range(visits: Seq<Visit>, start: PassState, rows: nat, row: int)
    requires
        sound(start),
        0 <= row < rows,
    ensures
        placements_upto(visits, start, rows)[row] == placement(
            state_after(visits, start, row as nat),
            visits[row].oid,
            row as nat,
        ),
        placements_upto(visits, start, rows)[row].lane <= state_after(
            visits,
            start,
            row as nat,
        ).table.len(),
        1 <= placements_upto(visits, start, rows)[row].color <= start.colors.palette.len(),
    decreases rows,
{
    lemma_placements_len(visits, start, (rows - 1) as nat);
    if row < rows - 1 {
        lemma_placements_in_range(visits, start, (rows - 1) as nat, row);
    } else {
        lemma_pass_sound(visits, start, row as nat);
        lemma_step_sound(
            state_after(visits, start, row as nat),
            visits[row].oid,
            supplied_parents(visits, visits[row].parents),
            row as nat,
        );
    }
}

/// Whether every commit of the traversal is visited after all the commits
/// that name it as a parent.
pub open spec fn children_first(visits: Seq<Visit>) -> bool {
    forall|child: int, parent: int|
        0 <= child < visits.len() && 0 <= parent < visits.len() && (
        #[trigger] visits[child]).parents.contains((#[trigger] visits[parent]).oid) ==> child
            < parent
}

/// Whether the visit in row `row` asks for a lane for `oid`.
pub open spec fn references(visits: Seq<Visit>, row: int, oid: CommitId) -> bool {
    supplied_parents(visits, visits[row].parents).contains(oid)
}

/// Whether one of the first `rows` visits asks for a lane for `oid`.
pub open spec fn referenced_before(visits: Seq<Visit>, rows: nat, oid: CommitId) -> bool {
    exists|row: int| 0 <= row < rows && #[trigger] references(visits, row, oid)
}

/// Whether one of the first `rows` visits is that of `oid`.
pub open spec fn visited_before(visits: Seq<Visit>, rows: nat, oid: CommitId) -> bool {
    exists|row: int| 0 <= row < rows && (#[trigger] visits[row]).oid == oid
}

/// In a traversal that visits children first, a commit waits in a lane
/// exactly from the first visit of a child of it until its own visit.
pub proof fn lemma_waits_until_visited(
    visits: Seq<Visit>,
    start: PassState,
    rows: nat,
    oid: CommitId,
)
    requires
        children_first(visits),
        sound(start),
        start.table.len() == 0,
        rows <= visits.len(),
    ensures
        is_pending(state_after(visits, start, rows).table, oid) <==> referenced_before(
            visits,
            rows,
            oid,
        ) && !visited_before(visits, rows, oid),
    decreases rows,
{
    if rows > 0 {
        let row = (rows - 1) as nat;
        let before = state_after(visits, start, row);
        let visited = visits[row as int].oid;
        let asked = supplied_parents(visits, visits[row as int].parents);
        lemma_waits_until_visited(visits, start, row, oid);
        lemma_pass_sound(visits, start, row);
        lemma_assign_pending(before.table, visited, asked);
        lemma_supplied_parents(visits, visits[row as int].parents, oid);
        if asked.contains(oid) {
            assert(references(visits, row as int, oid));
            if visited_before(visits, rows, oid) {
                let r = choose|r: int| 0 <= r < rows && (#[trigger] visits[r]).oid == oid;
                assert(visits[row as int].parents.contains(visits[r].oid));
            }
        }
        if is_pending(before.table, oid) && oid != visited {
            let r = choose|r: int| 0 <= r < row && #[trigger] references(visits, r, oid);
            assert(references(visits, r, oid));
            if visited_before(visits, rows, oid) {
                let v = choose|v: int| 0 <= v < rows && (#[trigger] visits[v]).oid == oid;
                assert(visits[v].oid == oid);
                assert(v < row);
            }
        }
        if referenced_before(visits, rows, oid) && !visited_before(visits, rows, oid) {
            let r = choose|r: int| 0 <= r < rows && #[trigger] references(visits, r, oid);
            assert(visits[row as int].oid != oid);
            if r < row {
                assert(references(visits, r, oid));
                if visited_before(visits, row, oid) {
                    let v = choose|v: int| 0 <= v < row && (#[trigger] visits[v]).oid == oid;
                    assert(visits[v].oid == oid);
                }
            }
        }
    } else {
        if is_pending(start.table, oid) {
            let i = choose|i: int| 0 <= i < start.table.len() && start.table[i] == Some(oid);
        }
    }
}

/// A pass over a traversal that visits children first ends with no lane
/// left: every commit that was waited for has been visited.
pub proof fn lemma_pass_ends_empty(visits: Seq<Visit>, start: PassState)
    requires
        children_first(visits),
        sound(start),
        start.table.len() == 0,
    ensures
        state_after(visits, start, visits.len()).table.len() == 0,
{
    let end = state_after(visits, start, visits.len());
    lemma_pass_sound(visits, start, visits.len());
    if end.table.len() > 0 {
        let oid = end.table.last()->0;
        assert(end.table[end.table.len() - 1] == Some(oid));
        assert(is_pending(end.table, oid));
        lemma_waits_until_visited(visits, start, visits.len(), oid);
        let r = choose|r: int| 0 <= r < visits.len() && #[trigger] references(visits, r, oid);
        lemma_supplied_parents(visits, visits[r].parents, oid);
        lemma_last_row_of(visits, oid);
        let v = last_row_of(visits, oid);
        assert(visits[v].oid == oid);
    }
}

/// A pass over a palette of two colors or more starts sound.
pub proof fn lemma_start_sound(palette: Seq<u32>, history: Map<CommitId, Seq<HistoryOid>>)
    requires
        2 <= palette.len() <= usize::MAX,
    ensures
        sound(start_of(palette, history)),
        start_of(palette, history).table.len() == 0,
{
}

/// The reports on a visit hold a `MalformedDag` for a parent exactly when
/// the visit names it and the traversal does not visit it.
pub proof fn lemma_row_reports_dangling(
    table: Seq<Option<CommitId>>,
    visits: Seq<Visit>,
    row: int,
    upto: nat,
    parent: CommitId,
)
    requires
        upto <= visits[row].parents.len(),
    ensures
        row_reports(table, visits, row, upto).contains(
            LayoutReport::MalformedDag { commit: visits[row].oid, parent },
        ) <==> visits[row].parents.take(upto as int).contains(parent) && !supplied(visits, parent),
        forall|commit: CommitId, other: CommitId| #[trigger]
            row_reports(table, visits, row, upto).contains(
                LayoutReport::MalformedDag { commit, parent: other },
            ) ==> commit == visits[row].oid,
    decreases upto,
{
    let named = visits[row].parents.take(upto as int);
    let reports = row_reports(table, visits, row, upto);
    let wanted = LayoutReport::MalformedDag { commit: visits[row].oid, parent };
    if upto == 0 {
        assert(named.len() == 0);
        assert(reports.len() == 0);
    } else {
        let earlier = row_reports(table, visits, row, (upto - 1) as nat);
        let named_earlier = visits[row].parents.take(upto - 1);
        let last = visits[row].parents[upto - 1];
        lemma_row_reports_dangling(table, visits, row, (upto - 1) as nat, parent);
        assert(named_earlier =~= named.drop_last());
        assert(named.last() == last);
        if named.contains(parent) {
            let k = choose|k: int| 0 <= k < named.len() && named[k] == parent;
            if k < named.len() - 1 {
                assert(named_earlier[k] == parent);
            }
        }
        if named_earlier.contains(parent) {
            let k = choose|k: int| 0 <= k < named_earlier.len() && named_earlier[k] == parent;
            assert(named[k] == parent);
        }
        if earlier.contains(wanted) {
            let k = choose|k: int| 0 <= k < earlier.len() && earlier[k] == wanted;
            assert(reports[k] == wanted);
        }
        if reports.contains(wanted) && !earlier.contains(wanted) {
            let k = choose|k: int| 0 <= k < reports.len() && reports[k] == wanted;
            if k < earlier.len() {
                assert(earlier[k] == wanted);
            }
            assert(last == parent);
        }
        if last == parent && !supplied(visits, parent) {
            assert(reports[earlier.len() as int] == wanted);
            assert(named[upto - 1] == parent);
        }
        assert forall|commit: CommitId, other: CommitId| #[trigger]
            reports.contains(LayoutReport::MalformedDag { commit, parent: other }) implies commit
            == visits[row].oid by {
            let report = LayoutReport::MalformedDag { commit, parent: other };
            let k = choose|k: int| 0 <= k < reports.len() && reports[k] == report;
            if k < earlier.len() {
                assert(earlier[k] == report);
                assert(earlier.contains(report));
            }
        }
    }
}

/// A parent that the traversal does not visit is reported as dangling by
/// the visit that names it.
pub proof fn lemma_dangling_parent_is_reported(
    visits: Seq<Visit>,
    start: PassState,
    rows: nat,
    row: int,
    parent: CommitId,
)
    requires
        0 <= row < rows,
        visits[row].parents.contains(parent),
        !supplied(visits, parent),
    ensures
        reports_upto(visits, start, rows).contains(
            LayoutReport::MalformedDag { commit: visits[row].oid, parent },
        ),
    decreases rows,
{
    let wanted = LayoutReport::MalformedDag { commit: visits[row].oid, parent };
    let last = (rows - 1) as nat;
    let before = reports_upto(visits, start, last);
    let here = row_reports(
        state_after(visits, start, last).table,
        visits,
        last as int,
        visits[last as int].parents.len(),
    );
    if row < rows - 1 {
        lemma_dangling_parent_is_reported(visits, start, last, row, parent);
        let k = choose|k: int| 0 <= k < before.len() && before[k] == wanted;
        assert((before + here)[k] == wanted);
    } else {
        lemma_row_reports_dangling(
            state_after(visits, start, last).table,
            visits,
            row,
            visits[row].parents.len(),
            parent,
        );
        assert(visits[row].parents.take(visits[row].parents.len() as int) =~= visits[row].parents);
        let k = choose|k: int| 0 <= k < here.len() && here[k] == wanted;
        assert((before + here)[before.len() + k] == wanted);
    }
}

/// Only a parent that the traversal does not visit is reported as
/// dangling.
pub proof fn lemma_reported_parent_is_dangling(
    visits: Seq<Visit>,
    start: PassState,
    rows: nat,
    commit: CommitId,
    parent: CommitId,
)
    requires
        rows <= visits.len(),
        reports_upto(visits, start, rows).contains(LayoutReport::MalformedDag { commit, parent }),
    ensures
        !supplied(visits, parent),
    decreases rows,
{
    let wanted = LayoutReport::MalformedDag { commit, parent };
    if rows > 0 {
        let last = (rows - 1) as nat;
        let before = reports_upto(visits, start, last);
        let table = state_after(visits, start, last).table;
        let here = row_reports(table, visits, last as int, visits[last as int].parents.len());
        let all = before + here;
        let k = choose|k: int| 0 <= k < all.len() && all[k] == wanted;
        if k < before.len() {
            assert(before[k] == wanted);
            lemma_reported_parent_is_dangling(visits, start, last, commit, parent);
        } else {
            assert(here[k - before.len()] == wanted);
            assert(here.contains(wanted));
            lemma_row_reports_dangling(
                table,
                visits,
                last as int,
                visits[last as int].parents.len(),
                parent,
            );
        }
    } else {
        let none = reports_upto(visits, start, rows);
        let k = choose|k: int| 0 <= k < none.len() && none[k] == wanted;
    }
}

/// A commit that is asked for as a first parent, and has no lane yet,
/// takes over the lane of its child, keeps it whatever is visited in
/// between, and is placed in it: in the column of its child, so that the
/// edge between the two is straight.
pub proof fn lemma_first_parent_inherits_lane(
    visits: Seq<Visit>,
    start: PassState,
    child: int,
    parent: int,
)
    requires
        sound(start),
        0 <= child < parent < visits.len(),
        supplied_parents(visits, visits[child].parents).len() > 0,
        supplied_parents(visits, visits[child].parents)[0] == visits[parent].oid,
        visits[child].oid == visits[parent].oid || !is_pending(
            state_after(visits, start, child as nat).table,
            visits[parent].oid,
        ),
        forall|between: int| child < between < parent ==> (#[trigger] visits[between]).oid
            != visits[parent].oid,
    ensures
        placement(
            state_after(visits, start, parent as nat),
            visits[parent].oid,
            parent as nat,
        ).lane == placement(
            state_after(visits, start, child as nat),
            visits[child].oid,
            child as nat,
        ).lane,
        edge_between(
            placement(
                state_after(visits, start, parent as nat),
                visits[parent].oid,
                parent as nat,
            ).point,
            placement(
                state_after(visits, start, child as nat),
                visits[child].oid,
                child as nat,
            ).point,
        ) is Line,
{
    let oid = visits[parent].oid;
    let at_child = state_after(visits, start, child as nat);
    let lane = lane_for(at_child.table, visits[child].oid);
    lemma_pass_sound(visits, start, child as nat);
    lemma_vacate(at_child.table, visits[child].oid);
    lemma_keeps_lane_until(visits, start, child, parent, lane);
    let at_parent = state_after(visits, start, parent as nat);
    lemma_pass_sound(visits, start, parent as nat);
    lemma_lane_for_unique(at_parent.table, oid, lane);
}

/// From the visit after `child` to that of `parent`, the commit visited
/// in row `parent` waits in the lane `lane` that it took over.
proof fn lemma_keeps_lane_until(
    visits: Seq<Visit>,
    start: PassState,
    child: int,
    upto: int,
    lane: int,
)
    requires
        sound(start),
        0 <= child < upto < visits.len(),
        lane == lane_for(state_after(visits, start, child as nat).table, visits[child].oid),
        supplied_parents(visits, visits[child].parents).len() > 0,
        visits[child].oid == supplied_parents(visits, visits[child].parents)[0] || !is_pending(
            state_after(visits, start, child as nat).table,
            supplied_parents(visits, visits[child].parents)[0],
        ),
        forall|between: int| child < between < upto ==> (#[trigger] visits[between]).oid
            != supplied_parents(visits, visits[child].parents)[0],
    ensures
        0 <= lane < state_after(visits, start, upto as nat).table.len(),
        state_after(visits, start, upto as nat).table[lane] == Some(
            supplied_parents(visits, visits[child].parents)[0],
        ),
    decreases upto - child,
{
    let oid = supplied_parents(visits, visits[child].parents)[0];
    let before = state_after(visits, start, (upto - 1) as nat);
    lemma_pass_sound(visits, start, (upto - 1) as nat);
    let asked = supplied_parents(visits, visits[upto - 1].parents);
    if upto - 1 == child {
        lemma_vacate(before.table, visits[child].oid);
        lemma_assign_first_parent(before.table, visits[child].oid, asked);
    } else {
        lemma_keeps_lane_until(visits, start, child, upto - 1, lane);
        assert(visits[upto - 1].oid != oid);
        lemma_assign_keeps_other_lanes(before.table, visits[upto - 1].oid, asked);
        assert(before.table[lane] is Some);
    }
}

/// The largest number of commits that waited at one time, from the start
/// of the pass to the end of its first `rows` visits.
pub open spec fn most_waiting(visits: Seq<Visit>, start: PassState, rows: nat) -> nat
    decreases rows,
{
    let now = pending_ids(state_after(visits, start, rows).table).len();
    if rows == 0 {
        now
    } else if most_waiting(visits, start, (rows - 1) as nat) >= now {
        most_waiting(visits, start, (rows - 1) as nat)
    } else {
        now
    }
}

/// Whether the first `rows` visits have one head: every commit but the
/// first is waited for when its turn comes.
pub open spec fn one_head(visits: Seq<Visit>, start: PassState, rows: nat) -> bool {
    forall|row: int|
        1 <= row < rows ==> is_pending(
            state_after(visits, start, row as nat).table,
            (#[trigger] visits[row]).oid,
        )
}

/// In a pass with one head, from an empty table, the table is never
/// longer than the largest number of commits that waited at one time so
/// far.
///
/// This does not hold of every pass. A commit that nothing waits for is
/// given a new lane behind the last, also where lanes between others have
/// ended and are free; so a pass with several heads can have more lanes
/// than commits ever waited at once. One such pass: a merge of three
/// parents, then the ends of the lanes of two of them, then two more
/// heads with one parent each, which leaves five lanes though no more
/// than three commits waited at any time.
pub proof fn lemma_length_within_most_waiting(visits: Seq<Visit>, start: PassState, rows: nat)
    requires
        sound(start),
        start.table.len() == 0,
        one_head(visits, start, rows),
    ensures
        state_after(visits, start, rows).table.len() <= most_waiting(visits, start, rows),
    decreases rows,
{
    if rows > 0 {
        let row = (rows - 1) as nat;
        let before = state_after(visits, start, row);
        let after = state_after(visits, start, rows);
        let asked = supplied_parents(visits, visits[row as int].parents);
        assert(one_head(visits, start, row));
        lemma_length_within_most_waiting(visits, start, row);
        lemma_pass_sound(visits, start, row);
        lemma_pass_sound(visits, start, rows);
        if row > 0 {
            assert(is_pending(before.table, visits[row as int].oid));
        }
        lemma_assign_growth(before.table, visits[row as int].oid, asked);
        if after.table.len() > before.table.len() {
            lemma_slots_counted(after.table);
            lemma_pending_ids_counted(after.table);
        }
    }
}

/// A visit of `oid` with no visit of it behind is the one that
/// `last_row_of` points at.
proof fn lemma_last_row_is(visits: Seq<Visit>, oid: CommitId, row: int)
    requires
        0 <= row < visits.len(),
        visits[row].oid == oid,
        forall|k: int| row < k < visits.len() ==> (#[trigger] visits[k]).oid != oid,
    ensures
        last_row_of(visits, oid) == row,
{
    lemma_last_row_of(visits, oid);
    let found = last_row_of(visits, oid);
    if found < row {
        assert(visits[row].oid != oid);
    } else if found > row {
        assert(visits[found].oid != oid);
    }
}

/// There are as many placements as visits.
pub proof fn lemma_placements_len(visits: Seq<Visit>, start: PassState, rows: nat)
    ensures
        placements_upto(visits, start, rows).len() == rows,
    decreases rows,
{
    if rows > 0 {
        lemma_placements_len(visits, start, (rows - 1) as nat);
    }
}

/// The graph that is drawn: the commits in the order of the traversal,
/// and the edges between them.
#[derive(Debug, Clone)]
pub struct Garph {
    pub nodes: Vec<CommitNode>,
    pub edge_manager: EdgeManager,
}

/// What a pass hands back beside the graph: the placement of each commit,
/// in the order of the traversal, and what it found wrong.
#[derive(Debug)]
pub struct LayoutOutcome {
    pub placements: Vec<HistoryOid>,
    pub reports: Vec<LayoutReport>,
}

/// The last row of `nodes` that holds the commit `oid`.
fn find_last_row(nodes: &Vec<CommitNode>, oid: &CommitId) -> (found: Option<usize>)
    ensures
        match found {
            Some(row) => row < nodes.len() && row as int == last_row_of(visits_of(nodes@), *oid),
            None => !supplied(visits_of(nodes@), *oid),
        },
{
    let ghost visits = visits_of(nodes@);
    let mut i: usize = nodes.len();
    while i > 0
        invariant
            i <= nodes.len(),
            visits == visits_of(nodes@),
            forall|k: int| i <= k < visits.len() ==> (#[trigger] visits[k]).oid != *oid,
        decreases i,
    {
        i -= 1;
        if nodes[i].oid == *oid {
            proof {
                lemma_last_row_is(visits, *oid, i as int);
            }
            return Some(i);
        }
    }
    proof {
        lemma_last_row_of(visits, *oid);
        if last_row_of(visits, *oid) >= 0 {
            assert(visits[last_row_of(visits, *oid)].oid != *oid);
        }
    }
    None
}

/// Whether `oid` is one of `ids`.
fn contains_id(ids: &Vec<CommitId>, oid: &CommitId) -> (found: bool)
    ensures
        found == ids@.contains(*oid),
{
    let mut i: usize = 0;
    while i < ids.len()
        invariant
            i <= ids.len(),
            forall|k: int| 0 <= k < i ==> ids@[k] != *oid,
        decreases ids.len() - i,
    {
        if ids[i] == *oid {
            return true;
        }
        i += 1;
    }
    false
}

/// Retires every lane from `from` on, where no lane from `to` on has a
/// color but, possibly, `lane`.
fn retire_lanes(colors: &mut ColorManager, from: usize, to: usize, lane: usize)
    requires
        valid(old(colors)@),
        forall|other: usize| #[trigger]
            old(colors)@.assigned.contains_key(other) ==> other < to || other == lane,
    ensures
        final(colors)@ == after_retiring(old(colors)@, from as nat),
        valid(final(colors)@),
{
    let ghost before = colors@;
    let mut i: usize = from;
    while i < to
        invariant
            from <= i,
            valid(colors@),
            colors@.counter == before.counter,
            colors@.palette == before.palette,
            forall|other: usize| #[trigger]
                colors@.assigned.contains_key(other) <==> before.assigned.contains_key(other) && !(
                from <= other < i),
            forall|other: usize| #[trigger]
                colors@.assigned.contains_key(other) ==> colors@.assigned[other]
                    == before.assigned[other],
        decreases to - i,
    {
        colors.remove_lane_color(&i);
        i += 1;
    }
    if lane >= from {
        colors.remove_lane_color(&lane);
    }
    assert(colors@.assigned =~= before.assigned.restrict(Set::new(|other: usize| other < from)));
}

impl Garph {
    /// The graph of these nodes and edges.
    pub fn new(nodes: Vec<CommitNode>, edge_manager: EdgeManager) -> (garph: Self)
        ensures
            garph.nodes == nodes,
            garph.edge_manager == edge_manager,
    {
        Garph { nodes, edge_manager }
    }

    /// Lays the graph out in one pass over its nodes, which stand in the
    /// order of the traversal, children before their parents.
    ///
    /// Each commit in turn is given its lane, the color of that lane and
    /// its place, which is written to the node and recorded in `history`.
    /// A parent that is not among the nodes is reported and left out; a
    /// parent that has a lane already is reported and stays where it is.
    /// The edges are built anew: one from each commit to each of its
    /// parents among the nodes.
    pub fn layout(&mut self, palette: Vec<u32>, history: &mut HistoryOidManager) -> (outcome:
        LayoutOutcome)
        requires
            palette@.len() >= 2,
        ensures
            ({
                let visits = visits_of(old(self).nodes@);
                let start = start_of(palette@, old(history)@);
                let rows = old(self).nodes@.len();
                &&& outcome.placements@ == placements_upto(visits, start, rows)
                &&& outcome.reports@ == reports_upto(visits, start, rows)
                &&& final(history)@ == state_after(visits, start, rows).history
                &&& final(self).nodes@.len() == rows
                &&& forall|k: int|
                    0 <= k < rows ==> (#[trigger] final(self).nodes@[k]) == (CommitNode {
                        position: outcome.placements@[k].point,
                        ..old(self).nodes@[k]
                    })
                &&& final(self).edge_manager.edges@ == edges_upto(visits, outcome.placements@, rows)
            }),
    {
        let ghost old_nodes = self.nodes@;
        let ghost visits = visits_of(old_nodes);
        let ghost start = start_of(palette@, history@);
        let n = self.nodes.len();
        let mut lanes = LaneManager::new();
        let mut colors = ColorManager::new(palette);
        let mut placements: Vec<HistoryOid> = Vec::new();
        let mut reports: Vec<LayoutReport> = Vec::new();
        let mut k: usize = 0;
        while k < n
            invariant
                k <= n,
                n == old_nodes.len(),
                self.nodes@.len() == n,
                visits == visits_of(old_nodes),
                visits_of(self.nodes@) == visits,
                forall|j: int|
                    0 <= j < k ==> (#[trigger] self.nodes@[j]) == (CommitNode {
                        position: placements@[j].point,
                        ..old_nodes[j]
                    }),
                forall|j: int| k <= j < n ==> (#[trigger] self.nodes@[j]) == old_nodes[j],
                lanes@ == state_after(visits, start, k as nat).table,
                colors@ == state_after(visits, start, k as nat).colors,
                history@ == state_after(visits, start, k as nat).history,
                placements@ == placements_upto(visits, start, k as nat),
                placements@.len() == k,
                reports@ == reports_upto(visits, start, k as nat),
                valid(colors@),
                forall|lane: usize| #[trigger]
                    colors@.assigned.contains_key(lane) ==> lane < lanes@.len(),
            decreases n - k,
        {
            let oid = self.nodes[k].oid;
            let ghost state = state_after(visits, start, k as nat);
            let ghost parents = visits[k as int].parents;
            let ghost reported = reports@;
            let mut kept: Vec<CommitId> = Vec::new();
            let count = self.nodes[k].parents.len();
            let mut j: usize = 0;
            while j < count
                invariant
                    j <= count,
                    count == parents.len(),
                    k < n,
                    self.nodes@.len() == n,
                    visits_of(self.nodes@) == visits,
                    parents == visits[k as int].parents,
                    parents == self.nodes@[k as int].parents@,
                    oid == visits[k as int].oid,
                    lanes@ == state.table,
                    kept@ == supplied_parents(visits, parents.take(j as int)),
                    reports@ == reported + row_reports(state.table, visits, k as int, j as nat),
                decreases count - j,
            {
                let parent = self.nodes[k].parents[j];
                proof {
                    assert(parents.take(j + 1).drop_last() =~= parents.take(j as int));
                    assert(parents.take(j + 1).last() == parent);
                }
                let ghost row_so_far = row_reports(state.table, visits, k as int, j as nat);
                match find_last_row(&self.nodes, &parent) {
                    None => {
                        let report = LayoutReport::MalformedDag { commit: oid, parent };
                        reports.push(report);
                        assert(reports@ =~= reported + row_so_far.push(report));
                    },
                    Some(_) => {
                        let waiting = match lanes.lane_of(&parent) {
                            Some(_) => !(parent == oid),
                            None => false,
                        };
                        if waiting || contains_id(&kept, &parent) {
                            let report = LayoutReport::DuplicatePendingReservation {
                                commit: oid,
                                parent,
                            };
                            reports.push(report);
                            assert(reports@ =~= reported + row_so_far.push(report));
                        }
                        kept.push(parent);
                    },
                }
                j += 1;
            }
            proof {
                assert(parents.take(count as int) =~= parents);
            }
            let before_len = lanes.get_lanes().len();
            let lane = lanes.assign_commit(&oid, kept.as_slice());
            let color = colors.get_color(&lane);
            retire_lanes(&mut colors, lanes.get_lanes().len(), before_len, lane);
            let point = history.resolve(oid, lane, color, k);
            placements.push(HistoryOid::new(point, color, lane));
            self.nodes[k].position = point;
            proof {
                assert(visits_of(self.nodes@) =~= visits);
            }
            k += 1;
        }
        let mut edges = EdgeManager::new();
        let mut k: usize = 0;
        while k < n
            invariant
                k <= n,
                self.nodes@.len() == n,
                placements@.len() == n,
                visits_of(self.nodes@) == visits,
                edges.edges@ == edges_upto(visits, placements@, k as nat),
            decreases n - k,
        {
            let ghost drawn = edges.edges@;
            let ghost parents = visits[k as int].parents;
            let count = self.nodes[k].parents.len();
            let mut j: usize = 0;
            while j < count
                invariant
                    j <= count,
                    count == parents.len(),
                    k < n,
                    self.nodes@.len() == n,
                    placements@.len() == n,
                    visits_of(self.nodes@) == visits,
                    parents == visits[k as int].parents,
                    parents == self.nodes@[k as int].parents@,
                    edges.edges@ == drawn + row_edges(visits, placements@, k as int, j as nat),
                decreases count - j,
            {
                let parent = self.nodes[k].parents[j];
                let ghost row_so_far = row_edges(visits, placements@, k as int, j as nat);
                match find_last_row(&self.nodes, &parent) {
                    Some(row) => {
                        edges.add(placements[k].point, placements[row].point);
                        assert(edges.edges@ =~= drawn + row_so_far.push(
                            Edge { from: placements@[k as int].point, to: placements@[row as int].point },
                        ));
                    },
                    None => {},
                }
                j += 1;
            }
            k += 1;
        }
        self.edge_manager = edges;
        LayoutOutcome { placements, reports }
    }
}

} // verus!
