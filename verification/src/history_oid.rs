use vstd::prelude::*;
use crate::commit::CommitId;
use crate::point::{Point, resolve, position_of};

verus! {

/// Where a commit was drawn: its place, its color and its lane.
#[derive(Clone, Copy, Debug, PartialEq, Eq, Structural)]
pub struct HistoryOid {
    pub point: Point,
    pub color: usize,
    pub lane: usize,
}

impl HistoryOid {
    /// The entry with these three values.
    pub fn new(point: Point, color: usize, lane: usize) -> (entry: Self)
        ensures
            entry == (HistoryOid { point, color, lane }),
    {
        Self { point, color, lane }
    }
}

/// The entries of one commit, oldest first.
struct HistoryList {
    oid: CommitId,
    items: Vec<HistoryOid>,
}

/// The entries of `oid` in `index`; none for a commit it does not know.
pub open spec fn entries_of(index: Map<CommitId, Seq<HistoryOid>>, oid: CommitId) -> Seq<
    HistoryOid,
> {
    if index.contains_key(oid) {
        index[oid]
    } else {
        Seq::empty()
    }
}

/// `index` with `entry` recorded for `oid`, behind the entries that `oid`
/// has already.
pub open spec fn with_entry(
    index: Map<CommitId, Seq<HistoryOid>>,
    oid: CommitId,
    entry: HistoryOid,
) -> Map<CommitId, Seq<HistoryOid>> {
    index.insert(oid, entries_of(index, oid).push(entry))
}

/// Whether a list of `lists` is that of `oid`.
spec fn listed(lists: Seq<HistoryList>, oid: CommitId) -> bool {
    exists|i: int| 0 <= i < lists.len() && (#[trigger] lists[i]).oid == oid
}

/// The list of `oid` in `lists`.
spec fn list_of(lists: Seq<HistoryList>, oid: CommitId) -> int {
    choose|i: int| 0 <= i < lists.len() && (#[trigger] lists[i]).oid == oid
}

/// Every commit has one list at most.
spec fn one_list_each(lists: Seq<HistoryList>) -> bool {
    forall|i: int, j: int|
        0 <= i < j < lists.len() ==> (#[trigger] lists[i]).oid != (#[trigger] lists[j]).oid
}

/// The map that `lists` stands for.
spec fn index_of_lists(lists: Seq<HistoryList>) -> Map<CommitId, Seq<HistoryOid>> {
    Map::new(|oid: CommitId| listed(lists, oid), |oid: CommitId| lists[list_of(lists, oid)].items@)
}

/// The list at `i` is the one that `list_of` finds for its commit.
proof fn lemma_list_of(lists: Seq<HistoryList>, i: int)
    requires
        one_list_each(lists),
        0 <= i < lists.len(),
    ensures
        listed(lists, lists[i].oid),
        list_of(lists, lists[i].oid) == i,
{
    let k = list_of(lists, lists[i].oid);
    assert(0 <= k < lists.len() && lists[k].oid == lists[i].oid);
    if k < i {
        assert(lists[k].oid != lists[i].oid);
    } else if i < k {
        assert(lists[i].oid != lists[k].oid);
    }
}

/// Lists that differ from `before` in the list of `oid` alone, which
/// stands at `at` and has gained `entry`, have one list for each commit
/// and stand for the index with `entry` recorded.
proof fn lemma_entry_recorded(
    before: Seq<HistoryList>,
    after: Seq<HistoryList>,
    oid: CommitId,
    entry: HistoryOid,
    at: int,
)
    requires
        one_list_each(before),
        0 <= at < after.len(),
        after[at].oid == oid,
        after.len() == (if at < before.len() {
            before.len()
        } else {
            before.len() + 1
        }),
        forall|j: int| 0 <= j < before.len() && j != at ==> (#[trigger] after[j]) == before[j],
        at < before.len() ==> before[at].oid == oid && after[at].items@ == before[at].items@.push(
            entry,
        ),
        at >= before.len() ==> !listed(before, oid) && after[at].items@ == Seq::<
            HistoryOid,
        >::empty().push(entry),
    ensures
        one_list_each(after),
        index_of_lists(after) == with_entry(index_of_lists(before), oid, entry),
{
    assert forall|a: int, b: int| 0 <= a < b < after.len() implies (#[trigger] after[a]).oid != (
    #[trigger] after[b]).oid by {
        if b < before.len() {
            assert(before[a].oid != before[b].oid);
        } else {
            assert(before[a].oid != oid);
        }
    }
    lemma_list_of(after, at);
    if at < before.len() {
        lemma_list_of(before, at);
    }
    assert forall|other: CommitId| listed(after, other) == (listed(before, other) || other
        == oid) by {
        if listed(before, other) {
            let j = list_of(before, other);
            assert(after[j].oid == other);
        }
        if listed(after, other) && other != oid {
            let j = list_of(after, other);
            assert(before[j].oid == other);
        }
    }
    assert forall|other: CommitId| listed(after, other) && other != oid implies after[list_of(
        after,
        other,
    )].items@ == before[list_of(before, other)].items@ by {
        let j = list_of(after, other);
        assert(before[j].oid == other);
        lemma_list_of(before, j);
    }
    assert(index_of_lists(after) =~= with_entry(index_of_lists(before), oid, entry));
}

/// For each commit the places where it was drawn, in the order in which
/// they were recorded.
pub struct HistoryOidManager {
    history_oid: Vec<HistoryList>,
}

impl View for HistoryOidManager {
    type V = Map<CommitId, Seq<HistoryOid>>;

    closed spec fn view(&self) -> Map<CommitId, Seq<HistoryOid>> {
        index_of_lists(self.history_oid@)
    }
}

impl HistoryOidManager {
    #[verifier::type_invariant]
    spec fn inv(self) -> bool {
        one_list_each(self.history_oid@)
    }

    /// An index without entries.
    pub fn new() -> (manager: Self)
        ensures
            manager@ == Map::<CommitId, Seq<HistoryOid>>::empty(),
    {
        let manager = Self { history_oid: Vec::new() };
        assert(manager@ =~= Map::<CommitId, Seq<HistoryOid>>::empty());
        manager
    }

    /// The position of the list of `oid`.
    fn find(&self, oid: &CommitId) -> (found: Option<usize>)
        ensures
            match found {
                Some(i) => i < self.history_oid.len() && self.history_oid@[i as int].oid == *oid,
                None => !listed(self.history_oid@, *oid),
            },
    {
        let mut i: usize = 0;
        while i < self.history_oid.len()
            invariant
                i <= self.history_oid.len(),
                forall|j: int| 0 <= j < i ==> (#[trigger] self.history_oid@[j]).oid != *oid,
            decreases self.history_oid.len() - i,
        {
            if self.history_oid[i].oid == *oid {
                return Some(i);
            }
            i += 1;
        }
        None
    }

    /// Records `history_oid` for `oid`, behind the entries that `oid` has
    /// already.
    pub fn add_history(&mut self, oid: CommitId, history_oid: HistoryOid)
        ensures
            final(self)@ == with_entry(old(self)@, oid, history_oid),
    {
        proof {
            use_type_invariant(&*self);
        }
        let found = self.find(&oid);
        let ghost before = self.history_oid@;
        let mut lists: Vec<HistoryList> = Vec::new();
        std::mem::swap(&mut lists, &mut self.history_oid);
        match found {
            Some(i) => {
                let mut list = lists.remove(i);
                list.items.push(history_oid);
                lists.insert(i, list);
                proof {
                    assert forall|j: int| 0 <= j < before.len() && j != i implies lists@[j]
                        == before[j] by {}
                    lemma_entry_recorded(before, lists@, oid, history_oid, i as int);
                }
            },
            None => {
                let mut items: Vec<HistoryOid> = Vec::new();
                items.push(history_oid);
                lists.push(HistoryList { oid, items });
                proof {
                    lemma_entry_recorded(before, lists@, oid, history_oid, before.len() as int);
                }
            },
        }
        self.history_oid = lists;
    }

    /// The entries of `oid`, oldest first, if it has any.
    pub fn get(&self, oid: &CommitId) -> (entries: Option<&[HistoryOid]>)
        ensures
            match entries {
                Some(items) => self@.contains_key(*oid) && items@ == self@[*oid],
                None => !self@.contains_key(*oid),
            },
    {
        proof {
            use_type_invariant(self);
        }
        match self.find(oid) {
            Some(i) => {
                proof {
                    lemma_list_of(self.history_oid@, i as int);
                }
                Some(self.history_oid[i].items.as_slice())
            },
            None => None,
        }
    }

    /// The entry of `oid` that was recorded last, if it has any.
    pub fn latest(&self, oid: &CommitId) -> (entry: Option<HistoryOid>)
        ensures
            entry == (if entries_of(self@, *oid).len() > 0 {
                Some(entries_of(self@, *oid).last())
            } else {
                None
            }),
    {
        match self.get(oid) {
            Some(entries) => {
                if entries.len() > 0 {
                    Some(entries[entries.len() - 1])
                } else {
                    None
                }
            },
            None => None,
        }
    }

    /// Places the commit `oid` of lane `lane` in row `row`, records the
    /// place with `color` and `lane` behind the entries that `oid` has
    /// already, and returns it.
    pub fn resolve(&mut self, oid: CommitId, lane: usize, color: usize, row: usize) -> (point:
        Point)
        ensures
            point == position_of(lane as nat, row as nat),
            final(self)@ == with_entry(old(self)@, oid, HistoryOid { point, color, lane }),
    {
        let point = resolve(lane, row);
        self.add_history(oid, HistoryOid::new(point, color, lane));
        point
    }
}

} // verus!
