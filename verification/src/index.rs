//! The sets of a row, indexed by their ids.
//!
//! While a row is carved, the index maps each set id in use to the columns of
//! the cells in that set. It is built anew for every row, kept up to date as
//! sets are minted and merged, and a copy of it counts down, per set, the cells
//! that are still open downwards while the bottom walls are decided.

use crate::cell::Container;
use crate::row::{
    fresh_id, has_other_way_down, in_use, is_fresh_id, lemma_fresh_id_unique, lemma_ids_fit,
    relabelled,
};
use std::collections::HashMap;
use vstd::prelude::*;

verus! {

broadcast use vstd::std_specs::hash::group_hash_axioms;

/// Column `c` is one of the first `n` columns, its cell has a set, and the
/// cell still counts while bottom walls are decided and column `k` is next:
/// it is not decided yet or was left open.
pub open spec fn counted(row: Seq<Container>, c: int, n: int, k: int) -> bool {
    &&& 0 <= c < n
    &&& c < row.len()
    &&& row[c].set != 0
    &&& (c >= k || !row[c].bottom_wall)
}

/// For each set id in use, the columns of the cells in that set.
pub struct RowSetIndex {
    sets: HashMap<usize, Vec<usize>>,
}

impl RowSetIndex {
    /// The index has an entry for set `id`.
    pub closed spec fn has(&self, id: usize) -> bool {
        self.sets@.contains_key(id)
    }

    /// The columns that the index lists for set `id`.
    pub closed spec fn members(&self, id: usize) -> Seq<usize> {
        self.sets@[id]@
    }

    /// The index lists, set by set and each column once, exactly the columns
    /// that are counted, and has no entry without columns.
    pub open spec fn covers(&self, row: Seq<Container>, n: int, k: int) -> bool {
        &&& row.len() <= usize::MAX
        &&& forall|c: int|
            #![trigger row[c]]
            counted(row, c, n, k) ==> self.has(row[c].set) && self.members(row[c].set).contains(
                c as usize,
            )
        &&& forall|id: usize, j: int|
            self.has(id) && 0 <= j < self.members(id).len() ==> counted(
                row,
                (#[trigger] self.members(id)[j]) as int,
                n,
                k,
            ) && row[self.members(id)[j] as int].set == id
        &&& forall|id: usize| #[trigger]
            self.has(id) ==> self.members(id).no_duplicates() && self.members(id).len() >= 1
    }

    /// Every list of the index holds its columns from left to right.
    pub open spec fn in_order(&self) -> bool {
        forall|id: usize, i: int, j: int|
            self.has(id) && 0 <= i < j < self.members(id).len() ==> #[trigger] self.members(id)[i]
                < #[trigger] self.members(id)[j]
    }

    /// The index describes the sets of the row; from column `k` on all their
    /// cells, before it only those that are open downwards.
    pub open spec fn tracks(&self, row: Seq<Container>, k: int) -> bool {
        self.covers(row, row.len() as int, k)
    }

    /// An index describes a row by its sets and bottom walls alone.
    pub proof fn lemma_tracks_alike(&self, row: Seq<Container>, other: Seq<Container>, k: int)
        requires
            self.tracks(row, k),
            other.len() == row.len(),
            forall|c: int|
                0 <= c < row.len() ==> (#[trigger] other[c]).set == row[c].set && (c < k
                    ==> other[c].bottom_wall == row[c].bottom_wall),
        ensures
            self.tracks(other, k),
    {
        let n = row.len() as int;
        assert forall|c: int| #![trigger other[c]] counted(other, c, n, k) implies self.has(
            other[c].set,
        ) && self.members(other[c].set).contains(c as usize) by {
            assert(counted(row, c, n, k));
            assert(self.has(row[c].set));
        }
        assert forall|id: usize, j: int|
            self.has(id) && 0 <= j < self.members(id).len() implies counted(
            other,
            (#[trigger] self.members(id)[j]) as int,
            n,
            k,
        ) && other[self.members(id)[j] as int].set == id by {
            let c = self.members(id)[j] as int;
            assert(counted(row, c, n, k));
            assert(other[c].set == row[c].set);
        }
    }

    /// What an index that describes a row says of the ids: the ids with an
    /// entry are the positive ids in use.
    pub proof fn lemma_ids_indexed(&self, row: Seq<Container>, id: usize)
        requires
            self.tracks(row, 0),
        ensures
            self.has(id) <==> id != 0 && in_use(row, id),
    {
        if self.has(id) {
            let c = self.members(id)[0] as int;
            assert(counted(row, c, row.len() as int, 0));
            assert(row[c].set == id);
        }
        if id != 0 && in_use(row, id) {
            let c = choose|c: int| 0 <= c < row.len() && (#[trigger] row[c]).set == id;
            assert(counted(row, c, row.len() as int, 0));
        }
    }

    /// Indexes the cells of a row that have a set, left to right.
    pub fn build(row: &Vec<Container>) -> (index: RowSetIndex)
        ensures
            index.tracks(row@, 0),
            index.in_order(),
    {
        let mut index = RowSetIndex { sets: HashMap::new() };
        let mut c: usize = 0;
        while c < row.len()
            invariant
                c <= row.len(),
                index.covers(row@, c as int, 0),
                index.in_order(),
            decreases row.len() - c,
        {
            let id = row[c].set;
            if id != 0 {
                let ghost before = index;
                let found = index.sets.remove(&id);
                let mut list = match found {
                    Some(list) => list,
                    None => Vec::new(),
                };
                let ghost listed = list@;
                list.push(c);
                index.sets.insert(id, list);
                proof {
                    assert(index.members(id) == listed.push(c));
                    assert(before.has(id) ==> before.members(id) == listed);
                    assert forall|x: int|
                        #![trigger row@[x]]
                        counted(row@, x, c + 1, 0) implies index.has(row@[x].set)
                        && index.members(row@[x].set).contains(x as usize) by {
                        if x == c {
                            assert(index.members(id)[listed.len() as int] == c);
                        } else {
                            assert(counted(row@, x, c as int, 0));
                            if row@[x].set == id {
                                let i = choose|i: int|
                                    0 <= i < listed.len() && listed[i] == x as usize;
                                assert(index.members(id)[i] == x as usize);
                            } else {
                                assert(index.members(row@[x].set) == before.members(
                                    row@[x].set,
                                ));
                            }
                        }
                    }
                    assert forall|other: usize, j: int|
                        index.has(other) && 0 <= j < index.members(other).len() implies counted(
                        row@,
                        (#[trigger] index.members(other)[j]) as int,
                        c + 1,
                        0,
                    ) && row@[index.members(other)[j] as int].set == other by {
                        if other == id {
                            if j < listed.len() {
                                assert(before.members(id)[j] == listed[j]);
                            }
                        } else {
                            assert(before.has(other));
                            assert(index.members(other)[j] == before.members(other)[j]);
                        }
                    }
                    assert forall|other: usize, i: int, j: int|
                        index.has(other) && 0 <= i < j < index.members(other).len() implies (
                    #[trigger] index.members(other)[i]) < (#[trigger] index.members(other)[j]) by {
                        if other == id {
                            assert(before.members(id)[i] == listed[i]);
                            assert(counted(row@, before.members(id)[i] as int, c as int, 0));
                            if j < listed.len() {
                                assert(before.members(id)[j] == listed[j]);
                            }
                        } else {
                            assert(before.has(other));
                            assert(index.members(other) == before.members(other));
                        }
                    }
                    assert forall|other: usize| #[trigger] index.has(other) implies index.members(
                        other,
                    ).no_duplicates() && index.members(other).len() >= 1 by {
                        if other == id {
                            assert forall|i: int, j: int|
                                0 <= i < listed.len() + 1 && 0 <= j < listed.len() + 1 && i
                                    != j implies index.members(id)[i] != index.members(id)[j] by {
                                if i < listed.len() {
                                    assert(counted(
                                        row@,
                                        before.members(id)[i] as int,
                                        c as int,
                                        0,
                                    ));
                                }
                                if j < listed.len() {
                                    assert(counted(
                                        row@,
                                        before.members(id)[j] as int,
                                        c as int,
                                        0,
                                    ));
                                }
                            }
                        } else {
                            assert(before.has(other));
                            assert(index.members(other) == before.members(other));
                        }
                    }
                }
            } else {
                proof {
                    assert forall|x: int|
                        #![trigger row@[x]]
                        counted(row@, x, c + 1, 0) implies index.has(row@[x].set)
                        && index.members(row@[x].set).contains(x as usize) by {
                        assert(counted(row@, x, c as int, 0));
                    }
                    assert forall|other: usize, j: int|
                        index.has(other) && 0 <= j < index.members(other).len() implies counted(
                        row@,
                        (#[trigger] index.members(other)[j]) as int,
                        c + 1,
                        0,
                    ) && row@[index.members(other)[j] as int].set == other by {
                        assert(counted(row@, index.members(other)[j] as int, c as int, 0));
                    }
                }
            }
            c += 1;
        }
        index
    }

    /// Whether the index has an entry for set `id`.
    pub fn contains_set(&self, id: usize) -> (found: bool)
        ensures
            found == self.has(id),
    {
        self.sets.contains_key(&id)
    }

    /// How many columns the index lists for set `id`; none if it has no entry.
    pub fn member_count(&self, id: usize) -> (count: usize)
        ensures
            self.has(id) ==> count == self.members(id).len(),
            !self.has(id) ==> count == 0,
    {
        match self.sets.get(&id) {
            Some(list) => list.len(),
            None => 0,
        }
    }

    /// A copy of the index.
    pub fn snapshot(&self) -> (copy: RowSetIndex)
        ensures
            forall|id: usize| #[trigger] copy.has(id) == self.has(id),
            forall|id: usize| #[trigger] copy.members(id) == self.members(id),
    {
        RowSetIndex { sets: self.sets.clone() }
    }

    /// The smallest positive id without an entry, which is the fresh id of the
    /// row that the index describes. The row must hold a cell without a set,
    /// which is what keeps the ids within the width.
    pub(crate) fn smallest_free_id(&self, Ghost(row): Ghost<Seq<Container>>) -> (id: usize)
        requires
            self.tracks(row, 0),
            in_use(row, 0),
            row.len() <= usize::MAX,
        ensures
            is_fresh_id(row, id),
            id == fresh_id(row),
    {
        let mut id: usize = 1;
        while self.sets.contains_key(&id)
            invariant
                id >= 1,
                row.len() <= usize::MAX,
                self.tracks(row, 0),
                in_use(row, 0),
                forall|h: usize| 1 <= h < id ==> #[trigger] in_use(row, h),
            decreases row.len() - id,
        {
            proof {
                self.lemma_ids_indexed(row, id);
                lemma_ids_fit(row, id);
            }
            id += 1;
        }
        proof {
            self.lemma_ids_indexed(row, id);
            lemma_fresh_id_unique(row, id);
        }
        id
    }

    /// A copy of the columns that the index lists for set `id`; none if it has
    /// no entry.
    pub fn columns_of(&self, id: usize) -> (columns: Vec<usize>)
        ensures
            self.has(id) ==> columns@ == self.members(id),
            !self.has(id) ==> columns@.len() == 0,
    {
        let mut columns: Vec<usize> = Vec::new();
        match self.sets.get(&id) {
            Some(list) => {
                let mut j: usize = 0;
                while j < list.len()
                    invariant
                        j <= list.len(),
                        columns@ == list@.subrange(0, j as int),
                    decreases list.len() - j,
                {
                    columns.push(list[j]);
                    assert(columns@ =~= list@.subrange(0, j + 1));
                    j += 1;
                }
                assert(columns@ =~= list@);
            },
            None => {},
        }
        columns
    }

    /// Enters a set of one cell: the cell in column `c`, which had no set and
    /// now has the unused set `id`.
    pub(crate) fn add_singleton(&mut self, id: usize, c: usize, Ghost(before): Ghost<Seq<Container>>)
        requires
            old(self).tracks(before, 0),
            c < before.len(),
            before[c as int].set == 0,
            id != 0,
            !in_use(before, id),
        ensures
            final(self).tracks(before.update(c as int, before[c as int].with_set(id)), 0),
    {
        let ghost start = *self;
        let ghost after = before.update(c as int, before[c as int].with_set(id));
        let ghost n = before.len() as int;
        proof {
            start.lemma_ids_indexed(before, id);
        }
        let mut list: Vec<usize> = Vec::new();
        list.push(c);
        self.sets.insert(id, list);
        proof {
            assert(self.members(id) == seq![c]);
            assert forall|x: int| #![trigger after[x]] counted(after, x, n, 0) implies self.has(
                after[x].set,
            ) && self.members(after[x].set).contains(x as usize) by {
                if x == c {
                    assert(self.members(id)[0] == c);
                } else {
                    assert(counted(before, x, n, 0));
                    assert(before[x].set != id);
                    assert(self.members(before[x].set) == start.members(before[x].set));
                }
            }
            assert forall|other: usize, j: int|
                self.has(other) && 0 <= j < self.members(other).len() implies counted(
                after,
                (#[trigger] self.members(other)[j]) as int,
                n,
                0,
            ) && after[self.members(other)[j] as int].set == other by {
                if other != id {
                    assert(start.has(other));
                    assert(self.members(other)[j] == start.members(other)[j]);
                    assert(counted(before, start.members(other)[j] as int, n, 0));
                }
            }
            assert forall|other: usize| #[trigger] self.has(other) implies self.members(
                other,
            ).no_duplicates() && self.members(other).len() >= 1 by {
                if other != id {
                    assert(start.has(other));
                    assert(self.members(other) == start.members(other));
                }
            }
        }
    }

    /// Moves every cell of set `from` to set `into`, in the row and in the
    /// index: the columns of `from` are appended to those of `into`.
    pub(crate) fn merge(&mut self, row: &mut Vec<Container>, from: usize, into: usize)
        requires
            old(self).tracks(old(row)@, 0),
            from != into,
            old(self).has(from),
            old(self).has(into),
        ensures
            final(row)@ == relabelled(old(row)@, from, into),
            final(self).tracks(final(row)@, 0),
    {
        let ghost start = *self;
        let ghost before = row@;
        let ghost n = before.len() as int;
        proof {
            start.lemma_ids_indexed(before, from);
            start.lemma_ids_indexed(before, into);
        }
        let mut moved = match self.sets.remove(&from) {
            Some(list) => list,
            None => Vec::new(),
        };
        let mut kept = match self.sets.remove(&into) {
            Some(list) => list,
            None => Vec::new(),
        };
        assert(moved@ == start.members(from));
        assert(kept@ == start.members(into));
        let mut j: usize = 0;
        while j < moved.len()
            invariant
                j <= moved.len(),
                row.len() == before.len(),
                n == before.len(),
                moved@ == start.members(from),
                start.has(from),
                start.tracks(before, 0),
                from != 0,
                forall|i: int| 0 <= i < j ==> row@[(#[trigger] moved@[i]) as int].set == into,
                forall|c: int|
                    0 <= c < n ==> #[trigger] row@[c] == before[c] || (before[c].set == from
                        && row@[c] == before[c].with_set(into)),
                forall|c: int| 0 <= c < n && before[c].set != from ==> #[trigger] row@[c] == before[c],
            decreases moved.len() - j,
        {
            let c = moved[j];
            assert(counted(before, start.members(from)[j as int] as int, n, 0));
            row[c].set = into;
            j += 1;
        }
        proof {
            assert forall|c: int| 0 <= c < n implies #[trigger] row@[c] == relabelled(
                before,
                from,
                into,
            )[c] by {
                if before[c].set == from {
                    assert(counted(before, c, n, 0));
                    assert(start.members(from).contains(c as usize));
                    let i = choose|i: int| 0 <= i < moved@.len() && moved@[i] == c as usize;
                    assert(row@[moved@[i] as int].set == into);
                }
            }
            assert(row@ =~= relabelled(before, from, into));
        }
        let ghost joined_list = kept@ + moved@;
        kept.append(&mut moved);
        self.sets.insert(into, kept);
        proof {
            let after = row@;
            assert(self.members(into) == joined_list);
            assert forall|x: int| #![trigger after[x]] counted(after, x, n, 0) implies self.has(
                after[x].set,
            ) && self.members(after[x].set).contains(x as usize) by {
                assert(counted(before, x, n, 0));
                if before[x].set == from {
                    let i = choose|i: int|
                        0 <= i < start.members(from).len() && start.members(from)[i]
                            == x as usize;
                    assert(joined_list[start.members(into).len() + i] == x as usize);
                } else if before[x].set == into {
                    let i = choose|i: int|
                        0 <= i < start.members(into).len() && start.members(into)[i]
                            == x as usize;
                    assert(joined_list[i] == x as usize);
                } else {
                    assert(self.members(before[x].set) == start.members(before[x].set));
                }
            }
            assert forall|other: usize, j: int|
                self.has(other) && 0 <= j < self.members(other).len() implies counted(
                after,
                (#[trigger] self.members(other)[j]) as int,
                n,
                0,
            ) && after[self.members(other)[j] as int].set == other by {
                if other == into {
                    if j < start.members(into).len() {
                        assert(joined_list[j] == start.members(into)[j]);
                        assert(counted(before, start.members(into)[j] as int, n, 0));
                    } else {
                        let i = j - start.members(into).len();
                        assert(joined_list[j] == start.members(from)[i]);
                        assert(counted(before, start.members(from)[i] as int, n, 0));
                    }
                } else {
                    assert(start.has(other));
                    assert(self.members(other)[j] == start.members(other)[j]);
                    assert(counted(before, start.members(other)[j] as int, n, 0));
                }
            }
            assert forall|other: usize| #[trigger] self.has(other) implies self.members(
                other,
            ).no_duplicates() && self.members(other).len() >= 1 by {
                if other == into {
                    let first = start.members(into);
                    let second = start.members(from);
                    assert forall|i: int, j: int|
                        0 <= i < joined_list.len() && 0 <= j < joined_list.len() && i
                            != j implies joined_list[i] != joined_list[j] by {
                        if i < first.len() {
                            assert(counted(before, first[i] as int, n, 0));
                        } else {
                            assert(counted(before, second[i - first.len()] as int, n, 0));
                        }
                        if j < first.len() {
                            assert(counted(before, first[j] as int, n, 0));
                        } else {
                            assert(counted(before, second[j - first.len()] as int, n, 0));
                        }
                    }
                } else {
                    assert(start.has(other));
                    assert(self.members(other) == start.members(other));
                }
            }
        }
    }

    /// While bottom walls are decided: whether the cell in column `c` is the
    /// last of its set that can still lead down.
    pub(crate) fn is_last_way_down(
        &self,
        c: usize,
        set: usize,
        Ghost(row): Ghost<Seq<Container>>,
    ) -> (last: bool)
        requires
            self.tracks(row, c as int),
            c < row.len(),
            row[c as int].set == set,
            set != 0,
        ensures
            last == !has_other_way_down(row, c as int),
    {
        let ghost n = row.len() as int;
        let ghost list = self.members(set);
        let count = self.member_count(set);
        proof {
            assert(counted(row, c as int, n, c as int));
            assert(self.has(set));
            if count == 1 {
                if has_other_way_down(row, c as int) {
                    let j = choose|j: int|
                        0 <= j < row.len() && j != c && (#[trigger] row[j]).set == row[c as int].set
                            && (j > c || !row[j].bottom_wall);
                    assert(counted(row, j, n, c as int));
                    assert(list.contains(j as usize));
                    assert(list.contains(c));
                }
            } else {
                let y = if list[0] != c {
                    list[0]
                } else {
                    list[1]
                };
                assert(list[0] != list[1]);
                assert(counted(row, list[0] as int, n, c as int));
                assert(counted(row, list[1] as int, n, c as int));
                assert(row[y as int].set == row[c as int].set);
            }
        }
        count == 1
    }

    /// While bottom walls are decided: leaving the cell in column `c` open
    /// keeps the index as it is.
    pub proof fn lemma_left_open(&self, before: Seq<Container>, c: int)
        requires
            self.tracks(before, c),
            0 <= c < before.len(),
        ensures
            self.tracks(before.update(c, before[c].with_bottom(false)), c + 1),
    {
        let after = before.update(c, before[c].with_bottom(false));
        let n = before.len() as int;
        assert forall|x: int| #![trigger after[x]] counted(after, x, n, c + 1) implies self.has(
            after[x].set,
        ) && self.members(after[x].set).contains(x as usize) by {
            assert(counted(before, x, n, c));
            assert(self.has(before[x].set));
        }
        assert forall|id: usize, j: int|
            self.has(id) && 0 <= j < self.members(id).len() implies counted(
            after,
            (#[trigger] self.members(id)[j]) as int,
            n,
            c + 1,
        ) && after[self.members(id)[j] as int].set == id by {
            assert(counted(before, self.members(id)[j] as int, n, c));
        }
    }

    /// While bottom walls are decided: takes the cell in column `c`, which is
    /// closed downwards, off the list of its set. The set keeps another cell.
    pub(crate) fn close(&mut self, c: usize, set: usize, Ghost(before): Ghost<Seq<Container>>)
        requires
            old(self).tracks(before, c as int),
            c < before.len(),
            before[c as int].set == set,
            set != 0,
            has_other_way_down(before, c as int),
        ensures
            final(self).tracks(before.update(c as int, before[c as int].with_bottom(true)), c + 1),
    {
        let ghost start = *self;
        let ghost after = before.update(c as int, before[c as int].with_bottom(true));
        let ghost n = before.len() as int;
        let ghost list = start.members(set);
        proof {
            assert(counted(before, c as int, n, c as int));
            assert(start.has(set));
            assert(list.contains(c));
            let j = choose|j: int|
                0 <= j < before.len() && j != c && (#[trigger] before[j]).set == before[c as int].set
                    && (j > c || !before[j].bottom_wall);
            assert(counted(before, j, n, c as int));
            assert(list.contains(j as usize));
            assert(list.len() >= 2);
        }
        let mut columns = match self.sets.remove(&set) {
            Some(list) => list,
            None => Vec::new(),
        };
        assert(columns@ == list);
        let mut at: usize = 0;
        while at < columns.len() && columns[at] != c
            invariant
                at <= columns.len(),
                columns@ == list,
                forall|i: int| 0 <= i < at ==> list[i] != c,
            decreases columns.len() - at,
        {
            at += 1;
        }
        assert(at < columns.len());
        columns.remove(at);
        let ghost rest = list.remove(at as int);
        self.sets.insert(set, columns);
        proof {
            assert(self.members(set) == rest);
            assert forall|x: int| #![trigger after[x]] counted(after, x, n, c + 1) implies self.has(
                after[x].set,
            ) && self.members(after[x].set).contains(x as usize) by {
                assert(x != c);
                assert(counted(before, x, n, c as int));
                if before[x].set == set {
                    let i = choose|i: int| 0 <= i < list.len() && list[i] == x as usize;
                    if i < at {
                        assert(rest[i] == x as usize);
                    } else {
                        assert(rest[i - 1] == x as usize);
                    }
                } else {
                    assert(start.has(before[x].set));
                    assert(self.members(before[x].set) == start.members(before[x].set));
                }
            }
            assert forall|other: usize, j: int|
                self.has(other) && 0 <= j < self.members(other).len() implies counted(
                after,
                (#[trigger] self.members(other)[j]) as int,
                n,
                c + 1,
            ) && after[self.members(other)[j] as int].set == other by {
                if other == set {
                    let i = if j < at {
                        j
                    } else {
                        j + 1
                    };
                    assert(rest[j] == list[i]);
                    assert(counted(before, start.members(set)[i] as int, n, c as int));
                    assert(list[i] != list[at as int]);
                } else {
                    assert(start.has(other));
                    assert(self.members(other)[j] == start.members(other)[j]);
                    assert(counted(before, start.members(other)[j] as int, n, c as int));
                }
            }
            assert forall|other: usize| #[trigger] self.has(other) implies self.members(
                other,
            ).no_duplicates() && self.members(other).len() >= 1 by {
                if other == set {
                    assert forall|i: int, j: int|
                        0 <= i < rest.len() && 0 <= j < rest.len() && i != j implies rest[i]
                        != rest[j] by {
                        let from_i = if i < at {
                            i
                        } else {
                            i + 1
                        };
                        let from_j = if j < at {
                            j
                        } else {
                            j + 1
                        };
                        assert(list[from_i] != list[from_j]);
                    }
                } else {
                    assert(start.has(other));
                    assert(self.members(other) == start.members(other));
                }
            }
        }
    }
}

} // verus!
