//! The in-memory image of the wide time-series table: one column per
//! sanitized tag name, one row per distinct timestamp. The on-disk store is
//! driven from outside with the actions the engine emits; this module is the
//! exact model of what the store then holds.

use vstd::prelude::*;

verus! {

/// One stored wide row: its timestamp and one optional cell per column,
/// aligned with the table's column list; `None` is a null cell.
pub struct WideRowState {
    pub timestamp: i64,
    pub cells: Vec<Option<u64>>,
}

/// The abstract state of the wide table: the column names in physical order,
/// and for each stored timestamp the row's cells, aligned with the columns.
pub struct TableModel {
    pub cols: Seq<Seq<char>>,
    pub rows: Map<int, Seq<Option<u64>>>,
}

/// The map from timestamp to cells that a sequence of rows stands for;
/// with distinct timestamps the order of the rows does not matter.
pub open spec fn map_of_rows(rows: Seq<WideRowState>) -> Map<int, Seq<Option<u64>>>
    decreases rows.len(),
{
    if rows.len() == 0 {
        Map::empty()
    } else {
        map_of_rows(rows.drop_last()).insert(
            rows.last().timestamp as int,
            rows.last().cells@,
        )
    }
}

/// The tag-to-value map that a list of pairs stands for; a later pair for
/// the same tag wins.
pub open spec fn pairs_map(pairs: Seq<(String, u64)>) -> Map<Seq<char>, u64>
    decreases pairs.len(),
{
    if pairs.len() == 0 {
        Map::empty()
    } else {
        pairs_map(pairs.drop_last()).insert(pairs.last().0@, pairs.last().1)
    }
}

/// No two pairs name the same tag.
pub open spec fn pairs_unique(pairs: Seq<(String, u64)>) -> bool {
    forall|i: int, j: int| 0 <= i < j < pairs.len() ==> (#[trigger] pairs[i]).0@ != (
    #[trigger] pairs[j]).0@
}

/// The set of names a list of strings stands for.
pub open spec fn strs_set(names: Seq<String>) -> Set<Seq<char>> {
    names.map_values(|s: String| s@).to_set()
}

/// The row stored for `ts` after upserting `vals` with `known` the columns
/// that count as live: a supplied column takes the supplied value; an
/// existing row keeps its other cells; a fresh row fills the other live
/// columns with zero and leaves retired columns null.
pub open spec fn merged_row(
    m: TableModel,
    ts: int,
    vals: Map<Seq<char>, u64>,
    known: Set<Seq<char>>,
) -> Seq<Option<u64>> {
    Seq::new(
        m.cols.len(),
        |i: int|
            if vals.dom().contains(m.cols[i]) {
                Some(vals[m.cols[i]])
            } else if m.rows.dom().contains(ts) {
                m.rows[ts][i]
            } else if known.contains(m.cols[i]) {
                Some(crate::value::ZERO_BITS)
            } else {
                None
            },
    )
}

/// The whole table after one row upsert.
pub open spec fn model_upsert(
    m: TableModel,
    ts: int,
    vals: Map<Seq<char>, u64>,
    known: Set<Seq<char>>,
) -> TableModel {
    TableModel { cols: m.cols, rows: m.rows.insert(ts, merged_row(m, ts, vals, known)) }
}

/// Rows in strictly increasing timestamp order (hence all distinct).
pub open spec fn rows_sorted(rows: Seq<WideRowState>) -> bool {
    forall|i: int, j: int|
        0 <= i < j < rows.len() ==> rows[i].timestamp < rows[j].timestamp
}

/// The wide table itself. Rows are kept sorted by timestamp; every row has
/// exactly one cell per column; column names never repeat.
pub struct WideTable {
    columns: Vec<String>,
    rows: Vec<WideRowState>,
}

impl WideTable {
    /// Every row as wide as the column list, rows strictly sorted by
    /// timestamp, column names distinct.
    pub closed spec fn wf(&self) -> bool {
        &&& forall|i: int|
            0 <= i < self.rows@.len() ==> (#[trigger] self.rows@[i]).cells@.len()
                == self.columns@.len()
        &&& rows_sorted(self.rows@)
        &&& forall|i: int, j: int|
            0 <= i < j < self.columns@.len() ==> self.columns@[i]@ != self.columns@[j]@
    }

    /// The column names, in physical order.
    pub closed spec fn cols(&self) -> Seq<Seq<char>> {
        self.columns@.map_values(|s: String| s@)
    }

    /// The stored rows, keyed by timestamp.
    pub closed spec fn row_map(&self) -> Map<int, Seq<Option<u64>>> {
        map_of_rows(self.rows@)
    }

    /// The stored timestamps, in increasing order.
    pub closed spec fn ts_order(&self) -> Seq<int> {
        self.rows@.map_values(|r: WideRowState| r.timestamp as int)
    }

    /// The whole table as its abstract state.
    pub open spec fn model(&self) -> TableModel {
        TableModel { cols: self.cols(), rows: self.row_map() }
    }

    pub fn new() -> (r: Self)
        ensures
            r.wf(),
            r.cols() == Seq::<Seq<char>>::empty(),
            r.row_map() == Map::<int, Seq<Option<u64>>>::empty(),
            r.ts_order() == Seq::<int>::empty(),
    {
        let r = WideTable { columns: Vec::new(), rows: Vec::new() };
        proof {
            assert(r.cols() =~= Seq::<Seq<char>>::empty());
            assert(r.ts_order() =~= Seq::<int>::empty());
        }
        r
    }

    /// How many rows the table holds.
    pub fn row_count(&self) -> (n: usize)
        requires
            self.wf(),
        ensures
            n == self.ts_order().len(),
            n == self.row_map().dom().len(),
    {
        proof {
            lemma_map_of_rows_len(self.rows@);
        }
        self.rows.len()
    }

    /// The largest stored timestamp, if any row is stored.
    pub fn max_timestamp(&self) -> (r: Option<i64>)
        requires
            self.wf(),
        ensures
            match r {
                Some(t) => {
                    &&& self.row_map().dom().contains(t as int)
                    &&& forall|u: int| self.row_map().dom().contains(u) ==> u <= t as int
                },
                None => self.row_map().dom() =~= Set::<int>::empty(),
            },
            (r is None) <==> self.ts_order().len() == 0,
    {
        proof {
            lemma_map_of_rows_dom(self.rows@);
        }
        if self.rows.len() == 0 {
            proof {
                assert(self.row_map().dom() =~= Set::<int>::empty());
            }
            None
        } else {
            let t = self.rows[self.rows.len() - 1].timestamp;
            proof {
                assert(self.rows@[self.rows@.len() - 1].timestamp == t);
                assert forall|u: int| self.row_map().dom().contains(u) implies u <= t as int by {
                    let i = choose|i: int|
                        0 <= i < self.rows@.len() && (#[trigger] self.rows@[i]).timestamp == u;
                    if i < self.rows@.len() - 1 {
                        assert(self.rows@[i].timestamp < t);
                    }
                };
            }
            Some(t)
        }
    }

    /// Whether a column of this name exists.
    pub fn has_column(&self, name: &String) -> (r: bool)
        requires
            self.wf(),
        ensures
            r == self.cols().contains(name@),
    {
        let mut i: usize = 0;
        while i < self.columns.len()
            invariant
                i <= self.columns.len(),
                forall|j: int| 0 <= j < i ==> self.cols()[j] != name@,
            decreases self.columns.len() - i,
        {
            if self.columns[i].eq(name) {
                proof {
                    assert(self.cols()[i as int] == name@);
                }
                return true;
            }
            i = i + 1;
        }
        proof {
            if self.cols().contains(name@) {
                let j = choose|j: int| 0 <= j < self.cols().len() && self.cols()[j] == name@;
                assert(self.cols()[j] != name@);
            }
        }
        false
    }

    /// The column names as a fresh vector, in physical order.
    pub fn column_names(&self) -> (r: Vec<String>)
        requires
            self.wf(),
        ensures
            r@.map_values(|s: String| s@) == self.cols(),
    {
        let mut r: Vec<String> = Vec::new();
        let mut i: usize = 0;
        while i < self.columns.len()
            invariant
                i <= self.columns.len(),
                r@.len() == i,
                forall|j: int| 0 <= j < i ==> (#[trigger] r@[j])@ == self.cols()[j],
            decreases self.columns.len() - i,
        {
            r.push(self.columns[i].clone());
            i = i + 1;
        }
        proof {
            assert(r@.map_values(|s: String| s@) =~= self.cols());
        }
        r
    }

    /// Appends a new column; every stored row gets a null cell for it.
    pub fn add_column(&mut self, name: String)
        requires
            old(self).wf(),
            !old(self).cols().contains(name@),
        ensures
            final(self).wf(),
            final(self).cols() == old(self).cols().push(name@),
            final(self).ts_order() == old(self).ts_order(),
            final(self).row_map().dom() == old(self).row_map().dom(),
            forall|t: int| #[trigger]
                old(self).row_map().dom().contains(t) ==> final(self).row_map()[t] == old(
                    self,
                ).row_map()[t].push(None::<u64>),
    {
        let ghost old_rows = self.rows@;
        let mut i: usize = 0;
        while i < self.rows.len()
            invariant
                i <= self.rows.len(),
                self.columns == old(self).columns,
                self.rows@.len() == old_rows.len(),
                forall|j: int| 0 <= j < i ==> #[trigger] self.rows@[j].timestamp
                    == old_rows[j].timestamp && self.rows@[j].cells@ == old_rows[j].cells@.push(
                    None::<u64>,
                ),
                forall|j: int| i <= j < old_rows.len() ==> self.rows@[j] == old_rows[j],
                old_rows == old(self).rows@,
            decreases self.rows.len() - i,
        {
            self.rows[i].cells.push(None);
            i = i + 1;
        }
        self.columns.push(name);
        proof {
            assert(self.cols() =~= old(self).cols().push(name@));
            assert(self.ts_order() =~= old(self).ts_order());
            lemma_map_of_rows_push_cell(old_rows, self.rows@);
            lemma_map_of_rows_dom(old_rows);
            lemma_map_of_rows_dom(self.rows@);
            assert(self.row_map().dom() =~= old(self).row_map().dom());
            assert forall|i: int, j: int|
                0 <= i < j < self.columns@.len() implies self.columns@[i]@
                != self.columns@[j]@ by {
                if j == self.columns@.len() - 1 {
                    assert(old(self).cols()[i] == old(self).columns@[i]@);
                    if old(self).columns@[i]@ == name@ {
                        assert(old(self).cols().contains(name@));
                    }
                }
            }
        }
    }

    /// Writes the row for `ts`: supplied columns take the supplied values; an
    /// existing row keeps its other cells; a fresh row defaults the other
    /// live columns to zero. Returns the row as stored.
    pub fn upsert_row(&mut self, ts: i64, vals: &Vec<(String, u64)>, known: &Vec<String>) -> (cells:
        Vec<Option<u64>>)
        requires
            old(self).wf(),
            pairs_unique(vals@),
        ensures
            final(self).wf(),
            final(self).model() == model_upsert(
                old(self).model(),
                ts as int,
                pairs_map(vals@),
                strs_set(known@),
            ),
            cells@ == merged_row(old(self).model(), ts as int, pairs_map(vals@), strs_set(known@)),
    {
        proof {
            lemma_map_of_rows_dom(self.rows@);
        }
        let ghost m = self.model();
        let ghost vmap = pairs_map(vals@);
        let ghost kset = strs_set(known@);
        // The insertion point: the first row at or past `ts`.
        let mut p: usize = 0;
        while p < self.rows.len() && self.rows[p].timestamp < ts
            invariant
                p <= self.rows@.len(),
                forall|j: int| 0 <= j < p ==> (#[trigger] self.rows@[j]).timestamp < ts,
            decreases self.rows@.len() - p,
        {
            p = p + 1;
        }
        let found = p < self.rows.len() && self.rows[p].timestamp == ts;
        proof {
            if !found {
                assert forall|i: int|
                    0 <= i < self.rows@.len() implies (#[trigger] self.rows@[i]).timestamp
                    != ts by {
                    if i >= p {
                        assert(self.rows@[p as int].timestamp <= self.rows@[i].timestamp);
                    }
                }
                assert(!m.rows.dom().contains(ts as int));
            } else {
                assert(m.rows.dom().contains(ts as int));
                assert(m.rows[ts as int] == self.rows@[p as int].cells@);
            }
        }
        // Build the merged row.
        let mut cells: Vec<Option<u64>> = Vec::new();
        let mut stored: Vec<Option<u64>> = Vec::new();
        let ghost target = merged_row(m, ts as int, vmap, kset);
        let mut i: usize = 0;
        while i < self.columns.len()
            invariant
                i <= self.columns@.len(),
                cells@.len() == i,
                stored@ == cells@,
                forall|j: int| 0 <= j < i ==> cells@[j] == target[j],
                self == old(self),
                self.wf(),
                p <= self.rows@.len(),
                found ==> p < self.rows@.len() && self.rows@[p as int].timestamp == ts
                    && m.rows.dom().contains(ts as int) && m.rows[ts as int] == self.rows@[
                    p as int].cells@,
                !found ==> !m.rows.dom().contains(ts as int),
                pairs_unique(vals@),
                m == self.model(),
                vmap == pairs_map(vals@),
                kset == strs_set(known@),
                target == merged_row(m, ts as int, vmap, kset),
            decreases self.columns@.len() - i,
        {
            proof {
                assert(m.cols[i as int] == self.columns@[i as int]@);
                if found {
                    assert(self.rows@[p as int].cells@.len() == self.columns@.len());
                }
            }
            let c: Option<u64> = match find_pair(vals, &self.columns[i]) {
                Some(v) => Some(v),
                None => {
                    if found {
                        self.rows[p].cells[i]
                    } else if contains_str(known, &self.columns[i]) {
                        Some(crate::value::ZERO_BITS)
                    } else {
                        None
                    }
                },
            };
            proof {
                assert(c == target[i as int]);
            }
            cells.push(c);
            stored.push(c);
            i = i + 1;
        }
        proof {
            assert(cells@ =~= target);
        }
        // Store it.
        if found {
            let ghost old_rows = self.rows@;
            self.rows[p].cells = stored;
            proof {
                assert(self.rows@ =~= old_rows.update(
                    p as int,
                    WideRowState { timestamp: ts, cells: self.rows@[p as int].cells },
                ));
                lemma_map_of_rows_update(
                    old_rows,
                    p as int,
                    WideRowState { timestamp: ts, cells: self.rows@[p as int].cells },
                );
                assert(self.cols() =~= m.cols);
                assert(self.ts_order() =~= old(self).ts_order());
            }
        } else {
            let ghost old_rows = self.rows@;
            self.rows.insert(p, WideRowState { timestamp: ts, cells: stored });
            proof {
                lemma_map_of_rows_insert(old_rows, p as int, self.rows@[p as int]);
                assert(self.cols() =~= m.cols);
                assert forall|a: int, b: int|
                    0 <= a < b < self.rows@.len() implies self.rows@[a].timestamp
                    < self.rows@[b].timestamp by {
                    if a < p && b > p {
                        assert(old_rows[a].timestamp < ts);
                        assert(ts < old_rows[b - 1].timestamp);
                    } else if b == p {
                        assert(old_rows[a].timestamp < ts);
                    } else if a == p {
                        assert(self.rows@[b] == old_rows[b - 1]);
                        assert(old_rows[p as int].timestamp >= ts);
                        assert(old_rows[p as int].timestamp != ts);
                        if b - 1 > p {
                            assert(old_rows[p as int].timestamp < old_rows[b - 1].timestamp);
                        }
                    }
                }
            }
        }
        proof {
            assert(self.model().rows =~= model_upsert(m, ts as int, vmap, kset).rows);
        }
        cells
    }

    /// Removes every row whose timestamp is strictly before the cutoff and
    /// returns how many were removed. Rows at or past the cutoff stay as
    /// they are.
    pub fn delete_before(&mut self, cutoff: i64) -> (n: usize)
        requires
            old(self).wf(),
        ensures
            final(self).wf(),
            final(self).cols() == old(self).cols(),
            final(self).row_map() == old(self).row_map().restrict(
                Set::new(|t: int| t >= cutoff as int),
            ),
            forall|t: int| #[trigger]
                final(self).row_map().dom().contains(t) <==> (old(
                    self,
                ).row_map().dom().contains(t) && t >= cutoff as int),
            forall|t: int| #[trigger]
                final(self).row_map().dom().contains(t) ==> final(self).row_map()[t] == old(
                    self,
                ).row_map()[t],
            n == old(self).ts_order().len() - final(self).ts_order().len(),
    {
        let ghost old_rows = self.rows@;
        let mut k: usize = 0;
        while k < self.rows.len() && self.rows[k].timestamp < cutoff
            invariant
                k <= self.rows@.len(),
                forall|j: int| 0 <= j < k ==> (#[trigger] self.rows@[j]).timestamp < cutoff,
                self == old(self),
                self.wf(),
            decreases self.rows@.len() - k,
        {
            k = k + 1;
        }
        let tail = self.rows.split_off(k);
        self.rows = tail;
        proof {
            assert(self.rows@ =~= old_rows.skip(k as int));
            assert forall|i: int|
                k <= i < old_rows.len() implies (#[trigger] old_rows[i]).timestamp
                >= cutoff by {
                if i > k {
                    assert(old_rows[k as int].timestamp < old_rows[i].timestamp);
                }
            }
            lemma_map_of_rows_skip(old_rows, k as int, cutoff);
            lemma_map_of_rows_dom(old_rows);
            lemma_map_of_rows_dom(self.rows@);
            assert forall|t: int| #[trigger]
                self.row_map().dom().contains(t) implies (map_of_rows(old_rows).dom().contains(t)
                && t >= cutoff as int) by {
                let i = choose|i: int|
                    0 <= i < self.rows@.len() && (#[trigger] self.rows@[i]).timestamp == t;
                assert(old_rows[k + i].timestamp == t);
            }
            assert forall|t: int|
                (map_of_rows(old_rows).dom().contains(t) && t >= cutoff as int) implies
            #[trigger] self.row_map().dom().contains(t) by {
                let i = choose|i: int|
                    0 <= i < old_rows.len() && (#[trigger] old_rows[i]).timestamp == t;
                assert(i >= k);
                assert(self.rows@[i - k].timestamp == t);
            }
        }
        k
    }

    /// The index of the column with this name, if it exists.
    pub fn column_index(&self, name: &String) -> (r: Option<usize>)
        requires
            self.wf(),
        ensures
            match r {
                Some(j) => j < self.cols().len() && self.cols()[j as int] == name@,
                None => !self.cols().contains(name@),
            },
    {
        let mut i: usize = 0;
        while i < self.columns.len()
            invariant
                i <= self.columns.len(),
                forall|j: int| 0 <= j < i ==> self.cols()[j] != name@,
            decreases self.columns.len() - i,
        {
            if self.columns[i].eq(name) {
                proof {
                    assert(self.cols()[i as int] == name@);
                }
                return Some(i);
            }
            i = i + 1;
        }
        proof {
            if self.cols().contains(name@) {
                let j = choose|j: int| 0 <= j < self.cols().len() && self.cols()[j] == name@;
                assert(self.cols()[j] != name@);
            }
        }
        None
    }

    /// Sets every cell of one column to null; the rest of the table is
    /// untouched.
    pub fn clear_column(&mut self, j: usize)
        requires
            old(self).wf(),
            j < old(self).cols().len(),
        ensures
            final(self).wf(),
            final(self).cols() == old(self).cols(),
            final(self).ts_order() == old(self).ts_order(),
            final(self).row_map().dom() == old(self).row_map().dom(),
            forall|t: int| #[trigger]
                old(self).row_map().dom().contains(t) ==> final(self).row_map()[t] == old(
                    self,
                ).row_map()[t].update(j as int, None::<u64>),
    {
        let ghost old_rows = self.rows@;
        let mut i: usize = 0;
        while i < self.rows.len()
            invariant
                i <= self.rows.len(),
                self.columns == old(self).columns,
                j < self.columns@.len(),
                self.rows@.len() == old_rows.len(),
                forall|a: int| 0 <= a < i ==> #[trigger] self.rows@[a].timestamp
                    == old_rows[a].timestamp && self.rows@[a].cells@ == old_rows[a].cells@.update(
                    j as int,
                    None::<u64>,
                ),
                forall|a: int| i <= a < old_rows.len() ==> self.rows@[a] == old_rows[a],
                old_rows == old(self).rows@,
                old(self).wf(),
            decreases self.rows.len() - i,
        {
            proof {
                assert(old_rows[i as int].cells@.len() == self.columns@.len());
            }
            self.rows[i].cells[j] = None;
            i = i + 1;
        }
        proof {
            assert(self.cols() =~= old(self).cols());
            assert(self.ts_order() =~= old(self).ts_order());
            lemma_map_of_rows_dom(old_rows);
            lemma_map_of_rows_dom(self.rows@);
            assert forall|t: int| #[trigger]
                self.row_map().dom().contains(t) implies old(self).row_map().dom().contains(
                t,
            ) by {
                let a = choose|a: int|
                    0 <= a < self.rows@.len() && (#[trigger] self.rows@[a]).timestamp == t;
                assert(old_rows[a].timestamp == t);
            }
            assert forall|t: int| #[trigger]
                old(self).row_map().dom().contains(t) implies self.row_map().dom().contains(t)
                && self.row_map()[t] == old(self).row_map()[t].update(j as int, None::<u64>) by {
                let a = choose|a: int|
                    0 <= a < old_rows.len() && (#[trigger] old_rows[a]).timestamp == t;
                assert(self.rows@[a].timestamp == t);
                assert(self.row_map()[t] == self.rows@[a].cells@);
            }
            assert(self.row_map().dom() =~= old(self).row_map().dom());
        }
    }

    /// Every stored row, oldest first, as pairs of timestamp and cells.
    pub fn all_rows(&self) -> (r: Vec<(i64, Vec<Option<u64>>)>)
        requires
            self.wf(),
        ensures
            r@.len() == self.ts_order().len(),
            forall|i: int|
                0 <= i < r@.len() ==> (#[trigger] r@[i]).0 as int == self.ts_order()[i]
                    && r@[i].1@ == self.row_map()[self.ts_order()[i]],
    {
        let mut r: Vec<(i64, Vec<Option<u64>>)> = Vec::new();
        let mut i: usize = 0;
        while i < self.rows.len()
            invariant
                i <= self.rows.len(),
                r@.len() == i,
                self.wf(),
                forall|a: int|
                    0 <= a < i ==> (#[trigger] r@[a]).0 == self.rows@[a].timestamp && r@[a].1@
                        == self.rows@[a].cells@,
            decreases self.rows.len() - i,
        {
            let mut cells: Vec<Option<u64>> = Vec::new();
            let mut c: usize = 0;
            let ncells = self.rows[i].cells.len();
            while c < ncells
                invariant
                    c <= ncells,
                    i < self.rows@.len(),
                    ncells == self.rows@[i as int].cells@.len(),
                    cells@ == self.rows@[i as int].cells@.take(c as int),
                decreases ncells - c,
            {
                cells.push(self.rows[i].cells[c]);
                proof {
                    assert(cells@ =~= self.rows@[i as int].cells@.take(c + 1));
                }
                c = c + 1;
            }
            proof {
                assert(cells@ =~= self.rows@[i as int].cells@);
            }
            r.push((self.rows[i].timestamp, cells));
            i = i + 1;
        }
        proof {
            lemma_map_of_rows_dom(self.rows@);
        }
        r
    }
}

/// How many of the first `upto` stored rows (oldest first) have a non-null
/// cell in column `j`.
pub open spec fn some_count(
    ord: Seq<int>,
    rows: Map<int, Seq<Option<u64>>>,
    j: int,
    upto: int,
) -> nat
    decreases upto,
{
    if upto <= 0 {
        0
    } else {
        some_count(ord, rows, j, upto - 1) + (if rows[ord[upto - 1]][j] is Some {
            1nat
        } else {
            0nat
        })
    }
}

impl WideTable {
    /// Nulls the cells of column `j` in the oldest rows where it is non-null,
    /// keeping the newest `keep` non-null cells; returns how many cells were
    /// nulled.
    pub fn clear_oldest_in_column(&mut self, j: usize, keep: usize) -> (d: usize)
        requires
            old(self).wf(),
            j < old(self).cols().len(),
        ensures
            final(self).wf(),
            final(self).cols() == old(self).cols(),
            final(self).ts_order() == old(self).ts_order(),
            final(self).row_map().dom() == old(self).row_map().dom(),
            ({
                let ord = old(self).ts_order();
                let m = old(self).row_map();
                let total = some_count(ord, m, j as int, ord.len() as int);
                &&& d == if total > keep {
                    total - keep
                } else {
                    0int
                }
                &&& forall|idx: int|
                    0 <= idx < ord.len() ==> final(self).row_map()[#[trigger] ord[idx]] == (if m[ord[idx]][j as int] is Some && some_count(ord, m, j as int, idx) < d {
                        m[ord[idx]].update(j as int, None::<u64>)
                    } else {
                        m[ord[idx]]
                    })
            }),
    {
        let ghost ord = self.ts_order();
        let ghost m0 = self.row_map();
        // Count the non-null cells of the column.
        let mut total: usize = 0;
        let mut i: usize = 0;
        while i < self.rows.len()
            invariant
                self == old(self),
                self.wf(),
                j < self.columns@.len(),
                i <= self.rows@.len(),
                total <= i,
                ord == self.ts_order(),
                m0 == self.row_map(),
                total == some_count(ord, m0, j as int, i as int),
            decreases self.rows@.len() - i,
        {
            proof {
                lemma_map_of_rows_dom(self.rows@);
                assert(ord[i as int] == self.rows@[i as int].timestamp as int);
                assert(m0[ord[i as int]] == self.rows@[i as int].cells@);
                assert(self.rows@[i as int].cells@.len() == self.columns@.len());
            }
            if self.rows[i].cells[j].is_some() {
                total = total + 1;
            }
            i = i + 1;
        }
        let d: usize = if total > keep {
            total - keep
        } else {
            0
        };
        // Null that many, oldest first.
        let ghost old_rows = self.rows@;
        let mut remaining: usize = d;
        let mut i: usize = 0;
        while i < self.rows.len()
            invariant
                self.rows@.len() == old_rows.len(),
                self.columns == old(self).columns,
                j < self.columns@.len(),
                i <= self.rows@.len(),
                old_rows == old(self).rows@,
                old(self).wf(),
                ord == old(self).ts_order(),
                m0 == old(self).row_map(),
                forall|a: int| i <= a < old_rows.len() ==> self.rows@[a] == (
                #[trigger] old_rows[a]),
                forall|a: int| 0 <= a < i ==> self.rows@[a].timestamp == (
                #[trigger] old_rows[a]).timestamp && self.rows@[a].cells@ == (if old_rows[a].cells@[
                    j as int] is Some && some_count(ord, m0, j as int, a) < d {
                    old_rows[a].cells@.update(j as int, None::<u64>)
                } else {
                    old_rows[a].cells@
                }),
                remaining == (if some_count(ord, m0, j as int, i as int) < d {
                    d - some_count(ord, m0, j as int, i as int)
                } else {
                    0int
                }),
            decreases self.rows@.len() - i,
        {
            let ghost pre = self.rows@;
            proof {
                lemma_map_of_rows_dom(old_rows);
                assert(ord[i as int] == old_rows[i as int].timestamp as int);
                assert(m0[ord[i as int]] == old_rows[i as int].cells@);
                assert(old_rows[i as int].cells@.len() == self.columns@.len());
            }
            if remaining > 0 && self.rows[i].cells[j].is_some() {
                proof {
                    assert(some_count(ord, m0, j as int, i as int) < d);
                }
                self.rows[i].cells[j] = None;
                remaining = remaining - 1;
                proof {
                    assert(self.rows@[i as int].timestamp == old_rows[i as int].timestamp);
                    assert(self.rows@[i as int].cells@ == old_rows[i as int].cells@.update(
                        j as int,
                        None::<u64>,
                    ));
                }
            } else {
                proof {
                    if old_rows[i as int].cells@[j as int] is Some {
                        assert(remaining == 0);
                        assert(some_count(ord, m0, j as int, i as int) >= d);
                    }
                    assert(self.rows@[i as int] == old_rows[i as int]);
                }
            }
            proof {
                assert forall|a: int| 0 <= a < i + 1 implies self.rows@[a].timestamp == (
                #[trigger] old_rows[a]).timestamp && self.rows@[a].cells@ == (if old_rows[a].cells@[
                j as int] is Some && some_count(ord, m0, j as int, a) < d {
                    old_rows[a].cells@.update(j as int, None::<u64>)
                } else {
                    old_rows[a].cells@
                }) by {
                    if a < i {
                        assert(self.rows@[a] == pre[a]);
                    }
                }
            }
            i = i + 1;
        }
        proof {
            assert forall|a: int, b: int|
                0 <= a < b < self.rows@.len() implies self.rows@[a].timestamp
                < self.rows@[b].timestamp by {
                assert(self.rows@[a].timestamp == old_rows[a].timestamp);
                assert(self.rows@[b].timestamp == old_rows[b].timestamp);
            }
            assert forall|a: int|
                0 <= a < self.rows@.len() implies (#[trigger] self.rows@[a]).cells@.len()
                == self.columns@.len() by {
                assert(old_rows[a].cells@.len() == self.columns@.len());
            }
            assert(self.cols() =~= old(self).cols());
            assert(self.ts_order() =~= old(self).ts_order());
            lemma_map_of_rows_dom(old_rows);
            lemma_map_of_rows_dom(self.rows@);
            assert forall|t: int| #[trigger]
                self.row_map().dom().contains(t) implies old(self).row_map().dom().contains(
                t,
            ) by {
                let a = choose|a: int|
                    0 <= a < self.rows@.len() && (#[trigger] self.rows@[a]).timestamp == t;
                assert(old_rows[a].timestamp == t);
            }
            assert forall|t: int| #[trigger]
                old(self).row_map().dom().contains(t) implies self.row_map().dom().contains(
                t,
            ) by {
                let a = choose|a: int|
                    0 <= a < old_rows.len() && (#[trigger] old_rows[a]).timestamp == t;
                assert(self.rows@[a].timestamp == t);
            }
            assert(self.row_map().dom() =~= old(self).row_map().dom());
            assert forall|idx: int| 0 <= idx < ord.len() implies self.row_map()[#[trigger] ord[idx]]
                == (if m0[ord[idx]][j as int] is Some && some_count(ord, m0, j as int, idx) < d {
                m0[ord[idx]].update(j as int, None::<u64>)
            } else {
                m0[ord[idx]]
            }) by {
                assert(ord[idx] == old_rows[idx].timestamp as int);
                assert(m0[ord[idx]] == old_rows[idx].cells@);
                assert(self.row_map()[ord[idx]] == self.rows@[idx].cells@);
            }
        }
        d
    }
}

impl WideTable {
    /// Facts a well-formed table guarantees about its public views: the
    /// timestamps are strictly increasing and are exactly the stored keys,
    /// the column names are distinct, and every stored row is as wide as
    /// the column list.
    pub proof fn lemma_view_facts(&self)
        requires
            self.wf(),
        ensures
            forall|a: int, b: int|
                0 <= a < b < self.ts_order().len() ==> self.ts_order()[a] < self.ts_order()[b],
            forall|a: int|
                0 <= a < self.ts_order().len() ==> self.row_map().dom().contains(
                    #[trigger] self.ts_order()[a],
                ),
            forall|t: int| #[trigger] self.row_map().dom().contains(t) ==> exists|a: int|
                0 <= a < self.ts_order().len() && self.ts_order()[a] == t,
            self.row_map().dom().len() == self.ts_order().len(),
            self.row_map().dom().finite(),
            forall|i: int, j: int|
                0 <= i < j < self.cols().len() ==> self.cols()[i] != self.cols()[j],
            forall|t: int| #[trigger]
                self.row_map().dom().contains(t) ==> self.row_map()[t].len() == self.cols().len(),
    {
        lemma_map_of_rows_dom(self.rows@);
        lemma_map_of_rows_len(self.rows@);
        assert forall|t: int| #[trigger]
            self.row_map().dom().contains(t) implies exists|a: int|
            0 <= a < self.ts_order().len() && self.ts_order()[a] == t by {
            let i = choose|i: int|
                0 <= i < self.rows@.len() && (#[trigger] self.rows@[i]).timestamp == t;
            assert(self.ts_order()[i] == t);
        }
        assert forall|t: int| #[trigger]
            self.row_map().dom().contains(t) implies self.row_map()[t].len()
            == self.cols().len() by {
            let i = choose|i: int|
                0 <= i < self.rows@.len() && (#[trigger] self.rows@[i]).timestamp == t;
            assert(self.row_map()[t] == self.rows@[i].cells@);
        }
    }
}

/// Removing a prefix of rows that all lie before the cutoff, when the rest
/// lie at or past it, restricts the map to timestamps at or past the cutoff.
proof fn lemma_map_of_rows_skip(rows: Seq<WideRowState>, k: int, cutoff: i64)
    requires
        rows_sorted(rows),
        0 <= k <= rows.len(),
        forall|i: int| 0 <= i < k ==> (#[trigger] rows[i]).timestamp < cutoff,
        forall|i: int| k <= i < rows.len() ==> (#[trigger] rows[i]).timestamp >= cutoff,
    ensures
        map_of_rows(rows.skip(k)) == map_of_rows(rows).restrict(Set::new(|t: int| t >= cutoff as int)),
    decreases rows.len(),
{
    let s = Set::new(|t: int| t >= cutoff as int);
    if rows.len() == 0 {
        assert(rows.skip(k) =~= rows);
        assert(map_of_rows(rows).restrict(s) =~= Map::empty());
    } else if k == rows.len() {
        assert(rows.skip(k) =~= Seq::<WideRowState>::empty());
        lemma_map_of_rows_dom(rows);
        assert forall|t: int| !(#[trigger] map_of_rows(rows).restrict(s).dom().contains(t)) by {
            if map_of_rows(rows).dom().contains(t) && t >= cutoff as int {
                let i = choose|i: int|
                    0 <= i < rows.len() && (#[trigger] rows[i]).timestamp == t;
                assert(rows[i].timestamp < cutoff);
            }
        }
        assert(map_of_rows(rows).restrict(s) =~= Map::empty());
    } else {
        let dl = rows.drop_last();
        lemma_map_of_rows_skip(dl, k, cutoff);
        assert(rows.skip(k).drop_last() =~= dl.skip(k));
        assert(rows.skip(k).last() == rows.last());
        assert(rows.skip(k).len() > 0);
        assert(s.contains(rows.last().timestamp as int));
        assert(map_of_rows(rows.skip(k)) =~= map_of_rows(rows).restrict(s));
    }
}

/// The value bound to `name` in the pair list, if any.
pub fn find_pair(vals: &Vec<(String, u64)>, name: &String) -> (r: Option<u64>)
    requires
        pairs_unique(vals@),
    ensures
        match r {
            Some(v) => pairs_map(vals@).dom().contains(name@) && pairs_map(vals@)[name@] == v,
            None => !pairs_map(vals@).dom().contains(name@),
        },
{
    proof {
        lemma_pairs_map(vals@);
    }
    let mut i: usize = 0;
    while i < vals.len()
        invariant
            i <= vals.len(),
            pairs_unique(vals@),
            forall|j: int| 0 <= j < i ==> (#[trigger] vals@[j]).0@ != name@,
        decreases vals.len() - i,
    {
        if vals[i].0.eq(name) {
            proof {
                lemma_pairs_map(vals@);
                let ghost j = i as int;
                assert((vals@[j]).0@ == name@);
                assert(pairs_map(vals@).dom().contains(name@));
                assert(pairs_map(vals@)[name@] == vals@[j].1);
            }
            return Some(vals[i].1);
        }
        i = i + 1;
    }
    proof {
        lemma_pairs_map(vals@);
        if pairs_map(vals@).dom().contains(name@) {
            let j = choose|j: int| 0 <= j < vals@.len() && (#[trigger] vals@[j]).0@ == name@;
            assert(vals@[j].0@ != name@);
        }
    }
    None
}

/// Whether `name` is among the given strings.
pub fn contains_str(names: &Vec<String>, name: &String) -> (r: bool)
    ensures
        r == strs_set(names@).contains(name@),
{
    let mut i: usize = 0;
    while i < names.len()
        invariant
            i <= names.len(),
            forall|j: int| 0 <= j < i ==> (#[trigger] names@[j])@ != name@,
        decreases names.len() - i,
    {
        if names[i].eq(name) {
            proof {
                assert(names@.map_values(|s: String| s@)[i as int] == name@);
                assert(names@.map_values(|s: String| s@).contains(name@));
            }
            return true;
        }
        i = i + 1;
    }
    proof {
        if strs_set(names@).contains(name@) {
            let ms = names@.map_values(|s: String| s@);
            assert(ms.contains(name@));
            let j = choose|j: int| 0 <= j < ms.len() && ms[j] == name@;
            assert(names@[j]@ != name@);
        }
    }
    false
}

/// With distinct tags, the pair list's map holds exactly the listed tags,
/// each bound to its pair's value.
pub proof fn lemma_pairs_map(pairs: Seq<(String, u64)>)
    requires
        pairs_unique(pairs),
    ensures
        forall|k: Seq<char>| #[trigger] pairs_map(pairs).dom().contains(k) <==> exists|i: int|
            0 <= i < pairs.len() && (#[trigger] pairs[i]).0@ == k,
        forall|i: int|
            0 <= i < pairs.len() ==> pairs_map(pairs)[(#[trigger] pairs[i]).0@] == pairs[i].1,
    decreases pairs.len(),
{
    if pairs.len() > 0 {
        let dl = pairs.drop_last();
        lemma_pairs_map(dl);
        assert(forall|i: int| 0 <= i < pairs.len() - 1 ==> dl[i] == (#[trigger] pairs[i]));
        assert forall|i: int| 0 <= i < pairs.len() - 1 implies pairs_map(pairs)[(
        #[trigger] pairs[i]).0@] == pairs[i].1 by {
            assert(pairs[i].0@ != pairs.last().0@);
        }
        assert forall|k: Seq<char>| #[trigger]
            pairs_map(pairs).dom().contains(k) implies exists|i: int|
            0 <= i < pairs.len() && (#[trigger] pairs[i]).0@ == k by {
            if k == pairs.last().0@ {
                assert(pairs[pairs.len() - 1].0@ == k);
            } else {
                assert(pairs_map(dl).dom().contains(k));
                let i = choose|i: int| 0 <= i < dl.len() && (#[trigger] dl[i]).0@ == k;
                assert(pairs[i].0@ == k);
            }
        }
        assert forall|k: Seq<char>|
            (exists|i: int| 0 <= i < pairs.len() && (#[trigger] pairs[i]).0@ == k) implies
        #[trigger] pairs_map(pairs).dom().contains(k) by {
            let i = choose|i: int| 0 <= i < pairs.len() && (#[trigger] pairs[i]).0@ == k;
            if i < pairs.len() - 1 {
                assert(dl[i].0@ == k);
            }
        }
    }
}

/// Replacing the row at `p` by one with the same timestamp updates the map
/// at that timestamp.
proof fn lemma_map_of_rows_update(rows: Seq<WideRowState>, p: int, r: WideRowState)
    requires
        rows_sorted(rows),
        0 <= p < rows.len(),
        r.timestamp == rows[p].timestamp,
    ensures
        map_of_rows(rows.update(p, r)) == map_of_rows(rows).insert(r.timestamp as int, r.cells@),
    decreases rows.len(),
{
    let u = rows.update(p, r);
    if p == rows.len() - 1 {
        assert(u.drop_last() =~= rows.drop_last());
        assert(u.last() == r);
        assert(map_of_rows(u) =~= map_of_rows(rows).insert(r.timestamp as int, r.cells@));
    } else {
        assert(u.drop_last() =~= rows.drop_last().update(p, r));
        assert(u.last() == rows.last());
        lemma_map_of_rows_update(rows.drop_last(), p, r);
        assert(r.timestamp < rows.last().timestamp);
        assert(map_of_rows(u) =~= map_of_rows(rows).insert(r.timestamp as int, r.cells@));
    }
}

/// Inserting a row with a fresh timestamp at any position inserts it into
/// the map.
proof fn lemma_map_of_rows_insert(rows: Seq<WideRowState>, p: int, r: WideRowState)
    requires
        0 <= p <= rows.len(),
        forall|i: int| 0 <= i < rows.len() ==> (#[trigger] rows[i]).timestamp != r.timestamp,
    ensures
        map_of_rows(rows.insert(p, r)) == map_of_rows(rows).insert(r.timestamp as int, r.cells@),
    decreases rows.len(),
{
    let u = rows.insert(p, r);
    if p == rows.len() {
        assert(u.drop_last() =~= rows);
        assert(u.last() == r);
    } else {
        assert(u.drop_last() =~= rows.drop_last().insert(p, r));
        assert(u.last() == rows.last());
        lemma_map_of_rows_insert(rows.drop_last(), p, r);
        assert(rows[rows.len() - 1].timestamp != r.timestamp);
        assert(map_of_rows(u) =~= map_of_rows(rows).insert(r.timestamp as int, r.cells@));
    }
}

/// With rows in strictly increasing timestamp order, the map holds exactly
/// the rows' timestamps, each bound to that row's cells.
pub proof fn lemma_map_of_rows_dom(rows: Seq<WideRowState>)
    requires
        rows_sorted(rows),
    ensures
        forall|t: int| #[trigger] map_of_rows(rows).dom().contains(t) <==> exists|i: int|
            0 <= i < rows.len() && (#[trigger] rows[i]).timestamp == t,
        forall|i: int|
            0 <= i < rows.len() ==> map_of_rows(rows)[(#[trigger] rows[i]).timestamp as int]
                == rows[i].cells@,
    decreases rows.len(),
{
    if rows.len() > 0 {
        lemma_map_of_rows_dom(rows.drop_last());
        assert(forall|i: int|
            0 <= i < rows.len() - 1 ==> rows.drop_last()[i] == (#[trigger] rows[i]));
        assert forall|i: int| 0 <= i < rows.len() - 1 implies map_of_rows(rows)[(
        #[trigger] rows[i]).timestamp as int] == rows[i].cells@ by {
            assert(rows[i].timestamp < rows.last().timestamp);
        }
        assert forall|t: int| #[trigger]
            map_of_rows(rows).dom().contains(t) implies exists|i: int|
            0 <= i < rows.len() && (#[trigger] rows[i]).timestamp == t by {
            if t == rows.last().timestamp as int {
                assert(rows[rows.len() - 1].timestamp == t);
            } else {
                let dl = rows.drop_last();
                assert(map_of_rows(dl).dom().contains(t));
                let i = choose|i: int| 0 <= i < dl.len() && (#[trigger] dl[i]).timestamp == t;
                assert(rows[i].timestamp == t);
            }
        }
        assert forall|t: int|
            (exists|i: int| 0 <= i < rows.len() && (#[trigger] rows[i]).timestamp == t) implies
        #[trigger] map_of_rows(rows).dom().contains(t) by {
            let i = choose|i: int| 0 <= i < rows.len() && (#[trigger] rows[i]).timestamp == t;
            if i < rows.len() - 1 {
                assert(rows.drop_last()[i].timestamp == t);
            }
        }
    }
}

/// The number of stored timestamps equals the number of rows.
pub proof fn lemma_map_of_rows_len(rows: Seq<WideRowState>)
    requires
        rows_sorted(rows),
    ensures
        map_of_rows(rows).dom().len() == rows.len(),
        map_of_rows(rows).dom().finite(),
    decreases rows.len(),
{
    if rows.len() == 0 {
    } else {
        lemma_map_of_rows_len(rows.drop_last());
        lemma_map_of_rows_dom(rows.drop_last());
        assert(!map_of_rows(rows.drop_last()).dom().contains(rows.last().timestamp as int));
    }
}

/// Pushing one null cell onto every row shifts the map pointwise.
proof fn lemma_map_of_rows_push_cell(old_rows: Seq<WideRowState>, new_rows: Seq<WideRowState>)
    requires
        old_rows.len() == new_rows.len(),
        forall|j: int| 0 <= j < old_rows.len() ==> (#[trigger] new_rows[j]).timestamp
            == old_rows[j].timestamp && new_rows[j].cells@ == old_rows[j].cells@.push(None::<u64>),
    ensures
        map_of_rows(new_rows).dom() =~= map_of_rows(old_rows).dom(),
        forall|t: int| #[trigger] map_of_rows(old_rows).dom().contains(t) ==> map_of_rows(
            new_rows,
        )[t] == map_of_rows(old_rows)[t].push(None::<u64>),
    decreases old_rows.len(),
{
    if old_rows.len() > 0 {
        lemma_map_of_rows_push_cell(old_rows.drop_last(), new_rows.drop_last());
        assert(forall|j: int|
            0 <= j < old_rows.len() - 1 ==> old_rows.drop_last()[j] == (#[trigger] old_rows[j]));
        assert(forall|j: int|
            0 <= j < new_rows.len() - 1 ==> new_rows.drop_last()[j] == (#[trigger] new_rows[j]));
    }
}

} // verus!
