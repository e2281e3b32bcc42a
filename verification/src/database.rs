//! The local-store engine: reading records, the column-name sanitizer, and
//! the manager that merges narrow readings into the wide table, evolves its
//! schema, and trims it. Every mutation is mirrored to the on-disk store by
//! replaying the actions the manager returns.

use vstd::prelude::*;

use crate::text::{char_alphanumeric, chars_to_string, str_to_chars, ascii_digit, is_ascii_digit_char};
use crate::wide_table::{
    TableModel, WideTable, lemma_pairs_map, merged_row, model_upsert, pairs_map, pairs_unique,
    strs_set, some_count,
};

verus! {

/// One narrow reading: a tag, a timestamp in milliseconds UTC, and the
/// reading's value as raw 64-bit IEEE 754 bits.
#[derive(Debug)]
pub struct TimeSeriesRecord {
    pub tag_name: String,
    pub timestamp: i64,
    pub value_bits: u64,
}

/// One merged wide row: a timestamp and the values supplied for it, keyed by
/// sanitized column name, each name at most once.
pub struct WideTimeSeriesRecord {
    pub timestamp: i64,
    pub tag_values: Vec<(String, u64)>,
}

/// A character the sanitizer keeps as it is.
pub open spec fn keep_char(c: char) -> bool {
    char_alphanumeric(c) || c == '_'
}

/// Every kept character unchanged, every other one replaced by underscore.
pub open spec fn mapped_chars(s: Seq<char>) -> Seq<char> {
    s.map_values(|c: char| if keep_char(c) { c } else { '_' })
}

/// How many underscores the string starts with.
pub open spec fn lead_underscores(s: Seq<char>) -> int
    decreases s.len(),
{
    if s.len() == 0 {
        0
    } else if s[0] != '_' {
        0
    } else {
        1 + lead_underscores(s.drop_first())
    }
}

/// How many underscores the string ends with.
pub open spec fn trail_underscores(s: Seq<char>) -> int
    decreases s.len(),
{
    if s.len() == 0 {
        0
    } else if s.last() != '_' {
        0
    } else {
        1 + trail_underscores(s.drop_last())
    }
}

/// The string with leading and trailing underscores removed.
pub open spec fn trim_underscores(s: Seq<char>) -> Seq<char> {
    let lo = lead_underscores(s);
    if lo == s.len() {
        Seq::empty()
    } else {
        s.subrange(lo, s.len() - trail_underscores(s))
    }
}

/// The column identifier derived from a tag name: every character outside
/// letters, digits and underscore becomes an underscore, leading and
/// trailing underscores go, a leading digit gets a fixed prefix, and an
/// empty result falls back to a fixed placeholder. Distinct tags may
/// collapse to the same identifier; the collapse is consistent.
pub open spec fn sanitize_spec(s: Seq<char>) -> Seq<char> {
    let t = trim_underscores(mapped_chars(s));
    if t.len() == 0 {
        seq!['u', 'n', 'k', 'n', 'o', 'w', 'n', '_', 't', 'a', 'g']
    } else if is_ascii_digit_char(t[0]) {
        seq!['t', 'a', 'g', '_'] + t
    } else {
        t
    }
}

/// The first `lead_underscores(s)` characters are underscores and, unless
/// the whole string is underscores, the next one is not.
proof fn lemma_lead_underscores(s: Seq<char>)
    ensures
        0 <= lead_underscores(s) <= s.len(),
        forall|i: int| 0 <= i < lead_underscores(s) ==> s[i] == '_',
        lead_underscores(s) < s.len() ==> s[lead_underscores(s)] != '_',
    decreases s.len(),
{
    if s.len() > 0 && s[0] == '_' {
        lemma_lead_underscores(s.drop_first());
        assert forall|i: int| 0 <= i < lead_underscores(s) implies s[i] == '_' by {
            if i > 0 {
                assert(s.drop_first()[i - 1] == '_');
            }
        }
        if lead_underscores(s) < s.len() {
            assert(s.drop_first()[lead_underscores(s) - 1] != '_');
        }
    }
}

/// The last `trail_underscores(s)` characters are underscores and, unless
/// the whole string is underscores, the one before them is not.
proof fn lemma_trail_underscores(s: Seq<char>)
    ensures
        0 <= trail_underscores(s) <= s.len(),
        forall|i: int| s.len() - trail_underscores(s) <= i < s.len() ==> s[i] == '_',
        trail_underscores(s) < s.len() ==> s[s.len() - trail_underscores(s) - 1] != '_',
    decreases s.len(),
{
    if s.len() > 0 && s.last() == '_' {
        lemma_trail_underscores(s.drop_last());
        assert(forall|i: int| 0 <= i < s.len() - 1 ==> s.drop_last()[i] == s[i]);
    }
}

/// Derives the storage-safe column identifier for a tag name; the same name
/// always yields the same identifier.
pub fn sanitize_tag(tag_name: &str) -> (r: String)
    ensures
        r@ == sanitize_spec(tag_name@),
{
    let chars = str_to_chars(tag_name);
    let mut mapped: Vec<char> = Vec::new();
    let mut i: usize = 0;
    while i < chars.len()
        invariant
            i <= chars@.len(),
            mapped@.len() == i,
            forall|j: int| 0 <= j < i ==> mapped@[j] == mapped_chars(chars@)[j],
        decreases chars@.len() - i,
    {
        let c = chars[i];
        if c.is_alphanumeric() || c == '_' {
            mapped.push(c);
        } else {
            mapped.push('_');
        }
        i = i + 1;
    }
    proof {
        assert(mapped@ =~= mapped_chars(chars@));
        lemma_lead_underscores(mapped@);
        lemma_trail_underscores(mapped@);
    }
    let ghost ms = mapped@;
    // Trim leading underscores.
    let mut lo: usize = 0;
    while lo < mapped.len() && mapped[lo] == '_'
        invariant
            lo <= mapped@.len(),
            mapped@ == ms,
            forall|j: int| 0 <= j < lo ==> ms[j] == '_',
        decreases mapped@.len() - lo,
    {
        lo = lo + 1;
    }
    proof {
        lemma_lead_underscores(ms);
        if lo < lead_underscores(ms) {
            assert(ms[lo as int] == '_');
        }
        if lo > lead_underscores(ms) {
            assert(ms[lead_underscores(ms)] == '_');
        }
        assert(lo == lead_underscores(ms));
    }
    if lo == mapped.len() {
        // Nothing but underscores (or empty): the fixed placeholder.
        let mut out: Vec<char> = Vec::new();
        out.push('u');
        out.push('n');
        out.push('k');
        out.push('n');
        out.push('o');
        out.push('w');
        out.push('n');
        out.push('_');
        out.push('t');
        out.push('a');
        out.push('g');
        proof {
            assert(trim_underscores(ms).len() == 0);
            assert(out@ =~= sanitize_spec(tag_name@));
        }
        return chars_to_string(&out);
    }
    // Trim trailing underscores.
    let mut hi: usize = mapped.len();
    while hi > lo + 1 && mapped[hi - 1] == '_'
        invariant
            lo < hi <= mapped@.len(),
            mapped@ == ms,
            lo < ms.len() && ms[lo as int] != '_',
            forall|j: int| hi <= j < ms.len() ==> ms[j] == '_',
        decreases hi,
    {
        hi = hi - 1;
    }
    proof {
        lemma_trail_underscores(ms);
        let tr = trail_underscores(ms);
        if hi < ms.len() - tr {
            assert(ms[hi as int] == '_');
            assert(ms.len() - tr <= hi);
        }
        if hi > ms.len() - tr {
            assert(ms[ms.len() - tr - 1] != '_');
            assert(ms.len() - tr - 1 >= lo);
            if ms.len() - tr - 1 >= hi {
                assert(ms[ms.len() - tr - 1] == '_');
            }
            assert(ms.len() - tr - 1 == hi - 1);
            assert(ms[hi - 1] == '_' ==> hi == lo + 1);
            if hi == lo + 1 {
                assert(ms.len() - tr == lo);
                assert(ms[lo as int] == '_');
            }
        }
        assert(hi == ms.len() - tr);
    }
    let ghost t = trim_underscores(ms);
    proof {
        assert(t =~= ms.subrange(lo as int, hi as int));
    }
    let mut out: Vec<char> = Vec::new();
    if ascii_digit(mapped[lo]) {
        out.push('t');
        out.push('a');
        out.push('g');
        out.push('_');
    }
    let ghost prefix = out@;
    let mut k: usize = lo;
    while k < hi
        invariant
            lo <= k <= hi <= mapped@.len(),
            mapped@ == ms,
            out@ == prefix + ms.subrange(lo as int, k as int),
        decreases hi - k,
    {
        out.push(mapped[k]);
        proof {
            assert(out@ =~= prefix + ms.subrange(lo as int, k + 1));
        }
        k = k + 1;
    }
    proof {
        assert(t[0] == ms[lo as int]);
        if is_ascii_digit_char(t[0]) {
            assert(prefix =~= seq!['t', 'a', 'g', '_']);
            assert(out@ =~= sanitize_spec(tag_name@));
        } else {
            assert(prefix =~= Seq::<char>::empty());
            assert(out@ =~= sanitize_spec(tag_name@));
        }
    }
    chars_to_string(&out)
}

/// Tag names that differ only in characters the sanitizer replaces collapse
/// to the same column identifier; the collapse is consistent, not resolved.
pub proof fn lemma_sanitize_collapse(a: Seq<char>, b: Seq<char>)
    requires
        a.len() == b.len(),
        forall|i: int|
            0 <= i < a.len() ==> a[i] == b[i] || (!keep_char(#[trigger] a[i]) && !keep_char(b[i])),
    ensures
        sanitize_spec(a) == sanitize_spec(b),
{
    assert(mapped_chars(a) =~= mapped_chars(b));
}

/// One step the on-disk store must replay to stay equal to the in-memory
/// table: add a column, store a full row, or drop rows before a cutoff.
#[derive(Debug, PartialEq)]
pub enum StoreAction {
    AddColumn(String),
    UpsertRow(i64, Vec<Option<u64>>),
    DeleteBefore(i64),
}

/// What one action does to the table.
pub open spec fn apply_action(m: TableModel, a: StoreAction) -> TableModel {
    match a {
        StoreAction::AddColumn(name) => if m.cols.contains(name@) {
            m
        } else {
            TableModel {
                cols: m.cols.push(name@),
                rows: Map::new(
                    |t: int| m.rows.dom().contains(t),
                    |t: int| m.rows[t].push(None::<u64>),
                ),
            }
        },
        StoreAction::UpsertRow(ts, cells) => TableModel {
            cols: m.cols,
            rows: m.rows.insert(ts as int, cells@),
        },
        StoreAction::DeleteBefore(c) => TableModel {
            cols: m.cols,
            rows: m.rows.restrict(Set::new(|t: int| t >= c as int)),
        },
    }
}

/// What a list of actions, replayed in order, does to the table.
pub open spec fn apply_actions(m: TableModel, s: Seq<StoreAction>) -> TableModel
    decreases s.len(),
{
    if s.len() == 0 {
        m
    } else {
        apply_action(apply_actions(m, s.drop_last()), s.last())
    }
}

/// Replaying a concatenation is replaying the parts in turn.
pub proof fn lemma_apply_actions_concat(m: TableModel, a: Seq<StoreAction>, b: Seq<StoreAction>)
    ensures
        apply_actions(m, a + b) == apply_actions(apply_actions(m, a), b),
    decreases b.len(),
{
    if b.len() == 0 {
        assert(a + b =~= a);
    } else {
        assert((a + b).drop_last() =~= a + b.drop_last());
        lemma_apply_actions_concat(m, a, b.drop_last());
        assert((a + b).last() == b.last());
    }
}

/// The sanitized column a reading lands in.
pub open spec fn reading_col(r: TimeSeriesRecord) -> Seq<char> {
    sanitize_spec(r.tag_name@)
}

/// Readings grouped by exact timestamp into sparse per-timestamp value maps,
/// keyed by sanitized column; for readings sharing a timestamp and column,
/// the later one in the batch wins.
pub open spec fn group_rows(records: Seq<TimeSeriesRecord>) -> Map<int, Map<Seq<char>, u64>>
    decreases records.len(),
{
    if records.len() == 0 {
        Map::empty()
    } else {
        let m = group_rows(records.drop_last());
        let r = records.last();
        let row = if m.dom().contains(r.timestamp as int) {
            m[r.timestamp as int]
        } else {
            Map::empty()
        };
        m.insert(r.timestamp as int, row.insert(reading_col(r), r.value_bits))
    }
}

/// The batch that a list of merged wide rows stands for.
pub open spec fn batch_map(ws: Seq<WideTimeSeriesRecord>) -> Map<int, Map<Seq<char>, u64>>
    decreases ws.len(),
{
    if ws.len() == 0 {
        Map::empty()
    } else {
        batch_map(ws.drop_last()).insert(
            ws.last().timestamp as int,
            pairs_map(ws.last().tag_values@),
        )
    }
}

/// Merged rows with pairwise distinct timestamps.
pub open spec fn batch_distinct(ws: Seq<WideTimeSeriesRecord>) -> bool {
    forall|a: int, b: int|
        0 <= a < b < ws.len() ==> (#[trigger] ws[a]).timestamp != (#[trigger] ws[b]).timestamp
}

/// With distinct timestamps, the batch holds exactly the rows' timestamps,
/// each bound to that row's value map.
pub proof fn lemma_batch_map(ws: Seq<WideTimeSeriesRecord>)
    requires
        batch_distinct(ws),
    ensures
        forall|t: int| #[trigger] batch_map(ws).dom().contains(t) <==> exists|a: int|
            0 <= a < ws.len() && (#[trigger] ws[a]).timestamp == t,
        forall|a: int|
            0 <= a < ws.len() ==> batch_map(ws)[(#[trigger] ws[a]).timestamp as int] == pairs_map(
                ws[a].tag_values@,
            ),
    decreases ws.len(),
{
    if ws.len() > 0 {
        let dl = ws.drop_last();
        lemma_batch_map(dl);
        assert(forall|a: int| 0 <= a < ws.len() - 1 ==> dl[a] == (#[trigger] ws[a]));
        assert forall|a: int| 0 <= a < ws.len() - 1 implies batch_map(ws)[(
        #[trigger] ws[a]).timestamp as int] == pairs_map(ws[a].tag_values@) by {
            assert(ws[a].timestamp != ws.last().timestamp);
        }
        assert forall|t: int| #[trigger] batch_map(ws).dom().contains(t) implies exists|a: int|
            0 <= a < ws.len() && (#[trigger] ws[a]).timestamp == t by {
            if t == ws.last().timestamp as int {
                assert(ws[ws.len() - 1].timestamp == t);
            } else {
                assert(batch_map(dl).dom().contains(t));
                let a = choose|a: int| 0 <= a < dl.len() && (#[trigger] dl[a]).timestamp == t;
                assert(ws[a].timestamp == t);
            }
        }
        assert forall|t: int|
            (exists|a: int| 0 <= a < ws.len() && (#[trigger] ws[a]).timestamp == t) implies
        #[trigger] batch_map(ws).dom().contains(t) by {
            let a = choose|a: int| 0 <= a < ws.len() && (#[trigger] ws[a]).timestamp == t;
            if a < ws.len() - 1 {
                assert(dl[a].timestamp == t);
            }
        }
    }
}

/// Replacing the row at `p` by one with the same timestamp updates the
/// batch at that timestamp.
proof fn lemma_batch_map_update(ws: Seq<WideTimeSeriesRecord>, p: int, w: WideTimeSeriesRecord)
    requires
        batch_distinct(ws),
        0 <= p < ws.len(),
        w.timestamp == ws[p].timestamp,
    ensures
        batch_map(ws.update(p, w)) == batch_map(ws).insert(
            w.timestamp as int,
            pairs_map(w.tag_values@),
        ),
    decreases ws.len(),
{
    let u = ws.update(p, w);
    if p == ws.len() - 1 {
        assert(u.drop_last() =~= ws.drop_last());
        assert(u.last() == w);
        assert(batch_map(u) =~= batch_map(ws).insert(w.timestamp as int, pairs_map(w.tag_values@)));
    } else {
        assert(u.drop_last() =~= ws.drop_last().update(p, w));
        assert(u.last() == ws.last());
        lemma_batch_map_update(ws.drop_last(), p, w);
        assert(w.timestamp != ws.last().timestamp);
        assert(batch_map(u) =~= batch_map(ws).insert(w.timestamp as int, pairs_map(w.tag_values@)));
    }
}

/// Replacing the pair at `k` by one with the same tag updates the value map
/// at that tag.
proof fn lemma_pairs_map_update(pairs: Seq<(String, u64)>, k: int, pr: (String, u64))
    requires
        pairs_unique(pairs),
        0 <= k < pairs.len(),
        pr.0@ == pairs[k].0@,
    ensures
        pairs_map(pairs.update(k, pr)) == pairs_map(pairs).insert(pr.0@, pr.1),
    decreases pairs.len(),
{
    let u = pairs.update(k, pr);
    if k == pairs.len() - 1 {
        assert(u.drop_last() =~= pairs.drop_last());
        assert(u.last() == pr);
        assert(pairs_map(u) =~= pairs_map(pairs).insert(pr.0@, pr.1));
    } else {
        assert(u.drop_last() =~= pairs.drop_last().update(k, pr));
        assert(u.last() == pairs.last());
        lemma_pairs_map_update(pairs.drop_last(), k, pr);
        assert(pr.0@ != pairs.last().0@);
        assert(pairs_map(u) =~= pairs_map(pairs).insert(pr.0@, pr.1));
    }
}

/// Groups narrow readings by exact timestamp into sparse wide rows, one per
/// distinct timestamp, keyed by sanitized column name; for duplicate
/// (timestamp, column) pairs the later reading in the batch wins.
pub fn merge_readings(records: &Vec<TimeSeriesRecord>) -> (ws: Vec<WideTimeSeriesRecord>)
    ensures
        batch_map(ws@) == group_rows(records@),
        batch_distinct(ws@),
        forall|a: int| 0 <= a < ws@.len() ==> pairs_unique((#[trigger] ws@[a]).tag_values@),
{
    let mut ws: Vec<WideTimeSeriesRecord> = Vec::new();
    let mut i: usize = 0;
    while i < records.len()
        invariant
            i <= records@.len(),
            batch_map(ws@) == group_rows(records@.take(i as int)),
            batch_distinct(ws@),
            forall|a: int| 0 <= a < ws@.len() ==> pairs_unique((#[trigger] ws@[a]).tag_values@),
        decreases records@.len() - i,
    {
        let ts = records[i].timestamp;
        let col = sanitize_tag(records[i].tag_name.as_str());
        let v = records[i].value_bits;
        proof {
            lemma_batch_map(ws@);
            assert(records@.take(i + 1).drop_last() =~= records@.take(i as int));
            assert(records@.take(i + 1).last() == records@[i as int]);
        }
        // Find the row for this timestamp, if one was already started.
        let mut p: usize = 0;
        while p < ws.len() && ws[p].timestamp != ts
            invariant
                p <= ws@.len(),
                forall|a: int| 0 <= a < p ==> (#[trigger] ws@[a]).timestamp != ts,
            decreases ws@.len() - p,
        {
            p = p + 1;
        }
        if p < ws.len() {
            proof {
                assert(batch_map(ws@).dom().contains(ts as int));
                assert(batch_map(ws@)[ts as int] == pairs_map(ws@[p as int].tag_values@));
            }
            let ghost pre = ws@;
            // Within the row, a later reading for the same column wins.
            let mut k: usize = 0;
            let nvals = ws[p].tag_values.len();
            let mut hit = false;
            while k < nvals && !hit
                invariant
                    k <= nvals,
                    p < ws@.len(),
                    ws@ == pre,
                    nvals == ws@[p as int].tag_values@.len(),
                    !hit ==> forall|a: int|
                        0 <= a < k ==> (#[trigger] ws@[p as int].tag_values@[a]).0@ != col@,
                    hit ==> k < nvals && ws@[p as int].tag_values@[k as int].0@ == col@,
                decreases nvals - k, (if hit { 0int } else { 1int }),
            {
                if ws[p].tag_values[k].0.eq(&col) {
                    hit = true;
                } else {
                    k = k + 1;
                }
            }
            if hit {
                let ghost oldvals = ws@[p as int].tag_values@;
                ws[p].tag_values[k] = (col, v);
                proof {
                    assert(ws@[p as int].tag_values@ =~= oldvals.update(
                        k as int,
                        ws@[p as int].tag_values@[k as int],
                    ));
                    lemma_pairs_map_update(
                        oldvals,
                        k as int,
                        ws@[p as int].tag_values@[k as int],
                    );
                    assert(ws@ =~= pre.update(p as int, ws@[p as int]));
                    lemma_batch_map_update(pre, p as int, ws@[p as int]);
                    assert forall|a: int, b: int|
                        0 <= a < b < oldvals.len() implies (#[trigger] ws@[p as int].tag_values@[a]).0@
                        != (#[trigger] ws@[p as int].tag_values@[b]).0@ by {
                        assert(oldvals[a].0@ != oldvals[b].0@);
                    }
                    assert(batch_map(ws@) == group_rows(records@.take(i + 1)));
                }
            } else {
                let ghost oldvals = ws@[p as int].tag_values@;
                ws[p].tag_values.push((col, v));
                proof {
                    assert(ws@[p as int].tag_values@.drop_last() =~= oldvals);
                    assert(pairs_map(ws@[p as int].tag_values@) == pairs_map(oldvals).insert(
                        col@,
                        v,
                    ));
                    lemma_pairs_map(oldvals);
                    assert forall|a: int, b: int|
                        0 <= a < b < ws@[p as int].tag_values@.len() implies (
                        #[trigger] ws@[p as int].tag_values@[a]).0@ != (
                        #[trigger] ws@[p as int].tag_values@[b]).0@ by {
                        if b < oldvals.len() {
                            assert(oldvals[a].0@ != oldvals[b].0@);
                        } else {
                            assert(ws@[p as int].tag_values@[b].0@ == col@);
                            if oldvals[a].0@ == col@ {
                                assert(pairs_map(oldvals).dom().contains(col@));
                            }
                        }
                    }
                    assert(ws@ =~= pre.update(p as int, ws@[p as int]));
                    lemma_batch_map_update(pre, p as int, ws@[p as int]);
                    assert(batch_map(ws@) == group_rows(records@.take(i + 1)));
                }
            }
            proof {
                assert forall|a: int, b: int|
                    0 <= a < b < ws@.len() implies (#[trigger] ws@[a]).timestamp != (
                #[trigger] ws@[b]).timestamp by {
                    assert(pre[a].timestamp != pre[b].timestamp);
                }
            }
        } else {
            proof {
                if batch_map(ws@).dom().contains(ts as int) {
                    let a = choose|a: int|
                        0 <= a < ws@.len() && (#[trigger] ws@[a]).timestamp == ts as int;
                    assert(ws@[a].timestamp != ts);
                }
                assert(!group_rows(records@.take(i as int)).dom().contains(ts as int));
            }
            let mut tv: Vec<(String, u64)> = Vec::new();
            tv.push((col, v));
            let ghost pre2 = ws@;
            ws.push(WideTimeSeriesRecord { timestamp: ts, tag_values: tv });
            proof {
                assert(ws@.drop_last() =~= pre2);
                assert(ws@.last().tag_values@.drop_last() =~= Seq::<(String, u64)>::empty());
                assert(pairs_map(Seq::<(String, u64)>::empty()) =~= Map::<Seq<char>, u64>::empty());
                assert(ws@.last().tag_values@.last() == (ws@.last().tag_values@[0]));
                assert(pairs_map(ws@.last().tag_values@) =~= Map::<Seq<char>, u64>::empty().insert(
                    col@,
                    v,
                ));
                assert(batch_map(ws@) == group_rows(records@.take(i + 1)));
            }
        }
        i = i + 1;
    }
    proof {
        assert(records@.take(records@.len() as int) =~= records@);
    }
    ws
}

/// The table after ensuring a column of this name: unchanged if present,
/// else the column appended with a null cell in every stored row.
pub open spec fn model_add_col(m: TableModel, name: Seq<char>) -> TableModel {
    if m.cols.contains(name) {
        m
    } else {
        TableModel {
            cols: m.cols.push(name),
            rows: Map::new(|t: int| m.rows.dom().contains(t), |t: int| m.rows[t].push(None::<u64>)),
        }
    }
}

/// The table after ensuring a column for each tag's sanitized name, in
/// order.
pub open spec fn model_add_tags(m: TableModel, tags: Seq<String>) -> TableModel
    decreases tags.len(),
{
    if tags.len() == 0 {
        m
    } else {
        model_add_col(model_add_tags(m, tags.drop_last()), sanitize_spec(tags.last()@))
    }
}

/// The table after upserting a whole batch of merged rows: each batch
/// timestamp gets its merged row against the old table, every other stored
/// row stays.
pub open spec fn model_upsert_batch(
    m: TableModel,
    batch: Map<int, Map<Seq<char>, u64>>,
    known: Set<Seq<char>>,
) -> TableModel {
    TableModel {
        cols: m.cols,
        rows: Map::new(
            |t: int| m.rows.dom().contains(t) || batch.dom().contains(t),
            |t: int|
                if batch.dom().contains(t) {
                    merged_row(m, t, batch[t], known)
                } else {
                    m.rows[t]
                },
        ),
    }
}

/// The sanitized column names of a list of tag names, as a set.
pub open spec fn cols_of_tags(tags: Seq<Seq<char>>) -> Set<Seq<char>> {
    tags.map_values(|t: Seq<char>| sanitize_spec(t)).to_set()
}

/// The live-tag list after remembering each tag, in order; a tag already
/// listed stays where it is.
pub open spec fn add_tags_list(list: Seq<Seq<char>>, tags: Seq<String>) -> Seq<Seq<char>>
    decreases tags.len(),
{
    if tags.len() == 0 {
        list
    } else {
        let l = add_tags_list(list, tags.drop_last());
        if l.contains(tags.last()@) {
            l
        } else {
            l.push(tags.last()@)
        }
    }
}

/// The live-tag list after forgetting the given names, order kept.
pub open spec fn remove_tags_list(list: Seq<Seq<char>>, removed: Set<Seq<char>>) -> Seq<Seq<char>> {
    list.filter(|x: Seq<char>| !removed.contains(x))
}

/// Ensuring columns never drops one, and afterwards every requested tag has
/// its column.
pub proof fn lemma_add_tags_superset(m: TableModel, tags: Seq<String>)
    ensures
        forall|c: Seq<char>| m.cols.contains(c) ==> model_add_tags(m, tags).cols.contains(c),
        forall|i: int|
            0 <= i < tags.len() ==> model_add_tags(m, tags).cols.contains(
                sanitize_spec((#[trigger] tags[i])@),
            ),
        m.cols.len() <= model_add_tags(m, tags).cols.len(),
        model_add_tags(m, tags).rows.dom() == m.rows.dom(),
    decreases tags.len(),
{
    if tags.len() > 0 {
        let prev = model_add_tags(m, tags.drop_last());
        lemma_add_tags_superset(m, tags.drop_last());
        assert(forall|i: int| 0 <= i < tags.len() - 1 ==> tags.drop_last()[i] == (
        #[trigger] tags[i]));
        let name = sanitize_spec(tags.last()@);
        if !prev.cols.contains(name) {
            assert forall|c: Seq<char>| prev.cols.contains(c) implies model_add_tags(
                m,
                tags,
            ).cols.contains(c) by {
                let j = choose|j: int| 0 <= j < prev.cols.len() && prev.cols[j] == c;
                assert(prev.cols.push(name)[j] == c);
            }
            assert(prev.cols.push(name)[prev.cols.len() as int] == name);
            assert(model_add_tags(m, tags).rows.dom() =~= prev.rows.dom());
        }
        assert(tags[tags.len() - 1] == tags.last());
    }
}

/// The local-store engine. It keeps the set of live tag names, an exact
/// in-memory image of the wide table, and the path of the on-disk store
/// that replays its actions.
pub struct DatabaseManager {
    db_path: String,
    known_tags: Vec<String>,
    table: WideTable,
}

impl DatabaseManager {
    /// The table is well-formed and no tag is listed twice.
    pub closed spec fn wf(&self) -> bool {
        &&& self.table.wf()
        &&& forall|i: int, j: int|
            0 <= i < j < self.known_tags@.len() ==> self.known_tags@[i]@ != self.known_tags@[j]@
    }

    /// The live tag names, in the order they were first seen.
    pub closed spec fn known_list(&self) -> Seq<Seq<char>> {
        self.known_tags@.map_values(|s: String| s@)
    }

    /// The set of live tag names.
    pub open spec fn known(&self) -> Set<Seq<char>> {
        self.known_list().to_set()
    }

    /// The columns the live tags map to.
    pub open spec fn known_cols(&self) -> Set<Seq<char>> {
        cols_of_tags(self.known_list())
    }

    /// The wide table's abstract state.
    pub closed spec fn table_model(&self) -> TableModel {
        self.table.model()
    }

    /// The stored timestamps, oldest first.
    pub closed spec fn ts_list(&self) -> Seq<int> {
        self.table.ts_order()
    }

    /// The configured path of the on-disk store.
    pub closed spec fn spec_db_path(&self) -> Seq<char> {
        self.db_path@
    }

    /// A fresh manager: no tags, no columns, no rows.
    pub fn new(db_path: String) -> (r: Self)
        ensures
            r.wf(),
            r.known() == Set::<Seq<char>>::empty(),
            r.table_model().cols == Seq::<Seq<char>>::empty(),
            r.table_model().rows == Map::<int, Seq<Option<u64>>>::empty(),
            r.ts_list() == Seq::<int>::empty(),
            r.spec_db_path() == db_path@,
    {
        let r = DatabaseManager {
            db_path,
            known_tags: Vec::new(),
            table: WideTable::new(),
        };
        proof {
            assert(r.known_list() =~= Seq::<Seq<char>>::empty());
            assert(r.known() =~= Set::<Seq<char>>::empty());
        }
        r
    }

    /// The path of the on-disk store this manager models.
    pub fn db_path(&self) -> (r: &String)
        ensures
            r@ == self.spec_db_path(),
    {
        &self.db_path
    }

    /// Derives the storage-safe column identifier for a tag name.
    pub fn sanitize_column_name(&self, tag_name: &str) -> (r: String)
        ensures
            r@ == sanitize_spec(tag_name@),
    {
        sanitize_tag(tag_name)
    }

    /// The live tag names, first-seen order, as a fresh vector.
    pub fn get_known_tags(&self) -> (r: Vec<String>)
        requires
            self.wf(),
        ensures
            r@.map_values(|s: String| s@) == self.known_list(),
    {
        let mut r: Vec<String> = Vec::new();
        let mut i: usize = 0;
        while i < self.known_tags.len()
            invariant
                i <= self.known_tags@.len(),
                r@.len() == i,
                forall|j: int| 0 <= j < i ==> (#[trigger] r@[j])@ == self.known_list()[j],
            decreases self.known_tags@.len() - i,
        {
            r.push(self.known_tags[i].clone());
            i = i + 1;
        }
        proof {
            assert(r@.map_values(|s: String| s@) =~= self.known_list());
        }
        r
    }

    /// How many rows the table holds.
    pub fn get_record_count(&self) -> (n: usize)
        requires
            self.wf(),
        ensures
            n == self.ts_list().len(),
            n == self.table_model().rows.dom().len(),
    {
        self.table.row_count()
    }

    /// The largest stored timestamp, if any row is stored.
    pub fn get_latest_timestamp(&self) -> (r: Option<i64>)
        requires
            self.wf(),
        ensures
            match r {
                Some(t) => {
                    &&& self.table_model().rows.dom().contains(t as int)
                    &&& forall|u: int| self.table_model().rows.dom().contains(u) ==> u <= t as int
                },
                None => self.table_model().rows.dom() == Set::<int>::empty(),
            },
            (r is None) <==> self.ts_list().len() == 0,
    {
        let r = self.table.max_timestamp();
        proof {
            if r is None {
                assert(self.table_model().rows.dom() =~= Set::<int>::empty());
            }
        }
        r
    }

    /// The physical column names, in order.
    pub fn get_columns(&self) -> (r: Vec<String>)
        requires
            self.wf(),
        ensures
            r@.map_values(|s: String| s@) == self.table_model().cols,
    {
        self.table.column_names()
    }

    /// Remembers a tag as live.
    fn add_known_tag(&mut self, tag: &String)
        requires
            old(self).wf(),
        ensures
            final(self).wf(),
            final(self).known() == old(self).known().insert(tag@),
            final(self).known_list() == (if old(self).known_list().contains(tag@) {
                old(self).known_list()
            } else {
                old(self).known_list().push(tag@)
            }),
            final(self).table == old(self).table,
            final(self).db_path == old(self).db_path,
    {
        proof {
            broadcast use vstd::prelude::Seq::lemma_push_map_commute;
            broadcast use vstd::prelude::Seq::lemma_push_to_set_commute;

            if self.known_list().contains(tag@) {
                let j = choose|j: int|
                    0 <= j < self.known_list().len() && self.known_list()[j] == tag@;
                assert(self.known_list()[j] == self.known_tags@[j]@);
                assert(strs_set(self.known_tags@).contains(tag@));
            } else {
                if strs_set(self.known_tags@).contains(tag@) {
                    let ms = self.known_tags@.map_values(|s: String| s@);
                    let j = choose|j: int| 0 <= j < ms.len() && ms[j] == tag@;
                    assert(self.known_list().contains(tag@));
                }
            }
        }
        if !crate::wide_table::contains_str(&self.known_tags, tag) {
            let ghost oldlist = self.known_tags@;
            self.known_tags.push(tag.clone());
            proof {
                assert(self.known_list() =~= oldlist.map_values(|s: String| s@).push(tag@));
                assert(self.known() =~= old(self).known().insert(tag@));
                assert forall|i: int, j: int|
                    0 <= i < j < self.known_tags@.len() implies self.known_tags@[i]@
                    != self.known_tags@[j]@ by {
                    if j == self.known_tags@.len() - 1 {
                        if oldlist[i]@ == tag@ {
                            assert(old(self).known_list()[i] == tag@);
                            assert(old(self).known().contains(tag@));
                        }
                    }
                }
            }
        } else {
            proof {
                assert(self.known() =~= old(self).known().insert(tag@));
            }
        }
    }

    /// The live tags' column names, one per tag.
    fn known_cols_vec(&self) -> (r: Vec<String>)
        requires
            self.wf(),
        ensures
            strs_set(r@) == self.known_cols(),
    {
        let mut r: Vec<String> = Vec::new();
        let mut i: usize = 0;
        while i < self.known_tags.len()
            invariant
                i <= self.known_tags@.len(),
                r@.len() == i,
                forall|j: int| 0 <= j < i ==> (#[trigger] r@[j])@ == sanitize_spec(
                    self.known_list()[j],
                ),
            decreases self.known_tags@.len() - i,
        {
            r.push(sanitize_tag(self.known_tags[i].as_str()));
            i = i + 1;
        }
        proof {
            assert(r@.map_values(|s: String| s@) =~= self.known_list().map_values(
                |t: Seq<char>| sanitize_spec(t),
            ));
        }
        r
    }

    /// Ensures a physical column for each tag's sanitized name and remembers
    /// every tag as live. Re-ensuring an existing column changes nothing.
    /// Returns the actions the on-disk store must replay.
    pub fn add_columns_to_wide_table(&mut self, tags: &Vec<String>) -> (acts: Vec<StoreAction>)
        requires
            old(self).wf(),
        ensures
            final(self).wf(),
            final(self).table_model() == model_add_tags(old(self).table_model(), tags@),
            final(self).known() == old(self).known().union(strs_set(tags@)),
            final(self).known_list() == add_tags_list(old(self).known_list(), tags@),
            apply_actions(old(self).table_model(), acts@) == final(self).table_model(),
            final(self).ts_list() == old(self).ts_list(),
            final(self).spec_db_path() == old(self).spec_db_path(),
    {
        let ghost m0 = self.table.model();
        let mut acts: Vec<StoreAction> = Vec::new();
        let mut i: usize = 0;
        while i < tags.len()
            invariant
                i <= tags@.len(),
                self.wf(),
                self.table.model() == model_add_tags(m0, tags@.take(i as int)),
                self.known() == old(self).known().union(strs_set(tags@.take(i as int))),
                self.known_list() == add_tags_list(old(self).known_list(), tags@.take(i as int)),
                apply_actions(m0, acts@) == self.table.model(),
                self.table.ts_order() == old(self).ts_list(),
                m0 == old(self).table_model(),
                self.db_path == old(self).db_path,
            decreases tags@.len() - i,
        {
            proof {
                broadcast use vstd::prelude::Seq::lemma_push_map_commute;
                broadcast use vstd::prelude::Seq::lemma_push_to_set_commute;

                assert(tags@.take(i + 1).drop_last() =~= tags@.take(i as int));
                assert(tags@.take(i + 1).last() == tags@[i as int]);
            }
            let ghost mprev = self.table.model();
            let name = sanitize_tag(tags[i].as_str());
            if !self.table.has_column(&name) {
                self.table.add_column(name.clone());
                proof {
                    assert(self.table.model().cols =~= mprev.cols.push(name@));
                    assert(self.table.model().rows =~= model_add_col(mprev, name@).rows);
                    assert(self.table.model() == model_add_col(mprev, name@));
                }
                let ghost prev_acts = acts@;
                acts.push(StoreAction::AddColumn(name));
                proof {
                    assert(acts@.drop_last() =~= prev_acts);
                    assert(apply_actions(m0, acts@) == self.table.model());
                }
            } else {
                proof {
                    assert(self.table.model() == model_add_col(mprev, name@));
                }
            }
            self.add_known_tag(&tags[i]);
            proof {
                broadcast use vstd::prelude::Seq::lemma_push_map_commute;
                broadcast use vstd::prelude::Seq::lemma_push_to_set_commute;

                assert(tags@.take(i + 1) =~= tags@.take(i as int).push(tags@[i as int]));
                assert(strs_set(tags@.take(i + 1)) =~= strs_set(tags@.take(i as int)).insert(
                    tags@[i as int]@,
                ));
                assert(self.known() =~= old(self).known().union(strs_set(tags@.take(i + 1))));
            }
            i = i + 1;
        }
        proof {
            assert(tags@.take(tags@.len() as int) =~= tags@);
        }
        acts
    }
}


/// The tag names of a batch of readings, in order.
pub open spec fn tags_list(records: Seq<TimeSeriesRecord>) -> Seq<String> {
    records.map_values(|r: TimeSeriesRecord| r.tag_name)
}

/// The latest value supplied for each column by a snapshot batch; a later
/// reading for the same column wins.
pub open spec fn snapshot_vals(records: Seq<TimeSeriesRecord>) -> Map<Seq<char>, u64>
    decreases records.len(),
{
    if records.len() == 0 {
        Map::empty()
    } else {
        snapshot_vals(records.drop_last()).insert(
            reading_col(records.last()),
            records.last().value_bits,
        )
    }
}

/// An empty batch changes nothing.
proof fn lemma_upsert_batch_empty(m: TableModel, known: Set<Seq<char>>)
    ensures
        model_upsert_batch(m, Map::empty(), known) == m,
{
    assert(model_upsert_batch(m, Map::empty(), known).rows =~= m.rows);
}

/// One more row upserted on top of an applied batch extends the batch,
/// provided its timestamp is fresh to the batch.
proof fn lemma_upsert_batch_step(
    m: TableModel,
    batch: Map<int, Map<Seq<char>, u64>>,
    known: Set<Seq<char>>,
    ts: int,
    vals: Map<Seq<char>, u64>,
)
    requires
        !batch.dom().contains(ts),
    ensures
        model_upsert(model_upsert_batch(m, batch, known), ts, vals, known) == model_upsert_batch(
            m,
            batch.insert(ts, vals),
            known,
        ),
{
    let mb = model_upsert_batch(m, batch, known);
    assert(merged_row(mb, ts, vals, known) =~= merged_row(m, ts, vals, known));
    assert(model_upsert(mb, ts, vals, known).rows =~= model_upsert_batch(
        m,
        batch.insert(ts, vals),
        known,
    ).rows);
}

/// Idempotent upsert: applying the same merged batch twice leaves the same
/// stored table as applying it once. The second application finds every
/// batch timestamp present with exactly the merged values and overwrites
/// them with themselves.
pub proof fn lemma_upsert_batch_idempotent(
    m: TableModel,
    batch: Map<int, Map<Seq<char>, u64>>,
    known: Set<Seq<char>>,
)
    ensures
        model_upsert_batch(model_upsert_batch(m, batch, known), batch, known) == model_upsert_batch(
            m,
            batch,
            known,
        ),
{
    let m1 = model_upsert_batch(m, batch, known);
    let m2 = model_upsert_batch(m1, batch, known);
    assert forall|t: int| batch.dom().contains(t) implies merged_row(m1, t, batch[t], known) =~=
    merged_row(m, t, batch[t], known) by {
        assert(m1.rows.dom().contains(t));
        assert(m1.rows[t] == merged_row(m, t, batch[t], known));
    }
    assert(m2.rows =~= m1.rows);
}

impl DatabaseManager {
    /// Reshapes a batch of narrow readings into wide rows and upserts them:
    /// the batch's tags become live columns, each distinct timestamp gets
    /// one row upsert, and a fresh row defaults the other live columns to
    /// zero. Returns the actions the on-disk store must replay.
    pub fn convert_and_insert_wide(&mut self, records: &Vec<TimeSeriesRecord>) -> (acts: Vec<
        StoreAction,
    >)
        requires
            old(self).wf(),
        ensures
            final(self).wf(),
            final(self).known() == old(self).known().union(strs_set(tags_list(records@))),
            final(self).known_list() == add_tags_list(old(self).known_list(), tags_list(records@)),
            final(self).table_model() == model_upsert_batch(
                model_add_tags(old(self).table_model(), tags_list(records@)),
                group_rows(records@),
                final(self).known_cols(),
            ),
            apply_actions(old(self).table_model(), acts@) == final(self).table_model(),
            final(self).spec_db_path() == old(self).spec_db_path(),
    {
        let ghost m0 = self.table.model();
        // The batch's tag names, in order.
        let mut tags: Vec<String> = Vec::new();
        let mut i: usize = 0;
        while i < records.len()
            invariant
                i <= records@.len(),
                tags@.len() == i,
                forall|j: int| 0 <= j < i ==> (#[trigger] tags@[j]) == records@[j].tag_name,
            decreases records@.len() - i,
        {
            tags.push(records[i].tag_name.clone());
            i = i + 1;
        }
        proof {
            assert(tags@ =~= tags_list(records@));
        }
        let mut acts = self.add_columns_to_wide_table(&tags);
        let kvec = self.known_cols_vec();
        let merged = merge_readings(records);
        let ghost m1 = self.table.model();
        let ghost kset = strs_set(kvec@);
        let ghost known_after = self.known_tags@;
        proof {
            lemma_upsert_batch_empty(m1, kset);
            assert(batch_map(merged@.take(0)) =~= Map::<int, Map<Seq<char>, u64>>::empty());
        }
        let mut i: usize = 0;
        while i < merged.len()
            invariant
                i <= merged@.len(),
                self.wf(),
                self.known_tags@ == known_after,
                self.table.model() == model_upsert_batch(m1, batch_map(merged@.take(i as int)), kset),
                apply_actions(m0, acts@) == self.table.model(),
                kset == strs_set(kvec@),
                batch_distinct(merged@),
                forall|a: int| 0 <= a < merged@.len() ==> pairs_unique(
                    (#[trigger] merged@[a]).tag_values@,
                ),
                self.spec_db_path() == old(self).spec_db_path(),
            decreases merged@.len() - i,
        {
            let w = &merged[i];
            proof {
                lemma_batch_map(merged@.take(i as int));
                if batch_map(merged@.take(i as int)).dom().contains(w.timestamp as int) {
                    let a = choose|a: int|
                        0 <= a < merged@.take(i as int).len() && (#[trigger] merged@.take(
                            i as int,
                        )[a]).timestamp == w.timestamp as int;
                    assert(merged@[a].timestamp != merged@[i as int].timestamp);
                }
            }
            let cells = self.table.upsert_row(w.timestamp, &w.tag_values, &kvec);
            let ghost prev_acts = acts@;
            acts.push(StoreAction::UpsertRow(w.timestamp, cells));
            proof {
                lemma_upsert_batch_step(
                    m1,
                    batch_map(merged@.take(i as int)),
                    kset,
                    w.timestamp as int,
                    pairs_map(w.tag_values@),
                );
                assert(merged@.take(i + 1).drop_last() =~= merged@.take(i as int));
                assert(merged@.take(i + 1).last() == merged@[i as int]);
                assert(batch_map(merged@.take(i + 1)) == batch_map(merged@.take(i as int)).insert(
                    w.timestamp as int,
                    pairs_map(w.tag_values@),
                ));
                assert(acts@.drop_last() =~= prev_acts);
                assert(apply_actions(m0, acts@) == self.table.model());
            }
            i = i + 1;
        }
        proof {
            assert(merged@.take(merged@.len() as int) =~= merged@);
        }
        acts
    }

    /// Upserts the source's current snapshot as one wide row keyed by the
    /// given clock reading, a UTC instant; a later reading for the same tag
    /// wins. An empty snapshot changes nothing.
    pub fn append_latest_tagdb_data(&mut self, records: &Vec<TimeSeriesRecord>, now_ms: i64) -> (acts:
        Vec<StoreAction>)
        requires
            old(self).wf(),
        ensures
            final(self).wf(),
            final(self).spec_db_path() == old(self).spec_db_path(),
            records@.len() == 0 ==> *final(self) == *old(self) && acts@ == Seq::<StoreAction>::empty(),
            records@.len() > 0 ==> {
                &&& final(self).known() == old(self).known().union(strs_set(tags_list(records@)))
                &&& final(self).known_list() == add_tags_list(
                    old(self).known_list(),
                    tags_list(records@),
                )
                &&& final(self).table_model() == model_upsert(
                    model_add_tags(old(self).table_model(), tags_list(records@)),
                    now_ms as int,
                    snapshot_vals(records@),
                    final(self).known_cols(),
                )
                &&& apply_actions(old(self).table_model(), acts@) == final(self).table_model()
            },
    {
        if records.len() == 0 {
            let acts: Vec<StoreAction> = Vec::new();
            proof {
                assert(acts@ =~= Seq::<StoreAction>::empty());
            }
            return acts;
        }
        let ts: i64 = now_ms;
        let ghost m0 = self.table.model();
        let mut tags: Vec<String> = Vec::new();
        let mut i: usize = 0;
        while i < records.len()
            invariant
                i <= records@.len(),
                tags@.len() == i,
                forall|j: int| 0 <= j < i ==> (#[trigger] tags@[j]) == records@[j].tag_name,
            decreases records@.len() - i,
        {
            tags.push(records[i].tag_name.clone());
            i = i + 1;
        }
        proof {
            assert(tags@ =~= tags_list(records@));
        }
        let mut acts = self.add_columns_to_wide_table(&tags);
        let kvec = self.known_cols_vec();
        let ghost m1 = self.table.model();
        let ghost kset = strs_set(kvec@);
        // The snapshot as one sparse row; a later reading for a tag wins.
        let mut tv: Vec<(String, u64)> = Vec::new();
        let mut i: usize = 0;
        while i < records.len()
            invariant
                i <= records@.len(),
                pairs_unique(tv@),
                pairs_map(tv@) == snapshot_vals(records@.take(i as int)),
            decreases records@.len() - i,
        {
            let col = sanitize_tag(records[i].tag_name.as_str());
            let v = records[i].value_bits;
            proof {
                assert(records@.take(i + 1).drop_last() =~= records@.take(i as int));
                assert(records@.take(i + 1).last() == records@[i as int]);
            }
            let mut k: usize = 0;
            let nvals = tv.len();
            let mut hit = false;
            while k < nvals && !hit
                invariant
                    k <= nvals,
                    nvals == tv@.len(),
                    pairs_unique(tv@),
                    !hit ==> forall|a: int| 0 <= a < k ==> (#[trigger] tv@[a]).0@ != col@,
                    hit ==> k < nvals && tv@[k as int].0@ == col@,
                decreases nvals - k, (if hit { 0int } else { 1int }),
            {
                if tv[k].0.eq(&col) {
                    hit = true;
                } else {
                    k = k + 1;
                }
            }
            if hit {
                let ghost oldvals = tv@;
                tv[k] = (col, v);
                proof {
                    assert(tv@ =~= oldvals.update(k as int, tv@[k as int]));
                    lemma_pairs_map_update(oldvals, k as int, tv@[k as int]);
                    assert forall|a: int, b: int| 0 <= a < b < tv@.len() implies (
                    #[trigger] tv@[a]).0@ != (#[trigger] tv@[b]).0@ by {
                        assert(oldvals[a].0@ != oldvals[b].0@);
                    }
                }
            } else {
                let ghost oldvals = tv@;
                tv.push((col, v));
                proof {
                    assert(tv@.drop_last() =~= oldvals);
                    lemma_pairs_map(oldvals);
                    assert forall|a: int, b: int| 0 <= a < b < tv@.len() implies (
                    #[trigger] tv@[a]).0@ != (#[trigger] tv@[b]).0@ by {
                        if b < oldvals.len() {
                            assert(oldvals[a].0@ != oldvals[b].0@);
                        } else {
                            assert(tv@[b].0@ == col@);
                            if oldvals[a].0@ == col@ {
                                assert(pairs_map(oldvals).dom().contains(col@));
                            }
                        }
                    }
                }
            }
            i = i + 1;
        }
        proof {
            assert(records@.take(records@.len() as int) =~= records@);
        }
        let cells = self.table.upsert_row(ts, &tv, &kvec);
        let ghost prev_acts = acts@;
        acts.push(StoreAction::UpsertRow(ts, cells));
        proof {
            assert(acts@.drop_last() =~= prev_acts);
            assert(apply_actions(m0, acts@) == self.table.model());
        }
        acts
    }
}


/// The map with the first `i` listed timestamps rebound to their values in
/// `m`, everything else as in `base`.
pub open spec fn override_prefix(
    base: Map<int, Seq<Option<u64>>>,
    ord: Seq<int>,
    m: Map<int, Seq<Option<u64>>>,
    i: int,
) -> Map<int, Seq<Option<u64>>>
    decreases i,
{
    if i <= 0 {
        base
    } else {
        override_prefix(base, ord, m, i - 1).insert(ord[i - 1], m[ord[i - 1]])
    }
}

/// Overriding keeps the domain and rebinds exactly the first `i` listed
/// timestamps.
proof fn lemma_override_prefix(
    base: Map<int, Seq<Option<u64>>>,
    ord: Seq<int>,
    m: Map<int, Seq<Option<u64>>>,
    i: int,
)
    requires
        0 <= i <= ord.len(),
        forall|a: int| 0 <= a < ord.len() ==> base.dom().contains(#[trigger] ord[a]),
    ensures
        override_prefix(base, ord, m, i).dom() == base.dom(),
        forall|t: int| #[trigger] base.dom().contains(t) ==> override_prefix(base, ord, m, i)[t]
            == (if exists|a: int| 0 <= a < i && ord[a] == t {
                m[t]
            } else {
                base[t]
            }),
    decreases i,
{
    if i > 0 {
        lemma_override_prefix(base, ord, m, i - 1);
        assert(override_prefix(base, ord, m, i).dom() =~= base.dom());
        assert forall|t: int| #[trigger] base.dom().contains(t) implies override_prefix(
            base,
            ord,
            m,
            i,
        )[t] == (if exists|a: int| 0 <= a < i && ord[a] == t {
            m[t]
        } else {
            base[t]
        }) by {
            if t == ord[i - 1] {
                assert(0 <= i - 1 < i && ord[i - 1] == t);
            } else {
                if exists|a: int| 0 <= a < i && ord[a] == t {
                    let a = choose|a: int| 0 <= a < i && ord[a] == t;
                    assert(0 <= a < i - 1 && ord[a] == t);
                }
            }
        }
    }
}

/// The table after clearing the column of one retired tag: every cell of
/// that column goes null; a tag without a column changes nothing.
pub open spec fn model_clear_tag(m: TableModel, tag: Seq<char>) -> TableModel {
    let name = sanitize_spec(tag);
    if !m.cols.contains(name) {
        m
    } else {
        let j = choose|j: int| 0 <= j < m.cols.len() && m.cols[j] == name;
        TableModel {
            cols: m.cols,
            rows: Map::new(
                |t: int| m.rows.dom().contains(t),
                |t: int| m.rows[t].update(j, None::<u64>),
            ),
        }
    }
}

/// The table after clearing each retired tag's column, in order.
pub open spec fn model_clear_tags(m: TableModel, removed: Seq<Seq<char>>) -> TableModel
    decreases removed.len(),
{
    if removed.len() == 0 {
        m
    } else {
        model_clear_tag(model_clear_tags(m, removed.drop_last()), removed.last())
    }
}

/// How many row updates clearing these tags costs: one per stored row for
/// each tag that has a column.
pub open spec fn cleanup_count(cols: Seq<Seq<char>>, removed: Seq<Seq<char>>, nrows: int) -> int
    decreases removed.len(),
{
    if removed.len() == 0 {
        0
    } else {
        cleanup_count(cols, removed.drop_last(), nrows) + (if cols.contains(
            sanitize_spec(removed.last()),
        ) {
            nrows
        } else {
            0int
        })
    }
}

impl DatabaseManager {
    /// Every stored row, restated as the upsert actions that rebuild the
    /// current table from any table with the same columns and timestamps.
    /// Whether two rows hold the same cells.
    fn cells_equal(a: &Vec<Option<u64>>, b: &Vec<Option<u64>>) -> (r: bool)
        ensures
            r == (a@ == b@),
    {
        if a.len() != b.len() {
            proof {
                assert(a@ != b@);
            }
            return false;
        }
        let mut i: usize = 0;
        while i < a.len()
            invariant
                i <= a@.len(),
                a@.len() == b@.len(),
                forall|j: int| 0 <= j < i ==> a@[j] == b@[j],
            decreases a@.len() - i,
        {
            let same = match (a[i], b[i]) {
                (Some(x), Some(y)) => x == y,
                (None, None) => true,
                _ => false,
            };
            if !same {
                proof {
                    assert(a@[i as int] != b@[i as int]);
                }
                return false;
            }
            i = i + 1;
        }
        proof {
            assert(a@ =~= b@);
        }
        true
    }

    /// The upsert actions that carry the on-disk store from the given
    /// earlier state to the current one: one per row whose cells changed,
    /// oldest first; untouched rows get no action.
    fn changed_rows_actions(
        &self,
        before: &Vec<(i64, Vec<Option<u64>>)>,
        Ghost(base): Ghost<TableModel>,
    ) -> (acts: Vec<StoreAction>)
        requires
            self.wf(),
            base.cols == self.table_model().cols,
            base.rows.dom() == self.table_model().rows.dom(),
            before@.len() == self.ts_list().len(),
            forall|i: int|
                0 <= i < before@.len() ==> (#[trigger] before@[i]).0 as int == self.ts_list()[i]
                    && before@[i].1@ == base.rows[self.ts_list()[i]],
        ensures
            apply_actions(base, acts@) == self.table_model(),
    {
        proof {
            self.table.lemma_view_facts();
        }
        let ghost ord = self.table.ts_order();
        let ghost mrows = self.table.model().rows;
        let rows = self.table.all_rows();
        let mut acts: Vec<StoreAction> = Vec::new();
        let mut i: usize = 0;
        while i < rows.len()
            invariant
                i <= rows@.len(),
                rows@.len() == ord.len(),
                before@.len() == ord.len(),
                ord == self.table.ts_order(),
                mrows == self.table.model().rows,
                base.cols == self.table.model().cols,
                base.rows.dom() == mrows.dom(),
                forall|a: int| 0 <= a < ord.len() ==> mrows.dom().contains(#[trigger] ord[a]),
                forall|a: int|
                    0 <= a < rows@.len() ==> (#[trigger] rows@[a]).0 as int == ord[a]
                        && rows@[a].1@ == mrows[ord[a]],
                forall|a: int|
                    0 <= a < before@.len() ==> (#[trigger] before@[a]).0 as int == ord[a]
                        && before@[a].1@ == base.rows[ord[a]],
                apply_actions(base, acts@) == (TableModel {
                    cols: base.cols,
                    rows: override_prefix(base.rows, ord, mrows, i as int),
                }),
            decreases rows@.len() - i,
        {
            if Self::cells_equal(&rows[i].1, &before[i].1) {
                // This row is as the store already has it: no action, and
                // rebinding it in the model would change nothing.
                proof {
                    lemma_override_prefix(base.rows, ord, mrows, i as int);
                    lemma_override_prefix(base.rows, ord, mrows, i + 1);
                    assert(base.rows[ord[i as int]] == mrows[ord[i as int]]);
                    assert forall|t: int| #[trigger]
                        base.rows.dom().contains(t) implies override_prefix(
                        base.rows,
                        ord,
                        mrows,
                        i + 1,
                    )[t] == override_prefix(base.rows, ord, mrows, i as int)[t] by {
                        if exists|a: int| 0 <= a < i + 1 && ord[a] == t {
                            let a = choose|a: int| 0 <= a < i + 1 && ord[a] == t;
                            if a == i {
                                if exists|b: int| 0 <= b < i && ord[b] == t {
                                } else {
                                    assert(override_prefix(base.rows, ord, mrows, i as int)[t]
                                        == base.rows[t]);
                                }
                            } else {
                                assert(0 <= a < i && ord[a] == t);
                            }
                        }
                    }
                    assert(override_prefix(base.rows, ord, mrows, i + 1) =~= override_prefix(
                        base.rows,
                        ord,
                        mrows,
                        i as int,
                    ));
                }
            } else {
                let mut cells: Vec<Option<u64>> = Vec::new();
                let n = rows[i].1.len();
                let mut c: usize = 0;
                while c < n
                    invariant
                        c <= n,
                        i < rows@.len(),
                        n == rows@[i as int].1@.len(),
                        cells@ == rows@[i as int].1@.take(c as int),
                    decreases n - c,
                {
                    cells.push(rows[i].1[c]);
                    proof {
                        assert(cells@ =~= rows@[i as int].1@.take(c + 1));
                    }
                    c = c + 1;
                }
                proof {
                    assert(cells@ =~= rows@[i as int].1@);
                }
                let ghost prev_acts = acts@;
                acts.push(StoreAction::UpsertRow(rows[i].0, cells));
                proof {
                    assert(acts@.drop_last() =~= prev_acts);
                }
            }
            i = i + 1;
        }
        proof {
            lemma_override_prefix(base.rows, ord, mrows, ord.len() as int);
            assert forall|t: int| #[trigger]
                base.rows.dom().contains(t) implies override_prefix(
                base.rows,
                ord,
                mrows,
                ord.len() as int,
            )[t] == mrows[t] by {
                assert(mrows.dom().contains(t));
                let a = choose|a: int| 0 <= a < ord.len() && ord[a] == t;
                assert(0 <= a < ord.len() && ord[a] == t);
            }
            assert(override_prefix(base.rows, ord, mrows, ord.len() as int) =~= mrows);
        }
        acts
    }

    /// Forgets retired tags: they leave the live set; their columns and
    /// data stay.
    fn remove_known_tags(&mut self, removed: &Vec<String>)
        requires
            old(self).wf(),
        ensures
            final(self).wf(),
            final(self).known() == old(self).known().difference(strs_set(removed@)),
            final(self).known_list() == remove_tags_list(
                old(self).known_list(),
                strs_set(removed@),
            ),
            final(self).table == old(self).table,
            final(self).db_path == old(self).db_path,
    {
        let ghost rs = strs_set(removed@);
        let mut kept: Vec<String> = Vec::new();
        let mut i: usize = 0;
        while i < self.known_tags.len()
            invariant
                i <= self.known_tags@.len(),
                self == old(self),
                self.wf(),
                rs == strs_set(removed@),
                strs_set(kept@) == strs_set(self.known_tags@.take(i as int)).difference(rs),
                kept@.map_values(|s: String| s@) == remove_tags_list(
                    self.known_tags@.take(i as int).map_values(|s: String| s@),
                    strs_set(removed@),
                ),
                forall|a: int, b: int|
                    0 <= a < b < kept@.len() ==> (#[trigger] kept@[a])@ != (#[trigger] kept@[b])@,
            decreases self.known_tags@.len() - i,
        {
            proof {
                broadcast use vstd::prelude::Seq::lemma_push_map_commute;
                broadcast use vstd::prelude::Seq::lemma_push_to_set_commute;
                broadcast use vstd::prelude::Seq::lemma_filter_push;

                assert(self.known_tags@.take(i + 1) =~= self.known_tags@.take(i as int).push(
                    self.known_tags@[i as int],
                ));
                assert(strs_set(self.known_tags@.take(i + 1)) =~= strs_set(
                    self.known_tags@.take(i as int),
                ).insert(self.known_tags@[i as int]@));
                assert(self.known_tags@.take(i + 1).map_values(|s: String| s@) =~= self.known_tags@
                    .take(i as int).map_values(|s: String| s@).push(self.known_tags@[i as int]@));
            }
            if !crate::wide_table::contains_str(removed, &self.known_tags[i]) {
                let ghost oldk = kept@;
                kept.push(self.known_tags[i].clone());
                proof {
                    assert(strs_set(kept@) =~= strs_set(oldk).insert(self.known_tags@[i as int]@));
                    assert(strs_set(kept@) =~= strs_set(self.known_tags@.take(i + 1)).difference(
                        rs,
                    ));
                    assert forall|a: int, b: int|
                        0 <= a < b < kept@.len() implies (#[trigger] kept@[a])@ != (
                    #[trigger] kept@[b])@ by {
                        if b == kept@.len() - 1 {
                            assert(oldk.map_values(|s: String| s@)[a] == oldk[a]@);
                            assert(strs_set(oldk).contains(oldk[a]@));
                            if oldk[a]@ == self.known_tags@[i as int]@ {
                                let ms = self.known_tags@.take(i as int).map_values(
                                    |s: String| s@,
                                );
                                assert(ms.contains(oldk[a]@));
                                let j = choose|j: int| 0 <= j < ms.len() && ms[j] == oldk[a]@;
                                assert(self.known_tags@[j]@ == self.known_tags@[i as int]@);
                            }
                        }
                    }
                }
            } else {
                proof {
                    assert(strs_set(kept@) =~= strs_set(self.known_tags@.take(i + 1)).difference(
                        rs,
                    ));
                }
            }
            i = i + 1;
        }
        proof {
            assert(self.known_tags@.take(self.known_tags@.len() as int) =~= self.known_tags@);
        }
        self.known_tags = kept;
    }

    /// Applies a detected tag delta: appeared tags become live columns;
    /// disappeared tags leave the live set but keep their columns and
    /// historical data. Returns the actions the on-disk store must replay.
    pub fn handle_tag_changes(&mut self, tag_changes: &crate::data_source::TagChanges) -> (acts:
        Vec<StoreAction>)
        requires
            old(self).wf(),
        ensures
            final(self).wf(),
            final(self).table_model() == model_add_tags(
                old(self).table_model(),
                tag_changes.added_tags@,
            ),
            final(self).known() == old(self).known().union(
                strs_set(tag_changes.added_tags@),
            ).difference(strs_set(tag_changes.removed_tags@)),
            final(self).known_list() == remove_tags_list(
                add_tags_list(old(self).known_list(), tag_changes.added_tags@),
                strs_set(tag_changes.removed_tags@),
            ),
            apply_actions(old(self).table_model(), acts@) == final(self).table_model(),
            final(self).ts_list() == old(self).ts_list(),
            final(self).spec_db_path() == old(self).spec_db_path(),
    {
        let acts = self.add_columns_to_wide_table(&tag_changes.added_tags);
        self.remove_known_tags(&tag_changes.removed_tags);
        acts
    }

    /// Nulls every cell of each retired tag's column, keeping the rows, and
    /// counts one update per stored row for each column that existed.
    /// Returns the actions the on-disk store must replay.
    pub fn cleanup_removed_tag_data(&mut self, removed_tags: &Vec<String>) -> (r: (
        usize,
        Vec<StoreAction>,
    ))
        requires
            old(self).wf(),
            removed_tags@.len() * old(self).ts_list().len() <= usize::MAX,
        ensures
            final(self).wf(),
            final(self).table_model() == model_clear_tags(
                old(self).table_model(),
                removed_tags@.map_values(|s: String| s@),
            ),
            r.0 == cleanup_count(
                old(self).table_model().cols,
                removed_tags@.map_values(|s: String| s@),
                old(self).ts_list().len() as int,
            ),
            apply_actions(old(self).table_model(), r.1@) == final(self).table_model(),
            final(self).known() == old(self).known(),
            final(self).known_list() == old(self).known_list(),
            final(self).ts_list() == old(self).ts_list(),
            final(self).spec_db_path() == old(self).spec_db_path(),
    {
        let ghost m0 = self.table.model();
        let before = self.table.all_rows();
        let nrows = self.table.row_count();
        let mut count: usize = 0;
        let mut i: usize = 0;
        while i < removed_tags.len()
            invariant
                i <= removed_tags@.len(),
                self.wf(),
                before@.len() == old(self).ts_list().len(),
                forall|a: int|
                    0 <= a < before@.len() ==> (#[trigger] before@[a]).0 as int == old(
                        self,
                    ).ts_list()[a] && before@[a].1@ == m0.rows[old(self).ts_list()[a]],
                self.table.model() == model_clear_tags(
                    m0,
                    removed_tags@.take(i as int).map_values(|s: String| s@),
                ),
                self.table.model().cols == m0.cols,
                self.table.model().rows.dom() == m0.rows.dom(),
                self.table.ts_order() == old(self).ts_list(),
                count == cleanup_count(
                    m0.cols,
                    removed_tags@.take(i as int).map_values(|s: String| s@),
                    nrows as int,
                ),
                count <= i * nrows,
                nrows == old(self).ts_list().len(),
                removed_tags@.len() * nrows <= usize::MAX,
                m0 == old(self).table_model(),
                self.known_tags == old(self).known_tags,
                self.db_path == old(self).db_path,
            decreases removed_tags@.len() - i,
        {
            proof {
                assert(removed_tags@.take(i + 1).drop_last() =~= removed_tags@.take(i as int));
                assert(removed_tags@.take(i + 1).last() == removed_tags@[i as int]);
                assert(removed_tags@.take(i + 1).map_values(|s: String| s@).drop_last()
                    =~= removed_tags@.take(i as int).map_values(|s: String| s@));
                assert(removed_tags@.take(i + 1).map_values(|s: String| s@).last()
                    == removed_tags@[i as int]@);
                assert(count + nrows <= usize::MAX) by (nonlinear_arith)
                    requires
                        count <= i * nrows,
                        i + 1 <= removed_tags@.len(),
                        removed_tags@.len() * nrows <= usize::MAX,
                        nrows >= 0,
                        i >= 0,
                ;
                assert(count + nrows <= (i + 1) * nrows) by (nonlinear_arith)
                    requires
                        count <= i * nrows,
                        nrows >= 0,
                        i >= 0,
                ;
            }
            let ghost mprev = self.table.model();
            let col = sanitize_tag(removed_tags[i].as_str());
            match self.table.column_index(&col) {
                Some(j) => {
                    proof {
                        self.table.lemma_view_facts();
                        let jj = choose|jj: int|
                            0 <= jj < mprev.cols.len() && mprev.cols[jj] == col@;
                        assert(mprev.cols[jj] == mprev.cols[j as int]);
                        assert(jj == j as int);
                    }
                    self.table.clear_column(j);
                    count = count + nrows;
                    proof {
                        assert(self.table.model().rows =~= model_clear_tag(
                            mprev,
                            removed_tags@[i as int]@,
                        ).rows);
                        assert(self.table.model() == model_clear_tag(
                            mprev,
                            removed_tags@[i as int]@,
                        ));
                        assert(self.table.model().rows.dom() =~= mprev.rows.dom());
                        assert(self.table.ts_order() == old(self).ts_list());
                    }
                },
                None => {
                    proof {
                        assert(self.table.model() == model_clear_tag(
                            mprev,
                            removed_tags@[i as int]@,
                        ));
                    }
                },
            }
            i = i + 1;
        }
        proof {
            assert(removed_tags@.take(removed_tags@.len() as int) =~= removed_tags@);
        }
        let acts = self.changed_rows_actions(&before, Ghost(m0));
        (count, acts)
    }

    /// Deletes every stored row whose timestamp lies strictly before the
    /// cutoff; rows at or past it stay untouched. Returns how many rows
    /// went and the actions the on-disk store must replay.
    pub fn delete_data_before_time(&mut self, cutoff_time: i64) -> (r: (usize, Vec<StoreAction>))
        requires
            old(self).wf(),
        ensures
            final(self).wf(),
            final(self).table_model().cols == old(self).table_model().cols,
            final(self).table_model().rows == old(self).table_model().rows.restrict(
                Set::new(|t: int| t >= cutoff_time as int),
            ),
            forall|t: int| #[trigger]
                final(self).table_model().rows.dom().contains(t) <==> (old(
                    self,
                ).table_model().rows.dom().contains(t) && t >= cutoff_time as int),
            forall|t: int| #[trigger]
                final(self).table_model().rows.dom().contains(t)
                    ==> final(self).table_model().rows[t] == old(self).table_model().rows[t],
            r.0 == old(self).ts_list().len() - final(self).ts_list().len(),
            apply_actions(old(self).table_model(), r.1@) == final(self).table_model(),
            final(self).known() == old(self).known(),
            final(self).known_list() == old(self).known_list(),
            final(self).spec_db_path() == old(self).spec_db_path(),
    {
        let ghost m0 = self.table.model();
        let n = self.table.delete_before(cutoff_time);
        let mut acts: Vec<StoreAction> = Vec::new();
        acts.push(StoreAction::DeleteBefore(cutoff_time));
        proof {
            assert(acts@.drop_last() =~= Seq::<StoreAction>::empty());
            assert(apply_actions(m0, acts@.drop_last()) == m0);
            assert(apply_actions(m0, acts@) == apply_action(
                m0,
                StoreAction::DeleteBefore(cutoff_time),
            ));
            assert(apply_action(m0, StoreAction::DeleteBefore(cutoff_time)).rows
                =~= self.table.model().rows);
            assert(apply_actions(m0, acts@) == self.table.model());
        }
        (n, acts)
    }

    /// Deletes rows older than the given number of days, measured back from
    /// the given clock reading. Returns how many rows went and the actions
    /// the on-disk store must replay.
    pub fn delete_data_older_than_days(&mut self, days: u32, now_ms: i64) -> (r: (
        usize,
        Vec<StoreAction>,
    ))
        requires
            old(self).wf(),
            now_ms - days * 86400000 >= i64::MIN,
        ensures
            final(self).wf(),
            final(self).table_model().cols == old(self).table_model().cols,
            final(self).table_model().rows == old(self).table_model().rows.restrict(
                Set::new(|t: int| t >= now_ms - days * 86400000),
            ),
            r.0 == old(self).ts_list().len() - final(self).ts_list().len(),
            apply_actions(old(self).table_model(), r.1@) == final(self).table_model(),
            final(self).known() == old(self).known(),
            final(self).known_list() == old(self).known_list(),
            final(self).spec_db_path() == old(self).spec_db_path(),
    {
        let cutoff: i64 = now_ms - (days as i64) * 86400000;
        self.delete_data_before_time(cutoff)
    }

    /// Nulls the oldest non-null cells of one tag's column so that at most
    /// `keep_count` stay, keeping the rows themselves; a tag without a
    /// column changes nothing. Returns how many cells were nulled and the
    /// actions the on-disk store must replay.
    pub fn delete_oldest_by_tag(&mut self, tag_name: &str, keep_count: usize) -> (r: (
        usize,
        Vec<StoreAction>,
    ))
        requires
            old(self).wf(),
        ensures
            final(self).wf(),
            final(self).table_model().cols == old(self).table_model().cols,
            final(self).ts_list() == old(self).ts_list(),
            final(self).known() == old(self).known(),
            final(self).known_list() == old(self).known_list(),
            final(self).spec_db_path() == old(self).spec_db_path(),
            apply_actions(old(self).table_model(), r.1@) == final(self).table_model(),
            ({
                let m = old(self).table_model();
                let ord = old(self).ts_list();
                let col = sanitize_spec(tag_name@);
                if m.cols.contains(col) {
                    let j = choose|j: int| 0 <= j < m.cols.len() && m.cols[j] == col;
                    let total = some_count(ord, m.rows, j, ord.len() as int);
                    &&& r.0 == if total > keep_count {
                        total - keep_count
                    } else {
                        0int
                    }
                    &&& final(self).table_model().rows.dom() == m.rows.dom()
                    &&& forall|idx: int|
                        0 <= idx < ord.len() ==> final(self).table_model().rows[#[trigger] ord[idx]]
                            == (if m.rows[ord[idx]][j] is Some && some_count(ord, m.rows, j, idx)
                            < r.0 {
                            m.rows[ord[idx]].update(j, None::<u64>)
                        } else {
                            m.rows[ord[idx]]
                        })
                } else {
                    r.0 == 0 && final(self).table_model() == m
                }
            }),
    {
        let ghost m0 = self.table.model();
        let col = sanitize_tag(tag_name);
        match self.table.column_index(&col) {
            Some(j) => {
                let before = self.table.all_rows();
                proof {
                    self.table.lemma_view_facts();
                    let jj = choose|jj: int| 0 <= jj < m0.cols.len() && m0.cols[jj] == col@;
                    assert(m0.cols[jj] == m0.cols[j as int]);
                    assert(jj == j as int);
                }
                let d = self.table.clear_oldest_in_column(j, keep_count);
                let acts = self.changed_rows_actions(&before, Ghost(m0));
                (d, acts)
            },
            None => {
                let acts: Vec<StoreAction> = Vec::new();
                proof {
                    assert(acts@ =~= Seq::<StoreAction>::empty());
                }
                (0, acts)
            },
        }
    }
}

} // verus!
