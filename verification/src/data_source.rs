//! The remote-source side of the engine: the tag-change detector, the
//! normalization of raw source rows into readings, and the connection retry
//! policy. The network calls themselves are driven from outside; everything
//! here works on the plain values those calls hand back.

use vstd::prelude::*;

use crate::config::AppConfig;
use crate::database::TimeSeriesRecord;
use crate::text::trim_ws_spec;
use crate::value::{coerced_bits, ZERO_BITS};
use crate::wide_table::{contains_str, strs_set};

verus! {

/// The eight-hour offset, in milliseconds, between the source's local
/// timestamps and UTC.
pub const LOCAL_OFFSET_MS: i64 = 28800000;

/// The delta between the locally known tag set and the source's current
/// one: the tags that appeared, the tags that disappeared, and the current
/// set itself, each without repetition.
pub struct TagChanges {
    pub added_tags: Vec<String>,
    pub removed_tags: Vec<String>,
    pub current_tags: Vec<String>,
}

/// No name listed twice.
pub open spec fn strs_unique(names: Seq<String>) -> bool {
    forall|i: int, j: int| 0 <= i < j < names.len() ==> (#[trigger] names[i])@ != (
    #[trigger] names[j])@
}

/// The names of `from` not in `minus`, first occurrences only, in order.
pub open spec fn diff_spec(from: Seq<String>, minus: Set<Seq<char>>) -> Seq<String>
    decreases from.len(),
{
    if from.len() == 0 {
        Seq::empty()
    } else {
        let d = diff_spec(from.drop_last(), minus);
        if minus.contains(from.last()@) || strs_set(d).contains(from.last()@) {
            d
        } else {
            d.push(from.last())
        }
    }
}

/// The same selection, over the tag names themselves.
pub open spec fn diff_views(from: Seq<Seq<char>>, minus: Set<Seq<char>>) -> Seq<Seq<char>>
    decreases from.len(),
{
    if from.len() == 0 {
        Seq::empty()
    } else {
        let d = diff_views(from.drop_last(), minus);
        if minus.contains(from.last()) || d.contains(from.last()) {
            d
        } else {
            d.push(from.last())
        }
    }
}

/// The selected strings read as the selected names.
pub proof fn lemma_diff_views(from: Seq<String>, minus: Set<Seq<char>>)
    ensures
        diff_spec(from, minus).map_values(|s: String| s@) == diff_views(
            from.map_values(|s: String| s@),
            minus,
        ),
        diff_spec(from, minus).len() <= from.len(),
    decreases from.len(),
{
    if from.len() > 0 {
        lemma_diff_views(from.drop_last(), minus);
        let fv = from.map_values(|s: String| s@);
        assert(fv.drop_last() =~= from.drop_last().map_values(|s: String| s@));
        assert(fv.last() == from.last()@);
        let d = diff_spec(from.drop_last(), minus);
        let dv = diff_views(fv.drop_last(), minus);
        assert(d.map_values(|s: String| s@) == dv);
        assert(strs_set(d).contains(from.last()@) == dv.contains(fv.last())) by {
            if strs_set(d).contains(from.last()@) {
                let ms = d.map_values(|s: String| s@);
                assert(ms.contains(from.last()@));
            }
            if dv.contains(fv.last()) {
                assert(d.map_values(|s: String| s@).contains(from.last()@));
            }
        }
        if !(minus.contains(from.last()@) || strs_set(d).contains(from.last()@)) {
            assert(diff_spec(from, minus).map_values(|s: String| s@) =~= dv.push(fv.last()));
        }
    } else {
        assert(from.map_values(|s: String| s@) =~= Seq::<Seq<char>>::empty());
        assert(diff_spec(from, minus).map_values(|s: String| s@) =~= Seq::<Seq<char>>::empty());
    }
}

/// The names, first occurrences only, in order.
pub open spec fn dedup_spec(names: Seq<String>) -> Seq<String>
    decreases names.len(),
{
    if names.len() == 0 {
        Seq::empty()
    } else {
        let d = dedup_spec(names.drop_last());
        if strs_set(d).contains(names.last()@) {
            d
        } else {
            d.push(names.last())
        }
    }
}

/// Computes the pure set delta between the known tag set and the source's
/// current one: added = current minus known, removed = known minus current.
/// No order is implied beyond the inputs' enumeration order.
pub fn detect_tag_delta(known: &Vec<String>, current: &Vec<String>) -> (r: TagChanges)
    ensures
        r.added_tags@ == diff_spec(current@, strs_set(known@)),
        r.removed_tags@ == diff_spec(known@, strs_set(current@)),
        r.current_tags@ == dedup_spec(current@),
        strs_set(r.added_tags@) == strs_set(current@).difference(strs_set(known@)),
        strs_set(r.removed_tags@) == strs_set(known@).difference(strs_set(current@)),
        strs_set(r.current_tags@) == strs_set(current@),
        strs_unique(r.added_tags@),
        strs_unique(r.removed_tags@),
        strs_unique(r.current_tags@),
{
    let added = diff_strs(current, known);
    let removed = diff_strs(known, current);
    let current_tags = dedup_strs(current);
    TagChanges { added_tags: added, removed_tags: removed, current_tags }
}

/// The names of `from` that are not in `minus`, first occurrences only.
fn diff_strs(from: &Vec<String>, minus: &Vec<String>) -> (r: Vec<String>)
    ensures
        r@ == diff_spec(from@, strs_set(minus@)),
        strs_set(r@) == strs_set(from@).difference(strs_set(minus@)),
        strs_unique(r@),
{
    let ghost ms = strs_set(minus@);
    let mut r: Vec<String> = Vec::new();
    let mut i: usize = 0;
    while i < from.len()
        invariant
            i <= from@.len(),
            r@ == diff_spec(from@.take(i as int), strs_set(minus@)),
            strs_set(r@) == strs_set(from@.take(i as int)).difference(ms),
            strs_unique(r@),
            ms == strs_set(minus@),
        decreases from@.len() - i,
    {
        proof {
            broadcast use vstd::prelude::Seq::lemma_push_map_commute;
            broadcast use vstd::prelude::Seq::lemma_push_to_set_commute;

            assert(from@.take(i + 1) =~= from@.take(i as int).push(from@[i as int]));
            assert(from@.take(i + 1).drop_last() =~= from@.take(i as int));
            assert(from@.take(i + 1).last() == from@[i as int]);
            assert(strs_set(from@.take(i + 1)) =~= strs_set(from@.take(i as int)).insert(
                from@[i as int]@,
            ));
        }
        if !contains_str(minus, &from[i]) && !contains_str(&r, &from[i]) {
            let ghost oldr = r@;
            r.push(from[i].clone());
            proof {
                assert(strs_set(r@) =~= strs_set(oldr).insert(from@[i as int]@));
                assert(strs_set(r@) =~= strs_set(from@.take(i + 1)).difference(ms));
                assert forall|a: int, b: int| 0 <= a < b < r@.len() implies (#[trigger] r@[a])@
                    != (#[trigger] r@[b])@ by {
                    if b == r@.len() - 1 {
                        assert(oldr.map_values(|s: String| s@)[a] == oldr[a]@);
                        assert(oldr.map_values(|s: String| s@).contains(oldr[a]@));
                        assert(strs_set(oldr).contains(oldr[a]@));
                    }
                }
            }
        } else {
            proof {
                assert(strs_set(r@) =~= strs_set(from@.take(i + 1)).difference(ms));
            }
        }
        i = i + 1;
    }
    proof {
        assert(from@.take(from@.len() as int) =~= from@);
    }
    r
}

/// The names, first occurrences only.
fn dedup_strs(names: &Vec<String>) -> (r: Vec<String>)
    ensures
        r@ == dedup_spec(names@),
        strs_set(r@) == strs_set(names@),
        strs_unique(r@),
{
    let mut r: Vec<String> = Vec::new();
    let mut i: usize = 0;
    while i < names.len()
        invariant
            i <= names@.len(),
            r@ == dedup_spec(names@.take(i as int)),
            strs_set(r@) == strs_set(names@.take(i as int)),
            strs_unique(r@),
        decreases names@.len() - i,
    {
        proof {
            broadcast use vstd::prelude::Seq::lemma_push_map_commute;
            broadcast use vstd::prelude::Seq::lemma_push_to_set_commute;

            assert(names@.take(i + 1) =~= names@.take(i as int).push(names@[i as int]));
            assert(names@.take(i + 1).drop_last() =~= names@.take(i as int));
            assert(names@.take(i + 1).last() == names@[i as int]);
            assert(strs_set(names@.take(i + 1)) =~= strs_set(names@.take(i as int)).insert(
                names@[i as int]@,
            ));
        }
        if !contains_str(&r, &names[i]) {
            let ghost oldr = r@;
            r.push(names[i].clone());
            proof {
                assert(strs_set(r@) =~= strs_set(oldr).insert(names@[i as int]@));
                assert forall|a: int, b: int| 0 <= a < b < r@.len() implies (#[trigger] r@[a])@
                    != (#[trigger] r@[b])@ by {
                    if b == r@.len() - 1 {
                        assert(oldr.map_values(|s: String| s@)[a] == oldr[a]@);
                        assert(oldr.map_values(|s: String| s@).contains(oldr[a]@));
                        assert(strs_set(oldr).contains(oldr[a]@));
                    }
                }
            }
        } else {
            proof {
                assert(strs_set(r@) =~= strs_set(names@.take(i + 1)));
            }
        }
        i = i + 1;
    }
    proof {
        assert(names@.take(names@.len() as int) =~= names@);
    }
    r
}

/// Builds the reading a history row stands for. A row missing its timestamp
/// or tag is dropped; a missing value counts as zero so the row is kept; a
/// non-finite value is coerced to zero rather than dropped; the tag is
/// trimmed; the timestamp, stored in the source's local convention, shifts
/// back eight hours to UTC.
pub fn parse_history_reading(
    timestamp_ms: Option<i64>,
    tag_name: Option<String>,
    value_bits: Option<u64>,
) -> (r: Option<TimeSeriesRecord>)
    requires
        timestamp_ms matches Some(t) ==> t >= i64::MIN + LOCAL_OFFSET_MS,
    ensures
        match (timestamp_ms, tag_name) {
            (Some(t), Some(tag)) => {
                &&& r matches Some(rec)
                &&& rec.tag_name@ == trim_ws_spec(tag@)
                &&& rec.timestamp == t - LOCAL_OFFSET_MS
                &&& rec.value_bits == coerced_bits(value_bits.unwrap_or(ZERO_BITS))
            },
            _ => r is None,
        },
{
    match (timestamp_ms, tag_name) {
        (Some(t), Some(tag)) => {
            let raw = match value_bits {
                Some(v) => v,
                None => ZERO_BITS,
            };
            Some(
                TimeSeriesRecord {
                    tag_name: crate::text::trim_ws(tag.as_str()),
                    timestamp: t - LOCAL_OFFSET_MS,
                    value_bits: crate::value::coerce_value(raw),
                },
            )
        },
        _ => None,
    }
}

/// Builds the reading a current-snapshot row stands for, stamped with the
/// caller's clock reading. A row missing its tag is dropped; a missing
/// value counts as zero; a non-finite value is coerced to zero rather than
/// dropped; the tag is trimmed.
pub fn parse_current_reading(
    tag_name: Option<String>,
    value_bits: Option<u64>,
    current_time_ms: i64,
) -> (r: Option<TimeSeriesRecord>)
    ensures
        match tag_name {
            Some(tag) => {
                &&& r matches Some(rec)
                &&& rec.tag_name@ == trim_ws_spec(tag@)
                &&& rec.timestamp == current_time_ms
                &&& rec.value_bits == coerced_bits(value_bits.unwrap_or(ZERO_BITS))
            },
            None => r is None,
        },
{
    match tag_name {
        Some(tag) => {
            let raw = match value_bits {
                Some(v) => v,
                None => ZERO_BITS,
            };
            Some(
                TimeSeriesRecord {
                    tag_name: crate::text::trim_ws(tag.as_str()),
                    timestamp: current_time_ms,
                    value_bits: crate::value::coerce_value(raw),
                },
            )
        },
        None => None,
    }
}

/// What the connection loop does after an attempt fails: wait the fixed
/// interval and try again while attempts remain, else give up.
#[derive(PartialEq, Eq, Structural, Clone, Copy, Debug)]
pub enum RetryDecision {
    RetryAfter(u64),
    GiveUp,
}

/// The retry policy as a pure function of the attempt number: attempts are
/// numbered from one; after a failure, attempt again exactly while fewer
/// than `max_retries` attempts were made, with a fixed delay between them.
pub fn next_retry(attempt: u32, max_retries: u32, retry_interval_secs: u64) -> (r: RetryDecision)
    ensures
        r == if attempt < max_retries {
            RetryDecision::RetryAfter(retry_interval_secs)
        } else {
            RetryDecision::GiveUp
        },
{
    if attempt < max_retries {
        RetryDecision::RetryAfter(retry_interval_secs)
    } else {
        RetryDecision::GiveUp
    }
}


/// The remote source's settings holder. The connections and queries made
/// with it are driven from outside; the engine only carries the settings.
pub struct SqlServerDataSource {
    config: AppConfig,
}

impl SqlServerDataSource {
    /// The settings this source was built with.
    pub closed spec fn spec_config(&self) -> AppConfig {
        self.config
    }

    pub fn new(config: AppConfig) -> (r: Self)
        ensures
            r.spec_config() == config,
    {
        SqlServerDataSource { config }
    }

    /// The settings, for the connection driver.
    pub fn config(&self) -> (r: &AppConfig)
        ensures
            *r == self.spec_config(),
    {
        &self.config
    }
}

} // verus!
