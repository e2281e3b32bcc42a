//! The orchestrator: the initial bulk load and the steady-state poll cycle,
//! as pure state transitions of the engine. The driver fetches from the
//! remote source, hands the plain results in here, and replays the returned
//! actions against the on-disk store; every decision in between is made and
//! verified in this module.

use vstd::prelude::*;

use crate::config::AppConfig;
use crate::data_source::{diff_spec, diff_views, lemma_diff_views, SqlServerDataSource, TagChanges, detect_tag_delta};
use crate::database::{
    add_tags_list, apply_actions, cleanup_count, group_rows, model_add_tags, model_clear_tags,
    model_upsert_batch, remove_tags_list, snapshot_vals, tags_list, DatabaseManager, StoreAction,
    TimeSeriesRecord, lemma_apply_actions_concat, cols_of_tags,
};
use crate::database::sanitize_spec;
use crate::wide_table::{model_upsert, strs_set, TableModel};

verus! {

/// Per-tag retention settings.
pub struct TagConfig {
    pub tag_name: String,
    pub max_records: Option<usize>,
    pub retention_days: Option<u32>,
}

/// A read-only snapshot of the service: stored rows, newest stored
/// timestamp, the sync cursor, and the configured window and interval.
pub struct ServiceStatus {
    pub total_records: usize,
    pub latest_timestamp: Option<i64>,
    pub last_seen_timestamp: Option<i64>,
    pub data_window_days: u32,
    pub update_interval_secs: u64,
}

/// Successive batches of at most `sz` readings, in order.
pub open spec fn chunks_of(records: Seq<TimeSeriesRecord>, sz: int) -> Seq<Seq<TimeSeriesRecord>>
    decreases records.len(),
    when sz >= 1
{
    if records.len() == 0 {
        Seq::empty()
    } else if records.len() <= sz {
        seq![records]
    } else {
        seq![records.take(sz)] + chunks_of(records.skip(sz), sz)
    }
}

/// What converting one batch does to the table and the live-tag list.
pub open spec fn convert_model(
    t: TableModel,
    klist: Seq<Seq<char>>,
    chunk: Seq<TimeSeriesRecord>,
) -> (TableModel, Seq<Seq<char>>) {
    let klist2 = add_tags_list(klist, tags_list(chunk));
    (
        model_upsert_batch(
            model_add_tags(t, tags_list(chunk)),
            group_rows(chunk),
            cols_of_tags(klist2),
        ),
        klist2,
    )
}

/// The batches converted in order.
pub open spec fn convert_chunks(
    t: TableModel,
    klist: Seq<Seq<char>>,
    chunks: Seq<Seq<TimeSeriesRecord>>,
) -> (TableModel, Seq<Seq<char>>)
    decreases chunks.len(),
{
    if chunks.len() == 0 {
        (t, klist)
    } else {
        let p = convert_chunks(t, klist, chunks.drop_last());
        convert_model(p.0, p.1, chunks.last())
    }
}

/// Converting a concatenation is converting the parts in turn.
proof fn lemma_convert_chunks_concat(
    t: TableModel,
    klist: Seq<Seq<char>>,
    a: Seq<Seq<TimeSeriesRecord>>,
    b: Seq<Seq<TimeSeriesRecord>>,
)
    ensures
        convert_chunks(t, klist, a + b) == convert_chunks(
            convert_chunks(t, klist, a).0,
            convert_chunks(t, klist, a).1,
            b,
        ),
    decreases b.len(),
{
    if b.len() == 0 {
        assert(a + b =~= a);
    } else {
        assert((a + b).drop_last() =~= a + b.drop_last());
        lemma_convert_chunks_concat(t, klist, a, b.drop_last());
        assert((a + b).last() == b.last());
    }
}

/// The synchronization service: the configuration, the local-store engine,
/// the remote source's settings, and the high-water-mark cursor of merged
/// data.
pub struct SyncService {
    config: AppConfig,
    db_manager: DatabaseManager,
    data_source: SqlServerDataSource,
    last_seen_timestamp: Option<i64>,
}

impl SyncService {
    /// The engine is well-formed.
    pub closed spec fn wf(&self) -> bool {
        self.db_manager.wf()
    }

    /// The configuration the service runs with.
    pub closed spec fn cfg(&self) -> AppConfig {
        self.config
    }

    /// The wide table's abstract state.
    pub closed spec fn table_model(&self) -> TableModel {
        self.db_manager.table_model()
    }

    /// The live tag names, first-seen order.
    pub closed spec fn known_list(&self) -> Seq<Seq<char>> {
        self.db_manager.known_list()
    }

    /// The stored timestamps, oldest first.
    pub closed spec fn ts_list(&self) -> Seq<int> {
        self.db_manager.ts_list()
    }

    /// The high-water mark of merged data.
    pub closed spec fn cursor(&self) -> Option<i64> {
        self.last_seen_timestamp
    }

    /// The local-store engine.
    pub closed spec fn engine(&self) -> DatabaseManager {
        self.db_manager
    }

    /// The remote source's settings holder.
    pub closed spec fn source(&self) -> SqlServerDataSource {
        self.data_source
    }

    /// A fresh service over the given engine, with an empty cursor.
    pub fn new(
        config: AppConfig,
        db_manager: DatabaseManager,
        data_source: SqlServerDataSource,
    ) -> (r: Self)
        ensures
            r.cfg() == config,
            r.engine() == db_manager,
            r.source() == data_source,
            r.cursor() is None,
    {
        SyncService { config, db_manager, data_source, last_seen_timestamp: None }
    }

    /// The service's read-only status snapshot, computed from the store.
    pub fn get_status(&self) -> (r: ServiceStatus)
        requires
            self.wf(),
        ensures
            r.total_records == self.ts_list().len(),
            match r.latest_timestamp {
                Some(t) => {
                    &&& self.table_model().rows.dom().contains(t as int)
                    &&& forall|u: int| self.table_model().rows.dom().contains(u) ==> u <= t as int
                },
                None => self.table_model().rows.dom() == Set::<int>::empty(),
            },
            r.last_seen_timestamp == self.cursor(),
            r.data_window_days == self.cfg().data_window_days,
            r.update_interval_secs == self.cfg().update_interval_secs,
    {
        let total_records = self.db_manager.get_record_count();
        let latest_timestamp = self.db_manager.get_latest_timestamp();
        ServiceStatus {
            total_records,
            latest_timestamp,
            last_seen_timestamp: self.last_seen_timestamp,
            data_window_days: self.config.data_window_days,
            update_interval_secs: self.config.update_interval_secs,
        }
    }

    /// Trims the retention window: deletes every row older than the
    /// configured number of retention days before the given clock reading.
    /// Returns how many rows went and the actions the on-disk store must
    /// replay.
    pub fn cleanup_old_data(&mut self, now_ms: i64) -> (r: (usize, Vec<StoreAction>))
        requires
            old(self).wf(),
            now_ms - old(self).cfg().data_window_days * 86400000 >= i64::MIN,
        ensures
            final(self).wf(),
            final(self).table_model().cols == old(self).table_model().cols,
            final(self).table_model().rows == old(self).table_model().rows.restrict(
                Set::new(|t: int| t >= now_ms - old(self).cfg().data_window_days * 86400000),
            ),
            final(self).known_list() == old(self).known_list(),
            final(self).cursor() == old(self).cursor(),
            final(self).cfg() == old(self).cfg(),
            r.0 == old(self).ts_list().len() - final(self).ts_list().len(),
            apply_actions(old(self).table_model(), r.1@) == final(self).table_model(),
    {
        let days = self.config.data_window_days;
        self.db_manager.delete_data_older_than_days(days, now_ms)
    }

    /// Deletes every stored row from before the given time. Returns how
    /// many rows went and the actions the on-disk store must replay.
    pub fn delete_data_before_time(&mut self, cutoff_time: i64) -> (r: (usize, Vec<StoreAction>))
        requires
            old(self).wf(),
        ensures
            final(self).wf(),
            final(self).table_model().cols == old(self).table_model().cols,
            final(self).table_model().rows == old(self).table_model().rows.restrict(
                Set::new(|t: int| t >= cutoff_time as int),
            ),
            final(self).known_list() == old(self).known_list(),
            final(self).cursor() == old(self).cursor(),
            final(self).cfg() == old(self).cfg(),
            r.0 == old(self).ts_list().len() - final(self).ts_list().len(),
            apply_actions(old(self).table_model(), r.1@) == final(self).table_model(),
    {
        self.db_manager.delete_data_before_time(cutoff_time)
    }

    /// Converts a batch of readings in memory-bounded chunks, in order.
    fn convert_in_chunks(&mut self, records: &Vec<TimeSeriesRecord>) -> (acts: Vec<StoreAction>)
        requires
            old(self).wf(),
            old(self).cfg().batch.max_memory_records >= 1,
        ensures
            final(self).wf(),
            (final(self).table_model(), final(self).known_list()) == convert_chunks(
                old(self).table_model(),
                old(self).known_list(),
                chunks_of(records@, old(self).cfg().batch.max_memory_records as int),
            ),
            apply_actions(old(self).table_model(), acts@) == final(self).table_model(),
            final(self).cursor() == old(self).cursor(),
            final(self).cfg() == old(self).cfg(),
            final(self).source() == old(self).source(),
    {
        let mmr = self.config.batch.max_memory_records;
        let ghost t0 = self.db_manager.table_model();
        let ghost k0 = self.db_manager.known_list();
        let ghost target = convert_chunks(t0, k0, chunks_of(records@, mmr as int));
        let mut acts: Vec<StoreAction> = Vec::new();
        let mut pos: usize = 0;
        proof {
            assert(records@.skip(0) =~= records@);
        }
        while pos < records.len()
            invariant
                pos <= records@.len(),
                self.wf(),
                mmr == old(self).cfg().batch.max_memory_records,
                mmr >= 1,
                t0 == old(self).table_model(),
                target == convert_chunks(t0, k0, chunks_of(records@, mmr as int)),
                convert_chunks(
                    self.db_manager.table_model(),
                    self.db_manager.known_list(),
                    chunks_of(records@.skip(pos as int), mmr as int),
                ) == target,
                apply_actions(t0, acts@) == self.db_manager.table_model(),
                self.last_seen_timestamp == old(self).last_seen_timestamp,
                self.config == old(self).config,
                self.data_source == old(self).data_source,
            decreases records@.len() - pos,
        {
            let end = if records.len() - pos > mmr {
                pos + mmr
            } else {
                records.len()
            };
            let mut chunk: Vec<TimeSeriesRecord> = Vec::new();
            let mut j: usize = pos;
            while j < end
                invariant
                    pos <= j <= end <= records@.len(),
                    chunk@ == records@.subrange(pos as int, j as int),
                decreases end - j,
            {
                chunk.push(
                    TimeSeriesRecord {
                        tag_name: records[j].tag_name.clone(),
                        timestamp: records[j].timestamp,
                        value_bits: records[j].value_bits,
                    },
                );
                proof {
                    assert(chunk@.last() == records@[j as int]);
                    assert(chunk@ =~= records@.subrange(pos as int, j + 1));
                }
                j = j + 1;
            }
            let ghost tprev = self.db_manager.table_model();
            let ghost kprev = self.db_manager.known_list();
            let ghost rest = records@.skip(pos as int);
            proof {
                if rest.len() <= mmr {
                    assert(chunk@ =~= rest);
                    assert(chunks_of(rest, mmr as int) == seq![chunk@]);
                } else {
                    assert(rest.take(mmr as int) =~= chunk@);
                    assert(rest.skip(mmr as int) =~= records@.skip(end as int));
                    assert(chunks_of(rest, mmr as int) == seq![chunk@] + chunks_of(
                        records@.skip(end as int),
                        mmr as int,
                    ));
                }
                assert(seq![chunk@].drop_last() =~= Seq::<Seq<TimeSeriesRecord>>::empty());
                assert(convert_chunks(tprev, kprev, Seq::<Seq<TimeSeriesRecord>>::empty()) == (
                tprev,
                kprev,
                ));
                assert(convert_chunks(tprev, kprev, seq![chunk@]) == convert_model(
                    tprev,
                    kprev,
                    chunk@,
                ));
            }
            let mut sub = self.db_manager.convert_and_insert_wide(&chunk);
            let ghost prev_acts = acts@;
            let ghost subview = sub@;
            acts.append(&mut sub);
            proof {
                lemma_apply_actions_concat(t0, prev_acts, subview);
                assert((self.db_manager.table_model(), self.db_manager.known_list())
                    == convert_model(tprev, kprev, chunk@));
                if rest.len() > mmr {
                    lemma_convert_chunks_concat(
                        tprev,
                        kprev,
                        seq![chunk@],
                        chunks_of(records@.skip(end as int), mmr as int),
                    );
                } else {
                    assert(records@.skip(end as int) =~= Seq::<TimeSeriesRecord>::empty());
                }
            }
            pos = end;
        }
        proof {
            assert(records@.skip(pos as int) =~= Seq::<TimeSeriesRecord>::empty());
        }
        acts
    }
}


/// What one steady-state poll cycle leaves behind: the tag delta applied
/// (appeared tags become live columns, disappeared tags retire and their
/// columns are cleared), the current snapshot appended as one row keyed by
/// the clock reading, and the configured retention window trimmed.
pub open spec fn cycle_state(
    t: TableModel,
    klist: Seq<Seq<char>>,
    current_tags: Seq<String>,
    latest: Seq<TimeSeriesRecord>,
    now: int,
    window_days: int,
) -> (TableModel, Seq<Seq<char>>) {
    let added = diff_spec(current_tags, klist.to_set());
    let removed = diff_views(klist, strs_set(current_tags));
    let changed = added.len() > 0 || removed.len() > 0;
    let t1 = if changed {
        model_add_tags(t, added)
    } else {
        t
    };
    let k1 = if changed {
        remove_tags_list(
            add_tags_list(klist, added),
            klist.to_set().difference(strs_set(current_tags)),
        )
    } else {
        klist
    };
    let t2 = if removed.len() > 0 {
        model_clear_tags(t1, removed)
    } else {
        t1
    };
    let k2 = if latest.len() > 0 {
        add_tags_list(k1, tags_list(latest))
    } else {
        k1
    };
    let t3 = if latest.len() > 0 {
        model_upsert(
            model_add_tags(t2, tags_list(latest)),
            now,
            snapshot_vals(latest),
            cols_of_tags(k2),
        )
    } else {
        t2
    };
    let t4 = TableModel {
        cols: t3.cols,
        rows: t3.rows.restrict(Set::new(|u: int| u >= now - window_days * 86400000)),
    };
    (t4, k2)
}

/// What the initial bulk load leaves behind: the look-back history and the
/// first snapshot merged in memory-bounded chunks, the tag baseline seeded,
/// and the retention window trimmed once.
pub open spec fn initial_state(
    t: TableModel,
    klist: Seq<Seq<char>>,
    history: Seq<TimeSeriesRecord>,
    tagdb: Seq<TimeSeriesRecord>,
    current_tags: Seq<String>,
    now: int,
    mmr: int,
    window_days: int,
) -> (TableModel, Seq<Seq<char>>) {
    let s1 = convert_chunks(t, klist, chunks_of(history, mmr));
    let s2 = convert_chunks(s1.0, s1.1, chunks_of(tagdb, mmr));
    let added = diff_spec(current_tags, s2.1.to_set());
    let t3 = if added.len() > 0 {
        model_add_tags(s2.0, added)
    } else {
        s2.0
    };
    let k3 = if added.len() > 0 {
        remove_tags_list(
            add_tags_list(s2.1, added),
            s2.1.to_set().difference(strs_set(current_tags)),
        )
    } else {
        s2.1
    };
    let t4 = TableModel {
        cols: t3.cols,
        rows: t3.rows.restrict(Set::new(|u: int| u >= now - window_days * 86400000)),
    };
    (t4, k3)
}

impl SyncService {
    /// The initial look-back window: the configured stretch of history,
    /// shorter than and distinct from the retention window, ending at the
    /// given clock reading. The driver fetches history over exactly this
    /// range.
    pub fn initial_window(&self, now_ms: i64) -> (r: (i64, i64))
        requires
            self.cfg().initial_load_lookback_secs * 1000 <= i64::MAX,
            now_ms - self.cfg().initial_load_lookback_secs * 1000 >= i64::MIN,
        ensures
            r.0 == now_ms - self.cfg().initial_load_lookback_secs * 1000,
            r.1 == now_ms,
    {
        (now_ms - (self.config.initial_load_lookback_secs as i64) * 1000, now_ms)
    }

    /// The initial bulk load: merges the fetched look-back history and the
    /// first snapshot in memory-bounded chunks, advances the cursor to the
    /// newest merged reading (or the clock, with nothing merged), seeds the
    /// tag baseline from the source's current tag set, and trims the
    /// configured retention window once. Returns the actions the on-disk
    /// store must replay.
    pub fn initial_load(
        &mut self,
        history_data: &Vec<TimeSeriesRecord>,
        tagdb_data: &Vec<TimeSeriesRecord>,
        current_tags: &Vec<String>,
        now_ms: i64,
    ) -> (acts: Vec<StoreAction>)
        requires
            old(self).wf(),
            old(self).cfg().batch.max_memory_records >= 1,
            now_ms - old(self).cfg().data_window_days * 86400000 >= i64::MIN,
        ensures
            final(self).wf(),
            (final(self).table_model(), final(self).known_list()) == initial_state(
                old(self).table_model(),
                old(self).known_list(),
                history_data@,
                tagdb_data@,
                current_tags@,
                now_ms as int,
                old(self).cfg().batch.max_memory_records as int,
                old(self).cfg().data_window_days as int,
            ),
            final(self).cursor() == Some(
                if tagdb_data@.len() > 0 {
                    tagdb_data@.last().timestamp
                } else if history_data@.len() > 0 {
                    history_data@.last().timestamp
                } else {
                    now_ms
                },
            ),
            apply_actions(old(self).table_model(), acts@) == final(self).table_model(),
            final(self).cfg() == old(self).cfg(),
            final(self).source() == old(self).source(),
    {
        let ghost t0 = self.table_model();
        let mut acts = self.convert_in_chunks(history_data);
        let mut latest: Option<i64> = None;
        if history_data.len() > 0 {
            latest = Some(history_data[history_data.len() - 1].timestamp);
        }
        let mut sub = self.convert_in_chunks(tagdb_data);
        let ghost prev_acts = acts@;
        let ghost subview = sub@;
        acts.append(&mut sub);
        proof {
            lemma_apply_actions_concat(t0, prev_acts, subview);
        }
        if tagdb_data.len() > 0 {
            latest = Some(tagdb_data[tagdb_data.len() - 1].timestamp);
        }
        self.last_seen_timestamp = Some(
            match latest {
                Some(t) => t,
                None => now_ms,
            },
        );
        // Seed the tag-change baseline.
        let known = self.db_manager.get_known_tags();
        let changes = detect_tag_delta(&known, current_tags);
        proof {
            assert(known@.map_values(|s: String| s@) == self.known_list());
            assert(strs_set(known@) == self.known_list().to_set());
        }
        if !changes.added_tags.is_empty() {
            let mut sub2 = self.db_manager.handle_tag_changes(&changes);
            let ghost prev_acts2 = acts@;
            let ghost subview2 = sub2@;
            acts.append(&mut sub2);
            proof {
                lemma_apply_actions_concat(t0, prev_acts2, subview2);
            }
        }
        // One initial trim of the configured retention window.
        let days = self.config.data_window_days;
        let (_, mut sub3) = self.db_manager.delete_data_older_than_days(days, now_ms);
        let ghost prev_acts3 = acts@;
        let ghost subview3 = sub3@;
        acts.append(&mut sub3);
        proof {
            lemma_apply_actions_concat(t0, prev_acts3, subview3);
            assert(Set::new(|t: int| t >= now_ms - days * 86400000) =~= Set::new(
                |u: int| u >= now_ms - days * 86400000,
            ));
        }
        acts
    }

    /// One steady-state poll cycle: detect tag changes against the live
    /// set, apply them (clearing retired tags' columns), append the current
    /// snapshot as one row keyed by the clock reading, advance the cursor
    /// when anything came, and trim the configured retention window.
    /// Returns the actions the on-disk store must replay.
    pub fn update_cycle(
        &mut self,
        current_tags: &Vec<String>,
        latest_data: &Vec<TimeSeriesRecord>,
        now_ms: i64,
    ) -> (acts: Vec<StoreAction>)
        requires
            old(self).wf(),
            now_ms - old(self).cfg().data_window_days * 86400000 >= i64::MIN,
            old(self).known_list().len() * old(self).ts_list().len() <= usize::MAX,
        ensures
            final(self).wf(),
            (final(self).table_model(), final(self).known_list()) == cycle_state(
                old(self).table_model(),
                old(self).known_list(),
                current_tags@,
                latest_data@,
                now_ms as int,
                old(self).cfg().data_window_days as int,
            ),
            final(self).cursor() == (if latest_data@.len() > 0 {
                Some(now_ms)
            } else {
                old(self).cursor()
            }),
            apply_actions(old(self).table_model(), acts@) == final(self).table_model(),
            final(self).cfg() == old(self).cfg(),
            final(self).source() == old(self).source(),
    {
        let ghost t0 = self.table_model();
        let ghost k0 = self.known_list();
        let known = self.db_manager.get_known_tags();
        let changes = detect_tag_delta(&known, current_tags);
        proof {
            assert(known@.map_values(|s: String| s@) == k0);
            assert(strs_set(known@) == k0.to_set());
            lemma_diff_views(known@, strs_set(current_tags@));
        }
        let mut acts: Vec<StoreAction> = Vec::new();
        if !changes.added_tags.is_empty() || !changes.removed_tags.is_empty() {
            let mut sub = self.db_manager.handle_tag_changes(&changes);
            let ghost subview = sub@;
            acts.append(&mut sub);
            proof {
                assert(acts@ =~= subview);
            }
            if !changes.removed_tags.is_empty() {
                proof {
                    lemma_diff_views(known@, strs_set(current_tags@));
                    assert(changes.removed_tags@.len() <= known@.len());
                    let rl = changes.removed_tags@.len();
                    let kl = k0.len();
                    let tl = self.ts_list().len();
                    assert(self.ts_list() == old(self).ts_list());
                    assert(rl * tl <= kl * tl) by (nonlinear_arith)
                        requires
                            rl <= kl,
                            tl >= 0,
                    ;
                }
                let (_, mut sub2) = self.db_manager.cleanup_removed_tag_data(
                    &changes.removed_tags,
                );
                let ghost prev_acts2 = acts@;
                let ghost subview2 = sub2@;
                acts.append(&mut sub2);
                proof {
                    lemma_apply_actions_concat(t0, prev_acts2, subview2);
                }
            }
        }
        proof {
            lemma_diff_views(known@, strs_set(current_tags@));
            assert(changes.removed_tags@.map_values(|s: String| s@) == diff_views(
                k0,
                strs_set(current_tags@),
            ));
        }
        if !latest_data.is_empty() {
            let mut sub3 = self.db_manager.append_latest_tagdb_data(latest_data, now_ms);
            let ghost prev_acts3 = acts@;
            let ghost subview3 = sub3@;
            acts.append(&mut sub3);
            proof {
                lemma_apply_actions_concat(t0, prev_acts3, subview3);
            }
            self.last_seen_timestamp = Some(now_ms);
        }
        let days = self.config.data_window_days;
        let (_, mut sub4) = self.db_manager.delete_data_older_than_days(days, now_ms);
        let ghost prev_acts4 = acts@;
        let ghost subview4 = sub4@;
        acts.append(&mut sub4);
        proof {
            lemma_apply_actions_concat(t0, prev_acts4, subview4);
            assert(Set::new(|t: int| t >= now_ms - days * 86400000) =~= Set::new(
                |u: int| u >= now_ms - days * 86400000,
            ));
        }
        acts
    }
}


/// Every live tag has its column in the table.
pub open spec fn schema_ok(t: TableModel, klist: Seq<Seq<char>>) -> bool {
    forall|i: int|
        0 <= i < klist.len() ==> t.cols.contains(sanitize_spec(#[trigger] klist[i]))
}

/// The selected names are exactly those of `from` not in `minus`.
proof fn lemma_diff_set(from: Seq<String>, minus: Set<Seq<char>>)
    ensures
        strs_set(diff_spec(from, minus)) == strs_set(from).difference(minus),
    decreases from.len(),
{
    broadcast use vstd::prelude::Seq::lemma_push_map_commute;
    broadcast use vstd::prelude::Seq::lemma_push_to_set_commute;

    if from.len() == 0 {
        assert(from.map_values(|s: String| s@) =~= Seq::<Seq<char>>::empty());
        assert(diff_spec(from, minus).map_values(|s: String| s@) =~= Seq::<Seq<char>>::empty());
        assert(strs_set(diff_spec(from, minus)) =~= strs_set(from).difference(minus));
    } else {
        lemma_diff_set(from.drop_last(), minus);
        let d = diff_spec(from.drop_last(), minus);
        assert(from =~= from.drop_last().push(from.last()));
        assert(strs_set(from) =~= strs_set(from.drop_last()).insert(from.last()@));
        if minus.contains(from.last()@) || strs_set(d).contains(from.last()@) {
            assert(strs_set(diff_spec(from, minus)) =~= strs_set(from).difference(minus));
        } else {
            assert(diff_spec(from, minus) =~= d.push(from.last()));
            assert(strs_set(diff_spec(from, minus)) =~= strs_set(d).insert(from.last()@));
            assert(strs_set(diff_spec(from, minus)) =~= strs_set(from).difference(minus));
        }
    }
}

/// The live-tag list after additions holds exactly the old names and the
/// added tags' names.
proof fn lemma_add_tags_list_contains(list: Seq<Seq<char>>, tags: Seq<String>)
    ensures
        forall|x: Seq<char>| #[trigger] add_tags_list(list, tags).contains(x) <==> (list.contains(
            x,
        ) || strs_set(tags).contains(x)),
    decreases tags.len(),
{
    broadcast use vstd::prelude::Seq::lemma_push_map_commute;
    broadcast use vstd::prelude::Seq::lemma_push_to_set_commute;

    if tags.len() == 0 {
        assert(tags.map_values(|s: String| s@) =~= Seq::<Seq<char>>::empty());
        assert forall|x: Seq<char>| #[trigger]
            add_tags_list(list, tags).contains(x) <==> (list.contains(x) || strs_set(
                tags,
            ).contains(x)) by {
            if strs_set(tags).contains(x) {
                let ms = tags.map_values(|s: String| s@);
                let j = choose|j: int| 0 <= j < ms.len() && ms[j] == x;
            }
        }
    } else {
        lemma_add_tags_list_contains(list, tags.drop_last());
        let l = add_tags_list(list, tags.drop_last());
        assert(tags =~= tags.drop_last().push(tags.last()));
        assert(strs_set(tags) =~= strs_set(tags.drop_last()).insert(tags.last()@));
        assert forall|x: Seq<char>| #[trigger]
            add_tags_list(list, tags).contains(x) <==> (list.contains(x) || strs_set(
                tags,
            ).contains(x)) by {
            if l.contains(tags.last()@) {
                assert(add_tags_list(list, tags) == l);
            } else {
                assert(add_tags_list(list, tags) == l.push(tags.last()@));
                if add_tags_list(list, tags).contains(x) {
                    let j = choose|j: int|
                        0 <= j < l.push(tags.last()@).len() && l.push(tags.last()@)[j] == x;
                    if j < l.len() {
                        assert(l.contains(x));
                    }
                }
                if l.contains(x) {
                    let j = choose|j: int| 0 <= j < l.len() && l[j] == x;
                    assert(l.push(tags.last()@)[j] == x);
                }
                if x == tags.last()@ {
                    assert(l.push(tags.last()@)[l.len() as int] == x);
                }
            }
        }
    }
}

/// Ensuring columns keeps every column and adds the tags' columns.
proof fn lemma_add_tags_cols(m: TableModel, tags: Seq<String>)
    ensures
        forall|c: Seq<char>| m.cols.contains(c) ==> model_add_tags(m, tags).cols.contains(c),
        forall|x: Seq<char>| #[trigger] strs_set(tags).contains(x) ==> model_add_tags(
            m,
            tags,
        ).cols.contains(sanitize_spec(x)),
{
    crate::database::lemma_add_tags_superset(m, tags);
    assert forall|x: Seq<char>| #[trigger] strs_set(tags).contains(x) implies model_add_tags(
        m,
        tags,
    ).cols.contains(sanitize_spec(x)) by {
        let ms = tags.map_values(|s: String| s@);
        let j = choose|j: int| 0 <= j < ms.len() && ms[j] == x;
        assert(tags[j]@ == x);
        assert(model_add_tags(m, tags).cols.contains(sanitize_spec(tags[j]@)));
    }
}

/// Filtering keeps only names of the original list.
proof fn lemma_remove_tags_sub(list: Seq<Seq<char>>, rs: Set<Seq<char>>)
    ensures
        forall|i: int|
            0 <= i < remove_tags_list(list, rs).len() ==> list.contains(
                #[trigger] remove_tags_list(list, rs)[i],
            ),
    decreases list.len(),
{
    broadcast use vstd::prelude::Seq::lemma_filter_push;

    if list.len() > 0 {
        lemma_remove_tags_sub(list.drop_last(), rs);
        let dl = list.drop_last();
        assert(list =~= dl.push(list.last()));
        let f = remove_tags_list(list, rs);
        let fd = remove_tags_list(dl, rs);
        assert forall|i: int| 0 <= i < f.len() implies list.contains(#[trigger] f[i]) by {
            if i < fd.len() {
                assert(dl.contains(fd[i]));
                let j = choose|j: int| 0 <= j < dl.len() && dl[j] == fd[i];
                assert(list[j] == fd[i]);
            } else {
                assert(f[i] == list.last());
                assert(list[list.len() - 1] == list.last());
            }
        }
    }
}

/// Clearing retired tags' columns changes no column name.
proof fn lemma_clear_tags_cols(m: TableModel, removed: Seq<Seq<char>>)
    ensures
        model_clear_tags(m, removed).cols == m.cols,
    decreases removed.len(),
{
    if removed.len() > 0 {
        lemma_clear_tags_cols(m, removed.drop_last());
    }
}

/// Schema superset invariant: a poll cycle never drops a column; afterwards
/// every tag the cycle observed, and every tag still live, has its column.
pub proof fn lemma_cycle_schema_superset(
    t: TableModel,
    klist: Seq<Seq<char>>,
    current_tags: Seq<String>,
    latest: Seq<TimeSeriesRecord>,
    now: int,
    window_days: int,
)
    requires
        schema_ok(t, klist),
    ensures
        forall|c: Seq<char>|
            t.cols.contains(c) ==> #[trigger] cycle_state(
                t,
                klist,
                current_tags,
                latest,
                now,
                window_days,
            ).0.cols.contains(c),
        schema_ok(
            cycle_state(t, klist, current_tags, latest, now, window_days).0,
            cycle_state(t, klist, current_tags, latest, now, window_days).1,
        ),
        forall|i: int|
            0 <= i < current_tags.len() ==> cycle_state(
                t,
                klist,
                current_tags,
                latest,
                now,
                window_days,
            ).0.cols.contains(sanitize_spec((#[trigger] current_tags[i])@)),
        forall|i: int|
            0 <= i < latest.len() ==> cycle_state(
                t,
                klist,
                current_tags,
                latest,
                now,
                window_days,
            ).0.cols.contains(sanitize_spec((#[trigger] latest[i]).tag_name@)),
{
    let added = diff_spec(current_tags, klist.to_set());
    let removed = diff_views(klist, strs_set(current_tags));
    let changed = added.len() > 0 || removed.len() > 0;
    let t1 = if changed {
        model_add_tags(t, added)
    } else {
        t
    };
    let k1 = if changed {
        remove_tags_list(
            add_tags_list(klist, added),
            klist.to_set().difference(strs_set(current_tags)),
        )
    } else {
        klist
    };
    let t2 = if removed.len() > 0 {
        model_clear_tags(t1, removed)
    } else {
        t1
    };
    let k2 = if latest.len() > 0 {
        add_tags_list(k1, tags_list(latest))
    } else {
        k1
    };
    let t3 = if latest.len() > 0 {
        model_upsert(
            model_add_tags(t2, tags_list(latest)),
            now,
            snapshot_vals(latest),
            cols_of_tags(k2),
        )
    } else {
        t2
    };
    lemma_add_tags_cols(t, added);
    lemma_diff_set(current_tags, klist.to_set());
    lemma_clear_tags_cols(t1, removed);
    lemma_add_tags_cols(t2, tags_list(latest));
    lemma_add_tags_list_contains(klist, added);
    lemma_add_tags_list_contains(k1, tags_list(latest));
    // Columns only grow along the chain.
    assert(t2.cols == t1.cols);
    assert forall|c: Seq<char>| t1.cols.contains(c) implies t3.cols.contains(c) by {}
    // Every live tag keeps or gains its column.
    assert forall|i: int| 0 <= i < k1.len() implies t2.cols.contains(
        sanitize_spec(#[trigger] k1[i]),
    ) by {
        let x = k1[i];
        assert(add_tags_list(klist, added).contains(x)) by {
            if changed {
                lemma_remove_tags_sub(
                    add_tags_list(klist, added),
                    klist.to_set().difference(strs_set(current_tags)),
                );
            } else {
                assert(klist[i] == x);
                lemma_add_tags_list_contains(klist, added);
            }
        }
        if klist.contains(x) {
            let j = choose|j: int| 0 <= j < klist.len() && klist[j] == x;
            assert(t.cols.contains(sanitize_spec(klist[j])));
        } else {
            assert(strs_set(added).contains(x));
        }
    }
    assert forall|i: int| 0 <= i < k2.len() implies t3.cols.contains(
        sanitize_spec(#[trigger] k2[i]),
    ) by {
        let x = k2[i];
        assert(k2.contains(x)) by {
            assert(k2[i] == x);
        }
        if latest.len() > 0 {
            if k1.contains(x) {
                let j = choose|j: int| 0 <= j < k1.len() && k1[j] == x;
                assert(t2.cols.contains(sanitize_spec(k1[j])));
            } else {
                assert(strs_set(tags_list(latest)).contains(x));
            }
        } else {
            assert(k1.contains(x));
            let j = choose|j: int| 0 <= j < k1.len() && k1[j] == x;
            assert(t2.cols.contains(sanitize_spec(k1[j])));
        }
    }
    // Every observed tag has its column afterwards.
    assert forall|i: int| 0 <= i < current_tags.len() implies cycle_state(
        t,
        klist,
        current_tags,
        latest,
        now,
        window_days,
    ).0.cols.contains(sanitize_spec((#[trigger] current_tags[i])@)) by {
        let x = current_tags[i]@;
        assert(strs_set(current_tags).contains(x)) by {
            assert(current_tags.map_values(|s: String| s@)[i] == x);
        }
        if klist.to_set().contains(x) {
            let j = choose|j: int| 0 <= j < klist.len() && klist[j] == x;
            assert(t.cols.contains(sanitize_spec(klist[j])));
        } else {
            assert(strs_set(added).contains(x));
        }
    }
    assert forall|i: int| 0 <= i < latest.len() implies cycle_state(
        t,
        klist,
        current_tags,
        latest,
        now,
        window_days,
    ).0.cols.contains(sanitize_spec((#[trigger] latest[i]).tag_name@)) by {
        let x = latest[i].tag_name@;
        assert(strs_set(tags_list(latest)).contains(x)) by {
            assert(tags_list(latest)[i] == latest[i].tag_name);
            assert(tags_list(latest).map_values(|s: String| s@)[i] == x);
        }
        assert(t3.cols.contains(sanitize_spec(x)));
    }
}


/// Remembering tags that are all already live changes nothing.
proof fn lemma_add_tags_list_idem(list: Seq<Seq<char>>, tags: Seq<String>)
    requires
        forall|i: int| 0 <= i < tags.len() ==> list.contains((#[trigger] tags[i])@),
    ensures
        add_tags_list(list, tags) == list,
    decreases tags.len(),
{
    if tags.len() > 0 {
        assert(forall|i: int| 0 <= i < tags.len() - 1 ==> tags.drop_last()[i] == (
        #[trigger] tags[i]));
        lemma_add_tags_list_idem(list, tags.drop_last());
        assert(tags[tags.len() - 1] == tags.last());
    }
}

/// Ensuring columns that all exist changes nothing.
proof fn lemma_add_tags_idem(m: TableModel, tags: Seq<String>)
    requires
        forall|i: int| 0 <= i < tags.len() ==> m.cols.contains(sanitize_spec((#[trigger] tags[i])@)),
    ensures
        model_add_tags(m, tags) == m,
    decreases tags.len(),
{
    if tags.len() > 0 {
        assert(forall|i: int| 0 <= i < tags.len() - 1 ==> tags.drop_last()[i] == (
        #[trigger] tags[i]));
        lemma_add_tags_idem(m, tags.drop_last());
        assert(tags[tags.len() - 1] == tags.last());
    }
}

/// Idempotent upsert, at the batch interface: converting the same readings
/// twice leaves the same table and the same live-tag list as converting
/// them once. The second pass finds every column present and every batch
/// timestamp holding exactly its merged row, and overwrites them with
/// themselves.
pub proof fn lemma_convert_idempotent(
    t: TableModel,
    klist: Seq<Seq<char>>,
    records: Seq<TimeSeriesRecord>,
)
    ensures
        convert_model(
            convert_model(t, klist, records).0,
            convert_model(t, klist, records).1,
            records,
        ) == convert_model(t, klist, records),
{
    let tags = tags_list(records);
    let k1 = add_tags_list(klist, tags);
    let kcols = cols_of_tags(k1);
    let base = model_add_tags(t, tags);
    let m1 = model_upsert_batch(base, group_rows(records), kcols);
    lemma_add_tags_list_contains(klist, tags);
    assert forall|i: int| 0 <= i < tags.len() implies k1.contains((#[trigger] tags[i])@) by {
        assert(strs_set(tags).contains(tags[i]@)) by {
            assert(tags.map_values(|s: String| s@)[i] == tags[i]@);
        }
    }
    lemma_add_tags_list_idem(k1, tags);
    crate::database::lemma_add_tags_superset(t, tags);
    assert(m1.cols == base.cols);
    lemma_add_tags_idem(m1, tags);
    crate::database::lemma_upsert_batch_idempotent(base, group_rows(records), kcols);
}

} // verus!
