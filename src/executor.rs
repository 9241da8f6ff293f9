//! Transaction execution against an in-transaction cache.
//!
//! The caller reads the records that a transaction needs from the key-value
//! store, hands their values over, and writes back the dirty records that come
//! out. Everything in between is decided here.

use crate::record::Record;
use crate::stmt_analyzer::{
    as_records,
    insert_ids,
    lock_ids,
    read_ids,
    update_ids,
    AnalyzeErr,
    SqlStmt,
    StmtAction,
};
use std::collections::HashMap;
use vstd::prelude::*;

verus! {

broadcast use vstd::std_specs::hash::group_hash_axioms;

/// The stored value of a record.
#[derive(Clone, Copy, Debug, PartialEq, Eq, Structural)]
pub struct RecordStorage {
    pub val: u64,
}

/// Why a transaction failed.
#[derive(Clone, Copy, Debug, PartialEq, Eq, Structural)]
pub enum ExecutorErr {
    /// Its statement could not be analyzed.
    Analyze(AnalyzeErr),
    /// A record it reads or updates is not stored.
    MissingRecord(u64),
    /// A record it selects is not in its cache.
    ExpectedRecord(u64),
    /// It inserts or updates this record without an integer value.
    UnsupportedValue(u64),
}

/// What a transaction returns and what it writes back.
#[derive(Clone, Debug, PartialEq, Eq)]
pub struct TxnOutcome {
    /// The selected values, in statement order.
    pub results: Vec<RecordStorage>,
    /// The dirty records, as `(id, value)`, each id once.
    pub writes: Vec<(u64, u64)>,
}

/// The records that a transaction loads before it runs: those it reads, then
/// those it updates.
pub open spec fn load_ids(acts: Seq<StmtAction>) -> Seq<u64> {
    read_ids(acts) + update_ids(acts)
}

/// The first of `ids` whose loaded value is absent.
pub open spec fn first_missing(ids: Seq<u64>, loaded: Seq<Option<u64>>) -> Option<u64>
    decreases ids.len(),
{
    if ids.len() == 0 {
        None
    } else {
        match first_missing(ids.drop_last(), loaded.subrange(0, ids.len() - 1)) {
            Some(id) => Some(id),
            None => if loaded[ids.len() - 1] is None {
                Some(ids.last())
            } else {
                None
            },
        }
    }
}

/// The cache after the read phase: every loaded record, clean.
pub open spec fn clean_cache(ids: Seq<u64>, loaded: Seq<Option<u64>>) -> Map<u64, (u64, bool)>
    decreases ids.len(),
{
    if ids.len() == 0 {
        Map::empty()
    } else {
        clean_cache(ids.drop_last(), loaded.subrange(0, ids.len() - 1)).insert(
            ids.last(),
            (loaded[ids.len() - 1]->0, false),
        )
    }
}

/// Runs the operations on a cache of `(value, dirty)` entries: the selected
/// values, and the cache afterwards.
pub open spec fn run_actions(acts: Seq<StmtAction>, cache: Map<u64, (u64, bool)>) -> Result<
    (Seq<u64>, Map<u64, (u64, bool)>),
    ExecutorErr,
>
    decreases acts.len(),
{
    if acts.len() == 0 {
        Ok((Seq::empty(), cache))
    } else {
        match run_actions(acts.drop_last(), cache) {
            Err(e) => Err(e),
            Ok((res, c)) => match acts.last() {
                StmtAction::Select(id) => if c.contains_key(id) {
                    Ok((res.push(c[id].0), c))
                } else {
                    Err(ExecutorErr::ExpectedRecord(id))
                },
                StmtAction::Insert(id, val) | StmtAction::Update(id, val) => match val {
                    Some(v) => Ok((res, c.insert(id, (v, true)))),
                    None => Err(ExecutorErr::UnsupportedValue(id)),
                },
            },
        }
    }
}

/// The dirty entries of a cache, as the values to write back.
pub open spec fn dirty_writes(cache: Map<u64, (u64, bool)>) -> Map<u64, u64> {
    Map::new(|id: u64| cache.contains_key(id) && cache[id].1, |id: u64| cache[id].0)
}

/// What a transaction does, given the values loaded for `load_ids(acts)`: the
/// selected values and the records to write back.
pub open spec fn spec_execute(acts: Seq<StmtAction>, loaded: Seq<Option<u64>>) -> Result<
    (Seq<u64>, Map<u64, u64>),
    ExecutorErr,
> {
    let ids = load_ids(acts);
    match first_missing(ids, loaded) {
        Some(id) => Err(ExecutorErr::MissingRecord(id)),
        None => match run_actions(acts, clean_cache(ids, loaded)) {
            Err(e) => Err(e),
            Ok((res, c)) => Ok((res, dirty_writes(c))),
        },
    }
}

pub open spec fn values_of(rs: Seq<RecordStorage>) -> Seq<u64> {
    rs.map_values(|r: RecordStorage| r.val)
}

/// The map that a list of `(id, value)` writes leaves behind.
pub open spec fn writes_map(ws: Seq<(u64, u64)>) -> Map<u64, u64> {
    Map::new(|id: u64| exists|i: int| 0 <= i < ws.len() && #[trigger] ws[i].0 == id,
        |id: u64| ws[choose|i: int| 0 <= i < ws.len() && #[trigger] ws[i].0 == id].1)
}

pub open spec fn ids_unique(ws: Seq<(u64, u64)>) -> bool {
    forall|i: int, j: int| 0 <= i < j < ws.len() ==> #[trigger] ws[i].0 != #[trigger] ws[j].0
}

proof fn lemma_push_contains(s: Seq<u64>, x: u64)
    ensures
        forall|k: u64| s.push(x).contains(k) <==> s.contains(k) || k == x,
{
    assert forall|k: u64| s.push(x).contains(k) <==> s.contains(k) || k == x by {
        if s.push(x).contains(k) {
            let i = choose|i: int| 0 <= i < s.len() + 1 && s.push(x)[i] == k;
            if i < s.len() {
                assert(s[i] == k);
            }
        }
        if s.contains(k) {
            let i = choose|i: int| 0 <= i < s.len() && s[i] == k;
            assert(s.push(x)[i] == k);
        }
        if k == x {
            assert(s.push(x)[s.len() as int] == k);
        }
    }
}

proof fn lemma_push_no_dup(s: Seq<u64>, x: u64)
    requires
        s.no_duplicates(),
        !s.contains(x),
    ensures
        s.push(x).no_duplicates(),
{
    assert forall|i: int, j: int| 0 <= i < j < s.len() + 1 implies s.push(x)[i] != s.push(x)[j] by {
        if j == s.len() {
            assert(s.contains(s[i]));
        }
    }
}

fn load_list(acts: &Vec<StmtAction>) -> (r: Vec<u64>)
    ensures
        r@ == load_ids(acts@),
{
    let mut reads: Vec<u64> = Vec::new();
    let mut updates: Vec<u64> = Vec::new();
    let mut j: usize = 0;
    while j < acts.len()
        invariant
            0 <= j <= acts.len(),
            reads@ == read_ids(acts@.subrange(0, j as int)),
            updates@ == update_ids(acts@.subrange(0, j as int)),
        decreases acts.len() - j,
    {
        assert(acts@.subrange(0, j + 1).drop_last() =~= acts@.subrange(0, j as int));
        match acts[j] {
            StmtAction::Select(id) => reads.push(id),
            StmtAction::Update(id, _) => updates.push(id),
            _ => {},
        }
        j = j + 1;
    }
    assert(acts@.subrange(0, acts.len() as int) =~= acts@);
    reads.append(&mut updates);
    reads
}

proof fn lemma_run_actions_prefix_err(acts: Seq<StmtAction>, k: int, cache: Map<u64, (u64, bool)>)
    requires
        0 <= k <= acts.len(),
        run_actions(acts.subrange(0, k), cache) is Err,
    ensures
        run_actions(acts, cache) == run_actions(acts.subrange(0, k), cache),
    decreases acts.len(),
{
    if k == acts.len() {
        assert(acts.subrange(0, k) =~= acts);
    } else {
        assert(acts.drop_last().subrange(0, k) =~= acts.subrange(0, k));
        lemma_run_actions_prefix_err(acts.drop_last(), k, cache);
    }
}

proof fn lemma_first_missing_prefix(ids: Seq<u64>, loaded: Seq<Option<u64>>, k: int)
    requires
        0 <= k <= ids.len(),
        ids.len() == loaded.len(),
        first_missing(ids.subrange(0, k), loaded.subrange(0, k)) is Some,
    ensures
        first_missing(ids, loaded) == first_missing(ids.subrange(0, k), loaded.subrange(0, k)),
    decreases ids.len(),
{
    if k == ids.len() {
        assert(ids.subrange(0, k) =~= ids);
        assert(loaded.subrange(0, k) =~= loaded);
    } else {
        let n = ids.len() - 1;
        assert(ids.drop_last().subrange(0, k) =~= ids.subrange(0, k));
        assert(loaded.subrange(0, n).subrange(0, k) =~= loaded.subrange(0, k));
        lemma_first_missing_prefix(ids.drop_last(), loaded.subrange(0, n), k);
    }
}

impl SqlStmt {
    /// The records to load before running this statement, in the order in which
    /// their values are to be handed to `execute_loaded`.
    pub fn records_to_load(&self) -> (r: Vec<Record>)
        ensures
            r@ == as_records(load_ids(self.actions@)),
    {
        let ids = load_list(&self.actions);
        let mut r: Vec<Record> = Vec::new();
        let mut i: usize = 0;
        while i < ids.len()
            invariant
                0 <= i <= ids.len(),
                r@ == as_records(ids@.subrange(0, i as int)),
            decreases ids.len() - i,
        {
            r.push(Record { id: ids[i] });
            assert(r@ =~= as_records(ids@.subrange(0, i + 1)));
            i = i + 1;
        }
        assert(ids@.subrange(0, ids.len() as int) =~= ids@);
        r
    }

    /// The records that this statement must lock: those it reads, inserts or
    /// updates.
    pub fn lock_set(&self) -> (r: Vec<u64>)
        requires
            self.wf(),
        ensures
            r@.to_set() == lock_ids(self.actions@),
    {
        let mut r: Vec<u64> = Vec::new();
        let mut i: usize = 0;
        while i < self.read_records.len()
            invariant
                0 <= i <= self.read_records.len(),
                r@ == read_ids(self.actions@).subrange(0, i as int),
                self.read_records@ == as_records(read_ids(self.actions@)),
            decreases self.read_records.len() - i,
        {
            r.push(self.read_records[i].id);
            assert(r@ =~= read_ids(self.actions@).subrange(0, i + 1));
            i = i + 1;
        }
        let ghost n1 = r@.len();
        let mut i: usize = 0;
        while i < self.inserted_records.len()
            invariant
                0 <= i <= self.inserted_records.len(),
                n1 == read_ids(self.actions@).len(),
                r@ == read_ids(self.actions@) + insert_ids(
                    self.actions@,
                ).subrange(0, i as int),
                self.inserted_records@ == as_records(
                    insert_ids(self.actions@),
                ),
            decreases self.inserted_records.len() - i,
        {
            r.push(self.inserted_records[i].id);
            assert(r@ =~= read_ids(self.actions@) + insert_ids(
                self.actions@,
            ).subrange(0, i + 1));
            i = i + 1;
        }
        let mut i: usize = 0;
        while i < self.updated_records.len()
            invariant
                0 <= i <= self.updated_records.len(),
                r@ == read_ids(self.actions@) + insert_ids(self.actions@)
                    + update_ids(self.actions@).subrange(0, i as int),
                self.updated_records@ == as_records(update_ids(self.actions@)),
            decreases self.updated_records.len() - i,
        {
            r.push(self.updated_records[i].id);
            assert(r@ =~= read_ids(self.actions@) + insert_ids(self.actions@)
                + update_ids(self.actions@).subrange(0, i + 1));
            i = i + 1;
        }
        assert(r@ =~= read_ids(self.actions@) + insert_ids(self.actions@)
            + update_ids(self.actions@));
        r
    }
}

/// Runs a transaction on the values loaded for `stmt.records_to_load()`, in that
/// order (`None` for a record that is not stored): the selected values and the
/// dirty records to write back.
pub fn execute_loaded(stmt: &SqlStmt, loaded: &Vec<Option<u64>>) -> (r: Result<
    TxnOutcome,
    ExecutorErr,
>)
    requires
        loaded@.len() == load_ids(stmt.actions@).len(),
    ensures
        match spec_execute(stmt.actions@, loaded@) {
            Err(e) => r == Err::<TxnOutcome, ExecutorErr>(e),
            Ok((res, w)) => {
                &&& r is Ok
                &&& values_of(r->Ok_0.results@) == res
                &&& writes_map(r->Ok_0.writes@) == w
                &&& ids_unique(r->Ok_0.writes@)
            },
        },
{
    let ghost acts = stmt.actions@;
    let ids = load_list(&stmt.actions);
    let mut cache: HashMap<u64, (u64, bool)> = HashMap::new();
    let mut touched: Vec<u64> = Vec::new();
    let mut i: usize = 0;
    while i < ids.len()
        invariant
            0 <= i <= ids.len(),
            acts == stmt.actions@,
            ids@ == load_ids(acts),
            loaded@.len() == ids@.len(),
            first_missing(ids@.subrange(0, i as int), loaded@.subrange(0, i as int)) is None,
            cache@ == clean_cache(ids@.subrange(0, i as int), loaded@.subrange(0, i as int)),
            touched@.no_duplicates(),
            forall|k: u64| touched@.contains(k) <==> cache@.contains_key(k),
        decreases ids.len() - i,
    {
        let id = ids[i];
        assert(ids@.subrange(0, i + 1).drop_last() =~= ids@.subrange(0, i as int));
        assert(loaded@.subrange(0, i + 1).subrange(0, i as int) =~= loaded@.subrange(0, i as int));
        match loaded[i] {
            None => {
                assert(first_missing(ids@.subrange(0, i as int + 1), loaded@.subrange(0, i as int + 1))
                    == Some(id));
                proof {
                    lemma_first_missing_prefix(ids@, loaded@, i + 1);
                }
                assert(first_missing(load_ids(acts), loaded@) == Some(id));
                return Err(ExecutorErr::MissingRecord(id));
            },
            Some(v) => {
                let ghost t0 = touched@;
                let ghost m0 = cache@;
                if !cache.contains_key(&id) {
                    proof {
                        lemma_push_no_dup(touched@, id);
                        lemma_push_contains(touched@, id);
                    }
                    touched.push(id);
                }
                cache.insert(id, (v, false));
                assert forall|k: u64| touched@.contains(k) <==> cache@.contains_key(k) by {
                    assert(cache@.contains_key(k) <==> m0.contains_key(k) || k == id);
                    assert(t0.contains(k) <==> m0.contains_key(k));
                }
            },
        }
        i = i + 1;
    }
    assert(ids@.subrange(0, ids.len() as int) =~= ids@);
    assert(loaded@.subrange(0, ids.len() as int) =~= loaded@);
    let ghost c0 = cache@;
    let mut results: Vec<RecordStorage> = Vec::new();
    assert(acts.subrange(0, 0) =~= Seq::<StmtAction>::empty());
    assert(values_of(results@) =~= Seq::<u64>::empty());
    let mut j: usize = 0;
    while j < stmt.actions.len()
        invariant
            0 <= j <= stmt.actions.len(),
            acts == stmt.actions@,
            loaded@.len() == load_ids(acts).len(),
            c0 == clean_cache(load_ids(acts), loaded@),
            first_missing(load_ids(acts), loaded@) is None,
            run_actions(acts.subrange(0, j as int), c0) == Ok::<
                (Seq<u64>, Map<u64, (u64, bool)>),
                ExecutorErr,
            >((values_of(results@), cache@)),
            touched@.no_duplicates(),
            forall|k: u64| touched@.contains(k) <==> cache@.contains_key(k),
        decreases stmt.actions.len() - j,
    {
        assert(acts.subrange(0, j + 1).drop_last() =~= acts.subrange(0, j as int));
        let ghost t0 = touched@;
        let ghost m0 = cache@;
        match stmt.actions[j] {
            StmtAction::Select(id) => match cache.get(&id) {
                Some(e) => {
                    let val = e.0;
                    results.push(RecordStorage { val });
                },
                None => {
                    assert(run_actions(acts.subrange(0, j as int + 1), c0) == Err::<
                        (Seq<u64>, Map<u64, (u64, bool)>),
                        ExecutorErr,
                    >(ExecutorErr::ExpectedRecord(id)));
                    proof {
                        lemma_run_actions_prefix_err(acts, j + 1, c0);
                    }
                    assert(c0 == clean_cache(load_ids(acts), loaded@));
                    assert(run_actions(acts, c0) == Err::<
                        (Seq<u64>, Map<u64, (u64, bool)>),
                        ExecutorErr,
                    >(ExecutorErr::ExpectedRecord(id)));
                    return Err(ExecutorErr::ExpectedRecord(id));
                },
            },
            StmtAction::Insert(id, val) | StmtAction::Update(id, val) => match val {
                Some(v) => {
                    if !cache.contains_key(&id) {
                        proof {
                            lemma_push_no_dup(touched@, id);
                            lemma_push_contains(touched@, id);
                        }
                        touched.push(id);
                    }
                    cache.insert(id, (v, true));
                },
                None => {
                    assert(run_actions(acts.subrange(0, j as int + 1), c0) == Err::<
                        (Seq<u64>, Map<u64, (u64, bool)>),
                        ExecutorErr,
                    >(ExecutorErr::UnsupportedValue(id)));
                    proof {
                        lemma_run_actions_prefix_err(acts, j + 1, c0);
                    }
                    return Err(ExecutorErr::UnsupportedValue(id));
                },
            },
        }
        assert forall|k: u64| touched@.contains(k) <==> cache@.contains_key(k) by {
            assert(t0.contains(k) <==> m0.contains_key(k));
        }
        assert(values_of(results@) =~= run_actions(acts.subrange(0, j + 1), c0)->Ok_0.0);
        j = j + 1;
    }
    assert(acts.subrange(0, stmt.actions.len() as int) =~= acts);
    let mut writes: Vec<(u64, u64)> = Vec::new();
    let mut k: usize = 0;
    while k < touched.len()
        invariant
            0 <= k <= touched.len(),
            touched@.no_duplicates(),
            forall|x: u64| touched@.contains(x) <==> cache@.contains_key(x),
            ids_unique(writes@),
            forall|i: int|
                0 <= i < writes@.len() ==> {
                    &&& cache@.contains_key(#[trigger] writes@[i].0)
                    &&& cache@[writes@[i].0] == (writes@[i].1, true)
                    &&& touched@.subrange(0, k as int).contains(writes@[i].0)
                },
            forall|x: u64|
                touched@.subrange(0, k as int).contains(x) && cache@.contains_key(x) && cache@[x].1
                    ==> exists|i: int|
                    0 <= i < writes@.len() && #[trigger] writes@[i].0 == x,
        decreases touched.len() - k,
    {
        let id = touched[k];
        let ghost pre = touched@.subrange(0, k as int);
        let ghost pre2 = touched@.subrange(0, k + 1);
        assert forall|x: u64| pre2.contains(x) <==> pre.contains(x) || x == id by {
            if pre2.contains(x) {
                let a = choose|a: int| 0 <= a < pre2.len() && pre2[a] == x;
                if a < k {
                    assert(pre[a] == x);
                }
            }
            if pre.contains(x) {
                let a = choose|a: int| 0 <= a < pre.len() && pre[a] == x;
                assert(pre2[a] == x);
            }
            if x == id {
                assert(pre2[k as int] == x);
            }
        }
        assert(!pre.contains(id)) by {
            if pre.contains(id) {
                let a = choose|a: int| 0 <= a < pre.len() && pre[a] == id;
                assert(touched@[a] == touched@[k as int]);
            }
        }
        assert(touched@.contains(id));
        let e = match cache.get(&id) {
            Some(e) => *e,
            None => (0, false),
        };
        let ghost w0 = writes@;
        if e.1 {
            writes.push((id, e.0));
            assert(writes@[writes@.len() - 1].0 == id);
        }
        assert forall|x: u64|
            pre2.contains(x) && cache@.contains_key(x) && cache@[x].1 implies exists|i: int|
                0 <= i < writes@.len() && #[trigger] writes@[i].0 == x by {
            if x == id {
                assert(writes@[writes@.len() - 1].0 == id);
            } else {
                assert(pre.contains(x));
                let i = choose|i: int| 0 <= i < w0.len() && #[trigger] w0[i].0 == x;
                assert(writes@[i].0 == x);
            }
        }
        k = k + 1;
    }
    assert(touched@.subrange(0, touched.len() as int) =~= touched@);
    assert forall|x: u64| #[trigger] writes_map(writes@).contains_key(x) <==> dirty_writes(cache@).contains_key(x) by {
        if dirty_writes(cache@).contains_key(x) {
            assert(touched@.contains(x));
        }
        if writes_map(writes@).contains_key(x) {
            let i = choose|i: int| 0 <= i < writes@.len() && #[trigger] writes@[i].0 == x;
            assert(cache@[writes@[i].0] == (writes@[i].1, true));
        }
    }
    assert forall|x: u64| #[trigger] writes_map(writes@).contains_key(x) implies writes_map(writes@)[x] == dirty_writes(cache@)[x] by {
        let i = choose|i: int| 0 <= i < writes@.len() && #[trigger] writes@[i].0 == x;
        assert(cache@[writes@[i].0] == (writes@[i].1, true));
    }
    assert(writes_map(writes@) =~= dirty_writes(cache@));
    Ok(TxnOutcome { results, writes })
}

/// The values that a store holds for `ids`, `None` where it holds none.
pub open spec fn loaded_from(kv: Map<u64, u64>, ids: Seq<u64>) -> Seq<Option<u64>> {
    ids.map_values(|id: u64| if kv.contains_key(id) { Some(kv[id]) } else { None })
}

/// A transaction run against a store whose records are loaded for it and whose
/// dirty records are written back: the store afterwards, and what it returns. A
/// failed transaction leaves the store as it was.
pub open spec fn apply_txn(kv: Map<u64, u64>, acts: Seq<StmtAction>) -> (
    Map<u64, u64>,
    Result<Seq<u64>, ExecutorErr>,
) {
    match spec_execute(acts, loaded_from(kv, load_ids(acts))) {
        Err(e) => (kv, Err(e)),
        Ok((res, w)) => (kv.union_prefer_right(w), Ok(res)),
    }
}

proof fn lemma_clean_cache_is_clean(ids: Seq<u64>, loaded: Seq<Option<u64>>)
    ensures
        forall|id: u64| #[trigger]
            clean_cache(ids, loaded).contains_key(id) ==> !clean_cache(ids, loaded)[id].1,
    decreases ids.len(),
{
    if ids.len() > 0 {
        let prev_loaded = loaded.subrange(0, ids.len() - 1);
        lemma_clean_cache_is_clean(ids.drop_last(), prev_loaded);
        let prev = clean_cache(ids.drop_last(), prev_loaded);
        assert(clean_cache(ids, loaded) == prev.insert(ids.last(), (loaded[ids.len() - 1]->0, false)));
        assert forall|id: u64| #[trigger]
            clean_cache(ids, loaded).contains_key(id) implies !clean_cache(ids, loaded)[id].1 by {
            if id != ids.last() {
                assert(prev.contains_key(id));
            }
        }
    }
}

proof fn lemma_dirty_from_writes(acts: Seq<StmtAction>, cache: Map<u64, (u64, bool)>)
    requires
        run_actions(acts, cache) is Ok,
    ensures
        forall|id: u64| #[trigger]
            run_actions(acts, cache)->Ok_0.1.contains_key(id) && run_actions(acts, cache)->Ok_0.1[id].1
                ==> (cache.contains_key(id) && cache[id].1) || insert_ids(acts).contains(id)
                || update_ids(acts).contains(id),
    decreases acts.len(),
{
    if acts.len() > 0 {
        let prev = acts.drop_last();
        lemma_dirty_from_writes(prev, cache);
        let c = run_actions(prev, cache)->Ok_0.1;
        assert forall|id: u64| insert_ids(prev).contains(id) implies insert_ids(acts).contains(id) by {
            let i = choose|i: int| 0 <= i < insert_ids(prev).len() && insert_ids(prev)[i] == id;
            match acts.last() {
                StmtAction::Insert(x, _) => assert(insert_ids(acts)[i] == id),
                _ => assert(insert_ids(acts)[i] == id),
            }
        }
        assert forall|id: u64| update_ids(prev).contains(id) implies update_ids(acts).contains(id) by {
            let i = choose|i: int| 0 <= i < update_ids(prev).len() && update_ids(prev)[i] == id;
            match acts.last() {
                StmtAction::Update(x, _) => assert(update_ids(acts)[i] == id),
                _ => assert(update_ids(acts)[i] == id),
            }
        }
        match acts.last() {
            StmtAction::Insert(x, _) => {
                assert(insert_ids(acts)[insert_ids(acts).len() - 1] == x);
            },
            StmtAction::Update(x, _) => {
                assert(update_ids(acts)[update_ids(acts).len() - 1] == x);
            },
            _ => {},
        }
    }
}

proof fn lemma_ids_in_lock_set(acts: Seq<StmtAction>, id: u64)
    ensures
        read_ids(acts).contains(id) ==> lock_ids(acts).contains(id),
        insert_ids(acts).contains(id) ==> lock_ids(acts).contains(id),
        update_ids(acts).contains(id) ==> lock_ids(acts).contains(id),
        load_ids(acts).contains(id) ==> lock_ids(acts).contains(id),
{
    let r = read_ids(acts);
    let n = insert_ids(acts);
    let u = update_ids(acts);
    let all = r + n + u;
    if r.contains(id) {
        let i = choose|i: int| 0 <= i < r.len() && r[i] == id;
        assert(all[i] == id);
    }
    if n.contains(id) {
        let i = choose|i: int| 0 <= i < n.len() && n[i] == id;
        assert(all[r.len() + i] == id);
    }
    if u.contains(id) {
        let i = choose|i: int| 0 <= i < u.len() && u[i] == id;
        assert(all[r.len() + n.len() + i] == id);
    }
    if load_ids(acts).contains(id) {
        let i = choose|i: int| 0 <= i < load_ids(acts).len() && load_ids(acts)[i] == id;
        if i < r.len() {
            assert(r[i] == id);
        } else {
            assert(u[i - r.len()] == id);
        }
    }
}

/// A transaction sees only the records it locks and writes only records it
/// locks.
proof fn lemma_txn_locality(kv1: Map<u64, u64>, kv2: Map<u64, u64>, acts: Seq<StmtAction>)
    requires
        forall|id: u64| #[trigger]
            lock_ids(acts).contains(id) ==> (kv1.contains_key(id) == kv2.contains_key(id) && (
            kv1.contains_key(id) ==> kv1[id] == kv2[id])),
    ensures
        spec_execute(acts, loaded_from(kv1, load_ids(acts))) == spec_execute(
            acts,
            loaded_from(kv2, load_ids(acts)),
        ),
        spec_execute(acts, loaded_from(kv1, load_ids(acts))) is Ok ==> forall|id: u64| #[trigger]
            spec_execute(acts, loaded_from(kv1, load_ids(acts)))->Ok_0.1.contains_key(id)
                ==> lock_ids(acts).contains(id),
{
    let ids = load_ids(acts);
    assert forall|i: int| 0 <= i < ids.len() implies loaded_from(kv1, ids)[i] == loaded_from(kv2, ids)[i] by {
        lemma_ids_in_lock_set(acts, ids[i]);
        assert(lock_ids(acts).contains(ids[i]));
    }
    assert(loaded_from(kv1, ids) =~= loaded_from(kv2, ids));
    let loaded = loaded_from(kv1, ids);
    if spec_execute(acts, loaded) is Ok {
        let c0 = clean_cache(ids, loaded);
        lemma_clean_cache_is_clean(ids, loaded);
        lemma_dirty_from_writes(acts, c0);
        assert forall|id: u64| #[trigger]
            spec_execute(acts, loaded)->Ok_0.1.contains_key(id) implies lock_ids(acts).contains(id) by {
            lemma_ids_in_lock_set(acts, id);
        }
    }
}

/// Two transactions that lock disjoint sets of records commute: run in either
/// order from the same store, they leave the same store behind and each returns
/// what it returns when run first. Replicas that order independent
/// transactions differently therefore end in the same state.
pub proof fn lemma_independent_txns_commute(
    kv: Map<u64, u64>,
    a: Seq<StmtAction>,
    b: Seq<StmtAction>,
)
    requires
        lock_ids(a).disjoint(lock_ids(b)),
    ensures
        apply_txn(apply_txn(kv, a).0, b).0 == apply_txn(apply_txn(kv, b).0, a).0,
        apply_txn(apply_txn(kv, a).0, b).1 == apply_txn(kv, b).1,
        apply_txn(apply_txn(kv, b).0, a).1 == apply_txn(kv, a).1,
{
    let ka = apply_txn(kv, a).0;
    let kb = apply_txn(kv, b).0;
    lemma_txn_locality(kv, kv, a);
    lemma_txn_locality(kv, kv, b);
    assert forall|id: u64| #[trigger] lock_ids(b).contains(id) implies (ka.contains_key(id)
        == kv.contains_key(id) && (ka.contains_key(id) ==> ka[id] == kv[id])) by {
        assert(!lock_ids(a).contains(id));
    }
    assert forall|id: u64| #[trigger] lock_ids(a).contains(id) implies (kb.contains_key(id)
        == kv.contains_key(id) && (kb.contains_key(id) ==> kb[id] == kv[id])) by {
        assert(!lock_ids(b).contains(id));
    }
    lemma_txn_locality(ka, kv, b);
    lemma_txn_locality(kb, kv, a);
    let ea = spec_execute(a, loaded_from(kv, load_ids(a)));
    let eb = spec_execute(b, loaded_from(kv, load_ids(b)));
    if ea is Ok && eb is Ok {
        let wa = ea->Ok_0.1;
        let wb = eb->Ok_0.1;
        assert forall|id: u64| wa.contains_key(id) implies !wb.contains_key(id) by {
            assert(lock_ids(a).contains(id));
        }
        assert(kv.union_prefer_right(wa).union_prefer_right(wb) =~= kv.union_prefer_right(
            wb,
        ).union_prefer_right(wa));
    }
}

/// The store after running a log of transactions one after another.
pub open spec fn replay(kv: Map<u64, u64>, log: Seq<Seq<StmtAction>>) -> Map<u64, u64>
    decreases log.len(),
{
    if log.len() == 0 {
        kv
    } else {
        replay(apply_txn(kv, log[0]).0, log.drop_first())
    }
}

/// Exchanging two neighbouring transactions of a log that lock disjoint sets of
/// records does not change the store that replaying the log leaves. Schedules
/// that keep every pair of conflicting transactions in log order are linked by
/// such exchanges, so every replica that runs the same log ends in the same
/// store.
pub proof fn lemma_replay_swap_independent(kv: Map<u64, u64>, log: Seq<Seq<StmtAction>>, i: int)
    requires
        0 <= i,
        i + 1 < log.len(),
        lock_ids(log[i]).disjoint(lock_ids(log[i + 1])),
    ensures
        replay(kv, log) == replay(kv, log.update(i, log[i + 1]).update(i + 1, log[i])),
    decreases i,
{
    let swapped = log.update(i, log[i + 1]).update(i + 1, log[i]);
    if i == 0 {
        lemma_independent_txns_commute(kv, log[0], log[1]);
        let k1 = apply_txn(kv, log[0]).0;
        let k2 = apply_txn(kv, log[1]).0;
        assert(log.drop_first()[0] == log[1]);
        assert(swapped.drop_first()[0] == log[0]);
        assert(replay(kv, log) == replay(k1, log.drop_first()));
        assert(replay(k1, log.drop_first()) == replay(
            apply_txn(k1, log.drop_first()[0]).0,
            log.drop_first().drop_first(),
        ));
        assert(replay(kv, swapped) == replay(k2, swapped.drop_first()));
        assert(replay(k2, swapped.drop_first()) == replay(
            apply_txn(k2, swapped.drop_first()[0]).0,
            swapped.drop_first().drop_first(),
        ));
        assert(log.drop_first().drop_first() =~= swapped.drop_first().drop_first());
    } else {
        let rest = log.drop_first();
        assert(swapped.drop_first() =~= rest.update(i - 1, rest[i]).update(i, rest[i - 1]));
        lemma_replay_swap_independent(apply_txn(kv, log[0]).0, rest, i - 1);
    }
}

/// Of two transactions run one after the other, a later single-row INSERT of
/// record `k` decides the value that `k` holds afterwards, whatever the earlier
/// one wrote.
pub proof fn lemma_later_write_wins(kv: Map<u64, u64>, a: Seq<StmtAction>, k: u64, v: u64)
    ensures
        replay(kv, seq![a, seq![StmtAction::Insert(k, Some(v))]]).contains_key(k),
        replay(kv, seq![a, seq![StmtAction::Insert(k, Some(v))]])[k] == v,
{
    let b = seq![StmtAction::Insert(k, Some(v))];
    let log = seq![a, b];
    let ka = apply_txn(kv, a).0;
    assert(log.drop_first() =~= seq![b]);
    assert(seq![b].drop_first() =~= Seq::<Seq<StmtAction>>::empty());
    assert(replay(kv, log) == replay(ka, seq![b]));
    assert(replay(ka, seq![b]) == replay(apply_txn(ka, b).0, seq![b].drop_first()));
    assert(b.drop_last() =~= Seq::<StmtAction>::empty());
    assert(read_ids(b) =~= Seq::<u64>::empty()) by {
        assert(read_ids(b.drop_last()) =~= Seq::<u64>::empty());
    }
    assert(update_ids(b) =~= Seq::<u64>::empty()) by {
        assert(update_ids(b.drop_last()) =~= Seq::<u64>::empty());
    }
    assert(load_ids(b) =~= Seq::<u64>::empty());
    let loaded = loaded_from(ka, load_ids(b));
    assert(first_missing(load_ids(b), loaded) is None);
    let c0 = clean_cache(load_ids(b), loaded);
    assert(run_actions(b.drop_last(), c0) == Ok::<(Seq<u64>, Map<u64, (u64, bool)>), ExecutorErr>(
        (Seq::empty(), c0),
    ));
    let c = c0.insert(k, (v, true));
    assert(run_actions(b, c0) == Ok::<(Seq<u64>, Map<u64, (u64, bool)>), ExecutorErr>(
        (Seq::empty(), c),
    ));
    assert(dirty_writes(c).contains_key(k));
}

/// Two transactions conflict when they lock a common record.
pub open spec fn conflict(a: Seq<StmtAction>, b: Seq<StmtAction>) -> bool {
    !lock_ids(a).disjoint(lock_ids(b))
}

/// `sched` lists each position `0..n` of a log exactly once: an order in which
/// to run its transactions.
pub open spec fn is_schedule(n: nat, sched: Seq<int>) -> bool {
    &&& sched.len() == n
    &&& sched.no_duplicates()
    &&& forall|k: int| 0 <= k < sched.len() ==> 0 <= #[trigger] sched[k] < n
    &&& forall|x: int| 0 <= x < n ==> #[trigger] sched.contains(x)
}

/// `sched` runs every two conflicting transactions of `log` in log order.
pub open spec fn keeps_conflict_order(log: Seq<Seq<StmtAction>>, sched: Seq<int>) -> bool {
    forall|a: int, b: int|
        #![trigger sched[a], sched[b]]
        0 <= a < b < sched.len() && sched[b] < sched[a] ==> !conflict(log[sched[a]], log[sched[b]])
}

/// The transactions of `log` in the order `sched`.
pub open spec fn in_order(log: Seq<Seq<StmtAction>>, sched: Seq<int>) -> Seq<Seq<StmtAction>> {
    sched.map_values(|k: int| log[k])
}

proof fn lemma_move_to_front(kv: Map<u64, u64>, txs: Seq<Seq<StmtAction>>, p: int)
    requires
        0 <= p < txs.len(),
        forall|q: int| 0 <= q < p ==> !conflict(#[trigger] txs[q], txs[p]),
    ensures
        replay(kv, txs) == replay(kv, seq![txs[p]] + txs.remove(p)),
    decreases p,
{
    if p == 0 {
        assert(seq![txs[0]] + txs.remove(0) =~= txs);
    } else {
        let swapped = txs.update(p - 1, txs[p]).update(p, txs[p - 1]);
        assert(!conflict(txs[p - 1], txs[p]));
        lemma_replay_swap_independent(kv, txs, p - 1);
        assert forall|q: int| 0 <= q < p - 1 implies !conflict(#[trigger] swapped[q], swapped[p - 1]) by {
            assert(swapped[q] == txs[q]);
        }
        lemma_move_to_front(kv, swapped, p - 1);
        assert(seq![swapped[p - 1]] + swapped.remove(p - 1) =~= seq![txs[p]] + txs.remove(p));
    }
}

/// Running the transactions of a log in any order that keeps each pair of
/// conflicting transactions in log order leaves the same store as running the
/// log itself. The lock manager lets conflicting transactions complete only in
/// the order they were queued (`lemma_completion_order`), so every replica that
/// queues the same log ends in the same store, whatever order it runs
/// independent transactions in.
pub proof fn lemma_conflict_order_replay(
    kv: Map<u64, u64>,
    log: Seq<Seq<StmtAction>>,
    sched: Seq<int>,
)
    requires
        is_schedule(log.len(), sched),
        keeps_conflict_order(log, sched),
    ensures
        replay(kv, in_order(log, sched)) == replay(kv, log),
    decreases log.len(),
{
    let n = log.len();
    if n == 0 {
        assert(in_order(log, sched) =~= log);
        return;
    }
    let txs = in_order(log, sched);
    let p = choose|p: int| 0 <= p < sched.len() && sched[p] == 0;
    assert(sched.contains(0));
    assert forall|q: int| 0 <= q < p implies !conflict(#[trigger] txs[q], txs[p]) by {
        assert(sched[q] != sched[p]);
        assert(0 <= sched[q] < n);
        assert(sched[p] < sched[q]);
        assert(!conflict(log[sched[q]], log[sched[p]]));
        assert(lock_ids(log[sched[p]]).disjoint(lock_ids(log[sched[q]])));
    }
    lemma_move_to_front(kv, txs, p);
    let front = seq![txs[p]] + txs.remove(p);
    let kv1 = apply_txn(kv, log[0]).0;
    assert(front[0] == log[0]);
    assert(front.drop_first() =~= txs.remove(p));
    assert(replay(kv, front) == replay(kv1, txs.remove(p)));
    let rest = log.drop_first();
    let rs = sched.remove(p);
    let s2 = rs.map_values(|k: int| k - 1);
    // `s2` is a schedule of the rest of the log.
    assert forall|k: int| 0 <= k < rs.len() implies 1 <= #[trigger] rs[k] < n by {
        if k < p {
            assert(rs[k] == sched[k]);
            assert(sched[k] != sched[p]);
        } else {
            assert(rs[k] == sched[k + 1]);
            assert(sched[k + 1] != sched[p]);
        }
    }
    assert forall|a: int, b: int| 0 <= a < b < s2.len() implies s2[a] != s2[b] by {
        let (a1, b1) = (if a < p { a } else { a + 1 }, if b < p { b } else { b + 1 });
        assert(rs[a] == sched[a1] && rs[b] == sched[b1]);
        assert(sched[a1] != sched[b1]);
    }
    assert forall|x: int| 0 <= x < n - 1 implies #[trigger] s2.contains(x) by {
        assert(sched.contains(x + 1));
        let k = choose|k: int| 0 <= k < sched.len() && sched[k] == x + 1;
        assert(k != p);
        if k < p {
            assert(s2[k] == x);
        } else {
            assert(s2[k - 1] == x);
        }
    }
    assert forall|a: int, b: int|
        #![trigger s2[a], s2[b]]
        0 <= a < b < s2.len() && s2[b] < s2[a] implies !conflict(rest[s2[a]], rest[s2[b]]) by {
        let (a1, b1) = (if a < p { a } else { a + 1 }, if b < p { b } else { b + 1 });
        assert(rs[a] == sched[a1] && rs[b] == sched[b1]);
        assert(sched[b1] < sched[a1]);
        assert(!conflict(log[sched[a1]], log[sched[b1]]));
        assert(rest[s2[a]] == log[sched[a1]]);
        assert(rest[s2[b]] == log[sched[b1]]);
    }
    assert(is_schedule(rest.len(), s2));
    lemma_conflict_order_replay(kv1, rest, s2);
    assert(in_order(rest, s2) =~= txs.remove(p)) by {
        assert forall|k: int| 0 <= k < s2.len() implies in_order(rest, s2)[k] == txs.remove(p)[k] by {
            if k < p {
                assert(rs[k] == sched[k]);
            } else {
                assert(rs[k] == sched[k + 1]);
            }
        }
    }
    assert(replay(kv, log) == replay(kv1, rest));
}

} // verus!
