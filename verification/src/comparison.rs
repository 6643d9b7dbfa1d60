//! Snapshot comparator: classifies per-method timing changes between two
//! aggregated performance snapshots.
//!
//! Durations and the regression threshold are fixed-point integers scaled
//! by [`crate::SCALE`].  A percentage change is reported as an exact
//! rational `num / den` (the scale cancels), so no precision is lost; a
//! baseline average of zero has no finite percentage and is reported as
//! `None` while still being classified by sign (a positive current average
//! counts as regressed, mirroring the infinite-change limit).

use vstd::prelude::*;
use vstd::hash_map::StringHashMap;

use crate::SCALE;

verus! {

/// Aggregated timing statistics for one method.
#[derive(Debug)]
pub struct MethodStats {
    /// Average duration, in `SCALE` units.
    pub average_duration: u64,
    /// Raw execution samples, in `SCALE` units.
    pub executions: Vec<u64>,
}

/// One row of a snapshot: a method key with its statistics.
#[derive(Debug)]
pub struct SnapshotEntry {
    pub method_key: String,
    pub stats: MethodStats,
}

/// How a method's timing moved between the two snapshots.
#[derive(Clone, Copy, PartialEq, Eq, Structural, Debug)]
pub enum DiffType {
    Improved,
    Regressed,
    New,
    Removed,
    Unchanged,
}

/// An exact percentage change: the real value is `num / den` percent.
#[derive(Clone, Copy, PartialEq, Eq, Structural, Debug)]
pub struct PercentageChange {
    pub num: i128,
    pub den: u64,
}

/// One entry of the comparator's output.
#[derive(Debug)]
pub struct ComparisonResult {
    pub method_key: String,
    pub baseline_avg: Option<u64>,
    pub current_avg: Option<u64>,
    pub percentage_change: Option<PercentageChange>,
    pub absolute_change: Option<i128>,
    pub diff_type: DiffType,
}

/// Mathematical image of a `ComparisonResult`.
pub ghost struct ResultModel {
    pub method_key: Seq<char>,
    pub baseline_avg: Option<int>,
    pub current_avg: Option<int>,
    pub percentage_change: Option<(int, int)>,
    pub absolute_change: Option<int>,
    pub diff_type: DiffType,
}

pub open spec fn model_of(r: ComparisonResult) -> ResultModel {
    ResultModel {
        method_key: r.method_key@,
        baseline_avg: match r.baseline_avg {
            Some(v) => Some(v as int),
            None => None,
        },
        current_avg: match r.current_avg {
            Some(v) => Some(v as int),
            None => None,
        },
        percentage_change: match r.percentage_change {
            Some(p) => Some((p.num as int, p.den as int)),
            None => None,
        },
        absolute_change: match r.absolute_change {
            Some(a) => Some(a as int),
            None => None,
        },
        diff_type: r.diff_type,
    }
}

/// Every method key occurs at most once in a snapshot.
pub open spec fn unique_keys(s: Seq<SnapshotEntry>) -> bool {
    forall|i: int, j: int|
        0 <= i < j < s.len() ==> s[i].method_key@ != s[j].method_key@
}

/// Average duration recorded for `key`, if present (first occurrence).
pub open spec fn avg_of(s: Seq<SnapshotEntry>, key: Seq<char>) -> Option<int>
    decreases s.len(),
{
    if s.len() == 0 {
        None
    } else if s[0].method_key@ == key {
        Some(s[0].stats.average_duration as int)
    } else {
        avg_of(s.subrange(1, s.len() as int), key)
    }
}

pub open spec fn has_key(s: Seq<SnapshotEntry>, key: Seq<char>) -> bool {
    avg_of(s, key) is Some
}

/// Classification of a method present in both snapshots.
///
/// With real durations `B = b/SCALE`, `C = c/SCALE` and threshold
/// `T = t/SCALE`, the percentage change is `100 (C - B) / B`; it exceeds
/// `T` exactly when `100 * SCALE * (c - b) > t * b`, so the comparison is
/// carried out without division.  The comparison is strict: a change equal
/// to the threshold is `Unchanged`.  A zero baseline with a positive
/// current average counts as `Regressed` (the infinite-change limit).
pub open spec fn classify(baseline_avg: int, current_avg: int, threshold: int) -> DiffType {
    if 100 * (SCALE as int) * (current_avg - baseline_avg) > threshold * baseline_avg {
        DiffType::Regressed
    } else if 100 * (SCALE as int) * (baseline_avg - current_avg) > threshold * baseline_avg {
        DiffType::Improved
    } else {
        DiffType::Unchanged
    }
}

/// Row for a key present in both snapshots.
pub open spec fn paired_result(key: Seq<char>, b: int, c: int, t: int) -> ResultModel {
    ResultModel {
        method_key: key,
        baseline_avg: Some(b),
        current_avg: Some(c),
        percentage_change: if b > 0 {
            Some((100 * (c - b), b))
        } else {
            None
        },
        absolute_change: Some(c - b),
        diff_type: classify(b, c, t),
    }
}

/// Row for a key present only in the baseline snapshot.
pub open spec fn removed_result(key: Seq<char>, b: int) -> ResultModel {
    ResultModel {
        method_key: key,
        baseline_avg: Some(b),
        current_avg: None,
        percentage_change: None,
        absolute_change: None,
        diff_type: DiffType::Removed,
    }
}

/// Row for a key present only in the current snapshot.
pub open spec fn new_result(key: Seq<char>, c: int) -> ResultModel {
    ResultModel {
        method_key: key,
        baseline_avg: None,
        current_avg: Some(c),
        percentage_change: None,
        absolute_change: None,
        diff_type: DiffType::New,
    }
}

/// Row produced for one baseline entry.
pub open spec fn baseline_row(e: SnapshotEntry, current: Seq<SnapshotEntry>, t: int) -> ResultModel {
    match avg_of(current, e.method_key@) {
        Some(c) => paired_result(e.method_key@, e.stats.average_duration as int, c, t),
        None => removed_result(e.method_key@, e.stats.average_duration as int),
    }
}

/// Rows for the first `n` current entries whose key is absent from the
/// baseline, in input order.
pub open spec fn new_rows_upto(
    baseline: Seq<SnapshotEntry>,
    current: Seq<SnapshotEntry>,
    n: int,
) -> Seq<ResultModel>
    decreases n,
{
    if n <= 0 {
        Seq::empty()
    } else {
        let prefix = new_rows_upto(baseline, current, n - 1);
        if !has_key(baseline, current[n - 1].method_key@) {
            prefix.push(new_result(
                current[n - 1].method_key@,
                current[n - 1].stats.average_duration as int,
            ))
        } else {
            prefix
        }
    }
}

/// All rows before sorting: one per baseline key in baseline order, then
/// one per current-only key in current order.
pub open spec fn comparison_rows(
    baseline: Seq<SnapshotEntry>,
    current: Seq<SnapshotEntry>,
    t: int,
) -> Seq<ResultModel> {
    Seq::new(baseline.len(), |i: int| baseline_row(baseline[i], current, t))
        + new_rows_upto(baseline, current, current.len() as int)
}

/// Sort key: the magnitude of the absolute change, with rows that have
/// none (new/removed) counted as zero.
pub open spec fn change_magnitude(r: ResultModel) -> int {
    match r.absolute_change {
        Some(a) => if a >= 0 { a } else { -a },
        None => 0,
    }
}

/// Stable insertion into a sequence sorted by descending magnitude: the
/// new row goes after every existing row of equal or larger magnitude.
pub open spec fn insert_desc(x: ResultModel, s: Seq<ResultModel>) -> Seq<ResultModel>
    decreases s.len(),
{
    if s.len() == 0 {
        seq![x]
    } else if change_magnitude(s[0]) >= change_magnitude(x) {
        seq![s[0]] + insert_desc(x, s.subrange(1, s.len() as int))
    } else {
        seq![x] + s
    }
}

/// Stable sort by descending change magnitude (insertion sort).
pub open spec fn sort_by_magnitude(s: Seq<ResultModel>) -> Seq<ResultModel>
    decreases s.len(),
{
    if s.len() == 0 {
        Seq::empty()
    } else {
        insert_desc(s.last(), sort_by_magnitude(s.drop_last()))
    }
}


/// Models of a result vector, element by element.
pub open spec fn result_models(rs: Seq<ComparisonResult>) -> Seq<ResultModel> {
    Seq::new(rs.len(), |i: int| model_of(rs[i]))
}

proof fn lemma_avg_of_at_index(s: Seq<SnapshotEntry>, i: int)
    requires
        unique_keys(s),
        0 <= i < s.len(),
    ensures
        avg_of(s, s[i].method_key@) == Some(s[i].stats.average_duration as int),
    decreases s.len(),
{
    if i > 0 {
        let tail = s.subrange(1, s.len() as int);
        assert(unique_keys(tail)) by {
            assert forall|p: int, q: int|
                0 <= p < q < tail.len() implies tail[p].method_key@ != tail[q].method_key@ by {
                assert(tail[p] == s[p + 1]);
                assert(tail[q] == s[q + 1]);
            }
        }
        assert(tail[i - 1] == s[i]);
        lemma_avg_of_at_index(tail, i - 1);
    }
}

proof fn lemma_avg_of_absent(s: Seq<SnapshotEntry>, key: Seq<char>)
    requires
        forall|i: int| 0 <= i < s.len() ==> (#[trigger] s[i]).method_key@ != key,
    ensures
        avg_of(s, key) is None,
    decreases s.len(),
{
    if s.len() > 0 {
        let tail = s.subrange(1, s.len() as int);
        assert(forall|i: int| 0 <= i < tail.len() ==> (#[trigger] tail[i]).method_key@ != key);
        lemma_avg_of_absent(tail, key);
    }
}

/// Index map over a snapshot: each key maps to an index holding it.
fn build_key_index(entries: &Vec<SnapshotEntry>) -> (m: StringHashMap<usize>)
    ensures
        forall|k: Seq<char>| #[trigger] m@.contains_key(k)
            <==> exists|i: int| 0 <= i < entries@.len() && (#[trigger] entries@[i]).method_key@ == k,
        forall|k: Seq<char>| #[trigger] m@.contains_key(k)
            ==> m@[k] < entries@.len() && entries@[m@[k] as int].method_key@ == k,
{
    let mut m = StringHashMap::<usize>::new();
    let n = entries.len();
    let mut i: usize = 0;
    while i < n
        invariant
            n == entries@.len(),
            i <= n,
            forall|k: Seq<char>| #[trigger] m@.contains_key(k)
                <==> exists|j: int| 0 <= j < i && (#[trigger] entries@[j]).method_key@ == k,
            forall|k: Seq<char>| #[trigger] m@.contains_key(k)
                ==> m@[k] < i && entries@[m@[k] as int].method_key@ == k,
        decreases n - i,
    {
        m.insert(entries[i].method_key.clone(), i);
        i = i + 1;
    }
    m
}

/// Classification, computed without division by cross-multiplying in
/// 128-bit arithmetic (no overflow is possible).
fn classify_exec(b: u64, c: u64, t: u64) -> (d: DiffType)
    ensures
        d == classify(b as int, c as int, t as int),
{
    proof {
        vstd::arithmetic::mul::lemma_mul_upper_bound(
            t as int, u64::MAX as int, b as int, u64::MAX as int);
    }
    let rhs: u128 = (t as u128) * (b as u128);
    if c >= b {
        let lhs: u128 = 100 * (SCALE as u128) * ((c - b) as u128);
        if lhs > rhs {
            DiffType::Regressed
        } else {
            DiffType::Unchanged
        }
    } else {
        let lhs: u128 = 100 * (SCALE as u128) * ((b - c) as u128);
        if lhs > rhs {
            DiffType::Improved
        } else {
            DiffType::Unchanged
        }
    }
}

/// Builds the row for a key present in both snapshots.
fn paired_entry(key: &String, b: u64, c: u64, t: u64) -> (r: ComparisonResult)
    ensures
        model_of(r) == paired_result(key@, b as int, c as int, t as int),
{
    let diff: i128 = c as i128 - b as i128;
    ComparisonResult {
        method_key: key.clone(),
        baseline_avg: Some(b),
        current_avg: Some(c),
        percentage_change: if b > 0 {
            Some(PercentageChange { num: 100 * diff, den: b })
        } else {
            None
        },
        absolute_change: Some(diff),
        diff_type: classify_exec(b, c, t),
    }
}

/// Builds the row for a key present only in the baseline snapshot.
fn removed_entry(key: &String, b: u64) -> (r: ComparisonResult)
    ensures
        model_of(r) == removed_result(key@, b as int),
{
    ComparisonResult {
        method_key: key.clone(),
        baseline_avg: Some(b),
        current_avg: None,
        percentage_change: None,
        absolute_change: None,
        diff_type: DiffType::Removed,
    }
}

/// Builds the row for a key present only in the current snapshot.
fn new_entry(key: &String, c: u64) -> (r: ComparisonResult)
    ensures
        model_of(r) == new_result(key@, c as int),
{
    ComparisonResult {
        method_key: key.clone(),
        baseline_avg: None,
        current_avg: Some(c),
        percentage_change: None,
        absolute_change: None,
        diff_type: DiffType::New,
    }
}

/// The magnitude used for ordering the output.
fn change_magnitude_exec(r: &ComparisonResult) -> (m: u128)
    ensures
        m as int == change_magnitude(model_of(*r)),
{
    match r.absolute_change {
        Some(a) => if a >= 0 {
            a as u128
        } else {
            ((-1 - a) as u128) + 1
        },
        None => 0,
    }
}

/// First position in `sorted` (sorted by descending magnitude) whose
/// magnitude is strictly below `mx`; the stable slot for a new row of
/// magnitude `mx`.
fn insert_position(sorted: &Vec<ComparisonResult>, mx: u128) -> (p: usize)
    ensures
        p <= sorted@.len(),
        forall|i: int| 0 <= i < p
            ==> change_magnitude(model_of(#[trigger] sorted@[i])) >= mx as int,
        p < sorted@.len() ==> change_magnitude(model_of(sorted@[p as int])) < mx as int,
{
    let mut pos: usize = 0;
    while pos < sorted.len()
        invariant
            pos <= sorted@.len(),
            forall|i: int| 0 <= i < pos
                ==> change_magnitude(model_of(#[trigger] sorted@[i])) >= mx as int,
        decreases sorted@.len() - pos,
    {
        if change_magnitude_exec(&sorted[pos]) < mx {
            return pos;
        }
        pos = pos + 1;
    }
    pos
}

/// Inserting a row grows the sequence by exactly one.
pub proof fn lemma_insert_desc_len(x: ResultModel, s: Seq<ResultModel>)
    ensures
        insert_desc(x, s).len() == s.len() + 1,
    decreases s.len(),
{
    if s.len() > 0 && change_magnitude(s[0]) >= change_magnitude(x) {
        lemma_insert_desc_len(x, s.subrange(1, s.len() as int));
    }
}

/// Sorting keeps the length.
pub proof fn lemma_sort_by_magnitude_len(s: Seq<ResultModel>)
    ensures
        sort_by_magnitude(s).len() == s.len(),
    decreases s.len(),
{
    if s.len() > 0 {
        lemma_sort_by_magnitude_len(s.drop_last());
        lemma_insert_desc_len(s.last(), sort_by_magnitude(s.drop_last()));
    }
}

proof fn lemma_insert_desc_at(x: ResultModel, s: Seq<ResultModel>, p: int)
    requires
        0 <= p <= s.len(),
        forall|i: int| 0 <= i < p ==> change_magnitude(#[trigger] s[i]) >= change_magnitude(x),
        p < s.len() ==> change_magnitude(s[p]) < change_magnitude(x),
    ensures
        insert_desc(x, s) =~= s.subrange(0, p) + seq![x] + s.subrange(p, s.len() as int),
    decreases s.len(),
{
    if s.len() == 0 {
    } else if p == 0 {
        assert(seq![x] + s =~= s.subrange(0, 0) + seq![x] + s.subrange(0, s.len() as int));
    } else {
        let tail = s.subrange(1, s.len() as int);
        assert forall|i2: int| 0 <= i2 < p - 1
            implies change_magnitude(#[trigger] tail[i2]) >= change_magnitude(x) by {
            assert(tail[i2] == s[i2 + 1]);
        }
        if p - 1 < tail.len() {
            assert(tail[p - 1] == s[p]);
        }
        lemma_insert_desc_at(x, tail, p - 1);
    }
}

/// Compares two performance snapshots.
///
/// Produces one row per method key present in either snapshot: paired
/// keys are classified against the threshold, keys present on one side
/// only become `Removed`/`New` rows.  The output is sorted by descending
/// magnitude of the absolute change (rows without one count as zero);
/// rows of equal magnitude keep their first-appearance order, baseline
/// keys first in baseline order, then current-only keys in current order.
pub fn compare_performance_snapshots(
    baseline: &Vec<SnapshotEntry>,
    current: &Vec<SnapshotEntry>,
    regression_threshold: u64,
) -> (results: Vec<ComparisonResult>)
    requires
        unique_keys(baseline@),
        unique_keys(current@),
    ensures
        result_models(results@)
            == sort_by_magnitude(comparison_rows(baseline@, current@, regression_threshold as int)),
{
    let ghost t = regression_threshold as int;
    let cur_index = build_key_index(current);
    let base_index = build_key_index(baseline);

    let mut rows: Vec<ComparisonResult> = Vec::new();
    let n_b = baseline.len();
    let mut i: usize = 0;
    while i < n_b
        invariant
            unique_keys(baseline@),
            unique_keys(current@),
            n_b == baseline@.len(),
            i <= n_b,
            rows@.len() == i,
            t == regression_threshold as int,
            forall|k: Seq<char>| #[trigger] cur_index@.contains_key(k)
                <==> exists|j: int| 0 <= j < current@.len()
                    && (#[trigger] current@[j]).method_key@ == k,
            forall|k: Seq<char>| #[trigger] cur_index@.contains_key(k)
                ==> cur_index@[k] < current@.len()
                    && current@[cur_index@[k] as int].method_key@ == k,
            forall|p: int| 0 <= p < i
                ==> model_of(#[trigger] rows@[p]) == baseline_row(baseline@[p], current@, t),
        decreases n_b - i,
    {
        let e = &baseline[i];
        let row = match cur_index.get(e.method_key.as_str()) {
            Some(j_ref) => {
                let j = *j_ref;
                proof {
                    lemma_avg_of_at_index(current@, j as int);
                }
                paired_entry(
                    &e.method_key,
                    e.stats.average_duration,
                    current[j].stats.average_duration,
                    regression_threshold,
                )
            },
            None => {
                proof {
                    assert(forall|p: int| 0 <= p < current@.len()
                        ==> (#[trigger] current@[p]).method_key@ != e.method_key@);
                    lemma_avg_of_absent(current@, e.method_key@);
                }
                removed_entry(&e.method_key, e.stats.average_duration)
            },
        };
        rows.push(row);
        i = i + 1;
    }

    let n_c = current.len();
    let mut j: usize = 0;
    let ghost mut extra: Seq<ResultModel> = Seq::empty();
    proof {
        assert(extra =~= new_rows_upto(baseline@, current@, 0));
    }
    while j < n_c
        invariant
            unique_keys(baseline@),
            unique_keys(current@),
            n_b == baseline@.len(),
            n_c == current@.len(),
            j <= n_c,
            t == regression_threshold as int,
            forall|k: Seq<char>| #[trigger] base_index@.contains_key(k)
                <==> exists|p: int| 0 <= p < baseline@.len()
                    && (#[trigger] baseline@[p]).method_key@ == k,
            extra == new_rows_upto(baseline@, current@, j as int),
            rows@.len() == n_b + extra.len(),
            forall|p: int| 0 <= p < n_b
                ==> model_of(#[trigger] rows@[p]) == baseline_row(baseline@[p], current@, t),
            forall|q: int| 0 <= q < extra.len()
                ==> model_of(#[trigger] rows@[n_b + q]) == extra[q],
        decreases n_c - j,
    {
        let e = &current[j];
        if !base_index.contains_key(e.method_key.as_str()) {
            proof {
                assert(forall|p: int| 0 <= p < baseline@.len()
                    ==> (#[trigger] baseline@[p]).method_key@ != e.method_key@);
                lemma_avg_of_absent(baseline@, e.method_key@);
            }
            let row = new_entry(&e.method_key, e.stats.average_duration);
            rows.push(row);
            proof {
                extra = extra.push(model_of(row));
            }
        } else {
            proof {
                let witness = choose|p: int| 0 <= p < baseline@.len()
                    && (#[trigger] baseline@[p]).method_key@ == e.method_key@;
                lemma_avg_of_at_index(baseline@, witness);
            }
        }
        j = j + 1;
    }

    let ghost all_rows = comparison_rows(baseline@, current@, t);
    proof {
        assert(all_rows.len() == n_b + extra.len());
        assert forall|p: int| 0 <= p < rows@.len()
            implies model_of(#[trigger] rows@[p]) == all_rows[p] by {
            if p < n_b {
                assert(all_rows[p] == baseline_row(baseline@[p], current@, t));
            } else {
                assert(all_rows[p] == extra[p - n_b]);
                assert(rows@[n_b + (p - n_b)] == rows@[p]);
            }
        }
    }

    let mut sorted: Vec<ComparisonResult> = Vec::new();
    let ghost mut done: Seq<ResultModel> = Seq::empty();
    while rows.len() > 0
        invariant
            all_rows == comparison_rows(baseline@, current@, t),
            done.len() + rows@.len() == all_rows.len(),
            done == all_rows.take(done.len() as int),
            forall|q: int| 0 <= q < rows@.len()
                ==> model_of(#[trigger] rows@[q]) == all_rows[done.len() + q],
            sorted@.len() == done.len(),
            forall|p: int| 0 <= p < sorted@.len()
                ==> model_of(#[trigger] sorted@[p]) == sort_by_magnitude(done)[p],
        decreases rows@.len(),
    {
        let ghost done0 = done;
        let ghost sm0 = sort_by_magnitude(done0);
        let ghost rows0 = rows@;
        proof {
            lemma_sort_by_magnitude_len(done0);
        }
        let x = rows.remove(0);
        let ghost m = model_of(x);
        proof {
            rows0.remove_ensures(0);
            done = done0.push(m);
            assert(m == all_rows[done0.len() as int]);
            assert(done =~= all_rows.take(done.len() as int));
            assert forall|q: int| 0 <= q < rows@.len()
                implies model_of(#[trigger] rows@[q]) == all_rows[done.len() + q] by {
                assert(rows@[q] == rows0[q + 1]);
            }
        }
        let mx = change_magnitude_exec(&x);
        let pos = insert_position(&sorted, mx);
        let ghost sorted0 = sorted@;
        sorted.insert(pos, x);
        proof {
            assert forall|i2: int| 0 <= i2 < pos
                implies change_magnitude(#[trigger] sm0[i2]) >= change_magnitude(m) by {
                assert(model_of(sorted0[i2]) == sm0[i2]);
            }
            if (pos as int) < sm0.len() {
                assert(model_of(sorted0[pos as int]) == sm0[pos as int]);
            }
            lemma_insert_desc_at(m, sm0, pos as int);
            assert(done.drop_last() =~= done0);
            assert(done.last() == m);
            assert(sort_by_magnitude(done) == insert_desc(m, sort_by_magnitude(done0)));
            let merged = sm0.subrange(0, pos as int) + seq![m]
                + sm0.subrange(pos as int, sm0.len() as int);
            assert(sort_by_magnitude(done) == merged);
            sorted0.insert_ensures(pos as int, x);
            assert forall|p: int| 0 <= p < sorted@.len()
                implies model_of(#[trigger] sorted@[p]) == sort_by_magnitude(done)[p] by {
                if p < pos as int {
                    assert(sorted@[p] == sorted0[p]);
                    assert(merged[p] == sm0[p]);
                } else if p == pos as int {
                    assert(sorted@[p] == x);
                    assert(merged[p] == m);
                } else {
                    assert(sorted@[p] == sorted0[p - 1]);
                    assert(merged[p] == sm0[p - 1]);
                }
            }
        }
    }
    proof {
        assert(done =~= all_rows);
        lemma_sort_by_magnitude_len(all_rows);
        assert(result_models(sorted@) =~= sort_by_magnitude(all_rows)) by {
            assert forall|p: int| 0 <= p < sorted@.len()
                implies result_models(sorted@)[p] == sort_by_magnitude(all_rows)[p] by {
                assert(result_models(sorted@)[p] == model_of(sorted@[p]));
            }
        }
    }
    sorted
}

/// A key appears among the rows.
pub open spec fn rows_contain_key(s: Seq<ResultModel>, k: Seq<char>) -> bool {
    exists|i: int| 0 <= i < s.len() && (#[trigger] s[i]).method_key == k
}

/// No two rows carry the same key.
pub open spec fn rows_keys_unique(s: Seq<ResultModel>) -> bool {
    forall|i: int, j: int| 0 <= i < j < s.len() ==> s[i].method_key != s[j].method_key
}

/// Rows never grow in magnitude from left to right.
pub open spec fn sorted_by_magnitude_desc(s: Seq<ResultModel>) -> bool {
    forall|i: int, j: int| 0 <= i <= j < s.len()
        ==> change_magnitude(s[i]) >= change_magnitude(s[j])
}

/// Law: the threshold comparison is strict.  A change whose scaled
/// magnitude equals the threshold exactly is classified `Unchanged`,
/// on either side of the baseline.
pub proof fn lemma_threshold_boundary(b: int, c: int, t: int)
    requires
        b >= 0,
        t >= 0,
        100 * (SCALE as int) * (c - b) == t * b || 100 * (SCALE as int) * (b - c) == t * b,
    ensures
        classify(b, c, t) == DiffType::Unchanged,
{
    vstd::arithmetic::mul::lemma_mul_nonnegative(t, b);
}

proof fn lemma_avg_of_to_index(s: Seq<SnapshotEntry>, k: Seq<char>)
    requires
        has_key(s, k),
    ensures
        exists|i: int| 0 <= i < s.len() && (#[trigger] s[i]).method_key@ == k,
    decreases s.len(),
{
    if s.len() > 0 && s[0].method_key@ != k {
        let tail = s.subrange(1, s.len() as int);
        lemma_avg_of_to_index(tail, k);
        let w = choose|i: int| 0 <= i < tail.len() && (#[trigger] tail[i]).method_key@ == k;
        assert(s[w + 1] == tail[w]);
    }
}

proof fn lemma_new_rows_upto_keys(b: Seq<SnapshotEntry>, c: Seq<SnapshotEntry>, n: int)
    requires
        0 <= n <= c.len(),
        unique_keys(c),
    ensures
        forall|q: int| 0 <= q < new_rows_upto(b, c, n).len()
            ==> !has_key(b, (#[trigger] new_rows_upto(b, c, n)[q]).method_key)
                && exists|j: int| 0 <= j < n
                    && (#[trigger] c[j]).method_key@ == new_rows_upto(b, c, n)[q].method_key,
        forall|j: int| 0 <= j < n && !has_key(b, (#[trigger] c[j]).method_key@)
            ==> rows_contain_key(new_rows_upto(b, c, n), c[j].method_key@),
        rows_keys_unique(new_rows_upto(b, c, n)),
    decreases n,
{
    if n > 0 {
        lemma_new_rows_upto_keys(b, c, n - 1);
        let prefix = new_rows_upto(b, c, n - 1);
        let rows = new_rows_upto(b, c, n);
        if !has_key(b, c[n - 1].method_key@) {
            assert(rows == prefix.push(new_result(
                c[n - 1].method_key@,
                c[n - 1].stats.average_duration as int,
            )));
            assert forall|q: int| 0 <= q < rows.len()
                implies !has_key(b, (#[trigger] rows[q]).method_key)
                    && exists|j: int| 0 <= j < n
                        && (#[trigger] c[j]).method_key@ == rows[q].method_key by {
                if q < prefix.len() {
                    assert(rows[q] == prefix[q]);
                    let w = choose|j: int| 0 <= j < n - 1
                        && (#[trigger] c[j]).method_key@ == prefix[q].method_key;
                    assert(c[w].method_key@ == rows[q].method_key);
                } else {
                    assert(rows[q].method_key == c[n - 1].method_key@);
                }
            }
            assert forall|j: int| 0 <= j < n && !has_key(b, (#[trigger] c[j]).method_key@)
                implies rows_contain_key(rows, c[j].method_key@) by {
                if j < n - 1 {
                    let w = choose|q: int| 0 <= q < prefix.len()
                        && (#[trigger] prefix[q]).method_key == c[j].method_key@;
                    assert(rows[w].method_key == c[j].method_key@);
                } else {
                    assert(rows[rows.len() - 1].method_key == c[j].method_key@);
                }
            }
            assert forall|i: int, j: int| 0 <= i < j < rows.len()
                implies rows[i].method_key != rows[j].method_key by {
                if j == rows.len() - 1 {
                    // the pushed key belongs to c[n-1]; an equal prefix key
                    // would name an earlier entry with the same key
                    if rows[i].method_key == rows[j].method_key {
                        let w = choose|j2: int| 0 <= j2 < n - 1
                            && (#[trigger] c[j2]).method_key@ == prefix[i].method_key;
                        assert(c[w].method_key@ == c[n - 1].method_key@);
                        assert(false);
                    }
                } else {
                    assert(rows[i] == prefix[i]);
                    assert(rows[j] == prefix[j]);
                }
            }
        }
    }
}

proof fn lemma_comparison_rows_keys(b: Seq<SnapshotEntry>, c: Seq<SnapshotEntry>, t: int)
    requires
        unique_keys(b),
        unique_keys(c),
    ensures
        forall|k: Seq<char>| #[trigger] rows_contain_key(comparison_rows(b, c, t), k)
            <==> (has_key(b, k) || has_key(c, k)),
        rows_keys_unique(comparison_rows(b, c, t)),
{
    let base = Seq::new(b.len(), |i: int| baseline_row(b[i], c, t));
    let news = new_rows_upto(b, c, c.len() as int);
    let rows = comparison_rows(b, c, t);
    lemma_new_rows_upto_keys(b, c, c.len() as int);
    assert forall|k: Seq<char>| #[trigger] rows_contain_key(rows, k)
        implies (has_key(b, k) || has_key(c, k)) by {
        let w = choose|i: int| 0 <= i < rows.len() && (#[trigger] rows[i]).method_key == k;
        if w < b.len() {
            assert(rows[w] == base[w]);
            assert(base[w].method_key == b[w].method_key@);
            lemma_avg_of_at_index(b, w);
        } else {
            assert(rows[w] == news[w - b.len()]);
            let j = choose|j: int| 0 <= j < c.len()
                && (#[trigger] c[j]).method_key@ == news[w - b.len()].method_key;
            lemma_avg_of_at_index(c, j);
        }
    }
    assert forall|k: Seq<char>| has_key(b, k) || has_key(c, k)
        implies #[trigger] rows_contain_key(rows, k) by {
        if has_key(b, k) {
            lemma_avg_of_to_index(b, k);
            let i = choose|i: int| 0 <= i < b.len() && (#[trigger] b[i]).method_key@ == k;
            assert(rows[i] == base[i]);
            assert(rows[i].method_key == k);
        } else {
            lemma_avg_of_to_index(c, k);
            let j = choose|j: int| 0 <= j < c.len() && (#[trigger] c[j]).method_key@ == k;
            assert(rows_contain_key(news, k));
            let q = choose|q: int| 0 <= q < news.len() && (#[trigger] news[q]).method_key == k;
            assert(rows[b.len() + q].method_key == k);
        }
    }
    assert forall|i: int, j: int| 0 <= i < j < rows.len()
        implies rows[i].method_key != rows[j].method_key by {
        if j < b.len() {
            assert(rows[i] == base[i]);
            assert(rows[j] == base[j]);
        } else if i >= b.len() {
            assert(rows[i] == news[i - b.len()]);
            assert(rows[j] == news[j - b.len()]);
        } else {
            assert(rows[i] == base[i]);
            assert(rows[j] == news[j - b.len()]);
            if rows[i].method_key == rows[j].method_key {
                lemma_avg_of_at_index(b, i);
                assert(has_key(b, rows[j].method_key));
                assert(false);
            }
        }
    }
}

proof fn lemma_insert_desc_key_facts(x: ResultModel, s: Seq<ResultModel>)
    ensures
        forall|k: Seq<char>| #[trigger] rows_contain_key(insert_desc(x, s), k)
            <==> (x.method_key == k || rows_contain_key(s, k)),
        rows_keys_unique(s) && !rows_contain_key(s, x.method_key)
            ==> rows_keys_unique(insert_desc(x, s)),
    decreases s.len(),
{
    lemma_insert_desc_len(x, s);
    let out = insert_desc(x, s);
    if s.len() == 0 {
        assert forall|k: Seq<char>| #[trigger] rows_contain_key(out, k)
            implies (x.method_key == k || rows_contain_key(s, k)) by {
            let w = choose|i: int| 0 <= i < out.len() && (#[trigger] out[i]).method_key == k;
        }
        assert(out[0].method_key == x.method_key);
    } else if change_magnitude(s[0]) >= change_magnitude(x) {
        let tail = s.subrange(1, s.len() as int);
        lemma_insert_desc_key_facts(x, tail);
        let rec = insert_desc(x, tail);
        assert(out == seq![s[0]] + rec);
        assert forall|k: Seq<char>| #[trigger] rows_contain_key(out, k)
            implies (x.method_key == k || rows_contain_key(s, k)) by {
            let w = choose|i: int| 0 <= i < out.len() && (#[trigger] out[i]).method_key == k;
            if w == 0 {
                assert(s[0].method_key == k);
            } else {
                assert(out[w] == rec[w - 1]);
                assert(rows_contain_key(rec, k));
                if x.method_key != k {
                    let v = choose|i: int| 0 <= i < tail.len()
                        && (#[trigger] tail[i]).method_key == k;
                    assert(s[v + 1] == tail[v]);
                }
            }
        }
        assert forall|k: Seq<char>| x.method_key == k || rows_contain_key(s, k)
            implies #[trigger] rows_contain_key(out, k) by {
            if x.method_key == k {
                assert(rows_contain_key(rec, k));
                let v = choose|i: int| 0 <= i < rec.len() && (#[trigger] rec[i]).method_key == k;
                assert(out[v + 1].method_key == k);
            } else {
                let w = choose|i: int| 0 <= i < s.len() && (#[trigger] s[i]).method_key == k;
                if w == 0 {
                    assert(out[0].method_key == k);
                } else {
                    assert(tail[w - 1] == s[w]);
                    assert(rows_contain_key(tail, k));
                    assert(rows_contain_key(rec, k));
                    let v = choose|i: int| 0 <= i < rec.len()
                        && (#[trigger] rec[i]).method_key == k;
                    assert(out[v + 1].method_key == k);
                }
            }
        }
        if rows_keys_unique(s) && !rows_contain_key(s, x.method_key) {
            assert(rows_keys_unique(tail)) by {
                assert forall|i: int, j: int| 0 <= i < j < tail.len()
                    implies tail[i].method_key != tail[j].method_key by {
                    assert(tail[i] == s[i + 1]);
                    assert(tail[j] == s[j + 1]);
                }
            }
            assert(!rows_contain_key(tail, x.method_key)) by {
                if rows_contain_key(tail, x.method_key) {
                    let v = choose|i: int| 0 <= i < tail.len()
                        && (#[trigger] tail[i]).method_key == x.method_key;
                    assert(s[v + 1] == tail[v]);
                    assert(rows_contain_key(s, x.method_key));
                }
            }
            assert forall|i: int, j: int| 0 <= i < j < out.len()
                implies out[i].method_key != out[j].method_key by {
                if i == 0 {
                    assert(out[0] == s[0]);
                    assert(out[j] == rec[j - 1]);
                    if out[0].method_key == out[j].method_key {
                        assert(rows_contain_key(rec, s[0].method_key));
                        if s[0].method_key != x.method_key {
                            let v = choose|q: int| 0 <= q < tail.len()
                                && (#[trigger] tail[q]).method_key == s[0].method_key;
                            assert(s[v + 1] == tail[v]);
                            assert(false);
                        } else {
                            assert(rows_contain_key(s, x.method_key)) by {
                                assert(s[0].method_key == x.method_key);
                            }
                            assert(false);
                        }
                    }
                } else {
                    assert(out[i] == rec[i - 1]);
                    assert(out[j] == rec[j - 1]);
                    assert(rows_keys_unique(rec));
                }
            }
        }
    } else {
        assert(out == seq![x] + s);
        assert forall|k: Seq<char>| #[trigger] rows_contain_key(out, k)
            implies (x.method_key == k || rows_contain_key(s, k)) by {
            let w = choose|i: int| 0 <= i < out.len() && (#[trigger] out[i]).method_key == k;
            if w > 0 {
                assert(out[w] == s[w - 1]);
            }
        }
        assert forall|k: Seq<char>| x.method_key == k || rows_contain_key(s, k)
            implies #[trigger] rows_contain_key(out, k) by {
            if x.method_key == k {
                assert(out[0].method_key == k);
            } else {
                let w = choose|i: int| 0 <= i < s.len() && (#[trigger] s[i]).method_key == k;
                assert(out[w + 1].method_key == k);
            }
        }
        if rows_keys_unique(s) && !rows_contain_key(s, x.method_key) {
            assert forall|i: int, j: int| 0 <= i < j < out.len()
                implies out[i].method_key != out[j].method_key by {
                if i == 0 {
                    assert(out[j] == s[j - 1]);
                    if out[0].method_key == out[j].method_key {
                        assert(rows_contain_key(s, x.method_key));
                        assert(false);
                    }
                } else {
                    assert(out[i] == s[i - 1]);
                    assert(out[j] == s[j - 1]);
                }
            }
        }
    }
}

proof fn lemma_sort_key_facts(s: Seq<ResultModel>)
    ensures
        forall|k: Seq<char>| #[trigger] rows_contain_key(sort_by_magnitude(s), k)
            <==> rows_contain_key(s, k),
        rows_keys_unique(s) ==> rows_keys_unique(sort_by_magnitude(s)),
    decreases s.len(),
{
    if s.len() > 0 {
        let pre = s.drop_last();
        lemma_sort_key_facts(pre);
        lemma_insert_desc_key_facts(s.last(), sort_by_magnitude(pre));
        assert forall|k: Seq<char>| #[trigger] rows_contain_key(s, k)
            implies rows_contain_key(sort_by_magnitude(s), k) by {
            let w = choose|i: int| 0 <= i < s.len() && (#[trigger] s[i]).method_key == k;
            if w < s.len() - 1 {
                assert(pre[w] == s[w]);
                assert(rows_contain_key(pre, k));
            } else {
                assert(s.last().method_key == k);
            }
        }
        assert forall|k: Seq<char>| #[trigger] rows_contain_key(sort_by_magnitude(s), k)
            implies rows_contain_key(s, k) by {
            if s.last().method_key == k {
                assert(s[s.len() - 1].method_key == k);
            } else {
                assert(rows_contain_key(pre, k));
                let w = choose|i: int| 0 <= i < pre.len() && (#[trigger] pre[i]).method_key == k;
                assert(s[w] == pre[w]);
            }
        }
        if rows_keys_unique(s) {
            assert(rows_keys_unique(pre)) by {
                assert forall|i: int, j: int| 0 <= i < j < pre.len()
                    implies pre[i].method_key != pre[j].method_key by {
                    assert(pre[i] == s[i]);
                    assert(pre[j] == s[j]);
                }
            }
            assert(!rows_contain_key(sort_by_magnitude(pre), s.last().method_key)) by {
                if rows_contain_key(sort_by_magnitude(pre), s.last().method_key) {
                    assert(rows_contain_key(pre, s.last().method_key));
                    let w = choose|i: int| 0 <= i < pre.len()
                        && (#[trigger] pre[i]).method_key == s.last().method_key;
                    assert(s[w] == pre[w]);
                    assert(s[w].method_key == s[s.len() - 1].method_key);
                    assert(false);
                }
            }
        }
    }
}

proof fn lemma_insert_desc_sorted(x: ResultModel, s: Seq<ResultModel>)
    requires
        sorted_by_magnitude_desc(s),
    ensures
        sorted_by_magnitude_desc(insert_desc(x, s)),
    decreases s.len(),
{
    lemma_insert_desc_len(x, s);
    let out = insert_desc(x, s);
    if s.len() == 0 {
    } else if change_magnitude(s[0]) >= change_magnitude(x) {
        let tail = s.subrange(1, s.len() as int);
        assert(sorted_by_magnitude_desc(tail)) by {
            assert forall|i: int, j: int| 0 <= i <= j < tail.len()
                implies change_magnitude(tail[i]) >= change_magnitude(tail[j]) by {
                assert(tail[i] == s[i + 1]);
                assert(tail[j] == s[j + 1]);
            }
        }
        lemma_insert_desc_sorted(x, tail);
        let rec = insert_desc(x, tail);
        lemma_insert_desc_len(x, tail);
        assert(out == seq![s[0]] + rec);
        // every element of the recursive insertion is bounded by s[0]
        assert forall|j: int| 0 <= j < rec.len()
            implies change_magnitude(s[0]) >= change_magnitude(#[trigger] rec[j]) by {
            lemma_insert_desc_elements(x, tail, j);
        }
        assert forall|i: int, j: int| 0 <= i <= j < out.len()
            implies change_magnitude(out[i]) >= change_magnitude(out[j]) by {
            if i == 0 && j > 0 {
                assert(out[j] == rec[j - 1]);
            } else if i > 0 {
                assert(out[i] == rec[i - 1]);
                assert(out[j] == rec[j - 1]);
                assert(sorted_by_magnitude_desc(rec));
            }
        }
    } else {
        assert(out == seq![x] + s);
        assert forall|i: int, j: int| 0 <= i <= j < out.len()
            implies change_magnitude(out[i]) >= change_magnitude(out[j]) by {
            if i == 0 && j > 0 {
                assert(out[j] == s[j - 1]);
                assert(change_magnitude(s[0]) >= change_magnitude(s[j - 1]));
            } else if i > 0 {
                assert(out[i] == s[i - 1]);
                assert(out[j] == s[j - 1]);
            }
        }
    }
}

/// Every element of `insert_desc(x, s)` is either `x` or an element of
/// `s`.
proof fn lemma_insert_desc_elements(x: ResultModel, s: Seq<ResultModel>, j: int)
    requires
        0 <= j < insert_desc(x, s).len(),
    ensures
        insert_desc(x, s)[j] == x || exists|i: int| 0 <= i < s.len() && #[trigger] s[i] == insert_desc(x, s)[j],
    decreases s.len(),
{
    lemma_insert_desc_len(x, s);
    let out = insert_desc(x, s);
    if s.len() == 0 {
    } else if change_magnitude(s[0]) >= change_magnitude(x) {
        let tail = s.subrange(1, s.len() as int);
        let rec = insert_desc(x, tail);
        lemma_insert_desc_len(x, tail);
        if j == 0 {
            assert(out[0] == s[0]);
        } else {
            assert(out[j] == rec[j - 1]);
            lemma_insert_desc_elements(x, tail, j - 1);
            if rec[j - 1] != x {
                let w = choose|i: int| 0 <= i < tail.len() && #[trigger] tail[i] == rec[j - 1];
                assert(s[w + 1] == tail[w]);
            }
        }
    } else {
        if j > 0 {
            assert(out[j] == s[j - 1]);
        }
    }
}

/// Law (sort order): the output rows never grow in change magnitude
/// from left to right.
pub proof fn lemma_sort_by_magnitude_sorted(s: Seq<ResultModel>)
    ensures
        sorted_by_magnitude_desc(sort_by_magnitude(s)),
    decreases s.len(),
{
    if s.len() > 0 {
        lemma_sort_by_magnitude_sorted(s.drop_last());
        lemma_insert_desc_sorted(s.last(), sort_by_magnitude(s.drop_last()));
    }
}

/// Law (completeness): the comparator's output carries exactly one row
/// for each method key present in either snapshot — no key is missing
/// and none is repeated.
pub proof fn lemma_comparator_completeness(
    baseline: Seq<SnapshotEntry>,
    current: Seq<SnapshotEntry>,
    t: int,
)
    requires
        unique_keys(baseline),
        unique_keys(current),
    ensures
        forall|k: Seq<char>|
            #[trigger] rows_contain_key(sort_by_magnitude(comparison_rows(baseline, current, t)), k)
                <==> (has_key(baseline, k) || has_key(current, k)),
        rows_keys_unique(sort_by_magnitude(comparison_rows(baseline, current, t))),
{
    lemma_comparison_rows_keys(baseline, current, t);
    lemma_sort_key_facts(comparison_rows(baseline, current, t));
}

} // verus!
