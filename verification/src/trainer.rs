//! The offline trainer's verified half: assembling the training set.
//!
//! The trainer groups the labeled stream by activity, slices each group
//! into windows, summarises every window into its 28-statistic row, maps
//! each activity text to its integer class — discarding the groups whose
//! activity is unrecognized, so no sentinel class ever reaches the fit —
//! and hands the host the matrix and label vector to fit.  The fit
//! itself, the model serialization, and the store write are the host's
//! outside work; a fit failure is fatal to the run and nothing partial
//! is persisted.

use crate::errors::TrainingError;
use crate::features::{
    extract_features, sample_wf, samples_wf, spec_features, spec_row, Sample, window_wf,
};
use crate::label::{spec_class, spec_label_of_name, label_of_training_name};
use crate::stats::SERIES_CAP;
use crate::windowing::{
    chunks_of, chunk_windows, group_by_activity, samples_with, spec_keys, ActivityGroup,
    LabeledRow,
};
use vstd::prelude::*;

verus! {

/// Every reading of the stream is within the sample bound.
pub open spec fn rows_wf(rows: Seq<LabeledRow>) -> bool {
    forall|i: int| 0 <= i < rows.len() ==> sample_wf(#[trigger] rows[i].sample)
}

/// The feature rows of one activity's windows; empty when the activity
/// is unrecognized, since such rows are discarded before training.
pub open spec fn spec_group_rows(key: Seq<u8>, rows: Seq<LabeledRow>, size: int) -> Seq<Seq<i64>> {
    match spec_label_of_name(key) {
        None => Seq::empty(),
        Some(_) => chunks_of(samples_with(rows, key), size).map_values(
            |w: Seq<Sample>| spec_row(spec_features(w)),
        ),
    }
}

/// The class labels matching `spec_group_rows`, one per window.
pub open spec fn spec_group_labels(key: Seq<u8>, rows: Seq<LabeledRow>, size: int) -> Seq<int> {
    match spec_label_of_name(key) {
        None => Seq::empty(),
        Some(l) => chunks_of(samples_with(rows, key), size).map_values(
            |w: Seq<Sample>| spec_class(l),
        ),
    }
}

/// The feature rows of a list of activities, in order.
pub open spec fn spec_rows_of_keys(keys: Seq<Seq<u8>>, rows: Seq<LabeledRow>, size: int) -> Seq<
    Seq<i64>,
>
    decreases keys.len(),
{
    if keys.len() == 0 {
        Seq::empty()
    } else {
        spec_rows_of_keys(keys.drop_last(), rows, size) + spec_group_rows(keys.last(), rows, size)
    }
}

/// The class labels of a list of activities, in order.
pub open spec fn spec_labels_of_keys(keys: Seq<Seq<u8>>, rows: Seq<LabeledRow>, size: int) -> Seq<
    int,
>
    decreases keys.len(),
{
    if keys.len() == 0 {
        Seq::empty()
    } else {
        spec_labels_of_keys(keys.drop_last(), rows, size) + spec_group_labels(
            keys.last(),
            rows,
            size,
        )
    }
}

/// The training matrix of a labeled stream: one feature row per window
/// of every recognized activity, groups in first-appearance order.
pub open spec fn spec_training_rows(rows: Seq<LabeledRow>, size: int) -> Seq<Seq<i64>> {
    spec_rows_of_keys(spec_keys(rows), rows, size)
}

/// The label vector matching `spec_training_rows`.
pub open spec fn spec_training_labels(rows: Seq<LabeledRow>, size: int) -> Seq<int> {
    spec_labels_of_keys(spec_keys(rows), rows, size)
}

/// The assembled training set: the feature matrix and, row for row, the
/// integer class labels.
pub struct TrainingSet {
    pub rows: Vec<Vec<i64>>,
    pub labels: Vec<i64>,
}

/// The samples of an activity are samples of the stream.
proof fn lemma_samples_with_wf(rows: Seq<LabeledRow>, key: Seq<u8>)
    requires
        rows_wf(rows),
    ensures
        samples_wf(samples_with(rows, key)),
    decreases rows.len(),
{
    if rows.len() > 0 {
        assert(rows_wf(rows.drop_last())) by {
            assert(forall|i: int|
                0 <= i < rows.len() - 1 ==> #[trigger] rows.drop_last()[i] == rows[i]);
        }
        lemma_samples_with_wf(rows.drop_last(), key);
        assert(sample_wf(rows.last().sample));
    }
}

/// Every window of a well-formed sample sequence is well formed.
proof fn lemma_chunks_wf(s: Seq<Sample>, size: int)
    requires
        samples_wf(s),
        size >= 1,
    ensures
        forall|h: int|
            0 <= h < chunks_of(s, size).len() ==> samples_wf(#[trigger] chunks_of(s, size)[h]),
    decreases s.len(),
{
    if s.len() == 0 {
    } else if s.len() <= size {
        assert(chunks_of(s, size) == seq![s]);
    } else {
        assert(samples_wf(s.skip(size))) by {
            assert(forall|i: int|
                0 <= i < s.skip(size).len() ==> #[trigger] s.skip(size)[i] == s[i + size]);
        }
        lemma_chunks_wf(s.skip(size), size);
        assert(samples_wf(s.take(size))) by {
            assert(forall|i: int|
                0 <= i < s.take(size).len() ==> #[trigger] s.take(size)[i] == s[i]);
        }
        assert forall|h: int| 0 <= h < chunks_of(s, size).len() implies samples_wf(
            #[trigger] chunks_of(s, size)[h],
        ) by {
            if h == 0 {
                assert(chunks_of(s, size)[0] == s.take(size));
            } else {
                assert(chunks_of(s, size)[h] == chunks_of(s.skip(size), size)[h - 1]);
            }
        }
    }
}

/// Assembles the training set of a labeled sample stream: windows of the
/// given size per activity, the final window of a group possibly short,
/// rows whose activity is unrecognized discarded.  Fails exactly when
/// nothing remains to fit, and persists nothing in that case.
#[verifier::rlimit(80)]
pub fn prepare_training_set(rows: &Vec<LabeledRow>, window_size: usize) -> (r: Result<
    TrainingSet,
    TrainingError,
>)
    requires
        1 <= window_size <= SERIES_CAP,
        rows_wf(rows@),
    ensures
        r matches Ok(ts) ==> {
            &&& ts.rows@.map_values(|v: Vec<i64>| v@) == spec_training_rows(
                rows@,
                window_size as int,
            )
            &&& ts.labels@.map_values(|c: i64| c as int) == spec_training_labels(
                rows@,
                window_size as int,
            )
            &&& ts.rows@.len() == ts.labels@.len()
            &&& ts.rows@.len() > 0
            &&& forall|k: int| 0 <= k < ts.rows@.len() ==> #[trigger] ts.rows@[k]@.len() == 28
        },
        r is Err ==> r == Err::<TrainingSet, TrainingError>(TrainingError::EmptyTrainingSet)
            && spec_training_rows(rows@, window_size as int).len() == 0,
{
    let gs = group_by_activity(rows);
    let ghost keys = spec_keys(rows@);
    let mut out_rows: Vec<Vec<i64>> = Vec::new();
    let mut out_labels: Vec<i64> = Vec::new();
    let k: usize = gs.len();
    proof {
        assert(gs@.map_values(|g2: ActivityGroup| g2.activity@).len() == keys.len());
        assert(keys.take(0) =~= Seq::<Seq<u8>>::empty());
        assert(out_rows@.map_values(|v: Vec<i64>| v@) =~= spec_rows_of_keys(
            keys.take(0),
            rows@,
            window_size as int,
        ));
        assert(out_labels@.map_values(|c: i64| c as int) =~= spec_labels_of_keys(
            keys.take(0),
            rows@,
            window_size as int,
        ));
    }
    let mut g: usize = 0;
    while g < k
        invariant
            0 <= g <= k,
            k == gs@.len() == keys.len(),
            1 <= window_size <= SERIES_CAP,
            rows_wf(rows@),
            keys == spec_keys(rows@),
            gs@.map_values(|g2: ActivityGroup| g2.activity@) == keys,
            forall|h: int|
                0 <= h < gs@.len() ==> #[trigger] gs@[h].samples@ == samples_with(
                    rows@,
                    gs@[h].activity@,
                ),
            out_rows@.map_values(|v: Vec<i64>| v@) == spec_rows_of_keys(
                keys.take(g as int),
                rows@,
                window_size as int,
            ),
            out_labels@.map_values(|c: i64| c as int) == spec_labels_of_keys(
                keys.take(g as int),
                rows@,
                window_size as int,
            ),
            out_rows@.len() == out_labels@.len(),
            forall|j: int| 0 <= j < out_rows@.len() ==> #[trigger] out_rows@[j]@.len() == 28,
        decreases k - g,
    {
        proof {
            assert(keys.take(g + 1).drop_last() =~= keys.take(g as int));
            assert(keys.take(g + 1).last() == keys[g as int]);
            assert(gs@.map_values(|g2: ActivityGroup| g2.activity@)[g as int] == gs@[g as int].activity@);
            assert(gs@[g as int].activity@ == keys[g as int]);
        }
        let label = match label_of_training_name(gs[g].activity.as_slice()) {
            None => {
                proof {
                    assert(spec_group_rows(keys[g as int], rows@, window_size as int)
                        =~= Seq::<Seq<i64>>::empty());
                    assert(spec_group_labels(keys[g as int], rows@, window_size as int)
                        =~= Seq::<int>::empty());
                    assert(out_rows@.map_values(|v: Vec<i64>| v@) =~= spec_rows_of_keys(
                        keys.take(g + 1),
                        rows@,
                        window_size as int,
                    ));
                    assert(out_labels@.map_values(|c: i64| c as int) =~= spec_labels_of_keys(
                        keys.take(g + 1),
                        rows@,
                        window_size as int,
                    ));
                }
                g += 1;
                continue ;
            },
            Some(l) => l,
        };
        proof {
            lemma_samples_with_wf(rows@, keys[g as int]);
        }
        let ws = chunk_windows(&gs[g].samples, window_size);
        let ghost cks = chunks_of(gs@[g as int].samples@, window_size as int);
        let ghost rows_before = out_rows@;
        let ghost labels_before = out_labels@;
        proof {
            lemma_chunks_wf(gs@[g as int].samples@, window_size as int);
        }
        let wn: usize = ws.len();
        let mut j: usize = 0;
        while j < wn
            invariant
                0 <= j <= wn,
                wn == ws@.len(),
                1 <= window_size <= SERIES_CAP,
                ws@.map_values(|w: Vec<Sample>| w@) == cks,
                forall|h: int| 0 <= h < ws@.len() ==> 1 <= #[trigger] ws@[h]@.len() <= window_size,
                forall|h: int| 0 <= h < cks.len() ==> samples_wf(#[trigger] cks[h]),
                spec_label_of_name(keys[g as int]) == Some(label),
                g < keys.len(),
                out_rows@.map_values(|v: Vec<i64>| v@) == rows_before.map_values(|v: Vec<i64>| v@)
                    + cks.map_values(|w: Seq<Sample>| spec_row(spec_features(w))).take(j as int),
                out_labels@.map_values(|c: i64| c as int) == labels_before.map_values(
                    |c: i64| c as int,
                ) + cks.map_values(|w: Seq<Sample>| spec_class(label)).take(j as int),
                out_rows@.len() == out_labels@.len(),
                forall|h: int| 0 <= h < out_rows@.len() ==> #[trigger] out_rows@[h]@.len() == 28,
            decreases wn - j,
        {
            proof {
                assert(ws@.map_values(|w: Vec<Sample>| w@)[j as int] == ws@[j as int]@);
                assert(samples_wf(ws@[j as int]@));
                assert(window_wf(ws@[j as int]@));
            }
            let fv = match extract_features(&ws[j]) {
                Err(_) => {
                    proof {
                        assert(false);
                    }
                    return Err(TrainingError::EmptyTrainingSet);
                },
                Ok(fv) => fv,
            };
            let row = fv.to_row();
            let cls = label.class();
            let ghost rows0 = out_rows@;
            let ghost labels0 = out_labels@;
            out_rows.push(row);
            out_labels.push(cls as i64);
            proof {
                let fr = |v: Vec<i64>| v@;
                let fc = |c: i64| c as int;
                let fw = |w: Seq<Sample>| spec_row(spec_features(w));
                let fl = |w: Seq<Sample>| spec_class(label);
                assert(row@ == fw(cks[j as int]));
                assert(out_rows@.map_values(fr) =~= rows0.map_values(fr).push(row@));
                assert(out_labels@.map_values(fc) =~= labels0.map_values(fc).push(
                    spec_class(label),
                ));
                assert(cks.map_values(fw).take(j + 1) =~= cks.map_values(fw).take(j as int).push(
                    fw(cks[j as int]),
                ));
                assert(cks.map_values(fl).take(j + 1) =~= cks.map_values(fl).take(j as int).push(
                    fl(cks[j as int]),
                ));
                assert(out_rows@.map_values(fr) =~= rows_before.map_values(fr) + cks.map_values(
                    fw,
                ).take(j + 1));
                assert(out_labels@.map_values(fc) =~= labels_before.map_values(fc) + cks.map_values(
                    fl,
                ).take(j + 1));
            }
            j += 1;
        }
        proof {
            let fr = |v: Vec<i64>| v@;
            let fc = |c: i64| c as int;
            let fw = |w: Seq<Sample>| spec_row(spec_features(w));
            let fl = |w: Seq<Sample>| spec_class(label);
            assert(cks.map_values(fw).take(wn as int) =~= cks.map_values(fw));
            assert(cks.map_values(fl).take(wn as int) =~= cks.map_values(fl));
            assert(spec_group_rows(keys[g as int], rows@, window_size as int) == cks.map_values(
                fw,
            ));
            assert(spec_group_labels(keys[g as int], rows@, window_size as int) == cks.map_values(
                fl,
            ));
            assert(out_rows@.map_values(fr) =~= spec_rows_of_keys(
                keys.take(g + 1),
                rows@,
                window_size as int,
            ));
            assert(out_labels@.map_values(fc) =~= spec_labels_of_keys(
                keys.take(g + 1),
                rows@,
                window_size as int,
            ));
        }
        g += 1;
    }
    proof {
        assert(keys.take(k as int) =~= keys);
    }
    if out_rows.len() == 0 {
        proof {
            assert(spec_training_rows(rows@, window_size as int).len() == 0);
        }
        return Err(TrainingError::EmptyTrainingSet);
    }
    Ok(TrainingSet { rows: out_rows, labels: out_labels })
}

} // verus!
