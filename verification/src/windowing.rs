//! Windowing and grouping of the labeled training stream.
//!
//! Rows are grouped by their activity text, keeping the input order
//! within each group, and each group's sample sequence is sliced into
//! consecutive windows of the configured size; only the final window of a
//! group may be short.  No window crosses an activity boundary.  Group
//! order follows first appearance, but callers must rely only on the
//! intra-group sample order.

use crate::features::Sample;
use vstd::prelude::*;

verus! {

/// The window size the trainer uses by default.
pub const DEFAULT_WINDOW_SIZE: usize = 100;

/// One labeled reading of the training stream.
#[derive(Clone, Debug)]
pub struct LabeledRow {
    /// The activity text of the reading, as it appears in the source data.
    pub activity: Vec<u8>,
    /// The reading itself.
    pub sample: Sample,
}

/// One group of the stream: an activity text and its readings in input
/// order.
#[derive(Clone, Debug)]
pub struct ActivityGroup {
    pub activity: Vec<u8>,
    pub samples: Vec<Sample>,
}

/// The samples of all rows carrying the given activity, in input order.
pub open spec fn samples_with(rows: Seq<LabeledRow>, key: Seq<u8>) -> Seq<Sample>
    decreases rows.len(),
{
    if rows.len() == 0 {
        Seq::empty()
    } else if rows.last().activity@ == key {
        samples_with(rows.drop_last(), key).push(rows.last().sample)
    } else {
        samples_with(rows.drop_last(), key)
    }
}

/// The distinct activities of the stream, in first-appearance order.
pub open spec fn spec_keys(rows: Seq<LabeledRow>) -> Seq<Seq<u8>>
    decreases rows.len(),
{
    if rows.len() == 0 {
        Seq::empty()
    } else {
        let k = spec_keys(rows.drop_last());
        if k.contains(rows.last().activity@) {
            k
        } else {
            k.push(rows.last().activity@)
        }
    }
}

/// Some key of the list equals the given activity text.
pub open spec fn has_key(keys: Seq<Vec<u8>>, a: Seq<u8>) -> bool {
    exists|g: int| 0 <= g < keys.len() && keys[g]@ == a
}

/// Some group of the list carries the given activity text.
pub open spec fn has_group(gs: Seq<ActivityGroup>, a: Seq<u8>) -> bool {
    exists|g: int| 0 <= g < gs.len() && gs[g].activity@ == a
}

/// Copies a byte text.
pub fn copy_bytes(a: &[u8]) -> (r: Vec<u8>)
    ensures
        r@ == a@,
{
    let mut r: Vec<u8> = Vec::new();
    let n: usize = a.len();
    let mut i: usize = 0;
    while i < n
        invariant
            0 <= i <= n,
            n == a@.len(),
            r@ == a@.take(i as int),
        decreases n - i,
    {
        r.push(a[i]);
        proof {
            assert(a@.take(i + 1) =~= a@.take(i as int).push(a@[i as int]));
        }
        i += 1;
    }
    proof {
        assert(a@.take(n as int) =~= a@);
    }
    r
}

/// True when two byte texts are equal.
pub fn bytes_eq(a: &[u8], b: &[u8]) -> (r: bool)
    ensures
        r == (a@ == b@),
{
    if a.len() != b.len() {
        assert(a@ != b@);
        return false;
    }
    let n: usize = a.len();
    let mut i: usize = 0;
    while i < n
        invariant
            0 <= i <= n,
            n == a@.len() == b@.len(),
            forall|j: int| 0 <= j < i ==> a@[j] == b@[j],
        decreases n - i,
    {
        if a[i] != b[i] {
            assert(a@ != b@);
            return false;
        }
        i += 1;
    }
    proof {
        assert(a@ =~= b@);
    }
    true
}

/// Groups the stream by activity, preserving input order within each
/// group.  The groups carry pairwise distinct activities, each group
/// holds exactly the samples of its activity in input order, and every
/// row's activity has a group.
pub fn group_by_activity(rows: &Vec<LabeledRow>) -> (gs: Vec<ActivityGroup>)
    ensures
        gs@.map_values(|g: ActivityGroup| g.activity@) == spec_keys(rows@),
        forall|a: int, b: int|
            0 <= a < b < gs@.len() ==> gs@[a].activity@ != gs@[b].activity@,
        forall|g: int|
            0 <= g < gs@.len() ==> #[trigger] gs@[g].samples@ == samples_with(
                rows@,
                gs@[g].activity@,
            ),
        forall|i: int| 0 <= i < rows@.len() ==> has_group(gs@, #[trigger] rows@[i].activity@),
{
    let n: usize = rows.len();
    // first pass: the distinct activities, in first-appearance order
    let mut keys: Vec<Vec<u8>> = Vec::new();
    let mut i: usize = 0;
    while i < n
        invariant
            0 <= i <= n,
            n == rows@.len(),
            forall|a: int, b: int| 0 <= a < b < keys@.len() ==> keys@[a]@ != keys@[b]@,
            forall|j: int| 0 <= j < i ==> has_key(keys@, #[trigger] rows@[j].activity@),
            keys@.map_values(|k: Vec<u8>| k@) == spec_keys(rows@.take(i as int)),
        decreases n - i,
    {
        let mut found = false;
        let mut g: usize = 0;
        let k: usize = keys.len();
        while g < k
            invariant
                0 <= g <= k,
                k == keys@.len(),
                n == rows@.len(),
                i < n,
                !found ==> forall|h: int| 0 <= h < g ==> keys@[h]@ != rows@[i as int].activity@,
                found ==> has_key(keys@, rows@[i as int].activity@),
            decreases k - g,
        {
            if bytes_eq(keys[g].as_slice(), rows[i].activity.as_slice()) {
                found = true;
            }
            g += 1;
        }
        let ghost keys0 = keys@;
        if !found {
            let key = copy_bytes(rows[i].activity.as_slice());
            keys.push(key);
        }
        proof {
            let f = |k: Vec<u8>| k@;
            let a = rows@[i as int].activity@;
            assert(rows@.take(i + 1).drop_last() =~= rows@.take(i as int));
            assert(rows@.take(i + 1).last() == rows@[i as int]);
            if found {
                let h = choose|h: int| 0 <= h < keys0.len() && keys0[h]@ == a;
                assert(keys0.map_values(f)[h] == a);
                assert(keys0.map_values(f).contains(a));
                assert(keys@.map_values(f) == spec_keys(rows@.take(i + 1)));
            } else {
                assert forall|h: int| 0 <= h < keys0.map_values(f).len() implies keys0.map_values(
                    f,
                )[h] != a by {
                    assert(keys0.map_values(f)[h] == keys0[h]@);
                }
                assert(!keys0.map_values(f).contains(a));
                assert(keys@.map_values(f) =~= keys0.map_values(f).push(a));
                assert(keys@.map_values(f) == spec_keys(rows@.take(i + 1)));
            }
            assert forall|j: int| 0 <= j < i + 1 implies has_key(
                keys@,
                #[trigger] rows@[j].activity@,
            ) by {
                if j < i {
                    assert(has_key(keys0, rows@[j].activity@));
                    let g2 = choose|g2: int|
                        0 <= g2 < keys0.len() && keys0[g2]@ == rows@[j].activity@;
                    assert(0 <= g2 < keys@.len() && keys@[g2]@ == rows@[j].activity@);
                } else if found {
                    let h = choose|h: int|
                        0 <= h < keys0.len() && keys0[h]@ == rows@[i as int].activity@;
                    assert(0 <= h < keys@.len() && keys@[h]@ == rows@[j].activity@);
                } else {
                    let h = keys@.len() - 1;
                    assert(0 <= h < keys@.len() && keys@[h]@ == rows@[j].activity@);
                }
            }
        }
        i += 1;
    }
    // second pass: collect each activity's samples in input order
    proof {
        assert(i == n);
        assert(rows@.take(n as int) =~= rows@);
    }
    let mut gs: Vec<ActivityGroup> = Vec::new();
    let mut g: usize = 0;
    let k: usize = keys.len();
    while g < k
        invariant
            0 <= g <= k,
            k == keys@.len(),
            n == rows@.len(),
            gs@.len() == g,
            forall|a: int, b: int| 0 <= a < b < keys@.len() ==> keys@[a]@ != keys@[b]@,
            forall|j: int| 0 <= j < n ==> has_key(keys@, #[trigger] rows@[j].activity@),
            keys@.map_values(|k: Vec<u8>| k@) == spec_keys(rows@),
            forall|h: int| 0 <= h < g ==> #[trigger] gs@[h].activity@ == keys@[h]@,
            forall|h: int|
                0 <= h < g ==> #[trigger] gs@[h].samples@ == samples_with(rows@, keys@[h]@),
        decreases k - g,
    {
        let key = copy_bytes(keys[g].as_slice());
        let mut sv: Vec<Sample> = Vec::new();
        let mut i: usize = 0;
        while i < n
            invariant
                0 <= i <= n,
                n == rows@.len(),
                key@ == keys@[g as int]@,
                g < keys@.len(),
                sv@ == samples_with(rows@.take(i as int), key@),
            decreases n - i,
        {
            proof {
                assert(rows@.take(i + 1).drop_last() =~= rows@.take(i as int));
                assert(rows@.take(i + 1).last() == rows@[i as int]);
            }
            if bytes_eq(rows[i].activity.as_slice(), key.as_slice()) {
                sv.push(rows[i].sample);
            }
            i += 1;
        }
        proof {
            assert(rows@.take(n as int) =~= rows@);
        }
        let ghost gs0 = gs@;
        gs.push(ActivityGroup { activity: key, samples: sv });
        proof {
            assert forall|h: int| 0 <= h < g + 1 implies #[trigger] gs@[h].activity@ == keys@[h]@
                && gs@[h].samples@ == samples_with(rows@, keys@[h]@) by {
                if h < g {
                    assert(gs@[h] == gs0[h]);
                    assert(gs0[h].activity@ == keys@[h]@);
                    assert(gs0[h].samples@ == samples_with(rows@, keys@[h]@));
                } else {
                    assert(gs@[h].activity@ == keys@[h]@);
                }
            }
        }
        g += 1;
    }
    proof {
        assert(rows@.take(n as int) =~= rows@);
        assert(gs@.map_values(|g2: ActivityGroup| g2.activity@) =~= keys@.map_values(
            |k: Vec<u8>| k@,
        ));
        assert forall|i: int| 0 <= i < rows@.len() implies has_group(
            gs@,
            #[trigger] rows@[i].activity@,
        ) by {
            assert(has_key(keys@, rows@[i].activity@));
            let h = choose|h: int| 0 <= h < keys@.len() && keys@[h]@ == rows@[i].activity@;
            assert(0 <= h < gs@.len() && gs@[h].activity@ == rows@[i].activity@);
        }
    }
    gs
}

/// The consecutive windows of one group's sample sequence: every window
/// is full except possibly the last, and no window is empty.
pub open spec fn chunks_of(s: Seq<Sample>, size: int) -> Seq<Seq<Sample>>
    decreases s.len(),
{
    if s.len() == 0 || size < 1 {
        Seq::empty()
    } else if s.len() <= size {
        seq![s]
    } else {
        seq![s.take(size)] + chunks_of(s.skip(size), size)
    }
}

/// Slices a sample sequence into consecutive windows of the given size;
/// the final window may be short, and no window is empty.
pub fn chunk_windows(samples: &Vec<Sample>, size: usize) -> (ws: Vec<Vec<Sample>>)
    requires
        size >= 1,
    ensures
        ws@.map_values(|w: Vec<Sample>| w@) == chunks_of(samples@, size as int),
        forall|h: int| 0 <= h < ws@.len() ==> 1 <= #[trigger] ws@[h]@.len() <= size,
        forall|h: int| 0 <= h < ws@.len() - 1 ==> #[trigger] ws@[h]@.len() == size,
{
    let n: usize = samples.len();
    let mut ws: Vec<Vec<Sample>> = Vec::new();
    let mut i: usize = 0;
    proof {
        let f = |w: Vec<Sample>| w@;
        assert(samples@.skip(0) =~= samples@);
        assert(ws@.map_values(f) =~= Seq::<Seq<Sample>>::empty());
        assert(ws@.map_values(f) + chunks_of(samples@, size as int) =~= chunks_of(
            samples@,
            size as int,
        ));
    }
    while i < n
        invariant
            0 <= i <= n,
            n == samples@.len(),
            size >= 1,
            ws@.map_values(|w: Vec<Sample>| w@) + chunks_of(samples@.skip(i as int), size as int)
                == chunks_of(samples@, size as int),
            forall|h: int| 0 <= h < ws@.len() ==> 1 <= #[trigger] ws@[h]@.len() <= size,
            i < n ==> forall|h: int| 0 <= h < ws@.len() ==> #[trigger] ws@[h]@.len() == size,
            forall|h: int| 0 <= h < ws@.len() - 1 ==> #[trigger] ws@[h]@.len() == size,
        decreases n - i,
    {
        let end: usize = if n - i < size {
            n
        } else {
            i + size
        };
        let mut w: Vec<Sample> = Vec::new();
        let mut j: usize = i;
        while j < end
            invariant
                i <= j <= end <= n,
                n == samples@.len(),
                w@ == samples@.subrange(i as int, j as int),
            decreases end - j,
        {
            w.push(samples[j]);
            proof {
                assert(samples@.subrange(i as int, j + 1) =~= samples@.subrange(
                    i as int,
                    j as int,
                ).push(samples@[j as int]));
            }
            j += 1;
        }
        let ghost tail = samples@.skip(i as int);
        proof {
            assert(tail.len() == n - i);
            if n - i <= size {
                assert(w@ =~= tail);
                assert(chunks_of(tail, size as int) == seq![w@]);
            } else {
                assert(w@ =~= tail.take(size as int));
                assert(samples@.skip(end as int) =~= tail.skip(size as int));
                assert(chunks_of(tail, size as int) == seq![w@] + chunks_of(
                    samples@.skip(end as int),
                    size as int,
                ));
            }
        }
        let ghost ws0 = ws@;
        ws.push(w);
        proof {
            let f = |w: Vec<Sample>| w@;
            assert(ws@.map_values(f) =~= ws0.map_values(f).push(w@));
            if n - i <= size {
                assert(samples@.skip(end as int) =~= Seq::<Sample>::empty());
                assert(chunks_of(samples@.skip(end as int), size as int) == Seq::<
                    Seq<Sample>,
                >::empty());
            }
            assert(ws0.map_values(f).push(w@) + chunks_of(samples@.skip(end as int), size as int)
                =~= ws0.map_values(f) + (seq![w@] + chunks_of(
                samples@.skip(end as int),
                size as int,
            )));
            assert(seq![w@] + chunks_of(samples@.skip(end as int), size as int) == chunks_of(
                tail,
                size as int,
            ));
        }
        i = end;
    }
    proof {
        assert(samples@.skip(n as int) =~= Seq::<Sample>::empty());
        assert(chunks_of(samples@.skip(n as int), size as int) == Seq::<Seq<Sample>>::empty());
        let f = |w: Vec<Sample>| w@;
        assert(ws@.map_values(f) + Seq::<Seq<Sample>>::empty() =~= ws@.map_values(f));
    }
    ws
}

} // verus!
