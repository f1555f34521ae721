//! The history of observed radar frames (RTCOR actuals): at most a given
//! number of frames, one per timestamp, oldest first.

use vstd::prelude::*;
use std::sync::Arc;

verus! {

/// One observed radar frame.
#[derive(Clone)]
pub struct ActualsFrame {
    /// Observation time, as a unix timestamp.
    pub timestamp: i64,
    /// Rain intensity per cell of the RTCOR grid, in hundredths of mm/h.
    pub raw_values: Arc<Vec<u16>>,
    /// The frame rendered as a WebP image.
    pub webp_bytes: Vec<u8>,
}

/// The retained history of observed frames.
#[derive(Clone)]
pub struct ActualsData {
    /// The frames, oldest first.
    pub frames: Vec<ActualsFrame>,
}

/// Timestamps strictly increase along `s`.
pub open spec fn strictly_ascending(s: Seq<ActualsFrame>) -> bool {
    forall|i: int, j: int| 0 <= i < j < s.len() ==> s[i].timestamp < s[j].timestamp
}

/// Number of frames of `s` older than `t`.
pub open spec fn count_before(s: Seq<ActualsFrame>, t: i64) -> nat
    decreases s.len(),
{
    if s.len() == 0 {
        0
    } else {
        count_before(s.drop_last(), t) + if s.last().timestamp < t {
            1nat
        } else {
            0nat
        }
    }
}

/// `s` with `f` put in its place by timestamp, replacing the frame of the
/// same timestamp if there is one.
pub open spec fn with_frame(s: Seq<ActualsFrame>, f: ActualsFrame) -> Seq<ActualsFrame> {
    let p = count_before(s, f.timestamp) as int;
    if p < s.len() && s[p].timestamp == f.timestamp {
        s.update(p, f)
    } else {
        s.insert(p, f)
    }
}

/// The newest `max` frames of `s` (all of them when there are fewer).
pub open spec fn newest(s: Seq<ActualsFrame>, max: nat) -> Seq<ActualsFrame> {
    if s.len() > max {
        s.skip(s.len() - max)
    } else {
        s
    }
}

impl ActualsData {
    /// Frames are kept oldest first, one per timestamp.
    pub open spec fn wf(&self) -> bool {
        strictly_ascending(self.frames@)
    }

    /// An empty history.
    pub fn new() -> (r: Self)
        ensures
            r.wf(),
            r.frames@.len() == 0,
    {
        ActualsData { frames: Vec::new() }
    }

    /// Adds a frame, or replaces the one with the same timestamp, then keeps
    /// only the newest `max_frames` frames.
    pub fn insert_or_update(&mut self, frame: ActualsFrame, max_frames: usize)
        requires
            old(self).wf(),
        ensures
            final(self).wf(),
            final(self).frames@ == newest(with_frame(old(self).frames@, frame), max_frames as nat),
    {
        let ghost s = self.frames@;
        let ghost f = frame;
        let t = frame.timestamp;
        let mut p: usize = 0;
        while p < self.frames.len() && self.frames[p].timestamp < t
            invariant
                self.frames@ == s,
                strictly_ascending(s),
                p <= s.len(),
                count_before(s.take(p as int), t) == p,
                forall|j: int| 0 <= j < p ==> s[j].timestamp < t,
            decreases s.len() - p,
        {
            proof {
                assert(s.take(p + 1).drop_last() =~= s.take(p as int));
            }
            p += 1;
        }
        proof {
            lemma_count_before_rest(s, p as int, t);
        }
        if p < self.frames.len() && self.frames[p].timestamp == t {
            self.frames.set(p, frame);
        } else {
            self.frames.insert(p, frame);
        }
        let ghost merged = self.frames@;
        proof {
            assert(merged == with_frame(s, f));
            lemma_with_frame_ascending(s, f);
        }
        let n = self.frames.len();
        if n > max_frames {
            let kept = self.frames.split_off(n - max_frames);
            self.frames = kept;
            proof {
                assert(self.frames@ =~= merged.skip(n - max_frames));
            }
        }
    }
}

/// Frames of `s` from `p` on are not older than `t`, so they add nothing to
/// the count of older frames.
proof fn lemma_count_before_rest(s: Seq<ActualsFrame>, p: int, t: i64)
    requires
        strictly_ascending(s),
        0 <= p <= s.len(),
        count_before(s.take(p), t) == p,
        p < s.len() ==> s[p].timestamp >= t,
    ensures
        count_before(s, t) == p,
    decreases s.len() - p,
{
    if p == s.len() {
        assert(s.take(p) =~= s);
    } else {
        lemma_count_before_suffix(s, p, t);
    }
}

proof fn lemma_count_before_suffix(s: Seq<ActualsFrame>, p: int, t: i64)
    requires
        strictly_ascending(s),
        0 <= p < s.len(),
        s[p].timestamp >= t,
    ensures
        count_before(s, t) == count_before(s.take(p), t),
    decreases s.len(),
{
    if s.len() - 1 == p {
        assert(s.drop_last() =~= s.take(p));
    } else {
        let q = s.drop_last();
        assert(q[p] == s[p]);
        assert(strictly_ascending(q));
        lemma_count_before_suffix(q, p, t);
        assert(q.take(p) =~= s.take(p));
        assert(s[p].timestamp < s.last().timestamp);
    }
}

/// Putting a frame in its place keeps the frames strictly ascending.
proof fn lemma_with_frame_ascending(s: Seq<ActualsFrame>, f: ActualsFrame)
    requires
        strictly_ascending(s),
    ensures
        strictly_ascending(with_frame(s, f)),
{
    let p = count_before(s, f.timestamp) as int;
    lemma_count_before_split(s, f.timestamp);
    let r = with_frame(s, f);
    assert forall|i: int, j: int| 0 <= i < j < r.len() implies r[i].timestamp < r[j].timestamp by {
        if p < s.len() && s[p].timestamp == f.timestamp {
        } else {
            if i < p && j > p {
                assert(r[j] == s[j - 1]);
            }
            if i > p {
                assert(r[i] == s[i - 1]);
                assert(r[j] == s[j - 1]);
            }
        }
    }
}

/// In an ascending sequence, the frames older than `t` come first.
pub proof fn lemma_count_before_split(s: Seq<ActualsFrame>, t: i64)
    requires
        strictly_ascending(s),
    ensures
        count_before(s, t) <= s.len(),
        forall|j: int| 0 <= j < count_before(s, t) ==> #[trigger] s[j].timestamp < t,
        forall|j: int| count_before(s, t) <= j < s.len() ==> #[trigger] s[j].timestamp >= t,
    decreases s.len(),
{
    if s.len() > 0 {
        let q = s.drop_last();
        assert(strictly_ascending(q));
        lemma_count_before_split(q, t);
        let c = count_before(q, t) as int;
        if s.last().timestamp < t {
            if c < q.len() {
                assert(q[c].timestamp >= t);
                assert(s[c].timestamp < s[s.len() - 1].timestamp);
                assert(false);
            }
            assert forall|j: int| 0 <= j < count_before(s, t) implies #[trigger] s[j].timestamp < t by {
                if j < q.len() {
                    assert(s[j].timestamp < s[s.len() - 1].timestamp);
                }
            }
        } else {
            assert forall|j: int| 0 <= j < count_before(s, t) implies #[trigger] s[j].timestamp < t by {
                assert(q[j] == s[j]);
            }
            assert forall|j: int| count_before(s, t) <= j < s.len() implies #[trigger] s[j].timestamp >= t by {
                if j < q.len() {
                    assert(q[j] == s[j]);
                }
            }
        }
    }
}

/// Whether `s` holds a frame with timestamp `t`.
pub open spec fn has_timestamp(s: Seq<ActualsFrame>, t: i64) -> bool {
    exists|i: int| 0 <= i < s.len() && #[trigger] s[i].timestamp == t
}

/// After an insert the history holds `max_frames` frames, or all of them
/// when there are fewer: one more than before unless the timestamp was
/// already there.
pub proof fn lemma_insert_count(s: Seq<ActualsFrame>, f: ActualsFrame, max_frames: nat)
    requires
        strictly_ascending(s),
    ensures
        ({
            let all = s.len() + if has_timestamp(s, f.timestamp) {
                0int
            } else {
                1int
            };
            newest(with_frame(s, f), max_frames).len() == if all > max_frames {
                max_frames as int
            } else {
                all
            }
        }),
{
    let p = count_before(s, f.timestamp) as int;
    lemma_count_before_split(s, f.timestamp);
    if has_timestamp(s, f.timestamp) {
        let i = choose|i: int| 0 <= i < s.len() && #[trigger] s[i].timestamp == f.timestamp;
        if i < p {
            assert(s[i].timestamp < f.timestamp);
        }
        if i > p {
            assert(s[p].timestamp < s[i].timestamp);
            assert(s[p].timestamp >= f.timestamp);
        }
        assert(i == p);
    } else {
        if p < s.len() && s[p].timestamp == f.timestamp {
            assert(has_timestamp(s, f.timestamp));
        }
    }
}

/// Every frame of the history after an insert is the inserted frame or one
/// that was there before, and the frames keep their timestamp order.
pub proof fn lemma_insert_keeps_known_frames(s: Seq<ActualsFrame>, f: ActualsFrame, max_frames: nat)
    requires
        strictly_ascending(s),
    ensures
        strictly_ascending(newest(with_frame(s, f), max_frames)),
        forall|i: int|
            0 <= i < newest(with_frame(s, f), max_frames).len() ==> {
                let g = #[trigger] newest(with_frame(s, f), max_frames)[i];
                g == f || s.contains(g)
            },
{
    lemma_with_frame_ascending(s, f);
    let m = with_frame(s, f);
    let r = newest(m, max_frames);
    let p = count_before(s, f.timestamp) as int;
    lemma_count_before_split(s, f.timestamp);
    assert forall|i: int| 0 <= i < m.len() implies #[trigger] m[i] == f || s.contains(m[i]) by {
        if i != p {
            if p < s.len() && s[p].timestamp == f.timestamp {
                assert(m[i] == s[i]);
            } else if i < p {
                assert(m[i] == s[i]);
            } else {
                assert(m[i] == s[i - 1]);
            }
        }
    }
    assert forall|i: int| 0 <= i < r.len() implies #[trigger] r[i] == f || s.contains(r[i]) by {
        if m.len() > max_frames {
            assert(r[i] == m[i + m.len() - max_frames]);
        }
    }
}

/// A frame no older than every frame of the history becomes its newest
/// frame, when the history keeps at least one frame.
pub proof fn lemma_insert_newest(s: Seq<ActualsFrame>, f: ActualsFrame, max_frames: nat)
    requires
        strictly_ascending(s),
        max_frames >= 1,
        forall|i: int| 0 <= i < s.len() ==> #[trigger] s[i].timestamp <= f.timestamp,
    ensures
        newest(with_frame(s, f), max_frames).len() >= 1,
        newest(with_frame(s, f), max_frames).last() == f,
{
    let p = count_before(s, f.timestamp) as int;
    lemma_count_before_split(s, f.timestamp);
    let m = with_frame(s, f);
    if p < s.len() {
        assert(s[p].timestamp >= f.timestamp);
        if p + 1 < s.len() {
            assert(s[p].timestamp < s[s.len() - 1].timestamp);
            assert(s[s.len() - 1].timestamp <= f.timestamp);
            assert(false);
        }
        assert(s[p].timestamp == f.timestamp);
    }
    assert(m.last() == f);
}

/// A second frame with the same timestamp replaces the first one.
pub proof fn lemma_same_timestamp_replaces(s: Seq<ActualsFrame>, f1: ActualsFrame, f2: ActualsFrame)
    requires
        strictly_ascending(s),
        f1.timestamp == f2.timestamp,
    ensures
        with_frame(with_frame(s, f1), f2) == with_frame(s, f2),
{
    let t = f1.timestamp;
    let p = count_before(s, t) as int;
    lemma_count_before_split(s, t);
    let m = with_frame(s, f1);
    lemma_with_frame_ascending(s, f1);
    lemma_count_before_split(m, t);
    let q = count_before(m, t) as int;
    assert(m[p] == f1);
    if q < p {
        assert(m[q] == s[q]);
        assert(false);
    }
    if q > p {
        assert(false);
    }
    assert(with_frame(m, f2) =~= with_frame(s, f2));
}

/// The history after inserting the frames `fs` one after the other (see
/// [`ActualsData::insert_or_update`]).
pub open spec fn insert_all(s: Seq<ActualsFrame>, fs: Seq<ActualsFrame>, max_frames: nat) -> Seq<ActualsFrame>
    decreases fs.len(),
{
    if fs.len() == 0 {
        s
    } else {
        newest(with_frame(insert_all(s, fs.drop_last(), max_frames), fs.last()), max_frames)
    }
}

/// `t` is held by `r`, or `r` is full and every frame of it is newer than `t`.
pub open spec fn kept_or_older(r: Seq<ActualsFrame>, max_frames: nat, t: i64) -> bool {
    has_timestamp(r, t) || (r.len() == max_frames && forall|i: int| 0 <= i < r.len() ==> t < #[trigger] r[i].timestamp)
}

/// `r` holds the latest timestamps of the frames `c`: each timestamp of `c`
/// that `r` lacks is older than every frame of `r`, and then `r` is full.
pub open spec fn keeps_latest(r: Seq<ActualsFrame>, c: Seq<ActualsFrame>, max_frames: nat) -> bool {
    forall|k: int| 0 <= k < c.len() ==> kept_or_older(r, max_frames, #[trigger] c[k].timestamp)
}

/// Keeping the newest frames of an ascending sequence drops only frames
/// older than every frame kept.
proof fn lemma_newest_drops_oldest(m: Seq<ActualsFrame>, max_frames: nat, t: i64)
    requires
        strictly_ascending(m),
        has_timestamp(m, t),
    ensures
        kept_or_older(newest(m, max_frames), max_frames, t),
{
    let r = newest(m, max_frames);
    let j = choose|j: int| 0 <= j < m.len() && #[trigger] m[j].timestamp == t;
    if m.len() > max_frames {
        let d = m.len() - max_frames;
        if j >= d {
            assert(r[j - d] == m[j]);
        } else {
            assert forall|i: int| 0 <= i < r.len() implies t < #[trigger] r[i].timestamp by {
                assert(r[i] == m[i + d]);
            }
        }
    } else {
        assert(r[j] == m[j]);
    }
}

/// One insert keeps what [`kept_or_older`] says of a timestamp that the
/// history held, or was older than all of it, or is that of the new frame.
proof fn lemma_insert_keeps_latest(s: Seq<ActualsFrame>, f: ActualsFrame, max_frames: nat, t: i64)
    requires
        strictly_ascending(s),
        s.len() <= max_frames,
        kept_or_older(s, max_frames, t) || t == f.timestamp,
    ensures
        kept_or_older(newest(with_frame(s, f), max_frames), max_frames, t),
{
    let m = with_frame(s, f);
    let p = count_before(s, f.timestamp) as int;
    lemma_count_before_split(s, f.timestamp);
    lemma_with_frame_ascending(s, f);
    let replaced = p < s.len() && s[p].timestamp == f.timestamp;
    assert(m[p] == f);
    if t == f.timestamp {
        lemma_newest_drops_oldest(m, max_frames, t);
    } else if has_timestamp(s, t) {
        let i = choose|i: int| 0 <= i < s.len() && #[trigger] s[i].timestamp == t;
        if replaced {
            assert(m[i] == s[i]);
        } else if i < p {
            assert(m[i] == s[i]);
        } else {
            assert(m[i + 1] == s[i]);
        }
        lemma_newest_drops_oldest(m, max_frames, t);
    } else {
        let r = newest(m, max_frames);
        if replaced {
            assert forall|i: int| 0 <= i < r.len() implies t < #[trigger] r[i].timestamp by {
                assert(s[i].timestamp < t ==> false);
            }
        } else {
            assert forall|i: int| 0 <= i < r.len() implies t < #[trigger] r[i].timestamp by {
                assert(r[i] == m[i + 1]);
                if i + 1 < p {
                    assert(m[i + 1] == s[i + 1]);
                } else if i + 1 == p {
                    assert(s[p - 1].timestamp < f.timestamp);
                } else {
                    assert(m[i + 1] == s[i]);
                }
            }
        }
    }
}

/// Inserting a batch of frames, as a backfill does, keeps the history in
/// timestamp order and at most `max_frames` long; every frame it holds was
/// there before or is one of the batch; and it holds the latest timestamps
/// among the old frames and the batch: one that it lacks is older than every
/// frame it holds, and it then holds `max_frames` frames.
pub proof fn lemma_insert_all(s: Seq<ActualsFrame>, fs: Seq<ActualsFrame>, max_frames: nat)
    requires
        strictly_ascending(s),
        s.len() <= max_frames,
    ensures
        strictly_ascending(insert_all(s, fs, max_frames)),
        insert_all(s, fs, max_frames).len() <= max_frames,
        forall|i: int|
            0 <= i < insert_all(s, fs, max_frames).len() ==> {
                let g = #[trigger] insert_all(s, fs, max_frames)[i];
                s.contains(g) || fs.contains(g)
            },
        keeps_latest(insert_all(s, fs, max_frames), s + fs, max_frames),
    decreases fs.len(),
{
    if fs.len() == 0 {
        assert(s + fs =~= s);
        assert forall|k: int| 0 <= k < s.len() implies kept_or_older(s, max_frames, #[trigger] s[k].timestamp) by {
            assert(has_timestamp(s, s[k].timestamp));
        }
    } else {
        let prev = insert_all(s, fs.drop_last(), max_frames);
        lemma_insert_all(s, fs.drop_last(), max_frames);
        lemma_insert_keeps_known_frames(prev, fs.last(), max_frames);
        let cur = insert_all(s, fs, max_frames);
        assert forall|i: int| 0 <= i < cur.len() implies {
            let g = #[trigger] cur[i];
            s.contains(g) || fs.contains(g)
        } by {
            let g = cur[i];
            if g == fs.last() {
                assert(fs[fs.len() - 1] == g);
            } else {
                assert(prev.contains(g));
                let j = choose|j: int| 0 <= j < prev.len() && prev[j] == g;
                if !s.contains(g) {
                    assert(fs.drop_last().contains(g));
                    let m = choose|m: int| 0 <= m < fs.drop_last().len() && fs.drop_last()[m] == g;
                    assert(fs[m] == g);
                }
            }
        }
        let c = s + fs;
        let c0 = s + fs.drop_last();
        assert forall|k: int| 0 <= k < c.len() implies kept_or_older(cur, max_frames, #[trigger] c[k].timestamp) by {
            if k < c0.len() {
                assert(c[k] == c0[k]);
                lemma_insert_keeps_latest(prev, fs.last(), max_frames, c0[k].timestamp);
            } else {
                assert(c[k] == fs.last());
                lemma_insert_keeps_latest(prev, fs.last(), max_frames, c[k].timestamp);
            }
        }
    }
}

} // verus!
