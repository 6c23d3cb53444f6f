//! IoU-based frame-to-frame object tracking with persistent track ids.
//!
//! Times are nanoseconds on the caller's monotonic clock. The overlap of two
//! boxes is compared exactly, as a ratio of integers.

use vstd::prelude::*;
use crate::webhook::Detection;

verus! {

/// A detection must be at least this close (intersection over union, 1/4)
/// to a track to continue it.
pub open spec fn iou_threshold_num() -> int { 1 }
pub open spec fn iou_threshold_den() -> int { 4 }

/// Tracks not seen for this long (2 s) are dropped.
pub const MAX_STALE_AGE_NS: u64 = 2_000_000_000;

#[derive(Debug, Clone, Copy, PartialEq, Eq, Structural)]
pub struct BBox {
    pub left: u32,
    pub top: u32,
    pub right: u32,
    pub bottom: u32,
}

pub open spec fn span(lo: u32, hi: u32) -> nat {
    if hi >= lo { (hi - lo) as nat } else { 0 }
}

pub open spec fn max_u32(a: u32, b: u32) -> u32 { if a >= b { a } else { b } }
pub open spec fn min_u32(a: u32, b: u32) -> u32 { if a <= b { a } else { b } }

impl BBox {
    pub open spec fn width(self) -> nat { span(self.left, self.right) }

    pub open spec fn height(self) -> nat { span(self.top, self.bottom) }

    pub open spec fn area(self) -> nat { self.width() * self.height() }

    /// The sums behind the box's centre stay in `u32`.
    pub open spec fn fits(self) -> bool {
        &&& self.left + self.right <= u32::MAX
        &&& self.top + self.bottom <= u32::MAX
    }

    /// Twice the centre, so that it stays an integer.
    pub open spec fn center2(self) -> (int, int) {
        (self.left + self.right, self.top + self.bottom)
    }
}

/// The area shared by two boxes.
pub open spec fn intersection(a: BBox, b: BBox) -> nat {
    span(max_u32(a.left, b.left), min_u32(a.right, b.right)) * span(
        max_u32(a.top, b.top),
        min_u32(a.bottom, b.bottom),
    )
}

/// The area covered by either box.
pub open spec fn union_area(a: BBox, b: BBox) -> int {
    a.area() + b.area() - intersection(a, b)
}

/// IoU as a fraction `iou_num / iou_den`; zero where the union is empty.
pub open spec fn iou_num(a: BBox, b: BBox) -> int {
    if union_area(a, b) > 0 { intersection(a, b) as int } else { 0 }
}

pub open spec fn iou_den(a: BBox, b: BBox) -> int {
    if union_area(a, b) > 0 { union_area(a, b) } else { 1 }
}

/// IoU(a, b) reaches the matching threshold.
pub open spec fn iou_qualifies(a: BBox, b: BBox) -> bool {
    iou_threshold_den() * iou_num(a, b) >= iou_threshold_num() * iou_den(a, b)
}

/// IoU(a, b) > IoU(c, d).
pub open spec fn iou_exceeds(a: BBox, b: BBox, c: BBox, d: BBox) -> bool {
    iou_num(a, b) * iou_den(c, d) > iou_num(c, d) * iou_den(a, b)
}

proof fn lemma_mul_le(a: nat, b: nat, c: nat, d: nat)
    requires
        a <= c,
        b <= d,
    ensures
        a * b <= c * d,
{
    assert(a * b <= c * d) by (nonlinear_arith)
        requires
            a <= c,
            b <= d,
    ;
}

/// The shared area is no larger than either box.
pub proof fn lemma_intersection_bounded(a: BBox, b: BBox)
    ensures
        intersection(a, b) <= a.area(),
        intersection(a, b) <= b.area(),
        union_area(a, b) >= 0,
{
    let w = span(max_u32(a.left, b.left), min_u32(a.right, b.right));
    let h = span(max_u32(a.top, b.top), min_u32(a.bottom, b.bottom));
    assert(w <= a.width() && w <= b.width());
    assert(h <= a.height() && h <= b.height());
    lemma_mul_le(w, h, a.width(), a.height());
    lemma_mul_le(w, h, b.width(), b.height());
}

/// 2^64, the base of the two-word products below.
pub open spec fn word() -> int { 0x1_0000_0000_0000_0000 }

/// A product `a * b` as two words: `hi * 2^64 + lo`.
fn wide_mul(a: u128, b: u128) -> (r: (u128, u128))
    requires
        a < word(),
        b < 4 * word(),
    ensures
        r.0 * word() + r.1 == a * b,
        r.1 < word(),
{
    let m: u128 = 0x1_0000_0000_0000_0000;
    let bh = b / m;
    let bl = b % m;
    assert(b == bh * word() + bl && bl < word() && bh < 4) by (nonlinear_arith)
        requires
            m == word(),
            bh == b / m,
            bl == b % m,
            b < 4 * word(),
    ;
    assert(a * bl < word() * word()) by (nonlinear_arith)
        requires
            a < word(),
            bl < word(),
    ;
    let p = a * bl;
    assert(a * bh < 4 * word()) by (nonlinear_arith)
        requires
            a < word(),
            bh < 4,
    ;
    let ph = a * bh;
    let q = p / m;
    let lo = p % m;
    assert(p == q * word() + lo && lo < word() && q < word()) by (nonlinear_arith)
        requires
            m == word(),
            q == p / m,
            lo == p % m,
            p < word() * word(),
    ;
    let hi = ph + q;
    assert(hi * word() + lo == a * b) by (nonlinear_arith)
        requires
            b == bh * word() + bl,
            p == a * bl,
            ph == a * bh,
            p == q * word() + lo,
            hi == ph + q,
    ;
    (hi, lo)
}

proof fn lemma_two_word_order(h1: int, l1: int, h2: int, l2: int)
    requires
        0 <= l1 < word(),
        0 <= l2 < word(),
    ensures
        h1 * word() + l1 > h2 * word() + l2 <==> (h1 > h2 || (h1 == h2 && l1 > l2)),
{
    assert(h1 * word() + l1 > h2 * word() + l2 <==> (h1 > h2 || (h1 == h2 && l1 > l2))) by (nonlinear_arith)
        requires
            0 <= l1 < word(),
            0 <= l2 < word(),
            word() > 0,
    ;
}

/// Whether `a * b > c * d`, for factors whose products may pass 128 bits.
fn product_exceeds(a: u128, b: u128, c: u128, d: u128) -> (r: bool)
    requires
        a < word(),
        c < word(),
        b < 4 * word(),
        d < 4 * word(),
    ensures
        r == (a * b > c * d),
{
    let (h1, l1) = wide_mul(a, b);
    let (h2, l2) = wide_mul(c, d);
    proof {
        lemma_two_word_order(h1 as int, l1 as int, h2 as int, l2 as int);
    }
    h1 > h2 || (h1 == h2 && l1 > l2)
}

impl BBox {
    pub fn area_exec(&self) -> (r: u64)
        ensures
            r == self.area(),
    {
        let w: u64 = if self.right >= self.left { (self.right - self.left) as u64 } else { 0 };
        let h: u64 = if self.bottom >= self.top { (self.bottom - self.top) as u64 } else { 0 };
        proof {
            assert(w == self.width() && h == self.height());
            assert(w * h <= u64::MAX) by (nonlinear_arith)
                requires
                    w <= u32::MAX,
                    h <= u32::MAX,
            ;
        }
        w * h
    }

    /// IoU with `other` as the fraction `(numerator, denominator)`.
    pub fn iou(&self, other: &BBox) -> (r: (u128, u128))
        ensures
            r.0 == iou_num(*self, *other),
            r.1 == iou_den(*self, *other),
            r.0 < word(),
            1 <= r.1 < 4 * word(),
    {
        let x1 = if self.left >= other.left { self.left } else { other.left };
        let y1 = if self.top >= other.top { self.top } else { other.top };
        let x2 = if self.right <= other.right { self.right } else { other.right };
        let y2 = if self.bottom <= other.bottom { self.bottom } else { other.bottom };
        let iw: u64 = if x2 >= x1 { (x2 - x1) as u64 } else { 0 };
        let ih: u64 = if y2 >= y1 { (y2 - y1) as u64 } else { 0 };
        proof {
            lemma_intersection_bounded(*self, *other);
            assert(iw * ih <= u64::MAX) by (nonlinear_arith)
                requires
                    iw <= u32::MAX,
                    ih <= u32::MAX,
            ;
            assert(iw * ih == intersection(*self, *other));
        }
        let inter = iw * ih;
        let a = self.area_exec();
        let b = other.area_exec();
        let union = (a as u128) + (b as u128) - (inter as u128);
        if union == 0 {
            (0, 1)
        } else {
            (inter as u128, union)
        }
    }
}


/// The box of a detection.
pub open spec fn det_box(d: Detection) -> BBox {
    BBox { left: d.left, top: d.top, right: d.right, bottom: d.bottom }
}

pub fn det_box_exec(d: &Detection) -> (b: BBox)
    ensures
        b == det_box(*d),
{
    BBox { left: d.left, top: d.top, right: d.right, bottom: d.bottom }
}

/// A tracked object. Times are nanoseconds on the caller's clock; the
/// confidence is the bit pattern of the last matched detection's score.
#[derive(Debug)]
pub struct TrackedObject {
    pub track_id: u64,
    pub class: String,
    pub class_id: u32,
    pub bbox: BBox,
    pub score_bits: u32,
    pub first_seen: u64,
    pub last_seen: u64,
    pub frames_seen: u32,
}

/// A tracked object as plain values.
pub struct TrackView {
    pub track_id: u64,
    pub class: Seq<char>,
    pub class_id: u32,
    pub bbox: BBox,
    pub score_bits: u32,
    pub first_seen: u64,
    pub last_seen: u64,
    pub frames_seen: u32,
}

impl View for TrackedObject {
    type V = TrackView;

    open spec fn view(&self) -> TrackView {
        TrackView {
            track_id: self.track_id,
            class: self.class@,
            class_id: self.class_id,
            bbox: self.bbox,
            score_bits: self.score_bits,
            first_seen: self.first_seen,
            last_seen: self.last_seen,
            frames_seen: self.frames_seen,
        }
    }
}

impl Clone for TrackedObject {
    fn clone(&self) -> (r: Self)
        ensures
            r == *self,
    {
        TrackedObject {
            track_id: self.track_id,
            class: self.class.clone(),
            class_id: self.class_id,
            bbox: self.bbox,
            score_bits: self.score_bits,
            first_seen: self.first_seen,
            last_seen: self.last_seen,
            frames_seen: self.frames_seen,
        }
    }
}

pub open spec fn views(v: Seq<TrackedObject>) -> Seq<TrackView> {
    v.map_values(|t: TrackedObject| t@)
}

proof fn lemma_views_push(v: Seq<TrackedObject>, x: TrackedObject)
    ensures
        views(v.push(x)) == views(v).push(x@),
{
    assert(views(v.push(x)) =~= views(v).push(x@));
}

/// Copies of the given tracks, in order.
pub fn copy_tracks(tracks: &[TrackedObject]) -> (r: Vec<TrackedObject>)
    ensures
        r@ == tracks@,
{
    let mut r: Vec<TrackedObject> = Vec::new();
    let mut i: usize = 0;
    while i < tracks.len()
        invariant
            i <= tracks@.len(),
            r@ == tracks@.subrange(0, i as int),
        decreases tracks@.len() - i,
    {
        r.push(tracks[i].clone());
        i = i + 1;
    }
    assert(tracks@.subrange(0, tracks@.len() as int) =~= tracks@);
    r
}

impl TrackedObject {
    /// How long the object has been tracked: from first to last sighting.
    pub fn duration(&self) -> (d: u64)
        ensures
            d == crate::debounce::since(self.last_seen, self.first_seen),
    {
        if self.last_seen >= self.first_seen { self.last_seen - self.first_seen } else { 0 }
    }
}

/// The best detection for a track among the first `j`: of those not yet
/// taken and of the track's class, one whose IoU with the track reaches the
/// threshold and exceeds every earlier candidate's (the first of equals wins).
pub open spec fn best_upto(b: BBox, class_id: u32, dets: Seq<Detection>, used: Seq<bool>, j: int) -> Option<int>
    decreases j,
{
    if j <= 0 {
        None
    } else {
        let prev = best_upto(b, class_id, dets, used, j - 1);
        let i = j - 1;
        let c = det_box(dets[i]);
        if !used[i] && dets[i].class_id == class_id && iou_qualifies(b, c) && (prev is None || iou_exceeds(
            b,
            c,
            b,
            det_box(dets[prev->0]),
        )) {
            Some(i)
        } else {
            prev
        }
    }
}

/// The detection that the track continues, if any.
pub open spec fn best_match(t: TrackView, dets: Seq<Detection>, used: Seq<bool>) -> Option<int> {
    best_upto(t.bbox, t.class_id, dets, used, dets.len() as int)
}

/// Greedy matching of the first `k` tracks, in order: which detections are
/// taken, and each track's choice.
pub open spec fn matching(tracks: Seq<TrackView>, dets: Seq<Detection>, k: int) -> (Seq<bool>, Seq<Option<int>>)
    decreases k,
{
    if k <= 0 {
        (Seq::new(dets.len(), |i: int| false), Seq::empty())
    } else {
        let (used, choices) = matching(tracks, dets, k - 1);
        let c = best_match(tracks[k - 1], dets, used);
        (
            match c {
                Some(i) => used.update(i, true),
                None => used,
            },
            choices.push(c),
        )
    }
}

pub open spec fn taken(tracks: Seq<TrackView>, dets: Seq<Detection>) -> Seq<bool> {
    matching(tracks, dets, tracks.len() as int).0
}

pub open spec fn choices(tracks: Seq<TrackView>, dets: Seq<Detection>) -> Seq<Option<int>> {
    matching(tracks, dets, tracks.len() as int).1
}

/// A track continued by detection `d` at `now`.
pub open spec fn refreshed(t: TrackView, d: Detection, now: u64) -> TrackView {
    TrackView {
        bbox: det_box(d),
        score_bits: d.score_bits,
        last_seen: now,
        frames_seen: (t.frames_seen + 1) as u32,
        ..t
    }
}

/// A new track for detection `d` at `now`.
pub open spec fn spawned(d: Detection, id: int, now: u64) -> TrackView {
    TrackView {
        track_id: id as u64,
        class: d.class@,
        class_id: d.class_id,
        bbox: det_box(d),
        score_bits: d.score_bits,
        first_seen: now,
        last_seen: now,
        frames_seen: 1,
    }
}

/// The existing tracks after matching.
pub open spec fn continued(tracks: Seq<TrackView>, dets: Seq<Detection>, now: u64) -> Seq<TrackView> {
    Seq::new(
        tracks.len(),
        |k: int|
            match choices(tracks, dets)[k] {
                Some(i) => refreshed(tracks[k], dets[i], now),
                None => tracks[k],
            },
    )
}

/// New tracks for the untaken detections among the first `j`, in order, with
/// consecutive ids from `next_id`.
pub open spec fn fresh_tracks(dets: Seq<Detection>, used: Seq<bool>, next_id: int, now: u64, j: int) -> Seq<TrackView>
    decreases j,
{
    if j <= 0 {
        Seq::empty()
    } else {
        let prev = fresh_tracks(dets, used, next_id, now, j - 1);
        if used[j - 1] {
            prev
        } else {
            prev.push(spawned(dets[j - 1], next_id + prev.len(), now))
        }
    }
}

/// The tracks in `s` seen less than the stale age before `now`, in order.
pub open spec fn prune(s: Seq<TrackView>, now: u64) -> Seq<TrackView>
    decreases s.len(),
{
    if s.len() == 0 {
        s
    } else {
        let rest = prune(s.drop_last(), now);
        if crate::debounce::since(now, s.last().last_seen) < MAX_STALE_AGE_NS {
            rest.push(s.last())
        } else {
            rest
        }
    }
}

/// What a tracker is: its tracks in order, and the next id it hands out.
pub struct TrackerState {
    pub tracks: Seq<TrackView>,
    pub next_id: u64,
}

impl TrackerState {
    /// Ids increase along the tracks and stay below `next_id`; the sums
    /// behind every box's centre fit in `u32`.
    pub open spec fn wf(self) -> bool {
        &&& forall|i: int, j: int| 0 <= i < j < self.tracks.len() ==> self.tracks[i].track_id < self.tracks[j].track_id
        &&& forall|i: int| 0 <= i < self.tracks.len() ==> #[trigger] self.tracks[i].track_id < self.next_id
        &&& forall|i: int| 0 <= i < self.tracks.len() ==> (#[trigger] self.tracks[i]).bbox.fits()
        &&& self.next_id >= 1
    }

    pub open spec fn fresh(self, dets: Seq<Detection>, now: u64) -> Seq<TrackView> {
        fresh_tracks(dets, taken(self.tracks, dets), self.next_id as int, now, dets.len() as int)
    }

    /// Whether an update with `dets` stays within the counters' ranges: every
    /// continued track's frame count, and the ids of the new tracks.
    pub open spec fn can_update(self, dets: Seq<Detection>, now: u64) -> bool {
        &&& forall|k: int| 0 <= k < self.tracks.len() && (#[trigger] choices(self.tracks, dets)[k]) is Some
            ==> self.tracks[k].frames_seen < u32::MAX
        &&& self.next_id + self.fresh(dets, now).len() <= u64::MAX
    }

    /// The tracker after an update with `dets` at `now`.
    pub open spec fn updated(self, dets: Seq<Detection>, now: u64) -> TrackerState {
        TrackerState {
            tracks: prune(continued(self.tracks, dets, now) + self.fresh(dets, now), now),
            next_id: (self.next_id + self.fresh(dets, now).len()) as u64,
        }
    }
}

/// The sums behind every detection's centre fit in `u32`.
pub open spec fn all_fit(dets: Seq<Detection>) -> bool {
    forall|i: int| 0 <= i < dets.len() ==> (#[trigger] det_box(dets[i])).fits()
}

pub struct ObjectTracker {
    tracks: Vec<TrackedObject>,
    next_id: u64,
}

impl ObjectTracker {
    /// A tracker is always well formed.
    #[verifier::type_invariant]
    spec fn well_formed(self) -> bool {
        (TrackerState { tracks: views(self.tracks@), next_id: self.next_id }).wf()
    }
}

impl View for ObjectTracker {
    type V = TrackerState;

    closed spec fn view(&self) -> TrackerState {
        TrackerState { tracks: views(self.tracks@), next_id: self.next_id }
    }
}


pub open spec fn opt_index(o: Option<usize>) -> Option<int> {
    match o {
        Some(i) => Some(i as int),
        None => None,
    }
}

proof fn lemma_best_upto_in_range(b: BBox, class_id: u32, dets: Seq<Detection>, used: Seq<bool>, j: int)
    ensures
        best_upto(b, class_id, dets, used, j) matches Some(i) ==> 0 <= i < j && !used[i] && dets[i].class_id
            == class_id,
    decreases j,
{
    if j > 0 {
        lemma_best_upto_in_range(b, class_id, dets, used, j - 1);
    }
}

/// The greedy matching grows by one choice per track, never revisits an
/// earlier choice, and keeps one flag per detection.
proof fn lemma_matching_prefix(tracks: Seq<TrackView>, dets: Seq<Detection>, m: int)
    requires
        0 <= m,
    ensures
        matching(tracks, dets, m).0.len() == dets.len(),
        matching(tracks, dets, m).1.len() == m,
        forall|k: int| 0 <= k < m ==> #[trigger] matching(tracks, dets, m).1[k] == matching(tracks, dets, k + 1).1[k],
        forall|k: int| 0 <= k < m ==> (#[trigger] matching(tracks, dets, m).1[k] matches Some(i) ==> 0 <= i < dets.len()),
    decreases m,
{
    if m > 0 {
        lemma_matching_prefix(tracks, dets, m - 1);
        let (used, ch) = matching(tracks, dets, m - 1);
        lemma_best_upto_in_range(tracks[m - 1].bbox, tracks[m - 1].class_id, dets, used, dets.len() as int);
    }
}

proof fn lemma_fresh_len_monotone(dets: Seq<Detection>, used: Seq<bool>, next_id: int, now: u64, j: int, n: int)
    requires
        0 <= j <= n,
    ensures
        fresh_tracks(dets, used, next_id, now, j).len() <= fresh_tracks(dets, used, next_id, now, n).len(),
        fresh_tracks(dets, used, next_id, now, j).len() <= j,
    decreases n,
{
    if n > j {
        lemma_fresh_len_monotone(dets, used, next_id, now, j, n - 1);
    } else if j > 0 {
        lemma_fresh_len_monotone(dets, used, next_id, now, j - 1, j - 1);
    }
}

/// The new tracks have consecutive ids from `next_id`, and the boxes of their
/// detections.
proof fn lemma_fresh_shape(dets: Seq<Detection>, used: Seq<bool>, next_id: int, now: u64, j: int)
    requires
        0 <= j <= dets.len(),
        all_fit(dets),
        next_id + fresh_tracks(dets, used, next_id, now, j).len() <= u64::MAX,
        next_id >= 0,
    ensures
        forall|i: int| 0 <= i < fresh_tracks(dets, used, next_id, now, j).len() ==>
            (#[trigger] fresh_tracks(dets, used, next_id, now, j)[i]).track_id == next_id + i
            && fresh_tracks(dets, used, next_id, now, j)[i].bbox.fits(),
    decreases j,
{
    if j > 0 {
        lemma_fresh_shape(dets, used, next_id, now, j - 1);
        lemma_fresh_len_monotone(dets, used, next_id, now, j - 1, j - 1);
        assert(det_box(dets[j - 1]).fits());
    }
}

/// Pruning keeps a subsequence: every kept track comes from `s`, and
/// increasing ids stay increasing.
proof fn lemma_prune_subseq(s: Seq<TrackView>, now: u64)
    ensures
        forall|x: TrackView| prune(s, now).contains(x) ==> s.contains(x),
        (forall|i: int, j: int| 0 <= i < j < s.len() ==> s[i].track_id < s[j].track_id) ==> (forall|i: int, j: int|
            0 <= i < j < prune(s, now).len() ==> prune(s, now)[i].track_id < prune(s, now)[j].track_id),
    decreases s.len(),
{
    if s.len() > 0 {
        let d = s.drop_last();
        lemma_prune_subseq(d, now);
        assert forall|x: TrackView| prune(s, now).contains(x) implies s.contains(x) by {
            if prune(d, now).contains(x) {
                assert(d.contains(x));
                let k = choose|k: int| 0 <= k < d.len() && d[k] == x;
                assert(s[k] == x);
            } else {
                assert(s[s.len() - 1] == x);
            }
        }
        if forall|i: int, j: int| 0 <= i < j < s.len() ==> s[i].track_id < s[j].track_id {
            assert(forall|i: int, j: int| 0 <= i < j < d.len() ==> d[i].track_id < d[j].track_id) by {
                assert forall|i: int, j: int| 0 <= i < j < d.len() implies d[i].track_id < d[j].track_id by {
                    assert(d[i] == s[i] && d[j] == s[j]);
                }
            }
            let p = prune(d, now);
            assert forall|i: int| 0 <= i < p.len() implies p[i].track_id < s.last().track_id by {
                assert(p.contains(p[i]));
                assert(d.contains(p[i]));
                let k = choose|k: int| 0 <= k < d.len() && d[k] == p[i];
                assert(s[k] == p[i]);
            }
        }
    }
}

/// Continued tracks keep their ids; their boxes come from detections.
proof fn lemma_continued_shape(st: TrackerState, dets: Seq<Detection>, now: u64)
    requires
        st.wf(),
        all_fit(dets),
    ensures
        continued(st.tracks, dets, now).len() == st.tracks.len(),
        forall|i: int| 0 <= i < st.tracks.len() ==> (#[trigger] continued(st.tracks, dets, now)[i]).track_id
            == st.tracks[i].track_id && continued(st.tracks, dets, now)[i].bbox.fits(),
{
    let tv = st.tracks;
    let c = continued(tv, dets, now);
    lemma_matching_prefix(tv, dets, tv.len() as int);
    assert forall|i: int| 0 <= i < tv.len() implies (#[trigger] c[i]).track_id == tv[i].track_id && c[i].bbox.fits() by {
        if let Some(m) = choices(tv, dets)[i] {
            assert(det_box(dets[m]).fits());
        }
        if choices(tv, dets)[i] is None {
            assert(tv[i].bbox.fits());
        }
    }
}

/// Before pruning: ids increase, stay below the new `next_id`, and boxes fit.
proof fn lemma_combined_shape(st: TrackerState, dets: Seq<Detection>, now: u64)
    requires
        st.wf(),
        all_fit(dets),
        st.can_update(dets, now),
    ensures
        ({
            let all = continued(st.tracks, dets, now) + st.fresh(dets, now);
            &&& forall|i: int, j: int| 0 <= i < j < all.len() ==> all[i].track_id < all[j].track_id
            &&& forall|x: TrackView| all.contains(x) ==> x.track_id < st.next_id + st.fresh(dets, now).len()
                && x.bbox.fits()
        }),
{
    let tv = st.tracks;
    let c = continued(tv, dets, now);
    let used = taken(tv, dets);
    let f = st.fresh(dets, now);
    lemma_continued_shape(st, dets, now);
    lemma_fresh_shape(dets, used, st.next_id as int, now, dets.len() as int);
    let all = c + f;
    assert forall|i: int, j: int| 0 <= i < j < all.len() implies all[i].track_id < all[j].track_id by {
        if j < c.len() {
            assert(c[i].track_id == tv[i].track_id);
            assert(c[j].track_id == tv[j].track_id);
        } else if i < c.len() {
            assert(c[i].track_id == tv[i].track_id);
            assert(tv[i].track_id < st.next_id);
            assert(f[j - c.len()].track_id == st.next_id + (j - c.len()));
        } else {
            assert(f[i - c.len()].track_id == st.next_id + (i - c.len()));
            assert(f[j - c.len()].track_id == st.next_id + (j - c.len()));
        }
    }
    assert forall|x: TrackView| all.contains(x) implies x.track_id < st.next_id + f.len() && x.bbox.fits() by {
        let k = choose|k: int| 0 <= k < all.len() && all[k] == x;
        if k < c.len() {
            assert(c[k].track_id == tv[k].track_id);
            assert(tv[k].track_id < st.next_id);
        } else {
            assert(f[k - c.len()].track_id == st.next_id + (k - c.len()));
        }
    }
}

/// An update keeps the tracker well formed.
pub proof fn lemma_update_wf(st: TrackerState, dets: Seq<Detection>, now: u64)
    requires
        st.wf(),
        all_fit(dets),
        st.can_update(dets, now),
    ensures
        st.updated(dets, now).wf(),
{
    let all = continued(st.tracks, dets, now) + st.fresh(dets, now);
    let new_next = st.next_id + st.fresh(dets, now).len();
    lemma_combined_shape(st, dets, now);
    lemma_prune_subseq(all, now);
    let p = prune(all, now);
    assert forall|i: int| 0 <= i < p.len() implies #[trigger] p[i].track_id < new_next && p[i].bbox.fits() by {
        assert(p.contains(p[i]));
        assert(all.contains(p[i]));
    }
    assert(forall|i: int, j: int| 0 <= i < j < p.len() ==> p[i].track_id < p[j].track_id);
    assert(st.updated(dets, now).tracks == p);
    assert(st.updated(dets, now).next_id == new_next);
}

/// The detection that a track with box `b` and class `class_id` continues.
fn best_match_exec(b: BBox, class_id: u32, dets: &[Detection], used: &Vec<bool>) -> (r: Option<usize>)
    requires
        used@.len() == dets@.len(),
    ensures
        opt_index(r) == best_upto(b, class_id, dets@, used@, dets@.len() as int),
{
    let n = dets.len();
    let mut best: Option<usize> = None;
    let mut best_num: u128 = 0;
    let mut best_den: u128 = 1;
    let mut j: usize = 0;
    while j < n
        invariant
            n == dets@.len(),
            used@.len() == n,
            j <= n,
            opt_index(best) == best_upto(b, class_id, dets@, used@, j as int),
            best matches Some(i) ==> i < n && best_num == iou_num(b, det_box(dets@[i as int])) && best_den == iou_den(
                b,
                det_box(dets@[i as int]),
            ),
            best is None ==> best_num == 0 && best_den == 1,
            best_num < word(),
            1 <= best_den < 4 * word(),
        decreases n - j,
    {
        proof {
            lemma_best_upto_in_range(b, class_id, dets@, used@, j as int);
        }
        if !used[j] && dets[j].class_id == class_id {
            let c = det_box_exec(&dets[j]);
            let (num, den) = b.iou(&c);
            let qualifies = 4 * num >= den;
            let better = product_exceeds(num, best_den, best_num, den);
            proof {
                assert(qualifies == iou_qualifies(b, c));
                if best is None {
                    assert(qualifies ==> num > 0);
                }
            }
            if qualifies && better {
                best = Some(j);
                best_num = num;
                best_den = den;
            }
        }
        j = j + 1;
    }
    best
}

impl ObjectTracker {
    pub fn new() -> (t: ObjectTracker)
        ensures
            t@.tracks == Seq::<TrackView>::empty(),
            t@.next_id == 1,
            t@.wf(),
    {
        let t = ObjectTracker { tracks: Vec::new(), next_id: 1 };
        assert(views(t.tracks@) =~= Seq::<TrackView>::empty());
        t
    }

    /// Update the tracker with the detections of a frame seen at `now`
    /// (nanoseconds). Each existing track, in order, continues the untaken
    /// detection of its class whose IoU with it reaches 1/4 and is highest
    /// (the first of equals); every detection left over starts a new track
    /// with the next id; tracks not seen for 2 s are dropped. Returns the
    /// current tracks.
    pub fn update(&mut self, detections: &[Detection], now: u64) -> (r: Vec<TrackedObject>)
        requires
            all_fit(detections@),
            old(self)@.can_update(detections@, now),
        ensures
            final(self)@ == old(self)@.updated(detections@, now),
            final(self)@.wf(),
            views(r@) == final(self)@.tracks,
    {
        proof {
            use_type_invariant(&*self);
        }
        let ghost st = self@;
        let ghost tv = self@.tracks;
        let ghost dv = detections@;
        proof {
            lemma_update_wf(st, dv, now);
            lemma_matching_prefix(tv, dv, tv.len() as int);
        }
        let n = detections.len();
        let mut used: Vec<bool> = Vec::new();
        let mut z: usize = 0;
        while z < n
            invariant
                z <= n,
                used@ == Seq::new(z as nat, |i: int| false),
            decreases n - z,
        {
            used.push(false);
            z = z + 1;
            assert(used@ =~= Seq::new(z as nat, |i: int| false));
        }
        assert(used@ =~= matching(tv, dv, 0).0);
        let ghost cont = continued(tv, dv, now);
        let mut combined: Vec<TrackedObject> = Vec::new();
        let nt = self.tracks.len();
        let mut k: usize = 0;
        while k < nt
            invariant
                nt == self.tracks@.len(),
                tv == views(self.tracks@),
                st == self@,
                st.wf(),
                st.can_update(dv, now),
                n == dv.len(),
                dv == detections@,
                all_fit(dv),
                cont == continued(tv, dv, now),
                k <= nt,
                used@ == matching(tv, dv, k as int).0,
                used@.len() == n,
                matching(tv, dv, nt as int).1.len() == nt,
                forall|m: int| 0 <= m < nt ==> #[trigger] matching(tv, dv, nt as int).1[m] == matching(tv, dv, m + 1).1[m],
                views(combined@) == cont.subrange(0, k as int),
            decreases nt - k,
        {
            proof {
                lemma_matching_prefix(tv, dv, k as int);
                lemma_matching_prefix(tv, dv, k + 1);
            }
            let t = &self.tracks[k];
            assert(tv[k as int] == t@);
            assert(t.bbox.fits());
            let m = best_match_exec(t.bbox, t.class_id, detections, &used);
            assert(choices(tv, dv)[k as int] == opt_index(m));
            match m {
                Some(i) => {
                    used.set(i, true);
                    assert(t.frames_seen < u32::MAX);
                    let d = &detections[i];
                    let nt_obj = TrackedObject {
                        track_id: t.track_id,
                        class: t.class.clone(),
                        class_id: t.class_id,
                        bbox: det_box_exec(d),
                        score_bits: d.score_bits,
                        first_seen: t.first_seen,
                        last_seen: now,
                        frames_seen: t.frames_seen + 1,
                    };
                    assert(nt_obj@ == cont[k as int]);
                    proof {
                        lemma_views_push(combined@, nt_obj);
                    }
                    combined.push(nt_obj);
                },
                None => {
                    let c = t.clone();
                    assert(c@ == cont[k as int]);
                    proof {
                        lemma_views_push(combined@, c);
                    }
                    combined.push(c);
                },
            }
            proof {
                assert(views(combined@) =~= cont.subrange(0, k + 1));
            }
            k = k + 1;
        }
        assert(cont.subrange(0, nt as int) =~= cont);
        let ghost used_final = used@;
        assert(used_final == taken(tv, dv));
        let ghost fr = st.fresh(dv, now);
        proof {
            lemma_fresh_len_monotone(dv, used_final, st.next_id as int, now, n as int, n as int);
        }
        let mut next = self.next_id;
        let mut j: usize = 0;
        while j < n
            invariant
                n == dv.len(),
                dv == detections@,
                used@ == used_final,
                used@.len() == n,
                fr == fresh_tracks(dv, used_final, st.next_id as int, now, n as int),
                st.next_id + fr.len() <= u64::MAX,
                j <= n,
                next == st.next_id + fresh_tracks(dv, used_final, st.next_id as int, now, j as int).len(),
                views(combined@) == cont + fresh_tracks(dv, used_final, st.next_id as int, now, j as int),
            decreases n - j,
        {
            proof {
                lemma_fresh_len_monotone(dv, used_final, st.next_id as int, now, j + 1, n as int);
            }
            if !used[j] {
                let d = &detections[j];
                let obj = TrackedObject {
                    track_id: next,
                    class: d.class.clone(),
                    class_id: d.class_id,
                    bbox: det_box_exec(d),
                    score_bits: d.score_bits,
                    first_seen: now,
                    last_seen: now,
                    frames_seen: 1,
                };
                proof {
                    lemma_views_push(combined@, obj);
                    assert(obj@ == spawned(dv[j as int], st.next_id + fresh_tracks(dv, used_final, st.next_id as int, now, j as int).len(), now));
                }
                combined.push(obj);
                next = next + 1;
            }
            proof {
                assert(views(combined@) =~= cont + fresh_tracks(dv, used_final, st.next_id as int, now, j + 1));
            }
            j = j + 1;
        }
        let ghost all = cont + fr;
        let mut kept: Vec<TrackedObject> = Vec::new();
        let mut i: usize = 0;
        while i < combined.len()
            invariant
                views(combined@) == all,
                i <= combined@.len(),
                views(kept@) == prune(all.subrange(0, i as int), now),
            decreases combined@.len() - i,
        {
            let ghost pre = all.subrange(0, i as int);
            assert(all.subrange(0, i + 1).drop_last() =~= pre);
            assert(all[i as int] == combined@[i as int]@);
            let age = if now >= combined[i].last_seen { now - combined[i].last_seen } else { 0 };
            if age < MAX_STALE_AGE_NS {
                let c = combined[i].clone();
                proof {
                    lemma_views_push(kept@, c);
                }
                kept.push(c);
                assert(views(kept@) =~= prune(all.subrange(0, i + 1), now));
            } else {
                assert(views(kept@) =~= prune(all.subrange(0, i + 1), now));
            }
            i = i + 1;
        }
        assert(all.subrange(0, combined@.len() as int) =~= all);
        let r = copy_tracks(kept.as_slice());
        *self = ObjectTracker { tracks: kept, next_id: next };
        r
    }

    /// The id the next new track will get.
    pub fn next_track_id(&self) -> (r: u64)
        ensures
            r == self@.next_id,
    {
        self.next_id
    }

    /// The current tracks, in order.
    pub fn active_tracks(&self) -> (r: &[TrackedObject])
        ensures
            views(r@) == self@.tracks,
    {
        self.tracks.as_slice()
    }

    /// Whether any current track was first seen after `since`.
    pub fn has_new_arrivals_since(&self, since: u64) -> (r: bool)
        ensures
            r == exists|i: int| 0 <= i < self@.tracks.len() && #[trigger] self@.tracks[i].first_seen > since,
    {
        let mut i: usize = 0;
        while i < self.tracks.len()
            invariant
                i <= self.tracks@.len(),
                forall|k: int| 0 <= k < i ==> #[trigger] self.tracks@[k].first_seen <= since,
            decreases self.tracks@.len() - i,
        {
            if self.tracks[i].first_seen > since {
                assert(self@.tracks[i as int].first_seen > since);
                return true;
            }
            i = i + 1;
        }
        assert forall|k: int| 0 <= k < self@.tracks.len() implies #[trigger] self@.tracks[k].first_seen <= since by {
            assert(self@.tracks[k] == self.tracks@[k]@);
        }
        false
    }

    /// The longest duration among the current tracks; `None` without tracks.
    pub fn longest_duration(&self) -> (r: Option<u64>)
        ensures
            r is None <==> self@.tracks.len() == 0,
            r matches Some(d) ==> (exists|i: int| 0 <= i < self@.tracks.len() && d == track_duration(
                #[trigger] self@.tracks[i],
            )) && (forall|i: int| 0 <= i < self@.tracks.len() ==> track_duration(#[trigger] self@.tracks[i]) <= d),
    {
        let mut best: Option<u64> = None;
        let mut i: usize = 0;
        while i < self.tracks.len()
            invariant
                i <= self.tracks@.len(),
                best is None <==> i == 0,
                best matches Some(d) ==> (exists|k: int| 0 <= k < i && d == track_duration(#[trigger] self@.tracks[k]))
                    && (forall|k: int| 0 <= k < i ==> track_duration(#[trigger] self@.tracks[k]) <= d),
            decreases self.tracks@.len() - i,
        {
            let d = self.tracks[i].duration();
            assert(d == track_duration(self@.tracks[i as int]));
            match best {
                Some(b) => {
                    if d > b {
                        best = Some(d);
                    }
                },
                None => {
                    best = Some(d);
                },
            }
            i = i + 1;
        }
        best
    }
}

/// How long a track has been followed.
pub open spec fn track_duration(t: TrackView) -> u64 {
    crate::debounce::since(t.last_seen, t.first_seen)
}


/// Detection `i` could continue a track with box `b` and class `class_id`:
/// it is untaken, of the class, and close enough.
pub open spec fn candidate(b: BBox, class_id: u32, dets: Seq<Detection>, used: Seq<bool>, i: int) -> bool {
    0 <= i < dets.len() && !used[i] && dets[i].class_id == class_id && iou_qualifies(b, det_box(dets[i]))
}

proof fn lemma_ratio_lt_trans(a: int, b: int, c: int, d: int, e: int, f: int)
    requires
        b > 0,
        d > 0,
        f > 0,
        a * d <= c * b,
        c * f < e * d,
    ensures
        a * f < e * b,
{
    assert(a * f < e * b) by (nonlinear_arith)
        requires
            b > 0,
            d > 0,
            f > 0,
            a * d <= c * b,
            c * f < e * d,
    ;
}

/// A track continues the candidate with the highest IoU, the first of equals;
/// with no candidate it continues nothing.
pub proof fn best_match_is_highest(b: BBox, class_id: u32, dets: Seq<Detection>, used: Seq<bool>, j: int)
    requires
        0 <= j <= dets.len(),
    ensures
        match best_upto(b, class_id, dets, used, j) {
            None => forall|i: int| 0 <= i < j ==> !candidate(b, class_id, dets, used, i),
            Some(m) => candidate(b, class_id, dets, used, m) && m < j && forall|i: int|
                0 <= i < j && candidate(b, class_id, dets, used, i) ==> !iou_exceeds(
                    b,
                    det_box(dets[i]),
                    b,
                    det_box(dets[m]),
                ) && (i < m ==> iou_exceeds(b, det_box(dets[m]), b, det_box(dets[i]))),
        },
    decreases j,
{
    if j > 0 {
        best_match_is_highest(b, class_id, dets, used, j - 1);
        lemma_best_upto_in_range(b, class_id, dets, used, j - 1);
        let prev = best_upto(b, class_id, dets, used, j - 1);
        let k = j - 1;
        let ck = det_box(dets[k]);
        if let Some(m) = best_upto(b, class_id, dets, used, j) {
            let cm = det_box(dets[m]);
            if m == k {
                if let Some(p) = prev {
                    let cp = det_box(dets[p]);
                    assert forall|i: int| 0 <= i < j && candidate(b, class_id, dets, used, i) implies !iou_exceeds(
                        b,
                        det_box(dets[i]),
                        b,
                        cm,
                    ) && (i < m ==> iou_exceeds(b, cm, b, det_box(dets[i]))) by {
                        if i < k {
                            let ci = det_box(dets[i]);
                            lemma_ratio_lt_trans(
                                iou_num(b, ci),
                                iou_den(b, ci),
                                iou_num(b, cp),
                                iou_den(b, cp),
                                iou_num(b, cm),
                                iou_den(b, cm),
                            );
                        }
                    }
                }
            }
        }
    }
}

/// Two tracks never continue the same detection, and a taken detection
/// stays taken.
pub proof fn matching_takes_each_detection_once(tracks: Seq<TrackView>, dets: Seq<Detection>, m: int)
    requires
        0 <= m <= tracks.len(),
    ensures
        forall|k: int| 0 <= k < m && (#[trigger] matching(tracks, dets, m).1[k]) is Some ==> matching(tracks, dets, m).0[matching(
            tracks,
            dets,
            m,
        ).1[k]->0],
        forall|k1: int, k2: int|
            0 <= k1 < k2 < m && matching(tracks, dets, m).1[k1] is Some ==> #[trigger] matching(tracks, dets, m).1[k1]
                != #[trigger] matching(tracks, dets, m).1[k2],
    decreases m,
{
    if m > 0 {
        matching_takes_each_detection_once(tracks, dets, m - 1);
        lemma_matching_prefix(tracks, dets, m - 1);
        let (used, ch) = matching(tracks, dets, m - 1);
        let c = best_match(tracks[m - 1], dets, used);
        lemma_best_upto_in_range(tracks[m - 1].bbox, tracks[m - 1].class_id, dets, used, dets.len() as int);
        let (used2, ch2) = matching(tracks, dets, m);
        assert forall|k: int| 0 <= k < m && (#[trigger] ch2[k]) is Some implies used2[ch2[k]->0] by {
            if k < m - 1 {
                assert(ch2[k] == ch[k]);
                assert(used[ch[k]->0]);
            }
        }
        assert forall|k1: int, k2: int| 0 <= k1 < k2 < m && ch2[k1] is Some implies #[trigger] ch2[k1] != #[trigger] ch2[k2] by {
            if k2 < m - 1 {
                assert(ch2[k1] == ch[k1] && ch2[k2] == ch[k2]);
            } else {
                assert(ch2[k1] == ch[k1]);
                let i = ch[k1]->0;
                assert(used[i]);
            }
        }
    }
}

/// After an update every track was seen less than the stale age ago.
pub proof fn update_drops_stale_tracks(s: Seq<TrackView>, now: u64)
    ensures
        forall|i: int| 0 <= i < prune(s, now).len() ==> crate::debounce::since(now, (#[trigger] prune(s, now)[i]).last_seen)
            < MAX_STALE_AGE_NS,
    decreases s.len(),
{
    if s.len() > 0 {
        let rest = prune(s.drop_last(), now);
        update_drops_stale_tracks(s.drop_last(), now);
        assert forall|i: int| 0 <= i < prune(s, now).len() implies crate::debounce::since(
            now,
            (#[trigger] prune(s, now)[i]).last_seen,
        ) < MAX_STALE_AGE_NS by {
            if i < rest.len() {
                assert(prune(s, now)[i] == rest[i]);
            }
        }
    }
}


/// Track ids are never reused: after an update every track either keeps the
/// id of a track it continues, or has a new id at or above the old `next_id`
/// and below the new one.
pub proof fn track_ids_never_reused(st: TrackerState, dets: Seq<Detection>, now: u64)
    requires
        st.wf(),
        all_fit(dets),
        st.can_update(dets, now),
    ensures
        st.updated(dets, now).next_id >= st.next_id,
        forall|i: int| 0 <= i < st.updated(dets, now).tracks.len() ==> ({
            let t = #[trigger] st.updated(dets, now).tracks[i];
            (exists|k: int| 0 <= k < st.tracks.len() && st.tracks[k].track_id == t.track_id) || (st.next_id
                <= t.track_id && t.track_id < st.updated(dets, now).next_id)
        }),
{
    let c = continued(st.tracks, dets, now);
    let f = st.fresh(dets, now);
    let all = c + f;
    let used = taken(st.tracks, dets);
    lemma_continued_shape(st, dets, now);
    lemma_fresh_len_monotone(dets, used, st.next_id as int, now, dets.len() as int, dets.len() as int);
    lemma_fresh_shape(dets, used, st.next_id as int, now, dets.len() as int);
    lemma_prune_subseq(all, now);
    let u = st.updated(dets, now);
    assert forall|i: int| 0 <= i < u.tracks.len() implies ({
        let t = #[trigger] u.tracks[i];
        (exists|k: int| 0 <= k < st.tracks.len() && st.tracks[k].track_id == t.track_id) || (st.next_id <= t.track_id
            && t.track_id < u.next_id)
    }) by {
        let t = u.tracks[i];
        assert(u.tracks.contains(t));
        assert(all.contains(t));
        let k = choose|k: int| 0 <= k < all.len() && all[k] == t;
        if k < c.len() {
            assert(c[k].track_id == st.tracks[k].track_id);
        } else {
            assert(f[k - c.len()].track_id == st.next_id + (k - c.len()));
        }
    }
}

/// The tracker after the first `n` of a run of updates, each a frame's
/// detections and its time.
pub open spec fn tracker_run(s: TrackerState, steps: Seq<(Seq<Detection>, u64)>, n: int) -> TrackerState
    decreases n,
{
    if n <= 0 {
        s
    } else {
        tracker_run(s, steps, n - 1).updated(steps[n - 1].0, steps[n - 1].1)
    }
}

/// The tracks that update `n` of a run creates.
pub open spec fn created_at(s: TrackerState, steps: Seq<(Seq<Detection>, u64)>, n: int) -> Seq<TrackView> {
    tracker_run(s, steps, n).fresh(steps[n].0, steps[n].1)
}

/// Every update of the run is one that `ObjectTracker::update` accepts.
pub open spec fn run_acceptable(s: TrackerState, steps: Seq<(Seq<Detection>, u64)>) -> bool {
    forall|n: int| 0 <= n < steps.len() ==> all_fit(#[trigger] steps[n].0) && tracker_run(s, steps, n).can_update(
        steps[n].0,
        steps[n].1,
    )
}

proof fn lemma_run_wf_and_ids(s: TrackerState, steps: Seq<(Seq<Detection>, u64)>, n: int)
    requires
        s.wf(),
        run_acceptable(s, steps),
        0 <= n <= steps.len(),
    ensures
        tracker_run(s, steps, n).wf(),
        n < steps.len() ==> tracker_run(s, steps, n + 1).next_id == tracker_run(s, steps, n).next_id + created_at(
            s,
            steps,
            n,
        ).len(),
        n < steps.len() ==> forall|a: int| 0 <= a < created_at(s, steps, n).len() ==> (#[trigger] created_at(
            s,
            steps,
            n,
        )[a]).track_id == tracker_run(s, steps, n).next_id + a,
    decreases n,
{
    if n > 0 {
        lemma_run_wf_and_ids(s, steps, n - 1);
        let t = tracker_run(s, steps, n - 1);
        assert(all_fit(steps[n - 1].0) && t.can_update(steps[n - 1].0, steps[n - 1].1));
        lemma_update_wf(t, steps[n - 1].0, steps[n - 1].1);
    }
    if n < steps.len() {
        let t = tracker_run(s, steps, n);
        let dets = steps[n].0;
        assert(all_fit(steps[n].0) && t.can_update(steps[n].0, steps[n].1));
        lemma_fresh_shape(dets, taken(t.tracks, dets), t.next_id as int, steps[n].1, dets.len() as int);
    }
}

proof fn lemma_run_next_grows(s: TrackerState, steps: Seq<(Seq<Detection>, u64)>, i: int, j: int)
    requires
        s.wf(),
        run_acceptable(s, steps),
        0 <= i <= j <= steps.len(),
    ensures
        tracker_run(s, steps, i).next_id <= tracker_run(s, steps, j).next_id,
    decreases j - i,
{
    if i < j {
        lemma_run_next_grows(s, steps, i, j - 1);
        lemma_run_wf_and_ids(s, steps, j - 1);
    }
}

/// Over any run of accepted updates from a well-formed tracker, no track id
/// is issued twice: the tracker stays well formed (its tracks' ids are
/// distinct and increasing), the tracks each update creates get consecutive
/// ids from the tracker's next id in detection order, and every id created
/// by an earlier update is below every id created by a later one.
pub proof fn track_ids_unique_over_run(s: TrackerState, steps: Seq<(Seq<Detection>, u64)>)
    requires
        s.wf(),
        run_acceptable(s, steps),
    ensures
        forall|n: int| 0 <= n <= steps.len() ==> (#[trigger] tracker_run(s, steps, n)).wf(),
        forall|n: int, a: int| 0 <= n < steps.len() && 0 <= a < created_at(s, steps, n).len() ==> (#[trigger] created_at(
            s,
            steps,
            n,
        )[a]).track_id == tracker_run(s, steps, n).next_id + a,
        forall|i: int, j: int, a: int, b: int|
            0 <= i < j < steps.len() && 0 <= a < created_at(s, steps, i).len() && 0 <= b < created_at(s, steps, j).len()
                ==> (#[trigger] created_at(s, steps, i)[a]).track_id < (#[trigger] created_at(s, steps, j)[b]).track_id,
{
    assert forall|n: int| 0 <= n <= steps.len() implies (#[trigger] tracker_run(s, steps, n)).wf() by {
        lemma_run_wf_and_ids(s, steps, n);
    }
    assert forall|n: int, a: int| 0 <= n < steps.len() && 0 <= a < created_at(s, steps, n).len() implies (#[trigger] created_at(
        s,
        steps,
        n,
    )[a]).track_id == tracker_run(s, steps, n).next_id + a by {
        lemma_run_wf_and_ids(s, steps, n);
    }
    assert forall|i: int, j: int, a: int, b: int|
        0 <= i < j < steps.len() && 0 <= a < created_at(s, steps, i).len() && 0 <= b < created_at(s, steps, j).len()
            implies (#[trigger] created_at(s, steps, i)[a]).track_id < (#[trigger] created_at(s, steps, j)[b]).track_id by {
        lemma_run_wf_and_ids(s, steps, i);
        lemma_run_wf_and_ids(s, steps, j);
        lemma_run_next_grows(s, steps, i + 1, j);
    }
}

/// An update stays within the counters' ranges when no track has reached
/// the largest frame count and there is room for an id per detection.
pub proof fn lemma_counters_leave_room(st: TrackerState, dets: Seq<Detection>, now: u64)
    requires
        forall|k: int| 0 <= k < st.tracks.len() ==> (#[trigger] st.tracks[k]).frames_seen < u32::MAX,
        st.next_id + dets.len() <= u64::MAX,
    ensures
        st.can_update(dets, now),
{
    lemma_fresh_len_monotone(dets, taken(st.tracks, dets), st.next_id as int, now, dets.len() as int, dets.len() as int);
}

/// Whether a track was seen less than the stale age (2 s) before `now`.
pub open spec fn seen_recently(t: TrackView, now: u64) -> bool {
    crate::debounce::since(now, t.last_seen) < MAX_STALE_AGE_NS
}

/// Pruning keeps exactly the tracks seen less than the stale age before
/// `now`, in their order.
pub proof fn prune_keeps_exactly_recent(s: Seq<TrackView>, now: u64)
    ensures
        prune(s, now) == s.filter(recent_at(now)),
    decreases s.len(),
{
    reveal(Seq::filter);
    if s.len() > 0 {
        prune_keeps_exactly_recent(s.drop_last(), now);
        assert(s.filter(recent_at(now)) == (if recent_at(now)(s.last()) {
            s.drop_last().filter(recent_at(now)).push(s.last())
        } else {
            s.drop_last().filter(recent_at(now))
        }));
    }
}

/// The test a track passes to stay: seen less than the stale age before `now`.
pub open spec fn recent_at(now: u64) -> spec_fn(TrackView) -> bool {
    |t: TrackView| seen_recently(t, now)
}

/// No track seen less than the stale age (2 s) before `now` is lost by an
/// update: every existing track that was seen that recently, and every new
/// track, is among the tracks after the update, under the same id; and
/// every track after the update was seen that recently.
pub proof fn update_keeps_recent_tracks(st: TrackerState, dets: Seq<Detection>, now: u64)
    requires
        st.wf(),
        all_fit(dets),
        st.can_update(dets, now),
    ensures
        forall|k: int| 0 <= k < st.tracks.len() && #[trigger] seen_recently(st.tracks[k], now) ==> exists|i: int|
            0 <= i < st.updated(dets, now).tracks.len() && st.updated(dets, now).tracks[i].track_id == st.tracks[k].track_id,
        forall|a: int| 0 <= a < st.fresh(dets, now).len() ==> st.updated(dets, now).tracks.contains(
            #[trigger] st.fresh(dets, now)[a],
        ),
        forall|i: int| 0 <= i < st.updated(dets, now).tracks.len() ==> seen_recently(
            #[trigger] st.updated(dets, now).tracks[i],
            now,
        ),
{
    let c = continued(st.tracks, dets, now);
    let f = st.fresh(dets, now);
    let all = c + f;
    let pred = recent_at(now);
    lemma_continued_shape(st, dets, now);
    prune_keeps_exactly_recent(all, now);
    let u = st.updated(dets, now).tracks;
    assert(u == all.filter(pred));
    assert forall|k: int| 0 <= k < st.tracks.len() && #[trigger] seen_recently(st.tracks[k], now) implies exists|i: int|
        0 <= i < u.len() && u[i].track_id == st.tracks[k].track_id by {
        assert(all[k] == c[k]);
        assert(seen_recently(c[k], now));
        all.lemma_filter_contains(pred, k);
        assert(u.contains(all[k]));
        let i = choose|i: int| 0 <= i < u.len() && u[i] == all[k];
        assert(u[i].track_id == st.tracks[k].track_id);
    }
    assert forall|a: int| 0 <= a < f.len() implies u.contains(#[trigger] f[a]) by {
        lemma_fresh_seen_now(dets, taken(st.tracks, dets), st.next_id as int, now, dets.len() as int);
        assert(all[c.len() + a] == f[a]);
        all.lemma_filter_contains(pred, c.len() + a);
    }
    assert forall|i: int| 0 <= i < u.len() implies seen_recently(#[trigger] u[i], now) by {
        all.lemma_filter_pred(pred, i);
    }
}

/// New tracks were last seen at `now`.
proof fn lemma_fresh_seen_now(dets: Seq<Detection>, used: Seq<bool>, next_id: int, now: u64, j: int)
    ensures
        forall|a: int| 0 <= a < fresh_tracks(dets, used, next_id, now, j).len() ==> (#[trigger] fresh_tracks(
            dets,
            used,
            next_id,
            now,
            j,
        )[a]).last_seen == now,
    decreases j,
{
    if j > 0 {
        lemma_fresh_seen_now(dets, used, next_id, now, j - 1);
        let prev = fresh_tracks(dets, used, next_id, now, j - 1);
        if !used[j - 1] {
            let cur = prev.push(spawned(dets[j - 1], next_id + prev.len(), now));
            assert forall|a: int| 0 <= a < cur.len() implies (#[trigger] cur[a]).last_seen == now by {
                if a < prev.len() {
                    assert(cur[a] == prev[a]);
                }
            }
        }
    }
}

} // verus!
