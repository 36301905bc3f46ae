use vstd::arithmetic::div_mod::{
    lemma_div_by_multiple, lemma_div_is_ordered, lemma_fundamental_div_mod,
    lemma_fundamental_div_mod_converse,
};
use vstd::arithmetic::mul::lemma_mul_inequality;
use vstd::prelude::*;

verus! {

/// A position on the track: `time` in milliseconds since the Unix epoch,
/// `lat` and `lng` in units of 1e-7 degree.
#[derive(Clone, Copy, Debug, PartialEq, Eq, Structural)]
pub struct TrackPoint {
    pub time: i64,
    pub lat: i32,
    pub lng: i32,
}

/// `from` moved toward `to` by the fraction `num / den`, rounded toward `from`.
pub open spec fn blend(from: int, to: int, num: int, den: int) -> int {
    if from <= to {
        from + (to - from) * num / den
    } else {
        from - (from - to) * num / den
    }
}

/// The position at time `t` on the straight segment from `prev` to `next`.
/// When both ends share one timestamp there is no segment, and `prev` stands.
pub open spec fn position_at(prev: TrackPoint, next: TrackPoint, t: int) -> TrackPoint {
    if prev.time == next.time {
        prev
    } else {
        TrackPoint {
            time: t as i64,
            lat: blend(prev.lat as int, next.lat as int, t - prev.time, next.time - prev.time) as i32,
            lng: blend(prev.lng as int, next.lng as int, t - prev.time, next.time - prev.time) as i32,
        }
    }
}

proof fn lemma_scaled_part(d: int, num: int, den: int)
    requires
        0 <= d,
        0 <= num <= den,
        0 < den,
    ensures
        0 <= d * num / den <= d,
        num == 0 ==> d * num / den == 0,
        num == den ==> d * num / den == d,
{
    lemma_mul_inequality(num, den, d);
    assert(num * d == d * num && den * d == d * den) by (nonlinear_arith);
    assert(0 <= d * num) by (nonlinear_arith)
        requires 0 <= d, 0 <= num;
    lemma_div_is_ordered(0, d * num, den);
    lemma_div_is_ordered(d * num, d * den, den);
    lemma_div_by_multiple(d, den);
    assert(d * den == den * d) by (nonlinear_arith);
}

/// Moves `from` toward `to` by `num / den`, rounding toward `from`.
fn blend_coordinate(from: i32, to: i32, num: u64, den: u64) -> (r: i32)
    requires
        num <= den,
        0 < den,
    ensures
        r == blend(from as int, to as int, num as int, den as int),
{
    let d: u128 = if from <= to {
        (to as i64 - from as i64) as u128
    } else {
        (from as i64 - to as i64) as u128
    };
    proof {
        lemma_scaled_part(d as int, num as int, den as int);
        assert(d * (num as u128) <= 0x1_0000_0000u128 * 0x1_0000_0000_0000_0000u128)
            by (nonlinear_arith)
            requires
                d <= 0x1_0000_0000u128,
                num as u128 <= 0x1_0000_0000_0000_0000u128,
        ;
    }
    let q: u128 = d * (num as u128) / (den as u128);
    if from <= to {
        (from as i64 + q as i64) as i32
    } else {
        (from as i64 - q as i64) as i32
    }
}

/// A raw fix as the track file gives it: it may lack a timestamp.
#[derive(Clone, Copy, Debug, PartialEq, Eq, Structural)]
pub struct Waypoint {
    pub time: Option<i64>,
    pub lat: i32,
    pub lng: i32,
}

/// A run of consecutive fixes of a track.
pub struct TrackSegment {
    pub points: Vec<Waypoint>,
}

/// A recorded track: its segments in order.
pub struct Track {
    pub segments: Vec<TrackSegment>,
}

/// The fixes of `points` that carry a timestamp, in their order.
pub open spec fn timed_fixes(points: Seq<Waypoint>) -> Seq<TrackPoint>
    decreases points.len(),
{
    if points.len() == 0 {
        Seq::empty()
    } else {
        let rest = timed_fixes(points.drop_last());
        let w = points.last();
        match w.time {
            Some(t) => rest.push(TrackPoint { time: t, lat: w.lat, lng: w.lng }),
            None => rest,
        }
    }
}

/// The timestamped fixes of all segments, segment after segment.
pub open spec fn track_fixes(segments: Seq<TrackSegment>) -> Seq<TrackPoint>
    decreases segments.len(),
{
    if segments.len() == 0 {
        Seq::empty()
    } else {
        track_fixes(segments.drop_last()) + timed_fixes(segments.last().points@)
    }
}

/// What a resampling run is about: the timestamped fixes, the number of samples
/// per second of track time, and the optional bounds.
pub struct Resampling {
    pub fixes: Seq<TrackPoint>,
    pub fps: nat,
    pub start: Option<i64>,
    pub end: Option<i64>,
}

impl Resampling {
    /// The whole second at which sampling begins.
    pub open spec fn base(self) -> int {
        match self.start {
            Some(s) => s as int,
            None => self.fixes[0].time as int,
        }
    }

    /// Milliseconds into its second of the sample with the given phase:
    /// `phase * 1000 / fps`, rounded to the nearest integer.
    pub open spec fn offset(self, phase: int) -> int {
        (2000 * phase + self.fps as int) / (2 * self.fps as int)
    }

    /// The timestamp that sample `k` is taken at.
    pub open spec fn target(self, k: int) -> int {
        self.base() + (k / self.fps as int) * 1000 + self.offset(k % self.fps as int)
    }

    /// Some fix is at `t` or later.
    pub open spec fn reaches(self, t: int) -> bool {
        exists|j: int| 0 <= j < self.fixes.len() && self.fixes[j].time >= t
    }

    /// `j` is the first fix at `t` or later.
    pub open spec fn is_bracket(self, t: int, j: int) -> bool {
        &&& 0 <= j < self.fixes.len()
        &&& self.fixes[j].time >= t
        &&& forall|i: int| 0 <= i < j ==> self.fixes[i].time < t
    }

    pub open spec fn bracket(self, t: int) -> int {
        choose|j: int| self.is_bracket(t, j)
    }

    /// Sample `k` exists: a fix lies at its target or later, and the end bound,
    /// if any, is not passed.
    pub open spec fn in_range(self, k: int) -> bool {
        &&& self.reaches(self.target(k))
        &&& match self.end {
            Some(e) => self.target(k) <= e,
            None => true,
        }
    }

    /// Sample `k`: the first fix itself while the target is not past it,
    /// else the interpolation between the two fixes around the target.
    pub open spec fn sample(self, k: int) -> TrackPoint {
        let t = self.target(k);
        let j = self.bracket(t);
        if j == 0 {
            self.fixes[0]
        } else {
            position_at(self.fixes[j - 1], self.fixes[j], t)
        }
    }
}

proof fn lemma_bracket_unique(s: Resampling, t: int, j: int)
    requires
        s.is_bracket(t, j),
    ensures
        s.bracket(t) == j,
{
    let b = s.bracket(t);
    assert(s.is_bracket(t, b));
    if b < j {
        assert(s.fixes[b].time < t);
    } else if j < b {
        assert(s.fixes[j].time < t);
    }
}

proof fn lemma_offset_bounds(fps: int, p: int)
    requires
        0 <= p < fps,
    ensures
        0 <= (2000 * p + fps) / (2 * fps) <= 1000,
        (2000 * p + fps) / (2 * fps) <= (2000 * (p + 1) + fps) / (2 * fps),
        fps / (2 * fps) == 0,
{
    let d = 2 * fps;
    lemma_div_is_ordered(0, 2000 * p + fps, d);
    lemma_div_is_ordered(2000 * p + fps, 1000 * d + (d - 1), d);
    lemma_fundamental_div_mod_converse(1000 * d + (d - 1), d, 1000, d - 1);
    lemma_div_is_ordered(2000 * p + fps, 2000 * (p + 1) + fps, d);
    lemma_fundamental_div_mod_converse(fps, d, 0, fps);
}

proof fn lemma_phase_step(k: int, fps: int)
    requires
        0 <= k,
        0 < fps,
    ensures
        k % fps + 1 < fps ==> (k + 1) / fps == k / fps && (k + 1) % fps == k % fps + 1,
        k % fps + 1 >= fps ==> (k + 1) / fps == k / fps + 1 && (k + 1) % fps == 0,
        0 <= k / fps,
        0 <= k % fps < fps,
{
    lemma_fundamental_div_mod(k, fps);
    let q = k / fps;
    let p = k % fps;
    assert(0 <= p < fps);
    if p + 1 < fps {
        assert(k + 1 == q * fps + (p + 1)) by (nonlinear_arith)
            requires k == fps * q + p;
        lemma_fundamental_div_mod_converse(k + 1, fps, q, p + 1);
    } else {
        assert(k + 1 == (q + 1) * fps + 0) by (nonlinear_arith)
            requires k == fps * q + p, p + 1 == fps;
        lemma_fundamental_div_mod_converse(k + 1, fps, q + 1, 0);
    }
    assert(0 <= q) by (nonlinear_arith)
        requires k == fps * q + p, 0 <= k, p < fps, 0 < fps;
}

proof fn lemma_target_step(s: Resampling, k: int)
    requires
        s.fps > 0,
        0 <= k,
    ensures
        s.target(k) <= s.target(k + 1),
{
    let fps = s.fps as int;
    lemma_phase_step(k, fps);
    lemma_offset_bounds(fps, k % fps);
    if k % fps + 1 >= fps {
        lemma_offset_bounds(fps, 0);
    }
}

/// Sample `k2` is taken no earlier than sample `k1`.
pub proof fn lemma_target_monotone(s: Resampling, k1: int, k2: int)
    requires
        s.fps > 0,
        0 <= k1 <= k2,
    ensures
        s.target(k1) <= s.target(k2),
    decreases k2 - k1,
{
    if k1 < k2 {
        lemma_target_monotone(s, k1, k2 - 1);
        lemma_target_step(s, k2 - 1);
    }
}


proof fn lemma_bracket_least(s: Resampling, t: int, j0: int)
    requires
        0 <= j0 < s.fixes.len(),
        s.fixes[j0].time >= t,
    ensures
        s.is_bracket(t, s.bracket(t)),
    decreases j0,
{
    if exists|i: int| 0 <= i < j0 && s.fixes[i].time >= t {
        let i = choose|i: int| 0 <= i < j0 && s.fixes[i].time >= t;
        lemma_bracket_least(s, t, i);
    } else {
        assert(s.is_bracket(t, j0));
    }
}

proof fn lemma_bracket_exists(s: Resampling, t: int)
    requires
        s.reaches(t),
    ensures
        s.is_bracket(t, s.bracket(t)),
{
    let j0 = choose|j: int| 0 <= j < s.fixes.len() && s.fixes[j].time >= t;
    lemma_bracket_least(s, t, j0);
}

proof fn lemma_first_target(s: Resampling)
    requires
        s.fps > 0,
    ensures
        s.target(0) == s.base(),
{
    lemma_fundamental_div_mod_converse(0, s.fps as int, 0, 0);
    lemma_offset_bounds(s.fps as int, 0);
}

/// A sample in range is timed at its target, or at the first fix while the
/// target is not past it.
proof fn lemma_sample_time(s: Resampling, k: int)
    requires
        s.in_range(k),
    ensures
        s.fixes.len() > 0,
        s.sample(k).time == if s.target(k) <= s.fixes[0].time {
            s.fixes[0].time as int
        } else {
            s.target(k)
        },
{
    let t = s.target(k);
    lemma_bracket_exists(s, t);
    let j = s.bracket(t);
    if j > 0 {
        assert(s.fixes[0].time < t);
        assert(s.fixes[j - 1].time < t);
    }
}

/// Resampling is deterministic: runs over the same fixes with the same rate
/// and bounds hand out the same samples, and stop at the same point.
pub proof fn resampling_is_deterministic(a: Resampling, b: Resampling, k: int)
    requires
        a.fixes == b.fixes,
        a.fps == b.fps,
        a.start == b.start,
        a.end == b.end,
    ensures
        a.in_range(k) == b.in_range(k),
        a.sample(k) == b.sample(k),
{
    assert(a == b);
}

/// Once a sample is out of range, so is every later one: an exhausted run
/// hands out nothing more.
pub proof fn exhaustion_is_final(s: Resampling, k1: int, k2: int)
    requires
        s.fps > 0,
        0 <= k1 <= k2,
        !s.in_range(k1),
    ensures
        !s.in_range(k2),
{
    lemma_target_monotone(s, k1, k2);
    if s.reaches(s.target(k2)) {
        let j = choose|j: int| 0 <= j < s.fixes.len() && s.fixes[j].time >= s.target(k2);
        assert(s.fixes[j].time >= s.target(k1));
    }
}

/// Without a start bound the first sample is the first fix itself, handed out
/// unless the end bound lies before that fix.
pub proof fn first_sample_is_first_fix(s: Resampling)
    requires
        s.fps > 0,
        s.fixes.len() > 0,
        s.start.is_none(),
    ensures
        s.in_range(0) == match s.end {
            Some(e) => s.fixes[0].time <= e,
            None => true,
        },
        s.sample(0) == s.fixes[0],
{
    lemma_first_target(s);
    assert(s.is_bracket(s.target(0), 0));
    lemma_bracket_unique(s, s.target(0), 0);
}

/// A start bound before the first fix gives the first fix itself as the first
/// sample, not an extrapolation; it is handed out unless the end bound lies
/// before the start.
pub proof fn early_start_is_clamped(s: Resampling)
    requires
        s.fps > 0,
        s.fixes.len() > 0,
        s.start matches Some(b) && b < s.fixes[0].time,
    ensures
        s.in_range(0) == match s.end {
            Some(e) => s.start.unwrap() <= e,
            None => true,
        },
        s.sample(0) == s.fixes[0],
{
    lemma_first_target(s);
    assert(s.is_bracket(s.target(0), 0));
    lemma_bracket_unique(s, s.target(0), 0);
}

/// A track of one fix gives exactly one sample, the fix itself, when sampling
/// starts at it, the end bound does not cut it off, and the rate is at most
/// 2000 samples per second (beyond that two targets round to one millisecond).
pub proof fn single_fix_gives_one_sample(s: Resampling, k: int)
    requires
        0 < s.fps <= 2000,
        s.fixes.len() == 1,
        s.start.is_none(),
        s.end matches Some(e) ==> s.fixes[0].time <= e,
        1 <= k,
    ensures
        s.in_range(0),
        s.sample(0) == s.fixes[0],
        !s.in_range(k),
{
    first_sample_is_first_fix(s);
    let fps = s.fps as int;
    if fps == 1 {
        lemma_fundamental_div_mod_converse(1, 1, 1, 0);
        lemma_offset_bounds(1, 0);
    } else {
        lemma_fundamental_div_mod_converse(1, fps, 0, 1);
        lemma_div_is_ordered(2 * fps, 2000 + fps, 2 * fps);
        lemma_fundamental_div_mod_converse(2 * fps, 2 * fps, 1, 0);
    }
    assert(s.target(1) > s.target(0));
    if s.reaches(s.target(1)) {
        let j = choose|j: int| 0 <= j < s.fixes.len() && s.fixes[j].time >= s.target(1);
        assert(j == 0);
    }
    exhaustion_is_final(s, 1, k);
}

/// Sample times never decrease. From one second of targets to a later one they
/// strictly increase, provided the later target is past the first fix (before
/// it, samples stay on the first fix) and the rate is below 2000 samples per
/// second (from there on a second's last target can round up to the next).
pub proof fn sample_times_are_monotone(s: Resampling, k1: int, k2: int)
    requires
        s.fps > 0,
        0 <= k1 <= k2,
        s.in_range(k2),
    ensures
        s.in_range(k1),
        s.sample(k1).time <= s.sample(k2).time,
        k1 / (s.fps as int) < k2 / (s.fps as int) && s.fps < 2000 && s.target(k2) > s.fixes[0].time
            ==> s.sample(k1).time < s.sample(k2).time,
{
    if !s.in_range(k1) {
        exhaustion_is_final(s, k1, k2);
    }
    lemma_target_monotone(s, k1, k2);
    lemma_sample_time(s, k1);
    lemma_sample_time(s, k2);
    let fps = s.fps as int;
    if k1 / fps < k2 / fps && s.fps < 2000 {
        lemma_phase_step(k1, fps);
        lemma_phase_step(k2, fps);
        let p = k1 % fps;
        lemma_offset_bounds(fps, k2 % fps);
        lemma_div_is_ordered(2000 * p + fps, 2000 * fps - 1, 2 * fps);
        lemma_fundamental_div_mod_converse(2000 * fps - 1, 2 * fps, 999, 2 * fps - 1);
        assert(s.offset(p) < 1000);
        assert((k1 / fps) * 1000 + 1000 <= (k2 / fps) * 1000) by (nonlinear_arith)
            requires k1 / fps < k2 / fps;
        assert(s.target(k1) < s.target(k2));
    }
}

/// Interpolation is the linear blend by elapsed time: at the two ends it gives
/// the fixes' own coordinates, and in between each coordinate is the exact
/// blend rounded toward the earlier fix by less than one unit.
pub proof fn interpolation_is_linear_blend(prev: TrackPoint, next: TrackPoint, t: int)
    requires
        prev.time < next.time,
        prev.time <= t <= next.time,
    ensures
        ({
            let p = position_at(prev, next, t);
            let num = t - prev.time;
            let den = next.time - prev.time;
            &&& p.time == t
            &&& t == prev.time ==> p.lat == prev.lat && p.lng == prev.lng
            &&& t == next.time ==> p.lat == next.lat && p.lng == next.lng
            &&& rounds_toward(prev.lat as int, next.lat as int, p.lat as int, num, den)
            &&& rounds_toward(prev.lng as int, next.lng as int, p.lng as int, num, den)
        }),
{
    let num = t - prev.time;
    let den = next.time - prev.time;
    lemma_blend_bounds(prev.lat as int, next.lat as int, num, den);
    lemma_blend_bounds(prev.lng as int, next.lng as int, num, den);
}

/// `v` is `from + (to - from) * num / den` rounded toward `from`: the exact
/// blend lies at `v` or less than one unit beyond it, on the side of `to`.
pub open spec fn rounds_toward(from: int, to: int, v: int, num: int, den: int) -> bool {
    if from <= to {
        (v - from) * den <= (to - from) * num < (v - from + 1) * den
    } else {
        (from - v) * den <= (from - to) * num < (from - v + 1) * den
    }
}

proof fn lemma_blend_bounds(from: int, to: int, num: int, den: int)
    requires
        0 <= num <= den,
        0 < den,
    ensures
        rounds_toward(from, to, blend(from, to, num, den), num, den),
        from <= to ==> from <= blend(from, to, num, den) <= to,
        to < from ==> to <= blend(from, to, num, den) <= from,
        num == 0 ==> blend(from, to, num, den) == from,
        num == den ==> blend(from, to, num, den) == to,
{
    let d = if from <= to { to - from } else { from - to };
    lemma_scaled_part(d, num, den);
    lemma_fundamental_div_mod(d * num, den);
    let q = d * num / den;
    let r = d * num % den;
    assert(q * den <= d * num < (q + 1) * den) by (nonlinear_arith)
        requires d * num == den * q + r, 0 <= r < den;
}

/// Collects the timestamped fixes of a track, segment after segment.
fn collect_fixes(track: &Track) -> (r: Vec<TrackPoint>)
    ensures
        r@ == track_fixes(track.segments@),
{
    let mut out: Vec<TrackPoint> = Vec::new();
    let mut i: usize = 0;
    while i < track.segments.len()
        invariant
            0 <= i <= track.segments.len(),
            out@ == track_fixes(track.segments@.take(i as int)),
        decreases track.segments.len() - i,
    {
        let seg = &track.segments[i];
        assert(track.segments@.take(i + 1).drop_last() =~= track.segments@.take(i as int));
        let ghost done = out@;
        assert(seg.points@.take(0) =~= Seq::<Waypoint>::empty());
        assert(done =~= done + timed_fixes(seg.points@.take(0)));
        let mut j: usize = 0;
        while j < seg.points.len()
            invariant
                0 <= j <= seg.points.len(),
                out@ == done + timed_fixes(seg.points@.take(j as int)),
            decreases seg.points.len() - j,
        {
            let w = seg.points[j];
            assert(seg.points@.take(j + 1).drop_last() =~= seg.points@.take(j as int));
            assert(seg.points@.take(j + 1).last() == w);
            let ghost before = timed_fixes(seg.points@.take(j as int));
            if let Some(t) = w.time {
                let p = TrackPoint { time: t, lat: w.lat, lng: w.lng };
                out.push(p);
                assert(done + before.push(p) =~= (done + before).push(p));
            }
            j += 1;
        }
        assert(seg.points@.take(j as int) =~= seg.points@);
        i += 1;
    }
    assert(track.segments@.take(i as int) =~= track.segments@);
    out
}

/// Resamples a track at a fixed number of samples per second of track time.
/// A forward-only cursor over the timestamped fixes brackets each target.
pub struct TrackIter {
    points: Vec<TrackPoint>,
    fps: usize,
    start_dt: Option<i64>,
    end_dt: Option<i64>,
    /// The whole second of the next target, in milliseconds.
    current: i128,
    /// The phase of the next target within its second.
    current_fps: usize,
    /// The index of the fix that bounds the next target from above.
    cursor: usize,
    emitted: Ghost<nat>,
}

impl View for TrackIter {
    type V = Resampling;

    closed spec fn view(&self) -> Resampling {
        Resampling {
            fixes: self.points@,
            fps: self.fps as nat,
            start: self.start_dt,
            end: self.end_dt,
        }
    }
}

impl TrackIter {
    /// How many samples have been handed out.
    pub closed spec fn emitted(&self) -> nat {
        self.emitted@
    }

    /// The index of the fix that the cursor stands on.
    pub closed spec fn cursor_index(&self) -> int {
        self.cursor as int
    }

    pub closed spec fn wf(&self) -> bool {
        let s = self@;
        &&& self.fps > 0
        &&& self.points.len() == 0 ==> self.cursor == 0 && self.emitted@ == 0
        &&& self.points.len() > 0 ==> {
            &&& self.cursor < self.points.len()
            &&& self.current == s.base() + (self.emitted@ / s.fps) * 1000
            &&& self.current_fps == self.emitted@ % s.fps
            &&& self.current <= i64::MAX + 1000
            &&& forall|i: int|
                0 <= i < self.cursor ==> s.fixes[i].time < s.target(self.emitted@ as int)
        }
    }

    /// Starts resampling `track` at `fps` samples per second of track time,
    /// from `start_dt` (else the first fix) and up to `end_dt` inclusive.
    pub fn get_iter(track: &Track, fps: usize, start_dt: Option<i64>, end_dt: Option<i64>) -> (r: Self)
        requires
            fps > 0,
        ensures
            r.wf(),
            r@ == (Resampling {
                fixes: track_fixes(track.segments@),
                fps: fps as nat,
                start: start_dt,
                end: end_dt,
            }),
            r.emitted() == 0,
            r.cursor_index() == 0,
    {
        let points = collect_fixes(track);
        let current: i128 = if points.len() == 0 {
            0
        } else {
            match start_dt {
                Some(s) => s as i128,
                None => points[0].time as i128,
            }
        };
        let r = TrackIter {
            points,
            fps,
            start_dt,
            end_dt,
            current,
            current_fps: 0,
            cursor: 0,
            emitted: Ghost(0),
        };
        proof {
            lemma_phase_step(0, fps as int);
        }
        r
    }

    /// The position at time `current` between the fixes `prev` and `next`.
    pub fn calc_position(prev: &TrackPoint, next: &TrackPoint, current: i64) -> (r: TrackPoint)
        requires
            prev.time == next.time || prev.time <= current <= next.time,
        ensures
            r == position_at(*prev, *next, current as int),
    {
        if prev.time == next.time {
            return *prev;
        }
        let num: u64 = (current as i128 - prev.time as i128) as u64;
        let den: u64 = (next.time as i128 - prev.time as i128) as u64;
        TrackPoint {
            time: current,
            lat: blend_coordinate(prev.lat, next.lat, num, den),
            lng: blend_coordinate(prev.lng, next.lng, num, den),
        }
    }

    /// Some fix from the cursor on is at `dt` or later.
    pub open spec fn reaches_from(&self, dt: int) -> bool {
        exists|j: int| self.cursor_index() <= j < self@.fixes.len() && self@.fixes[j].time >= dt
    }

    /// Moves the cursor forward to the first fix from it on at `dt` or later;
    /// false when there is none.
    fn advance_to(&mut self, dt: i128) -> (r: bool)
        requires
            old(self).wf(),
            old(self).points.len() > 0,
            dt <= old(self)@.target(old(self).emitted() as int),
        ensures
            final(self).wf(),
            final(self)@ == old(self)@,
            final(self).emitted() == old(self).emitted(),
            final(self).current == old(self).current,
            final(self).current_fps == old(self).current_fps,
            old(self).cursor <= final(self).cursor,
            r == old(self).reaches_from(dt as int),
            r ==> final(self)@.fixes[final(self).cursor as int].time >= dt,
            forall|i: int| old(self).cursor <= i < final(self).cursor ==> final(self)@.fixes[i].time < dt,
    {
        let ghost s = self@;
        let ghost c0 = self.cursor;
        while (self.points[self.cursor].time as i128) < dt
            invariant
                self.wf(),
                s == old(self)@,
                c0 == old(self).cursor,
                dt <= s.target(self.emitted() as int),
                self.emitted() == old(self).emitted(),
                self@ == s,
                self.current == old(self).current,
                self.current_fps == old(self).current_fps,
                self.points.len() > 0,
                c0 <= self.cursor,
                forall|i: int| c0 <= i < self.cursor ==> s.fixes[i].time < dt,
            decreases self.points.len() - self.cursor,
        {
            if self.cursor + 1 == self.points.len() {
                assert forall|j: int| c0 <= j < s.fixes.len() implies s.fixes[j].time < dt by {
                    if j == self.cursor {
                    }
                }
                return false;
            }
            self.cursor = self.cursor + 1;
        }
        true
    }

    /// Moves the cursor forward to the first fix from it on at `dt` or later;
    /// false when there is none. `dt` must not lie past the next sample's
    /// target.
    pub fn move_to_dt(&mut self, dt: i64) -> (r: bool)
        requires
            old(self).wf(),
            dt <= old(self)@.target(old(self).emitted() as int),
        ensures
            final(self).wf(),
            final(self)@ == old(self)@,
            final(self).emitted() == old(self).emitted(),
            old(self).cursor_index() <= final(self).cursor_index(),
            r == old(self).reaches_from(dt as int),
            r ==> final(self)@.fixes[final(self).cursor_index()].time >= dt,
            forall|i: int|
                old(self).cursor_index() <= i < final(self).cursor_index()
                    ==> final(self)@.fixes[i].time < dt,
    {
        if self.points.len() == 0 {
            return false;
        }
        self.advance_to(dt as i128)
    }

    /// The target of the next sample, in milliseconds.
    fn next_target(&self) -> (r: i128)
        requires
            self.wf(),
            self.points.len() > 0,
        ensures
            r == self@.target(self.emitted() as int),
            self.current <= r <= self.current + 1000,
    {
        let ghost s = self@;
        proof {
            lemma_phase_step(self.emitted() as int, s.fps as int);
            lemma_offset_bounds(s.fps as int, self.emitted() as int % s.fps as int);
        }
        let fps: u128 = self.fps as u128;
        let off: u128 = (2000 * (self.current_fps as u128) + fps) / (2 * fps);
        self.current + off as i128
    }

    /// Hands out the next sample, or `None` once the targets have passed the
    /// end bound or the last fix. Each sample advances the run for good.
    pub fn next(&mut self) -> (r: Option<TrackPoint>)
        requires
            old(self).wf(),
        ensures
            final(self).wf(),
            final(self)@ == old(self)@,
            r == (if old(self)@.in_range(old(self).emitted() as int) {
                Some(old(self)@.sample(old(self).emitted() as int))
            } else {
                None
            }),
            final(self).emitted() == (if r.is_some() {
                old(self).emitted() + 1int
            } else {
                old(self).emitted() as int
            }),
    {
        let ghost s = self@;
        let ghost k = self.emitted() as int;
        if self.points.len() == 0 {
            return None;
        }
        let target = self.next_target();
        if let Some(e) = self.end_dt {
            if (e as i128) < target {
                return None;
            }
        }
        let ghost c0 = self.cursor as int;
        if !self.advance_to(target) {
            assert(!s.reaches(target as int)) by {
                if s.reaches(target as int) {
                    let j = choose|j: int| 0 <= j < s.fixes.len() && s.fixes[j].time >= target;
                    assert(c0 <= j);
                }
            }
            return None;
        }
        let c = self.cursor;
        assert(s.is_bracket(target as int, c as int));
        proof {
            lemma_bracket_unique(s, target as int, c as int);
        }
        let prev = if c == 0 {
            self.points[0]
        } else {
            self.points[c - 1]
        };
        let next = self.points[c];
        let p = Self::calc_position(&prev, &next, target as i64);
        proof {
            lemma_phase_step(k, s.fps as int);
            lemma_target_step(s, k);
        }
        if self.current_fps + 1 >= self.fps {
            self.current = self.current + 1000;
            self.current_fps = 0;
        } else {
            self.current_fps = self.current_fps + 1;
        }
        self.emitted = Ghost(self.emitted@ + 1);
        Some(p)
    }

    /// The fix that bounds the cursor from above.
    pub fn point_next(&self) -> (r: Option<TrackPoint>)
        requires
            self.wf(),
        ensures
            r == (if self@.fixes.len() == 0 {
                None
            } else {
                Some(self@.fixes[self.cursor_index()])
            }),
    {
        if self.points.len() == 0 {
            None
        } else {
            Some(self.points[self.cursor])
        }
    }

    /// The fix before the cursor's, or the first fix while the cursor stands
    /// on it.
    pub fn point_prev(&self) -> (r: Option<TrackPoint>)
        requires
            self.wf(),
        ensures
            r == (if self@.fixes.len() == 0 {
                None
            } else if self.cursor_index() == 0 {
                Some(self@.fixes[0])
            } else {
                Some(self@.fixes[self.cursor_index() - 1])
            }),
    {
        if self.points.len() == 0 {
            None
        } else if self.cursor == 0 {
            Some(self.points[0])
        } else {
            Some(self.points[self.cursor - 1])
        }
    }
}


/// Regroups the samples of a resampling run into consecutive batches of a
/// fixed size; the last batch may be shorter.
pub struct GroupIterater {
    iterator: TrackIter,
    next_count: usize,
}

impl GroupIterater {
    /// The run whose samples are batched.
    pub closed spec fn run(&self) -> Resampling {
        self.iterator@
    }

    /// How many samples of the run have been handed out.
    pub closed spec fn emitted(&self) -> nat {
        self.iterator.emitted()
    }

    /// How many samples a full batch holds: `next_count`, and at least one.
    pub closed spec fn batch_size(&self) -> nat {
        if self.next_count == 0 {
            1
        } else {
            self.next_count as nat
        }
    }

    pub closed spec fn wf(&self) -> bool {
        self.iterator.wf()
    }

    pub fn new(iterator: TrackIter, next_count: usize) -> (r: Self)
        requires
            iterator.wf(),
        ensures
            r.wf(),
            r.run() == iterator@,
            r.emitted() == iterator.emitted(),
            r.batch_size() == (if next_count == 0 {
                1
            } else {
                next_count as nat
            }),
    {
        GroupIterater { iterator, next_count }
    }

    /// Pulls samples until the batch is full or the run is over. `None` when
    /// not one sample was left.
    pub fn next(&mut self) -> (r: Option<Vec<TrackPoint>>)
        requires
            old(self).wf(),
        ensures
            final(self).wf(),
            final(self).run() == old(self).run(),
            final(self).batch_size() == old(self).batch_size(),
            ({
                let s = old(self).run();
                let k = old(self).emitted() as int;
                let n = old(self).batch_size() as int;
                match r {
                    None => !s.in_range(k) && final(self).emitted() == k,
                    Some(v) => {
                        &&& 1 <= v.len() <= n
                        &&& forall|i: int| 0 <= i < v.len() ==> #[trigger] s.in_range(k + i)
                        &&& v@ == Seq::new(v.len() as nat, |i: int| s.sample(k + i))
                        &&& v.len() < n ==> !s.in_range(k + v.len())
                        &&& final(self).emitted() == k + v.len()
                    },
                }
            }),
    {
        let ghost s = self.iterator@;
        let ghost k = self.emitted() as int;
        let ghost n = self.batch_size() as int;
        let mut result: Vec<TrackPoint> = Vec::new();
        let mut now_count: usize = 0;
        let mut done = false;
        while !done
            invariant
                self.iterator.wf(),
                self.iterator@ == s,
                s == old(self).run(),
                k == old(self).emitted(),
                n == old(self).batch_size(),
                self.next_count == old(self).next_count,
                now_count == result.len(),
                now_count <= n,
                self.iterator.emitted() == k + now_count,
                forall|i: int| 0 <= i < now_count ==> #[trigger] s.in_range(k + i),
                forall|i: int| 0 <= i < now_count ==> result@[i] == s.sample(k + i),
                done ==> now_count == n || !s.in_range(k + now_count),
                !done ==> now_count < n,
            decreases (n - now_count) * 2 + (if done {
                0int
            } else {
                1int
            }),
        {
            match self.iterator.next() {
                Some(item) => {
                    result.push(item);
                    now_count = now_count + 1;
                    if now_count >= self.next_count {
                        done = true;
                    }
                },
                None => {
                    done = true;
                },
            }
        }
        if now_count == 0 {
            None
        } else {
            assert(result@ =~= Seq::new(result.len() as nat, |i: int| s.sample(k + i)));
            Some(result)
        }
    }
}

} // verus!
