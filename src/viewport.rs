//! The chart's viewport: which stretch of the retention window is shown,
//! how the keys pan and zoom it, and which points fall inside it.
use vstd::prelude::*;
use crate::series::{config_of, Cache, Datum, DisplayConfig, Freezable, SeriesView, palette};

verus! {

/// The longest retention window, in nanoseconds (about 36 years): it keeps
/// every viewport computation within 64 bits.
pub const MAX_RETENTION_NS: u64 = 0x1000_0000_0000_0000;

/// A viewport step's new `(start, end)`, as offsets before "now", for the
/// key pressed, from the old offsets and the retention window `r`.
pub open spec fn view_step(key: char, s: int, e: int, r: int) -> (int, int) {
    let mid = (s + e) / 2;
    let left = s - mid;
    let right = mid - e;
    let itv = s - e;
    let left2 = if key == '-' {
        left * 5 / 4
    } else if key == '=' {
        left * 4 / 5
    } else {
        left
    };
    let right2 = if key == '-' {
        right * 5 / 4
    } else if key == '=' {
        right * 4 / 5
    } else {
        right
    };
    let mid2 = if key == 'h' {
        mid + itv / 10
    } else if key == 'l' {
        if mid >= itv / 10 {
            mid - itv / 10
        } else {
            0
        }
    } else if key == 'H' {
        mid + itv / 2
    } else if key == 'L' {
        if mid >= itv / 2 {
            mid - itv / 2
        } else {
            0
        }
    } else {
        mid
    };
    let start = if mid2 + left2 <= 2 * r {
        mid2 + left2
    } else {
        2 * r
    };
    let end0 = if mid2 >= right2 {
        mid2 - right2
    } else {
        0
    };
    let end = if end0 <= r {
        end0
    } else {
        r
    };
    (start, end)
}

pub open spec fn is_view_key(c: char) -> bool {
    c == '-' || c == '=' || c == 'h' || c == 'l' || c == 'H' || c == 'L'
}

/// A frozen copy of the data and the moment it was taken.
#[derive(Debug)]
pub struct Freeze {
    pub frozen_ns: u64,
    pub data: Freezable,
}

/// The base chart layer: the viewport, as offsets before "now" of its start
/// and end, and the frozen data while the chart is paused.
#[derive(Debug)]
pub struct LayerChart {
    pub freeze: Option<Freeze>,
    pub x_start: u64,
    pub x_end: u64,
}

impl LayerChart {
    /// The end lies within the retention window `r` and no earlier than
    /// the start, which lies within twice the window.
    pub open spec fn wf(&self, r: u64) -> bool {
        &&& r <= MAX_RETENTION_NS
        &&& self.x_end <= r
        &&& self.x_end <= self.x_start
        &&& self.x_start <= 2 * r
    }

    pub open spec fn frozen_view(&self) -> Option<(u64, Seq<SeriesView>)> {
        match self.freeze {
            Some(f) => Some((f.frozen_ns, f.data.view())),
            None => None,
        }
    }

    /// The chart showing the whole retention window, live.
    pub fn new(retention_ns: u64) -> (r: LayerChart)
        requires
            retention_ns <= MAX_RETENTION_NS,
        ensures
            r.wf(retention_ns),
            r.x_start == retention_ns,
            r.x_end == 0,
            r.freeze is None,
    {
        LayerChart { freeze: None, x_start: retention_ns, x_end: 0 }
    }

    /// Pans or zooms by one key: `-` zooms out by a quarter, `=` zooms in by
    /// a fifth, `h`/`l` pan by a tenth and `H`/`L` by half of the interval.
    pub fn step_view(&mut self, key: char, retention_ns: u64)
        requires
            old(self).wf(retention_ns),
            is_view_key(key),
        ensures
            final(self).wf(retention_ns),
            final(self).freeze == old(self).freeze,
            (final(self).x_start as int, final(self).x_end as int) == view_step(
                key,
                old(self).x_start as int,
                old(self).x_end as int,
                retention_ns as int,
            ),
    {
        let s = self.x_start;
        let e = self.x_end;
        let mid = s / 2 + e / 2 + (s % 2 + e % 2) / 2;
        proof {
            assert(mid == (s + e) / 2);
        }
        let left = s - mid;
        let right = mid - e;
        let itv = s - e;
        let (left2, right2) = if key == '-' {
            (left * 5 / 4, right * 5 / 4)
        } else if key == '=' {
            (left * 4 / 5, right * 4 / 5)
        } else {
            (left, right)
        };
        let mid2 = if key == 'h' {
            mid + itv / 10
        } else if key == 'l' {
            mid.saturating_sub(itv / 10)
        } else if key == 'H' {
            mid + itv / 2
        } else if key == 'L' {
            mid.saturating_sub(itv / 2)
        } else {
            mid
        };
        let start = if mid2 + left2 <= 2 * retention_ns {
            mid2 + left2
        } else {
            2 * retention_ns
        };
        let end0 = mid2.saturating_sub(right2);
        let end = if end0 <= retention_ns {
            end0
        } else {
            retention_ns
        };
        self.x_start = start;
        self.x_end = end;
    }

    /// Shows the whole retention window again.
    pub fn reset_view(&mut self, retention_ns: u64)
        requires
            retention_ns <= MAX_RETENTION_NS,
        ensures
            final(self).wf(retention_ns),
            final(self).freeze == old(self).freeze,
            final(self).x_start == retention_ns,
            final(self).x_end == 0,
    {
        self.x_start = retention_ns;
        self.x_end = 0;
    }

    /// Pauses the chart on a copy of `data` taken at `now_ns`, or resumes it
    /// when paused.
    pub fn toggle_freeze(&mut self, data: &Freezable, now_ns: u64)
        ensures
            final(self).x_start == old(self).x_start,
            final(self).x_end == old(self).x_end,
            old(self).freeze is Some ==> final(self).freeze is None,
            old(self).freeze is None ==> final(self).frozen_view() == Some((now_ns, data.view())),
    {
        if self.freeze.is_some() {
            self.freeze = None;
        } else {
            self.freeze = Some(Freeze { frozen_ns: now_ns, data: data.snapshot() });
        }
    }

    /// The series the chart shows when `live` is the live data.
    pub open spec fn shown(&self, live: Seq<SeriesView>) -> Seq<SeriesView> {
        match self.freeze {
            Some(f) => f.data.view(),
            None => live,
        }
    }

    /// What the chart shows: the frozen data and its moment while paused,
    /// the live data and `now_ns` otherwise.
    pub fn displayed<'a>(&'a self, cache: &'a Cache, now_ns: u64) -> (r: (u64, &'a Freezable))
        ensures
            r.1.view() == self.shown(cache.series_view()),
            match self.freeze {
                Some(f) => r.0 == f.frozen_ns && r.1.view() == f.data.view(),
                None => r.0 == now_ns && r.1.view() == cache.series_view(),
            },
    {
        match &self.freeze {
            Some(f) => (f.frozen_ns, &f.data),
            None => (now_ns, &cache.data),
        }
    }

    /// The time range the viewport shows at `now_ns`.
    pub fn time_range(&self, now_ns: u64) -> (r: RenderTimeRange)
        ensures
            r == (RenderTimeRange { now_ns, since_start: self.x_start, since_end: self.x_end }),
    {
        RenderTimeRange { now_ns, since_start: self.x_start, since_end: self.x_end }
    }
}

/// The viewport at one moment: "now" and the offsets before it of the
/// start and end of what is shown.
#[derive(Clone, Copy, Debug, PartialEq, Eq, Structural)]
pub struct RenderTimeRange {
    pub now_ns: u64,
    pub since_start: u64,
    pub since_end: u64,
}

pub open spec fn sat_sub_u64(a: u64, b: u64) -> u64 {
    if a >= b {
        (a - b) as u64
    } else {
        0
    }
}

impl RenderTimeRange {
    /// The earliest time shown (the epoch where the offset reaches past it).
    pub fn starts_at(&self) -> (r: u64)
        ensures
            r == sat_sub_u64(self.now_ns, self.since_start),
    {
        self.now_ns.saturating_sub(self.since_start)
    }

    /// The latest time shown.
    pub fn ends_at(&self) -> (r: u64)
        ensures
            r == sat_sub_u64(self.now_ns, self.since_end),
    {
        self.now_ns.saturating_sub(self.since_end)
    }

    /// The inclusive range of times shown.
    pub fn abs_range(&self) -> (r: (u64, u64))
        ensures
            r == (sat_sub_u64(self.now_ns, self.since_start), sat_sub_u64(
                self.now_ns,
                self.since_end,
            )),
    {
        (self.starts_at(), self.ends_at())
    }
}

/// One series as drawn: its points as (age before "now" in nanoseconds,
/// value bits), and how it is drawn.
#[derive(Debug)]
pub struct DrawTarget {
    pub points: Vec<(u64, u64)>,
    pub visible: bool,
    pub color: [u8; 3],
    pub label: String,
}

/// The points of `s` within `[lo, hi]`, each as its age before `now`.
pub open spec fn points_in(s: Seq<Datum>, lo: u64, hi: u64, now: u64) -> Seq<(u64, u64)>
    decreases s.len(),
{
    if s.len() == 0 {
        seq![]
    } else {
        let rest = points_in(s.drop_last(), lo, hi, now);
        let d = s.last();
        if lo <= d.time_ns && d.time_ns <= hi && d.time_ns <= now {
            rest.push(((now - d.time_ns) as u64, d.value_bits))
        } else {
            rest
        }
    }
}

/// How a label with no display settings is drawn.
pub open spec fn fallback_config() -> DisplayConfig {
    DisplayConfig { visible: true, color: palette(0) }
}

pub open spec fn target_config(c: Seq<(Seq<char>, DisplayConfig)>, label: Seq<char>) -> DisplayConfig {
    match config_of(c, label) {
        Some(d) => d,
        None => fallback_config(),
    }
}

pub open spec fn target_view(t: DrawTarget) -> (Seq<char>, Seq<(u64, u64)>, bool, [u8; 3]) {
    (t.label@, t.points@, t.visible, t.color)
}

/// What is drawn of `data` in `time`: one target per series, in label order.
pub open spec fn targets_spec(
    configs: Seq<(Seq<char>, DisplayConfig)>,
    data: Seq<SeriesView>,
    time: RenderTimeRange,
) -> Seq<(Seq<char>, Seq<(u64, u64)>, bool, [u8; 3])> {
    data.map_values(
        |s: SeriesView|
            (
                s.0,
                points_in(
                    s.1,
                    sat_sub_u64(time.now_ns, time.since_start),
                    sat_sub_u64(time.now_ns, time.since_end),
                    time.now_ns,
                ),
                target_config(configs, s.0).visible,
                target_config(configs, s.0).color,
            ),
    )
}

/// The draw targets of `data` within `time`, with the display settings
/// that `cache` holds for each label.
pub fn data_to_targets(cache: &Cache, data: &Freezable, time: RenderTimeRange) -> (r: Vec<
    DrawTarget,
>)
    ensures
        r@.map_values(|t: DrawTarget| target_view(t)) == targets_spec(
            cache.configs(),
            data.view(),
            time,
        ),
{
    let (lo, hi) = time.abs_range();
    let mut out: Vec<DrawTarget> = Vec::new();
    let mut i: usize = 0;
    while i < data.series.len()
        invariant
            i <= data.series@.len(),
            lo == sat_sub_u64(time.now_ns, time.since_start),
            hi == sat_sub_u64(time.now_ns, time.since_end),
            out@.map_values(|t: DrawTarget| target_view(t)) == targets_spec(
                cache.configs(),
                data.view(),
                time,
            ).take(i as int),
        decreases data.series@.len() - i,
    {
        let s = &data.series[i];
        let mut points: Vec<(u64, u64)> = Vec::new();
        let mut j: usize = 0;
        while j < s.data.len()
            invariant
                j <= s.data@.len(),
                points@ == points_in(s.data@.take(j as int), lo, hi, time.now_ns),
            decreases s.data@.len() - j,
        {
            proof {
                assert(s.data@.take(j + 1).drop_last() =~= s.data@.take(j as int));
            }
            let d = s.data[j];
            if lo <= d.time_ns && d.time_ns <= hi && d.time_ns <= time.now_ns {
                points.push((time.now_ns - d.time_ns, d.value_bits));
            }
            j = j + 1;
        }
        proof {
            assert(s.data@.take(s.data@.len() as int) =~= s.data@);
        }
        let config = match cache.config(&s.label) {
            Some(c) => c,
            None => DisplayConfig { visible: true, color: [228, 26, 28] },
        };
        let ghost before = out@;
        out.push(
            DrawTarget { points, visible: config.visible, color: config.color, label: s.label.clone() },
        );
        proof {
            let t = targets_spec(cache.configs(), data.view(), time);
            assert(target_view(out@.last()) == t[i as int]);
            assert(t.take(i + 1) =~= t.take(i as int).push(t[i as int]));
            assert(out@.map_values(|t: DrawTarget| target_view(t)) =~= before.map_values(
                |t: DrawTarget| target_view(t),
            ).push(target_view(out@.last())));
        }
        i = i + 1;
    }
    proof {
        let t = targets_spec(cache.configs(), data.view(), time);
        assert(t.take(data.series@.len() as int) =~= t);
    }
    out
}

} // verus!
