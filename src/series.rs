//! The windowed store of samples, one time-ordered series per label, and the
//! display settings that each label keeps for the whole run.
use vstd::prelude::*;
use crate::order::{
    compare_labels, label_bytes, label_lt, lemma_bytes_lt_transitive, lemma_label_lt_total,
};

verus! {

/// One stored point of a series: its time in nanoseconds since the Unix epoch
/// and the bit pattern of its floating-point value.
#[derive(Clone, Copy, Debug, PartialEq, Eq, Structural)]
pub struct Datum {
    pub time_ns: u64,
    pub value_bits: u64,
}

/// One labelled observation, as the sources deliver it.
#[derive(Clone, Debug)]
pub struct Message {
    pub label: String,
    pub value_bits: u64,
    pub time_ns: u64,
}

/// How a label is drawn.
#[derive(Clone, Copy, Debug, PartialEq, Eq)]
pub struct DisplayConfig {
    pub visible: bool,
    pub color: [u8; 3],
}

/// The samples of one label, oldest first.
#[derive(Debug)]
pub struct Series {
    pub label: String,
    pub data: Vec<Datum>,
}

/// All series, ordered by label.
#[derive(Debug)]
pub struct Freezable {
    pub series: Vec<Series>,
}

/// The display settings of one label.
#[derive(Clone, Debug)]
pub struct LabelConfig {
    pub label: String,
    pub config: DisplayConfig,
}

#[derive(Debug)]
pub struct ColorPool {
    next_color: usize,
}

/// The live store: series that are still in the retention window, and the
/// display settings of every label seen so far.
#[derive(Debug)]
pub struct Cache {
    pub data: Freezable,
    pub disp_config: Vec<LabelConfig>,
    pub color_pool: ColorPool,
}

pub type SeriesView = (Seq<char>, Seq<Datum>);

pub const PALETTE_LEN: usize = 9;

/// The fixed palette that new labels take their colors from, in turn.
pub open spec fn palette(i: int) -> [u8; 3] {
    if i == 0 {
        [228, 26, 28]
    } else if i == 1 {
        [55, 126, 184]
    } else if i == 2 {
        [77, 175, 74]
    } else if i == 3 {
        [152, 78, 163]
    } else if i == 4 {
        [255, 127, 0]
    } else if i == 5 {
        [255, 255, 51]
    } else if i == 6 {
        [166, 86, 40]
    } else if i == 7 {
        [247, 129, 191]
    } else {
        [153, 153, 153]
    }
}

fn palette_color(i: usize) -> (r: [u8; 3])
    requires
        i < PALETTE_LEN,
    ensures
        r == palette(i as int),
{
    match i {
        0 => [228, 26, 28],
        1 => [55, 126, 184],
        2 => [77, 175, 74],
        3 => [152, 78, 163],
        4 => [255, 127, 0],
        5 => [255, 255, 51],
        6 => [166, 86, 40],
        7 => [247, 129, 191],
        _ => [153, 153, 153],
    }
}

impl ColorPool {
    pub closed spec fn wf(&self) -> bool {
        self.next_color < PALETTE_LEN
    }

    pub closed spec fn position(&self) -> nat {
        self.next_color as nat
    }

    fn new() -> (r: ColorPool)
        ensures
            r.wf(),
            r.position() == 0,
    {
        ColorPool { next_color: 0 }
    }

    /// Hands out the next palette color, wrapping around after the last.
    fn next(&mut self) -> (r: [u8; 3])
        requires
            old(self).wf(),
        ensures
            final(self).wf(),
            r == palette(old(self).position() as int),
            final(self).position() == (old(self).position() + 1) % (PALETTE_LEN as nat),
    {
        let offset = self.next_color;
        self.next_color = (self.next_color + 1) % PALETTE_LEN;
        palette_color(offset)
    }
}

/// Times never decrease along the sequence.
pub open spec fn time_sorted(s: Seq<Datum>) -> bool {
    forall|i: int, j: int| 0 <= i <= j < s.len() ==> s[i].time_ns <= s[j].time_ns
}

/// Where a datum at time `t` goes: after every datum at or before `t`
/// (counted from the back, so that arrival order breaks ties).
pub open spec fn insertion_point(s: Seq<Datum>, t: u64) -> nat
    decreases s.len(),
{
    if s.len() == 0 {
        0
    } else if s.last().time_ns <= t {
        s.len()
    } else {
        insertion_point(s.drop_last(), t)
    }
}

/// A series after a new datum arrives.
pub open spec fn insert_by_time(s: Seq<Datum>, d: Datum) -> Seq<Datum> {
    s.insert(insertion_point(s, d.time_ns) as int, d)
}

/// A series without its leading data older than `cutoff`.
pub open spec fn from_cutoff(s: Seq<Datum>, cutoff: u64) -> Seq<Datum>
    decreases s.len(),
{
    if s.len() > 0 && s[0].time_ns < cutoff {
        from_cutoff(s.drop_first(), cutoff)
    } else {
        s
    }
}

/// The number of series whose label comes before `label`, counted from the back.
pub open spec fn label_rank(v: Seq<SeriesView>, label: Seq<char>) -> nat
    decreases v.len(),
{
    if v.len() == 0 {
        0
    } else if label_lt(v.last().0, label) {
        v.len()
    } else {
        label_rank(v.drop_last(), label)
    }
}

/// The series after a datum for `label` arrives.
pub open spec fn pushed(v: Seq<SeriesView>, label: Seq<char>, d: Datum) -> Seq<SeriesView> {
    let p = label_rank(v, label) as int;
    if p < v.len() && v[p].0 == label {
        v.update(p, (label, insert_by_time(v[p].1, d)))
    } else {
        v.insert(p, (label, seq![d]))
    }
}

/// The series after trimming at `cutoff`: each loses its data older than
/// `cutoff`, and those left empty are gone.
pub open spec fn trimmed(v: Seq<SeriesView>, cutoff: u64) -> Seq<SeriesView>
    decreases v.len(),
{
    if v.len() == 0 {
        seq![]
    } else {
        let rest = trimmed(v.drop_first(), cutoff);
        let kept = from_cutoff(v[0].1, cutoff);
        if kept.len() > 0 {
            seq![(v[0].0, kept)] + rest
        } else {
            rest
        }
    }
}

/// Series ordered by label, each time-ordered and not empty.
pub open spec fn series_wf(v: Seq<SeriesView>) -> bool {
    &&& forall|i: int, j: int| 0 <= i < j < v.len() ==> label_lt(#[trigger] v[i].0, #[trigger] v[j].0)
    &&& forall|i: int| 0 <= i < v.len() ==> time_sorted(#[trigger] v[i].1)
    &&& forall|i: int| 0 <= i < v.len() ==> (#[trigger] v[i].1).len() > 0
}

/// The display settings of `label`, if it has been seen.
pub open spec fn config_of(c: Seq<(Seq<char>, DisplayConfig)>, label: Seq<char>) -> Option<
    DisplayConfig,
>
    decreases c.len(),
{
    if c.len() == 0 {
        None
    } else if c.last().0 == label {
        Some(c.last().1)
    } else {
        config_of(c.drop_last(), label)
    }
}

/// The display settings after a datum for `label` arrives, when the color
/// pool stands at `pool`.
pub open spec fn configs_after_push(
    c: Seq<(Seq<char>, DisplayConfig)>,
    pool: nat,
    label: Seq<char>,
) -> Seq<(Seq<char>, DisplayConfig)> {
    if config_of(c, label) is Some {
        c
    } else {
        c.push((label, DisplayConfig { visible: true, color: palette(pool as int) }))
    }
}

pub open spec fn series_view_of(s: Series) -> SeriesView {
    (s.label@, s.data@)
}

impl Freezable {
    pub open spec fn view(&self) -> Seq<SeriesView> {
        self.series@.map_values(|s: Series| series_view_of(s))
    }

    pub open spec fn wf(&self) -> bool {
        series_wf(self.view())
    }

    pub fn new() -> (r: Freezable)
        ensures
            r.view() == Seq::<SeriesView>::empty(),
            r.wf(),
    {
        Freezable { series: Vec::new() }
    }

    /// A deep copy: the frozen view of the data at this moment.
    pub fn snapshot(&self) -> (r: Freezable)
        ensures
            r.view() == self.view(),
    {
        let mut out: Vec<Series> = Vec::new();
        let mut i: usize = 0;
        while i < self.series.len()
            invariant
                i <= self.series@.len(),
                out@.map_values(|s: Series| series_view_of(s)) =~= self.view().take(i as int),
            decreases self.series@.len() - i,
        {
            let s = &self.series[i];
            let mut data: Vec<Datum> = Vec::new();
            let mut j: usize = 0;
            while j < s.data.len()
                invariant
                    j <= s.data@.len(),
                    data@ =~= s.data@.take(j as int),
                decreases s.data@.len() - j,
            {
                data.push(s.data[j]);
                j = j + 1;
            }
            proof {
                assert(data@ =~= s.data@);
            }
            let ghost before = out@;
            out.push(Series { label: s.label.clone(), data });
            proof {
                assert(out@ =~= before.push(out@.last()));
                assert(series_view_of(out@.last()) == self.view()[i as int]);
                assert(self.view().take(i + 1) =~= self.view().take(i as int).push(self.view()[i as int]));
                assert(out@.map_values(|s: Series| series_view_of(s)) =~= before.map_values(|s: Series| series_view_of(s)).push(series_view_of(out@.last())));
            }
            i = i + 1;
        }
        proof {
            assert(self.view().take(self.series@.len() as int) =~= self.view());
        }
        Freezable { series: out }
    }
}

/// The first position whose time is not before `cutoff`, by binary search.
fn partition_point(s: &Vec<Datum>, cutoff: u64) -> (k: usize)
    requires
        time_sorted(s@),
    ensures
        k <= s@.len(),
        forall|i: int| 0 <= i < k ==> s@[i].time_ns < cutoff,
        forall|i: int| k <= i < s@.len() ==> s@[i].time_ns >= cutoff,
{
    let mut lo: usize = 0;
    let mut hi: usize = s.len();
    while lo < hi
        invariant
            lo <= hi <= s@.len(),
            time_sorted(s@),
            forall|i: int| 0 <= i < lo ==> s@[i].time_ns < cutoff,
            forall|i: int| hi <= i < s@.len() ==> s@[i].time_ns >= cutoff,
        decreases hi - lo,
    {
        let mid = lo + (hi - lo) / 2;
        if s[mid].time_ns < cutoff {
            lo = mid + 1;
        } else {
            hi = mid;
        }
    }
    lo
}

proof fn lemma_from_cutoff_skip(s: Seq<Datum>, cutoff: u64, k: int)
    requires
        0 <= k <= s.len(),
        forall|i: int| 0 <= i < k ==> s[i].time_ns < cutoff,
        forall|i: int| k <= i < s.len() ==> s[i].time_ns >= cutoff,
    ensures
        from_cutoff(s, cutoff) == s.skip(k),
    decreases k,
{
    if k == 0 {
        assert(s.skip(0) =~= s);
    } else {
        let t = s.drop_first();
        assert forall|i: int| 0 <= i < k - 1 implies t[i].time_ns < cutoff by {
            assert(t[i] == s[i + 1]);
        }
        assert forall|i: int| k - 1 <= i < t.len() implies t[i].time_ns >= cutoff by {
            assert(t[i] == s[i + 1]);
        }
        lemma_from_cutoff_skip(t, cutoff, k - 1);
        assert(t.skip(k - 1) =~= s.skip(k));
    }
}

proof fn lemma_insertion_point(s: Seq<Datum>, t: u64)
    ensures
        insertion_point(s, t) <= s.len(),
        forall|i: int| insertion_point(s, t) <= i < s.len() ==> s[i].time_ns > t,
        insertion_point(s, t) > 0 ==> s[insertion_point(s, t) - 1].time_ns <= t,
    decreases s.len(),
{
    if s.len() > 0 && s.last().time_ns > t {
        let w = s.drop_last();
        lemma_insertion_point(w, t);
        assert forall|i: int| insertion_point(s, t) <= i < s.len() implies s[i].time_ns > t by {
            if i < w.len() {
                assert(w[i] == s[i]);
            }
        }
        if insertion_point(s, t) > 0 {
            assert(w[insertion_point(s, t) - 1] == s[insertion_point(s, t) - 1]);
        }
    }
}

proof fn lemma_insert_keeps_sorted(s: Seq<Datum>, d: Datum)
    requires
        time_sorted(s),
    ensures
        time_sorted(insert_by_time(s, d)),
        insert_by_time(s, d).len() > 0,
{
    lemma_insertion_point(s, d.time_ns);
    let k = insertion_point(s, d.time_ns) as int;
    let r = insert_by_time(s, d);
    assert forall|i: int, j: int| 0 <= i <= j < r.len() implies r[i].time_ns <= r[j].time_ns by {
        if i < k {
            assert(r[i] == s[i]);
        } else if i > k {
            assert(r[i] == s[i - 1]);
        }
        if j < k {
            assert(r[j] == s[j]);
        } else if j > k {
            assert(r[j] == s[j - 1]);
        }
        if i < k && j == k {
            assert(s[i].time_ns <= s[k - 1].time_ns);
        }
    }
}

proof fn lemma_label_rank(v: Seq<SeriesView>, label: Seq<char>)
    requires
        series_wf(v),
    ensures
        label_rank(v, label) <= v.len(),
        forall|i: int| 0 <= i < label_rank(v, label) ==> label_lt(#[trigger] v[i].0, label),
        forall|i: int| label_rank(v, label) <= i < v.len() ==> !label_lt(#[trigger] v[i].0, label),
    decreases v.len(),
{
    if v.len() > 0 {
        let r = label_rank(v, label) as int;
        if label_lt(v.last().0, label) {
            assert forall|i: int| 0 <= i < r implies label_lt(#[trigger] v[i].0, label) by {
                if i < v.len() - 1 {
                    lemma_bytes_lt_transitive(
                        label_bytes(v[i].0),
                        label_bytes(v.last().0),
                        label_bytes(label),
                    );
                }
            }
        } else {
            let w = v.drop_last();
            assert(series_wf(w)) by {
                assert forall|i: int| 0 <= i < w.len() implies #[trigger] w[i] == v[i] by {}
            }
            lemma_label_rank(w, label);
            assert forall|i: int| 0 <= i < r implies label_lt(#[trigger] v[i].0, label) by {
                assert(w[i] == v[i]);
            }
            assert forall|i: int| r <= i < v.len() implies !label_lt(#[trigger] v[i].0, label) by {
                if i < w.len() {
                    assert(w[i] == v[i]);
                }
            }
        }
    }
}

/// Pushing keeps the series ordered, time-ordered and not empty, and adds no
/// label but the pushed one.
proof fn lemma_pushed_wf(v: Seq<SeriesView>, label: Seq<char>, d: Datum)
    requires
        series_wf(v),
    ensures
        series_wf(pushed(v, label, d)),
        forall|i: int|
            0 <= i < pushed(v, label, d).len() ==> (#[trigger] pushed(v, label, d)[i]).0 == label
                || exists|j: int| 0 <= j < v.len() && v[j].0 == pushed(v, label, d)[i].0,
{
    lemma_label_rank(v, label);
    let p = label_rank(v, label) as int;
    let w = pushed(v, label, d);
    if p < v.len() && v[p].0 == label {
        lemma_insert_keeps_sorted(v[p].1, d);
        assert forall|i: int, j: int| 0 <= i < j < w.len() implies label_lt(
            #[trigger] w[i].0,
            #[trigger] w[j].0,
        ) by {
            assert(w[i].0 == v[i].0 && w[j].0 == v[j].0);
        }
        assert forall|i: int| 0 <= i < w.len() implies time_sorted(#[trigger] w[i].1) && w[i].1.len()
            > 0 by {
            if i != p {
                assert(w[i] == v[i]);
            }
        }
        assert forall|i: int|
            0 <= i < w.len() implies (#[trigger] w[i]).0 == label || exists|j: int|
                0 <= j < v.len() && v[j].0 == w[i].0 by {
            assert(v[i].0 == w[i].0);
        }
    } else {
        if p < v.len() {
            lemma_label_lt_total(v[p].0, label);
        }
        assert forall|i: int, j: int| 0 <= i < j < w.len() implies label_lt(
            #[trigger] w[i].0,
            #[trigger] w[j].0,
        ) by {
            if j < p {
                assert(w[i] == v[i] && w[j] == v[j]);
            } else if j == p {
                assert(w[i] == v[i]);
            } else {
                assert(w[j] == v[j - 1]);
                if j - 1 > p {
                    assert(label_lt(v[p].0, v[j - 1].0));
                    lemma_bytes_lt_transitive(
                        label_bytes(label),
                        label_bytes(v[p].0),
                        label_bytes(v[j - 1].0),
                    );
                }
                if i < p {
                    assert(w[i] == v[i]);
                    lemma_bytes_lt_transitive(
                        label_bytes(v[i].0),
                        label_bytes(label),
                        label_bytes(v[j - 1].0),
                    );
                } else if i > p {
                    assert(w[i] == v[i - 1]);
                }
            }
        }
        assert forall|i: int| 0 <= i < w.len() implies time_sorted(#[trigger] w[i].1) && w[i].1.len()
            > 0 by {
            if i < p {
                assert(w[i] == v[i]);
            } else if i > p {
                assert(w[i] == v[i - 1]);
            }
        }
        assert forall|i: int|
            0 <= i < w.len() implies (#[trigger] w[i]).0 == label || exists|j: int|
                0 <= j < v.len() && v[j].0 == w[i].0 by {
            if i < p {
                assert(v[i].0 == w[i].0);
            } else if i > p {
                assert(v[i - 1].0 == w[i].0);
            }
        }
    }
}

proof fn lemma_config_of_push(
    c: Seq<(Seq<char>, DisplayConfig)>,
    e: (Seq<char>, DisplayConfig),
    label: Seq<char>,
)
    ensures
        config_of(c.push(e), label) == if e.0 == label {
            Some(e.1)
        } else {
            config_of(c, label)
        },
{
    assert(c.push(e).drop_last() =~= c);
}

impl Cache {
    pub open spec fn series_view(&self) -> Seq<SeriesView> {
        self.data.view()
    }

    pub open spec fn configs(&self) -> Seq<(Seq<char>, DisplayConfig)> {
        self.disp_config@.map_values(|c: LabelConfig| (c.label@, c.config))
    }

    pub closed spec fn pool(&self) -> nat {
        self.color_pool.position()
    }

    pub open spec fn wf(&self) -> bool {
        &&& self.data.wf()
        &&& self.pool_wf()
        &&& forall|i: int|
            0 <= i < self.series_view().len() ==> (config_of(
                self.configs(),
                #[trigger] self.series_view()[i].0,
            ) is Some)
    }

    pub closed spec fn pool_wf(&self) -> bool {
        self.color_pool.wf()
    }

    pub fn new() -> (r: Cache)
        ensures
            r.wf(),
            r.series_view() == Seq::<SeriesView>::empty(),
            r.configs() == Seq::<(Seq<char>, DisplayConfig)>::empty(),
            r.pool() == 0,
    {
        let r = Cache { data: Freezable::new(), disp_config: Vec::new(), color_pool: ColorPool::new() };
        proof {
            assert(r.configs() =~= Seq::<(Seq<char>, DisplayConfig)>::empty());
        }
        r
    }

    /// The display settings of `label`, if it has been seen.
    pub fn config(&self, label: &String) -> (r: Option<DisplayConfig>)
        ensures
            r == config_of(self.configs(), label@),
    {
        let mut i: usize = self.disp_config.len();
        proof {
            assert(self.configs().take(i as int) =~= self.configs());
        }
        while i > 0
            invariant
                i <= self.disp_config@.len(),
                config_of(self.configs(), label@) == config_of(
                    self.configs().take(i as int),
                    label@,
                ),
            decreases i,
        {
            proof {
                assert(self.configs().take(i as int).drop_last() =~= self.configs().take(
                    i - 1,
                ));
            }
            if self.disp_config[i - 1].label == *label {
                return Some(self.disp_config[i - 1].config);
            }
            i = i - 1;
        }
        None
    }

    /// Stores a sample: its label gets display settings the first time it is
    /// seen, and the datum goes into the label's series by time.
    pub fn push_message(&mut self, message: Message)
        requires
            old(self).wf(),
        ensures
            final(self).wf(),
            final(self).series_view() == pushed(
                old(self).series_view(),
                message.label@,
                Datum { time_ns: message.time_ns, value_bits: message.value_bits },
            ),
            final(self).configs() == configs_after_push(
                old(self).configs(),
                old(self).pool(),
                message.label@,
            ),
            final(self).pool() == if config_of(old(self).configs(), message.label@) is Some {
                old(self).pool()
            } else {
                (old(self).pool() + 1) % (PALETTE_LEN as nat)
            },
    {
        let ghost old_configs = self.configs();
        let known = self.config(&message.label);
        if known.is_none() {
            let color = self.color_pool.next();
            self.disp_config.push(
                LabelConfig {
                    label: message.label.clone(),
                    config: DisplayConfig { visible: true, color },
                },
            );
            proof {
                assert(self.configs() =~= old_configs.push(
                    (message.label@, DisplayConfig { visible: true, color }),
                ));
            }
        }
        proof {
            assert forall|l: Seq<char>| config_of(old_configs, l) is Some implies config_of(
                self.configs(),
                l,
            ) is Some by {
                if known.is_none() {
                    lemma_config_of_push(
                        old_configs,
                        (message.label@, DisplayConfig { visible: true, color: palette(old(self).pool() as int) }),
                        l,
                    );
                }
            }
            if known.is_none() {
                lemma_config_of_push(
                    old_configs,
                    (message.label@, DisplayConfig { visible: true, color: palette(old(self).pool() as int) }),
                    message.label@,
                );
            }
        }
        let d = Datum { time_ns: message.time_ns, value_bits: message.value_bits };
        self.insert_datum(message.label, d);
    }

    fn insert_datum(&mut self, label: String, d: Datum)
        requires
            old(self).data.wf(),
            old(self).pool_wf(),
            forall|i: int|
                0 <= i < old(self).series_view().len() ==> (config_of(
                    old(self).configs(),
                    #[trigger] old(self).series_view()[i].0,
                ) is Some),
            config_of(old(self).configs(), label@) is Some,
        ensures
            final(self).wf(),
            final(self).series_view() == pushed(old(self).series_view(), label@, d),
            final(self).configs() == old(self).configs(),
            final(self).pool() == old(self).pool(),
    {
        let ghost v = self.series_view();
        proof {
            lemma_label_rank(v, label@);
            lemma_pushed_wf(v, label@, d);
        }
        let mut p: usize = self.data.series.len();
        proof {
            assert(v.take(p as int) =~= v);
        }
        while p > 0
            invariant
                p <= self.data.series@.len(),
                v == self.series_view(),
                label_rank(v, label@) == label_rank(v.take(p as int), label@),
            ensures
                p <= self.data.series@.len(),
                label_rank(v, label@) == label_rank(v.take(p as int), label@),
                p == 0 || label_lt(v[p - 1].0, label@),
            decreases p,
        {
            proof {
                assert(v.take(p as int).drop_last() =~= v.take(p - 1));
            }
            if compare_labels(&self.data.series[p - 1].label, &label) == -1 {
                proof {
                    assert(v.take(p as int).last() == v[p - 1]);
                }
                break;
            }
            p = p - 1;
        }
        proof {
            lemma_rank_prefix(v, label@, p as int);
        }
        if p < self.data.series.len() && compare_labels(&self.data.series[p].label, &label) == 0 {
            let mut series = Series { label: String::new(), data: Vec::new() };
            std::mem::swap(&mut series, &mut self.data.series[p]);
            let ghost old_data = series.data@;
            let mut k: usize = series.data.len();
            proof {
                assert(old_data.take(k as int) =~= old_data);
            }
            while k > 0
                invariant
                    k <= series.data@.len(),
                    series.data@ == old_data,
                    insertion_point(old_data, d.time_ns) == insertion_point(
                        old_data.take(k as int),
                        d.time_ns,
                    ),
                ensures
                    k <= series.data@.len(),
                    series.data@ == old_data,
                    insertion_point(old_data, d.time_ns) == insertion_point(
                        old_data.take(k as int),
                        d.time_ns,
                    ),
                    k == 0 || old_data[k - 1].time_ns <= d.time_ns,
                decreases k,
            {
                proof {
                    assert(old_data.take(k as int).drop_last() =~= old_data.take(k - 1));
                }
                if series.data[k - 1].time_ns <= d.time_ns {
                    break;
                }
                k = k - 1;
            }
            proof {
                lemma_insertion_prefix(old_data, d.time_ns, k as int);
            }
            series.data.insert(k, d);
            std::mem::swap(&mut series, &mut self.data.series[p]);
            proof {
                assert(self.series_view() =~= pushed(v, label@, d));
            }
        } else {
            let mut data: Vec<Datum> = Vec::new();
            data.push(d);
            let ghost lab = label@;
            self.data.series.insert(p, Series { label, data });
            proof {
                assert(self.series_view() =~= pushed(v, lab, d));
            }
        }
        proof {
            let w = self.series_view();
            assert forall|i: int| 0 <= i < w.len() implies (config_of(
                self.configs(),
                #[trigger] w[i].0,
            ) is Some) by {
                if w[i].0 != label@ {
                    let j = choose|j: int| 0 <= j < v.len() && v[j].0 == w[i].0;
                    assert(config_of(self.configs(), v[j].0) is Some);
                }
            }
        }
    }

    /// Drops from every series the data older than `cutoff`, then every
    /// series left empty. Display settings are kept.
    pub fn trim(&mut self, cutoff: u64)
        requires
            old(self).wf(),
        ensures
            final(self).wf(),
            final(self).series_view() == trimmed(old(self).series_view(), cutoff),
            final(self).configs() == old(self).configs(),
            final(self).pool() == old(self).pool(),
            forall|i: int, j: int|
                #![trigger final(self).series_view()[i].1[j]]
                0 <= i < final(self).series_view().len() && 0 <= j < final(self).series_view()[i].1.len()
                    ==> final(self).series_view()[i].1[j].time_ns >= cutoff,
            forall|i: int|
                #![trigger final(self).series_view()[i]]
                0 <= i < final(self).series_view().len() ==> final(self).series_view()[i].1.len() > 0,
    {
        let ghost v = self.series_view();
        let mut rest: Vec<Series> = Vec::new();
        std::mem::swap(&mut rest, &mut self.data.series);
        let mut out: Vec<Series> = Vec::new();
        proof {
            assert(out@.map_values(|s: Series| series_view_of(s)) =~= Seq::<SeriesView>::empty());
            assert(rest@.map_values(|s: Series| series_view_of(s)) =~= v);
        }
        while rest.len() > 0
            invariant
                out@.map_values(|s: Series| series_view_of(s)) + trimmed(
                    rest@.map_values(|s: Series| series_view_of(s)),
                    cutoff,
                ) == trimmed(v, cutoff),
                series_wf(rest@.map_values(|s: Series| series_view_of(s))),
            decreases rest@.len(),
        {
            let ghost rv = rest@.map_values(|s: Series| series_view_of(s));
            let mut s = rest.remove(0);
            proof {
                assert(rest@.map_values(|s: Series| series_view_of(s)) =~= rv.drop_first());
                assert(rv[0] == series_view_of(s));
                assert(time_sorted(rv[0].1));
            }
            let k = partition_point(&s.data, cutoff);
            proof {
                lemma_from_cutoff_skip(s.data@, cutoff, k as int);
                let w = rv.drop_first();
                assert forall|i: int, j: int| 0 <= i < j < w.len() implies label_lt(
                    #[trigger] w[i].0,
                    #[trigger] w[j].0,
                ) by {
                    assert(w[i] == rv[i + 1] && w[j] == rv[j + 1]);
                }
                assert forall|i: int| 0 <= i < w.len() implies time_sorted(#[trigger] w[i].1)
                    && w[i].1.len() > 0 by {
                    assert(w[i] == rv[i + 1]);
                }
            }
            if k < s.data.len() {
                let tail = s.data.split_off(k);
                let ghost o = out@.map_values(|s: Series| series_view_of(s));
                out.push(Series { label: s.label, data: tail });
                proof {
                    assert(out@.map_values(|s: Series| series_view_of(s)) =~= o.push(
                        (rv[0].0, from_cutoff(rv[0].1, cutoff)),
                    ));
                    assert(o.push((rv[0].0, from_cutoff(rv[0].1, cutoff))) + trimmed(
                        rv.drop_first(),
                        cutoff,
                    ) =~= o + trimmed(rv, cutoff));
                }
            } else {
                proof {
                    assert(from_cutoff(rv[0].1, cutoff).len() == 0);
                }
            }
        }
        proof {
            assert(rest@.map_values(|s: Series| series_view_of(s)) =~= Seq::<SeriesView>::empty());
            assert(out@.map_values(|s: Series| series_view_of(s)) =~= trimmed(v, cutoff));
        }
        self.data.series = out;
        proof {
            lemma_trimmed_wf(v, cutoff);
            let w = self.series_view();
            assert forall|i: int| 0 <= i < w.len() implies (config_of(
                self.configs(),
                #[trigger] w[i].0,
            ) is Some) by {
                lemma_trimmed_from(v, cutoff, i);
            }
        }
    }
}

proof fn lemma_rank_prefix(v: Seq<SeriesView>, label: Seq<char>, p: int)
    requires
        0 <= p <= v.len(),
        label_rank(v, label) == label_rank(v.take(p), label),
        p == 0 || label_lt(v[p - 1].0, label),
    ensures
        label_rank(v, label) == p,
{
    if p > 0 {
        assert(v.take(p).last() == v[p - 1]);
    }
}

proof fn lemma_insertion_prefix(s: Seq<Datum>, t: u64, k: int)
    requires
        0 <= k <= s.len(),
        insertion_point(s, t) == insertion_point(s.take(k), t),
        k == 0 || s[k - 1].time_ns <= t,
    ensures
        insertion_point(s, t) == k,
{
    if k > 0 {
        assert(s.take(k).last() == s[k - 1]);
    }
}

proof fn lemma_from_cutoff_bounds(s: Seq<Datum>, cutoff: u64)
    requires
        time_sorted(s),
    ensures
        time_sorted(from_cutoff(s, cutoff)),
        forall|j: int|
            0 <= j < from_cutoff(s, cutoff).len() ==> #[trigger] from_cutoff(s, cutoff)[j].time_ns
                >= cutoff,
    decreases s.len(),
{
    if s.len() > 0 && s[0].time_ns < cutoff {
        let t = s.drop_first();
        assert forall|i: int, j: int| 0 <= i <= j < t.len() implies t[i].time_ns
            <= t[j].time_ns by {
            assert(t[i] == s[i + 1] && t[j] == s[j + 1]);
        }
        lemma_from_cutoff_bounds(t, cutoff);
    } else if s.len() > 0 {
        assert forall|j: int| 0 <= j < s.len() implies #[trigger] s[j].time_ns >= cutoff by {
            assert(s[0].time_ns <= s[j].time_ns);
        }
    }
}

/// Every series that survives a trim comes from a series of the same label.
proof fn lemma_trimmed_from(v: Seq<SeriesView>, cutoff: u64, i: int)
    requires
        0 <= i < trimmed(v, cutoff).len(),
    ensures
        exists|j: int| 0 <= j < v.len() && #[trigger] v[j].0 == trimmed(v, cutoff)[i].0,
    decreases v.len(),
{
    let rest = trimmed(v.drop_first(), cutoff);
    let kept = from_cutoff(v[0].1, cutoff);
    if kept.len() > 0 && i == 0 {
        assert(v[0].0 == trimmed(v, cutoff)[i].0);
    } else {
        let i2 = if kept.len() > 0 {
            i - 1
        } else {
            i
        };
        assert(trimmed(v, cutoff)[i] == rest[i2]);
        lemma_trimmed_from(v.drop_first(), cutoff, i2);
        let j = choose|j: int| 0 <= j < v.drop_first().len() && #[trigger] v.drop_first()[j].0 == rest[i2].0;
        assert(v[j + 1].0 == trimmed(v, cutoff)[i].0);
    }
}

proof fn lemma_trimmed_wf(v: Seq<SeriesView>, cutoff: u64)
    requires
        series_wf(v),
    ensures
        series_wf(trimmed(v, cutoff)),
        forall|i: int, j: int|
            0 <= i < trimmed(v, cutoff).len() && 0 <= j < trimmed(v, cutoff)[i].1.len()
                ==> #[trigger] trimmed(v, cutoff)[i].1[j].time_ns >= cutoff,
    decreases v.len(),
{
    if v.len() > 0 {
        let w = v.drop_first();
        assert(series_wf(w)) by {
            assert forall|i: int, j: int| 0 <= i < j < w.len() implies label_lt(
                #[trigger] w[i].0,
                #[trigger] w[j].0,
            ) by {
                assert(w[i] == v[i + 1] && w[j] == v[j + 1]);
            }
            assert forall|i: int| 0 <= i < w.len() implies time_sorted(#[trigger] w[i].1)
                && w[i].1.len() > 0 by {
                assert(w[i] == v[i + 1]);
            }
        }
        lemma_trimmed_wf(w, cutoff);
        let rest = trimmed(w, cutoff);
        let kept = from_cutoff(v[0].1, cutoff);
        lemma_from_cutoff_bounds(v[0].1, cutoff);
        if kept.len() > 0 {
            let r = trimmed(v, cutoff);
            assert(r == seq![(v[0].0, kept)] + rest);
            assert forall|i: int| 0 <= i < rest.len() implies label_lt(v[0].0, #[trigger] rest[i].0) by {
                lemma_trimmed_from(w, cutoff, i);
                let j = choose|j: int| 0 <= j < w.len() && #[trigger] w[j].0 == rest[i].0;
                assert(w[j] == v[j + 1]);
            }
            assert forall|i: int, j: int| 0 <= i < j < r.len() implies label_lt(
                #[trigger] r[i].0,
                #[trigger] r[j].0,
            ) by {
                if i == 0 {
                    assert(r[j] == rest[j - 1]);
                } else {
                    assert(r[i] == rest[i - 1] && r[j] == rest[j - 1]);
                }
            }
            assert forall|i: int| 0 <= i < r.len() implies time_sorted(#[trigger] r[i].1)
                && r[i].1.len() > 0 by {
                if i > 0 {
                    assert(r[i] == rest[i - 1]);
                }
            }
            assert forall|i: int, j: int|
                0 <= i < r.len() && 0 <= j < r[i].1.len() implies #[trigger] r[i].1[j].time_ns
                >= cutoff by {
                if i > 0 {
                    assert(r[i] == rest[i - 1]);
                }
            }
        }
    }
}

/// One channel value moved by 5, saturating at 0 and 255.
pub open spec fn nudged_channel(v: u8, up: bool) -> u8 {
    if up {
        if v + 5 > 255 {
            255
        } else {
            (v + 5) as u8
        }
    } else {
        if v < 5 {
            0
        } else {
            (v - 5) as u8
        }
    }
}

/// A color with one channel moved by 5, saturating at 0 and 255.
pub open spec fn nudged(color: [u8; 3], channel: int, up: bool) -> [u8; 3] {
    let r = color@[0];
    let g = color@[1];
    let b = color@[2];
    if channel == 0 {
        [nudged_channel(r, up), g, b]
    } else if channel == 1 {
        [r, nudged_channel(g, up), b]
    } else {
        [r, g, nudged_channel(b, up)]
    }
}

fn nudge_channel(v: u8, up: bool) -> (r: u8)
    ensures
        r == nudged_channel(v, up),
{
    if up {
        v.saturating_add(5)
    } else {
        v.saturating_sub(5)
    }
}

/// `c1` is `c0` with `label`'s color nudged on `channel`, where `label` has
/// display settings.
pub open spec fn nudged_configs(
    c0: Seq<(Seq<char>, DisplayConfig)>,
    c1: Seq<(Seq<char>, DisplayConfig)>,
    label: Seq<char>,
    channel: int,
    up: bool,
) -> bool {
    forall|l: Seq<char>|
        #[trigger] config_of(c1, l) == if l == label && config_of(c0, l) is Some {
            Some(
                DisplayConfig {
                    color: nudged(config_of(c0, l).unwrap().color, channel, up),
                    ..config_of(c0, l).unwrap()
                },
            )
        } else {
            config_of(c0, l)
        }
}

proof fn lemma_config_of_update(
    c: Seq<(Seq<char>, DisplayConfig)>,
    i: int,
    e: (Seq<char>, DisplayConfig),
    l: Seq<char>,
)
    requires
        0 <= i < c.len(),
        c[i].0 == e.0,
        forall|j: int| i < j < c.len() ==> (#[trigger] c[j]).0 != e.0,
    ensures
        config_of(c.update(i, e), l) == if l == e.0 {
            Some(e.1)
        } else {
            config_of(c, l)
        },
    decreases c.len(),
{
    let u = c.update(i, e);
    if i == c.len() - 1 {
        assert(u.drop_last() =~= c.drop_last());
    } else {
        assert(u.drop_last() =~= c.drop_last().update(i, e));
        lemma_config_of_update(c.drop_last(), i, e, l);
    }
}

impl Cache {
    /// Moves one channel (0 red, 1 green, 2 blue) of `label`'s color by 5,
    /// up or down; a label with no settings is left as it is.
    pub fn nudge_color(&mut self, label: &String, channel: usize, up: bool)
        requires
            old(self).wf(),
            channel < 3,
        ensures
            final(self).wf(),
            final(self).series_view() == old(self).series_view(),
            final(self).pool() == old(self).pool(),
            nudged_configs(old(self).configs(), final(self).configs(), label@, channel as int, up),
    {
        let ghost c = self.configs();
        let mut i: usize = self.disp_config.len();
        proof {
            assert(c.take(i as int) =~= c);
        }
        while i > 0
            invariant
                i <= self.disp_config@.len(),
                *self == *old(self),
                old(self).wf(),
                channel < 3,
                c == self.configs(),
                config_of(c, label@) == config_of(c.take(i as int), label@),
                forall|j: int| i <= j < c.len() ==> (#[trigger] c[j]).0 != label@,
            decreases i,
        {
            proof {
                assert(c.take(i as int).drop_last() =~= c.take(i - 1));
            }
            if self.disp_config[i - 1].label == *label {
                let mut entry = LabelConfig {
                    label: String::new(),
                    config: DisplayConfig { visible: false, color: [0, 0, 0] },
                };
                std::mem::swap(&mut entry, &mut self.disp_config[i - 1]);
                let old_color = entry.config.color;
                let r = old_color[0];
                let g = old_color[1];
                let b = old_color[2];
                entry.config.color = if channel == 0 {
                    [nudge_channel(r, up), g, b]
                } else if channel == 1 {
                    [r, nudge_channel(g, up), b]
                } else {
                    [r, g, nudge_channel(b, up)]
                };
                let ghost e = (entry.label@, entry.config);
                std::mem::swap(&mut entry, &mut self.disp_config[i - 1]);
                proof {
                    assert(self.series_view() == old(self).series_view());
                    assert(self.configs() =~= c.update(i - 1, e));
                    assert(c.take(i as int).last() == c[i - 1]);
                    assert forall|l: Seq<char>| #[trigger] config_of(self.configs(), l)
                        == if l == label@ && config_of(c, l) is Some {
                        Some(
                            DisplayConfig {
                                color: nudged(config_of(c, l).unwrap().color, channel as int, up),
                                ..config_of(c, l).unwrap()
                            },
                        )
                    } else {
                        config_of(c, l)
                    } by {
                        lemma_config_of_update(c, i - 1, e, l);
                    }
                    assert(nudged_configs(c, self.configs(), label@, channel as int, up));
                    assert forall|k: int| 0 <= k < self.series_view().len() implies (config_of(
                        self.configs(),
                        #[trigger] self.series_view()[k].0,
                    ) is Some) by {
                        assert(self.series_view()[k] == old(self).series_view()[k]);
                        assert(old(self).wf());
                        assert(0 <= k < old(self).series_view().len());
                        assert(config_of(old(self).configs(), old(self).series_view()[k].0) is Some);
                        assert(c == old(self).configs());
                        lemma_config_of_update(c, i - 1, e, self.series_view()[k].0);
                    }
                }
                return;
            }
            i = i - 1;
        }
        proof {
            assert(config_of(c, label@) is None);
            assert(nudged_configs(c, self.configs(), label@, channel as int, up));
        }
    }
}

/// A label's display settings, once given, stay as they are through any
/// later arrival, of that label or another; trimming leaves them as they are.
pub proof fn config_persists(
    c: Seq<(Seq<char>, DisplayConfig)>,
    pool: nat,
    label: Seq<char>,
    other: Seq<char>,
)
    requires
        config_of(c, label) is Some,
    ensures
        config_of(configs_after_push(c, pool, other), label) == config_of(c, label),
{
    if config_of(c, other) is None {
        lemma_config_of_push(
            c,
            (other, DisplayConfig { visible: true, color: palette(pool as int) }),
            label,
        );
    }
}

} // verus!
