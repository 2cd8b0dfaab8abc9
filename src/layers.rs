//! The stack of layers that draw the screen and take the keys: the chart at
//! the bottom, then the legend, the warning console and, on demand, the help
//! overlay. Keys go from the top layer down until one consumes them.
use vstd::prelude::*;
use vstd::string::StringExecFns;
use crate::geometry::{AnchoredPosition, Direction, Gravity, Rect, to_rect_spec, nearest_axis};
use crate::series::{Cache, Message, SeriesView, nudged_configs, pushed, trimmed, Datum};
use crate::viewport::{
    data_to_targets, is_view_key, target_view, targets_spec, view_step, DrawTarget, LayerChart,
    RenderTimeRange, MAX_RETENTION_NS,
};

verus! {

/// A decoded terminal event: a key with its character, or anything else.
#[derive(Clone, Copy, Debug, PartialEq, Eq, Structural)]
pub enum InputEvent {
    Key(char),
    Other,
}

pub open spec fn key_of(ev: InputEvent) -> Option<char> {
    match ev {
        InputEvent::Key(c) => Some(c),
        InputEvent::Other => None,
    }
}

/// Whether a layer took an event, or lets the layers below see it.
#[derive(Clone, Copy, Debug, PartialEq, Eq, Structural)]
pub enum HandleInput {
    Consumed,
    Fallthru,
}

/// A warning in the backlog: when it arrived and what it says.
#[derive(Debug)]
pub struct Warning {
    pub time_ns: u64,
    pub message: String,
}

pub open spec fn warnings_view(v: Seq<Warning>) -> Seq<(u64, Seq<char>)> {
    v.map_values(|w: Warning| (w.time_ns, w.message@))
}

/// What the layers share: the settings, the quit request, the warning
/// backlog, the warnings that layers raise for the sources' channel, and the
/// series cache.
#[derive(Debug)]
pub struct Context {
    pub retention_ns: u64,
    pub warning_backlog_size: usize,
    pub warning_display_ns: u64,
    pub quit: bool,
    pub warnings: Vec<Warning>,
    pub outgoing: Vec<String>,
    pub cache: Cache,
}

impl Context {
    /// The cache is well formed, the retention window fits the viewport,
    /// and the backlog holds no more than its size (one, for a size of 0).
    pub open spec fn wf(&self) -> bool {
        &&& self.cache.wf()
        &&& self.retention_ns <= MAX_RETENTION_NS
        &&& self.warnings@.len() <= backlog_bound(self.warning_backlog_size)
    }

    pub open spec fn warnings_view(&self) -> Seq<(u64, Seq<char>)> {
        warnings_view(self.warnings@)
    }

    pub fn new(retention_ns: u64, warning_backlog_size: usize, warning_display_ns: u64) -> (r:
        Context)
        requires
            retention_ns <= MAX_RETENTION_NS,
        ensures
            r.wf(),
            r.retention_ns == retention_ns,
            r.warning_backlog_size == warning_backlog_size,
            r.warning_display_ns == warning_display_ns,
            !r.quit,
            r.warnings@.len() == 0,
            r.outgoing@.len() == 0,
            r.cache.series_view().len() == 0,
    {
        Context {
            retention_ns,
            warning_backlog_size,
            warning_display_ns,
            quit: false,
            warnings: Vec::new(),
            outgoing: Vec::new(),
            cache: Cache::new(),
        }
    }
}

/// The most warnings a backlog of size `size` holds.
pub open spec fn backlog_bound(size: usize) -> nat {
    if size > 0 {
        size as nat
    } else {
        1
    }
}

/// The backlog after a warning arrives: the oldest goes first when the
/// backlog is full.
pub open spec fn backlog_push(
    v: Seq<(u64, Seq<char>)>,
    size: usize,
    w: (u64, Seq<char>),
) -> Seq<(u64, Seq<char>)> {
    if v.len() >= size && v.len() > 0 {
        v.drop_first().push(w)
    } else {
        v.push(w)
    }
}

/// Keeps a warning in the backlog, dropping the oldest when it is full.
pub fn on_warning(ctx: &mut Context, time_ns: u64, message: String)
    requires
        old(ctx).wf(),
    ensures
        final(ctx).wf(),
        final(ctx).warnings_view() == backlog_push(
            old(ctx).warnings_view(),
            old(ctx).warning_backlog_size,
            (time_ns, message@),
        ),
        final(ctx).cache == old(ctx).cache,
        final(ctx).retention_ns == old(ctx).retention_ns,
        final(ctx).warning_backlog_size == old(ctx).warning_backlog_size,
        final(ctx).warning_display_ns == old(ctx).warning_display_ns,
        final(ctx).quit == old(ctx).quit,
        final(ctx).outgoing == old(ctx).outgoing,
{
    let ghost v = ctx.warnings_view();
    if ctx.warnings.len() >= ctx.warning_backlog_size && ctx.warnings.len() > 0 {
        ctx.warnings.remove(0);
        proof {
            assert(ctx.warnings_view() =~= v.drop_first());
        }
    }
    let ghost before = ctx.warnings@;
    let ghost m = message@;
    ctx.warnings.push(Warning { time_ns, message });
    proof {
        assert(ctx.warnings_view() =~= warnings_view(before).push((time_ns, m)));
    }
}

/// Takes a sample from the sources: the cache is first trimmed to the
/// retention window before `now_ns`, then holds the sample.
pub fn on_sample(ctx: &mut Context, sample: Message, now_ns: u64)
    requires
        old(ctx).wf(),
    ensures
        final(ctx).wf(),
        final(ctx).cache.series_view() == pushed(
            trimmed(
                old(ctx).cache.series_view(),
                if now_ns >= old(ctx).retention_ns {
                    (now_ns - old(ctx).retention_ns) as u64
                } else {
                    0
                },
            ),
            sample.label@,
            Datum { time_ns: sample.time_ns, value_bits: sample.value_bits },
        ),
        final(ctx).retention_ns == old(ctx).retention_ns,
        final(ctx).warnings == old(ctx).warnings,
        final(ctx).quit == old(ctx).quit,
{
    let cutoff = now_ns.saturating_sub(ctx.retention_ns);
    ctx.cache.trim(cutoff);
    ctx.cache.push_message(sample);
}

/// Whether new data warrants a redraw now: only once `interval_ns` has
/// passed since the last one.
pub fn should_redraw(now_ns: u64, last_redraw_ns: u64, interval_ns: u64) -> (r: bool)
    ensures
        r == (now_ns >= last_redraw_ns && now_ns - last_redraw_ns >= interval_ns),
{
    now_ns >= last_redraw_ns && now_ns - last_redraw_ns >= interval_ns
}

/// A deep copy of the warning backlog.
fn copy_warnings(v: &Vec<Warning>) -> (r: Vec<Warning>)
    ensures
        warnings_view(r@) == warnings_view(v@),
{
    let mut out: Vec<Warning> = Vec::new();
    let mut i: usize = 0;
    while i < v.len()
        invariant
            i <= v@.len(),
            warnings_view(out@) == warnings_view(v@).take(i as int),
        decreases v@.len() - i,
    {
        let ghost before = out@;
        out.push(Warning { time_ns: v[i].time_ns, message: v[i].message.clone() });
        proof {
            assert(warnings_view(v@).take(i + 1) =~= warnings_view(v@).take(i as int).push(
                warnings_view(v@)[i as int],
            ));
            assert(warnings_view(out@) =~= warnings_view(before).push(
                (v@[i as int].time_ns, v@[i as int].message@),
            ));
        }
        i = i + 1;
    }
    proof {
        assert(warnings_view(v@).take(v@.len() as int) =~= warnings_view(v@));
    }
    out
}

/// The help overlay.
#[derive(Debug, Clone, Copy, PartialEq, Eq, Structural)]
pub struct LayerHelp;

/// The legend: where it floats, whether it has the focus, the series it
/// points at, whether the next key changes that series' color, and its size
/// when last drawn.
#[derive(Debug)]
pub struct LayerLegend {
    pub position: AnchoredPosition,
    pub layer_focused: bool,
    pub series_focus: Option<String>,
    pub changing_color: bool,
    pub last_dim: (u16, u16),
}

/// The warning console: whether it has the focus, is zoomed, shows a
/// frozen copy of the backlog, and how far it is scrolled back.
#[derive(Debug)]
pub struct LayerWarn {
    pub focused: bool,
    pub zoomed: bool,
    pub freeze: Option<Vec<Warning>>,
    pub offset: usize,
}

/// One layer of the stack.
#[derive(Debug)]
pub enum Layer {
    Base(LayerChart),
    Warn(LayerWarn),
    Help(LayerHelp),
    Legend(LayerLegend),
}

/// A change to the stack that a layer asks for while it handles an event:
/// a new layer `offset` places above it, or its own removal.
#[derive(Debug)]
pub enum LayerCommand {
    Insert(Layer, usize),
    Remove,
}

pub open spec fn layer_wf(l: Layer, retention_ns: u64) -> bool {
    match l {
        Layer::Base(c) => c.wf(retention_ns),
        _ => true,
    }
}

pub open spec fn command_wf(c: LayerCommand, retention_ns: u64) -> bool {
    match c {
        LayerCommand::Insert(l, _) => layer_wf(l, retention_ns),
        LayerCommand::Remove => true,
    }
}

/// What a key does to the chart layer.
pub open spec fn chart_input(
    l0: LayerChart,
    l1: LayerChart,
    c0: Context,
    c1: Context,
    ev: InputEvent,
    k0: Seq<LayerCommand>,
    k1: Seq<LayerCommand>,
    now_ns: u64,
    res: HandleInput,
) -> bool {
    let k = key_of(ev);
    if k == Some('q') {
        c1 == Context { quit: true, ..c0 } && l1 == l0 && k1 == k0 && res == HandleInput::Consumed
    } else if k == Some('?') {
        c1 == c0 && l1 == l0 && k1 == k0.push(LayerCommand::Insert(Layer::Help(LayerHelp), 1))
            && res == HandleInput::Consumed
    } else if k == Some(' ') {
        &&& c1 == c0
        &&& k1 == k0
        &&& res == HandleInput::Consumed
        &&& l1.x_start == l0.x_start && l1.x_end == l0.x_end
        &&& l0.freeze is Some ==> l1.freeze is None
        &&& l0.freeze is None ==> l1.frozen_view() == Some((now_ns, c0.cache.series_view()))
    } else if k is Some && is_view_key(k.unwrap()) {
        &&& c1 == c0
        &&& k1 == k0
        &&& res == HandleInput::Consumed
        &&& l1.freeze == l0.freeze
        &&& (l1.x_start as int, l1.x_end as int) == view_step(
            k.unwrap(),
            l0.x_start as int,
            l0.x_end as int,
            c0.retention_ns as int,
        )
    } else if k == Some('r') {
        &&& c1 == c0
        &&& k1 == k0
        &&& res == HandleInput::Consumed
        &&& l1.freeze == l0.freeze
        &&& l1.x_start == c0.retention_ns && l1.x_end == 0
    } else {
        c1 == c0 && l1 == l0 && k1 == k0 && res == HandleInput::Fallthru
    }
}

/// What a key does to the help overlay.
pub open spec fn help_input(ev: InputEvent, k0: Seq<LayerCommand>, k1: Seq<LayerCommand>, res: HandleInput) -> bool {
    let k = key_of(ev);
    if k == Some('q') {
        k1 == k0.push(LayerCommand::Remove) && res == HandleInput::Consumed
    } else if k == Some('?') {
        k1 == k0 && res == HandleInput::Consumed
    } else {
        k1 == k0 && res == HandleInput::Fallthru
    }
}

pub open spec fn is_scroll_key(c: char) -> bool {
    c == 'j' || c == 'k' || c == 'g' || c == 'G'
}

/// The console's scroll offset after a scroll key, with `len` warnings
/// shown: `j` goes one newer, `k` one older, `g` to the oldest, `G` to the
/// newest.
pub open spec fn scrolled(offset: usize, key: char, len: nat) -> usize {
    let max: int = if len > 0 {
        len - 1
    } else {
        0
    };
    if key == 'j' {
        if offset > 0 {
            (offset - 1) as usize
        } else {
            0
        }
    } else if key == 'k' {
        let up: int = if offset < usize::MAX {
            offset + 1
        } else {
            offset as int
        };
        (if up <= max {
            up
        } else {
            max
        }) as usize
    } else if key == 'g' {
        max as usize
    } else {
        0
    }
}

impl LayerWarn {
    /// The number of warnings the console shows: the frozen copy's, or the
    /// live backlog's.
    pub open spec fn source_len(&self, c: Context) -> nat {
        match self.freeze {
            Some(f) => f@.len(),
            None => c.warnings@.len(),
        }
    }
}

/// What a key does to the warning console.
pub open spec fn warn_input(
    w0: LayerWarn,
    w1: LayerWarn,
    c0: Context,
    ev: InputEvent,
    res: HandleInput,
) -> bool {
    let k = key_of(ev);
    if k == Some('w') {
        w1 == LayerWarn { focused: !w0.focused, zoomed: false, freeze: None, ..w0 } && res
            == HandleInput::Consumed
    } else if w0.focused && k == Some('z') {
        w1 == LayerWarn { zoomed: !w0.zoomed, ..w0 } && res == HandleInput::Consumed
    } else if w0.focused && k == Some(' ') {
        &&& res == HandleInput::Consumed
        &&& w1.focused == w0.focused && w1.zoomed == w0.zoomed && w1.offset == w0.offset
        &&& w0.freeze is Some ==> w1.freeze is None
        &&& w0.freeze is None ==> (w1.freeze matches Some(f) && warnings_view(f@)
            == c0.warnings_view())
    } else if w0.focused && k is Some && is_scroll_key(k.unwrap()) {
        w1 == LayerWarn { offset: scrolled(w0.offset, k.unwrap(), w0.source_len(c0)), ..w0 } && res
            == HandleInput::Consumed
    } else {
        w1 == w0 && res == HandleInput::Fallthru
    }
}

pub open spec fn is_color_key(c: char) -> bool {
    c == 'r' || c == 'R' || c == 'g' || c == 'G' || c == 'b' || c == 'B'
}

/// The color channel a color key moves, and whether up.
pub open spec fn color_key_channel(c: char) -> (int, bool) {
    if c == 'r' {
        (0, true)
    } else if c == 'R' {
        (0, false)
    } else if c == 'g' {
        (1, true)
    } else if c == 'G' {
        (1, false)
    } else if c == 'b' {
        (2, true)
    } else {
        (2, false)
    }
}

/// The position of `name` among `names`, or 0 where it is not there.
pub open spec fn position_or_zero(names: Seq<Seq<char>>, name: Seq<char>) -> int
    decreases names.len(),
{
    if names.len() == 0 {
        0
    } else if names[0] == name {
        0
    } else if exists|i: int| 0 <= i < names.len() && names[i] == name {
        1 + position_or_zero(names.drop_first(), name)
    } else {
        0
    }
}

/// The series the legend points at after `j` (next) or `k` (previous),
/// among `names`, in label order and wrapping around.
pub open spec fn next_focus(names: Seq<Seq<char>>, focus: Option<Seq<char>>, key: char) -> Option<
    Seq<char>,
> {
    let n = names.len() as int;
    if n == 0 {
        None
    } else {
        let i = match focus {
            None => if key == 'j' {
                0
            } else {
                n - 1
            },
            Some(f) => {
                let cur = position_or_zero(names, f);
                if key == 'j' {
                    (cur + 1) % n
                } else {
                    (cur + n - 1) % n
                }
            },
        };
        Some(names[i])
    }
}

pub open spec fn focus_view(f: Option<String>) -> Option<Seq<char>> {
    match f {
        Some(s) => Some(s@),
        None => None,
    }
}

pub open spec fn labels_of(v: Seq<SeriesView>) -> Seq<Seq<char>> {
    v.map_values(|s: SeriesView| s.0)
}

pub open spec fn same_legend_state(a: LayerLegend, b: LayerLegend) -> bool {
    &&& a.position == b.position
    &&& a.layer_focused == b.layer_focused
    &&& focus_view(a.series_focus) == focus_view(b.series_focus)
    &&& a.changing_color == b.changing_color
    &&& a.last_dim == b.last_dim
}

/// The warning raised when a color key comes with no series in focus.
pub open spec fn no_focus_warning() -> Seq<char> {
    "Cannot change color code because no series is selected"@
}

/// What a key does to the legend and the context.
pub open spec fn legend_input(
    l0: LayerLegend,
    l1: LayerLegend,
    c0: Context,
    c1: Context,
    ev: InputEvent,
    frame: Rect,
    res: HandleInput,
) -> bool {
    let k = key_of(ev);
    if l0.changing_color && k is Some && is_color_key(k.unwrap()) {
        &&& res == HandleInput::Consumed
        &&& l1.position == l0.position && l1.layer_focused == l0.layer_focused
        &&& focus_view(l1.series_focus) == focus_view(l0.series_focus)
        &&& !l1.changing_color && l1.last_dim == l0.last_dim
        &&& c1.retention_ns == c0.retention_ns && c1.warnings == c0.warnings && c1.quit == c0.quit
        &&& match l0.series_focus {
            None => {
                &&& c1.cache == c0.cache
                &&& c1.outgoing@.len() == c0.outgoing@.len() + 1
                &&& c1.outgoing@.take(c0.outgoing@.len() as int) == c0.outgoing@
                &&& c1.outgoing@.last()@ == no_focus_warning()
            },
            Some(name) => {
                &&& c1.outgoing == c0.outgoing
                &&& c1.cache.series_view() == c0.cache.series_view()
                &&& c1.cache.pool() == c0.cache.pool()
                &&& nudged_configs(
                    c0.cache.configs(),
                    c1.cache.configs(),
                    name@,
                    color_key_channel(k.unwrap()).0,
                    color_key_channel(k.unwrap()).1,
                )
            },
        }
    } else {
        &&& c1 == c0
        &&& if k == Some('g') {
            l1.layer_focused == !l0.layer_focused && l1.position == l0.position && focus_view(
                l1.series_focus,
            ) == focus_view(l0.series_focus) && l1.changing_color == l0.changing_color
                && l1.last_dim == l0.last_dim && res == HandleInput::Consumed
        } else if !l0.layer_focused {
            same_legend_state(l0, l1) && res == HandleInput::Fallthru
        } else if k == Some('H') || k == Some('J') || k == Some('K') || k == Some('L') {
            let dir = if k == Some('H') {
                Direction::Left
            } else if k == Some('L') {
                Direction::Right
            } else if k == Some('K') {
                Direction::Top
            } else {
                Direction::Bottom
            };
            &&& res == HandleInput::Consumed
            &&& l1.layer_focused == l0.layer_focused && l1.changing_color == l0.changing_color
            &&& focus_view(l1.series_focus) == focus_view(l0.series_focus)
            &&& l1.last_dim == l0.last_dim
            &&& exists|moved: AnchoredPosition|
                #![trigger to_rect_spec(moved, l0.last_dim.0, l0.last_dim.1, frame)]
                moved_position(l0.position, dir, 5, moved) && anchored_nearest(
                    moved,
                    l0.last_dim.0,
                    l0.last_dim.1,
                    frame,
                    l1.position,
                )
        } else if k == Some('c') {
            l1.changing_color && l1.layer_focused == l0.layer_focused && l1.position
                == l0.position && focus_view(l1.series_focus) == focus_view(l0.series_focus)
                && l1.last_dim == l0.last_dim && res == HandleInput::Consumed
        } else if k == Some('j') || k == Some('k') {
            &&& res == HandleInput::Consumed
            &&& l1.layer_focused == l0.layer_focused && l1.position == l0.position
            &&& l1.changing_color == l0.changing_color && l1.last_dim == l0.last_dim
            &&& focus_view(l1.series_focus) == next_focus(
                labels_of(c0.cache.series_view()),
                focus_view(l0.series_focus),
                k.unwrap(),
            )
        } else {
            same_legend_state(l0, l1) && res == HandleInput::Fallthru
        }
    }
}

/// `moved` is `p` after `move_towards(dir, steps)`.
pub open spec fn moved_position(p: AnchoredPosition, dir: Direction, steps: u16, moved: AnchoredPosition) -> bool {
    &&& moved.anchor == p.anchor
    &&& match dir {
        Direction::Left | Direction::Right => {
            &&& moved.y_displace == p.y_displace
            &&& moved.x_displace == crate::geometry::moved_displace(
                p.x_displace,
                (dir == Direction::Right) == p.anchor.right,
                steps,
            )
        },
        Direction::Top | Direction::Bottom => {
            &&& moved.x_displace == p.x_displace
            &&& moved.y_displace == crate::geometry::moved_displace(
                p.y_displace,
                (dir == Direction::Bottom) == p.anchor.bottom,
                steps,
            )
        },
    }
}

/// `q` is `p` re-anchored by `anchor_by_nearest(width, height, parent)`.
pub open spec fn anchored_nearest(p: AnchoredPosition, width: u16, height: u16, parent: Rect, q: AnchoredPosition) -> bool {
    let child = to_rect_spec(p, width, height, parent);
    let (right, xd) = nearest_axis(parent.x, parent.width, child.x, child.width);
    let (bottom, yd) = nearest_axis(parent.y, parent.height, child.y, child.height);
    q == AnchoredPosition { anchor: Gravity { right, bottom }, x_displace: xd, y_displace: yd }
}

impl LayerHelp {
    pub fn handle_input(&self, event: InputEvent, cmds: &mut Vec<LayerCommand>) -> (res: HandleInput)
        ensures
            help_input(event, old(cmds)@, final(cmds)@, res),
    {
        match event {
            InputEvent::Key('q') => {
                cmds.push(LayerCommand::Remove);
                HandleInput::Consumed
            },
            // only one help overlay at a time
            InputEvent::Key('?') => HandleInput::Consumed,
            _ => HandleInput::Fallthru,
        }
    }
}

impl LayerChart {
    pub fn handle_input(
        &mut self,
        ctx: &mut Context,
        event: InputEvent,
        cmds: &mut Vec<LayerCommand>,
        now_ns: u64,
    ) -> (res: HandleInput)
        requires
            old(self).wf(old(ctx).retention_ns),
        ensures
            final(self).wf(final(ctx).retention_ns),
            chart_input(*old(self), *final(self), *old(ctx), *final(ctx), event, old(cmds)@, final(cmds)@, now_ns, res),
    {
        match event {
            InputEvent::Key('q') => {
                ctx.quit = true;
                HandleInput::Consumed
            },
            InputEvent::Key('?') => {
                cmds.push(LayerCommand::Insert(Layer::Help(LayerHelp), 1));
                HandleInput::Consumed
            },
            InputEvent::Key(' ') => {
                self.toggle_freeze(&ctx.cache.data, now_ns);
                HandleInput::Consumed
            },
            InputEvent::Key(c) => {
                if c == '-' || c == '=' || c == 'h' || c == 'l' || c == 'H' || c == 'L' {
                    self.step_view(c, ctx.retention_ns);
                    HandleInput::Consumed
                } else if c == 'r' {
                    self.reset_view(ctx.retention_ns);
                    HandleInput::Consumed
                } else {
                    HandleInput::Fallthru
                }
            },
            InputEvent::Other => HandleInput::Fallthru,
        }
    }
}

impl LayerWarn {
    pub fn new() -> (r: LayerWarn)
        ensures
            !r.focused && !r.zoomed && r.freeze is None && r.offset == 0,
    {
        LayerWarn { focused: false, zoomed: false, freeze: None, offset: 0 }
    }

    /// The warnings the console shows: the frozen copy, or the live backlog.
    pub fn warnings_src<'a>(&'a self, ctx: &'a Context) -> (r: &'a Vec<Warning>)
        ensures
            match self.freeze {
                Some(f) => r@ == f@,
                None => r@ == ctx.warnings@,
            },
    {
        match &self.freeze {
            Some(f) => f,
            None => &ctx.warnings,
        }
    }

    /// Why the console shows: it has the focus, and whether a warning came
    /// within the display duration before `now_ns`.
    pub fn is_visible(&self, ctx: &Context, now_ns: u64) -> (r: (bool, bool))
        ensures
            r.0 == self.focused,
            r.1 == (ctx.warnings@.len() > 0 && ctx.warnings@.last().time_ns as int
                + ctx.warning_display_ns as int > now_ns as int),
    {
        let n = ctx.warnings.len();
        let recent = if n > 0 {
            let t = ctx.warnings[n - 1].time_ns;
            if now_ns < t {
                true
            } else {
                now_ns - t < ctx.warning_display_ns
            }
        } else {
            false
        };
        (self.focused, recent)
    }

    /// The positions `[start, end)` in the shown warnings of the at most
    /// `max_items` that fit, scrolled back by the offset.
    pub fn visible_range(&self, len: usize, max_items: usize) -> (r: (usize, usize))
        ensures
            self.offset >= len ==> r == (0usize, 0usize),
            self.offset < len ==> r.1 == len - self.offset && r.0 == if r.1 >= max_items {
                r.1 - max_items
            } else {
                0
            },
    {
        if self.offset >= len {
            (0, 0)
        } else {
            let end = len - self.offset;
            (end.saturating_sub(max_items), end)
        }
    }

    pub fn handle_input(&mut self, ctx: &Context, event: InputEvent) -> (res: HandleInput)
        ensures
            warn_input(*old(self), *final(self), *ctx, event, res),
    {
        let c = match event {
            InputEvent::Key(c) => c,
            InputEvent::Other => {
                return HandleInput::Fallthru;
            },
        };
        if c == 'w' {
            self.focused = !self.focused;
            self.zoomed = false;
            self.freeze = None;
            HandleInput::Consumed
        } else if self.focused && c == 'z' {
            self.zoomed = !self.zoomed;
            HandleInput::Consumed
        } else if self.focused && c == ' ' {
            if self.freeze.is_some() {
                self.freeze = None;
            } else {
                self.freeze = Some(copy_warnings(&ctx.warnings));
            }
            HandleInput::Consumed
        } else if self.focused && (c == 'j' || c == 'k' || c == 'g' || c == 'G') {
            let len = self.warnings_src(ctx).len();
            let max_offset = len.saturating_sub(1);
            self.offset = if c == 'j' {
                self.offset.saturating_sub(1)
            } else if c == 'k' {
                let up = self.offset.saturating_add(1);
                if up <= max_offset {
                    up
                } else {
                    max_offset
                }
            } else if c == 'g' {
                max_offset
            } else {
                0
            };
            HandleInput::Consumed
        } else {
            HandleInput::Fallthru
        }
    }
}

impl Default for LayerLegend {
    fn default() -> (r: LayerLegend)
        ensures
            r.position == (AnchoredPosition { anchor: Gravity { right: true, bottom: false }, x_displace: 0, y_displace: 0 }),
            !r.layer_focused,
            r.series_focus is None,
            !r.changing_color,
            r.last_dim == (0u16, 0u16),
    {
        LayerLegend::new()
    }
}

impl Default for LayerWarn {
    fn default() -> (r: LayerWarn)
        ensures
            !r.focused && !r.zoomed && r.freeze is None && r.offset == 0,
    {
        LayerWarn::new()
    }
}

impl LayerLegend {
    /// The legend at the top right, without focus.
    pub fn new() -> (r: LayerLegend)
        ensures
            r.position == (AnchoredPosition { anchor: Gravity { right: true, bottom: false }, x_displace: 0, y_displace: 0 }),
            !r.layer_focused,
            r.series_focus is None,
            !r.changing_color,
            r.last_dim == (0u16, 0u16),
    {
        LayerLegend {
            position: AnchoredPosition { anchor: Gravity::top_right(), x_displace: 0, y_displace: 0 },
            layer_focused: false,
            series_focus: None,
            changing_color: false,
            last_dim: (0, 0),
        }
    }

    /// The series after the focused one (`j`) or before it (`k`), among the
    /// cache's labels in order.
    fn cycle_focus(&self, cache: &Cache, key: char) -> (r: Option<String>)
        ensures
            focus_view(r) == next_focus(labels_of(cache.series_view()), focus_view(self.series_focus), key),
    {
        let ghost names = labels_of(cache.series_view());
        let n = cache.data.series.len();
        if n == 0 {
            return None;
        }
        let i: usize = match &self.series_focus {
            None => if key == 'j' {
                0
            } else {
                n - 1
            },
            Some(name) => {
                let cur = position_of(cache, name);
                if key == 'j' {
                    (cur + 1) % n
                } else if cur == 0 {
                    proof {
                        assert((cur + n - 1) % (n as int) == n - 1) by (nonlinear_arith)
                            requires
                                cur == 0,
                                n > 0,
                        ;
                    }
                    n - 1
                } else {
                    proof {
                        assert((cur + n - 1) % (n as int) == cur - 1) by (nonlinear_arith)
                            requires
                                0 < cur < n,
                        ;
                    }
                    cur - 1
                }
            },
        };
        proof {
            assert(names[i as int] == cache.series_view()[i as int].0);
        }
        Some(cache.data.series[i].label.clone())
    }

    pub fn handle_input(&mut self, ctx: &mut Context, event: InputEvent, frame: Rect) -> (res: HandleInput)
        requires
            old(ctx).wf(),
        ensures
            final(ctx).wf(),
            legend_input(*old(self), *final(self), *old(ctx), *final(ctx), event, frame, res),
    {
        if self.changing_color {
            if let InputEvent::Key(c) = event {
                if c == 'r' || c == 'R' || c == 'g' || c == 'G' || c == 'b' || c == 'B' {
                    self.changing_color = false;
                    match &self.series_focus {
                        None => {
                            ctx.outgoing.push(String::from_str(
                                "Cannot change color code because no series is selected",
                            ));
                            proof {
                                assert(ctx.outgoing@.take(old(ctx).outgoing@.len() as int) =~= old(ctx).outgoing@);
                            }
                        },
                        Some(name) => {
                            let (channel, up): (usize, bool) = if c == 'r' {
                                (0, true)
                            } else if c == 'R' {
                                (0, false)
                            } else if c == 'g' {
                                (1, true)
                            } else if c == 'G' {
                                (1, false)
                            } else if c == 'b' {
                                (2, true)
                            } else {
                                (2, false)
                            };
                            ctx.cache.nudge_color(name, channel, up);
                        },
                    }
                    return HandleInput::Consumed;
                }
            }
        }
        let c = match event {
            InputEvent::Key(c) => c,
            InputEvent::Other => {
                return HandleInput::Fallthru;
            },
        };
        if c == 'g' {
            self.layer_focused = !self.layer_focused;
            HandleInput::Consumed
        } else if !self.layer_focused {
            HandleInput::Fallthru
        } else if c == 'H' || c == 'J' || c == 'K' || c == 'L' {
            let dir = if c == 'H' {
                Direction::Left
            } else if c == 'L' {
                Direction::Right
            } else if c == 'K' {
                Direction::Top
            } else {
                Direction::Bottom
            };
            let ghost p0 = self.position;
            self.position.move_towards(dir, 5);
            let ghost moved = self.position;
            self.position.anchor_by_nearest(self.last_dim.0, self.last_dim.1, frame);
            proof {
                assert(moved_position(p0, dir, 5, moved));
                assert(anchored_nearest(moved, self.last_dim.0, self.last_dim.1, frame, self.position));
                let _ = to_rect_spec(moved, self.last_dim.0, self.last_dim.1, frame);
            }
            HandleInput::Consumed
        } else if c == 'c' {
            self.changing_color = true;
            HandleInput::Consumed
        } else if c == 'j' || c == 'k' {
            self.series_focus = self.cycle_focus(&ctx.cache, c);
            HandleInput::Consumed
        } else {
            HandleInput::Fallthru
        }
    }
}

/// Where `name` stands among the cache's labels, or 0 where it is not there.
fn position_of(cache: &Cache, name: &String) -> (r: usize)
    ensures
        r as int == position_or_zero(labels_of(cache.series_view()), name@),
        cache.series_view().len() > 0 ==> r < cache.series_view().len(),
{
    let ghost names = labels_of(cache.series_view());
    let n = cache.data.series.len();
    let mut i: usize = 0;
    while i < n
        invariant
            i <= n,
            n == names.len(),
            names == labels_of(cache.series_view()),
            forall|k: int| 0 <= k < i ==> names[k] != name@,
        decreases n - i,
    {
        proof {
            assert(names[i as int] == cache.data.series@[i as int].label@);
        }
        if cache.data.series[i].label == *name {
            proof {
                lemma_position_found(names, name@, i as int);
            }
            return i;
        }
        i = i + 1;
    }
    proof {
        lemma_position_missing(names, name@);
    }
    0
}

proof fn lemma_position_found(names: Seq<Seq<char>>, name: Seq<char>, i: int)
    requires
        0 <= i < names.len(),
        names[i] == name,
        forall|k: int| 0 <= k < i ==> names[k] != name,
    ensures
        position_or_zero(names, name) == i,
    decreases i,
{
    if i > 0 {
        let t = names.drop_first();
        assert(t[i - 1] == names[i]);
        assert forall|k: int| 0 <= k < i - 1 implies t[k] != name by {
            assert(t[k] == names[k + 1]);
        }
        lemma_position_found(t, name, i - 1);
    }
}

proof fn lemma_position_missing(names: Seq<Seq<char>>, name: Seq<char>)
    requires
        forall|k: int| 0 <= k < names.len() ==> names[k] != name,
    ensures
        position_or_zero(names, name) == 0,
{
    if names.len() > 0 {
        assert(names[0] != name);
    }
}

impl Layer {
    pub fn handle_input(
        &mut self,
        ctx: &mut Context,
        event: InputEvent,
        cmds: &mut Vec<LayerCommand>,
        frame: Rect,
        now_ns: u64,
    ) -> (res: HandleInput)
        requires
            old(ctx).wf(),
            layer_wf(*old(self), old(ctx).retention_ns),
        ensures
            final(ctx).wf(),
            final(ctx).retention_ns == old(ctx).retention_ns,
            layer_wf(*final(self), final(ctx).retention_ns),
            final(cmds)@.len() >= old(cmds)@.len(),
            final(cmds)@.take(old(cmds)@.len() as int) == old(cmds)@,
            forall|k: int|
                old(cmds)@.len() <= k < final(cmds)@.len() ==> command_wf(
                    #[trigger] final(cmds)@[k],
                    final(ctx).retention_ns,
                ),
            layer_input(
                *old(self),
                *final(self),
                *old(ctx),
                *final(ctx),
                event,
                frame,
                now_ns,
                old(cmds)@,
                final(cmds)@,
                res,
            ),
    {
        let ghost k0 = cmds@;
        match self {
            Layer::Base(chart) => {
                let r = chart.handle_input(ctx, event, cmds, now_ns);
                proof {
                    if key_of(event) == Some('?') {
                        assert(cmds@.take(k0.len() as int) =~= k0);
                    } else {
                        assert(cmds@.take(k0.len() as int) =~= k0);
                    }
                }
                r
            },
            Layer::Warn(warn) => {
                let r = warn.handle_input(ctx, event);
                proof {
                    assert(cmds@.take(k0.len() as int) =~= k0);
                }
                r
            },
            Layer::Help(help) => {
                let r = help.handle_input(event, cmds);
                proof {
                    assert(cmds@.take(k0.len() as int) =~= k0);
                }
                r
            },
            Layer::Legend(legend) => {
                let r = legend.handle_input(ctx, event, frame);
                proof {
                    assert(cmds@.take(k0.len() as int) =~= k0);
                }
                r
            },
        }
    }
}

/// Pausing the chart shows the data as it was at that moment, whatever
/// arrives afterwards; resuming shows the live data again, with everything
/// that arrived while paused.
pub proof fn freeze_keeps_snapshot(
    l0: LayerChart,
    l1: LayerChart,
    l2: LayerChart,
    c0: Context,
    c1: Context,
    c2: Context,
    c3: Context,
    k0: Seq<LayerCommand>,
    k1: Seq<LayerCommand>,
    k2: Seq<LayerCommand>,
    k3: Seq<LayerCommand>,
    t0: u64,
    t1: u64,
    r0: HandleInput,
    r1: HandleInput,
    label: Seq<char>,
    d: Datum,
)
    requires
        l0.freeze is None,
        chart_input(l0, l1, c0, c1, InputEvent::Key(' '), k0, k1, t0, r0),
        chart_input(l1, l2, c2, c3, InputEvent::Key(' '), k2, k3, t1, r1),
    ensures
        l1.shown(pushed(c0.cache.series_view(), label, d)) == c0.cache.series_view(),
        l2.shown(c2.cache.series_view()) == c2.cache.series_view(),
{
}

/// What an event does to a layer of any kind, the context and the commands
/// the layer asks for: the relation of that kind's input handling.
pub open spec fn layer_input(
    l0: Layer,
    l1: Layer,
    c0: Context,
    c1: Context,
    ev: InputEvent,
    frame: Rect,
    now_ns: u64,
    k0: Seq<LayerCommand>,
    k1: Seq<LayerCommand>,
    res: HandleInput,
) -> bool {
    match (l0, l1) {
        (Layer::Base(a), Layer::Base(b)) => chart_input(a, b, c0, c1, ev, k0, k1, now_ns, res),
        (Layer::Warn(a), Layer::Warn(b)) => c1 == c0 && k1 == k0 && warn_input(a, b, c0, ev, res),
        (Layer::Help(_), Layer::Help(_)) => c1 == c0 && help_input(ev, k0, k1, res),
        (Layer::Legend(a), Layer::Legend(b)) => k1 == k0 && legend_input(a, b, c0, c1, ev, frame, res),
        _ => false,
    }
}

/// The stack after the layer at `idx` asked for `cmds`, taken in order: an
/// insert goes `offset` places above `idx` (on top where the stack is
/// shorter); the first removal takes the layer at `idx` away unless it is
/// the base; later removals change nothing.
pub open spec fn apply_commands(
    stack: Seq<Layer>,
    idx: int,
    cmds: Seq<LayerCommand>,
    removed: bool,
) -> Seq<Layer>
    decreases cmds.len(),
{
    if cmds.len() == 0 {
        stack
    } else {
        match cmds[0] {
            LayerCommand::Insert(l, offset) => {
                let pos = if idx + 1 + offset < stack.len() {
                    idx + 1 + offset
                } else {
                    stack.len() as int
                };
                apply_commands(stack.insert(pos, l), idx, cmds.drop_first(), removed)
            },
            LayerCommand::Remove => if idx > 0 && !removed && idx < stack.len() {
                apply_commands(stack.remove(idx), idx, cmds.drop_first(), true)
            } else {
                apply_commands(stack, idx, cmds.drop_first(), removed)
            },
        }
    }
}

/// One layer's turn with an event: the stack and the context before it, the
/// layer after it, the context after it, and the commands it asked for.
pub type Turn = (Seq<Layer>, Context, Layer, Context, Seq<LayerCommand>);

/// The layer at `idx` of the turn's stack handled the event with `res`.
pub open spec fn turn_ok(t: Turn, idx: int, ev: InputEvent, frame: Rect, now_ns: u64, res: HandleInput) -> bool {
    &&& 0 <= idx < t.0.len()
    &&& layer_input(t.0[idx], t.2, t.1, t.3, ev, frame, now_ns, Seq::empty(), t.4, res)
}

/// The stack after the turn of the layer at `idx`: the layer as it came out
/// of the turn, then its commands.
pub open spec fn after_turn(t: Turn, idx: int) -> Seq<Layer> {
    apply_commands(t.0.update(idx, t.2), idx, t.4, false)
}

/// `turns` are the turns of the top `turns.len()` layers of `s0`, from the
/// top down, each starting where the one before ended, with `outcomes`;
/// the stack and context after the last are `s1` and `c1`.
pub open spec fn turns_ok(
    s0: Seq<Layer>,
    c0: Context,
    ev: InputEvent,
    frame: Rect,
    now_ns: u64,
    turns: Seq<Turn>,
    outcomes: Seq<HandleInput>,
    s1: Seq<Layer>,
    c1: Context,
) -> bool {
    let n = s0.len() as int;
    let m = turns.len() as int;
    &&& outcomes.len() == m && m <= n
    &&& m > 0 ==> turns[0].0 == s0 && turns[0].1 == c0
    &&& forall|k: int| 0 <= k < m ==> turn_ok(#[trigger] turns[k], n - 1 - k, ev, frame, now_ns, outcomes[k])
    &&& forall|k: int|
        0 <= k < m - 1 ==> (#[trigger] turns[k + 1]).0 == after_turn(turns[k], n - 1 - k)
            && turns[k + 1].1 == turns[k].3
    &&& m == 0 ==> s1 == s0 && c1 == c0
    &&& m > 0 ==> s1 == after_turn(turns[m - 1], n - m) && c1 == turns[m - 1].3
}

/// One event dispatched: the layers from the top down each had their turn
/// until one consumed the event, or all had it and none did.
pub open spec fn dispatch_ok(
    s0: Seq<Layer>,
    c0: Context,
    ev: InputEvent,
    frame: Rect,
    now_ns: u64,
    turns: Seq<Turn>,
    outcomes: Seq<HandleInput>,
    s1: Seq<Layer>,
    c1: Context,
) -> bool {
    &&& turns_ok(s0, c0, ev, frame, now_ns, turns, outcomes, s1, c1)
    &&& forall|k: int| 0 <= k < outcomes.len() - 1 ==> #[trigger] outcomes[k] == HandleInput::Fallthru
    &&& outcomes.len() < s0.len() ==> outcomes.len() > 0 && outcomes.last() == HandleInput::Consumed
}

/// An event goes no further down the stack than the layer that consumed
/// it: only the last layer to have a turn may consume it, and when none
/// consumes it every layer has had its turn. A turn in which a layer asked
/// for nothing leaves the stack as it was but for that layer.
pub proof fn dispatch_stops_at_consumer(
    s0: Seq<Layer>,
    c0: Context,
    ev: InputEvent,
    frame: Rect,
    now_ns: u64,
    turns: Seq<Turn>,
    outcomes: Seq<HandleInput>,
    s1: Seq<Layer>,
    c1: Context,
    k: int,
)
    requires
        dispatch_ok(s0, c0, ev, frame, now_ns, turns, outcomes, s1, c1),
        0 <= k < turns.len(),
    ensures
        outcomes[k] == HandleInput::Consumed ==> k == turns.len() - 1,
        (forall|q: int| 0 <= q < outcomes.len() ==> outcomes[q] == HandleInput::Fallthru)
            ==> turns.len() == s0.len(),
        turns[k].4.len() == 0 ==> after_turn(turns[k], s0.len() - 1 - k) == turns[k].0.update(
            s0.len() - 1 - k,
            turns[k].2,
        ),
{
    if outcomes[k] == HandleInput::Consumed && k < turns.len() - 1 {
        assert(outcomes[k] == HandleInput::Fallthru);
    }
    if (forall|q: int| 0 <= q < outcomes.len() ==> outcomes[q] == HandleInput::Fallthru) && turns.len() < s0.len() {
        assert(outcomes[outcomes.len() - 1] == HandleInput::Fallthru);
    }
}

/// Dispatching `ev` on stack `s0` with context `c0` may leave `s1` and `c1`.
pub open spec fn dispatched(
    s0: Seq<Layer>,
    c0: Context,
    ev: InputEvent,
    frame: Rect,
    now_ns: u64,
    s1: Seq<Layer>,
    c1: Context,
) -> bool {
    exists|turns: Seq<Turn>, outcomes: Seq<HandleInput>|
        dispatch_ok(s0, c0, ev, frame, now_ns, turns, outcomes, s1, c1)
}

impl LayerChart {
    /// What the chart draws at `now_ns`. Live, the cache is first trimmed
    /// to the retention window and the live series are drawn up to `now_ns`;
    /// paused, the cache is left as it is and the frozen series are drawn up
    /// to the moment of the pause.
    pub fn frame_targets(&self, ctx: &mut Context, now_ns: u64) -> (r: Vec<DrawTarget>)
        requires
            old(ctx).wf(),
        ensures
            final(ctx).wf(),
            final(ctx).retention_ns == old(ctx).retention_ns,
            final(ctx).warnings == old(ctx).warnings,
            final(ctx).quit == old(ctx).quit,
            final(ctx).cache.configs() == old(ctx).cache.configs(),
            match self.freeze {
                None => {
                    &&& final(ctx).cache.series_view() == trimmed(
                        old(ctx).cache.series_view(),
                        if now_ns >= old(ctx).retention_ns {
                            (now_ns - old(ctx).retention_ns) as u64
                        } else {
                            0
                        },
                    )
                    &&& r@.map_values(|t: DrawTarget| target_view(t)) == targets_spec(
                        final(ctx).cache.configs(),
                        final(ctx).cache.series_view(),
                        RenderTimeRange { now_ns, since_start: self.x_start, since_end: self.x_end },
                    )
                },
                Some(f) => {
                    &&& *final(ctx) == *old(ctx)
                    &&& r@.map_values(|t: DrawTarget| target_view(t)) == targets_spec(
                        old(ctx).cache.configs(),
                        f.data.view(),
                        RenderTimeRange {
                            now_ns: f.frozen_ns,
                            since_start: self.x_start,
                            since_end: self.x_end,
                        },
                    )
                },
            },
    {
        if self.freeze.is_none() {
            ctx.cache.trim(now_ns.saturating_sub(ctx.retention_ns));
        }
        let (shown_now, data) = self.displayed(&ctx.cache, now_ns);
        let time = self.time_range(shown_now);
        data_to_targets(&ctx.cache, data, time)
    }
}

/// What became of one event: the stack positions it was offered to, top
/// down, what each did with it, and whether one consumed it.
pub struct Dispatch {
    pub delivered: Vec<usize>,
    pub outcomes: Vec<HandleInput>,
    pub consumed: bool,
    pub turns: Ghost<Seq<Turn>>,
}

/// Offers an event to the layers from the top of the stack down, until one
/// consumes it. After each layer's turn the changes it asked for are made:
/// a new layer goes `offset` places above it (or on top, where the stack is
/// shorter), and a layer other than the base may remove itself, once.
pub fn dispatch(
    layers: &mut Vec<Layer>,
    ctx: &mut Context,
    event: InputEvent,
    frame: Rect,
    now_ns: u64,
) -> (d: Dispatch)
    requires
        old(ctx).wf(),
        forall|i: int| 0 <= i < old(layers)@.len() ==> layer_wf(#[trigger] old(layers)@[i], old(ctx).retention_ns),
    ensures
        final(ctx).wf(),
        final(ctx).retention_ns == old(ctx).retention_ns,
        forall|i: int| 0 <= i < final(layers)@.len() ==> layer_wf(#[trigger] final(layers)@[i], final(ctx).retention_ns),
        dispatch_ok(old(layers)@, *old(ctx), event, frame, now_ns, d.turns@, d.outcomes@, final(layers)@, *final(ctx)),
        d.delivered@.len() == d.outcomes@.len(),
        forall|k: int| 0 <= k < d.delivered@.len() ==> #[trigger] d.delivered@[k] == old(layers)@.len() - 1 - k,
        d.consumed == (d.outcomes@.len() > 0 && d.outcomes@.last() == HandleInput::Consumed),
        !d.consumed ==> d.delivered@.len() == old(layers)@.len(),
{
    let n = layers.len();
    let ghost r = ctx.retention_ns;
    let ghost s0 = layers@;
    let ghost c0 = *ctx;
    let ghost mut turns: Seq<Turn> = Seq::empty();
    let mut delivered: Vec<usize> = Vec::new();
    let mut outcomes: Vec<HandleInput> = Vec::new();
    let mut consumed = false;
    let mut i: usize = n;
    while i > 0 && !consumed
        invariant
            i <= n,
            n == s0.len(),
            i <= layers@.len(),
            ctx.wf(),
            ctx.retention_ns == r,
            forall|q: int| 0 <= q < layers@.len() ==> layer_wf(#[trigger] layers@[q], r),
            delivered@.len() == n - i,
            turns.len() == n - i,
            forall|k: int| 0 <= k < delivered@.len() ==> #[trigger] delivered@[k] == n - 1 - k,
            forall|k: int| 0 <= k < outcomes@.len() - 1 ==> #[trigger] outcomes@[k] == HandleInput::Fallthru,
            consumed == (outcomes@.len() > 0 && outcomes@.last() == HandleInput::Consumed),
            turns_ok(s0, c0, event, frame, now_ns, turns, outcomes@, layers@, *ctx),
        decreases i,
    {
        let idx = i - 1;
        let ghost stack_before = layers@;
        let ghost ctx_before = *ctx;
        let mut layer = Layer::Help(LayerHelp);
        std::mem::swap(&mut layer, &mut layers[idx]);
        proof {
            assert(layer == stack_before[idx as int]);
            assert(layer_wf(layer, r));
        }
        let mut cmds: Vec<LayerCommand> = Vec::new();
        proof {
            assert(cmds@ =~= Seq::<LayerCommand>::empty());
        }
        let flow = layer.handle_input(ctx, event, &mut cmds, frame, now_ns);
        let ghost before_put = layers@;
        let ghost handled = layer;
        let ghost cmds0 = cmds@;
        std::mem::swap(&mut layer, &mut layers[idx]);
        let ghost put = layers@;
        proof {
            assert(layers@ == before_put.update(idx as int, handled));
            assert(put =~= stack_before.update(idx as int, handled));
            assert forall|q: int| 0 <= q < layers@.len() implies layer_wf(#[trigger] layers@[q], r) by {
                if q != idx {
                    assert(layers@[q] == before_put[q]);
                }
            }
            assert forall|k: int| 0 <= k < cmds@.len() implies command_wf(#[trigger] cmds@[k], r) by {
                assert(cmds@.take(0) =~= Seq::<LayerCommand>::empty());
            }
        }
        let mut removed = false;
        while cmds.len() > 0
            invariant
                idx <= layers@.len(),
                !removed ==> idx < layers@.len(),
                forall|q: int| 0 <= q < layers@.len() ==> layer_wf(#[trigger] layers@[q], r),
                forall|k: int| 0 <= k < cmds@.len() ==> command_wf(#[trigger] cmds@[k], r),
                apply_commands(layers@, idx as int, cmds@, removed) == apply_commands(
                    put,
                    idx as int,
                    cmds0,
                    false,
                ),
            decreases cmds@.len(),
        {
            proof {
                assert(command_wf(cmds@[0], r));
            }
            let ghost cs = cmds@;
            let ghost ls0 = layers@;
            let ghost rm0 = removed;
            let cmd = cmds.remove(0);
            proof {
                assert(cmds@ =~= cs.drop_first());
                assert forall|k: int| 0 <= k < cmds@.len() implies command_wf(#[trigger] cmds@[k], r) by {
                    assert(cmds@[k] == cs[k + 1]);
                }
            }
            match cmd {
                LayerCommand::Insert(new_layer, offset) => {
                    let len = layers.len();
                    let room = len - idx;
                    let pos = if room > 0 && offset < room - 1 {
                        idx + 1 + offset
                    } else {
                        len
                    };
                    let ghost ls = layers@;
                    layers.insert(pos, new_layer);
                    proof {
                        assert forall|q: int| 0 <= q < layers@.len() implies layer_wf(#[trigger] layers@[q], r) by {
                            if q < pos {
                                assert(layers@[q] == ls[q]);
                            } else if q > pos {
                                assert(layers@[q] == ls[q - 1]);
                            }
                        }
                    }
                },
                LayerCommand::Remove => {
                    if idx > 0 && !removed {
                        let ghost ls = layers@;
                        layers.remove(idx);
                        removed = true;
                        proof {
                            assert forall|q: int| 0 <= q < layers@.len() implies layer_wf(#[trigger] layers@[q], r) by {
                                if q < idx {
                                    assert(layers@[q] == ls[q]);
                                } else {
                                    assert(layers@[q] == ls[q + 1]);
                                }
                            }
                        }
                    }
                },
            }
            proof {
                assert(apply_commands(ls0, idx as int, cs, rm0) == apply_commands(
                    layers@,
                    idx as int,
                    cmds@,
                    removed,
                ));
            }
        }
        proof {
            let t: Turn = (stack_before, ctx_before, handled, *ctx, cmds0);
            assert(after_turn(t, idx as int) == layers@);
            let old_turns = turns;
            turns = turns.push(t);
            let m = turns.len() as int;
            assert(turns[m - 1] == t);
            assert forall|k: int| 0 <= k < m - 1 implies #[trigger] turns[k] == old_turns[k] by {}
            if m > 1 {
                assert(stack_before == after_turn(turns[m - 2], n - (m - 1)));
            }
        }
        delivered.push(idx);
        outcomes.push(flow);
        if flow == HandleInput::Consumed {
            consumed = true;
        }
        i = idx;
    }
    Dispatch { delivered, outcomes, consumed, turns: Ghost(turns) }
}

/// The least time between two redraws that new data alone brings about, in
/// nanoseconds.
pub const REDRAW_INTERVAL_NS: u64 = 200_000_000;

/// What the main loop waits for, whichever comes first.
#[derive(Debug)]
pub enum LoopEvent {
    /// The run is being shut down.
    Cancelled,
    /// A decoded terminal event.
    Input(InputEvent),
    /// A sample from the sources.
    Sample(Message),
    /// The sources have no more samples.
    SamplesEnded,
    /// The sources have no more warnings.
    WarningsEnded,
    /// A warning and the time it was raised.
    Warning(u64, String),
    /// The redraw timer fired.
    Tick,
}

/// What the main loop does next.
#[derive(Debug, Clone, Copy, PartialEq, Eq, Structural)]
pub enum LoopAction {
    Exit,
    Continue { redraw: bool },
}

/// The main loop's own state: when data last brought about a redraw, and
/// which of the sample and warning streams have ended.
#[derive(Debug, Clone, Copy, PartialEq, Eq, Structural)]
pub struct LoopState {
    pub last_redraw_ns: u64,
    pub samples_ended: bool,
    pub warnings_ended: bool,
}

impl LoopState {
    /// A loop that last redrew at `now_ns`, with both streams open.
    pub fn new(now_ns: u64) -> (r: LoopState)
        ensures
            r == (LoopState { last_redraw_ns: now_ns, samples_ended: false, warnings_ended: false }),
    {
        LoopState { last_redraw_ns: now_ns, samples_ended: false, warnings_ended: false }
    }
}

/// One turn of the main loop. Input goes through the layer stack and is
/// always redrawn; a sample or a warning is stored, and redrawn only once
/// the redraw interval has passed since data last brought about a redraw;
/// the timer always redraws; a shutdown ends the loop, and so does the end
/// of both the samples and the warnings.
pub fn loop_step(
    state: &mut LoopState,
    layers: &mut Vec<Layer>,
    ctx: &mut Context,
    event: LoopEvent,
    frame: Rect,
    now_ns: u64,
) -> (r: LoopAction)
    requires
        old(ctx).wf(),
        forall|i: int| 0 <= i < old(layers)@.len() ==> layer_wf(#[trigger] old(layers)@[i], old(ctx).retention_ns),
    ensures
        final(ctx).wf(),
        final(ctx).retention_ns == old(ctx).retention_ns,
        forall|i: int| 0 <= i < final(layers)@.len() ==> layer_wf(#[trigger] final(layers)@[i], final(ctx).retention_ns),
        match event {
            LoopEvent::Cancelled => {
                &&& r == LoopAction::Exit
                &&& *final(state) == *old(state)
                &&& *final(ctx) == *old(ctx)
                &&& final(layers)@ == old(layers)@
            },
            LoopEvent::SamplesEnded => {
                &&& *final(state) == LoopState { samples_ended: true, ..*old(state) }
                &&& r == if old(state).warnings_ended {
                    LoopAction::Exit
                } else {
                    LoopAction::Continue { redraw: false }
                }
                &&& *final(ctx) == *old(ctx)
                &&& final(layers)@ == old(layers)@
            },
            LoopEvent::WarningsEnded => {
                &&& *final(state) == LoopState { warnings_ended: true, ..*old(state) }
                &&& r == if old(state).samples_ended {
                    LoopAction::Exit
                } else {
                    LoopAction::Continue { redraw: false }
                }
                &&& *final(ctx) == *old(ctx)
                &&& final(layers)@ == old(layers)@
            },
            LoopEvent::Input(ev) => {
                &&& r == (LoopAction::Continue { redraw: true })
                &&& *final(state) == *old(state)
                &&& dispatched(old(layers)@, *old(ctx), ev, frame, now_ns, final(layers)@, *final(ctx))
            },
            LoopEvent::Sample(m) => {
                let redraw = should_redraw_spec(now_ns, old(state).last_redraw_ns);
                &&& r == (LoopAction::Continue { redraw })
                &&& final(state).last_redraw_ns == if redraw {
                    now_ns
                } else {
                    old(state).last_redraw_ns
                }
                &&& final(layers)@ == old(layers)@
                &&& final(ctx).warnings == old(ctx).warnings
                &&& final(ctx).quit == old(ctx).quit
                &&& final(ctx).cache.series_view() == pushed(
                    trimmed(
                        old(ctx).cache.series_view(),
                        if now_ns >= old(ctx).retention_ns {
                            (now_ns - old(ctx).retention_ns) as u64
                        } else {
                            0
                        },
                    ),
                    m.label@,
                    Datum { time_ns: m.time_ns, value_bits: m.value_bits },
                )
            },
            LoopEvent::Warning(t, msg) => {
                let redraw = should_redraw_spec(now_ns, old(state).last_redraw_ns);
                &&& r == (LoopAction::Continue { redraw })
                &&& final(state).last_redraw_ns == if redraw {
                    now_ns
                } else {
                    old(state).last_redraw_ns
                }
                &&& final(layers)@ == old(layers)@
                &&& final(ctx).cache == old(ctx).cache
                &&& final(ctx).quit == old(ctx).quit
                &&& final(ctx).warnings_view() == backlog_push(
                    old(ctx).warnings_view(),
                    old(ctx).warning_backlog_size,
                    (t, msg@),
                )
            },
            LoopEvent::Tick => {
                &&& r == (LoopAction::Continue { redraw: true })
                &&& *final(state) == *old(state)
                &&& *final(ctx) == *old(ctx)
                &&& final(layers)@ == old(layers)@
            },
        },
{
    match event {
        LoopEvent::Cancelled => LoopAction::Exit,
        LoopEvent::SamplesEnded => {
            state.samples_ended = true;
            if state.warnings_ended {
                LoopAction::Exit
            } else {
                LoopAction::Continue { redraw: false }
            }
        },
        LoopEvent::WarningsEnded => {
            state.warnings_ended = true;
            if state.samples_ended {
                LoopAction::Exit
            } else {
                LoopAction::Continue { redraw: false }
            }
        },
        LoopEvent::Input(ev) => {
            let ghost s0 = layers@;
            let ghost c0 = *ctx;
            let d = dispatch(layers, ctx, ev, frame, now_ns);
            proof {
                assert(dispatch_ok(s0, c0, ev, frame, now_ns, d.turns@, d.outcomes@, layers@, *ctx));
            }
            LoopAction::Continue { redraw: true }
        },
        LoopEvent::Sample(m) => {
            on_sample(ctx, m, now_ns);
            LoopAction::Continue { redraw: data_redraw(state, now_ns) }
        },
        LoopEvent::Warning(t, msg) => {
            on_warning(ctx, t, msg);
            LoopAction::Continue { redraw: data_redraw(state, now_ns) }
        },
        LoopEvent::Tick => LoopAction::Continue { redraw: true },
    }
}

pub open spec fn should_redraw_spec(now_ns: u64, last_redraw_ns: u64) -> bool {
    now_ns >= last_redraw_ns && now_ns - last_redraw_ns >= REDRAW_INTERVAL_NS
}

/// Whether new data is redrawn now; if so, now becomes the last redraw.
fn data_redraw(state: &mut LoopState, now_ns: u64) -> (r: bool)
    ensures
        r == should_redraw_spec(now_ns, old(state).last_redraw_ns),
        final(state).last_redraw_ns == if r {
            now_ns
        } else {
            old(state).last_redraw_ns
        },
{
    if should_redraw(now_ns, state.last_redraw_ns, REDRAW_INTERVAL_NS) {
        state.last_redraw_ns = now_ns;
        true
    } else {
        false
    }
}

} // verus!
