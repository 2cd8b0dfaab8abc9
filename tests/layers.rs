use tailchart::geometry::Rect;
use tailchart::layers::{
    dispatch, loop_step, on_sample, on_warning, should_redraw, Context, HandleInput, InputEvent,
    Layer, LayerCommand, LayerHelp, LayerLegend, LayerWarn, LoopAction, LoopEvent, LoopState,
};
use tailchart::series::Message;
use tailchart::ui::Options;
use tailchart::viewport::{LayerChart, MAX_RETENTION_NS};

const R: u64 = 60_000_000_000;

fn frame() -> Rect {
    Rect { x: 0, y: 0, width: 120, height: 40 }
}

fn stack() -> Vec<Layer> {
    vec![
        Layer::Base(LayerChart::new(R)),
        Layer::Legend(LayerLegend::new()),
        Layer::Warn(LayerWarn::new()),
    ]
}

fn kinds(layers: &[Layer]) -> Vec<&'static str> {
    layers
        .iter()
        .map(|l| match l {
            Layer::Base(_) => "base",
            Layer::Warn(_) => "warn",
            Layer::Help(_) => "help",
            Layer::Legend(_) => "legend",
        })
        .collect()
}

#[test]
fn consumed_event_stops_at_consumer() {
    let mut ctx = Context::new(R, 10, 1);
    let mut layers = stack();
    let d = dispatch(&mut layers, &mut ctx, InputEvent::Key('w'), frame(), 0);
    assert_eq!(d.delivered, vec![2]);
    assert!(d.consumed);
    if let Layer::Warn(w) = &layers[2] {
        assert!(w.focused);
    } else {
        panic!("warning layer expected on top");
    }
}

#[test]
fn unconsumed_event_reaches_every_layer_and_is_dropped() {
    let mut ctx = Context::new(R, 10, 1);
    let mut layers = stack();
    let d = dispatch(&mut layers, &mut ctx, InputEvent::Key('x'), frame(), 0);
    assert_eq!(d.delivered, vec![2, 1, 0]);
    assert_eq!(d.outcomes, vec![HandleInput::Fallthru; 3]);
    assert!(!d.consumed);
    let d = dispatch(&mut layers, &mut ctx, InputEvent::Other, frame(), 0);
    assert_eq!(d.delivered, vec![2, 1, 0]);
    assert!(!d.consumed);
}

#[test]
fn help_is_inserted_and_removes_itself() {
    let mut ctx = Context::new(R, 10, 1);
    let mut layers = stack();
    let d = dispatch(&mut layers, &mut ctx, InputEvent::Key('?'), frame(), 0);
    assert_eq!(d.delivered, vec![2, 1, 0]);
    assert!(d.consumed);
    assert_eq!(kinds(&layers), vec!["base", "legend", "help", "warn"]);
    let d = dispatch(&mut layers, &mut ctx, InputEvent::Key('?'), frame(), 0);
    assert_eq!(d.delivered, vec![3, 2]);
    assert_eq!(kinds(&layers), vec!["base", "legend", "help", "warn"]);
    let d = dispatch(&mut layers, &mut ctx, InputEvent::Key('q'), frame(), 0);
    assert_eq!(d.delivered, vec![3, 2]);
    assert_eq!(kinds(&layers), vec!["base", "legend", "warn"]);
    assert!(!ctx.quit);
    dispatch(&mut layers, &mut ctx, InputEvent::Key('q'), frame(), 0);
    assert!(ctx.quit);
}

#[test]
fn help_on_a_short_stack_goes_on_top() {
    let mut ctx = Context::new(R, 10, 1);
    let mut layers = vec![Layer::Base(LayerChart::new(R))];
    dispatch(&mut layers, &mut ctx, InputEvent::Key('?'), frame(), 0);
    assert_eq!(kinds(&layers), vec!["base", "help"]);
}

#[test]
fn help_layer_keys() {
    let mut cmds: Vec<LayerCommand> = Vec::new();
    assert_eq!(LayerHelp.handle_input(InputEvent::Key('?'), &mut cmds), HandleInput::Consumed);
    assert!(cmds.is_empty());
    assert_eq!(LayerHelp.handle_input(InputEvent::Key('a'), &mut cmds), HandleInput::Fallthru);
    assert_eq!(LayerHelp.handle_input(InputEvent::Key('q'), &mut cmds), HandleInput::Consumed);
    assert!(matches!(cmds[..], [LayerCommand::Remove]));
}

#[test]
fn zoom_and_pan_steps() {
    let mut chart = LayerChart::new(R);
    chart.step_view('=', R);
    assert_eq!((chart.x_start, chart.x_end), (54_000_000_000, 6_000_000_000));
    chart.reset_view(R);
    chart.step_view('h', R);
    assert_eq!((chart.x_start, chart.x_end), (66_000_000_000, 6_000_000_000));
    chart.reset_view(R);
    chart.step_view('l', R);
    assert_eq!((chart.x_start, chart.x_end), (54_000_000_000, 0));
    chart.reset_view(R);
    for _ in 0..10 {
        chart.step_view('-', R);
    }
    assert_eq!(chart.x_start, 2 * R);
    assert_eq!(chart.x_end, 0);
    chart.step_view('L', R);
    assert!(chart.x_end <= chart.x_start);
}

#[test]
fn chart_reset_key_restores_full_window() {
    let mut ctx = Context::new(R, 10, 1);
    let mut layers = vec![Layer::Base(LayerChart::new(R))];
    dispatch(&mut layers, &mut ctx, InputEvent::Key('H'), frame(), 0);
    dispatch(&mut layers, &mut ctx, InputEvent::Key('r'), frame(), 0);
    if let Layer::Base(c) = &layers[0] {
        assert_eq!((c.x_start, c.x_end), (R, 0));
    }
}

#[test]
fn warning_backlog_drops_oldest() {
    let mut ctx = Context::new(R, 2, 1);
    on_warning(&mut ctx, 1, "one".to_string());
    on_warning(&mut ctx, 2, "two".to_string());
    on_warning(&mut ctx, 3, "three".to_string());
    let got: Vec<&str> = ctx.warnings.iter().map(|w| w.message.as_str()).collect();
    assert_eq!(got, vec!["two", "three"]);
}

#[test]
fn warning_backlog_of_size_zero_keeps_the_newest() {
    let mut ctx = Context::new(R, 0, 1);
    on_warning(&mut ctx, 1, "one".to_string());
    on_warning(&mut ctx, 2, "two".to_string());
    assert_eq!(ctx.warnings.len(), 1);
    assert_eq!(ctx.warnings[0].message, "two");
}

#[test]
fn sample_arrival_trims_then_stores() {
    let mut ctx = Context::new(100, 2, 1);
    on_sample(&mut ctx, Message { label: "a".into(), value_bits: 0, time_ns: 10 }, 20);
    on_sample(&mut ctx, Message { label: "b".into(), value_bits: 0, time_ns: 150 }, 150);
    assert_eq!(ctx.cache.data.series.len(), 1);
    assert_eq!(ctx.cache.data.series[0].label, "b");
}

#[test]
fn redraw_throttle() {
    assert!(should_redraw(1_200, 1_000, 200));
    assert!(!should_redraw(1_199, 1_000, 200));
    assert!(!should_redraw(900, 1_000, 200));
}

#[test]
fn warn_console_visibility_and_scrolling() {
    let mut ctx = Context::new(R, 100, 5);
    let mut warn = LayerWarn::new();
    assert_eq!(warn.is_visible(&ctx, 10), (false, false));
    for t in 0..4 {
        on_warning(&mut ctx, t, format!("w{t}"));
    }
    assert_eq!(warn.is_visible(&ctx, 7), (false, true));
    assert_eq!(warn.is_visible(&ctx, 8), (false, false));
    assert_eq!(warn.handle_input(&ctx, InputEvent::Key('k')), HandleInput::Fallthru);
    assert_eq!(warn.handle_input(&ctx, InputEvent::Key('w')), HandleInput::Consumed);
    warn.handle_input(&ctx, InputEvent::Key('k'));
    warn.handle_input(&ctx, InputEvent::Key('k'));
    assert_eq!(warn.offset, 2);
    assert_eq!(warn.visible_range(4, 16), (0, 2));
    warn.handle_input(&ctx, InputEvent::Key('g'));
    assert_eq!(warn.offset, 3);
    warn.handle_input(&ctx, InputEvent::Key('k'));
    assert_eq!(warn.offset, 3);
    warn.handle_input(&ctx, InputEvent::Key('G'));
    assert_eq!(warn.offset, 0);
    warn.handle_input(&ctx, InputEvent::Key(' '));
    on_warning(&mut ctx, 9, "late".to_string());
    assert_eq!(warn.warnings_src(&ctx).len(), 4);
    warn.handle_input(&ctx, InputEvent::Key(' '));
    assert_eq!(warn.warnings_src(&ctx).len(), 5);
    assert_eq!(warn.visible_range(40, 16), (24, 40));
}

#[test]
fn legend_focus_cycles_through_labels() {
    let mut ctx = Context::new(R, 10, 1);
    for l in ["b", "a", "c"] {
        ctx.cache.push_message(Message { label: l.into(), value_bits: 0, time_ns: 1 });
    }
    let mut legend = LayerLegend::new();
    assert_eq!(legend.handle_input(&mut ctx, InputEvent::Key('j'), frame()), HandleInput::Fallthru);
    legend.handle_input(&mut ctx, InputEvent::Key('g'), frame());
    legend.handle_input(&mut ctx, InputEvent::Key('k'), frame());
    assert_eq!(legend.series_focus.as_deref(), Some("c"));
    legend.handle_input(&mut ctx, InputEvent::Key('j'), frame());
    assert_eq!(legend.series_focus.as_deref(), Some("a"));
    legend.handle_input(&mut ctx, InputEvent::Key('k'), frame());
    assert_eq!(legend.series_focus.as_deref(), Some("c"));
}

#[test]
fn legend_color_change_needs_focus() {
    let mut ctx = Context::new(R, 10, 1);
    ctx.cache.push_message(Message { label: "a".into(), value_bits: 0, time_ns: 1 });
    let mut legend = LayerLegend::new();
    legend.handle_input(&mut ctx, InputEvent::Key('g'), frame());
    legend.handle_input(&mut ctx, InputEvent::Key('c'), frame());
    legend.handle_input(&mut ctx, InputEvent::Key('r'), frame());
    assert_eq!(ctx.outgoing.len(), 1);
    assert!(ctx.outgoing[0].contains("no series is selected"));
    legend.handle_input(&mut ctx, InputEvent::Key('j'), frame());
    legend.handle_input(&mut ctx, InputEvent::Key('c'), frame());
    assert!(legend.changing_color);
    legend.handle_input(&mut ctx, InputEvent::Key('B'), frame());
    assert!(!legend.changing_color);
    assert_eq!(ctx.cache.config(&"a".to_string()).unwrap().color, [228, 26, 23]);
}

#[test]
fn legend_moves_and_reanchors() {
    let mut ctx = Context::new(R, 10, 1);
    let mut legend = LayerLegend::new();
    legend.last_dim = (20, 10);
    legend.handle_input(&mut ctx, InputEvent::Key('g'), frame());
    legend.handle_input(&mut ctx, InputEvent::Key('H'), frame());
    assert!(!legend.position.anchor.right);
    assert_eq!(legend.position.x_displace, 95);
    assert!(legend.position.anchor.bottom);
    assert_eq!(legend.position.y_displace, 30);
    legend.handle_input(&mut ctx, InputEvent::Key('J'), frame());
    assert!(legend.position.anchor.bottom);
    assert_eq!(legend.position.y_displace, 25);
}

#[test]
fn ui_options_build_context() {
    let options = Options { warning_backlog_size: 7, warning_display_ns: 3, data_backlog_ns: R };
    let ctx = options.context().unwrap();
    assert_eq!(ctx.retention_ns, R);
    assert_eq!(ctx.warning_backlog_size, 7);
    let too_long = Options { data_backlog_ns: MAX_RETENTION_NS + 1, ..options };
    assert!(too_long.context().is_none());
}

#[test]
fn loop_step_throttles_data_redraws() {
    let mut ctx = Context::new(R, 10, 1);
    let mut layers = stack();
    let mut state = LoopState::new(1_000_000_000);
    let sample = |t: u64| Message { label: "a".into(), value_bits: 0, time_ns: t };
    let r = loop_step(&mut state, &mut layers, &mut ctx, LoopEvent::Sample(sample(1)), frame(), 1_100_000_000);
    assert_eq!(r, LoopAction::Continue { redraw: false });
    assert_eq!(ctx.cache.data.series.len(), 1);
    let r = loop_step(&mut state, &mut layers, &mut ctx, LoopEvent::Sample(sample(2)), frame(), 1_200_000_000);
    assert_eq!(r, LoopAction::Continue { redraw: true });
    assert_eq!(state.last_redraw_ns, 1_200_000_000);
    let r = loop_step(&mut state, &mut layers, &mut ctx, LoopEvent::Warning(5, "w".into()), frame(), 1_300_000_000);
    assert_eq!(r, LoopAction::Continue { redraw: false });
    assert_eq!(ctx.warnings.len(), 1);
    let r = loop_step(&mut state, &mut layers, &mut ctx, LoopEvent::Tick, frame(), 1_300_000_000);
    assert_eq!(r, LoopAction::Continue { redraw: true });
    let r = loop_step(&mut state, &mut layers, &mut ctx, LoopEvent::Input(InputEvent::Key('q')), frame(), 0);
    assert_eq!(r, LoopAction::Continue { redraw: true });
    assert!(ctx.quit);
    assert_eq!(loop_step(&mut state, &mut layers, &mut ctx, LoopEvent::Cancelled, frame(), 0), LoopAction::Exit);
    assert_eq!(
        loop_step(&mut state, &mut layers, &mut ctx, LoopEvent::SamplesEnded, frame(), 0),
        LoopAction::Continue { redraw: false }
    );
    assert_eq!(loop_step(&mut state, &mut layers, &mut ctx, LoopEvent::WarningsEnded, frame(), 0), LoopAction::Exit);
}

#[test]
fn pan_by_half_steps() {
    let mut chart = LayerChart::new(R);
    chart.step_view('H', R);
    assert_eq!((chart.x_start, chart.x_end), (90_000_000_000, 30_000_000_000));
    chart.step_view('L', R);
    assert_eq!((chart.x_start, chart.x_end), (60_000_000_000, 0));
    chart.step_view('L', R);
    assert_eq!((chart.x_start, chart.x_end), (30_000_000_000, 0));
}
