use tailchart::layers::{Context, InputEvent, Layer, LayerCommand};
use tailchart::series::{Cache, Message};
use tailchart::viewport::{data_to_targets, LayerChart, RenderTimeRange};

fn sample(label: &str, value: f64, time_ns: u64) -> Message {
    Message { label: label.to_string(), value_bits: value.to_bits(), time_ns }
}

fn times(cache: &Cache, label: &str) -> Vec<u64> {
    cache
        .data
        .series
        .iter()
        .find(|s| s.label == label)
        .map(|s| s.data.iter().map(|d| d.time_ns).collect())
        .unwrap_or_default()
}

#[test]
fn trim_keeps_only_recent_samples() {
    let mut cache = Cache::new();
    for (label, t) in [("a", 1), ("a", 5), ("b", 2), ("a", 9), ("b", 3), ("c", 10)] {
        cache.push_message(sample(label, 1.0, t));
    }
    cache.trim(5);
    assert_eq!(times(&cache, "a"), vec![5, 9]);
    assert!(cache.data.series.iter().all(|s| s.label != "b"));
    assert_eq!(times(&cache, "c"), vec![10]);
    for s in &cache.data.series {
        assert!(!s.data.is_empty());
        assert!(s.data.iter().all(|d| d.time_ns >= 5));
    }
}

#[test]
fn trim_of_empty_cache_is_empty() {
    let mut cache = Cache::new();
    cache.trim(100);
    assert!(cache.data.series.is_empty());
}

#[test]
fn series_are_ordered_by_label() {
    let mut cache = Cache::new();
    for label in ["m", "b", "z", "a"] {
        cache.push_message(sample(label, 0.0, 1));
    }
    let labels: Vec<&str> = cache.data.series.iter().map(|s| s.label.as_str()).collect();
    assert_eq!(labels, vec!["a", "b", "m", "z"]);
}

#[test]
fn late_sample_goes_in_time_order_after_equal_times() {
    let mut cache = Cache::new();
    cache.push_message(sample("a", 1.0, 10));
    cache.push_message(sample("a", 2.0, 30));
    cache.push_message(sample("a", 3.0, 10));
    cache.push_message(sample("a", 4.0, 20));
    let s = &cache.data.series[0];
    let got: Vec<(u64, f64)> = s.data.iter().map(|d| (d.time_ns, f64::from_bits(d.value_bits))).collect();
    assert_eq!(got, vec![(10, 1.0), (10, 3.0), (20, 4.0), (30, 2.0)]);
}

#[test]
fn color_survives_eviction() {
    let mut cache = Cache::new();
    cache.push_message(sample("x", 1.0, 1));
    cache.push_message(sample("y", 1.0, 1));
    let before = cache.config(&"y".to_string()).unwrap();
    cache.trim(2);
    assert!(cache.data.series.is_empty());
    cache.push_message(sample("z", 1.0, 3));
    cache.push_message(sample("y", 1.0, 3));
    let after = cache.config(&"y".to_string()).unwrap();
    assert_eq!(before, after);
    assert_eq!(after.color, [55, 126, 184]);
    assert_eq!(cache.config(&"z".to_string()).unwrap().color, [77, 175, 74]);
}

#[test]
fn palette_wraps_after_nine_labels() {
    let mut cache = Cache::new();
    for i in 0..10 {
        cache.push_message(sample(&format!("l{i}"), 0.0, 1));
    }
    assert_eq!(cache.config(&"l0".to_string()).unwrap().color, [228, 26, 28]);
    assert_eq!(cache.config(&"l8".to_string()).unwrap().color, [153, 153, 153]);
    assert_eq!(cache.config(&"l9".to_string()).unwrap().color, [228, 26, 28]);
    assert!(cache.config(&"l9".to_string()).unwrap().visible);
    assert!(cache.config(&"nope".to_string()).is_none());
}

#[test]
fn nudge_color_saturates() {
    let mut cache = Cache::new();
    cache.push_message(sample("a", 0.0, 1));
    let label = "a".to_string();
    cache.nudge_color(&label, 0, true);
    cache.nudge_color(&label, 1, false);
    assert_eq!(cache.config(&label).unwrap().color, [233, 21, 28]);
    for _ in 0..10 {
        cache.nudge_color(&label, 0, true);
    }
    assert_eq!(cache.config(&label).unwrap().color[0], 255);
}

#[test]
fn freeze_keeps_snapshot_and_unfreeze_shows_live() {
    let mut ctx = Context::new(60_000_000_000, 10, 5_000_000_000);
    ctx.cache.push_message(sample("a", 1.0, 100));
    let mut layers = vec![Layer::Base(LayerChart::new(60_000_000_000))];
    let mut cmds: Vec<LayerCommand> = Vec::new();
    if let Layer::Base(chart) = &mut layers[0] {
        chart.handle_input(&mut ctx, InputEvent::Key(' '), &mut cmds, 500);
        ctx.cache.push_message(sample("a", 2.0, 200));
        ctx.cache.push_message(sample("b", 3.0, 300));
        let (now, shown) = chart.displayed(&ctx.cache, 900);
        assert_eq!(now, 500);
        assert_eq!(shown.series.len(), 1);
        assert_eq!(shown.series[0].data.len(), 1);
        chart.handle_input(&mut ctx, InputEvent::Key(' '), &mut cmds, 900);
        let (now, shown) = chart.displayed(&ctx.cache, 900);
        assert_eq!(now, 900);
        assert_eq!(shown.series.len(), 2);
        assert_eq!(shown.series[0].data.len(), 2);
    } else {
        panic!("base layer expected");
    }
}

#[test]
fn targets_hold_points_in_window_as_ages() {
    let mut cache = Cache::new();
    for t in [10, 50, 90, 120] {
        cache.push_message(sample("a", t as f64, t));
    }
    let time = RenderTimeRange { now_ns: 100, since_start: 60, since_end: 5 };
    assert_eq!(time.abs_range(), (40, 95));
    let targets = data_to_targets(&cache, &cache.data, time);
    assert_eq!(targets.len(), 1);
    assert_eq!(targets[0].label, "a");
    assert_eq!(targets[0].points, vec![(50, 50f64.to_bits()), (10, 90f64.to_bits())]);
    assert!(targets[0].visible);
}

#[test]
fn time_range_saturates_at_epoch() {
    let time = RenderTimeRange { now_ns: 10, since_start: 60, since_end: 5 };
    assert_eq!(time.starts_at(), 0);
    assert_eq!(time.ends_at(), 5);
}
