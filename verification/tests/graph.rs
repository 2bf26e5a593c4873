use span_graph::{Config, CounterValue, Event, EventCounts, GraphNode, Layer, Parent, Share, State};

const MAIN: u64 = 1;
const OTHER: u64 = 2;

fn config() -> Config {
    Config::from_env(true, None, None, None, Some(true))
}

fn fields(pairs: &[(&str, &str)]) -> Vec<(String, String)> {
    pairs.iter().map(|(k, v)| (k.to_string(), v.to_string())).collect()
}

fn plain_event(name: &str, pairs: &[(&str, &str)]) -> Event {
    let mut event = Event::new(name);
    for (field, text) in pairs {
        event.record_text(field, text);
    }
    event
}

fn increment(name: &str, value: i64) -> Event {
    let mut event = Event::new(name);
    event.record_bool("counter", true);
    event.record_bool("incremental", true);
    event.record_i64("value", value);
    event
}

fn gauge(name: &str, pairs: &[(&str, &str)], value: i64) -> Event {
    let mut event = plain_event(name, pairs);
    event.record_bool("counter", true);
    event.record_i64("value", value);
    event
}

fn millis(n: u128) -> u128 {
    n * 1_000_000
}

fn secs(nanos: u128) -> f64 {
    std::time::Duration::new((nanos / 1_000_000_000) as u64, (nanos % 1_000_000_000) as u32).as_secs_f64()
}

/// Attention above 25%, relevant above 2.5%, hidden below 1%.
fn judge(nanos: u128, root_time: u128) -> Share {
    let percent: f64 = 100.0 * secs(nanos) / secs(root_time);
    Share {
        percent: format!("{percent:.2}"),
        above_attention: percent > 25.0,
        above_relevant: percent > 2.5,
        below_hide: percent < 1.0,
    }
}

fn node(name: &str, nanos: u128) -> GraphNode {
    let mut node = GraphNode::new(name);
    node.execution_duration = nanos;
    node.call_count = 1;
    node
}

fn parent(name: &str, nanos: u128, children: Vec<GraphNode>) -> GraphNode {
    let mut node = node(name, nanos);
    node.child_nodes = children;
    node
}

fn rows(root: &GraphNode, config: &Config) -> Vec<String> {
    let tree = root.render_tree(root.execution_duration, &judge, config);
    tree.children.iter().map(|child| child.label.clone()).collect()
}

#[test]
fn test_incremental_events_counts() {
    let (layer, mut state) = Layer::new(MAIN, config());

    layer.on_new_span(&mut state, 1, &fields(&[]));
    assert_eq!(layer.on_enter(&mut state, MAIN, 1, millis(0)), None);
    layer.on_event(&mut state, MAIN, false, None, Some(1), &increment("proof_size", 1));

    // child spans 1 and 2 are siblings
    layer.on_new_span(&mut state, 2, &fields(&[("field1", "value1"), ("perfetto_track_id", "5")]));
    layer.on_enter(&mut state, MAIN, 2, millis(20));
    assert!(layer.on_exit(&mut state, MAIN, 2, "child span1", Parent::Contextual(1), millis(40)).is_none());

    layer.on_new_span(
        &mut state,
        3,
        &fields(&[
            ("field2", "value2"),
            ("value", "20"),
            ("perfetto_track_id", "5"),
            ("perfetto_flow_id", "10"),
        ]),
    );
    layer.on_enter(&mut state, MAIN, 3, millis(40));
    layer.on_event(&mut state, MAIN, false, None, Some(3), &increment("proof_size", 3));

    // child spans 3 and 4 are siblings
    layer.on_new_span(&mut state, 4, &fields(&[("field3", "value3")]));
    layer.on_enter(&mut state, MAIN, 4, millis(60));
    layer.on_event(&mut state, MAIN, false, None, Some(4), &gauge("custom event", &[("field5", "value5")], 30));
    layer.on_exit(&mut state, MAIN, 4, "child span3", Parent::Contextual(3), millis(80));

    // a span of another thread, without a parent
    layer.on_new_span(&mut state, 5, &fields(&[("field5", "value5")]));
    layer.on_enter(&mut state, OTHER, 5, millis(80));
    layer.on_event(&mut state, OTHER, false, None, Some(5), &increment("proof_size", 6));
    layer.on_exit(&mut state, OTHER, 5, "child span5", Parent::Root, millis(100));

    layer.on_new_span(&mut state, 6, &fields(&[("field4", "value4"), ("perfetto_flow_id", "10")]));
    layer.on_event(&mut state, MAIN, false, None, Some(3), &gauge("custom event", &[("field5", "value5")], 40));
    layer.on_enter(&mut state, MAIN, 6, millis(120));
    layer.on_exit(&mut state, MAIN, 6, "child span4", Parent::Contextual(3), millis(140));
    layer.on_exit(&mut state, MAIN, 3, "child span2", Parent::Contextual(1), millis(140));

    let root = state.unfinished_spans.get_mut(&1).unwrap();
    root.accumulate_children_events(true);
    assert_eq!(*root.events.get("proof_size").unwrap(), CounterValue::Int(10));
    assert_eq!(*root.events.get("custom event { field5: value5 }").unwrap(), CounterValue::Int(2));
    assert_eq!(*root.events.get("child span5").unwrap(), CounterValue::Int(1));
    assert_eq!(root.events.get("root span"), None);

    // remove to avoid an incorrect graph print
    state.unfinished_spans.remove(&1).unwrap();
}

#[test]
fn documented_graph_is_drawn_as_documented() {
    let (layer, mut state) = Layer::new(MAIN, Config::from_env(false, None, None, None, Some(true)));
    layer.on_new_span(&mut state, 1, &fields(&[]));
    layer.on_enter(&mut state, MAIN, 1, 0);
    layer.on_new_span(&mut state, 2, &fields(&[("field1", "value1")]));
    layer.on_enter(&mut state, MAIN, 2, 1_000);
    layer.on_exit(&mut state, MAIN, 2, "child span1", Parent::Contextual(1), 1_000 + 4_630);
    layer.on_new_span(&mut state, 3, &fields(&[("field2", "value2")]));
    layer.on_enter(&mut state, MAIN, 3, 10_000);
    layer.on_event(&mut state, MAIN, false, None, None, &plain_event("event in span2", &[]));
    layer.on_new_span(&mut state, 4, &fields(&[("field3", "value3")]));
    layer.on_enter(&mut state, MAIN, 4, 20_000);
    for _ in 0..2 {
        layer.on_event(&mut state, MAIN, false, None, None, &plain_event("event in span3", &[("field5", "value5")]));
    }
    layer.on_exit(&mut state, MAIN, 4, "child span3", Parent::Contextual(3), 20_000 + 15_470);
    layer.on_new_span(&mut state, 5, &fields(&[("field4", "value4")]));
    layer.on_enter(&mut state, MAIN, 5, 60_000);
    layer.on_exit(&mut state, MAIN, 5, "child span4", Parent::Contextual(3), 60_000 + 2_870);
    layer.on_exit(&mut state, MAIN, 3, "child span2", Parent::Contextual(1), 10_000 + 93_400);
    let root = layer.on_exit(&mut state, MAIN, 1, "root span", Parent::Root, 178_940).unwrap();
    let text = root.print(&judge, &layer.config);
    let expected = [
        "root span [ 178.94µs | 100.00% ]",
        "Events:",
        "  event in span2: 1",
        "  event in span3 { field5: value5 }: 2",
        "",
        "├── child span1 [ 4.63µs | 2.59% ] { field1 = value1 }",
        "└── child span2 [ 93.40µs | 52.20% ] { field2 = value2 }",
        "    Events:",
        "      event in span2: 1",
        "      event in span3 { field5: value5 }: 2",
        "    ",
        "   ├── child span3 [ 15.47µs | 8.65% ] { field3 = value3 }",
        "   │   Events:",
        "   │     event in span3 { field5: value5 }: 2",
        "   │   ",
        "   └── child span4 [ 2.87µs | 1.60% ] { field4 = value4 }",
        "",
    ]
    .join("\n");
    assert_eq!(text, expected);
}

#[test]
fn children_of_a_middle_child_hang_on_its_branch() {
    let root = parent("r", 100, vec![parent("a", 50, vec![node("b", 20)]), node("c", 50)]);
    let text = root.print(&judge, &config());
    let lines: Vec<&str> = text.lines().collect();
    assert_eq!(lines, vec![
        "r [ 100.00ns | 100.00% ]",
        "├── a [ 50.00ns | 50.00% ]",
        "│  └── b [ 20.00ns | 20.00% ]",
        "└── c [ 50.00ns | 50.00% ]",
    ]);
}

#[test]
fn calls_that_are_not_relevant_are_aggregated() {
    let root = parent("r", 1_000, vec![node("a", 20), node("a", 15), node("a", 25), node("b", 12)]);
    assert_eq!(rows(&root, &config()), vec![
        "a [ 60.00ns | 6.00% ] (3 calls)",
        "b [ 12.00ns | 1.20% ]",
    ]);
}

#[test]
fn relevant_calls_are_numbered_and_kept() {
    let root = parent("r", 1_000, vec![
        node("a", 100),
        node("a", 20),
        node("a", 200),
        node("a", 15),
        node("a", 300),
        node("b", 50),
        node("a", 40),
    ]);
    assert_eq!(rows(&root, &config()), vec![
        "a [ 100.00ns | 10.00% ] { index = 1 }",
        "a [ 200.00ns | 20.00% ] { index = 3 }",
        "a [ 35.00ns | 3.50% ] (2 calls)",
        "a [ 300.00ns | 30.00% ]",
        "b [ 50.00ns | 5.00% ]",
        "a [ 40.00ns | 4.00% ]",
    ]);
}

#[test]
fn an_index_replaces_a_field_of_that_name_in_place() {
    let mut first = node("a", 100);
    first.metadata.insert("index".to_string(), "x".to_string());
    first.metadata.insert("k".to_string(), "v".to_string());
    let root = parent("r", 1_000, vec![first, node("a", 100)]);
    assert_eq!(rows(&root, &config())[0], "a [ 100.00ns | 10.00% ] { index = 1, k = v }");
}

#[test]
fn small_rows_are_collapsed() {
    let root = parent("r", 1_000, vec![
        node("a", 1),
        node("b", 2),
        node("c", 500),
        node("d", 3),
        node("e", 4),
        node("f", 400),
    ]);
    assert_eq!(rows(&root, &config()), vec![
        "[...] [ 3.00ns | 0.30% ] (2 calls)",
        "c [ 500.00ns | 50.00% ]",
        "[...] [ 7.00ns | 0.70% ] (2 calls)",
        "f [ 400.00ns | 40.00% ]",
    ]);
    let shown = Config { hide_small: false, ..config() };
    assert_eq!(rows(&root, &shown).len(), 6);
}

#[test]
fn collapsing_comes_after_aggregation() {
    let root = parent("r", 1_000, vec![node("a", 6), node("a", 6), node("b", 900)]);
    assert_eq!(rows(&root, &config()), vec![
        "a [ 12.00ns | 1.20% ] (2 calls)",
        "b [ 900.00ns | 90.00% ]",
    ]);
}

#[test]
fn unaccounted_time_is_displayed_first() {
    let shown = Config { display_unaccounted: true, ..config() };
    let root = parent("r", 1_000, vec![node("a", 300), node("b", 450)]);
    assert_eq!(rows(&root, &shown), vec![
        "[unaccounted] [ 250.00ns | 25.00% ]",
        "a [ 300.00ns | 30.00% ]",
        "b [ 450.00ns | 45.00% ]",
    ]);
    assert!(rows(&node("leaf", 10), &shown).is_empty());
    let full = parent("r", 1_000, vec![node("a", 400), node("b", 600)]);
    assert_eq!(rows(&full, &shown)[0], "[unaccounted] [ 0.00ns | 0.00% ]");
    assert!(full.checked_print(&judge, &shown).is_some());
}

#[test]
fn children_that_ran_longer_than_their_parent_leave_nothing_unaccounted() {
    let root = parent("r", 100, vec![node("a", 60), node("b", 60)]);
    assert!(root.unaccounted().is_none());
    let shown = Config { display_unaccounted: true, ..config() };
    assert!(root.checked_render_tree(100, &judge, &shown).is_none());
    assert!(root.checked_render_tree(100, &judge, &config()).is_some());
}

#[test]
fn colors_follow_the_share() {
    let colored = Config { no_color: false, ..config() };
    let root = parent("r", 1_000, vec![node("a", 20), node("b", 100)]);
    let tree = root.render_tree(1_000, &judge, &colored);
    assert_eq!(tree.label, "\x1b[1;31mr [ 1.00µs | 100.00% ]\x1b[0m");
    assert_eq!(tree.children[0].label, "\x1b[2ma [ 20.00ns | 2.00% ]\x1b[0m");
    assert_eq!(tree.children[1].label, "\x1b[0mb [ 100.00ns | 10.00% ]\x1b[0m");
    let plain = root.render_tree(1_000, &judge, &config());
    assert_eq!(tree.label, format!("\x1b[1;31m{}\x1b[0m", plain.label));
    assert!(!plain.label.contains('\x1b'));
}

#[test]
fn durations_are_written_with_two_decimals() {
    let label = |nanos: u128| node("n", nanos).label(&judge(1, 1), &config());
    assert_eq!(label(1_234_567_890), "n [ 1.23s | 100.00% ]");
    assert_eq!(label(18_446_744_073_709_551_615_999_999_999), "n [ 18446744073709551616.00s | 100.00% ]");
    assert_eq!(label(0), "n [ 0.00ns | 100.00% ]");
}

#[test]
fn calls_take_the_place_of_fields() {
    let mut many = node("n", 5);
    many.metadata.insert("a".to_string(), "b".to_string());
    assert_eq!(many.label(&judge(5, 5), &config()), "n [ 5.00ns | 100.00% ] { a = b }");
    many.call_count = 12;
    assert_eq!(many.label(&judge(5, 5), &config()), "n [ 5.00ns | 100.00% ] (12 calls)");
    assert_eq!(many.timed_label("soon", &judge(5, 5), &config()), "n [ soon | 100.00% ] (12 calls)");
}

#[test]
fn aggregation_adds_and_refuses_to_overflow() {
    let mut a = node("a", 5);
    a.events.record(&increment("k", 2));
    let mut b = node("b", 7);
    b.events.record(&increment("k", 3));
    b.events.record(&increment("l", 1));
    let sum = a.clone().aggregate(&b);
    assert_eq!(sum.name, "a");
    assert_eq!(sum.execution_duration, 12);
    assert_eq!(sum.call_count, 2);
    assert_eq!(sum.events.format(), vec!["k: 5", "l: 1"]);

    b.call_count = usize::MAX;
    assert!(a.clone().checked_aggregate(&b).is_none());
    b.call_count = 1;
    b.execution_duration = span_graph::node::DURATION_MAX - 4;
    assert!(a.clone().checked_aggregate(&b).is_none());
    b.execution_duration -= 1;
    assert!(a.clone().checked_aggregate(&b).is_some());
    b.events.record(&increment("k", i64::MAX - 3));
    assert!(a.checked_aggregate(&b).is_none());
}

#[test]
fn counters_add_up_and_refuse_to_overflow() {
    let mut counts = EventCounts::default();
    assert!(counts.is_empty());
    assert!(counts.checked_increase("a", i64::MAX));
    assert!(!counts.checked_increase("a", 1));
    assert_eq!(*counts.get("a").unwrap(), CounterValue::Int(i64::MAX));
    assert!(counts.checked_increase("a", -5));
    assert!(counts.checked_increase("b", i64::MIN));
    assert!(!counts.checked_record(&increment("b", -1)));
    counts.increment_events_counter("c");
    assert_eq!(counts.format(), vec![
        "a: 9223372036854775802",
        "b: -9223372036854775808",
        "c: 1",
    ]);
    let mut other = EventCounts::default();
    other.record(&increment("c", 4));
    other.record(&increment("d", 0));
    counts.add_counts(&other);
    assert_eq!(*counts.get("c").unwrap(), CounterValue::Int(5));
    assert_eq!(*counts.get("d").unwrap(), CounterValue::Int(0));
    assert_eq!(counts.get("e"), None);
    other.record(&increment("a", 100));
    assert!(counts.checked_sum(&other).is_none());
    counts.clear();
    assert!(counts.is_empty());
}

#[test]
fn the_order_of_events_does_not_change_a_total() {
    let mut one = EventCounts::default();
    one.record(&increment("a", 2));
    one.record(&plain_event("a", &[]));
    let mut other = EventCounts::default();
    other.record(&plain_event("a", &[]));
    other.record(&increment("a", 2));
    assert_eq!(one.get("a"), other.get("a"));
    assert_eq!(*one.get("a").unwrap(), CounterValue::Int(3));
}

#[test]
fn events_are_described_by_name_and_fields() {
    assert_eq!(plain_event("e", &[]).description(), "e");
    assert_eq!(plain_event("e", &[("a", "1"), ("b", "2")]).description(), "e { a: 1, b: 2 }");
    let mut event = Event::new("e");
    event.record_bool("ok", true);
    event.record_bool("late", false);
    event.record_i64("n", -3);
    event.record_u64("m", 7);
    event.record_u64("value", u64::MAX);
    event.record_bool("counter", true);
    assert_eq!(event.value, None);
    assert!(event.counter && !event.incremental);
    assert_eq!(
        event.description(),
        "e { ok: true, late: false, n: -3, m: 7, value: 18446744073709551615 }"
    );
    event.record_u64("value", 9);
    event.record_bool("incremental", true);
    assert_eq!(event.value, Some(9));
    let mut counts = EventCounts::default();
    counts.record(&event);
    assert_eq!(counts.format(), vec!["e: 9"]);
}

#[test]
fn accumulation_adds_up_the_tree() {
    let mut leaf = node("leaf", 1);
    leaf.events.record(&increment("k", 5));
    let mut middle = parent("mid", 2, vec![leaf.clone(), leaf]);
    middle.events.record(&increment("k", 1));
    let mut root = parent("root", 3, vec![middle]);
    let mut counted = root.clone();
    root.accumulate_children_events(false);
    assert_eq!(*root.events.get("k").unwrap(), CounterValue::Int(11));
    assert_eq!(*root.child_nodes[0].events.get("k").unwrap(), CounterValue::Int(11));
    assert_eq!(root.events.get("leaf"), None);
    counted.accumulate_children_events(true);
    assert_eq!(*counted.events.get("leaf").unwrap(), CounterValue::Int(2));
    assert_eq!(*counted.events.get("mid").unwrap(), CounterValue::Int(1));
    assert_eq!(*counted.child_nodes[0].child_nodes[0].events.get("leaf").unwrap(), CounterValue::Int(1));
    assert_eq!(counted.execution_duration, 3);
}

#[test]
fn accumulation_refuses_to_overflow() {
    let mut leaf = node("leaf", 1);
    leaf.events.record(&increment("k", i64::MAX));
    let root = parent("root", 3, vec![leaf.clone(), leaf]);
    assert!(root.checked_accumulate(false).is_none());
    assert!(root.checked_print(&judge, &config()).is_none());
}

#[test]
fn a_span_records_itself_as_an_event() {
    let mut span = node("s", 1);
    span.record_self_as_event();
    span.record_self_as_event();
    assert_eq!(*span.events.get("s").unwrap(), CounterValue::Int(2));
}

#[test]
fn events_outside_of_spans_are_listed_once() {
    let (layer, mut state) = Layer::new(MAIN, config());
    assert_eq!(state.print_zero_level_events(), None);
    layer.on_event(&mut state, MAIN, false, None, None, &plain_event("a", &[]));
    layer.on_event(&mut state, MAIN, false, None, None, &plain_event("b", &[("k", "v")]));
    layer.on_new_span(&mut state, 1, &fields(&[]));
    assert_eq!(
        layer.on_enter(&mut state, MAIN, 1, 0),
        Some("> a: 1\n> b { k: v }: 1\n".to_string())
    );
    assert_eq!(layer.on_enter(&mut state, MAIN, 1, 0), None);
    assert_eq!(state.print_zero_level_events(), None);
}

#[test]
fn events_find_their_span() {
    let (layer, mut state) = Layer::new(MAIN, config());
    for id in 1..4 {
        layer.on_new_span(&mut state, id, &fields(&[]));
    }
    layer.on_enter(&mut state, MAIN, 1, 0);
    let event = plain_event("e", &[]);
    layer.on_event(&mut state, MAIN, false, Some(3), Some(2), &event);
    layer.on_event(&mut state, MAIN, false, None, Some(2), &event);
    layer.on_event(&mut state, MAIN, false, None, None, &event);
    layer.on_event(&mut state, MAIN, true, None, None, &event);
    layer.on_event(&mut state, MAIN, false, Some(9), None, &event);
    layer.on_event(&mut state, OTHER, false, None, None, &event);
    for id in 1..4 {
        let span = state.unfinished_spans.get(&id).unwrap();
        assert_eq!(*span.events.get("e").unwrap(), CounterValue::Int(1));
    }
    assert_eq!(*state.zero_level_events.get("e").unwrap(), CounterValue::Int(1));
    layer.on_event(&mut state, MAIN, false, None, None, &increment("n", i64::MAX));
    assert!(!layer.checked_on_event(&mut state, MAIN, false, None, None, &increment("n", 1)));
    assert!(!layer.checked_on_event(&mut state, MAIN, false, Some(1), None, &increment("n", i64::MAX)));
}

#[test]
fn fields_are_recorded_in_order() {
    let (layer, mut state) = Layer::new(MAIN, config());
    layer.on_new_span(&mut state, 1, &fields(&[("a", "1"), ("b", "2"), ("a", "3")]));
    layer.on_record(&mut state, 1, &fields(&[("c", "4"), ("b", "5")]));
    layer.on_record(&mut state, 2, &fields(&[("c", "4")]));
    assert!(state.unfinished_spans.get(&2).is_none());
    layer.on_enter(&mut state, MAIN, 1, 10);
    let graph = layer.on_exit(&mut state, MAIN, 1, "s", Parent::Root, 17).unwrap();
    assert_eq!(graph.print(&judge, &config()), "s [ 7.00ns | 100.00% ] { a = 3, b = 5, c = 4 }\n");
}

#[test]
fn current_spans_are_kept_per_thread() {
    let mut state = State::default();
    assert_eq!(state.current_span(MAIN), None);
    state.set_current_span(MAIN, Some(4));
    state.set_current_span(OTHER, Some(5));
    state.set_current_span(MAIN, Some(6));
    assert_eq!(state.current_span(MAIN), Some(6));
    assert_eq!(state.current_span(OTHER), Some(5));
    state.set_current_span(OTHER, None);
    assert_eq!(state.current_span(OTHER), None);
}

#[test]
fn leaving_a_span_restores_its_parent() {
    let (layer, mut state) = Layer::new(MAIN, config());
    layer.on_new_span(&mut state, 1, &fields(&[]));
    layer.on_new_span(&mut state, 2, &fields(&[]));
    layer.on_enter(&mut state, MAIN, 1, 0);
    layer.on_enter(&mut state, MAIN, 2, 3);
    assert!(layer.on_exit(&mut state, MAIN, 2, "inner", Parent::Contextual(1), 5).is_none());
    assert_eq!(state.current_span(MAIN), Some(1));
    assert!(state.unfinished_spans.get(&2).is_none());
    let outer = state.unfinished_spans.get(&1).unwrap();
    assert_eq!(outer.child_nodes.len(), 1);
    assert_eq!(outer.child_nodes[0].name, "inner");
    assert_eq!(outer.child_nodes[0].execution_duration, 2);
    assert_eq!(outer.child_nodes[0].call_count, 1);
    let graph = layer.on_exit(&mut state, MAIN, 1, "outer", Parent::Root, 9).unwrap();
    assert_eq!(graph.execution_duration, 9);
    assert_eq!(state.current_span(MAIN), None);
}

#[test]
fn a_span_without_open_parent_is_handed_out() {
    let (layer, mut state) = Layer::new(MAIN, config());
    layer.on_new_span(&mut state, 2, &fields(&[]));
    let graph = layer.on_exit(&mut state, MAIN, 2, "orphan", Parent::Contextual(1), 5).unwrap();
    assert_eq!(graph.name, "orphan");
    assert_eq!(graph.execution_duration, 0);
    assert_eq!(state.current_span(MAIN), Some(1));
    let unknown = layer.on_exit(&mut state, MAIN, 7, "unknown", Parent::Root, 5).unwrap();
    assert_eq!(unknown.call_count, 0);
}

#[test]
fn a_clock_that_runs_backwards_gives_no_time() {
    let (layer, mut state) = Layer::new(MAIN, config());
    layer.on_new_span(&mut state, 1, &fields(&[]));
    layer.on_enter(&mut state, MAIN, 1, 10);
    let graph = layer.on_exit(&mut state, MAIN, 1, "s", Parent::Root, 9).unwrap();
    assert_eq!(graph.execution_duration, 0);
}

#[test]
fn other_threads_need_a_parent_or_a_span_on_the_main_thread() {
    let (layer, mut state) = Layer::new(MAIN, config());
    assert!(layer.is_main_thread(MAIN));
    assert!(!layer.is_main_thread(OTHER));
    layer.on_new_span(&mut state, 1, &fields(&[]));
    layer.on_new_span(&mut state, 2, &fields(&[]));
    layer.on_enter(&mut state, OTHER, 1, 0);
    assert!(layer.on_exit(&mut state, OTHER, 1, "free", Parent::Root, 5).is_none());
    assert!(state.unfinished_spans.get(&1).is_some());
    assert_eq!(state.current_span(OTHER), None);
    layer.on_event(&mut state, OTHER, false, None, None, &plain_event("e", &[]));
    assert_eq!(*state.zero_level_events.get("e").unwrap(), CounterValue::Int(1));
    assert_eq!(state.unfinished_spans.get(&1).unwrap().events.get("e"), None);
    layer.on_enter(&mut state, OTHER, 2, 5);
    assert!(layer.on_exit(&mut state, OTHER, 2, "bound", Parent::Explicit(1), 8).is_none());
    assert_eq!(state.unfinished_spans.get(&1).unwrap().child_nodes[0].name, "bound");
    // the main thread is in a span that is not open
    layer.on_enter(&mut state, MAIN, 9, 8);
    layer.on_enter(&mut state, OTHER, 1, 9);
    assert!(layer.on_exit(&mut state, OTHER, 1, "free", Parent::Root, 10).is_none());
    assert!(state.unfinished_spans.get(&1).is_some());
    // the main thread is in the very span
    layer.on_enter(&mut state, MAIN, 1, 11);
    assert!(layer.on_exit(&mut state, OTHER, 1, "free", Parent::Root, 12).is_none());
    assert!(state.unfinished_spans.get(&1).is_some());
    assert_eq!(state.current_span(OTHER), None);
}

#[test]
fn contextual_spans_of_other_threads_are_not_captured() {
    let (layer, mut state) = Layer::new(MAIN, config());
    layer.on_new_span(&mut state, 1, &fields(&[]));
    layer.on_new_span(&mut state, 2, &fields(&[]));
    layer.on_enter(&mut state, MAIN, 1, 0);
    layer.on_enter(&mut state, OTHER, 2, 1);
    assert!(layer.on_exit(&mut state, OTHER, 2, "inner", Parent::Contextual(1), 4).is_none());
    assert!(state.unfinished_spans.get(&2).is_some());
    assert!(state.unfinished_spans.get(&1).unwrap().child_nodes.is_empty());
    assert_eq!(state.current_span(OTHER), Some(1));
    assert!(layer.on_exit(&mut state, OTHER, 2, "inner", Parent::Contextual(9), 5).is_none());
    assert_eq!(state.current_span(OTHER), Some(9));
    assert!(layer.on_exit(&mut state, OTHER, 2, "inner", Parent::Explicit(1), 6).is_none());
    assert_eq!(state.unfinished_spans.get(&1).unwrap().child_nodes[0].execution_duration, 5);
}

#[test]
fn spans_of_other_threads_join_the_span_of_the_main_thread() {
    let (layer, mut state) = Layer::new(MAIN, config());
    layer.on_new_span(&mut state, 1, &fields(&[]));
    layer.on_new_span(&mut state, 2, &fields(&[]));
    layer.on_enter(&mut state, MAIN, 1, 0);
    layer.on_enter(&mut state, OTHER, 2, 3);
    layer.on_event(&mut state, OTHER, false, None, None, &increment("k", 6));
    assert!(layer.on_exit(&mut state, OTHER, 2, "worker", Parent::Root, 8).is_none());
    assert!(state.unfinished_spans.get(&2).is_none());
    assert_eq!(state.current_span(OTHER), None);
    assert_eq!(state.current_span(MAIN), Some(1));
    let graph = layer.on_exit(&mut state, MAIN, 1, "main", Parent::Root, 10).unwrap();
    assert_eq!(graph.child_nodes.len(), 1);
    assert_eq!(graph.child_nodes[0].name, "worker");
    assert_eq!(graph.child_nodes[0].execution_duration, 5);
    let summed = graph.checked_accumulate(false).unwrap();
    assert_eq!(*summed.events.get("k").unwrap(), CounterValue::Int(6));
}

#[test]
fn a_span_of_another_thread_whose_parent_is_not_open_is_handed_out() {
    let (layer, mut state) = Layer::new(MAIN, config());
    layer.on_new_span(&mut state, 2, &fields(&[]));
    layer.on_enter(&mut state, OTHER, 2, 3);
    let graph = layer.on_exit(&mut state, OTHER, 2, "late", Parent::Explicit(1), 8).unwrap();
    assert_eq!(graph.name, "late");
    assert_eq!(state.current_span(OTHER), Some(1));
}

#[test]
fn siblings_hang_below_their_parent_in_the_order_they_were_left() {
    let (layer, mut state) = Layer::new(MAIN, config());
    for id in 1..5 {
        layer.on_new_span(&mut state, id, &fields(&[]));
    }
    for id in 1..5 {
        layer.on_enter(&mut state, MAIN, id, 0);
    }
    for (id, name) in [(3, "c"), (4, "d"), (2, "b")] {
        layer.on_exit(&mut state, MAIN, id, name, Parent::Contextual(1), 5);
    }
    let parent = state.unfinished_spans.get(&1).unwrap();
    let names: Vec<&str> = parent.child_nodes.iter().map(|node| node.name.as_str()).collect();
    assert_eq!(names, vec!["c", "d", "b"]);
    assert!(parent.child_nodes.iter().all(|node| node.call_count == 1));
    assert!((2..5).all(|id| state.unfinished_spans.get(&id).is_none()));
}

#[test]
fn settings_have_defaults() {
    let plain = Config::from_env(true, None, None, None, None);
    assert!(plain.hide_small && plain.accumulate_events);
    assert!(!plain.display_unaccounted && !plain.accumulate_spans_count && !plain.no_color);
    let set = Config::from_env(false, Some(true), Some(false), Some(true), Some(true));
    assert!(!set.hide_small && !set.accumulate_events);
    assert!(set.display_unaccounted && set.accumulate_spans_count && set.no_color);
    assert_eq!(span_graph::config::DISPLAY_UNACCOUNTED_VAR, "TREE_LAYER_DISPLAY_UNACCOUNTED");
}

#[test]
fn events_are_accumulated_only_where_asked_for() {
    let mut child = node("c", 50);
    child.events.record(&plain_event("e", &[]));
    let root = parent("r", 100, vec![child]);
    let quiet = Config { accumulate_events: false, accumulate_spans_count: true, ..config() };
    assert_eq!(
        root.clone().print(&judge, &quiet),
        "r [ 100.00ns | 100.00% ]\n└── c [ 50.00ns | 50.00% ]\n    Events:\n      e: 1\n    \n"
    );
    let loud = Config { accumulate_spans_count: true, ..config() };
    assert_eq!(
        root.print(&judge, &loud),
        "r [ 100.00ns | 100.00% ]\nEvents:\n  e: 1\n  c: 1\n\n└── c [ 50.00ns | 50.00% ]\n    Events:\n      e: 1\n      c: 1\n    \n"
    );
}

#[test]
fn decimal_numbers_are_written_in_full() {
    assert_eq!(span_graph::text::decimal_text(0), "0");
    assert_eq!(span_graph::text::decimal_text(u64::MAX), "18446744073709551615");
    assert_eq!(span_graph::text::signed_decimal_text(-10), "-10");
    assert_eq!(span_graph::text::join_text(&vec!["a".to_string(), "b".to_string()], ", "), "a, b");
    assert_eq!(span_graph::text::join_text(&vec![], ", "), "");
}
