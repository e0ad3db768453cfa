use ava::chart::counted_ticks;
use ava::chart::{color, escape, hover_rules, pieces};

#[test]
fn a_label_wraps_at_spaces_too_and_deepens_the_bottom() {
    assert_eq!(
        pieces("deepseek-v4.1-flash high"),
        ["deepseek-", "v4.1-", "flash ", "high"]
    );
}

#[test]
fn pieces_keep_their_breaks() {
    assert_eq!(pieces("r2wars-parity-max"), ["r2wars-", "parity-", "max"]);
    assert_eq!(pieces("a--b"), ["a-", "-", "b"]);
    assert!(pieces("").is_empty());
}

#[test]
fn escape_writes_entities() {
    assert_eq!(escape("a <b> & \"c\""), "a &lt;b&gt; &amp; &quot;c&quot;");
    assert_eq!(escape("plain"), "plain");
}

#[test]
fn a_series_is_coloured_by_its_hue() {
    assert_eq!(color(10), "hsl(10 60% 55%)");
    assert_eq!(color(0), "hsl(0 60% 55%)");
}

#[test]
fn hover_rules_light_a_series_and_its_legend_entry() {
    let rules = hover_rules(&[10, 200]);
    assert!(rules.contains(".line-chart:has(.series-0:hover) .legend-0"));
    assert!(rules.contains(".line-chart:has(.legend-1:hover) .series-1{opacity:1}"));
    assert!(rules.contains("color:hsl(200 60% 55%)"));
    assert!(rules.starts_with(".line-chart .series,.line-chart .legend{transition:opacity 0.12s"));
    assert!(!rules.contains("series-2"));
}

#[test]
fn a_counted_axis_thins_its_labels_and_gives_one_value_room() {
    let ticks = counted_ticks(1, 30);
    assert_eq!(ticks.len(), 30);
    assert_eq!(ticks[0].1, "1");
    assert_eq!(ticks[1].1, "");
    assert_eq!(ticks[3].1, "4");

    let ticks = counted_ticks(2, 2);
    assert_eq!(ticks, vec![(2, "2".to_string())]);
}

#[test]
fn a_short_counted_axis_labels_every_tick() {
    let ticks = counted_ticks(0, 11);
    assert!(ticks.iter().all(|(value, label)| *label == value.to_string()));
    assert_eq!(counted_ticks(5, 3), vec![(5, "5".to_string())]);
}

#[test]
fn a_percent_axis_ticks_every_quarter() {
    let ticks = ava::chart::percent_ticks();
    assert_eq!(ticks.len(), 5);
    assert_eq!(ticks[1].1, "25%");
    assert_eq!(ticks[4], (100, "100%".to_string()));
}

#[test]
fn a_seconds_axis_ticks_at_round_spans() {
    let ticks = ava::chart::seconds_ticks(3638);
    assert_eq!(ticks.last(), Some(&4200));
    assert_eq!(ticks[1], 600);
    assert_eq!(ticks[0], 0);
}

#[test]
fn a_long_seconds_axis_ticks_at_whole_hours() {
    let ticks = ava::chart::seconds_ticks(200_000);
    assert_eq!(ticks[1], 18_000);
    assert_eq!(ticks.last(), Some(&216_000));
    assert_eq!(ava::chart::seconds_ticks(0), vec![0, 10]);
}
