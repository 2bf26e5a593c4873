//! What is displayed, and how.

use vstd::prelude::*;

verus! {

/// Environment variable: display anything above this percentage in bold red.
pub const ATTENTION_ABOVE_VAR: &'static str = "TREE_LAYER_ATTENTION_ABOVE";

/// Environment variable: display anything above this percentage in regular white.
pub const RELEVANT_ABOVE_VAR: &'static str = "TREE_LAYER_RELEVANT_ABOVE";

/// Environment variable: collapse anything below this percentage.
pub const HIDE_BELOW_VAR: &'static str = "TREE_LAYER_HIDE_BELOW";

/// Environment variable: display the time that no child accounts for.
pub const DISPLAY_UNACCOUNTED_VAR: &'static str = "TREE_LAYER_DISPLAY_UNACCOUNTED";

/// Environment variable: accumulate events of the children into the parent.
pub const ACCUMULATE_EVENTS_VAR: &'static str = "TREE_LAYER_ACCUMULATE_EVENTS";

/// Environment variable: count spans as events.
pub const ACCUMULATE_SPANS_COUNT_VAR: &'static str = "TREE_LAYER_ACCUMULATE_SPANS_COUNT";

/// Environment variable: no colors.
pub const NO_COLOR_VAR: &'static str = "NO_COLOR";

/// Each setting is read from an environment variable of its own.
pub proof fn law_settings_have_their_own_variables()
    ensures
        ATTENTION_ABOVE_VAR@ == "TREE_LAYER_ATTENTION_ABOVE"@,
        RELEVANT_ABOVE_VAR@ == "TREE_LAYER_RELEVANT_ABOVE"@,
        HIDE_BELOW_VAR@ == "TREE_LAYER_HIDE_BELOW"@,
        DISPLAY_UNACCOUNTED_VAR@ == "TREE_LAYER_DISPLAY_UNACCOUNTED"@,
        ACCUMULATE_EVENTS_VAR@ == "TREE_LAYER_ACCUMULATE_EVENTS"@,
        ACCUMULATE_SPANS_COUNT_VAR@ == "TREE_LAYER_ACCUMULATE_SPANS_COUNT"@,
        NO_COLOR_VAR@ == "NO_COLOR"@,
{
}

/// Which parts of a call graph are displayed. The percentages themselves come with each
/// [`Share`].
#[derive(Debug, Clone, Copy, PartialEq, Eq, Structural)]
pub struct Config {
    /// Whether rows with [`Share::below_hide`] are collapsed into `[...]`.
    pub hide_small: bool,
    /// Whether to display parent time minus time of all children as `[unaccounted]`.
    pub display_unaccounted: bool,
    /// Whether to accumulate events of the children into the parent.
    pub accumulate_events: bool,
    /// Whether every span is counted as an event of its own name. Has effect only if
    /// `accumulate_events` is enabled.
    pub accumulate_spans_count: bool,
    /// Whether to disable color output.
    pub no_color: bool,
}

/// The setting, or `default` where there is none.
pub open spec fn setting_or(setting: Option<bool>, default: bool) -> bool {
    match setting {
        Some(b) => b,
        None => default,
    }
}

impl Config {
    /// The configuration for the settings found in the environment: events are
    /// accumulated unless a setting says otherwise, everything else is off unless a
    /// setting turns it on.
    pub fn from_env(
        hide_small: bool,
        display_unaccounted: Option<bool>,
        accumulate_events: Option<bool>,
        accumulate_spans_count: Option<bool>,
        no_color: Option<bool>,
    ) -> (config: Config)
        ensures
            config.hide_small == hide_small,
            config.display_unaccounted == setting_or(display_unaccounted, false),
            config.accumulate_events == setting_or(accumulate_events, true),
            config.accumulate_spans_count == setting_or(accumulate_spans_count, false),
            config.no_color == setting_or(no_color, false),
            display_unaccounted matches Some(on) ==> config.display_unaccounted == on,
            accumulate_events matches Some(on) ==> config.accumulate_events == on,
            accumulate_spans_count matches Some(on) ==> config.accumulate_spans_count == on,
            no_color matches Some(on) ==> config.no_color == on,
            display_unaccounted is None ==> !config.display_unaccounted,
            accumulate_events is None ==> config.accumulate_events,
            accumulate_spans_count is None ==> !config.accumulate_spans_count,
            no_color is None ==> !config.no_color,
    {
        Config {
            hide_small,
            display_unaccounted: display_unaccounted.unwrap_or(false),
            accumulate_events: accumulate_events.unwrap_or(true),
            accumulate_spans_count: accumulate_spans_count.unwrap_or(false),
            no_color: no_color.unwrap_or(false),
        }
    }
}

/// How a duration compares with the time of the whole graph.
#[derive(Debug)]
pub struct Share {
    /// The percentage, with two decimals.
    pub percent: String,
    /// Whether it is above the percentage that asks for attention.
    pub above_attention: bool,
    /// Whether it is above the percentage that counts as relevant.
    pub above_relevant: bool,
    /// Whether it is below the percentage under which rows are collapsed.
    pub below_hide: bool,
}

/// What a [`Share`] holds.
pub struct ShareView {
    pub percent: Seq<char>,
    pub above_attention: bool,
    pub above_relevant: bool,
    pub below_hide: bool,
}

impl View for Share {
    type V = ShareView;

    open spec fn view(&self) -> ShareView {
        ShareView {
            percent: self.percent@,
            above_attention: self.above_attention,
            above_relevant: self.above_relevant,
            below_hide: self.below_hide,
        }
    }
}

} // verus!
