//! The text of a row.

use vstd::prelude::*;
use vstd::string::*;

use crate::config::{Config, Share, ShareView};
use crate::metadata::{is_empty_metadata, metadata_entries};
use crate::node::{GraphNode, SpanView, DURATION_MAX};
use crate::text::lemma_texts_push;
use crate::text::{decimal, decimal_text, join_text, joined, text_pairs, texts};

verus! {

/// What the `Debug` format of `std::time::Duration` with two decimals writes for a
/// duration of that many seconds and nanoseconds.
pub uninterp spec fn duration_debug(secs: u64, nanos: u32) -> Seq<char>;

/// Formats a `std::time::Duration` by its `Debug` implementation, with two decimals. That
/// the text depends on the duration alone is all that is claimed of it.
#[verifier::external_body]
fn format_duration(secs: u64, nanos: u32) -> (text: String)
    requires
        nanos < 1_000_000_000,
    ensures
        text@ == duration_debug(secs, nanos),
{
    format!("{:.2?}", std::time::Duration::new(secs, nanos))
}

/// The text of a duration of that many nanoseconds.
pub open spec fn duration_text(nanos: u128) -> Seq<char> {
    duration_debug((nanos / 1_000_000_000) as u64, (nanos % 1_000_000_000) as u32)
}

/// The fields as `name = value` texts.
pub open spec fn assignments(fields: Seq<(Seq<char>, Seq<char>)>) -> Seq<Seq<char>> {
    fields.map_values(|pair: (Seq<char>, Seq<char>)| pair.0 + " = "@ + pair.1)
}

/// What stands behind the times of a row: the number of calls where there is more than
/// one, else the fields where there are any.
pub open spec fn info_text(node: SpanView) -> Seq<char> {
    if node.calls > 1 {
        " ("@ + decimal(node.calls as nat) + " calls)"@
    } else if node.metadata.len() > 0 {
        " { "@ + joined(assignments(node.metadata), ", "@) + " }"@
    } else {
        seq![]
    }
}

/// The text of a row without colors, where the node's duration reads `time`.
pub open spec fn plain_label(node: SpanView, time: Seq<char>, share: ShareView) -> Seq<char> {
    node.name + " [ "@ + time + " | "@ + share.percent + "% ]"@ + info_text(node)
}

/// The escape sequence that starts a row's color: bold red where it asks for attention,
/// white where it is relevant, gray otherwise.
pub open spec fn color(share: ShareView) -> Seq<char> {
    if share.above_attention {
        "\x1b[1;31m"@
    } else if share.above_relevant {
        "\x1b[0m"@
    } else {
        "\x1b[2m"@
    }
}

/// The text of a row, where the node's duration reads `time`.
pub open spec fn timed_label(
    node: SpanView,
    time: Seq<char>,
    share: ShareView,
    config: Config,
) -> Seq<char> {
    if config.no_color {
        plain_label(node, time, share)
    } else {
        color(share) + plain_label(node, time, share) + "\x1b[0m"@
    }
}

/// The text of a row.
pub open spec fn label_text(node: SpanView, share: ShareView, config: Config) -> Seq<char> {
    timed_label(node, duration_text(node.duration), share, config)
}

impl GraphNode {
    /// What stands behind the times of the row.
    fn info(&self) -> (text: String)
        ensures
            text@ == info_text(self@),
    {
        let mut text = String::new();
        if self.call_count > 1 {
            text.append(" (");
            text.append(decimal_text(self.call_count as u64).as_str());
            text.append(" calls)");
            assert(text@ =~= info_text(self@));
        } else if !is_empty_metadata(&self.metadata) {
            let entries = metadata_entries(&self.metadata);
            let ghost all = assignments(self@.metadata);
            let mut parts: Vec<String> = Vec::new();
            let mut i: usize = 0;
            while i < entries.len()
                invariant
                    i <= entries@.len(),
                    text_pairs(entries@) == self@.metadata,
                    all == assignments(self@.metadata),
                    parts@.len() == i,
                    texts(parts@) == all.take(i as int),
                decreases entries.len() - i,
            {
                assert(text_pairs(entries@)[i as int] == self@.metadata[i as int]);
                let mut part = entries[i].0.clone();
                part.append(" = ");
                part.append(entries[i].1.as_str());
                assert(part@ =~= all[i as int]);
                proof {
                    lemma_texts_push(parts@, part, all);
                }
                parts.push(part);
                i += 1;
            }
            assert(text_pairs(entries@).len() == all.len());
            assert(all.take(i as int) =~= all);
            text.append(" { ");
            text.append(join_text(&parts, ", ").as_str());
            text.append(" }");
            assert(text@ =~= info_text(self@));
        } else {
            assert(text@ =~= info_text(self@));
        }
        text
    }

    /// The text of the row for this node, whose duration reads `time`.
    pub fn timed_label(&self, time: &str, share: &Share, config: &Config) -> (text: String)
        ensures
            text@ == timed_label(self@, time@, share@, *config),
    {
        let mut text = String::new();
        if !config.no_color {
            if share.above_attention {
                text.append("\x1b[1;31m");
            } else if share.above_relevant {
                text.append("\x1b[0m");
            } else {
                text.append("\x1b[2m");
            }
        }
        text.append(self.name.as_str());
        text.append(" [ ");
        text.append(time);
        text.append(" | ");
        text.append(share.percent.as_str());
        text.append("% ]");
        text.append(self.info().as_str());
        if !config.no_color {
            text.append("\x1b[0m");
        }
        assert(text@ =~= timed_label(self@, time@, share@, *config));
        text
    }

    /// The text of the row for this node.
    pub fn label(&self, share: &Share, config: &Config) -> (text: String)
        requires
            self.execution_duration <= DURATION_MAX,
        ensures
            text@ == label_text(self@, share@, *config),
    {
        let secs: u64 = (self.execution_duration / 1_000_000_000) as u64;
        let nanos: u32 = (self.execution_duration % 1_000_000_000) as u32;
        self.timed_label(format_duration(secs, nanos).as_str(), share, config)
    }
}

} // verus!
