//! What colors do to the text of a row.

use vstd::prelude::*;

use crate::config::{Config, ShareView};
use crate::label::{assignments, color, duration_debug, duration_text, info_text, label_text};
use crate::label::timed_label;
use crate::node::SpanView;
use crate::text::{decimal, joined, led};

verus! {

/// The text holds no escape character.
pub open spec fn escape_free(text: Seq<char>) -> bool {
    forall|i: int| 0 <= i < text.len() ==> #[trigger] text[i] != '\x1b'
}

/// Every text of the list is free of escape characters.
pub open spec fn all_escape_free(parts: Seq<Seq<char>>) -> bool {
    forall|i: int| 0 <= i < parts.len() ==> escape_free(#[trigger] parts[i])
}

/// No field holds an escape character, in its name or in its value.
pub open spec fn fields_escape_free(fields: Seq<(Seq<char>, Seq<char>)>) -> bool {
    forall|i: int|
        0 <= i < fields.len() ==> escape_free((#[trigger] fields[i]).0) && escape_free(fields[i].1)
}

/// A row with colors is one of the three color sequences, then the row without colors,
/// then the reset.
pub proof fn law_a_colored_row_is_the_plain_row_in_color(
    node: SpanView,
    share: ShareView,
    config: Config,
)
    ensures
        label_text(node, share, Config { no_color: false, ..config }) == color(share) + label_text(
            node,
            share,
            Config { no_color: true, ..config },
        ) + "\x1b[0m"@,
        color(share) == "\x1b[1;31m"@ || color(share) == "\x1b[0m"@ || color(share) == "\x1b[2m"@,
{
}

/// A row without colors holds no escape character where the name, the fields, the text of
/// the duration and that of the percentage hold none.
pub proof fn law_a_plain_row_has_no_escapes(
    node: SpanView,
    time: Seq<char>,
    share: ShareView,
    config: Config,
)
    requires
        config.no_color,
        escape_free(node.name),
        fields_escape_free(node.metadata),
        escape_free(time),
        escape_free(share.percent),
    ensures
        escape_free(timed_label(node, time, share, config)),
        time == duration_text(node.duration) ==> escape_free(label_text(node, share, config)),
{
    reveal_strlit(" [ ");
    reveal_strlit(" | ");
    reveal_strlit("% ]");
    lemma_info_escape_free(node);
}

proof fn lemma_info_escape_free(node: SpanView)
    requires
        fields_escape_free(node.metadata),
    ensures
        escape_free(info_text(node)),
{
    reveal_strlit(" (");
    reveal_strlit(" calls)");
    reveal_strlit(" { ");
    reveal_strlit(" }");
    reveal_strlit(", ");
    reveal_strlit(" = ");
    lemma_decimal_escape_free(node.calls as nat);
    let parts = assignments(node.metadata);
    assert forall|i: int| 0 <= i < parts.len() implies escape_free(#[trigger] parts[i]) by {
        assert(escape_free(node.metadata[i].0) && escape_free(node.metadata[i].1));
    }
    lemma_joined_escape_free(parts, ", "@);
}

proof fn lemma_decimal_escape_free(n: nat)
    ensures
        escape_free(decimal(n)),
    decreases n,
{
    reveal_strlit("0123456789");
    if n >= 10 {
        lemma_decimal_escape_free(n / 10);
    }
}

proof fn lemma_joined_escape_free(parts: Seq<Seq<char>>, separator: Seq<char>)
    requires
        all_escape_free(parts),
        escape_free(separator),
    ensures
        escape_free(joined(parts, separator)),
{
    if parts.len() > 0 {
        let rest = parts.skip(1);
        assert(all_escape_free(rest));
        lemma_led_escape_free(rest, separator);
        assert(escape_free(parts[0]));
    }
}

proof fn lemma_led_escape_free(parts: Seq<Seq<char>>, lead: Seq<char>)
    requires
        all_escape_free(parts),
        escape_free(lead),
    ensures
        escape_free(led(parts, lead)),
    decreases parts.len(),
{
    if parts.len() > 0 {
        lemma_led_escape_free(parts.drop_last(), lead);
        assert(escape_free(parts[parts.len() - 1]));
    }
}

/// A row without colors is the name, the time and the percentage. Behind them stand the number
/// of calls where there is more than one, else all fields, in order, where there are any, and
/// else nothing.
pub proof fn law_what_a_plain_row_reads(
    node: SpanView,
    time: Seq<char>,
    share: ShareView,
    config: Config,
)
    requires
        config.no_color,
    ensures
        ({
            let text = timed_label(node, time, share, config);
            let front = node.name + " [ "@ + time + " | "@ + share.percent + "% ]"@;
            &&& node.calls > 1 ==> text == front + " ("@ + decimal(node.calls as nat) + " calls)"@
            &&& node.calls <= 1 && node.metadata.len() == 0 ==> text == front
            &&& node.calls <= 1 && node.metadata.len() > 0 ==> text == front + " { "@ + joined(
                Seq::new(
                    node.metadata.len(),
                    |i: int| node.metadata[i].0 + " = "@ + node.metadata[i].1,
                ),
                ", "@,
            ) + " }"@
        }),
{
    let text = timed_label(node, time, share, config);
    let front = node.name + " [ "@ + time + " | "@ + share.percent + "% ]"@;
    let fields = Seq::new(
        node.metadata.len(),
        |i: int| node.metadata[i].0 + " = "@ + node.metadata[i].1,
    );
    assert(fields =~= assignments(node.metadata));
    assert(text =~= front + info_text(node));
    if node.calls > 1 {
        assert(text =~= front + " ("@ + decimal(node.calls as nat) + " calls)"@);
    } else if node.metadata.len() > 0 {
        assert(text =~= front + " { "@ + joined(fields, ", "@) + " }"@);
    }
}

/// A row that asks for attention is bold red, any other that is relevant is white, and all
/// others are gray. The color is reset at the end of the row.
pub proof fn law_which_color_a_row_has(
    node: SpanView,
    time: Seq<char>,
    share: ShareView,
    config: Config,
)
    requires
        !config.no_color,
    ensures
        ({
            let plain = timed_label(node, time, share, Config { no_color: true, ..config });
            let text = timed_label(node, time, share, config);
            &&& share.above_attention ==> text == "\x1b[1;31m"@ + plain + "\x1b[0m"@
            &&& !share.above_attention && share.above_relevant ==> text == "\x1b[0m"@ + plain
                + "\x1b[0m"@
            &&& !share.above_attention && !share.above_relevant ==> text == "\x1b[2m"@ + plain
                + "\x1b[0m"@
        }),
{
}

/// A row shows the duration of its node: the text of the whole seconds and the nanoseconds that
/// remain.
pub proof fn law_a_row_shows_the_duration(
    node: SpanView,
    share: ShareView,
    config: Config,
    secs: u64,
    nanos: u32,
)
    requires
        nanos < 1_000_000_000,
        node.duration == secs * 1_000_000_000 + nanos,
    ensures
        label_text(node, share, config) == timed_label(
            node,
            duration_debug(secs, nanos),
            share,
            config,
        ),
{
}

} // verus!
