//! What recording an event does to the counters.

use vstd::prelude::*;

use crate::assoc::lemma_position;
use crate::assoc::{distinct, lookup};
use crate::events::law_increase_adds_to_one_counter;
use crate::events::{count_texts, field_texts, increased, merged, recorded, total};
use crate::events::{CounterValue, Counts, Event, EventView};
use crate::field_laws::{first_with, lacks, law_lookup_finds_the_first};
use crate::field_laws::law_storing_replaces_or_appends;
use crate::text::{joined, signed_decimal};
use crate::text_laws::law_joining_puts_the_separator_between;

verus! {

/// The counts where the counter of one name has grown by an amount: in its place where the
/// name has been counted, else behind all others. None where the sum is no `i64`.
pub open spec fn grown(before: Counts, after: Option<Counts>, name: Seq<char>, by: i64) -> bool {
    &&& forall|at: int| #[trigger]
        first_with(before, name, at) ==> after == (if i64::MIN <= before[at].1 + by <= i64::MAX {
            Some(before.update(at, (name, (before[at].1 + by) as i64)))
        } else {
            None
        })
    &&& lacks(before, name) ==> after == Some(before.push((name, by)))
}

proof fn lemma_increased_grown(counts: Counts, name: Seq<char>, by: i64)
    ensures
        grown(counts, increased(counts, name, by), name, by),
{
    law_lookup_finds_the_first(counts, name);
    match lookup(counts, name) {
        Some(n) => {
            law_storing_replaces_or_appends(counts, name, (n + by) as i64);
            lemma_position(counts, name);
        },
        None => {
            law_storing_replaces_or_appends(counts, name, by);
        },
    }
}

/// The total of a counter is the count of the first pair of its name, and zero where there
/// is none.
pub proof fn law_totals_are_the_counts(counts: Counts, name: Seq<char>)
    ensures
        forall|at: int| #[trigger]
            first_with(counts, name, at) ==> total(counts, name) == counts[at].1,
        lacks(counts, name) ==> total(counts, name) == 0,
        forall|n: i64| CounterValue::Int(n).number() == n,
{
    law_lookup_finds_the_first(counts, name);
}

/// Increasing a counter adds to it in its place, or puts it behind all others where it was
/// not there, and fails exactly where the sum is no `i64`.
pub proof fn law_an_increase_stays_in_place(counts: Counts, name: Seq<char>, by: i64)
    ensures
        grown(counts, increased(counts, name, by), name, by),
{
    lemma_increased_grown(counts, name, by);
}

/// An event that is no incremental counter with a value counts once under its description,
/// whatever its fields; an incremental counter with a value adds that value under its name.
pub proof fn law_what_an_event_is_counted_as(counts: Counts, event: EventView)
    ensures
        !event.counter || !event.incremental || event.value is None ==> grown(
            counts,
            recorded(counts, event),
            event.description(),
            1,
        ),
        event.counter && event.incremental ==> (event.value matches Some(v) ==> grown(
            counts,
            recorded(counts, event),
            event.name,
            v,
        )),
{
    lemma_increased_grown(counts, event.key(), event.step());
}

/// Recording an event that is no incremental counter with a value raises the total of its
/// description by one and no other total; recording an incremental counter with a value
/// raises the total of its name by that value and no other total.
pub proof fn law_an_event_raises_one_total(counts: Counts, event: EventView)
    requires
        distinct(counts),
        recorded(counts, event) is Some,
    ensures
        ({
            let after = recorded(counts, event)->0;
            &&& !event.counter || !event.incremental || event.value is None ==> {
                &&& total(after, event.description()) == total(counts, event.description()) + 1
                &&& forall|other: Seq<char>|
                    other != event.description() ==> #[trigger] total(after, other) == total(
                        counts,
                        other,
                    )
            }
            &&& event.counter && event.incremental ==> (event.value matches Some(v) ==> {
                &&& total(after, event.name) == total(counts, event.name) + v
                &&& forall|other: Seq<char>|
                    other != event.name ==> #[trigger] total(after, other) == total(counts, other)
            })
        }),
{
    law_increase_adds_to_one_counter(counts, event.key(), event.step());
}

/// An event is described by its name alone where it has no fields, and by its name and all
/// its fields, in order, where it has any.
pub proof fn law_a_description_lists_the_fields(
    event: EventView,
    field: (Seq<char>, Seq<char>),
)
    ensures
        event.fields.len() == 0 ==> event.description() == event.name,
        (EventView { fields: seq![field], ..event }).description() == event.name + " { "@ + field.0
            + ": "@ + field.1 + " }"@,
        event.fields.len() > 0 ==> (EventView {
            fields: event.fields.push(field),
            ..event
        }).description() == event.description().take(event.description().len() - 2) + ", "@
            + field.0 + ": "@ + field.1 + " }"@,
{
    reveal_strlit(" }");
    let part = field.0 + ": "@ + field.1;
    let parts = field_texts(event.fields);
    law_joining_puts_the_separator_between(parts, part, ", "@);
    assert(field_texts(seq![field]) =~= seq![part]);
    let one = EventView { fields: seq![field], ..event };
    assert(one.description() =~= event.name + " { "@ + field.0 + ": "@ + field.1 + " }"@);
    if event.fields.len() > 0 {
        let more = EventView { fields: event.fields.push(field), ..event };
        assert(field_texts(more.fields) =~= parts.push(part));
        let front = event.name + " { "@ + joined(parts, ", "@);
        assert(event.description() =~= front + " }"@);
        assert(event.description().take(event.description().len() - 2) =~= front);
        assert(more.description() =~= front + ", "@ + field.0 + ": "@ + field.1 + " }"@);
    }
}

/// Merging nothing changes nothing. Merging one more count increases one more counter, where
/// the merge of the counts before it succeeds, and fails where that fails.
pub proof fn law_counts_are_merged_one_by_one(
    counts: Counts,
    more: Counts,
    count: (Seq<char>, i64),
)
    ensures
        merged(counts, Seq::empty()) == Some(counts),
        merged(counts, more) is None ==> merged(counts, more.push(count)) is None,
        merged(counts, more) matches Some(sum) ==> grown(
            sum,
            merged(counts, more.push(count)),
            count.0,
            count.1,
        ),
{
    assert(more.push(count).drop_last() =~= more);
    if merged(counts, more) is Some {
        lemma_increased_grown(merged(counts, more)->0, count.0, count.1);
    }
}

/// Each count reads as its name, a colon, and its number.
pub proof fn law_counts_read_as_name_and_number(counts: Counts)
    ensures
        count_texts(counts).len() == counts.len(),
        forall|i: int|
            0 <= i < counts.len() ==> #[trigger] count_texts(counts)[i] == counts[i].0 + ": "@
                + signed_decimal(counts[i].1 as int),
{
}

/// A new event has its name and nothing else. A text is appended to its fields. A truth value
/// named `counter` or `incremental` sets that flag, any other is appended as `true` or
/// `false`. A number named `value` that is an `i64` becomes the value, any other is appended
/// in decimal. All else of the event stays.
pub proof fn law_what_the_fields_of_an_event_do(
    event: EventView,
    name: Seq<char>,
    text: Seq<char>,
    flag: bool,
    number: int,
)
    ensures
        EventView::named(name) == (EventView {
            name,
            fields: Seq::empty(),
            counter: false,
            incremental: false,
            value: None,
        }),
        event.with_text(name, text) == (EventView {
            fields: event.fields.push((name, text)),
            ..event
        }),
        event.with_bool("counter"@, flag) == (EventView { counter: flag, ..event }),
        event.with_bool("incremental"@, flag) == (EventView { incremental: flag, ..event }),
        name != "counter"@ && name != "incremental"@ ==> event.with_bool(name, flag) == (EventView {
            fields: event.fields.push((name, if flag { "true"@ } else { "false"@ })),
            ..event
        }),
        i64::MIN <= number <= i64::MAX ==> event.with_number("value"@, number) == (EventView {
            value: Some(number as i64),
            ..event
        }),
        name != "value"@ || number < i64::MIN || number > i64::MAX ==> event.with_number(
            name,
            number,
        ) == (EventView {
            fields: event.fields.push((name, signed_decimal(number))),
            ..event
        }),
{
    reveal_strlit("counter");
    reveal_strlit("incremental");
    assert("counter"@.len() != "incremental"@.len());
}

/// What an event holds is its name, its flags, its value and all its fields, in order.
pub proof fn law_an_event_holds_its_parts(event: Event)
    ensures
        event@.name == event.name@,
        event@.counter == event.counter,
        event@.incremental == event.incremental,
        event@.value == event.value,
        event@.fields.len() == event.fields@.len(),
        forall|i: int|
            0 <= i < event.fields@.len() ==> #[trigger] event@.fields[i] == (
                event.fields@[i].0@,
                event.fields@[i].1@,
            ),
{
}

} // verus!
