//! Counting events by name.

use vstd::prelude::*;
use vstd::string::*;

use crate::assoc::{distinct, lookup, position, put};
use crate::assoc::{lemma_position, lemma_position_is, lemma_put};
use crate::text::lemma_texts_push;
use crate::text::{decimal_text, join_text, joined, signed_decimal, signed_decimal_text};
use crate::text::{text_pairs, texts};

verus! {

/// The value of one counter.
#[derive(Debug, Clone, Copy, PartialEq, Eq, Structural)]
pub enum CounterValue {
    Int(i64),
}

impl CounterValue {
    /// The number that the counter stands at.
    pub open spec fn number(self) -> i64 {
        match self {
            CounterValue::Int(n) => n,
        }
    }
}

/// An event as it was emitted: its name, its `counter`, `incremental` and `value`
/// fields, and the text of all its other fields, in order.
#[derive(Debug)]
pub struct Event {
    pub name: String,
    pub fields: Vec<(String, String)>,
    pub counter: bool,
    pub incremental: bool,
    pub value: Option<i64>,
}

/// What an [`Event`] holds.
pub struct EventView {
    pub name: Seq<char>,
    pub fields: Seq<(Seq<char>, Seq<char>)>,
    pub counter: bool,
    pub incremental: bool,
    pub value: Option<i64>,
}

impl View for Event {
    type V = EventView;

    open spec fn view(&self) -> EventView {
        EventView {
            name: self.name@,
            fields: text_pairs(self.fields@),
            counter: self.counter,
            incremental: self.incremental,
            value: self.value,
        }
    }
}

/// The pairs as `key: value` texts.
pub open spec fn field_texts(fields: Seq<(Seq<char>, Seq<char>)>) -> Seq<Seq<char>> {
    fields.map_values(|pair: (Seq<char>, Seq<char>)| pair.0 + ": "@ + pair.1)
}

impl EventView {
    /// The event's name, followed by its fields in braces where it has any.
    pub open spec fn description(self) -> Seq<char> {
        if self.fields.len() == 0 {
            self.name
        } else {
            self.name + " { "@ + joined(field_texts(self.fields), ", "@) + " }"@
        }
    }

    /// Whether the event adds its own value to a counter.
    pub open spec fn is_increment(self) -> bool {
        self.counter && self.incremental && self.value is Some
    }

    /// The counter that the event belongs to: its name for an increment, its
    /// description for any other event.
    pub open spec fn key(self) -> Seq<char> {
        if self.is_increment() {
            self.name
        } else {
            self.description()
        }
    }

    /// What the event adds to its counter: its value for an increment, one for any
    /// other event.
    pub open spec fn step(self) -> i64 {
        if self.is_increment() {
            self.value->0
        } else {
            1
        }
    }
}

/// Counts by name, in the order in which the names first came up.
pub type Counts = Seq<(Seq<char>, i64)>;

/// The count that belongs to `key`, zero where there is none.
pub open spec fn total(counts: Counts, key: Seq<char>) -> int {
    match lookup(counts, key) {
        Some(n) => n as int,
        None => 0,
    }
}

/// The counts after `step` was added to `key`; none where the sum leaves the range of
/// a counter.
pub open spec fn increased(counts: Counts, key: Seq<char>, step: i64) -> Option<Counts> {
    match lookup(counts, key) {
        Some(n) => if i64::MIN <= n + step <= i64::MAX {
            Some(put(counts, key, (n + step) as i64))
        } else {
            None
        },
        None => Some(put(counts, key, step)),
    }
}

/// The counts after every count of `more` was added, in order; none where a sum leaves
/// the range of a counter.
pub open spec fn merged(counts: Counts, more: Counts) -> Option<Counts>
    decreases more.len(),
{
    if more.len() == 0 {
        Some(counts)
    } else {
        match merged(counts, more.drop_last()) {
            Some(sum) => increased(sum, more.last().0, more.last().1),
            None => None,
        }
    }
}

/// The counts after an event was recorded.
pub open spec fn recorded(counts: Counts, event: EventView) -> Option<Counts> {
    increased(counts, event.key(), event.step())
}

/// Each count as a `name: count` text.
pub open spec fn count_texts(counts: Counts) -> Seq<Seq<char>> {
    counts.map_values(|pair: (Seq<char>, i64)| pair.0 + ": "@ + signed_decimal(pair.1 as int))
}

/// Adding to one counter adds exactly the step to it, leaves every other counter as it
/// was, and keeps the names distinct.
pub proof fn law_increase_adds_to_one_counter(counts: Counts, key: Seq<char>, step: i64)
    requires
        distinct(counts),
        increased(counts, key, step) is Some,
    ensures
        distinct(increased(counts, key, step)->0),
        total(increased(counts, key, step)->0, key) == total(counts, key) + step,
        forall|other: Seq<char>|
            other != key ==> #[trigger] total(increased(counts, key, step)->0, other) == total(
                counts,
                other,
            ),
{
    let value = (total(counts, key) + step) as i64;
    lemma_put(counts, key, value);
    let after = increased(counts, key, step)->0;
    assert(after == put(counts, key, value));
    assert forall|other: Seq<char>| other != key implies #[trigger] total(after, other) == total(
        counts,
        other,
    ) by {
        assert(lookup(after, other) == lookup(counts, other));
    }
}

/// Merging two collections of counts adds them up name by name, and keeps the names
/// distinct.
pub proof fn law_merge_adds_name_by_name(counts: Counts, more: Counts)
    requires
        distinct(counts),
        distinct(more),
        merged(counts, more) is Some,
    ensures
        distinct(merged(counts, more)->0),
        forall|key: Seq<char>| #[trigger]
            total(merged(counts, more)->0, key) == total(counts, key) + total(more, key),
    decreases more.len(),
{
    if more.len() > 0 {
        let init = more.drop_last();
        let last = more.last();
        assert(forall|i: int| 0 <= i < init.len() ==> init[i] == more[i]);
        law_merge_adds_name_by_name(counts, init);
        let sum = merged(counts, init)->0;
        law_increase_adds_to_one_counter(sum, last.0, last.1);
        assert forall|key: Seq<char>| #[trigger]
            total(merged(counts, more)->0, key) == total(counts, key) + total(more, key) by {
            lemma_position(init, key);
            lemma_position(more, key);
            assert(total(sum, key) == total(counts, key) + total(init, key));
            if key == last.0 {
                assert forall|j: int| 0 <= j < init.len() implies #[trigger] init[j].0 != key by {
                    assert(more[j].0 != more[more.len() - 1].0);
                }
                assert(position(init, key) is None);
                lemma_position_is(more, key, more.len() - 1);
            }
        }
    }
}

/// The total of a counter after two events does not depend on which came first.
pub proof fn law_recording_order_does_not_matter(counts: Counts, first: EventView, second: EventView)
    requires
        distinct(counts),
        recorded(counts, first) is Some,
        recorded(counts, second) is Some,
        recorded(recorded(counts, first)->0, second) is Some,
        recorded(recorded(counts, second)->0, first) is Some,
    ensures
        forall|key: Seq<char>| #[trigger]
            total(recorded(recorded(counts, first)->0, second)->0, key) == total(
                recorded(recorded(counts, second)->0, first)->0,
                key,
            ),
{
    let one = recorded(counts, first)->0;
    let other = recorded(counts, second)->0;
    law_increase_adds_to_one_counter(counts, first.key(), first.step());
    law_increase_adds_to_one_counter(counts, second.key(), second.step());
    law_increase_adds_to_one_counter(one, second.key(), second.step());
    law_increase_adds_to_one_counter(other, first.key(), first.step());
    assert forall|key: Seq<char>| #[trigger]
        total(recorded(one, second)->0, key) == total(recorded(other, first)->0, key) by {
        assert(total(one, key) == total(counts, key) + if key == first.key() {
            first.step() as int
        } else {
            0
        });
        assert(total(other, key) == total(counts, key) + if key == second.key() {
            second.step() as int
        } else {
            0
        });
    }
}

impl EventView {
    /// An event without fields.
    pub open spec fn named(name: Seq<char>) -> EventView {
        EventView { name, fields: seq![], counter: false, incremental: false, value: None }
    }

    /// The event with the text of one more field.
    pub open spec fn with_text(self, field: Seq<char>, text: Seq<char>) -> EventView {
        EventView { fields: self.fields.push((field, text)), ..self }
    }

    /// The event with one more truth value: `counter` and `incremental` say what kind of
    /// event it is, any other is listed.
    pub open spec fn with_bool(self, field: Seq<char>, value: bool) -> EventView {
        if field == "counter"@ {
            EventView { counter: value, ..self }
        } else if field == "incremental"@ {
            EventView { incremental: value, ..self }
        } else if value {
            self.with_text(field, "true"@)
        } else {
            self.with_text(field, "false"@)
        }
    }

    /// The event with one more number: `value` is its value, as far as a counter can hold
    /// it, any other is listed.
    pub open spec fn with_number(self, field: Seq<char>, value: int) -> EventView {
        if field == "value"@ && i64::MIN <= value <= i64::MAX {
            EventView { value: Some(value as i64), ..self }
        } else {
            self.with_text(field, signed_decimal(value))
        }
    }
}

impl Event {
    /// An event without fields.
    pub fn new(name: &str) -> (event: Event)
        ensures
            event@ == EventView::named(name@),
    {
        let event = Event {
            name: name.to_owned(),
            fields: Vec::new(),
            counter: false,
            incremental: false,
            value: None,
        };
        assert(event@.fields =~= seq![]);
        event
    }

    /// Adds a field with a text.
    pub fn record_text(&mut self, field: &str, text: &str)
        ensures
            final(self)@ == old(self)@.with_text(field@, text@),
    {
        self.fields.push((field.to_owned(), text.to_owned()));
        assert(self@.fields =~= old(self)@.fields.push((field@, text@)));
    }

    /// Adds a field with a truth value.
    pub fn record_bool(&mut self, field: &str, value: bool)
        ensures
            final(self)@ == old(self)@.with_bool(field@, value),
    {
        let name = field.to_owned();
        if name == "counter".to_owned() {
            self.counter = value;
        } else if name == "incremental".to_owned() {
            self.incremental = value;
        } else if value {
            self.record_text(field, "true");
        } else {
            self.record_text(field, "false");
        }
    }

    /// Adds a field with a number.
    pub fn record_i64(&mut self, field: &str, value: i64)
        ensures
            final(self)@ == old(self)@.with_number(field@, value as int),
    {
        if field.to_owned() == "value".to_owned() {
            self.value = Some(value);
        } else {
            self.record_text(field, signed_decimal_text(value).as_str());
        }
    }

    /// Adds a field with a number.
    pub fn record_u64(&mut self, field: &str, value: u64)
        ensures
            final(self)@ == old(self)@.with_number(field@, value as int),
    {
        if value <= i64::MAX as u64 {
            self.record_i64(field, value as i64);
        } else {
            self.record_text(field, decimal_text(value).as_str());
        }
    }

    /// The event's name, followed by its fields in braces where it has any.
    pub fn description(&self) -> (text: String)
        ensures
            text@ == self@.description(),
    {
        let mut text = self.name.clone();
        if self.fields.len() > 0 {
            let mut parts: Vec<String> = Vec::new();
            let mut i: usize = 0;
            while i < self.fields.len()
                invariant
                    i <= self.fields@.len(),
                    parts@.len() == i,
                    texts(parts@) == field_texts(self@.fields).take(i as int),
                decreases self.fields.len() - i,
            {
                let mut part = self.fields[i].0.clone();
                part.append(": ");
                part.append(self.fields[i].1.as_str());
                assert(part@ =~= field_texts(self@.fields)[i as int]);
                proof {
                    lemma_texts_push(parts@, part, field_texts(self@.fields));
                }
                parts.push(part);
                i += 1;
            }
            assert(field_texts(self@.fields).take(i as int) =~= field_texts(self@.fields));
            text.append(" { ");
            text.append(join_text(&parts, ", ").as_str());
            text.append(" }");
        }
        text
    }
}

/// How often each event has occurred.
#[derive(Debug)]
pub struct EventCounts {
    counts: Vec<(String, CounterValue)>,
}

impl View for EventCounts {
    type V = Counts;

    closed spec fn view(&self) -> Counts {
        self.counts@.map_values(|pair: (String, CounterValue)| (pair.0@, pair.1.number()))
    }
}

impl Clone for EventCounts {
    fn clone(&self) -> (copy: Self)
        ensures
            copy@ == self@,
    {
        let mut counts: Vec<(String, CounterValue)> = Vec::new();
        let mut i: usize = 0;
        while i < self.counts.len()
            invariant
                i <= self.counts@.len(),
                counts@ == self.counts@.take(i as int),
            decreases self.counts.len() - i,
        {
            counts.push((self.counts[i].0.clone(), self.counts[i].1));
            i += 1;
            assert(counts@ =~= self.counts@.take(i as int));
        }
        assert(counts@ =~= self.counts@);
        EventCounts { counts }
    }
}

impl Default for EventCounts {
    fn default() -> (counts: Self)
        ensures
            counts@ == Counts::empty(),
    {
        let counts = EventCounts { counts: Vec::new() };
        assert(counts@ =~= Counts::empty());
        counts
    }
}

impl EventCounts {
    /// Whether no event has been counted.
    pub fn is_empty(&self) -> (empty: bool)
        ensures
            empty == (self@.len() == 0),
    {
        self.counts.len() == 0
    }

    /// Forgets all counts.
    pub fn clear(&mut self)
        ensures
            final(self)@ == Counts::empty(),
    {
        self.counts.clear();
        assert(self@ =~= Counts::empty());
    }

    /// The index of the counter with the given name.
    fn find(&self, name: &String) -> (found: Option<usize>)
        ensures
            match found {
                Some(i) => position(self@, name@) == Some(i as int) && i < self.counts@.len(),
                None => position(self@, name@) is None,
            },
    {
        let mut i: usize = 0;
        while i < self.counts.len()
            invariant
                i <= self.counts@.len(),
                forall|j: int| 0 <= j < i ==> #[trigger] self@[j].0 != name@,
            decreases self.counts.len() - i,
        {
            if self.counts[i].0 == *name {
                proof {
                    lemma_position_is(self@, name@, i as int);
                }
                return Some(i);
            }
            i += 1;
        }
        proof {
            lemma_position(self@, name@);
        }
        None
    }

    /// The counter with the given name.
    pub fn get(&self, name: &str) -> (value: Option<&CounterValue>)
        ensures
            match value {
                Some(v) => lookup(self@, name@) == Some(v.number()),
                None => lookup(self@, name@) is None,
            },
    {
        match self.find(&name.to_owned()) {
            Some(i) => Some(&self.counts[i].1),
            None => None,
        }
    }

    /// Adds `step` to the counter with the given name, unless the sum leaves the range
    /// of a counter: then nothing changes, and the result is `false`.
    pub fn checked_increase(&mut self, name: &str, step: i64) -> (done: bool)
        ensures
            done == increased(old(self)@, name@, step) is Some,
            final(self)@ == (if done {
                increased(old(self)@, name@, step)->0
            } else {
                old(self)@
            }),
    {
        let key = name.to_owned();
        match self.find(&key) {
            Some(i) => {
                let CounterValue::Int(n) = self.counts[i].1;
                match n.checked_add(step) {
                    Some(sum) => {
                        proof {
                            lemma_position(self@, name@);
                        }
                        self.counts.set(i, (key, CounterValue::Int(sum)));
                        assert(self@ =~= put(old(self)@, name@, sum));
                        true
                    },
                    None => false,
                }
            },
            None => {
                self.counts.push((key, CounterValue::Int(step)));
                assert(self@ =~= put(old(self)@, name@, step));
                true
            },
        }
    }

    /// Counts one more event of the given name.
    pub fn increment_events_counter(&mut self, name: &str)
        requires
            increased(old(self)@, name@, 1) is Some,
        ensures
            final(self)@ == increased(old(self)@, name@, 1)->0,
    {
        let _ = self.checked_increase(name, 1);
    }

    /// Counts an event, unless its counter would leave its range: then nothing
    /// changes, and the result is `false`.
    pub fn checked_record(&mut self, event: &Event) -> (done: bool)
        ensures
            done == recorded(old(self)@, event@) is Some,
            final(self)@ == (if done {
                recorded(old(self)@, event@)->0
            } else {
                old(self)@
            }),
    {
        if event.counter && event.incremental {
            if let Some(value) = event.value {
                return self.checked_increase(event.name.as_str(), value);
            }
        }
        self.checked_increase(event.description().as_str(), 1)
    }

    /// Counts an event.
    pub fn record(&mut self, event: &Event)
        requires
            recorded(old(self)@, event@) is Some,
        ensures
            final(self)@ == recorded(old(self)@, event@)->0,
    {
        let _ = self.checked_record(event);
    }

    /// These counts with all of `other` added, unless a counter would leave its range.
    pub fn checked_sum(&self, other: &EventCounts) -> (sum: Option<EventCounts>)
        ensures
            match sum {
                Some(s) => merged(self@, other@) == Some(s@),
                None => merged(self@, other@) is None,
            },
    {
        let mut sum = self.clone();
        let mut i: usize = 0;
        assert(other@.take(0) =~= Counts::empty());
        while i < other.counts.len()
            invariant
                i <= other.counts@.len(),
                other@.len() == other.counts@.len(),
                merged(self@, other@.take(i as int)) == Some(sum@),
            decreases other.counts.len() - i,
        {
            let CounterValue::Int(n) = other.counts[i].1;
            assert(other@.take(i + 1).drop_last() =~= other@.take(i as int));
            assert(other@.take(i + 1).last() == (other.counts@[i as int].0@, n));
            if !sum.checked_increase(other.counts[i].0.as_str(), n) {
                proof {
                    lemma_merge_overflow(self@, other@, i + 1);
                }
                return None;
            }
            i += 1;
        }
        assert(other@.take(i as int) =~= other@);
        Some(sum)
    }

    /// Adds all counts of `other`.
    pub fn add_counts(&mut self, other: &EventCounts)
        requires
            merged(old(self)@, other@) is Some,
        ensures
            final(self)@ == merged(old(self)@, other@)->0,
    {
        if let Some(sum) = self.checked_sum(other) {
            *self = sum;
        }
    }

    /// One line of text per counter.
    pub fn format(&self) -> (lines: Vec<String>)
        ensures
            texts(lines@) == count_texts(self@),
    {
        let mut lines: Vec<String> = Vec::new();
        let mut i: usize = 0;
        while i < self.counts.len()
            invariant
                i <= self.counts@.len(),
                lines@.len() == i,
                texts(lines@) == count_texts(self@).take(i as int),
            decreases self.counts.len() - i,
        {
            let CounterValue::Int(n) = self.counts[i].1;
            let mut line = self.counts[i].0.clone();
            line.append(": ");
            line.append(signed_decimal_text(n).as_str());
            assert(line@ =~= count_texts(self@)[i as int]);
            proof {
                lemma_texts_push(lines@, line, count_texts(self@));
            }
            lines.push(line);
            i += 1;
        }
        assert(count_texts(self@).take(i as int) =~= count_texts(self@));
        lines
    }
}

/// A merge that fails on the first counts fails on all of them.
proof fn lemma_merge_overflow(counts: Counts, more: Counts, n: int)
    requires
        0 <= n <= more.len(),
        merged(counts, more.take(n)) is None,
    ensures
        merged(counts, more) is None,
    decreases more.len() - n,
{
    if n == more.len() {
        assert(more.take(n) =~= more);
    } else {
        assert(more.take(n + 1).drop_last() =~= more.take(n));
        lemma_merge_overflow(counts, more, n + 1);
    }
}

} // verus!
