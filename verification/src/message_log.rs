//! A log of messages by context.

pub use crate::ctx_path::{ancestors, is_valid_ctx_id};

use crate::event::{fields_view, EventView, EventVisitor};
use crate::name_map::NameMap;
use vstd::prelude::*;

verus! {

/// `tracing::Level`, opaque: it is carried along and never looked at.
#[verifier::external_type_specification]
#[verifier::external_body]
pub struct ExLevel(tracing::Level);

/// One logged event.
pub struct LogEntry {
    pub seq: u64,
    pub level: tracing::Level,
    pub target: String,
    pub message: String,
    pub fields: Vec<(String, String)>,
}

/// What a [`LogEntry`] says.
pub struct LogEntryView {
    pub seq: u64,
    pub level: tracing::Level,
    pub target: Seq<char>,
    pub message: Seq<char>,
    pub fields: Seq<(Seq<char>, Seq<char>)>,
}

impl View for LogEntry {
    type V = LogEntryView;

    open spec fn view(&self) -> LogEntryView {
        LogEntryView {
            seq: self.seq,
            level: self.level,
            target: self.target@,
            message: self.message@,
            fields: fields_view(self.fields@),
        }
    }
}

/// A copy of a list of fields.
fn clone_fields(fields: &Vec<(String, String)>) -> (r: Vec<(String, String)>)
    ensures
        fields_view(r@) == fields_view(fields@),
{
    let mut r: Vec<(String, String)> = Vec::new();
    let mut i: usize = 0;
    while i < fields.len()
        invariant
            i <= fields@.len(),
            r@ == fields@.take(i as int),
        decreases fields.len() - i,
    {
        r.push((fields[i].0.clone(), fields[i].1.clone()));
        assert(fields@.take(i + 1) == fields@.take(i as int).push(fields@[i as int]));
        i = i + 1;
    }
    assert(fields@.take(i as int) == fields@);
    r
}

impl Clone for LogEntry {
    fn clone(&self) -> (r: LogEntry)
        ensures
            r@ == self@,
    {
        LogEntry {
            seq: self.seq,
            level: self.level,
            target: self.target.clone(),
            message: self.message.clone(),
            fields: clone_fields(&self.fields),
        }
    }
}

/// What a list of entries says.
pub open spec fn entries_view(entries: Seq<LogEntry>) -> Seq<LogEntryView> {
    entries.map_values(|entry: LogEntry| entry@)
}

/// What a log holds.
pub struct LogView {
    /// The entries of each context that has any, oldest first.
    pub entries: Map<Seq<char>, Seq<LogEntryView>>,
    /// The status of each context that has one.
    pub statuses: Map<Seq<char>, Seq<char>>,
    /// The sequence number that is handed out next.
    pub next_seq: u64,
}

impl LogView {
    /// A log without entries or statuses.
    pub open spec fn empty() -> LogView {
        LogView { entries: Map::empty(), statuses: Map::empty(), next_seq: 0 }
    }

    /// The entries of a context, none if it was never heard of.
    pub open spec fn of(self, context_id: Seq<char>) -> Seq<LogEntryView> {
        if self.entries.dom().contains(context_id) {
            self.entries[context_id]
        } else {
            Seq::empty()
        }
    }

    /// The log with one more entry for a context.
    pub open spec fn pushed(self, context_id: Seq<char>, entry: LogEntryView) -> LogView {
        LogView {
            entries: self.entries.insert(context_id, self.of(context_id).push(entry)),
            ..self
        }
    }

    /// The log with the same entry for several contexts, one after the other.
    pub open spec fn pushed_to_all(
        self,
        context_ids: Seq<Seq<char>>,
        entry: LogEntryView,
    ) -> LogView
        decreases context_ids.len(),
    {
        if context_ids.len() == 0 {
            self
        } else {
            self.pushed_to_all(context_ids.drop_last(), entry).pushed(context_ids.last(), entry)
        }
    }

    /// The log once a sequence number has been handed out. After the largest
    /// one the numbers start over.
    pub open spec fn counted(self) -> LogView {
        LogView { next_seq: self.next_seq.wrapping_add(1), ..self }
    }

    /// The entry that an event becomes.
    pub open spec fn entry_for(
        self,
        event: EventView,
        level: tracing::Level,
        target: Seq<char>,
    ) -> LogEntryView {
        LogEntryView {
            seq: self.next_seq,
            level,
            target,
            message: event.message,
            fields: event.fields,
        }
    }

    /// The log once an event has been seen: an event that names no context
    /// leaves it as it is; any other takes a sequence number and is logged
    /// for each context that it names.
    pub open spec fn captured(
        self,
        event: EventView,
        level: tracing::Level,
        target: Seq<char>,
    ) -> LogView {
        if event.context_ids.len() == 0 {
            self
        } else {
            self.counted().pushed_to_all(event.context_ids, self.entry_for(event, level, target))
        }
    }

    /// In every context an entry that stands later has the larger sequence
    /// number, unless it is the same entry again, and all numbers have been
    /// handed out.
    pub open spec fn is_chronological(self) -> bool {
        &&& forall|id: Seq<char>, i: int|
            0 <= i < self.of(id).len() ==> (#[trigger] self.of(id)[i]).seq < self.next_seq
        &&& forall|id: Seq<char>, i: int, j: int|
            0 <= i < j < self.of(id).len() ==> (#[trigger] self.of(id)[i]).seq < (
            #[trigger] self.of(id)[j]).seq || self.of(id)[i] == self.of(id)[j]
    }
}

/// A log of messages by context, with a status for each context.
pub struct MessageLog {
    entries: NameMap<Vec<LogEntry>>,
    statuses: NameMap<String>,
    counter: u64,
}

impl View for MessageLog {
    type V = LogView;

    closed spec fn view(&self) -> LogView {
        LogView {
            entries: self.entries@.map_values(|list: Vec<LogEntry>| entries_view(list@)),
            statuses: self.statuses@.map_values(|status: String| status@),
            next_seq: self.counter,
        }
    }
}

impl MessageLog {
    /// The log's own bookkeeping is in order.
    pub closed spec fn wf(self) -> bool {
        self.entries.wf() && self.statuses.wf()
    }

    /// An empty log.
    pub fn new() -> (r: MessageLog)
        ensures
            r.wf(),
            r@ == LogView::empty(),
    {
        let r = MessageLog { entries: NameMap::new(), statuses: NameMap::new(), counter: 0 };
        assert(r@.entries == Map::<Seq<char>, Seq<LogEntryView>>::empty());
        assert(r@.statuses == Map::<Seq<char>, Seq<char>>::empty());
        r
    }

    /// Add an entry to a context.
    pub fn push(&mut self, context_id: String, entry: LogEntry)
        requires
            old(self).wf(),
        ensures
            final(self).wf(),
            final(self)@ == old(self)@.pushed(context_id@, entry@),
    {
        let ghost before = if self.entries@.dom().contains(context_id@) {
            self.entries@[context_id@]@
        } else {
            Seq::<LogEntry>::empty()
        };
        let list = self.entries.entry_or(context_id, Vec::new());
        list.push(entry);
        proof {
            assert(entries_view(before.push(entry)) == entries_view(before).push(entry@));
            assert(entries_view(before) == old(self)@.of(context_id@));
            assert(self@.entries == old(self)@.pushed(context_id@, entry@).entries);
        }
    }

    /// Hand out a sequence number.
    pub fn next_seq(&mut self) -> (r: u64)
        requires
            old(self).wf(),
        ensures
            final(self).wf(),
            r == old(self)@.next_seq,
            final(self)@ == old(self)@.counted(),
    {
        let r = self.counter;
        self.counter = r.wrapping_add(1);
        r
    }

    /// The entries of a context, oldest first.
    pub fn get(&self, context_id: &str) -> (r: Vec<LogEntry>)
        requires
            self.wf(),
        ensures
            entries_view(r@) == self@.of(context_id@),
            r@.len() == self@.of(context_id@).len(),
            forall|i: int|
                0 <= i < r@.len() ==> {
                    let entry = self@.of(context_id@)[i];
                    &&& (#[trigger] r@[i]).seq == entry.seq
                    &&& r@[i].level == entry.level
                    &&& r@[i].target@ == entry.target
                    &&& r@[i].message@ == entry.message
                    &&& fields_view(r@[i].fields@) == entry.fields
                },
    {
        let mut r: Vec<LogEntry> = Vec::new();
        match self.entries.get(context_id) {
            Some(list) => {
                let mut i: usize = 0;
                while i < list.len()
                    invariant
                        i <= list@.len(),
                        entries_view(r@) == entries_view(list@).take(i as int),
                    decreases list.len() - i,
                {
                    let ghost before = r@;
                    let entry = list[i].clone();
                    r.push(entry);
                    assert(entries_view(r@) == entries_view(before).push(entry@));
                    i = i + 1;
                }
                assert(entries_view(list@).take(i as int) == entries_view(list@));
            },
            None => {
                assert(entries_view(r@) == Seq::<LogEntryView>::empty());
            },
        }
        assert forall|i: int| 0 <= i < r@.len() implies {
            let entry = self@.of(context_id@)[i];
            &&& (#[trigger] r@[i]).seq == entry.seq
            &&& r@[i].level == entry.level
            &&& r@[i].target@ == entry.target
            &&& r@[i].message@ == entry.message
            &&& fields_view(r@[i].fields@) == entry.fields
        } by {
            assert(entries_view(r@)[i] == r@[i]@);
        }
        r
    }

    /// The contexts that have entries, each once, in no particular order.
    pub fn keys(&self) -> (r: Vec<String>)
        requires
            self.wf(),
        ensures
            r@.map_values(|id: String| id@).no_duplicates(),
            r@.map_values(|id: String| id@).to_set() == self@.entries.dom(),
    {
        assert(self@.entries.dom() == self.entries@.dom());
        self.entries.names()
    }

    /// Whether a context has entries.
    pub fn has(&self, context_id: &str) -> (r: bool)
        requires
            self.wf(),
        ensures
            r == self@.entries.dom().contains(context_id@),
    {
        self.entries.has(context_id)
    }

    /// Give a context a status, in place of an earlier one.
    pub fn set_status(&mut self, context_id: String, status: String)
        requires
            old(self).wf(),
        ensures
            final(self).wf(),
            final(self)@ == (LogView {
                statuses: old(self)@.statuses.insert(context_id@, status@),
                ..old(self)@
            }),
    {
        self.statuses.insert(context_id, status);
        assert(self@.statuses == old(self)@.statuses.insert(context_id@, status@));
    }

    /// The status of a context.
    pub fn get_status(&self, context_id: &str) -> (r: Option<String>)
        requires
            self.wf(),
        ensures
            match r {
                Some(status) => self@.statuses.dom().contains(context_id@) && status@
                    == self@.statuses[context_id@],
                None => !self@.statuses.dom().contains(context_id@),
            },
    {
        match self.statuses.get(context_id) {
            Some(status) => Some(status.clone()),
            None => None,
        }
    }
}

impl Default for MessageLog {
    fn default() -> (r: MessageLog)
        ensures
            r.wf(),
            r@ == LogView::empty(),
    {
        MessageLog::new()
    }
}

/// Turns events into entries of a log.
pub struct MessageLogLayer {
    pub log: MessageLog,
}

impl MessageLogLayer {
    /// A layer in front of a log.
    pub fn new(log: MessageLog) -> (r: MessageLogLayer)
        ensures
            r.log == log,
    {
        MessageLogLayer { log }
    }

    /// Log an event for each context that it names. An event that names none
    /// is passed over.
    pub fn on_event(&mut self, visitor: EventVisitor, level: tracing::Level, target: String)
        requires
            old(self).log.wf(),
        ensures
            final(self).log.wf(),
            final(self).log@ == old(self).log@.captured(visitor@, level, target@),
            forall|k: int|
                0 <= k < visitor.context_ids@.len() ==> final(self).log@.of(
                    (#[trigger] visitor.context_ids@[k])@,
                ).len() > old(self).log@.of(visitor.context_ids@[k]@).len(),
            forall|id: Seq<char>, i: int|
                0 <= i < old(self).log@.of(id).len() ==> #[trigger] final(self).log@.of(id)[i]
                    == old(self).log@.of(id)[i],
            forall|id: Seq<char>, i: int|
                old(self).log@.of(id).len() <= i < final(self).log@.of(id).len() ==> {
                    let entry = #[trigger] final(self).log@.of(id)[i];
                    &&& entry.message == visitor.message@
                    &&& entry.fields == fields_view(visitor.fields@)
                    &&& entry.level == level
                    &&& entry.target == target@
                    &&& entry.seq == old(self).log@.next_seq
                },
    {
        proof {
            lemma_captured_is_explicit(self.log@, visitor, level, target@);
        }
        if visitor.context_ids.len() == 0 {
            return ;
        }
        let ghost ids = visitor@.context_ids;
        let entry = LogEntry {
            seq: self.log.next_seq(),
            level,
            target,
            message: visitor.message,
            fields: visitor.fields,
        };
        let ghost start = self.log@;
        let mut i: usize = 0;
        while i < visitor.context_ids.len()
            invariant
                ids == visitor.context_ids@.map_values(|id: String| id@),
                i <= ids.len(),
                self.log.wf(),
                self.log@ == start.pushed_to_all(ids.take(i as int), entry@),
            decreases visitor.context_ids.len() - i,
        {
            self.log.push(visitor.context_ids[i].clone(), entry.clone());
            assert(ids.take(i + 1).drop_last() == ids.take(i as int));
            i = i + 1;
        }
        assert(ids.take(i as int) == ids);
    }
}

/// What was pushed is read back: the context has its earlier entries and then
/// the new one, every other context has what it had, and statuses and the
/// sequence counter are untouched.
pub proof fn lemma_push_is_read_back(
    log: LogView,
    context_id: Seq<char>,
    entry: LogEntryView,
    other: Seq<char>,
)
    requires
        other != context_id,
    ensures
        log.pushed(context_id, entry).of(context_id) == log.of(context_id).push(entry),
        log.pushed(context_id, entry).of(other) == log.of(other),
        log.pushed(context_id, entry).entries.dom().contains(context_id),
        log.pushed(context_id, entry).entries.dom().contains(other)
            == log.entries.dom().contains(other),
        log.pushed(context_id, entry).statuses == log.statuses,
        log.pushed(context_id, entry).next_seq == log.next_seq,
{
}

/// How often a context is named.
pub open spec fn times_named(context_ids: Seq<Seq<char>>, id: Seq<char>) -> nat
    decreases context_ids.len(),
{
    if context_ids.len() == 0 {
        0
    } else {
        times_named(context_ids.drop_last(), id) + if context_ids.last() == id {
            1nat
        } else {
            0nat
        }
    }
}

proof fn lemma_pushed_to_all(
    log: LogView,
    context_ids: Seq<Seq<char>>,
    entry: LogEntryView,
    id: Seq<char>,
)
    ensures
        log.pushed_to_all(context_ids, entry).of(id) == log.of(id) + Seq::new(
            times_named(context_ids, id),
            |i: int| entry,
        ),
        log.pushed_to_all(context_ids, entry).statuses == log.statuses,
        log.pushed_to_all(context_ids, entry).next_seq == log.next_seq,
    decreases context_ids.len(),
{
    if context_ids.len() == 0 {
        assert(log.of(id) + Seq::new(0, |i: int| entry) == log.of(id));
    } else {
        lemma_pushed_to_all(log, context_ids.drop_last(), entry, id);
        let n = times_named(context_ids.drop_last(), id);
        assert(log.pushed_to_all(context_ids, entry).of(id) == log.of(id) + Seq::new(
            times_named(context_ids, id),
            |i: int| entry,
        ));
    }
}

/// An event reaches exactly the contexts that it names: each gets the event's
/// entry once for every time it is named, behind what it had.
pub proof fn lemma_event_reaches_its_contexts(
    log: LogView,
    event: EventView,
    level: tracing::Level,
    target: Seq<char>,
    id: Seq<char>,
)
    ensures
        log.captured(event, level, target).of(id) == log.of(id) + Seq::new(
            times_named(event.context_ids, id),
            |i: int| log.entry_for(event, level, target),
        ),
        log.captured(event, level, target).statuses == log.statuses,
{
    if event.context_ids.len() == 0 {
        assert(log.of(id) + Seq::new(0, |i: int| log.entry_for(event, level, target)) == log.of(
            id,
        ));
    } else {
        lemma_pushed_to_all(
            log.counted(),
            event.context_ids,
            log.entry_for(event, level, target),
            id,
        );
        assert(log.counted().of(id) == log.of(id));
    }
}

proof fn lemma_times_named(context_ids: Seq<Seq<char>>, id: Seq<char>)
    ensures
        times_named(context_ids, id) == context_ids.filter(|c: Seq<char>| c == id).len(),
        context_ids.contains(id) <==> times_named(context_ids, id) > 0,
    decreases context_ids.len(),
{
    reveal(Seq::filter);
    if context_ids.len() > 0 {
        let head = context_ids.drop_last();
        lemma_times_named(head, id);
        assert(context_ids == head.push(context_ids.last()));
        if head.contains(id) {
            let k = choose|k: int| 0 <= k < head.len() && head[k] == id;
            assert(context_ids[k] == id);
        }
        if context_ids.contains(id) && context_ids.last() != id {
            let k = choose|k: int| 0 <= k < context_ids.len() && context_ids[k] == id;
            assert(head[k] == id);
        }
    }
}

/// Every context that an event names has, behind what it had, one entry for each
/// time it is named, and each of these has the event's message, its fields, its
/// level and its target, and the sequence number that was handed out. A context
/// that is not named has what it had.
pub proof fn lemma_entries_say_what_the_event_said(
    log: LogView,
    event: EventView,
    level: tracing::Level,
    target: Seq<char>,
    id: Seq<char>,
    i: int,
)
    requires
        0 <= i < log.captured(event, level, target).of(id).len(),
    ensures
        log.captured(event, level, target).of(id).len() == log.of(id).len()
            + event.context_ids.filter(|c: Seq<char>| c == id).len(),
        i < log.of(id).len() ==> log.captured(event, level, target).of(id)[i] == log.of(id)[i],
        i >= log.of(id).len() ==> {
            let entry = log.captured(event, level, target).of(id)[i];
            &&& entry.message == event.message
            &&& entry.fields == event.fields
            &&& entry.level == level
            &&& entry.target == target
            &&& entry.seq == log.next_seq
        },
{
    lemma_event_reaches_its_contexts(log, event, level, target, id);
    lemma_times_named(event.context_ids, id);
}

/// After an event, a context has more entries than it had if the event names it,
/// and exactly those that it had if the event does not. The contexts that are
/// heard of are those that were and those that are named. Statuses stay. A
/// sequence number is used up if the event names a context at all; after the
/// largest the numbers start over.
pub proof fn lemma_event_reaches_no_other_context(
    log: LogView,
    event: EventView,
    level: tracing::Level,
    target: Seq<char>,
    id: Seq<char>,
)
    ensures
        event.context_ids.contains(id) ==> log.captured(event, level, target).of(id).len()
            > log.of(id).len(),
        !event.context_ids.contains(id) ==> log.captured(event, level, target).of(id) == log.of(id),
        log.captured(event, level, target).entries.dom().contains(id) <==> (
        log.entries.dom().contains(id) || event.context_ids.contains(id)),
        log.captured(event, level, target).statuses == log.statuses,
        event.context_ids.len() == 0 ==> log.captured(event, level, target) == log,
        event.context_ids.len() > 0 && log.next_seq < u64::MAX ==> log.captured(
            event,
            level,
            target,
        ).next_seq == log.next_seq + 1,
        event.context_ids.len() > 0 && log.next_seq == u64::MAX ==> log.captured(
            event,
            level,
            target,
        ).next_seq == 0,
{
    lemma_event_reaches_its_contexts(log, event, level, target, id);
    lemma_times_named(event.context_ids, id);
    assert(log.of(id) + Seq::new(0, |i: int| log.entry_for(event, level, target)) == log.of(id));
    if event.context_ids.len() > 0 {
        let entry = log.entry_for(event, level, target);
        lemma_pushed_to_all(log.counted(), event.context_ids, entry, id);
        lemma_pushed_to_all_dom(log.counted(), event.context_ids, entry, id);
    }
}

proof fn lemma_pushed_to_all_dom(
    log: LogView,
    context_ids: Seq<Seq<char>>,
    entry: LogEntryView,
    id: Seq<char>,
)
    ensures
        log.pushed_to_all(context_ids, entry).entries.dom().contains(id) <==> (
        log.entries.dom().contains(id) || context_ids.contains(id)),
    decreases context_ids.len(),
{
    if context_ids.len() > 0 {
        let head = context_ids.drop_last();
        lemma_pushed_to_all_dom(log, head, entry, id);
        lemma_times_named(context_ids, id);
        lemma_times_named(head, id);
    }
}

proof fn lemma_captured_is_explicit(
    log: LogView,
    visitor: EventVisitor,
    level: tracing::Level,
    target: Seq<char>,
)
    ensures
        forall|k: int|
            0 <= k < visitor.context_ids@.len() ==> log.captured(visitor@, level, target).of(
                (#[trigger] visitor.context_ids@[k])@,
            ).len() > log.of(visitor.context_ids@[k]@).len(),
        forall|id: Seq<char>, i: int|
            0 <= i < log.of(id).len() ==> #[trigger] log.captured(visitor@, level, target).of(id)[i]
                == log.of(id)[i],
        forall|id: Seq<char>, i: int|
            log.of(id).len() <= i < log.captured(visitor@, level, target).of(id).len() ==> {
                let entry = #[trigger] log.captured(visitor@, level, target).of(id)[i];
                &&& entry.message == visitor.message@
                &&& entry.fields == fields_view(visitor.fields@)
                &&& entry.level == level
                &&& entry.target == target
                &&& entry.seq == log.next_seq
            },
{
    let after = log.captured(visitor@, level, target);
    assert forall|k: int| 0 <= k < visitor.context_ids@.len() implies after.of(
        (#[trigger] visitor.context_ids@[k])@,
    ).len() > log.of(visitor.context_ids@[k]@).len() by {
        let id = visitor.context_ids@[k]@;
        assert(visitor@.context_ids[k] == id);
        lemma_event_reaches_no_other_context(log, visitor@, level, target, id);
    }
    assert forall|id: Seq<char>, i: int| 0 <= i < log.of(id).len() implies #[trigger] after.of(
        id,
    )[i] == log.of(id)[i] by {
        lemma_event_reaches_its_contexts(log, visitor@, level, target, id);
    }
    assert forall|id: Seq<char>, i: int|
        log.of(id).len() <= i < after.of(id).len() implies {
        let entry = #[trigger] after.of(id)[i];
        &&& entry.message == visitor.message@
        &&& entry.fields == fields_view(visitor.fields@)
        &&& entry.level == level
        &&& entry.target == target
        &&& entry.seq == log.next_seq
    } by {
        lemma_entries_say_what_the_event_said(log, visitor@, level, target, id, i);
    }
}

/// What an entry says is what its fields hold, piece by piece.
pub proof fn lemma_entry_says_what_it_holds(entries: Seq<LogEntry>, i: int)
    requires
        0 <= i < entries.len(),
    ensures
        entries_view(entries).len() == entries.len(),
        entries_view(entries)[i] == entries[i]@,
        entries[i]@.seq == entries[i].seq,
        entries[i]@.level == entries[i].level,
        entries[i]@.target == entries[i].target@,
        entries[i]@.message == entries[i].message@,
        entries[i]@.fields.len() == entries[i].fields@.len(),
        forall|k: int|
            0 <= k < entries[i].fields@.len() ==> (#[trigger] entries[i]@.fields[k]).0
                == entries[i].fields@[k].0@ && entries[i]@.fields[k].1 == entries[i].fields@[k].1@,
{
}

/// An empty log has heard of no context, has no status, and hands out zero first.
pub proof fn lemma_empty_log_holds_nothing(id: Seq<char>)
    ensures
        LogView::empty().of(id).len() == 0,
        !LogView::empty().entries.dom().contains(id),
        !LogView::empty().statuses.dom().contains(id),
        LogView::empty().next_seq == 0,
{
}

/// Handing out a sequence number moves the counter on by one, and from the
/// largest number to zero, and changes nothing else.
pub proof fn lemma_sequence_numbers_count_up(log: LogView)
    ensures
        log.next_seq < u64::MAX ==> log.counted().next_seq == log.next_seq + 1,
        log.next_seq == u64::MAX ==> log.counted().next_seq == 0,
        log.counted().entries == log.entries,
        log.counted().statuses == log.statuses,
{
}

/// An empty log is in chronological order.
pub proof fn lemma_empty_log_is_chronological()
    ensures
        LogView::empty().is_chronological(),
{
}

/// Events keep a log in chronological order, as long as there are sequence
/// numbers left.
pub proof fn lemma_events_keep_chronological_order(
    log: LogView,
    event: EventView,
    level: tracing::Level,
    target: Seq<char>,
)
    requires
        log.is_chronological(),
        log.next_seq < u64::MAX,
    ensures
        log.captured(event, level, target).is_chronological(),
{
    let after = log.captured(event, level, target);
    let entry = log.entry_for(event, level, target);
    if event.context_ids.len() > 0 {
        lemma_pushed_to_all(log.counted(), event.context_ids, entry, Seq::empty());
        assert(after.next_seq == log.next_seq + 1);
        assert forall|id: Seq<char>, i: int| 0 <= i < after.of(id).len() implies (
        #[trigger] after.of(id)[i]).seq < after.next_seq by {
            lemma_event_reaches_its_contexts(log, event, level, target, id);
            if i < log.of(id).len() {
                assert(after.of(id)[i] == log.of(id)[i]);
            }
        }
        assert forall|id: Seq<char>, i: int, j: int| 0 <= i < j < after.of(id).len() implies (
        #[trigger] after.of(id)[i]).seq < (#[trigger] after.of(id)[j]).seq || after.of(id)[i]
            == after.of(id)[j] by {
            lemma_event_reaches_its_contexts(log, event, level, target, id);
            if i < log.of(id).len() {
                assert(after.of(id)[i] == log.of(id)[i]);
            }
            if j < log.of(id).len() {
                assert(after.of(id)[j] == log.of(id)[j]);
            }
        }
    }
}

} // verus!
