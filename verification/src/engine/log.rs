//! A bounded ring of recent log events.
//!
//! Entries are structured rather than formatted: level, target, message and timestamp stay
//! separate, so a reader filters on them instead of pattern-matching rendered text. Every entry
//! has a sequence number that keeps counting past a drop or a clear, so a reader polling with
//! "everything after what I already read" is never sent backwards.

use crate::text::str_eq;
use vstd::prelude::*;

verus! {

/// Entries kept before the oldest is dropped, unless a target chooses otherwise.
pub const DEFAULT_CAPACITY: usize = 3000;

/// How severe an event is, least to most.
#[derive(Debug, Clone, Copy, PartialEq, Eq, Structural)]
pub enum Level {
    Trace,
    Debug,
    Info,
    Warn,
    Error,
}

impl Level {
    /// The level's name in capitals, as log lines print it.
    pub fn as_str(&self) -> (out: &'static str)
        ensures
            out@ == level_name(*self),
    {
        match self {
            Level::Trace => "TRACE",
            Level::Debug => "DEBUG",
            Level::Info => "INFO",
            Level::Warn => "WARN",
            Level::Error => "ERROR",
        }
    }
}

/// The name a level prints as.
pub open spec fn level_name(level: Level) -> Seq<char> {
    match level {
        Level::Trace => "TRACE"@,
        Level::Debug => "DEBUG"@,
        Level::Info => "INFO"@,
        Level::Warn => "WARN"@,
        Level::Error => "ERROR"@,
    }
}

/// An interned emitting module path, such as `bevy_render::renderer`: its position in the
/// interner.
#[derive(Debug, Clone, Copy, PartialEq, Eq, Structural)]
pub struct Target(pub u32);

/// The store behind [`Target`]: each name once, in the order first seen. It only grows.
pub struct Interner {
    names: Vec<String>,
}

impl View for Interner {
    type V = Seq<Seq<char>>;

    closed spec fn view(&self) -> Seq<Seq<char>> {
        crate::text::views(self.names@)
    }
}

impl Interner {
    /// Each name once, and few enough for a `u32` to number them.
    #[verifier::type_invariant]
    closed spec fn distinct_names(self) -> bool {
        &&& crate::text::views(self.names@).no_duplicates()
        &&& self.names@.len() <= u32::MAX
    }

    /// No names yet.
    pub fn new() -> (out: Interner)
        ensures
            out@.len() == 0,
    {
        Interner { names: Vec::new() }
    }

    /// How many names there are.
    pub fn len(&self) -> (out: usize)
        ensures
            out == self@.len(),
    {
        self.names.len()
    }

    /// The target for `name`: the one it already has, or a new one after every other. `None`
    /// only when all `u32::MAX` targets are taken and `name` is new.
    pub fn intern(&mut self, name: &str) -> (out: Option<Target>)
        ensures
            old(self)@.contains(name@) ==> final(self)@ == old(self)@ && (out matches Some(t)
                && old(self)@[t.0 as int] == name@),
            !old(self)@.contains(name@) && old(self)@.len() < u32::MAX ==> final(self)@ == old(
                self,
            )@.push(name@) && out == Some(Target(old(self)@.len() as u32)),
            !old(self)@.contains(name@) && old(self)@.len() >= u32::MAX ==> final(self)@ == old(self)@
                && out is None,
            final(self)@.len() <= u32::MAX,
            out matches Some(t) ==> (t.0 as int) < final(self)@.len() && final(self)@[t.0 as int] == name@,
    {
        proof {
            use_type_invariant(&*self);
        }
        let mut k: usize = 0;
        while k < self.names.len()
            invariant
                k <= self.names@.len(),
                self.names@.len() <= u32::MAX,
                forall|j: int| 0 <= j < k ==> #[trigger] self.names@[j]@ != name@,
            decreases self.names@.len() - k,
        {
            if str_eq(self.names[k].as_str(), name) {
                proof {
                    assert(self@[k as int] == name@);
                }
                return Some(Target(k as u32));
            }
            k = k + 1;
        }
        proof {
            assert(!self@.contains(name@)) by {
                if self@.contains(name@) {
                    let j = choose|j: int| 0 <= j < self@.len() && self@[j] == name@;
                    assert(self.names@[j]@ == name@);
                }
            }
        }
        if self.names.len() >= 0xFFFF_FFFF {
            return None;
        }
        let ghost before = self@;
        let target = Target(self.names.len() as u32);
        let mut names: Vec<String> = Vec::new();
        std::mem::swap(&mut names, &mut self.names);
        names.push(String::from_str(name));
        proof {
            let v = crate::text::views(names@);
            assert(v =~= before.push(name@));
            assert forall|p: int, q: int| 0 <= p < v.len() && 0 <= q < v.len() && p != q implies v[p] != v[q] by {
                if p < before.len() && q < before.len() {
                } else if p == before.len() {
                    assert(before.contains(before[q]));
                } else {
                    assert(before.contains(before[p]));
                }
            }
        }
        self.names = names;
        Some(target)
    }

    /// The name of `target`, or nothing for a target this interner never gave out.
    pub fn resolve(&self, target: Target) -> (out: &str)
        ensures
            target.0 < self@.len() ==> out@ == self@[target.0 as int],
            target.0 >= self@.len() ==> out@ == Seq::<char>::empty(),
    {
        if (target.0 as usize) < self.names.len() {
            self.names[target.0 as usize].as_str()
        } else {
            proof {
                reveal_strlit("");
            }
            ""
        }
    }
}

/// One captured event, as it is stored.
#[derive(Debug, Clone)]
pub struct LogEntry {
    /// Monotonic and contiguous across the whole process.
    pub sequence: u64,
    /// Seconds since the process started, as the bits of an `f64`.
    pub timestamp_bits: u64,
    pub level: Level,
    pub target: Target,
    /// The message field only.
    pub message: String,
}

/// An entry as the contracts see it: sequence, timestamp bits, level, target, message.
pub type EntryView = (u64, u64, Level, Target, Seq<char>);

/// The contract view of a list of entries.
pub open spec fn entry_views(entries: Seq<LogEntry>) -> Seq<EntryView> {
    Seq::new(
        entries.len(),
        |i: int| (entries[i].sequence, entries[i].timestamp_bits, entries[i].level, entries[i].target, entries[i].message@),
    )
}

/// The last `n` of `s`.
pub open spec fn keep_last<T>(s: Seq<T>, n: nat) -> Seq<T> {
    if s.len() > n {
        s.skip(s.len() - n)
    } else {
        s
    }
}

/// A ring as the contracts see it.
pub struct RingView {
    pub entries: Seq<EntryView>,
    pub names: Seq<Seq<char>>,
    pub capacity: nat,
    /// The sequence number the next entry gets.
    pub next_sequence: nat,
}

/// The ring after an event is pushed: nothing when the capacity is zero; otherwise the event
/// gets the next sequence number and its target's position, and the oldest entries go to make
/// room.
pub open spec fn pushed(r: RingView, timestamp_bits: u64, level: Level, target: Target, message: Seq<char>) -> RingView {
    if r.capacity == 0 {
        r
    } else {
        RingView {
            entries: keep_last(
                r.entries.push((r.next_sequence as u64, timestamp_bits, level, target, message)),
                r.capacity,
            ),
            next_sequence: r.next_sequence + 1,
            ..r
        }
    }
}

/// The ring after every entry is dropped: the sequence numbers go on counting.
pub open spec fn cleared(r: RingView) -> RingView {
    RingView { entries: Seq::empty(), ..r }
}

/// The ring after its capacity is set to `capacity`: the oldest entries go until the rest fit.
pub open spec fn resized(r: RingView, capacity: nat) -> RingView {
    RingView { entries: keep_last(r.entries, capacity), capacity, ..r }
}

/// What a push writes is what the ring then holds newest, under the number the ring was about
/// to give out, and the next number is one more: a reader asking for that number gets that event.
pub proof fn lemma_a_pushed_event_is_the_newest(
    r: RingView,
    timestamp_bits: u64,
    level: Level,
    target: Target,
    message: Seq<char>,
)
    requires
        r.capacity > 0,
    ensures
        pushed(r, timestamp_bits, level, target, message).entries.len() > 0,
        pushed(r, timestamp_bits, level, target, message).entries.last() == (
            r.next_sequence as u64,
            timestamp_bits,
            level,
            target,
            message,
        ),
        pushed(r, timestamp_bits, level, target, message).next_sequence == r.next_sequence + 1,
{
    let e = r.entries.push((r.next_sequence as u64, timestamp_bits, level, target, message));
    if e.len() > r.capacity {
        assert(e.skip(e.len() - r.capacity).last() == e.last());
    }
}

/// Pushing into a full ring drops exactly its oldest entry and appends the new one after the rest.
pub proof fn lemma_a_full_ring_drops_its_oldest(
    r: RingView,
    timestamp_bits: u64,
    level: Level,
    target: Target,
    message: Seq<char>,
)
    requires
        r.capacity > 0,
        r.entries.len() == r.capacity,
    ensures
        pushed(r, timestamp_bits, level, target, message).entries == r.entries.drop_first().push(
            (r.next_sequence as u64, timestamp_bits, level, target, message),
        ),
{
    let e = r.entries.push((r.next_sequence as u64, timestamp_bits, level, target, message));
    assert(e.skip(e.len() - r.capacity) =~= r.entries.drop_first().push(
        (r.next_sequence as u64, timestamp_bits, level, target, message),
    ));
}

/// After a clear, the next entry carries the number the ring would have given it anyway: clearing
/// never sends a reader polling by sequence backwards.
pub proof fn lemma_clearing_keeps_counting(
    r: RingView,
    timestamp_bits: u64,
    level: Level,
    target: Target,
    message: Seq<char>,
)
    requires
        r.capacity > 0,
    ensures
        pushed(cleared(r), timestamp_bits, level, target, message).entries == seq![
            (r.next_sequence as u64, timestamp_bits, level, target, message),
        ],
        pushed(cleared(r), timestamp_bits, level, target, message).next_sequence == r.next_sequence + 1,
{
    assert(Seq::<EntryView>::empty().push((r.next_sequence as u64, timestamp_bits, level, target, message)) =~= seq![
        (r.next_sequence as u64, timestamp_bits, level, target, message),
    ]);
}

/// The ring's storage, whose methods keep [`ring_ok`] when they are given it.
struct RingState {
    entries: std::collections::VecDeque<LogEntry>,
    interner: Interner,
    capacity: usize,
    next_sequence: u64,
}

impl View for RingState {
    type V = RingView;

    closed spec fn view(&self) -> RingView {
        RingView {
            entries: entry_views(self.entries@),
            names: self.interner@,
            capacity: self.capacity as nat,
            next_sequence: self.next_sequence as nat,
        }
    }
}

/// The ring holds no more than its capacity, the entries' sequence numbers run without a gap up
/// to the one before the next, and every target was given out by the interner.
pub open spec fn ring_ok(r: RingView) -> bool {
    &&& r.entries.len() <= r.capacity
    &&& r.entries.len() <= r.next_sequence
    &&& r.names.no_duplicates()
    &&& forall|k: int|
        0 <= k < r.entries.len() ==> (#[trigger] r.entries[k]).0 == r.next_sequence - r.entries.len() + k
            && r.entries[k].3.0 < r.names.len()
}

impl RingState {
    /// The ring keeps [`ring_ok`].
    spec fn well_formed(&self) -> bool {
        ring_ok(self@)
    }

    /// An empty ring holding at most `capacity` entries.
    fn new(capacity: usize) -> (out: RingState)
        ensures
            out@.entries.len() == 0,
            out@.names.len() == 0,
            out@.capacity == capacity,
            out@.next_sequence == 0,
            out.well_formed(),
    {
        RingState { entries: std::collections::VecDeque::new(), interner: Interner::new(), capacity, next_sequence: 0 }
    }

    /// Records an event under the next sequence number, dropping the oldest entries to make
    /// room. Its target is interned; when the interner is full and the target new, the event is
    /// not recorded. A ring of capacity zero records nothing.
    fn push(&mut self, timestamp_bits: u64, level: Level, target: &str, message: String)
        requires
            old(self).well_formed(),
            old(self)@.next_sequence < u64::MAX,
        ensures
            final(self).well_formed(),
            final(self)@.capacity == old(self)@.capacity,
            old(self)@.capacity == 0 ==> final(self)@ == old(self)@,
            old(self)@.names.contains(target@) ==> final(self)@.names == old(self)@.names,
            !old(self)@.names.contains(target@) && old(self)@.names.len() < u32::MAX && old(self)@.capacity > 0
                ==> final(self)@.names == old(self)@.names.push(target@),
            !old(self)@.names.contains(target@) && old(self)@.names.len() >= u32::MAX ==> final(self)@ == old(self)@,
            old(self)@.capacity > 0 && (old(self)@.names.contains(target@) || old(self)@.names.len() < u32::MAX) ==> exists|t: Target|
                #![trigger pushed(old(self)@, timestamp_bits, level, t, message@)]
                (t.0 as int) < final(self)@.names.len() && final(self)@.names[t.0 as int] == target@ && final(self)@.entries
                    == pushed(old(self)@, timestamp_bits, level, t, message@).entries && final(self)@.next_sequence
                    == pushed(old(self)@, timestamp_bits, level, t, message@).next_sequence,
    {
        proof {
            use_type_invariant(&self.interner);
        }
        if self.capacity == 0 {
            return;
        }
        let ghost before = self@;
        let mut interner = Interner::new();
        std::mem::swap(&mut interner, &mut self.interner);
        let interned = interner.intern(target);
        let mut entries = std::collections::VecDeque::new();
        std::mem::swap(&mut entries, &mut self.entries);
        let target_id = match interned {
            Some(t) => t,
            None => {
                self.interner = interner;
                self.entries = entries;
                return;
            },
        };
        let sequence = self.next_sequence;
        while entries.len() >= self.capacity
            invariant
                self.capacity > 0,
                self.capacity == before.capacity,
                entries@.len() <= before.entries.len(),
                before.entries.len() >= before.capacity ==> entries@.len() >= before.capacity - 1,
                before.entries.len() < before.capacity ==> entries@.len() == before.entries.len(),
                entry_views(entries@) == before.entries.skip(before.entries.len() - entries@.len()),
            decreases entries@.len(),
        {
            let ghost prior = entries@;
            let _ = entries.pop_front();
            proof {
                assert(entry_views(entries@) =~= entry_views(prior).drop_first());
                assert(before.entries.skip(before.entries.len() - entries@.len()) =~= before.entries.skip(
                    before.entries.len() - prior.len(),
                ).drop_first());
            }
        }
        let ghost kept = entry_views(entries@);
        let ghost item = (sequence, timestamp_bits, level, target_id, message@);
        entries.push_back(LogEntry { sequence, timestamp_bits, level, target: target_id, message });
        let ghost e = before.entries.push(item);
        proof {
            assert(entry_views(entries@) =~= kept.push(item));
            if e.len() > before.capacity {
                assert(kept =~= before.entries.skip(before.entries.len() - (before.capacity - 1)));
                assert(kept.push(item) =~= e.skip(e.len() - before.capacity));
            } else {
                assert(kept =~= before.entries.skip(0));
                assert(before.entries.skip(0) =~= before.entries);
            }
            assert(entry_views(entries@) =~= keep_last(e, before.capacity));
        }
        self.entries = entries;
        self.interner = interner;
        self.next_sequence = self.next_sequence + 1;
        proof {
            use_type_invariant(&self.interner);
            let now = self@;
            assert(now.names.len() >= before.names.len());
            assert(now.entries == pushed(before, timestamp_bits, level, target_id, message@).entries);
            assert forall|k: int| 0 <= k < now.entries.len() implies (#[trigger] now.entries[k]).0 == now.next_sequence
                - now.entries.len() + k && now.entries[k].3.0 < now.names.len() by {
                if k < now.entries.len() - 1 {
                    let j = before.entries.len() - (now.entries.len() - 1) + k;
                    assert(now.entries[k] == before.entries[j]);
                    assert(before.entries[j].3.0 < before.names.len());
                } else {
                    assert(now.entries[k] == item);
                }
            }
            assert((target_id.0 as int) < now.names.len() && now.names[target_id.0 as int] == target@);
            assert(now.next_sequence == pushed(before, timestamp_bits, level, target_id, message@).next_sequence);
        }
    }

    /// Drops every entry. Sequence numbers keep counting, so a reader polling by sequence sees a
    /// gap rather than a repeat.
    fn clear(&mut self)
        requires
            old(self).well_formed(),
        ensures
            final(self).well_formed(),
            final(self)@ == cleared(old(self)@),
    {
        let mut entries = std::collections::VecDeque::new();
        std::mem::swap(&mut entries, &mut self.entries);
        entries.clear();
        self.entries = entries;
        proof {
            assert(self@.entries =~= Seq::<EntryView>::empty());
        }
    }

    /// Sets the capacity, dropping the oldest entries until the rest fit.
    fn set_capacity(&mut self, capacity: usize)
        requires
            old(self).well_formed(),
        ensures
            final(self).well_formed(),
            final(self)@ == resized(old(self)@, capacity as nat),
    {
        let ghost before = self@;
        let mut entries = std::collections::VecDeque::new();
        std::mem::swap(&mut entries, &mut self.entries);
        while entries.len() > capacity
            invariant
                entries@.len() <= before.entries.len(),
                before.entries.len() > capacity ==> entries@.len() >= capacity,
                before.entries.len() <= capacity ==> entries@.len() == before.entries.len(),
                entry_views(entries@) == before.entries.skip(before.entries.len() - entries@.len()),
            decreases entries@.len(),
        {
            let ghost prior = entries@;
            let _ = entries.pop_front();
            proof {
                assert(entry_views(entries@) =~= entry_views(prior).drop_first());
                assert(before.entries.skip(before.entries.len() - entries@.len()) =~= before.entries.skip(
                    before.entries.len() - prior.len(),
                ).drop_first());
            }
        }
        proof {
            assert(entry_views(entries@) =~= keep_last(before.entries, capacity as nat)) by {
                if before.entries.len() <= capacity {
                    assert(before.entries.skip(0) =~= before.entries);
                }
            }
            assert forall|k: int| 0 <= k < entries@.len() implies (#[trigger] entry_views(entries@)[k]).0
                == before.next_sequence - entries@.len() + k by {
                let j = before.entries.len() - entries@.len() + k;
                assert(entry_views(entries@)[k] == before.entries[j]);
            }
        }
        self.entries = entries;
        self.capacity = capacity;
    }

    /// The sequence number the next entry gets.
    fn next_sequence(&self) -> (out: u64)
        ensures
            out == self@.next_sequence,
    {
        self.next_sequence
    }

    /// How many entries are held.
    fn len(&self) -> (out: usize)
        ensures
            out == self@.entries.len(),
    {
        self.entries.len()
    }

    /// Whether no entry is held.
    fn is_empty(&self) -> (out: bool)
        ensures
            out == (self@.entries.len() == 0),
    {
        self.entries.len() == 0
    }

    /// The entry at `index`, oldest first. Positions shift as the ring wraps; anything that
    /// outlives a frame should hold a sequence number instead.
    fn get(&self, index: usize) -> (out: Option<&LogEntry>)
        ensures
            index < self@.entries.len() ==> (out matches Some(e) && entry_views(seq![*e])[0] == self@.entries[index as int]),
            index >= self@.entries.len() ==> out is None,
    {
        if index < self.entries.len() {
            Some(&self.entries[index])
        } else {
            None
        }
    }

    /// The entry with sequence number `sequence`, or `None` for one that has aged out or not
    /// happened yet. Sequence numbers are contiguous, so this is a subtraction.
    fn by_sequence(&self, sequence: u64) -> (out: Option<&LogEntry>)
        requires
            self.well_formed(),
        ensures
            (exists|k: int| 0 <= k < self@.entries.len() && self@.entries[k].0 == sequence) ==> (out matches Some(
                e,
            ) && e.sequence == sequence && exists|k: int|
                0 <= k < self@.entries.len() && entry_views(seq![*e])[0] == #[trigger] self@.entries[k]),
            !(exists|k: int| 0 <= k < self@.entries.len() && self@.entries[k].0 == sequence) ==> out is None,
    {
        if self.entries.len() == 0 {
            return None;
        }
        let oldest = self.entries[0].sequence;
        if sequence < oldest {
            proof {
                assert forall|k: int| 0 <= k < self@.entries.len() implies self@.entries[k].0 != sequence by {
                    assert(self@.entries[k].0 == self@.entries[0].0 + k);
                }
            }
            return None;
        }
        let offset = sequence - oldest;
        if offset >= self.entries.len() as u64 {
            proof {
                assert forall|k: int| 0 <= k < self@.entries.len() implies self@.entries[k].0 != sequence by {
                    assert(self@.entries[k].0 == self@.entries[0].0 + k);
                }
            }
            return None;
        }
        let entry = &self.entries[offset as usize];
        proof {
            assert(self@.entries[0].0 == oldest);
            assert(self@.entries[0].0 == self@.next_sequence - self@.entries.len());
            assert(self@.entries[offset as int].0 == self@.next_sequence - self@.entries.len() + offset);
            assert(self@.entries[offset as int].0 == sequence);
        }
        Some(entry)
    }

    /// The oldest and newest sequence numbers held, or `None` when empty.
    fn sequence_range(&self) -> (out: Option<(u64, u64)>)
        ensures
            self@.entries.len() == 0 ==> out is None,
            self@.entries.len() > 0 ==> out == Some((self@.entries[0].0, self@.entries.last().0)),
    {
        if self.entries.len() == 0 {
            None
        } else {
            Some((self.entries[0].sequence, self.entries[self.entries.len() - 1].sequence))
        }
    }

    /// The name of `target`.
    fn resolve(&self, target: Target) -> (out: &str)
        ensures
            target.0 < self@.names.len() ==> out@ == self@.names[target.0 as int],
            target.0 >= self@.names.len() ==> out@ == Seq::<char>::empty(),
    {
        self.interner.resolve(target)
    }
}

/// A bounded ring of recent events.
pub struct LogRing {
    ring: RingState,
}

impl View for LogRing {
    type V = RingView;

    closed spec fn view(&self) -> RingView {
        self.ring@
    }
}

impl LogRing {
    /// The ring always keeps [`ring_ok`].
    #[verifier::type_invariant]
    closed spec fn consistent(self) -> bool {
        ring_ok(self.ring@)
    }

    /// Takes the storage out, leaving an empty ring of no capacity in its place.
    fn take(&mut self) -> (out: RingState)
        ensures
            out@ == old(self)@,
            ring_ok(out@),
    {
        proof {
            use_type_invariant(&*self);
        }
        let mut ring = RingState::new(0);
        std::mem::swap(&mut ring, &mut self.ring);
        ring
    }

    /// An empty ring holding at most `capacity` entries.
    pub fn new(capacity: usize) -> (out: LogRing)
        ensures
            out@.entries.len() == 0,
            out@.names.len() == 0,
            out@.capacity == capacity,
            out@.next_sequence == 0,
            ring_ok(out@),
    {
        LogRing { ring: RingState::new(capacity) }
    }

    /// Records an event under the next sequence number, dropping the oldest entries to make
    /// room. Its target is interned; when the interner is full and the target new, the event is
    /// not recorded. A ring of capacity zero records nothing.
    pub fn push(&mut self, timestamp_bits: u64, level: Level, target: &str, message: String)
        requires
            old(self)@.next_sequence < u64::MAX,
        ensures
            ring_ok(final(self)@),
            final(self)@.capacity == old(self)@.capacity,
            old(self)@.capacity == 0 ==> final(self)@ == old(self)@,
            old(self)@.names.contains(target@) ==> final(self)@.names == old(self)@.names,
            !old(self)@.names.contains(target@) && old(self)@.names.len() < u32::MAX && old(self)@.capacity > 0
                ==> final(self)@.names == old(self)@.names.push(target@),
            !old(self)@.names.contains(target@) && old(self)@.names.len() >= u32::MAX ==> final(self)@ == old(self)@,
            old(self)@.capacity > 0 && (old(self)@.names.contains(target@) || old(self)@.names.len() < u32::MAX) ==> exists|t: Target|
                #![trigger pushed(old(self)@, timestamp_bits, level, t, message@)]
                (t.0 as int) < final(self)@.names.len() && final(self)@.names[t.0 as int] == target@ && final(self)@.entries
                    == pushed(old(self)@, timestamp_bits, level, t, message@).entries && final(self)@.next_sequence
                    == pushed(old(self)@, timestamp_bits, level, t, message@).next_sequence,
    {
        let mut ring = self.take();
        ring.push(timestamp_bits, level, target, message);
        self.ring = ring;
    }

    /// Drops every entry. Sequence numbers keep counting, so a reader polling by sequence sees a
    /// gap rather than a repeat.
    pub fn clear(&mut self)
        ensures
            ring_ok(final(self)@),
            final(self)@ == cleared(old(self)@),
    {
        let mut ring = self.take();
        ring.clear();
        self.ring = ring;
    }

    /// Sets the capacity, dropping the oldest entries until the rest fit.
    pub fn set_capacity(&mut self, capacity: usize)
        ensures
            ring_ok(final(self)@),
            final(self)@ == resized(old(self)@, capacity as nat),
    {
        let mut ring = self.take();
        ring.set_capacity(capacity);
        self.ring = ring;
    }

    /// The sequence number the next entry gets.
    pub fn next_sequence(&self) -> (out: u64)
        ensures
            out == self@.next_sequence,
    {
        self.ring.next_sequence()
    }

    /// How many entries are held.
    pub fn len(&self) -> (out: usize)
        ensures
            out == self@.entries.len(),
    {
        self.ring.len()
    }

    /// Whether no entry is held.
    pub fn is_empty(&self) -> (out: bool)
        ensures
            out == (self@.entries.len() == 0),
    {
        self.ring.is_empty()
    }

    /// The entry at `index`, oldest first. Positions shift as the ring wraps; anything that
    /// outlives a frame should hold a sequence number instead.
    pub fn get(&self, index: usize) -> (out: Option<&LogEntry>)
        ensures
            index < self@.entries.len() ==> (out matches Some(e) && entry_views(seq![*e])[0] == self@.entries[index as int]),
            index >= self@.entries.len() ==> out is None,
    {
        self.ring.get(index)
    }

    /// The entry with sequence number `sequence`, or `None` for one that has aged out or not
    /// happened yet. Sequence numbers are contiguous, so this is a subtraction.
    pub fn by_sequence(&self, sequence: u64) -> (out: Option<&LogEntry>)
        ensures
            (exists|k: int| 0 <= k < self@.entries.len() && self@.entries[k].0 == sequence) ==> (out matches Some(
                e,
            ) && e.sequence == sequence && exists|k: int|
                0 <= k < self@.entries.len() && entry_views(seq![*e])[0] == #[trigger] self@.entries[k]),
            !(exists|k: int| 0 <= k < self@.entries.len() && self@.entries[k].0 == sequence) ==> out is None,
    {
        proof {
            use_type_invariant(self);
        }
        let out = self.ring.by_sequence(sequence);
        proof {
            assert(self@ == self.ring@);
        }
        out
    }

    /// The oldest and newest sequence numbers held, or `None` when empty.
    pub fn sequence_range(&self) -> (out: Option<(u64, u64)>)
        ensures
            self@.entries.len() == 0 ==> out is None,
            self@.entries.len() > 0 ==> out == Some((self@.entries[0].0, self@.entries.last().0)),
    {
        self.ring.sequence_range()
    }

    /// The name of `target`.
    pub fn resolve(&self, target: Target) -> (out: &str)
        ensures
            target.0 < self@.names.len() ==> out@ == self@.names[target.0 as int],
            target.0 >= self@.names.len() ==> out@ == Seq::<char>::empty(),
    {
        self.ring.resolve(target)
    }
}

} // verus!
