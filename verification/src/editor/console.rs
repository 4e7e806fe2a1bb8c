//! The Console tab's text and selection: one row per log entry, selectable by sequence number.
//!
//! Drawing stays with the UI; this module holds what a row shows and what a click does to the
//! selection, so both are the same whichever toolkit draws them.

use crate::engine::log::LogRing;
use crate::text::{chars_of, string_of};
use vstd::prelude::*;

verus! {

/// Columns the target field is cut to.
pub const TARGET_WIDTH: usize = 24;

/// Drawn in place of a newline, so an entry stays one row high. The buffer keeps the true text.
pub const NEWLINE_GLYPH: char = '⏎';

/// Marks the start of a target that was cut.
pub const ELLIPSIS: char = '…';

/// `text` cut to its last `width` characters, the first of them replaced by an ellipsis; unchanged
/// when it already fits.
pub open spec fn kept_tail(text: Seq<char>, width: nat) -> Seq<char> {
    if text.len() <= width {
        text
    } else if width == 0 {
        seq![ELLIPSIS]
    } else {
        seq![ELLIPSIS] + text.skip(text.len() - width + 1)
    }
}

/// Keeps the tail of a module path, which is the part that identifies it.
pub fn truncate_left(text: &str, width: usize) -> (out: String)
    ensures
        out@ == kept_tail(text@, width as nat),
{
    let chars = chars_of(text);
    let count = chars.len();
    if count <= width {
        return string_of(chars.as_slice());
    }
    let mut out = String::new();
    out.push(ELLIPSIS);
    if width == 0 {
        return out;
    }
    let mut i: usize = count - width + 1;
    while i < count
        invariant
            count == text@.len(),
            chars@ == text@,
            0 < width < count,
            count - width + 1 <= i <= count,
            out@ == seq![ELLIPSIS] + text@.subrange(count - width + 1, i as int),
        decreases count - i,
    {
        out.push(chars[i]);
        proof {
            assert(text@.subrange(count - width + 1, i + 1) =~= text@.subrange(count - width + 1, i as int).push(
                text@[i as int],
            ));
        }
        i = i + 1;
    }
    proof {
        assert(text@.subrange(count - width + 1, count as int) =~= text@.skip(count - width + 1));
    }
    out
}

/// `message` on one row: carriage returns dropped, line feeds drawn as [`NEWLINE_GLYPH`].
pub open spec fn flattened(message: Seq<char>) -> Seq<char>
    decreases message.len(),
{
    if message.len() == 0 {
        Seq::empty()
    } else {
        let rest = flattened(message.drop_last());
        let c = message.last();
        if c == '\r' {
            rest
        } else if c == '\n' {
            rest.push(NEWLINE_GLYPH)
        } else {
            rest.push(c)
        }
    }
}

/// Lays a multi-line message out as one row.
pub fn flatten(message: &str) -> (out: String)
    ensures
        out@ == flattened(message@),
{
    let chars = chars_of(message);
    let mut out = String::new();
    let mut i: usize = 0;
    while i < chars.len()
        invariant
            i <= chars@.len(),
            chars@ == message@,
            out@ == flattened(message@.take(i as int)),
        decreases chars.len() - i,
    {
        let c = chars[i];
        proof {
            assert(message@.take(i + 1).drop_last() =~= message@.take(i as int));
        }
        if c == '\r' {
        } else if c == '\n' {
            out.push(NEWLINE_GLYPH);
        } else {
            out.push(c);
        }
        i = i + 1;
    }
    proof {
        assert(message@.take(chars.len() as int) =~= message@);
    }
    out
}

/// The modifier keys held during a click. `command` is Ctrl, or Cmd on a Mac.
#[derive(Debug, Clone, Copy, PartialEq, Eq, Structural)]
pub struct ClickModifiers {
    pub command: bool,
    pub shift: bool,
}

/// Each element larger than the one before.
pub open spec fn increasing(s: Seq<u64>) -> bool {
    forall|p: int, q: int| 0 <= p < q < s.len() ==> s[p] < s[q]
}

/// The whole numbers from `from` to `to`, both included; none when `from > to`.
pub open spec fn span(from: u64, to: u64) -> Seq<u64> {
    if from > to {
        Seq::empty()
    } else {
        Seq::new((to - from + 1) as nat, |i: int| (from + i) as u64)
    }
}

/// The selection after a click on `sequence`, and the anchor after it.
///
/// With the command key, the row is toggled and the anchor stays. With shift and an anchor, the
/// rows between the anchor and the click are selected, clamped to what the buffer still holds
/// (from `oldest` to `newest`). Otherwise the row alone is selected and becomes the anchor.
pub open spec fn clicked(
    selected: Set<u64>,
    anchor: Option<u64>,
    sequence: u64,
    modifiers: ClickModifiers,
    oldest: u64,
    newest: u64,
) -> (Set<u64>, Option<u64>) {
    if modifiers.command {
        if selected.contains(sequence) {
            (selected.remove(sequence), anchor)
        } else {
            (selected.insert(sequence), anchor)
        }
    } else if modifiers.shift && anchor is Some {
        let a = anchor->0;
        let from = if a <= sequence { a } else { sequence };
        let to = if a <= sequence { sequence } else { a };
        let low = if from > oldest { from } else { oldest };
        let high = if to < newest { to } else { newest };
        (span(low, high).to_set(), anchor)
    } else {
        (set![sequence], Some(sequence))
    }
}

/// A shift-click without the command key, made while an anchor is set, measures from that
/// anchor and leaves it where it is: it selects exactly the rows between the anchor and the
/// click, both included, that the buffer still holds.
pub proof fn lemma_a_shift_click_keeps_its_anchor(
    selected: Set<u64>,
    a: u64,
    sequence: u64,
    oldest: u64,
    newest: u64,
)
    ensures
        ({
            let out = clicked(selected, Some(a), sequence, ClickModifiers { command: false, shift: true }, oldest, newest);
            &&& out.1 == Some(a)
            &&& forall|x: u64|
                #[trigger] out.0.contains(x) <==> ((a <= x <= sequence || sequence <= x <= a) && oldest <= x <= newest)
        }),
{
    let out = clicked(selected, Some(a), sequence, ClickModifiers { command: false, shift: true }, oldest, newest);
    let from = if a <= sequence { a } else { sequence };
    let to = if a <= sequence { sequence } else { a };
    let low = if from > oldest { from } else { oldest };
    let high = if to < newest { to } else { newest };
    assert forall|x: u64| #[trigger] out.0.contains(x) <==> ((a <= x <= sequence || sequence <= x <= a) && oldest <= x <= newest) by {
        if low <= x <= high {
            assert(span(low, high)[x - low] == x);
        }
        if out.0.contains(x) {
            let i = choose|i: int| 0 <= i < span(low, high).len() && span(low, high)[i] == x;
        }
    }
}

/// Two shift-clicks after a plain click both measure from the plain click: the second replaces
/// the first's rows with the rows between the plain click and itself.
pub proof fn lemma_shift_clicks_measure_from_the_plain_click(
    selected: Set<u64>,
    anchor: Option<u64>,
    first: u64,
    second: u64,
    third: u64,
    oldest: u64,
    newest: u64,
)
    ensures
        ({
            let shift = ClickModifiers { command: false, shift: true };
            let plain = ClickModifiers { command: false, shift: false };
            let one = clicked(selected, anchor, first, plain, oldest, newest);
            let two = clicked(one.0, one.1, second, shift, oldest, newest);
            let three = clicked(two.0, two.1, third, shift, oldest, newest);
            &&& three.1 == Some(first)
            &&& three == clicked(one.0, one.1, third, shift, oldest, newest)
        }),
{
}

/// A command-click flips the clicked row alone and leaves the anchor where it was, with or
/// without shift.
pub proof fn lemma_a_command_click_flips_one_row(
    selected: Set<u64>,
    anchor: Option<u64>,
    sequence: u64,
    shift: bool,
    oldest: u64,
    newest: u64,
)
    ensures
        ({
            let out = clicked(selected, anchor, sequence, ClickModifiers { command: true, shift }, oldest, newest);
            &&& out.1 == anchor
            &&& out.0.contains(sequence) == !selected.contains(sequence)
            &&& forall|x: u64| x != sequence ==> (#[trigger] out.0.contains(x) == selected.contains(x))
        }),
{
}

/// A click with no modifier, or a shift-click with no anchor yet, selects the clicked row alone
/// and makes it the anchor.
pub proof fn lemma_a_plain_click_selects_one_row(
    selected: Set<u64>,
    anchor: Option<u64>,
    sequence: u64,
    shift: bool,
    oldest: u64,
    newest: u64,
)
    requires
        !shift || anchor is None,
    ensures
        ({
            let out = clicked(selected, anchor, sequence, ClickModifiers { command: false, shift }, oldest, newest);
            &&& out.1 == Some(sequence)
            &&& forall|x: u64| #[trigger] out.0.contains(x) <==> x == sequence
        }),
{
}

/// A second command-click on the same row undoes the first: the selection and the anchor are as
/// they were before either.
pub proof fn lemma_a_second_ctrl_click_undoes_the_first(
    selected: Set<u64>,
    anchor: Option<u64>,
    sequence: u64,
    shift: bool,
    oldest: u64,
    newest: u64,
)
    ensures
        ({
            let modifiers = ClickModifiers { command: true, shift };
            let once = clicked(selected, anchor, sequence, modifiers, oldest, newest);
            clicked(once.0, once.1, sequence, modifiers, oldest, newest) == (selected, anchor)
        }),
{
    let modifiers = ClickModifiers { command: true, shift };
    let once = clicked(selected, anchor, sequence, modifiers, oldest, newest);
    if selected.contains(sequence) {
        assert(once.0.insert(sequence) =~= selected);
    } else {
        assert(once.0.remove(sequence) =~= selected);
    }
}

/// The Console tab's state across frames.
pub struct ConsoleState {
    /// Selected rows by sequence number, ascending. By sequence rather than position: the ring
    /// drops from the front, so a position would slide onto a different row as it wraps.
    selected: Vec<u64>,
    /// Where a shift-click measures its range from.
    anchor: Option<u64>,
    /// The row the detail pane shows: the last one clicked.
    detail: Option<u64>,
}

impl ConsoleState {
    /// The selection is kept ascending, each row once.
    #[verifier::type_invariant]
    closed spec fn ascending(self) -> bool {
        increasing(self.selected@)
    }

    /// The selected rows, as the contracts see them.
    pub closed spec fn selection(self) -> Set<u64> {
        self.selected@.to_set()
    }

    /// The anchor, as the contracts see it.
    pub closed spec fn anchor_spec(self) -> Option<u64> {
        self.anchor
    }

    /// The row the detail pane shows, as the contracts see it.
    pub closed spec fn detail_spec(self) -> Option<u64> {
        self.detail
    }

    /// Nothing selected.
    pub fn new() -> (out: ConsoleState)
        ensures
            out.selection() == Set::<u64>::empty(),
            out.anchor_spec() is None,
            out.detail_spec() is None,
    {
        let out = ConsoleState { selected: Vec::new(), anchor: None, detail: None };
        proof {
            assert(out.selected@.to_set() =~= Set::<u64>::empty());
        }
        out
    }

    /// The selected rows, oldest first.
    pub fn selected(&self) -> (out: Vec<u64>)
        ensures
            out@.to_set() == self.selection(),
            increasing(out@),
    {
        proof {
            use_type_invariant(self);
        }
        self.selected.clone()
    }

    /// Where a shift-click measures its range from.
    pub fn anchor(&self) -> (out: Option<u64>)
        ensures
            out == self.anchor_spec(),
    {
        self.anchor
    }

    /// The row the detail pane shows.
    pub fn detail(&self) -> (out: Option<u64>)
        ensures
            out == self.detail_spec(),
    {
        self.detail
    }

    /// Applies one click on the row with sequence number `sequence`, while the buffer holds the
    /// rows from `oldest` to `newest`. The detail pane follows the click whatever the modifiers.
    pub fn click(&mut self, sequence: u64, modifiers: ClickModifiers, oldest: u64, newest: u64)
        ensures
            (final(self).selection(), final(self).anchor_spec()) == clicked(
                old(self).selection(),
                old(self).anchor_spec(),
                sequence,
                modifiers,
                oldest,
                newest,
            ),
            final(self).detail_spec() == Some(sequence),
    {
        proof {
            use_type_invariant(&*self);
        }
        self.detail = Some(sequence);
        if modifiers.command {
            let toggled = toggled(&self.selected, sequence);
            self.selected = toggled;
            return;
        }
        if modifiers.shift {
            if let Some(anchor) = self.anchor {
                let (from, to) = if anchor <= sequence {
                    (anchor, sequence)
                } else {
                    (sequence, anchor)
                };
                let low = if from > oldest { from } else { oldest };
                let high = if to < newest { to } else { newest };
                self.selected = range(low, high);
                return;
            }
        }
        let mut only: Vec<u64> = Vec::new();
        only.push(sequence);
        proof {
            assert forall|a: u64| only@.to_set().contains(a) <==> a == sequence by {
                if a == sequence {
                    assert(only@[0] == a);
                }
            }
            assert(only@.to_set() =~= set![sequence]);
        }
        self.selected = only;
        self.anchor = Some(sequence);
    }

    /// Selects every row the buffer holds, from `oldest` to `newest`, anchored at the oldest.
    pub fn select_all(&mut self, oldest: u64, newest: u64)
        ensures
            final(self).selection() == span(oldest, newest).to_set(),
            final(self).anchor_spec() == Some(oldest),
            final(self).detail_spec() == old(self).detail_spec(),
    {
        self.selected = range(oldest, newest);
        self.anchor = Some(oldest);
    }

    /// Forgets the selection, the anchor and the detail row, as a clear of the buffer does.
    pub fn forget_rows(&mut self)
        ensures
            final(self).selection() == Set::<u64>::empty(),
            final(self).anchor_spec() is None,
            final(self).detail_spec() is None,
    {
        self.selected = Vec::new();
        self.anchor = None;
        self.detail = None;
        proof {
            assert(self.selected@.to_set() =~= Set::<u64>::empty());
        }
    }

    /// The selected rows the ring still holds, oldest first: what a copy puts on the clipboard.
    /// A row that has aged out is skipped.
    pub fn copied_rows(&self, ring: &LogRing) -> (out: Vec<u64>)
        ensures
            increasing(out@),
            forall|s: u64| out@.contains(s) <==> self.selection().contains(s) && holds(ring@, s),
    {
        proof {
            use_type_invariant(self);
        }
        let ghost sel = self.selected@;
        let mut out: Vec<u64> = Vec::new();
        let mut i: usize = 0;
        while i < self.selected.len()
            invariant
                sel == self.selected@,
                i <= sel.len(),
                increasing(sel),
                increasing(out@),
                out@.len() > 0 && i < sel.len() ==> out@.last() < sel[i as int],
                forall|t: u64| out@.contains(t) <==> sel.take(i as int).contains(t) && holds(ring@, t),
            decreases sel.len() - i,
        {
            let s = self.selected[i];
            let held = ring.by_sequence(s).is_some();
            proof {
                assert(sel.take(i + 1) =~= sel.take(i as int).push(s));
                assert(held == holds(ring@, s));
            }
            if held {
                let ghost before = out@;
                out.push(s);
                proof {
                    assert forall|p: int, q: int| 0 <= p < q < out@.len() implies out@[p] < out@[q] by {
                        if q == out@.len() - 1 && p < q {
                            if p < before.len() - 1 {
                                assert(before[p] < before.last());
                            }
                        }
                    }
                    assert forall|t: u64| out@.contains(t) <==> sel.take(i + 1).contains(t) && holds(ring@, t) by {
                        if t == s {
                            assert(out@[out@.len() - 1] == s);
                            assert(sel.take(i + 1)[i as int] == s);
                        } else {
                            if out@.contains(t) {
                                let j = choose|j: int| 0 <= j < out@.len() && out@[j] == t;
                                assert(before.contains(t)) by {
                                    assert(before[j] == t);
                                }
                                let q = choose|q: int| 0 <= q < i && #[trigger] sel.take(i as int)[q] == t;
                                assert(sel.take(i + 1)[q] == t);
                            }
                            if sel.take(i + 1).contains(t) && holds(ring@, t) {
                                let q = choose|q: int| 0 <= q < i + 1 && #[trigger] sel.take(i + 1)[q] == t;
                                assert(q < i);
                                assert(sel.take(i as int)[q] == t);
                                assert(before.contains(t));
                                let j = choose|j: int| 0 <= j < before.len() && before[j] == t;
                                assert(out@[j] == t);
                            }
                        }
                    }
                    if i + 1 < sel.len() {
                        assert(sel[i as int] < sel[i + 1]);
                    }
                }
            } else {
                proof {
                    if out@.len() > 0 && i + 1 < sel.len() {
                        assert(sel[i as int] < sel[i + 1]);
                    }
                }
            }
            i = i + 1;
        }
        proof {
            assert(sel.take(sel.len() as int) =~= sel);
        }
        out
    }
}

/// Whether the ring holds the entry with sequence number `sequence`.
pub open spec fn holds(ring: crate::engine::log::RingView, sequence: u64) -> bool {
    exists|k: int| 0 <= k < ring.entries.len() && (#[trigger] ring.entries[k]).0 == sequence
}

/// `sorted` with `x` added when absent and taken out when present, still ascending.
fn toggled(sorted: &Vec<u64>, x: u64) -> (out: Vec<u64>)
    requires
        increasing(sorted@),
    ensures
        increasing(out@),
        sorted@.to_set().contains(x) ==> out@.to_set() == sorted@.to_set().remove(x),
        !sorted@.to_set().contains(x) ==> out@.to_set() == sorted@.to_set().insert(x),
{
    let mut p: usize = 0;
    while p < sorted.len() && sorted[p] < x
        invariant
            p <= sorted@.len(),
            forall|j: int| 0 <= j < p ==> sorted@[j] < x,
        decreases sorted@.len() - p,
    {
        p = p + 1;
    }
    let mut out = sorted.clone();
    proof {
        assert(out@ =~= sorted@);
        assert forall|j: int| p <= j < sorted@.len() implies sorted@[j] >= x by {
            if j > p {
                assert(sorted@[p as int] < sorted@[j]);
            }
        }
    }
    if p < sorted.len() && sorted[p] == x {
        out.remove(p);
        proof {
            let s = sorted@;
            assert(out@.to_set() =~= s.to_set().remove(x)) by {
                assert forall|a: u64| out@.contains(a) <==> s.contains(a) && a != x by {
                    if out@.contains(a) {
                        let j = choose|j: int| 0 <= j < out@.len() && out@[j] == a;
                        if j < p {
                            assert(s[j] == a);
                        } else {
                            assert(s[j + 1] == a);
                            assert(s[p as int] < s[j + 1]);
                        }
                    }
                    if s.contains(a) && a != x {
                        let j = choose|j: int| 0 <= j < s.len() && s[j] == a;
                        if j < p {
                            assert(out@[j] == a);
                        } else {
                            assert(j != p);
                            assert(out@[j - 1] == a);
                        }
                    }
                }
            }
        }
    } else {
        out.insert(p, x);
        proof {
            let s = sorted@;
            assert(!s.contains(x)) by {
                if s.contains(x) {
                    let j = choose|j: int| 0 <= j < s.len() && s[j] == x;
                    if j > p {
                        assert(s[p as int] < s[j]);
                    }
                }
            }
            assert(out@.to_set() =~= s.to_set().insert(x)) by {
                assert forall|a: u64| out@.contains(a) <==> s.contains(a) || a == x by {
                    if out@.contains(a) {
                        let j = choose|j: int| 0 <= j < out@.len() && out@[j] == a;
                        if j < p {
                            assert(s[j] == a);
                        } else if j > p {
                            assert(s[j - 1] == a);
                        }
                    }
                    if s.contains(a) {
                        let j = choose|j: int| 0 <= j < s.len() && s[j] == a;
                        if j < p {
                            assert(out@[j] == a);
                        } else {
                            assert(out@[j + 1] == a);
                        }
                    }
                    if a == x {
                        assert(out@[p as int] == x);
                    }
                }
            }
        }
    }
    out
}

/// The rows from `from` to `to`, ascending; none when `from > to`.
fn range(from: u64, to: u64) -> (out: Vec<u64>)
    ensures
        out@ == span(from, to),
        increasing(out@),
{
    let mut out: Vec<u64> = Vec::new();
    if from > to {
        return out;
    }
    let count: u64 = to - from;
    let mut k: u64 = 0;
    while k < count
        invariant
            count == to - from,
            k <= count,
            out@.len() == k,
            forall|j: int| 0 <= j < out@.len() ==> out@[j] == from + j,
        decreases count - k,
    {
        out.push(from + k);
        k = k + 1;
    }
    out.push(to);
    proof {
        assert(out@ =~= span(from, to));
    }
    out
}

} // verus!
