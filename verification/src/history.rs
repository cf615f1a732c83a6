//! Bounded undo/redo history of editor commands. Recording a command clears the redo stack and
//! checkpoints the oldest commands while the history would exceed its entry or byte budget.

use vstd::prelude::*;

verus! {

/// At most this many commands are kept.
pub const MAX_HISTORY_ENTRIES: usize = 128;

/// At most this many estimated bytes are kept.
pub const MAX_HISTORY_BYTES: usize = 8388608;

/// A recorded command and its estimated size.
pub struct HistoryEntry<C> {
    pub command: C,
    pub bytes: usize,
}

/// The abstract state of a history.
pub struct HistoryView<C> {
    pub undo: Seq<HistoryEntry<C>>,
    pub redo: Seq<HistoryEntry<C>>,
    pub retained_bytes: nat,
    pub checkpointed_commands: u64,
    pub maximum_entries: nat,
    pub maximum_bytes: nat,
}

/// The estimated bytes of the entries.
pub open spec fn total_bytes<C>(entries: Seq<HistoryEntry<C>>) -> nat
    decreases entries.len(),
{
    if entries.len() == 0 {
        0
    } else {
        entries[0].bytes as nat + total_bytes(entries.skip(1))
    }
}

/// How many of the oldest entries are checkpointed before a command of the given size fits.
pub open spec fn evicted<C>(undo: Seq<HistoryEntry<C>>, bytes: nat, maximum_entries: nat, maximum_bytes: nat) -> nat
    decreases undo.len(),
{
    if undo.len() == 0 {
        0
    } else if undo.len() >= maximum_entries || total_bytes(undo) + bytes > maximum_bytes {
        1 + evicted(undo.skip(1), bytes, maximum_entries, maximum_bytes)
    } else {
        0
    }
}

/// Adds to a counter, stopping at its largest value.
pub open spec fn saturating_add(counter: u64, amount: nat) -> u64 {
    if counter + amount > u64::MAX {
        u64::MAX
    } else {
        (counter + amount) as u64
    }
}

/// What recording a command does to the history.
pub open spec fn record_model<C>(s: HistoryView<C>, command: C, bytes: nat) -> HistoryView<C> {
    let k = evicted(s.undo, bytes, s.maximum_entries, s.maximum_bytes);
    let kept = s.undo.skip(k as int);
    if bytes > s.maximum_bytes || s.maximum_entries == 0 {
        HistoryView {
            undo: kept,
            redo: Seq::empty(),
            retained_bytes: total_bytes(kept),
            checkpointed_commands: saturating_add(s.checkpointed_commands, k + 1),
            ..s
        }
    } else {
        HistoryView {
            undo: kept.push(HistoryEntry { command, bytes: bytes as usize }),
            redo: Seq::empty(),
            retained_bytes: total_bytes(kept) + bytes,
            checkpointed_commands: saturating_add(s.checkpointed_commands, k),
            ..s
        }
    }
}

/// The history after its newest undoable command was reverted.
pub open spec fn undone<C>(s: HistoryView<C>) -> HistoryView<C> {
    HistoryView { undo: s.undo.drop_last(), redo: s.redo.push(s.undo.last()), ..s }
}

/// The history after its newest redoable command was applied again.
pub open spec fn redone<C>(s: HistoryView<C>) -> HistoryView<C> {
    HistoryView { undo: s.undo.push(s.redo.last()), redo: s.redo.drop_last(), ..s }
}

/// The history invariant: the retained bytes are those of both stacks, within the budgets.
pub open spec fn history_inv<C>(s: HistoryView<C>) -> bool {
    &&& s.retained_bytes == total_bytes(s.undo) + total_bytes(s.redo)
    &&& s.retained_bytes <= s.maximum_bytes
    &&& s.undo.len() + s.redo.len() <= s.maximum_entries
    &&& s.maximum_bytes < usize::MAX
}

pub proof fn lemma_total_push<C>(entries: Seq<HistoryEntry<C>>, e: HistoryEntry<C>)
    ensures
        total_bytes(entries.push(e)) == total_bytes(entries) + e.bytes,
    decreases entries.len(),
{
    if entries.len() > 0 {
        let pushed = entries.push(e);
        assert(pushed[0] == entries[0]);
        assert(pushed.skip(1) =~= entries.skip(1).push(e));
        lemma_total_push(entries.skip(1), e);
        assert(total_bytes(pushed) == pushed[0].bytes + total_bytes(pushed.skip(1)));
        assert(total_bytes(entries) == entries[0].bytes + total_bytes(entries.skip(1)));
    } else {
        let pushed = entries.push(e);
        assert(pushed.skip(1) =~= Seq::<HistoryEntry<C>>::empty());
        assert(total_bytes(pushed.skip(1)) == 0);
        assert(total_bytes(pushed) == pushed[0].bytes + total_bytes(pushed.skip(1)));
    }
}

pub proof fn lemma_total_drop_last<C>(entries: Seq<HistoryEntry<C>>)
    requires
        entries.len() > 0,
    ensures
        total_bytes(entries) == total_bytes(entries.drop_last()) + entries.last().bytes,
{
    assert(entries.drop_last().push(entries.last()) =~= entries);
    lemma_total_push(entries.drop_last(), entries.last());
}

pub proof fn lemma_total_skip_bound<C>(entries: Seq<HistoryEntry<C>>, k: int)
    requires
        0 <= k <= entries.len(),
    ensures
        total_bytes(entries.skip(k)) <= total_bytes(entries),
    decreases k,
{
    if k > 0 {
        lemma_total_skip_bound(entries.skip(1), k - 1);
        assert(entries.skip(1).skip(k - 1) =~= entries.skip(k));
    } else {
        assert(entries.skip(0) =~= entries);
    }
}

pub proof fn lemma_evicted_bound<C>(undo: Seq<HistoryEntry<C>>, bytes: nat, me: nat, mb: nat)
    ensures
        evicted(undo, bytes, me, mb) <= undo.len(),
        evicted(undo, bytes, me, mb) < undo.len() ==> {
            let kept = undo.skip(evicted(undo, bytes, me, mb) as int);
            kept.len() < me && total_bytes(kept) + bytes <= mb
        },
    decreases undo.len(),
{
    if undo.len() > 0 && (undo.len() >= me || total_bytes(undo) + bytes > mb) {
        lemma_evicted_bound(undo.skip(1), bytes, me, mb);
        let k = evicted(undo.skip(1), bytes, me, mb);
        assert(undo.skip(1).skip(k as int) =~= undo.skip((k + 1) as int));
    } else {
        assert(undo.skip(0) =~= undo);
    }
}

/// Redoing right after a successful undo gives back the history as it was.
pub proof fn law_redo_reverses_undo<C>(s: HistoryView<C>)
    requires
        s.undo.len() > 0,
    ensures
        redone(undone(s)) == s,
{
    assert(undone(s).redo.last() == s.undo.last());
    assert(s.undo.drop_last().push(s.undo.last()) =~= s.undo);
    assert(s.redo.push(s.undo.last()).drop_last() =~= s.redo);
}

/// Undoing right after a successful redo gives back the history as it was.
pub proof fn law_undo_reverses_redo<C>(s: HistoryView<C>)
    requires
        s.redo.len() > 0,
    ensures
        undone(redone(s)) == s,
{
    assert(redone(s).undo.last() == s.redo.last());
    assert(s.redo.drop_last().push(s.redo.last()) =~= s.redo);
    assert(s.undo.push(s.redo.last()).drop_last() =~= s.undo);
}

/// Recording keeps the history within its budgets, empties the redo stack, and, when the
/// command fits the byte budget, makes it the newest undoable command.
pub proof fn law_record_bounded<C>(s: HistoryView<C>, command: C, bytes: nat)
    requires
        history_inv(s),
        bytes <= usize::MAX,
    ensures
        history_inv(record_model(s, command, bytes)),
        record_model(s, command, bytes).redo.len() == 0,
        bytes <= s.maximum_bytes && s.maximum_entries > 0 ==> record_model(s, command, bytes).undo.last()
            == (HistoryEntry { command, bytes: bytes as usize }),
{
    let k = evicted(s.undo, bytes, s.maximum_entries, s.maximum_bytes);
    lemma_evicted_bound(s.undo, bytes, s.maximum_entries, s.maximum_bytes);
    lemma_total_skip_bound(s.undo, k as int);
    let kept = s.undo.skip(k as int);
    let e = HistoryEntry { command, bytes: bytes as usize };
    lemma_total_push(kept, e);
    assert(total_bytes(Seq::<HistoryEntry<C>>::empty()) == 0);
    if k == s.undo.len() {
        assert(kept.len() == 0);
    }
}

/// The undo and redo stacks of recorded commands.
pub struct EditorHistory<C> {
    undo: Vec<HistoryEntry<C>>,
    redo: Vec<HistoryEntry<C>>,
    retained_bytes: usize,
    checkpointed_commands: u64,
    maximum_entries: usize,
    maximum_bytes: usize,
}

impl<C> View for EditorHistory<C> {
    type V = HistoryView<C>;

    closed spec fn view(&self) -> HistoryView<C> {
        HistoryView {
            undo: self.undo@,
            redo: self.redo@,
            retained_bytes: self.retained_bytes as nat,
            checkpointed_commands: self.checkpointed_commands,
            maximum_entries: self.maximum_entries as nat,
            maximum_bytes: self.maximum_bytes as nat,
        }
    }
}

impl<C> EditorHistory<C> {
    /// The internal invariant, which every operation keeps.
    pub open spec fn wf(&self) -> bool {
        history_inv(self@)
    }

    /// An empty history with the default budgets.
    pub fn new() -> (h: Self)
        ensures
            h.wf(),
            h@.undo.len() == 0 && h@.redo.len() == 0,
            h@.retained_bytes == 0 && h@.checkpointed_commands == 0,
            h@.maximum_entries == MAX_HISTORY_ENTRIES,
            h@.maximum_bytes == MAX_HISTORY_BYTES,
    {
        Self::with_limits(MAX_HISTORY_ENTRIES, MAX_HISTORY_BYTES)
    }

    /// An empty history with the given budgets. The byte budget must stay below `usize::MAX`:
    /// the budget check adds sizes with saturation, so at `usize::MAX` it could let the retained
    /// byte count pass what a `usize` holds.
    pub fn with_limits(maximum_entries: usize, maximum_bytes: usize) -> (h: Self)
        requires
            maximum_bytes < usize::MAX,
        ensures
            h.wf(),
            h@.undo.len() == 0 && h@.redo.len() == 0,
            h@.retained_bytes == 0 && h@.checkpointed_commands == 0,
            h@.maximum_entries == maximum_entries,
            h@.maximum_bytes == maximum_bytes,
    {
        let h = EditorHistory {
            undo: Vec::new(),
            redo: Vec::new(),
            retained_bytes: 0,
            checkpointed_commands: 0,
            maximum_entries,
            maximum_bytes,
        };
        proof {
            assert(total_bytes(h.undo@) == 0);
            assert(total_bytes(h.redo@) == 0);
        }
        h
    }

    fn clear_redo(&mut self)
        requires
            old(self).wf(),
        ensures
            final(self)@ == (HistoryView {
                redo: Seq::<HistoryEntry<C>>::empty(),
                retained_bytes: total_bytes(old(self)@.undo),
                ..old(self)@
            }),
    {
        while self.redo.len() > 0
            invariant
                self.retained_bytes as nat == total_bytes(self.undo@) + total_bytes(self.redo@),
                self.undo@ == old(self)@.undo,
                self.checkpointed_commands == old(self)@.checkpointed_commands,
                self.maximum_entries == old(self)@.maximum_entries,
                self.maximum_bytes == old(self)@.maximum_bytes,
            decreases self.redo@.len(),
        {
            let ghost before = self.redo@;
            let entry = self.redo.pop().unwrap();
            proof {
                assert(self.redo@ =~= before.drop_last());
                lemma_total_drop_last(before);
            }
            self.retained_bytes = self.retained_bytes - entry.bytes;
        }
        proof {
            assert(self.redo@ =~= Seq::<HistoryEntry<C>>::empty());
        }
    }

    /// Records a command of the given estimated size. The redo stack is cleared, and the oldest
    /// commands are checkpointed while the history is full or the size would exceed the byte
    /// budget; a command larger than the budget is checkpointed at once.
    pub fn record(&mut self, command: C, bytes: usize)
        requires
            old(self).wf(),
        ensures
            final(self).wf(),
            final(self)@ == record_model(old(self)@, command, bytes as nat),
    {
        let ghost start = self@;
        self.clear_redo();
        let ghost undo0 = self.undo@;
        let mut k: usize = 0;
        proof {
            assert(undo0.len() == self.undo.len());
            assert(undo0.skip(0) =~= undo0);
            lemma_evicted_bound(undo0, bytes as nat, start.maximum_entries, start.maximum_bytes);
        }
        while self.undo.len() > 0 && (self.undo.len() >= self.maximum_entries
            || self.retained_bytes.saturating_add(bytes) > self.maximum_bytes)
            invariant
                k <= undo0.len(),
                undo0.len() <= usize::MAX,
                self.undo@ == undo0.skip(k as int),
                self.maximum_bytes < usize::MAX,
                self.redo@.len() == 0,
                self.retained_bytes as nat == total_bytes(self.undo@),
                self.maximum_entries == start.maximum_entries,
                self.maximum_bytes == start.maximum_bytes,
                evicted(undo0, bytes as nat, start.maximum_entries, start.maximum_bytes) == k
                    + evicted(self.undo@, bytes as nat, start.maximum_entries, start.maximum_bytes),
                self.checkpointed_commands == saturating_add(start.checkpointed_commands, k as nat),
            decreases self.undo@.len(),
        {
            let ghost before = self.undo@;
            let removed = self.undo.remove(0);
            proof {
                assert(self.undo@ =~= before.skip(1));
                assert(undo0.skip(k as int).skip(1) =~= undo0.skip(k + 1));
            }
            self.retained_bytes = self.retained_bytes - removed.bytes;
            self.checkpointed_commands = self.checkpointed_commands.saturating_add(1);
            k = k + 1;
        }
        let ghost me = start.maximum_entries;
        let ghost mb = start.maximum_bytes;
        proof {
            if self.undo@.len() > 0 {
                assert(!(self.undo@.len() >= me || total_bytes(self.undo@) + bytes > mb));
            }
            assert(evicted(self.undo@, bytes as nat, me, mb) == 0);
            lemma_evicted_bound(undo0, bytes as nat, me, mb);
            lemma_total_skip_bound(undo0, k as int);
        }
        let ghost kept = self.undo@;
        assert(kept == undo0.skip(evicted(undo0, bytes as nat, me, mb) as int));
        assert(start.undo == undo0);
        if bytes > self.maximum_bytes || self.maximum_entries == 0 {
            self.checkpointed_commands = self.checkpointed_commands.saturating_add(1);
            assert(self.checkpointed_commands == saturating_add(start.checkpointed_commands, (k + 1) as nat));
            assert(self@.undo == record_model(start, command, bytes as nat).undo);
            assert(self@.redo == record_model(start, command, bytes as nat).redo);
            assert(self@.retained_bytes == record_model(start, command, bytes as nat).retained_bytes);
            assert(self@ == record_model(start, command, bytes as nat));
            return;
        }
        proof {
            if k < undo0.len() {
                assert(kept.len() < me && total_bytes(kept) + bytes <= mb);
            } else {
                assert(kept.len() == 0);
            }
            lemma_total_push(kept, HistoryEntry { command, bytes });
        }
        self.retained_bytes = self.retained_bytes + bytes;
        self.undo.push(HistoryEntry { command, bytes });
        assert(self@.undo == record_model(start, command, bytes as nat).undo);
        assert(self@.redo == record_model(start, command, bytes as nat).redo);
        assert(self@.retained_bytes == record_model(start, command, bytes as nat).retained_bytes);
        assert(self@.checkpointed_commands == record_model(start, command, bytes as nat).checkpointed_commands);
        assert(self@ == record_model(start, command, bytes as nat));
    }

    /// Reverts the newest undoable command with `revert`. When it succeeds the command moves to
    /// the redo stack; when it fails, or nothing can be undone, the history is unchanged.
    pub fn undo_with<F: FnOnce(&C) -> bool>(&mut self, revert: F) -> (done: bool)
        requires
            old(self).wf(),
            old(self)@.undo.len() > 0 ==> revert.requires((&old(self)@.undo.last().command,)),
        ensures
            final(self).wf(),
            old(self)@.undo.len() == 0 ==> !done,
            done ==> final(self)@ == undone(old(self)@),
            !done ==> final(self)@ == old(self)@,
            old(self)@.undo.len() > 0 ==> revert.ensures((&old(self)@.undo.last().command,), done),
    {
        let ghost start = self@;
        match self.undo.pop() {
            None => false,
            Some(entry) => {
                proof {
                    assert(start.undo == self.undo@.push(entry));
                    lemma_total_push(self.undo@, entry);
                    lemma_total_push(self.redo@, entry);
                }
                let reverted = revert(&entry.command);
                if reverted {
                    self.redo.push(entry);
                } else {
                    self.undo.push(entry);
                }
                reverted
            },
        }
    }

    /// Applies the newest redoable command again with `apply`. When it succeeds the command
    /// moves back to the undo stack; when it fails, or nothing can be redone, the history is
    /// unchanged.
    pub fn redo_with<F: FnOnce(&C) -> bool>(&mut self, apply: F) -> (done: bool)
        requires
            old(self).wf(),
            old(self)@.redo.len() > 0 ==> apply.requires((&old(self)@.redo.last().command,)),
        ensures
            final(self).wf(),
            old(self)@.redo.len() == 0 ==> !done,
            done ==> final(self)@ == redone(old(self)@),
            !done ==> final(self)@ == old(self)@,
            old(self)@.redo.len() > 0 ==> apply.ensures((&old(self)@.redo.last().command,), done),
    {
        let ghost start = self@;
        match self.redo.pop() {
            None => false,
            Some(entry) => {
                proof {
                    assert(start.redo == self.redo@.push(entry));
                    lemma_total_push(self.undo@, entry);
                    lemma_total_push(self.redo@, entry);
                }
                let applied = apply(&entry.command);
                if applied {
                    self.undo.push(entry);
                } else {
                    self.redo.push(entry);
                }
                applied
            },
        }
    }

    /// Takes the newest undoable command off its stack, for the caller to revert; the caller
    /// hands it back with `finish_undo`.
    pub fn take_undo(&mut self) -> (entry: Option<HistoryEntry<C>>)
        requires
            old(self).wf(),
        ensures
            old(self)@.undo.len() == 0 ==> entry is None && final(self)@ == old(self)@,
            old(self)@.undo.len() > 0 ==> entry == Some(old(self)@.undo.last()) && final(self)@ == (HistoryView {
                undo: old(self)@.undo.drop_last(),
                ..old(self)@
            }),
    {
        self.undo.pop()
    }

    /// Hands back a command taken with `take_undo`: onto the redo stack when it was reverted,
    /// back onto the undo stack when reverting failed.
    pub fn finish_undo(&mut self, entry: HistoryEntry<C>, reverted: bool)
        requires
            history_inv(HistoryView { undo: old(self)@.undo.push(entry), ..old(self)@ }),
        ensures
            final(self).wf(),
            reverted ==> final(self)@ == undone(HistoryView { undo: old(self)@.undo.push(entry), ..old(self)@ }),
            !reverted ==> final(self)@ == (HistoryView { undo: old(self)@.undo.push(entry), ..old(self)@ }),
    {
        proof {
            lemma_total_push(self.undo@, entry);
            lemma_total_push(self.redo@, entry);
            assert(old(self)@.undo.push(entry).drop_last() =~= old(self)@.undo);
        }
        if reverted {
            self.redo.push(entry);
        } else {
            self.undo.push(entry);
        }
    }

    /// Takes the newest redoable command off its stack, for the caller to apply again; the
    /// caller hands it back with `finish_redo`.
    pub fn take_redo(&mut self) -> (entry: Option<HistoryEntry<C>>)
        requires
            old(self).wf(),
        ensures
            old(self)@.redo.len() == 0 ==> entry is None && final(self)@ == old(self)@,
            old(self)@.redo.len() > 0 ==> entry == Some(old(self)@.redo.last()) && final(self)@ == (HistoryView {
                redo: old(self)@.redo.drop_last(),
                ..old(self)@
            }),
    {
        self.redo.pop()
    }

    /// Hands back a command taken with `take_redo`: onto the undo stack when it was applied,
    /// back onto the redo stack when applying failed.
    pub fn finish_redo(&mut self, entry: HistoryEntry<C>, applied: bool)
        requires
            history_inv(HistoryView { redo: old(self)@.redo.push(entry), ..old(self)@ }),
        ensures
            final(self).wf(),
            applied ==> final(self)@ == redone(HistoryView { redo: old(self)@.redo.push(entry), ..old(self)@ }),
            !applied ==> final(self)@ == (HistoryView { redo: old(self)@.redo.push(entry), ..old(self)@ }),
    {
        proof {
            lemma_total_push(self.undo@, entry);
            lemma_total_push(self.redo@, entry);
            assert(old(self)@.redo.push(entry).drop_last() =~= old(self)@.redo);
        }
        if applied {
            self.undo.push(entry);
        } else {
            self.redo.push(entry);
        }
    }

    /// The number of commands that can be undone.
    pub fn undo_len(&self) -> (n: usize)
        ensures
            n == self@.undo.len(),
    {
        self.undo.len()
    }

    /// The number of commands that can be redone.
    pub fn redo_len(&self) -> (n: usize)
        ensures
            n == self@.redo.len(),
    {
        self.redo.len()
    }

    /// The estimated bytes of all kept commands.
    pub fn retained_bytes(&self) -> (n: usize)
        ensures
            n == self@.retained_bytes,
    {
        self.retained_bytes
    }

    /// How many commands were dropped from the history as checkpoints.
    pub fn checkpointed_commands(&self) -> (n: u64)
        ensures
            n == self@.checkpointed_commands,
    {
        self.checkpointed_commands
    }

    /// The undoable commands, oldest first.
    pub fn undo_entries(&self) -> (e: &Vec<HistoryEntry<C>>)
        ensures
            e@ == self@.undo,
    {
        &self.undo
    }

    /// The redoable commands, in the order they were undone.
    pub fn redo_entries(&self) -> (e: &Vec<HistoryEntry<C>>)
        ensures
            e@ == self@.redo,
    {
        &self.redo
    }

    /// Forgets every command.
    pub fn clear(&mut self)
        requires
            old(self).wf(),
        ensures
            final(self).wf(),
            final(self)@ == (HistoryView {
                undo: Seq::<HistoryEntry<C>>::empty(),
                redo: Seq::<HistoryEntry<C>>::empty(),
                retained_bytes: 0,
                ..old(self)@
            }),
    {
        self.undo = Vec::new();
        self.redo = Vec::new();
        self.retained_bytes = 0;
        proof {
            assert(self.undo@ =~= Seq::<HistoryEntry<C>>::empty());
            assert(self.redo@ =~= Seq::<HistoryEntry<C>>::empty());
        }
    }
}

} // verus!
