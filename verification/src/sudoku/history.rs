//! The undo and redo log of a board.
use vstd::prelude::*;

verus! {

/// One cell's change: where, and its value before and after.
#[derive(Clone, Copy)]
pub struct Change {
    pub pos: (u8, u8),
    pub before: u16,
    pub after: u16,
}

/// A log of edits. Each entry is the list of cell changes that one command
/// made. `undo` moves the latest entry to the redo side and hands it out;
/// `redo` moves it back; recording a new edit empties the redo side.
pub struct History {
    undo_stack: Vec<Vec<Change>>,
    redo_stack: Vec<Vec<Change>>,
}

/// What a `History` holds: both stacks, the bottom of each first.
pub struct HistoryView {
    pub undo: Seq<Seq<Change>>,
    pub redo: Seq<Seq<Change>>,
}

impl View for History {
    type V = HistoryView;

    closed spec fn view(&self) -> HistoryView {
        HistoryView {
            undo: Seq::new(self.undo_stack@.len(), |i: int| self.undo_stack@[i]@),
            redo: Seq::new(self.redo_stack@.len(), |i: int| self.redo_stack@[i]@),
        }
    }
}

/// A copy of `changes`.
fn copy_changes(changes: &Vec<Change>) -> (copy: Vec<Change>)
    ensures
        copy@ == changes@,
{
    let mut copy: Vec<Change> = Vec::new();
    let mut i: usize = 0;
    while i < changes.len()
        invariant
            i <= changes.len(),
            copy@ == changes@.subrange(0, i as int),
        decreases changes.len() - i,
    {
        copy.push(changes[i]);
        assert(changes@.subrange(0, i + 1) =~= changes@.subrange(0, i as int).push(
            changes@[i as int],
        ));
        i += 1;
    }
    assert(changes@.subrange(0, i as int) =~= changes@);
    copy
}

impl History {
    /// Logs an edit. What was undone before can no longer be redone.
    pub fn record_change(&mut self, changes: Vec<Change>)
        ensures
            final(self)@.undo == old(self)@.undo.push(changes@),
            final(self)@.redo.len() == 0,
    {
        self.undo_stack.push(changes);
        self.redo_stack.clear();
        assert(self@.undo =~= old(self)@.undo.push(changes@));
    }

    /// Takes back the latest edit: hands out its changes and keeps them
    /// for `redo`. `None`, and no change, if there is nothing to undo.
    pub fn undo(&mut self) -> (undone: Option<Vec<Change>>)
        ensures
            old(self)@.undo.len() == 0 ==> undone is None && final(self)@ == old(self)@,
            old(self)@.undo.len() > 0 ==> undone is Some && undone.unwrap()@ == old(
                self,
            )@.undo.last() && final(self)@.undo == old(self)@.undo.drop_last() && final(self)@.redo
                == old(self)@.redo.push(old(self)@.undo.last()),
    {
        match self.undo_stack.pop() {
            Some(changes) => {
                let copy = copy_changes(&changes);
                self.redo_stack.push(copy);
                assert(self@.undo =~= old(self)@.undo.drop_last());
                assert(self@.redo =~= old(self)@.redo.push(old(self)@.undo.last()));
                Some(changes)
            },
            None => {
                assert(self@.undo =~= old(self)@.undo);
                assert(self@.redo =~= old(self)@.redo);
                None
            },
        }
    }

    /// Applies again the edit that was undone last: hands out its changes
    /// and keeps them for `undo`. `None`, and no change, if there is
    /// nothing to redo.
    pub fn redo(&mut self) -> (redone: Option<Vec<Change>>)
        ensures
            old(self)@.redo.len() == 0 ==> redone is None && final(self)@ == old(self)@,
            old(self)@.redo.len() > 0 ==> redone is Some && redone.unwrap()@ == old(
                self,
            )@.redo.last() && final(self)@.redo == old(self)@.redo.drop_last() && final(self)@.undo
                == old(self)@.undo.push(old(self)@.redo.last()),
    {
        match self.redo_stack.pop() {
            Some(changes) => {
                let copy = copy_changes(&changes);
                self.undo_stack.push(copy);
                assert(self@.redo =~= old(self)@.redo.drop_last());
                assert(self@.undo =~= old(self)@.undo.push(old(self)@.redo.last()));
                Some(changes)
            },
            None => {
                assert(self@.undo =~= old(self)@.undo);
                assert(self@.redo =~= old(self)@.redo);
                None
            },
        }
    }
}

impl Default for History {
    fn default() -> (h: History)
        ensures
            h@.undo.len() == 0,
            h@.redo.len() == 0,
    {
        History { undo_stack: Vec::new(), redo_stack: Vec::new() }
    }
}

} // verus!
