//! The record of changes made to a buffer, with a cursor for undo and redo.
use vstd::prelude::*;
use crate::span::Span;

verus! {

/// The two directions of travel through the history.
pub enum Operation {
    Undo,
    Redo,
}

/// One change: the text `old` at `span` was replaced by `new`.
#[derive(Debug)]
pub struct Change {
    pub span: Span,
    pub old: String,
    pub new: String,
}

impl Clone for Change {
    fn clone(&self) -> (r: Self)
        ensures
            r == *self,
    {
        Change { span: self.span, old: self.old.clone(), new: self.new.clone() }
    }
}

/// The change that undoes `c`: same span, old and new text swapped.
pub open spec fn flipped(c: Change) -> Change {
    Change { span: c.span, old: c.new, new: c.old }
}

impl Change {
    /// The change that undoes this one.
    pub fn flip(&self) -> (r: Self)
        ensures
            r == flipped(*self),
    {
        Change { span: self.span, old: self.new.clone(), new: self.old.clone() }
    }
}

/// Flipping a change twice gives it back.
pub proof fn law_flip_involution(c: Change)
    ensures
        flipped(flipped(c)) == c,
{
}

/// Registered changes and how many of them are in effect: the first
/// `cursor` changes are done, the rest were undone and may be redone.
#[derive(Debug)]
pub struct ChangeHistory {
    changes: Vec<Change>,
    cursor: usize,
}

impl Clone for ChangeHistory {
    fn clone(&self) -> (r: Self)
        ensures
            r@ == self@,
            r.position() == self.position(),
            self.wf() ==> r.wf(),
    {
        let mut v: Vec<Change> = Vec::new();
        let mut i: usize = 0;
        while i < self.changes.len()
            invariant
                i <= self.changes.len(),
                v@ == self.changes@.take(i as int),
            decreases self.changes.len() - i,
        {
            v.push(self.changes[i].clone());
            i = i + 1;
            proof {
                assert(v@ =~= self.changes@.take(i as int));
            }
        }
        proof {
            assert(self.changes@.take(self.changes.len() as int) =~= self.changes@);
        }
        ChangeHistory { changes: v, cursor: self.cursor }
    }
}

impl Default for ChangeHistory {
    fn default() -> (r: Self)
        ensures
            r.wf(),
            r@ == Seq::<Change>::empty(),
            r.position() == 0,
    {
        ChangeHistory { changes: Vec::new(), cursor: 0 }
    }
}

impl View for ChangeHistory {
    type V = Seq<Change>;

    closed spec fn view(&self) -> Seq<Change> {
        self.changes@
    }
}

impl ChangeHistory {
    /// The cursor never passes the end of the record.
    pub closed spec fn wf(&self) -> bool {
        self.cursor <= self.changes.len()
    }

    /// How many changes are in effect.
    pub closed spec fn position(&self) -> nat {
        self.cursor as nat
    }

    pub proof fn lemma_wf(&self)
        requires
            self.wf(),
        ensures
            self.position() <= self@.len(),
    {
    }

    /// Records `change` after the changes in effect, forgetting the undone ones.
    pub fn register(&mut self, change: Change)
        requires
            old(self).wf(),
        ensures
            final(self).wf(),
            (final(self)@, final(self).position()) == after_register(
                old(self)@,
                old(self).position(),
                change,
            ),
    {
        self.changes.truncate(self.cursor);
        self.changes.push(change);
        assert(self.changes.len() == self.cursor + 1);
        self.cursor = self.cursor + 1;
    }

    /// Steps back over the last change in effect and gives it; `None` when
    /// no change is in effect.
    pub fn undo(&mut self) -> (r: Option<Change>)
        requires
            old(self).wf(),
        ensures
            final(self).wf(),
            final(self)@ == old(self)@,
            (r, final(self).position()) == after_undo(old(self)@, old(self).position()),
    {
        if self.cursor == 0 {
            None
        } else {
            self.cursor = self.cursor - 1;
            Some(self.changes[self.cursor].clone())
        }
    }

    /// Gives back the first undone change and counts it as in effect again;
    /// `None` when no change is undone.
    pub fn redo(&mut self) -> (r: Option<Change>)
        requires
            old(self).wf(),
        ensures
            final(self).wf(),
            final(self)@ == old(self)@,
            (r, final(self).position()) == after_redo(old(self)@, old(self).position()),
            r is None ==> *final(self) == *old(self),
    {
        if self.cursor >= self.changes.len() {
            None
        } else {
            let c = self.changes[self.cursor].clone();
            self.cursor = self.cursor + 1;
            Some(c)
        }
    }
}

/// What registering `c` does to a record `s` with `p` changes in effect.
pub open spec fn after_register(s: Seq<Change>, p: nat, c: Change) -> (Seq<Change>, nat) {
    (s.take(p as int).push(c), p + 1)
}

/// What undo gives and where it leaves the cursor, for a record `s` with `p`
/// changes in effect.
pub open spec fn after_undo(s: Seq<Change>, p: nat) -> (Option<Change>, nat) {
    if p == 0 {
        (None, 0)
    } else {
        (Some(s[p - 1]), (p - 1) as nat)
    }
}

/// What redo gives and where it leaves the cursor, for a record `s` with
/// `p` changes in effect.
pub open spec fn after_redo(s: Seq<Change>, p: nat) -> (Option<Change>, nat) {
    if p >= s.len() {
        (None, p)
    } else {
        (Some(s[p as int]), p + 1)
    }
}

/// Redo right after undo gives the undone change back, and the cursor
/// returns to where it was.
pub proof fn law_undo_then_redo(s: Seq<Change>, p: nat)
    requires
        0 < p <= s.len(),
    ensures
        after_undo(s, p).0 == after_redo(s, after_undo(s, p).1).0,
        after_redo(s, after_undo(s, p).1).1 == p,
{
}

/// Undo right after registering a change gives that change back, and the
/// cursor returns to where it was before the change.
pub proof fn law_register_then_undo(s: Seq<Change>, p: nat, c: Change)
    requires
        p <= s.len(),
    ensures
        after_undo(after_register(s, p, c).0, after_register(s, p, c).1) == (Some(c), p),
{
}

} // verus!
