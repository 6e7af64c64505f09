//! An accumulator for the candidate actions of one board: captures and simple
//! moves are kept apart, and whenever at least one capture has been collected
//! only the captures are visible — the forced-capture rule of draughts.

use vstd::prelude::*;
use crate::list::{StaticList, STATIC_SIZE};
use crate::piece::Action;
use crate::rng::random_below;

verus! {

/// Reusable storage for the candidate actions of one board, separating
/// captures from simple moves so that captures take precedence.
pub struct MoveMemHandler {
    captures: StaticList<Action>,
    moves: StaticList<Action>,
}

impl MoveMemHandler {
    /// The captures collected so far, in insertion order.
    pub closed spec fn spec_captures(&self) -> Seq<Action> {
        self.captures@
    }

    /// The simple moves collected so far, in insertion order.
    pub closed spec fn spec_moves(&self) -> Seq<Action> {
        self.moves@
    }

    /// The actions the handler offers: the captures if any were collected,
    /// otherwise the simple moves.
    pub open spec fn spec_actions(&self) -> Seq<Action> {
        if self.spec_captures().len() > 0 {
            self.spec_captures()
        } else {
            self.spec_moves()
        }
    }

    pub fn new() -> (r: Self)
        ensures
            r.spec_captures() == Seq::<Action>::empty(),
            r.spec_moves() == Seq::<Action>::empty(),
    {
        Self { captures: StaticList::new(), moves: StaticList::new() }
    }

    /// Records a capture. The capture list must be under its capacity.
    pub fn add_capture(&mut self, action: Action)
        requires
            old(self).spec_captures().len() < STATIC_SIZE,
        ensures
            final(self).spec_captures() == old(self).spec_captures().push(action),
            final(self).spec_moves() == old(self).spec_moves(),
    {
        self.captures.push(action)
    }

    /// Records a simple move, unless a capture has already been collected —
    /// captures are mandatory, so a simple move is then discarded.
    pub fn add_move(&mut self, action: Action)
        requires
            old(self).spec_captures().len() == 0 ==> old(self).spec_moves().len() < STATIC_SIZE,
        ensures
            final(self).spec_captures() == old(self).spec_captures(),
            final(self).spec_moves() == if old(self).spec_captures().len() == 0 {
                old(self).spec_moves().push(action)
            } else {
                old(self).spec_moves()
            },
    {
        if !self.contains_capture() {
            self.moves.push(action)
        }
    }

    /// Records an action in the list its kind belongs to.
    pub fn add_action(&mut self, action: Action)
        requires
            action is Capture ==> old(self).spec_captures().len() < STATIC_SIZE,
            action is Move && old(self).spec_captures().len() == 0 ==> old(
                self,
            ).spec_moves().len() < STATIC_SIZE,
        ensures
            final(self).spec_captures() == if action is Capture {
                old(self).spec_captures().push(action)
            } else {
                old(self).spec_captures()
            },
            final(self).spec_moves() == if action is Move && old(self).spec_captures().len() == 0 {
                old(self).spec_moves().push(action)
            } else {
                old(self).spec_moves()
            },
    {
        match action {
            Action::Capture(_, _, _, _, _, _) => self.add_capture(action),
            Action::Move(_, _, _, _) => self.add_move(action),
        }
    }

    /// The offered action at `index`.
    pub fn get(&self, index: usize) -> (r: Action)
        requires
            index < self.spec_actions().len(),
        ensures
            r == self.spec_actions()[index as int],
    {
        if self.contains_capture() {
            return self.captures.get(index);
        }
        return self.moves.get(index);
    }

    pub fn clear(&mut self)
        ensures
            final(self).spec_captures() == Seq::<Action>::empty(),
            final(self).spec_moves() == Seq::<Action>::empty(),
    {
        self.moves.clear();
        self.captures.clear();
    }

    pub fn contains_capture(&self) -> (r: bool)
        ensures
            r == (self.spec_captures().len() > 0),
    {
        return self.captures.len() > 0;
    }

    pub fn has_actions(&self) -> (r: bool)
        ensures
            r == (self.spec_actions().len() > 0),
    {
        return self.captures.len() > 0 || self.moves.len() > 0;
    }

    /// How many actions the handler offers.
    pub fn len(&self) -> (r: usize)
        ensures
            r == self.spec_actions().len(),
    {
        if self.contains_capture() {
            return self.captures.len();
        }
        return self.moves.len();
    }

    /// One of the offered actions, chosen uniformly at random. At least one
    /// action must be available.
    pub fn get_random_move(&self) -> (r: Action)
        requires
            self.spec_actions().len() > 0,
        ensures
            exists|i: int| 0 <= i < self.spec_actions().len() && r == self.spec_actions()[i],
    {
        if self.contains_capture() {
            let index = random_below(self.captures.len());
            return self.captures.get(index);
        }
        let index = random_below(self.moves.len());
        return self.moves.get(index);
    }
}

} // verus!
