//! The pointer positions of a stroke, and what each new one calls for.

use crate::array_queue::ArrayQueue;
use vstd::prelude::*;

verus! {

/// What a new pointer position calls for.
pub enum Sampling<P> {
    /// The stroke begins: the brush is applied at this one position.
    Single(P),
    /// The stroke goes on: the brush is applied along the line from the
    /// position before to the new one.
    Segment { prev: P, cur: P },
}

/// The last two pointer positions of the stroke in progress, newest first.
/// The kind of position is left to the caller.
pub struct BrushStroke<P: Copy> {
    pos_buffer: ArrayQueue<P, 2>,
}

impl<P: Copy> BrushStroke<P> {
    /// The positions held, newest first.
    pub closed spec fn history(&self) -> Seq<P> {
        self.pos_buffer@
    }

    /// No more than two positions are held.
    pub closed spec fn wf(&self) -> bool {
        self.pos_buffer.wf()
    }

    /// A well-formed stroke holds at most two positions.
    pub proof fn lemma_history_len(&self)
        requires
            self.wf(),
        ensures
            self.history().len() <= 2,
    {
        self.pos_buffer.lemma_bounded();
    }

    /// A stroke that has not begun.
    pub fn new() -> (stroke: Self)
        ensures
            stroke.wf(),
            stroke.history() == Seq::<P>::empty(),
    {
        Self { pos_buffer: ArrayQueue::new() }
    }

    /// Takes the next pointer position into the history and says where the
    /// brush is to be applied: at the position alone when it is the first of
    /// the stroke, else along the line from the position before it.
    pub fn update_stroke(&mut self, new_pos: P) -> (step: Sampling<P>)
        requires
            old(self).wf(),
        ensures
            final(self).wf(),
            final(self).history() == ArrayQueue::<P, 2>::pushed(old(self).history(), new_pos),
            step == (if old(self).history().len() == 0 {
                Sampling::Single(new_pos)
            } else {
                Sampling::Segment { prev: old(self).history()[0], cur: new_pos }
            }),
    {
        self.pos_buffer.push(new_pos);
        if self.pos_buffer.len() == 1 {
            return Sampling::Single(new_pos);
        }
        Sampling::Segment { prev: self.pos_buffer[1], cur: self.pos_buffer[0] }
    }

    /// Ends the stroke: the history is forgotten.
    pub fn clear_stroke(&mut self)
        ensures
            final(self).wf(),
            final(self).history() == Seq::<P>::empty(),
    {
        self.pos_buffer.clear();
    }
}

} // verus!
