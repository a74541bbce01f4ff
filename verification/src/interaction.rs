//! What a handler is given when an interaction reaches its element.
use vstd::prelude::*;

verus! {

/// Whether an interaction keeps bubbling after a handler runs.
///
/// Handlers consume by default ([`Propagation::Stop`]); a handler opts
/// into bubbling with [`Response::propagate`].
#[derive(Debug, Clone, Copy, PartialEq, Eq, Structural)]
pub enum Propagation {
    /// Consumed; bubbling stops here.
    Stop,
    /// Keep bubbling to the next ancestor handler.
    Continue,
}

impl Default for Propagation {
    fn default() -> (r: Propagation)
        ensures
            r == Propagation::Stop,
    {
        Propagation::Stop
    }
}

/// Mutable access to the world for a handler, and control over whether
/// the interaction keeps bubbling. Consumes by default.
pub struct Response<'w, W> {
    /// The backend world, free for the handler to mutate.
    pub world: &'w mut W,
    propagation: Propagation,
}

impl<'w, W> Response<'w, W> {
    /// Whether bubbling continues after this handler.
    pub closed spec fn propagation(&self) -> Propagation {
        self.propagation
    }

    /// The world as it stands.
    pub closed spec fn world_value(&self) -> W {
        *self.world
    }

    /// Creates a response over `world`, consuming by default.
    pub fn new(world: &'w mut W) -> (r: Self)
        ensures
            r.propagation() == Propagation::Stop,
            r.world_value() == *old(world),
    {
        Response { world, propagation: Propagation::Stop }
    }

    /// Lets the interaction keep bubbling to ancestor handlers instead
    /// of consuming it here.
    pub fn propagate(&mut self)
        ensures
            final(self).propagation() == Propagation::Continue,
            final(self).world_value() == old(self).world_value(),
    {
        self.propagation = Propagation::Continue;
    }

    /// Returns `true` if the interaction was consumed, i.e. bubbling
    /// stops here.
    pub fn consumed(&self) -> (r: bool)
        ensures
            r == (self.propagation() == Propagation::Stop),
    {
        match self.propagation {
            Propagation::Stop => true,
            Propagation::Continue => false,
        }
    }
}

/// What a bubbling walk does at one element of its path.
#[derive(Debug, Clone, Copy, PartialEq, Eq, Structural)]
pub enum BubbleStep {
    /// The element was not admitted: the walk ends, nothing consumed.
    Stop,
    /// Its handler consumed the interaction: the walk ends, consumed.
    Consumed,
    /// Go on to the next element of the path.
    Next,
}

/// The decision at one element of a bubbling walk: stop at the first
/// element the caller does not admit, report consumption when the
/// element's handler (if it has one) consumed, else go on.
pub open spec fn step_of(admitted: bool, handled: Option<Propagation>) -> BubbleStep {
    if !admitted {
        BubbleStep::Stop
    } else if handled == Some(Propagation::Stop) {
        BubbleStep::Consumed
    } else {
        BubbleStep::Next
    }
}

/// How far a bubbling walk over a path gets, where element `i` is
/// admitted as `admitted[i]` says and its handler answers `handled[i]`:
/// the position of the first element whose step is not
/// [`BubbleStep::Next`], or the path's length when there is none.
pub open spec fn walk_end(admitted: Seq<bool>, handled: Seq<Option<Propagation>>, from: nat) -> nat
    decreases admitted.len() - from,
{
    if from >= admitted.len() || from >= handled.len() {
        from
    } else if step_of(admitted[from as int], handled[from as int]) != BubbleStep::Next {
        from
    } else {
        walk_end(admitted, handled, from + 1)
    }
}

/// A bubbling walk that takes [`bubble_step`] at each element of the
/// path, in order, and goes on exactly while it answers
/// [`BubbleStep::Next`], runs the handlers of the elements before the
/// first refused one, in path order, up to and including the first one
/// that consumes, and none after; it reports consumption exactly when
/// it ended on a consuming handler.
pub proof fn law_bubbling_stops_at_refusal_or_consumption(
    admitted: Seq<bool>,
    handled: Seq<Option<Propagation>>,
)
    requires
        admitted.len() == handled.len(),
    ensures
        ({
            let m = walk_end(admitted, handled, 0);
            &&& m <= admitted.len()
            &&& forall|i: int| 0 <= i < m ==> admitted[i] && #[trigger] handled[i] != Some(Propagation::Stop)
            &&& m < admitted.len() ==> (!admitted[m as int] || handled[m as int] == Some(Propagation::Stop))
            &&& (m < admitted.len() && step_of(admitted[m as int], handled[m as int]) == BubbleStep::Consumed)
                <==> (m < admitted.len() && admitted[m as int] && handled[m as int] == Some(Propagation::Stop))
        }),
{
    lemma_walk_end(admitted, handled, 0);
}

proof fn lemma_walk_end(admitted: Seq<bool>, handled: Seq<Option<Propagation>>, from: nat)
    requires
        admitted.len() == handled.len(),
        from <= admitted.len(),
    ensures
        from <= walk_end(admitted, handled, from) <= admitted.len(),
        forall|i: int|
            from <= i < walk_end(admitted, handled, from) ==> admitted[i] && #[trigger] handled[i] != Some(
                Propagation::Stop,
            ),
        walk_end(admitted, handled, from) < admitted.len() ==> step_of(
            admitted[walk_end(admitted, handled, from) as int],
            handled[walk_end(admitted, handled, from) as int],
        ) != BubbleStep::Next,
    decreases admitted.len() - from,
{
    if from < admitted.len() && step_of(admitted[from as int], handled[from as int]) == BubbleStep::Next {
        lemma_walk_end(admitted, handled, from + 1);
        assert forall|i: int|
            from <= i < walk_end(admitted, handled, from) implies admitted[i] && #[trigger] handled[i] != Some(
                Propagation::Stop,
            ) by {
            if i == from {
                assert(step_of(admitted[i], handled[i]) == BubbleStep::Next);
            }
        }
    } else {
        assert(walk_end(admitted, handled, from) == from);
    }
}

pub fn bubble_step(admitted: bool, handled: Option<Propagation>) -> (r: BubbleStep)
    ensures
        r == step_of(admitted, handled),
{
    if !admitted {
        return BubbleStep::Stop;
    }
    match handled {
        Some(Propagation::Stop) => BubbleStep::Consumed,
        _ => BubbleStep::Next,
    }
}

/// A response is consumed until its handler propagates: in any run of
/// calls on a new response (`states[i]` before call `i`, `calls[i]`
/// `true` for [`Response::propagate`] and `false` for a call that keeps
/// the propagation, such as [`core::ops::DerefMut::deref_mut`]), the
/// response is consumed at the end exactly when no call propagated.
pub proof fn law_consumed_until_propagated<'w, W>(states: Seq<Response<'w, W>>, calls: Seq<bool>)
    requires
        states.len() == calls.len() + 1,
        states[0].propagation() == Propagation::Stop,
        forall|i: int|
            0 <= i < calls.len() ==> (if #[trigger] calls[i] {
                states[i + 1].propagation() == Propagation::Continue
            } else {
                states[i + 1].propagation() == states[i].propagation()
            }),
    ensures
        (states.last().propagation() == Propagation::Stop) <==> !calls.contains(true),
    decreases calls.len(),
{
    if calls.len() > 0 {
        let n = calls.len() - 1;
        let s = states.drop_last();
        let c = calls.drop_last();
        assert forall|i: int| 0 <= i < c.len() implies (if #[trigger] c[i] {
            s[i + 1].propagation() == Propagation::Continue
        } else {
            s[i + 1].propagation() == s[i].propagation()
        }) by {
            assert(calls[i] == c[i]);
        }
        law_consumed_until_propagated(s, c);
        assert(calls =~= c.push(calls[n]));
        assert(calls[n] == calls[n]);
        if !calls.contains(true) {
            assert(!c.contains(true)) by {
                if c.contains(true) {
                    let j = choose|j: int| 0 <= j < c.len() && c[j] == true;
                    assert(calls[j] == true);
                }
            }
            assert(calls[n] == false);
        } else {
            if !calls[n] {
                let j = choose|j: int| 0 <= j < calls.len() && calls[j] == true;
                assert(c[j] == true);
            }
        }
    }
}

impl<'w, W> core::ops::Deref for Response<'w, W> {
    type Target = W;

    /// The world, so a handler reads world fields directly.
    fn deref(&self) -> (r: &W)
        ensures
            *r == self.world_value(),
    {
        &*self.world
    }
}

impl<'w, W> core::ops::DerefMut for Response<'w, W> {
    /// The world, so a handler writes world fields directly.
    fn deref_mut(&mut self) -> (r: &mut W)
        ensures
            *r == old(self).world_value(),
            final(self).world_value() == *final(r),
            final(self).propagation() == old(self).propagation(),
    {
        &mut *self.world
    }
}

} // verus!
