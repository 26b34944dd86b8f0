//! Shared contracts for media leaves: their intents and chrome.
use vstd::prelude::*;
use std::collections::VecDeque;

pub mod attachment;
pub mod document;
pub mod playback;
pub mod slides;
pub mod web;

verus! {

/// Actions emitted by media leaves and consumed by their host.
#[derive(Clone, Debug, PartialEq, Eq)]
pub enum MediaIntent {
    /// Open a source in the host's external application.
    OpenExternal(String),
    /// Start playback.
    Play,
    /// Pause playback.
    Pause,
    /// Seek to a position, expressed in milliseconds.
    Seek(u64),
    /// Advance to the next page or slide.
    NextPage,
    /// Return to the previous page or slide.
    PreviousPage,
}

/// A first-in, first-out collection of intents produced by a media view.
#[derive(Clone, Debug, PartialEq, Eq)]
pub struct IntentQueue(VecDeque<MediaIntent>);

impl View for IntentQueue {
    type V = Seq<MediaIntent>;

    closed spec fn view(&self) -> Seq<MediaIntent> {
        self.0@
    }
}

impl Default for IntentQueue {
    fn default() -> (q: Self)
        ensures
            q@ == Seq::<MediaIntent>::empty(),
    {
        IntentQueue(VecDeque::new())
    }
}

impl IntentQueue {
    /// Adds an intent to the end of the queue.
    pub fn push(&mut self, intent: MediaIntent)
        ensures
            final(self)@ == old(self)@.push(intent),
    {
        self.0.push_back(intent);
    }

    /// Takes every queued intent, oldest first, leaving the queue empty.
    pub fn drain(&mut self) -> (all: Vec<MediaIntent>)
        ensures
            all@ == old(self)@,
            final(self)@ == Seq::<MediaIntent>::empty(),
    {
        let ghost start = self@;
        let mut all: Vec<MediaIntent> = Vec::new();
        while self.0.len() > 0
            invariant
                all@ + self@ == start,
            decreases self@.len(),
        {
            let ghost before = self@;
            match self.take() {
                Some(x) => {
                    all.push(x);
                    proof {
                        assert(all@ + self@ =~= start);
                    }
                },
                None => {},
            }
        }
        proof {
            assert(all@ =~= start);
        }
        all
    }

    /// Removes and returns the oldest queued intent.
    pub fn take(&mut self) -> (r: Option<MediaIntent>)
        ensures
            old(self)@.len() == 0 ==> r is None && final(self)@ == old(self)@,
            old(self)@.len() > 0 ==> r == Some(old(self)@[0]) && final(self)@ == old(self)@.drop_first(),
    {
        self.0.pop_front()
    }
}

/// Intents leave the queue in the order they entered it: pushing `x` onto a
/// queue holding `q` and then taking `q.len() + 1` times yields `q` followed by `x`.
pub proof fn lemma_fifo(q: Seq<MediaIntent>, x: MediaIntent)
    ensures
        q.push(x).len() > 0,
        q.push(x)[0] == (if q.len() == 0 { x } else { q[0] }),
        q.len() > 0 ==> q.push(x).drop_first() == q.drop_first().push(x),
{
    if q.len() > 0 {
        assert(q.push(x).drop_first() =~= q.drop_first().push(x));
    }
}

/// Common metadata and interactions for the chrome surrounding a media leaf.
#[derive(Clone, Debug, PartialEq, Eq)]
pub struct LeafChrome {
    /// Human-readable leaf title.
    pub title: String,
    /// Source URI or vault-relative path.
    pub source: String,
    /// Intents waiting to be handled by the host.
    pub queued_intents: IntentQueue,
}

impl Default for LeafChrome {
    fn default() -> (c: Self)
        ensures
            c.title@.len() == 0,
            c.source@.len() == 0,
            c.queued_intents@.len() == 0,
    {
        LeafChrome { title: String::new(), source: String::new(), queued_intents: IntentQueue::default() }
    }
}

/// Mutable state shared by media leaf implementations.
pub type LeafState = LeafChrome;

} // verus!
