//! Audio and video playback leaves: play state, a clamped position, and the
//! intents their controls emit.
use vstd::prelude::*;
use super::{IntentQueue, LeafState, MediaIntent};

verus! {

#[derive(Clone, Copy, Debug, PartialEq, Eq, Structural)]
pub enum PlaybackKind {
    Audio,
    Video,
}

impl Default for PlaybackKind {
    fn default() -> (k: Self)
        ensures
            k == PlaybackKind::Audio,
    {
        PlaybackKind::Audio
    }
}

/// The state of a playback leaf; controls update it and queue an intent.
pub struct PlaybackModel {
    pub state: LeafState,
    pub title: String,
    pub source: String,
    pub kind: PlaybackKind,
    pub playing: bool,
    pub position_ms: u64,
    pub duration_ms: u64,
    /// Intents waiting for the host, oldest first.
    pub intents: IntentQueue,
}

impl PlaybackModel {
    /// The intents queued and not yet taken, oldest first.
    pub closed spec fn pending(&self) -> Seq<MediaIntent> {
        self.intents@
    }

    /// A paused leaf at position 0 with unknown (zero) duration.
    pub fn new(title: &str, source: &str, kind: PlaybackKind) -> (m: Self)
        ensures
            m.title@ == title@,
            m.source@ == source@,
            m.kind == kind,
            !m.playing,
            m.position_ms == 0,
            m.duration_ms == 0,
            m.pending() == Seq::<MediaIntent>::empty(),
            m.state.title@.len() == 0,
            m.state.source@.len() == 0,
            m.state.queued_intents@.len() == 0,
    {
        PlaybackModel {
            state: LeafState::default(),
            title: title.to_string(),
            source: source.to_string(),
            kind,
            playing: false,
            position_ms: 0,
            duration_ms: 0,
            intents: IntentQueue::default(),
        }
    }

    /// Starts playback.
    pub fn play(&mut self)
        ensures
            final(self).playing,
            final(self).pending() == old(self).pending().push(MediaIntent::Play),
            final(self).position_ms == old(self).position_ms,
            final(self).duration_ms == old(self).duration_ms,
    {
        self.playing = true;
        self.intents.push(MediaIntent::Play);
    }

    /// Pauses playback.
    pub fn pause(&mut self)
        ensures
            !final(self).playing,
            final(self).pending() == old(self).pending().push(MediaIntent::Pause),
            final(self).position_ms == old(self).position_ms,
            final(self).duration_ms == old(self).duration_ms,
    {
        self.playing = false;
        self.intents.push(MediaIntent::Pause);
    }

    /// Seeks to `milliseconds`, clamped to the duration, and reports where
    /// it landed.
    pub fn seek(&mut self, milliseconds: u64)
        ensures
            final(self).position_ms == if milliseconds < old(self).duration_ms { milliseconds } else { old(self).duration_ms },
            final(self).pending() == old(self).pending().push(MediaIntent::Seek(final(self).position_ms)),
            final(self).playing == old(self).playing,
            final(self).duration_ms == old(self).duration_ms,
    {
        self.position_ms = if milliseconds < self.duration_ms { milliseconds } else { self.duration_ms };
        self.intents.push(MediaIntent::Seek(self.position_ms));
    }

    /// Takes the queued intents, oldest first.
    pub fn take_intents(&mut self) -> (v: Vec<MediaIntent>)
        ensures
            v@ == old(self).pending(),
            final(self).pending() == Seq::<MediaIntent>::empty(),
            final(self).playing == old(self).playing,
            final(self).position_ms == old(self).position_ms,
            final(self).duration_ms == old(self).duration_ms,
    {
        self.intents.drain()
    }
}

/// A mountable playback leaf.
pub struct PlaybackView {
    pub model: PlaybackModel,
}

impl PlaybackView {
    pub fn new(model: PlaybackModel) -> (v: Self)
        ensures
            v.model == model,
    {
        PlaybackView { model }
    }
}

} // verus!
