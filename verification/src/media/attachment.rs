//! The leaf for files that no other viewer handles: their metadata and a
//! request to open them externally.
use vstd::prelude::*;
use super::{IntentQueue, LeafState, MediaIntent};

verus! {

/// What the attachment leaf shows of a file.
#[derive(Clone, Debug, PartialEq, Eq)]
pub struct AttachmentInfo {
    pub display_name: String,
    pub source: String,
    pub mime: String,
    pub byte_size: u64,
    pub modified: Option<String>,
}

impl Default for AttachmentInfo {
    fn default() -> (i: Self)
        ensures
            i.display_name@.len() == 0,
            i.source@.len() == 0,
            i.mime@.len() == 0,
            i.byte_size == 0,
            i.modified is None,
    {
        AttachmentInfo {
            display_name: String::new(),
            source: String::new(),
            mime: String::new(),
            byte_size: 0,
            modified: None,
        }
    }
}

pub struct AttachmentModel {
    pub state: LeafState,
    pub info: AttachmentInfo,
    /// Intents waiting for the host, oldest first.
    pub intents: IntentQueue,
}

impl AttachmentModel {
    /// The intents queued and not yet taken, oldest first.
    pub closed spec fn pending(&self) -> Seq<MediaIntent> {
        self.intents@
    }

    pub fn new(info: AttachmentInfo) -> (m: Self)
        ensures
            m.info == info,
            m.pending() == Seq::<MediaIntent>::empty(),
            m.state.queued_intents@.len() == 0,
    {
        AttachmentModel { state: LeafState::default(), info, intents: IntentQueue::default() }
    }

    /// Asks the host to open the file's source externally.
    pub fn open_external(&mut self)
        ensures
            final(self).pending().len() == old(self).pending().len() + 1,
            final(self).pending().drop_last() == old(self).pending(),
            (final(self).pending().last() matches MediaIntent::OpenExternal(s) && s@ == old(self).info.source@),
            final(self).info == old(self).info,
    {
        let ghost before = self.intents@;
        self.intents.push(MediaIntent::OpenExternal(self.info.source.clone()));
        proof {
            assert(self.intents@.drop_last() =~= before);
        }
    }

    /// Takes the queued intents, oldest first.
    pub fn take_intents(&mut self) -> (v: Vec<MediaIntent>)
        ensures
            v@ == old(self).pending(),
            final(self).pending() == Seq::<MediaIntent>::empty(),
            final(self).info == old(self).info,
    {
        self.intents.drain()
    }
}

/// A mountable attachment leaf.
pub struct AttachmentView {
    pub model: AttachmentModel,
}

impl AttachmentView {
    pub fn new(model: AttachmentModel) -> (v: Self)
        ensures
            v.model == model,
    {
        AttachmentView { model }
    }
}

} // verus!
