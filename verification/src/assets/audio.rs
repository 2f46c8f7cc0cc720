//! Sound handles, the registry of decoded sounds, and the decisions the
//! decoding loop takes on what the reader and the decoder report.

use vstd::prelude::*;

use crate::assets::name_map::NameMap;

verus! {

/// Registered sound handle.
#[derive(Debug, Clone, Copy, PartialEq, Eq, Hash, Structural)]
pub struct AudioHandle(pub u32);

/// Registered sounds with their manifest looping flag. Handles are minted
/// in order from zero; an id registered again points at the newest handle.
#[derive(Debug)]
pub struct SoundRegistry<D> {
    sounds: Vec<(D, bool)>,
    id_map: NameMap<AudioHandle>,
}

impl<D> SoundRegistry<D> {
    /// The id index keys each id once, and every handle index fits in a
    /// `u32`.
    pub closed spec fn wf(&self) -> bool {
        self.id_map.wf() && self.sounds@.len() <= u32::MAX
    }

    /// The sounds with their looping flags, by handle index.
    pub closed spec fn entries(&self) -> Seq<(D, bool)> {
        self.sounds@
    }

    /// The handle each registered id points at.
    pub closed spec fn ids(&self) -> Map<Seq<char>, AudioHandle> {
        self.id_map@
    }

    /// An empty registry.
    pub fn new() -> (r: Self)
        ensures
            r.wf(),
            r.entries() == Seq::<(D, bool)>::empty(),
            r.ids() == Map::<Seq<char>, AudioHandle>::empty(),
    {
        SoundRegistry { sounds: Vec::new(), id_map: NameMap::new() }
    }

    /// Number of registered sounds, which is also the next handle index.
    pub fn len(&self) -> (r: usize)
        ensures
            r == self.entries().len(),
    {
        self.sounds.len()
    }

    /// Register a decoded sound under `id` with its looping default; the
    /// handle is the next index.
    pub fn register(&mut self, id: String, data: D, looping: bool) -> (h: AudioHandle)
        requires
            old(self).wf(),
            old(self).entries().len() < u32::MAX,
        ensures
            final(self).wf(),
            h.0 == old(self).entries().len(),
            final(self).entries() == old(self).entries().push((data, looping)),
            final(self).ids() == old(self).ids().insert(id@, h),
    {
        let h = AudioHandle(self.sounds.len() as u32);
        let _ = self.id_map.insert(id, h);
        self.sounds.push((data, looping));
        h
    }

    /// The sound behind a handle.
    pub fn get(&self, handle: AudioHandle) -> (r: Option<&D>)
        ensures
            match r {
                Some(d) => handle.0 < self.entries().len() && *d == self.entries()[handle.0 as int].0,
                None => handle.0 >= self.entries().len(),
            },
    {
        let i = handle.0 as usize;
        if i < self.sounds.len() {
            Some(&self.sounds[i].0)
        } else {
            None
        }
    }

    /// The handle an id points at.
    pub fn get_by_id(&self, id: &str) -> (r: Option<AudioHandle>)
        requires
            self.wf(),
        ensures
            match r {
                Some(h) => self.ids().contains_key(id@) && self.ids()[id@] == h,
                None => !self.ids().contains_key(id@),
            },
    {
        match self.id_map.get(id) {
            Some(h) => Some(*h),
            None => None,
        }
    }

    /// The manifest looping default; an unknown handle does not loop.
    pub fn get_looping(&self, handle: AudioHandle) -> (r: bool)
        ensures
            r == (handle.0 < self.entries().len() && self.entries()[handle.0 as int].1),
    {
        let i = handle.0 as usize;
        i < self.sounds.len() && self.sounds[i].1
    }

    /// Every sound with its handle, in handle order.
    pub fn iter(&self) -> (r: Vec<(AudioHandle, &D)>)
        requires
            self.wf(),
        ensures
            r@.len() == self.entries().len(),
            forall|i: int| 0 <= i < r@.len() ==> (#[trigger] r@[i]).0.0 == i && *r@[i].1 == self.entries()[i].0,
    {
        let mut r: Vec<(AudioHandle, &D)> = Vec::new();
        let mut i: usize = 0;
        while i < self.sounds.len()
            invariant
                i <= self.sounds@.len(),
                self.sounds@.len() <= u32::MAX,
                r@.len() == i,
                forall|j: int| 0 <= j < i ==> (#[trigger] r@[j]).0.0 == j && *r@[j].1 == self.sounds@[j].0,
            decreases self.sounds@.len() - i,
        {
            r.push((AudioHandle(i as u32), &self.sounds[i].0));
            i += 1;
        }
        r
    }
}

/// What reading the next packet of a stream reported.
#[derive(Debug, Clone, Copy, PartialEq, Eq, Structural)]
pub enum ReadOutcome {
    /// A packet; `on_track` tells whether it belongs to the chosen track.
    Packet { on_track: bool },
    /// The stream ended.
    EndOfStream,
    /// The stream ended in the middle of a packet.
    Truncated,
    /// The decoder must be reset before going on.
    ResetRequired,
    /// Any other read failure.
    Failed,
}

/// What decoding one packet reported.
#[derive(Debug, Clone, Copy, PartialEq, Eq, Structural)]
pub enum DecodeOutcome {
    /// Samples came out.
    Decoded,
    /// The data ended in the middle of the packet.
    Truncated,
    /// The packet is corrupt.
    Corrupt,
    /// Any other decoder failure.
    Failed,
}

/// The decoding loop's next step.
#[derive(Debug, Clone, Copy, PartialEq, Eq, Structural)]
pub enum DecodeStep {
    /// Decode the packet just read.
    DecodePacket,
    /// Read the next packet.
    ReadNext,
    /// Append the decoded samples, then read the next packet.
    Append,
    /// Stop and keep everything decoded.
    Finish,
    /// Warn that the file is truncated, then stop and keep what was decoded.
    FinishTruncated,
    /// Reset the decoder, then read the next packet.
    ResetDecoder,
    /// Warn about the corrupt packet, skip it, and read the next one.
    SkipCorrupt,
    /// Give up with an error.
    Fail,
}

/// The step after a read: packets of other tracks are skipped, the end of
/// the stream finishes, a truncated stream keeps what was decoded, and any
/// other failure is an error.
pub fn step_after_read(outcome: ReadOutcome) -> (r: DecodeStep)
    ensures
        r == match outcome {
            ReadOutcome::Packet { on_track } => if on_track { DecodeStep::DecodePacket } else { DecodeStep::ReadNext },
            ReadOutcome::EndOfStream => DecodeStep::Finish,
            ReadOutcome::Truncated => DecodeStep::FinishTruncated,
            ReadOutcome::ResetRequired => DecodeStep::ResetDecoder,
            ReadOutcome::Failed => DecodeStep::Fail,
        },
{
    match outcome {
        ReadOutcome::Packet { on_track } => if on_track {
            DecodeStep::DecodePacket
        } else {
            DecodeStep::ReadNext
        },
        ReadOutcome::EndOfStream => DecodeStep::Finish,
        ReadOutcome::Truncated => DecodeStep::FinishTruncated,
        ReadOutcome::ResetRequired => DecodeStep::ResetDecoder,
        ReadOutcome::Failed => DecodeStep::Fail,
    }
}

/// The step after decoding a packet: a corrupt packet is skipped, not
/// fatal; a truncated one keeps what was decoded.
pub fn step_after_decode(outcome: DecodeOutcome) -> (r: DecodeStep)
    ensures
        r == match outcome {
            DecodeOutcome::Decoded => DecodeStep::Append,
            DecodeOutcome::Truncated => DecodeStep::FinishTruncated,
            DecodeOutcome::Corrupt => DecodeStep::SkipCorrupt,
            DecodeOutcome::Failed => DecodeStep::Fail,
        },
{
    match outcome {
        DecodeOutcome::Decoded => DecodeStep::Append,
        DecodeOutcome::Truncated => DecodeStep::FinishTruncated,
        DecodeOutcome::Corrupt => DecodeStep::SkipCorrupt,
        DecodeOutcome::Failed => DecodeStep::Fail,
    }
}

/// The channel count of a stream: the one it declares, else stereo.
pub fn channel_count(declared: Option<u16>) -> (r: u16)
    ensures
        r == match declared {
            Some(c) => c,
            None => 2u16,
        },
{
    match declared {
        Some(c) => c,
        None => 2,
    }
}

} // verus!
