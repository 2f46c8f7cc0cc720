//! Sprite animations: frames with durations, and the registry of loaded
//! animations with the reverse lookup from source path to id.

use vstd::prelude::*;

use crate::assets::name_map::NameMap;

verus! {

/// One frame: the sprite shown and for how long.
#[derive(Debug, Clone)]
pub struct AnimationFrame {
    pub sprite: String,
    pub duration_ms: u32,
}

/// A sequence of frames, played once or in a loop.
#[derive(Debug, Clone)]
pub struct AnimationData {
    pub looping: bool,
    pub frames: Vec<AnimationFrame>,
}

/// Sum of the frame durations.
pub open spec fn frames_duration(frames: Seq<AnimationFrame>) -> nat
    decreases frames.len(),
{
    if frames.len() == 0 {
        0
    } else {
        frames_duration(frames.drop_last()) + frames.last().duration_ms as nat
    }
}

proof fn lemma_frames_duration_prefix(frames: Seq<AnimationFrame>, i: int)
    requires
        0 <= i <= frames.len(),
    ensures
        frames_duration(frames.take(i)) <= frames_duration(frames),
    decreases frames.len() - i,
{
    if i < frames.len() {
        lemma_frames_duration_prefix(frames, i + 1);
        assert(frames.take(i + 1).drop_last() =~= frames.take(i));
    } else {
        assert(frames.take(i) =~= frames);
    }
}

impl AnimationData {
    /// Total length of one pass through the frames.
    pub fn total_duration_ms(&self) -> (r: u32)
        requires
            frames_duration(self.frames@) <= u32::MAX,
        ensures
            r == frames_duration(self.frames@),
    {
        let mut total: u32 = 0;
        let mut i: usize = 0;
        while i < self.frames.len()
            invariant
                i <= self.frames@.len(),
                frames_duration(self.frames@) <= u32::MAX,
                total == frames_duration(self.frames@.take(i as int)),
            decreases self.frames@.len() - i,
        {
            proof {
                assert(self.frames@.take(i + 1).drop_last() =~= self.frames@.take(i as int));
                lemma_frames_duration_prefix(self.frames@, i + 1);
            }
            total = total + self.frames[i].duration_ms;
            i += 1;
        }
        assert(self.frames@.take(i as int) =~= self.frames@);
        total
    }
}

/// Loaded animations by id, and the id each source path was loaded as.
#[derive(Debug, Clone)]
pub struct AnimationRegistry {
    animations: NameMap<AnimationData>,
    path_to_id: NameMap<String>,
}

impl AnimationRegistry {
    /// Internal maps keep each key once.
    pub closed spec fn wf(&self) -> bool {
        self.animations.wf() && self.path_to_id.wf()
    }

    /// The animations by id.
    pub closed spec fn spec_animations(&self) -> Map<Seq<char>, AnimationData> {
        self.animations@
    }

    /// The id each source path was loaded as.
    pub closed spec fn spec_paths(&self) -> Map<Seq<char>, String> {
        self.path_to_id@
    }

    /// The ids in the order they were first inserted.
    pub closed spec fn spec_ids(&self) -> Seq<Seq<char>> {
        self.animations.key_seq()
    }

    /// An empty registry.
    pub fn new() -> (r: Self)
        ensures
            r.wf(),
            r.spec_animations() == Map::<Seq<char>, AnimationData>::empty(),
            r.spec_paths() == Map::<Seq<char>, String>::empty(),
    {
        AnimationRegistry { animations: NameMap::new(), path_to_id: NameMap::new() }
    }

    /// Store `data` as `id`, replacing any animation of that id.
    pub fn insert(&mut self, id: String, data: AnimationData)
        requires
            old(self).wf(),
        ensures
            final(self).wf(),
            final(self).spec_animations() == old(self).spec_animations().insert(id@, data),
            final(self).spec_paths() == old(self).spec_paths(),
    {
        self.animations.insert(id, data);
    }

    /// Store `data` as `id` and remember that `path` was loaded as `id`.
    pub fn insert_with_path(&mut self, id: String, data: AnimationData, path: String)
        requires
            old(self).wf(),
        ensures
            final(self).wf(),
            final(self).spec_animations() == old(self).spec_animations().insert(id@, data),
            final(self).spec_paths().dom() == old(self).spec_paths().dom().insert(path@),
            final(self).spec_paths()[path@]@ == id@,
            forall|p: Seq<char>| p != path@ && #[trigger] old(self).spec_paths().dom().contains(p)
                ==> final(self).spec_paths()[p] == old(self).spec_paths()[p],
    {
        let key = id.clone();
        self.path_to_id.insert(path, key);
        self.animations.insert(id, data);
    }

    /// The animation stored as `id`.
    pub fn get(&self, id: &str) -> (r: Option<&AnimationData>)
        requires
            self.wf(),
        ensures
            match r {
                Some(d) => self.spec_animations().dom().contains(id@) && self.spec_animations()[id@] == *d,
                None => !self.spec_animations().dom().contains(id@),
            },
    {
        self.animations.get(id)
    }

    /// The sprite of frame `index` of animation `id`, when both exist.
    pub fn frame_sprite(&self, id: &str, index: usize) -> (r: Option<&str>)
        requires
            self.wf(),
        ensures
            match r {
                Some(sprite) => self.spec_animations().dom().contains(id@)
                    && index < self.spec_animations()[id@].frames@.len()
                    && sprite@ == self.spec_animations()[id@].frames@[index as int].sprite@,
                None => !self.spec_animations().dom().contains(id@)
                    || index >= self.spec_animations()[id@].frames@.len(),
            },
    {
        match self.animations.get(id) {
            Some(anim) => if index < anim.frames.len() {
                Some(anim.frames[index].sprite.as_str())
            } else {
                None
            },
            None => None,
        }
    }

    /// Every `(id, animation)`, in the order the ids were first inserted.
    pub fn iter(&self) -> (r: Vec<(&str, &AnimationData)>)
        requires
            self.wf(),
        ensures
            r@.len() == self.spec_ids().len(),
            forall|i: int| 0 <= i < r@.len() ==> (#[trigger] r@[i]).0@ == self.spec_ids()[i]
                && self.spec_animations()[self.spec_ids()[i]] == *r@[i].1,
    {
        self.animations.iter()
    }

    /// The id `path` was loaded as.
    pub fn id_for_path(&self, path: &str) -> (r: Option<&str>)
        requires
            self.wf(),
        ensures
            match r {
                Some(id) => self.spec_paths().dom().contains(path@) && self.spec_paths()[path@]@ == id@,
                None => !self.spec_paths().dom().contains(path@),
            },
    {
        match self.path_to_id.get(path) {
            Some(id) => Some(id.as_str()),
            None => None,
        }
    }

    /// The ids, in the order they were first inserted.
    pub fn ids(&self) -> (r: Vec<&str>)
        ensures
            r@.len() == self.spec_ids().len(),
            forall|i: int| 0 <= i < r@.len() ==> (#[trigger] r@[i])@ == self.spec_ids()[i],
    {
        self.animations.keys()
    }
}


/// Where playback goes when the current frame ends: to the next frame; past
/// the last one, back to the first when looping, else it stays on the last
/// and finishes.
pub fn step_frame(frame_index: usize, frame_count: usize, looping: bool) -> (r: (usize, bool))
    requires
        frame_index < frame_count,
    ensures
        frame_index + 1 < frame_count ==> r.0 == frame_index + 1 && !r.1,
        frame_index + 1 == frame_count && looping ==> r.0 == 0 && !r.1,
        frame_index + 1 == frame_count && !looping ==> r.0 == frame_count - 1 && r.1,
{
    let next = frame_index + 1;
    if next < frame_count {
        (next, false)
    } else if looping {
        (0, false)
    } else {
        (frame_count - 1, true)
    }
}

} // verus!
