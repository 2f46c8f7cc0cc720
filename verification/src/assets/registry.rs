//! Texture handles, the sprite registry (sprite id to atlas placement, and
//! source path back to sprite id), and the font registry (source path to
//! font id).

use vstd::prelude::*;

use crate::assets::manifest::FilterMode;
use crate::assets::name_map::NameMap;
use crate::text::str_eq;

verus! {

/// GPU texture handle; the renderer owns the texture itself.
#[derive(Debug, Clone, Copy, PartialEq, Eq, Hash, Structural)]
pub struct TextureHandle(pub u32);

/// A loaded sprite: the atlas it was packed into and its place there, how
/// it is filtered, its size, and the source files it came from. The place in
/// the atlas, `uv`, is whatever the renderer describes it with.
#[derive(Debug, Clone)]
pub struct SpriteAsset<U> {
    pub atlas: TextureHandle,
    pub uv: U,
    pub filter: FilterMode,
    pub width: u32,
    pub height: u32,
    /// Source image path, for hot reload.
    pub path: String,
    /// Sibling normal-map source path, if registered with one.
    pub normal_path: Option<String>,
    /// Sibling emissive-mask source path, if registered with one.
    pub emissive_path: Option<String>,
    /// The atlas of the parallel normal/emissive bundle, when the sprite
    /// shares its packed place with one.
    pub lit_atlas: Option<TextureHandle>,
}

/// A path map with an optional path pointed at `id`.
pub open spec fn with_path(m: Map<Seq<char>, String>, path: Option<String>, id: String) -> Map<Seq<char>, String> {
    match path {
        Some(p) => m.insert(p@, id),
        None => m,
    }
}

/// The runtime sprite registry: sprites by id, and every source path (the
/// image, and its normal map and emissive mask when present) back to the
/// sprite id.
#[derive(Debug)]
pub struct AssetRegistry<U> {
    sprites: NameMap<SpriteAsset<U>>,
    path_to_sprite_id: NameMap<String>,
}

impl<U> AssetRegistry<U> {
    /// Both maps keep each key once.
    pub closed spec fn wf(&self) -> bool {
        self.sprites.wf() && self.path_to_sprite_id.wf()
    }

    /// The sprites by id.
    pub closed spec fn spec_sprites(&self) -> Map<Seq<char>, SpriteAsset<U>> {
        self.sprites@
    }

    /// The sprite id of each source path.
    pub closed spec fn spec_paths(&self) -> Map<Seq<char>, String> {
        self.path_to_sprite_id@
    }

    /// An empty registry.
    pub fn new() -> (r: Self)
        ensures
            r.wf(),
            r.spec_sprites() == Map::<Seq<char>, SpriteAsset<U>>::empty(),
            r.spec_paths() == Map::<Seq<char>, String>::empty(),
    {
        AssetRegistry { sprites: NameMap::new(), path_to_sprite_id: NameMap::new() }
    }

    /// Whether a sprite id is registered; each id is registered once.
    pub fn contains_sprite(&self, id: &str) -> (r: bool)
        requires
            self.wf(),
        ensures
            r == self.spec_sprites().dom().contains(id@),
    {
        self.sprites.contains_key(id)
    }

    /// Register a sprite with its atlas handle and place. Its image path, and
    /// its normal-map and emissive paths when given, point back at it, in
    /// that order.
    pub fn register_sprite(
        &mut self,
        id: String,
        filter: FilterMode,
        width: u32,
        height: u32,
        path: String,
        atlas: TextureHandle,
        uv: U,
        normal_path: Option<String>,
        emissive_path: Option<String>,
        lit_atlas: Option<TextureHandle>,
    )
        requires
            old(self).wf(),
            !old(self).spec_sprites().dom().contains(id@),
        ensures
            final(self).wf(),
            final(self).spec_sprites() == old(self).spec_sprites().insert(
                id@,
                (SpriteAsset { atlas, uv, filter, width, height, path, normal_path, emissive_path, lit_atlas }),
            ),
            final(self).spec_paths() == with_path(
                with_path(old(self).spec_paths().insert(path@, id), normal_path, id),
                emissive_path,
                id,
            ),
    {
        let _ = self.path_to_sprite_id.insert(path.clone(), id.clone());
        match &normal_path {
            Some(np) => {
                let _ = self.path_to_sprite_id.insert(np.clone(), id.clone());
            },
            None => {},
        }
        match &emissive_path {
            Some(ep) => {
                let _ = self.path_to_sprite_id.insert(ep.clone(), id.clone());
            },
            None => {},
        }
        let key = id.clone();
        let _ = self.sprites.insert(
            key,
            SpriteAsset { atlas, uv, filter, width, height, path, normal_path, emissive_path, lit_atlas },
        );
    }

    /// The sprite registered as `id`.
    pub fn get_sprite(&self, id: &str) -> (r: Option<&SpriteAsset<U>>)
        requires
            self.wf(),
        ensures
            match r {
                Some(a) => self.spec_sprites().dom().contains(id@) && self.spec_sprites()[id@] == *a,
                None => !self.spec_sprites().dom().contains(id@),
            },
    {
        self.sprites.get(id)
    }

    /// Every registered sprite id, once each.
    pub fn sprite_ids(&self) -> (r: Vec<&str>)
        requires
            self.wf(),
        ensures
            r@.len() == self.spec_sprites().dom().len(),
            forall|i: int| 0 <= i < r@.len() ==> self.spec_sprites().dom().contains((#[trigger] r@[i])@),
            forall|i: int, j: int| 0 <= i < j < r@.len() ==> r@[i]@ != r@[j]@,
    {
        proof { self.sprites.lemma_keys(); }
        let r = self.sprites.keys();
        proof {
            assert forall|i: int, j: int| 0 <= i < j < r@.len() implies r@[i]@ != r@[j]@ by {
                assert(r@[i]@ == self.sprites.key_seq()[i]);
                assert(r@[j]@ == self.sprites.key_seq()[j]);
            }
            assert forall|i: int| 0 <= i < r@.len() implies self.spec_sprites().dom().contains((#[trigger] r@[i])@) by {
                assert(self.sprites.key_seq().contains(self.sprites.key_seq()[i]));
            }
        }
        r
    }

    /// The sprite id a source path belongs to.
    pub fn sprite_id_for_path(&self, path: &str) -> (r: Option<&str>)
        requires
            self.wf(),
        ensures
            match r {
                Some(id) => self.spec_paths().dom().contains(path@) && self.spec_paths()[path@]@ == id@,
                None => !self.spec_paths().dom().contains(path@),
            },
    {
        match self.path_to_sprite_id.get(path) {
            Some(id) => Some(id.as_str()),
            None => None,
        }
    }

    /// After a hot reload, move a registered sprite to its new atlas place
    /// and size; an unknown id changes nothing.
    pub fn update_sprite_entry(&mut self, id: &str, atlas: TextureHandle, uv: U, width: u32, height: u32)
        requires
            old(self).wf(),
        ensures
            final(self).wf(),
            final(self).spec_paths() == old(self).spec_paths(),
            !old(self).spec_sprites().dom().contains(id@) ==> final(self).spec_sprites() == old(self).spec_sprites(),
            old(self).spec_sprites().dom().contains(id@) ==> final(self).spec_sprites() == old(self).spec_sprites().insert(
                id@,
                (SpriteAsset { atlas, uv, width, height, ..old(self).spec_sprites()[id@] }),
            ),
    {
        match self.sprites.remove(id) {
            Some(asset) => {
                let updated = SpriteAsset { atlas, uv, width, height, ..asset };
                let _ = self.sprites.insert(id.to_string(), updated);
                proof {
                    assert(self.spec_sprites() =~= old(self).spec_sprites().insert(id@, updated));
                }
            },
            None => {
                proof {
                    assert(self.spec_sprites() =~= old(self).spec_sprites());
                }
            },
        }
    }

    /// Record a sprite's lit atlas after an atlas build; an unknown id
    /// changes nothing.
    pub fn update_sprite_lit_atlas(&mut self, id: &str, lit_atlas: Option<TextureHandle>)
        requires
            old(self).wf(),
        ensures
            final(self).wf(),
            final(self).spec_paths() == old(self).spec_paths(),
            !old(self).spec_sprites().dom().contains(id@) ==> final(self).spec_sprites() == old(self).spec_sprites(),
            old(self).spec_sprites().dom().contains(id@) ==> final(self).spec_sprites() == old(self).spec_sprites().insert(
                id@,
                (SpriteAsset { lit_atlas, ..old(self).spec_sprites()[id@] }),
            ),
    {
        match self.sprites.remove(id) {
            Some(asset) => {
                let updated = SpriteAsset { lit_atlas, ..asset };
                let _ = self.sprites.insert(id.to_string(), updated);
                proof {
                    assert(self.spec_sprites() =~= old(self).spec_sprites().insert(id@, updated));
                }
            },
            None => {
                proof {
                    assert(self.spec_sprites() =~= old(self).spec_sprites());
                }
            },
        }
    }
}

/// The font id each source path was registered as.
#[derive(Debug, Clone)]
pub struct FontRegistry {
    path_to_id: NameMap<String>,
}

impl FontRegistry {
    /// The map keeps each path once.
    pub closed spec fn wf(&self) -> bool {
        self.path_to_id.wf()
    }

    /// The font id of each path.
    pub closed spec fn spec_paths(&self) -> Map<Seq<char>, String> {
        self.path_to_id@
    }

    /// An empty registry.
    pub fn new() -> (r: Self)
        ensures
            r.wf(),
            r.spec_paths() == Map::<Seq<char>, String>::empty(),
    {
        FontRegistry { path_to_id: NameMap::new() }
    }

    /// Remember that `path` holds font `id`.
    pub fn register(&mut self, id: String, path: String)
        requires
            old(self).wf(),
        ensures
            final(self).wf(),
            final(self).spec_paths() == old(self).spec_paths().insert(path@, id),
    {
        self.path_to_id.insert(path, id);
    }

    /// The font id of `path`.
    pub fn id_for_path(&self, path: &str) -> (r: Option<&str>)
        requires
            self.wf(),
        ensures
            match r {
                Some(id) => self.spec_paths().dom().contains(path@) && self.spec_paths()[path@]@ == id@,
                None => !self.spec_paths().dom().contains(path@),
            },
    {
        match self.path_to_id.get(path) {
            Some(id) => Some(id.as_str()),
            None => None,
        }
    }

    /// Whether some path holds font `id`.
    pub fn contains_id(&self, id: &str) -> (r: bool)
        requires
            self.wf(),
        ensures
            r == exists|p: Seq<char>| #[trigger] self.spec_paths().dom().contains(p) && self.spec_paths()[p]@ == id@,
    {
        let entries = self.path_to_id.iter();
        let ghost keys = self.path_to_id.key_seq();
        proof {
            self.path_to_id.lemma_keys();
        }
        let mut i: usize = 0;
        while i < entries.len()
            invariant
                self.wf(),
                i <= entries@.len(),
                entries@.len() == keys.len(),
                keys == self.path_to_id.key_seq(),
                forall|k: Seq<char>| #[trigger] self.spec_paths().dom().contains(k) <==> keys.contains(k),
                forall|j: int| 0 <= j < entries@.len() ==> (#[trigger] entries@[j]).0@ == keys[j]
                    && self.spec_paths()[keys[j]] == *entries@[j].1,
                forall|j: int| 0 <= j < i ==> (#[trigger] entries@[j]).1@ != id@,
            decreases entries@.len() - i,
        {
            if str_eq(entries[i].1.as_str(), id) {
                assert(self.spec_paths().dom().contains(keys[i as int]));
                return true;
            }
            i += 1;
        }
        proof {
            assert forall|p: Seq<char>| #[trigger] self.spec_paths().dom().contains(p) implies self.spec_paths()[p]@ != id@ by {
                let j = choose|j: int| 0 <= j < keys.len() && keys[j] == p;
                assert(entries@[j].1@ != id@);
            }
        }
        false
    }
}

} // verus!
