//! Asset manifests with resolved paths, and the merge of several manifests
//! into one, where an id used twice is an error.

use vstd::prelude::*;

use crate::assets::name_map::{keys_of, NameMap};

verus! {

/// Why a manifest could not be loaded or merged. Reading and decoding
/// failures carry the path and the reader's message.
#[derive(Debug, Clone)]
pub enum ManifestError {
    Io { path: String, reason: String },
    Parse { path: String, reason: String },
    MissingFile { id: String, path: String },
    MissingAnimationFile { id: String, path: String },
    MissingFontFile { id: String, path: String },
    MissingSoundFile { id: String, path: String },
    MissingTilemapFile { id: String, path: String },
    MissingParticleFile { id: String, path: String },
    MissingShaderFile { id: String, path: String },
    DuplicateId { id: String },
}

/// Texture filtering for a sprite.
#[derive(Debug, Clone, Copy, PartialEq, Eq, Hash, Structural)]
pub enum FilterMode {
    Nearest,
    Linear,
}

/// The filter a sprite gets when the manifest names none.
pub fn default_filter() -> (r: FilterMode)
    ensures
        r == FilterMode::Nearest,
{
    FilterMode::Nearest
}

/// A sprite as the manifest file names it.
#[derive(Debug, Clone)]
pub struct SpriteEntry {
    pub path: String,
    pub filter: FilterMode,
}

/// An animation as the manifest file names it.
#[derive(Debug, Clone)]
pub struct AnimationEntry {
    pub path: String,
}

/// A font as the manifest file names it.
#[derive(Debug, Clone)]
pub struct FontEntry {
    pub path: String,
}

/// A tilemap as the manifest file names it.
#[derive(Debug, Clone)]
pub struct TilemapEntry {
    pub path: String,
}

/// A particle config as the manifest file names it.
#[derive(Debug, Clone)]
pub struct ParticleEntry {
    pub path: String,
}

/// A shader as the manifest file names it.
#[derive(Debug, Clone)]
pub struct ShaderEntry {
    pub path: String,
}

/// A sprite with its resolved path.
#[derive(Debug, Clone)]
pub struct ResolvedSprite {
    pub path: String,
    pub filter: FilterMode,
}

/// An animation with its resolved path.
#[derive(Debug, Clone)]
pub struct ResolvedAnimation {
    pub path: String,
}

/// A font with its resolved path.
#[derive(Debug, Clone)]
pub struct ResolvedFont {
    pub path: String,
}

/// A tilemap with its resolved path.
#[derive(Debug, Clone)]
pub struct ResolvedTilemap {
    pub path: String,
}

/// A particle config with its resolved path.
#[derive(Debug, Clone)]
pub struct ResolvedParticle {
    pub path: String,
}

/// A shader with its resolved path.
#[derive(Debug, Clone)]
pub struct ResolvedShader {
    pub path: String,
}

/// Whether two maps share no key.
pub open spec fn disjoint_keys<A, B>(a: Map<Seq<char>, A>, b: Map<Seq<char>, B>) -> bool {
    forall|k: Seq<char>| #[trigger] a.dom().contains(k) ==> !b.dom().contains(k)
}

/// `after` keeps every entry of `before` as it was, and each other entry
/// of `after` is one of `added`.
pub open spec fn partly_merged<V>(before: Map<Seq<char>, V>, after: Map<Seq<char>, V>, added: Map<Seq<char>, V>) -> bool {
    &&& forall|k: Seq<char>| #[trigger] before.dom().contains(k) ==> after.dom().contains(k) && after[k] == before[k]
    &&& forall|k: Seq<char>| #[trigger] after.dom().contains(k) ==> before.dom().contains(k)
        || (added.dom().contains(k) && after[k] == added[k])
}

/// Move the entries of `src` into `dst`; an id already in `dst` is
/// returned as the error, with the entries moved before it kept.
fn merge_into<V>(dst: &mut NameMap<V>, src: NameMap<V>) -> (r: Result<(), String>)
    requires
        old(dst).wf(),
        src.wf(),
    ensures
        final(dst).wf(),
        r is Ok <==> disjoint_keys(src@, old(dst)@),
        r is Ok ==> final(dst)@ == old(dst)@.union_prefer_right(src@),
        r matches Err(id) ==> old(dst)@.dom().contains(id@) && src@.dom().contains(id@),
        r is Err ==> partly_merged(old(dst)@, final(dst)@, src@),
{
    let ghost m = src@;
    proof {
        src.lemma_keys();
    }
    let entries = src.into_vec();
    let ghost ks = keys_of(entries@);
    let mut rest = entries;
    let mut i: usize = 0;
    let total: usize = rest.len();
    assert(ks.skip(0) =~= ks);
    while rest.len() > 0
        invariant
            dst.wf(),
            m == src@,
            i + rest@.len() == total,
            total == ks.len(),
            ks.no_duplicates(),
            forall|k: Seq<char>| #[trigger] m.dom().contains(k) <==> ks.contains(k),
            keys_of(rest@) == ks.skip(i as int),
            forall|j: int| 0 <= j < rest@.len() ==> m[(#[trigger] rest@[j]).0@] == rest@[j].1,
            forall|j: int| 0 <= j < i ==> !old(dst)@.dom().contains(#[trigger] ks[j]),
            dst@ == old(dst)@.union_prefer_right(m.restrict(ks.take(i as int).to_set())),
        decreases rest@.len(),
    {
        let ghost before = rest@;
        let ghost d0 = dst@;
        let (id, value) = rest.remove(0);
        proof {
            assert(ks.skip(i as int)[0] == id@);
            assert(ks[i as int] == id@);
            assert(m[id@] == value);
            assert forall|j: int| 0 <= j < rest@.len() implies keys_of(rest@)[j] == ks.skip(i + 1)[j] by {
                assert(rest@[j] == before[j + 1]);
                assert(keys_of(before)[j + 1] == ks.skip(i as int)[j + 1]);
            }
            assert(keys_of(rest@) =~= ks.skip(i + 1));
            assert forall|j: int| 0 <= j < rest@.len() implies m[(#[trigger] rest@[j]).0@] == rest@[j].1 by {
                assert(rest@[j] == before[j + 1]);
            }
        }
        if dst.contains_key(id.as_str()) {
            proof {
                if !old(dst)@.dom().contains(id@) {
                    let t = ks.take(i as int);
                    assert(m.restrict(t.to_set()).dom().contains(id@));
                    let j = choose|j: int| 0 <= j < t.len() && t[j] == id@;
                    assert(ks[j] == ks[i as int]);
                }
                assert(m.dom().contains(id@)) by {
                    assert(ks.contains(id@));
                }
                assert(old(dst)@.dom().contains(id@));
                assert(!disjoint_keys(m, old(dst)@));
                let t = ks.take(i as int).to_set();
                assert forall|k: Seq<char>| #[trigger] old(dst)@.dom().contains(k) implies dst@.dom().contains(k) && dst@[k] == old(dst)@[k] by {
                    if m.restrict(t).dom().contains(k) {
                        let j = choose|j: int| 0 <= j < i && ks.take(i as int)[j] == k;
                        assert(ks[j] == k);
                    }
                }
            }
            return Err(id);
        }
        proof {
            if old(dst)@.dom().contains(id@) {
                assert(d0.dom().contains(id@));
            }
        }
        let ghost k = id@;
        let ghost v = value;
        proof {
            assert(ks.contains(k)) by {
                assert(ks[i as int] == k);
            }
            assert(m.dom().contains(k));
            assert(m[k] == v);
        }
        dst.insert(id, value);
        i += 1;
        proof {
            broadcast use vstd::seq_lib::group_seq_properties;
            assert(ks.take(i as int) =~= ks.take(i - 1).push(k));
            assert forall|x: Seq<char>| ks.take(i as int).to_set().contains(x) <==> ks.take(i - 1).to_set().contains(x) || x == k by {
                if x == k {
                    assert(ks.take(i as int)[i - 1] == k);
                }
                if ks.take(i as int).contains(x) && x != k {
                    let j = choose|j: int| 0 <= j < i && #[trigger] ks.take(i as int)[j] == x;
                    assert(ks.take(i - 1)[j] == x);
                }
                if ks.take(i - 1).contains(x) {
                    let j = choose|j: int| 0 <= j < i - 1 && #[trigger] ks.take(i - 1)[j] == x;
                    assert(ks.take(i as int)[j] == x);
                }
            }
            assert(dst@ =~= old(dst)@.union_prefer_right(m.restrict(ks.take(i as int).to_set())));
        }
    }
    proof {
        assert(ks.take(i as int) =~= ks);
        assert(m.restrict(ks.to_set()) =~= m);
        assert forall|k: Seq<char>| #[trigger] m.dom().contains(k) implies !old(dst)@.dom().contains(k) by {
            assert(ks.contains(k));
            let j = choose|j: int| 0 <= j < ks.len() && ks[j] == k;
        }
    }
    Ok(())
}

/// What a merge leaves of the kind at position `kind`, when the first
/// clash lies at position `clash`: kinds before it have all of `added`,
/// kinds after it are untouched, and the clashing kind keeps its entries
/// and has some of `added`.
pub open spec fn merged_as<V>(before: Map<Seq<char>, V>, after: Map<Seq<char>, V>, added: Map<Seq<char>, V>, kind: int, clash: int) -> bool {
    if kind < clash {
        after == before.union_prefer_right(added)
    } else if kind > clash {
        after == before
    } else {
        partly_merged(before, after, added)
    }
}

/// Manifest entries with resolved paths, by id, one map per asset kind;
/// `S` is what a sound entry holds.
#[derive(Debug, Clone)]
pub struct ResolvedManifest<S> {
    pub sprites: NameMap<ResolvedSprite>,
    pub animations: NameMap<ResolvedAnimation>,
    pub fonts: NameMap<ResolvedFont>,
    pub sounds: NameMap<S>,
    pub tilemaps: NameMap<ResolvedTilemap>,
    pub particles: NameMap<ResolvedParticle>,
    pub shaders: NameMap<ResolvedShader>,
}

impl<S> ResolvedManifest<S> {
    /// Every map keeps each id once.
    pub open spec fn wf(&self) -> bool {
        &&& self.sprites.wf()
        &&& self.animations.wf()
        &&& self.fonts.wf()
        &&& self.sounds.wf()
        &&& self.tilemaps.wf()
        &&& self.particles.wf()
        &&& self.shaders.wf()
    }

    /// No asset kind uses an id in both manifests.
    pub open spec fn disjoint(&self, other: &Self) -> bool {
        &&& disjoint_keys(other.sprites@, self.sprites@)
        &&& disjoint_keys(other.animations@, self.animations@)
        &&& disjoint_keys(other.fonts@, self.fonts@)
        &&& disjoint_keys(other.sounds@, self.sounds@)
        &&& disjoint_keys(other.tilemaps@, self.tilemaps@)
        &&& disjoint_keys(other.particles@, self.particles@)
        &&& disjoint_keys(other.shaders@, self.shaders@)
    }

    /// `id` is used by both manifests for the same kind of asset.
    pub open spec fn shared_id(&self, other: &Self, id: Seq<char>) -> bool {
        ||| self.sprites@.dom().contains(id) && other.sprites@.dom().contains(id)
        ||| self.animations@.dom().contains(id) && other.animations@.dom().contains(id)
        ||| self.fonts@.dom().contains(id) && other.fonts@.dom().contains(id)
        ||| self.sounds@.dom().contains(id) && other.sounds@.dom().contains(id)
        ||| self.tilemaps@.dom().contains(id) && other.tilemaps@.dom().contains(id)
        ||| self.particles@.dom().contains(id) && other.particles@.dom().contains(id)
        ||| self.shaders@.dom().contains(id) && other.shaders@.dom().contains(id)
    }

    /// Where the first clash between the two manifests lies, the kinds
    /// taken in the order sprites, animations, fonts, sounds, tilemaps,
    /// particles, shaders, counted from zero: the first kind for which both
    /// use an id, or seven when there is none.
    pub open spec fn first_clash(&self, other: &Self) -> int {
        if !disjoint_keys(other.sprites@, self.sprites@) {
            0
        } else if !disjoint_keys(other.animations@, self.animations@) {
            1
        } else if !disjoint_keys(other.fonts@, self.fonts@) {
            2
        } else if !disjoint_keys(other.sounds@, self.sounds@) {
            3
        } else if !disjoint_keys(other.tilemaps@, self.tilemaps@) {
            4
        } else if !disjoint_keys(other.particles@, self.particles@) {
            5
        } else if !disjoint_keys(other.shaders@, self.shaders@) {
            6
        } else {
            7
        }
    }

    /// Both manifests use `id` for the kind at position `kind` of that
    /// order.
    pub open spec fn shared_in(&self, other: &Self, kind: int, id: Seq<char>) -> bool {
        if kind == 0 {
            self.sprites@.dom().contains(id) && other.sprites@.dom().contains(id)
        } else if kind == 1 {
            self.animations@.dom().contains(id) && other.animations@.dom().contains(id)
        } else if kind == 2 {
            self.fonts@.dom().contains(id) && other.fonts@.dom().contains(id)
        } else if kind == 3 {
            self.sounds@.dom().contains(id) && other.sounds@.dom().contains(id)
        } else if kind == 4 {
            self.tilemaps@.dom().contains(id) && other.tilemaps@.dom().contains(id)
        } else if kind == 5 {
            self.particles@.dom().contains(id) && other.particles@.dom().contains(id)
        } else if kind == 6 {
            self.shaders@.dom().contains(id) && other.shaders@.dom().contains(id)
        } else {
            false
        }
    }

    /// An empty manifest.
    pub fn new() -> (r: Self)
        ensures
            r.wf(),
            r.sprites@ == Map::<Seq<char>, ResolvedSprite>::empty(),
            r.animations@ == Map::<Seq<char>, ResolvedAnimation>::empty(),
            r.fonts@ == Map::<Seq<char>, ResolvedFont>::empty(),
            r.sounds@ == Map::<Seq<char>, S>::empty(),
            r.tilemaps@ == Map::<Seq<char>, ResolvedTilemap>::empty(),
            r.particles@ == Map::<Seq<char>, ResolvedParticle>::empty(),
            r.shaders@ == Map::<Seq<char>, ResolvedShader>::empty(),
    {
        ResolvedManifest {
            sprites: NameMap::new(),
            animations: NameMap::new(),
            fonts: NameMap::new(),
            sounds: NameMap::new(),
            tilemaps: NameMap::new(),
            particles: NameMap::new(),
            shaders: NameMap::new(),
        }
    }

    /// Add the entries of `other`; an id that both use for the same kind of
    /// asset is an error naming it.
    pub fn merge(&mut self, other: Self) -> (r: Result<(), ManifestError>)
        requires
            old(self).wf(),
            other.wf(),
        ensures
            final(self).wf(),
            r is Ok <==> old(self).disjoint(&other),
            r is Ok ==> {
                &&& final(self).sprites@ == old(self).sprites@.union_prefer_right(other.sprites@)
                &&& final(self).animations@ == old(self).animations@.union_prefer_right(other.animations@)
                &&& final(self).fonts@ == old(self).fonts@.union_prefer_right(other.fonts@)
                &&& final(self).sounds@ == old(self).sounds@.union_prefer_right(other.sounds@)
                &&& final(self).tilemaps@ == old(self).tilemaps@.union_prefer_right(other.tilemaps@)
                &&& final(self).particles@ == old(self).particles@.union_prefer_right(other.particles@)
                &&& final(self).shaders@ == old(self).shaders@.union_prefer_right(other.shaders@)
            },
            r matches Err(e) ==> (e matches ManifestError::DuplicateId { id } && old(self).shared_id(&other, id@)),
            r matches Err(e) ==> (e matches ManifestError::DuplicateId { id }
                && old(self).shared_in(&other, old(self).first_clash(&other), id@)),
            merged_as(old(self).sprites@, final(self).sprites@, other.sprites@, 0, old(self).first_clash(&other)),
            merged_as(old(self).animations@, final(self).animations@, other.animations@, 1, old(self).first_clash(&other)),
            merged_as(old(self).fonts@, final(self).fonts@, other.fonts@, 2, old(self).first_clash(&other)),
            merged_as(old(self).sounds@, final(self).sounds@, other.sounds@, 3, old(self).first_clash(&other)),
            merged_as(old(self).tilemaps@, final(self).tilemaps@, other.tilemaps@, 4, old(self).first_clash(&other)),
            merged_as(old(self).particles@, final(self).particles@, other.particles@, 5, old(self).first_clash(&other)),
            merged_as(old(self).shaders@, final(self).shaders@, other.shaders@, 6, old(self).first_clash(&other)),
    {
        let ResolvedManifest { sprites, animations, fonts, sounds, tilemaps, particles, shaders } = other;
        if let Err(id) = merge_into(&mut self.sprites, sprites) {
            return Err(ManifestError::DuplicateId { id });
        }
        if let Err(id) = merge_into(&mut self.animations, animations) {
            return Err(ManifestError::DuplicateId { id });
        }
        if let Err(id) = merge_into(&mut self.fonts, fonts) {
            return Err(ManifestError::DuplicateId { id });
        }
        if let Err(id) = merge_into(&mut self.sounds, sounds) {
            return Err(ManifestError::DuplicateId { id });
        }
        if let Err(id) = merge_into(&mut self.tilemaps, tilemaps) {
            return Err(ManifestError::DuplicateId { id });
        }
        if let Err(id) = merge_into(&mut self.particles, particles) {
            return Err(ManifestError::DuplicateId { id });
        }
        if let Err(id) = merge_into(&mut self.shaders, shaders) {
            return Err(ManifestError::DuplicateId { id });
        }
        Ok(())
    }
}

/// The merged manifest, as a world resource.
#[derive(Debug, Clone)]
pub struct LoadedManifest<S>(pub ResolvedManifest<S>);

impl<S> LoadedManifest<S> {
    /// Wrap a merged manifest.
    pub fn new(manifest: ResolvedManifest<S>) -> (r: Self)
        ensures
            r.0 == manifest,
    {
        LoadedManifest(manifest)
    }

    /// The merged manifest.
    pub fn as_resolved(&self) -> (r: &ResolvedManifest<S>)
        ensures
            *r == self.0,
    {
        &self.0
    }
}

} // verus!
