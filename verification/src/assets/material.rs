//! Material ids: one dense id per manifest material name for the session,
//! with the material's source path, shader name and uniform defaults.

use vstd::prelude::*;

use crate::assets::shader::{ShaderAssetId, ShaderRegistry};

verus! {

/// Dense material handle.
#[derive(Debug, Clone, Copy, PartialEq, Eq, Hash, Structural)]
pub struct MaterialAssetId(pub u32);

/// Material ids by manifest name, with each id's name, path, shader name
/// and uniform defaults `D`.
#[derive(Debug, Clone)]
pub struct MaterialRegistry<D> {
    ids: ShaderRegistry,
    shader_names: Vec<String>,
    defaults: Vec<D>,
}

impl<D: Copy> MaterialRegistry<D> {
    /// The id of each manifest name.
    pub closed spec fn spec_ids(&self) -> Map<Seq<char>, u32> {
        self.ids.spec_ids().map_values(|a: ShaderAssetId| a.0)
    }

    /// The name of each id, by index.
    pub closed spec fn spec_names(&self) -> Seq<Seq<char>> {
        self.ids.spec_names()
    }

    /// The path of each id, by index.
    pub closed spec fn spec_paths(&self) -> Seq<Seq<char>> {
        self.ids.spec_paths()
    }

    /// The id each path was last allocated with.
    pub closed spec fn spec_reverse(&self) -> Map<Seq<char>, u32> {
        self.ids.spec_reverse().map_values(|a: ShaderAssetId| a.0)
    }

    /// The shader name of each id, by index.
    pub closed spec fn spec_shader_names(&self) -> Seq<Seq<char>> {
        self.shader_names@.map_values(|s: String| s@)
    }

    /// The uniform defaults of each id, by index.
    pub closed spec fn spec_defaults(&self) -> Seq<D> {
        self.defaults@
    }

    /// One shader name and one set of defaults per id.
    pub closed spec fn wf(&self) -> bool {
        &&& self.ids.wf()
        &&& self.shader_names@.len() == self.ids.spec_names().len()
        &&& self.defaults@.len() == self.ids.spec_names().len()
    }

    /// An empty registry.
    pub fn new() -> (r: Self)
        ensures
            r.wf(),
            r.spec_ids() == Map::<Seq<char>, u32>::empty(),
            r.spec_names() == Seq::<Seq<char>>::empty(),
    {
        let r = MaterialRegistry { ids: ShaderRegistry::new(), shader_names: Vec::new(), defaults: Vec::new() };
        assert(r.spec_ids() =~= Map::<Seq<char>, u32>::empty());
        r
    }

    /// The id for material `id` from `path`: the existing id when the name is
    /// known (its path, shader name and defaults replaced, the reverse
    /// lookup moved to the new path), otherwise the next id.
    pub fn allocate(&mut self, id: &str, path: String, shader_name: String, defaults: D) -> (r: MaterialAssetId)
        requires
            old(self).wf(),
            old(self).spec_ids().dom().contains(id@) || old(self).spec_names().len() < u32::MAX,
        ensures
            final(self).wf(),
            old(self).spec_ids().dom().contains(id@) ==> {
                let old_path = old(self).spec_paths()[r.0 as int];
                &&& r.0 == old(self).spec_ids()[id@]
                &&& final(self).spec_ids() == old(self).spec_ids()
                &&& final(self).spec_names() == old(self).spec_names()
                &&& final(self).spec_paths() == old(self).spec_paths().update(r.0 as int, path@)
                &&& final(self).spec_shader_names() == old(self).spec_shader_names().update(r.0 as int, shader_name@)
                &&& final(self).spec_defaults() == old(self).spec_defaults().update(r.0 as int, defaults)
                &&& final(self).spec_reverse() == (if old_path != path@ {
                    old(self).spec_reverse().remove(old_path)
                } else {
                    old(self).spec_reverse()
                }).insert(path@, r.0)
            },
            !old(self).spec_ids().dom().contains(id@) ==> {
                &&& r.0 == old(self).spec_names().len()
                &&& final(self).spec_ids() == old(self).spec_ids().insert(id@, r.0)
                &&& final(self).spec_names() == old(self).spec_names().push(id@)
                &&& final(self).spec_paths() == old(self).spec_paths().push(path@)
                &&& final(self).spec_shader_names() == old(self).spec_shader_names().push(shader_name@)
                &&& final(self).spec_defaults() == old(self).spec_defaults().push(defaults)
                &&& final(self).spec_reverse() == old(self).spec_reverse().insert(path@, r.0)
            },
    {
        let existed = self.ids.get(id).is_some();
        let ghost p = path@;
        let ghost sn = shader_name@;
        let a = self.ids.allocate(id, path);
        if existed {
            proof {
                old(self).ids.lemma_dense();
                assert(old(self).ids.spec_ids().dom().contains(id@));
            }
            assert((a.0 as int) < self.shader_names@.len());
            self.shader_names.set(a.0 as usize, shader_name);
            self.defaults.set(a.0 as usize, defaults);
            proof {
                assert(self.spec_shader_names() =~= old(self).spec_shader_names().update(a.0 as int, sn));
                assert(self.spec_ids() =~= old(self).spec_ids());
                assert(self.spec_reverse() =~= (if old(self).spec_paths()[a.0 as int] != p {
                    old(self).spec_reverse().remove(old(self).spec_paths()[a.0 as int])
                } else {
                    old(self).spec_reverse()
                }).insert(p, a.0));
            }
        } else {
            self.shader_names.push(shader_name);
            self.defaults.push(defaults);
            proof {
                assert(self.spec_shader_names() =~= old(self).spec_shader_names().push(sn));
                assert(self.spec_ids() =~= old(self).spec_ids().insert(id@, a.0));
                assert(self.spec_reverse() =~= old(self).spec_reverse().insert(p, a.0));
            }
        }
        MaterialAssetId(a.0)
    }

    /// The id of material `id`.
    pub fn get(&self, id: &str) -> (r: Option<MaterialAssetId>)
        requires
            self.wf(),
        ensures
            match r {
                Some(a) => self.spec_ids().dom().contains(id@) && self.spec_ids()[id@] == a.0,
                None => !self.spec_ids().dom().contains(id@),
            },
    {
        match self.ids.get(id) {
            Some(a) => Some(MaterialAssetId(a.0)),
            None => None,
        }
    }

    /// The id last allocated with `path`.
    pub fn id_for_path(&self, path: &str) -> (r: Option<MaterialAssetId>)
        requires
            self.wf(),
        ensures
            match r {
                Some(a) => self.spec_reverse().dom().contains(path@) && self.spec_reverse()[path@] == a.0,
                None => !self.spec_reverse().dom().contains(path@),
            },
    {
        match self.ids.id_for_path(path) {
            Some(a) => Some(MaterialAssetId(a.0)),
            None => None,
        }
    }

    /// The manifest name of `id`.
    pub fn name_for_id(&self, id: MaterialAssetId) -> (r: Option<&str>)
        requires
            self.wf(),
        ensures
            match r {
                Some(n) => id.0 < self.spec_names().len() && self.spec_names()[id.0 as int] == n@,
                None => id.0 >= self.spec_names().len(),
            },
    {
        self.ids.name_for_id(ShaderAssetId(id.0))
    }

    /// The source path of `id`.
    pub fn path_for_id(&self, id: MaterialAssetId) -> (r: Option<&str>)
        requires
            self.wf(),
        ensures
            match r {
                Some(p) => id.0 < self.spec_paths().len() && self.spec_paths()[id.0 as int] == p@,
                None => id.0 >= self.spec_paths().len(),
            },
    {
        self.ids.path_for_id(ShaderAssetId(id.0))
    }

    /// The shader name of `id`.
    pub fn shader_name_for_id(&self, id: MaterialAssetId) -> (r: Option<&str>)
        requires
            self.wf(),
        ensures
            match r {
                Some(n) => id.0 < self.spec_shader_names().len() && self.spec_shader_names()[id.0 as int] == n@,
                None => id.0 >= self.spec_shader_names().len(),
            },
    {
        if (id.0 as usize) < self.shader_names.len() {
            Some(self.shader_names[id.0 as usize].as_str())
        } else {
            None
        }
    }

    /// The uniform defaults of `id`.
    pub fn defaults_for_id(&self, id: MaterialAssetId) -> (r: Option<D>)
        requires
            self.wf(),
        ensures
            match r {
                Some(d) => id.0 < self.spec_defaults().len() && self.spec_defaults()[id.0 as int] == d,
                None => id.0 >= self.spec_defaults().len(),
            },
    {
        if (id.0 as usize) < self.defaults.len() {
            Some(self.defaults[id.0 as usize])
        } else {
            None
        }
    }
}

} // verus!
