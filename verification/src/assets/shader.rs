//! Shader asset ids: one dense id per manifest name for the session, with
//! the shader's source path and the reverse lookup from path to id.

use vstd::prelude::*;

use crate::assets::name_map::NameMap;
use crate::text::str_eq;

verus! {

/// Dense shader handle, minted by `ShaderRegistry::allocate`.
#[derive(Debug, Clone, Copy, PartialEq, Eq, Hash, Structural)]
pub struct ShaderAssetId(pub u32);

/// Shader ids by manifest name, with each id's name and path.
#[derive(Debug, Clone)]
pub struct ShaderRegistry {
    ids: NameMap<ShaderAssetId>,
    names: Vec<String>,
    paths: Vec<String>,
    reverse: NameMap<ShaderAssetId>,
}

impl ShaderRegistry {
    /// The id of each manifest name.
    pub closed spec fn spec_ids(&self) -> Map<Seq<char>, ShaderAssetId> {
        self.ids@
    }

    /// The name of each id, by index.
    pub closed spec fn spec_names(&self) -> Seq<Seq<char>> {
        self.names@.map_values(|s: String| s@)
    }

    /// The path of each id, by index.
    pub closed spec fn spec_paths(&self) -> Seq<Seq<char>> {
        self.paths@.map_values(|s: String| s@)
    }

    /// The id each path was last allocated with.
    pub closed spec fn spec_reverse(&self) -> Map<Seq<char>, ShaderAssetId> {
        self.reverse@
    }

    /// The names in allocation order.
    pub closed spec fn spec_name_order(&self) -> Seq<Seq<char>> {
        self.ids.key_seq()
    }

    /// Ids are `0..n` for the `n` names, each name with its own id.
    pub closed spec fn wf(&self) -> bool {
        &&& self.ids.wf()
        &&& self.reverse.wf()
        &&& self.names@.len() == self.paths@.len()
        &&& self.names@.len() <= u32::MAX
        &&& forall|i: int| 0 <= i < self.names@.len() ==> #[trigger] self.ids@.dom().contains(self.names@[i]@)
            && self.ids@[self.names@[i]@] == ShaderAssetId(i as u32)
        &&& forall|k: Seq<char>| #[trigger] self.ids@.dom().contains(k) ==> self.ids@[k].0 < self.names@.len()
            && self.names@[self.ids@[k].0 as int]@ == k
    }

    /// Every id is the index of its name.
    pub proof fn lemma_dense(&self)
        requires
            self.wf(),
        ensures
            forall|k: Seq<char>| #[trigger] self.spec_ids().dom().contains(k) ==> self.spec_ids()[k].0 < self.spec_names().len()
                && self.spec_names()[self.spec_ids()[k].0 as int] == k,
            self.spec_paths().len() == self.spec_names().len(),
    {
    }

    /// An empty registry.
    pub fn new() -> (r: Self)
        ensures
            r.wf(),
            r.spec_ids() == Map::<Seq<char>, ShaderAssetId>::empty(),
            r.spec_names() == Seq::<Seq<char>>::empty(),
            r.spec_paths() == Seq::<Seq<char>>::empty(),
            r.spec_reverse() == Map::<Seq<char>, ShaderAssetId>::empty(),
    {
        let r = ShaderRegistry { ids: NameMap::new(), names: Vec::new(), paths: Vec::new(), reverse: NameMap::new() };
        assert(r.spec_names() =~= Seq::<Seq<char>>::empty());
        assert(r.spec_paths() =~= Seq::<Seq<char>>::empty());
        r
    }

    /// The id for manifest name `id` at `path`: the existing id when the name
    /// is known, its path updated and the reverse lookup moved to the new
    /// path; otherwise the next id.
    pub fn allocate(&mut self, id: &str, path: String) -> (r: ShaderAssetId)
        requires
            old(self).wf(),
            old(self).spec_ids().dom().contains(id@) || old(self).spec_names().len() < u32::MAX,
        ensures
            final(self).wf(),
            old(self).spec_ids().dom().contains(id@) ==> {
                let old_path = old(self).spec_paths()[r.0 as int];
                &&& r == old(self).spec_ids()[id@]
                &&& final(self).spec_ids() == old(self).spec_ids()
                &&& final(self).spec_names() == old(self).spec_names()
                &&& final(self).spec_paths() == old(self).spec_paths().update(r.0 as int, path@)
                &&& final(self).spec_reverse() == (if old_path != path@ {
                    old(self).spec_reverse().remove(old_path)
                } else {
                    old(self).spec_reverse()
                }).insert(path@, r)
            },
            !old(self).spec_ids().dom().contains(id@) ==> {
                &&& r == ShaderAssetId(old(self).spec_names().len() as u32)
                &&& final(self).spec_ids() == old(self).spec_ids().insert(id@, r)
                &&& final(self).spec_names() == old(self).spec_names().push(id@)
                &&& final(self).spec_paths() == old(self).spec_paths().push(path@)
                &&& final(self).spec_reverse() == old(self).spec_reverse().insert(path@, r)
            },
    {
        match self.ids.get(id) {
            Some(existing) => {
                let existing = *existing;
                let idx = existing.0 as usize;
                let ghost old_path = self.paths@[idx as int]@;
                if !str_eq(self.paths[idx].as_str(), path.as_str()) {
                    self.reverse.remove(self.paths[idx].as_str());
                }
                let p2 = path.clone();
                self.paths.set(idx, p2);
                self.reverse.insert(path, existing);
                proof {
                    assert(self.spec_paths() =~= old(self).spec_paths().update(idx as int, old(self).spec_paths()[idx as int]).update(idx as int, self.paths@[idx as int]@));
                    assert(self.spec_paths() =~= old(self).spec_paths().update(idx as int, self.paths@[idx as int]@));
                }
                existing
            },
            None => {
                let asset = ShaderAssetId(self.names.len() as u32);
                let ghost n = self.names@.len();
                self.ids.insert(id.to_owned(), asset);
                self.names.push(id.to_owned());
                let p2 = path.clone();
                self.paths.push(p2);
                self.reverse.insert(path, asset);
                proof {
                    assert(self.spec_names() =~= old(self).spec_names().push(id@));
                    assert(self.spec_paths() =~= old(self).spec_paths().push(self.paths@[n as int]@));
                    assert forall|i: int| 0 <= i < self.names@.len() implies #[trigger] self.ids@.dom().contains(self.names@[i]@)
                        && self.ids@[self.names@[i]@] == ShaderAssetId(i as u32) by {
                        if i < n {
                            assert(self.names@[i] == old(self).names@[i]);
                            assert(old(self).ids@.dom().contains(old(self).names@[i]@));
                        }
                    }
                    assert forall|k: Seq<char>| #[trigger] self.ids@.dom().contains(k) implies self.ids@[k].0 < self.names@.len()
                        && self.names@[self.ids@[k].0 as int]@ == k by {
                        if k != id@ {
                            assert(old(self).ids@.dom().contains(k));
                        }
                    }
                }
                asset
            },
        }
    }

    /// The id of manifest name `id`.
    pub fn get(&self, id: &str) -> (r: Option<ShaderAssetId>)
        requires
            self.wf(),
        ensures
            match r {
                Some(a) => self.spec_ids().dom().contains(id@) && self.spec_ids()[id@] == a,
                None => !self.spec_ids().dom().contains(id@),
            },
    {
        match self.ids.get(id) {
            Some(a) => Some(*a),
            None => None,
        }
    }

    /// The id last allocated with `path`.
    pub fn id_for_path(&self, path: &str) -> (r: Option<ShaderAssetId>)
        requires
            self.wf(),
        ensures
            match r {
                Some(a) => self.spec_reverse().dom().contains(path@) && self.spec_reverse()[path@] == a,
                None => !self.spec_reverse().dom().contains(path@),
            },
    {
        match self.reverse.get(path) {
            Some(a) => Some(*a),
            None => None,
        }
    }

    /// The manifest name of `id`.
    pub fn name_for_id(&self, id: ShaderAssetId) -> (r: Option<&str>)
        requires
            self.wf(),
        ensures
            match r {
                Some(n) => id.0 < self.spec_names().len() && self.spec_names()[id.0 as int] == n@,
                None => id.0 >= self.spec_names().len(),
            },
    {
        if (id.0 as usize) < self.names.len() {
            Some(self.names[id.0 as usize].as_str())
        } else {
            None
        }
    }

    /// The source path of `id`.
    pub fn path_for_id(&self, id: ShaderAssetId) -> (r: Option<&str>)
        requires
            self.wf(),
        ensures
            match r {
                Some(p) => id.0 < self.spec_paths().len() && self.spec_paths()[id.0 as int] == p@,
                None => id.0 >= self.spec_paths().len(),
            },
    {
        if (id.0 as usize) < self.paths.len() {
            Some(self.paths[id.0 as usize].as_str())
        } else {
            None
        }
    }

    /// Every `(name, id)`, in allocation order.
    pub fn iter(&self) -> (r: Vec<(&str, ShaderAssetId)>)
        requires
            self.wf(),
        ensures
            r@.len() == self.spec_name_order().len(),
            forall|i: int| 0 <= i < r@.len() ==> (#[trigger] r@[i]).0@ == self.spec_name_order()[i]
                && self.spec_ids()[self.spec_name_order()[i]] == r@[i].1,
    {
        let entries = self.ids.iter();
        let mut r: Vec<(&str, ShaderAssetId)> = Vec::new();
        let mut i: usize = 0;
        while i < entries.len()
            invariant
                i <= entries@.len(),
                r@.len() == i,
                forall|j: int| 0 <= j < i ==> (#[trigger] r@[j]).0 == entries@[j].0 && r@[j].1 == *entries@[j].1,
            decreases entries@.len() - i,
        {
            r.push((entries[i].0, *entries[i].1));
            i += 1;
        }
        r
    }
}

} // verus!
