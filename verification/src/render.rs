//! Render-world bookkeeping of photometric profiles: which texture each binding
//! array slot holds, the descriptor of each photometric light, and which views
//! a view's bind group binds.
use vstd::prelude::*;
use std::collections::HashMap;

verus! {

broadcast use vstd::std_specs::hash::group_hash_axioms;

/// What stands for the asset id of a profile texture: the bits of an index id,
/// or the value of a UUID id.
#[derive(Debug, Clone, Copy, PartialEq, Eq, Structural, Hash)]
pub enum TextureKey {
    Index(u64),
    Uuid(u128),
}

/// The first position of `key` in `s`, if any.
pub open spec fn first_position(s: Seq<TextureKey>, key: TextureKey) -> Option<int>
    decreases s.len(),
{
    if s.len() == 0 {
        None
    } else {
        match first_position(s.drop_last(), key) {
            Some(i) => Some(i),
            None => if s.last() == key {
                Some(s.len() - 1)
            } else {
                None
            },
        }
    }
}

/// Whether no texture occurs twice in `s`.
pub open spec fn no_duplicates(s: Seq<TextureKey>) -> bool {
    forall|i: int, j: int| 0 <= i < j < s.len() ==> s[i] != s[j]
}

/// Render-world photometric profile data for the lights of a scene, with
/// descriptors of type `D` (a packed matrix on the GPU side).
pub struct RenderPhotometricProfiles<D> {
    /// Binding array index → texture.
    pub binding_index_to_textures: Vec<TextureKey>,
    /// Descriptor of each photometric light, by descriptor index.
    pub descriptors: Vec<D>,
    /// Main-world entity (its bits) → descriptor index.
    pub entity_to_descriptor_index: HashMap<u64, u32>,
}

impl<D> Default for RenderPhotometricProfiles<D> {
    /// No textures, descriptors or entities.
    fn default() -> (r: Self)
        ensures
            r.binding_index_to_textures@ == Seq::<TextureKey>::empty(),
            r.descriptors@ == Seq::<D>::empty(),
            r.entity_to_descriptor_index@ == Map::<u64, u32>::empty(),
    {
        RenderPhotometricProfiles {
            binding_index_to_textures: Vec::new(),
            descriptors: Vec::new(),
            entity_to_descriptor_index: HashMap::new(),
        }
    }
}

impl<D> RenderPhotometricProfiles<D> {
    /// Forgets all textures, descriptors and entities.
    pub fn clear(&mut self)
        ensures
            final(self).binding_index_to_textures@ == Seq::<TextureKey>::empty(),
            final(self).descriptors@ == Seq::<D>::empty(),
            final(self).entity_to_descriptor_index@ == Map::<u64, u32>::empty(),
    {
        self.binding_index_to_textures.clear();
        self.descriptors.clear();
        self.entity_to_descriptor_index.clear();
    }

    /// The binding array index of texture `image_id`: where it is already bound,
    /// its (first) index; otherwise it is bound at a new index after the others.
    pub fn get_or_insert_image(&mut self, image_id: TextureKey) -> (r: u32)
        ensures
            final(self).descriptors@ == old(self).descriptors@,
            final(self).entity_to_descriptor_index@ == old(self).entity_to_descriptor_index@,
            match first_position(old(self).binding_index_to_textures@, image_id) {
                Some(i) => r == i as u32 && final(self).binding_index_to_textures@ == old(self).binding_index_to_textures@,
                None => r == old(self).binding_index_to_textures@.len() as u32 && final(self).binding_index_to_textures@ == old(self).binding_index_to_textures@.push(image_id),
            },
    {
        let n = self.binding_index_to_textures.len();
        let ghost s = self.binding_index_to_textures@;
        let mut i: usize = 0;
        while i < n
            invariant
                n == s.len(),
                s == self.binding_index_to_textures@,
                i <= n,
                first_position(s.take(i as int), image_id) is None,
            decreases n - i,
        {
            assert(s.take(i + 1).drop_last() =~= s.take(i as int));
            if self.binding_index_to_textures[i] == image_id {
                proof {
                    lemma_first_position_prefix(s, i + 1);
                }
                return i as u32;
            }
            i += 1;
        }
        assert(s.take(n as int) =~= s);
        self.binding_index_to_textures.push(image_id);
        n as u32
    }

    /// Adds the descriptor of a light, built by `pack` from the binding index of its
    /// texture, and returns the descriptor's index.
    pub fn insert_raw<F: FnOnce(u32) -> D>(&mut self, image_id: TextureKey, pack: F) -> (r: u32)
        requires
            forall|t: u32| pack.requires((t,)),
        ensures
            r == old(self).descriptors@.len() as u32,
            final(self).entity_to_descriptor_index@ == old(self).entity_to_descriptor_index@,
            final(self).descriptors@.len() == old(self).descriptors@.len() + 1,
            final(self).descriptors@.drop_last() == old(self).descriptors@,
            match first_position(old(self).binding_index_to_textures@, image_id) {
                Some(i) => final(self).binding_index_to_textures@ == old(self).binding_index_to_textures@ && pack.ensures(
                    (i as u32,),
                    final(self).descriptors@.last(),
                ),
                None => final(self).binding_index_to_textures@ == old(self).binding_index_to_textures@.push(image_id) && pack.ensures(
                    (old(self).binding_index_to_textures@.len() as u32,),
                    final(self).descriptors@.last(),
                ),
            },
    {
        let texture_index = self.get_or_insert_image(image_id);
        let descriptor = pack(texture_index);
        let index = self.descriptors.len() as u32;
        let ghost before = self.descriptors@;
        self.descriptors.push(descriptor);
        assert(self.descriptors@.drop_last() =~= before);
        index
    }

    /// Adds the descriptor of light `main_entity` (its bits), as `insert_raw` does,
    /// and records the entity's descriptor index.
    pub fn insert<F: FnOnce(u32) -> D>(&mut self, main_entity: u64, image_id: TextureKey, pack: F)
        requires
            forall|t: u32| pack.requires((t,)),
        ensures
            final(self).entity_to_descriptor_index@ == old(self).entity_to_descriptor_index@.insert(
                main_entity,
                old(self).descriptors@.len() as u32,
            ),
            final(self).descriptors@.len() == old(self).descriptors@.len() + 1,
            final(self).descriptors@.drop_last() == old(self).descriptors@,
            match first_position(old(self).binding_index_to_textures@, image_id) {
                Some(i) => final(self).binding_index_to_textures@ == old(self).binding_index_to_textures@ && pack.ensures(
                    (i as u32,),
                    final(self).descriptors@.last(),
                ),
                None => final(self).binding_index_to_textures@ == old(self).binding_index_to_textures@.push(image_id) && pack.ensures(
                    (old(self).binding_index_to_textures@.len() as u32,),
                    final(self).descriptors@.last(),
                ),
            },
    {
        let index = self.descriptors.len() as u32;
        self.insert_raw(image_id, pack);
        self.entity_to_descriptor_index.insert(main_entity, index);
    }
}

/// Where `key` is not among the first `k` textures but is the `k`-th, its first
/// position is `k`, in `s` as in any longer prefix.
proof fn lemma_first_position_prefix(s: Seq<TextureKey>, k: int)
    requires
        0 < k <= s.len(),
        first_position(s.take(k - 1), s[k - 1]) is None,
    ensures
        first_position(s, s[k - 1]) == Some(k - 1),
    decreases s.len() - k,
{
    assert(s.take(k).drop_last() =~= s.take(k - 1));
    if k == s.len() {
        assert(s.take(k) =~= s);
    } else {
        lemma_first_position_prefix_step(s, k, s[k - 1], k - 1);
    }
}

/// Extending a prefix keeps a first position found in it.
proof fn lemma_first_position_prefix_step(s: Seq<TextureKey>, k: int, key: TextureKey, p: int)
    requires
        0 < k <= s.len(),
        first_position(s.take(k), key) == Some(p),
    ensures
        first_position(s, key) == Some(p),
    decreases s.len() - k,
{
    if k == s.len() {
        assert(s.take(k) =~= s);
    } else {
        assert(s.take(k + 1).drop_last() =~= s.take(k));
        lemma_first_position_prefix_step(s, k + 1, key, p);
    }
}


/// The textures bound after getting or inserting `key`, and the index it is bound at.
pub open spec fn bind_texture(s: Seq<TextureKey>, key: TextureKey) -> (Seq<TextureKey>, int) {
    match first_position(s, key) {
        Some(i) => (s, i),
        None => (s.push(key), s.len() as int),
    }
}

/// A first position holds the key, and nothing before it does.
pub proof fn lemma_first_position_is_first(s: Seq<TextureKey>, key: TextureKey)
    ensures
        match first_position(s, key) {
            Some(i) => 0 <= i < s.len() && s[i] == key && forall|j: int|
                0 <= j < i ==> s[j] != key,
            None => forall|j: int| 0 <= j < s.len() ==> s[j] != key,
        },
    decreases s.len(),
{
    if s.len() > 0 {
        let p = s.drop_last();
        lemma_first_position_is_first(p, key);
        assert forall|j: int| 0 <= j < p.len() implies #[trigger] p[j] == s[j] by {}
        match first_position(p, key) {
            Some(i) => {
                assert(first_position(s, key) == Some(i));
                assert(s[i] == key);
                assert forall|j: int| 0 <= j < i implies s[j] != key by {
                    assert(p[j] == s[j]);
                }
            },
            None => {
                assert forall|j: int| 0 <= j < p.len() implies s[j] != key by {
                    assert(p[j] == s[j]);
                }
                if s.last() == key {
                    assert(first_position(s, key) == Some(s.len() - 1));
                } else {
                    assert(first_position(s, key) is None);
                    assert(forall|j: int| 0 <= j < s.len() ==> s[j] != key);
                }
            },
        }
    }
}

/// A texture bound at `i` (with nothing equal before it) has first position `i`.
pub proof fn lemma_first_position_at(s: Seq<TextureKey>, key: TextureKey, i: int)
    requires
        0 <= i < s.len(),
        s[i] == key,
        forall|j: int| 0 <= j < i ==> s[j] != key,
    ensures
        first_position(s, key) == Some(i),
{
    lemma_first_position_is_first(s, key);
}

/// Getting or inserting a texture binds it once: a second call with the same
/// texture gives the same index and changes nothing, and no texture is bound twice
/// where none was before.
pub proof fn lemma_bind_texture_once(s: Seq<TextureKey>, key: TextureKey)
    ensures
        ({
            let (s1, i) = bind_texture(s, key);
            &&& 0 <= i < s1.len()
            &&& s1[i] == key
            &&& bind_texture(s1, key) == (s1, i)
            &&& no_duplicates(s) ==> no_duplicates(s1)
        }),
{
    lemma_first_position_is_first(s, key);
    let (s1, i) = bind_texture(s, key);
    match first_position(s, key) {
        Some(_) => {},
        None => {
            assert forall|j: int| 0 <= j < i implies s1[j] != key by {
                assert(s1[j] == s[j]);
            }
            lemma_first_position_at(s1, key, i);
        },
    }
}

/// The number of texture slots of the photometric binding array: 256 where the
/// device binds partially filled arrays, 8 otherwise.
pub fn max_photometric_textures(partially_bound: bool) -> (r: u32)
    ensures
        r == if partially_bound {
            256u32
        } else {
            8u32
        },
{
    if partially_bound {
        256
    } else {
        8
    }
}

/// The view bound at each slot of a view's photometric binding array, where
/// `available[i]` says whether texture `i` has been uploaded: `Some(i)` for
/// texture `i`'s view, `None` for the fallback image's. Without partially bound
/// arrays the fallback pads the array to its full size; with them, an empty
/// array gets one fallback view.
pub fn texture_view_slots(available: &[bool], partially_bound: bool) -> (r: Vec<Option<usize>>)
    ensures
        r@.len() == if !partially_bound {
            if available@.len() < 8 {
                8
            } else {
                available@.len() as int
            }
        } else if available@.len() == 0 {
            1
        } else {
            available@.len() as int
        },
        forall|i: int|
            0 <= i < available@.len() ==> #[trigger] r@[i] == if available@[i] {
                Some(i as usize)
            } else {
                None
            },
        forall|i: int| available@.len() <= i < r@.len() ==> #[trigger] r@[i] is None,
{
    let n = available.len();
    let mut views: Vec<Option<usize>> = Vec::new();
    for i in 0..n
        invariant
            n == available@.len(),
            views@.len() == i,
            forall|j: int|
                0 <= j < i ==> #[trigger] views@[j] == if available@[j] {
                    Some(j as usize)
                } else {
                    None
                },
    {
        if available[i] {
            views.push(Some(i));
        } else {
            views.push(None);
        }
    }
    if !partially_bound {
        let max_textures = max_photometric_textures(partially_bound) as usize;
        while views.len() < max_textures
            invariant
                max_textures == 8,
                n <= views@.len(),
                views@.len() <= if n < 8 {
                    8
                } else {
                    n
                },
                forall|j: int|
                    0 <= j < n ==> #[trigger] views@[j] == if available@[j] {
                        Some(j as usize)
                    } else {
                        None
                    },
                forall|j: int| n <= j < views@.len() ==> #[trigger] views@[j] is None,
            decreases max_textures - views@.len(),
        {
            views.push(None);
        }
    } else if views.len() == 0 {
        views.push(None);
    }
    views
}

/// The texture whose sampler a view's bind group uses: the first uploaded one,
/// or `None` for the fallback image's sampler.
pub fn sampler_texture(available: &[bool]) -> (r: Option<usize>)
    ensures
        match r {
            Some(i) => i < available@.len() && available@[i as int] && forall|j: int|
                0 <= j < i ==> !available@[j],
            None => forall|j: int| 0 <= j < available@.len() ==> !available@[j],
        },
{
    let n = available.len();
    for i in 0..n
        invariant
            n == available@.len(),
            forall|j: int| 0 <= j < i ==> !available@[j],
    {
        if available[i] {
            return Some(i);
        }
    }
    None
}

} // verus!
