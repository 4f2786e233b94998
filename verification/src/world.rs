//! The scene arena: an append-only, index-addressed store of instances,
//! materials and textures, together with the bounding-volume hierarchy
//! (BVH) that is built over the instance ids.
//!
//! The arena is the canonical scene representation: every cross-reference
//! is a small integer id into one of three flat lists, so the finished
//! `World` is immutable and trivially shareable across render threads.
//! The geometric and shading payloads (centers, radii, colors) are
//! floating-point data that the verified core treats as opaque; they enter
//! through the type parameters `B` (a bounding box), `S` (sphere geometry),
//! `M` (moving-sphere geometry), `Mt`/`Dl` (metal and dielectric material
//! data) and `C`/`N` (constant-color and gradient-noise texture data).
//!
//! Verified here: every stored id refers to an entry that was created
//! earlier (the arena is append-only and acyclic), and BVH construction
//! produces a tree whose leaves are exactly the non-empty instances it was
//! given, each exactly once.

use vstd::multiset::Multiset;
use vstd::prelude::*;

verus! {

broadcast use vstd::seq_lib::group_to_multiset_ensures, vstd::multiset::group_multiset_axioms;

/// Index into the arena's instance list.  Id 0 is the reserved sentinel
/// `Empty` instance, so an empty BVH branch always has a valid id.
#[derive(Clone, Copy, Debug, PartialEq, Eq, Structural)]
pub struct InstanceId {
    value: usize,
}

/// Index into the arena's material list.
#[derive(Clone, Copy, Debug, PartialEq, Eq, Structural)]
pub struct MaterialId {
    value: usize,
}

/// Index into the arena's texture list.
#[derive(Clone, Copy, Debug, PartialEq, Eq, Structural)]
pub struct TextureId {
    value: usize,
}

impl InstanceId {
    /// The list position this id denotes.
    pub closed spec fn idx(self) -> int {
        self.value as int
    }

    /// Reads the id as a list index.
    pub fn index(self) -> (i: usize)
        ensures
            i == self.idx(),
    {
        self.value
    }
}

impl MaterialId {
    /// The list position this id denotes.
    pub closed spec fn idx(self) -> int {
        self.value as int
    }

    /// Reads the id as a list index.
    pub fn index(self) -> (i: usize)
        ensures
            i == self.idx(),
    {
        self.value
    }
}

impl TextureId {
    /// The list position this id denotes.
    pub closed spec fn idx(self) -> int {
        self.value as int
    }

    /// Reads the id as a list index.
    pub fn index(self) -> (i: usize)
        ensures
            i == self.idx(),
    {
        self.value
    }
}

/// One geometric instance.  `B` is the bounding-box payload cached in BVH
/// nodes, `S` and `M` are the sphere and moving-sphere geometry payloads.
pub enum Instance<B, S, M> {
    Empty,
    BvhNode(B, InstanceId, InstanceId),
    FlipNormals(InstanceId),
    Sphere(S, MaterialId),
    MovingSphere(M, MaterialId),
}

/// One material.  `Mt` and `Dl` are the metal and dielectric payloads
/// (albedo and fuzz, refraction index); the other variants drive their
/// color through a texture id.
pub enum MaterialInstance<Mt, Dl> {
    Lambertian(TextureId),
    Metal(Mt),
    Dielectric(Dl),
    DiffuseLight(TextureId),
    Isotropic(TextureId),
}

/// One texture.  `C` is a constant-color payload and `N` a gradient-noise
/// payload; an image texture stores its decoded row-major RGB bytes
/// together with its pixel dimensions.
pub enum TextureInstance<C, N> {
    ConstantTexture(C),
    CheckerTexture(TextureId, TextureId),
    NoiseTexture(N),
    ImageTexture(Vec<u8>, usize, usize),
}

/// An instance stored at position `self_idx` only refers backwards: BVH
/// children and wrapped instances were appended earlier, and material ids
/// point into the first `n_materials` materials.
pub open spec fn instance_wf<B, S, M>(
    inst: Instance<B, S, M>,
    self_idx: int,
    n_materials: int,
) -> bool {
    match inst {
        Instance::Empty => true,
        Instance::BvhNode(_, left, right) => left.idx() < self_idx && right.idx() < self_idx,
        Instance::FlipNormals(inner) => inner.idx() < self_idx,
        Instance::Sphere(_, material) => material.idx() < n_materials,
        Instance::MovingSphere(_, material) => material.idx() < n_materials,
    }
}

/// A material only refers to textures that already exist.
pub open spec fn material_wf<Mt, Dl>(mat: MaterialInstance<Mt, Dl>, n_textures: int) -> bool {
    match mat {
        MaterialInstance::Lambertian(texture) => texture.idx() < n_textures,
        MaterialInstance::Metal(_) => true,
        MaterialInstance::Dielectric(_) => true,
        MaterialInstance::DiffuseLight(texture) => texture.idx() < n_textures,
        MaterialInstance::Isotropic(texture) => texture.idx() < n_textures,
    }
}

/// A texture stored at position `self_idx` only refers to textures created
/// earlier (so checker dispatch terminates), and an image texture holds
/// exactly three bytes per pixel of a non-degenerate bitmap.
pub open spec fn texture_wf<C, N>(tex: TextureInstance<C, N>, self_idx: int) -> bool {
    match tex {
        TextureInstance::ConstantTexture(_) => true,
        TextureInstance::CheckerTexture(odd, even) => odd.idx() < self_idx && even.idx()
            < self_idx,
        TextureInstance::NoiseTexture(_) => true,
        TextureInstance::ImageTexture(data, width, height) => 1 <= width && 1 <= height
            && data.len() == 3 * width * height,
    }
}

/// The arena-wide invariant: the sentinel `Empty` instance sits at id 0 and
/// every entry of every list is well-formed at its own position.
pub open spec fn arena_wf<B, S, M, Mt, Dl, C, N>(
    instances: Seq<Instance<B, S, M>>,
    materials: Seq<MaterialInstance<Mt, Dl>>,
    textures: Seq<TextureInstance<C, N>>,
) -> bool {
    &&& instances.len() >= 1
    &&& instances[0] is Empty
    &&& forall|i: int|
        0 <= i < instances.len() ==> instance_wf(#[trigger] instances[i], i, materials.len() as int)
    &&& forall|i: int|
        0 <= i < materials.len() ==> material_wf(#[trigger] materials[i], textures.len() as int)
    &&& forall|i: int| 0 <= i < textures.len() ==> texture_wf(#[trigger] textures[i], i)
}

/// Accumulates a scene: instances, materials and textures are appended one
/// at a time, each creation returning the fresh id of the new entry, until
/// `build` seals the arena under a BVH root.
pub struct WorldBuilder<B, S, M, Mt, Dl, C, N> {
    materials: Vec<MaterialInstance<Mt, Dl>>,
    textures: Vec<TextureInstance<C, N>>,
    object_instances: Vec<Instance<B, S, M>>,
}

/// The finished, immutable scene: the three arena lists and the id of the
/// BVH root from which every intersection query starts.
pub struct World<B, S, M, Mt, Dl, C, N> {
    bvh_root: InstanceId,
    materials: Vec<MaterialInstance<Mt, Dl>>,
    textures: Vec<TextureInstance<C, N>>,
    object_instances: Vec<Instance<B, S, M>>,
}

impl<B, S, M, Mt, Dl, C, N> WorldBuilder<B, S, M, Mt, Dl, C, N> {
    /// The instance list so far.
    pub closed spec fn instances_seq(self) -> Seq<Instance<B, S, M>> {
        self.object_instances@
    }

    /// The material list so far.
    pub closed spec fn materials_seq(self) -> Seq<MaterialInstance<Mt, Dl>> {
        self.materials@
    }

    /// The texture list so far.
    pub closed spec fn textures_seq(self) -> Seq<TextureInstance<C, N>> {
        self.textures@
    }

    /// The builder's invariant: see [`arena_wf`].
    pub open spec fn wf(self) -> bool {
        arena_wf(self.instances_seq(), self.materials_seq(), self.textures_seq())
    }

    /// Starts an empty scene holding only the sentinel `Empty` instance.
    pub fn create() -> (builder: Self)
        ensures
            builder.wf(),
            builder.instances_seq().len() == 1,
            builder.materials_seq().len() == 0,
            builder.textures_seq().len() == 0,
    {
        let mut object_instances: Vec<Instance<B, S, M>> = Vec::new();
        object_instances.push(Instance::Empty);
        WorldBuilder { materials: Vec::new(), textures: Vec::new(), object_instances }
    }

    /// Appends a material and returns its fresh id.
    pub fn create_material(&mut self, material: MaterialInstance<Mt, Dl>) -> (id: MaterialId)
        requires
            old(self).wf(),
            material_wf(material, old(self).textures_seq().len() as int),
        ensures
            final(self).wf(),
            id.idx() == old(self).materials_seq().len(),
            final(self).materials_seq() == old(self).materials_seq().push(material),
            final(self).instances_seq() == old(self).instances_seq(),
            final(self).textures_seq() == old(self).textures_seq(),
    {
        let id = MaterialId { value: self.materials.len() };
        self.materials.push(material);
        id
    }

    /// Appends a texture and returns its fresh id.
    pub fn create_texture(&mut self, texture: TextureInstance<C, N>) -> (id: TextureId)
        requires
            old(self).wf(),
            texture_wf(texture, old(self).textures_seq().len() as int),
        ensures
            final(self).wf(),
            id.idx() == old(self).textures_seq().len(),
            final(self).textures_seq() == old(self).textures_seq().push(texture),
            final(self).instances_seq() == old(self).instances_seq(),
            final(self).materials_seq() == old(self).materials_seq(),
    {
        let id = TextureId { value: self.textures.len() };
        self.textures.push(texture);
        id
    }

    /// Appends an instance and returns its fresh id.
    pub fn create_instance(&mut self, instance: Instance<B, S, M>) -> (id: InstanceId)
        requires
            old(self).wf(),
            instance_wf(
                instance,
                old(self).instances_seq().len() as int,
                old(self).materials_seq().len() as int,
            ),
        ensures
            final(self).wf(),
            id.idx() == old(self).instances_seq().len(),
            final(self).instances_seq() == old(self).instances_seq().push(instance),
            final(self).materials_seq() == old(self).materials_seq(),
            final(self).textures_seq() == old(self).textures_seq(),
    {
        let id = InstanceId { value: self.object_instances.len() };
        self.object_instances.push(instance);
        id
    }

    /// Read access to the instances created so far, so that callers can
    /// derive each instance's bounding box before [`Self::build`].
    pub fn instances(&self) -> (v: &Vec<Instance<B, S, M>>)
        ensures
            v@ == self.instances_seq(),
    {
        &self.object_instances
    }
}

impl<B, S, M, Mt, Dl, C, N> World<B, S, M, Mt, Dl, C, N> {
    /// The finished instance list, BVH nodes included.
    pub closed spec fn instances_seq(self) -> Seq<Instance<B, S, M>> {
        self.object_instances@
    }

    /// The finished material list.
    pub closed spec fn materials_seq(self) -> Seq<MaterialInstance<Mt, Dl>> {
        self.materials@
    }

    /// The finished texture list.
    pub closed spec fn textures_seq(self) -> Seq<TextureInstance<C, N>> {
        self.textures@
    }

    /// The id of the BVH root.
    pub closed spec fn root_spec(self) -> InstanceId {
        self.bvh_root
    }

    /// The world's invariant: the arena is well-formed and the BVH root is
    /// a valid id.
    pub open spec fn wf(self) -> bool {
        &&& arena_wf(self.instances_seq(), self.materials_seq(), self.textures_seq())
        &&& 0 <= self.root_spec().idx() < self.instances_seq().len()
    }

    /// The id of the BVH root, where every intersection query starts.
    pub fn bvh_root(&self) -> (id: InstanceId)
        ensures
            id == self.root_spec(),
    {
        self.bvh_root
    }

    /// Read access to the instance list.
    pub fn instances(&self) -> (v: &Vec<Instance<B, S, M>>)
        ensures
            v@ == self.instances_seq(),
    {
        &self.object_instances
    }

    /// Read access to the material list.
    pub fn materials(&self) -> (v: &Vec<MaterialInstance<Mt, Dl>>)
        ensures
            v@ == self.materials_seq(),
    {
        &self.materials
    }

    /// Read access to the texture list.
    pub fn textures(&self) -> (v: &Vec<TextureInstance<C, N>>)
        ensures
            v@ == self.textures_seq(),
    {
        &self.textures
    }

    /// Intersection query against the whole scene, recursing from the BVH
    /// root: see [`hit_scene`] for the traversal and the callbacks.  On a
    /// well-formed world the traversal needs no further precondition about
    /// the arena.
    pub fn hit<H, FL, FB, FC, FF>(
        &self,
        leaf_hit: FL,
        box_hit: FB,
        closer: FC,
        flip: FF,
    ) -> (result: Option<H>) where
        FL: Fn(usize) -> Option<H> + Copy,
        FB: Fn(usize) -> bool + Copy,
        FC: Fn(&H, &H) -> bool + Copy,
        FF: Fn(H) -> H + Copy,

        requires
            self.wf(),
            forall|id: usize| call_requires(leaf_hit, (id,)),
            forall|id: usize| call_requires(box_hit, (id,)),
            forall|x: &H, y: &H| call_requires(closer, (x, y)),
            forall|h: H| call_requires(flip, (h,)),
        ensures
            hit_outcome(
                self.instances_seq(),
                leaf_hit,
                box_hit,
                closer,
                flip,
                self.root_spec().idx(),
                result,
            ),
            self.instances_seq()[self.root_spec().idx()] is Empty ==> result is None,
            (self.instances_seq()[self.root_spec().idx()] is Sphere || self.instances_seq()[
                self.root_spec().idx()] is MovingSphere) ==> call_ensures(
                leaf_hit,
                ((self.root_spec().idx() as usize),),
                result,
            ),
            result matches Some(h) ==> hit_provenance(
                self.instances_seq(),
                leaf_hit,
                flip,
                self.root_spec().idx(),
                h,
            ),
    {
        proof {
            lemma_arena_links_backward(
                self.instances_seq(),
                self.materials_seq(),
                self.textures_seq(),
            );
        }
        let root = self.bvh_root.index();
        hit_scene(&self.object_instances, root, leaf_hit, box_hit, closer, flip)
    }
}

/// An instance only points downwards: a BVH node's children and a flipped
/// instance's wrapped instance were appended earlier, so traversal from
/// any id terminates.
pub open spec fn instance_links_backward<B, S, M>(inst: Instance<B, S, M>, self_idx: int) -> bool {
    match inst {
        Instance::BvhNode(_, left, right) => left.idx() < self_idx && right.idx() < self_idx,
        Instance::FlipNormals(inner) => inner.idx() < self_idx,
        _ => true,
    }
}

/// A well-formed arena only points downwards.
pub proof fn lemma_arena_links_backward<B, S, M, Mt, Dl, C, N>(
    instances: Seq<Instance<B, S, M>>,
    materials: Seq<MaterialInstance<Mt, Dl>>,
    textures: Seq<TextureInstance<C, N>>,
)
    requires
        arena_wf(instances, materials, textures),
    ensures
        forall|i: int|
            0 <= i < instances.len() ==> instance_links_backward(#[trigger] instances[i], i),
{
    assert forall|i: int|
        0 <= i < instances.len() implies instance_links_backward(#[trigger] instances[i], i) by {
        assert(instance_wf(instances[i], i, materials.len() as int));
    }
}

/// The instance at `id` lies in the subtree of `root`: it is `root`
/// itself, or reachable from it through BVH children and flipped
/// instances, which always point backwards in a well-formed arena.
pub open spec fn in_subtree<B, S, M>(instances: Seq<Instance<B, S, M>>, root: int, id: int) -> bool
    decreases root,
{
    if 0 <= root < instances.len() {
        root == id || (match instances[root] {
            Instance::BvhNode(_, left, right) => left.idx() < root && right.idx() < root && (
            in_subtree(instances, left.idx(), id) || in_subtree(instances, right.idx(), id)),
            Instance::FlipNormals(inner) => inner.idx() < root && in_subtree(
                instances,
                inner.idx(),
                id,
            ),
            _ => false,
        })
    } else {
        false
    }
}

/// One witness for [`hit_provenance`]: the instance at `id` is a sphere or
/// a moving sphere in the subtree of `root`, the leaf callback reported
/// `h0` for it, and `h` is `h0` after `k` applications of the flip
/// callback.
pub open spec fn provenance_witness<B, S, M, H, FL, FF>(
    instances: Seq<Instance<B, S, M>>,
    leaf_hit: FL,
    flip: FF,
    root: int,
    h: H,
    id: usize,
    h0: H,
    k: nat,
) -> bool where FL: Fn(usize) -> Option<H>, FF: Fn(H) -> H {
    &&& id < instances.len()
    &&& in_subtree(instances, root, id as int)
    &&& (instances[id as int] is Sphere || instances[id as int] is MovingSphere)
    &&& call_ensures(leaf_hit, (id,), Some(h0))
    &&& flip_chain(flip, h0, h, k)
}

/// `h` equals `h0` after exactly `k` applications of the flip callback.
pub open spec fn flip_chain<H, FF: Fn(H) -> H>(flip: FF, h0: H, h: H, k: nat) -> bool
    decreases k,
{
    if k == 0 {
        h == h0
    } else {
        exists|h1: H|
            flip_chain(flip, h0, h1, (k - 1) as nat) && #[trigger] call_ensures(flip, (h1,), h)
    }
}

/// The hit record `h` originates from the hit test of some sphere leaf in
/// the subtree of `root`, with its normal possibly flipped on the way up.
pub open spec fn hit_provenance<B, S, M, H, FL, FF>(
    instances: Seq<Instance<B, S, M>>,
    leaf_hit: FL,
    flip: FF,
    root: int,
    h: H,
) -> bool where FL: Fn(usize) -> Option<H>, FF: Fn(H) -> H {
    exists|id: usize, h0: H, k: nat|
        #[trigger] provenance_witness(instances, leaf_hit, flip, root, h, id, h0, k)
}

/// A provenance in a direct child's subtree is a provenance in the
/// parent's subtree.
proof fn lemma_provenance_widen<B, S, M, H, FL, FF>(
    instances: Seq<Instance<B, S, M>>,
    leaf_hit: FL,
    flip: FF,
    parent: int,
    child: int,
    h: H,
) where FL: Fn(usize) -> Option<H>, FF: Fn(H) -> H
    requires
        hit_provenance(instances, leaf_hit, flip, child, h),
        0 <= parent < instances.len(),
        (match instances[parent] {
            Instance::BvhNode(_, left, right) => left.idx() < parent && right.idx() < parent && (
            left.idx() == child || right.idx() == child),
            Instance::FlipNormals(inner) => inner.idx() < parent && inner.idx() == child,
            _ => false,
        }),
    ensures
        hit_provenance(instances, leaf_hit, flip, parent, h),
{
    let (id, h0, k): (usize, H, nat) = choose|id: usize, h0: H, k: nat|
        #[trigger] provenance_witness(instances, leaf_hit, flip, child, h, id, h0, k);
    assert(in_subtree(instances, parent, id as int));
    assert(provenance_witness(instances, leaf_hit, flip, parent, h, id, h0, k));
}

/// A record from the wrapped instance's subtree, passed once more through
/// the flip callback, is a record from the wrapper's subtree.
proof fn lemma_flip_lifts_provenance<B, S, M, H, FL, FF>(
    instances: Seq<Instance<B, S, M>>,
    leaf_hit: FL,
    flip: FF,
    root: int,
    h: H,
    h2: H,
) where FL: Fn(usize) -> Option<H>, FF: Fn(H) -> H
    requires
        0 <= root < instances.len(),
        (match instances[root] {
            Instance::FlipNormals(inner) => inner.idx() < root && hit_provenance(
                instances,
                leaf_hit,
                flip,
                inner.idx(),
                h,
            ),
            _ => false,
        }),
        call_ensures(flip, (h,), h2),
    ensures
        hit_provenance(instances, leaf_hit, flip, root, h2),
{
    match instances[root] {
        Instance::FlipNormals(inner) => {
            let (id, h0, k): (usize, H, nat) = choose|id: usize, h0: H, k: nat|
                #[trigger] provenance_witness(
                    instances,
                    leaf_hit,
                    flip,
                    inner.idx(),
                    h,
                    id,
                    h0,
                    k,
                );
            assert(flip_chain(flip, h0, h, k) && call_ensures(flip, (h,), h2));
            assert(flip_chain(flip, h0, h2, k + 1));
            assert(in_subtree(instances, root, id as int));
            assert(provenance_witness(instances, leaf_hit, flip, root, h2, id, h0, k + 1));
        },
        _ => {},
    }
}

/// How a flipped instance's result relates to its wrapped instance's
/// outcome: any record is passed through the flip callback exactly once,
/// and no record stays no record.
pub open spec fn flipped_outcome<H, FF: Fn(H) -> H>(
    flip: FF,
    inner_result: Option<H>,
    result: Option<H>,
) -> bool {
    match inner_result {
        None => result is None,
        Some(h) => exists|h2: H| #[trigger] call_ensures(flip, (h,), h2) && result == Some(h2),
    }
}

/// How a BVH node's result combines its children's outcomes: when both
/// children report a record, the one the `closer` callback prefers is
/// kept; one record passes through unchanged; no records give none.
pub open spec fn combined_outcome<H, FC: Fn(&H, &H) -> bool>(
    closer: FC,
    left_result: Option<H>,
    right_result: Option<H>,
    result: Option<H>,
) -> bool {
    match (left_result, right_result) {
        (Some(left_hit), Some(right_hit)) => exists|choice: bool|
            #[trigger] call_ensures(closer, (&left_hit, &right_hit), choice) && result == (
            if choice {
                Some(left_hit)
            } else {
                Some(right_hit)
            }),
        (Some(left_hit), None) => result == Some(left_hit),
        (None, Some(right_hit)) => result == Some(right_hit),
        (None, None) => result is None,
    }
}

/// The exact shape of the traversal's answer at `root`, relative to what
/// the callbacks answered: an `Empty` instance yields no hit; a sphere or
/// moving sphere yields exactly what `leaf_hit` answered for it; a
/// flipped instance yields its wrapped instance's outcome passed through
/// `flip` exactly once; a node whose cached box `box_hit` rejected yields
/// no hit without visiting its children, and an accepted node combines
/// both children's outcomes as `closer` directs.  On a malformed arena
/// whose links do not point backwards nothing is claimed.
pub open spec fn hit_outcome<B, S, M, H, FL, FB, FC, FF>(
    instances: Seq<Instance<B, S, M>>,
    leaf_hit: FL,
    box_hit: FB,
    closer: FC,
    flip: FF,
    root: int,
    result: Option<H>,
) -> bool where
    FL: Fn(usize) -> Option<H>,
    FB: Fn(usize) -> bool,
    FC: Fn(&H, &H) -> bool,
    FF: Fn(H) -> H,
    decreases root,
{
    if 0 <= root < instances.len() {
        match instances[root] {
            Instance::Empty => result is None,
            Instance::Sphere(_, _) => call_ensures(leaf_hit, ((root as usize),), result),
            Instance::MovingSphere(_, _) => call_ensures(leaf_hit, ((root as usize),), result),
            Instance::FlipNormals(inner) => {
                if inner.idx() < root {
                    exists|inner_result: Option<H>|
                        hit_outcome(
                            instances,
                            leaf_hit,
                            box_hit,
                            closer,
                            flip,
                            inner.idx(),
                            inner_result,
                        ) && #[trigger] flipped_outcome(flip, inner_result, result)
                } else {
                    true
                }
            },
            Instance::BvhNode(_, left, right) => {
                if left.idx() < root && right.idx() < root {
                    exists|checked: bool|
                        #[trigger] call_ensures(box_hit, ((root as usize),), checked) && (
                        if checked {
                            exists|left_result: Option<H>, right_result: Option<H>|
                                hit_outcome(
                                    instances,
                                    leaf_hit,
                                    box_hit,
                                    closer,
                                    flip,
                                    left.idx(),
                                    left_result,
                                ) && hit_outcome(
                                    instances,
                                    leaf_hit,
                                    box_hit,
                                    closer,
                                    flip,
                                    right.idx(),
                                    right_result,
                                ) && #[trigger] combined_outcome(
                                    closer,
                                    left_result,
                                    right_result,
                                    result,
                                )
                        } else {
                            result is None
                        })
                } else {
                    true
                }
            },
        }
    } else {
        true
    }
}

/// Outcome introduction for a flipped instance: its wrapped instance's
/// outcome, passed through [`flipped_outcome`], is the wrapper's outcome.
proof fn lemma_flip_outcome<B, S, M, H, FL, FB, FC, FF>(
    instances: Seq<Instance<B, S, M>>,
    leaf_hit: FL,
    box_hit: FB,
    closer: FC,
    flip: FF,
    root: int,
    inner_result: Option<H>,
    result: Option<H>,
) where
    FL: Fn(usize) -> Option<H>,
    FB: Fn(usize) -> bool,
    FC: Fn(&H, &H) -> bool,
    FF: Fn(H) -> H,

    requires
        0 <= root < instances.len(),
        (match instances[root] {
            Instance::FlipNormals(inner) => inner.idx() < root && hit_outcome(
                instances,
                leaf_hit,
                box_hit,
                closer,
                flip,
                inner.idx(),
                inner_result,
            ),
            _ => false,
        }),
        flipped_outcome(flip, inner_result, result),
    ensures
        hit_outcome(instances, leaf_hit, box_hit, closer, flip, root, result),
{
}

/// Outcome introduction for a BVH node whose cached box was rejected: no
/// hit, without visiting the children.
proof fn lemma_node_pruned_outcome<B, S, M, H, FL, FB, FC, FF>(
    instances: Seq<Instance<B, S, M>>,
    leaf_hit: FL,
    box_hit: FB,
    closer: FC,
    flip: FF,
    root: int,
) where
    FL: Fn(usize) -> Option<H>,
    FB: Fn(usize) -> bool,
    FC: Fn(&H, &H) -> bool,
    FF: Fn(H) -> H,

    requires
        0 <= root < instances.len(),
        (match instances[root] {
            Instance::BvhNode(_, left, right) => left.idx() < root && right.idx() < root,
            _ => false,
        }),
        call_ensures(box_hit, ((root as usize),), false),
    ensures
        hit_outcome(instances, leaf_hit, box_hit, closer, flip, root, Option::<H>::None),
{
}

/// Outcome introduction for a BVH node whose cached box was accepted: both
/// children's outcomes, combined as [`combined_outcome`] directs.
proof fn lemma_node_outcome<B, S, M, H, FL, FB, FC, FF>(
    instances: Seq<Instance<B, S, M>>,
    leaf_hit: FL,
    box_hit: FB,
    closer: FC,
    flip: FF,
    root: int,
    left_result: Option<H>,
    right_result: Option<H>,
    result: Option<H>,
) where
    FL: Fn(usize) -> Option<H>,
    FB: Fn(usize) -> bool,
    FC: Fn(&H, &H) -> bool,
    FF: Fn(H) -> H,

    requires
        0 <= root < instances.len(),
        (match instances[root] {
            Instance::BvhNode(_, left, right) => left.idx() < root && right.idx() < root
                && hit_outcome(
                instances,
                leaf_hit,
                box_hit,
                closer,
                flip,
                left.idx(),
                left_result,
            ) && hit_outcome(
                instances,
                leaf_hit,
                box_hit,
                closer,
                flip,
                right.idx(),
                right_result,
            ),
            _ => false,
        }),
        call_ensures(box_hit, ((root as usize),), true),
        combined_outcome(closer, left_result, right_result, result),
    ensures
        hit_outcome(instances, leaf_hit, box_hit, closer, flip, root, result),
{
}

/// Intersects a ray with the scene by recursing from `root` through the
/// arena, exactly as the renderer's hit query does: an `Empty` instance
/// never hits; a sphere or moving sphere is handed to the caller's
/// `leaf_hit` callback (which solves the ray/sphere quadratic against the
/// caller's ray and interval); a `FlipNormals` instance queries the
/// wrapped instance and passes any record through `flip`; a BVH node is
/// pruned when `box_hit` rejects its cached box, and otherwise queries
/// both children unconditionally, keeping the record that `closer`
/// prefers (in the renderer: the smaller parametric distance) when both
/// report one.
///
/// The callbacks carry the floating-point geometry, so which record comes
/// back is their decision; whatever they answer, the traversal terminates
/// on every well-formed arena, its result stands in [`hit_outcome`]'s
/// per-variant relation to the callbacks' answers, and any returned
/// record originates from the hit test of some sphere leaf under `root`,
/// flipped once per `FlipNormals` wrapper on its path.
pub fn hit_scene<B, S, M, H, FL, FB, FC, FF>(
    instances: &Vec<Instance<B, S, M>>,
    root: usize,
    leaf_hit: FL,
    box_hit: FB,
    closer: FC,
    flip: FF,
) -> (result: Option<H>) where
    FL: Fn(usize) -> Option<H> + Copy,
    FB: Fn(usize) -> bool + Copy,
    FC: Fn(&H, &H) -> bool + Copy,
    FF: Fn(H) -> H + Copy,

    requires
        root < instances@.len(),
        forall|i: int|
            0 <= i < instances@.len() ==> instance_links_backward(#[trigger] instances@[i], i),
        forall|id: usize| call_requires(leaf_hit, (id,)),
        forall|id: usize| call_requires(box_hit, (id,)),
        forall|x: &H, y: &H| call_requires(closer, (x, y)),
        forall|h: H| call_requires(flip, (h,)),
    ensures
        hit_outcome(instances@, leaf_hit, box_hit, closer, flip, root as int, result),
        instances@[root as int] is Empty ==> result is None,
        (instances@[root as int] is Sphere || instances@[root as int] is MovingSphere)
            ==> call_ensures(leaf_hit, (root,), result),
        result matches Some(h) ==> hit_provenance(instances@, leaf_hit, flip, root as int, h),
    decreases root,
{
    match &instances[root] {
        Instance::Empty => None,
        Instance::Sphere(_, _) => {
            let r = leaf_hit(root);
            proof {
                if let Some(ref h) = r {
                    assert(flip_chain(flip, *h, *h, 0));
                    assert(in_subtree(instances@, root as int, root as int));
                    assert(provenance_witness(
                        instances@,
                        leaf_hit,
                        flip,
                        root as int,
                        *h,
                        root,
                        *h,
                        0,
                    ));
                }
            }
            r
        },
        Instance::MovingSphere(_, _) => {
            let r = leaf_hit(root);
            proof {
                if let Some(ref h) = r {
                    assert(flip_chain(flip, *h, *h, 0));
                    assert(in_subtree(instances@, root as int, root as int));
                    assert(provenance_witness(
                        instances@,
                        leaf_hit,
                        flip,
                        root as int,
                        *h,
                        root,
                        *h,
                        0,
                    ));
                }
            }
            r
        },
        Instance::FlipNormals(inner) => {
            let inner_index = inner.index();
            let r = hit_scene(instances, inner_index, leaf_hit, box_hit, closer, flip);
            let ghost inner_result = r;
            match r {
                None => {
                    proof {
                        assert(flipped_outcome(flip, inner_result, Option::<H>::None));
                        lemma_flip_outcome(
                            instances@,
                            leaf_hit,
                            box_hit,
                            closer,
                            flip,
                            root as int,
                            inner_result,
                            Option::<H>::None,
                        );
                    }
                    None
                },
                Some(h) => {
                    let ghost h_ghost = h;
                    let flipped = flip(h);
                    let ghost flipped_ghost = flipped;
                    proof {
                        lemma_flip_lifts_provenance(
                            instances@,
                            leaf_hit,
                            flip,
                            root as int,
                            h_ghost,
                            flipped_ghost,
                        );
                        assert(flipped_outcome(flip, inner_result, Some(flipped_ghost)));
                        lemma_flip_outcome(
                            instances@,
                            leaf_hit,
                            box_hit,
                            closer,
                            flip,
                            root as int,
                            inner_result,
                            Some(flipped_ghost),
                        );
                    }
                    Some(flipped)
                },
            }
        },
        Instance::BvhNode(_, left, right) => {
            let checked = box_hit(root);
            if checked {
                let left_index = left.index();
                let right_index = right.index();
                let hit_left = hit_scene(instances, left_index, leaf_hit, box_hit, closer, flip);
                let hit_right = hit_scene(instances, right_index, leaf_hit, box_hit, closer, flip);
                let ghost left_ghost = hit_left;
                let ghost right_ghost = hit_right;
                match (hit_left, hit_right) {
                    (Some(left_hit), Some(right_hit)) => {
                        let choice = closer(&left_hit, &right_hit);
                        let ghost lh = left_hit;
                        let ghost rh = right_hit;
                        proof {
                            let chosen = if choice {
                                Some(lh)
                            } else {
                                Some(rh)
                            };
                            assert(combined_outcome(closer, left_ghost, right_ghost, chosen));
                            assert(call_ensures(box_hit, (root,), true));
                            lemma_node_outcome(
                                instances@,
                                leaf_hit,
                                box_hit,
                                closer,
                                flip,
                                root as int,
                                left_ghost,
                                right_ghost,
                                chosen,
                            );
                            if choice {
                                lemma_provenance_widen(
                                    instances@,
                                    leaf_hit,
                                    flip,
                                    root as int,
                                    left_index as int,
                                    lh,
                                );
                            } else {
                                lemma_provenance_widen(
                                    instances@,
                                    leaf_hit,
                                    flip,
                                    root as int,
                                    right_index as int,
                                    rh,
                                );
                            }
                        }
                        if choice {
                            Some(left_hit)
                        } else {
                            Some(right_hit)
                        }
                    },
                    (Some(left_hit), None) => {
                        let ghost lh = left_hit;
                        proof {
                            assert(combined_outcome(closer, left_ghost, right_ghost, Some(lh)));
                            assert(call_ensures(box_hit, (root,), true));
                            lemma_node_outcome(
                                instances@,
                                leaf_hit,
                                box_hit,
                                closer,
                                flip,
                                root as int,
                                left_ghost,
                                right_ghost,
                                Some(lh),
                            );
                            lemma_provenance_widen(
                                instances@,
                                leaf_hit,
                                flip,
                                root as int,
                                left_index as int,
                                lh,
                            );
                        }
                        Some(left_hit)
                    },
                    (None, Some(right_hit)) => {
                        let ghost rh = right_hit;
                        proof {
                            assert(combined_outcome(closer, left_ghost, right_ghost, Some(rh)));
                            assert(call_ensures(box_hit, (root,), true));
                            lemma_node_outcome(
                                instances@,
                                leaf_hit,
                                box_hit,
                                closer,
                                flip,
                                root as int,
                                left_ghost,
                                right_ghost,
                                Some(rh),
                            );
                            lemma_provenance_widen(
                                instances@,
                                leaf_hit,
                                flip,
                                root as int,
                                right_index as int,
                                rh,
                            );
                        }
                        Some(right_hit)
                    },
                    (None, None) => {
                        proof {
                            assert(combined_outcome(
                                closer,
                                left_ghost,
                                right_ghost,
                                Option::<H>::None,
                            ));
                            assert(call_ensures(box_hit, (root,), true));
                            lemma_node_outcome(
                                instances@,
                                leaf_hit,
                                box_hit,
                                closer,
                                flip,
                                root as int,
                                left_ghost,
                                right_ghost,
                                Option::<H>::None,
                            );
                        }
                        None
                    },
                }
            } else {
                proof {
                    assert(call_ensures(box_hit, (root,), false));
                    lemma_node_pruned_outcome::<B, S, M, H, FL, FB, FC, FF>(
                        instances@,
                        leaf_hit,
                        box_hit,
                        closer,
                        flip,
                        root as int,
                    );
                }
                None
            }
        },
    }
}

/// The entry at position `i` is a BVH node whose children were appended
/// earlier.
pub open spec fn bvh_node_wf<B, S, M>(instances: Seq<Instance<B, S, M>>, i: int) -> bool {
    instances[i] matches Instance::BvhNode(_, left, right) && left.idx() < i && right.idx() < i
}

/// The multiset of leaf instance ids reachable from `root` through BVH
/// nodes appended after the first `n0` arena entries.  Anything stored
/// among the first `n0` entries counts as a leaf of the hierarchy (the
/// sentinel `Empty` instance contributes nothing); a malformed node whose
/// children do not precede it contributes nothing.
pub open spec fn bvh_leaves<B, S, M>(
    instances: Seq<Instance<B, S, M>>,
    n0: int,
    root: int,
) -> Multiset<usize>
    decreases root,
{
    if 0 <= root < instances.len() {
        if root < n0 {
            if instances[root] is Empty {
                Multiset::empty()
            } else {
                Multiset::empty().insert(root as usize)
            }
        } else {
            match instances[root] {
                Instance::BvhNode(_, left, right) => {
                    if left.idx() < root && right.idx() < root {
                        bvh_leaves(instances, n0, left.idx()).add(
                            bvh_leaves(instances, n0, right.idx()),
                        )
                    } else {
                        Multiset::empty()
                    }
                },
                _ => Multiset::empty(),
            }
        }
    } else {
        Multiset::empty()
    }
}

/// The number of BVH nodes on the longest path from `root` down to a
/// leaf, counting the nodes appended after the first `n0` arena entries.
pub open spec fn bvh_height<B, S, M>(
    instances: Seq<Instance<B, S, M>>,
    n0: int,
    root: int,
) -> nat
    decreases root,
{
    if 0 <= root < instances.len() {
        if root < n0 {
            0
        } else {
            match instances[root] {
                Instance::BvhNode(_, left, right) => {
                    if left.idx() < root && right.idx() < root {
                        let left_height = bvh_height(instances, n0, left.idx());
                        let right_height = bvh_height(instances, n0, right.idx());
                        1 + (if left_height >= right_height {
                            left_height
                        } else {
                            right_height
                        })
                    } else {
                        0
                    }
                },
                _ => 0,
            }
        }
    } else {
        0
    }
}

/// Rounded-up base-two logarithm: the depth that halving `n` down to one
/// element takes.
pub open spec fn log2_ceil(n: int) -> nat
    decreases n,
{
    if n <= 1 {
        0
    } else {
        1 + log2_ceil((n + 1) / 2)
    }
}

/// `log2_ceil` grows with its argument.
proof fn lemma_log2_ceil_monotone(a: int, b: int)
    requires
        a <= b,
    ensures
        log2_ceil(a) <= log2_ceil(b),
    decreases b,
{
    if a <= 1 {
    } else {
        vstd::arithmetic::div_mod::lemma_div_is_ordered(a + 1, b + 1, 2);
        lemma_split_arith(a);
        lemma_split_arith(b);
        lemma_log2_ceil_monotone((a + 1) / 2, (b + 1) / 2);
    }
}

/// Splitting a list of `n` ids at its midpoint leaves `n / 2` ids on the
/// left and `(n + 1) / 2` on the right, both strictly shorter than `n`.
proof fn lemma_split_arith(n: int)
    requires
        n >= 2,
    ensures
        1 <= n / 2,
        n - n / 2 == (n + 1) / 2,
        n / 2 <= (n + 1) / 2,
        (n + 1) / 2 < n,
{
    vstd::arithmetic::div_mod::lemma_fundamental_div_mod(n, 2);
    vstd::arithmetic::div_mod::lemma_mod_bound(n, 2);
    vstd::arithmetic::div_mod::lemma_fundamental_div_mod(n + 1, 2);
    vstd::arithmetic::div_mod::lemma_mod_bound(n + 1, 2);
    vstd::arithmetic::div_mod::lemma_div_pos_is_pos(n, 2);
    vstd::arithmetic::div_mod::lemma_div_pos_is_pos(n + 1, 2);
}

/// Appending arena entries never changes the height of an already-built
/// subtree.
proof fn lemma_bvh_height_frame<B, S, M>(
    s1: Seq<Instance<B, S, M>>,
    s2: Seq<Instance<B, S, M>>,
    n0: int,
    root: int,
)
    requires
        s1.len() <= s2.len(),
        s2.subrange(0, s1.len() as int) == s1,
        0 <= root < s1.len(),
    ensures
        bvh_height(s2, n0, root) == bvh_height(s1, n0, root),
    decreases root,
{
    assert(s2[root] == s2.subrange(0, s1.len() as int)[root]);
    if root < n0 {
    } else {
        match s1[root] {
            Instance::BvhNode(_, left, right) => {
                if left.idx() < root && right.idx() < root {
                    lemma_bvh_height_frame(s1, s2, n0, left.idx());
                    lemma_bvh_height_frame(s1, s2, n0, right.idx());
                }
            },
            _ => {},
        }
    }
}

/// The positions of the non-`Empty` entries among the first `n` instances,
/// in increasing order.
pub open spec fn nonempty_ids<B, S, M>(s: Seq<Instance<B, S, M>>, n: int) -> Seq<usize>
    decreases n,
{
    if n <= 0 {
        Seq::empty()
    } else if s[n - 1] is Empty {
        nonempty_ids(s, n - 1)
    } else {
        nonempty_ids(s, n - 1).push((n - 1) as usize)
    }
}

/// Appending arena entries never changes the leaves of an already-built
/// subtree: `bvh_leaves` only reads positions at or below its root.
proof fn lemma_bvh_leaves_frame<B, S, M>(
    s1: Seq<Instance<B, S, M>>,
    s2: Seq<Instance<B, S, M>>,
    n0: int,
    root: int,
)
    requires
        s1.len() <= s2.len(),
        s2.subrange(0, s1.len() as int) == s1,
        0 <= root < s1.len(),
    ensures
        bvh_leaves(s2, n0, root) == bvh_leaves(s1, n0, root),
    decreases root,
{
    assert(s2[root] == s2.subrange(0, s1.len() as int)[root]);
    if root < n0 {
    } else {
        match s1[root] {
            Instance::BvhNode(_, left, right) => {
                if left.idx() < root && right.idx() < root {
                    lemma_bvh_leaves_frame(s1, s2, n0, left.idx());
                    lemma_bvh_leaves_frame(s1, s2, n0, right.idx());
                }
            },
            _ => {},
        }
    }
}

/// Two sequences with the same multiset of elements have the same members:
/// every element of one occurs somewhere in the other.
pub(crate) proof fn lemma_multiset_elem_transfer<A>(s_new: Seq<A>, s_old: Seq<A>)
    requires
        s_new.to_multiset() == s_old.to_multiset(),
    ensures
        forall|k: int| 0 <= k < s_new.len() ==> s_old.contains(#[trigger] s_new[k]),
{
    assert forall|k: int| 0 <= k < s_new.len() implies s_old.contains(#[trigger] s_new[k]) by {
        assert(s_new.contains(s_new[k]));
        assert(s_new.to_multiset().count(s_new[k]) > 0);
    }
}

/// Sorts the id list with the caller's comparator (in the renderer: by the
/// minimum corner of each id's bounding box along the current split axis).
/// The comparator only chooses the order; whatever it answers, the result
/// is a permutation of the input.  Comparator ties keep an unspecified
/// relative order.
fn sort_ids<B, FL: Fn(usize, &B, &B) -> bool + Copy>(
    ids: &mut Vec<usize>,
    axis: usize,
    boxes: &Vec<B>,
    less: FL,
)
    requires
        forall|a: usize, x: &B, y: &B| call_requires(less, (a, x, y)),
        forall|k: int| 0 <= k < old(ids)@.len() ==> #[trigger] old(ids)@[k] < boxes@.len(),
    ensures
        final(ids)@.to_multiset() == old(ids)@.to_multiset(),
        final(ids)@.len() == old(ids)@.len(),
        forall|k: int| 0 <= k < final(ids)@.len() ==> #[trigger] final(ids)@[k] < boxes@.len(),
{
    let ghost orig = ids@;
    if ids.len() <= 1 {
        return ;
    }
    let mut i: usize = 1;
    while i < ids.len()
        invariant
            1 <= i <= ids@.len(),
            ids@.len() == orig.len(),
            ids@.to_multiset() == orig.to_multiset(),
            forall|a: usize, x: &B, y: &B| call_requires(less, (a, x, y)),
            forall|k: int| 0 <= k < ids@.len() ==> #[trigger] ids@[k] < boxes@.len(),
        decreases ids@.len() - i,
    {
        let key: usize = ids[i];
        let mut pos: usize = i;
        while pos > 0 && less(axis, &boxes[key], &boxes[ids[pos - 1]])
            invariant
                pos <= i < ids@.len(),
                key < boxes@.len(),
                forall|a: usize, x: &B, y: &B| call_requires(less, (a, x, y)),
                forall|k: int| 0 <= k < ids@.len() ==> #[trigger] ids@[k] < boxes@.len(),
            decreases pos,
        {
            pos = pos - 1;
        }
        let ghost before = ids@;
        let moved: usize = ids.remove(i);
        ids.insert(pos, moved);
        proof {
            assert(moved == before[i as int]);
            assert(before.contains(before[i as int]));
            assert(before.to_multiset().count(moved) > 0);
            assert(ids@.to_multiset() =~= before.to_multiset());
        }
        i = i + 1;
    }
}

/// The empty sequence carries the empty multiset.
proof fn lemma_empty_to_multiset<A>()
    ensures
        Seq::<A>::empty().to_multiset() == Multiset::<A>::empty(),
{
    assert forall|x: A| Seq::<A>::empty().to_multiset().count(x) == 0 by {
        if Seq::<A>::empty().to_multiset().count(x) > 0 {
            assert(Seq::<A>::empty().contains(x));
        }
    }
    assert(Seq::<A>::empty().to_multiset() =~= Multiset::<A>::empty());
}

/// A prefix-preserving extension agrees with the original sequence at
/// every original position.
proof fn lemma_prefix_pointwise<A>(s1: Seq<A>, s2: Seq<A>)
    requires
        s1.len() <= s2.len(),
        s2.subrange(0, s1.len() as int) == s1,
    ensures
        forall|i: int| 0 <= i < s1.len() ==> #[trigger] s2[i] == s1[i],
{
    assert forall|i: int| 0 <= i < s1.len() implies #[trigger] s2[i] == s1[i] by {
        assert(s2.subrange(0, s1.len() as int)[i] == s2[i]);
    }
}

/// Looks up the bounding box of the instance at position `id`: the
/// caller-provided leaf box for pre-build entries, or the box cached in a
/// BVH node appended during the build.
fn box_of<'a, B, S, M>(instances: &'a Vec<Instance<B, S, M>>, boxes: &'a Vec<B>, id: usize) -> (b:
    &'a B)
    requires
        id < instances@.len(),
        boxes@.len() <= instances@.len(),
        boxes@.len() <= id ==> instances@[id as int] is BvhNode,
{
    if id < boxes.len() {
        &boxes[id]
    } else {
        match &instances[id] {
            Instance::BvhNode(bb, _, _) => bb,
            _ => vstd::pervasive::unreached(),
        }
    }
}

/// Builds one BVH subtree over the ids in `ids`, appending the new nodes
/// to the arena and returning the subtree's root id.
///
/// No ids: the sentinel `Empty` id.  One id: that id itself, with no
/// wrapper node.  Two ids: a single node over both.  Three or more: sort
/// by the caller's comparator along the current axis, split at the middle,
/// and recurse on each half with the next axis.  Whatever order the
/// comparator chooses, the finished subtree has exactly the given ids as
/// leaves, each exactly once, and every appended node only points at
/// earlier entries.
fn build_node<B, S, M, FL, FU>(
    instances: &mut Vec<Instance<B, S, M>>,
    ids: &mut Vec<usize>,
    axis: usize,
    boxes: &Vec<B>,
    less: FL,
    union_boxes: FU,
) -> (root: InstanceId) where
    FL: Fn(usize, &B, &B) -> bool + Copy,
    FU: Fn(&B, &B) -> B + Copy,

    requires
        forall|a: usize, x: &B, y: &B| call_requires(less, (a, x, y)),
        forall|x: &B, y: &B| call_requires(union_boxes, (x, y)),
        1 <= boxes@.len() <= old(instances)@.len(),
        old(instances)@[0] is Empty,
        forall|i: int|
            boxes@.len() <= i < old(instances)@.len() ==> bvh_node_wf(old(instances)@, i),
        forall|k: int| 0 <= k < old(ids)@.len() ==> #[trigger] old(ids)@[k] < boxes@.len(),
        forall|k: int|
            0 <= k < old(ids)@.len() ==> !(old(instances)@[#[trigger] old(ids)@[k] as int]
                is Empty),
    ensures
        old(instances)@.len() <= final(instances)@.len(),
        final(instances)@.subrange(0, old(instances)@.len() as int) == old(instances)@,
        forall|i: int|
            old(instances)@.len() <= i < final(instances)@.len() ==> bvh_node_wf(
                final(instances)@,
                i,
            ),
        0 <= root.idx() < final(instances)@.len(),
        boxes@.len() <= root.idx() ==> final(instances)@[root.idx()] is BvhNode,
        bvh_leaves(final(instances)@, boxes@.len() as int, root.idx()) == old(ids)@.to_multiset(),
        old(ids)@.len() == 0 ==> root.idx() == 0 && final(instances)@.len() == old(
            instances,
        )@.len(),
        old(ids)@.len() == 1 ==> root.idx() == old(ids)@[0] && final(instances)@.len() == old(
            instances,
        )@.len(),
        old(ids)@.len() >= 2 ==> root.idx() == final(instances)@.len() - 1 && old(
            instances,
        )@.len() < final(instances)@.len(),
        bvh_height(final(instances)@, boxes@.len() as int, root.idx()) <= log2_ceil(
            old(ids)@.len() as int,
        ),
    decreases old(ids)@.len(),
{
    let ghost n0 = boxes@.len() as int;
    let n = ids.len();
    if n == 0 {
        let root = InstanceId { value: 0 };
        proof {
            assert(instances@.subrange(0, instances@.len() as int) =~= instances@);
            lemma_empty_to_multiset::<usize>();
            assert(ids@ =~= Seq::<usize>::empty());
            assert(bvh_leaves(instances@, n0, 0) =~= Multiset::<usize>::empty());
        }
        return root;
    }
    if n == 1 {
        let root_val: usize = ids[0];
        let root = InstanceId { value: root_val };
        proof {
            assert(instances@.subrange(0, instances@.len() as int) =~= instances@);
            lemma_empty_to_multiset::<usize>();
            assert(ids@ =~= Seq::<usize>::empty().push(root_val));
            assert(ids@.to_multiset() =~= Multiset::<usize>::empty().insert(root_val));
            assert(bvh_leaves(instances@, n0, root.idx()) =~= Multiset::<usize>::empty().insert(
                root_val,
            ));
        }
        return root;
    }
    if n == 2 {
        let a: usize = ids[0];
        let b: usize = ids[1];
        let bb = union_boxes(box_of(instances, boxes, a), box_of(instances, boxes, b));
        let ghost pre = instances@;
        let root = InstanceId { value: instances.len() };
        instances.push(
            Instance::BvhNode(bb, InstanceId { value: a }, InstanceId { value: b }),
        );
        proof {
            assert(instances@.subrange(0, pre.len() as int) =~= pre);
            lemma_empty_to_multiset::<usize>();
            assert(ids@ =~= Seq::<usize>::empty().push(a).push(b));
            assert(ids@.to_multiset() =~= Multiset::<usize>::empty().insert(a).insert(b));
            assert forall|i: int|
                pre.len() <= i < instances@.len() implies bvh_node_wf(instances@, i) by {
                assert(instances@[i] == instances@[pre.len() as int]);
            }
            assert(bvh_leaves(instances@, n0, a as int) =~= Multiset::<usize>::empty().insert(a));
            assert(bvh_leaves(instances@, n0, b as int) =~= Multiset::<usize>::empty().insert(b));
            assert(bvh_leaves(instances@, n0, root.idx()) =~= Multiset::<usize>::empty().insert(
                a,
            ).add(Multiset::<usize>::empty().insert(b)));
            assert(bvh_leaves(instances@, n0, root.idx()) =~= ids@.to_multiset());
            assert(bvh_height(instances@, n0, a as int) == 0);
            assert(bvh_height(instances@, n0, b as int) == 0);
            assert(bvh_height(instances@, n0, root.idx()) == 1);
            assert(log2_ceil(2) == 1 + log2_ceil(1));
        }
        return root;
    }
    let axis_now = axis % 3;
    sort_ids(ids, axis_now, boxes, less);
    let ghost sorted = ids@;
    let mid = ids.len() / 2;
    let mut split = ids.split_off(mid);
    let ghost left_seq = ids@;
    let ghost right_seq = split@;
    proof {
        assert(sorted =~= left_seq + right_seq);
        vstd::seq_lib::lemma_multiset_commutative(left_seq, right_seq);
        lemma_multiset_elem_transfer(sorted, old(ids)@);
        assert forall|k: int| 0 <= k < left_seq.len() implies #[trigger] left_seq[k]
            < boxes@.len() && !(instances@[left_seq[k] as int] is Empty) by {
            assert(left_seq[k] == sorted[k]);
            let j = choose|j: int| 0 <= j < old(ids)@.len() && old(ids)@[j] == sorted[k];
        }
        assert forall|k: int| 0 <= k < right_seq.len() implies #[trigger] right_seq[k]
            < boxes@.len() && !(instances@[right_seq[k] as int] is Empty) by {
            assert(right_seq[k] == sorted[k + mid]);
            let j = choose|j: int| 0 <= j < old(ids)@.len() && old(ids)@[j] == sorted[k + mid];
        }
    }
    let next_axis = (axis_now + 1) % 3;
    let ghost s0 = instances@;
    let left = build_node(instances, ids, next_axis, boxes, less, union_boxes);
    let ghost s1 = instances@;
    proof {
        lemma_prefix_pointwise(s0, s1);
        assert forall|i: int| n0 <= i < s1.len() implies bvh_node_wf(s1, i) by {
            if i < s0.len() {
                assert(bvh_node_wf(s0, i));
            }
        }
        assert forall|k: int| 0 <= k < right_seq.len() implies !(s1[#[trigger] right_seq[k] as int]
            is Empty) by {
            assert(s1[right_seq[k] as int] == s0[right_seq[k] as int]);
        }
    }
    let right = build_node(instances, &mut split, next_axis, boxes, less, union_boxes);
    let ghost s2 = instances@;
    proof {
        lemma_prefix_pointwise(s1, s2);
        lemma_bvh_leaves_frame(s1, s2, n0, left.idx());
    }
    let bl = box_of(instances, boxes, left.index());
    let br = box_of(instances, boxes, right.index());
    let bb = union_boxes(bl, br);
    let root = InstanceId { value: instances.len() };
    instances.push(Instance::BvhNode(bb, left, right));
    proof {
        let s3 = instances@;
        assert(s3.subrange(0, s2.len() as int) =~= s2);
        lemma_bvh_leaves_frame(s2, s3, n0, left.idx());
        lemma_bvh_leaves_frame(s2, s3, n0, right.idx());
        // the original arena is still an untouched prefix
        assert(s3.subrange(0, s0.len() as int) =~= s0) by {
            lemma_prefix_pointwise(s0, s1);
            lemma_prefix_pointwise(s1, s2);
            assert forall|i: int| 0 <= i < s0.len() implies s3.subrange(0, s0.len() as int)[i]
                == s0[i] by {
                assert(s3[i] == s2[i]);
                assert(s2[i] == s1[i]);
                assert(s1[i] == s0[i]);
            }
        }
        // every appended entry is a well-formed interior node
        assert forall|i: int| s0.len() <= i < s3.len() implies bvh_node_wf(s3, i) by {
            if i < s1.len() {
                assert(bvh_node_wf(s1, i));
                assert(s3[i] == s2[i]);
                assert(s2[i] == s1[i]);
            } else if i < s2.len() {
                assert(bvh_node_wf(s2, i));
                assert(s3[i] == s2[i]);
            } else {
                assert(i == s2.len());
            }
        }
        // the new root gathers exactly the leaves of both halves
        assert(bvh_leaves(s3, n0, root.idx()) =~= bvh_leaves(s3, n0, left.idx()).add(
            bvh_leaves(s3, n0, right.idx()),
        ));
        assert(bvh_leaves(s3, n0, root.idx()) =~= old(ids)@.to_multiset());
        // the new root is one level taller than its taller half, and each
        // half of the split stays within the halved logarithm
        lemma_bvh_height_frame(s1, s2, n0, left.idx());
        lemma_bvh_height_frame(s2, s3, n0, left.idx());
        lemma_bvh_height_frame(s2, s3, n0, right.idx());
        lemma_split_arith(n as int);
        lemma_log2_ceil_monotone(n as int / 2, (n as int + 1) / 2);
        assert(log2_ceil(n as int) == 1 + log2_ceil((n as int + 1) / 2));
        assert(bvh_height(s3, n0, root.idx()) <= log2_ceil(n as int));
    }
    root
}

impl<B, S, M, Mt, Dl, C, N> WorldBuilder<B, S, M, Mt, Dl, C, N> {
    /// Seals the scene: gathers every non-`Empty` instance id, builds the
    /// BVH over them, and returns the finished immutable `World`.
    ///
    /// `boxes` holds one bounding box per existing instance (derived by
    /// the caller from each instance's geometry and the render's time
    /// window), `start_axis` seeds the cycling split axis, `less` compares
    /// two boxes along an axis and `union_boxes` forms the tightest box
    /// around two boxes.  The finished BVH has exactly the non-`Empty`
    /// instances as leaves, each exactly once, whatever the comparator
    /// answers and whatever boxes are supplied.
    pub fn build<FL, FU>(
        self,
        boxes: &Vec<B>,
        start_axis: usize,
        less: FL,
        union_boxes: FU,
    ) -> (w: World<B, S, M, Mt, Dl, C, N>) where
        FL: Fn(usize, &B, &B) -> bool + Copy,
        FU: Fn(&B, &B) -> B + Copy,

        requires
            self.wf(),
            boxes@.len() == self.instances_seq().len(),
            forall|a: usize, x: &B, y: &B| call_requires(less, (a, x, y)),
            forall|x: &B, y: &B| call_requires(union_boxes, (x, y)),
        ensures
            w.wf(),
            w.materials_seq() == self.materials_seq(),
            w.textures_seq() == self.textures_seq(),
            self.instances_seq().len() <= w.instances_seq().len(),
            w.instances_seq().subrange(0, self.instances_seq().len() as int)
                == self.instances_seq(),
            forall|i: int|
                self.instances_seq().len() <= i < w.instances_seq().len() ==> bvh_node_wf(
                    w.instances_seq(),
                    i,
                ),
            bvh_leaves(
                w.instances_seq(),
                self.instances_seq().len() as int,
                w.root_spec().idx(),
            ) == nonempty_ids(self.instances_seq(), self.instances_seq().len() as int)
                .to_multiset(),
            nonempty_ids(self.instances_seq(), self.instances_seq().len() as int).len() == 0
                ==> w.root_spec().idx() == 0 && w.instances_seq().len()
                == self.instances_seq().len(),
            nonempty_ids(self.instances_seq(), self.instances_seq().len() as int).len() == 1
                ==> w.root_spec().idx() == nonempty_ids(
                self.instances_seq(),
                self.instances_seq().len() as int,
            )[0] && w.instances_seq().len() == self.instances_seq().len(),
            nonempty_ids(self.instances_seq(), self.instances_seq().len() as int).len() >= 2
                ==> w.root_spec().idx() == w.instances_seq().len() - 1
                && w.instances_seq()[w.root_spec().idx()] is BvhNode,
            bvh_height(
                w.instances_seq(),
                self.instances_seq().len() as int,
                w.root_spec().idx(),
            ) <= log2_ceil(
                nonempty_ids(self.instances_seq(), self.instances_seq().len() as int).len() as int,
            ),
    {
        let WorldBuilder { materials, textures, mut object_instances } = self;
        let ghost orig = object_instances@;
        let n0 = object_instances.len();
        let mut node_ids: Vec<usize> = Vec::new();
        let mut index: usize = 0;
        while index < n0
            invariant
                index <= n0,
                n0 == orig.len(),
                object_instances@ == orig,
                node_ids@ == nonempty_ids(orig, index as int),
                forall|k: int| 0 <= k < node_ids@.len() ==> #[trigger] node_ids@[k] < index,
                forall|k: int|
                    0 <= k < node_ids@.len() ==> !(orig[#[trigger] node_ids@[k] as int] is Empty),
            decreases n0 - index,
        {
            let keep = match &object_instances[index] {
                Instance::Empty => false,
                _ => true,
            };
            if keep {
                node_ids.push(index);
            }
            index = index + 1;
        }
        let root = build_node(
            &mut object_instances,
            &mut node_ids,
            start_axis % 3,
            boxes,
            less,
            union_boxes,
        );
        proof {
            lemma_prefix_pointwise(orig, object_instances@);
            assert forall|i: int|
                0 <= i < object_instances@.len() implies instance_wf(
                #[trigger] object_instances@[i],
                i,
                materials@.len() as int,
            ) by {
                if i < orig.len() {
                    assert(object_instances@[i] == orig[i]);
                    assert(instance_wf(orig[i], i, materials@.len() as int));
                } else {
                    assert(bvh_node_wf(object_instances@, i));
                }
            }
            assert(object_instances@[0] == orig[0]);
        }
        World { bvh_root: root, materials, textures, object_instances }
    }
}

} // verus!
