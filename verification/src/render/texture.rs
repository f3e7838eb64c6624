//! Texture handles and the texture pool.
//!
//! The pool is an arena of slots with monotonically increasing ids and an
//! explicit mark-sweep "used" flag; reclamation drops every slot that was not
//! marked since the marks were last cleared. The GPU storage behind a slot is
//! the backend's concern and is not modelled here.

use vstd::prelude::*;

verus! {

/// What a texture can be used for.
#[derive(Debug, Clone, Copy, PartialEq, Eq, Hash, Structural)]
pub enum TexKind {
    Attachment,
    Storage,
}

/// A texture reference.
#[derive(Debug, Clone, Copy, PartialEq, Eq, Hash, Structural)]
pub struct TextureRef {
    pub texture_id: u64,
    pub width: i64,
    pub height: i64,
    pub resolution: i64,
    pub kind: TexKind,
}

impl TextureRef {
    /// Returns the texture size as (width, height).
    pub fn size(&self) -> (r: (i64, i64))
        ensures
            r == (self.width, self.height),
    {
        (self.width, self.height)
    }

    /// Returns the resolution.
    pub fn resolution(&self) -> (r: i64)
        ensures
            r == self.resolution,
    {
        self.resolution
    }

    pub fn texture_eq(&self, other: &TextureRef) -> (r: bool)
        ensures
            r == (*self == *other),
    {
        self.texture_id == other.texture_id && self.width == other.width && self.height
            == other.height && self.resolution == other.resolution && self.kind == other.kind
    }
}

/// One arena slot of the pool.
#[derive(Debug, Clone, Copy, PartialEq, Eq, Structural)]
pub struct TexSlot {
    pub tex: TextureRef,
    pub used: bool,
}

/// The texture pool: an arena of slots with a mark-sweep used flag.
pub struct TexturePool {
    slots: Vec<TexSlot>,
    next_id: u64,
}

impl TexturePool {
    pub closed spec fn slots_view(self) -> Seq<TexSlot> {
        self.slots@
    }

    pub closed spec fn next_id_spec(self) -> u64 {
        self.next_id
    }

    /// Every slot id is below the id counter, and no id occurs twice.
    pub open spec fn wf(self) -> bool {
        &&& forall|i: int|
            0 <= i < self.slots_view().len() ==> (#[trigger] self.slots_view()[i]).tex.texture_id
                < self.next_id_spec()
        &&& forall|i: int, j: int|
            0 <= i < j < self.slots_view().len() ==> (#[trigger] self.slots_view()[i]).tex.texture_id
                != (#[trigger] self.slots_view()[j]).tex.texture_id
    }

    pub fn new() -> (r: TexturePool)
        ensures
            r.wf(),
            r.slots_view() =~= Seq::<TexSlot>::empty(),
            r.next_id_spec() == 0,
    {
        TexturePool { slots: Vec::new(), next_id: 0 }
    }

    fn allocate(&mut self, width: i64, height: i64, resolution: i64, kind: TexKind) -> (r: TextureRef)
        ensures
            r == (TextureRef { texture_id: old(self).next_id_spec(), width, height, resolution, kind }),
            final(self).slots_view() == old(self).slots_view().push(
                (TexSlot { tex: r, used: true }),
            ),
    {
        let tex = TextureRef { texture_id: self.next_id, width, height, resolution, kind };
        self.slots.push(TexSlot { tex, used: true });
        if self.next_id < u64::MAX {
            self.next_id = self.next_id + 1;
        }
        tex
    }

    /// Allocates a fresh attachment texture and marks its slot used.
    pub fn attachment(&mut self, width: i64, height: i64, resolution: i64) -> (r: TextureRef)
        ensures
            r == (TextureRef {
                texture_id: old(self).next_id_spec(),
                width,
                height,
                resolution,
                kind: TexKind::Attachment,
            }),
            final(self).slots_view() == old(self).slots_view().push(
                (TexSlot { tex: r, used: true }),
            ),
    {
        self.allocate(width, height, resolution, TexKind::Attachment)
    }

    /// Allocates a fresh storage texture and marks its slot used.
    pub fn storage(&mut self, width: i64, height: i64, resolution: i64) -> (r: TextureRef)
        ensures
            r == (TextureRef {
                texture_id: old(self).next_id_spec(),
                width,
                height,
                resolution,
                kind: TexKind::Storage,
            }),
            final(self).slots_view() == old(self).slots_view().push(
                (TexSlot { tex: r, used: true }),
            ),
    {
        self.allocate(width, height, resolution, TexKind::Storage)
    }

    /// Clears every used mark, beginning a mark-sweep round.
    pub fn clear_marks(&mut self)
        ensures
            final(self).slots_view().len() == old(self).slots_view().len(),
            forall|i: int|
                0 <= i < final(self).slots_view().len() ==> #[trigger] final(self).slots_view()[i]
                    == (TexSlot { tex: old(self).slots_view()[i].tex, used: false }),
    {
        let n = self.slots.len();
        let mut j: usize = 0;
        while j < n
            invariant
                j <= n,
                n == self.slots@.len(),
                self.slots@.len() == old(self).slots_view().len(),
                self.next_id == old(self).next_id_spec(),
                forall|i: int|
                    0 <= i < j ==> #[trigger] self.slots@[i] == (TexSlot {
                        tex: old(self).slots_view()[i].tex,
                        used: false,
                    }),
                forall|i: int|
                    j <= i < self.slots@.len() ==> #[trigger] self.slots@[i] == old(
                        self,
                    ).slots_view()[i],
            decreases n - j,
        {
            let tex = self.slots[j].tex;
            self.slots[j] = TexSlot { tex, used: false };
            j += 1;
        }
    }

    /// Marks the slot holding this texture id as used.
    pub fn mark_used(&mut self, texture_id: u64)
        ensures
            final(self).slots_view().len() == old(self).slots_view().len(),
            forall|i: int|
                0 <= i < final(self).slots_view().len() ==> #[trigger] final(self).slots_view()[i]
                    == (if old(self).slots_view()[i].tex.texture_id == texture_id {
                    (TexSlot { tex: old(self).slots_view()[i].tex, used: true })
                } else {
                    old(self).slots_view()[i]
                }),
    {
        let n = self.slots.len();
        let mut j: usize = 0;
        while j < n
            invariant
                j <= n,
                n == self.slots@.len(),
                self.slots@.len() == old(self).slots_view().len(),
                self.next_id == old(self).next_id_spec(),
                forall|i: int|
                    0 <= i < j ==> #[trigger] self.slots@[i] == (if old(
                        self,
                    ).slots_view()[i].tex.texture_id == texture_id {
                        (TexSlot { tex: old(self).slots_view()[i].tex, used: true })
                    } else {
                        old(self).slots_view()[i]
                    }),
                forall|i: int|
                    j <= i < self.slots@.len() ==> #[trigger] self.slots@[i] == old(
                        self,
                    ).slots_view()[i],
            decreases n - j,
        {
            if self.slots[j].tex.texture_id == texture_id {
                let tex = self.slots[j].tex;
                self.slots[j] = TexSlot { tex, used: true };
            }
            j += 1;
        }
    }

    /// Drops every slot that was not marked used since the last
    /// [`TexturePool::clear_marks`].
    pub fn drop_unused(&mut self)
        ensures
            forall|s: TexSlot|
                final(self).slots_view().contains(s) <==> (old(self).slots_view().contains(s)
                    && s.used),
    {
        let mut kept: Vec<TexSlot> = Vec::new();
        let n = self.slots.len();
        let mut j: usize = 0;
        while j < n
            invariant
                j <= n,
                n == self.slots@.len(),
                self.slots@ == old(self).slots_view(),
                forall|s: TexSlot|
                    kept@.contains(s) <==> (exists|i: int|
                        0 <= i < j && #[trigger] self.slots@[i] == s && s.used),
            decreases n - j,
        {
            let s = self.slots[j];
            if s.used {
                let ghost kept0 = kept@;
                kept.push(s);
                proof {
                    assert forall|s2: TexSlot| kept@.contains(s2) implies (exists|i: int|
                        0 <= i < j + 1 && #[trigger] self.slots@[i] == s2 && s2.used) by {
                        if s2 == s {
                            assert(self.slots@[j as int] == s2);
                        } else {
                            assert(kept0.contains(s2));
                        }
                    }
                    assert forall|s2: TexSlot|
                        (exists|i: int| 0 <= i < j + 1 && #[trigger] self.slots@[i] == s2
                            && s2.used) implies kept@.contains(s2) by {
                        let i = choose|i: int|
                            0 <= i < j + 1 && #[trigger] self.slots@[i] == s2 && s2.used;
                        if i < j {
                            assert(kept0.contains(s2));
                            let t = choose|t: int| 0 <= t < kept0.len() && kept0[t] == s2;
                            assert(kept@[t] == s2);
                        } else {
                            assert(kept@[kept@.len() - 1] == s2);
                        }
                    }
                }
            } else {
                proof {
                    assert forall|s2: TexSlot| kept@.contains(s2) implies (exists|i: int|
                        0 <= i < j + 1 && #[trigger] self.slots@[i] == s2 && s2.used) by {}
                    assert forall|s2: TexSlot|
                        (exists|i: int| 0 <= i < j + 1 && #[trigger] self.slots@[i] == s2
                            && s2.used) implies kept@.contains(s2) by {
                        let i = choose|i: int|
                            0 <= i < j + 1 && #[trigger] self.slots@[i] == s2 && s2.used;
                        assert(i < j);
                    }
                }
            }
            j += 1;
        }
        self.slots = kept;
        proof {
            assert forall|s: TexSlot| self.slots@.contains(s) implies (old(
                self,
            ).slots_view().contains(s) && s.used) by {
                let i = choose|i: int|
                    0 <= i < n && #[trigger] old(self).slots_view()[i] == s && s.used;
            }
        }
    }

    /// Drops every slot outright.
    pub fn clear_caches(&mut self)
        ensures
            final(self).slots_view() =~= Seq::<TexSlot>::empty(),
    {
        self.slots.clear();
    }
}

} // verus!
