//! The container of scenes: hands out scene identifiers and finds a scene by
//! its identifier.

use vstd::prelude::*;

use crate::types::scene_id::SceneId;

verus! {

/// The scene `id` is among `scenes`.
pub open spec fn has_scene<TScene>(scenes: Seq<(SceneId, TScene)>, id: SceneId) -> bool {
    exists|i: int| 0 <= i < scenes.len() && (#[trigger] scenes[i]).0 == id
}

/// Independent scenes, each under an identifier of its own.
pub struct World<TScene> {
    pub free_scene_id: Vec<SceneId>,
    pub scenes: Vec<(SceneId, TScene)>,
    pub scene_count: u32,
}

impl<TScene> World<TScene> {
    /// No two scenes share an identifier, every identifier in use was handed
    /// out, and the free identifiers are not in use and listed once each.
    pub open spec fn wf(&self) -> bool {
        &&& forall|i: int, j: int|
            0 <= i < j < self.scenes@.len() ==> (#[trigger] self.scenes@[i]).0 != (
            #[trigger] self.scenes@[j]).0
        &&& forall|i: int|
            0 <= i < self.scenes@.len() ==> (#[trigger] self.scenes@[i]).0.id < self.scene_count
        &&& forall|i: int|
            0 <= i < self.free_scene_id@.len() ==> (#[trigger] self.free_scene_id@[i]).id
                < self.scene_count && !has_scene(self.scenes@, self.free_scene_id@[i])
        &&& forall|i: int, j: int|
            0 <= i < j < self.free_scene_id@.len() ==> (#[trigger] self.free_scene_id@[i]) != (
            #[trigger] self.free_scene_id@[j])
    }

    /// The identifier that the next scene gets: the free one listed last, or
    /// else the first that was never handed out.
    pub open spec fn next_id(&self) -> SceneId {
        if self.free_scene_id@.len() > 0 {
            self.free_scene_id@.last()
        } else {
            SceneId { id: self.scene_count }
        }
    }

    /// An identifier can be had for one more scene.
    pub open spec fn has_room(&self) -> bool {
        self.free_scene_id@.len() > 0 || self.scene_count < u32::MAX
    }

    /// A world without scenes.
    pub fn new() -> (r: Self)
        ensures
            r.wf(),
            r.scenes@.len() == 0,
            r.free_scene_id@.len() == 0,
            r.scene_count == 0,
    {
        Self { free_scene_id: Vec::new(), scenes: Vec::new(), scene_count: 0 }
    }

    /// Whether an identifier can be had for one more scene.
    pub fn can_add_scene(&self) -> (r: bool)
        ensures
            r == self.has_room(),
    {
        self.free_scene_id.len() > 0 || self.scene_count < u32::MAX
    }

    /// Takes `scene` into the world and returns the identifier it is now
    /// found under, which no other scene has.
    pub fn new_scene(&mut self, scene: TScene) -> (r: SceneId)
        requires
            old(self).wf(),
            old(self).has_room(),
        ensures
            final(self).wf(),
            r == old(self).next_id(),
            !has_scene(old(self).scenes@, r),
            has_scene(final(self).scenes@, r),
            final(self).scenes@ == old(self).scenes@.push((r, scene)),
            final(self).free_scene_id@ == if old(self).free_scene_id@.len() > 0 {
                old(self).free_scene_id@.drop_last()
            } else {
                old(self).free_scene_id@
            },
    {
        let scene_id = match self.free_scene_id.pop() {
            Some(id) => id,
            None => {
                let id = SceneId::new(self.scene_count);
                self.scene_count += 1;
                id
            },
        };
        proof {
            let before = old(self).scenes@;
            if old(self).free_scene_id@.len() > 0 {
                assert(old(self).free_scene_id@[old(self).free_scene_id@.len() - 1] == scene_id);
            } else if has_scene(before, scene_id) {
                let i = choose|i: int| 0 <= i < before.len() && (#[trigger] before[i]).0 == scene_id;
                assert(before[i].0.id < old(self).scene_count);
            }
            assert(!has_scene(before, scene_id));
        }
        self.scenes.push((scene_id, scene));
        proof {
            let before = old(self).scenes@;
            let after = self.scenes@;
            assert(after[before.len() as int].0 == scene_id);
            assert forall|i: int, j: int| 0 <= i < j < after.len() implies (#[trigger] after[i]).0 != (
            #[trigger] after[j]).0 by {
                if j < before.len() {
                    assert(before[i].0 != before[j].0);
                } else {
                    assert(before[i].0 != scene_id);
                }
            }
            assert forall|i: int| 0 <= i < after.len() implies (#[trigger] after[i]).0.id
                < self.scene_count by {
                if i < before.len() {
                    assert(before[i].0.id < old(self).scene_count);
                } else if old(self).free_scene_id@.len() > 0 {
                    assert(old(self).free_scene_id@[old(self).free_scene_id@.len() - 1].id
                        < old(self).scene_count);
                }
            }
            assert forall|i: int| 0 <= i < self.free_scene_id@.len() implies (
            #[trigger] self.free_scene_id@[i]).id < self.scene_count && !has_scene(
                after,
                self.free_scene_id@[i],
            ) by {
                let id = self.free_scene_id@[i];
                assert(old(self).free_scene_id@[i] == id);
                assert(!has_scene(before, old(self).free_scene_id@[i]));
                if has_scene(after, id) {
                    let k = choose|k: int| 0 <= k < after.len() && (#[trigger] after[k]).0 == id;
                    if k < before.len() {
                        assert(before[k].0 == id);
                    } else {
                        assert(id == scene_id);
                        if old(self).free_scene_id@.len() > 0 {
                            assert(old(self).free_scene_id@[i] != old(self).free_scene_id@[old(
                                self,
                            ).free_scene_id@.len() - 1]);
                        }
                    }
                }
            }
            assert forall|i: int, j: int| 0 <= i < j < self.free_scene_id@.len() implies (
            #[trigger] self.free_scene_id@[i]) != (#[trigger] self.free_scene_id@[j]) by {
                assert(old(self).free_scene_id@[i] != old(self).free_scene_id@[j]);
            }
        }
        scene_id
    }

    /// The scene found under `scene_id`, if there is one.
    pub fn get_scene(&self, scene_id: &SceneId) -> (r: Option<&TScene>)
        ensures
            r.is_some() == has_scene(self.scenes@, *scene_id),
            r matches Some(scene) ==> self.scenes@.contains((*scene_id, *scene)),
    {
        let mut i: usize = 0;
        while i < self.scenes.len()
            invariant
                i <= self.scenes.len(),
                forall|k: int| 0 <= k < i ==> (#[trigger] self.scenes@[k]).0 != *scene_id,
            decreases self.scenes.len() - i,
        {
            if self.scenes[i].0.id == scene_id.id {
                assert(self.scenes@[i as int] == (*scene_id, self.scenes@[i as int].1));
                return Some(&self.scenes[i].1);
            }
            i += 1;
        }
        None
    }
}

} // verus!
