//! Saved scenes: lists of concept groups stored under an id and returned
//! exactly as they were saved.

use vstd::prelude::*;

use crate::assemble::ConceptGroup;

verus! {

/// An in-memory scene registry.  The callers wrap it in whatever shared
/// state the transport layer needs; the store itself only maps ids to
/// group lists.
pub struct SceneStore {
    scenes: Vec<(u64, Vec<ConceptGroup>)>,
    next_id: u64,
}

/// The first entry with the given id, if any.
pub open spec fn scene_lookup(scenes: Seq<(u64, Vec<ConceptGroup>)>, id: u64) -> Option<
    Vec<ConceptGroup>,
>
    decreases scenes.len(),
{
    if scenes.len() == 0 {
        None
    } else if scenes[0].0 == id {
        Some(scenes[0].1)
    } else {
        scene_lookup(scenes.drop_first(), id)
    }
}

impl SceneStore {
    /// Whether another scene can still get a fresh id.
    pub closed spec fn can_save(&self) -> bool {
        self.next_id < u64::MAX
    }

    /// The runtime test for [`Self::can_save`], for callers outside the
    /// proof.
    pub fn can_save_now(&self) -> (r: bool)
        ensures
            r == self.can_save(),
    {
        self.next_id < u64::MAX
    }

    /// All stored ids are distinct and below the next fresh id.
    pub closed spec fn wf(&self) -> bool {
        &&& (forall|a: int, b: int|
            0 <= a < b < self.scenes@.len() ==> (#[trigger] self.scenes@[a]).0 != (
            #[trigger] self.scenes@[b]).0)
        &&& (forall|a: int|
            0 <= a < self.scenes@.len() ==> (#[trigger] self.scenes@[a]).0 < self.next_id)
    }

    /// An empty store.
    pub fn new() -> (r: SceneStore)
        ensures
            r.wf(),
            forall|id: u64| #[trigger] r.spec_get(id) is None,
    {
        SceneStore { scenes: Vec::new(), next_id: 0 }
    }

    /// What the store returns for an id.
    pub closed spec fn spec_get(&self, id: u64) -> Option<Vec<ConceptGroup>> {
        scene_lookup(self.scenes@, id)
    }

    /// Saves a scene under a fresh id and returns the id; reading that id
    /// back yields exactly the saved list, and every other id is
    /// untouched.
    pub fn save_scene(&mut self, groups: Vec<ConceptGroup>) -> (id: u64)
        requires
            old(self).wf(),
            old(self).can_save(),
        ensures
            final(self).wf(),
            final(self).spec_get(id) == Some(groups),
            forall|other: u64|
                other != id ==> #[trigger] final(self).spec_get(other) == old(self).spec_get(
                    other,
                ),
    {
        let id = self.next_id;
        self.next_id = self.next_id + 1;
        let ghost before = self.scenes@;
        self.scenes.push((id, groups));
        proof {
            lemma_lookup_push(before, id, self.scenes@[self.scenes@.len() - 1].1, id);
            assert forall|other: u64| other != id implies #[trigger] scene_lookup(
                self.scenes@,
                other,
            ) == scene_lookup(before, other) by {
                lemma_lookup_push(before, id, self.scenes@[self.scenes@.len() - 1].1, other);
            }
        }
        id
    }

    /// Reads a scene back: the saved list for the id, or nothing.
    pub fn get_scene(&self, id: u64) -> (r: Option<&Vec<ConceptGroup>>)
        ensures
            match r {
                Some(groups) => self.spec_get(id) == Some(*groups),
                None => self.spec_get(id) is None,
            },
    {
        let n = self.scenes.len();
        proof {
            assert(self.scenes@.skip(0) =~= self.scenes@);
        }
        let mut i: usize = 0;
        while i < n
            invariant
                i <= n == self.scenes@.len(),
                scene_lookup(self.scenes@.skip(i as int), id) == scene_lookup(self.scenes@, id),
            decreases n - i,
        {
            proof {
                assert(self.scenes@.skip(i as int)[0] == self.scenes@[i as int]);
                assert(self.scenes@.skip(i as int).drop_first() =~= self.scenes@.skip(i + 1));
            }
            if self.scenes[i].0 == id {
                return Some(&self.scenes[i].1);
            }
            i = i + 1;
        }
        proof {
            assert(self.scenes@.skip(n as int) =~= Seq::<(u64, Vec<ConceptGroup>)>::empty());
        }
        None
    }
}

/// Appending an entry leaves every other id's lookup unchanged, and gives
/// the new id its list when it was absent.
proof fn lemma_lookup_push(
    scenes: Seq<(u64, Vec<ConceptGroup>)>,
    id: u64,
    groups: Vec<ConceptGroup>,
    probe: u64,
)
    requires
        forall|a: int| 0 <= a < scenes.len() ==> (#[trigger] scenes[a]).0 != id,
    ensures
        probe == id ==> scene_lookup(scenes.push((id, groups)), probe) == Some(groups),
        probe != id ==> scene_lookup(scenes.push((id, groups)), probe) == scene_lookup(
            scenes,
            probe,
        ),
    decreases scenes.len(),
{
    let pushed = scenes.push((id, groups));
    if scenes.len() == 0 {
        assert(pushed[0] == (id, groups));
        assert(pushed.drop_first() =~= Seq::<(u64, Vec<ConceptGroup>)>::empty());
        if probe == id {
            assert(scene_lookup(pushed, probe) == Some(groups));
        } else {
            assert(scene_lookup(pushed, probe) == scene_lookup(pushed.drop_first(), probe));
            assert(scene_lookup(pushed.drop_first(), probe) is None);
            assert(scene_lookup(scenes, probe) is None);
        }
    } else {
        assert(pushed[0] == scenes[0]);
        assert(pushed.drop_first() =~= scenes.drop_first().push((id, groups)));
        assert(forall|a: int|
            0 <= a < scenes.drop_first().len() ==> (#[trigger] scenes.drop_first()[a]).0 != id);
        lemma_lookup_push(scenes.drop_first(), id, groups, probe);
        assert(scenes[0].0 != id);
        if scenes[0].0 == probe {
            assert(scene_lookup(pushed, probe) == Some(pushed[0].1));
            assert(scene_lookup(scenes, probe) == Some(scenes[0].1));
        } else {
            assert(scene_lookup(pushed, probe) == scene_lookup(pushed.drop_first(), probe));
            assert(scene_lookup(scenes, probe) == scene_lookup(scenes.drop_first(), probe));
        }
    }
}

} // verus!
