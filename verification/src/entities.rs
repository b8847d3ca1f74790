use vstd::prelude::*;
use crate::game::Pos;

verus! {

/// The kinds of entity a world holds.
#[derive(Debug, Clone, Copy, PartialEq, Eq, Structural)]
pub enum EntityType {
    Unknown,
    Prop,
}

/// What identifies an entity and where it stands, as handed between containers.
#[derive(Debug, Clone, Copy, PartialEq, Eq, Structural)]
pub struct Entity {
    pub entity_type: EntityType,
    pub pos: Pos,
    pub id: i32,
}

/// What a kind of entity offers its container. Each kind implements it; the container relies
/// on what the clauses below say of every implementation.
pub trait IsEntity: Sized {
    /// The entity that `get` reports.
    spec fn entity_of(&self) -> Entity;

    /// The entity of this kind that `create(e)` makes.
    spec fn created(e: Entity) -> Self;

    fn create(e: Entity) -> (r: Self)
        ensures
            r == Self::created(e),
            r.entity_of().id == e.id,
    ;

    fn get(&self) -> (r: Entity)
        ensures
            r == self.entity_of(),
    ;

    /// The entity as `set_pos(p)` leaves it.
    spec fn moved_to(&self, p: Pos) -> Self;

    fn set_pos(&mut self, p: Pos)
        ensures
            *final(self) == old(self).moved_to(p),
            final(self).entity_of().id == old(self).entity_of().id,
    ;

    fn get_depth(&self) -> i32;

    fn draw(&self);
}

/// The ids of the items, in order.
pub open spec fn ids_of<T: IsEntity>(s: Seq<T>) -> Seq<i32> {
    s.map_values(|x: T| x.entity_of().id)
}

/// The first index in `s` whose item has id `id`.
pub open spec fn first_with_id<T: IsEntity>(s: Seq<T>, id: i32) -> Option<int> {
    if exists|i: int| 0 <= i < s.len() && (#[trigger] s[i]).entity_of().id == id {
        Some(choose|i: int| 0 <= i < s.len() && (#[trigger] s[i]).entity_of().id == id && forall|j: int| 0 <= j < i ==> (#[trigger] s[j]).entity_of().id != id)
    } else {
        None
    }
}

/// The last index in `s` whose item has id `id`.
pub open spec fn last_with_id<T: IsEntity>(s: Seq<T>, id: i32) -> Option<int> {
    if exists|i: int| 0 <= i < s.len() && (#[trigger] s[i]).entity_of().id == id {
        Some(choose|i: int| 0 <= i < s.len() && (#[trigger] s[i]).entity_of().id == id && forall|j: int| i < j < s.len() ==> (#[trigger] s[j]).entity_of().id != id)
    } else {
        None
    }
}

/// The entities of one kind, in the order they were created.
pub struct EntityContainer<T: IsEntity> {
    pub entity_type: EntityType,
    pub inner: Vec<T>,
}

impl<T: IsEntity> EntityContainer<T> {
    /// Moves the first entity with `e`'s id to `e`'s position, where there is one.
    pub fn update_from_entity(&mut self, e: Entity)
        requires
            old(self).entity_type == e.entity_type,
        ensures
            final(self).entity_type == old(self).entity_type,
            final(self).inner@.len() == old(self).inner@.len(),
            ids_of(final(self).inner@) == ids_of(old(self).inner@),
            match first_with_id(old(self).inner@, e.id) {
                Some(i) => final(self).inner@ == old(self).inner@.update(i, old(self).inner@[i].moved_to(e.pos)),
                None => final(self).inner@ == old(self).inner@,
            },
    {
        let ghost before = self.inner@;
        match self.get_mut(e.id) {
            Some(x) => x.set_pos(e.pos),
            None => {},
        }
        proof {
            assert(ids_of(self.inner@) =~= ids_of(before));
        }
    }

    /// Adds an entity made from `e` at the end.
    pub fn create_entity(&mut self, e: Entity)
        requires
            old(self).entity_type == e.entity_type,
        ensures
            final(self).entity_type == old(self).entity_type,
            final(self).inner@.len() == old(self).inner@.len() + 1,
            final(self).inner@.drop_last() == old(self).inner@,
            final(self).inner@.last() == T::created(e),
            final(self).inner@.last().entity_of().id == e.id,
    {
        let item = T::create(e);
        self.inner.push(item);
        proof {
            assert(self.inner@.drop_last() =~= old(self).inner@);
        }
    }

    /// The index of the first entity with id `id`.
    fn find_index(&self, id: i32) -> (r: Option<usize>)
        ensures
            match r {
                Some(i) => i < self.inner@.len() && first_with_id(self.inner@, id) == Some(i as int),
                None => first_with_id(self.inner@, id) is None,
            },
    {
        let mut i: usize = 0;
        while i < self.inner.len()
            invariant
                i <= self.inner@.len(),
                forall|j: int| 0 <= j < i ==> (#[trigger] self.inner@[j]).entity_of().id != id,
            decreases self.inner@.len() - i,
        {
            if self.inner[i].get().id == id {
                proof {
                    lemma_first_with_id_at(self.inner@, id, i as int);
                }
                return Some(i);
            }
            i += 1;
        }
        None
    }

    /// The first entity with id `id`.
    pub fn get(&self, id: i32) -> (r: Option<&T>)
        ensures
            r == match first_with_id(self.inner@, id) {
                Some(i) => Some(&self.inner@[i]),
                None => None::<&T>,
            },
    {
        match self.find_index(id) {
            Some(i) => Some(&self.inner[i]),
            None => None,
        }
    }

    /// Draws the first entity with `e`'s id, where there is one.
    pub fn draw(&self, e: Entity) {
        match self.get(e.id) {
            Some(entity) => entity.draw(),
            None => {},
        }
    }

    /// The first entity with id `id`, to change in place.
    pub fn get_mut(&mut self, id: i32) -> (r: Option<&mut T>)
        ensures
            match first_with_id(old(self).inner@, id) {
                Some(i) => {
                    &&& 0 <= i < old(self).inner@.len()
                    &&& r matches Some(x) && *x == old(self).inner@[i] && final(self).inner@ == old(self).inner@.update(i, *final(x))
                    &&& final(self).entity_type == old(self).entity_type
                },
                None => r is None && *final(self) == *old(self),
            },
    {
        match self.find_index(id) {
            Some(i) => Some(&mut self.inner[i]),
            None => None,
        }
    }

    /// Removes the last entity with `e`'s id, and says whether there was one.
    pub fn delete_entity(&mut self, e: Entity) -> (r: bool)
        ensures
            final(self).entity_type == old(self).entity_type,
            r == last_with_id(old(self).inner@, e.id) is Some,
            match last_with_id(old(self).inner@, e.id) {
                Some(i) => final(self).inner@ == old(self).inner@.remove(i),
                None => final(self).inner@ == old(self).inner@,
            },
    {
        let mut found_index: Option<usize> = None;
        let mut i: usize = 0;
        while i < self.inner.len()
            invariant
                i <= self.inner@.len(),
                match found_index {
                    Some(k) => k < i && self.inner@[k as int].entity_of().id == e.id && forall|j: int| k < j < i ==> (#[trigger] self.inner@[j]).entity_of().id != e.id,
                    None => forall|j: int| 0 <= j < i ==> (#[trigger] self.inner@[j]).entity_of().id != e.id,
                },
            decreases self.inner@.len() - i,
        {
            if self.inner[i].get().id == e.id {
                found_index = Some(i);
            }
            i += 1;
        }
        match found_index {
            Some(k) => {
                proof {
                    lemma_last_with_id_at(self.inner@, e.id, k as int);
                }
                let _ = self.inner.remove(k);
                true
            },
            None => false,
        }
    }

    /// Appends each entity, with its depth, to `all_entities`.
    pub fn extend_all_entities_depth(&self, all_entities: &mut Vec<(Entity, i32)>)
        ensures
            final(all_entities)@.len() == old(all_entities)@.len() + self.inner@.len(),
            forall|j: int| 0 <= j < old(all_entities)@.len() ==> #[trigger] final(all_entities)@[j] == old(all_entities)@[j],
            forall|j: int| 0 <= j < self.inner@.len() ==> (#[trigger] final(all_entities)@[old(all_entities)@.len() + j]).0
                == self.inner@[j].entity_of(),
    {
        let ghost start = all_entities@;
        let mut i: usize = 0;
        while i < self.inner.len()
            invariant
                i <= self.inner@.len(),
                all_entities@.len() == start.len() + i,
                forall|j: int| 0 <= j < start.len() ==> #[trigger] all_entities@[j] == start[j],
                forall|j: int| 0 <= j < i ==> (#[trigger] all_entities@[start.len() + j]).0 == self.inner@[j].entity_of(),
            decreases self.inner@.len() - i,
        {
            let x = &self.inner[i];
            let e = x.get();
            let depth = x.get_depth();
            all_entities.push((e, depth));
            i += 1;
        }
    }
}

proof fn lemma_first_with_id_at<T: IsEntity>(s: Seq<T>, id: i32, i: int)
    requires
        0 <= i < s.len(),
        s[i].entity_of().id == id,
        forall|j: int| 0 <= j < i ==> (#[trigger] s[j]).entity_of().id != id,
    ensures
        first_with_id(s, id) == Some(i),
{
    let k = choose|k: int| 0 <= k < s.len() && (#[trigger] s[k]).entity_of().id == id && forall|j: int| 0 <= j < k ==> (#[trigger] s[j]).entity_of().id != id;
    assert(0 <= k < s.len() && s[k].entity_of().id == id);
    if k < i {
    } else if k > i {
        assert(s[i].entity_of().id != id);
    }
}

proof fn lemma_last_with_id_at<T: IsEntity>(s: Seq<T>, id: i32, i: int)
    requires
        0 <= i < s.len(),
        s[i].entity_of().id == id,
        forall|j: int| i < j < s.len() ==> (#[trigger] s[j]).entity_of().id != id,
    ensures
        last_with_id(s, id) == Some(i),
{
    let k = choose|k: int| 0 <= k < s.len() && (#[trigger] s[k]).entity_of().id == id && forall|j: int| k < j < s.len() ==> (#[trigger] s[j]).entity_of().id != id;
    assert(0 <= k < s.len() && s[k].entity_of().id == id);
    if k < i {
        assert(s[i].entity_of().id != id);
    } else if k > i {
    }
}


/// Deleting an entity right after creating one with the same id gives back the entities as
/// they were before.
pub proof fn law_delete_undoes_create<T: IsEntity>(before: Seq<T>, created: T, id: i32)
    requires
        created.entity_of().id == id,
    ensures
        last_with_id(before.push(created), id) == Some(before.len() as int),
        before.push(created).remove(before.len() as int) == before,
{
    let s = before.push(created);
    lemma_last_with_id_at(s, id, before.len() as int);
    assert(s.remove(before.len() as int) =~= before);
}

} // verus!
