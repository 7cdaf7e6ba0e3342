use crate::hr_app::error::HrError;
use vstd::prelude::*;

verus! {

/// The state of an entity registry as a mathematical value: the highest
/// identifier ever assigned, and for each identifier ever assigned either
/// the entity it denotes or `None` where it has been retired. An
/// identifier that is no key was never assigned.
pub struct RegistryView<V> {
    pub highest: u64,
    pub slots: Map<u64, Option<V>>,
}

/// A change to a registry.
pub enum RegistryOp<V> {
    /// The creation of an entity, under an identifier or under the next one.
    Create { entity: V, id: Option<u64> },
    /// The retirement of an identifier.
    Delete { retired: u64 },
}

impl<V> RegistryView<V> {
    /// The registry in which nothing was created yet: identifier 0 is
    /// retired from the start.
    pub open spec fn empty() -> Self {
        RegistryView { highest: 0, slots: Map::empty().insert(0u64, None::<V>) }
    }

    /// Identifier 0 is retired, the highest identifier is a key, and no key
    /// exceeds it.
    pub open spec fn wf(self) -> bool {
        &&& self.slots.contains_key(0)
        &&& self.slots[0] is None
        &&& self.slots.contains_key(self.highest)
        &&& forall|id: u64| #[trigger] self.slots.contains_key(id) ==> id <= self.highest
    }

    /// The identifier denotes an entity.
    pub open spec fn is_live(self, id: u64) -> bool {
        self.slots.contains_key(id) && self.slots[id] is Some
    }

    /// The identifier was assigned once and has been retired.
    pub open spec fn is_retired(self, id: u64) -> bool {
        self.slots.contains_key(id) && self.slots[id] is None
    }

    /// What asking for `id` yields.
    pub open spec fn lookup(self, id: u64) -> Result<V, HrError> {
        if !self.slots.contains_key(id) {
            Err(HrError::NotFound)
        } else {
            match self.slots[id] {
                Some(entity) => Ok(entity),
                None => Err(HrError::AlreadyDeleted),
            }
        }
    }

    /// Why asking for `id` fails, or `None` where it denotes an entity.
    pub open spec fn lookup_fault(self, id: u64) -> Option<HrError> {
        if !self.slots.contains_key(id) {
            Some(HrError::NotFound)
        } else if self.slots[id] is None {
            Some(HrError::AlreadyDeleted)
        } else {
            None
        }
    }

    /// The identifier that a creation assigns: the one asked for, or the
    /// one after the highest.
    pub open spec fn target_id(self, id: Option<u64>) -> u64 {
        match id {
            Some(id) => id,
            None => (self.highest + 1) as u64,
        }
    }

    /// The registry after `entity` was created under `id`.
    pub open spec fn create(self, entity: V, id: Option<u64>) -> Self {
        let target = self.target_id(id);
        RegistryView {
            highest: if target > self.highest {
                target
            } else {
                self.highest
            },
            slots: self.slots.insert(target, Some(entity)),
        }
    }

    /// The registry after `id` was retired.
    pub open spec fn delete(self, id: u64) -> Self {
        RegistryView { highest: self.highest, slots: self.slots.insert(id, None) }
    }

    /// `id` is the first live identifier above `after`.
    pub open spec fn is_next_live(self, after: u64, id: u64) -> bool {
        &&& after < id
        &&& self.is_live(id)
        &&& forall|between: u64| after < between < id ==> !self.is_live(between)
    }

    /// No identifier above `after` is live.
    pub open spec fn none_live_after(self, after: u64) -> bool {
        forall|id: u64| after < id ==> !self.is_live(id)
    }

    /// `ids` holds the live identifiers, each once, in ascending order.
    pub open spec fn lists_live_ids(self, ids: Seq<u64>) -> bool {
        &&& forall|i: int, j: int| 0 <= i < j < ids.len() ==> ids[i] < ids[j]
        &&& forall|i: int| 0 <= i < ids.len() ==> self.is_live(#[trigger] ids[i])
        &&& forall|id: u64| self.is_live(id) ==> ids.contains(id)
    }
    /// The registry takes the change: a creation names no identifier that
    /// was ever assigned, or finds an identifier left above the highest; a
    /// retirement names a live identifier.
    pub open spec fn accepts(self, op: RegistryOp<V>) -> bool {
        match op {
            RegistryOp::Create { entity, id } => match id {
                Some(id) => !self.slots.contains_key(id),
                None => self.highest < u64::MAX,
            },
            RegistryOp::Delete { retired } => self.is_live(retired),
        }
    }

    /// The registry after the change; the same registry where it does not
    /// take the change.
    pub open spec fn apply(self, op: RegistryOp<V>) -> Self {
        if !self.accepts(op) {
            self
        } else {
            match op {
                RegistryOp::Create { entity, id } => self.create(entity, id),
                RegistryOp::Delete { retired } => self.delete(retired),
            }
        }
    }

    /// The registry after a sequence of changes, first to last.
    pub open spec fn apply_all(self, ops: Seq<RegistryOp<V>>) -> Self
        decreases ops.len(),
    {
        if ops.len() == 0 {
            self
        } else {
            self.apply_all(ops.drop_last()).apply(ops.last())
        }
    }

    /// The registry after the creation of `entities`, first to last, each
    /// under the next identifier.
    pub open spec fn create_all(self, entities: Seq<V>) -> Self
        decreases entities.len(),
    {
        if entities.len() == 0 {
            self
        } else {
            self.create_all(entities.drop_last()).create(entities.last(), None)
        }
    }

    /// A change keeps a well-formed registry well-formed: identifier 0
    /// stays retired and the highest identifier stays the greatest that
    /// was ever assigned.
    pub proof fn law_apply_keeps_wf(self, op: RegistryOp<V>)
        requires
            self.wf(),
        ensures
            self.apply(op).wf(),
            self.apply(op).highest >= self.highest,
            forall|id: u64| self.slots.contains_key(id) ==> self.apply(op).slots.contains_key(id),
    {
    }

    /// Whatever changes follow, a well-formed registry stays well-formed,
    /// its highest identifier never falls and no identifier leaves it.
    pub proof fn law_wf_forever(self, ops: Seq<RegistryOp<V>>)
        requires
            self.wf(),
        ensures
            self.apply_all(ops).wf(),
            self.apply_all(ops).highest >= self.highest,
            forall|id: u64|
                self.slots.contains_key(id) ==> self.apply_all(ops).slots.contains_key(id),
        decreases ops.len(),
    {
        if ops.len() > 0 {
            self.law_wf_forever(ops.drop_last());
            self.apply_all(ops.drop_last()).law_apply_keeps_wf(ops.last());
        }
    }

    /// A creation never assigns a retired identifier, and a retired
    /// identifier stays retired through any change: asking for it yields
    /// `AlreadyDeleted`, never `NotFound`.
    pub proof fn law_retired_stays_retired(self, op: RegistryOp<V>, retired: u64)
        requires
            self.wf(),
            self.is_retired(retired),
        ensures
            self.accepts(op) && op is Create ==> self.target_id(op->id) != retired,
            self.apply(op).is_retired(retired),
            self.apply(op).lookup(retired) == Err::<V, HrError>(HrError::AlreadyDeleted),
    {
    }

    /// Whatever changes follow its retirement, a retired identifier is
    /// never assigned again and asking for it yields `AlreadyDeleted`,
    /// never `NotFound`.
    pub proof fn law_retired_forever(self, ops: Seq<RegistryOp<V>>, retired: u64)
        requires
            self.wf(),
            self.is_retired(retired),
        ensures
            self.apply_all(ops).is_retired(retired),
            self.apply_all(ops).lookup(retired) == Err::<V, HrError>(HrError::AlreadyDeleted),
            forall|i: int|
                #![trigger ops[i]]
                0 <= i < ops.len() && ops[i] is Create && self.apply_all(ops.take(i)).accepts(
                    ops[i],
                ) ==> self.apply_all(ops.take(i)).target_id(ops[i]->id) != retired,
        decreases ops.len(),
    {
        if ops.len() > 0 {
            let front = ops.drop_last();
            self.law_retired_forever(front, retired);
            self.law_wf_forever(front);
            self.apply_all(front).law_retired_stays_retired(ops.last(), retired);
            assert forall|i: int|
                #![trigger ops[i]]
                0 <= i < ops.len() && ops[i] is Create && self.apply_all(ops.take(i)).accepts(
                    ops[i],
                ) implies self.apply_all(ops.take(i)).target_id(ops[i]->id) != retired by {
                if i < ops.len() - 1 {
                    assert(ops.take(i) =~= front.take(i));
                    assert(ops[i] == front[i]);
                } else {
                    assert(ops.take(i) =~= front);
                }
            }
        }
    }

    /// A creation under the next identifier assigns an identifier that
    /// was never assigned before and that is above all that were.
    pub proof fn law_fresh_id_is_new(self)
        requires
            self.wf(),
            self.highest < u64::MAX,
        ensures
            self.target_id(None) == self.highest + 1,
            !self.slots.contains_key(self.target_id(None)),
            forall|id: u64| #[trigger] self.slots.contains_key(id) ==> id < self.target_id(None),
    {
    }

    /// The identifier that the creation of `entities[i]` is given, where
    /// `entities` are created first to last under the next identifier.
    pub open spec fn assigned_id(self, entities: Seq<V>, i: int) -> u64 {
        self.create_all(entities.take(i)).target_id(None)
    }

    /// Creations under the next identifier raise the highest identifier by
    /// one each, and leave what was there untouched.
    pub proof fn law_create_all_extends(self, entities: Seq<V>)
        requires
            self.wf(),
            self.highest + entities.len() <= u64::MAX,
        ensures
            self.create_all(entities).wf(),
            self.create_all(entities).highest == self.highest + entities.len(),
            forall|i: int|
                0 <= i < entities.len() ==> self.create_all(entities).lookup(
                    (self.highest + 1 + i) as u64,
                ) == Ok::<V, HrError>(#[trigger] entities[i]),
            forall|id: u64| #[trigger]
                self.slots.contains_key(id) ==> self.create_all(entities).slots.contains_key(id)
                    && self.create_all(entities).slots[id] == self.slots[id],
        decreases entities.len(),
    {
        if entities.len() > 0 {
            let front = entities.drop_last();
            self.law_create_all_extends(front);
            let before = self.create_all(front);
            let after = self.create_all(entities);
            assert(after == before.create(entities.last(), None));
            assert(before.target_id(None) == self.highest + entities.len());
            assert forall|i: int| 0 <= i < entities.len() implies after.lookup(
                (self.highest + 1 + i) as u64,
            ) == Ok::<V, HrError>(#[trigger] entities[i]) by {
                if i < entities.len() - 1 {
                    assert(entities[i] == front[i]);
                }
            }
        }
    }

    /// Creations under the next identifier assign consecutive
    /// identifiers, strictly ascending, each above every identifier
    /// assigned before it; each then denotes the entity it was given to.
    pub proof fn law_fresh_ids_ascend(self, entities: Seq<V>)
        requires
            self.wf(),
            self.highest + entities.len() <= u64::MAX,
        ensures
            forall|i: int|
                0 <= i < entities.len() ==> #[trigger] self.assigned_id(entities, i)
                    == self.highest + 1 + i,
            forall|i: int, j: int|
                0 <= i < j < entities.len() ==> #[trigger] self.assigned_id(entities, i)
                    < #[trigger] self.assigned_id(entities, j),
            forall|i: int|
                0 <= i < entities.len() ==> self.create_all(entities).lookup(
                    #[trigger] self.assigned_id(entities, i),
                ) == Ok::<V, HrError>(entities[i]),
    {
        assert forall|i: int| 0 <= i < entities.len() implies #[trigger] self.assigned_id(
            entities,
            i,
        ) == self.highest + 1 + i by {
            self.law_create_all_extends(entities.take(i));
        }
        self.law_create_all_extends(entities);
        assert forall|i: int| 0 <= i < entities.len() implies self.create_all(entities).lookup(
            #[trigger] self.assigned_id(entities, i),
        ) == Ok::<V, HrError>(entities[i]) by {
            assert(self.create_all(entities).lookup((self.highest + 1 + i) as u64) == Ok::<
                V,
                HrError,
            >(entities[i]));
        }
    }

    /// In a registry in which nothing was created yet, creations under the
    /// next identifier assign 1, 2, 3 and so on.
    pub proof fn law_first_ids_count_from_one(entities: Seq<V>)
        requires
            entities.len() <= u64::MAX,
        ensures
            forall|i: int|
                0 <= i < entities.len() ==> #[trigger] Self::empty().assigned_id(entities, i) == i
                    + 1,
    {
        Self::empty().law_fresh_ids_ascend(entities);
    }
}

} // verus!
