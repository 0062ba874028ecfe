//! What a registry stands for in contracts: its bindings and interceptors as
//! sequences, the operations on them, and the laws that these obey.

use crate::binder::Slot;
use crate::binding::BindingView;
use crate::binding::InterceptView;
use crate::graph::Graph;
use crate::graph::Node;
use crate::key::KeyView;
use vstd::prelude::*;

verus! {

/// What a [`Binder`] stands for in contracts.
#[verifier::reject_recursive_types(V)]
pub struct BinderView<V> {
    /// The primary bindings, in the order of their registration.
    pub binds: Seq<BindingView<V>>,
    /// The bindings that a primary binding of the same type supersedes.
    pub overridable: Seq<BindingView<V>>,
    /// The interceptors of all types, in the order of their registration.
    pub intercepts: Seq<InterceptView<V>>,
}

impl<V> BindingView<V> {
    /// The binding as resolution sees it.
    pub open spec fn node(self) -> Node {
        Node { key: self.key, dependencies: self.dependencies }
    }

    /// The bindings as resolution sees them.
    pub open spec fn nodes(bindings: Seq<BindingView<V>>) -> Seq<Node> {
        bindings.map_values(|b: BindingView<V>| b.node())
    }

    /// The position of the first binding of type `id` among `bindings`.
    pub open spec fn position(bindings: Seq<BindingView<V>>, id: u64) -> Option<int> {
        Node::position(Self::nodes(bindings), id)
    }

    /// The first binding of type `id` among `bindings`.
    pub open spec fn first(bindings: Seq<BindingView<V>>, id: u64) -> BindingView<V> {
        bindings[Self::position(bindings, id).unwrap()]
    }

    /// No type is bound twice among `bindings`.
    pub open spec fn unique(bindings: Seq<BindingView<V>>) -> bool {
        forall|i: int, j: int|
            0 <= i < j < bindings.len() ==> bindings[i].key.id != bindings[j].key.id
    }

    /// `mine`, followed by those of `theirs` whose type is not bound before
    /// them: the first binding of a type wins.
    pub open spec fn merged(mine: Seq<BindingView<V>>, theirs: Seq<BindingView<V>>) -> Seq<
        BindingView<V>,
    >
        decreases theirs.len(),
    {
        if theirs.len() == 0 {
            mine
        } else {
            let before = Self::merged(mine, theirs.drop_last());
            if Self::position(before, theirs.last().key.id).is_none() {
                before.push(theirs.last())
            } else {
                before
            }
        }
    }

    /// The positions of the eager bindings among `bindings`, ascending.
    pub open spec fn eager_positions(bindings: Seq<BindingView<V>>) -> Seq<int>
        decreases bindings.len(),
    {
        if bindings.len() == 0 {
            Seq::empty()
        } else {
            let before = Self::eager_positions(bindings.drop_last());
            if bindings.last().eager {
                before.push(bindings.len() - 1)
            } else {
                before
            }
        }
    }

    /// Merging keeps what was there: the bindings of `mine` stand at the
    /// front of the merged bindings, unchanged.
    pub proof fn law_merged_keeps(mine: Seq<BindingView<V>>, theirs: Seq<BindingView<V>>)
        ensures
            mine.len() <= Self::merged(mine, theirs).len(),
            Self::merged(mine, theirs).take(mine.len() as int) == mine,
        decreases theirs.len(),
    {
        if theirs.len() == 0 {
            assert(mine.take(mine.len() as int) == mine);
        } else {
            Self::law_merged_keeps(mine, theirs.drop_last());
            let before = Self::merged(mine, theirs.drop_last());
            assert(Self::merged(mine, theirs).take(mine.len() as int) =~= before.take(
                mine.len() as int,
            ));
        }
    }

    /// The first binding of a type wins a merge: a type that is bound in
    /// `mine` resolves, among the merged bindings, to the same binding of
    /// `mine`.
    pub proof fn law_first_wins(mine: Seq<BindingView<V>>, theirs: Seq<BindingView<V>>, id: u64)
        requires
            Self::position(mine, id).is_some(),
        ensures
            Self::position(Self::merged(mine, theirs), id) == Self::position(mine, id),
            Self::first(Self::merged(mine, theirs), id) == Self::first(mine, id),
    {
        let merged = Self::merged(mine, theirs);
        let i = Self::position(mine, id).unwrap();
        Self::law_merged_keeps(mine, theirs);
        Node::lemma_position(Self::nodes(mine), id);
        Node::lemma_position(Self::nodes(merged), id);
        assert(merged.take(mine.len() as int)[i] == merged[i]);
        assert forall|j: int| 0 <= j <= i implies Self::nodes(merged)[j].key == Self::nodes(
            mine,
        )[j].key by {
            assert(merged.take(mine.len() as int)[j] == merged[j]);
        }
    }

    /// A merge adds what was missing: a type that is bound in `theirs` and
    /// not in `mine` resolves, among the merged bindings, to the first
    /// binding of `theirs` for it.
    pub proof fn law_missing_joins(mine: Seq<BindingView<V>>, theirs: Seq<BindingView<V>>, id: u64)
        requires
            Self::position(mine, id).is_none(),
            Self::position(theirs, id).is_some(),
        ensures
            Self::position(Self::merged(mine, theirs), id).is_some(),
            Self::first(Self::merged(mine, theirs), id) == Self::first(theirs, id),
        decreases theirs.len(),
    {
        let front = theirs.drop_last();
        let before = Self::merged(mine, front);
        let merged = Self::merged(mine, theirs);
        Node::lemma_position(Self::nodes(theirs), id);
        Node::lemma_position(Self::nodes(front), id);
        Node::lemma_position(Self::nodes(before), id);
        Node::lemma_position(Self::nodes(merged), id);
        let j = Self::position(theirs, id).unwrap();
        assert(Self::nodes(theirs)[j].key == theirs[j].key);
        if j < front.len() {
            assert(Self::nodes(front)[j].key == front[j].key);
            assert(front[j] == theirs[j]);
            assert forall|k: int| 0 <= k < j implies Self::nodes(front)[k].key.id != id by {
                assert(Self::nodes(theirs)[k].key == Self::nodes(front)[k].key);
            }
            Self::law_missing_joins(mine, front, id);
            let p = Self::position(before, id).unwrap();
            assert forall|k: int| 0 <= k <= p implies Self::nodes(merged)[k].key == Self::nodes(
                before,
            )[k].key by {
                assert(merged[k] == before[k]);
            }
            assert(merged[p] == before[p]);
        } else {
            assert forall|k: int| 0 <= k < front.len() implies Self::nodes(front)[k].key.id
                != id by {
                assert(Self::nodes(theirs)[k].key == Self::nodes(front)[k].key);
            }
            Self::lemma_merged_origin(mine, front, id);
            assert(Self::position(before, id).is_none());
            assert(merged == before.push(theirs.last()));
            assert(Self::nodes(merged)[before.len() as int].key == theirs.last().key);
            assert forall|k: int| 0 <= k < before.len() implies Self::nodes(merged)[k].key.id
                != id by {
                assert(Self::nodes(merged)[k].key == Self::nodes(before)[k].key);
            }
        }
    }

    /// A type that neither `mine` nor `theirs` binds is not bound among the
    /// merged bindings.
    pub proof fn lemma_merged_origin(
        mine: Seq<BindingView<V>>,
        theirs: Seq<BindingView<V>>,
        id: u64,
    )
        requires
            Self::position(mine, id).is_none(),
            Self::position(theirs, id).is_none(),
        ensures
            Self::position(Self::merged(mine, theirs), id).is_none(),
        decreases theirs.len(),
    {
        if theirs.len() > 0 {
            let front = theirs.drop_last();
            let before = Self::merged(mine, front);
            let merged = Self::merged(mine, theirs);
            Node::lemma_position(Self::nodes(theirs), id);
            Node::lemma_position(Self::nodes(front), id);
            assert forall|k: int| 0 <= k < front.len() implies Self::nodes(front)[k].key.id
                != id by {
                assert(Self::nodes(theirs)[k].key == Self::nodes(front)[k].key);
            }
            Self::lemma_merged_origin(mine, front, id);
            Node::lemma_position(Self::nodes(before), id);
            Node::lemma_position(Self::nodes(merged), id);
            assert(Self::nodes(theirs)[theirs.len() - 1].key == theirs.last().key);
            assert forall|k: int| 0 <= k < merged.len() implies Self::nodes(merged)[k].key.id
                != id by {
                if k < before.len() {
                    assert(Self::nodes(merged)[k].key == Self::nodes(before)[k].key);
                }
            }
        }
    }

    /// A merge binds no type twice where `mine` binds none twice.
    pub proof fn law_merged_unique(mine: Seq<BindingView<V>>, theirs: Seq<BindingView<V>>)
        requires
            Self::unique(mine),
        ensures
            Self::unique(Self::merged(mine, theirs)),
        decreases theirs.len(),
    {
        if theirs.len() > 0 {
            let before = Self::merged(mine, theirs.drop_last());
            Self::law_merged_unique(mine, theirs.drop_last());
            if Self::position(before, theirs.last().key.id).is_none() {
                Self::law_bound_unique(before, theirs.last());
            }
        }
    }

    /// Binding a type that is not bound yet binds no type twice.
    pub proof fn law_bound_unique(bindings: Seq<BindingView<V>>, binding: BindingView<V>)
        requires
            Self::unique(bindings),
            Self::position(bindings, binding.key.id).is_none(),
        ensures
            Self::unique(bindings.push(binding)),
    {
        Node::lemma_position(Self::nodes(bindings), binding.key.id);
        let longer = bindings.push(binding);
        assert forall|i: int, j: int| 0 <= i < j < longer.len() implies longer[i].key.id
            != longer[j].key.id by {
            if j == bindings.len() {
                assert(Self::nodes(bindings)[i].key == bindings[i].key);
            }
        }
    }

    /// Bindings that differ in their instances only are eager at the same
    /// positions.
    pub proof fn lemma_eager_positions(mine: Seq<BindingView<V>>, theirs: Seq<BindingView<V>>)
        requires
            mine.len() == theirs.len(),
            forall|i: int| 0 <= i < mine.len() ==> (#[trigger] mine[i]).extends(theirs[i]),
        ensures
            Self::eager_positions(mine) == Self::eager_positions(theirs),
        decreases mine.len(),
    {
        if mine.len() > 0 {
            assert forall|i: int| 0 <= i < mine.drop_last().len() implies (
            #[trigger] mine.drop_last()[i]).extends(theirs.drop_last()[i]) by {
                assert(mine[i].extends(theirs[i]));
            }
            Self::lemma_eager_positions(mine.drop_last(), theirs.drop_last());
            assert(mine.last().extends(theirs.last()));
        }
    }
}

impl<V> InterceptView<V> {
    /// The positions among `intercepts` of the interceptors of type `id`,
    /// ascending: the order of their registration.
    pub open spec fn positions(intercepts: Seq<InterceptView<V>>, id: u64) -> Seq<int>
        decreases intercepts.len(),
    {
        if intercepts.len() == 0 {
            Seq::empty()
        } else {
            let before = Self::positions(intercepts.drop_last(), id);
            if intercepts.last().key.id == id {
                before.push(intercepts.len() - 1)
            } else {
                before
            }
        }
    }

    /// Whether `out` is what the interceptors at `positions`, called one
    /// after the other in that order, may make of `raw`: each receives what
    /// the one before it returned.
    pub open spec fn folded(
        intercepts: Seq<InterceptView<V>>,
        positions: Seq<int>,
        raw: V,
        out: V,
    ) -> bool
        decreases positions.len(),
    {
        if positions.len() == 0 {
            out == raw
        } else {
            exists|mid: V|
                {
                    &&& Self::folded(intercepts, positions.drop_last(), raw, mid)
                    &&& #[trigger] (intercepts[positions.last()].replaces)(mid, out)
                }
        }
    }

    /// The positions that `positions` lists are positions of `intercepts`.
    pub proof fn lemma_positions(intercepts: Seq<InterceptView<V>>, id: u64)
        ensures
            forall|k: int|
                0 <= k < Self::positions(intercepts, id).len() ==> 0 <= #[trigger] Self::positions(
                    intercepts,
                    id,
                )[k] < intercepts.len(),
        decreases intercepts.len(),
    {
        if intercepts.len() > 0 {
            let front = Self::positions(intercepts.drop_last(), id);
            Self::lemma_positions(intercepts.drop_last(), id);
            assert forall|k: int| 0 <= k < Self::positions(intercepts, id).len() implies 0
                <= #[trigger] Self::positions(intercepts, id)[k] < intercepts.len() by {
                if k < front.len() {
                    assert(Self::positions(intercepts, id)[k] == front[k]);
                }
            }
        }
    }

    /// What the interceptors at `positions` make of an instance depends on
    /// those interceptors only.
    pub proof fn lemma_folded_prefix(
        intercepts: Seq<InterceptView<V>>,
        longer: Seq<InterceptView<V>>,
        positions: Seq<int>,
        raw: V,
        out: V,
    )
        requires
            intercepts.len() <= longer.len(),
            longer.take(intercepts.len() as int) == intercepts,
            forall|k: int|
                0 <= k < positions.len() ==> 0 <= #[trigger] positions[k] < intercepts.len(),
        ensures
            Self::folded(longer, positions, raw, out) == Self::folded(
                intercepts,
                positions,
                raw,
                out,
            ),
        decreases positions.len(),
    {
        if positions.len() > 0 {
            let front = positions.drop_last();
            let last = positions.last();
            assert(positions[positions.len() - 1] == last);
            assert(longer.take(intercepts.len() as int)[last] == longer[last]);
            assert forall|k: int| 0 <= k < front.len() implies 0 <= #[trigger] front[k]
                < intercepts.len() by {
                assert(front[k] == positions[k]);
            }
            assert forall|mid: V|
                Self::folded(longer, front, raw, mid) == Self::folded(
                    intercepts,
                    front,
                    raw,
                    mid,
                ) by {
                Self::lemma_folded_prefix(intercepts, longer, front, raw, mid);
            }
            if Self::folded(longer, positions, raw, out) {
                let mid = choose|mid: V|
                    {
                        &&& Self::folded(longer, front, raw, mid)
                        &&& #[trigger] (longer[last].replaces)(mid, out)
                    };
                assert(Self::folded(intercepts, front, raw, mid) && (intercepts[last].replaces)(
                    mid,
                    out,
                ));
            }
            if Self::folded(intercepts, positions, raw, out) {
                let mid = choose|mid: V|
                    {
                        &&& Self::folded(intercepts, front, raw, mid)
                        &&& #[trigger] (intercepts[last].replaces)(mid, out)
                    };
                assert(Self::folded(longer, front, raw, mid) && (longer[last].replaces)(mid, out));
            }
        }
    }

    /// Interceptors apply in the order of their registration: once one more
    /// interceptor of a type is registered, it receives what the earlier
    /// interceptors of the type made of the instance, and what it returns
    /// is the result. An interceptor of another type changes nothing.
    pub proof fn law_registration_order(
        intercepts: Seq<InterceptView<V>>,
        interceptor: InterceptView<V>,
        id: u64,
        raw: V,
        out: V,
    )
        ensures
            Self::folded(
                intercepts.push(interceptor),
                Self::positions(intercepts.push(interceptor), id),
                raw,
                out,
            ) <==> if interceptor.key.id == id {
                exists|mid: V|
                    {
                        &&& Self::folded(intercepts, Self::positions(intercepts, id), raw, mid)
                        &&& #[trigger] (interceptor.replaces)(mid, out)
                    }
            } else {
                Self::folded(intercepts, Self::positions(intercepts, id), raw, out)
            },
    {
        let longer = intercepts.push(interceptor);
        let earlier = Self::positions(intercepts, id);
        assert(longer.drop_last() == intercepts);
        Self::lemma_positions(intercepts, id);
        assert forall|value: V| #[trigger]
            Self::folded(longer, earlier, raw, value) == Self::folded(
                intercepts,
                earlier,
                raw,
                value,
            ) by {
            Self::lemma_folded_prefix(intercepts, longer, earlier, raw, value);
        }
        if interceptor.key.id == id {
            let all = Self::positions(longer, id);
            assert(all.drop_last() == earlier);
            assert(longer[all.last()] == interceptor);
            if Self::folded(longer, all, raw, out) {
                let mid = choose|mid: V|
                    {
                        &&& Self::folded(longer, all.drop_last(), raw, mid)
                        &&& #[trigger] (longer[all.last()].replaces)(mid, out)
                    };
                assert(Self::folded(intercepts, earlier, raw, mid) && (interceptor.replaces)(
                    mid,
                    out,
                ));
            }
            if exists|mid: V|
                {
                    &&& Self::folded(intercepts, earlier, raw, mid)
                    &&& #[trigger] (interceptor.replaces)(mid, out)
                } {
                let mid = choose|mid: V|
                    {
                        &&& Self::folded(intercepts, earlier, raw, mid)
                        &&& #[trigger] (interceptor.replaces)(mid, out)
                    };
                assert(Self::folded(longer, all.drop_last(), raw, mid));
                assert((longer[all.last()].replaces)(mid, out));
            }
        }
    }
}

impl<V> BinderView<V> {
    /// The registry without any binding or interceptor.
    pub open spec fn empty() -> Self {
        BinderView { binds: Seq::empty(), overridable: Seq::empty(), intercepts: Seq::empty() }
    }

    /// Whether `slot` names a binding of the registry.
    pub open spec fn has(self, slot: Slot) -> bool {
        if slot.overridable {
            slot.index < self.overridable.len()
        } else {
            slot.index < self.binds.len()
        }
    }

    /// The binding that `slot` names.
    pub open spec fn at(self, slot: Slot) -> BindingView<V> {
        if slot.overridable {
            self.overridable[slot.index as int]
        } else {
            self.binds[slot.index as int]
        }
    }

    /// The bindings as resolution sees them.
    pub open spec fn graph(self) -> Graph {
        Graph {
            binds: BindingView::nodes(self.binds),
            overridable: BindingView::nodes(self.overridable),
        }
    }

    /// The bindings that hold an instance.
    pub open spec fn ready(self) -> Set<Slot> {
        Set::new(|slot: Slot| self.has(slot) && self.at(slot).instance.is_some())
    }

    /// The binding that resolves type `id`: the primary one or, where there
    /// is none, the overridable one.
    pub open spec fn lookup(self, id: u64) -> Option<Slot> {
        self.graph().lookup(id)
    }

    /// The registry with one more primary binding.
    pub open spec fn bound(self, binding: BindingView<V>) -> Self {
        BinderView { binds: self.binds.push(binding), ..self }
    }

    /// The registry with one more interceptor.
    pub open spec fn intercepted(self, interceptor: InterceptView<V>) -> Self {
        BinderView { intercepts: self.intercepts.push(interceptor), ..self }
    }

    /// The registry in which the primary binding of type `id`, if there is
    /// one, is eager.
    pub open spec fn eager(self, id: u64) -> Self {
        match BindingView::position(self.binds, id) {
            Some(i) => BinderView { binds: self.binds.update(i, self.binds[i].as_eager()), ..self },
            None => self,
        }
    }

    /// The registry after `other` was merged into it: its primary bindings
    /// join the primary ones unless the type is bound there already, and
    /// its interceptors follow the registry's own.
    pub open spec fn merge(self, other: Self) -> Self {
        BinderView {
            binds: BindingView::merged(self.binds, other.binds),
            overridable: self.overridable,
            intercepts: self.intercepts + other.intercepts,
        }
    }

    /// The registry after `other` was merged into it as defaults: its
    /// primary bindings join the overridable ones unless the type is bound
    /// there already, and its interceptors follow the registry's own.
    pub open spec fn merge_overridable(self, other: Self) -> Self {
        BinderView {
            binds: self.binds,
            overridable: BindingView::merged(self.overridable, other.binds),
            intercepts: self.intercepts + other.intercepts,
        }
    }

    /// The eager bindings: the primary ones in their order, then the
    /// overridable ones in theirs.
    pub open spec fn eager_slots(self) -> Seq<Slot> {
        BindingView::eager_positions(self.binds).map_values(
            |i: int| Slot { overridable: false, index: i as usize },
        ) + BindingView::eager_positions(self.overridable).map_values(
            |i: int| Slot { overridable: true, index: i as usize },
        )
    }

    /// A primary binding supersedes the defaults: a type with a primary
    /// binding resolves to it, whatever was merged in as defaults.
    pub proof fn law_override_wins(self, defaults: Self, id: u64)
        requires
            self.merge_overridable(defaults).graph().fits(),
            BindingView::position(self.binds, id).is_some(),
        ensures
            self.merge_overridable(defaults).lookup(id) matches Some(slot) && !slot.overridable
                && self.merge_overridable(defaults).at(slot) == BindingView::first(self.binds, id),
    {
        let merged = self.merge_overridable(defaults);
        Node::lemma_position(BindingView::nodes(self.binds), id);
        merged.graph().lemma_lookup(id);
    }

    /// A default applies where nothing supersedes it: a type that only the
    /// defaults bind resolves to their first binding of it.
    pub proof fn law_default_applies(self, defaults: Self, id: u64)
        requires
            self.merge_overridable(defaults).graph().fits(),
            BindingView::position(self.binds, id).is_none(),
            BindingView::position(self.overridable, id).is_none(),
            BindingView::position(defaults.binds, id).is_some(),
        ensures
            self.merge_overridable(defaults).lookup(id) matches Some(slot) && slot.overridable
                && self.merge_overridable(defaults).at(slot) == BindingView::first(
                defaults.binds,
                id,
            ),
    {
        let merged = self.merge_overridable(defaults);
        BindingView::law_missing_joins(self.overridable, defaults.binds, id);
        Node::lemma_position(BindingView::nodes(merged.overridable), id);
        merged.graph().lemma_lookup(id);
    }

    /// Bindings that are there win a merge: a type with a primary binding
    /// resolves to it, whatever is merged in.
    pub proof fn law_merge_keeps(self, other: Self, id: u64)
        requires
            self.merge(other).graph().fits(),
            BindingView::position(self.binds, id).is_some(),
        ensures
            self.merge(other).lookup(id) matches Some(slot) && !slot.overridable && self.merge(
                other,
            ).at(slot) == BindingView::first(self.binds, id),
    {
        let merged = self.merge(other);
        BindingView::law_first_wins(self.binds, other.binds, id);
        Node::lemma_position(BindingView::nodes(merged.binds), id);
        merged.graph().lemma_lookup(id);
    }

    /// A merge fills what is missing: a type that has no primary binding
    /// and that `other` binds resolves to the first binding of `other` for
    /// it.
    pub proof fn law_merge_fills(self, other: Self, id: u64)
        requires
            self.merge(other).graph().fits(),
            BindingView::position(self.binds, id).is_none(),
            BindingView::position(other.binds, id).is_some(),
        ensures
            self.merge(other).lookup(id) matches Some(slot) && !slot.overridable && self.merge(
                other,
            ).at(slot) == BindingView::first(other.binds, id),
    {
        let merged = self.merge(other);
        BindingView::law_missing_joins(self.binds, other.binds, id);
        Node::lemma_position(BindingView::nodes(merged.binds), id);
        merged.graph().lemma_lookup(id);
    }

    /// Whether the type of `key` resolves to a binding that holds an
    /// instance.
    pub open spec fn holds(self, key: KeyView) -> bool {
        self.lookup(key.id) matches Some(slot) && self.ready().contains(slot)
    }

    /// The instance of the binding that resolves the type of `key`.
    pub open spec fn instance_of(self, key: KeyView) -> V {
        self.at(self.lookup(key.id).unwrap()).instance.unwrap()
    }

    /// Whether each of the types `keys` resolves to a binding that holds an
    /// instance.
    pub open spec fn available(self, keys: Seq<KeyView>) -> bool {
        forall|j: int| 0 <= j < keys.len() ==> self.holds(#[trigger] keys[j])
    }

    /// The instances of the types `keys`, in their order.
    pub open spec fn instances_of(self, keys: Seq<KeyView>) -> Seq<V> {
        keys.map_values(|key: KeyView| self.instance_of(key))
    }

    /// Whether every dependency of the binding at `slot` resolves to a
    /// binding that holds an instance.
    pub open spec fn supplied(self, slot: Slot) -> bool {
        self.available(self.at(slot).dependencies)
    }

    /// The instances of the dependencies of the binding at `slot`, in their
    /// order: what its provider is called with.
    pub open spec fn arguments(self, slot: Slot) -> Seq<V> {
        self.instances_of(self.at(slot).dependencies)
    }

    /// Whether `out` is what the interceptors of type `id`, in the order of
    /// their registration, may make of `raw`.
    pub open spec fn intercepted_to(self, id: u64, raw: V, out: V) -> bool {
        InterceptView::folded(
            self.intercepts,
            InterceptView::positions(self.intercepts, id),
            raw,
            out,
        )
    }

    /// Whether the instance of the binding at `slot` is what the
    /// interceptors of its type, in the order of their registration, made of
    /// an instance that its provider handed out for the instances of its
    /// dependencies.
    pub open spec fn produced(self, slot: Slot) -> bool {
        exists|raw: V|
            #![trigger (self.at(slot).yields)(self.arguments(slot), raw)]
            {
                &&& (self.at(slot).yields)(self.arguments(slot), raw)
                &&& self.at(slot).instance.is_some()
                &&& self.intercepted_to(self.at(slot).key.id, raw, self.at(slot).instance.unwrap())
            }
    }

    /// Whether every instance is accounted for: a binding that holds one
    /// has dependencies that hold theirs, and its instance is what the
    /// interceptors of its type made of what its provider handed out for
    /// the instances of its dependencies.
    pub open spec fn sound(self) -> bool {
        forall|slot: Slot| #[trigger]
            self.ready().contains(slot) ==> self.supplied(slot) && self.produced(slot)
    }

    /// The registry without any instance.
    pub open spec fn unresolved(self) -> Self {
        BinderView {
            binds: self.binds.map_values(|b: BindingView<V>| b.unresolved()),
            overridable: self.overridable.map_values(|b: BindingView<V>| b.unresolved()),
            intercepts: self.intercepts,
        }
    }

    /// The registry in which the binding at `slot` holds `value`.
    pub open spec fn holding(self, slot: Slot, value: V) -> Self {
        if slot.overridable {
            BinderView {
                overridable: self.overridable.update(
                    slot.index as int,
                    self.overridable[slot.index as int].holding(value),
                ),
                ..self
            }
        } else {
            BinderView {
                binds: self.binds.update(
                    slot.index as int,
                    self.binds[slot.index as int].holding(value),
                ),
                ..self
            }
        }
    }

    /// Whether this is the registry `before` after resolutions: the
    /// interceptors are the same, and so is each binding, but that it may
    /// have memoized its instance.
    pub open spec fn extends(self, before: Self) -> bool {
        &&& self.intercepts == before.intercepts
        &&& self.binds.len() == before.binds.len()
        &&& self.overridable.len() == before.overridable.len()
        &&& forall|i: int|
            0 <= i < self.binds.len() ==> (#[trigger] self.binds[i]).extends(before.binds[i])
        &&& forall|i: int|
            0 <= i < self.overridable.len() ==> (#[trigger] self.overridable[i]).extends(
                before.overridable[i],
            )
    }

    /// Resolutions leave the dependency graph as it is.
    pub proof fn lemma_extends(self, before: Self)
        requires
            self.extends(before),
        ensures
            self.graph() == before.graph(),
            before.ready().subset_of(self.ready()),
            forall|slot: Slot| self.has(slot) == before.has(slot),
    {
        assert(self.graph().binds =~= before.graph().binds);
        assert(self.graph().overridable =~= before.graph().overridable);
        assert forall|slot: Slot| before.ready().contains(slot) implies self.ready().contains(
            slot,
        ) by {
            if slot.overridable {
                assert(self.overridable[slot.index as int].extends(
                    before.overridable[slot.index as int],
                ));
            } else {
                assert(self.binds[slot.index as int].extends(before.binds[slot.index as int]));
            }
        }
    }

    /// Resolutions leave the eager bindings as they are.
    pub proof fn lemma_extends_eager(self, before: Self)
        requires
            self.extends(before),
        ensures
            self.eager_slots() == before.eager_slots(),
    {
        BindingView::lemma_eager_positions(self.binds, before.binds);
        BindingView::lemma_eager_positions(self.overridable, before.overridable);
    }

    /// A resolution that made no binding ready left the registry as it was.
    pub proof fn law_unchanged(self, before: Self)
        requires
            before.graph().fits(),
            self.extends(before),
            self.ready() == before.ready(),
        ensures
            self == before,
    {
        assert forall|i: int| 0 <= i < self.binds.len() implies self.binds[i]
            == before.binds[i] by {
            let slot = Slot { overridable: false, index: i as usize };
            assert(self.binds[i].extends(before.binds[i]));
            assert(self.ready().contains(slot) == before.ready().contains(slot));
            assert(self.at(slot) == self.binds[i]);
            assert(before.at(slot) == before.binds[i]);
            assert(self.has(slot) && before.has(slot));
            assert(self.ready().contains(slot) == self.binds[i].instance.is_some());
            assert(before.ready().contains(slot) == before.binds[i].instance.is_some());
            assert(self.binds[i].instance == before.binds[i].instance);
        }
        assert forall|i: int| 0 <= i < self.overridable.len() implies self.overridable[i]
            == before.overridable[i] by {
            let slot = Slot { overridable: true, index: i as usize };
            assert(self.overridable[i].extends(before.overridable[i]));
            assert(self.ready().contains(slot) == before.ready().contains(slot));
            assert(self.at(slot) == self.overridable[i]);
            assert(before.at(slot) == before.overridable[i]);
            assert(self.has(slot) && before.has(slot));
            assert(self.ready().contains(slot) == self.overridable[i].instance.is_some());
            assert(before.ready().contains(slot) == before.overridable[i].instance.is_some());
            assert(self.overridable[i].instance == before.overridable[i].instance);
        }
        assert(self.binds =~= before.binds);
        assert(self.overridable =~= before.overridable);
    }

    /// A registry without instances is sound.
    pub proof fn lemma_unresolved_sound(self)
        ensures
            self.unresolved().ready() == Set::<Slot>::empty(),
            self.unresolved().sound(),
            self.unresolved().graph() == self.graph(),
            self.unresolved().intercepts == self.intercepts,
    {
        let fresh = self.unresolved();
        assert forall|slot: Slot| !fresh.ready().contains(slot) by {
            if fresh.has(slot) {
                if slot.overridable {
                    assert(fresh.overridable[slot.index as int].instance.is_none());
                } else {
                    assert(fresh.binds[slot.index as int].instance.is_none());
                }
            }
        }
        assert(fresh.ready() =~= Set::<Slot>::empty());
        assert(fresh.graph().binds =~= self.graph().binds);
        assert(fresh.graph().overridable =~= self.graph().overridable);
    }

    /// Memoizing the first instance of a binding is a resolution step: the
    /// registry extends the one before, the binding is ready, and every
    /// other binding is as it was.
    pub proof fn lemma_holding(self, slot: Slot, value: V)
        requires
            self.has(slot),
            self.at(slot).instance.is_none(),
        ensures
            self.holding(slot, value).extends(self),
            self.holding(slot, value).graph() == self.graph(),
            self.holding(slot, value).ready() == self.ready().insert(slot),
            self.holding(slot, value).at(slot) == self.at(slot).holding(value),
            forall|other: Slot|
                other != slot && self.has(other) ==> self.holding(slot, value).at(other)
                    == self.at(other),
    {
        let after = self.holding(slot, value);
        assert(after.extends(self));
        after.lemma_extends(self);
        assert(after.ready() =~= self.ready().insert(slot)) by {
            assert forall|other: Slot| after.ready().contains(other) == self.ready().insert(
                slot,
            ).contains(other) by {
                if other != slot && self.has(other) {
                    assert(after.at(other) == self.at(other));
                }
            }
        }
    }

    /// Memoizing what the provider and the interceptors of a binding made
    /// of the instances of its dependencies keeps a registry sound.
    pub proof fn lemma_holding_sound(self, slot: Slot, raw: V, value: V)
        requires
            self.sound(),
            self.has(slot),
            self.at(slot).instance.is_none(),
            self.supplied(slot),
            (self.at(slot).yields)(self.arguments(slot), raw),
            self.intercepted_to(self.at(slot).key.id, raw, value),
        ensures
            self.holding(slot, value).sound(),
            self.holding(slot, value).produced(slot),
    {
        let after = self.holding(slot, value);
        self.lemma_holding(slot, value);
        assert forall|other: Slot| after.ready().contains(other) implies after.supplied(other)
            && after.produced(other) by {
            let keys = after.at(other).dependencies;
            if other == slot {
                assert(self.supplied(other));
            } else {
                assert(self.ready().contains(other));
                assert(after.at(other) == self.at(other));
            }
            assert(keys == self.at(other).dependencies);
            assert forall|j: int| 0 <= j < keys.len() implies after.holds(#[trigger] keys[j])
                && after.instance_of(keys[j]) == self.instance_of(keys[j]) by {
                assert(self.holds(keys[j]));
                let supplier = self.lookup(keys[j].id).unwrap();
                assert(self.ready().contains(supplier));
                assert(supplier != slot);
                assert(after.at(supplier) == self.at(supplier));
            }
            assert(after.arguments(other) =~= self.arguments(other));
            if other == slot {
                assert((after.at(slot).yields)(after.arguments(slot), raw));
                assert(after.intercepted_to(after.at(slot).key.id, raw, value));
            } else {
                let made = choose|made: V|
                    #![trigger (self.at(other).yields)(self.arguments(other), made)]
                    {
                        &&& (self.at(other).yields)(self.arguments(other), made)
                        &&& self.at(other).instance.is_some()
                        &&& self.intercepted_to(
                            self.at(other).key.id,
                            made,
                            self.at(other).instance.unwrap(),
                        )
                    };
                assert((after.at(other).yields)(after.arguments(other), made));
            }
        }
    }
}

} // verus!
