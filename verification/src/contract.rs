//! The contract: the collection registry, the trait catalog, the finalizer
//! and the draw engine, all operating on one explicit state value.
//!
//! Every operation is a single transaction: it either commits its whole
//! effect or fails with an [`Error`] and leaves the state unchanged. The
//! contracts below say exactly which inputs commit and which fail, over the
//! mathematical model [`ContractModel`] of the state.

use vstd::prelude::*;

use crate::rng::{get_random_number, RandomSource};
use crate::types::{
    bytes_eq, copy_bytes, copy_trait, copy_traits, copy_value, distributed_from, has_option,
    appended_option_model, is_ready_model, lemma_weighted_indices_len, lemma_weighted_indices_nonempty,
    option_names_distinct, sum_totals, traits_view, AssetTrait, CollectionModel, Error,
    OptionModel, TraitCollection, TraitModel, TraitOptionItem, TraitOptionValue, ValueModel,
};

verus! {

/// One trait's contribution to an assignment: the trait's name and the
/// value of the option chosen for it.
#[derive(Clone, Debug, Eq, PartialEq)]
pub struct TraitChoice {
    pub trait_name: Vec<u8>,
    pub value: TraitOptionValue,
}

/// Mathematical model of a [`TraitChoice`].
pub struct ChoiceModel {
    pub trait_name: Seq<u8>,
    pub value: ValueModel,
}

impl View for TraitChoice {
    type V = ChoiceModel;

    open spec fn view(&self) -> ChoiceModel {
        ChoiceModel { trait_name: self.trait_name@, value: self.value@ }
    }
}

/// One stored assignment: the request identifier and the value chosen for
/// every trait. Entries are never mutated once written, except that an
/// empty placeholder (possible only while the catalog has no traits) may
/// be refreshed by a later draw for the same identifier.
#[derive(Clone, Debug, Eq, PartialEq)]
pub struct AssignmentEntry {
    pub id: Vec<u8>,
    pub choices: Vec<TraitChoice>,
}

/// Mathematical model of an [`AssignmentEntry`].
pub struct EntryModel {
    pub id: Seq<u8>,
    pub choices: Seq<ChoiceModel>,
}

impl View for AssignmentEntry {
    type V = EntryModel;

    open spec fn view(&self) -> EntryModel {
        EntryModel { id: self.id@, choices: choices_view(self.choices@) }
    }
}

/// The models of a sequence of choices.
pub open spec fn choices_view(s: Seq<TraitChoice>) -> Seq<ChoiceModel> {
    Seq::new(s.len(), |i: int| s[i]@)
}

/// The models of a sequence of assignment entries.
pub open spec fn entries_view(s: Seq<AssignmentEntry>) -> Seq<EntryModel> {
    Seq::new(s.len(), |i: int| s[i]@)
}

/// An element-wise copy of an assignment, equal to the original in its
/// model.
pub fn copy_choices(v: &Vec<TraitChoice>) -> (r: Vec<TraitChoice>)
    ensures
        choices_view(r@) == choices_view(v@),
{
    let mut r: Vec<TraitChoice> = Vec::new();
    let mut i: usize = 0;
    while i < v.len()
        invariant
            i <= v.len(),
            r@.len() == i,
            forall|j: int| 0 <= j < i ==> (#[trigger] r@[j])@ == v@[j]@,
        decreases v.len() - i,
    {
        r.push(TraitChoice {
            trait_name: copy_bytes(&v[i].trait_name),
            value: copy_value(&v[i].value),
        });
        i = i + 1;
    }
    proof {
        assert(choices_view(r@) =~= choices_view(v@));
    }
    r
}

/// Mathematical model of the whole contract state.
pub struct ContractModel {
    pub collection: Option<CollectionModel>,
    pub traits: Seq<TraitModel>,
    pub finalized: bool,
    pub assigned: Seq<EntryModel>,
}

/// No two traits of the catalog share a name.
pub open spec fn trait_names_distinct(ts: Seq<TraitModel>) -> bool {
    forall|i: int, j: int| 0 <= i < j < ts.len() ==> ts[i].name != ts[j].name
}

/// Some trait of the catalog bears the given name.
pub open spec fn has_trait(ts: Seq<TraitModel>, name: Seq<u8>) -> bool {
    exists|i: int| 0 <= i < ts.len() && ts[i].name == name
}

/// The index of the trait bearing the given name; meaningful whenever the
/// names are distinct and such a trait exists.
pub open spec fn trait_index(ts: Seq<TraitModel>, name: Seq<u8>) -> int {
    choose|i: int| 0 <= i < ts.len() && ts[i].name == name
}

/// No two stored assignments share an identifier.
pub open spec fn entry_ids_distinct(es: Seq<EntryModel>) -> bool {
    forall|i: int, j: int| 0 <= i < j < es.len() ==> es[i].id != es[j].id
}

/// Some stored assignment bears the given identifier.
pub open spec fn has_id(es: Seq<EntryModel>, id: Seq<u8>) -> bool {
    exists|i: int| 0 <= i < es.len() && es[i].id == id
}

/// The index of the assignment stored for the identifier; meaningful
/// whenever the identifiers are distinct and such an entry exists.
pub open spec fn entry_index(es: Seq<EntryModel>, id: Seq<u8>) -> int {
    choose|i: int| 0 <= i < es.len() && es[i].id == id
}

/// The per-trait choices stored for the identifier.
pub open spec fn stored_choices(es: Seq<EntryModel>, id: Seq<u8>) -> Seq<ChoiceModel> {
    es[entry_index(es, id)].choices
}

/// Whether the store holds a non-empty assignment for the identifier.
pub open spec fn has_nonempty_assignment(es: Seq<EntryModel>, id: Seq<u8>) -> bool {
    has_id(es, id) && stored_choices(es, id).len() > 0
}

/// A trait as `finalize` leaves it against a collection of the given
/// size: ready, every option holding a share of at least one with the
/// full share still available, and the shares summing exactly to the
/// collection size.
pub open spec fn trait_finalized(t: TraitModel, size: u32) -> bool {
    &&& t.name.len() > 0
    &&& 1 <= t.options.len() <= size
    &&& sum_totals(t.options) == size
    &&& forall|k: int|
        0 <= k < t.options.len() ==> (#[trigger] t.options[k]).total >= 1 && t.options[k].available
            == t.options[k].total
}

/// The value belongs to one of the options that still has supply left.
pub open spec fn value_from_available(v: ValueModel, os: Seq<OptionModel>) -> bool {
    exists|j: int| 0 <= j < os.len() && (#[trigger] os[j]).available > 0 && v == os[j].value
}

/// One assignment drawn against a catalog: one choice per trait in catalog
/// order, each carrying the value of an option of its trait that had
/// supply left.
pub open spec fn choices_match_traits(cs: Seq<ChoiceModel>, ts: Seq<TraitModel>) -> bool {
    &&& cs.len() == ts.len()
    &&& forall|i: int| 0 <= i < ts.len() ==> (#[trigger] cs[i]).trait_name == ts[i].name
    &&& forall|i: int|
        0 <= i < ts.len() ==> value_from_available((#[trigger] cs[i]).value, ts[i].options)
}

/// Every trait of the catalog is ready for finalization against a
/// collection of the given size.
pub open spec fn all_ready(ts: Seq<TraitModel>, size: u32) -> bool {
    forall|i: int| 0 <= i < ts.len() ==> is_ready_model(#[trigger] ts[i], size)
}

/// Law: in a finalized contract, every trait's option shares sum exactly
/// to the collection size, every trait offers at least one option, and
/// every option holds a share of at least one with the full share still
/// available.
pub proof fn lemma_finalized_shares(m: ContractModel, i: int)
    requires
        state_inv(m),
        m.finalized,
        0 <= i < m.traits.len(),
    ensures
        sum_totals(m.traits[i].options) == m.collection.unwrap().size,
        m.traits[i].options.len() >= 1,
        forall|k: int|
            0 <= k < m.traits[i].options.len() ==> (#[trigger] m.traits[i].options[k]).total >= 1
                && m.traits[i].options[k].available == m.traits[i].options[k].total,
{
    assert(trait_finalized(m.traits[i], m.collection.unwrap().size));
}

/// Law: the assignment store of a finalized contract never holds more
/// distinct identifiers than the collection has items, never the same
/// identifier twice, and every stored assignment chooses one option per
/// trait in catalog order.
pub proof fn lemma_assignment_store_capped(m: ContractModel)
    requires
        state_inv(m),
        m.finalized,
    ensures
        m.assigned.len() <= m.collection.unwrap().size,
        entry_ids_distinct(m.assigned),
        forall|i: int|
            0 <= i < m.assigned.len() ==> choices_match_traits(
                (#[trigger] m.assigned[i]).choices,
                m.traits,
            ),
{
}

/// Well-formedness of the contract state: what `new` establishes and
/// every operation preserves.
pub open spec fn state_inv(m: ContractModel) -> bool {
    &&& m.collection is None ==> m.traits.len() == 0 && !m.finalized && m.assigned.len() == 0
    &&& !m.finalized ==> m.assigned.len() == 0
    &&& m.finalized ==> m.collection is Some
    &&& trait_names_distinct(m.traits)
    &&& forall|i: int|
        0 <= i < m.traits.len() ==> option_names_distinct((#[trigger] m.traits[i]).options)
    &&& !m.finalized ==> forall|i: int, k: int|
        0 <= i < m.traits.len() && 0 <= k < m.traits[i].options.len() ==> (
        #[trigger] m.traits[i].options[k]).total == 0 && m.traits[i].options[k].available == 0
    &&& m.finalized ==> forall|i: int|
        0 <= i < m.traits.len() ==> trait_finalized(#[trigger] m.traits[i], m.collection.unwrap().size)
    &&& m.finalized ==> m.assigned.len() <= m.collection.unwrap().size
    &&& entry_ids_distinct(m.assigned)
    &&& forall|i: int|
        0 <= i < m.assigned.len() ==> choices_match_traits(
            (#[trigger] m.assigned[i]).choices,
            m.traits,
        )
}

/// The contract state: the one collection, the trait catalog, the
/// finalized flag and the assignment store.
pub struct TraitContract {
    collection: Option<TraitCollection>,
    traits: Vec<AssetTrait>,
    finalized: bool,
    assigned: Vec<AssignmentEntry>,
}

impl View for TraitContract {
    type V = ContractModel;

    closed spec fn view(&self) -> ContractModel {
        ContractModel {
            collection: match self.collection {
                Option::Some(c) => Option::Some(c@),
                Option::None => Option::None,
            },
            traits: traits_view(self.traits@),
            finalized: self.finalized,
            assigned: entries_view(self.assigned@),
        }
    }
}

impl TraitContract {
    /// Well-formedness of this contract state; established by [`Self::new`]
    /// and preserved by every operation.
    pub open spec fn wf(&self) -> bool {
        state_inv(self@)
    }

    /// A fresh state: no collection, no traits, not finalized, nothing
    /// assigned.
    pub fn new() -> (r: Self)
        ensures
            r.wf(),
            r@.collection is None,
            r@.traits.len() == 0,
            !r@.finalized,
            r@.assigned.len() == 0,
    {
        TraitContract {
            collection: Option::None,
            traits: Vec::new(),
            finalized: false,
            assigned: Vec::new(),
        }
    }

    /// The trait catalog as it currently stands.
    pub fn get_traits(&self) -> (r: &Vec<AssetTrait>)
        ensures
            traits_view(r@) == self@.traits,
    {
        &self.traits
    }

    /// The collection, if `init` has run.
    pub fn get_collection(&self) -> (r: &Option<TraitCollection>)
        ensures
            r is Some <==> self@.collection is Some,
            r matches Some(c) ==> self@.collection == Option::Some(c@),
    {
        &self.collection
    }

    /// Whether `finalize` has run.
    pub fn is_finalized(&self) -> (r: bool)
        ensures
            r == self@.finalized,
    {
        self.finalized
    }

    /// How many distinct identifiers hold a stored assignment.
    pub fn assigned_count(&self) -> (r: usize)
        ensures
            r == self@.assigned.len(),
    {
        self.assigned.len()
    }

    /// Whether the store holds an assignment for the identifier.
    pub fn has_assignment(&self, id: &Vec<u8>) -> (r: bool)
        ensures
            r == has_id(self@.assigned, id@),
    {
        match self.find_entry(id) {
            Option::Some(_) => true,
            Option::None => false,
        }
    }

    /// Creates the collection: the pool's name and its fixed size. Fails
    /// `AlreadyInitialized` if, and only if, the collection already
    /// exists; the collection is created exactly once and is immutable
    /// thereafter. A zero size is not rejected here: such a pool is
    /// rejected later, because no trait can ever be ready against it.
    pub fn init(&mut self, name: Vec<u8>, size: u32) -> (r: Result<TraitCollection, Error>)
        requires
            old(self).wf(),
        ensures
            final(self).wf(),
            old(self)@.collection is Some ==> r == Result::<TraitCollection, Error>::Err(
                Error::AlreadyInitialized,
            ) && final(self)@ == old(self)@,
            old(self)@.collection is None ==> (r matches Ok(c) && c@ == (CollectionModel {
                name: name@,
                size,
            }) && final(self)@.collection == Option::Some(c@) && final(self)@.traits == old(self)@.traits && final(self)@.finalized == old(self)@.finalized && final(self)@.assigned
                == old(self)@.assigned),
    {
        if self.collection.is_some() {
            return Err(Error::AlreadyInitialized);
        }
        let ret = TraitCollection { name: copy_bytes(&name), size };
        self.collection = Option::Some(TraitCollection { name, size });
        Ok(ret)
    }

    /// Appends a trait with the given name and description and an empty
    /// option sequence, and returns the full updated catalog. Fails
    /// `NotInitialized` without a collection, `TraitNotReady` once the
    /// catalog is frozen by finalization, and `TraitExists` if, and only
    /// if, the name is already present; nothing changes on failure.
    pub fn add_trait(&mut self, name: Vec<u8>, desc: Vec<u8>) -> (r: Result<
        Vec<AssetTrait>,
        Error,
    >)
        requires
            old(self).wf(),
        ensures
            final(self).wf(),
            old(self)@.collection is None ==> r == Result::<Vec<AssetTrait>, Error>::Err(
                Error::NotInitialized,
            ) && final(self)@ == old(self)@,
            old(self)@.collection is Some && old(self)@.finalized ==> r == Result::<
                Vec<AssetTrait>,
                Error,
            >::Err(Error::TraitNotReady) && final(self)@ == old(self)@,
            old(self)@.collection is Some && !old(self)@.finalized && has_trait(
                old(self)@.traits,
                name@,
            ) ==> r == Result::<Vec<AssetTrait>, Error>::Err(Error::TraitExists) && final(self)@
                == old(self)@,
            old(self)@.collection is Some && !old(self)@.finalized && !has_trait(
                old(self)@.traits,
                name@,
            ) ==> (r matches Ok(ts) && traits_view(ts@) == final(self)@.traits && final(self)@.traits == old(self)@.traits.push(
                (TraitModel { name: name@, desc: desc@, options: Seq::empty() }),
            ) && final(self)@.collection == old(self)@.collection && final(self)@.finalized == old(self)@.finalized && final(self)@.assigned == old(self)@.assigned),
    {
        if self.collection.is_none() {
            return Err(Error::NotInitialized);
        }
        if self.finalized {
            return Err(Error::TraitNotReady);
        }
        let mut i: usize = 0;
        while i < self.traits.len()
            invariant
                self@ == old(self)@,
                old(self).wf(),
                old(self)@.collection is Some,
                !old(self)@.finalized,
                i <= self@.traits.len(),
                forall|j: int| 0 <= j < i ==> (#[trigger] self@.traits[j]).name != name@,
            decreases self@.traits.len() - i,
        {
            if bytes_eq(&self.traits[i].name, &name) {
                proof {
                    assert(self@.traits[i as int].name == name@);
                }
                return Err(Error::TraitExists);
            }
            i = i + 1;
        }
        let ghost pre = self@;
        let new_trait = AssetTrait { name, desc, options: Vec::new() };
        let ghost tm = new_trait@;
        self.traits.push(new_trait);
        proof {
            assert(tm.options =~= Seq::empty());
            assert(tm == (TraitModel { name: name@, desc: desc@, options: Seq::empty() }));
            assert(self@.traits =~= pre.traits.push(tm));
            assert forall|a: int, b: int|
                0 <= a < b < self@.traits.len() implies self@.traits[a].name != self@.traits[
                b
            ].name by {
                if b < pre.traits.len() {
                    assert(pre.traits[a].name != pre.traits[b].name);
                } else {
                    assert(self@.traits[b] == tm);
                    assert(pre.traits[a].name != name@);
                }
            }
            assert forall|a: int|
                0 <= a < self@.traits.len() implies option_names_distinct(
                (#[trigger] self@.traits[a]).options,
            ) by {
                if a < pre.traits.len() {
                    assert(self@.traits[a] == pre.traits[a]);
                    assert(option_names_distinct(pre.traits[a].options));
                } else {
                    assert(self@.traits[a].options.len() == 0);
                }
            }
            assert forall|a: int, k: int|
                0 <= a < self@.traits.len() && 0 <= k < self@.traits[a].options.len() implies (
            #[trigger] self@.traits[a].options[k]).total == 0 && self@.traits[a].options[
                k
            ].available == 0 by {
                assert(a < pre.traits.len());
                assert(self@.traits[a] == pre.traits[a]);
            }
        }
        let ret = copy_traits(&self.traits);
        Ok(ret)
    }

    /// Appends an option carrying the given value (and no share yet) to
    /// the trait bearing `to_trait`, and returns the updated trait. Fails
    /// `NotInitialized` without a collection, `TraitNotReady` once the
    /// catalog is frozen, `TraitNotFound` if, and only if, no trait bears
    /// `to_trait`, and `OptionAlreadyExistsOnTrait` if, and only if, that
    /// trait already offers `option_name`; nothing changes on failure.
    /// Both names must be non-empty.
    pub fn add_option(
        &mut self,
        to_trait: Vec<u8>,
        option_name: Vec<u8>,
        option_value: TraitOptionValue,
    ) -> (r: Result<AssetTrait, Error>)
        requires
            old(self).wf(),
            to_trait@.len() > 0,
            option_name@.len() > 0,
        ensures
            final(self).wf(),
            old(self)@.collection is None ==> r == Result::<AssetTrait, Error>::Err(
                Error::NotInitialized,
            ) && final(self)@ == old(self)@,
            old(self)@.collection is Some && old(self)@.finalized ==> r == Result::<
                AssetTrait,
                Error,
            >::Err(Error::TraitNotReady) && final(self)@ == old(self)@,
            old(self)@.collection is Some && !old(self)@.finalized && !has_trait(
                old(self)@.traits,
                to_trait@,
            ) ==> r == Result::<AssetTrait, Error>::Err(Error::TraitNotFound) && final(self)@
                == old(self)@,
            old(self)@.collection is Some && !old(self)@.finalized && has_trait(
                old(self)@.traits,
                to_trait@,
            ) && has_option(
                old(self)@.traits[trait_index(old(self)@.traits, to_trait@)].options,
                option_name@,
            ) ==> r == Result::<AssetTrait, Error>::Err(Error::OptionAlreadyExistsOnTrait)
                && final(self)@ == old(self)@,
            old(self)@.collection is Some && !old(self)@.finalized && has_trait(
                old(self)@.traits,
                to_trait@,
            ) && !has_option(
                old(self)@.traits[trait_index(old(self)@.traits, to_trait@)].options,
                option_name@,
            ) ==> (r matches Ok(t) && final(self)@.traits == old(self)@.traits.update(
                trait_index(old(self)@.traits, to_trait@),
                appended_option_model(
                    old(self)@.traits[trait_index(old(self)@.traits, to_trait@)],
                    option_name@,
                    option_value@,
                ),
            ) && t@ == final(self)@.traits[trait_index(old(self)@.traits, to_trait@)] && final(self)@.collection == old(self)@.collection && final(self)@.finalized == old(self)@.finalized && final(self)@.assigned == old(self)@.assigned),
    {
        if self.collection.is_none() {
            return Err(Error::NotInitialized);
        }
        if self.finalized {
            return Err(Error::TraitNotReady);
        }
        let found = self.get_trait(&to_trait);
        match found {
            Option::None => Err(Error::TraitNotFound),
            Option::Some(mut found_trait) => {
                let ghost k0 = choose|k: int|
                    0 <= k < old(self)@.traits.len() && (#[trigger] old(self)@.traits[k]).name
                        == to_trait@ && found_trait@ == old(self)@.traits[k] && (forall|j: int|
                        0 <= j < k ==> (#[trigger] old(self)@.traits[j]).name != to_trait@);
                let ghost ti = trait_index(old(self)@.traits, to_trait@);
                proof {
                    assert(old(self)@.traits[k0].name == to_trait@);
                    assert(0 <= ti < old(self)@.traits.len() && old(self)@.traits[ti].name
                        == to_trait@);
                    assert(ti == k0) by {
                        if ti < k0 {
                            assert(old(self)@.traits[ti].name != old(self)@.traits[k0].name);
                        } else if k0 < ti {
                            assert(old(self)@.traits[k0].name != old(self)@.traits[ti].name);
                        }
                    }
                }
                if Self::trait_has_option(&found_trait, &option_name) {
                    return Err(Error::OptionAlreadyExistsOnTrait);
                }
                let ghost om = OptionModel {
                    name: option_name@,
                    value: option_value@,
                    available: 0,
                    total: 0,
                };
                found_trait.options.push(
                    TraitOptionItem::new(option_name, Option::Some(option_value)),
                );
                proof {
                    assert(found_trait@.options =~= old(self)@.traits[k0].options.push(om));
                    assert(found_trait@ == appended_option_model(
                        old(self)@.traits[k0],
                        om.name,
                        om.value,
                    ));
                }
                let ghost um = found_trait@;
                let ret = copy_trait(&found_trait);
                let was_updated = self.update_trait(found_trait);
                proof {
                    assert(has_trait(old(self)@.traits, um.name)) by {
                        assert(old(self)@.traits[k0].name == um.name);
                    }
                    assert(was_updated);
                    let k1 = choose|k: int|
                        0 <= k < old(self)@.traits.len() && (#[trigger] old(self)@.traits[k]).name
                            == um.name && (forall|j: int|
                            0 <= j < k ==> (#[trigger] old(self)@.traits[j]).name != um.name)
                            && self@.traits == old(self)@.traits.update(k, um);
                    assert(k1 == k0) by {
                        if k1 < k0 {
                            assert(old(self)@.traits[k1].name != old(self)@.traits[k0].name);
                        } else if k0 < k1 {
                            assert(old(self)@.traits[k0].name != old(self)@.traits[k1].name);
                        }
                    }
                    assert(self@.traits == old(self)@.traits.update(k0, um));
                    assert(self@.traits[k0] == um);
                    assert forall|a: int, b: int|
                        0 <= a < b < self@.traits.len() implies self@.traits[a].name
                        != self@.traits[b].name by {
                        assert(self@.traits[a].name == old(self)@.traits[a].name);
                        assert(self@.traits[b].name == old(self)@.traits[b].name);
                        assert(old(self)@.traits[a].name != old(self)@.traits[b].name);
                    }
                    assert forall|a: int|
                        0 <= a < self@.traits.len() implies option_names_distinct(
                        (#[trigger] self@.traits[a]).options,
                    ) by {
                        if a != k0 {
                            assert(self@.traits[a] == old(self)@.traits[a]);
                            assert(option_names_distinct(old(self)@.traits[a].options));
                        } else {
                            let os = self@.traits[k0].options;
                            let pre_os = old(self)@.traits[k0].options;
                            assert forall|p: int, q: int|
                                0 <= p < q < os.len() implies os[p].name != os[q].name by {
                                if q < pre_os.len() {
                                    assert(pre_os[p].name != pre_os[q].name);
                                } else {
                                    assert(os[q] == om);
                                    assert(!has_option(pre_os, option_name@));
                                    assert(os[p] == pre_os[p]);
                                    if pre_os[p].name == option_name@ {
                                        assert(has_option(pre_os, option_name@));
                                    }
                                }
                            }
                        }
                    }
                    assert forall|a: int, k: int|
                        0 <= a < self@.traits.len() && 0 <= k < self@.traits[a].options.len()
                        implies (#[trigger] self@.traits[a].options[k]).total == 0
                        && self@.traits[a].options[k].available == 0 by {
                        if a != k0 {
                            assert(self@.traits[a] == old(self)@.traits[a]);
                        } else {
                            if k < old(self)@.traits[k0].options.len() {
                                assert(self@.traits[k0].options[k] == old(self)@.traits[k0].options[k]);
                            } else {
                                assert(self@.traits[k0].options[k] == om);
                            }
                        }
                    }
                }
                Ok(ret)
            },
        }
    }

    /// Freezes the catalog: validates readiness, partitions the
    /// collection size across each trait's options, initializes the empty
    /// assignment store and sets the finalized flag. Fails
    /// `NotInitialized` without a collection, and `TraitNotReady` if, and
    /// only if, some trait is not ready (a catalog with no traits
    /// trivially passes); nothing changes on failure. The shares are
    /// checked defensively against the collection size, so
    /// `OptionDistributionFailed` can never actually be returned. Once
    /// finalized, a further call changes nothing and reports success
    /// again.
    pub fn finalize(&mut self, rng: &mut RandomSource) -> (r: Result<bool, Error>)
        requires
            old(self).wf(),
        ensures
            final(self).wf(),
            old(self)@.collection is None ==> r == Result::<bool, Error>::Err(
                Error::NotInitialized,
            ) && final(self)@ == old(self)@,
            old(self)@.finalized ==> r == Result::<bool, Error>::Ok(true) && final(self)@ == old(self)@,
            old(self)@.collection is Some && !old(self)@.finalized && !all_ready(
                old(self)@.traits,
                old(self)@.collection.unwrap().size,
            ) ==> r == Result::<bool, Error>::Err(Error::TraitNotReady) && final(self)@ == old(self)@,
            old(self)@.collection is Some && !old(self)@.finalized && all_ready(
                old(self)@.traits,
                old(self)@.collection.unwrap().size,
            ) ==> (r == Result::<bool, Error>::Ok(true) && final(self)@.finalized && final(self)@.collection == old(self)@.collection && final(self)@.assigned.len() == 0 && final(self)@.traits.len() == old(self)@.traits.len() && (forall|i: int|
                0 <= i < old(self)@.traits.len() ==> distributed_from(
                    old(self)@.traits[i],
                    #[trigger] final(self)@.traits[i],
                    old(self)@.collection.unwrap().size,
                ))),
            r is Err ==> r == Result::<bool, Error>::Err(Error::NotInitialized) || r == Result::<
                bool,
                Error,
            >::Err(Error::TraitNotReady),
    {
        let collection_size: u32 = match &self.collection {
            Option::Some(c) => c.size,
            Option::None => {
                return Err(Error::NotInitialized);
            },
        };
        if self.finalized {
            return Ok(true);
        }
        let mut i: usize = 0;
        while i < self.traits.len()
            invariant
                self@ == old(self)@,
                old(self).wf(),
                old(self)@.collection is Some,
                collection_size == old(self)@.collection.unwrap().size,
                !old(self)@.finalized,
                i <= self@.traits.len(),
                forall|j: int|
                    0 <= j < i ==> is_ready_model(#[trigger] self@.traits[j], collection_size),
            decreases self@.traits.len() - i,
        {
            if !self.traits[i].check_is_ready(collection_size) {
                proof {
                    assert(!is_ready_model(self@.traits[i as int], collection_size));
                }
                return Err(Error::TraitNotReady);
            }
            i = i + 1;
        }

        let n = self.traits.len();
        let mut i: usize = 0;
        while i < n
            invariant
                n == self@.traits.len(),
                n == old(self)@.traits.len(),
                old(self).wf(),
                old(self)@.collection is Some,
                collection_size == old(self)@.collection.unwrap().size,
                !old(self)@.finalized,
                all_ready(old(self)@.traits, collection_size),
                self@.collection == old(self)@.collection,
                self@.finalized == old(self)@.finalized,
                self@.assigned == old(self)@.assigned,
                i <= n,
                forall|j: int|
                    0 <= j < i ==> distributed_from(
                        old(self)@.traits[j],
                        #[trigger] self@.traits[j],
                        collection_size,
                    ),
                forall|j: int| i <= j < n ==> #[trigger] self@.traits[j] == old(self)@.traits[j],
            decreases n - i,
        {
            let t = copy_trait(&self.traits[i]);
            proof {
                assert(self@.traits[i as int] == old(self)@.traits[i as int]);
                assert(t@ == self@.traits[i as int]);
                assert(is_ready_model(t@, collection_size));
            }
            match t.distribute_options(collection_size, rng) {
                Option::Some(ut) => {
                    let ghost before = self@.traits;
                    let ghost utm = ut@;
                    self.traits.remove(i);
                    self.traits.insert(i, ut);
                    proof {
                        assert(self@.traits =~= before.update(i as int, utm));
                    }
                },
                Option::None => {
                    return Err(Error::OptionDistributionFailed);
                },
            }
            i = i + 1;
        }

        self.assigned = Vec::new();
        self.finalized = true;

        proof {
            let size = collection_size;
            let pre = old(self)@;
            assert(self@.assigned =~= Seq::<EntryModel>::empty());
            assert forall|a: int|
                0 <= a < self@.traits.len() implies trait_finalized(
                #[trigger] self@.traits[a],
                size,
            ) by {
                assert(distributed_from(pre.traits[a], self@.traits[a], size));
                assert(is_ready_model(pre.traits[a], size));
            }
            assert forall|a: int, b: int|
                0 <= a < b < self@.traits.len() implies self@.traits[a].name != self@.traits[
                b
            ].name by {
                assert(distributed_from(pre.traits[a], self@.traits[a], size));
                assert(distributed_from(pre.traits[b], self@.traits[b], size));
                assert(pre.traits[a].name != pre.traits[b].name);
            }
            assert forall|a: int|
                0 <= a < self@.traits.len() implies option_names_distinct(
                (#[trigger] self@.traits[a]).options,
            ) by {
                assert(distributed_from(pre.traits[a], self@.traits[a], size));
                let os = self@.traits[a].options;
                let pre_os = pre.traits[a].options;
                assert(option_names_distinct(pre_os));
                assert forall|p: int, q: int|
                    0 <= p < q < os.len() implies os[p].name != os[q].name by {
                    assert(os[p].name == pre_os[p].name);
                    assert(os[q].name == pre_os[q].name);
                    assert(pre_os[p].name != pre_os[q].name);
                }
            }
        }
        Ok(true)
    }

    /// Draws the trait-set for a request identifier. Fails `NotFinalized`
    /// until `finalize` has run. An identifier holding a stored non-empty
    /// assignment receives a copy of it unchanged — no randomness is
    /// consumed, no store mutation occurs, and this succeeds even at the
    /// cap. Otherwise, once as many distinct identifiers are stored as
    /// the collection holds items, a draw fails `NoTraitsLeft`. Otherwise
    /// one option per trait is chosen — weighted by the option's original
    /// share, skipping exhausted options — and the assignment is stored
    /// under the identifier and returned.
    pub fn draw(&mut self, rng: &mut RandomSource, id: Vec<u8>) -> (r: Result<
        Vec<TraitChoice>,
        Error,
    >)
        requires
            old(self).wf(),
            id@.len() == 32,
        ensures
            final(self).wf(),
            final(self)@.collection == old(self)@.collection,
            final(self)@.traits == old(self)@.traits,
            final(self)@.finalized == old(self)@.finalized,
            !old(self)@.finalized ==> r == Result::<Vec<TraitChoice>, Error>::Err(
                Error::NotFinalized,
            ) && final(self)@ == old(self)@,
            old(self)@.finalized && has_nonempty_assignment(old(self)@.assigned, id@) ==> (
            r matches Ok(cs) && choices_view(cs@) == stored_choices(old(self)@.assigned, id@)
                && final(self)@ == old(self)@),
            old(self)@.finalized && !has_nonempty_assignment(old(self)@.assigned, id@) && old(self)@.assigned.len() == old(self)@.collection.unwrap().size ==> r == Result::<
                Vec<TraitChoice>,
                Error,
            >::Err(Error::NoTraitsLeft) && final(self)@ == old(self)@,
            old(self)@.finalized && !has_nonempty_assignment(old(self)@.assigned, id@) && old(self)@.assigned.len() < old(self)@.collection.unwrap().size ==> (r matches Ok(cs)
                && choices_match_traits(choices_view(cs@), old(self)@.traits) && has_id(
                final(self)@.assigned,
                id@,
            ) && stored_choices(final(self)@.assigned, id@) == choices_view(cs@) && (!has_id(
                old(self)@.assigned,
                id@,
            ) ==> final(self)@.assigned == old(self)@.assigned.push(
                (EntryModel { id: id@, choices: choices_view(cs@) }),
            )) && (has_id(old(self)@.assigned, id@) ==> final(self)@.assigned == old(self)@.assigned.update(
                entry_index(old(self)@.assigned, id@),
                (EntryModel { id: id@, choices: choices_view(cs@) }),
            ))),
    {
        if !self.finalized {
            return Err(Error::NotFinalized);
        }

        let entry_at = self.find_entry(&id);
        if let Option::Some(k) = entry_at {
            proof {
                assert(has_id(self@.assigned, id@)) by {
                    assert(self@.assigned[k as int].id == id@);
                }
                let e = entry_index(self@.assigned, id@);
                assert(0 <= e < self@.assigned.len() && self@.assigned[e].id == id@);
                assert(e == k) by {
                    if e < k {
                        assert(self@.assigned[e].id != self@.assigned[k as int].id);
                    } else if k < e {
                        assert(self@.assigned[k as int].id != self@.assigned[e].id);
                    }
                }
            }
            if self.assigned[k].choices.len() > 0 {
                let cs = copy_choices(&self.assigned[k].choices);
                proof {
                    assert(choices_view(cs@) == self@.assigned[k as int].choices);
                }
                return Ok(cs);
            }
        }

        // A finalized contract always holds a collection, so the second
        // arm is unreachable; it fails closed rather than panicking.
        let collection_size: u32 = match &self.collection {
            Option::Some(c) => c.size,
            Option::None => {
                return Err(Error::NotFinalized);
            },
        };
        if self.assigned.len() == collection_size as usize {
            return Err(Error::NoTraitsLeft);
        }

        let ghost pre = self@;
        let mut selected: Vec<TraitChoice> = Vec::new();
        let n = self.traits.len();
        let mut i: usize = 0;
        while i < n
            invariant
                self@ == pre,
                state_inv(pre),
                pre.finalized,
                n == pre.traits.len(),
                i <= n,
                selected@.len() == i,
                forall|j: int|
                    0 <= j < i ==> (#[trigger] selected@[j])@.trait_name == pre.traits[j].name,
                forall|j: int|
                    0 <= j < i ==> value_from_available(
                        (#[trigger] selected@[j])@.value,
                        pre.traits[j].options,
                    ),
            decreases n - i,
        {
            proof {
                assert(trait_finalized(pre.traits[i as int], pre.collection.unwrap().size));
                assert(pre.traits[i as int].options[0].total >= 1);
                lemma_weighted_indices_nonempty(pre.traits[i as int].options, 0);
                lemma_weighted_indices_len(pre.traits[i as int].options);
                assert(self@.traits[i as int] == pre.traits[i as int]);
            }
            let option_indexes = self.traits[i].get_available_options();
            let pick = get_random_number(rng, 0, (option_indexes.len() - 1) as u32);
            let selected_index = option_indexes[pick as usize];
            proof {
                assert(option_indexes@[pick as int] < pre.traits[i as int].options.len()
                    && pre.traits[i as int].options[option_indexes@[pick as int] as int].available
                    > 0);
            }
            let option_ref = &self.traits[i].options[selected_index as usize];
            let choice = TraitChoice {
                trait_name: copy_bytes(&self.traits[i].name),
                value: copy_value(&option_ref.value),
            };
            selected.push(choice);
            i = i + 1;
            proof {
                let j = i - 1;
                assert(selected@[j]@.trait_name == pre.traits[j].name);
                assert(value_from_available(selected@[j]@.value, pre.traits[j].options)) by {
                    let w = option_indexes@[pick as int] as int;
                    assert(0 <= w < pre.traits[j].options.len() && pre.traits[j].options[
                        w
                    ].available > 0 && selected@[j]@.value == pre.traits[j].options[w].value);
                }
            }
        }

        proof {
            assert(choices_match_traits(choices_view(selected@), pre.traits));
        }

        let ret = copy_choices(&selected);
        match entry_at {
            Option::Some(k) => {
                let ghost before = self@.assigned;
                let ghost em = EntryModel { id: id@, choices: choices_view(selected@) };
                self.assigned.remove(k);
                self.assigned.insert(k, AssignmentEntry { id, choices: selected });
                proof {
                    assert(self@.assigned =~= before.update(k as int, em));
                    assert(before[k as int].id == id@);
                    let e = entry_index(before, id@);
                    assert(has_id(before, id@)) by {
                        assert(before[k as int].id == id@);
                    }
                    assert(e == k) by {
                        if e < k {
                            assert(before[e].id != before[k as int].id);
                        } else if k < e {
                            assert(before[k as int].id != before[e].id);
                        }
                    }
                    assert forall|a: int, b: int|
                        0 <= a < b < self@.assigned.len() implies self@.assigned[a].id
                        != self@.assigned[b].id by {
                        assert(self@.assigned[a].id == before[a].id);
                        assert(self@.assigned[b].id == before[b].id);
                        assert(before[a].id != before[b].id);
                    }
                    assert forall|a: int|
                        0 <= a < self@.assigned.len() implies choices_match_traits(
                        (#[trigger] self@.assigned[a]).choices,
                        self@.traits,
                    ) by {
                        if a != k {
                            assert(self@.assigned[a] == before[a]);
                            assert(choices_match_traits(before[a].choices, pre.traits));
                        } else {
                            assert(self@.assigned[a] == em);
                        }
                    }
                    let e2 = entry_index(self@.assigned, id@);
                    assert(has_id(self@.assigned, id@)) by {
                        assert(self@.assigned[k as int].id == id@);
                    }
                    assert(e2 == k) by {
                        if e2 < k {
                            assert(self@.assigned[e2].id != self@.assigned[k as int].id);
                        } else if k < e2 {
                            assert(self@.assigned[k as int].id != self@.assigned[e2].id);
                        }
                    }
                }
            },
            Option::None => {
                let ghost before = self@.assigned;
                let ghost em = EntryModel { id: id@, choices: choices_view(selected@) };
                self.assigned.push(AssignmentEntry { id, choices: selected });
                proof {
                    assert(self@.assigned =~= before.push(em));
                    assert(!has_id(before, id@));
                    assert forall|a: int, b: int|
                        0 <= a < b < self@.assigned.len() implies self@.assigned[a].id
                        != self@.assigned[b].id by {
                        if b < before.len() {
                            assert(self@.assigned[a].id == before[a].id);
                            assert(self@.assigned[b].id == before[b].id);
                            assert(before[a].id != before[b].id);
                        } else {
                            assert(self@.assigned[b] == em);
                            assert(self@.assigned[a] == before[a]);
                            if before[a].id == id@ {
                                assert(has_id(before, id@));
                            }
                        }
                    }
                    assert forall|a: int|
                        0 <= a < self@.assigned.len() implies choices_match_traits(
                        (#[trigger] self@.assigned[a]).choices,
                        self@.traits,
                    ) by {
                        if a < before.len() {
                            assert(self@.assigned[a] == before[a]);
                            assert(choices_match_traits(before[a].choices, pre.traits));
                        } else {
                            assert(self@.assigned[a] == em);
                        }
                    }
                    let e2 = entry_index(self@.assigned, id@);
                    let ghost k = before.len() as int;
                    assert(has_id(self@.assigned, id@)) by {
                        assert(self@.assigned[k].id == id@);
                    }
                    assert(e2 == k) by {
                        if e2 < k {
                            assert(self@.assigned[e2].id != self@.assigned[k].id);
                        } else if k < e2 {
                            assert(self@.assigned[k].id != self@.assigned[e2].id);
                        }
                    }
                }
            },
        }
        Ok(ret)
    }

    /// The index of the assignment stored for the identifier, if any.
    fn find_entry(&self, id: &Vec<u8>) -> (r: Option<usize>)
        ensures
            r matches Some(k) ==> k < self@.assigned.len() && self@.assigned[k as int].id == id@,
            r is None ==> !has_id(self@.assigned, id@),
    {
        let mut i: usize = 0;
        while i < self.assigned.len()
            invariant
                i <= self@.assigned.len(),
                forall|j: int| 0 <= j < i ==> (#[trigger] self@.assigned[j]).id != id@,
            decreases self@.assigned.len() - i,
        {
            if bytes_eq(&self.assigned[i].id, id) {
                return Option::Some(i);
            }
            i = i + 1;
        }
        Option::None
    }

    /// The first trait bearing the given name, as a copy.
    fn get_trait(&self, name: &Vec<u8>) -> (r: Option<AssetTrait>)
        requires
            name@.len() > 0,
        ensures
            r matches Some(t) ==> exists|k: int|
                0 <= k < self@.traits.len() && (#[trigger] self@.traits[k]).name == name@ && t@
                    == self@.traits[k] && (forall|j: int|
                    0 <= j < k ==> (#[trigger] self@.traits[j]).name != name@),
            r is None ==> !has_trait(self@.traits, name@),
    {
        let mut i: usize = 0;
        while i < self.traits.len()
            invariant
                i <= self@.traits.len(),
                forall|j: int| 0 <= j < i ==> (#[trigger] self@.traits[j]).name != name@,
            decreases self@.traits.len() - i,
        {
            if bytes_eq(&self.traits[i].name, name) {
                proof {
                    assert(self@.traits[i as int].name == name@);
                }
                return Option::Some(copy_trait(&self.traits[i]));
            }
            i = i + 1;
        }
        Option::None
    }

    /// Replaces the first trait bearing the same name as `updated` and
    /// reports whether one was found; everything else is untouched.
    fn update_trait(&mut self, updated: AssetTrait) -> (r: bool)
        ensures
            r == has_trait(old(self)@.traits, updated@.name),
            !r ==> final(self)@ == old(self)@,
            r ==> exists|k: int|
                0 <= k < old(self)@.traits.len() && (#[trigger] old(self)@.traits[k]).name
                    == updated@.name && (forall|j: int|
                    0 <= j < k ==> (#[trigger] old(self)@.traits[j]).name != updated@.name)
                    && final(self)@.traits == old(self)@.traits.update(k, updated@),
            final(self)@.collection == old(self)@.collection,
            final(self)@.finalized == old(self)@.finalized,
            final(self)@.assigned == old(self)@.assigned,
    {
        let mut i: usize = 0;
        while i < self.traits.len()
            invariant
                self@ == old(self)@,
                i <= self@.traits.len(),
                forall|j: int| 0 <= j < i ==> (#[trigger] self@.traits[j]).name != updated@.name,
            decreases self@.traits.len() - i,
        {
            if bytes_eq(&self.traits[i].name, &updated.name) {
                let ghost before = self@.traits;
                let ghost um = updated@;
                proof {
                    assert(before[i as int].name == um.name);
                }
                self.traits.remove(i);
                self.traits.insert(i, updated);
                proof {
                    assert(self@.traits =~= before.update(i as int, um));
                }
                return true;
            }
            i = i + 1;
        }
        false
    }

    /// Whether the trait already offers an option of the given name.
    fn trait_has_option(t: &AssetTrait, option_name: &Vec<u8>) -> (r: bool)
        ensures
            r == has_option(t@.options, option_name@),
    {
        let mut i: usize = 0;
        while i < t.options.len()
            invariant
                i <= t@.options.len(),
                forall|j: int| 0 <= j < i ==> (#[trigger] t@.options[j]).name != option_name@,
            decreases t@.options.len() - i,
        {
            if bytes_eq(&t.options[i].name, option_name) {
                proof {
                    assert(t@.options[i as int].name == option_name@);
                }
                return true;
            }
            i = i + 1;
        }
        false
    }
}


} // verus!
