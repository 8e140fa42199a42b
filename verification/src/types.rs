//! The data model: the collection being configured, its traits, the options
//! of each trait, and the error kinds of every operation.
//!
//! Each executable type has a mathematical model (its view) stated over
//! `Seq` and plain values; every contract in this crate speaks of those
//! models, never of the executable representation.

use vstd::prelude::*;

verus! {

/// The error kinds. Every failing operation aborts with one of these and
/// leaves the state completely unchanged.
#[derive(Copy, Clone, Debug, Eq, PartialEq, PartialOrd, Ord)]
pub enum Error {
    /// An operation needs the collection, but `init` has not run.
    NotInitialized,
    /// `init` ran already; the collection is created exactly once.
    AlreadyInitialized,
    /// `add_trait` saw a trait name that is already in the catalog.
    TraitExists,
    /// `add_option` named a trait that is not in the catalog.
    TraitNotFound,
    /// A trait cannot be finalized, or the catalog is frozen.
    TraitNotReady,
    /// The partitioned shares failed to sum to the collection size
    /// (checked defensively; the algorithm never lets it happen).
    OptionDistributionFailed,
    /// `add_option` saw an option name that the trait already has.
    OptionAlreadyExistsOnTrait,
    /// `draw` needs the frozen catalog, but `finalize` has not run.
    NotFinalized,
    /// As many distinct identifiers as the collection size have been
    /// assigned; a draw for a new identifier cannot be served.
    NoTraitsLeft,
    /// An option's remaining supply is exhausted and cannot be decremented.
    OptionExhausted,
}

/// The value an option carries: nothing, a number, or a byte string.
#[derive(Clone, Debug, Eq, PartialEq)]
pub enum TraitOptionValue {
    NoValue,
    Numeric(u32),
    Characters(Vec<u8>),
}

/// Mathematical model of a [`TraitOptionValue`].
pub enum ValueModel {
    NoValue,
    Numeric(u32),
    Characters(Seq<u8>),
}

impl View for TraitOptionValue {
    type V = ValueModel;

    open spec fn view(&self) -> ValueModel {
        match self {
            TraitOptionValue::NoValue => ValueModel::NoValue,
            TraitOptionValue::Numeric(n) => ValueModel::Numeric(*n),
            TraitOptionValue::Characters(b) => ValueModel::Characters(b@),
        }
    }
}

impl Default for TraitOptionValue {
    /// The default value carries nothing.
    fn default() -> (r: Self)
        ensures
            r@ == ValueModel::NoValue,
    {
        TraitOptionValue::NoValue
    }
}

/// The pool being configured and drawn from: a name and a fixed size.
/// Created exactly once; immutable thereafter.
#[derive(Clone, Debug, Eq, PartialEq)]
pub struct TraitCollection {
    pub name: Vec<u8>,
    pub size: u32,
}

/// Mathematical model of a [`TraitCollection`].
pub struct CollectionModel {
    pub name: Seq<u8>,
    pub size: u32,
}

impl View for TraitCollection {
    type V = CollectionModel;

    open spec fn view(&self) -> CollectionModel {
        CollectionModel { name: self.name@, size: self.size }
    }
}

impl Default for TraitCollection {
    /// The default collection has an empty name and size zero.
    fn default() -> (r: Self)
        ensures
            r@.name.len() == 0,
            r@.size == 0,
    {
        TraitCollection { name: Vec::new(), size: 0 }
    }
}

/// One possible value for a trait. `total` is the share of the pool the
/// option received at finalization, `available` the part of that share not
/// yet consumed; both stay zero until finalization.
#[derive(Clone, Debug, Eq, PartialEq)]
pub struct TraitOptionItem {
    pub name: Vec<u8>,
    pub value: TraitOptionValue,
    pub available: u32,
    pub total: u32,
}

/// Mathematical model of a [`TraitOptionItem`].
pub struct OptionModel {
    pub name: Seq<u8>,
    pub value: ValueModel,
    pub available: u32,
    pub total: u32,
}

impl View for TraitOptionItem {
    type V = OptionModel;

    open spec fn view(&self) -> OptionModel {
        OptionModel {
            name: self.name@,
            value: self.value@,
            available: self.available,
            total: self.total,
        }
    }
}

/// The value a fresh option carries: the given one, or `None` when the
/// caller gave none.
pub open spec fn given_or_default(value: Option<TraitOptionValue>) -> ValueModel {
    match value {
        Option::Some(v) => v@,
        Option::None => ValueModel::NoValue,
    }
}

impl TraitOptionItem {
    /// A fresh option: the given name and value, no share yet.
    pub fn new(name: Vec<u8>, value: Option<TraitOptionValue>) -> (r: Self)
        ensures
            r@.name == name@,
            r@.value == given_or_default(value),
            r@.available == 0,
            r@.total == 0,
    {
        TraitOptionItem {
            name,
            value: match value {
                Option::Some(v) => v,
                Option::None => TraitOptionValue::NoValue,
            },
            available: 0,
            total: 0,
        }
    }

    /// The same option carrying `distribution` as its share, with the full
    /// share still available.
    pub fn with_distribution(self, distribution: u32) -> (r: Self)
        ensures
            r@.name == self@.name,
            r@.value == self@.value,
            r@.available == distribution,
            r@.total == distribution,
    {
        TraitOptionItem {
            name: self.name,
            value: self.value,
            available: distribution,
            total: distribution,
        }
    }

    /// The same option with one unit of its supply consumed; fails
    /// `OptionExhausted` if, and only if, nothing is available.
    ///
    /// The draw engine deliberately never consumes supply: `available`
    /// stays at the full share after finalization, so only the aggregate
    /// cap on distinct identifiers gates draws. This method stands ready
    /// should per-draw consumption become the intended behaviour.
    pub fn with_decremented_available(self) -> (r: Result<Self, Error>)
        ensures
            self@.available > 0 ==> (r matches Ok(u) && u@.name == self@.name
                && u@.value == self@.value && u@.total == self@.total
                && u@.available == self@.available - 1),
            self@.available == 0 ==> r == Result::<Self, Error>::Err(Error::OptionExhausted),
    {
        if self.available > 0 {
            let available = self.available - 1;
            Ok(TraitOptionItem { name: self.name, value: self.value, available, total: self.total })
        } else {
            Err(Error::OptionExhausted)
        }
    }
}

/// Whether two byte strings hold the same bytes.
pub fn bytes_eq(a: &Vec<u8>, b: &Vec<u8>) -> (r: bool)
    ensures
        r == (a@ == b@),
{
    if a.len() != b.len() {
        return false;
    }
    let mut i: usize = 0;
    while i < a.len()
        invariant
            i <= a.len(),
            a@.len() == b@.len(),
            forall|j: int| 0 <= j < i ==> a@[j] == b@[j],
        decreases a.len() - i,
    {
        if a[i] != b[i] {
            return false;
        }
        i = i + 1;
    }
    proof {
        assert(a@ =~= b@);
    }
    true
}

/// An element-wise copy of a byte string.
pub fn copy_bytes(v: &Vec<u8>) -> (r: Vec<u8>)
    ensures
        r@ == v@,
{
    let mut r: Vec<u8> = Vec::new();
    let mut i: usize = 0;
    while i < v.len()
        invariant
            i <= v.len(),
            r@ == v@.subrange(0, i as int),
        decreases v.len() - i,
    {
        r.push(v[i]);
        i = i + 1;
        proof {
            assert(r@ =~= v@.subrange(0, i as int));
        }
    }
    proof {
        assert(r@ =~= v@);
    }
    r
}

/// A copy of an option value, equal to the original in its model.
pub fn copy_value(v: &TraitOptionValue) -> (r: TraitOptionValue)
    ensures
        r@ == v@,
{
    match v {
        TraitOptionValue::NoValue => TraitOptionValue::NoValue,
        TraitOptionValue::Numeric(n) => TraitOptionValue::Numeric(*n),
        TraitOptionValue::Characters(b) => TraitOptionValue::Characters(copy_bytes(b)),
    }
}

/// A named dimension of the collection with its mutually exclusive options.
/// Options are append-only before finalization.
#[derive(Clone, Debug, Eq, PartialEq)]
pub struct AssetTrait {
    pub name: Vec<u8>,
    pub desc: Vec<u8>,
    pub options: Vec<TraitOptionItem>,
}

/// Mathematical model of an [`AssetTrait`].
pub struct TraitModel {
    pub name: Seq<u8>,
    pub desc: Seq<u8>,
    pub options: Seq<OptionModel>,
}

/// The models of a sequence of options.
pub open spec fn options_view(s: Seq<TraitOptionItem>) -> Seq<OptionModel> {
    Seq::new(s.len(), |i: int| s[i]@)
}

impl View for AssetTrait {
    type V = TraitModel;

    open spec fn view(&self) -> TraitModel {
        TraitModel { name: self.name@, desc: self.desc@, options: options_view(self.options@) }
    }
}

impl Default for AssetTrait {
    /// The default trait has an empty name, an empty description and no
    /// options.
    fn default() -> (r: Self)
        ensures
            r@.name.len() == 0,
            r@.desc.len() == 0,
            r@.options.len() == 0,
    {
        AssetTrait { name: Vec::new(), desc: Vec::new(), options: Vec::new() }
    }
}

/// The models of a sequence of traits.
pub open spec fn traits_view(s: Seq<AssetTrait>) -> Seq<TraitModel> {
    Seq::new(s.len(), |i: int| s[i]@)
}

/// An element-wise copy of an option, equal to the original in its model.
pub fn copy_option_item(o: &TraitOptionItem) -> (r: TraitOptionItem)
    ensures
        r@ == o@,
{
    TraitOptionItem {
        name: copy_bytes(&o.name),
        value: copy_value(&o.value),
        available: o.available,
        total: o.total,
    }
}

/// An element-wise copy of a trait, equal to the original in its model.
pub fn copy_trait(t: &AssetTrait) -> (r: AssetTrait)
    ensures
        r@ == t@,
{
    let mut options: Vec<TraitOptionItem> = Vec::new();
    let mut i: usize = 0;
    while i < t.options.len()
        invariant
            i <= t.options.len(),
            options@.len() == i,
            forall|j: int| 0 <= j < i ==> (#[trigger] options@[j])@ == t@.options[j],
        decreases t.options.len() - i,
    {
        options.push(copy_option_item(&t.options[i]));
        i = i + 1;
    }
    proof {
        assert(options_view(options@) =~= t@.options);
    }
    AssetTrait { name: copy_bytes(&t.name), desc: copy_bytes(&t.desc), options }
}

/// An element-wise copy of a catalog, equal to the original in its model.
pub fn copy_traits(v: &Vec<AssetTrait>) -> (r: Vec<AssetTrait>)
    ensures
        traits_view(r@) == traits_view(v@),
{
    let mut r: Vec<AssetTrait> = Vec::new();
    let mut i: usize = 0;
    while i < v.len()
        invariant
            i <= v.len(),
            r@.len() == i,
            forall|j: int| 0 <= j < i ==> (#[trigger] r@[j])@ == v@[j]@,
        decreases v.len() - i,
    {
        r.push(copy_trait(&v[i]));
        i = i + 1;
    }
    proof {
        assert(traits_view(r@) =~= traits_view(v@));
    }
    r
}

/// No two options of the sequence share a name.
pub open spec fn option_names_distinct(os: Seq<OptionModel>) -> bool {
    forall|i: int, j: int| 0 <= i < j < os.len() ==> os[i].name != os[j].name
}

/// Some option of the sequence bears the given name.
pub open spec fn has_option(os: Seq<OptionModel>, name: Seq<u8>) -> bool {
    exists|i: int| 0 <= i < os.len() && os[i].name == name
}

/// The sum of the shares of a sequence of options.
pub open spec fn sum_totals(os: Seq<OptionModel>) -> int
    decreases os.len(),
{
    if os.len() == 0 {
        0
    } else {
        os[0].total + sum_totals(os.drop_first())
    }
}

/// A trait is ready for finalization if, and only if, its name is
/// non-empty and it offers at least one option but no more than the
/// collection holds items.
pub open spec fn is_ready_model(t: TraitModel, max_options: u32) -> bool {
    t.name.len() > 0 && 1 <= t.options.len() <= max_options
}

/// How a finalized trait relates to the catalog trait it was made from:
/// the same name, description and options (names and values alike), every
/// option holding a share of at least one with the full share available,
/// and the shares summing exactly to the collection size.
pub open spec fn distributed_from(pre: TraitModel, post: TraitModel, size: u32) -> bool {
    &&& post.name == pre.name
    &&& post.desc == pre.desc
    &&& post.options.len() == pre.options.len()
    &&& forall|i: int|
        0 <= i < pre.options.len() ==> (#[trigger] post.options[i]).name == pre.options[i].name
            && post.options[i].value == pre.options[i].value
    &&& forall|i: int|
        0 <= i < post.options.len() ==> (#[trigger] post.options[i]).total >= 1
            && post.options[i].available == post.options[i].total
    &&& sum_totals(post.options) == size
}

/// The entries one option contributes to the weighted candidate list: its
/// index once per unit of its original share, or nothing when its supply
/// is exhausted.
pub open spec fn index_block(i: int, o: OptionModel) -> Seq<u32> {
    if o.available > 0 {
        Seq::new(o.total as nat, |k: int| i as u32)
    } else {
        Seq::empty()
    }
}

/// The weighted candidate list of a draw: the index of every option whose
/// supply is not exhausted, repeated as often as the option's original
/// share.
pub open spec fn weighted_indices(os: Seq<OptionModel>) -> Seq<u32>
    decreases os.len(),
{
    if os.len() == 0 {
        Seq::empty()
    } else {
        weighted_indices(os.drop_last()) + index_block(os.len() - 1, os.last())
    }
}

/// The trait with one fresh option appended: the given name and value,
/// no share yet.
pub open spec fn appended_option_model(t: TraitModel, name: Seq<u8>, value: ValueModel) -> TraitModel {
    TraitModel {
        name: t.name,
        desc: t.desc,
        options: t.options.push(OptionModel { name, value, available: 0, total: 0 }),
    }
}

/// The sum of the shares can also be peeled off at the last option.
pub proof fn lemma_sum_totals_last(os: Seq<OptionModel>)
    requires
        os.len() > 0,
    ensures
        sum_totals(os) == sum_totals(os.drop_last()) + os.last().total,
    decreases os.len(),
{
    if os.len() == 1 {
        assert(os.drop_last() =~= Seq::empty());
        assert(os.drop_first() =~= Seq::empty());
    } else {
        lemma_sum_totals_last(os.drop_first());
        assert(os.drop_first().drop_last() =~= os.drop_last().drop_first());
        assert(os.drop_first().last() == os.last());
    }
}

/// The weighted candidate list is never longer than the sum of the
/// shares: an option contributes its share once, or nothing at all.
pub proof fn lemma_weighted_indices_len(os: Seq<OptionModel>)
    ensures
        weighted_indices(os).len() <= sum_totals(os),
    decreases os.len(),
{
    if os.len() == 0 {
    } else {
        lemma_weighted_indices_len(os.drop_last());
        lemma_sum_totals_last(os);
    }
}

/// The weighted candidate list is non-empty as soon as one option has both
/// supply left and a positive share.
pub proof fn lemma_weighted_indices_nonempty(os: Seq<OptionModel>, j: int)
    requires
        0 <= j < os.len(),
        os[j].available > 0,
        os[j].total > 0,
    ensures
        weighted_indices(os).len() > 0,
    decreases os.len(),
{
    if j < os.len() - 1 {
        lemma_weighted_indices_nonempty(os.drop_last(), j);
    }
}

impl AssetTrait {
    /// Whether the trait can take part in finalization: a non-empty name
    /// and between one and `max_options` options.
    pub fn check_is_ready(&self, max_options: u32) -> (r: bool)
        ensures
            r == is_ready_model(self@, max_options),
    {
        if self.name.len() == 0 {
            return false;
        }
        if self.options.len() == 0 || self.options.len() > max_options as usize {
            return false;
        }
        true
    }

    /// Partitions `total_options` across this trait's options, processed
    /// from the last option down to the first: every option but the first
    /// receives a random share of at least one, and the first absorbs
    /// whatever is left, so the first-listed option deliberately carries
    /// the residual. The shares are checked defensively to sum exactly to
    /// `total_options`; the algorithm guarantees they do, so the result is
    /// never `None`.
    pub fn distribute_options(self, total_options: u32, rng: &mut crate::rng::RandomSource) -> (r:
        Option<AssetTrait>)
        requires
            1 <= self@.options.len() <= total_options,
        ensures
            r matches Some(t) && distributed_from(self@, t@, total_options),
    {
        let ghost orig = self@;
        let n = self.options.len();
        let mut res = self;
        let mut unassigned_items: usize = n;
        let mut assigned_options: u32 = 0;

        while unassigned_items > 0
            invariant
                res@.options.len() == n,
                orig.options.len() == n,
                1 <= n <= total_options,
                unassigned_items <= n,
                assigned_options as int == sum_totals(
                    res@.options.subrange(unassigned_items as int, n as int),
                ),
                assigned_options + unassigned_items <= total_options,
                unassigned_items == 0 ==> assigned_options == total_options,
                forall|j: int|
                    0 <= j < unassigned_items ==> #[trigger] res@.options[j] == orig.options[j],
                forall|j: int|
                    unassigned_items <= j < n ==> (#[trigger] res@.options[j]).name
                        == orig.options[j].name && res@.options[j].value == orig.options[j].value
                        && res@.options[j].total >= 1 && res@.options[j].available
                        == res@.options[j].total,
                res@.name == orig.name,
                res@.desc == orig.desc,
            decreases unassigned_items,
        {
            unassigned_items = unassigned_items - 1;

            let distribution: u32;
            if unassigned_items > 0 {
                distribution = crate::rng::get_random_number(
                    rng,
                    1,
                    total_options - assigned_options - unassigned_items as u32,
                );
            } else {
                distribution = total_options - assigned_options;
            }
            assigned_options = assigned_options + distribution;

            let ghost before = res@.options;
            let old_option = res.options.remove(unassigned_items);
            let new_option = old_option.with_distribution(distribution);
            res.options.insert(unassigned_items, new_option);

            proof {
                let i = unassigned_items as int;
                assert(res@.options =~= before.update(i, new_option@));
                assert(res@.options.subrange(i, n as int).drop_first() =~= before.subrange(
                    i + 1,
                    n as int,
                ));
                assert(before[i] == orig.options[i]);
                assert(res@.options[i] == new_option@);
                assert forall|j: int| i < j < n implies #[trigger] res@.options[j]
                    == before[j] by {}
            }
        }

        proof {
            assert(res@.options.subrange(0, n as int) =~= res@.options);
        }
        if assigned_options == total_options {
            return Some(res);
        }
        None
    }

    /// The weighted candidate list: the index of every option whose supply
    /// is not exhausted, repeated as often as the option's original share,
    /// so that every unit of original supply is equally likely to be drawn.
    pub fn get_available_options(&self) -> (r: Vec<u32>)
        requires
            self@.options.len() <= u32::MAX,
        ensures
            r@ == weighted_indices(self@.options),
            forall|k: int|
                0 <= k < r@.len() ==> #[trigger] r@[k] < self@.options.len()
                    && self@.options[r@[k] as int].available > 0,
    {
        let mut opts_map: Vec<u32> = Vec::new();
        let n = self.options.len();
        let mut i: usize = 0;

        while i < n
            invariant
                i <= n,
                n == self@.options.len() <= u32::MAX,
                opts_map@ == weighted_indices(self@.options.subrange(0, i as int)),
                forall|k: int|
                    0 <= k < opts_map@.len() ==> #[trigger] opts_map@[k] < i
                        && self@.options[opts_map@[k] as int].available > 0,
            decreases n - i,
        {
            if self.options[i].available > 0 {
                let total = self.options[i].total;
                let ghost before = opts_map@;
                let mut pushed: u32 = 0;

                while pushed < total
                    invariant
                        pushed <= total,
                        i < n == self@.options.len() <= u32::MAX,
                        total == self@.options[i as int].total,
                        self@.options[i as int].available > 0,
                        opts_map@ == before + Seq::new(pushed as nat, |k: int| i as u32),
                        forall|k: int|
                            0 <= k < before.len() ==> #[trigger] before[k] < i
                                && self@.options[before[k] as int].available > 0,
                    decreases total - pushed,
                {
                    opts_map.push(i as u32);
                    pushed = pushed + 1;
                    proof {
                        assert(opts_map@ =~= before + Seq::new(pushed as nat, |k: int| i as u32));
                    }
                }
            }
            i = i + 1;
            proof {
                let pre = self@.options.subrange(0, i - 1);
                let cur = self@.options.subrange(0, i as int);
                assert(cur.drop_last() =~= pre);
                assert(opts_map@ =~= weighted_indices(pre) + index_block(
                    i - 1,
                    self@.options[i - 1],
                ));
            }
        }

        proof {
            assert(self@.options.subrange(0, n as int) =~= self@.options);
        }
        opts_map
    }
}

} // verus!
