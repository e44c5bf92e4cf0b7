//! Packing items into bins of one size, by best fit. The items are taken from
//! the largest down; each goes into the bin that it fits with the least room to
//! spare, and into a new bin when it fits none.

use std::cmp::Ordering;
use std::fmt::Debug;
use std::hash::Hash;
use vstd::multiset::Multiset;
use vstd::prelude::*;
use vstd::slice::slice_to_vec;
use vstd::std_specs::cmp::{PartialEqSpecImpl, PartialOrdSpecImpl};

verus! {

/// Why items could not be packed.
#[derive(Debug, Clone, Copy, PartialEq, Eq, Structural)]
pub enum BinPackingError {
    /// An item is larger than a bin.
    OversizedItem,
}

/// Something to pack: a name for it, and the room that it takes.
#[derive(Clone, Copy, Debug)]
pub struct Item<T: Clone + Copy> {
    pub id: T,
    pub volume: usize,
}

/// Two items are equal when they take the same room.
impl<T: Clone + Copy> PartialEq for Item<T> {
    fn eq(&self, other: &Self) -> (r: bool) {
        self.volume == other.volume
    }
}

impl<T: Clone + Copy> PartialEqSpecImpl for Item<T> {
    open spec fn obeys_eq_spec() -> bool {
        true
    }

    open spec fn eq_spec(&self, other: &Self) -> bool {
        self.volume == other.volume
    }
}

impl<T: Clone + Copy> Eq for Item<T> {

}

/// Items are ordered by the room that they take.
impl<T: Clone + Copy> PartialOrd for Item<T> {
    fn partial_cmp(&self, other: &Self) -> (r: Option<Ordering>) {
        if self.volume < other.volume {
            Some(Ordering::Less)
        } else if self.volume == other.volume {
            Some(Ordering::Equal)
        } else {
            Some(Ordering::Greater)
        }
    }
}

impl<T: Clone + Copy> PartialOrdSpecImpl for Item<T> {
    open spec fn obeys_partial_cmp_spec() -> bool {
        true
    }

    open spec fn partial_cmp_spec(&self, other: &Self) -> Option<Ordering> {
        if self.volume < other.volume {
            Some(Ordering::Less)
        } else if self.volume == other.volume {
            Some(Ordering::Equal)
        } else {
            Some(Ordering::Greater)
        }
    }
}

/// A bin that is being filled.
struct Bin<T: Clone + Copy> {
    /// The bins are numbered in the order in which they were opened.
    id: usize,
    /// The room that is left.
    free: usize,
    items: Vec<Item<T>>,
}

/// A bin that is being filled, as a mathematical value.
pub ghost struct BinModel<T: Clone + Copy> {
    pub id: int,
    pub free: int,
    pub items: Seq<Item<T>>,
}

impl<T: Clone + Copy> View for Bin<T> {
    type V = BinModel<T>;

    closed spec fn view(&self) -> BinModel<T> {
        BinModel { id: self.id as int, free: self.free as int, items: self.items@ }
    }
}

/// The order in which the bins are kept and handed out: a bin with more room
/// comes before one with less, and of two with the same room the one that was
/// opened later comes first.
pub open spec fn comes_before<T: Clone + Copy>(a: BinModel<T>, b: BinModel<T>) -> bool {
    a.free > b.free || (a.free == b.free && a.id > b.id)
}

/// The number of bins at the start of `bins` that come before `bin`: the place
/// at which `bin` goes in.
pub open spec fn insert_position<T: Clone + Copy>(bins: Seq<BinModel<T>>, bin: BinModel<T>) -> int
    decreases bins.len(),
{
    if bins.len() == 0 || !comes_before(bins[0], bin) {
        0
    } else {
        1 + insert_position(bins.drop_first(), bin)
    }
}

/// `bins` with `bin` put in at its place.
pub open spec fn insert_bin<T: Clone + Copy>(bins: Seq<BinModel<T>>, bin: BinModel<T>) -> Seq<
    BinModel<T>,
> {
    bins.insert(insert_position(bins, bin), bin)
}

/// The place of the fitting bin with the least room: the last bin, in the
/// order of the bins, that has room for `volume`. Of bins with the same room
/// that is the one that was opened first.
pub open spec fn best_fit<T: Clone + Copy>(bins: Seq<BinModel<T>>, volume: int) -> Option<int>
    decreases bins.len(),
{
    if bins.len() == 0 {
        None
    } else if volume <= bins.last().free {
        Some(bins.len() - 1)
    } else {
        best_fit(bins.drop_last(), volume)
    }
}

/// The bins after `item` is packed: into the fitting bin with the least room,
/// which then moves to its new place, or into a new bin when no bin has room.
pub open spec fn place<T: Clone + Copy>(
    bins: Seq<BinModel<T>>,
    item: Item<T>,
    bin_volume: int,
) -> Seq<BinModel<T>> {
    match best_fit(bins, item.volume as int) {
        Some(p) => insert_bin(
            bins.remove(p),
            BinModel {
                id: bins[p].id,
                free: bins[p].free - item.volume,
                items: bins[p].items.push(item),
            },
        ),
        None => insert_bin(
            bins,
            BinModel { id: bins.len() as int, free: bin_volume - item.volume, items: seq![item] },
        ),
    }
}

/// The place of the largest item, and of the first of them if there are
/// several.
pub open spec fn heaviest<T: Clone + Copy>(items: Seq<Item<T>>) -> int
    decreases items.len(),
{
    if items.len() <= 1 {
        0
    } else {
        let before = heaviest(items.drop_last());
        if items.last().volume > items[before].volume {
            items.len() - 1
        } else {
            before
        }
    }
}

/// The bins after all of `items` are packed, the largest first.
pub open spec fn pack<T: Clone + Copy>(
    bins: Seq<BinModel<T>>,
    items: Seq<Item<T>>,
    bin_volume: int,
) -> Seq<BinModel<T>>
    decreases items.len(),
{
    if items.len() == 0 {
        bins
    } else {
        proof {
            lemma_heaviest(items);
        }
        pack(
            place(bins, items[heaviest(items)], bin_volume),
            items.remove(heaviest(items)),
            bin_volume,
        )
    }
}

/// What each of `bins` holds.
pub open spec fn items_of<T: Clone + Copy>(bins: Seq<BinModel<T>>) -> Seq<Seq<Item<T>>> {
    bins.map_values(|bin: BinModel<T>| bin.items)
}

/// What `pack_bins` returns: the contents of the bins, in the order of the
/// bins, after the items are packed into what was one empty bin.
pub open spec fn spec_pack_bins<T: Clone + Copy>(bin_volume: usize, items: Seq<Item<T>>) -> Result<
    Seq<Seq<Item<T>>>,
    BinPackingError,
> {
    if exists|i: int| 0 <= i < items.len() && items[i].volume > bin_volume {
        Err(BinPackingError::OversizedItem)
    } else {
        Ok(
            items_of(
                pack(
                    seq![BinModel { id: 0, free: bin_volume as int, items: Seq::empty() }],
                    items,
                    bin_volume as int,
                ),
            ),
        )
    }
}

/// The room that `items` take together.
pub open spec fn total_volume<T: Clone + Copy>(items: Seq<Item<T>>) -> int
    decreases items.len(),
{
    if items.len() == 0 {
        0
    } else {
        total_volume(items.drop_last()) + items.last().volume
    }
}

/// All the items that the bins hold.
pub open spec fn held<T: Clone + Copy>(bins: Seq<Seq<Item<T>>>) -> Multiset<Item<T>>
    decreases bins.len(),
{
    if bins.len() == 0 {
        Multiset::empty()
    } else {
        held(bins.drop_last()).add(bins.last().to_multiset())
    }
}

/// What holds of the bins while they are filled: each bin has the room that its
/// items leave of `bin_volume`, the bins are numbered from zero without a gap,
/// and they stand in their order.
pub open spec fn well_kept<T: Clone + Copy>(bins: Seq<BinModel<T>>, bin_volume: int) -> bool {
    &&& forall|i: int|
        0 <= i < bins.len() ==> 0 <= (#[trigger] bins[i]).free == bin_volume - total_volume(
            bins[i].items,
        )
    &&& forall|i: int| 0 <= i < bins.len() ==> 0 <= (#[trigger] bins[i]).id < bins.len()
    &&& forall|i: int, j: int|
        0 <= i < bins.len() && 0 <= j < bins.len() && i != j ==> (#[trigger] bins[i]).id
            != (#[trigger] bins[j]).id
    &&& forall|i: int, j: int|
        0 <= i < j < bins.len() ==> comes_before(#[trigger] bins[i], #[trigger] bins[j])
}

/// Whether no two of the bins could be one: the room that any two of them have
/// left is less than a whole bin.
pub open spec fn none_mergeable<T: Clone + Copy>(bins: Seq<BinModel<T>>, bin_volume: int) -> bool {
    forall|a: int, b: int|
        0 <= a < bins.len() && 0 <= b < bins.len() && a != b ==> (#[trigger] bins[a]).free + (
        #[trigger] bins[b]).free < bin_volume
}

/// Whether no item is larger than one before it.
pub open spec fn never_rising<T: Clone + Copy>(items: Seq<Item<T>>) -> bool {
    forall|i: int, j: int|
        0 <= i < j < items.len() ==> (#[trigger] items[i]).volume >= (#[trigger] items[j]).volume
}

/// Whether the items never rise and end with one of at least `volume`.
pub open spec fn settled<T: Clone + Copy>(items: Seq<Item<T>>, volume: int) -> bool {
    never_rising(items) && (items.len() > 0 ==> items.last().volume >= volume)
}

/// Whether the items of each bin never rise and end with one of at least
/// `volume`: an item of `volume` can then follow in any of the bins.
pub open spec fn all_settled<T: Clone + Copy>(bins: Seq<BinModel<T>>, volume: int) -> bool {
    forall|b: int| 0 <= b < bins.len() ==> settled((#[trigger] bins[b]).items, volume)
}

/// The contents of each of `bins`.
pub open spec fn contents<T: Clone + Copy>(bins: Seq<Vec<Item<T>>>) -> Seq<Seq<Item<T>>> {
    bins.map_values(|bin: Vec<Item<T>>| bin@)
}

/// The bins as mathematical values.
spec fn models<T: Clone + Copy>(bins: Seq<Bin<T>>) -> Seq<BinModel<T>> {
    bins.map_values(|bin: Bin<T>| bin@)
}

/// The largest item is one of the items, and none is larger.
pub proof fn lemma_heaviest<T: Clone + Copy>(items: Seq<Item<T>>)
    requires
        items.len() > 0,
    ensures
        0 <= heaviest(items) < items.len(),
        forall|i: int|
            0 <= i < items.len() ==> (#[trigger] items[i]).volume <= items[heaviest(items)].volume,
        forall|i: int|
            0 <= i < heaviest(items) ==> (#[trigger] items[i]).volume
                < items[heaviest(items)].volume,
    decreases items.len(),
{
    if items.len() > 1 {
        let before = items.drop_last();
        lemma_heaviest(before);
        assert forall|i: int| 0 <= i < before.len() implies before[i] == items[i] by {}
    }
}

/// The bin that an item goes to is the fitting bin with the least room: it has
/// room for `volume`, no bin with room for `volume` has less room, and of the
/// bins with as much room it is the one that was opened first. Where no bin is
/// named, no bin has room.
pub proof fn lemma_best_fit_has_least_room<T: Clone + Copy>(
    bins: Seq<BinModel<T>>,
    volume: int,
    bin_volume: int,
)
    requires
        well_kept(bins, bin_volume),
    ensures
        match best_fit(bins, volume) {
            Some(p) => {
                &&& 0 <= p < bins.len()
                &&& volume <= bins[p].free
                &&& forall|j: int|
                    0 <= j < bins.len() && volume <= (#[trigger] bins[j]).free ==> bins[p].free
                        <= bins[j].free
                &&& forall|j: int|
                    0 <= j < bins.len() && j != p && (#[trigger] bins[j]).free == bins[p].free
                        ==> bins[p].id < bins[j].id
            },
            None => forall|j: int| 0 <= j < bins.len() ==> volume > (#[trigger] bins[j]).free,
        },
{
    lemma_best_fit_in_range(bins, volume);
    if let Some(p) = best_fit(bins, volume) {
        assert forall|j: int| 0 <= j < bins.len() && j != p implies (volume <= (
        #[trigger] bins[j]).free ==> bins[p].free <= bins[j].free) && (bins[j].free == bins[p].free
            ==> bins[p].id < bins[j].id) by {
            if j < p {
                assert(comes_before(bins[j], bins[p]));
            }
        }
    }
}

/// What `pack_bins` hands back is a packing: no bin holds more than it has room
/// for, the bins hold the items that were given, each as often as it was given,
/// and no bin is fuller than one behind it. No two bins could be one, there
/// are no more bins than items, and in a bin no item is larger than one before
/// it.
pub proof fn lemma_pack_bins_is_a_packing<T: Clone + Copy>(bin_volume: usize, items: Seq<Item<T>>)
    requires
        spec_pack_bins(bin_volume, items) is Ok,
    ensures
        ({
            let bins = spec_pack_bins(bin_volume, items)->Ok_0;
            &&& bins.len() >= 1
            &&& forall|b: int| 0 <= b < bins.len() ==> total_volume(#[trigger] bins[b]) <= bin_volume
            &&& held(bins) == items.to_multiset()
            &&& forall|a: int, b: int|
                0 <= a < b < bins.len() ==> total_volume(#[trigger] bins[a]) <= total_volume(
                    #[trigger] bins[b],
                )
            &&& forall|a: int, b: int|
                0 <= a < bins.len() && 0 <= b < bins.len() && a != b ==> total_volume(
                    #[trigger] bins[a],
                ) + total_volume(#[trigger] bins[b]) > bin_volume
            &&& items.len() > 0 ==> bins.len() <= items.len()
            &&& forall|b: int| 0 <= b < bins.len() ==> never_rising(#[trigger] bins[b])
        }),
{
    let empty = BinModel { id: 0, free: bin_volume as int, items: Seq::<Item<T>>::empty() };
    let start = seq![empty];
    assert(well_kept(start, bin_volume as int));
    lemma_pack_settled(start, items, bin_volume as int);
    assert(none_mergeable(start, bin_volume as int));
    assert(items_of(start) =~= seq![Seq::<Item<T>>::empty()]);
    assert(items_of(start).drop_last() =~= Seq::<Seq<Item<T>>>::empty());
    assert(held(items_of(start)) =~= Multiset::empty()) by {
        broadcast use vstd::seq_lib::group_to_multiset_ensures;

        assert(Seq::<Item<T>>::empty().to_multiset() =~= Multiset::empty());
        assert(held(items_of(start).drop_last()) =~= Multiset::empty());
        assert(items_of(start).last() == Seq::<Item<T>>::empty());
    }
    lemma_pack_well_kept(start, items, bin_volume as int);
    let packed = pack(start, items, bin_volume as int);
    let bins = items_of(packed);
    assert(held(bins) =~= items.to_multiset());
    assert(packed.len() >= 1) by {
        lemma_pack_keeps_bins(start, items, bin_volume as int);
    }
    assert forall|b: int| 0 <= b < bins.len() implies total_volume(#[trigger] bins[b])
        <= bin_volume by {
        assert(bins[b] == packed[b].items);
    }
    assert forall|a: int, b: int| 0 <= a < b < bins.len() implies total_volume(#[trigger] bins[a])
        <= total_volume(#[trigger] bins[b]) by {
        assert(bins[a] == packed[a].items && bins[b] == packed[b].items);
        assert(comes_before(packed[a], packed[b]));
    }
    assert forall|b: int| 0 <= b < bins.len() implies never_rising(#[trigger] bins[b]) by {
        assert(bins[b] == packed[b].items);
    }
    lemma_pack_none_mergeable(start, items, bin_volume as int);
    assert forall|a: int, b: int|
        0 <= a < bins.len() && 0 <= b < bins.len() && a != b implies total_volume(
        #[trigger] bins[a],
    ) + total_volume(#[trigger] bins[b]) > bin_volume by {
        assert(bins[a] == packed[a].items && bins[b] == packed[b].items);
        assert(packed[a].free + packed[b].free < bin_volume);
    }
    if items.len() > 0 {
        lemma_heaviest(items);
        let first = items[heaviest(items)];
        assert(start.last() == empty);
        assert(best_fit(start, first.volume as int) == Some(0int));
        lemma_place_none_mergeable(start, first, bin_volume as int);
        lemma_place_well_kept(start, first, bin_volume as int);
        let more = items.remove(heaviest(items));
        assert forall|i: int| 0 <= i < more.len() implies (#[trigger] more[i]).volume
            <= bin_volume by {
            if i < heaviest(items) {
                assert(more[i] == items[i]);
            } else {
                assert(more[i] == items[i + 1]);
            }
        }
        lemma_pack_none_mergeable(place(start, first, bin_volume as int), more, bin_volume as int);
    }
}

/// Packing an item that is no larger than a bin leaves the bins well kept, and
/// adds the item to what they hold.
pub proof fn lemma_place_well_kept<T: Clone + Copy>(
    bins: Seq<BinModel<T>>,
    item: Item<T>,
    bin_volume: int,
)
    requires
        well_kept(bins, bin_volume),
        item.volume <= bin_volume,
    ensures
        well_kept(place(bins, item, bin_volume), bin_volume),
        held(items_of(place(bins, item, bin_volume))) == held(items_of(bins)).insert(item),
{
    broadcast use vstd::seq_lib::group_to_multiset_ensures;

    match best_fit(bins, item.volume as int) {
        Some(p) => {
            lemma_best_fit_in_range(bins, item.volume as int);
            let others = bins.remove(p);
            let filled = BinModel {
                id: bins[p].id,
                free: bins[p].free - item.volume,
                items: bins[p].items.push(item),
            };
            assert(others.len() == bins.len() - 1);
            assert(filled.items.drop_last() =~= bins[p].items);
            assert forall|i: int| 0 <= i < others.len() implies (#[trigger] others[i]).id
                != filled.id && 0 <= others[i].id <= others.len() && 0 <= others[i].free
                == bin_volume - total_volume(others[i].items) by {
                if i < p {
                    assert(others[i] == bins[i]);
                } else {
                    assert(others[i] == bins[i + 1]);
                }
            }
            assert forall|i: int, j: int|
                0 <= i < others.len() && 0 <= j < others.len() && i != j implies (
            #[trigger] others[i]).id != (#[trigger] others[j]).id by {
                let a = if i < p {
                    i
                } else {
                    i + 1
                };
                let b = if j < p {
                    j
                } else {
                    j + 1
                };
                assert(others[i] == bins[a] && others[j] == bins[b]);
            }
            assert forall|i: int, j: int| 0 <= i < j < others.len() implies comes_before(
                #[trigger] others[i],
                #[trigger] others[j],
            ) by {
                let a = if i < p {
                    i
                } else {
                    i + 1
                };
                let b = if j < p {
                    j
                } else {
                    j + 1
                };
                assert(others[i] == bins[a] && others[j] == bins[b]);
            }
            lemma_insert_bin_well_kept(others, filled, bin_volume);
            assert(items_of(others) =~= items_of(bins).remove(p));
            lemma_held_remove(items_of(bins), p);
            assert(items_of(bins)[p] == bins[p].items);
            assert(held(items_of(place(bins, item, bin_volume))) =~= held(items_of(bins)).insert(
                item,
            ));
        },
        None => {
            let opened = BinModel {
                id: bins.len() as int,
                free: bin_volume - item.volume,
                items: seq![item],
            };
            assert(opened.items.drop_last() =~= Seq::<Item<T>>::empty());
            assert(total_volume(opened.items.drop_last()) == 0);
            assert(opened.items =~= Seq::<Item<T>>::empty().push(item));
            lemma_insert_bin_well_kept(bins, opened, bin_volume);
            assert(held(items_of(place(bins, item, bin_volume))) =~= held(items_of(bins)).insert(
                item,
            ));
        },
    }
}

/// Packing items of which none is larger than a bin leaves the bins well kept,
/// and adds the items to what they hold.
pub proof fn lemma_pack_well_kept<T: Clone + Copy>(
    bins: Seq<BinModel<T>>,
    items: Seq<Item<T>>,
    bin_volume: int,
)
    requires
        well_kept(bins, bin_volume),
        forall|i: int| 0 <= i < items.len() ==> (#[trigger] items[i]).volume <= bin_volume,
    ensures
        well_kept(pack(bins, items, bin_volume), bin_volume),
        held(items_of(pack(bins, items, bin_volume))) == held(items_of(bins)).add(
            items.to_multiset(),
        ),
    decreases items.len(),
{
    broadcast use vstd::seq_lib::group_to_multiset_ensures;

    if items.len() == 0 {
        assert(items.to_multiset() =~= Multiset::empty());
        assert(held(items_of(bins)).add(items.to_multiset()) =~= held(items_of(bins)));
    } else {
        lemma_heaviest(items);
        let k = heaviest(items);
        let more = items.remove(k);
        lemma_place_well_kept(bins, items[k], bin_volume);
        assert forall|i: int| 0 <= i < more.len() implies (#[trigger] more[i]).volume
            <= bin_volume by {
            if i < k {
                assert(more[i] == items[i]);
            } else {
                assert(more[i] == items[i + 1]);
            }
        }
        lemma_pack_well_kept(place(bins, items[k], bin_volume), more, bin_volume);
        assert(more.to_multiset() == items.to_multiset().remove(items[k]));
        assert(items.to_multiset().count(items[k]) > 0);
        assert(held(items_of(bins)).insert(items[k]).add(more.to_multiset()) =~= held(
            items_of(bins),
        ).add(items.to_multiset()));
    }
}

/// Packing an item leaves no two bins that could be one, and opens a bin only
/// when the item fits none.
pub proof fn lemma_place_none_mergeable<T: Clone + Copy>(
    bins: Seq<BinModel<T>>,
    item: Item<T>,
    bin_volume: int,
)
    requires
        well_kept(bins, bin_volume),
        none_mergeable(bins, bin_volume),
        item.volume <= bin_volume,
    ensures
        none_mergeable(place(bins, item, bin_volume), bin_volume),
        place(bins, item, bin_volume).len() == (if best_fit(bins, item.volume as int) is Some {
            bins.len()
        } else {
            bins.len() + 1
        }),
{
    lemma_best_fit_in_range(bins, item.volume as int);
    match best_fit(bins, item.volume as int) {
        Some(p) => {
            let others = bins.remove(p);
            let filled = BinModel {
                id: bins[p].id,
                free: bins[p].free - item.volume,
                items: bins[p].items.push(item),
            };
            lemma_insert_position(others, filled);
            lemma_none_mergeable_remove(bins, p, bin_volume);
            lemma_none_mergeable_insert(
                others,
                insert_position(others, filled),
                filled,
                bin_volume,
            );
        },
        None => {
            let opened = BinModel {
                id: bins.len() as int,
                free: bin_volume - item.volume,
                items: seq![item],
            };
            lemma_insert_position(bins, opened);
            lemma_none_mergeable_insert(bins, insert_position(bins, opened), opened, bin_volume);
        },
    }
}

/// Packing items leaves no two bins that could be one, and opens at most one
/// bin for each item.
pub proof fn lemma_pack_none_mergeable<T: Clone + Copy>(
    bins: Seq<BinModel<T>>,
    items: Seq<Item<T>>,
    bin_volume: int,
)
    requires
        well_kept(bins, bin_volume),
        none_mergeable(bins, bin_volume),
        forall|i: int| 0 <= i < items.len() ==> (#[trigger] items[i]).volume <= bin_volume,
    ensures
        none_mergeable(pack(bins, items, bin_volume), bin_volume),
        pack(bins, items, bin_volume).len() <= bins.len() + items.len(),
    decreases items.len(),
{
    if items.len() > 0 {
        lemma_heaviest(items);
        let k = heaviest(items);
        let more = items.remove(k);
        lemma_place_well_kept(bins, items[k], bin_volume);
        lemma_place_none_mergeable(bins, items[k], bin_volume);
        assert forall|i: int| 0 <= i < more.len() implies (#[trigger] more[i]).volume
            <= bin_volume by {
            if i < k {
                assert(more[i] == items[i]);
            } else {
                assert(more[i] == items[i + 1]);
            }
        }
        lemma_pack_none_mergeable(place(bins, items[k], bin_volume), more, bin_volume);
    }
}

/// Packing an item that is no larger than the last item of any bin leaves the
/// items of each bin never rising.
pub proof fn lemma_place_settled<T: Clone + Copy>(
    bins: Seq<BinModel<T>>,
    item: Item<T>,
    bin_volume: int,
)
    requires
        all_settled(bins, item.volume as int),
    ensures
        all_settled(place(bins, item, bin_volume), item.volume as int),
{
    lemma_best_fit_in_range(bins, item.volume as int);
    match best_fit(bins, item.volume as int) {
        Some(p) => {
            let others = bins.remove(p);
            let filled = BinModel {
                id: bins[p].id,
                free: bins[p].free - item.volume,
                items: bins[p].items.push(item),
            };
            lemma_insert_position(others, filled);
            assert(settled(bins[p].items, item.volume as int));
            lemma_settled_push(bins[p].items, item);
            assert forall|i: int| 0 <= i < others.len() implies bins.contains(
                #[trigger] others[i],
            ) by {
                let m = if i < p {
                    i
                } else {
                    i + 1
                };
                assert(others[i] == bins[m]);
            }
            lemma_all_settled_replace(
                bins,
                others,
                insert_position(others, filled),
                filled,
                item.volume as int,
            );
        },
        None => {
            let opened = BinModel {
                id: bins.len() as int,
                free: bin_volume - item.volume,
                items: seq![item],
            };
            lemma_insert_position(bins, opened);
            assert(settled(Seq::<Item<T>>::empty(), item.volume as int));
            lemma_settled_push(Seq::<Item<T>>::empty(), item);
            assert(opened.items =~= Seq::<Item<T>>::empty().push(item));
            assert forall|i: int| 0 <= i < bins.len() implies bins.contains(#[trigger] bins[i]) by {}
            lemma_all_settled_replace(
                bins,
                bins,
                insert_position(bins, opened),
                opened,
                item.volume as int,
            );
        },
    }
}

/// Packing items, the largest first, into bins whose last items are no smaller
/// than any of them leaves the items of each bin never rising.
pub proof fn lemma_pack_settled<T: Clone + Copy>(
    bins: Seq<BinModel<T>>,
    items: Seq<Item<T>>,
    bin_volume: int,
)
    requires
        forall|b: int| 0 <= b < bins.len() ==> never_rising((#[trigger] bins[b]).items),
        forall|k: int| 0 <= k < items.len() ==> all_settled(bins, (#[trigger] items[k]).volume as int),
    ensures
        forall|b: int|
            0 <= b < pack(bins, items, bin_volume).len() ==> never_rising(
                (#[trigger] pack(bins, items, bin_volume)[b]).items,
            ),
    decreases items.len(),
{
    if items.len() > 0 {
        lemma_heaviest(items);
        let k = heaviest(items);
        let more = items.remove(k);
        let after = place(bins, items[k], bin_volume);
        lemma_place_settled(bins, items[k], bin_volume);
        assert(more.len() == items.len() - 1);
        assert forall|m: int| 0 <= m < more.len() implies all_settled(
            after,
            (#[trigger] more[m]).volume as int,
        ) by {
            if m < k {
                assert(more[m] == items[m]);
            } else {
                assert(more[m] == items[m + 1]);
            }
            assert(more[m].volume <= items[k].volume);
            assert forall|b: int| 0 <= b < after.len() implies settled(
                (#[trigger] after[b]).items,
                more[m].volume as int,
            ) by {
                assert(settled(after[b].items, items[k].volume as int));
            }
        }
        assert forall|b: int| 0 <= b < after.len() implies never_rising(
            (#[trigger] after[b]).items,
        ) by {
            assert(settled(after[b].items, items[k].volume as int));
        }
        lemma_pack_settled(after, more, bin_volume);
        assert(pack(bins, items, bin_volume) == pack(after, more, bin_volume));
    } else {
        assert(pack(bins, items, bin_volume) == bins);
    }
}

/// The place at which a bin goes in is behind the bins that come before it and,
/// unless it is the end, in front of one that does not.
proof fn lemma_insert_position<T: Clone + Copy>(bins: Seq<BinModel<T>>, bin: BinModel<T>)
    ensures
        0 <= insert_position(bins, bin) <= bins.len(),
        forall|i: int| 0 <= i < insert_position(bins, bin) ==> comes_before(#[trigger] bins[i], bin),
        insert_position(bins, bin) < bins.len() ==> !comes_before(
            bins[insert_position(bins, bin)],
            bin,
        ),
    decreases bins.len(),
{
    if bins.len() > 0 && comes_before(bins[0], bin) {
        let more = bins.drop_first();
        lemma_insert_position(more, bin);
        assert forall|i: int| 0 <= i < insert_position(bins, bin) implies comes_before(
            #[trigger] bins[i],
            bin,
        ) by {
            if i > 0 {
                assert(bins[i] == more[i - 1]);
            }
        }
        if insert_position(bins, bin) < bins.len() {
            assert(bins[insert_position(bins, bin)] == more[insert_position(more, bin)]);
        }
    }
}

/// The place at which a bin goes in is the one behind the bins that come before
/// it and, unless it is the end, in front of one that does not.
proof fn lemma_insert_position_at<T: Clone + Copy>(
    bins: Seq<BinModel<T>>,
    bin: BinModel<T>,
    p: int,
)
    requires
        0 <= p <= bins.len(),
        forall|i: int| 0 <= i < p ==> comes_before(#[trigger] bins[i], bin),
        p < bins.len() ==> !comes_before(bins[p], bin),
    ensures
        insert_position(bins, bin) == p,
    decreases p,
{
    if p > 0 {
        let more = bins.drop_first();
        assert(comes_before(bins[0], bin));
        assert forall|i: int| 0 <= i < p - 1 implies comes_before(#[trigger] more[i], bin) by {
            assert(more[i] == bins[i + 1]);
        }
        if p < bins.len() {
            assert(more[p - 1] == bins[p]);
        }
        lemma_insert_position_at(more, bin, p - 1);
    }
}

/// The bin that `best_fit` names has room, and no bin behind it has.
proof fn lemma_best_fit_in_range<T: Clone + Copy>(bins: Seq<BinModel<T>>, volume: int)
    ensures
        match best_fit(bins, volume) {
            Some(p) => 0 <= p < bins.len() && volume <= bins[p].free && forall|j: int|
                p < j < bins.len() ==> volume > (#[trigger] bins[j]).free,
            None => forall|j: int| 0 <= j < bins.len() ==> volume > (#[trigger] bins[j]).free,
        },
    decreases bins.len(),
{
    if bins.len() > 0 && volume > bins.last().free {
        let before = bins.drop_last();
        lemma_best_fit_in_range(before, volume);
        assert forall|j: int| 0 <= j < before.len() implies before[j] == bins[j] by {}
    }
}

/// The last bin with room is the one that has room and has none with room
/// behind it.
proof fn lemma_best_fit_at<T: Clone + Copy>(bins: Seq<BinModel<T>>, volume: int, p: int)
    requires
        0 <= p <= bins.len(),
        forall|j: int| p <= j < bins.len() ==> volume > (#[trigger] bins[j]).free,
        p > 0 ==> volume <= bins[p - 1].free,
    ensures
        best_fit(bins, volume) == (if p > 0 {
            Some(p - 1)
        } else {
            None
        }),
    decreases bins.len() - p,
{
    if p < bins.len() {
        let before = bins.drop_last();
        assert(volume > bins[bins.len() - 1].free);
        assert forall|j: int| p <= j < before.len() implies volume > (#[trigger] before[j]).free by {
            assert(before[j] == bins[j]);
        }
        if p > 0 {
            assert(before[p - 1] == bins[p - 1]);
        }
        lemma_best_fit_at(before, volume, p);
    }
}

/// A bin put into bins adds its items to what they hold.
proof fn lemma_held_insert<T: Clone + Copy>(bins: Seq<Seq<Item<T>>>, p: int, bin: Seq<Item<T>>)
    requires
        0 <= p <= bins.len(),
    ensures
        held(bins.insert(p, bin)) == held(bins).add(bin.to_multiset()),
    decreases bins.len(),
{
    let after = bins.insert(p, bin);
    if p == bins.len() {
        assert(after.drop_last() =~= bins);
        assert(after.last() == bin);
    } else {
        assert(after.drop_last() =~= bins.drop_last().insert(p, bin));
        assert(after.last() == bins.last());
        lemma_held_insert(bins.drop_last(), p, bin);
        assert(held(after) =~= held(bins).add(bin.to_multiset()));
    }
}

/// A bin taken out of bins takes its items from what they hold.
proof fn lemma_held_remove<T: Clone + Copy>(bins: Seq<Seq<Item<T>>>, p: int)
    requires
        0 <= p < bins.len(),
    ensures
        held(bins) == held(bins.remove(p)).add(bins[p].to_multiset()),
    decreases bins.len(),
{
    let after = bins.remove(p);
    if p == bins.len() - 1 {
        assert(after =~= bins.drop_last());
    } else {
        assert(after.drop_last() =~= bins.drop_last().remove(p));
        assert(after.last() == bins.last());
        lemma_held_remove(bins.drop_last(), p);
        assert(held(bins) =~= held(after).add(bins[p].to_multiset()));
    }
}

/// A bin that is put in at its place, and whose number no other bin has, leaves
/// the bins in their order.
proof fn lemma_insert_bin_well_kept<T: Clone + Copy>(
    bins: Seq<BinModel<T>>,
    bin: BinModel<T>,
    bin_volume: int,
)
    requires
        forall|i: int|
            0 <= i < bins.len() ==> 0 <= (#[trigger] bins[i]).free == bin_volume - total_volume(
                bins[i].items,
            ),
        forall|i: int| 0 <= i < bins.len() ==> 0 <= (#[trigger] bins[i]).id <= bins.len(),
        forall|i: int, j: int|
            0 <= i < bins.len() && 0 <= j < bins.len() && i != j ==> (#[trigger] bins[i]).id
                != (#[trigger] bins[j]).id,
        forall|i: int, j: int|
            0 <= i < j < bins.len() ==> comes_before(#[trigger] bins[i], #[trigger] bins[j]),
        0 <= bin.free == bin_volume - total_volume(bin.items),
        0 <= bin.id <= bins.len(),
        forall|i: int| 0 <= i < bins.len() ==> (#[trigger] bins[i]).id != bin.id,
    ensures
        well_kept(insert_bin(bins, bin), bin_volume),
        held(items_of(insert_bin(bins, bin))) == held(items_of(bins)).add(bin.items.to_multiset()),
{
    let p = insert_position(bins, bin);
    let after = insert_bin(bins, bin);
    lemma_insert_position(bins, bin);
    assert forall|i: int, j: int| 0 <= i < j < after.len() implies comes_before(
        #[trigger] after[i],
        #[trigger] after[j],
    ) by {
        if j < p {
            assert(after[i] == bins[i] && after[j] == bins[j]);
        } else if j == p {
            assert(after[i] == bins[i]);
        } else if i < p {
            assert(after[i] == bins[i] && after[j] == bins[j - 1]);
        } else if i == p {
            assert(after[j] == bins[j - 1]);
            assert(bins[p].id != bin.id);
            if j - 1 > p {
                assert(comes_before(bins[p], bins[j - 1]));
            }
        } else {
            assert(after[i] == bins[i - 1] && after[j] == bins[j - 1]);
        }
    }
    assert forall|i: int| 0 <= i < after.len() implies 0 <= (#[trigger] after[i]).free
        == bin_volume - total_volume(after[i].items) && 0 <= after[i].id < after.len() by {
        if i < p {
            assert(after[i] == bins[i]);
        } else if i > p {
            assert(after[i] == bins[i - 1]);
        }
    }
    assert forall|i: int, j: int|
        0 <= i < after.len() && 0 <= j < after.len() && i != j implies (#[trigger] after[i]).id
        != (#[trigger] after[j]).id by {
        let a = if i < p {
            i
        } else {
            i - 1
        };
        let b = if j < p {
            j
        } else {
            j - 1
        };
        if i != p {
            assert(after[i] == bins[a]);
        }
        if j != p {
            assert(after[j] == bins[b]);
        }
    }
    assert(items_of(after) =~= items_of(bins).insert(p, bin.items));
    lemma_held_insert(items_of(bins), p, bin.items);
}

/// Packing takes no bin away.
proof fn lemma_pack_keeps_bins<T: Clone + Copy>(
    bins: Seq<BinModel<T>>,
    items: Seq<Item<T>>,
    bin_volume: int,
)
    ensures
        pack(bins, items, bin_volume).len() >= bins.len(),
    decreases items.len(),
{
    if items.len() > 0 {
        lemma_heaviest(items);
        let item = items[heaviest(items)];
        lemma_best_fit_in_range(bins, item.volume as int);
        match best_fit(bins, item.volume as int) {
            Some(p) => {
                let others = bins.remove(p);
                let filled = BinModel {
                    id: bins[p].id,
                    free: bins[p].free - item.volume,
                    items: bins[p].items.push(item),
                };
                lemma_insert_position(others, filled);
            },
            None => {
                let opened = BinModel {
                    id: bins.len() as int,
                    free: bin_volume - item.volume,
                    items: seq![item],
                };
                lemma_insert_position(bins, opened);
            },
        }
        lemma_pack_keeps_bins(place(bins, item, bin_volume), items.remove(heaviest(items)), bin_volume);
    }
}

/// Items that an item no larger than their last follows never rise.
proof fn lemma_settled_push<T: Clone + Copy>(items: Seq<Item<T>>, item: Item<T>)
    requires
        settled(items, item.volume as int),
    ensures
        settled(items.push(item), item.volume as int),
{
    let longer = items.push(item);
    assert forall|i: int, j: int| 0 <= i < j < longer.len() implies (#[trigger] longer[i]).volume
        >= (#[trigger] longer[j]).volume by {
        assert(longer[i] == items[i]);
        if j < items.len() {
            assert(longer[j] == items[j]);
        } else if i < items.len() - 1 {
            assert(items[i].volume >= items[items.len() - 1].volume);
        }
    }
    assert(longer.last() == item);
}

/// Settled bins stay settled when one is taken out and a settled bin is put
/// in.
proof fn lemma_all_settled_replace<T: Clone + Copy>(
    bins: Seq<BinModel<T>>,
    others: Seq<BinModel<T>>,
    q: int,
    bin: BinModel<T>,
    volume: int,
)
    requires
        all_settled(bins, volume),
        settled(bin.items, volume),
        0 <= q <= others.len(),
        forall|i: int| 0 <= i < others.len() ==> bins.contains(#[trigger] others[i]),
    ensures
        all_settled(others.insert(q, bin), volume),
{
    let after = others.insert(q, bin);
    assert forall|b: int| 0 <= b < after.len() implies settled((#[trigger] after[b]).items, volume) by {
        if b != q {
            let o = if b < q {
                b
            } else {
                b - 1
            };
            assert(after[b] == others[o]);
            assert(bins.contains(others[o]));
            let m = choose|m: int| 0 <= m < bins.len() && bins[m] == others[o];
            assert(settled(bins[m].items, volume));
        }
    }
}

/// Bins of which one is taken out stay bins of which no two could be one, and
/// none of them could be one with the bin taken out.
proof fn lemma_none_mergeable_remove<T: Clone + Copy>(
    bins: Seq<BinModel<T>>,
    p: int,
    bin_volume: int,
)
    requires
        none_mergeable(bins, bin_volume),
        0 <= p < bins.len(),
    ensures
        none_mergeable(bins.remove(p), bin_volume),
        forall|i: int|
            0 <= i < bins.remove(p).len() ==> (#[trigger] bins.remove(p)[i]).free + bins[p].free
                < bin_volume,
{
    let others = bins.remove(p);
    assert forall|i: int| 0 <= i < others.len() implies (#[trigger] others[i]).free + bins[p].free
        < bin_volume by {
        let m = if i < p {
            i
        } else {
            i + 1
        };
        assert(others[i] == bins[m]);
        assert(bins[m].free + bins[p].free < bin_volume);
    }
    assert forall|a: int, b: int|
        0 <= a < others.len() && 0 <= b < others.len() && a != b implies (
    #[trigger] others[a]).free + (#[trigger] others[b]).free < bin_volume by {
        let m_a = if a < p {
            a
        } else {
            a + 1
        };
        let m_b = if b < p {
            b
        } else {
            b + 1
        };
        assert(others[a] == bins[m_a] && others[b] == bins[m_b]);
        assert(bins[m_a].free + bins[m_b].free < bin_volume);
    }
}

/// Bins of which no two could be one stay so when a bin is put in that could
/// be one with none of them.
proof fn lemma_none_mergeable_insert<T: Clone + Copy>(
    bins: Seq<BinModel<T>>,
    q: int,
    bin: BinModel<T>,
    bin_volume: int,
)
    requires
        none_mergeable(bins, bin_volume),
        0 <= q <= bins.len(),
        forall|i: int| 0 <= i < bins.len() ==> (#[trigger] bins[i]).free + bin.free < bin_volume,
    ensures
        none_mergeable(bins.insert(q, bin), bin_volume),
{
    let after = bins.insert(q, bin);
    assert forall|a: int, b: int|
        0 <= a < after.len() && 0 <= b < after.len() && a != b implies (#[trigger] after[a]).free
        + (#[trigger] after[b]).free < bin_volume by {
        let m_a = if a < q {
            a
        } else {
            a - 1
        };
        let m_b = if b < q {
            b
        } else {
            b - 1
        };
        if a == q {
            assert(after[b] == bins[m_b]);
            assert(bins[m_b].free + bin.free < bin_volume);
        } else if b == q {
            assert(after[a] == bins[m_a]);
            assert(bins[m_a].free + bin.free < bin_volume);
        } else {
            assert(after[a] == bins[m_a] && after[b] == bins[m_b]);
            assert(bins[m_a].free + bins[m_b].free < bin_volume);
        }
    }
}

impl<T: Clone + Copy> Bin<T> {
    /// Whether this bin comes before `other` in the order of the bins.
    fn comes_before(&self, other: &Bin<T>) -> (r: bool)
        ensures
            r == comes_before(self@, other@),
    {
        self.free > other.free || (self.free == other.free && self.id > other.id)
    }
}

/// The place of the largest item.
fn heaviest_index<T: Clone + Copy>(items: &Vec<Item<T>>) -> (k: usize)
    requires
        items@.len() > 0,
    ensures
        k == heaviest(items@),
        k < items@.len(),
{
    let mut k: usize = 0;
    let mut i: usize = 1;
    assert(items@.take(1).len() == 1);
    while i < items.len()
        invariant
            1 <= i <= items@.len(),
            k < i,
            k == heaviest(items@.take(i as int)),
        decreases items@.len() - i,
    {
        proof {
            assert(items@.take(i + 1).drop_last() =~= items@.take(i as int));
        }
        if items[i].volume > items[k].volume {
            k = i;
        }
        i += 1;
    }
    assert(items@.take(i as int) =~= items@);
    k
}

/// Puts `bin` into `bins` at its place.
fn insert_at_place<T: Clone + Copy>(bins: &mut Vec<Bin<T>>, bin: Bin<T>)
    ensures
        models(final(bins)@) == insert_bin(models(old(bins)@), bin@),
{
    let mut p: usize = 0;
    while p < bins.len() && bins[p].comes_before(&bin)
        invariant
            p <= bins@.len(),
            bins@ == old(bins)@,
            forall|i: int| 0 <= i < p ==> comes_before(#[trigger] models(bins@)[i], bin@),
        decreases bins@.len() - p,
    {
        assert(models(bins@)[p as int] == bins@[p as int]@);
        p += 1;
    }
    proof {
        if p < bins@.len() {
            assert(models(bins@)[p as int] == bins@[p as int]@);
        }
        lemma_insert_position_at(models(bins@), bin@, p as int);
    }
    let ghost before = models(bins@);
    let ghost model = bin@;
    bins.insert(p, bin);
    assert(models(bins@) =~= before.insert(p as int, model));
}

/// The place of the last bin with room for `volume`.
fn best_fit_index<T: Clone + Copy>(bins: &Vec<Bin<T>>, volume: usize) -> (r: Option<usize>)
    ensures
        match r {
            Some(p) => best_fit(models(bins@), volume as int) == Some(p as int) && p
                < bins@.len() && volume <= bins@[p as int].free,
            None => best_fit(models(bins@), volume as int) is None,
        },
{
    let mut p: usize = bins.len();
    while p > 0
        invariant
            p <= bins@.len(),
            forall|j: int| p <= j < bins@.len() ==> volume > (#[trigger] models(bins@)[j]).free,
        decreases p,
    {
        assert(models(bins@)[p - 1] == bins@[p - 1]@);
        if volume <= bins[p - 1].free {
            proof {
                lemma_best_fit_at(models(bins@), volume as int, p as int);
            }
            return Some(p - 1);
        }
        p -= 1;
    }
    proof {
        lemma_best_fit_at(models(bins@), volume as int, p as int);
    }
    None
}

/// Packs `item`: into the fitting bin with the least room, or into a new bin.
fn place_item<T: Clone + Copy>(bins: &mut Vec<Bin<T>>, item: Item<T>, bin_volume: usize)
    requires
        item.volume <= bin_volume,
    ensures
        models(final(bins)@) == place(models(old(bins)@), item, bin_volume as int),
{
    match best_fit_index(bins, item.volume) {
        Some(p) => {
            let ghost before = models(bins@);
            assert(before[p as int] == bins@[p as int]@);
            let mut bin = bins.remove(p);
            assert(models(bins@) =~= before.remove(p as int));
            assert(bin@ == before[p as int]);
            assert(item.volume <= bin.free);
            bin.items.push(item);
            bin.free = bin.free - item.volume;
            assert(bin@ == (BinModel {
                id: before[p as int].id,
                free: before[p as int].free - item.volume,
                items: before[p as int].items.push(item),
            }));
            insert_at_place(bins, bin);
        },
        None => {
            let mut items: Vec<Item<T>> = Vec::new();
            items.push(item);
            assert(items@ =~= seq![item]);
            let bin = Bin { id: bins.len(), free: bin_volume - item.volume, items };
            insert_at_place(bins, bin);
        },
    }
}

/// A copy of the items.
fn copy_items<T: Clone + Copy>(items: &Vec<Item<T>>) -> (r: Vec<Item<T>>)
    ensures
        r@ == items@,
{
    let mut copy: Vec<Item<T>> = Vec::new();
    let mut i: usize = 0;
    while i < items.len()
        invariant
            i <= items@.len(),
            copy@ == items@.take(i as int),
        decreases items@.len() - i,
    {
        copy.push(items[i]);
        assert(copy@ =~= items@.take(i + 1));
        i += 1;
    }
    assert(items@.take(i as int) =~= items@);
    copy
}

/// Packs the items by best fit into bins of the volume `bin_volume`, and hands
/// back the contents of the bins, the bin with the most room first. The items
/// are packed from the largest down, and of two of one size the earlier first.
/// Each goes into the bin that it fits with the least room to spare, of bins
/// with the same room into the one that was opened first, and into a new bin
/// when it fits none. Fails when an item is larger than a bin.
pub fn pack_bins<T: Hash + Eq + Clone + Copy + Debug>(bin_volume: usize, items: &[Item<T>]) -> (r:
    Result<Vec<Vec<Item<T>>>, BinPackingError>)
    ensures
        match spec_pack_bins(bin_volume, items@) {
            Ok(bins) => r matches Ok(out) && contents(out@) == bins,
            Err(e) => r matches Err(out_e) && out_e == e,
        },
        r is Err <==> exists|i: int| 0 <= i < items@.len() && items@[i].volume > bin_volume,
        r matches Ok(out) ==> held(contents(out@)) == items@.to_multiset() && forall|b: int|
            0 <= b < out@.len() ==> total_volume(#[trigger] out@[b]@) <= bin_volume,
{
    let mut i: usize = 0;
    while i < items.len()
        invariant
            i <= items@.len(),
            forall|j: int| 0 <= j < i ==> items@[j].volume <= bin_volume,
        decreases items@.len() - i,
    {
        if items[i].volume > bin_volume {
            return Err(BinPackingError::OversizedItem);
        }
        i += 1;
    }
    let mut pending: Vec<Item<T>> = slice_to_vec(items);
    let mut bins: Vec<Bin<T>> = Vec::new();
    bins.push(Bin { id: 0, free: bin_volume, items: Vec::new() });
    assert(models(bins@) =~= seq![
        BinModel { id: 0, free: bin_volume as int, items: Seq::<Item<T>>::empty() },
    ]);
    while pending.len() > 0
        invariant
            forall|j: int| 0 <= j < pending@.len() ==> pending@[j].volume <= bin_volume,
            pack(models(bins@), pending@, bin_volume as int) == pack(
                seq![BinModel { id: 0, free: bin_volume as int, items: Seq::<Item<T>>::empty() }],
                items@,
                bin_volume as int,
            ),
        decreases pending@.len(),
    {
        let k = heaviest_index(&pending);
        let item = pending.remove(k);
        place_item(&mut bins, item, bin_volume);
    }
    let mut out: Vec<Vec<Item<T>>> = Vec::new();
    let mut b: usize = 0;
    while b < bins.len()
        invariant
            b <= bins@.len(),
            contents(out@) == items_of(models(bins@).take(b as int)),
        decreases bins@.len() - b,
    {
        let copy = copy_items(&bins[b].items);
        let ghost before = contents(out@);
        assert(before.len() == models(bins@).take(b as int).len());
        out.push(copy);
        proof {
            let taken = items_of(models(bins@).take(b + 1));
            assert(taken.len() == models(bins@).take(b + 1).len());
            assert(contents(out@).len() == taken.len());
            assert forall|j: int| 0 <= j < taken.len() implies contents(out@)[j] == taken[j] by {
                if j < b {
                    assert(contents(out@)[j] == before[j]);
                    assert(models(bins@).take(b as int)[j] == models(bins@).take(b + 1)[j]);
                } else {
                    assert(models(bins@).take(b + 1)[j] == bins@[b as int]@);
                }
            }
            assert(contents(out@) =~= taken);
        }
        b += 1;
    }
    proof {
        assert(models(bins@).take(b as int) =~= models(bins@));
        lemma_pack_bins_is_a_packing(bin_volume, items@);
        assert forall|b: int| 0 <= b < out@.len() implies total_volume(#[trigger] out@[b]@)
            <= bin_volume by {
            assert(contents(out@)[b] == out@[b]@);
        }
    }
    Ok(out)
}

} // verus!
