//! Sparse `slot,value` tables as dense per-slot series.
//!
//! Missing slots keep the previous value (step-and-hold). Duplicate rows for a
//! slot are ambiguous (which value wins would be an accident), so they are
//! rejected rather than guessed.

use vstd::prelude::*;

use crate::num::{zero, zero_of, Num};
use crate::order::{sort, stable_order, stable_order_is_arrangement, stable_order_is_sorted, Rank, Ranked};
use crate::scenario::{Charger, DrEvent, Manifest, Scenario, ScenarioError, ScenarioModel, TouClass, Vehicle};
use crate::text::{decimal, push_usize};
use crate::validation::{charger_order, charger_rank, is_valid, issue_text, scenario_issue};

verus! {

/// One row of a `slot,value` table.
#[derive(Debug, Clone, Copy, PartialEq)]
pub struct SeriesRow<N> {
    pub slot: usize,
    pub value: N,
}

/// One row of a `slot,value,tou` table. A row without a class holds the
/// previous one.
#[derive(Debug, Clone, Copy, PartialEq)]
pub struct PriceRow<N> {
    pub slot: usize,
    pub value: N,
    pub tou: Option<TouClass>,
}

/// Some slot has two rows.
pub open spec fn has_duplicate(slots: Seq<usize>, slot: usize) -> bool {
    exists|i: int, j: int|
        #![trigger slots[i], slots[j]]
        0 <= i < j < slots.len() && slots[i] == slot && slots[j] == slot
}

/// `slot` is the smallest one that has two rows.
pub open spec fn is_first_duplicate(slots: Seq<usize>, slot: usize) -> bool {
    &&& has_duplicate(slots, slot)
    &&& forall|s: usize| #[trigger] has_duplicate(slots, s) ==> slot <= s
}

/// Row `i` is the one that holds at `slot`: the latest one not after it.
pub open spec fn holds_at(slots: Seq<usize>, i: int, slot: int) -> bool {
    &&& 0 <= i < slots.len()
    &&& slots[i] <= slot
    &&& forall|j: int| 0 <= j < slots.len() && #[trigger] slots[j] <= slot ==> slots[j] <= slots[i]
}

/// No row is at `slot` or before it.
pub open spec fn none_yet(slots: Seq<usize>, slot: int) -> bool {
    forall|j: int| 0 <= j < slots.len() ==> #[trigger] slots[j] > slot
}

/// The slots of a table.
pub open spec fn series_slots<N>(rows: Seq<SeriesRow<N>>) -> Seq<usize> {
    Seq::new(rows.len(), |i: int| rows[i].slot)
}

/// The slots of a price table.
pub open spec fn price_slots<N>(rows: Seq<PriceRow<N>>) -> Seq<usize> {
    Seq::new(rows.len(), |i: int| rows[i].slot)
}

/// The slots of the rows of a price table that name a class.
pub open spec fn is_class_row<N>(rows: Seq<PriceRow<N>>, i: int, slot: int) -> bool {
    &&& 0 <= i < rows.len()
    &&& rows[i].tou is Some
    &&& rows[i].slot <= slot
}

/// The row whose class holds at `slot`: the latest one not after it that names one.
pub open spec fn class_holds_at<N>(rows: Seq<PriceRow<N>>, i: int, slot: int) -> bool {
    &&& is_class_row(rows, i, slot)
    &&& forall|j: int| #[trigger] is_class_row(rows, j, slot) ==> rows[j].slot <= rows[i].slot
}

/// `x` is the value that holds at `slot`: that of the row that holds there, zero
/// before the first row.
pub open spec fn is_held_value<N: Num>(rows: Seq<SeriesRow<N>>, slot: int, x: N) -> bool {
    ||| none_yet(series_slots(rows), slot) && x == zero_of::<N>()
    ||| exists|i: int| #[trigger] holds_at(series_slots(rows), i, slot) && x == rows[i].value
}

/// The series says at each slot what holds there.
pub open spec fn is_held<N: Num>(rows: Seq<SeriesRow<N>>, series: Seq<N>) -> bool {
    forall|s: int| 0 <= s < series.len() ==> is_held_value(rows, s, #[trigger] series[s])
}

/// `x` is the price that holds at `slot`: that of the row that holds there, zero
/// before the first row.
pub open spec fn is_held_price<N: Num>(rows: Seq<PriceRow<N>>, slot: int, x: N) -> bool {
    ||| none_yet(price_slots(rows), slot) && x == zero_of::<N>()
    ||| exists|i: int| #[trigger] holds_at(price_slots(rows), i, slot) && x == rows[i].value
}

/// The prices say at each slot what holds there.
pub open spec fn are_held_prices<N: Num>(rows: Seq<PriceRow<N>>, prices: Seq<N>) -> bool {
    forall|s: int| 0 <= s < prices.len() ==> is_held_price(rows, s, #[trigger] prices[s])
}

/// `x` is the class that holds at `slot`: the last one named, off-peak before
/// the first one.
pub open spec fn is_held_class<N: Num>(rows: Seq<PriceRow<N>>, slot: int, x: TouClass) -> bool {
    ||| (forall|j: int| !#[trigger] is_class_row(rows, j, slot)) && x == TouClass::OffPeak
    ||| exists|i: int| #[trigger] class_holds_at(rows, i, slot) && rows[i].tou == Some(x)
}

/// The classes say at each slot what holds there.
pub open spec fn are_held_classes<N: Num>(rows: Seq<PriceRow<N>>, classes: Seq<TouClass>) -> bool {
    forall|s: int| 0 <= s < classes.len() ==> is_held_class(rows, s, #[trigger] classes[s])
}

/// The slots in ascending order, as row numbers.
pub open spec fn slot_order(slots: Seq<usize>) -> Seq<usize> {
    stable_order(slot_keys(slots))
}

/// The keys by which slots are put in order.
pub open spec fn slot_keys(slots: Seq<usize>) -> Seq<Rank> {
    Seq::new(slots.len(), |i: int| Rank { major: slots[i] as u64, middle: 0, minor: 0 })
}

proof fn lemma_slot_order(slots: Seq<usize>)
    requires
        slots.len() <= usize::MAX,
    ensures
        slot_order(slots).len() == slots.len(),
        forall|k: int| 0 <= k < slots.len() ==> #[trigger] slot_order(slots)[k] < slots.len(),
        slot_order(slots).no_duplicates(),
        forall|x: usize| #[trigger] slot_order(slots).contains(x) <==> x < slots.len(),
        forall|p: int, q: int|
            #![trigger slot_order(slots)[p], slot_order(slots)[q]]
            0 <= p < q < slots.len() ==> slots[slot_order(slots)[p] as int]
                <= slots[slot_order(slots)[q] as int],
{
    let keys = slot_keys(slots);
    stable_order_is_arrangement(keys, keys.len());
    assert(crate::order::ranks_consistently(keys));
    stable_order_is_sorted(keys, keys.len());
    let order = slot_order(slots);
    assert forall|p: int, q: int|
        #![trigger order[p], order[q]]
        0 <= p < q < slots.len() implies slots[order[p] as int] <= slots[order[q] as int] by {
        assert(!keys[order[q] as int].ahead(&keys[order[p] as int]));
    }
}

/// Puts the rows in order of their slots; the smallest slot with two rows is an
/// error.
fn order_slots(slots: &Vec<usize>) -> (r: Result<Vec<usize>, usize>)
    ensures
        match r {
            Ok(order) => {
                &&& order@ == slot_order(slots@)
                &&& forall|s: usize| !#[trigger] has_duplicate(slots@, s)
            },
            Err(s) => is_first_duplicate(slots@, s),
        },
{
    let mut keys: Vec<Rank> = Vec::new();
    for i in 0..slots.len()
        invariant
            keys@ == slot_keys(slots@).take(i as int),
    {
        keys.push(Rank { major: slots[i] as u64, middle: 0, minor: 0 });
        assert(keys@ =~= slot_keys(slots@).take(i + 1));
    }
    assert(keys@ =~= slot_keys(slots@));
    let order = sort(&keys);
    assert(slots.len() <= usize::MAX);
    proof {
        lemma_slot_order(slots@);
    }
    let n: usize = if slots.len() == 0 {
        0
    } else {
        slots.len() - 1
    };
    for p in 0..n
        invariant
            order@ == slot_order(slots@),
            slots@.len() <= usize::MAX,
            order@.len() == slots@.len(),
            n == 0 || n == slots@.len() - 1,
            forall|k: int| 0 <= k < order@.len() ==> #[trigger] order@[k] < slots@.len(),
            order@.no_duplicates(),
            forall|q: int|
                #![trigger order@[q]]
                0 <= q < p ==> slots@[order@[q] as int] != slots@[order@[q + 1] as int],
    {
        let a: usize = slots[order[p]];
        if a == slots[order[p + 1]] {
            proof {
                lemma_first_duplicate(slots@, p as int);
            }
            return Err(a);
        }
    }
    proof {
        assert forall|s: usize| !#[trigger] has_duplicate(slots@, s) by {
            if has_duplicate(slots@, s) {
                lemma_duplicate_positions(slots@, s, n as int);
            }
        }
    }
    Ok(order)
}

/// Where two rows of one slot stand, two neighbours share that slot.
proof fn lemma_duplicate_positions(slots: Seq<usize>, s: usize, n: int)
    requires
        slots.len() <= usize::MAX,
        has_duplicate(slots, s),
        n == slots.len() - 1,
    ensures
        exists|q: int|
            #![trigger slot_order(slots)[q]]
            0 <= q < n && slots[slot_order(slots)[q] as int] == slots[slot_order(slots)[q + 1] as int]
                && slots[slot_order(slots)[q] as int] == s,
{
    let order = slot_order(slots);
    lemma_slot_order(slots);
    let (i, j) = choose|i: int, j: int|
        #![trigger slots[i], slots[j]]
        0 <= i < j < slots.len() && slots[i] == s && slots[j] == s;
    assert(order.contains(i as usize));
    assert(order.contains(j as usize));
    let a = choose|p: int| 0 <= p < order.len() && order[p] == i as usize;
    let b = choose|p: int| 0 <= p < order.len() && order[p] == j as usize;
    let lo = if a < b { a } else { b };
    let hi = if a < b { b } else { a };
    assert(slots[order[lo] as int] == s && slots[order[hi] as int] == s);
    assert(slots[order[lo] as int] <= slots[order[lo + 1] as int]);
    if lo + 1 < hi {
        assert(slots[order[lo + 1] as int] <= slots[order[hi] as int]);
    }
}

/// The first two neighbours with one slot show the smallest slot with two rows.
proof fn lemma_first_duplicate(slots: Seq<usize>, p: int)
    requires
        slots.len() <= usize::MAX,
        0 <= p < slots.len() - 1,
        slots[slot_order(slots)[p] as int] == slots[slot_order(slots)[p + 1] as int],
        forall|q: int|
            #![trigger slot_order(slots)[q]]
            0 <= q < p ==> slots[slot_order(slots)[q] as int] != slots[slot_order(slots)[q + 1] as int],
    ensures
        is_first_duplicate(slots, slots[slot_order(slots)[p] as int]),
{
    let order = slot_order(slots);
    lemma_slot_order(slots);
    let x = slots[order[p] as int];
    let a = order[p] as int;
    let b = order[p + 1] as int;
    assert(order[p] != order[p + 1]);
    let lo = if a < b { a } else { b };
    let hi = if a < b { b } else { a };
    assert(slots[lo] == x && slots[hi] == x);
    assert forall|s: usize| #[trigger] has_duplicate(slots, s) implies x <= s by {
        lemma_duplicate_positions(slots, s, slots.len() - 1);
        let q = choose|q: int|
            #![trigger slot_order(slots)[q]]
            0 <= q < slots.len() - 1 && slots[order[q] as int] == slots[order[q + 1] as int]
                && slots[order[q] as int] == s;
        if p < q {
            assert(slots[order[p] as int] <= slots[order[q] as int]);
        }
    }
}

/// The rows of the first `k` positions are not after `slot`, the others are.
spec fn is_cut(slots: Seq<usize>, k: int, slot: int) -> bool {
    let order = slot_order(slots);
    &&& 0 <= k <= slots.len()
    &&& forall|p: int| #![trigger order[p]] 0 <= p < k ==> slots[order[p] as int] <= slot
    &&& forall|p: int| #![trigger order[p]] k <= p < slots.len() ==> slots[order[p] as int] > slot
}

proof fn lemma_cut(slots: Seq<usize>, k: int, slot: int)
    requires
        slots.len() <= usize::MAX,
        is_cut(slots, k, slot),
    ensures
        k == 0 ==> none_yet(slots, slot),
        k > 0 ==> holds_at(slots, slot_order(slots)[k - 1] as int, slot),
{
    let order = slot_order(slots);
    lemma_slot_order(slots);
    if k == 0 {
        assert forall|j: int| 0 <= j < slots.len() implies #[trigger] slots[j] > slot by {
            assert(order.contains(j as usize));
            let p = choose|p: int| 0 <= p < order.len() && order[p] == j as usize;
            assert(slots[order[p] as int] > slot);
        }
    } else {
        let i = order[k - 1] as int;
        assert(slots[order[k - 1] as int] <= slot);
        assert forall|j: int| 0 <= j < slots.len() && #[trigger] slots[j] <= slot implies slots[j]
            <= slots[i] by {
            assert(order.contains(j as usize));
            let p = choose|p: int| 0 <= p < order.len() && order[p] == j as usize;
            assert(slots[order[p] as int] <= slot);
            if p < k - 1 {
                assert(slots[order[p] as int] <= slots[order[k - 1] as int]);
            }
        }
    }
}

/// Turns a `slot,value` table into a dense series of length `horizon`. Missing
/// slots keep the previous value (step-and-hold); slots before the first row are
/// 0. Returns the smallest slot with two rows where there is one.
pub fn dense_series<N: Num>(rows: &Vec<SeriesRow<N>>, horizon: usize) -> (r: Result<Vec<N>, usize>)
    ensures
        match r {
            Ok(series) => {
                &&& forall|s: usize| !#[trigger] has_duplicate(series_slots(rows@), s)
                &&& series@.len() == horizon
                &&& is_held(rows@, series@)
            },
            Err(s) => is_first_duplicate(series_slots(rows@), s),
        },
{
    let ghost all = series_slots(rows@);
    let mut slots: Vec<usize> = Vec::new();
    for i in 0..rows.len()
        invariant
            all == series_slots(rows@),
            slots@ == all.take(i as int),
    {
        slots.push(rows[i].slot);
        assert(slots@ =~= all.take(i + 1));
    }
    assert(slots@ =~= all);
    let order = match order_slots(&slots) {
        Ok(order) => order,
        Err(s) => {
            return Err(s);
        },
    };
    assert(rows.len() <= usize::MAX);
    proof {
        lemma_slot_order(all);
    }
    let mut series: Vec<N> = Vec::new();
    let mut k: usize = 0;
    let mut current: N = zero();
    for slot in 0..horizon
        invariant
            all == series_slots(rows@),
            all.len() <= usize::MAX,
            order@ == slot_order(all),
            order@.len() == rows@.len(),
            forall|p: int| 0 <= p < order@.len() ==> #[trigger] order@[p] < rows@.len(),
            forall|p: int, q: int|
                #![trigger order@[p], order@[q]]
                0 <= p < q < order@.len() ==> all[order@[p] as int] <= all[order@[q] as int],
            k <= rows@.len(),
            slot > 0 ==> is_cut(all, k as int, slot - 1),
            slot == 0 ==> k == 0,
            current == if k == 0 {
                zero_of::<N>()
            } else {
                rows@[order@[k - 1] as int].value
            },
            series@.len() == slot,
            is_held(rows@, series@),
    {
        while k < order.len() && rows[order[k]].slot <= slot
            invariant
                all == series_slots(rows@),
                order@ == slot_order(all),
                order@.len() == rows@.len(),
                forall|p: int| 0 <= p < order@.len() ==> #[trigger] order@[p] < rows@.len(),
                k <= rows@.len(),
                forall|p: int|
                    #![trigger order@[p]]
                    0 <= p < k ==> all[order@[p] as int] <= slot,
                current == if k == 0 {
                    zero_of::<N>()
                } else {
                    rows@[order@[k - 1] as int].value
                },
            decreases order.len() - k,
        {
            current = rows[order[k]].value;
            k = k + 1;
        }
        proof {
            assert(is_cut(all, k as int, slot as int)) by {
                assert forall|p: int|
                    #![trigger order@[p]]
                    k <= p < all.len() implies all[order@[p] as int] > slot by {
                    if p > k {
                        assert(all[order@[k as int] as int] <= all[order@[p] as int]);
                    }
                }
            }
            lemma_cut(all, k as int, slot as int);
        }
        let ghost before = series@;
        series.push(current);
        assert(is_held_value(rows@, slot as int, current)) by {
            if k > 0 {
                assert(holds_at(all, order@[k - 1] as int, slot as int));
            }
        }
        assert forall|s: int| 0 <= s < series@.len() implies is_held_value(
            rows@,
            s,
            #[trigger] series@[s],
        ) by {
            if s < slot {
                assert(series@[s] == before[s]);
            }
        }
    }
    Ok(series)
}

/// The class after the rows of the first `k` positions.
spec fn class_after<N>(rows: Seq<PriceRow<N>>, order: Seq<usize>, k: nat) -> TouClass
    decreases k,
{
    if k == 0 {
        TouClass::OffPeak
    } else {
        match rows[order[k - 1] as int].tou {
            Some(c) => c,
            None => class_after(rows, order, (k - 1) as nat),
        }
    }
}

/// The last of the first `k` positions whose row names a class.
spec fn class_position<N>(rows: Seq<PriceRow<N>>, order: Seq<usize>, k: nat) -> Option<int>
    decreases k,
{
    if k == 0 {
        None
    } else if rows[order[k - 1] as int].tou is Some {
        Some(k - 1)
    } else {
        class_position(rows, order, (k - 1) as nat)
    }
}

proof fn lemma_class_position<N>(rows: Seq<PriceRow<N>>, order: Seq<usize>, k: nat)
    ensures
        match class_position(rows, order, k) {
            Some(p) => {
                &&& 0 <= p < k
                &&& rows[order[p] as int].tou == Some(class_after(rows, order, k))
                &&& forall|q: int|
                    #![trigger order[q]]
                    p < q < k ==> rows[order[q] as int].tou is None
            },
            None => class_after(rows, order, k) == TouClass::OffPeak && forall|q: int|
                #![trigger order[q]]
                0 <= q < k ==> rows[order[q] as int].tou is None,
        },
    decreases k,
{
    if k > 0 {
        lemma_class_position(rows, order, (k - 1) as nat);
    }
}

proof fn lemma_class_holds<N: Num>(rows: Seq<PriceRow<N>>, k: int, slot: int)
    requires
        rows.len() <= usize::MAX,
        is_cut(price_slots(rows), k, slot),
    ensures
        is_held_class(rows, slot, class_after(rows, slot_order(price_slots(rows)), k as nat)),
{
    let slots = price_slots(rows);
    let order = slot_order(slots);
    lemma_slot_order(slots);
    lemma_class_position(rows, order, k as nat);
    assert forall|j: int| #[trigger] is_class_row(rows, j, slot) implies exists|p: int|
        #![trigger order[p]]
        0 <= p < k && order[p] == j as usize by {
        assert(slots[j] <= slot);
        assert(order.contains(j as usize));
        let p = choose|p: int| 0 <= p < order.len() && order[p] == j as usize;
        assert(order[p] == j as usize);
    }
    match class_position(rows, order, k as nat) {
        Some(p) => {
            let i = order[p] as int;
            assert(order[p] < rows.len());
            assert(slots[order[p] as int] <= slot);
            assert(is_class_row(rows, i, slot));
            assert forall|j: int| #[trigger] is_class_row(rows, j, slot) implies rows[j].slot
                <= rows[i].slot by {
                let q = choose|q: int| #![trigger order[q]] 0 <= q < k && order[q] == j as usize;
                assert(q <= p);
                if q < p {
                    assert(slots[order[q] as int] <= slots[order[p] as int]);
                }
                assert(slots[j] == rows[j].slot);
            }
            assert(class_holds_at(rows, i, slot));
        },
        None => {
            assert forall|j: int| !#[trigger] is_class_row(rows, j, slot) by {
                if is_class_row(rows, j, slot) {
                    let q = choose|q: int| #![trigger order[q]] 0 <= q < k && order[q] == j as usize;
                    assert(rows[order[q] as int].tou is None);
                }
            }
        },
    }
}

/// Turns a `slot,value,tou` price table into dense price and class series of
/// length `horizon` (step-and-hold, like [`dense_series`]). A row without a class
/// holds the previous class; the initial class is off-peak.
pub fn dense_prices<N: Num>(rows: &Vec<PriceRow<N>>, horizon: usize) -> (r: Result<
    (Vec<N>, Vec<TouClass>),
    usize,
>)
    ensures
        match r {
            Ok((prices, classes)) => {
                &&& forall|s: usize| !#[trigger] has_duplicate(price_slots(rows@), s)
                &&& prices@.len() == horizon
                &&& classes@.len() == horizon
                &&& are_held_prices(rows@, prices@)
                &&& are_held_classes(rows@, classes@)
            },
            Err(s) => is_first_duplicate(price_slots(rows@), s),
        },
{
    let ghost all = price_slots(rows@);
    let mut slots: Vec<usize> = Vec::new();
    for i in 0..rows.len()
        invariant
            all == price_slots(rows@),
            slots@ == all.take(i as int),
    {
        slots.push(rows[i].slot);
        assert(slots@ =~= all.take(i + 1));
    }
    assert(slots@ =~= all);
    let order = match order_slots(&slots) {
        Ok(order) => order,
        Err(s) => {
            return Err(s);
        },
    };
    assert(rows.len() <= usize::MAX);
    proof {
        lemma_slot_order(all);
    }
    let mut prices: Vec<N> = Vec::new();
    let mut classes: Vec<TouClass> = Vec::new();
    let mut k: usize = 0;
    let mut price: N = zero();
    let mut class: TouClass = TouClass::OffPeak;
    for slot in 0..horizon
        invariant
            all == price_slots(rows@),
            all.len() <= usize::MAX,
            order@ == slot_order(all),
            order@.len() == rows@.len(),
            forall|p: int| 0 <= p < order@.len() ==> #[trigger] order@[p] < rows@.len(),
            forall|p: int, q: int|
                #![trigger order@[p], order@[q]]
                0 <= p < q < order@.len() ==> all[order@[p] as int] <= all[order@[q] as int],
            k <= rows@.len(),
            slot > 0 ==> is_cut(all, k as int, slot - 1),
            slot == 0 ==> k == 0,
            price == if k == 0 {
                zero_of::<N>()
            } else {
                rows@[order@[k - 1] as int].value
            },
            class == class_after(rows@, order@, k as nat),
            prices@.len() == slot,
            classes@.len() == slot,
            are_held_prices(rows@, prices@),
            are_held_classes(rows@, classes@),
    {
        while k < order.len() && rows[order[k]].slot <= slot
            invariant
                all == price_slots(rows@),
                order@ == slot_order(all),
                order@.len() == rows@.len(),
                forall|p: int| 0 <= p < order@.len() ==> #[trigger] order@[p] < rows@.len(),
                k <= rows@.len(),
                forall|p: int|
                    #![trigger order@[p]]
                    0 <= p < k ==> all[order@[p] as int] <= slot,
                price == if k == 0 {
                    zero_of::<N>()
                } else {
                    rows@[order@[k - 1] as int].value
                },
                class == class_after(rows@, order@, k as nat),
            decreases order.len() - k,
        {
            let row = &rows[order[k]];
            price = row.value;
            match row.tou {
                Some(c) => {
                    class = c;
                },
                None => {},
            }
            k = k + 1;
        }
        proof {
            assert(is_cut(all, k as int, slot as int)) by {
                assert forall|p: int|
                    #![trigger order@[p]]
                    k <= p < all.len() implies all[order@[p] as int] > slot by {
                    if p > k {
                        assert(all[order@[k as int] as int] <= all[order@[p] as int]);
                    }
                }
            }
            lemma_cut(all, k as int, slot as int);
            lemma_class_holds(rows@, k as int, slot as int);
            assert(is_held_price(rows@, slot as int, price)) by {
                if k > 0 {
                    assert(holds_at(all, order@[k - 1] as int, slot as int));
                }
            }
        }
        let ghost before = prices@;
        let ghost named = classes@;
        prices.push(price);
        classes.push(class);
        assert forall|s: int| 0 <= s < prices@.len() implies is_held_price(
            rows@,
            s,
            #[trigger] prices@[s],
        ) by {
            if s < slot {
                assert(prices@[s] == before[s]);
            }
        }
        assert forall|s: int| 0 <= s < classes@.len() implies is_held_class(
            rows@,
            s,
            #[trigger] classes@[s],
        ) by {
            if s < slot {
                assert(classes@[s] == named[s]);
            }
        }
    }
    Ok((prices, classes))
}

/// What is said of a table with two rows for one slot.
pub open spec fn duplicate_text(table: Seq<char>, slot: usize) -> Seq<char> {
    table + ": duplicate rows for slot "@ + decimal(slot as nat)
}

/// The error of a table with two rows for one slot.
pub fn duplicate_error(table: &str, slot: usize) -> (r: ScenarioError)
    ensures
        r matches ScenarioError::Invalid(m) && m@ == duplicate_text(table@, slot),
{
    let mut out = table.to_owned();
    out.append(": duplicate rows for slot ");
    push_usize(&mut out, slot);
    ScenarioError::Invalid(out)
}

/// The tables of a scenario as they were read.
#[derive(Debug)]
pub struct Tables<N> {
    pub vehicles: Vec<Vehicle<N>>,
    pub chargers: Vec<Charger<N>>,
    pub building: Vec<SeriesRow<N>>,
    /// Where the building-load table was read from.
    pub building_path: String,
    pub prices: Vec<PriceRow<N>>,
    /// Where the price table was read from.
    pub prices_path: String,
    pub dr_events: Vec<DrEvent<N>>,
}

/// The chargers by id.
pub open spec fn sorted_chargers<N>(chargers: Seq<Charger<N>>) -> Seq<Charger<N>> {
    let order = charger_order(chargers);
    Seq::new(chargers.len(), |i: int| chargers[order[i] as int])
}

/// The chargers by id.
fn sort_chargers<N: Num>(chargers: &Vec<Charger<N>>) -> (r: Vec<Charger<N>>)
    ensures
        r@ == sorted_chargers(chargers@),
{
    let mut keys: Vec<Rank> = Vec::new();
    for i in 0..chargers.len()
        invariant
            keys@ == Seq::new(i as nat, |j: int| charger_rank(chargers@[j])),
    {
        keys.push(Rank { major: chargers[i].charger_id as u64, middle: 0, minor: 0 });
        assert(keys@ =~= Seq::new((i + 1) as nat, |j: int| charger_rank(chargers@[j])));
    }
    let order = sort(&keys);
    let mut sorted: Vec<Charger<N>> = Vec::new();
    for i in 0..order.len()
        invariant
            order@ == charger_order(chargers@),
            order@.len() == chargers@.len(),
            forall|k: int| 0 <= k < order@.len() ==> #[trigger] order@[k] < chargers@.len(),
            sorted@ == sorted_chargers(chargers@).take(i as int),
    {
        sorted.push(chargers[order[i]]);
        assert(sorted@ =~= sorted_chargers(chargers@).take(i + 1));
    }
    assert(sorted@ =~= sorted_chargers(chargers@));
    sorted
}

/// `sc` is the scenario that a manifest and its tables make.
pub open spec fn is_assembled<N: Num>(m: Manifest<N>, t: Tables<N>, sc: ScenarioModel<N>) -> bool {
    &&& sc.rules == m@
    &&& sc.vehicles == t.vehicles@
    &&& sc.chargers == sorted_chargers(t.chargers@)
    &&& sc.building.len() == m.horizon_slots
    &&& is_held(t.building@, sc.building)
    &&& sc.price.len() == m.horizon_slots
    &&& are_held_prices(t.prices@, sc.price)
    &&& sc.tou.len() == m.horizon_slots
    &&& are_held_classes(t.prices@, sc.tou)
    &&& sc.events == t.dr_events@
}

/// What comes of a manifest and its tables: the first ambiguous table, else the
/// first thing that is wrong with the scenario they make, else that scenario.
pub open spec fn is_load_result<N: Num>(
    m: Manifest<N>,
    t: Tables<N>,
    r: Result<Scenario<N>, ScenarioError>,
) -> bool {
    let loads = series_slots(t.building@);
    let prices = price_slots(t.prices@);
    if exists|s: usize| #[trigger] has_duplicate(loads, s) {
        r matches Err(ScenarioError::Invalid(text)) && exists|s: usize| #[trigger]
            is_first_duplicate(loads, s) && text@ == duplicate_text(t.building_path@, s)
    } else if exists|s: usize| #[trigger] has_duplicate(prices, s) {
        r matches Err(ScenarioError::Invalid(text)) && exists|s: usize| #[trigger]
            is_first_duplicate(prices, s) && text@ == duplicate_text(t.prices_path@, s)
    } else {
        exists|sc: ScenarioModel<N>| #[trigger]
            is_assembled(m, t, sc) && match (scenario_issue(sc), r) {
                (None, Ok(scenario)) => scenario@ == sc && scenario.manifest == m,
                (Some(issue), Err(ScenarioError::Invalid(text))) => text@ == issue_text(issue),
                _ => false,
            }
    }
}

impl<N: Num> Scenario<N> {
    /// Puts a manifest and its tables together and checks the scenario.
    pub fn assemble(manifest: Manifest<N>, tables: Tables<N>) -> (r: Result<Scenario<N>, ScenarioError>)
        ensures
            is_load_result(manifest, tables, r),
            r matches Ok(s) ==> is_valid(s@) && s@.building.len() == s@.rules.horizon_slots
                && s@.price.len() == s@.rules.horizon_slots && s@.tou.len() == s@.rules.horizon_slots,
    {
        let ghost m = manifest;
        let ghost t = tables;
        let building_load_kw = match dense_series(&tables.building, manifest.horizon_slots) {
            Ok(series) => series,
            Err(s) => {
                assert(has_duplicate(series_slots(t.building@), s));
                return Err(duplicate_error(tables.building_path.as_str(), s));
            },
        };
        let (price_usd_per_kwh, tou_class) = match dense_prices(
            &tables.prices,
            manifest.horizon_slots,
        ) {
            Ok(both) => both,
            Err(s) => {
                assert(has_duplicate(price_slots(t.prices@), s));
                return Err(duplicate_error(tables.prices_path.as_str(), s));
            },
        };
        let scenario = Scenario {
            manifest,
            vehicles: tables.vehicles,
            chargers: sort_chargers(&tables.chargers),
            building_load_kw,
            price_usd_per_kwh,
            tou_class,
            dr_events: tables.dr_events,
        };
        assert(is_assembled(m, t, scenario@));
        match scenario.validate() {
            Ok(_) => Ok(scenario),
            Err(e) => Err(e),
        }
    }
}

} // verus!
