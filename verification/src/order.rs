//! Stable ordering of rows by a key.

use vstd::prelude::*;

verus! {

/// A key by which rows are put in order.
pub trait Ranked: Sized {
    /// Whether `self` comes strictly before `other`.
    spec fn ahead(&self, other: &Self) -> bool;

    fn is_ahead(&self, other: &Self) -> (r: bool)
        ensures
            r == self.ahead(other),
    ;
}

/// Three whole numbers, ordered lexicographically.
#[derive(Clone, Copy, PartialEq, Eq, Debug)]
pub struct Rank {
    pub major: u64,
    pub middle: u64,
    pub minor: u64,
}

impl Ranked for Rank {
    open spec fn ahead(&self, other: &Self) -> bool {
        ||| self.major < other.major
        ||| self.major == other.major && self.middle < other.middle
        ||| self.major == other.major && self.middle == other.middle && self.minor < other.minor
    }

    fn is_ahead(&self, other: &Self) -> (r: bool) {
        self.major < other.major || (self.major == other.major && (self.middle < other.middle || (
        self.middle == other.middle && self.minor < other.minor)))
    }
}

/// `order` with the row `x` put behind every row that its key is not ahead of,
/// counted from the end.
pub open spec fn inserted<K: Ranked>(keys: Seq<K>, order: Seq<usize>, x: usize) -> Seq<usize>
    decreases order.len(),
{
    if order.len() == 0 || !keys[x as int].ahead(&keys[order.last() as int]) {
        order.push(x)
    } else {
        inserted(keys, order.drop_last(), x).push(order.last())
    }
}

/// The first `n` rows in the stable order of their keys.
pub open spec fn ordered_upto<K: Ranked>(keys: Seq<K>, n: nat) -> Seq<usize>
    decreases n,
{
    if n == 0 {
        Seq::empty()
    } else {
        inserted(keys, ordered_upto(keys, (n - 1) as nat), (n - 1) as usize)
    }
}

/// All rows in the stable order of their keys: row numbers, rows with equal
/// keys in their original order.
pub open spec fn stable_order<K: Ranked>(keys: Seq<K>) -> Seq<usize> {
    ordered_upto(keys, keys.len())
}

/// Row numbers below `n`, each exactly once.
pub open spec fn is_arrangement(order: Seq<usize>, n: nat) -> bool {
    &&& order.len() == n
    &&& forall|i: int| 0 <= i < order.len() ==> #[trigger] order[i] < n
    &&& order.no_duplicates()
}

/// No row is ahead of one that stands before it.
pub open spec fn is_sorted_by<K: Ranked>(keys: Seq<K>, order: Seq<usize>) -> bool {
    forall|i: int, j: int|
        #![trigger order[i], order[j]]
        0 <= i < j < order.len() ==> !keys[order[j] as int].ahead(&keys[order[i] as int])
}

/// Being ahead is irreflexive and transitive, and so is not being ahead either way.
pub open spec fn ranks_consistently<K: Ranked>(keys: Seq<K>) -> bool {
    &&& forall|i: int, j: int|
        #![trigger keys[i], keys[j]]
        0 <= i < keys.len() && 0 <= j < keys.len() && keys[i].ahead(&keys[j]) ==> !keys[j].ahead(
            &keys[i],
        )
    &&& forall|i: int, j: int, k: int|
        #![trigger keys[i], keys[j], keys[k]]
        0 <= i < keys.len() && 0 <= j < keys.len() && 0 <= k < keys.len() && !keys[j].ahead(&keys[i])
            && !keys[k].ahead(&keys[j]) ==> !keys[k].ahead(&keys[i])
}

proof fn lemma_inserted_members<K: Ranked>(keys: Seq<K>, order: Seq<usize>, x: usize)
    ensures
        inserted(keys, order, x).len() == order.len() + 1,
        forall|y: usize|
            #[trigger] inserted(keys, order, x).contains(y) <==> (y == x || order.contains(y)),
        order.no_duplicates() && !order.contains(x) ==> inserted(keys, order, x).no_duplicates(),
    decreases order.len(),
{
    let out = inserted(keys, order, x);
    if order.len() == 0 || !keys[x as int].ahead(&keys[order.last() as int]) {
        assert forall|y: usize| #[trigger] out.contains(y) <==> (y == x || order.contains(y)) by {
            if order.contains(y) {
                let i = choose|i: int| 0 <= i < order.len() && order[i] == y;
                assert(out[i] == y);
            }
            assert(out[order.len() as int] == x);
            if out.contains(y) {
                let i = choose|i: int| 0 <= i < out.len() && out[i] == y;
                if i < order.len() {
                    assert(order[i] == y);
                }
            }
        }
        if order.no_duplicates() && !order.contains(x) {
            assert forall|i: int, j: int| 0 <= i < out.len() && 0 <= j < out.len() && i != j implies out[i]
                != out[j] by {
                if i < order.len() && j < order.len() {
                    assert(order[i] != order[j]);
                } else if i < order.len() {
                    assert(order.contains(order[i]));
                } else {
                    assert(order.contains(order[j]));
                }
            }
        }
    } else {
        let rest = order.drop_last();
        lemma_inserted_members(keys, rest, x);
        let ins = inserted(keys, rest, x);
        assert(out == ins.push(order.last()));
        assert forall|y: usize| #[trigger] out.contains(y) <==> (y == x || order.contains(y)) by {
            if out.contains(y) {
                let i = choose|i: int| 0 <= i < out.len() && out[i] == y;
                if i < ins.len() {
                    assert(ins[i] == y);
                    assert(ins.contains(y));
                    if rest.contains(y) {
                        let j = choose|j: int| 0 <= j < rest.len() && rest[j] == y;
                        assert(order[j] == y);
                    }
                } else {
                    assert(order[order.len() - 1] == y);
                }
            }
            if y == x {
                assert(ins.contains(y));
                let i = choose|i: int| 0 <= i < ins.len() && ins[i] == y;
                assert(out[i] == y);
            }
            if order.contains(y) {
                let j = choose|j: int| 0 <= j < order.len() && order[j] == y;
                if j < rest.len() {
                    assert(rest[j] == y);
                    assert(rest.contains(y));
                    assert(ins.contains(y));
                    let i = choose|i: int| 0 <= i < ins.len() && ins[i] == y;
                    assert(out[i] == y);
                } else {
                    assert(out[ins.len() as int] == y);
                }
            }
        }
        if order.no_duplicates() && !order.contains(x) {
            assert(!rest.contains(x)) by {
                if rest.contains(x) {
                    let j = choose|j: int| 0 <= j < rest.len() && rest[j] == x;
                    assert(order[j] == x);
                }
            }
            assert(rest.no_duplicates());
            assert forall|i: int, j: int| 0 <= i < out.len() && 0 <= j < out.len() && i != j implies out[i]
                != out[j] by {
                if i < ins.len() && j < ins.len() {
                    assert(ins[i] != ins[j]);
                } else {
                    let k = if i < ins.len() { i } else { j };
                    assert(ins.contains(ins[k]));
                    assert(order[order.len() - 1] == order.last());
                    assert(order.contains(order.last()));
                    if rest.contains(ins[k]) {
                        let l = choose|l: int| 0 <= l < rest.len() && rest[l] == ins[k];
                        assert(order[l] == ins[k]);
                    }
                }
            }
        }
    }
}

/// Every row occurs exactly once in its stable order.
pub proof fn stable_order_is_arrangement<K: Ranked>(keys: Seq<K>, n: nat)
    requires
        n <= keys.len(),
        n <= usize::MAX,
    ensures
        is_arrangement(ordered_upto(keys, n), n),
        forall|x: usize| #[trigger] ordered_upto(keys, n).contains(x) <==> x < n,
    decreases n,
{
    if n > 0 {
        let prev = ordered_upto(keys, (n - 1) as nat);
        let x = (n - 1) as usize;
        stable_order_is_arrangement(keys, (n - 1) as nat);
        lemma_inserted_members(keys, prev, x);
        let out = ordered_upto(keys, n);
        assert forall|i: int| 0 <= i < out.len() implies #[trigger] out[i] < n by {
            assert(out.contains(out[i]));
        }
    }
}

proof fn lemma_inserted_sorted<K: Ranked>(keys: Seq<K>, order: Seq<usize>, x: usize)
    requires
        ranks_consistently(keys),
        is_sorted_by(keys, order),
        forall|i: int| 0 <= i < order.len() ==> #[trigger] order[i] < keys.len(),
        x < keys.len(),
    ensures
        is_sorted_by(keys, inserted(keys, order, x)),
    decreases order.len(),
{
    let out = inserted(keys, order, x);
    if order.len() == 0 || !keys[x as int].ahead(&keys[order.last() as int]) {
        assert forall|i: int, j: int| #![trigger out[i], out[j]] 0 <= i < j < out.len() implies !keys[out[j] as int].ahead(&keys[out[i] as int]) by {
            if j < order.len() {
                assert(out[i] == order[i] && out[j] == order[j]);
            } else {
                assert(out[i] == order[i]);
                let last = order.len() - 1;
                if i < last {
                    assert(!keys[order[last] as int].ahead(&keys[order[i] as int]));
                }
                assert(order[last] < keys.len());
            }
        }
    } else {
        let rest = order.drop_last();
        assert(is_sorted_by(keys, rest)) by {
            assert forall|i: int, j: int| #![trigger rest[i], rest[j]] 0 <= i < j < rest.len() implies !keys[rest[j] as int].ahead(&keys[rest[i] as int]) by {
                assert(rest[i] == order[i] && rest[j] == order[j]);
            }
        }
        assert forall|i: int| 0 <= i < rest.len() implies #[trigger] rest[i] < keys.len() by {
            assert(rest[i] == order[i]);
        }
        lemma_inserted_sorted(keys, rest, x);
        lemma_inserted_members(keys, rest, x);
        let ins = inserted(keys, rest, x);
        let last = order.len() - 1;
        assert(order[last] < keys.len());
        assert forall|i: int, j: int| #![trigger out[i], out[j]] 0 <= i < j < out.len() implies !keys[out[j] as int].ahead(&keys[out[i] as int]) by {
            assert(out[i] == ins[i]);
            if j < ins.len() {
                assert(out[j] == ins[j]);
            } else {
                assert(out[j] == order[last]);
                assert(ins.contains(ins[i]));
                if ins[i] == x {
                    assert(keys[x as int].ahead(&keys[order[last] as int]));
                } else {
                    let k = choose|k: int| 0 <= k < rest.len() && rest[k] == ins[i];
                    assert(order[k] == ins[i]);
                }
            }
        }
    }
}

/// With a consistent ranking no row stands behind one that it is ahead of.
pub proof fn stable_order_is_sorted<K: Ranked>(keys: Seq<K>, n: nat)
    requires
        ranks_consistently(keys),
        n <= keys.len(),
        n <= usize::MAX,
    ensures
        is_sorted_by(keys, ordered_upto(keys, n)),
    decreases n,
{
    if n > 0 {
        stable_order_is_sorted(keys, (n - 1) as nat);
        stable_order_is_arrangement(keys, (n - 1) as nat);
        lemma_inserted_sorted(keys, ordered_upto(keys, (n - 1) as nat), (n - 1) as usize);
    }
}

/// Puts the row `x` into `order`.
fn insert<K: Ranked>(keys: &Vec<K>, order: &mut Vec<usize>, x: usize)
    requires
        x < keys.len(),
        forall|i: int| 0 <= i < old(order).len() ==> #[trigger] old(order)@[i] < keys.len(),
    ensures
        final(order)@ == inserted(keys@, old(order)@, x),
{
    let n: usize = order.len();
    let ghost before = order@;
    order.push(x);
    let mut p: usize = n;
    proof {
        assert(before.take(n as int) =~= before);
        assert(inserted(keys@, before, x) + before.skip(n as int) =~= inserted(keys@, before, x));
    }
    while p > 0 && keys[x].is_ahead(&keys[order[p - 1]])
        invariant
            x < keys.len(),
            p <= n,
            n == before.len(),
            order.len() == n + 1,
            forall|i: int| 0 <= i < before.len() ==> #[trigger] before[i] < keys.len(),
            forall|i: int| 0 <= i < p ==> order@[i] == before[i],
            order@[p as int] == x,
            forall|i: int| p < i <= n ==> order@[i] == before[i - 1],
            inserted(keys@, before, x) == inserted(keys@, before.take(p as int), x) + before.skip(
                p as int,
            ),
        decreases p,
    {
        proof {
            let t = before.take(p as int);
            assert(t.last() == before[p - 1]);
            assert(t.drop_last() =~= before.take(p - 1));
            assert(inserted(keys@, t, x) == inserted(keys@, before.take(p - 1), x).push(before[p - 1]));
            assert(inserted(keys@, before.take(p - 1), x).push(before[p - 1]) + before.skip(p as int)
                =~= inserted(keys@, before.take(p - 1), x) + before.skip(p - 1));
        }
        let y: usize = order[p - 1];
        order.set(p, y);
        order.set(p - 1, x);
        p = p - 1;
    }
    proof {
        let t = before.take(p as int);
        if p > 0 {
            assert(t.last() == before[p - 1]);
        }
        assert(inserted(keys@, t, x) == t.push(x));
        assert(order@ =~= t.push(x) + before.skip(p as int));
    }
}

/// The rows in the stable order of their keys.
pub fn sort<K: Ranked>(keys: &Vec<K>) -> (order: Vec<usize>)
    ensures
        order@ == stable_order(keys@),
        is_arrangement(order@, keys@.len()),
{
    let mut order: Vec<usize> = Vec::new();
    let n: usize = keys.len();
    for i in 0..n
        invariant
            n == keys.len(),
            order@ == ordered_upto(keys@, i as nat),
    {
        proof {
            stable_order_is_arrangement(keys@, i as nat);
        }
        insert(keys, &mut order, i);
    }
    proof {
        stable_order_is_arrangement(keys@, keys@.len());
    }
    order
}

} // verus!
