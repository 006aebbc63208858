//! Orders the outputs are sorted by, and a stable sort that keeps the
//! order items arrived in among equal keys.

use vstd::prelude::*;

verus! {

/// Lexicographic order on sequences of numbers: a proper prefix first.
pub open spec fn seq_lt(a: Seq<u64>, b: Seq<u64>) -> bool
    decreases a.len(),
{
    if a.len() == 0 {
        b.len() > 0
    } else if b.len() == 0 {
        false
    } else if a[0] != b[0] {
        a[0] < b[0]
    } else {
        seq_lt(a.drop_first(), b.drop_first())
    }
}

pub proof fn lemma_seq_lt_irreflexive(a: Seq<u64>)
    ensures
        !seq_lt(a, a),
    decreases a.len(),
{
    if a.len() > 0 {
        lemma_seq_lt_irreflexive(a.drop_first());
    }
}

pub proof fn lemma_seq_lt_transitive(a: Seq<u64>, b: Seq<u64>, c: Seq<u64>)
    requires
        seq_lt(a, b),
        seq_lt(b, c),
    ensures
        seq_lt(a, c),
    decreases a.len(),
{
    if a.len() > 0 && b.len() > 0 && c.len() > 0 && a[0] == b[0] && b[0] == c[0] {
        lemma_seq_lt_transitive(a.drop_first(), b.drop_first(), c.drop_first());
    }
}

pub proof fn lemma_seq_lt_total(a: Seq<u64>, b: Seq<u64>)
    ensures
        a == b || seq_lt(a, b) || seq_lt(b, a),
    decreases a.len(),
{
    if a.len() > 0 && b.len() > 0 && a[0] == b[0] {
        lemma_seq_lt_total(a.drop_first(), b.drop_first());
        if a.drop_first() == b.drop_first() {
            assert forall|i: int| 0 <= i < a.len() implies a[i] == b[i] by {
                if i > 0 {
                    assert(a[i] == a.drop_first()[i - 1]);
                    assert(b[i] == b.drop_first()[i - 1]);
                }
            }
            assert(a =~= b);
        }
    } else if a.len() == 0 && b.len() == 0 {
        assert(a =~= b);
    }
}

/// What an item is sorted by: two numbers, then a chain of numbers.
pub struct SortKey {
    pub major: u64,
    pub minor: u64,
    pub chain: Vec<u64>,
}

impl View for SortKey {
    type V = (u64, u64, Seq<u64>);

    open spec fn view(&self) -> (u64, u64, Seq<u64>) {
        (self.major, self.minor, self.chain@)
    }
}

/// The order of keys: by `major`, then `minor`, then `chain`.
pub open spec fn key_lt(a: (u64, u64, Seq<u64>), b: (u64, u64, Seq<u64>)) -> bool {
    ||| a.0 < b.0
    ||| a.0 == b.0 && a.1 < b.1
    ||| a.0 == b.0 && a.1 == b.1 && seq_lt(a.2, b.2)
}

pub proof fn lemma_key_lt_properties()
    ensures
        forall|a: (u64, u64, Seq<u64>)| !key_lt(a, a),
        forall|a: (u64, u64, Seq<u64>), b: (u64, u64, Seq<u64>), c: (u64, u64, Seq<u64>)|
            key_lt(a, b) && key_lt(b, c) ==> key_lt(a, c),
        forall|a: (u64, u64, Seq<u64>), b: (u64, u64, Seq<u64>)|
            a == b || key_lt(a, b) || key_lt(b, a),
{
    assert forall|a: (u64, u64, Seq<u64>)| !key_lt(a, a) by {
        lemma_seq_lt_irreflexive(a.2);
    }
    assert forall|a: (u64, u64, Seq<u64>), b: (u64, u64, Seq<u64>), c: (u64, u64, Seq<u64>)|
        key_lt(a, b) && key_lt(b, c) implies key_lt(a, c) by {
        if a.0 == b.0 && b.0 == c.0 && a.1 == b.1 && b.1 == c.1 {
            lemma_seq_lt_transitive(a.2, b.2, c.2);
        }
    }
    assert forall|a: (u64, u64, Seq<u64>), b: (u64, u64, Seq<u64>)|
        a == b || key_lt(a, b) || key_lt(b, a) by {
        lemma_seq_lt_total(a.2, b.2);
    }
}

/// Whether `a` sorts strictly before `b`.
pub fn seq_less(a: &Vec<u64>, b: &Vec<u64>) -> (r: bool)
    ensures
        r == seq_lt(a@, b@),
{
    let mut i: usize = 0;
    assert(a@.skip(0) =~= a@);
    assert(b@.skip(0) =~= b@);
    while i < a.len() && i < b.len()
        invariant
            i <= a.len(),
            i <= b.len(),
            seq_lt(a@, b@) == seq_lt(a@.skip(i as int), b@.skip(i as int)),
        decreases a.len() - i,
    {
        if a[i] != b[i] {
            return a[i] < b[i];
        }
        assert(a@.skip(i as int).drop_first() =~= a@.skip(i + 1));
        assert(b@.skip(i as int).drop_first() =~= b@.skip(i + 1));
        i = i + 1;
    }
    i == a.len() && i < b.len()
}

/// Whether key `a` sorts strictly before key `b`.
pub fn key_less(a: &SortKey, b: &SortKey) -> (r: bool)
    ensures
        r == key_lt(a@, b@),
{
    if a.major != b.major {
        a.major < b.major
    } else if a.minor != b.minor {
        a.minor < b.minor
    } else {
        seq_less(&a.chain, &b.chain)
    }
}

/// Item `i` comes before item `j` in a stable sort by `keys`: its key is
/// smaller, or the keys are equal and it came first.
pub open spec fn before(keys: Seq<(u64, u64, Seq<u64>)>, i: int, j: int) -> bool {
    key_lt(keys[i], keys[j]) || (keys[i] == keys[j] && i < j)
}

/// `order` lists the positions of `keys` once each, as a stable sort puts
/// them.
pub open spec fn is_stable_order(keys: Seq<(u64, u64, Seq<u64>)>, order: Seq<usize>) -> bool {
    &&& order.len() == keys.len()
    &&& keys.len() <= usize::MAX
    &&& forall|k: int| 0 <= k < order.len() ==> #[trigger] order[k] < keys.len()
    &&& forall|i: usize| i < keys.len() ==> #[trigger] order.contains(i)
    &&& forall|k: int, l: int|
        0 <= k < l < order.len() ==> before(keys, #[trigger] order[k] as int, #[trigger] order[l] as int)
}

/// The views of a list of keys.
pub open spec fn key_views(keys: Seq<SortKey>) -> Seq<(u64, u64, Seq<u64>)> {
    keys.map_values(|k: SortKey| k@)
}

/// The positions of `keys` in the order a stable sort by key puts them.
pub fn stable_order(keys: &Vec<SortKey>) -> (order: Vec<usize>)
    ensures
        is_stable_order(key_views(keys@), order@),
{
    let ghost ks = key_views(keys@);
    proof {
        lemma_key_lt_properties();
    }
    let mut order: Vec<usize> = Vec::new();
    let mut i: usize = 0;
    while i < keys.len()
        invariant
            i <= keys.len(),
            ks == key_views(keys@),
            ks.len() == keys.len(),
            order.len() == i,
            forall|k: int| 0 <= k < order.len() ==> #[trigger] order[k] < i,
            forall|j: usize| j < i ==> #[trigger] order@.contains(j),
            forall|k: int, l: int|
                0 <= k < l < order.len() ==> before(ks, #[trigger] order[k] as int, #[trigger] order[l] as int),
            forall|a: (u64, u64, Seq<u64>)| !key_lt(a, a),
            forall|a: (u64, u64, Seq<u64>), b: (u64, u64, Seq<u64>), c: (u64, u64, Seq<u64>)|
                key_lt(a, b) && key_lt(b, c) ==> key_lt(a, c),
            forall|a: (u64, u64, Seq<u64>), b: (u64, u64, Seq<u64>)|
                a == b || key_lt(a, b) || key_lt(b, a),
        decreases keys.len() - i,
    {
        // The first place whose key is strictly greater than key i.
        let mut pos: usize = 0;
        while pos < order.len() && !key_less(&keys[i], &keys[order[pos]])
            invariant
                i < keys.len(),
                ks == key_views(keys@),
                ks.len() == keys.len(),
                pos <= order.len(),
                forall|k: int| 0 <= k < order.len() ==> #[trigger] order[k] < i,
                forall|k: int| 0 <= k < pos ==> !key_lt(ks[i as int], #[trigger] ks[order[k] as int]),
            decreases order.len() - pos,
        {
            assert(ks[i as int] == keys@[i as int]@);
            assert(ks[order[pos as int] as int] == keys@[order[pos as int] as int]@);
            pos = pos + 1;
        }
        proof {
            if pos < order.len() {
                assert(ks[i as int] == keys@[i as int]@);
                assert(ks[order[pos as int] as int] == keys@[order[pos as int] as int]@);
                assert(key_lt(ks[i as int], ks[order[pos as int] as int]));
            }
        }
        let ghost old_order = order@;
        order.insert(pos, i);
        proof {
            assert(order@ == old_order.insert(pos as int, i));
            assert forall|k: int| 0 <= k < order.len() implies #[trigger] order[k] < i + 1 by {
                if k < pos {
                    assert(order[k] == old_order[k]);
                } else if k > pos {
                    assert(order[k] == old_order[k - 1]);
                }
            }
            assert forall|j: usize| j < i + 1 implies #[trigger] order@.contains(j) by {
                if j == i {
                    assert(order@[pos as int] == i);
                } else {
                    assert(old_order.contains(j));
                    let k = choose|k: int| 0 <= k < old_order.len() && old_order[k] == j;
                    if k < pos {
                        assert(order@[k] == j);
                    } else {
                        assert(order@[k + 1] == j);
                    }
                }
            }
            assert forall|k: int, l: int| 0 <= k < l < order.len() implies before(
                ks,
                #[trigger] order[k] as int,
                #[trigger] order[l] as int,
            ) by {
                if l < pos {
                    assert(order[k] == old_order[k] && order[l] == old_order[l]);
                } else if k > pos {
                    assert(order[k] == old_order[k - 1] && order[l] == old_order[l - 1]);
                } else if k < pos && l > pos {
                    assert(order[k] == old_order[k] && order[l] == old_order[l - 1]);
                } else if k == pos {
                    // i goes before everything after it.
                    let m = old_order[l - 1] as int;
                    assert(order[l] == m);
                    let p = old_order[pos as int] as int;
                    assert(key_lt(ks[i as int], ks[p]));
                    if l - 1 > pos {
                        assert(before(ks, old_order[pos as int] as int, old_order[l - 1] as int));
                    }
                    assert(key_lt(ks[i as int], ks[m]));
                } else {
                    // l == pos: everything before i stays before it.
                    let m = old_order[k] as int;
                    assert(order[k] == m);
                    assert(!key_lt(ks[i as int], ks[m]));
                    assert(m < i);
                }
            }
        }
        i = i + 1;
    }
    order
}

/// `rows` in the order `order` lists their positions.
pub open spec fn arrange<V>(rows: Seq<V>, order: Seq<usize>) -> Seq<V> {
    Seq::new(order.len(), |k: int| rows[order[k] as int])
}

/// `out` is `rows` put in the order a stable sort by `keys` gives: by key,
/// and items with equal keys in the order they came.
pub open spec fn sorted_as<V>(rows: Seq<V>, keys: Seq<(u64, u64, Seq<u64>)>, out: Seq<V>) -> bool {
    exists|order: Seq<usize>| is_stable_order(keys, order) && out == arrange(rows, order)
}

proof fn lemma_before_strict(keys: Seq<(u64, u64, Seq<u64>)>, i: int, j: int)
    ensures
        !before(keys, i, i),
        before(keys, i, j) ==> !before(keys, j, i),
{
    lemma_key_lt_properties();
}

proof fn lemma_orders_agree_below(
    keys: Seq<(u64, u64, Seq<u64>)>,
    o1: Seq<usize>,
    o2: Seq<usize>,
    k: int,
)
    requires
        is_stable_order(keys, o1),
        is_stable_order(keys, o2),
        0 <= k <= o1.len(),
    ensures
        forall|g: int| 0 <= g < k ==> o1[g] == o2[g],
    decreases k,
{
    if k > 0 {
        lemma_orders_agree_below(keys, o1, o2, k - 1);
        let p = k - 1;
        let a = o1[p];
        let b = o2[p];
        if a != b {
            assert(o1.contains(b));
            let m = choose|m: int| 0 <= m < o1.len() && o1[m] == b;
            if m < p {
                assert(o2[m] == b);
                assert(before(keys, o2[m] as int, o2[p] as int));
                lemma_before_strict(keys, b as int, b as int);
            }
            assert(m > p);
            assert(before(keys, a as int, b as int));
            assert(o2.contains(a));
            let n = choose|n: int| 0 <= n < o2.len() && o2[n] == a;
            if n < p {
                assert(o1[n] == a);
                assert(before(keys, o1[n] as int, o1[p] as int));
                lemma_before_strict(keys, a as int, a as int);
            }
            assert(n > p);
            assert(before(keys, b as int, a as int));
            lemma_before_strict(keys, a as int, b as int);
        }
    }
}

/// A stable sort has one outcome: two orders that both list every position
/// once, by key and then by arrival, are the same.
pub proof fn lemma_stable_order_unique(
    keys: Seq<(u64, u64, Seq<u64>)>,
    o1: Seq<usize>,
    o2: Seq<usize>,
)
    requires
        is_stable_order(keys, o1),
        is_stable_order(keys, o2),
    ensures
        o1 == o2,
{
    lemma_orders_agree_below(keys, o1, o2, o1.len() as int);
    assert(o1 =~= o2);
}

/// Sorting the same rows by the same keys gives the same result.
pub proof fn lemma_sorted_as_unique<V>(
    rows: Seq<V>,
    keys: Seq<(u64, u64, Seq<u64>)>,
    out1: Seq<V>,
    out2: Seq<V>,
)
    requires
        sorted_as(rows, keys, out1),
        sorted_as(rows, keys, out2),
    ensures
        out1 == out2,
{
    let o1 = choose|o: Seq<usize>| is_stable_order(keys, o) && out1 == arrange(rows, o);
    let o2 = choose|o: Seq<usize>| is_stable_order(keys, o) && out2 == arrange(rows, o);
    lemma_stable_order_unique(keys, o1, o2);
}

/// Sorting keeps every row: each row is somewhere in the sorted result.
pub proof fn lemma_sorted_as_keeps<V>(rows: Seq<V>, keys: Seq<(u64, u64, Seq<u64>)>, out: Seq<V>, j: int)
    requires
        sorted_as(rows, keys, out),
        keys.len() == rows.len(),
        0 <= j < rows.len(),
    ensures
        out.contains(rows[j]),
{
    let o = choose|o: Seq<usize>| is_stable_order(keys, o) && out == arrange(rows, o);
    assert(o.contains(j as usize));
    let k = choose|k: int| 0 <= k < o.len() && o[k] == j as usize;
    assert(out[k] == rows[j]);
}

/// Sorting adds nothing: each item of the sorted result is a row.
pub proof fn lemma_sorted_as_from<V>(rows: Seq<V>, keys: Seq<(u64, u64, Seq<u64>)>, out: Seq<V>, k: int)
    requires
        sorted_as(rows, keys, out),
        keys.len() == rows.len(),
        0 <= k < out.len(),
    ensures
        rows.contains(out[k]),
{
    let o = choose|o: Seq<usize>| is_stable_order(keys, o) && out == arrange(rows, o);
    assert(o[k] < keys.len());
    assert(out[k] == rows[o[k] as int]);
}

} // verus!
