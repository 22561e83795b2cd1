//! Stable sorting of the table of gates by one of its schedule decorations.
use vstd::prelude::*;
use crate::circuit::{gate_views, GateView, TableGate};

verus! {

/// The decoration by which a table of gates is ordered.
#[derive(Debug, Clone, Copy, PartialEq, Eq, Structural)]
pub enum SortKey {
    Mobility,
    AsapLevel,
    ListTime,
}

impl SortKey {
    /// The key of gate `g`.
    pub open spec fn of(&self, g: TableGate) -> int {
        match *self {
            SortKey::Mobility => g.mobility as int,
            SortKey::AsapLevel => g.asap_level as int,
            SortKey::ListTime => g.list_time as int,
        }
    }

    /// The key of a gate given as numbers.
    pub open spec fn of_view(&self, g: GateView) -> int {
        match *self {
            SortKey::Mobility => g.mobility,
            SortKey::AsapLevel => g.asap_level,
            SortKey::ListTime => g.list_time,
        }
    }

    /// Reads the key of gate `g`.
    pub fn get(&self, g: &TableGate) -> (k: i32)
        ensures
            k == self.of(*g),
    {
        match self {
            SortKey::Mobility => g.mobility,
            SortKey::AsapLevel => g.asap_level,
            SortKey::ListTime => g.list_time,
        }
    }
}

/// Whether the keys of `s` never decrease.
pub open spec fn sorted_by(s: Seq<TableGate>, key: SortKey) -> bool {
    forall|i: int, j: int| 0 <= i < j < s.len() ==> key.of(#[trigger] s[i]) <= key.of(#[trigger] s[j])
}

/// The gates of `s` whose key is `k`, in the order in which `s` holds them.
pub open spec fn with_key(s: Seq<TableGate>, key: SortKey, k: int) -> Seq<TableGate> {
    s.filter(|g: TableGate| key.of(g) == k)
}

/// Whether `output` is `input` sorted by `key` with equal keys left in their
/// input order: keys never decrease, and for every key the gates that carry
/// it are the same, in the same order, on both sides.
pub open spec fn is_stable_sort(input: Seq<TableGate>, output: Seq<TableGate>, key: SortKey) -> bool {
    &&& output.len() == input.len()
    &&& sorted_by(output, key)
    &&& forall|k: int| #[trigger] with_key(output, key, k) == with_key(input, key, k)
}

/// Moving the element at `i` down to `j` leaves every key class as it was,
/// provided none of the elements it passes carries its key.
proof fn lemma_move_keeps_classes(s: Seq<TableGate>, key: SortKey, j: int, i: int, k: int)
    requires
        0 <= j <= i < s.len(),
        forall|m: int| j <= m < i ==> key.of(#[trigger] s[m]) != key.of(s[i]),
    ensures
        with_key(s.remove(i).insert(j, s[i]), key, k) == with_key(s, key, k),
{
    let pred = |g: TableGate| key.of(g) == k;
    let head = s.subrange(0, j);
    let mid = s.subrange(j, i);
    let one = seq![s[i]];
    let tail = s.subrange(i + 1, s.len() as int);
    let before = head + mid + one + tail;
    let after = head + one + mid + tail;
    assert(s =~= before);
    assert(s.remove(i).insert(j, s[i]) =~= after);
    Seq::filter_distributes_over_add(head + mid, one, pred);
    Seq::filter_distributes_over_add(head, mid, pred);
    Seq::filter_distributes_over_add(head + mid + one, tail, pred);
    Seq::filter_distributes_over_add(head + one, mid, pred);
    Seq::filter_distributes_over_add(head, one, pred);
    Seq::filter_distributes_over_add(head + one + mid, tail, pred);
    if key.of(s[i]) == k {
        assert forall|m: int| 0 <= m < mid.len() implies !pred(#[trigger] mid[m]) by {
            assert(mid[m] == s[j + m]);
        }
        mid.lemma_all_neg_filter_empty(pred);
        assert(mid.filter(pred) =~= Seq::<TableGate>::empty());
        assert(head.filter(pred) + mid.filter(pred) + one.filter(pred) =~= head.filter(pred) + one.filter(pred) + mid.filter(pred));
    } else {
        assert forall|m: int| 0 <= m < one.len() implies !pred(#[trigger] one[m]) by {}
        one.lemma_all_neg_filter_empty(pred);
        assert(one.filter(pred) =~= Seq::<TableGate>::empty());
        assert(head.filter(pred) + mid.filter(pred) + one.filter(pred) =~= head.filter(pred) + one.filter(pred) + mid.filter(pred));
    }
}

/// A stable sort holds the gates of its input, and no others.
pub proof fn lemma_stable_sort_same_gates(input: Seq<TableGate>, output: Seq<TableGate>, key: SortKey)
    requires
        is_stable_sort(input, output, key),
    ensures
        forall|i: int| 0 <= i < output.len() ==> input.contains(#[trigger] output[i]),
        forall|i: int| 0 <= i < input.len() ==> output.contains(#[trigger] input[i]),
{
    assert forall|i: int| 0 <= i < output.len() implies input.contains(#[trigger] output[i]) by {
        let k = key.of(output[i]);
        let pred = |g: TableGate| key.of(g) == k;
        output.lemma_filter_contains(pred, i);
        assert(with_key(output, key, k) == with_key(input, key, k));
        input.lemma_filter_contains_rev(pred, output[i]);
    }
    assert forall|i: int| 0 <= i < input.len() implies output.contains(#[trigger] input[i]) by {
        let k = key.of(input[i]);
        let pred = |g: TableGate| key.of(g) == k;
        input.lemma_filter_contains(pred, i);
        assert(with_key(output, key, k) == with_key(input, key, k));
        output.lemma_filter_contains_rev(pred, input[i]);
    }
}

/// Dropping the last gate of `s` drops it from its own key class and leaves
/// the other classes alone.
proof fn lemma_class_of_prefix(s: Seq<TableGate>, key: SortKey, k: int)
    requires
        s.len() > 0,
    ensures
        with_key(s.drop_last(), key, k) == if key.of(s.last()) == k {
            with_key(s, key, k).drop_last()
        } else {
            with_key(s, key, k)
        },
        key.of(s.last()) == k ==> with_key(s, key, k).len() > 0 && with_key(s, key, k).last() == s.last(),
{
    reveal(Seq::filter);
    let pred = |g: TableGate| key.of(g) == k;
    if key.of(s.last()) == k {
        assert(s.filter(pred) == s.drop_last().filter(pred).push(s.last()));
        assert(s.drop_last().filter(pred).push(s.last()).drop_last() =~= s.drop_last().filter(pred));
    }
}

/// A table of gates has one stable sort by a given key: two of them are equal.
pub proof fn lemma_stable_sort_unique(
    input: Seq<TableGate>,
    a: Seq<TableGate>,
    b: Seq<TableGate>,
    key: SortKey,
)
    requires
        is_stable_sort(input, a, key),
        is_stable_sort(input, b, key),
    ensures
        a == b,
{
    assert forall|k: int| #[trigger] with_key(a, key, k) == with_key(b, key, k) by {
        assert(with_key(a, key, k) == with_key(input, key, k));
        assert(with_key(b, key, k) == with_key(input, key, k));
    }
    lemma_same_classes_same_order(a, b, key);
}

/// Two sorted tables of gates with the same key classes are equal.
proof fn lemma_same_classes_same_order(a: Seq<TableGate>, b: Seq<TableGate>, key: SortKey)
    requires
        a.len() == b.len(),
        sorted_by(a, key),
        sorted_by(b, key),
        forall|k: int| #[trigger] with_key(a, key, k) == with_key(b, key, k),
    ensures
        a == b,
    decreases a.len(),
{
    if a.len() == 0 {
        assert(a =~= b);
    } else {
        let ka = key.of(a.last());
        let kb = key.of(b.last());
        lemma_class_of_prefix(a, key, ka);
        lemma_class_of_prefix(b, key, kb);
        // the class of a's last key is not empty in b, so b holds a gate with that key
        assert(with_key(b, key, ka) == with_key(a, key, ka));
        assert(with_key(a, key, kb) == with_key(b, key, kb));
        let pa = |g: TableGate| key.of(g) == ka;
        let pb = |g: TableGate| key.of(g) == kb;
        b.lemma_filter_contains_rev(pa, with_key(b, key, ka).last());
        a.lemma_filter_contains_rev(pb, with_key(a, key, kb).last());
        b.lemma_filter_pred(pa, with_key(b, key, ka).len() - 1);
        a.lemma_filter_pred(pb, with_key(a, key, kb).len() - 1);
        let ib = choose|i: int| 0 <= i < b.len() && b[i] == with_key(b, key, ka).last();
        let ia = choose|i: int| 0 <= i < a.len() && a[i] == with_key(a, key, kb).last();
        assert(key.of(b[ib]) == ka);
        assert(key.of(a[ia]) == kb);
        assert(ka <= kb) by {
            if ib < b.len() - 1 {
                assert(key.of(b[ib]) <= key.of(b[b.len() - 1]));
            }
        }
        assert(kb <= ka) by {
            if ia < a.len() - 1 {
                assert(key.of(a[ia]) <= key.of(a[a.len() - 1]));
            }
        }
        lemma_class_of_prefix(b, key, ka);
        assert(a.last() == b.last());
        let ap = a.drop_last();
        let bp = b.drop_last();
        assert forall|k: int| #[trigger] with_key(ap, key, k) == with_key(bp, key, k) by {
            lemma_class_of_prefix(a, key, k);
            lemma_class_of_prefix(b, key, k);
            assert(with_key(a, key, k) == with_key(b, key, k));
        }
        assert(sorted_by(ap, key)) by {
            assert forall|i: int, j: int| 0 <= i < j < ap.len() implies key.of(#[trigger] ap[i]) <= key.of(#[trigger] ap[j]) by {
                assert(ap[i] == a[i] && ap[j] == a[j]);
            }
        }
        assert(sorted_by(bp, key)) by {
            assert forall|i: int, j: int| 0 <= i < j < bp.len() implies key.of(#[trigger] bp[i]) <= key.of(#[trigger] bp[j]) by {
                assert(bp[i] == b[i] && bp[j] == b[j]);
            }
        }
        lemma_same_classes_same_order(ap, bp, key);
        assert(a =~= ap.push(a.last()));
        assert(b =~= bp.push(b.last()));
    }
}

/// The keys of the gates of `s`, gate by gate.
pub open spec fn keys_of(s: Seq<TableGate>, key: SortKey) -> Seq<int> {
    Seq::new(s.len(), |i: int| key.of(s[i]))
}

/// Whether `output` holds the gates of `input` in the order `order`, which is
/// the stable order of their keys.
pub open spec fn is_sorted_by_order(
    input: Seq<TableGate>,
    output: Seq<TableGate>,
    key: SortKey,
    order: Seq<int>,
) -> bool {
    &&& is_stable_order(keys_of(input, key), order)
    &&& output.len() == input.len()
    &&& forall|i: int| 0 <= i < output.len() ==> #[trigger] output[i] == input[order[i]]
}

/// Sorts the table of gates by `key`, smallest first, keeping gates with equal
/// keys in the order they had.
pub fn sort_gates(gates: &mut Vec<TableGate>, key: SortKey)
    ensures
        is_stable_sort(old(gates)@, final(gates)@, key),
        exists|order: Seq<int>| is_sorted_by_order(old(gates)@, final(gates)@, key, order),
{
    let n = gates.len();
    let ghost keys = keys_of(old(gates)@, key);
    let ghost mut order: Seq<int> = Seq::new(n as nat, |m: int| m);
    let mut i: usize = 0;
    proof {
        assert forall|g: int| 0 <= g < n implies #[trigger] order.contains(g) by {
            assert(order[g] == g);
        }
    }
    while i < n
        invariant
            i <= n,
            gates@.len() == n,
            n == old(gates)@.len(),
            keys == keys_of(old(gates)@, key),
            sorted_by(gates@.take(i as int), key),
            forall|k: int| #[trigger] with_key(gates@, key, k) == with_key(old(gates)@, key, k),
            order.len() == n,
            forall|m: int| 0 <= m < n ==> 0 <= #[trigger] order[m] < n,
            forall|m: int| 0 <= m < n ==> #[trigger] gates@[m] == old(gates)@[order[m]],
            forall|m: int| i <= m < n ==> #[trigger] order[m] == m,
            forall|m: int| 0 <= m < i ==> #[trigger] order[m] < i,
            forall|g: int| 0 <= g < n ==> #[trigger] order.contains(g),
            forall|a: int, b: int| 0 <= a < b < i ==> comes_before(keys, #[trigger] order[a], #[trigger] order[b]),
        decreases n - i,
    {
        let k = key.get(&gates[i]);
        let mut j: usize = i;
        while j > 0 && key.get(&gates[j - 1]) > k
            invariant
                0 <= j <= i < n,
                gates@.len() == n,
                k == key.of(gates@[i as int]),
                forall|m: int| j <= m < i ==> key.of(#[trigger] gates@[m]) > k,
            decreases j,
        {
            j -= 1;
        }
        let ghost before = gates@;
        let ghost old_order = order;
        if j < i {
            let g = gates.remove(i);
            gates.insert(j, g);
        }
        proof {
            let after = gates@;
            assert(after =~= before.remove(i as int).insert(j as int, before[i as int]));
            order = old_order.remove(i as int).insert(j as int, old_order[i as int]);
            assert forall|kk: int| #[trigger] with_key(after, key, kk) == with_key(old(gates)@, key, kk) by {
                lemma_move_keeps_classes(before, key, j as int, i as int, kk);
                assert(with_key(before, key, kk) == with_key(old(gates)@, key, kk));
            }
            let pre = before.take(i as int);
            let post = after.take(i as int + 1);
            assert forall|a: int, b: int| 0 <= a < b < post.len() implies key.of(#[trigger] post[a]) <= key.of(#[trigger] post[b]) by {
                let src_a = if a < j { a } else if a == j { i as int } else { a - 1 };
                let src_b = if b < j { b } else if b == j { i as int } else { b - 1 };
                assert(post[a] == before[src_a]);
                assert(post[b] == before[src_b]);
                if src_a < i {
                    assert(pre[src_a] == before[src_a]);
                }
                if src_b < i {
                    assert(pre[src_b] == before[src_b]);
                }
                if j > 0 {
                    assert(pre[j as int - 1] == before[j as int - 1]);
                }
            }
            lemma_move_keeps_order(before, after, old(gates)@, key, old_order, order, j as int, i as int);
        }
        i += 1;
    }
    proof {
        assert(gates@.take(n as int) =~= gates@);
        assert(is_sorted_by_order(old(gates)@, gates@, key, order));
    }
}

/// Moving gate `i` down to `j`, past gates with larger keys, and
/// the entry of the order with it, keeps the order in step with the gates.
proof fn lemma_move_keeps_order(
    before: Seq<TableGate>,
    after: Seq<TableGate>,
    input: Seq<TableGate>,
    key: SortKey,
    old_order: Seq<int>,
    order: Seq<int>,
    j: int,
    i: int,
)
    requires
        0 <= j <= i < before.len(),
        before.len() == input.len(),
        old_order.len() == input.len(),
        after == before.remove(i).insert(j, before[i]),
        order == old_order.remove(i).insert(j, old_order[i]),
        forall|m: int| 0 <= m < input.len() ==> 0 <= #[trigger] old_order[m] < input.len(),
        forall|m: int| 0 <= m < input.len() ==> #[trigger] before[m] == input[old_order[m]],
        forall|m: int| i <= m < input.len() ==> #[trigger] old_order[m] == m,
        forall|m: int| 0 <= m < i ==> #[trigger] old_order[m] < i,
        forall|g: int| 0 <= g < input.len() ==> #[trigger] old_order.contains(g),
        forall|a: int, b: int|
            0 <= a < b < i ==> comes_before(keys_of(input, key), #[trigger] old_order[a], #[trigger] old_order[b]),
        forall|m: int| j <= m < i ==> key.of(#[trigger] before[m]) > key.of(before[i]),
        j > 0 ==> key.of(before[j - 1]) <= key.of(before[i]),
    ensures
        order.len() == input.len(),
        forall|m: int| 0 <= m < input.len() ==> 0 <= #[trigger] order[m] < input.len(),
        forall|m: int| 0 <= m < input.len() ==> #[trigger] after[m] == input[order[m]],
        forall|m: int| i + 1 <= m < input.len() ==> #[trigger] order[m] == m,
        forall|m: int| 0 <= m < i + 1 ==> #[trigger] order[m] < i + 1,
        forall|g: int| 0 <= g < input.len() ==> #[trigger] order.contains(g),
        forall|a: int, b: int|
            0 <= a < b < i + 1 ==> comes_before(keys_of(input, key), #[trigger] order[a], #[trigger] order[b]),
{
    let keys = keys_of(input, key);
    let n = input.len() as int;
    // where the entry at `m` of the new order stood in the old one
    let src = |m: int| if m < j { m } else if m == j { i } else if m <= i { m - 1 } else { m };
    assert forall|m: int| 0 <= m < n implies #[trigger] order[m] == old_order[src(m)] && after[m] == before[src(m)] by {}
    assert forall|m: int| 0 <= m < n implies #[trigger] after[m] == input[order[m]] by {
        assert(order[m] == old_order[src(m)]);
        assert(before[src(m)] == input[old_order[src(m)]]);
    }
    assert forall|m: int| 0 <= m < n implies 0 <= #[trigger] order[m] < n by {
        assert(order[m] == old_order[src(m)]);
    }
    assert forall|m: int| i + 1 <= m < n implies #[trigger] order[m] == m by {
        assert(order[m] == old_order[src(m)]);
    }
    assert forall|m: int| 0 <= m < i + 1 implies #[trigger] order[m] < i + 1 by {
        assert(order[m] == old_order[src(m)]);
        if src(m) < i {
            assert(old_order[src(m)] < i);
        }
    }
    assert forall|g: int| 0 <= g < n implies #[trigger] order.contains(g) by {
        assert(old_order.contains(g));
        let p = choose|p: int| 0 <= p < old_order.len() && old_order[p] == g;
        let q = if p < j { p } else if p == i { j } else if p < i { p + 1 } else { p };
        assert(order[q] == old_order[src(q)]);
        assert(src(q) == p);
    }
    assert forall|a: int, b: int| 0 <= a < b < i + 1 implies comes_before(
        keys,
        #[trigger] order[a],
        #[trigger] order[b],
    ) by {
        assert(order[a] == old_order[src(a)]);
        assert(order[b] == old_order[src(b)]);
        assert(before[src(a)] == input[old_order[src(a)]]);
        assert(before[src(b)] == input[old_order[src(b)]]);
        assert(old_order[i] == i);
        if b == j {
            // what stands before that gate has a key no larger, and stood before it
            assert(old_order[src(a)] < i);
            if j > 0 {
                assert(before[j - 1] == input[old_order[j - 1]]);
                if a < j - 1 {
                    assert(comes_before(keys, old_order[a], old_order[j - 1]));
                }
            }
        } else if a == j {
            // what stands after that gate has a larger key
            assert(key.of(before[src(b)]) > key.of(before[i]));
        } else {
            assert(comes_before(keys, old_order[src(a)], old_order[src(b)]));
        }
    }
}

/// Whether entry `a` comes before entry `b` when `keys` is sorted stably:
/// its key is smaller, or equal with `a` the earlier entry.
pub open spec fn comes_before(keys: Seq<int>, a: int, b: int) -> bool {
    keys[a] < keys[b] || (keys[a] == keys[b] && a < b)
}

/// Whether `order` lists the positions of `keys`, each once, in the order
/// in which a stable sort by key leaves the entries.
pub open spec fn is_stable_order(keys: Seq<int>, order: Seq<int>) -> bool {
    &&& order.len() == keys.len()
    &&& forall|i: int| 0 <= i < order.len() ==> 0 <= #[trigger] order[i] < keys.len()
    &&& forall|g: int| 0 <= g < keys.len() ==> #[trigger] order.contains(g)
    &&& forall|i: int, j: int| 0 <= i < j < order.len() ==> comes_before(keys, #[trigger] order[i], #[trigger] order[j])
}

/// The positions of `keys` in the order in which a stable sort by key
/// leaves the entries.
pub fn stable_order(keys: &Vec<i32>) -> (order: Vec<usize>)
    ensures
        is_stable_order(keys@.map_values(|k: i32| k as int), order@.map_values(|p: usize| p as int)),
{
    let n = keys.len();
    let ghost ks = keys@.map_values(|k: i32| k as int);
    let mut order: Vec<usize> = Vec::new();
    for i in 0..n
        invariant
            n == keys@.len(),
            ks == keys@.map_values(|k: i32| k as int),
            order@.len() == i,
            forall|m: int| 0 <= m < i ==> 0 <= #[trigger] order@[m] < i,
            forall|g: usize| g < i ==> #[trigger] order@.contains(g),
            forall|a: int, b: int| 0 <= a < b < i ==> comes_before(ks, #[trigger] order@[a] as int, #[trigger] order@[b] as int),
    {
        let k = keys[i];
        let mut j: usize = i;
        while j > 0 && keys[order[j - 1]] > k
            invariant
                0 <= j <= i < n,
                n == keys@.len(),
                order@.len() == i,
                k == keys@[i as int],
                forall|m: int| 0 <= m < i ==> 0 <= #[trigger] order@[m] < i,
                forall|m: int| j <= m < i ==> keys@[#[trigger] order@[m] as int] > k,
            decreases j,
        {
            j -= 1;
        }
        let ghost before = order@;
        order.insert(j, i);
        proof {
            let after = order@;
            assert forall|g: usize| g < i + 1 implies #[trigger] after.contains(g) by {
                if g == i {
                    assert(after[j as int] == g);
                } else {
                    assert(before.contains(g));
                    let p = choose|p: int| 0 <= p < before.len() && before[p] == g;
                    if p < j {
                        assert(after[p] == g);
                    } else {
                        assert(after[p + 1] == g);
                    }
                }
            }
            assert forall|a: int, b: int| 0 <= a < b < i + 1 implies comes_before(
                ks,
                #[trigger] after[a] as int,
                #[trigger] after[b] as int,
            ) by {
                let src_a = if a < j { a } else { a - 1 };
                let src_b = if b < j { b } else { b - 1 };
                if a != j {
                    assert(after[a] == before[src_a]);
                }
                if b != j {
                    assert(after[b] == before[src_b]);
                }
                if b == j {
                    // everything before the new entry has a key no larger than its own
                    if j > 0 {
                        assert(ks[before[j as int - 1] as int] <= k);
                        if a < j - 1 {
                            assert(comes_before(ks, before[a] as int, before[j as int - 1] as int));
                        }
                    }
                }
            }
        }
    }
    proof {
        let o = order@.map_values(|p: usize| p as int);
        assert forall|g: int| 0 <= g < ks.len() implies #[trigger] o.contains(g) by {
            let u = g as usize;
            assert(order@.contains(u));
            let p = choose|p: int| 0 <= p < order@.len() && order@[p] == u;
            assert(o[p] == g);
        }
        assert forall|i: int, j: int| 0 <= i < j < o.len() implies comes_before(ks, #[trigger] o[i], #[trigger] o[j]) by {
            assert(comes_before(ks, order@[i] as int, order@[j] as int));
        }
    }
    order
}

/// The stable order of keys.
pub open spec fn the_stable_order(keys: Seq<int>) -> Seq<int> {
    choose|order: Seq<int>| is_stable_order(keys, order)
}

/// The entries of `s` in the order `order`.
pub open spec fn permuted<T>(s: Seq<T>, order: Seq<int>) -> Seq<T> {
    Seq::new(s.len(), |i: int| s[order[i]])
}

/// The keys of gates given as numbers, gate by gate.
pub open spec fn view_keys(gates: Seq<GateView>, key: SortKey) -> Seq<int> {
    Seq::new(gates.len(), |i: int| key.of_view(gates[i]))
}

/// Gates given as numbers, sorted stably by `key`.
pub open spec fn sorted_views(gates: Seq<GateView>, key: SortKey) -> Seq<GateView> {
    permuted(gates, the_stable_order(view_keys(gates, key)))
}

/// Sorting gates sorts the gates as numbers: what `sort_gates` leaves is,
/// as numbers, the stable sort of what it was given.
pub proof fn lemma_sort_of_views(input: Seq<TableGate>, output: Seq<TableGate>, key: SortKey)
    requires
        exists|order: Seq<int>| is_sorted_by_order(input, output, key, order),
    ensures
        gate_views(output) == sorted_views(gate_views(input), key),
{
    let order = choose|order: Seq<int>| is_sorted_by_order(input, output, key, order);
    assert(keys_of(input, key) =~= view_keys(gate_views(input), key));
    lemma_stable_order_unique(keys_of(input, key), order, the_stable_order(keys_of(input, key)));
    assert forall|i: int| 0 <= i < output.len() implies #[trigger] gate_views(output)[i] == gate_views(input)[order[i]] by {
        assert(output[i] == input[order[i]]);
    }
    assert(gate_views(output) =~= sorted_views(gate_views(input), key));
}

/// The keys have one stable order: two of them are equal.
pub proof fn lemma_stable_order_unique(keys: Seq<int>, a: Seq<int>, b: Seq<int>)
    requires
        is_stable_order(keys, a),
        is_stable_order(keys, b),
    ensures
        a == b,
{
    lemma_orders_agree(keys, a, b, keys.len() as int);
    assert(a =~= b);
}

/// Two stable orders agree on their first `i` entries.
proof fn lemma_orders_agree(keys: Seq<int>, a: Seq<int>, b: Seq<int>, i: int)
    requires
        is_stable_order(keys, a),
        is_stable_order(keys, b),
        0 <= i <= keys.len(),
    ensures
        forall|m: int| 0 <= m < i ==> a[m] == b[m],
    decreases i,
{
    if i > 0 {
        lemma_orders_agree(keys, a, b, i - 1);
        let p = i - 1;
        if a[p] != b[p] {
            assert(b.contains(a[p]));
            let q = choose|q: int| 0 <= q < b.len() && b[q] == a[p];
            if q < p {
                assert(comes_before(keys, a[q], a[p]));
            }
            assert(comes_before(keys, b[p], b[q]));
            assert(a.contains(b[p]));
            let r = choose|r: int| 0 <= r < a.len() && a[r] == b[p];
            if r < p {
                assert(comes_before(keys, b[r], b[p]));
            }
            assert(comes_before(keys, a[p], a[r]));
        }
    }
}

} // verus!
