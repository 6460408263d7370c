//! The order in which a table hands out its rows: ascending by storage key.

use vstd::prelude::*;

verus! {

/// Each key is below the keys after it.
pub open spec fn strictly_increasing(keys: Seq<u64>) -> bool {
    forall|i: int, j: int| 0 <= i < j < keys.len() ==> keys[i] < keys[j]
}

/// `keys` holds exactly the members of `dom`, each once, in ascending order.
pub open spec fn lists_keys(keys: Seq<u64>, dom: Set<u64>) -> bool {
    &&& strictly_increasing(keys)
    &&& forall|k: u64| dom.contains(k) <==> keys.contains(k)
}

/// The members of `dom` in ascending order.
pub open spec fn key_order(dom: Set<u64>) -> Seq<u64> {
    choose|keys: Seq<u64>| lists_keys(keys, dom)
}

/// The members of `dom` that are below `bound`, ascending.
spec fn keys_below(dom: Set<u64>, bound: nat) -> Seq<u64>
    decreases bound,
{
    if bound == 0 {
        Seq::empty()
    } else {
        let rest = keys_below(dom, (bound - 1) as nat);
        if bound - 1 <= u64::MAX && dom.contains((bound - 1) as u64) {
            rest.push((bound - 1) as u64)
        } else {
            rest
        }
    }
}

proof fn lemma_keys_below(dom: Set<u64>, bound: nat)
    ensures
        strictly_increasing(keys_below(dom, bound)),
        forall|k: u64| #[trigger]
            keys_below(dom, bound).contains(k) <==> dom.contains(k) && k < bound,
    decreases bound,
{
    let all = keys_below(dom, bound);
    if bound == 0 {
        assert forall|k: u64| #[trigger] all.contains(k) <==> dom.contains(k) && k < bound by {
            if all.contains(k) {
                let i = choose|i: int| 0 <= i < all.len() && all[i] == k;
            }
        }
    } else {
        let rest = keys_below(dom, (bound - 1) as nat);
        lemma_keys_below(dom, (bound - 1) as nat);
        if bound - 1 <= u64::MAX && dom.contains((bound - 1) as u64) {
            let top = (bound - 1) as u64;
            assert(all == rest.push(top));
            assert forall|i: int, j: int| 0 <= i < j < all.len() implies all[i] < all[j] by {
                if j == rest.len() {
                    assert(all[i] == rest[i]);
                    assert(rest.contains(rest[i]));
                    assert(all[j] == top);
                } else {
                    assert(all[i] == rest[i]);
                    assert(all[j] == rest[j]);
                }
            }
            assert forall|k: u64| #[trigger] all.contains(k) <==> dom.contains(k) && k < bound by {
                if all.contains(k) {
                    let i = choose|i: int| 0 <= i < all.len() && all[i] == k;
                    if i < rest.len() {
                        assert(all[i] == rest[i]);
                        assert(rest.contains(k));
                    } else {
                        assert(k == top);
                    }
                }
                if dom.contains(k) && k < bound {
                    if k == top {
                        assert(all[rest.len() as int] == k);
                    } else {
                        assert(rest.contains(k));
                        let i = choose|i: int| 0 <= i < rest.len() && rest[i] == k;
                        assert(all[i] == k);
                    }
                }
            }
        } else {
            assert(all == rest);
            assert forall|k: u64| #[trigger] all.contains(k) <==> dom.contains(k) && k < bound by {
                if dom.contains(k) && k < bound {
                    assert(k != bound - 1);
                    assert(rest.contains(k));
                }
            }
        }
    }
}

/// Every set of keys has its ascending listing.
pub proof fn lemma_key_order(dom: Set<u64>)
    ensures
        lists_keys(key_order(dom), dom),
{
    let bound: nat = 0x1_0000_0000_0000_0000;
    lemma_keys_below(dom, bound);
    assert(lists_keys(keys_below(dom, bound), dom));
}

/// The top element of an ascending listing is its last.
proof fn lemma_last_is_greatest(keys: Seq<u64>, k: u64)
    requires
        strictly_increasing(keys),
        keys.contains(k),
    ensures
        k <= keys.last(),
{
    let i = choose|i: int| 0 <= i < keys.len() && keys[i] == k;
    if i < keys.len() - 1 {
        assert(keys[i] < keys[keys.len() - 1]);
    }
}

/// A set of keys has only one ascending listing.
pub proof fn lemma_lists_keys_unique(a: Seq<u64>, b: Seq<u64>, dom: Set<u64>)
    requires
        lists_keys(a, dom),
        lists_keys(b, dom),
    ensures
        a == b,
    decreases a.len(),
{
    if a.len() == 0 {
        if b.len() > 0 {
            assert(b.contains(b[0]));
            assert(a.contains(b[0]));
        }
        assert(a =~= b);
    } else {
        let x = a.last();
        assert(a.contains(x));
        assert(b.contains(x));
        let y = b.last();
        assert(b.contains(y));
        assert(a.contains(y));
        lemma_last_is_greatest(a, y);
        lemma_last_is_greatest(b, x);
        assert(x == y);
        let a1 = a.drop_last();
        let b1 = b.drop_last();
        let dom1 = dom.remove(x);
        lemma_drop_last_lists(a, dom);
        lemma_drop_last_lists(b, dom);
        lemma_lists_keys_unique(a1, b1, dom1);
        assert(a =~= a1.push(x));
        assert(b =~= b1.push(x));
    }
}

proof fn lemma_drop_last_lists(keys: Seq<u64>, dom: Set<u64>)
    requires
        lists_keys(keys, dom),
        keys.len() > 0,
    ensures
        lists_keys(keys.drop_last(), dom.remove(keys.last())),
{
    let front = keys.drop_last();
    let x = keys.last();
    assert forall|k: u64| dom.remove(x).contains(k) <==> front.contains(k) by {
        if dom.remove(x).contains(k) {
            assert(keys.contains(k));
            let i = choose|i: int| 0 <= i < keys.len() && keys[i] == k;
            assert(front[i] == k);
        }
        if front.contains(k) {
            let i = choose|i: int| 0 <= i < front.len() && front[i] == k;
            assert(keys[i] == k);
            assert(keys.contains(k));
            assert(keys[i] < keys[keys.len() - 1]);
        }
    }
}

/// Whatever lists the keys of `dom` in ascending order is `key_order(dom)`.
pub proof fn lemma_key_order_is(keys: Seq<u64>, dom: Set<u64>)
    requires
        lists_keys(keys, dom),
    ensures
        key_order(dom) == keys,
{
    lemma_key_order(dom);
    lemma_lists_keys_unique(key_order(dom), keys, dom);
}

/// No key: no listing.
pub proof fn lemma_key_order_empty()
    ensures
        key_order(Set::<u64>::empty()) == Seq::<u64>::empty(),
{
    let none = Seq::<u64>::empty();
    assert(lists_keys(none, Set::<u64>::empty()));
    lemma_key_order_is(none, Set::<u64>::empty());
}

/// The listing has one entry for each member.
pub proof fn lemma_key_order_len(dom: Set<u64>)
    requires
        dom.finite(),
    ensures
        key_order(dom).len() == dom.len(),
    decreases dom.len(),
{
    lemma_key_order(dom);
    let keys = key_order(dom);
    if keys.len() == 0 {
        assert(dom =~= Set::<u64>::empty());
    } else {
        let x = keys.last();
        assert(keys.contains(x));
        lemma_drop_last_lists(keys, dom);
        lemma_key_order_is(keys.drop_last(), dom.remove(x));
        lemma_key_order_len(dom.remove(x));
    }
}

/// What is left of an ascending listing after a test is ascending, and
/// holds the keys of the listing that pass the test.
proof fn lemma_filter_ascending(keys: Seq<u64>, pred: spec_fn(u64) -> bool)
    requires
        strictly_increasing(keys),
    ensures
        strictly_increasing(keys.filter(pred)),
        forall|k: u64| #[trigger] keys.filter(pred).contains(k) ==> keys.contains(k) && pred(k),
        forall|k: u64| #[trigger] keys.contains(k) && pred(k) ==> keys.filter(pred).contains(k),
    decreases keys.len(),
{
    reveal(Seq::filter);
    let kept = keys.filter(pred);
    if keys.len() > 0 {
        let front = keys.drop_last();
        let before = front.filter(pred);
        assert forall|i: int, j: int| 0 <= i < j < front.len() implies front[i] < front[j] by {
            assert(keys[i] < keys[j]);
        }
        lemma_filter_ascending(front, pred);
        assert forall|k: u64| #[trigger] kept.contains(k) implies keys.contains(k) && pred(k) by {
            let i = choose|i: int| 0 <= i < kept.len() && kept[i] == k;
            if i < before.len() {
                assert(before[i] == k);
                assert(before.contains(k));
                let j = choose|j: int| 0 <= j < front.len() && front[j] == k;
                assert(keys[j] == k);
            } else {
                assert(keys[keys.len() - 1] == k);
            }
        }
        assert forall|k: u64| #[trigger] keys.contains(k) && pred(k) implies kept.contains(k) by {
            let j = choose|j: int| 0 <= j < keys.len() && keys[j] == k;
            if j < front.len() {
                assert(front[j] == k);
                assert(front.contains(k));
                let i = choose|i: int| 0 <= i < before.len() && before[i] == k;
                assert(kept[i] == k);
            } else {
                assert(kept[before.len() as int] == k);
            }
        }
        assert forall|i: int, j: int| 0 <= i < j < kept.len() implies kept[i] < kept[j] by {
            if j < before.len() {
                assert(before[i] < before[j]);
            } else {
                assert(before[i] == kept[i]);
                assert(before.contains(before[i]));
                let a = choose|a: int| 0 <= a < front.len() && front[a] == before[i];
                assert(keys[a] < keys[keys.len() - 1]);
            }
        }
    }
}

/// The listing of the keys that pass a test is the listing of all the
/// keys, without those that fail it.
pub proof fn lemma_key_order_filter(dom: Set<u64>, pred: spec_fn(u64) -> bool)
    ensures
        key_order(dom.filter(pred)) == key_order(dom).filter(pred),
{
    lemma_key_order(dom);
    let keys = key_order(dom);
    lemma_filter_ascending(keys, pred);
    assert forall|k: u64| dom.filter(pred).contains(k) <==> keys.filter(pred).contains(k) by {
        if dom.filter(pred).contains(k) {
            assert(keys.contains(k) && pred(k));
        }
    }
    lemma_key_order_is(keys.filter(pred), dom.filter(pred));
}

} // verus!
