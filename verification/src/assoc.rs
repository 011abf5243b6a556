use vstd::prelude::*;
use vstd::set_lib::lemma_len_subset;

verus! {

/// The mapping an association list denotes: a later entry for a key wins.
pub open spec fn pairs_to_map<K, V>(s: Seq<(K, V)>) -> Map<K, V>
    decreases s.len(),
{
    if s.len() == 0 {
        Map::empty()
    } else {
        pairs_to_map(s.drop_last()).insert(s.last().0, s.last().1)
    }
}

/// Whether some entry of `s` carries key `k`.
pub open spec fn seq_has_key<K, V>(s: Seq<(K, V)>, k: K) -> bool {
    exists|i: int| 0 <= i < s.len() && s[i].0 == k
}

/// Whether no two entries of `s` carry the same key.
pub open spec fn distinct_keys<K, V>(s: Seq<(K, V)>) -> bool {
    forall|i: int, j: int| 0 <= i < j < s.len() ==> (#[trigger] s[i]).0 != (#[trigger] s[j]).0
}

pub proof fn lemma_map_domain<K, V>(s: Seq<(K, V)>)
    ensures
        forall|k: K| #[trigger] pairs_to_map(s).contains_key(k) <==> seq_has_key(s, k),
    decreases s.len(),
{
    if s.len() == 0 {
    } else {
        let dl = s.drop_last();
        lemma_map_domain(dl);
        assert forall|k: K| seq_has_key(s, k) implies pairs_to_map(s).contains_key(k) by {
            let i = choose|i: int| 0 <= i < s.len() && s[i].0 == k;
            if i < s.len() - 1 {
                assert(dl[i].0 == k);
                assert(seq_has_key(dl, k));
                assert(pairs_to_map(dl).contains_key(k));
            } else {
                assert(s.last().0 == k);
            }
        }
        assert forall|k: K| pairs_to_map(s).contains_key(k) implies seq_has_key(s, k) by {
            if k == s.last().0 {
                assert(s[s.len() - 1].0 == k);
            } else {
                assert(pairs_to_map(dl).contains_key(k));
                assert(seq_has_key(dl, k));
                let i = choose|i: int| 0 <= i < dl.len() && dl[i].0 == k;
                assert(s[i] == dl[i]);
                assert(s[i].0 == k);
            }
        }
    }
}

pub proof fn lemma_map_lookup<K, V>(s: Seq<(K, V)>, i: int)
    requires
        distinct_keys(s),
        0 <= i < s.len(),
    ensures
        pairs_to_map(s).contains_key(s[i].0),
        pairs_to_map(s)[s[i].0] == s[i].1,
    decreases s.len(),
{
    lemma_map_domain(s);
    if i == s.len() - 1 {
    } else {
        let dl = s.drop_last();
        assert(dl[i] == s[i]);
        lemma_map_lookup(dl, i);
        assert(s.last().0 != s[i].0);
    }
}

pub proof fn lemma_map_push<K, V>(s: Seq<(K, V)>, k: K, v: V)
    ensures
        pairs_to_map(s.push((k, v))) == pairs_to_map(s).insert(k, v),
{
    assert(s.push((k, v)).drop_last() =~= s);
    assert(s.push((k, v)).last() == (k, v));
}

pub proof fn lemma_map_update<K, V>(s: Seq<(K, V)>, i: int, k: K, v: V)
    requires
        distinct_keys(s),
        0 <= i < s.len(),
        s[i].0 == k,
    ensures
        pairs_to_map(s.update(i, (k, v))) =~= pairs_to_map(s).insert(k, v),
        distinct_keys(s.update(i, (k, v))),
    decreases s.len(),
{
    let t = s.update(i, (k, v));
    assert forall|x: int, y: int| 0 <= x < y < t.len() implies (#[trigger] t[x]).0
        != (#[trigger] t[y]).0 by {
        assert(s[x].0 != s[y].0);
    }
    if i == s.len() - 1 {
        assert(t.drop_last() =~= s.drop_last());
        assert(t.last() == (k, v));
    } else {
        let dl = s.drop_last();
        assert(t.drop_last() =~= dl.update(i, (k, v)));
        assert(dl[i] == s[i]);
        lemma_map_update(dl, i, k, v);
        assert(s.last().0 != k);
        assert(t.last() == s.last());
        assert(pairs_to_map(t) =~= pairs_to_map(s).insert(k, v));
    }
}

pub proof fn lemma_map_remove<K, V>(s: Seq<(K, V)>, i: int)
    requires
        distinct_keys(s),
        0 <= i < s.len(),
    ensures
        pairs_to_map(s.remove(i)) =~= pairs_to_map(s).remove(s[i].0),
        distinct_keys(s.remove(i)),
        !seq_has_key(s.remove(i), s[i].0),
    decreases s.len(),
{
    let k = s[i].0;
    let t = s.remove(i);
    assert forall|x: int, y: int| 0 <= x < y < t.len() implies (#[trigger] t[x]).0
        != (#[trigger] t[y]).0 by {
        let sx: int = if x < i { x } else { x + 1 };
        let sy: int = if y < i { y } else { y + 1 };
        assert(t[x] == s[sx]);
        assert(t[y] == s[sy]);
        assert(s[sx].0 != s[sy].0);
    }
    assert forall|j: int| 0 <= j < t.len() implies (#[trigger] t[j]).0 != k by {
        let sj: int = if j < i { j } else { j + 1 };
        assert(t[j] == s[sj]);
        assert(s[sj].0 != s[i].0);
    }
    lemma_map_domain(s);
    lemma_map_domain(t);
    if i == s.len() - 1 {
        assert(t =~= s.drop_last());
        assert(!seq_has_key(t, k));
        lemma_map_domain(t);
        assert(!pairs_to_map(t).contains_key(k));
        assert(pairs_to_map(s) == pairs_to_map(t).insert(k, s[i].1));
        assert(pairs_to_map(s).remove(k) =~= pairs_to_map(t));
    } else {
        let dl = s.drop_last();
        assert(dl[i] == s[i]);
        lemma_map_remove(dl, i);
        assert(t.drop_last() =~= dl.remove(i));
        assert(t.last() == s.last());
        assert(s.last().0 != k);
        assert(pairs_to_map(t) == pairs_to_map(dl.remove(i)).insert(s.last().0, s.last().1));
        assert(pairs_to_map(t) =~= pairs_to_map(s).remove(k));
    }
}

pub proof fn lemma_map_card<K, V>(s: Seq<(K, V)>)
    ensures
        pairs_to_map(s).dom().finite(),
        pairs_to_map(s).dom().len() <= s.len(),
    decreases s.len(),
{
    if s.len() == 0 {
        assert(pairs_to_map(s).dom() =~= Set::<K>::empty());
    } else {
        lemma_map_card(s.drop_last());
    }
}

/// Among the keys `0 ..= s.len()` at least one is free: `s` has only
/// `s.len()` entries.
pub proof fn lemma_exists_unused_key<V>(s: Seq<(u128, V)>)
    requires
        s.len() < u128::MAX,
    ensures
        exists|k: u128| k <= s.len() && !seq_has_key(s, k),
{
    lemma_map_domain(s);
    lemma_map_card(s);
    let dom = pairs_to_map(s).dom();
    let used = Set::new(|x: int| 0 <= x <= s.len() && dom.contains(x as u128));
    let range = vstd::set_lib::set_int_range(0, s.len() as int + 1);
    assert(used.subset_of(dom.map(|k: u128| k as int)));
    if forall|k: u128| k <= s.len() ==> #[trigger] seq_has_key(s, k) {
        assert forall|x: int| range.contains(x) implies used.contains(x) by {
            let k = x as u128;
            assert(seq_has_key(s, k));
            assert(dom.contains(k));
        }
        assert(range.subset_of(used));
        let f = |k: u128| k as int;
        let mapped = dom.map(f);
        assert forall|x: int| used.contains(x) implies mapped.contains(x) by {
            assert(dom.contains(x as u128));
            assert(f(x as u128) == x);
        }
        vstd::set_lib::lemma_map_size_bound(dom, mapped, f);
        assert(mapped.finite());
        assert(mapped.len() <= s.len());
        assert(used.subset_of(mapped));
        lemma_len_subset(used, mapped);
        vstd::set_lib::lemma_int_range(0, s.len() as int + 1);
        lemma_len_subset(range, used);
        assert(range.len() == s.len() + 1);
        assert(false);
    }
}

} // verus!
