use vstd::prelude::*;
use vstd::multiset::Multiset;
use vstd::seq_lib::lemma_multiset_commutative;

verus! {

/// True when the values (the second components) of `s` never increase.
pub open spec fn value_sorted_desc<K>(s: Seq<(K, u64)>) -> bool {
    forall|i: int, j: int| 0 <= i < j < s.len() ==> s[i].1 >= s[j].1
}

/// `p` placed into the already-descending `s`, after every entry whose value
/// is at least `p`'s, so that entries with equal values keep their order.
pub open spec fn insert_desc<K>(p: (K, u64), s: Seq<(K, u64)>) -> Seq<(K, u64)>
    decreases s.len(),
{
    if s.len() == 0 {
        seq![p]
    } else if s[0].1 < p.1 {
        seq![p] + s
    } else {
        seq![s[0]] + insert_desc(p, s.drop_first())
    }
}

/// The sequence reordered so that values descend. Entries with equal values
/// keep their relative order, so the result is a function of `s` alone and
/// every report built on it is deterministic.
pub open spec fn sort_desc<K>(s: Seq<(K, u64)>) -> Seq<(K, u64)>
    decreases s.len(),
{
    if s.len() == 0 {
        Seq::empty()
    } else {
        insert_desc(s.last(), sort_desc(s.drop_last()))
    }
}

/// Inserting into a descending sequence keeps it descending, adds exactly the
/// inserted entry to the contents, and invents no entry.
pub proof fn lemma_insert_desc_props<K>(p: (K, u64), s: Seq<(K, u64)>)
    requires
        value_sorted_desc(s),
    ensures
        insert_desc(p, s).len() == s.len() + 1,
        insert_desc(p, s).to_multiset() =~= s.to_multiset().insert(p),
        value_sorted_desc(insert_desc(p, s)),
        forall|k: int|
            0 <= k < insert_desc(p, s).len() ==> (insert_desc(p, s)[k] == p || s.contains(
                #[trigger] insert_desc(p, s)[k],
            )),
    decreases s.len(),
{
    broadcast use vstd::seq_lib::group_to_multiset_ensures;
    broadcast use vstd::multiset::group_multiset_axioms;

    let out = insert_desc(p, s);
    if s.len() == 0 {
        assert(seq![p] =~= Seq::empty().push(p));
        assert(out.to_multiset() =~= s.to_multiset().insert(p));
    } else if s[0].1 < p.1 {
        assert(out =~= seq![p] + s);
        lemma_multiset_commutative(seq![p], s);
        assert(seq![p] =~= Seq::empty().push(p));
        assert(seq![p].to_multiset() =~= Multiset::empty().insert(p));
        assert(out.to_multiset() =~= s.to_multiset().insert(p));
        assert forall|k: int| 0 <= k < out.len() implies (out[k] == p || s.contains(out[k])) by {
            if k > 0 {
                assert(out[k] == s[k - 1]);
            }
        }
    } else {
        let rest = s.drop_first();
        assert(value_sorted_desc(rest));
        lemma_insert_desc_props(p, rest);
        let sub = insert_desc(p, rest);
        assert(out =~= seq![s[0]] + sub);
        lemma_multiset_commutative(seq![s[0]], sub);
        assert(seq![s[0]] =~= Seq::empty().push(s[0]));
        assert(seq![s[0]].to_multiset() =~= Multiset::empty().insert(s[0]));
        // contents: {s[0]} + (rest + {p}) == (s[0] :: rest) + {p}
        assert(s =~= seq![s[0]] + rest);
        lemma_multiset_commutative(seq![s[0]], rest);
        assert(out.to_multiset() =~= s.to_multiset().insert(p));
        // order: s[0] dominates p and every entry of rest, hence every entry of sub
        assert forall|k: int| 0 <= k < out.len() implies (out[k] == p || s.contains(out[k])) by {
            if k > 0 {
                assert(out[k] == sub[k - 1]);
                if sub[k - 1] != p {
                    assert(rest.contains(sub[k - 1]));
                    let m = choose|m: int| 0 <= m < rest.len() && rest[m] == sub[k - 1];
                    assert(s[m + 1] == rest[m]);
                }
            } else {
                assert(s.contains(s[0]));
            }
        }
        assert forall|i: int, j: int| 0 <= i < j < out.len() implies out[i].1 >= out[j].1 by {
            if i == 0 {
                assert(out[j] == sub[j - 1]);
                if sub[j - 1] == p {
                    assert(s[0].1 >= p.1);
                } else {
                    assert(rest.contains(sub[j - 1]));
                    let m = choose|m: int| 0 <= m < rest.len() && rest[m] == sub[j - 1];
                    assert(s[m + 1] == rest[m]);
                    assert(s[0].1 >= s[m + 1].1);
                }
            } else {
                assert(out[i] == sub[i - 1] && out[j] == sub[j - 1]);
            }
        }
    }
}

/// What sorting promises: the result descends by value and holds exactly the
/// entries of the input.
pub proof fn lemma_sort_desc_props<K>(s: Seq<(K, u64)>)
    ensures
        sort_desc(s).len() == s.len(),
        sort_desc(s).to_multiset() =~= s.to_multiset(),
        value_sorted_desc(sort_desc(s)),
    decreases s.len(),
{
    broadcast use vstd::seq_lib::group_to_multiset_ensures;
    broadcast use vstd::multiset::group_multiset_axioms;

    if s.len() == 0 {
    } else {
        lemma_sort_desc_props(s.drop_last());
        lemma_insert_desc_props(s.last(), sort_desc(s.drop_last()));
        assert(s =~= s.drop_last().push(s.last()));
        assert(s.to_multiset() =~= s.drop_last().to_multiset().insert(s.last()));
    }
}

/// The sum of the values of `s`.
pub open spec fn pair_value_sum<K>(s: Seq<(K, u64)>) -> int
    decreases s.len(),
{
    if s.len() == 0 {
        0
    } else {
        pair_value_sum(s.drop_last()) + s.last().1
    }
}

/// The value sum splits over concatenation.
pub proof fn lemma_pair_value_sum_concat<K>(a: Seq<(K, u64)>, b: Seq<(K, u64)>)
    ensures
        pair_value_sum(a + b) == pair_value_sum(a) + pair_value_sum(b),
    decreases b.len(),
{
    if b.len() == 0 {
        assert(a + b =~= a);
    } else {
        lemma_pair_value_sum_concat(a, b.drop_last());
        assert((a + b).drop_last() =~= a + b.drop_last());
        assert((a + b).last() == b.last());
    }
}

/// Replacing one entry moves the value sum by the difference of the values.
pub proof fn lemma_pair_value_sum_update<K>(s: Seq<(K, u64)>, j: int, p: (K, u64))
    requires
        0 <= j < s.len(),
    ensures
        pair_value_sum(s.update(j, p)) == pair_value_sum(s) - s[j].1 + p.1,
    decreases s.len(),
{
    if j == s.len() - 1 {
        assert(s.update(j, p).drop_last() =~= s.drop_last());
        assert(s.update(j, p).last() == p);
    } else {
        lemma_pair_value_sum_update(s.drop_last(), j, p);
        assert(s.update(j, p).drop_last() =~= s.drop_last().update(j, p));
        assert(s.update(j, p).last() == s.last());
    }
}

/// Inserting an entry raises the value sum by exactly that entry's value.
pub proof fn lemma_insert_desc_value_sum<K>(p: (K, u64), s: Seq<(K, u64)>)
    ensures
        pair_value_sum(insert_desc(p, s)) == pair_value_sum(s) + p.1,
    decreases s.len(),
{
    if s.len() == 0 {
        assert(seq![p].drop_last() =~= Seq::<(K, u64)>::empty());
        assert(pair_value_sum(Seq::<(K, u64)>::empty()) == 0);
        assert(pair_value_sum(seq![p]) == p.1);
    } else if s[0].1 < p.1 {
        lemma_pair_value_sum_concat(seq![p], s);
        assert(seq![p].drop_last() =~= Seq::<(K, u64)>::empty());
        assert(pair_value_sum(Seq::<(K, u64)>::empty()) == 0);
        assert(pair_value_sum(seq![p]) == p.1);
    } else {
        lemma_insert_desc_value_sum(p, s.drop_first());
        lemma_pair_value_sum_concat(seq![s[0]], insert_desc(p, s.drop_first()));
        lemma_pair_value_sum_concat(seq![s[0]], s.drop_first());
        assert(seq![s[0]].drop_last() =~= Seq::<(K, u64)>::empty());
        assert(pair_value_sum(Seq::<(K, u64)>::empty()) == 0);
        assert(pair_value_sum(seq![s[0]]) == s[0].1);
        assert(s =~= seq![s[0]] + s.drop_first());
        assert(insert_desc(p, s) == seq![s[0]] + insert_desc(p, s.drop_first()));
    }
}

/// Sorting keeps the value sum.
pub proof fn lemma_sort_desc_value_sum<K>(s: Seq<(K, u64)>)
    ensures
        pair_value_sum(sort_desc(s)) == pair_value_sum(s),
    decreases s.len(),
{
    if s.len() == 0 {
    } else {
        lemma_sort_desc_value_sum(s.drop_last());
        lemma_insert_desc_value_sum(s.last(), sort_desc(s.drop_last()));
    }
}

/// Inserting at the first position whose value is below `p`'s is exactly
/// `insert_desc`.
proof fn lemma_insert_desc_at<K>(p: (K, u64), s: Seq<(K, u64)>, j: int)
    requires
        0 <= j <= s.len(),
        forall|k: int| 0 <= k < j ==> s[k].1 >= p.1,
        j < s.len() ==> s[j].1 < p.1,
    ensures
        insert_desc(p, s) =~= s.insert(j, p),
    decreases j,
{
    if s.len() == 0 {
        assert(insert_desc(p, s) =~= seq![p]);
    } else if j == 0 {
        assert(s[0].1 < p.1);
        assert(insert_desc(p, s) =~= seq![p] + s);
    } else {
        assert(s[0].1 >= p.1);
        let rest = s.drop_first();
        lemma_insert_desc_at(p, rest, j - 1);
        assert(insert_desc(p, s) =~= seq![s[0]] + rest.insert(j - 1, p));
    }
}

/// Reorders the pairs so that their values descend; pairs with equal values
/// keep their relative order. The contract pins the exact result, so two runs
/// on the same input return the same report.
pub fn sort_pairs_desc<K>(input: Vec<(K, u64)>) -> (out: Vec<(K, u64)>)
    ensures
        out@ == sort_desc(input@),
{
    let ghost orig = input@;
    let mut rest = input;
    let n: usize = rest.len();
    let mut out: Vec<(K, u64)> = Vec::new();
    let mut i: usize = 0;
    proof {
        assert(orig.take(0) =~= Seq::empty());
    }
    while rest.len() > 0
        invariant
            orig.len() == n,
            i + rest@.len() == orig.len(),
            rest@ =~= orig.skip(i as int),
            out@ == sort_desc(orig.take(i as int)),
        decreases rest@.len(),
    {
        proof {
            lemma_sort_desc_props(orig.take(i as int));
        }
        let p = rest.remove(0);
        proof {
            assert(p == orig[i as int]);
            assert(rest@ =~= orig.skip(i as int + 1));
        }
        let mut j: usize = 0;
        while j < out.len() && out[j].1 >= p.1
            invariant
                j <= out@.len(),
                forall|k: int| 0 <= k < j ==> out@[k].1 >= p.1,
                out@ == sort_desc(orig.take(i as int)),
            decreases out@.len() - j,
        {
            j += 1;
        }
        let ghost before = out@;
        out.insert(j, p);
        proof {
            lemma_sort_desc_props(orig.take(i as int));
            lemma_insert_desc_at(p, before, j as int);
            assert(orig.take(i as int + 1).drop_last() =~= orig.take(i as int));
            assert(orig.take(i as int + 1).last() == p);
            assert(out@ =~= insert_desc(p, sort_desc(orig.take(i as int))));
            assert(out@ == sort_desc(orig.take(i as int + 1)));
        }
        i += 1;
    }
    proof {
        assert(orig.take(i as int) =~= orig);
    }
    out
}

} // verus!
