use vstd::prelude::*;
use crate::record::Record;
use crate::aggregate::{
    channels_of, contains_channel, duration_of, duration_pairs, lemma_channels_push,
    lemma_duration_nonneg, lemma_duration_of_push, lemma_duration_pairs_push, total_duration,
};
use crate::buckets::bucket_pairs;
use crate::sort::{
    lemma_pair_value_sum_update, lemma_sort_desc_props, lemma_sort_desc_value_sum, pair_value_sum,
    sort_desc, value_sorted_desc,
};

verus! {

/// When every record of a non-empty log names the same channel, the duration
/// report is a single row: that channel, with the exact sum of all watched
/// seconds.
pub proof fn lemma_single_channel_total(s: Seq<Record>, c: Seq<char>)
    requires
        s.len() > 0,
        total_duration(s) <= u64::MAX,
        forall|i: int| 0 <= i < s.len() ==> (#[trigger] s[i]).channel@ == c,
    ensures
        channels_of(s).len() == 1,
        channels_of(s)[0]@ == c,
        duration_of(s, c) == total_duration(s),
        sort_desc(duration_pairs(s)) =~= seq![
            (channels_of(s)[0], total_duration(s) as u64),
        ],
    decreases s.len(),
{
    let head = s.drop_last();
    if s.len() == 1 {
        assert(head =~= Seq::<Record>::empty());
        assert(channels_of(Seq::<Record>::empty()) =~= Seq::<String>::empty());
        assert(duration_of(Seq::<Record>::empty(), c) == 0);
        assert(total_duration(Seq::<Record>::empty()) == 0);
        assert(!contains_channel(Seq::<String>::empty(), s.last().channel@));
        assert(channels_of(s) == Seq::<String>::empty().push(s.last().channel));
    } else {
        assert(forall|i: int| 0 <= i < head.len() ==> (#[trigger] head[i]).channel@ == c);
        lemma_single_channel_total(head, c);
        assert(s.last().channel@ == c);
        assert(contains_channel(channels_of(head), s.last().channel@));
    }
    assert(channels_of(s)[0]@ == c);
    assert(duration_of(s, c) == total_duration(s));
    let p = (channels_of(s)[0], total_duration(s) as u64);
    assert(duration_pairs(s).len() == 1);
    assert(duration_pairs(s)[0] == (channels_of(s)[0], duration_of(s, channels_of(s)[0]@) as u64));
    assert(duration_pairs(s)[0] == p);
    assert(duration_pairs(s) =~= seq![p]);
    assert(seq![p].drop_last() =~= Seq::<(String, u64)>::empty());
    assert(sort_desc(seq![p]) =~= seq![p]) by {
        assert(sort_desc(Seq::<(String, u64)>::empty()) =~= Seq::<(String, u64)>::empty());
        assert(crate::sort::insert_desc(p, Seq::<(String, u64)>::empty()) =~= seq![p]);
    }
}

/// The duration rows partition the log: summing the per-channel totals of the
/// duration report gives exactly the sum of the watched seconds over the
/// whole sequence.
pub proof fn lemma_duration_sum_partition(s: Seq<Record>)
    requires
        total_duration(s) <= u64::MAX,
    ensures
        pair_value_sum(sort_desc(duration_pairs(s))) == total_duration(s),
    decreases s.len(),
{
    lemma_sort_desc_value_sum(duration_pairs(s));
    lemma_pairs_sum_is_total(s);
}

/// The unsorted duration rows already sum to the whole log's seconds.
proof fn lemma_pairs_sum_is_total(s: Seq<Record>)
    requires
        total_duration(s) <= u64::MAX,
    ensures
        pair_value_sum(duration_pairs(s)) == total_duration(s),
    decreases s.len(),
{
    if s.len() == 0 {
        assert(duration_pairs(s) =~= Seq::<(String, u64)>::empty());
    } else {
        let head = s.drop_last();
        let r = s.last();
        let c = r.channel@;
        assert(s =~= head.push(r));
        lemma_duration_nonneg(head, c);
        assert(total_duration(head) <= total_duration(s));
        lemma_pairs_sum_is_total(head);
        lemma_duration_pairs_push(head, r);
        lemma_channels_push(head, r);
        crate::aggregate::lemma_channel_index(channels_of(head), c);
        lemma_duration_of_push(head, r, c);
        lemma_duration_nonneg(head, Seq::empty());
        if contains_channel(channels_of(head), c) {
            let j = crate::aggregate::channel_index(channels_of(head), c);
            let oldp = duration_pairs(head)[j];
            assert(oldp.1 == duration_of(head, c) as u64);
            crate::aggregate::lemma_duration_le_total(head, c);
            crate::aggregate::lemma_duration_le_total(s, c);
            lemma_duration_nonneg(s, c);
            assert(oldp.1 as int == duration_of(head, c));
            lemma_pair_value_sum_update(
                duration_pairs(head),
                j,
                (channels_of(head)[j], (duration_of(head, c) + r.duration_seconds) as u64),
            );
        } else {
            assert(duration_pairs(s).drop_last() =~= duration_pairs(head));
        }
    }
}

/// Of more than twenty non-empty windows, exactly twenty rows are kept, and
/// every kept row's count is at least every dropped row's.
pub proof fn lemma_busiest_windows_kept(s: Seq<Record>)
    ensures
        ({
            let sorted = sort_desc(bucket_pairs(s));
            let kept = sorted.take(
                if sorted.len() < 20 {
                    sorted.len() as int
                } else {
                    20
                },
            );
            &&& sorted.len() >= 20 ==> kept.len() == 20
            &&& sorted.len() < 20 ==> kept.len() == sorted.len()
            &&& value_sorted_desc(kept)
            &&& forall|i: int, j: int|
                0 <= i < kept.len() && kept.len() <= j < sorted.len() ==> kept[i].1 >= sorted[j].1
        }),
{
    lemma_sort_desc_props(bucket_pairs(s));
}

/// Running an aggregation twice over the same records returns the same rows:
/// each report equals `sort_desc` of the pairs its input determines, so the
/// report is a function of the input sequence alone, with no carry-over
/// between runs.
pub proof fn lemma_report_deterministic<K>(
    ps: Seq<(K, u64)>,
    first_run: Seq<(K, u64)>,
    second_run: Seq<(K, u64)>,
)
    requires
        first_run == sort_desc(ps),
        second_run == sort_desc(ps),
    ensures
        first_run == second_run,
{
}

} // verus!
