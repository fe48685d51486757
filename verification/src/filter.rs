use vstd::prelude::*;
use crate::record::Record;

verus! {

/// The subsequence of `s` whose records fall in calendar month `month`,
/// in the order they stand in `s`.
pub open spec fn spec_filter_month(s: Seq<Record>, month: u32) -> Seq<Record> {
    s.filter(|r: Record| r.timestamp.month == month)
}

/// The months that occur in the supported window of the log. The window runs
/// from May of one year to February of the next, so March and April never
/// occur, and no month number repeats across two years of one window.
pub open spec fn supported_month(m: u32) -> bool {
    m == 1 || m == 2 || (5 <= m <= 12)
}

/// One step of the filter: appending a record appends it to the filtered
/// sequence exactly when its month matches.
pub proof fn lemma_filter_month_push(s: Seq<Record>, r: Record, month: u32)
    ensures
        r.timestamp.month == month ==> spec_filter_month(s.push(r), month) == spec_filter_month(
            s,
            month,
        ).push(r),
        r.timestamp.month != month ==> spec_filter_month(s.push(r), month) == spec_filter_month(
            s,
            month,
        ),
{
    reveal(Seq::filter);
    assert(s.push(r).drop_last() =~= s);
    assert(s.push(r).last() == r);
}

/// A record is in the filtered sequence exactly as often as a matching record
/// is in the input: the filter keeps every matching record, keeps nothing
/// else, and neither drops nor duplicates one.
pub proof fn lemma_filter_month_exact(s: Seq<Record>, month: u32, r: Record)
    ensures
        spec_filter_month(s, month).contains(r) <==> (s.contains(r) && r.timestamp.month
            == month),
        spec_filter_month(s, month).to_multiset().count(r) == if r.timestamp.month == month {
            s.to_multiset().count(r)
        } else {
            0
        },
    decreases s.len(),
{
    broadcast use vstd::seq_lib::group_to_multiset_ensures;
    broadcast use vstd::multiset::group_multiset_axioms;

    reveal(Seq::filter);
    if s.len() == 0 {
        assert(spec_filter_month(s, month) =~= Seq::<Record>::empty());
        assert(!s.contains(r));
    } else {
        let head = s.drop_last();
        let x = s.last();
        lemma_filter_month_exact(head, month, r);
        lemma_filter_month_push(head, x, month);
        assert(s =~= head.push(x));
        assert(s.to_multiset() =~= head.to_multiset().insert(x));
        if x.timestamp.month == month {
            assert(spec_filter_month(s, month) == spec_filter_month(head, month).push(x));
            assert(spec_filter_month(s, month).to_multiset() =~= spec_filter_month(
                head,
                month,
            ).to_multiset().insert(x));
        }
        assert(s.contains(r) <==> (head.contains(r) || x == r)) by {
            if s.contains(r) {
                let k = choose|k: int| 0 <= k < s.len() && s[k] == r;
                if k < head.len() {
                    assert(head[k] == r);
                }
            } else {
                assert(forall|k: int| 0 <= k < head.len() ==> head[k] == s[k]);
            }
        }
        if spec_filter_month(s, month).contains(r) {
            let f = spec_filter_month(s, month);
            let k = choose|k: int| 0 <= k < f.len() && f[k] == r;
            if x.timestamp.month == month && k < f.len() - 1 {
                assert(spec_filter_month(head, month)[k] == r);
            }
        }
    }
}

/// No record of a month outside the supported window is ever in the log, so
/// filtering to such a month yields the empty sequence.
pub proof fn lemma_unsupported_month_empty(s: Seq<Record>, month: u32)
    requires
        forall|i: int| 0 <= i < s.len() ==> supported_month(#[trigger] s[i].timestamp.month),
        !supported_month(month),
    ensures
        spec_filter_month(s, month) =~= Seq::<Record>::empty(),
    decreases s.len(),
{
    reveal(Seq::filter);
    if s.len() == 0 {
    } else {
        lemma_unsupported_month_empty(s.drop_last(), month);
        lemma_filter_month_push(s.drop_last(), s.last(), month);
        assert(s =~= s.drop_last().push(s.last()));
        assert(s.last().timestamp.month != month);
    }
}

/// Keeps exactly the records of calendar month `month`, in input order.
pub fn filter_month(records: &Vec<Record>, month: u32) -> (out: Vec<Record>)
    ensures
        out@ == spec_filter_month(records@, month),
{
    let mut out: Vec<Record> = Vec::new();
    let mut i: usize = 0;
    proof {
        reveal(Seq::filter);
        assert(records@.take(0) =~= Seq::<Record>::empty());
        assert(spec_filter_month(records@.take(0), month) =~= Seq::<Record>::empty());
    }
    while i < records.len()
        invariant
            i <= records@.len(),
            out@ == spec_filter_month(records@.take(i as int), month),
        decreases records@.len() - i,
    {
        let r = &records[i];
        if r.timestamp.month == month {
            out.push(r.clone());
        }
        proof {
            lemma_filter_month_push(records@.take(i as int), records@[i as int], month);
            assert(records@.take(i as int + 1) =~= records@.take(i as int).push(
                records@[i as int],
            ));
        }
        i += 1;
    }
    proof {
        assert(records@.take(records@.len() as int) =~= records@);
    }
    out
}

} // verus!
