use vstd::prelude::*;
use crate::record::Record;
use crate::sort::{sort_desc, sort_pairs_desc};

verus! {

/// Whether some name of `cs` reads `c`. Channels are grouped by exact value
/// equality of their text.
pub open spec fn contains_channel(cs: Seq<String>, c: Seq<char>) -> bool {
    exists|k: int| 0 <= k < cs.len() && cs[k]@ == c
}

/// The first position of `cs` whose name reads `c`, or -1 when there is none.
pub open spec fn channel_index(cs: Seq<String>, c: Seq<char>) -> int
    decreases cs.len(),
{
    if cs.len() == 0 {
        -1
    } else if cs[0]@ == c {
        0
    } else {
        let rest = channel_index(cs.drop_first(), c);
        if rest < 0 {
            -1
        } else {
            1 + rest
        }
    }
}

/// The distinct channel names of `s`, each in the order its first record
/// stands in `s`.
pub open spec fn channels_of(s: Seq<Record>) -> Seq<String>
    decreases s.len(),
{
    if s.len() == 0 {
        Seq::empty()
    } else {
        let init = channels_of(s.drop_last());
        if contains_channel(init, s.last().channel@) {
            init
        } else {
            init.push(s.last().channel)
        }
    }
}

/// The seconds watched on channel `c` over the whole of `s`.
pub open spec fn duration_of(s: Seq<Record>, c: Seq<char>) -> int
    decreases s.len(),
{
    if s.len() == 0 {
        0
    } else {
        duration_of(s.drop_last(), c) + if s.last().channel@ == c {
            s.last().duration_seconds as int
        } else {
            0
        }
    }
}

/// The seconds watched over the whole of `s`, on any channel.
pub open spec fn total_duration(s: Seq<Record>) -> int
    decreases s.len(),
{
    if s.len() == 0 {
        0
    } else {
        total_duration(s.drop_last()) + s.last().duration_seconds as int
    }
}

/// One row per channel of `s`, in first-appearance order: the channel's name
/// and its total watched seconds.
pub open spec fn duration_pairs(s: Seq<Record>) -> Seq<(String, u64)> {
    channels_of(s).map_values(|c: String| (c, duration_of(s, c@) as u64))
}

/// `channel_index` finds the first matching position, and only a matching one.
pub proof fn lemma_channel_index(cs: Seq<String>, c: Seq<char>)
    ensures
        contains_channel(cs, c) ==> {
            let j = channel_index(cs, c);
            &&& 0 <= j < cs.len()
            &&& cs[j]@ == c
            &&& forall|k: int| 0 <= k < j ==> cs[k]@ != c
        },
        !contains_channel(cs, c) ==> channel_index(cs, c) == -1,
    decreases cs.len(),
{
    if cs.len() == 0 {
    } else if cs[0]@ == c {
    } else {
        let rest = cs.drop_first();
        lemma_channel_index(rest, c);
        assert(forall|k: int| 0 <= k < rest.len() ==> #[trigger] rest[k] == cs[k + 1]);
        if contains_channel(cs, c) {
            let w = choose|w: int| 0 <= w < cs.len() && cs[w]@ == c;
            assert(rest[w - 1]@ == c);
            assert(contains_channel(rest, c));
            let jr = channel_index(rest, c);
            let j = channel_index(cs, c);
            assert(j == 1 + jr);
            assert(cs[j]@ == rest[jr]@);
            assert forall|k: int| 0 <= k < j implies cs[k]@ != c by {
                if k > 0 {
                    assert(cs[k] == rest[k - 1]);
                }
            }
        } else {
            assert(!contains_channel(rest, c)) by {
                if contains_channel(rest, c) {
                    let w = choose|w: int| 0 <= w < rest.len() && rest[w]@ == c;
                    assert(cs[w + 1]@ == c);
                }
            }
        }
    }
}

/// A first match found by a left-to-right scan is `channel_index`.
pub proof fn lemma_channel_index_of_first(cs: Seq<String>, c: Seq<char>, j: int)
    requires
        0 <= j < cs.len(),
        cs[j]@ == c,
        forall|k: int| 0 <= k < j ==> cs[k]@ != c,
    ensures
        channel_index(cs, c) == j,
    decreases cs.len(),
{
    if j == 0 {
    } else {
        let rest = cs.drop_first();
        assert forall|k: int| 0 <= k < rest.len() implies rest[k] == cs[k + 1] by {}
        lemma_channel_index_of_first(rest, c, j - 1);
    }
}

/// Appending a record keeps the channel list, or appends the record's channel
/// when it is new.
pub proof fn lemma_channels_push(s: Seq<Record>, r: Record)
    ensures
        contains_channel(channels_of(s), r.channel@) ==> channels_of(s.push(r)) == channels_of(s),
        !contains_channel(channels_of(s), r.channel@) ==> channels_of(s.push(r)) == channels_of(
            s,
        ).push(r.channel),
{
    assert(s.push(r).drop_last() =~= s);
    assert(s.push(r).last() == r);
}

/// The channel list never repeats a name.
pub proof fn lemma_channels_distinct(s: Seq<Record>)
    ensures
        forall|k1: int, k2: int|
            0 <= k1 < k2 < channels_of(s).len() ==> channels_of(s)[k1]@ != channels_of(s)[k2]@,
    decreases s.len(),
{
    if s.len() == 0 {
    } else {
        lemma_channels_distinct(s.drop_last());
        let init = channels_of(s.drop_last());
        let cs = channels_of(s);
        if contains_channel(init, s.last().channel@) {
        } else {
            assert(cs == init.push(s.last().channel));
            assert forall|k1: int, k2: int| 0 <= k1 < k2 < cs.len() implies cs[k1]@ != cs[k2]@ by {
                if k2 == cs.len() - 1 {
                    assert(cs[k1] == init[k1]);
                    if init[k1]@ == s.last().channel@ {
                        assert(contains_channel(init, s.last().channel@));
                    }
                } else {
                    assert(cs[k1] == init[k1] && cs[k2] == init[k2]);
                }
            }
        }
    }
}

/// Every record's channel is in the channel list, and every listed channel is
/// some record's.
pub proof fn lemma_channels_complete(s: Seq<Record>)
    ensures
        forall|i: int| 0 <= i < s.len() ==> contains_channel(channels_of(s), #[trigger] s[i].channel@),
        forall|k: int|
            0 <= k < channels_of(s).len() ==> exists|i: int|
                0 <= i < s.len() && s[i].channel@ == #[trigger] channels_of(s)[k]@,
    decreases s.len(),
{
    if s.len() == 0 {
    } else {
        let head = s.drop_last();
        lemma_channels_complete(head);
        assert forall|i: int| 0 <= i < s.len() implies contains_channel(
            channels_of(s),
            s[i].channel@,
        ) by {
            if i < head.len() {
                assert(head[i] == s[i]);
                let w = choose|w: int|
                    0 <= w < channels_of(head).len() && channels_of(head)[w]@ == s[i].channel@;
                if contains_channel(channels_of(head), s.last().channel@) {
                    assert(channels_of(s)[w]@ == s[i].channel@);
                } else {
                    assert(channels_of(s)[w]@ == s[i].channel@);
                }
            } else {
                if contains_channel(channels_of(head), s.last().channel@) {
                } else {
                    assert(channels_of(s).last() == s.last().channel);
                }
            }
        }
        assert forall|k: int| 0 <= k < channels_of(s).len() implies exists|i: int|
            0 <= i < s.len() && s[i].channel@ == #[trigger] channels_of(s)[k]@ by {
            if k < channels_of(head).len() {
                let i = choose|i: int|
                    0 <= i < head.len() && head[i].channel@ == channels_of(head)[k]@;
                assert(s[i].channel@ == channels_of(s)[k]@);
            } else {
                assert(s[s.len() - 1].channel@ == channels_of(s)[k]@);
            }
        }
    }
}

/// A channel absent from the list gathered no seconds.
pub proof fn lemma_duration_of_absent(s: Seq<Record>, c: Seq<char>)
    requires
        forall|i: int| 0 <= i < s.len() ==> #[trigger] s[i].channel@ != c,
    ensures
        duration_of(s, c) == 0,
    decreases s.len(),
{
    if s.len() == 0 {
    } else {
        lemma_duration_of_absent(s.drop_last(), c);
    }
}

/// Appending a record adds its seconds to its own channel and to no other.
pub proof fn lemma_duration_of_push(s: Seq<Record>, r: Record, c: Seq<char>)
    ensures
        duration_of(s.push(r), c) == duration_of(s, c) + if r.channel@ == c {
            r.duration_seconds as int
        } else {
            0
        },
{
    assert(s.push(r).drop_last() =~= s);
}

/// Watched seconds are never negative, per channel or in total.
pub proof fn lemma_duration_nonneg(s: Seq<Record>, c: Seq<char>)
    ensures
        0 <= duration_of(s, c),
        0 <= total_duration(s),
    decreases s.len(),
{
    if s.len() == 0 {
    } else {
        lemma_duration_nonneg(s.drop_last(), c);
    }
}

/// No channel gathers more than the whole log.
pub proof fn lemma_duration_le_total(s: Seq<Record>, c: Seq<char>)
    ensures
        duration_of(s, c) <= total_duration(s),
    decreases s.len(),
{
    if s.len() == 0 {
    } else {
        lemma_duration_le_total(s.drop_last(), c);
        lemma_duration_nonneg(s.drop_last(), c);
    }
}

/// The total splits over concatenation.
pub proof fn lemma_total_duration_concat(a: Seq<Record>, b: Seq<Record>)
    ensures
        total_duration(a + b) == total_duration(a) + total_duration(b),
    decreases b.len(),
{
    if b.len() == 0 {
        assert(a + b =~= a);
    } else {
        lemma_total_duration_concat(a, b.drop_last());
        assert((a + b).drop_last() =~= a + b.drop_last());
        assert((a + b).last() == b.last());
    }
}

/// A prefix never gathers more seconds than the whole.
pub proof fn lemma_total_duration_take(s: Seq<Record>, i: int)
    requires
        0 <= i <= s.len(),
    ensures
        total_duration(s.take(i)) <= total_duration(s),
{
    assert(s =~= s.take(i) + s.skip(i));
    lemma_total_duration_concat(s.take(i), s.skip(i));
    lemma_duration_nonneg(s.skip(i), Seq::empty());
}

/// One step of the duration grouping: appending a record bumps its channel's
/// row, or opens a new row of its own seconds.
pub proof fn lemma_duration_pairs_push(s: Seq<Record>, r: Record)
    ensures
        contains_channel(channels_of(s), r.channel@) ==> duration_pairs(s.push(r))
            =~= duration_pairs(s).update(
            channel_index(channels_of(s), r.channel@),
            (
                channels_of(s)[channel_index(channels_of(s), r.channel@)],
                (duration_of(s, r.channel@) + r.duration_seconds) as u64,
            ),
        ),
        !contains_channel(channels_of(s), r.channel@) ==> duration_pairs(s.push(r))
            =~= duration_pairs(s).push((r.channel, r.duration_seconds as u64)),
{
    let cs = channels_of(s);
    let c = r.channel@;
    lemma_channels_push(s, r);
    lemma_channel_index(cs, c);
    lemma_channels_distinct(s);
    if contains_channel(cs, c) {
        let j = channel_index(cs, c);
        assert forall|k: int| 0 <= k < cs.len() && k != j implies cs[k]@ != c by {}
        assert forall|k: int| 0 <= k < cs.len() implies duration_pairs(s.push(r))[k]
            == duration_pairs(s).update(
            j,
            (cs[j], (duration_of(s, c) + r.duration_seconds) as u64),
        )[k] by {
            lemma_duration_of_push(s, r, cs[k]@);
        }
    } else {
        lemma_channels_complete(s);
        assert forall|i: int| 0 <= i < s.len() implies #[trigger] s[i].channel@ != c by {
            if s[i].channel@ == c {
                assert(contains_channel(cs, c));
            }
        }
        lemma_duration_of_absent(s, c);
        assert forall|k: int| 0 <= k < cs.len() + 1 implies duration_pairs(s.push(r))[k]
            == duration_pairs(s).push((r.channel, r.duration_seconds as u64))[k] by {
            if k < cs.len() {
                lemma_duration_of_push(s, r, cs[k]@);
            } else {
                lemma_duration_of_push(s, r, c);
            }
        }
    }
}

/// Whether some record of `s` is the pair (channel `c`, customer `u`).
pub open spec fn has_pair(s: Seq<Record>, c: Seq<char>, u: u32) -> bool {
    exists|k: int| 0 <= k < s.len() && s[k].channel@ == c && s[k].customer_id == u
}

/// How many distinct customers watched channel `c` at least once in `s`:
/// a record counts only when no earlier record already paired its customer
/// with `c`, so the same pair collapses to one however far apart its
/// occurrences stand.
pub open spec fn viewer_count_of(s: Seq<Record>, c: Seq<char>) -> int
    decreases s.len(),
{
    if s.len() == 0 {
        0
    } else {
        viewer_count_of(s.drop_last(), c) + if s.last().channel@ == c && !has_pair(
            s.drop_last(),
            c,
            s.last().customer_id,
        ) {
            1int
        } else {
            0int
        }
    }
}

/// One row per channel of `s`, in first-appearance order: the channel's name
/// and its count of distinct viewers.
pub open spec fn viewer_pairs(s: Seq<Record>) -> Seq<(String, u64)> {
    channels_of(s).map_values(|c: String| (c, viewer_count_of(s, c@) as u64))
}

/// A channel cannot have more distinct viewers than `s` has records.
pub proof fn lemma_viewer_count_bounds(s: Seq<Record>, c: Seq<char>)
    ensures
        0 <= viewer_count_of(s, c) <= s.len(),
    decreases s.len(),
{
    if s.len() == 0 {
    } else {
        lemma_viewer_count_bounds(s.drop_last(), c);
    }
}

/// One step of the viewer grouping: a record of a new channel opens a row at
/// count one; a new customer of a known channel bumps that row; a repeated
/// (channel, customer) pair changes nothing.
pub proof fn lemma_viewer_pairs_push(s: Seq<Record>, r: Record)
    ensures
        !contains_channel(channels_of(s), r.channel@) ==> viewer_pairs(s.push(r)) =~= viewer_pairs(
            s,
        ).push((r.channel, 1u64)),
        contains_channel(channels_of(s), r.channel@) && has_pair(s, r.channel@, r.customer_id)
            ==> viewer_pairs(s.push(r)) =~= viewer_pairs(s),
        contains_channel(channels_of(s), r.channel@) && !has_pair(s, r.channel@, r.customer_id)
            ==> viewer_pairs(s.push(r)) =~= viewer_pairs(s).update(
            channel_index(channels_of(s), r.channel@),
            (
                channels_of(s)[channel_index(channels_of(s), r.channel@)],
                (viewer_count_of(s, r.channel@) + 1) as u64,
            ),
        ),
{
    let cs = channels_of(s);
    let c = r.channel@;
    lemma_channels_push(s, r);
    lemma_channel_index(cs, c);
    lemma_channels_distinct(s);
    assert(s.push(r).drop_last() =~= s);
    assert forall|k: int| 0 <= k < cs.len() implies viewer_count_of(s.push(r), cs[k]@)
        == viewer_count_of(s, cs[k]@) + if cs[k]@ == c && !has_pair(s, c, r.customer_id) {
        1int
    } else {
        0int
    } by {}
    if !contains_channel(cs, c) {
        assert(!has_pair(s, c, r.customer_id)) by {
            if has_pair(s, c, r.customer_id) {
                let w = choose|w: int|
                    0 <= w < s.len() && s[w].channel@ == c && s[w].customer_id == r.customer_id;
                lemma_channels_complete(s);
                assert(contains_channel(cs, s[w].channel@));
            }
        }
        assert(viewer_count_of(s, c) == 0) by {
            lemma_channels_complete(s);
            lemma_viewer_count_absent(s, c);
        }
        assert forall|k: int| 0 <= k < cs.len() + 1 implies viewer_pairs(s.push(r))[k]
            == viewer_pairs(s).push((r.channel, 1u64))[k] by {
            if k < cs.len() {
                assert(cs[k]@ != c);
            }
        }
    } else {
        let j = channel_index(cs, c);
        if has_pair(s, c, r.customer_id) {
            assert forall|k: int| 0 <= k < cs.len() implies viewer_pairs(s.push(r))[k]
                == viewer_pairs(s)[k] by {}
        } else {
            assert forall|k: int| 0 <= k < cs.len() implies viewer_pairs(s.push(r))[k]
                == viewer_pairs(s).update(
                j,
                (cs[j], (viewer_count_of(s, c) + 1) as u64),
            )[k] by {
                if k != j {
                    assert(cs[k]@ != c);
                }
            }
        }
    }
}

/// A channel no record of `s` names has no viewers in `s`.
pub proof fn lemma_viewer_count_absent(s: Seq<Record>, c: Seq<char>)
    requires
        forall|i: int| 0 <= i < s.len() ==> #[trigger] s[i].channel@ != c,
    ensures
        viewer_count_of(s, c) == 0,
    decreases s.len(),
{
    if s.len() == 0 {
    } else {
        lemma_viewer_count_absent(s.drop_last(), c);
    }
}

/// Whether an earlier record (one before position `i`) already pairs record
/// `i`'s customer with its channel.
fn seen_pair(records: &Vec<Record>, i: usize) -> (b: bool)
    requires
        i < records@.len(),
    ensures
        b == has_pair(
            records@.take(i as int),
            records@[i as int].channel@,
            records@[i as int].customer_id,
        ),
{
    let mut j: usize = 0;
    while j < i
        invariant
            j <= i < records@.len(),
            forall|k: int|
                0 <= k < j ==> !(records@[k].channel@ == records@[i as int].channel@
                    && (#[trigger] records@[k]).customer_id == records@[i as int].customer_id),
        decreases i - j,
    {
        if records[j].customer_id == records[i].customer_id && records[j].channel
            == records[i].channel {
            proof {
                assert(records@.take(i as int)[j as int] == records@[j as int]);
            }
            return true;
        }
        j += 1;
    }
    proof {
        assert forall|k: int| 0 <= k < i implies !(records@.take(i as int)[k].channel@
            == records@[i as int].channel@ && (#[trigger] records@.take(
            i as int,
        )[k]).customer_id == records@[i as int].customer_id) by {
            assert(records@.take(i as int)[k] == records@[k]);
        }
    }
    false
}

/// Distinct viewers per channel, one row per channel, sorted so that the
/// largest count comes first; channels with equal counts keep the order in
/// which they first appear in `records`. A customer repeated on the same
/// channel counts once, however far apart the repetitions stand.
pub fn viewer_counts(records: &Vec<Record>) -> (out: Vec<(String, u64)>)
    ensures
        out@ == sort_desc(viewer_pairs(records@)),
{
    let n = records.len();
    let mut pairs: Vec<(String, u64)> = Vec::new();
    let mut i: usize = 0;
    proof {
        assert(records@.take(0) =~= Seq::<Record>::empty());
        assert(viewer_pairs(records@.take(0)) =~= Seq::<(String, u64)>::empty());
    }
    while i < n
        invariant
            n == records@.len(),
            i <= n,
            pairs@ == viewer_pairs(records@.take(i as int)),
        decreases n - i,
    {
        let ghost s = records@.take(i as int);
        let ghost rr = records@[i as int];
        proof {
            assert(records@.take(i as int + 1) =~= s.push(rr));
            lemma_viewer_pairs_push(s, rr);
            lemma_channel_index(channels_of(s), rr.channel@);
            lemma_viewer_count_bounds(s, rr.channel@);
        }
        let dup = seen_pair(records, i);
        if !dup {
            let r = &records[i];
            match find_channel(&pairs, &r.channel) {
                Some(j) => {
                    proof {
                        assert forall|k: int| 0 <= k < channels_of(s).len() implies channels_of(
                            s,
                        )[k] == pairs@[k].0 by {}
                        lemma_channel_index_of_first(channels_of(s), rr.channel@, j as int);
                    }
                    let ghost before = pairs@;
                    let p = pairs.remove(j);
                    let v = p.1 + 1;
                    pairs.insert(j, (p.0, v));
                    proof {
                        assert(pairs@ =~= before.update(
                            j as int,
                            (p.0, (viewer_count_of(s, rr.channel@) + 1) as u64),
                        ));
                    }
                },
                None => {
                    proof {
                        assert(!contains_channel(channels_of(s), rr.channel@)) by {
                            if contains_channel(channels_of(s), rr.channel@) {
                                let w = channel_index(channels_of(s), rr.channel@);
                                assert(pairs@[w].0@ == rr.channel@);
                            }
                        }
                    }
                    pairs.push((r.channel.clone(), 1));
                },
            }
        } else {
            proof {
                assert(contains_channel(channels_of(s), rr.channel@)) by {
                    let w = choose|w: int|
                        0 <= w < s.len() && s[w].channel@ == rr.channel@ && s[w].customer_id
                            == rr.customer_id;
                    lemma_channels_complete(s);
                }
            }
        }
        i += 1;
    }
    proof {
        assert(records@.take(n as int) =~= records@);
    }
    sort_pairs_desc(pairs)
}

/// The first row of `pairs` whose channel reads as `c`, scanned from the
/// front.
fn find_channel(pairs: &Vec<(String, u64)>, c: &String) -> (idx: Option<usize>)
    ensures
        match idx {
            Some(j) => {
                &&& j < pairs@.len()
                &&& pairs@[j as int].0@ == c@
                &&& forall|k: int| 0 <= k < j ==> pairs@[k].0@ != c@
            },
            None => forall|k: int| 0 <= k < pairs@.len() ==> pairs@[k].0@ != c@,
        },
{
    let mut j: usize = 0;
    while j < pairs.len()
        invariant
            j <= pairs@.len(),
            forall|k: int| 0 <= k < j ==> pairs@[k].0@ != c@,
        decreases pairs@.len() - j,
    {
        if pairs[j].0 == *c {
            return Some(j);
        }
        j += 1;
    }
    None
}

/// Total watched seconds per channel, one row per channel, sorted so that the
/// largest total comes first; channels with equal totals keep the order in
/// which they first appear in `records`.
pub fn duration_totals(records: &Vec<Record>) -> (out: Vec<(String, u64)>)
    requires
        total_duration(records@) <= u64::MAX,
    ensures
        out@ == sort_desc(duration_pairs(records@)),
{
    let n = records.len();
    let mut pairs: Vec<(String, u64)> = Vec::new();
    let mut i: usize = 0;
    proof {
        assert(records@.take(0) =~= Seq::<Record>::empty());
        assert(duration_pairs(records@.take(0)) =~= Seq::<(String, u64)>::empty());
    }
    while i < n
        invariant
            n == records@.len(),
            i <= n,
            total_duration(records@) <= u64::MAX,
            pairs@ == duration_pairs(records@.take(i as int)),
        decreases n - i,
    {
        let ghost s = records@.take(i as int);
        let ghost rr = records@[i as int];
        let r = &records[i];
        proof {
            assert(records@.take(i as int + 1) =~= s.push(rr));
            lemma_duration_pairs_push(s, rr);
            lemma_channel_index(channels_of(s), rr.channel@);
            lemma_duration_nonneg(s, rr.channel@);
            lemma_duration_of_push(s, rr, rr.channel@);
            lemma_duration_le_total(s.push(rr), rr.channel@);
            lemma_total_duration_take(records@, i as int + 1);
        }
        match find_channel(&pairs, &r.channel) {
            Some(j) => {
                proof {
                    assert forall|k: int| 0 <= k < channels_of(s).len() implies channels_of(s)[k]
                        == pairs@[k].0 by {}
                    lemma_channel_index_of_first(channels_of(s), rr.channel@, j as int);
                }
                let ghost before = pairs@;
                let p = pairs.remove(j);
                let v = p.1 + (r.duration_seconds as u64);
                pairs.insert(j, (p.0, v));
                proof {
                    assert(pairs@ =~= before.update(
                        j as int,
                        (p.0, (duration_of(s, rr.channel@) + rr.duration_seconds) as u64),
                    ));
                }
            },
            None => {
                proof {
                    assert(!contains_channel(channels_of(s), rr.channel@)) by {
                        if contains_channel(channels_of(s), rr.channel@) {
                            let w = channel_index(channels_of(s), rr.channel@);
                            assert(pairs@[w].0@ == rr.channel@);
                        }
                    }
                }
                pairs.push((r.channel.clone(), r.duration_seconds as u64));
            },
        }
        i += 1;
    }
    proof {
        assert(records@.take(n as int) =~= records@);
    }
    sort_pairs_desc(pairs)
}

/// The duration report as it is shown: each channel beside its total watch
/// time rendered as `days.hours:minutes:seconds`, largest total first.
pub fn duration_report(records: &Vec<Record>) -> (out: Vec<(String, String)>)
    requires
        total_duration(records@) <= u64::MAX,
    ensures
        ({
            let totals = sort_desc(duration_pairs(records@));
            &&& out@.len() == totals.len()
            &&& forall|k: int|
                0 <= k < totals.len() ==> (#[trigger] out@[k]).0 == totals[k].0 && out@[k].1@
                    == crate::duration::spec_render_duration(totals[k].1 as int)
        }),
{
    let mut totals = duration_totals(records);
    let ghost t = totals@;
    let mut out: Vec<(String, String)> = Vec::new();
    while totals.len() > 0
        invariant
            out@.len() + totals@.len() == t.len(),
            totals@ =~= t.skip(out@.len() as int),
            forall|k: int|
                0 <= k < out@.len() ==> (#[trigger] out@[k]).0 == t[k].0 && out@[k].1@
                    == crate::duration::spec_render_duration(t[k].1 as int),
        decreases totals@.len(),
    {
        let ghost m = out@.len() as int;
        let p = totals.remove(0);
        proof {
            assert(p == t[m]);
            assert(totals@ =~= t.skip(m + 1));
        }
        let rendered = crate::duration::render_duration(p.1);
        out.push((p.0, rendered));
    }
    out
}

} // verus!
