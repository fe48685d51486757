use vstd::prelude::*;
use vstd::arithmetic::div_mod::{lemma_div_pos_is_pos, lemma_fundamental_div_mod, lemma_mod_pos_bound};
use crate::record::Record;
use crate::sort::{sort_desc, sort_pairs_desc};

verus! {

/// How many of the busiest windows a load report keeps.
pub const WINDOW_LIMIT: usize = 20;

/// The index of the 5-minute window a record's start falls in: its timestamp
/// truncated to whole minutes, then divided by five.
pub open spec fn rec_bucket(r: Record) -> int {
    r.timestamp.epoch_seconds as int / 60 / 5
}

/// The epoch second the record's window starts at. A record exactly on a
/// window boundary belongs to the window that starts there.
pub open spec fn rec_start(r: Record) -> u64 {
    (rec_bucket(r) * 300) as u64
}

/// A window starts at or before every record it holds, so its start fits the
/// timestamp's type.
pub proof fn lemma_rec_start_bounds(r: Record)
    ensures
        0 <= rec_bucket(r) * 300 <= r.timestamp.epoch_seconds,
        rec_start(r) == rec_bucket(r) * 300,
{
    let e = r.timestamp.epoch_seconds as int;
    let q1 = e / 60;
    let q2 = q1 / 5;
    lemma_div_pos_is_pos(e, 60);
    lemma_div_pos_is_pos(q1, 5);
    lemma_fundamental_div_mod(e, 60);
    lemma_fundamental_div_mod(q1, 5);
    lemma_mod_pos_bound(e, 60);
    lemma_mod_pos_bound(q1, 5);
    assert(e == 60 * (5 * q2 + (q1 % 5)) + (e % 60));
    assert(60 * (5 * q2 + (q1 % 5)) == 300 * q2 + 60 * (q1 % 5)) by (nonlinear_arith);
    assert(q2 * 300 <= e);
}

/// The distinct window starts of `s`, each in the order its first record
/// stands in `s`.
pub open spec fn starts_of(s: Seq<Record>) -> Seq<u64>
    decreases s.len(),
{
    if s.len() == 0 {
        Seq::empty()
    } else {
        let init = starts_of(s.drop_last());
        if init.contains(rec_start(s.last())) {
            init
        } else {
            init.push(rec_start(s.last()))
        }
    }
}

/// How many records of `s` start inside the window beginning at `b`.
pub open spec fn bucket_count_of(s: Seq<Record>, b: u64) -> int
    decreases s.len(),
{
    if s.len() == 0 {
        0
    } else {
        bucket_count_of(s.drop_last(), b) + if rec_start(s.last()) == b {
            1int
        } else {
            0int
        }
    }
}

/// One row per non-empty window of `s`, in first-appearance order: the
/// window's start and how many records fall in it.
pub open spec fn bucket_pairs(s: Seq<Record>) -> Seq<(u64, u64)> {
    starts_of(s).map_values(|b: u64| (b, bucket_count_of(s, b) as u64))
}

/// A window cannot hold more records than `s` has.
pub proof fn lemma_bucket_count_bounds(s: Seq<Record>, b: u64)
    ensures
        0 <= bucket_count_of(s, b) <= s.len(),
    decreases s.len(),
{
    if s.len() == 0 {
    } else {
        lemma_bucket_count_bounds(s.drop_last(), b);
    }
}

/// A window no record of `s` starts in holds no records.
pub proof fn lemma_bucket_count_absent(s: Seq<Record>, b: u64)
    requires
        forall|i: int| 0 <= i < s.len() ==> rec_start(#[trigger] s[i]) != b,
    ensures
        bucket_count_of(s, b) == 0,
    decreases s.len(),
{
    if s.len() == 0 {
    } else {
        lemma_bucket_count_absent(s.drop_last(), b);
    }
}

/// Every record's window start is listed, and every listed start is some
/// record's.
pub proof fn lemma_starts_complete(s: Seq<Record>)
    ensures
        forall|i: int| 0 <= i < s.len() ==> starts_of(s).contains(rec_start(#[trigger] s[i])),
        forall|k: int|
            0 <= k < starts_of(s).len() ==> exists|i: int|
                0 <= i < s.len() && rec_start(s[i]) == #[trigger] starts_of(s)[k],
    decreases s.len(),
{
    if s.len() == 0 {
    } else {
        let head = s.drop_last();
        lemma_starts_complete(head);
        assert forall|i: int| 0 <= i < s.len() implies starts_of(s).contains(
            rec_start(s[i]),
        ) by {
            if i < head.len() {
                assert(head[i] == s[i]);
                let w = choose|w: int|
                    0 <= w < starts_of(head).len() && starts_of(head)[w] == rec_start(head[i]);
                assert(starts_of(s)[w] == rec_start(s[i]));
            } else {
                if !starts_of(head).contains(rec_start(s.last())) {
                    assert(starts_of(s).last() == rec_start(s.last()));
                }
            }
        }
        assert forall|k: int| 0 <= k < starts_of(s).len() implies exists|i: int|
            0 <= i < s.len() && rec_start(s[i]) == #[trigger] starts_of(s)[k] by {
            if k < starts_of(head).len() {
                let i = choose|i: int|
                    0 <= i < head.len() && rec_start(head[i]) == starts_of(head)[k];
                assert(rec_start(s[i]) == starts_of(s)[k]);
            } else {
                assert(rec_start(s[s.len() - 1]) == starts_of(s)[k]);
            }
        }
    }
}

/// The start list never repeats a window.
pub proof fn lemma_starts_distinct(s: Seq<Record>)
    ensures
        forall|k1: int, k2: int|
            0 <= k1 < k2 < starts_of(s).len() ==> starts_of(s)[k1] != starts_of(s)[k2],
    decreases s.len(),
{
    if s.len() == 0 {
    } else {
        lemma_starts_distinct(s.drop_last());
        let init = starts_of(s.drop_last());
        let bs = starts_of(s);
        if init.contains(rec_start(s.last())) {
        } else {
            assert forall|k1: int, k2: int| 0 <= k1 < k2 < bs.len() implies bs[k1] != bs[k2] by {
                if k2 == bs.len() - 1 {
                    assert(bs[k1] == init[k1]);
                    if init[k1] == rec_start(s.last()) {
                        assert(init.contains(rec_start(s.last())));
                    }
                } else {
                    assert(bs[k1] == init[k1] && bs[k2] == init[k2]);
                }
            }
        }
    }
}

/// One step of the load grouping: a record in a new window opens a row at
/// count one, a record in a known window bumps that row.
pub proof fn lemma_bucket_pairs_push(s: Seq<Record>, r: Record)
    ensures
        !starts_of(s).contains(rec_start(r)) ==> bucket_pairs(s.push(r)) =~= bucket_pairs(s).push(
            (rec_start(r), 1u64),
        ),
        starts_of(s).contains(rec_start(r)) ==> forall|j: int|
            0 <= j < starts_of(s).len() && starts_of(s)[j] == rec_start(r) ==> bucket_pairs(
                s.push(r),
            ) =~= bucket_pairs(s).update(
                j,
                (rec_start(r), (bucket_count_of(s, rec_start(r)) + 1) as u64),
            ),
{
    let bs = starts_of(s);
    let b = rec_start(r);
    assert(s.push(r).drop_last() =~= s);
    lemma_starts_distinct(s);
    assert forall|k: int| 0 <= k < bs.len() implies bucket_count_of(s.push(r), bs[k])
        == bucket_count_of(s, bs[k]) + if bs[k] == b {
        1int
    } else {
        0int
    } by {}
    if !bs.contains(b) {
        assert(bucket_count_of(s, b) == 0) by {
            lemma_starts_complete(s);
            assert forall|i: int| 0 <= i < s.len() implies rec_start(#[trigger] s[i]) != b by {
                if rec_start(s[i]) == b {
                    assert(bs.contains(rec_start(s[i])));
                }
            }
            lemma_bucket_count_absent(s, b);
        }
        assert forall|k: int| 0 <= k < bs.len() + 1 implies bucket_pairs(s.push(r))[k]
            == bucket_pairs(s).push((b, 1u64))[k] by {
            if k < bs.len() {
                assert(bs[k] != b);
            }
        }
    } else {
        assert forall|j: int|
            0 <= j < bs.len() && bs[j] == b implies bucket_pairs(s.push(r)) =~= bucket_pairs(
            s,
        ).update(j, (b, (bucket_count_of(s, b) + 1) as u64)) by {
            assert forall|k: int| 0 <= k < bs.len() implies bucket_pairs(s.push(r))[k]
                == bucket_pairs(s).update(j, (b, (bucket_count_of(s, b) + 1) as u64))[k] by {
                if k != j {
                    assert(bs[k] != b);
                }
            }
        }
    }
}

/// The first row of `pairs` for window start `b`, scanned from the front.
fn find_start(pairs: &Vec<(u64, u64)>, b: u64) -> (idx: Option<usize>)
    ensures
        match idx {
            Some(j) => {
                &&& j < pairs@.len()
                &&& pairs@[j as int].0 == b
                &&& forall|k: int| 0 <= k < j ==> pairs@[k].0 != b
            },
            None => forall|k: int| 0 <= k < pairs@.len() ==> pairs@[k].0 != b,
        },
{
    let mut j: usize = 0;
    while j < pairs.len()
        invariant
            j <= pairs@.len(),
            forall|k: int| 0 <= k < j ==> pairs@[k].0 != b,
        decreases pairs@.len() - j,
    {
        if pairs[j].0 == b {
            return Some(j);
        }
        j += 1;
    }
    None
}

/// The epoch second the window of record `i` starts at.
fn window_start(records: &Vec<Record>, i: usize) -> (b: u64)
    requires
        i < records@.len(),
    ensures
        b == rec_start(records@[i as int]),
{
    proof {
        lemma_rec_start_bounds(records@[i as int]);
    }
    let minutes = records[i].timestamp.epoch_seconds / 60;
    (minutes / 5) * 300
}

/// The busiest 5-minute windows: one row per non-empty window, sorted so that
/// the highest count comes first, truncated to the twenty busiest. Windows
/// with equal counts keep the order in which they first appear in `records`.
pub fn load_windows(records: &Vec<Record>) -> (out: Vec<(u64, u64)>)
    ensures
        ({
            let sorted = sort_desc(bucket_pairs(records@));
            out@ == sorted.take(
                if sorted.len() < 20 {
                    sorted.len() as int
                } else {
                    20
                },
            )
        }),
{
    let n = records.len();
    let mut pairs: Vec<(u64, u64)> = Vec::new();
    let mut i: usize = 0;
    proof {
        assert(records@.take(0) =~= Seq::<Record>::empty());
        assert(bucket_pairs(records@.take(0)) =~= Seq::<(u64, u64)>::empty());
    }
    while i < n
        invariant
            n == records@.len(),
            i <= n,
            pairs@ == bucket_pairs(records@.take(i as int)),
        decreases n - i,
    {
        let ghost s = records@.take(i as int);
        let ghost rr = records@[i as int];
        proof {
            assert(records@.take(i as int + 1) =~= s.push(rr));
            lemma_bucket_pairs_push(s, rr);
            lemma_bucket_count_bounds(s, rec_start(rr));
        }
        let b = window_start(records, i);
        match find_start(&pairs, b) {
            Some(j) => {
                proof {
                    assert(starts_of(s)[j as int] == b);
                }
                let ghost before = pairs@;
                let p = pairs.remove(j);
                let v = p.1 + 1;
                pairs.insert(j, (b, v));
                proof {
                    assert(pairs@ =~= before.update(
                        j as int,
                        (b, (bucket_count_of(s, b) + 1) as u64),
                    ));
                }
            },
            None => {
                proof {
                    assert(!starts_of(s).contains(b)) by {
                        if starts_of(s).contains(b) {
                            let w = choose|w: int|
                                0 <= w < starts_of(s).len() && starts_of(s)[w] == b;
                            assert(pairs@[w].0 == b);
                        }
                    }
                }
                pairs.push((b, 1));
            },
        }
        i += 1;
    }
    proof {
        assert(records@.take(n as int) =~= records@);
    }
    let mut sorted = sort_pairs_desc(pairs);
    proof {
        crate::sort::lemma_sort_desc_props(bucket_pairs(records@));
    }
    if sorted.len() > WINDOW_LIMIT {
        sorted.truncate(WINDOW_LIMIT);
        proof {
            assert(sorted@ =~= sort_desc(bucket_pairs(records@)).take(20));
        }
    } else {
        proof {
            assert(sorted@ =~= sort_desc(bucket_pairs(records@)).take(sorted@.len() as int));
        }
    }
    sorted
}

} // verus!
