//! The output order of a ranked scan, and the best rows kept while scanning.
//!
//! A score is held as the bit pattern of its number. Numbers order as IEEE 754
//! orders all of them: negative ones before positive ones, and those that are
//! not a number at either end.

use crate::tid::Tid;
use vstd::prelude::*;

verus! {

/// The bit pattern of positive infinity.
pub const SCORE_MAX: u32 = 0x7f80_0000;

/// The bit patterns of the non-negative numbers.
pub open spec fn is_score(bits: u32) -> bool {
    bits <= SCORE_MAX
}

/// A scored location.
#[derive(Clone, Copy, Debug, PartialEq, Eq, Structural)]
pub struct Row {
    pub score: u32,
    pub tid: Tid,
}

/// The place of a bit pattern in the total order of the numbers. The highest
/// bit is the sign, and negative numbers order against their patterns.
pub open spec fn number_order(bits: u32) -> int {
    if bits < 0x8000_0000 {
        bits as int
    } else {
        0x7fff_ffff - bits
    }
}

/// The place of a bit pattern in the total order of the numbers.
pub fn place_of(bits: u32) -> (place: i64)
    ensures
        place == number_order(bits),
{
    if bits < 0x8000_0000 {
        bits as i64
    } else {
        0x7fff_ffff - bits as i64
    }
}

/// The larger of two bit patterns' numbers, where `max` is one that is not
/// negative: a pattern of a negative number, or of none, is not larger.
pub open spec fn larger_score(max: u32, score: u32) -> u32 {
    if is_score(score) && score > max {
        score
    } else {
        max
    }
}

/// The larger of two bit patterns' numbers, where `max` is not negative.
pub fn larger(max: u32, score: u32) -> (found: u32)
    ensures
        found == larger_score(max, score),
{
    if score <= SCORE_MAX && score > max {
        score
    } else {
        max
    }
}

/// Descending score, then heap order, so ties are stable.
pub open spec fn ranks_before(a: Row, b: Row) -> bool {
    number_order(a.score) > number_order(b.score) || (a.score == b.score && a.tid.key()
        < b.tid.key())
}

/// Whether `a` comes before `b` in the output of a ranked scan.
pub fn rank(a: Row, b: Row) -> (earlier: bool)
    ensures
        earlier == ranks_before(a, b),
{
    place_of(a.score) > place_of(b.score) || (a.score == b.score && a.tid.before(b.tid))
}

/// No row of `rows` comes before one to its left.
pub open spec fn in_rank_order(rows: Seq<Row>) -> bool {
    forall|i: int, j: int| 0 <= i < j < rows.len() ==> !ranks_before(rows[j], rows[i])
}

/// `rows` with `row` put behind every row it does not come before.
pub open spec fn inserted(rows: Seq<Row>, row: Row) -> Seq<Row>
    decreases rows.len(),
{
    if rows.len() == 0 || !ranks_before(row, rows.last()) {
        rows.push(row)
    } else {
        inserted(rows.drop_last(), row).push(rows.last())
    }
}

/// All of `rows`, in output order.
pub open spec fn ranked(rows: Seq<Row>) -> Seq<Row>
    decreases rows.len(),
{
    if rows.len() == 0 {
        rows
    } else {
        inserted(ranked(rows.drop_last()), rows.last())
    }
}

/// Whether a row with score `score` at `tid` would enter the `k` best rows
/// `best`: there are fewer than `k`, or it comes before the last of them.
pub open spec fn enters(k: nat, best: Seq<Row>, score: u32, tid: Tid) -> bool {
    best.len() < k || (best.len() > 0 && ranks_before(Row { score, tid }, best.last()))
}

/// The `k` best rows once `row` has been considered.
pub open spec fn offered(k: nat, best: Seq<Row>, row: Row) -> Seq<Row> {
    if best.len() < k {
        inserted(best, row)
    } else if best.len() > 0 && ranks_before(row, best.last()) {
        inserted(best, row).drop_last()
    } else {
        best
    }
}

/// The `k` best rows once each of `rows` has been considered.
pub open spec fn offered_all(k: nat, best: Seq<Row>, rows: Seq<Row>) -> Seq<Row>
    decreases rows.len(),
{
    if rows.len() == 0 {
        best
    } else {
        offered(k, offered_all(k, best, rows.drop_last()), rows.last())
    }
}

/// At most the first `k` of `rows`.
pub open spec fn at_most(k: nat, rows: Seq<Row>) -> Seq<Row> {
    if k < rows.len() {
        rows.take(k as int)
    } else {
        rows
    }
}

pub proof fn lemma_inserted(rows: Seq<Row>, row: Row)
    ensures
        inserted(rows, row).len() == rows.len() + 1,
        inserted(rows, row).to_multiset() == rows.to_multiset().insert(row),
        in_rank_order(rows) ==> in_rank_order(inserted(rows, row)),
    decreases rows.len(),
{
    broadcast use vstd::seq_lib::group_to_multiset_ensures;

    if rows.len() == 0 || !ranks_before(row, rows.last()) {
        assert(inserted(rows, row) == rows.push(row));
        if in_rank_order(rows) && rows.len() > 0 {
            assert forall|i: int| 0 <= i < rows.len() implies !ranks_before(row, rows[i]) by {
                if i < rows.len() - 1 {
                    assert(!ranks_before(rows[rows.len() - 1], rows[i]));
                }
            }
        }
    } else {
        let rest = rows.drop_last();
        lemma_inserted(rest, row);
        assert(rest.push(rows.last()) =~= rows);
        assert(inserted(rows, row).to_multiset() =~= rows.to_multiset().insert(row));
        if in_rank_order(rows) {
            let all = inserted(rest, row);
            assert forall|i: int| 0 <= i < all.len() implies !ranks_before(rows.last(), all[i]) by {
                assert(all.to_multiset().contains(all[i]));
                if all[i] != row {
                    assert(rest.to_multiset().contains(all[i]));
                    let j = choose|j: int| 0 <= j < rest.len() && rest[j] == all[i];
                    assert(rest.contains(all[i]));
                    assert(rows[j] == all[i]);
                }
            }
        }
    }
}

/// Ranking keeps every row, as often as it occurs, and leaves no row behind
/// one that it comes before.
pub proof fn law_ranked(rows: Seq<Row>)
    ensures
        in_rank_order(ranked(rows)),
        ranked(rows).to_multiset() == rows.to_multiset(),
        ranked(rows).len() == rows.len(),
    decreases rows.len(),
{
    broadcast use vstd::seq_lib::group_to_multiset_ensures;

    if rows.len() > 0 {
        law_ranked(rows.drop_last());
        lemma_inserted(ranked(rows.drop_last()), rows.last());
        assert(rows.drop_last().push(rows.last()) =~= rows);
    }
}

/// Two sequences in output order that hold the same rows are the same.
pub proof fn lemma_order_unique(a: Seq<Row>, b: Seq<Row>)
    requires
        in_rank_order(a),
        in_rank_order(b),
        a.to_multiset() == b.to_multiset(),
    ensures
        a == b,
    decreases a.len(),
{
    broadcast use vstd::seq_lib::group_to_multiset_ensures;
    broadcast use crate::tid::lemma_key_injective;

    assert(a.len() == a.to_multiset().len());
    assert(b.len() == b.to_multiset().len());
    if a.len() > 0 {
        assert(a.to_multiset().contains(a.last()));
        assert(b.contains(a.last()));
        assert(b.to_multiset().contains(b.last()));
        assert(a.contains(b.last()));
        let i = choose|i: int| 0 <= i < b.len() && b[i] == a.last();
        let j = choose|j: int| 0 <= j < a.len() && a[j] == b.last();
        assert(!ranks_before(b.last(), a.last())) by {
            if i < b.len() - 1 {
                assert(!ranks_before(b[b.len() - 1], b[i]));
            }
        }
        assert(!ranks_before(a.last(), b.last())) by {
            if j < a.len() - 1 {
                assert(!ranks_before(a[a.len() - 1], a[j]));
            }
        }
        assert(a.last().tid.key() == b.last().tid.key());
        assert(a.last() == b.last());
        assert(a.drop_last().push(a.last()) =~= a);
        assert(b.drop_last().push(b.last()) =~= b);
        assert(a.drop_last().to_multiset() =~= a.to_multiset().remove(a.last()));
        assert(b.drop_last().to_multiset() =~= b.to_multiset().remove(b.last()));
        lemma_order_unique(a.drop_last(), b.drop_last());
        assert(a =~= b);
    } else {
        assert(a =~= b);
    }
}

/// The output order of rows does not depend on the order they came in.
pub proof fn law_ranked_ignores_arrival(a: Seq<Row>, b: Seq<Row>)
    requires
        a.to_multiset() == b.to_multiset(),
    ensures
        ranked(a) == ranked(b),
{
    law_ranked(a);
    law_ranked(b);
    lemma_order_unique(ranked(a), ranked(b));
}

proof fn lemma_offered_prefix(k: nat, all: Seq<Row>, row: Row)
    requires
        in_rank_order(all),
    ensures
        offered(k, at_most(k, all), row) == at_most(k, inserted(all, row)),
    decreases all.len(),
{
    lemma_inserted(all, row);
    if all.len() <= k {
        assert(at_most(k, all) == all);
        if all.len() < k {
        } else if all.len() > 0 && ranks_before(row, all.last()) {
            assert(inserted(all, row).drop_last() =~= inserted(all, row).take(k as int));
        } else {
            assert(all.len() > 0 ==> inserted(all, row) == all.push(row));
            assert(inserted(all, row).take(k as int) =~= all);
        }
    } else {
        let rest = all.drop_last();
        lemma_inserted(rest, row);
        assert(at_most(k, rest) =~= at_most(k, all)) by {
            assert(rest.take(k as int) =~= all.take(k as int));
        }
        lemma_offered_prefix(k, rest, row);
        if ranks_before(row, all.last()) {
            assert(inserted(all, row) == inserted(rest, row).push(all.last()));
            assert(inserted(all, row).take(k as int) =~= inserted(rest, row).take(k as int));
        } else {
            assert(inserted(all, row) == all.push(row));
            assert(inserted(all, row).take(k as int) =~= all.take(k as int));
            let best = all.take(k as int);
            if k > 0 {
                assert(best.last() == all[k - 1]);
                assert(!ranks_before(all.last(), all[k - 1]));
            }
        }
    }
}

/// Considering rows one by one and keeping the best `k` gives the first `k`
/// of all of them in output order.
pub proof fn law_offered_all_is_top(k: nat, rows: Seq<Row>)
    ensures
        offered_all(k, Seq::empty(), rows) == at_most(k, ranked(rows)),
    decreases rows.len(),
{
    if rows.len() > 0 {
        law_offered_all_is_top(k, rows.drop_last());
        law_ranked(rows.drop_last());
        lemma_offered_prefix(k, ranked(rows.drop_last()), rows.last());
    } else {
        assert(at_most(k, ranked(rows)) =~= offered_all(k, Seq::empty(), rows));
    }
}

pub proof fn lemma_offered_order(k: nat, best: Seq<Row>, row: Row)
    requires
        in_rank_order(best),
        best.len() <= k,
    ensures
        in_rank_order(offered(k, best, row)),
        offered(k, best, row).len() <= k,
        best.len() <= offered(k, best, row).len(),
{
    lemma_inserted(best, row);
}

pub proof fn lemma_offered_all_order(k: nat, best: Seq<Row>, rows: Seq<Row>)
    requires
        in_rank_order(best),
        best.len() <= k,
    ensures
        in_rank_order(offered_all(k, best, rows)),
        offered_all(k, best, rows).len() <= k,
    decreases rows.len(),
{
    if rows.len() > 0 {
        lemma_offered_all_order(k, best, rows.drop_last());
        lemma_offered_order(k, offered_all(k, best, rows.drop_last()), rows.last());
    }
}

pub proof fn lemma_offered_all_concat(k: nat, best: Seq<Row>, a: Seq<Row>, b: Seq<Row>)
    ensures
        offered_all(k, best, a + b) == offered_all(k, offered_all(k, best, a), b),
    decreases b.len(),
{
    if b.len() == 0 {
        assert(a + b =~= a);
    } else {
        assert((a + b).drop_last() =~= a + b.drop_last());
        lemma_offered_all_concat(k, best, a, b.drop_last());
    }
}

/// Considers `row` for the `k` best rows, which `best` holds in output order.
pub fn offer(k: usize, best: &mut Vec<Row>, row: Row)
    requires
        in_rank_order(old(best)@),
        old(best).len() <= k,
    ensures
        final(best)@ == offered(k as nat, old(best)@, row),
        in_rank_order(final(best)@),
        final(best).len() == (if old(best).len() < k {
            old(best).len() + 1
        } else {
            k as int
        }),
{
    proof {
        lemma_offered_order(k as nat, best@, row);
    }
    let len: usize = best.len();
    if len < k {
        insert(best, row);
    } else if len > 0 && rank(row, best[len - 1]) {
        insert(best, row);
        let _ = best.pop();
    }
}

fn insert(rows: &mut Vec<Row>, row: Row)
    ensures
        final(rows)@ == inserted(old(rows)@, row),
        final(rows).len() == old(rows).len() + 1,
{
    let ghost before = rows@;
    let mut at: usize = rows.len();
    proof {
        assert(before.take(at as int) =~= before);
        assert(inserted(before, row) + before.skip(at as int) =~= inserted(before, row));
    }
    while at > 0 && rank(row, rows[at - 1])
        invariant
            at <= rows.len(),
            rows@ == before,
            inserted(before, row) == inserted(before.take(at as int), row) + before.skip(at as int),
        decreases at,
    {
        proof {
            let head = before.take(at as int);
            assert(head.last() == before[at - 1]);
            assert(head.drop_last() =~= before.take(at - 1));
            assert(seq![before[at - 1]] + before.skip(at as int) =~= before.skip(at - 1));
            assert(inserted(head.drop_last(), row).push(head.last()) + before.skip(at as int)
                =~= inserted(before.take(at - 1), row) + before.skip(at - 1));
        }
        at = at - 1;
    }
    proof {
        let head = before.take(at as int);
        assert(head.len() > 0 ==> head.last() == before[at - 1]);
        assert(before.insert(at as int, row) =~= head.push(row) + before.skip(at as int));
    }
    rows.insert(at, row);
}

/// Two runs of rows in output order, merged into one.
fn merge(left: &Vec<Row>, right: &Vec<Row>) -> (merged: Vec<Row>)
    requires
        in_rank_order(left@),
        in_rank_order(right@),
    ensures
        in_rank_order(merged@),
        merged@.to_multiset() == left@.to_multiset().add(right@.to_multiset()),
{
    let mut merged: Vec<Row> = Vec::new();
    let mut i: usize = 0;
    let mut j: usize = 0;
    proof {
        assert(left@.take(0) =~= Seq::empty());
        assert(right@.take(0) =~= Seq::empty());
        broadcast use vstd::seq_lib::group_to_multiset_ensures;
        assert(merged@.to_multiset() =~= left@.take(0).to_multiset().add(
            right@.take(0).to_multiset(),
        ));
    }
    while i < left.len() || j < right.len()
        invariant
            in_rank_order(left@),
            in_rank_order(right@),
            i <= left.len(),
            j <= right.len(),
            in_rank_order(merged@),
            merged@.to_multiset() == left@.take(i as int).to_multiset().add(
                right@.take(j as int).to_multiset(),
            ),
            forall|x: int, y: int|
                0 <= x < merged.len() && i <= y < left.len() ==> !ranks_before(
                    #[trigger] left@[y],
                    #[trigger] merged@[x],
                ),
            forall|x: int, y: int|
                0 <= x < merged.len() && j <= y < right.len() ==> !ranks_before(
                    #[trigger] right@[y],
                    #[trigger] merged@[x],
                ),
        decreases left.len() - i + right.len() - j,
    {
        broadcast use vstd::seq_lib::group_to_multiset_ensures;

        if j == right.len() || (i < left.len() && !rank(right[j], left[i])) {
            merged.push(left[i]);
            proof {
                assert(left@.take(i + 1) =~= left@.take(i as int).push(left@[i as int]));
                assert(merged@.to_multiset() =~= left@.take(i + 1).to_multiset().add(
                    right@.take(j as int).to_multiset(),
                ));
                assert forall|y: int| j <= y < right.len() implies !ranks_before(
                    #[trigger] right@[y],
                    left@[i as int],
                ) by {
                    if y > j {
                        assert(!ranks_before(right@[y], right@[j as int]));
                    }
                }
            }
            i = i + 1;
        } else {
            merged.push(right[j]);
            proof {
                assert(right@.take(j + 1) =~= right@.take(j as int).push(right@[j as int]));
                assert(merged@.to_multiset() =~= left@.take(i as int).to_multiset().add(
                    right@.take(j + 1).to_multiset(),
                ));
                assert forall|y: int| i <= y < left.len() implies !ranks_before(
                    #[trigger] left@[y],
                    right@[j as int],
                ) by {
                    if y > i {
                        assert(!ranks_before(left@[y], left@[i as int]));
                    }
                }
            }
            j = j + 1;
        }
    }
    proof {
        assert(left@.take(i as int) =~= left@);
        assert(right@.take(j as int) =~= right@);
    }
    merged
}

fn sort_range(rows: &Vec<Row>, from: usize, to: usize) -> (sorted: Vec<Row>)
    requires
        from <= to <= rows.len(),
    ensures
        in_rank_order(sorted@),
        sorted@.to_multiset() == rows@.subrange(from as int, to as int).to_multiset(),
    decreases to - from,
{
    if to - from <= 1 {
        let mut sorted: Vec<Row> = Vec::new();
        if from < to {
            sorted.push(rows[from]);
        }
        proof {
            assert(sorted@ =~= rows@.subrange(from as int, to as int));
        }
        return sorted;
    }
    let middle: usize = from + (to - from) / 2;
    let left = sort_range(rows, from, middle);
    let right = sort_range(rows, middle, to);
    proof {
        let a = rows@.subrange(from as int, middle as int);
        let b = rows@.subrange(middle as int, to as int);
        assert(rows@.subrange(from as int, to as int) =~= a + b);
        vstd::seq_lib::lemma_multiset_commutative(a, b);
    }
    merge(&left, &right)
}

/// All of `rows`, in output order.
pub fn sort_rows(rows: &Vec<Row>) -> (sorted: Vec<Row>)
    ensures
        sorted@ == ranked(rows@),
{
    let sorted = sort_range(rows, 0, rows.len());
    proof {
        assert(rows@.subrange(0, rows@.len() as int) =~= rows@);
        law_ranked(rows@);
        lemma_order_unique(sorted@, ranked(rows@));
    }
    sorted
}

} // verus!
