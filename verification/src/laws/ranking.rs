//! Which rows come first.

use crate::ranking::{at_most, law_ranked, larger_score, ranked, ranks_before, Row};
use crate::tid::Tid;
use vstd::prelude::*;

verus! {

/// The pattern is of a number with a minus.
pub open spec fn is_negative(bits: u32) -> bool {
    bits >= 0x8000_0000
}

/// The number of the first pattern is the larger one: without a minus the larger
/// pattern is, with a minus the smaller one, and a number without a minus is
/// larger than one with it.
pub open spec fn is_larger(a: u32, b: u32) -> bool {
    if is_negative(a) {
        is_negative(b) && a < b
    } else {
        is_negative(b) || a > b
    }
}

/// The first location comes before the second in the table: in an earlier block,
/// or in the same one at an earlier place.
pub open spec fn is_earlier(a: Tid, b: Tid) -> bool {
    a.block < b.block || (a.block == b.block && a.offset < b.offset)
}

/// The first row is the better one: it has the larger score or, with the same
/// score, the earlier location.
pub open spec fn is_better(a: Row, b: Row) -> bool {
    is_larger(a.score, b.score) || (a.score == b.score && is_earlier(a.tid, b.tid))
}

/// Rows rank by their score and then by their location.
pub proof fn law_better_rows_rank_first(a: Row, b: Row)
    ensures
        ranks_before(a, b) <==> is_better(a, b),
        !(is_better(a, b) && is_better(b, a)),
        a != b ==> is_better(a, b) || is_better(b, a),
{
    assert(a.tid.key() < b.tid.key() <==> is_earlier(a.tid, b.tid));
    assert(b.tid.key() < a.tid.key() <==> is_earlier(b.tid, a.tid));
}

/// The best `k` of some rows are in order, are as many as there are up to `k`,
/// are among the rows, and no row that is left out is better than one of them.
pub proof fn law_the_best_rows_are_kept(k: nat, rows: Seq<Row>)
    ensures
        ({
            let top = at_most(k, ranked(rows));
            &&& top.len() == if rows.len() < k {
                rows.len()
            } else {
                k
            }
            &&& forall|i: int, j: int| 0 <= i < j < top.len() ==> !is_better(top[j], top[i])
            &&& forall|row: Row| #[trigger]
                top.to_multiset().count(row) <= rows.to_multiset().count(row)
            &&& forall|row: Row, i: int|
                #![trigger rows.to_multiset().count(row), top[i]]
                0 <= i < top.len() && top.to_multiset().count(row) < rows.to_multiset().count(row)
                    ==> !is_better(row, top[i])
        }),
{
    broadcast use vstd::seq_lib::group_to_multiset_ensures;

    law_ranked(rows);
    let all = ranked(rows);
    let top = at_most(k, all);
    let rest = if k < all.len() {
        all.skip(k as int)
    } else {
        Seq::empty()
    };
    assert(top + rest =~= all);
    vstd::seq_lib::lemma_multiset_commutative(top, rest);
    assert forall|i: int, j: int| 0 <= i < j < all.len() implies !is_better(all[j], all[i]) by {
        law_better_rows_rank_first(all[j], all[i]);
        assert(!ranks_before(all[j], all[i]));
    }
    assert forall|i: int, j: int| 0 <= i < j < top.len() implies !is_better(top[j], top[i]) by {
        assert(top[i] == all[i] && top[j] == all[j]);
    }
    assert(rows.to_multiset() == top.to_multiset().add(rest.to_multiset()));
    assert forall|row: Row| #[trigger] top.to_multiset().count(row) <= rows.to_multiset().count(
        row,
    ) by {}
    assert forall|row: Row, i: int|
        #![trigger rows.to_multiset().count(row), top[i]]
        0 <= i < top.len() && top.to_multiset().count(row) < rows.to_multiset().count(
            row,
        ) implies !is_better(row, top[i]) by {
        assert(rest.to_multiset().count(row) > 0);
        assert(rest.to_multiset().contains(row));
        assert(rest.contains(row));
        let j = choose|j: int| 0 <= j < rest.len() && rest[j] == row;
        assert(all[k + j] == row && all[i] == top[i]);
    }
}

/// The larger of two scores is one of them, and is not smaller than the other.
pub proof fn law_the_larger_score(max: u32, score: u32)
    requires
        !is_negative(max),
        max <= 0x7f80_0000,
        score <= 0x7f80_0000 || is_negative(score),
    ensures
        larger_score(max, score) == max || larger_score(max, score) == score,
        !is_larger(max, larger_score(max, score)),
        !is_larger(score, larger_score(max, score)),
{
}

} // verus!
