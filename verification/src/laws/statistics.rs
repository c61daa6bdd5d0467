//! What an index counts of its terms.

use crate::statistics::{
    counts_of, documents_upto, field_length_upto, frequency_upto, immutable_upto, kept_upto,
    length_upto, Retention, SourceCounts, TermCounts,
};
use vstd::prelude::*;

verus! {

/// Numbers added up, the first one last.
pub open spec fn added(values: Seq<nat>) -> nat
    decreases values.len(),
{
    if values.len() == 0 {
        0
    } else {
        values[0] + added(values.skip(1))
    }
}

pub(crate) proof fn lemma_added_push(values: Seq<nat>, value: nat)
    ensures
        added(values.push(value)) == added(values) + value,
    decreases values.len(),
{
    let all = values.push(value);
    if values.len() == 0 {
        assert(all.skip(1) =~= Seq::empty());
        assert(added(all.skip(1)) == 0);
    } else {
        assert(all.skip(1) =~= values.skip(1).push(value));
        lemma_added_push(values.skip(1), value);
    }
}

/// The documents of an index are those of its sources added up, and so are
/// their lengths, the lengths of their fields, and the documents that hold a
/// term.
pub proof fn law_counts_add_up(sources: Seq<SourceCounts>, term: int, field: int, upto: int)
    requires
        0 <= upto <= sources.len(),
    ensures
        documents_upto(sources, upto) == added(
            Seq::new(upto as nat, |i: int| sources[i].documents as nat),
        ),
        length_upto(sources, upto) == added(
            Seq::new(upto as nat, |i: int| sources[i].total_length as nat),
        ),
        field_length_upto(sources, field, upto) == added(
            Seq::new(upto as nat, |i: int| sources[i].field_totals[field] as nat),
        ),
        frequency_upto(sources, term, upto) == added(
            Seq::new(upto as nat, |i: int| sources[i].frequencies[term] as nat),
        ),
    decreases upto,
{
    let documents = Seq::new(upto as nat, |i: int| sources[i].documents as nat);
    let lengths = Seq::new(upto as nat, |i: int| sources[i].total_length as nat);
    let fields = Seq::new(upto as nat, |i: int| sources[i].field_totals[field] as nat);
    let held = Seq::new(upto as nat, |i: int| sources[i].frequencies[term] as nat);
    if upto > 0 {
        let less = (upto - 1) as nat;
        law_counts_add_up(sources, term, field, upto - 1);
        assert(documents =~= Seq::new(less, |i: int| sources[i].documents as nat).push(
            documents[upto - 1],
        ));
        lemma_added_push(
            Seq::new(less, |i: int| sources[i].documents as nat),
            documents[upto - 1],
        );
        assert(lengths =~= Seq::new(less, |i: int| sources[i].total_length as nat).push(
            lengths[upto - 1],
        ));
        lemma_added_push(Seq::new(less, |i: int| sources[i].total_length as nat), lengths[upto - 1]);
        assert(fields =~= Seq::new(less, |i: int| sources[i].field_totals[field] as nat).push(
            fields[upto - 1],
        ));
        lemma_added_push(
            Seq::new(less, |i: int| sources[i].field_totals[field] as nat),
            fields[upto - 1],
        );
        assert(held =~= Seq::new(less, |i: int| sources[i].frequencies[term] as nat).push(
            held[upto - 1],
        ));
        lemma_added_push(
            Seq::new(less, |i: int| sources[i].frequencies[term] as nat),
            held[upto - 1],
        );
    }
}

/// Scores keep the terms that are to be kept, all of them and no others, each
/// once and in order. Whether a term is kept rests on its documents in all
/// sources and in the immutable ones, which come first, and on the documents of
/// the immutable ones.
pub proof fn law_terms_to_keep_are_kept<R: Fn(usize, u64, u64, u64) -> bool>(
    sources: Seq<SourceCounts>,
    immutable: int,
    retention: Retention<R>,
    terms: int,
)
    requires
        0 <= immutable <= sources.len(),
        0 <= terms <= usize::MAX,
    ensures
        ({
            let kept = kept_upto(sources, immutable, retention, terms);
            let documents = documents_upto(sources, immutable) as u64;
            &&& forall|x: int|
                0 <= x < kept.len() ==> (#[trigger] kept[x]).term < terms && kept[x].total
                    == frequency_upto(sources, kept[x].term as int, sources.len() as int) as u64
                    && kept[x].immutable == frequency_upto(
                    sources,
                    kept[x].term as int,
                    immutable,
                ) as u64 && retention.kept(kept[x], documents)
            &&& forall|x: int, y: int|
                0 <= x < y < kept.len() ==> (#[trigger] kept[x]).term < (#[trigger] kept[y]).term
            &&& forall|counts: TermCounts|
                counts.term < terms && counts.total == frequency_upto(
                    sources,
                    counts.term as int,
                    sources.len() as int,
                ) as u64 && counts.immutable == frequency_upto(
                    sources,
                    counts.term as int,
                    immutable,
                ) as u64 && #[trigger] retention.kept(counts, documents) ==> kept.contains(counts)
        }),
    decreases terms,
{
    if terms > 0 {
        law_terms_to_keep_are_kept(sources, immutable, retention, terms - 1);
        let before = kept_upto(sources, immutable, retention, terms - 1);
        let kept = kept_upto(sources, immutable, retention, terms);
        let documents = documents_upto(sources, immutable) as u64;
        let last = counts_of(sources, immutable, terms - 1);
        assert(immutable_upto(sources, immutable) == immutable);
        assert forall|counts: TermCounts|
            counts.term < terms && counts.total == frequency_upto(
                sources,
                counts.term as int,
                sources.len() as int,
            ) as u64 && counts.immutable == frequency_upto(
                sources,
                counts.term as int,
                immutable,
            ) as u64 && #[trigger] retention.kept(counts, documents) implies kept.contains(
            counts,
        ) by {
            if counts.term < terms - 1 {
                assert(before.contains(counts));
                let x = choose|x: int| 0 <= x < before.len() && before[x] == counts;
                assert(kept[x] == counts);
            } else {
                assert(counts == last);
                assert(kept[before.len() as int] == counts);
            }
        }
        assert forall|x: int| 0 <= x < kept.len() implies (#[trigger] kept[x]).term < terms
            && kept[x].total == frequency_upto(
            sources,
            kept[x].term as int,
            sources.len() as int,
        ) as u64 && kept[x].immutable == frequency_upto(
            sources,
            kept[x].term as int,
            immutable,
        ) as u64 && retention.kept(kept[x], documents) by {
            if x < before.len() {
                assert(kept[x] == before[x]);
            }
        }
        assert forall|x: int, y: int| 0 <= x < y < kept.len() implies (#[trigger] kept[x]).term < (
        #[trigger] kept[y]).term by {
            assert(kept[x] == before[x]);
            if y < before.len() {
                assert(kept[y] == before[y]);
            }
        }
    }
}

} // verus!
