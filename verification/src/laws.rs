//! What holds of every merge.

use vstd::prelude::*;

use crate::merge::{
    admissible, identity, kept_indices, leads, lemma_kept_indices, lemma_leads_in_prefix, merged,
    CandidateView, DedupeKey, ProbeView,
};
use crate::pathlist::{candidates, entries_of, merges_to, paired};
use crate::text::{
    contains_delimiter, joined, law_split_of_join, lemma_pieces_hold_no_delimiter,
};

verus! {

/// No two entries of a merged list have the same identity.
pub proof fn law_identities_are_distinct(mode: DedupeKey, c: Seq<CandidateView>)
    ensures
        forall|a: int, b: int|
            #![trigger kept_indices(mode, c)[a], kept_indices(mode, c)[b]]
            0 <= a < b < kept_indices(mode, c).len() ==> identity(
                mode,
                c[kept_indices(mode, c)[a]],
            ) != identity(mode, c[kept_indices(mode, c)[b]]),
{
    let k = kept_indices(mode, c);
    lemma_kept_indices(mode, c);
    assert forall|a: int, b: int|
        #![trigger k[a], k[b]]
        0 <= a < b < k.len() implies identity(mode, c[k[a]]) != identity(mode, c[k[b]]) by {
        // the later one leads, and the earlier one is admissible and stands before it
        assert(leads(mode, c, k[b]) && admissible(mode, c[k[a]]) && k[a] < k[b]);
    }
}

/// A merged list holds its entries in the order in which their identities
/// were first met: entry `a` is the text of the `a`-th candidate, counted
/// from the front, that is admissible while no admissible candidate before
/// it has its identity.
pub proof fn law_first_seen_order(mode: DedupeKey, c: Seq<CandidateView>)
    ensures
        merged(mode, c).len() == kept_indices(mode, c).len(),
        forall|a: int|
            0 <= a < merged(mode, c).len() ==> {
                &&& 0 <= kept_indices(mode, c)[a] < c.len()
                &&& #[trigger] merged(mode, c)[a] == c[kept_indices(mode, c)[a]].text
            },
        forall|a: int, b: int|
            0 <= a < b < kept_indices(mode, c).len() ==> kept_indices(mode, c)[a] < kept_indices(
                mode,
                c,
            )[b],
        forall|i: int|
            0 <= i < c.len() ==> (kept_indices(mode, c).contains(i) <==> leads(mode, c, i)),
{
    let k = kept_indices(mode, c);
    lemma_kept_indices(mode, c);
    assert forall|i: int| 0 <= i < c.len() && k.contains(i) implies leads(mode, c, i) by {
        let a = choose|a: int| 0 <= a < k.len() && k[a] == i;
        assert(leads(mode, c, k[a]));
    }
}

/// Every admissible candidate is spoken for: the merged list holds an entry
/// of its identity, taken from that candidate or from one before it.
pub proof fn law_every_identity_is_kept(mode: DedupeKey, c: Seq<CandidateView>, i: int)
    requires
        0 <= i < c.len(),
        admissible(mode, c[i]),
    ensures
        exists|a: int|
            0 <= a < kept_indices(mode, c).len() && #[trigger] kept_indices(mode, c)[a] <= i
                && identity(mode, c[kept_indices(mode, c)[a]]) == identity(mode, c[i]),
    decreases i,
{
    let k = kept_indices(mode, c);
    lemma_kept_indices(mode, c);
    if leads(mode, c, i) {
        let a = choose|a: int| 0 <= a < k.len() && k[a] == i;
        assert(k[a] <= i);
    } else {
        let j = choose|j: int|
            0 <= j < i && admissible(mode, #[trigger] c[j]) && identity(mode, c[j]) == identity(
                mode,
                c[i],
            );
        law_every_identity_is_kept(mode, c, j);
        let a = choose|a: int|
            0 <= a < k.len() && #[trigger] k[a] <= j && identity(mode, c[k[a]]) == identity(
                mode,
                c[j],
            );
        assert(k[a] <= i);
    }
}

/// A merged list holds only what exists and is a directory: a path that is
/// missing, is a file, or could not be resolved where its canonical form is
/// the identity, is never among its entries.
pub proof fn law_only_directories(mode: DedupeKey, c: Seq<CandidateView>)
    ensures
        forall|a: int|
            0 <= a < kept_indices(mode, c).len() ==> {
                let kept = c[#[trigger] kept_indices(mode, c)[a]];
                &&& kept.probe.exists
                &&& kept.probe.is_dir
                &&& mode == DedupeKey::Canonical ==> kept.probe.canonical is Some
            },
{
    lemma_kept_indices(mode, c);
}

/// Each entry with what a filesystem, taken as a function of the path, says
/// about it.
pub open spec fn probe_all(fs: spec_fn(Seq<char>) -> ProbeView, entries: Seq<Seq<char>>) -> Seq<
    CandidateView,
> {
    Seq::new(entries.len(), |i: int| CandidateView { text: entries[i], probe: fs(entries[i]) })
}

/// Where every candidate leads, every position is kept and the merged list
/// holds every text.
pub proof fn lemma_all_lead(mode: DedupeKey, c: Seq<CandidateView>)
    requires
        forall|i: int| 0 <= i < c.len() ==> leads(mode, c, i),
    ensures
        kept_indices(mode, c) == Seq::new(c.len(), |i: int| i),
        merged(mode, c) == Seq::new(c.len(), |i: int| c[i].text),
    decreases c.len(),
{
    if c.len() > 0 {
        let n = c.len() - 1;
        let front = c.drop_last();
        assert forall|i: int| 0 <= i < front.len() implies leads(mode, front, i) by {
            lemma_leads_in_prefix(mode, c, n, i);
        }
        lemma_all_lead(mode, front);
    }
}

/// Merging a merged list again, on the same filesystem, changes nothing.
pub proof fn law_merged_list_is_stable(
    mode: DedupeKey,
    fs: spec_fn(Seq<char>) -> ProbeView,
    entries: Seq<Seq<char>>,
)
    ensures
        merged(mode, probe_all(fs, merged(mode, probe_all(fs, entries)))) == merged(
            mode,
            probe_all(fs, entries),
        ),
{
    let c = probe_all(fs, entries);
    let k = kept_indices(mode, c);
    let r = merged(mode, c);
    let again = probe_all(fs, r);
    lemma_kept_indices(mode, c);
    law_identities_are_distinct(mode, c);
    // a kept entry, probed again, is the candidate it was taken from
    assert forall|a: int| 0 <= a < again.len() implies again[a] == c[k[a]] by {}
    assert forall|b: int| 0 <= b < again.len() implies leads(mode, again, b) by {
        assert forall|a: int| 0 <= a < b implies identity(mode, #[trigger] again[a]) != identity(
            mode,
            again[b],
        ) by {}
    }
    lemma_all_lead(mode, again);
}

/// On one filesystem, the entries of a merged list are directories of
/// pairwise different identities: read by themselves, without the
/// candidates they were taken from.
pub proof fn law_merged_list_on_filesystem(
    mode: DedupeKey,
    fs: spec_fn(Seq<char>) -> ProbeView,
    entries: Seq<Seq<char>>,
)
    ensures
        ({
            let kept = probe_all(fs, merged(mode, probe_all(fs, entries)));
            &&& forall|a: int| 0 <= a < kept.len() ==> admissible(mode, #[trigger] kept[a])
            &&& forall|a: int, b: int|
                0 <= a < b < kept.len() ==> identity(mode, kept[a]) != identity(mode, kept[b])
        }),
{
    let c = probe_all(fs, entries);
    let k = kept_indices(mode, c);
    let kept = probe_all(fs, merged(mode, c));
    lemma_kept_indices(mode, c);
    law_identities_are_distinct(mode, c);
    // a kept entry, probed again, is the candidate it was taken from
    assert forall|a: int| 0 <= a < kept.len() implies kept[a] == c[k[a]] by {}
}

/// On one filesystem, a path that does not exist or is no directory is not
/// in the merged list, wherever and however often it stands among the
/// entries.
pub proof fn law_no_invalid_entry(
    mode: DedupeKey,
    fs: spec_fn(Seq<char>) -> ProbeView,
    entries: Seq<Seq<char>>,
    path: Seq<char>,
)
    requires
        !fs(path).exists || !fs(path).is_dir,
    ensures
        !merged(mode, probe_all(fs, entries)).contains(path),
{
    let c = probe_all(fs, entries);
    let k = kept_indices(mode, c);
    lemma_kept_indices(mode, c);
    if merged(mode, c).contains(path) {
        let a = choose|a: int| 0 <= a < merged(mode, c).len() && merged(mode, c)[a] == path;
        assert(leads(mode, c, k[a]) && c[k[a]].probe == fs(path));
    }
}

/// No entry of any segment holds the delimiter.
pub proof fn lemma_candidates_hold_no_delimiter(segments: Seq<Seq<char>>, d: Seq<char>)
    requires
        d.len() > 0,
    ensures
        forall|k: int|
            0 <= k < candidates(segments, d).len() ==> !contains_delimiter(
                #[trigger] candidates(segments, d)[k],
                d,
            ),
    decreases segments.len(),
{
    if segments.len() > 0 {
        let front = candidates(segments.drop_last(), d);
        let last = entries_of(segments.last(), d);
        lemma_candidates_hold_no_delimiter(segments.drop_last(), d);
        lemma_pieces_hold_no_delimiter(segments.last(), d);
        assert forall|k: int| 0 <= k < candidates(segments, d).len() implies !contains_delimiter(
            #[trigger] candidates(segments, d)[k],
            d,
        ) by {
            if k < front.len() {
                assert(candidates(segments, d)[k] == front[k]);
            } else {
                assert(candidates(segments, d)[k] == last[k - front.len()]);
            }
        }
    }
}

/// A merged list that splits back from its join comes out unchanged when
/// the join is merged again, as one segment, on the same filesystem. The
/// delimiter may be of any length.
pub proof fn law_merge_of_join(
    mode: DedupeKey,
    fs: spec_fn(Seq<char>) -> ProbeView,
    segments: Seq<Seq<char>>,
    d: Seq<char>,
)
    requires
        ({
            let kept = merged(mode, probe_all(fs, candidates(segments, d)));
            entries_of(joined(kept, d), d) == kept
        }),
    ensures
        ({
            let kept = merged(mode, probe_all(fs, candidates(segments, d)));
            merged(mode, probe_all(fs, candidates(seq![joined(kept, d)], d))) == kept
        }),
{
    let kept = merged(mode, probe_all(fs, candidates(segments, d)));
    let single = seq![joined(kept, d)];
    assert(candidates(single.drop_last(), d) =~= Seq::<Seq<char>>::empty());
    law_merged_list_is_stable(mode, fs, candidates(segments, d));
}

/// Merging is idempotent: the merged list, joined into one segment and
/// merged again on the same filesystem, comes out unchanged. This holds for
/// a delimiter of one character, and for every merged list but the one that
/// holds the empty path alone, which joins to the empty segment.
pub proof fn law_merge_is_idempotent(
    mode: DedupeKey,
    fs: spec_fn(Seq<char>) -> ProbeView,
    segments: Seq<Seq<char>>,
    d: Seq<char>,
)
    requires
        d.len() == 1,
        ({
            let kept = merged(mode, probe_all(fs, candidates(segments, d)));
            !(kept.len() == 1 && kept[0].len() == 0)
        }),
    ensures
        ({
            let kept = merged(mode, probe_all(fs, candidates(segments, d)));
            merged(mode, probe_all(fs, candidates(seq![joined(kept, d)], d))) == kept
        }),
{
    let entries = candidates(segments, d);
    let c = probe_all(fs, entries);
    let k = kept_indices(mode, c);
    let kept = merged(mode, c);
    lemma_kept_indices(mode, c);
    lemma_candidates_hold_no_delimiter(segments, d);
    assert forall|a: int| 0 <= a < kept.len() implies !contains_delimiter(#[trigger] kept[a], d) by {
        assert(kept[a] == entries[k[a]]);
    }
    if kept.len() == 0 {
        assert(entries_of(joined(kept, d), d) =~= kept);
    } else {
        // the join of a list other than the empty path alone is not empty
        assert(joined(kept, d).len() > 0);
        law_split_of_join(kept, d);
    }
    law_merge_of_join(mode, fs, segments, d);
}

/// The entries come in the order of the segments: those of earlier segments
/// stand before those of later ones, each segment's own in their order.
pub proof fn law_candidates_in_segment_order(
    front: Seq<Seq<char>>,
    back: Seq<Seq<char>>,
    d: Seq<char>,
)
    ensures
        candidates(front + back, d) == candidates(front, d) + candidates(back, d),
    decreases back.len(),
{
    if back.len() == 0 {
        assert(front + back =~= front);
    } else {
        assert((front + back).drop_last() =~= front + back.drop_last());
        law_candidates_in_segment_order(front, back.drop_last(), d);
    }
}

/// Whatever the filesystem answers, a merged list is drawn from the entries
/// without a change of order, and where the raw text is the identity it
/// names no entry twice.
pub proof fn law_every_outcome(mode: DedupeKey, entries: Seq<Seq<char>>, kept: Seq<Seq<char>>)
    requires
        merges_to(mode, entries, kept),
    ensures
        exists|at: Seq<int>|
            {
                &&& #[trigger] at.len() == kept.len()
                &&& forall|a: int|
                    0 <= a < at.len() ==> 0 <= #[trigger] at[a] < entries.len() && kept[a]
                        == entries[at[a]]
                &&& forall|a: int, b: int| 0 <= a < b < at.len() ==> at[a] < at[b]
            },
        mode == DedupeKey::Raw ==> forall|a: int, b: int|
            0 <= a < b < kept.len() ==> kept[a] != kept[b],
{
    let probes = choose|probes: Seq<ProbeView>|
        probes.len() == entries.len() && merged(mode, #[trigger] paired(entries, probes)) == kept;
    let c = paired(entries, probes);
    let at = kept_indices(mode, c);
    lemma_kept_indices(mode, c);
    law_identities_are_distinct(mode, c);
    assert forall|a: int, b: int| 0 <= a < b < kept.len() && mode == DedupeKey::Raw implies kept[a]
        != kept[b] by {
        assert(identity(mode, c[at[a]]) != identity(mode, c[at[b]]));
    }
}

} // verus!
