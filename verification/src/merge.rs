//! Merging candidate directories into one list without duplicates.
//!
//! A candidate is an entry of a search path together with what the
//! filesystem said about it. The merge keeps, in order, every candidate that
//! is a directory and whose identity no earlier kept candidate has.

use vstd::hash_set::StringHashSet;
use vstd::prelude::*;

use crate::text::{optional_text, texts};

verus! {

/// What makes two entries the same directory.
#[derive(Clone, Copy, Debug, PartialEq, Eq, Structural)]
pub enum DedupeKey {
    /// The resolved, absolute form of the entry.
    Canonical,
    /// The text of the entry as it was given.
    Raw,
}

/// What the filesystem said about one entry.
#[derive(Debug)]
pub struct Probe {
    /// The resolved, absolute form of the path; `None` where it could not be
    /// resolved or was not asked for.
    pub canonical: Option<String>,
    /// Whether the path exists.
    pub exists: bool,
    /// Whether the path is a directory.
    pub is_dir: bool,
}

/// A `Probe` as a plain value.
pub struct ProbeView {
    /// The canonical form of the path, where there is one.
    pub canonical: Option<Seq<char>>,
    /// Whether the path exists.
    pub exists: bool,
    /// Whether the path is a directory.
    pub is_dir: bool,
}

impl View for Probe {
    type V = ProbeView;

    open spec fn view(&self) -> ProbeView {
        ProbeView {
            canonical: optional_text(self.canonical),
            exists: self.exists,
            is_dir: self.is_dir,
        }
    }
}

/// An entry of a search path with its probe.
#[derive(Debug)]
pub struct Candidate {
    /// The entry as it was given.
    pub text: String,
    /// What the filesystem said about it.
    pub probe: Probe,
}

/// A `Candidate` as a plain value.
pub struct CandidateView {
    /// The entry as it was given.
    pub text: Seq<char>,
    /// What the filesystem said about it.
    pub probe: ProbeView,
}

impl View for Candidate {
    type V = CandidateView;

    open spec fn view(&self) -> CandidateView {
        CandidateView { text: self.text@, probe: self.probe@ }
    }
}

/// The views of a sequence of candidates, in order.
pub open spec fn candidate_views(v: Seq<Candidate>) -> Seq<CandidateView> {
    Seq::new(v.len(), |i: int| v[i]@)
}

/// The key by which a candidate is told from the others, if it has one: its
/// canonical form, or its own text.
pub open spec fn identity(mode: DedupeKey, c: CandidateView) -> Option<Seq<char>> {
    match mode {
        DedupeKey::Canonical => c.probe.canonical,
        DedupeKey::Raw => Some(c.text),
    }
}

/// A candidate that may enter the list: it has an identity, exists and is a
/// directory.
pub open spec fn admissible(mode: DedupeKey, c: CandidateView) -> bool {
    &&& identity(mode, c) is Some
    &&& c.probe.exists
    &&& c.probe.is_dir
}

/// Candidate `i` is admissible, and no admissible candidate before it has
/// its identity.
pub open spec fn leads(mode: DedupeKey, c: Seq<CandidateView>, i: int) -> bool {
    &&& admissible(mode, c[i])
    &&& forall|j: int|
        0 <= j < i && admissible(mode, #[trigger] c[j]) ==> identity(mode, c[j]) != identity(
            mode,
            c[i],
        )
}

/// The positions of the candidates that lead, in rising order.
pub open spec fn kept_indices(mode: DedupeKey, c: Seq<CandidateView>) -> Seq<int>
    decreases c.len(),
{
    if c.len() == 0 {
        Seq::empty()
    } else {
        let before = kept_indices(mode, c.drop_last());
        if leads(mode, c, c.len() - 1) {
            before.push(c.len() - 1)
        } else {
            before
        }
    }
}

/// The merged list: the texts of the candidates that lead, in the order of
/// the candidates.
pub open spec fn merged(mode: DedupeKey, c: Seq<CandidateView>) -> Seq<Seq<char>> {
    Seq::new(kept_indices(mode, c).len(), |a: int| c[kept_indices(mode, c)[a]].text)
}

/// The identities of the admissible candidates.
pub open spec fn seen_identities(mode: DedupeKey, c: Seq<CandidateView>) -> Set<Seq<char>> {
    Set::new(
        |k: Seq<char>|
            exists|j: int|
                0 <= j < c.len() && admissible(mode, #[trigger] c[j]) && identity(mode, c[j])
                    == Some(k),
    )
}

/// Whether a candidate leads depends on the candidates up to it only.
pub proof fn lemma_leads_in_prefix(mode: DedupeKey, c: Seq<CandidateView>, n: int, i: int)
    requires
        0 <= i < n <= c.len(),
    ensures
        leads(mode, c.take(n), i) == leads(mode, c, i),
{
    assert forall|j: int| 0 <= j < n implies c.take(n)[j] == c[j] by {}
}

/// The kept positions are exactly the positions of the candidates that
/// lead, in rising order.
pub proof fn lemma_kept_indices(mode: DedupeKey, c: Seq<CandidateView>)
    ensures
        forall|a: int|
            0 <= a < kept_indices(mode, c).len() ==> {
                &&& 0 <= #[trigger] kept_indices(mode, c)[a] < c.len()
                &&& leads(mode, c, kept_indices(mode, c)[a])
            },
        forall|a: int, b: int|
            0 <= a < b < kept_indices(mode, c).len() ==> kept_indices(mode, c)[a] < kept_indices(
                mode,
                c,
            )[b],
        forall|i: int| 0 <= i < c.len() && leads(mode, c, i) ==> kept_indices(mode, c).contains(i),
    decreases c.len(),
{
    if c.len() > 0 {
        let n = c.len() - 1;
        let k = kept_indices(mode, c);
        let before = kept_indices(mode, c.drop_last());
        lemma_kept_indices(mode, c.drop_last());
        assert forall|a: int| 0 <= a < before.len() implies leads(mode, c, #[trigger] before[a]) by {
            lemma_leads_in_prefix(mode, c, n, before[a]);
        }
        assert forall|i: int| 0 <= i < c.len() && leads(mode, c, i) implies k.contains(i) by {
            if i < n {
                lemma_leads_in_prefix(mode, c, n, i);
                let a = choose|a: int| 0 <= a < before.len() && before[a] == i;
                assert(k[a] == i);
            } else {
                assert(k[k.len() - 1] == i);
            }
        }
    }
}

/// What one more candidate does to the merged list and to the identities
/// seen: it is added exactly when it is admissible and its identity is new.
pub proof fn lemma_merge_step(mode: DedupeKey, c: Seq<CandidateView>, x: CandidateView)
    ensures
        leads(mode, c.push(x), c.len() as int) <==> admissible(mode, x) && !seen_identities(
            mode,
            c,
        ).contains(identity(mode, x).unwrap()),
        merged(mode, c.push(x)) == if leads(mode, c.push(x), c.len() as int) {
            merged(mode, c).push(x.text)
        } else {
            merged(mode, c)
        },
        seen_identities(mode, c.push(x)) == if admissible(mode, x) {
            seen_identities(mode, c).insert(identity(mode, x).unwrap())
        } else {
            seen_identities(mode, c)
        },
{
    let more = c.push(x);
    let n = c.len() as int;
    assert(more.drop_last() =~= c);
    assert forall|j: int| 0 <= j < n implies more[j] == c[j] by {}
    lemma_kept_indices(mode, c);
    assert forall|key: Seq<char>|
        seen_identities(mode, more).contains(key) <==> seen_identities(mode, c).contains(key) || (
        admissible(mode, x) && identity(mode, x) == Some(key)) by {
        if seen_identities(mode, more).contains(key) {
            let j = choose|j: int|
                0 <= j < more.len() && admissible(mode, #[trigger] more[j]) && identity(
                    mode,
                    more[j],
                ) == Some(key);
            assert(j < n ==> more[j] == c[j]);
        }
        if seen_identities(mode, c).contains(key) {
            let j = choose|j: int|
                0 <= j < c.len() && admissible(mode, #[trigger] c[j]) && identity(mode, c[j])
                    == Some(key);
            assert(more[j] == c[j]);
        }
        if admissible(mode, x) && identity(mode, x) == Some(key) {
            assert(more[n] == x);
        }
    }
    if admissible(mode, x) && seen_identities(mode, c).contains(identity(mode, x).unwrap()) {
        let j = choose|j: int|
            0 <= j < c.len() && admissible(mode, #[trigger] c[j]) && identity(mode, c[j])
                == identity(mode, x);
        assert(more[j] == c[j]);
    }
}

/// The identity of a candidate as a string of its own.
pub fn identity_key(mode: DedupeKey, candidate: &Candidate) -> (key: Option<String>)
    ensures
        optional_text(key) == identity(mode, candidate@),
{
    match mode {
        DedupeKey::Canonical => match &candidate.probe.canonical {
            Some(resolved) => Some(resolved.clone()),
            None => None,
        },
        DedupeKey::Raw => Some(candidate.text.clone()),
    }
}

/// Merges probed candidates: keeps the text of each candidate that is an
/// existing directory and whose identity no candidate kept before it has.
pub fn merge_probed(mode: DedupeKey, candidates: &Vec<Candidate>) -> (out: Vec<String>)
    ensures
        texts(out@) == merged(mode, candidate_views(candidates@)),
{
    let mut out: Vec<String> = Vec::new();
    let mut seen: StringHashSet = StringHashSet::new();
    let mut i: usize = 0;
    let ghost all = candidate_views(candidates@);
    while i < candidates.len()
        invariant
            i <= candidates@.len(),
            all == candidate_views(candidates@),
            texts(out@) == merged(mode, all.take(i as int)),
            seen@ == seen_identities(mode, all.take(i as int)),
        decreases candidates@.len() - i,
    {
        let candidate = &candidates[i];
        proof {
            lemma_merge_step(mode, all.take(i as int), candidate@);
            assert(all.take(i + 1) =~= all.take(i as int).push(candidate@));
        }
        match identity_key(mode, candidate) {
            Some(key) => {
                if !seen.contains(key.as_str()) && candidate.probe.exists && candidate.probe.is_dir {
                    out.push(candidate.text.clone());
                    seen.insert(key);
                }
            },
            None => {},
        }
        i = i + 1;
    }
    proof {
        assert(all.take(i as int) =~= all);
    }
    out
}

} // verus!
