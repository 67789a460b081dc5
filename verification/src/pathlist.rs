//! Search-path lists: from the segments given on the command line and in the
//! environment to one delimited list of directories, each named once.

use vstd::hash_set::StringHashSet;
use vstd::prelude::*;

use crate::filesystem::{canonical_text, path_exists, path_is_dir};
use crate::merge::{
    lemma_merge_step, merged, seen_identities, CandidateView, DedupeKey, ProbeView,
};
use crate::text::{join_entries, joined, optional_text, pieces, split_entries, texts};

verus! {

/// The name of the variable that is read where none is given.
pub const DEFAULT_VAR_NAME: &'static str = "PATH";

/// The delimiter that is used where none is given.
pub const DEFAULT_DELIMITER: &'static str = ":";

/// What the command line asked for.
#[derive(Debug)]
pub struct CliOpts {
    /// Entries to put in front of the variable's value.
    pub before: Option<String>,
    /// Entries to put behind the variable's value.
    pub after: Option<String>,
    /// The name of the environment variable that holds the list.
    pub var_name: String,
    /// The text that stands between two entries.
    pub delimiter: String,
    /// What makes two entries the same directory.
    pub dedupe_key: DedupeKey,
}

/// A value that may be absent, as a list of none or one.
pub open spec fn present(value: Option<String>) -> Seq<Seq<char>> {
    match value {
        Some(s) => seq![s@],
        None => Seq::empty(),
    }
}

/// The entries of one segment. An empty segment holds none.
pub open spec fn entries_of(segment: Seq<char>, d: Seq<char>) -> Seq<Seq<char>> {
    if segment.len() == 0 {
        Seq::empty()
    } else {
        pieces(segment, d)
    }
}

/// The entries of all segments, segment after segment.
pub open spec fn candidates(segments: Seq<Seq<char>>, d: Seq<char>) -> Seq<Seq<char>>
    decreases segments.len(),
{
    if segments.len() == 0 {
        Seq::empty()
    } else {
        candidates(segments.drop_last(), d) + entries_of(segments.last(), d)
    }
}

/// Each entry with the probe at its position.
pub open spec fn paired(entries: Seq<Seq<char>>, probes: Seq<ProbeView>) -> Seq<CandidateView> {
    Seq::new(entries.len(), |i: int| CandidateView { text: entries[i], probe: probes[i] })
}

/// `kept` is the merge of `entries` under some answers of the filesystem,
/// one for each entry.
pub open spec fn merges_to(mode: DedupeKey, entries: Seq<Seq<char>>, kept: Seq<Seq<char>>) -> bool {
    exists|probes: Seq<ProbeView>|
        probes.len() == entries.len() && merged(mode, #[trigger] paired(entries, probes)) == kept
}

/// The segments in their order of priority: what goes in front, the value of
/// the variable, what goes behind. A part that is absent is left out.
pub fn assemble_elements(cli: &CliOpts, env_value: Option<String>) -> (elements: Vec<String>)
    ensures
        texts(elements@) == present(cli.before) + present(env_value) + present(cli.after),
{
    let mut elements: Vec<String> = Vec::new();
    match &cli.before {
        Some(before) => {
            elements.push(before.clone());
        },
        None => {},
    }
    match env_value {
        Some(value) => {
            elements.push(value);
        },
        None => {},
    }
    match &cli.after {
        Some(after) => {
            elements.push(after.clone());
        },
        None => {},
    }
    elements
}

/// All entries of all segments, in order.
pub fn candidates_of(segments: &Vec<String>, delimiter: &str) -> (entries: Vec<String>)
    requires
        delimiter@.len() > 0,
    ensures
        texts(entries@) == candidates(texts(segments@), delimiter@),
{
    let mut entries: Vec<String> = Vec::new();
    let mut i: usize = 0;
    while i < segments.len()
        invariant
            i <= segments@.len(),
            delimiter@.len() > 0,
            texts(entries@) == candidates(texts(segments@).take(i as int), delimiter@),
        decreases segments@.len() - i,
    {
        let segment = segments[i].as_str();
        proof {
            let now = texts(segments@).take(i + 1);
            assert(now.drop_last() =~= texts(segments@).take(i as int));
        }
        if !segment.is_empty() {
            let mut found: Vec<String> = split_entries(segment, delimiter);
            entries.append(&mut found);
        }
        i = i + 1;
    }
    proof {
        assert(texts(segments@).take(i as int) =~= texts(segments@));
    }
    entries
}

/// Merges the entries of `segments` into one list: asks the filesystem about
/// each entry in turn and keeps the text of every entry that is a directory
/// and whose identity no entry kept before it has. An entry whose identity
/// is already taken is dropped without a look at the directory.
pub fn merge(segments: &Vec<String>, delimiter: &str, dedupe_key: DedupeKey) -> (kept: Vec<String>)
    requires
        delimiter@.len() > 0,
    ensures
        merges_to(dedupe_key, candidates(texts(segments@), delimiter@), texts(kept@)),
{
    let entries: Vec<String> = candidates_of(segments, delimiter);
    let mut kept: Vec<String> = Vec::new();
    let mut seen: StringHashSet = StringHashSet::new();
    let ghost all = texts(entries@);
    let ghost mut probes: Seq<ProbeView> = Seq::empty();
    let mut i: usize = 0;
    while i < entries.len()
        invariant
            i <= entries@.len(),
            all == texts(entries@),
            probes.len() == i,
            texts(kept@) == merged(dedupe_key, paired(all.take(i as int), probes)),
            seen@ == seen_identities(dedupe_key, paired(all.take(i as int), probes)),
        decreases entries@.len() - i,
    {
        let entry = entries[i].as_str();
        let key: Option<String> = match dedupe_key {
            DedupeKey::Canonical => canonical_text(entry),
            DedupeKey::Raw => Some(entries[i].clone()),
        };
        let ghost canonical: Option<Seq<char>> = match dedupe_key {
            DedupeKey::Canonical => optional_text(key),
            DedupeKey::Raw => None,
        };
        let ghost before = paired(all.take(i as int), probes);
        // an entry whose directory is not looked at is dropped either way:
        // it is recorded as one that is no directory
        let ghost mut probe = ProbeView { canonical, exists: false, is_dir: false };
        match key {
            Some(k) => {
                if !seen.contains(k.as_str()) {
                    let exists = path_exists(entry);
                    let is_dir = exists && path_is_dir(entry);
                    proof {
                        probe = ProbeView { canonical, exists, is_dir };
                    }
                    if is_dir {
                        kept.push(entries[i].clone());
                        seen.insert(k);
                    }
                }
            },
            None => {},
        }
        proof {
            let x = CandidateView { text: entry@, probe };
            lemma_merge_step(dedupe_key, before, x);
            assert(paired(all.take(i + 1), probes.push(probe)) =~= before.push(x));
            probes = probes.push(probe);
        }
        i = i + 1;
    }
    proof {
        assert(all.take(i as int) =~= all);
    }
    kept
}

/// `path` is the delimited list of what merging the entries of `segments`
/// keeps under some answers of the filesystem.
pub open spec fn is_path_of(
    mode: DedupeKey,
    segments: Seq<Seq<char>>,
    d: Seq<char>,
    path: Seq<char>,
) -> bool {
    exists|kept: Seq<Seq<char>>|
        #[trigger] merges_to(mode, candidates(segments, d), kept) && path == joined(kept, d)
}

/// The search path that the segments give: their directories, each named
/// once, joined with the delimiter.
pub fn gen_path(cli: CliOpts, elements: Vec<String>) -> (path: String)
    requires
        cli.delimiter@.len() > 0,
    ensures
        is_path_of(cli.dedupe_key, texts(elements@), cli.delimiter@, path@),
{
    let kept = merge(&elements, cli.delimiter.as_str(), cli.dedupe_key);
    join_entries(&kept, cli.delimiter.as_str())
}

} // verus!
