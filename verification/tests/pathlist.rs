use ikluft_tools::merge::{identity_key, merge_probed, Candidate, DedupeKey, Probe};
use ikluft_tools::pathlist::{
    assemble_elements, candidates_of, gen_path, merge, CliOpts, DEFAULT_DELIMITER,
    DEFAULT_VAR_NAME,
};
use ikluft_tools::text::join_entries;

fn strings(items: &[&str]) -> Vec<String> {
    items.iter().map(|s| s.to_string()).collect()
}

/// A filesystem made up for a test: each path with its canonical form and
/// whether it is a directory. A path that is not listed does not exist.
struct Disk {
    paths: Vec<(String, String, bool)>,
}

impl Disk {
    fn new() -> Disk {
        Disk { paths: Vec::new() }
    }

    fn dir(mut self, path: &str) -> Disk {
        self.paths.push((path.to_string(), path.to_string(), true));
        self
    }

    fn file(mut self, path: &str) -> Disk {
        self.paths.push((path.to_string(), path.to_string(), false));
        self
    }

    fn link_to_dir(mut self, path: &str, target: &str) -> Disk {
        self.paths.push((path.to_string(), target.to_string(), true));
        self
    }

    fn probe(&self, entry: &str, mode: DedupeKey) -> Probe {
        for (path, canonical, is_dir) in &self.paths {
            if path == entry {
                let canonical = match mode {
                    DedupeKey::Canonical => Some(canonical.clone()),
                    DedupeKey::Raw => None,
                };
                return Probe { canonical, exists: true, is_dir: *is_dir };
            }
        }
        Probe { canonical: None, exists: false, is_dir: false }
    }

    fn merge(&self, segments: &[&str], delimiter: &str, mode: DedupeKey) -> Vec<String> {
        let candidates: Vec<Candidate> = candidates_of(&strings(segments), delimiter)
            .into_iter()
            .map(|text| {
                let probe = self.probe(&text, mode);
                Candidate { text, probe }
            })
            .collect();
        merge_probed(mode, &candidates)
    }

    fn path(&self, segments: &[&str], delimiter: &str, mode: DedupeKey) -> String {
        join_entries(&self.merge(segments, delimiter, mode), delimiter)
    }
}

fn options(before: Option<&str>, after: Option<&str>, delimiter: &str, mode: DedupeKey) -> CliOpts {
    CliOpts {
        before: before.map(|s| s.to_string()),
        after: after.map(|s| s.to_string()),
        var_name: DEFAULT_VAR_NAME.to_string(),
        delimiter: delimiter.to_string(),
        dedupe_key: mode,
    }
}

#[test]
fn duplicates_across_segments_are_named_once() {
    let disk = Disk::new().dir("/usr/bin").dir("/usr/local/bin").dir("/bin");
    let segments = ["/usr/bin:/usr/local/bin", "/usr/bin:/bin", ""];
    for mode in [DedupeKey::Canonical, DedupeKey::Raw] {
        assert_eq!(disk.path(&segments, ":", mode), "/usr/bin:/usr/local/bin:/bin");
    }
}

#[test]
fn missing_entry_is_dropped() {
    let disk = Disk::new().dir("/tmp");
    let segments = ["", "/nonexistent:/tmp", ""];
    for mode in [DedupeKey::Canonical, DedupeKey::Raw] {
        assert_eq!(disk.path(&segments, ":", mode), "/tmp");
    }
}

#[test]
fn symlink_is_a_duplicate_of_its_target_by_canonical_form() {
    let disk = Disk::new().link_to_dir("/usr/local/bin", "/opt/bin").dir("/opt/bin");
    let segments = ["/usr/local/bin:/opt/bin"];
    assert_eq!(disk.path(&segments, ":", DedupeKey::Canonical), "/usr/local/bin");
}

#[test]
fn symlink_and_target_both_stay_by_raw_text() {
    let disk = Disk::new().link_to_dir("/usr/local/bin", "/opt/bin").dir("/opt/bin");
    let segments = ["/usr/local/bin:/opt/bin"];
    assert_eq!(disk.path(&segments, ":", DedupeKey::Raw), "/usr/local/bin:/opt/bin");
}

#[test]
fn target_before_symlink_keeps_the_target() {
    let disk = Disk::new().link_to_dir("/usr/local/bin", "/opt/bin").dir("/opt/bin");
    let segments = ["/opt/bin", "/usr/local/bin"];
    assert_eq!(disk.path(&segments, ":", DedupeKey::Canonical), "/opt/bin");
}

#[test]
fn no_segments_give_the_empty_path() {
    let disk = Disk::new().dir("/tmp");
    for mode in [DedupeKey::Canonical, DedupeKey::Raw] {
        assert_eq!(disk.merge(&[], ":", mode), Vec::<String>::new());
        assert_eq!(disk.path(&[], ":", mode), "");
    }
}

#[test]
fn empty_segments_give_the_empty_path() {
    let disk = Disk::new().dir("/tmp").dir("");
    for mode in [DedupeKey::Canonical, DedupeKey::Raw] {
        assert_eq!(disk.path(&["", "", ""], ":", mode), "");
    }
}

#[test]
fn other_delimiter_splits_and_joins() {
    let disk = Disk::new().dir("/a").dir("/b");
    for mode in [DedupeKey::Canonical, DedupeKey::Raw] {
        assert_eq!(disk.path(&["/a;/a;/b"], ";", mode), "/a;/b");
    }
}

#[test]
fn longer_delimiter_is_matched_as_a_whole() {
    let disk = Disk::new().dir("/a").dir("/b:c");
    assert_eq!(disk.path(&["/a::/b:c::/a"], "::", DedupeKey::Raw), "/a::/b:c");
}

#[test]
fn no_identity_is_kept_twice() {
    let disk = Disk::new()
        .dir("/a")
        .link_to_dir("/b", "/a")
        .link_to_dir("/c", "/a")
        .dir("/d")
        .link_to_dir("/e", "/d");
    let segments = ["/b:/a:/e", "/c:/d:/b", "/a:/d"];
    assert_eq!(disk.merge(&segments, ":", DedupeKey::Canonical), strings(&["/b", "/e"]));
    assert_eq!(
        disk.merge(&segments, ":", DedupeKey::Raw),
        strings(&["/b", "/a", "/e", "/c", "/d"])
    );
}

#[test]
fn entries_stay_in_first_seen_order() {
    let disk = Disk::new().dir("/z").dir("/m").dir("/a").dir("/k");
    let segments = ["/z:/m", "/a:/z:/k", "/m:/a"];
    for mode in [DedupeKey::Canonical, DedupeKey::Raw] {
        assert_eq!(disk.merge(&segments, ":", mode), strings(&["/z", "/m", "/a", "/k"]));
    }
}

#[test]
fn merging_the_result_again_changes_nothing() {
    let disk = Disk::new().dir("/usr/bin").link_to_dir("/bin", "/usr/bin").dir("/opt").file("/f");
    let segments = ["/bin:/nowhere:/usr/bin", "/f:/opt::/bin"];
    for mode in [DedupeKey::Canonical, DedupeKey::Raw] {
        let once = disk.merge(&segments, ":", mode);
        let joined = join_entries(&once, ":");
        let twice = disk.merge(&[joined.as_str()], ":", mode);
        assert_eq!(twice, once);
        assert_eq!(join_entries(&twice, ":"), joined);
    }
    assert_eq!(disk.path(&segments, ":", DedupeKey::Canonical), "/bin:/opt");
    assert_eq!(disk.path(&segments, ":", DedupeKey::Raw), "/bin:/usr/bin:/opt");
}

#[test]
fn list_of_the_empty_path_alone_joins_to_the_empty_segment() {
    let disk = Disk::new().dir("");
    let once = disk.merge(&[":"], ":", DedupeKey::Raw);
    assert_eq!(once, strings(&[""]));
    let joined = join_entries(&once, ":");
    assert_eq!(joined, "");
    assert_eq!(disk.merge(&[joined.as_str()], ":", DedupeKey::Raw), Vec::<String>::new());
}

#[test]
fn empty_path_among_others_survives_a_second_merge() {
    let disk = Disk::new().dir("").dir("/a");
    let once = disk.merge(&[":/a:"], ":", DedupeKey::Raw);
    assert_eq!(once, strings(&["", "/a"]));
    let joined = join_entries(&once, ":");
    assert_eq!(joined, ":/a");
    assert_eq!(disk.merge(&[joined.as_str()], ":", DedupeKey::Raw), once);
}

#[test]
fn files_and_missing_paths_never_appear() {
    let disk = Disk::new().dir("/d").file("/f");
    let segments = ["/f:/missing:/d", "/f:/d:/missing", "/missing:/f"];
    for mode in [DedupeKey::Canonical, DedupeKey::Raw] {
        assert_eq!(disk.merge(&segments, ":", mode), strings(&["/d"]));
    }
}

#[test]
fn file_does_not_block_a_directory_of_the_same_identity() {
    let candidates = vec![
        Candidate {
            text: "/x".to_string(),
            probe: Probe { canonical: Some("/real".to_string()), exists: true, is_dir: false },
        },
        Candidate {
            text: "/y".to_string(),
            probe: Probe { canonical: Some("/real".to_string()), exists: true, is_dir: true },
        },
    ];
    assert_eq!(merge_probed(DedupeKey::Canonical, &candidates), strings(&["/y"]));
}

#[test]
fn unresolved_path_is_dropped_by_canonical_form_only() {
    let candidates = vec![Candidate {
        text: "/x".to_string(),
        probe: Probe { canonical: None, exists: true, is_dir: true },
    }];
    assert_eq!(merge_probed(DedupeKey::Canonical, &candidates), Vec::<String>::new());
    assert_eq!(merge_probed(DedupeKey::Raw, &candidates), strings(&["/x"]));
}

#[test]
fn directory_needs_both_answers() {
    let probe = |exists, is_dir| Candidate {
        text: "/x".to_string(),
        probe: Probe { canonical: Some("/x".to_string()), exists, is_dir },
    };
    for mode in [DedupeKey::Canonical, DedupeKey::Raw] {
        assert_eq!(merge_probed(mode, &vec![probe(false, false)]), Vec::<String>::new());
        assert_eq!(merge_probed(mode, &vec![probe(true, false)]), Vec::<String>::new());
        assert_eq!(merge_probed(mode, &vec![probe(false, true)]), Vec::<String>::new());
        assert_eq!(merge_probed(mode, &vec![probe(true, true)]), strings(&["/x"]));
    }
}

#[test]
fn identity_key_follows_the_mode() {
    let candidate = Candidate {
        text: "/link".to_string(),
        probe: Probe { canonical: Some("/target".to_string()), exists: true, is_dir: true },
    };
    assert_eq!(identity_key(DedupeKey::Canonical, &candidate), Some("/target".to_string()));
    assert_eq!(identity_key(DedupeKey::Raw, &candidate), Some("/link".to_string()));
    let unresolved = Candidate {
        text: "/gone".to_string(),
        probe: Probe { canonical: None, exists: false, is_dir: false },
    };
    assert_eq!(identity_key(DedupeKey::Canonical, &unresolved), None);
    assert_eq!(identity_key(DedupeKey::Raw, &unresolved), Some("/gone".to_string()));
}

#[test]
fn candidates_come_segment_after_segment() {
    assert_eq!(
        candidates_of(&strings(&["/a:/b", "", "/c", ":/d:"]), ":"),
        strings(&["/a", "/b", "/c", "", "/d", ""])
    );
}

#[test]
fn empty_segment_holds_no_candidate() {
    assert_eq!(candidates_of(&strings(&[""]), ":"), Vec::<String>::new());
    assert_eq!(candidates_of(&strings(&[]), ":"), Vec::<String>::new());
    assert_eq!(candidates_of(&strings(&[":"]), ":"), strings(&["", ""]));
}

#[test]
fn elements_come_in_order_of_priority() {
    let cli = options(Some("/first"), Some("/last"), ":", DedupeKey::Canonical);
    assert_eq!(
        assemble_elements(&cli, Some("/middle:/more".to_string())),
        strings(&["/first", "/middle:/more", "/last"])
    );
}

#[test]
fn absent_elements_are_left_out() {
    let both = options(Some("/first"), Some("/last"), ":", DedupeKey::Raw);
    assert_eq!(assemble_elements(&both, None), strings(&["/first", "/last"]));
    let front = options(Some("/first"), None, ":", DedupeKey::Raw);
    assert_eq!(assemble_elements(&front, Some("/v".to_string())), strings(&["/first", "/v"]));
    let back = options(None, Some("/last"), ":", DedupeKey::Raw);
    assert_eq!(assemble_elements(&back, Some("/v".to_string())), strings(&["/v", "/last"]));
    let none = options(None, None, ":", DedupeKey::Raw);
    assert_eq!(assemble_elements(&none, None), Vec::<String>::new());
    assert_eq!(assemble_elements(&none, Some("".to_string())), strings(&[""]));
}

#[test]
fn defaults_are_path_and_colon() {
    assert_eq!(DEFAULT_VAR_NAME, "PATH");
    assert_eq!(DEFAULT_DELIMITER, ":");
}

#[test]
fn root_directory_is_kept_on_the_real_filesystem() {
    for mode in [DedupeKey::Canonical, DedupeKey::Raw] {
        assert_eq!(merge(&strings(&["/"]), ":", mode), strings(&["/"]));
        assert_eq!(merge(&strings(&["/:/", "/"]), ":", mode), strings(&["/"]));
    }
}

#[test]
fn missing_path_is_dropped_on_the_real_filesystem() {
    let segments = strings(&["/no/such/directory/anywhere-7f3a:/", ""]);
    for mode in [DedupeKey::Canonical, DedupeKey::Raw] {
        assert_eq!(merge(&segments, ":", mode), strings(&["/"]));
    }
}

#[test]
fn device_file_is_dropped_on_the_real_filesystem() {
    let segments = strings(&["/dev/null:/"]);
    for mode in [DedupeKey::Canonical, DedupeKey::Raw] {
        assert_eq!(merge(&segments, ":", mode), strings(&["/"]));
    }
}

#[test]
fn other_spelling_of_root_is_a_duplicate_by_canonical_form() {
    let segments = strings(&["/:/.", "/./."]);
    assert_eq!(merge(&segments, ":", DedupeKey::Canonical), strings(&["/"]));
    assert_eq!(merge(&segments, ":", DedupeKey::Raw), strings(&["/", "/.", "/./."]));
}

#[test]
fn canonical_merge_keeps_the_text_as_given() {
    let segments = strings(&["/.:/"]);
    assert_eq!(merge(&segments, ":", DedupeKey::Canonical), strings(&["/."]));
}

#[test]
fn gen_path_joins_what_merge_keeps() {
    let elements = strings(&["/./.;/", "/no/such/directory/anywhere-7f3a;/."]);
    let canonical = options(None, None, ";", DedupeKey::Canonical);
    assert_eq!(gen_path(canonical, elements.clone()), "/./.");
    let raw = options(None, None, ";", DedupeKey::Raw);
    assert_eq!(gen_path(raw, elements), "/./.;/;/.");
}

#[test]
fn gen_path_of_nothing_is_empty() {
    for mode in [DedupeKey::Canonical, DedupeKey::Raw] {
        assert_eq!(gen_path(options(None, None, ":", mode), strings(&[])), "");
        assert_eq!(gen_path(options(None, None, ":", mode), strings(&["", ""])), "");
        assert_eq!(gen_path(options(None, None, ":", mode), strings(&[":", "::"])), "");
    }
}

/// The merge written out plainly, with a set of the identities taken.
fn plain_merge(mode: DedupeKey, candidates: &[Candidate]) -> Vec<String> {
    let mut kept = Vec::new();
    let mut taken = std::collections::HashSet::new();
    for candidate in candidates {
        let key = match mode {
            DedupeKey::Canonical => match &candidate.probe.canonical {
                Some(resolved) => resolved.clone(),
                None => continue,
            },
            DedupeKey::Raw => candidate.text.clone(),
        };
        if taken.contains(&key) {
            continue;
        }
        if !candidate.probe.exists || !candidate.probe.is_dir {
            continue;
        }
        kept.push(candidate.text.clone());
        taken.insert(key);
    }
    kept
}

#[test]
fn merge_agrees_with_the_plain_loop_on_every_short_list() {
    // every kind of candidate over two texts and two canonical forms
    let mut kinds: Vec<(&str, Option<&str>, bool, bool)> = Vec::new();
    for text in ["/a", "/b"] {
        for canonical in [None, Some("/x"), Some("/y")] {
            for (exists, is_dir) in [(false, false), (true, false), (true, true)] {
                kinds.push((text, canonical, exists, is_dir));
            }
        }
    }
    let build = |picked: &[usize]| -> Vec<Candidate> {
        picked
            .iter()
            .map(|&at| {
                let (text, canonical, exists, is_dir) = kinds[at];
                Candidate {
                    text: text.to_string(),
                    probe: Probe { canonical: canonical.map(|s| s.to_string()), exists, is_dir },
                }
            })
            .collect()
    };
    let n = kinds.len();
    for first in 0..n {
        for second in 0..n {
            for third in 0..n {
                for len in 0..=3 {
                    let picked = [first, second, third];
                    let candidates = build(&picked[..len]);
                    for mode in [DedupeKey::Canonical, DedupeKey::Raw] {
                        assert_eq!(merge_probed(mode, &candidates), plain_merge(mode, &candidates));
                    }
                }
            }
        }
    }
}
