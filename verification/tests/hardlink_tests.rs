use ciruela::hardlink::{
    bytes_equal, files_to_link, find_link, newest_signature, select_sources, Candidate, FileEntry, Hardlink,
    SourceState, MAX_SOURCES,
};

fn state(image: u8, newest: u64) -> SourceState {
    SourceState { image: vec![image; 4], newest }
}

fn file(path: &str, exe: bool, size: u64, hashes: &[u8]) -> FileEntry {
    FileEntry { path: path.to_string(), exe, size, hashes: hashes.to_vec() }
}

#[test]
fn sources_are_newest_first_one_per_image() {
    let states = vec![state(1, 10), state(2, 30), state(1, 20), state(3, 5), state(2, 1)];
    let sel = select_sources(&states);
    assert_eq!(sel, vec![1, 2, 3]);
}

#[test]
fn sources_are_capped() {
    let states: Vec<SourceState> = (0..50u64).map(|i| SourceState { image: vec![i as u8], newest: i }).collect();
    let sel = select_sources(&states);
    assert_eq!(sel.len(), MAX_SOURCES);
    assert_eq!(sel[0], 49);
    assert_eq!(sel[36], 13);
}

#[test]
fn no_states_no_sources() {
    assert!(select_sources(&Vec::new()).is_empty());
}

#[test]
fn first_matching_candidate_is_linked() {
    let entry = file("/bin/x", true, 10, &[1, 2, 3]);
    let cands = vec![
        Candidate { source: "/a".to_string(), entry: None },
        Candidate { source: "/b".to_string(), entry: Some(file("/bin/x", false, 10, &[1, 2, 3])) },
        Candidate { source: "/c".to_string(), entry: Some(file("/bin/x", true, 10, &[1, 2, 3])) },
        Candidate { source: "/d".to_string(), entry: Some(file("/bin/x", true, 10, &[1, 2, 3])) },
    ];
    let link = find_link(&entry, &cands).unwrap();
    assert_eq!(link, Hardlink { source: "/c".to_string(), path: "/bin/x".to_string(), exe: true, size: 10, hashes: vec![1, 2, 3] });
    let other = file("/bin/x", true, 11, &[1, 2, 3]);
    assert!(find_link(&other, &cands).is_none());
}

#[test]
fn links_are_collected_for_file_entries_in_order() {
    let entries = vec![
        Some(file("/a", false, 1, &[1])),
        None,
        Some(file("/b", false, 2, &[2])),
        Some(file("/c", false, 3, &[3])),
    ];
    let candidates = vec![
        vec![Candidate { source: "/s1".to_string(), entry: Some(file("/a", false, 1, &[1])) }],
        vec![Candidate { source: "/s1".to_string(), entry: Some(file("/dir", false, 0, &[])) }],
        vec![Candidate { source: "/s2".to_string(), entry: Some(file("/b", false, 2, &[9])) }],
        vec![Candidate { source: "/s3".to_string(), entry: Some(file("/c", false, 3, &[3])) }],
    ];
    let links = files_to_link(&entries, &candidates);
    let got: Vec<(&str, &str)> = links.iter().map(|l| (l.source.as_str(), l.path.as_str())).collect();
    assert_eq!(got, vec![("/s1", "/a"), ("/s3", "/c")]);
}

#[test]
fn byte_strings_compare() {
    assert!(bytes_equal(&vec![1, 2], &vec![1, 2]));
    assert!(!bytes_equal(&vec![1, 2], &vec![1, 3]));
    assert!(!bytes_equal(&vec![1, 2], &vec![1]));
}

#[test]
fn newest_signature_is_the_maximum_or_zero() {
    assert_eq!(newest_signature(&vec![5, 90, 12]), 90);
    assert_eq!(newest_signature(&vec![7]), 7);
    assert_eq!(newest_signature(&vec![]), 0);
}
