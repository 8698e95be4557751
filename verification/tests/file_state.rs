use kloop_core::file_state::coalesce;
use kloop_core::file_state::FileIdentity;
use kloop_core::file_state::FileMetadata;
use kloop_core::file_state::FileObservation;
use kloop_core::file_state::FileState;
use kloop_core::file_state::FileStateUpdate;
use kloop_core::file_state::FileVersion;
use kloop_core::file_state::Span;
use kloop_core::paths::normalize_absolute_path;

const FILE: FileIdentity = FileIdentity { device: 1, inode: 2 };

fn metadata(bytes: &[u8], modified: i128) -> FileMetadata {
    FileMetadata {
        len: bytes.len() as u64,
        modified: Some(modified),
        created: None,
        readonly: false,
        device: 1,
        inode: 2,
        mode: 0o100644,
    }
}

fn read(bytes: &[u8], total: u64, start: u64, end: u64, empty_from_start: bool) -> FileObservation {
    FileObservation::from_read_with_identity(
        bytes,
        metadata(bytes, 7),
        FILE,
        total,
        Span { start, end },
        empty_from_start,
    )
}

fn observe(state: &mut FileState, path: &str, observation: FileObservation) {
    state.apply(FileStateUpdate::Observe { path: path.into(), observation });
}

fn replace(state: &mut FileState, path: &str, observation: FileObservation) {
    state.apply(FileStateUpdate::Replace { path: path.into(), observation });
}

#[test]
fn partial_ranges_merge_into_a_complete_observation() {
    let bytes = b"a\nb\nc\nd\n";
    let mut state = FileState::default();
    observe(&mut state, "/f", read(bytes, 4, 0, 2, false));
    assert!(!state.observation("/f").unwrap().is_complete());
    observe(&mut state, "/f", read(bytes, 4, 2, 4, false));
    assert!(state.observation("/f").unwrap().is_complete());
}

#[test]
fn coverage_with_a_hole_is_not_complete() {
    let bytes = b"a\nb\nc\nd\n";
    let mut state = FileState::default();
    observe(&mut state, "/f", read(bytes, 4, 0, 2, false));
    observe(&mut state, "/f", read(bytes, 4, 3, 4, false));
    assert!(!state.observation("/f").unwrap().is_complete());
    observe(&mut state, "/f", read(bytes, 4, 2, 3, false));
    assert!(state.observation("/f").unwrap().is_complete());
}

#[test]
fn first_unread_unit_is_the_front_of_the_gap() {
    let bytes = b"a\nb\nc\nd\n";
    let mut state = FileState::default();
    observe(&mut state, "/f", read(bytes, 4, 0, 2, false));
    assert_eq!(state.observation("/f").unwrap().first_unread_unit(), Some(3));

    state.apply(FileStateUpdate::Clear { path: "/f".into() });
    observe(&mut state, "/f", read(bytes, 4, 2, 4, false));
    assert_eq!(state.observation("/f").unwrap().first_unread_unit(), Some(1));

    observe(&mut state, "/f", read(bytes, 4, 0, 2, false));
    assert_eq!(state.observation("/f").unwrap().first_unread_unit(), None);
}

#[test]
fn complete_mutation_observation_survives_a_partial_line_read() {
    let bytes = b"alpha\nbeta\n";
    let mut state = FileState::default();
    replace(
        &mut state,
        "/f",
        FileObservation::full_with_identity(bytes, metadata(bytes, 7), FILE),
    );
    observe(&mut state, "/f", read(bytes, 2, 0, 1, false));
    assert!(state.observation("/f").unwrap().is_complete());
}

#[test]
fn a_new_version_replaces_old_coverage() {
    let mut state = FileState::default();
    observe(&mut state, "/f", read(b"old\nvalue\n", 2, 0, 2, false));
    assert!(state.observation("/f").unwrap().is_complete());
    observe(&mut state, "/f", read(b"new\nvalue\nextra\n", 3, 0, 1, false));
    assert!(!state.observation("/f").unwrap().is_complete());
}

#[test]
fn a_new_identity_never_inherits_old_read_coverage() {
    let bytes = b"alpha\nbeta\n";
    let mut state = FileState::default();
    observe(&mut state, "/f", read(bytes, 2, 0, 1, false));
    let replacement = FileObservation::from_read_with_identity(
        bytes,
        metadata(bytes, 7),
        FileIdentity { device: 1, inode: 3 },
        2,
        Span { start: 1, end: 2 },
        false,
    );
    observe(&mut state, "/f", replacement);
    assert!(!state.observation("/f").unwrap().is_complete());
    assert_eq!(state.observation("/f").unwrap().identity().inode, 3);
}

#[test]
fn eviction_is_oldest_first_and_memory_is_bounded() {
    let mut state = FileState::with_limits(2, usize::MAX, 4);
    for name in ["a", "b", "c"] {
        let bytes = name.as_bytes();
        replace(
            &mut state,
            &format!("/kloop-file-state-{name}"),
            FileObservation::full_with_identity(bytes, metadata(bytes, 7), FILE),
        );
    }
    assert_eq!(state.len(), 2);
    assert!(state.observation("/kloop-file-state-a").is_none());
    assert!(state.observation("/kloop-file-state-b").is_some());
    assert!(state.observation("/kloop-file-state-c").is_some());

    let mut tiny = FileState::with_limits(10, 1, 4);
    replace(
        &mut tiny,
        "/tiny",
        FileObservation::full_with_identity(b"x", metadata(b"x", 7), FILE),
    );
    assert_eq!(tiny.len(), 0);
}

#[test]
fn notebook_qualification_never_merges_into_a_generic_observation() {
    let bytes = b"{\"cells\":[]}";
    let mut state = FileState::default();
    replace(
        &mut state,
        "/n.ipynb",
        FileObservation::full_notebook_with_identity(bytes, metadata(bytes, 7), FILE),
    );
    let qualified = state.observation("/n.ipynb").unwrap();
    assert!(qualified.is_complete());
    assert!(qualified.is_notebook());

    observe(&mut state, "/n.ipynb", read(bytes, 1, 0, 1, true));
    let generic = state.observation("/n.ipynb").unwrap();
    assert!(generic.is_complete());
    assert!(!generic.is_notebook());
}

#[test]
fn normalization_collapses_relative_aliases() {
    assert_eq!(
        normalize_absolute_path("/workspace/root", "src/../README.md"),
        "/workspace/root/README.md"
    );
}

#[test]
fn normalization_of_other_spellings() {
    let at = |raw: &str| normalize_absolute_path("/w/r", raw);
    assert_eq!(at("/etc//./hosts"), "/etc/hosts");
    assert_eq!(at("../../../x"), "/x");
    assert_eq!(at(""), "/w/r");
    assert_eq!(at("/"), "/");
    assert_eq!(normalize_absolute_path("/w/r", &at("a/./b/../c")), at("a/c"));
}

#[test]
fn aliases_of_a_path_are_one_file() {
    let bytes = b"a\nb\n";
    let mut state = FileState::default();
    observe(&mut state, "/w/./f", read(bytes, 2, 0, 1, false));
    observe(&mut state, "/w//f", read(bytes, 2, 1, 2, false));
    assert_eq!(state.len(), 1);
    assert!(state.observation("/w/f").unwrap().is_complete());
}

#[test]
fn a_version_is_its_bytes_and_its_metadata() {
    let version = FileVersion::new(b"abc", metadata(b"abc", 7));
    assert!(version.matches(b"abc", metadata(b"abc", 7)));
    assert!(!version.matches(b"abd", metadata(b"abd", 7)));
    assert!(!version.matches(b"abc", metadata(b"abc", 8)));
    assert!(version.metadata_matches(metadata(b"abc", 7)));
    assert!(!version.metadata_matches(metadata(b"abc", 8)));
    // SHA-256 of "abc".
    let digest: Vec<u8> = vec![
        0xba, 0x78, 0x16, 0xbf, 0x8f, 0x01, 0xcf, 0xea, 0x41, 0x41, 0x40, 0xde, 0x5d, 0xae, 0x22,
        0x23, 0xb0, 0x03, 0x61, 0xa3, 0x96, 0x17, 0x7a, 0x9c, 0xb4, 0x10, 0xff, 0x61, 0xf2, 0x00,
        0x15, 0xad,
    ];
    assert!(version.same(&FileVersion::from_fingerprint(digest, metadata(b"abc", 7))));
}

#[test]
fn spans_are_merged_and_capped() {
    let span = |start, end| Span { start, end };
    assert_eq!(
        coalesce(&vec![span(5, 8), span(0, 2), span(2, 4), span(7, 9)], 10),
        vec![span(0, 4), span(5, 9)]
    );
    assert_eq!(coalesce(&Vec::new(), 3), Vec::<Span>::new());
    // Past the cap the highest ranges go; what touches a kept one still joins it.
    assert_eq!(
        coalesce(&vec![span(8, 9), span(4, 5), span(0, 1), span(5, 6)], 2),
        vec![span(0, 1), span(4, 6)]
    );
}

#[test]
fn rereads_of_pages_already_in_context_are_counted() {
    let bytes = b"a\nb\nc\nd\n";
    let mut state = FileState::default();
    let page = read(bytes, 4, 0, 2, false);
    assert_eq!(page.read_range(), Some(Span { start: 0, end: 2 }));
    let first = state.note_context_read("/f", &page);
    let fresh = state.note_context_read("/f", &read(bytes, 4, 2, 4, false));
    let again = state.note_context_read("/f", &page);
    let third = state.note_context_read("/f", &page);
    assert_eq!((first, fresh), (None, None));
    assert!(again.is_some() && third > again, "{again:?} {third:?}");
    state.forget_context_reads();
    assert_eq!(state.note_context_read("/f", &page), None);
}
