use kloop_core::protocol::ContentBlock;
use kloop_core::protocol::Injected;
use kloop_core::protocol::Message;
use kloop_core::restore::candidates;
use kloop_core::restore::first_page;
use kloop_core::restore::Inspected;
use kloop_core::restore::Restoring;
use kloop_core::restore::FILE_CHARS;
use kloop_core::restore::HEADER;
use kloop_core::restore::MAX_FILES;
use kloop_core::restore::TOTAL_CHARS;
use kloop_core::tokens::estimate_text_tokens;

fn read_of(paths: &[&str]) -> Vec<Message> {
    vec![Message::assistant(
        paths
            .iter()
            .enumerate()
            .map(|(index, path)| ContentBlock::ToolUse {
                id: format!("r{index}"),
                name: "read_file".into(),
                input: format!("{{\"path\":\"{path}\"}}"),
            })
            .collect(),
    )]
}

/// Restores from files in memory; a read gives back the page that was asked
/// for, with the line that says how to go on.
fn restore_from(
    files: &[(&str, String)],
    folded: &Vec<Message>,
    tail: &Vec<Message>,
    budget: u64,
) -> Option<String> {
    let mut restoring = Restoring::start(folded, tail, "/w", budget);
    loop {
        let Some(path) = restoring.next_path(false) else {
            break;
        };
        let path = path.clone();
        let content = files.iter().find(|(name, _)| *name == path).map(|(_, c)| c);
        if let Inspected::Read(page) = restoring.inspect(false, content.map(|c| c.as_str())) {
            restoring.take_read(page.lines, page.total_lines, Some(&page.text));
        }
    }
    restoring.finish().map(|message| {
        assert_eq!(message.injected, Some(Injected::RestoredFiles));
        match message.content.as_slice() {
            [ContentBlock::Text { text }] => text.clone(),
            other => panic!("{other:?}"),
        }
    })
}

fn restore(files: &[(&str, String)], folded: &Vec<Message>, budget: u64) -> Option<String> {
    restore_from(files, folded, &Vec::new(), budget)
}

#[test]
fn a_long_file_comes_back_as_its_head_with_a_continuation() {
    let path = "/w/big.txt";
    let line = "x".repeat(49);
    let files = [(path, vec![line.as_str(); 1_000].join("\n"))];
    let text = restore(&files, &read_of(&[path]), u64::MAX).unwrap();
    let mut shown = 0;
    let mut chars = 0;
    for number in 1..=1_000usize {
        let rendered = number.to_string().len() + 1 + line.len() + usize::from(number > 1);
        if chars + rendered > FILE_CHARS {
            break;
        }
        chars += rendered;
        shown = number;
    }
    assert!(
        text.starts_with(&format!(
            "{HEADER}\n\n{path} (lines 1-{shown} of 1000):\n1\t{line}\n"
        )),
        "{text}"
    );
    assert!(
        text.ends_with(&format!(
            "\n{shown}\t{line}\n\n[showing lines 1-{shown} of 1000; call read_file with offset={} to continue]",
            shown + 1
        )),
        "{text}"
    );
}

#[test]
fn the_total_character_cap_stops_the_list() {
    let paths = ["/w/f0.txt", "/w/f1.txt", "/w/f2.txt", "/w/f3.txt"];
    let body = vec!["y".repeat(99); 108].join("\n");
    let files: Vec<(&str, String)> = paths.iter().map(|path| (*path, body.clone())).collect();
    let text = restore(&files, &read_of(&paths), u64::MAX).unwrap();
    assert!(text.len() <= TOTAL_CHARS);
    let listed: Vec<bool> = paths
        .iter()
        .map(|path| text.contains(&format!("{path} (lines")))
        .collect();
    assert_eq!(listed, [false, true, true, true]);
}

#[test]
fn the_window_share_caps_the_list_too() {
    let files = [
        ("/w/older.txt", "older body".to_string()),
        ("/w/newer.txt", "newer body".to_string()),
    ];
    let folded = read_of(&["/w/older.txt", "/w/newer.txt"]);
    let section = "/w/newer.txt (lines 1-1 of 1):\n1\tnewer body";
    let one = estimate_text_tokens(HEADER) + estimate_text_tokens(section);
    assert_eq!(
        restore(&files, &folded, one).unwrap(),
        format!("{HEADER}\n\n{section}")
    );
    assert_eq!(restore(&files, &folded, one - 1), None);
}

#[test]
fn notebooks_and_paths_still_in_the_tail_are_skipped() {
    let files = [
        ("/w/a.ipynb", "{\"cells\":[]}".to_string()),
        ("/w/kept.txt", "kept".to_string()),
    ];
    let folded = read_of(&["/w/a.ipynb", "/w/kept.txt"]);
    let tail = read_of(&["/w/kept.txt"]);
    assert_eq!(restore_from(&files, &folded, &tail, u64::MAX), None);
}

#[test]
fn relative_paths_are_the_same_files_and_the_newest_read_counts() {
    let folded = read_of(&["a.txt", "b.txt", "./a.txt"]);
    assert_eq!(
        candidates(&folded, &Vec::new(), "/w"),
        vec!["/w/a.txt".to_string(), "/w/b.txt".to_string()]
    );
}

#[test]
fn no_more_files_than_the_cap_come_back() {
    let paths: Vec<String> = (0..MAX_FILES + 2).map(|n| format!("/w/f{n}.txt")).collect();
    let refs: Vec<&str> = paths.iter().map(|p| p.as_str()).collect();
    let files: Vec<(&str, String)> = refs.iter().map(|p| (*p, "body".to_string())).collect();
    let text = restore(&files, &read_of(&refs), u64::MAX).unwrap();
    assert_eq!(text.matches("(lines 1-1 of 1)").count(), MAX_FILES);
    assert!(!text.contains("/w/f0.txt"));
}

#[test]
fn files_that_are_gone_blocked_or_empty_are_passed_over() {
    let folded = read_of(&["/w/a.txt"]);
    let mut gone = Restoring::start(&folded, &Vec::new(), "/w", u64::MAX);
    assert_eq!(gone.inspect(false, None), Inspected::Skip);
    assert_eq!(gone.next_path(false), None);
    let mut blocked = Restoring::start(&folded, &Vec::new(), "/w", u64::MAX);
    assert_eq!(blocked.inspect(true, Some("body")), Inspected::Skip);
    assert_eq!(blocked.finish(), None);
    let begun = Restoring::start(&folded, &Vec::new(), "/w", u64::MAX);
    assert_eq!(begun.next_path(true), None, "cancelled");
    assert_eq!(first_page(""), None);
    assert_eq!(first_page(&"z".repeat(FILE_CHARS + 1)), None);
    assert_eq!(first_page("a\nb").unwrap().text, "1\ta\n2\tb");
    assert_eq!(first_page("a\r\nb").unwrap().text, "1\ta\n2\tb");
}
