use fortune_kind::file::{Candidate, CorpusError, Entry, Listing};
use fortune_kind::fortune::{
    drawn_quote, get_fortune_dir, get_fortune_off_dir, get_quote, parse_quotes, pool_indices,
    search_files, search_fortunes, target_length, Action, Event, SearchAction, SearchEvent,
    FORTUNE_DIR, FORTUNE_OFF_DIR, REFUSAL, REFUSED, SHORT,
};

fn chars(text: &str) -> Vec<char> {
    text.chars().collect()
}

/// A fortune file with a short fortune and a longer one, as it lies on disk.
fn fortune_file() -> String {
    format!(
        "{}\n",
        "Short fortune.\n%\nThis is a very long fortune that is definitely longer than the short limit... [repeat to ensure length] ...\n%"
    )
}

/// Runs a request to its end, with one directory that holds `files`.
fn run(level: u8, files: &Vec<String>) -> Action {
    let mut event = Event::Start;
    for _ in 0..4 {
        match get_quote(&level, event) {
            Action::Scan => {
                let mut entries: Vec<Entry> = Vec::new();
                for text in files {
                    entries.push(Entry { size: text.len() as u64, regular: true });
                }
                event = Event::Scanned(Listing::Directory(entries));
            }
            Action::Read(file) => {
                assert_eq!(file.size, files[file.file].len() as u64);
                event = Event::Loaded(files[file.file].clone());
            }
            last => return last,
        }
    }
    panic!("the request did not end");
}

/// With the short flag given once the quote is within the default length.
#[test]
fn test_get_quote_default_size() {
    let files: Vec<String> = vec![fortune_file()];
    for _ in 0..50 {
        match run(1, &files) {
            Action::Print(stdout) => {
                assert!(stdout.trim().len() <= SHORT);
                assert!(!stdout.trim().is_empty());
            }
            other => panic!("no quote: {:?}", other),
        }
    }
}

/// At level 255 the message is printed in place of a quote.
#[test]
fn test_get_quote_humorous_message() {
    let files: Vec<String> = vec![fortune_file()];
    assert_eq!(run(255, &files), Action::Refuse);
    assert_eq!(format!("{}\n", REFUSAL), "WE GET IT, YOU WANT A SHORT FORTUNE\n");
}

/// Level 255 refuses at once, whatever the event holds: no file is asked
/// for.
#[test]
fn test_refusal_comes_before_any_read() {
    assert_eq!(REFUSED, 255);
    assert_eq!(get_quote(&255, Event::Start), Action::Refuse);
    assert_eq!(get_quote(&255, Event::Scanned(Listing::Missing)), Action::Refuse);
    assert_eq!(get_quote(&255, Event::Scanned(Listing::File(10))), Action::Refuse);
    assert_eq!(get_quote(&255, Event::Scanned(Listing::Directory(Vec::new()))), Action::Refuse);
    assert_eq!(get_quote(&255, Event::Loaded(String::from("a\n%\nb"))), Action::Refuse);
    assert_eq!(get_quote(&255, Event::Loaded(String::new())), Action::Refuse);
    assert_eq!(run(255, &Vec::new()), Action::Refuse);
}

#[test]
fn test_request_begins_with_a_scan() {
    for level in 0u8..255 {
        assert_eq!(get_quote(&level, Event::Start), Action::Scan);
    }
}

#[test]
fn test_scan_errors_end_the_request() {
    assert_eq!(
        get_quote(&0, Event::Scanned(Listing::Missing)),
        Action::Fail(CorpusError::NotFound)
    );
    assert_eq!(
        get_quote(&1, Event::Scanned(Listing::Unreadable)),
        Action::Fail(CorpusError::IoError)
    );
    assert_eq!(
        get_quote(&2, Event::Scanned(Listing::Directory(Vec::new()))),
        Action::Fail(CorpusError::EmptyCorpus)
    );
    assert_eq!(
        get_quote(&0, Event::Scanned(Listing::File(0))),
        Action::Fail(CorpusError::EmptyCorpus)
    );
    let no_files = Listing::Directory(vec![
        Entry { size: 100, regular: false },
        Entry { size: 0, regular: true },
    ]);
    assert_eq!(get_quote(&0, Event::Scanned(no_files)), Action::Fail(CorpusError::EmptyCorpus));
}

#[test]
fn test_scan_is_followed_by_the_read_of_a_file() {
    assert_eq!(
        get_quote(&0, Event::Scanned(Listing::File(12))),
        Action::Read(Candidate { size: 12, file: 0 })
    );
    let listing = Listing::Directory(vec![
        Entry { size: 100, regular: false },
        Entry { size: 0, regular: true },
        Entry { size: 40, regular: true },
    ]);
    assert_eq!(
        get_quote(&3, Event::Scanned(listing)),
        Action::Read(Candidate { size: 40, file: 2 })
    );
}

/// Only delimiters: no record, so nothing is printed.
#[test]
fn test_file_without_quotes_prints_nothing() {
    for level in 0u8..255 {
        assert_eq!(get_quote(&level, Event::Loaded(String::from("\n%\n\n%\n"))), Action::Silent);
        assert_eq!(get_quote(&level, Event::Loaded(String::new())), Action::Silent);
        assert_eq!(get_quote(&level, Event::Loaded(String::from(" \n "))), Action::Silent);
    }
    assert_eq!(run(0, &vec![String::from("\n%\n\n%\n")]), Action::Silent);
}

/// At level 1 a record of more than 150 characters is never returned while
/// a shorter one exists.
#[test]
fn test_short_level_never_returns_the_long_record() {
    let long: String = "Long text ".repeat(16);
    assert_eq!(long.trim().chars().count(), 159);
    let text: String = format!("Short\n%\n{}\n%", long);
    for _ in 0..200 {
        assert_eq!(
            get_quote(&1, Event::Loaded(text.clone())),
            Action::Print(String::from("Short"))
        );
    }
}

#[test]
fn test_level_zero_returns_any_record() {
    let long: String = "x".repeat(400);
    let text: String = format!("Short\n%\n{}\n%\n", long);
    let mut short_seen: bool = false;
    let mut long_seen: bool = false;
    for _ in 0..400 {
        match get_quote(&0, Event::Loaded(text.clone())) {
            Action::Print(quote) => {
                if quote == "Short" {
                    short_seen = true;
                } else {
                    assert_eq!(quote, long);
                    long_seen = true;
                }
            }
            other => panic!("no quote: {:?}", other),
        }
    }
    assert!(short_seen);
    assert!(long_seen);
}

/// Where no record is short enough the quote comes from all records.
#[test]
fn test_falls_back_to_all_records() {
    let text: String = String::from("first quote\n%\nsecond quote\n%\n");
    let mut first_seen: bool = false;
    let mut second_seen: bool = false;
    for _ in 0..400 {
        match get_quote(&5, Event::Loaded(text.clone())) {
            Action::Print(quote) => {
                if quote == "first quote" {
                    first_seen = true;
                } else {
                    assert_eq!(quote, "second quote");
                    second_seen = true;
                }
            }
            other => panic!("no quote: {:?}", other),
        }
    }
    assert!(first_seen);
    assert!(second_seen);
}

#[test]
fn test_each_level_keeps_to_its_target() {
    let mut text = String::new();
    for len in [1usize, 2, 4, 9, 18, 37, 75, 150, 151, 300] {
        text.push_str(&"q".repeat(len));
        text.push_str("\n%\n");
    }
    for level in 1u8..255 {
        for _ in 0..20 {
            match get_quote(&level, Event::Loaded(text.clone())) {
                Action::Print(quote) => assert!(quote.len() <= target_length(level)),
                other => panic!("no quote: {:?}", other),
            }
        }
    }
}

#[test]
fn test_length_counts_characters_of_the_trimmed_record() {
    // Two characters, six bytes, and white space around them.
    let text: String = String::from("   日本   \n%\nlonger than two\n");
    for _ in 0..100 {
        assert_eq!(get_quote(&7, Event::Loaded(text.clone())), Action::Print(String::from("日本")));
    }
}

/// The target length at each level: 150 halved `level - 1` times, and at
/// least 1.
#[test]
fn test_target_length_values() {
    assert_eq!(SHORT, 150);
    assert_eq!(target_length(1), 150);
    assert_eq!(target_length(2), 75);
    assert_eq!(target_length(3), 37);
    assert_eq!(target_length(4), 18);
    assert_eq!(target_length(5), 9);
    assert_eq!(target_length(6), 4);
    assert_eq!(target_length(7), 2);
    assert_eq!(target_length(8), 1);
    assert_eq!(target_length(9), 1);
    assert_eq!(target_length(10), 1);
    assert_eq!(target_length(64), 1);
    assert_eq!(target_length(65), 1);
    assert_eq!(target_length(254), 1);
    assert_eq!(target_length(255), 1);
}

#[test]
fn test_target_length_is_the_shift() {
    for level in 1u8..=254 {
        let shifted: usize = 150usize.checked_shr(u32::from(level) - 1).unwrap_or(0);
        let expected: usize = if shifted < 1 { 1 } else { shifted };
        assert_eq!(target_length(level), expected);
    }
}

#[test]
fn test_pool_indices() {
    let records: Vec<Vec<char>> =
        vec![chars(&"a".repeat(80)), chars("bb"), chars(&"c".repeat(75)), chars("d")];
    assert_eq!(pool_indices(0, &records), vec![0, 1, 2, 3]);
    assert_eq!(pool_indices(1, &records), vec![0, 1, 2, 3]);
    assert_eq!(pool_indices(2, &records), vec![1, 2, 3]);
    assert_eq!(pool_indices(3, &records), vec![1, 3]);
    assert_eq!(pool_indices(7, &records), vec![1, 3]);
    assert_eq!(pool_indices(8, &records), vec![3]);
    assert_eq!(pool_indices(200, &records), vec![3]);
    let long: Vec<Vec<char>> = vec![chars("abc"), chars("de")];
    assert_eq!(pool_indices(7, &long), vec![1]);
    assert_eq!(pool_indices(8, &long), vec![0, 1]);
    assert_eq!(pool_indices(3, &Vec::new()), Vec::<usize>::new());
    assert_eq!(pool_indices(0, &Vec::new()), Vec::<usize>::new());
}

#[test]
fn test_drawn_quote_is_the_record_of_the_draw() {
    let records: Vec<Vec<char>> =
        vec![chars(&"a".repeat(80)), chars("bb"), chars(&"c".repeat(75)), chars("d")];
    let picks: Vec<usize> = pool_indices(3, &records);
    assert_eq!(picks.len(), 2);
    assert_eq!(drawn_quote(&records, &picks, 0), "bb");
    assert_eq!(drawn_quote(&records, &picks, 1), "d");
    let all: Vec<usize> = pool_indices(0, &records);
    assert_eq!(drawn_quote(&records, &all, 2), "c".repeat(75));
}

#[test]
fn test_parse_quotes() {
    assert_eq!(
        parse_quotes("Linux is great\n%\nMac is okay\n%\nLinux is fast\n%\n"),
        vec!["Linux is great", "Mac is okay", "Linux is fast"]
    );
    assert_eq!(parse_quotes("\n%\n\n%\n"), Vec::<String>::new());
    assert_eq!(parse_quotes(""), Vec::<String>::new());
    assert_eq!(parse_quotes("  only one  "), vec!["only one"]);
    assert_eq!(parse_quotes(&fortune_file()).len(), 2);
    assert_eq!(parse_quotes(&fortune_file())[0], "Short fortune.");
}

/// Runs a search to its end, with one directory that holds `files`.
fn search(pattern: &str, files: &Vec<String>) -> SearchAction {
    let mut event = SearchEvent::Start;
    for _ in 0..4 {
        match search_fortunes(pattern, event) {
            SearchAction::Scan => {
                let mut entries: Vec<Entry> = Vec::new();
                for text in files {
                    entries.push(Entry { size: text.len() as u64, regular: true });
                }
                event = SearchEvent::Scanned(Listing::Directory(entries));
            }
            SearchAction::Read(asked) => {
                let mut contents: Vec<String> = Vec::new();
                for file in asked {
                    assert_eq!(file.size, files[file.file].len() as u64);
                    contents.push(files[file.file].clone());
                }
                event = SearchEvent::Loaded(contents);
            }
            last => return last,
        }
    }
    panic!("the search did not end");
}

/// A search emits every record that holds the pattern, each followed by a
/// line with a percent sign, and no other record.
#[test]
fn test_search_emits_every_match() {
    let files: Vec<String> = vec![String::from("Target One\n%\nNo Match\n%\nTarget Two\n%\n")];
    assert_eq!(search_files("Target", &files), "Target One\n%\nTarget Two\n%\n");
    assert_eq!(
        search("Target", &files),
        SearchAction::Print(String::from("Target One\n%\nTarget Two\n%\n"))
    );
}

#[test]
fn test_search_goes_through_the_files_in_order() {
    let files: Vec<String> = vec![
        String::from("Linux is great\n%\nMac is okay\n%\nLinux is fast\n%"),
        String::from("nothing here"),
        String::new(),
        String::from("  on Linux too  \n%\n"),
    ];
    assert_eq!(
        search_files("Linux", &files),
        "Linux is great\n%\nLinux is fast\n%\n%\non Linux too\n%\n"
    );
    assert_eq!(search_files("Mac", &files), "Mac is okay\n%\n");
    assert_eq!(search_files("linux", &files), "");
    assert_eq!(search_files("Linux", &Vec::new()), "");
    assert_eq!(
        search("Linux", &files),
        SearchAction::Print(String::from(
            "Linux is great\n%\nLinux is fast\n%\n%\non Linux too\n%\n"
        ))
    );
}

#[test]
fn test_search_for_the_empty_pattern_lists_every_record() {
    let files: Vec<String> = vec![String::from("a\n%\n\n%\nb\n"), String::from("c")];
    assert_eq!(search_files("", &files), "a\n%\nb\n%\nc\n%\n");
}

#[test]
fn test_search_is_a_plain_substring_search() {
    let files: Vec<String> = vec![String::from("a.c\n%\nabc\n%\na*\n")];
    assert_eq!(search_files("a.c", &files), "a.c\n%\n");
    assert_eq!(search_files(".", &files), "a.c\n%\n");
    assert_eq!(search_files("a*", &files), "a*\n%\n");
}

#[test]
fn test_search_begins_with_a_scan() {
    assert_eq!(search_fortunes("x", SearchEvent::Start), SearchAction::Scan);
    assert_eq!(search_fortunes("", SearchEvent::Start), SearchAction::Scan);
}

#[test]
fn test_search_fails_where_the_scan_fails() {
    assert_eq!(
        search_fortunes("x", SearchEvent::Scanned(Listing::Missing)),
        SearchAction::Fail(CorpusError::NotFound)
    );
    assert_eq!(
        search_fortunes("x", SearchEvent::Scanned(Listing::Unreadable)),
        SearchAction::Fail(CorpusError::IoError)
    );
}

#[test]
fn test_search_reads_every_candidate() {
    let listing = Listing::Directory(vec![
        Entry { size: 5, regular: true },
        Entry { size: 4096, regular: false },
        Entry { size: 0, regular: true },
        Entry { size: 500, regular: true },
    ]);
    assert_eq!(
        search_fortunes("x", SearchEvent::Scanned(listing)),
        SearchAction::Read(vec![
            Candidate { size: 5, file: 0 },
            Candidate { size: 0, file: 2 },
            Candidate { size: 500, file: 3 },
        ])
    );
    assert_eq!(
        search_fortunes("x", SearchEvent::Scanned(Listing::File(7))),
        SearchAction::Read(vec![Candidate { size: 7, file: 0 }])
    );
    assert_eq!(
        search_fortunes("x", SearchEvent::Scanned(Listing::Directory(Vec::new()))),
        SearchAction::Read(Vec::new())
    );
}

#[test]
fn test_search_in_nothing_prints_nothing() {
    assert_eq!(
        search_fortunes("x", SearchEvent::Loaded(Vec::new())),
        SearchAction::Print(String::new())
    );
    assert_eq!(search("x", &Vec::new()), SearchAction::Print(String::new()));
    assert_eq!(
        search("absent", &vec![String::from("a\n%\nb\n")]),
        SearchAction::Print(String::new())
    );
}

#[test]
fn test_get_fortune_dir() {
    assert_eq!(FORTUNE_DIR, "fortunes");
    assert_eq!(get_fortune_dir(None), "fortunes");
    assert_eq!(get_fortune_dir(Some(String::from("/usr/share/games"))), "/usr/share/games");
    assert_eq!(get_fortune_dir(Some(String::new())), "");
}

#[test]
fn test_get_fortune_off_dir() {
    assert_eq!(FORTUNE_OFF_DIR, "fortunes_off");
    assert_eq!(get_fortune_off_dir(None), "fortunes_off");
    assert_eq!(get_fortune_off_dir(Some(String::from("/tmp/off"))), "/tmp/off");
}
