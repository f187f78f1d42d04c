use cmd_wrapped::history::{History, HistoryProvider};
use cmd_wrapped::parser::{parse_segment, CommandParser};
use cmd_wrapped::HistoryError;

fn parse_block(block: &[u8], provider: HistoryProvider) -> Vec<cmd_wrapped::parser::Command> {
    CommandParser::from_raw(block.to_vec())
        .parse(&provider)
        .unwrap()
        .finish()
}

#[test]
fn zsh_block_two_commands() {
    let cmds = parse_block(b": 1700000000:0;ls -la && pwd", HistoryProvider::Zsh);
    assert_eq!(cmds.len(), 2);
    assert_eq!(cmds[0].command, b"ls".to_vec());
    assert_eq!(cmds[1].command, b"pwd".to_vec());
    assert_eq!(
        cmds[0].arguments,
        vec![b"ls".to_vec(), b"-la".to_vec()]
    );
    let t0 = cmds[0].time.expect("first command must carry the timestamp");
    let t1 = cmds[1].time.expect("second command must carry the timestamp");
    assert_eq!(t0.epoch, 1700000000);
    assert_eq!(t0, t1);
    assert!(t0.month0 < 12);
    assert!(t0.day >= 1 && t0.day <= 31);
    assert!(t0.hour < 24);
}

#[test]
fn bash_stream_one_command() {
    let mut h = History::from(&HistoryProvider::Bash);
    assert_eq!(h.feed(b"#1700000000\n"), None);
    let block = h.feed(b"ls -la\n").expect("command line ends the block");
    assert_eq!(block, b"#1700000000\nls -la\n".to_vec());
    let cmds = parse_block(&block, HistoryProvider::Bash);
    assert_eq!(cmds.len(), 1);
    assert_eq!(cmds[0].command, b"ls".to_vec());
    assert_eq!(cmds[0].time.expect("timestamp line is recognizable").epoch, 1700000000);
}

#[test]
fn atuin_line_local_timestamp() {
    let cmds = parse_block(b"2023-06-01 10:20:30;git commit -m x", HistoryProvider::Atuin);
    assert_eq!(cmds.len(), 1);
    assert_eq!(cmds[0].command, b"git".to_vec());
    let t = cmds[0].time.expect("the wall-clock timestamp names one instant");
    assert_eq!(t.year, 2023);
    assert_eq!(t.month0, 5);
    assert_eq!(t.day, 1);
    assert_eq!(t.hour, 10);
    assert_eq!(t.minute, 20);
    assert_eq!(t.second, 30);
}

#[test]
fn assignment_only_segment_is_a_parse_error() {
    assert!(matches!(
        parse_segment(b"FOO=bar", None),
        Err(HistoryError::ParseError)
    ));
}

#[test]
fn assignment_segment_skipped_sibling_kept() {
    let cmds = parse_block(b": 1700000000:0;FOO=bar && ls", HistoryProvider::Zsh);
    assert_eq!(cmds.len(), 1);
    assert_eq!(cmds[0].command, b"ls".to_vec());
}

#[test]
fn assignment_before_executable_is_kept_as_argument() {
    let cmds = parse_block(b": 1700000000:0;FOO=bar make -j4", HistoryProvider::Zsh);
    assert_eq!(cmds.len(), 1);
    assert_eq!(cmds[0].command, b"make".to_vec());
    assert_eq!(
        cmds[0].arguments,
        vec![b"FOO=bar".to_vec(), b"make".to_vec(), b"-j4".to_vec()]
    );
}

#[test]
fn sudo_prefix_is_dropped() {
    let cmds = parse_block(b": 1:0;sudo apt update", HistoryProvider::Zsh);
    assert_eq!(cmds.len(), 1);
    assert_eq!(cmds[0].command, b"apt".to_vec());
    assert_eq!(
        cmds[0].arguments,
        vec![b"apt".to_vec(), b"update".to_vec()]
    );
}

#[test]
fn pipe_splits_commands() {
    let cmds = parse_block(b": 1:0;cat f | wc -l", HistoryProvider::Zsh);
    assert_eq!(cmds.len(), 2);
    assert_eq!(cmds[0].command, b"cat".to_vec());
    assert_eq!(cmds[1].command, b"wc".to_vec());
}

#[test]
fn malformed_zsh_block_is_an_error() {
    let r = CommandParser::from_raw(b"ls -la".to_vec()).parse(&HistoryProvider::Zsh);
    assert!(r.is_err());
    let r = CommandParser::from_raw(b": x:0;ls".to_vec()).parse(&HistoryProvider::Zsh);
    assert!(r.is_err());
    let r = CommandParser::from_raw(b": 12:0;".to_vec()).parse(&HistoryProvider::Zsh);
    assert!(r.is_err());
}

#[test]
fn zsh_epoch_too_wide_is_an_error() {
    // one past u64::MAX
    let r = CommandParser::from_raw(b": 18446744073709551616:0;ls".to_vec())
        .parse(&HistoryProvider::Zsh);
    assert!(r.is_err());
}

#[test]
fn zsh_epoch_out_of_calendar_range_has_no_timestamp() {
    let cmds = parse_block(b": 18446744073709551615:0;ls", HistoryProvider::Zsh);
    assert_eq!(cmds.len(), 1);
    assert!(cmds[0].time.is_none());
}

#[test]
fn fish_line() {
    let cmds = parse_block(b"1700000000;make test", HistoryProvider::Fish);
    assert_eq!(cmds.len(), 1);
    assert_eq!(cmds[0].command, b"make".to_vec());
    assert_eq!(cmds[0].time.unwrap().epoch, 1700000000);
}

#[test]
fn fish_bad_timestamp_is_an_error() {
    let r = CommandParser::from_raw(b"abc;ls".to_vec()).parse(&HistoryProvider::Fish);
    assert!(r.is_err());
    let r = CommandParser::from_raw(b"ls -la".to_vec()).parse(&HistoryProvider::Fish);
    assert!(r.is_err());
}

#[test]
fn atuin_missing_separator_is_an_error() {
    let r = CommandParser::from_raw(b"2023-06-01 10:20:30 ls".to_vec())
        .parse(&HistoryProvider::Atuin);
    assert!(r.is_err());
}

#[test]
fn atuin_invalid_date_has_no_timestamp() {
    let cmds = parse_block(b"2023-13-01 10:20:30;ls", HistoryProvider::Atuin);
    assert_eq!(cmds.len(), 1);
    assert!(cmds[0].time.is_none());
    let cmds = parse_block(b"2023-02-29 10:20:30;ls", HistoryProvider::Atuin);
    assert!(cmds[0].time.is_none());
}

#[test]
fn zsh_continuation_joins_lines() {
    let mut h = History::from(&HistoryProvider::Zsh);
    assert_eq!(h.feed(b": 1:0;echo a \\\n"), None);
    let block = h.feed(b"b\n").expect("line without backslash ends the block");
    assert_eq!(block, b": 1:0;echo a b".to_vec());
}

#[test]
fn zsh_partial_block_flushes_at_end() {
    let mut h = History::from(&HistoryProvider::Zsh);
    assert_eq!(h.feed(b": 1:0;echo a \\\n"), None);
    assert_eq!(h.finish(), Some(b": 1:0;echo a ".to_vec()));
}

#[test]
fn zsh_blank_lines_are_skipped() {
    let mut h = History::from(&HistoryProvider::Zsh);
    assert_eq!(h.feed(b"\n"), None);
    assert_eq!(h.feed(b": 1:0;ls\n"), Some(b": 1:0;ls".to_vec()));
    assert_eq!(h.finish(), None);
}

#[test]
fn bash_partial_block_is_dropped_at_end() {
    let mut h = History::from(&HistoryProvider::Bash);
    assert_eq!(h.feed(b"#1700000000\n"), None);
    assert_eq!(h.finish(), None);
}

#[test]
fn bash_comments_are_skipped_in_body() {
    let block = b"#1700000000\n#comment\nls -la\n";
    let cmds = parse_block(block, HistoryProvider::Bash);
    assert_eq!(cmds.len(), 1);
    assert_eq!(cmds[0].command, b"ls".to_vec());
    assert_eq!(cmds[0].time.unwrap().epoch, 1700000000);
}

#[test]
fn bash_unrecognizable_timestamp_is_none() {
    let cmds = parse_block(b"#not-a-number\nls\n", HistoryProvider::Bash);
    assert_eq!(cmds.len(), 1);
    assert!(cmds[0].time.is_none());
    assert_eq!(cmds[0].command, b"ls".to_vec());
}

#[test]
fn bash_block_without_marker_has_no_timestamp() {
    let cmds = parse_block(b"ls -la\n", HistoryProvider::Bash);
    assert_eq!(cmds.len(), 1);
    assert!(cmds[0].time.is_none());
}

#[test]
fn provider_keywords() {
    assert_eq!(HistoryProvider::try_from_keyword(b"zsh"), Some(HistoryProvider::Zsh));
    assert_eq!(HistoryProvider::try_from_keyword(b"bash"), Some(HistoryProvider::Bash));
    assert_eq!(HistoryProvider::try_from_keyword(b"atuin"), Some(HistoryProvider::Atuin));
    assert_eq!(HistoryProvider::try_from_keyword(b"fish"), Some(HistoryProvider::Fish));
    assert_eq!(HistoryProvider::try_from_keyword(b"csh"), None);
    assert_eq!(HistoryProvider::from(&"fish".to_string()), HistoryProvider::Fish);
}

#[test]
fn segment_lines_full_stream() {
    let lines: Vec<Vec<u8>> = vec![
        b": 1:0;ls\n".to_vec(),
        b": 2:0;echo a \\\n".to_vec(),
        b"b\n".to_vec(),
        b"\n".to_vec(),
        b": 3:0;pwd".to_vec(),
    ];
    let blocks = cmd_wrapped::history::segment_lines(&HistoryProvider::Zsh, &lines);
    assert_eq!(
        blocks,
        vec![
            b": 1:0;ls".to_vec(),
            b": 2:0;echo a b".to_vec(),
            b": 3:0;pwd".to_vec(),
        ]
    );
}

#[test]
fn histfile_path_last_line() {
    let out = b"\nsome banner\n/home/user/.zsh_history\n";
    assert_eq!(
        cmd_wrapped::history::histfile_path_line(out),
        b"/home/user/.zsh_history".to_vec()
    );
    assert_eq!(cmd_wrapped::history::histfile_path_line(b"  \n "), Vec::<u8>::new());
}
