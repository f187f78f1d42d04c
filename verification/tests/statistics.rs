use cmd_wrapped::history::HistoryProvider;
use cmd_wrapped::parser::{Command, CommandParser};
use cmd_wrapped::stats::{CountMap, Statistic};
use cmd_wrapped::time::TimeInfo;

fn at(year: i32, month0: u8, day: u8, hour: u8, epoch: i64) -> TimeInfo {
    TimeInfo::new(epoch, year, month0, day, hour, 0, 0).expect("a real date")
}

fn cmd(name: &[u8], time: Option<TimeInfo>) -> Command {
    Command {
        command_raw: name.to_vec(),
        time,
        command: name.to_vec(),
        arguments: vec![name.to_vec()],
    }
}

fn fresh(year: i32) -> Statistic {
    // started mid-June of 2023, mid-morning
    Statistic::from(year, at(2023, 5, 15, 10, 1686823200))
}

#[test]
fn counts_and_bucket_sums() {
    let mut s = fresh(2023);
    let cmds = vec![
        cmd(b"ls", Some(at(2023, 0, 2, 9, 100))),
        cmd(b"ls", Some(at(2023, 0, 3, 12, 200))),
        cmd(b"git", Some(at(2022, 3, 1, 20, 50))),
        cmd(b"vim", None),
    ];
    s.analyze_all(&cmds);
    assert_eq!(s.command_count_total, 4);
    assert_eq!(s.command_count, 2);
    assert!(s.command_count <= s.command_count_total);
    for buckets in [&s.list_daytime, &s.list_weekday, &s.list_month, &s.list_day] {
        let total: u64 = buckets.iter().sum();
        assert_eq!(total, s.command_count);
    }
    let today_total: u64 = s.list_daytime_today.iter().sum();
    assert_eq!(today_total, s.today_command_count);
}

#[test]
fn replaying_the_same_commands_gives_identical_buckets() {
    let cmds = vec![
        cmd(b"ls", Some(at(2023, 0, 2, 9, 100))),
        cmd(b"git", Some(at(2023, 4, 20, 22, 300))),
        cmd(b"vim", None),
        cmd(b"ls", Some(at(2022, 7, 9, 6, 10))),
    ];
    let mut a = fresh(2023);
    let mut b = fresh(2023);
    a.analyze_all(&cmds);
    b.analyze_all(&cmds);
    assert_eq!(a.list_daytime, b.list_daytime);
    assert_eq!(a.list_weekday, b.list_weekday);
    assert_eq!(a.list_day, b.list_day);
    assert_eq!(a.list_month, b.list_month);
    assert_eq!(a.list_month_total, b.list_month_total);
    assert_eq!(a.command_count, b.command_count);
    assert_eq!(a.command_count_total, b.command_count_total);
    assert_eq!(a.map_command_total.get(b"ls"), b.map_command_total.get(b"ls"));
    assert_eq!(a.first_command, b.first_command);
}

#[test]
fn weekday_argmax_is_order_independent() {
    // 2023-01-02 was a Monday; the following days cover Tue..Sun.
    let mut cmds = vec![];
    for _ in 0..5 {
        cmds.push(cmd(b"ls", Some(at(2023, 0, 2, 9, 100))));
    }
    for day in 3..=8 {
        for _ in 0..3 {
            cmds.push(cmd(b"ls", Some(at(2023, 0, day, 9, 100))));
        }
    }
    let mut s = fresh(2023);
    s.analyze_all(&cmds);
    assert_eq!(s.list_weekday, vec![5, 3, 3, 3, 3, 3, 3]);
    assert_eq!(s.most_active_weekday(), (0, 5));

    let mut rev = fresh(2023);
    let reversed: Vec<Command> = cmds.into_iter().rev().collect();
    rev.analyze_all(&reversed);
    assert_eq!(rev.list_weekday, vec![5, 3, 3, 3, 3, 3, 3]);
    assert_eq!(rev.most_active_weekday(), (0, 5));
}

#[test]
fn other_year_touches_only_all_time_aggregates() {
    let mut s = fresh(2023);
    s.analyze(&cmd(b"git", Some(at(2022, 2, 10, 12, 77))));
    assert_eq!(s.command_count_total, 1);
    assert_eq!(s.map_command_total.get(b"git"), 1);
    assert_eq!(s.list_month_total[2], 1);
    assert_eq!(s.command_count, 0);
    assert!(s.list_daytime.iter().all(|&c| c == 0));
    assert!(s.list_weekday.iter().all(|&c| c == 0));
    assert!(s.list_day.iter().all(|&c| c == 0));
    assert!(s.list_month.iter().all(|&c| c == 0));
    assert_eq!(s.map_command_annual.get(b"git"), 0);
    assert_eq!(s.map_command_monthly[2].get(b"git"), 0);
    assert_eq!(s.map_command_daily.get(b"git"), 0);
}

#[test]
fn selected_year_fills_detail_buckets() {
    let mut s = fresh(2023);
    // 2023-05-20 was a Saturday
    s.analyze(&cmd(b"git", Some(at(2023, 4, 20, 22, 300))));
    assert_eq!(s.command_count, 1);
    assert_eq!(s.list_daytime[22], 1);
    assert_eq!(s.list_weekday[5], 1);
    assert_eq!(s.list_month[4], 1);
    // 2023-05-20 is day 31+28+31+30+20 = 140, ordinal 139
    assert_eq!(s.list_day[139], 1);
    assert_eq!(s.map_command_annual.get(b"git"), 1);
    assert_eq!(s.map_command_monthly[4].get(b"git"), 1);
    assert_eq!(s.list_month_total[4], 1);
}

#[test]
fn first_command_is_the_earliest_regardless_of_order() {
    let a = cmd(b"first", Some(at(2023, 1, 1, 8, 50)));
    let b = cmd(b"second", Some(at(2023, 1, 2, 8, 100)));
    let c = cmd(b"third", Some(at(2023, 1, 3, 8, 200)));

    let mut s = fresh(2023);
    s.analyze(&b);
    s.analyze(&a);
    s.analyze(&c);
    assert_eq!(s.first_command, b"first".to_vec());
    assert_eq!(s.first_command_time.epoch, 50);

    let mut s = fresh(2023);
    s.analyze(&c);
    s.analyze(&b);
    s.analyze(&a);
    assert_eq!(s.first_command, b"first".to_vec());
    assert_eq!(s.first_command_time.epoch, 50);
}

#[test]
fn year_zero_selects_the_current_year_and_today() {
    // now: 2023-06-15 (ordinal 165), 10 in the morning
    let mut s = Statistic::from(0, at(2023, 5, 15, 10, 1686823200));
    // same calendar day, after 6: today
    s.analyze(&cmd(b"ls", Some(at(2023, 5, 15, 7, 1686812400))));
    // same calendar day, before 6: counts to the previous day
    s.analyze(&cmd(b"vim", Some(at(2023, 5, 15, 3, 1686798000))));
    // previous calendar day, evening: not today
    s.analyze(&cmd(b"git", Some(at(2023, 5, 14, 23, 1686783600))));
    // other year: only all-time aggregates
    s.analyze(&cmd(b"cat", Some(at(2022, 5, 15, 12, 55))));
    assert_eq!(s.command_count, 3);
    assert_eq!(s.command_count_total, 4);
    assert_eq!(s.today_command_count, 1);
    assert_eq!(s.map_command_daily.get(b"ls"), 1);
    assert_eq!(s.map_command_daily.get(b"vim"), 0);
    assert_eq!(s.map_command_daily.get(b"git"), 0);
    assert_eq!(s.list_daytime_today[7], 1);
}

#[test]
fn late_night_session_counts_to_the_previous_day() {
    // now: one in the night of 2023-06-15
    let mut s = Statistic::from(0, at(2023, 5, 15, 1, 1686790800));
    // the evening before, eleven at night: still "today"
    s.analyze(&cmd(b"ls", Some(at(2023, 5, 14, 23, 1686783600))));
    // the afternoon of the 15th: not this session's day
    s.analyze(&cmd(b"git", Some(at(2023, 5, 15, 15, 1686841200))));
    assert_eq!(s.today_command_count, 1);
    assert_eq!(s.map_command_daily.get(b"ls"), 1);
    assert_eq!(s.map_command_daily.get(b"git"), 0);
}

#[test]
fn most_active_period_means() {
    let mut s = fresh(2023);
    // twelve commands at noon: the [11,14) window's mean is 4
    for _ in 0..12 {
        s.analyze(&cmd(b"ls", Some(at(2023, 0, 2, 12, 100))));
    }
    // six commands spread over the late night window: mean 1
    for hour in 0..6 {
        s.analyze(&cmd(b"ls", Some(at(2023, 0, 2, hour, 100))));
    }
    assert_eq!(s.most_active_period(), "Noon");
}

#[test]
fn most_active_period_tie_resolves_to_the_earliest_window() {
    let mut s = fresh(2023);
    for hour in 0..6 {
        s.analyze(&cmd(b"ls", Some(at(2023, 0, 2, hour, 100))));
    }
    for hour in 6..11 {
        s.analyze(&cmd(b"ls", Some(at(2023, 0, 2, hour, 100))));
    }
    assert_eq!(s.most_active_period(), "Late Night");
}

#[test]
fn most_active_month_and_peak_day() {
    let mut s = fresh(2023);
    s.analyze(&cmd(b"a", Some(at(2023, 2, 5, 9, 100))));
    s.analyze(&cmd(b"b", Some(at(2023, 2, 6, 9, 200))));
    s.analyze(&cmd(b"c", Some(at(2023, 6, 1, 9, 300))));
    assert_eq!(s.most_active_month(), (2, 2));
    // 2023-03-05 is ordinal 31 + 28 + 4 = 63
    assert_eq!(s.peak_day(), (63, 1));
}

#[test]
fn count_map_counts_and_ranks() {
    let mut m = CountMap::new();
    for _ in 0..3 {
        m.bump(b"a");
    }
    m.bump(b"b");
    m.bump(b"c");
    m.bump(b"c");
    assert_eq!(m.get(b"a"), 3);
    assert_eq!(m.get(b"b"), 1);
    assert_eq!(m.get(b"c"), 2);
    assert_eq!(m.get(b"d"), 0);
    assert_eq!(m.len(), 3);
    let ranked = m.sorted_desc();
    assert_eq!(
        ranked,
        vec![
            (b"a".to_vec(), 3),
            (b"c".to_vec(), 2),
            (b"b".to_vec(), 1),
        ]
    );
}

#[test]
fn rejected_segment_reaches_no_bucket() {
    let cmds = CommandParser::from_raw(b": 1700000000:0;FOO=bar && ls".to_vec())
        .parse(&HistoryProvider::Zsh)
        .unwrap()
        .finish();
    let mut s = fresh(2023);
    s.analyze_all(&cmds);
    assert_eq!(s.command_count_total, 1);
    assert_eq!(s.map_command_total.get(b"FOO=bar"), 0);
    assert_eq!(s.map_command_total.get(b"ls"), 1);
}

#[test]
fn ingest_block_runs_the_whole_pipeline() {
    let mut s = fresh(2023);
    // epoch 1700000000 falls in November 2023 in any nearby time zone
    let r = s.ingest_block(&HistoryProvider::Zsh, b": 1700000000:0;ls -la && pwd".to_vec());
    assert!(r.is_ok());
    assert_eq!(s.command_count_total, 2);
    assert_eq!(s.command_count, 2);
    assert_eq!(s.map_command_total.get(b"ls"), 1);
    assert_eq!(s.map_command_total.get(b"pwd"), 1);
    let r = s.ingest_block(&HistoryProvider::Zsh, b"no zsh shape".to_vec());
    assert!(r.is_err());
    assert_eq!(s.command_count_total, 2);
}

#[test]
fn timestamps_are_validated() {
    assert!(TimeInfo::new(0, 2023, 1, 29, 0, 0, 0).is_none());
    assert!(TimeInfo::new(0, 2024, 1, 29, 0, 0, 0).is_some());
    assert!(TimeInfo::new(0, 2023, 12, 1, 0, 0, 0).is_none());
    assert!(TimeInfo::new(0, 2023, 0, 1, 24, 0, 0).is_none());
    assert!(TimeInfo::new(0, -1, 0, 1, 0, 0, 0).is_none());
}

#[test]
fn weekday_and_ordinal_match_the_calendar() {
    // 2023-01-02 was a Monday, 2023-06-15 a Thursday, 2024-02-29 existed
    assert_eq!(at(2023, 0, 2, 0, 0).weekday(), 0);
    assert_eq!(at(2023, 5, 15, 0, 0).weekday(), 3);
    assert_eq!(at(2023, 0, 1, 0, 0).weekday(), 6);
    assert_eq!(TimeInfo::new(0, 2024, 1, 29, 0, 0, 0).unwrap().weekday(), 3);
    assert_eq!(at(2023, 0, 1, 0, 0).ordinal0(), 0);
    assert_eq!(at(2023, 11, 31, 0, 0).ordinal0(), 364);
    assert_eq!(TimeInfo::new(0, 2024, 11, 31, 0, 0, 0).unwrap().ordinal0(), 365);
}
