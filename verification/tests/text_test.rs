use tesseras_repl::args::{parse_list_args, parse_name_flag, split_list_args};
use tesseras_repl::calendar::{civil_date, format_utc, format_utc_seconds};
use tesseras_repl::number::{parse_number, write_number, NumberError};
use tesseras_repl::text::{
    center, contains, is_whitespace, join, pad_left, position_of, same, split_first, split_last,
    split_on, split_words, starts_with, strip_prefix, trim, trim_start,
};
use tesseras_repl::timeout::{
    block_count, retrieve_timeout, store_timeout, DEFAULT_BLOCK_SIZE, DHT_TIMEOUT,
};

#[test]
fn name_flag_quoted() {
    let (alias, content) = parse_name_flag("--name \"my photo\" hello world");
    assert_eq!(alias.as_deref(), Some("my photo"));
    assert_eq!(content, "hello world");
}

#[test]
fn name_flag_unquoted() {
    let (alias, content) = parse_name_flag("--name photo hello world");
    assert_eq!(alias.as_deref(), Some("photo"));
    assert_eq!(content, "hello world");
}

#[test]
fn name_flag_only_alias() {
    let (alias, content) = parse_name_flag("--name diary");
    assert_eq!(alias.as_deref(), Some("diary"));
    assert_eq!(content, "");
}

#[test]
fn name_flag_absent() {
    let (alias, content) = parse_name_flag("just some content");
    assert!(alias.is_none());
    assert_eq!(content, "just some content");
}

#[test]
fn name_flag_edges() {
    assert_eq!(parse_name_flag("--name"), (None, "--name"));
    assert_eq!(parse_name_flag("--name "), (Some(String::new()), ""));
    assert_eq!(parse_name_flag("--name   a   b c"), (Some("a".into()), "b c"));
    assert_eq!(parse_name_flag("--name \"\" x"), (Some(String::new()), "x"));
    assert_eq!(parse_name_flag("--name \"a\"b"), (Some("a".into()), "b"));
    assert_eq!(parse_name_flag("--name \"open x"), (Some("\"open".into()), "x"));
    assert_eq!(parse_name_flag(" --name a b"), (None, " --name a b"));
    assert_eq!(parse_name_flag("--name a\tb\" c"), (Some("a\tb\"".into()), "c"));
}

#[test]
fn list_args_empty() {
    assert_eq!(parse_list_args(""), (None, None));
}

#[test]
fn list_args_filter() {
    assert_eq!(parse_list_args("photo"), (None, Some("photo".into())));
}

#[test]
fn list_args_last_n() {
    assert_eq!(parse_list_args("-n 5"), (Some(5), None));
    assert_eq!(parse_list_args("--last 10"), (Some(10), None));
}

#[test]
fn list_args_filter_with_limit() {
    assert_eq!(parse_list_args("photo -n 5"), (Some(5), Some("photo".into())));
    assert_eq!(parse_list_args("-n 5 photo"), (Some(5), Some("photo".into())));
}

#[test]
fn list_args_edges() {
    assert_eq!(parse_list_args("   "), (None, None));
    assert_eq!(parse_list_args("-n"), (None, Some("-n".into())));
    assert_eq!(parse_list_args("-n x"), (None, Some("-n x".into())));
    assert_eq!(parse_list_args("-n 1 --last 2"), (Some(2), None));
    assert_eq!(parse_list_args("my -n 3 photo"), (Some(3), Some("my photo".into())));
    assert_eq!(parse_list_args("My\tPHOTO  \u{c4}"), (None, Some("my photo \u{e4}".into())));
    assert_eq!(split_list_args("My PHOTO -n 3"), (Some(3), Some("My PHOTO".into())));
    assert_eq!(
        parse_list_args("-n 18446744073709551616"),
        (None, Some("-n 18446744073709551616".into()))
    );
}

#[test]
fn white_space_is_that_of_unicode() {
    for n in 0..=0x10ffffu32 {
        if let Some(c) = char::from_u32(n) {
            assert_eq!(is_whitespace(c), c.is_whitespace(), "{n:x}");
        }
    }
}

#[test]
fn trimming_matches_std() {
    for s in ["", "  ", "a", " a b ", "\u{2003}x\u{a0}\n", "\t\u{85}\u{3000}", "\u{200b}x"] {
        assert_eq!(trim(s), s.trim());
        assert_eq!(trim_start(s), s.trim_start());
    }
}

#[test]
fn splitting_matches_std() {
    for s in ["", " ", "a", "a b", " a  b c ", "\u{e9} \u{1f600} x", "a\u{3000}b\n\nc"] {
        assert_eq!(split_first(s, ' '), s.split_once(' '));
        assert_eq!(split_last(s, ' '), s.rsplit_once(' '));
        let words: Vec<&str> = s.split_whitespace().collect();
        assert_eq!(split_words(s), words);
        let parts: Vec<&str> = s.split(' ').collect();
        assert_eq!(split_on(s, ' '), parts);
        assert_eq!(strip_prefix(s, "a "), s.strip_prefix("a "));
        assert_eq!(starts_with(s, "a"), s.starts_with('a'));
        assert_eq!(contains(s, "b"), s.contains('b'));
        assert_eq!(contains(s, ""), s.contains(""));
        assert_eq!(join(&split_words(s), " "), words.join(" "));
    }
    assert_eq!(position_of("\u{e9}argb:", "rgb:"), Some(2));
    assert_eq!(position_of("rg", "rgb:"), None);
    assert!(same("bye", "bye") && !same("bye", "by"));
}

#[test]
fn joined_words_split_again() {
    let list: Vec<String> = ["My", "-n", "3", "\u{e9}t\u{e9}"].map(String::from).to_vec();
    assert_eq!(split_words(&join(&list, " ")), list);
    assert!(split_words(&join(&vec![], " ")).is_empty());
}

#[test]
fn limits_are_found_among_words() {
    let filter = Some("My old photo".to_string());
    for typed in ["-n 12 My old photo", "My -n 12 old photo", "My old photo -n 12"] {
        assert_eq!(split_list_args(typed), (Some(12), filter.clone()), "{typed:?}");
    }
    assert_eq!(split_list_args("-n 12"), (Some(12), None));
}

#[test]
fn padding_matches_std() {
    for s in ["", "abc", "\u{e9}\u{e9}", "longer than it"] {
        assert_eq!(pad_left(s, 8, " "), format!("{s:>8}"));
        assert_eq!(center(s, 8, " "), format!("{s:^8}"));
        assert_eq!(center(s, 9, " "), format!("{s:^9}"));
    }
}

#[test]
fn numbers_match_std() {
    for s in ["0", "7", "+9", "255", "256", "00012", "", "+", "-1", "-0", "1x", "x", "2567", "256x", "255x", "\u{661}"] {
        let ours = parse_number(s, 255).map_err(|e| e.message());
        let std = s.parse::<u8>().map(u64::from).map_err(|e| e.to_string());
        assert_eq!(ours, std, "{s:?}");
    }
    for s in ["65535", "65536", "notaport", "99999999999999999999999", "99999999999999999999999x"] {
        let ours = parse_number(s, 65535).map_err(|e| e.message());
        let std = s.parse::<u16>().map(u64::from).map_err(|e| e.to_string());
        assert_eq!(ours, std, "{s:?}");
    }
    for s in ["18446744073709551615", "18446744073709551616", "00000000000000000000000000001"] {
        let ours = parse_number(s, u64::MAX).map_err(|e| e.message());
        let std = s.parse::<u64>().map_err(|e| e.to_string());
        assert_eq!(ours, std, "{s:?}");
    }
    assert_eq!(parse_number("", 9), Err(NumberError::Empty));
    assert_eq!(parse_number("a", 9), Err(NumberError::InvalidDigit));
    assert_eq!(parse_number("10", 9), Err(NumberError::TooLarge));
}

#[test]
fn numbers_round_trip() {
    for n in [0, 1, 9, 10, 99, 100, 4433, 65535, u64::MAX] {
        assert_eq!(write_number(n), n.to_string());
        assert_eq!(parse_number(&write_number(n), u64::MAX), Ok(n));
    }
}

#[test]
fn timeouts_grow_with_the_data() {
    assert_eq!(DEFAULT_BLOCK_SIZE, 256 * 1024);
    assert_eq!(DHT_TIMEOUT, 30);
    assert_eq!(block_count(0), 0);
    assert_eq!(block_count(1), 1);
    assert_eq!(block_count(262144), 1);
    assert_eq!(block_count(262145), 2);
    assert_eq!(block_count(usize::MAX), usize::MAX / 262144 + 1);
    assert_eq!(store_timeout(0), 30);
    assert_eq!(store_timeout(1), 32);
    assert_eq!(store_timeout(64 * 1024 * 1024), 542);
    assert_eq!(store_timeout(285 * 262144), 600);
    assert_eq!(store_timeout(usize::MAX), 600);
    assert_eq!(retrieve_timeout(0), 30);
    assert_eq!(retrieve_timeout(5), 35);
    assert_eq!(retrieve_timeout(569), 599);
    assert_eq!(retrieve_timeout(570), 600);
    assert_eq!(retrieve_timeout(usize::MAX), 600);
}

#[test]
fn dates_follow_the_calendar() {
    assert_eq!(civil_date(0), (1970, 1, 1));
    assert_eq!(civil_date(58), (1970, 2, 28));
    assert_eq!(civil_date(59), (1970, 3, 1));
    assert_eq!(civil_date(789), (1972, 2, 29));
    assert_eq!(civil_date(11016), (2000, 2, 29));
    assert_eq!(civil_date(47540), (2100, 2, 28));
    assert_eq!(civil_date(47541), (2100, 3, 1));
}

#[test]
fn times_compare_as_texts() {
    let times = [0, 59, 60, 3599, 3600, 86399, 86400, 951868740, 951868800, 1767323045, 253402300799];
    for t in times {
        assert_eq!(format_utc(t).len(), 16);
        for u in times {
            assert_eq!(format_utc(t) < format_utc(u), t / 60 < u / 60);
            assert_eq!(format_utc(t) == format_utc(u), t / 60 == u / 60);
        }
    }
    assert_eq!(format_utc(253402300799), "9999-12-31 23:59");
}

#[test]
fn every_day_follows_the_one_before() {
    let mut before = civil_date(0);
    for days in 1..200_000u64 {
        let (y, m, d) = civil_date(days);
        let (by, bm, bd) = before;
        let next = (y, m) == (by, bm) && d == bd + 1
            || y == by && m == bm + 1 && d == 1 && bd >= 28
            || y == by + 1 && (m, d) == (1, 1) && (bm, bd) == (12, 31);
        assert!(next, "{days}");
        before = (y, m, d);
    }
}

#[test]
fn times_are_written_out() {
    assert_eq!(format_utc(0), "1970-01-01 00:00");
    assert_eq!(format_utc_seconds(0), "1970-01-01 00:00:00");
    assert_eq!(format_utc(1767323045), "2026-01-02 03:04");
    assert_eq!(format_utc_seconds(1767323045), "2026-01-02 03:04:05");
    assert_eq!(format_utc_seconds(951868799), "2000-02-29 23:59:59");
    assert_eq!(format_utc(253402300800), "10000-01-01 00:00");
}
