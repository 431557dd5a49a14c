use lyrics_tui::lyrics::Lyrics;
use lyrics_tui::timestamp::parse_timestamp;

const SONG: &str = "[ar:Someone]\n[ti:Some Song]\n\n[00:01.00]First line\n[00:05.50]  Second line  \r\n[00:10.00][00:20.00]Chorus\nno timestamp here\n[00:15.00]Middle\n";

#[test]
fn timestamp_minutes_seconds_hundredths() {
    assert_eq!(parse_timestamp("01:02.03"), Some(62_030));
    assert_eq!(parse_timestamp("00:00.00"), Some(0));
    assert_eq!(parse_timestamp("10:00"), Some(600_000));
}

#[test]
fn timestamp_fields_are_read_loosely() {
    assert_eq!(parse_timestamp("1:2"), Some(62_000));
    assert_eq!(parse_timestamp("00:05.5"), Some(5_050));
    assert_eq!(parse_timestamp("1:2:3"), Some(62_000));
    assert_eq!(parse_timestamp("01:02.xx"), Some(62_000));
    assert_eq!(parse_timestamp("1:02.03.04"), Some(62_030));
    assert_eq!(parse_timestamp("+1:02"), Some(62_000));
    assert_eq!(parse_timestamp("00:01.123"), Some(2_230));
}

#[test]
fn timestamp_rejections() {
    assert_eq!(parse_timestamp("ar:Someone"), None);
    assert_eq!(parse_timestamp("10"), None);
    assert_eq!(parse_timestamp(":30"), None);
    assert_eq!(parse_timestamp("1:"), None);
    assert_eq!(parse_timestamp("-1:02"), None);
    assert_eq!(parse_timestamp(" 1:02"), None);
    assert_eq!(parse_timestamp("99999999999999999999:00"), None);
    assert_eq!(parse_timestamp(""), None);
}

#[test]
fn timestamp_large_values_do_not_wrap() {
    assert_eq!(
        parse_timestamp("18446744073709551615:00"),
        Some(18_446_744_073_709_551_615u128 * 60_000)
    );
}

#[test]
fn lines_are_ordered_by_time() {
    let lyrics = Lyrics::from(SONG.to_string());
    assert_eq!(lyrics.get_line(1), "First line");
    assert_eq!(lyrics.get_line(2), "Second line");
    assert_eq!(lyrics.get_line(3), "Chorus");
    assert_eq!(lyrics.get_line(4), "Middle");
    assert_eq!(lyrics.get_line(5), "Chorus");
    assert_eq!(lyrics.get_line(6), "");
}

#[test]
fn line_zero_and_past_the_end_are_empty() {
    let lyrics = Lyrics::from(SONG.to_string());
    assert_eq!(lyrics.get_line(0), "");
    assert_eq!(lyrics.get_line(100), "");
    assert_eq!(lyrics.get_line(usize::MAX), "");
}

#[test]
fn current_line_follows_time() {
    let lyrics = Lyrics::from(SONG.to_string());
    assert_eq!(lyrics.get_current_line_number(0), 0);
    assert_eq!(lyrics.get_current_line_number(999), 0);
    assert_eq!(lyrics.get_current_line_number(1_000), 1);
    assert_eq!(lyrics.get_current_line_number(5_499), 1);
    assert_eq!(lyrics.get_current_line_number(5_500), 2);
    assert_eq!(lyrics.get_current_line_number(12_000), 3);
    assert_eq!(lyrics.get_current_line_number(15_000), 4);
    assert_eq!(lyrics.get_current_line_number(20_000), 5);
    assert_eq!(lyrics.get_current_line_number(u128::MAX), 5);
}

#[test]
fn current_line_never_goes_back() {
    let lyrics = Lyrics::from(SONG.to_string());
    let mut last = 0;
    for t in (0..30_000u128).step_by(250) {
        let n = lyrics.get_current_line_number(t);
        assert!(n >= last);
        last = n;
    }
}

#[test]
fn equal_times_keep_file_order() {
    let lyrics = Lyrics::from("[00:02.00]b\n[00:01.00]a\n[00:02.00]c\n".to_string());
    assert_eq!(lyrics.get_line(1), "a");
    assert_eq!(lyrics.get_line(2), "b");
    assert_eq!(lyrics.get_line(3), "c");
    assert_eq!(lyrics.get_current_line_number(2_000), 3);
}

#[test]
fn text_after_a_tag_in_the_middle() {
    let lyrics = Lyrics::from("hello [00:01.00]world\n".to_string());
    assert_eq!(lyrics.get_line(1), "world");
}

#[test]
fn unclosed_bracket_ends_the_tags() {
    let lyrics = Lyrics::from("[00:01.00][00:02.00 text\n".to_string());
    assert_eq!(lyrics.get_current_line_number(u128::MAX), 1);
    assert_eq!(lyrics.get_line(1), "[00:02.00 text");
}

#[test]
fn empty_and_tagless_sources_have_no_lines() {
    let empty = Lyrics::from(String::new());
    assert_eq!(empty.get_current_line_number(u128::MAX), 0);
    assert_eq!(empty.get_line(1), "");
    let plain = Lyrics::from("just words\nmore words".to_string());
    assert_eq!(plain.get_current_line_number(u128::MAX), 0);
}

#[test]
fn last_line_without_newline_and_blank_text() {
    let lyrics = Lyrics::from("[00:01.00]   \n[00:02.00]end".to_string());
    assert_eq!(lyrics.get_line(1), "");
    assert_eq!(lyrics.get_line(2), "end");
}

#[test]
fn non_ascii_text() {
    let lyrics = Lyrics::from("[00:01.00]日本語の歌詞\u{3000}\n[00:02.00]Ça va\n".to_string());
    assert_eq!(lyrics.get_line(1), "日本語の歌詞");
    assert_eq!(lyrics.get_line(2), "Ça va");
}

#[test]
fn wide_blank_after_tag_starts_text_inside_it() {
    let lyrics = Lyrics::from("[00:01.00]\u{3000}歌詞\n[00:02.00] ok\n".to_string());
    assert!(!lyrics.is_line_readable(1));
    assert!(lyrics.is_line_readable(2));
    assert!(lyrics.is_line_readable(0));
    assert!(lyrics.is_line_readable(3));
    assert_eq!(lyrics.get_line(2), "ok");
}

#[test]
fn two_byte_blanks_after_tag_are_counted_as_bytes() {
    let lyrics = Lyrics::from("[00:01.00]\u{A0}\u{A0}x\n".to_string());
    assert!(lyrics.is_line_readable(1));
    assert_eq!(lyrics.get_line(1), "\u{A0}x");
}

#[test]
fn timestamp_order_follows_text_order() {
    let stamps = ["00:00.00", "00:00.99", "00:59.99", "01:00.00", "09:05.10", "10:00.00", "99:59.99"];
    for a in stamps.iter() {
        for b in stamps.iter() {
            let (x, y) = (parse_timestamp(a).unwrap(), parse_timestamp(b).unwrap());
            assert_eq!(a < b, x < y);
            assert_eq!(a == b, x == y);
        }
    }
}

#[test]
fn texts_hold_no_line_feed_and_are_trimmed() {
    let lyrics = Lyrics::from("[00:01.00]\t one \r\n[00:02.00]two\t\n".to_string());
    assert_eq!(lyrics.get_line(1), "one");
    assert_eq!(lyrics.get_line(2), "two");
}
