use chess_brute::reply::{
    capture_readable, find, first_if_all, line_readable, mate_in_capture, lines, mate_in_line, mate_in_reply, parse_usize, read_mate_reply, ReplyError,
};
use chess_brute::text::chars_of;

const MATE_LINE: &str =
    "info depth 2 seldepth 3 multipv 1 score mate 2 nodes 100 nps 50000 tbhits 0 time 2 pv d8h4 g2g3 h4g3";

fn moves(v: &[&str]) -> Vec<String> {
    v.iter().map(|m| m.to_string()).collect()
}

fn chars(s: &str) -> Vec<char> {
    s.chars().collect()
}

#[test]
fn reads_the_moves_of_a_mate() {
    assert!(line_readable(MATE_LINE, 2));
    assert_eq!(mate_in_line(MATE_LINE, 2), Some(moves(&["d8h4", "g2g3", "h4g3"])));
}

#[test]
fn another_mate_length_gives_nothing() {
    assert!(line_readable(MATE_LINE, 1));
    assert_eq!(mate_in_line(MATE_LINE, 1), None);
}

#[test]
fn a_line_without_mate_gives_nothing() {
    let line = "info depth 1 seldepth 1 score cp 30 nodes 20 pv e2e4";
    assert!(line_readable(line, 2));
    assert_eq!(mate_in_line(line, 2), None);
    // A negative mate is no match of the pattern.
    let line = "info depth 1 score mate -2 nodes 20 pv e2e4 a b";
    assert_eq!(mate_in_line(line, 2), None);
}

#[test]
fn other_move_counts_give_nothing() {
    let two = "info depth 2 score mate 2 nodes 5 pv a1a2 b1b2";
    assert_eq!(mate_in_line(two, 2), None);
    let trailing = "info depth 2 score mate 2 nodes 5 pv a1a2 b1b2 c1c2 ";
    assert_eq!(mate_in_line(trailing, 2), None);
}

#[test]
fn unreadable_lines() {
    let no_moves = "info depth 2 score mate 2 nodes 5";
    assert!(!line_readable(no_moves, 2));
    assert!(line_readable(no_moves, 3));
    let huge = "info score mate 99999999999999999999999 pv a b c";
    assert!(!line_readable(huge, 2));
}

#[test]
fn reads_a_whole_reply() {
    let reply = format!("info string NNUE evaluation\n{}\n{}\nbestmove d8h4 ponder g2g3", MATE_LINE, MATE_LINE);
    assert_eq!(mate_in_reply(&reply, 2), Some(moves(&["d8h4", "g2g3", "h4g3"])));
    assert_eq!(read_mate_reply(&reply, 2), Ok(Some(moves(&["d8h4", "g2g3", "h4g3"]))));
}

#[test]
fn every_read_line_must_mate() {
    let reply = format!("info string x\n{}\ninfo depth 2 score cp 10 pv a1a2\nbestmove d8h4", MATE_LINE);
    assert_eq!(mate_in_reply(&reply, 2), None);
    let reply = "info string x\ninfo depth 2 score cp 10 pv a1a2\n".to_string() + MATE_LINE;
    assert_eq!(mate_in_reply(&reply, 2), None);
}

#[test]
fn only_the_second_and_third_lines_count() {
    let reply = format!("{}\n{}\n{}\ninfo depth 3 score cp 0 pv a", MATE_LINE, MATE_LINE, MATE_LINE);
    assert_eq!(mate_in_reply(&reply, 2), Some(moves(&["d8h4", "g2g3", "h4g3"])));
    let short = format!("info string x\n{}", MATE_LINE);
    assert_eq!(mate_in_reply(&short, 2), Some(moves(&["d8h4", "g2g3", "h4g3"])));
    assert_eq!(mate_in_reply(MATE_LINE, 2), None);
    assert_eq!(mate_in_reply("", 2), None);
}

#[test]
fn unreadable_reply_names_the_line() {
    let reply = format!("info string x\n{}\ninfo depth 2 score mate 2 nodes 5\nbestmove a", MATE_LINE);
    assert_eq!(read_mate_reply(&reply, 2), Err(ReplyError::UnreadableLine(2)));
    let reply = "info string x\ninfo score mate 99999999999999999999999 pv a b c\n".to_string() + MATE_LINE;
    assert_eq!(read_mate_reply(&reply, 2), Err(ReplyError::UnreadableLine(1)));
}

#[test]
fn carriage_returns_are_dropped() {
    let reply = format!("info string x\r\n{}\r\n{}\r\n", MATE_LINE, MATE_LINE);
    assert_eq!(mate_in_reply(&reply, 2), Some(moves(&["d8h4", "g2g3", "h4g3"])));
}

#[test]
fn parses_usize_like_std() {
    assert_eq!(parse_usize(&chars("42")), Some(42));
    assert_eq!(parse_usize(&chars("+7")), Some(7));
    assert_eq!(parse_usize(&chars("007")), Some(7));
    assert_eq!(parse_usize(&chars("")), None);
    assert_eq!(parse_usize(&chars("+")), None);
    assert_eq!(parse_usize(&chars("-1")), None);
    assert_eq!(parse_usize(&chars("1a")), None);
    assert_eq!(parse_usize(&chars(&usize::MAX.to_string())), Some(usize::MAX));
    assert_eq!(parse_usize(&chars("99999999999999999999999")), None);
    for s in ["0", "12", "+3", "x", "", "18446744073709551616"] {
        assert_eq!(parse_usize(&chars(s)), s.parse::<usize>().ok());
    }
}

#[test]
fn finds_like_std() {
    for (s, pat) in [("abc pv d", " pv "), ("aaa", "aa"), ("abc", "d"), ("abc", ""), ("", "x")] {
        assert_eq!(find(&chars(s), &chars(pat)), s.find(pat));
    }
}

#[test]
fn splits_lines_like_std() {
    for s in ["a\nb", "a\r\nb\r\n", "", "\n", "a\n\nb\n", "x\r", "a\rb\n"] {
        let got: Vec<String> = lines(&chars(s)).iter().map(|l| l.iter().collect()).collect();
        let want: Vec<String> = s.lines().map(|l| l.to_string()).collect();
        assert_eq!(got, want, "text {:?}", s);
    }
}

#[test]
fn chars_of_keeps_unicode() {
    assert_eq!(chars_of("a♚b"), vec!['a', '♚', 'b']);
}

#[test]
fn reads_a_captured_mate_number() {
    let info = "info score mate 2 pv a1a2 b1b2 c1c2";
    assert!(capture_readable(info, Some("2".to_string()), 2));
    assert_eq!(mate_in_capture(info, Some("2".to_string()), 2), Some(moves(&["a1a2", "b1b2", "c1c2"])));
    assert_eq!(mate_in_capture(info, Some("3".to_string()), 2), None);
    assert_eq!(mate_in_capture(info, None, 2), None);
    assert!(capture_readable(info, None, 2));
    assert!(!capture_readable(info, Some("x".to_string()), 2));
    assert!(!capture_readable("info score mate 2", Some("2".to_string()), 2));
    assert!(capture_readable("info score mate 2", Some("2".to_string()), 5));
    assert_eq!(mate_in_capture("pv a b c d", Some("+2".to_string()), 2), None);
}

#[test]
fn first_option_when_all_are_some() {
    let a = Some(moves(&["a", "b", "c"]));
    let b = Some(moves(&["d", "e", "f"]));
    assert_eq!(first_if_all(vec![a.clone(), b.clone()]), a);
    assert_eq!(first_if_all(vec![a.clone(), None]), None);
    assert_eq!(first_if_all(vec![None, b]), None);
    assert_eq!(first_if_all(vec![]), None);
}
