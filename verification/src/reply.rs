use vstd::prelude::*;
use crate::text::{char_to_digit, chars_of, decimal, digit_char, digit_value, is_digit, string_from_chars};

verus! {

/// The pattern that finds the number of moves of a mate in a line of the
/// engine's analysis.
pub const MATE_PATTERN: &'static str = " mate (\\d+) ";

/// What group `group` of the first match of the regular expression
/// `pattern` in `haystack` holds (`None` when the pattern does not compile,
/// nothing matches, or the group takes no part in the match).
pub uninterp spec fn regex_group_of(pattern: Seq<char>, haystack: Seq<char>, group: nat) -> Option<Seq<char>>;

/// `regex::Regex::new(pattern)`, then `captures(haystack)` and `get(group)`.
/// Trusted: the text of that group is a function of the three arguments
/// alone, named `regex_group_of`. Which text it is (leftmost-first matching,
/// with Unicode classes such as `\d`) is left unsaid.
#[verifier::external_body]
fn regex_group(pattern: &str, haystack: &str, group: usize) -> (res: Option<String>)
    ensures
        res is None <==> regex_group_of(pattern@, haystack@, group as nat) is None,
        res matches Some(g) ==> regex_group_of(pattern@, haystack@, group as nat) == Some(g@),
{
    regex::Regex::new(pattern).ok()?.captures(haystack)?.get(group).map(|m| m.as_str().to_string())
}

/// Value of a sequence of decimal digits.
pub open spec fn digits_value(d: Seq<char>) -> nat
    decreases d.len(),
{
    if d.len() == 0 { 0 } else { digits_value(d.drop_last()) * 10 + digit_value(d.last()) }
}

/// Every character is an ASCII digit.
pub open spec fn all_digits(d: Seq<char>) -> bool {
    forall|i: int| 0 <= i < d.len() ==> is_digit(#[trigger] d[i])
}

/// The text after an optional leading `+`.
pub open spec fn unsigned_digits(s: Seq<char>) -> Seq<char> {
    if s.len() > 0 && s[0] == '+' { s.drop_first() } else { s }
}

/// `usize::from_str`: an optional `+` sign, then one or more ASCII digits,
/// whose value must fit in a `usize`.
pub open spec fn parse_usize_of(s: Seq<char>) -> Option<nat> {
    let digits = unsigned_digits(s);
    if digits.len() > 0 && all_digits(digits) && digits_value(digits) <= usize::MAX {
        Some(digits_value(digits))
    } else {
        None
    }
}

/// Reads a `usize` the way `str::parse::<usize>` does.
pub fn parse_usize(s: &Vec<char>) -> (res: Option<usize>)
    ensures
        res matches Some(v) ==> parse_usize_of(s@) == Some(v as nat),
        res is None ==> parse_usize_of(s@) is None,
{
    let ghost digits = unsigned_digits(s@);
    let start: usize = if s.len() > 0 && s[0] == '+' { 1 } else { 0 };
    assert(digits =~= s@.skip(start as int));
    if start >= s.len() {
        assert(digits.len() == 0);
        return None;
    }
    let mut value: usize = 0;
    let mut i: usize = start;
    let mut fits = true;
    assert(digits.take(0) =~= Seq::<char>::empty());
    while i < s.len()
        invariant
            start <= i <= s@.len(),
            digits == s@.skip(start as int),
            digits == unsigned_digits(s@),
            forall|j: int| 0 <= j < i - start ==> is_digit(#[trigger] digits[j]),
            fits ==> value == digits_value(digits.take(i - start)),
            !fits ==> digits_value(digits.take(i - start)) > usize::MAX,
        decreases s@.len() - i,
    {
        let c = s[i];
        if !('0' <= c && c <= '9') {
            assert(!is_digit(digits[i - start]));
            assert(!all_digits(digits));
            return None;
        }
        let d = char_to_digit(c);
        let ghost before = digits.take(i - start);
        assert(digits.take(i + 1 - start).drop_last() =~= before);
        assert(digits.take(i + 1 - start).last() == c);
        proof {
            assert(digits_value(before) * 10 + d >= digits_value(before)) by (nonlinear_arith);
        }
        if fits {
            if value > (usize::MAX - d) / 10 {
                fits = false;
                assert(value * 10 + d > usize::MAX) by (nonlinear_arith)
                    requires value > (usize::MAX - d) / 10, d < 10;
            } else {
                assert(value * 10 + d <= usize::MAX) by (nonlinear_arith)
                    requires value <= (usize::MAX - d) / 10, d < 10;
                value = value * 10 + d;
            }
        }
        i = i + 1;
    }
    assert(digits.take(i - start) =~= digits);
    if fits { Some(value) } else { None }
}

/// Index of the first occurrence of `pat` in `s`.
pub open spec fn first_occurrence(s: Seq<char>, pat: Seq<char>) -> Option<int> {
    if exists|i: int| 0 <= i <= s.len() - pat.len() && #[trigger] s.subrange(i, i + pat.len()) == pat {
        Some(choose|i: int| occurs_at_first(s, pat, i))
    } else {
        None
    }
}

/// `pat` occurs in `s` at `i` and not before.
pub open spec fn occurs_at_first(s: Seq<char>, pat: Seq<char>, i: int) -> bool {
    0 <= i <= s.len() - pat.len() && s.subrange(i, i + pat.len()) == pat
        && forall|j: int| 0 <= j < i ==> #[trigger] s.subrange(j, j + pat.len()) != pat
}

/// Where `pat` occurs in `s`, it occurs a first time.
pub proof fn lemma_first_occurrence(s: Seq<char>, pat: Seq<char>, i: int)
    requires
        0 <= i <= s.len() - pat.len(),
        s.subrange(i, i + pat.len()) == pat,
    ensures
        exists|j: int| occurs_at_first(s, pat, j),
        first_occurrence(s, pat) is Some,
        occurs_at_first(s, pat, first_occurrence(s, pat)->0),
    decreases i,
{
    if exists|j: int| 0 <= j < i && #[trigger] s.subrange(j, j + pat.len()) == pat {
        let j = choose|j: int| 0 <= j < i && #[trigger] s.subrange(j, j + pat.len()) == pat;
        lemma_first_occurrence(s, pat, j);
    } else {
        assert(occurs_at_first(s, pat, i));
    }
}

/// Whether `pat` occurs in `s` at `i`.
fn occurs_at(s: &Vec<char>, pat: &Vec<char>, i: usize) -> (res: bool)
    requires
        i + pat@.len() <= s@.len(),
    ensures
        res == (s@.subrange(i as int, i + pat@.len()) == pat@),
{
    let mut j: usize = 0;
    while j < pat.len()
        invariant
            i + pat@.len() <= s@.len(),
            j <= pat@.len(),
            forall|t: int| 0 <= t < j ==> s@[i + t] == pat@[t],
        decreases pat@.len() - j,
    {
        assert(i + j < s@.len());
        assert(s@.len() == s.len());
        let idx: usize = i + j;
        if s[idx] != pat[j] {
            assert(s@.subrange(i as int, i + pat@.len())[j as int] != pat@[j as int]);
            return false;
        }
        j = j + 1;
    }
    assert(s@.subrange(i as int, i + pat@.len()) =~= pat@);
    true
}

/// Index of the first occurrence of `pat` in `s` (`str::find`).
pub fn find(s: &Vec<char>, pat: &Vec<char>) -> (res: Option<usize>)
    ensures
        res matches Some(i) ==> first_occurrence(s@, pat@) == Some(i as int),
        res is None ==> first_occurrence(s@, pat@) is None,
{
    if pat.len() > s.len() {
        return None;
    }
    if pat.len() == 0 {
        assert(s@.subrange(0, 0) =~= pat@);
        assert(occurs_at_first(s@, pat@, 0));
        return Some(0);
    }
    let last = s.len() - pat.len();
    assert(last < s.len());
    let mut i: usize = 0;
    while i <= last
        invariant
            1 <= pat@.len() <= s@.len(),
            last == s@.len() - pat@.len(),
            last < usize::MAX,
            i <= last + 1,
            forall|j: int| 0 <= j < i ==> #[trigger] s@.subrange(j, j + pat@.len()) != pat@,
        decreases last + 1 - i,
    {
        if occurs_at(s, pat, i) {
            assert(occurs_at_first(s@, pat@, i as int));
            let ghost c = choose|k: int| occurs_at_first(s@, pat@, k);
            assert(c == i) by {
                if c < i {
                    assert(s@.subrange(c, c + pat@.len()) != pat@);
                }
                if c > i {
                    assert(s@.subrange(i as int, i + pat@.len()) != pat@);
                }
            }
            return Some(i);
        }
        i = i + 1;
    }
    None
}

/// The pieces of `s` between the occurrences of `c` (`str::split`).
pub open spec fn split_on(s: Seq<char>, c: char) -> Seq<Seq<char>>
    decreases s.len(),
{
    if s.len() == 0 {
        seq![seq![]]
    } else {
        let before = split_on(s.drop_last(), c);
        if s.last() == c {
            before.push(seq![])
        } else {
            before.update(before.len() - 1, before.last().push(s.last()))
        }
    }
}

proof fn lemma_split_on_len(s: Seq<char>, c: char)
    ensures
        split_on(s, c).len() >= 1,
    decreases s.len(),
{
    if s.len() > 0 {
        lemma_split_on_len(s.drop_last(), c);
    }
}

/// Splits `s[from..]` at each `c`.
fn split_chars(s: &Vec<char>, from: usize, c: char) -> (res: Vec<Vec<char>>)
    requires
        from <= s@.len(),
    ensures
        res@.map_values(|v: Vec<char>| v@) == split_on(s@.skip(from as int), c),
{
    let ghost t = s@.skip(from as int);
    let mut done: Vec<Vec<char>> = Vec::new();
    let mut cur: Vec<char> = Vec::new();
    let mut i: usize = from;
    assert(t.take(0) =~= Seq::<char>::empty());
    while i < s.len()
        invariant
            from <= i <= s@.len(),
            t == s@.skip(from as int),
            done@.map_values(|v: Vec<char>| v@).push(cur@) == split_on(t.take(i - from), c),
        decreases s@.len() - i,
    {
        proof {
            lemma_split_on_len(t.take(i - from), c);
            assert(t.take(i + 1 - from).drop_last() =~= t.take(i - from));
            assert(t.take(i + 1 - from).last() == s@[i as int]);
        }
        let ghost before = done@.map_values(|v: Vec<char>| v@).push(cur@);
        if s[i] == c {
            done.push(cur);
            cur = Vec::new();
            assert(done@.map_values(|v: Vec<char>| v@).push(cur@) =~= before.push(seq![]));
        } else {
            cur.push(s[i]);
            assert(done@.map_values(|v: Vec<char>| v@).push(cur@) =~= before.update(before.len() - 1, before.last().push(s@[i as int])));
        }
        i = i + 1;
    }
    assert(t.take(i - from) =~= t);
    let ghost before = done@;
    done.push(cur);
    assert(done@.map_values(|v: Vec<char>| v@) =~= before.map_values(|v: Vec<char>| v@).push(cur@));
    done
}

/// Turns character vectors into `String`s.
fn to_strings(parts: &Vec<Vec<char>>) -> (res: Vec<String>)
    ensures
        strings_view(res@) == parts@.map_values(|v: Vec<char>| v@),
{
    let mut res: Vec<String> = Vec::new();
    let mut k: usize = 0;
    while k < parts.len()
        invariant
            k <= parts@.len(),
            res@.len() == k,
            forall|t: int| 0 <= t < k ==> (#[trigger] res@[t])@ == parts@[t]@,
        decreases parts@.len() - k,
    {
        res.push(string_from_chars(&parts[k]));
        k = k + 1;
    }
    assert(strings_view(res@) =~= parts@.map_values(|v: Vec<char>| v@));
    res
}

/// A line without the carriage return that ended it.
pub open spec fn strip_cr(l: Seq<char>) -> Seq<char> {
    if l.len() > 0 && l.last() == '\r' { l.drop_last() } else { l }
}

/// The lines of a text (`str::lines`): split at each `\n`, a `\r` before
/// the `\n` dropped, and no line after a final `\n`.
pub open spec fn lines_of(s: Seq<char>) -> Seq<Seq<char>> {
    let segs = split_on(s, '\n');
    Seq::new((segs.len() - 1) as nat, |i: int| strip_cr(segs[i]))
        + if segs.last().len() > 0 { seq![segs.last()] } else { seq![] }
}

/// The lines of a text.
pub fn lines(s: &Vec<char>) -> (res: Vec<Vec<char>>)
    ensures
        res@.map_values(|v: Vec<char>| v@) == lines_of(s@),
{
    let segs = split_chars(s, 0, '\n');
    let ghost sv = segs@.map_values(|v: Vec<char>| v@);
    proof {
        assert(s@.skip(0) =~= s@);
        lemma_split_on_len(s@, '\n');
    }
    let n = segs.len();
    let mut res: Vec<Vec<char>> = Vec::new();
    let mut k: usize = 0;
    while k + 1 < n
        invariant
            n == segs@.len() >= 1,
            sv == segs@.map_values(|v: Vec<char>| v@),
            k + 1 <= n,
            res@.len() == k,
            forall|t: int| 0 <= t < k ==> (#[trigger] res@[t])@ == strip_cr(sv[t]),
        decreases n - k,
    {
        let mut line = segs[k].clone();
        let len = line.len();
        assert(line@ == sv[k as int]);
        if len > 0 && line[len - 1] == '\r' {
            line.pop();
        }
        res.push(line);
        k = k + 1;
    }
    let last = segs[n - 1].clone();
    assert(last@ == sv[n - 1]);
    if last.len() > 0 {
        res.push(last);
    }
    assert(res@.map_values(|v: Vec<char>| v@) =~= lines_of(s@));
    res
}

/// The texts of a list of strings.
pub open spec fn strings_view(v: Seq<String>) -> Seq<Seq<char>> {
    v.map_values(|s: String| s@)
}

/// `" pv "`, which opens the moves of the principal variation.
pub open spec fn pv_marker() -> Seq<char> {
    seq![' ', 'p', 'v', ' ']
}

/// A line of the engine's analysis, whose mate number (the text that the
/// mate pattern captured) is `mate`, can be read: the mate number, if there
/// is one, is a `usize`, and when it is the number asked for the line has
/// moves.
pub open spec fn capture_ok(info: Seq<char>, mate: Option<Seq<char>>, moves: nat) -> bool {
    match mate {
        None => true,
        Some(d) => parse_usize_of(d) is Some
            && (parse_usize_of(d) == Some(moves) ==> first_occurrence(info, pv_marker()) is Some),
    }
}

/// What a line of the engine's analysis, whose mate number is `mate`, says
/// of a mate in `moves`: the three moves of the line when it announces a
/// mate in exactly `moves` and lists three moves after `" pv "`; `None`
/// otherwise.
pub open spec fn capture_result(info: Seq<char>, mate: Option<Seq<char>>, moves: nat) -> Option<Seq<Seq<char>>> {
    match mate {
        None => None,
        Some(d) => if parse_usize_of(d) == Some(moves) {
            let plys = split_on(info.skip(first_occurrence(info, pv_marker())->0 + 4), ' ');
            if plys.len() != 3 { None } else { Some(plys) }
        } else {
            None
        },
    }
}

/// A line of the engine's analysis can be read (see `capture_ok`).
pub open spec fn line_ok(info: Seq<char>, moves: nat) -> bool {
    capture_ok(info, regex_group_of(MATE_PATTERN@, info, 1), moves)
}

/// What a line of the engine's analysis says of a mate in `moves` (see
/// `capture_result`).
pub open spec fn line_result(info: Seq<char>, moves: nat) -> Option<Seq<Seq<char>>> {
    capture_result(info, regex_group_of(MATE_PATTERN@, info, 1), moves)
}

/// The text of an optional string.
pub open spec fn text_view(o: Option<String>) -> Option<Seq<char>> {
    match o {
        Some(t) => Some(t@),
        None => None,
    }
}

/// The texts of an optional list of moves.
pub open spec fn plys_view(o: Option<Vec<String>>) -> Option<Seq<Seq<char>>> {
    match o {
        Some(v) => Some(strings_view(v@)),
        None => None,
    }
}

fn pv_chars() -> (res: Vec<char>)
    ensures
        res@ == pv_marker(),
{
    let mut v: Vec<char> = Vec::new();
    v.push(' ');
    v.push('p');
    v.push('v');
    v.push(' ');
    assert(v@ =~= pv_marker());
    v
}

/// Whether a line of the engine's analysis, whose mate number is `mate`,
/// can be read (see `capture_ok`).
pub fn capture_readable(info: &str, mate: Option<String>, moves: usize) -> (res: bool)
    ensures
        res == capture_ok(info@, text_view(mate), moves as nat),
{
    match mate {
        None => true,
        Some(d) => {
            let digits = chars_of(d.as_str());
            match parse_usize(&digits) {
                None => false,
                Some(val) => {
                    if val == moves {
                        let chars = chars_of(info);
                        find(&chars, &pv_chars()).is_some()
                    } else {
                        true
                    }
                },
            }
        },
    }
}

/// The moves of a mate in `moves` that a line of the engine's analysis,
/// whose mate number is `mate`, announces, if it announces one (see
/// `capture_result`).
pub fn mate_in_capture(info: &str, mate: Option<String>, moves: usize) -> (res: Option<Vec<String>>)
    requires
        capture_ok(info@, text_view(mate), moves as nat),
    ensures
        plys_view(res) == capture_result(info@, text_view(mate), moves as nat),
{
    match mate {
        None => None,
        Some(d) => {
            let digits = chars_of(d.as_str());
            let val = match parse_usize(&digits) {
                Some(val) => val,
                None => 0,
            };
            if val == moves {
                let chars = chars_of(info);
                let at = match find(&chars, &pv_chars()) {
                    Some(at) => at,
                    None => 0,
                };
                assert(at + 4 <= chars@.len()) by {
                    let i = choose|i: int| 0 <= i <= chars@.len() - pv_marker().len()
                        && #[trigger] chars@.subrange(i, i + pv_marker().len()) == pv_marker();
                    lemma_first_occurrence(chars@, pv_marker(), i);
                }
                assert(chars@.len() == chars.len());
                let plys = to_strings(&split_chars(&chars, at + 4, ' '));
                if plys.len() != 3 {
                    return None;
                }
                Some(plys)
            } else {
                None
            }
        },
    }
}

/// Whether a line of the engine's analysis can be read (see `line_ok`).
pub fn line_readable(info: &str, moves: usize) -> (res: bool)
    ensures
        res == line_ok(info@, moves as nat),
{
    let mate = regex_group(MATE_PATTERN, info, 1);
    capture_readable(info, mate, moves)
}

/// The moves of a mate in `moves` that a line of the engine's analysis
/// announces, if it announces one (see `line_result`).
pub fn mate_in_line(info: &str, moves: usize) -> (res: Option<Vec<String>>)
    requires
        line_ok(info@, moves as nat),
    ensures
        plys_view(res) == line_result(info@, moves as nat),
{
    let mate = regex_group(MATE_PATTERN, info, 1);
    mate_in_capture(info, mate, moves)
}

/// The lines of the engine's reply that are read: the second and the third
/// (the first echoes the search; fewer are read where the reply is shorter).
pub open spec fn reply_lines(reply: Seq<char>) -> Seq<Seq<char>> {
    let ls = lines_of(reply);
    if ls.len() <= 1 {
        seq![]
    } else if ls.len() == 2 {
        ls.subrange(1, 2)
    } else {
        ls.subrange(1, 3)
    }
}

/// Every line of the reply that is read can be read.
pub open spec fn reply_readable(reply: Seq<char>, moves: nat) -> bool {
    forall|i: int| 0 <= i < reply_lines(reply).len() ==> line_ok(#[trigger] reply_lines(reply)[i], moves)
}

/// The first of the options, when there is one and none of them is `None`.
pub open spec fn first_if_all_some(opts: Seq<Option<Seq<Seq<char>>>>) -> Option<Seq<Seq<char>>> {
    if opts.len() == 0 {
        None
    } else if exists|i: int| 0 <= i < opts.len() && (#[trigger] opts[i]) is None {
        None
    } else {
        opts[0]
    }
}

/// What the reply says of a mate in `moves`: the moves of its first read
/// line, when every read line announces such a mate; `None` otherwise, and
/// when no line is read.
pub open spec fn mate_of_reply(reply: Seq<char>, moves: nat) -> Option<Seq<Seq<char>>> {
    first_if_all_some(reply_lines(reply).map_values(|l: Seq<char>| line_result(l, moves)))
}

/// Why a reply of the engine could not be read.
#[derive(Clone, Copy, Debug, PartialEq, Eq, Structural)]
pub enum ReplyError {
    /// The line with this index (counted from 0 in the whole reply) holds a
    /// mate number that is no `usize`, or announces the mate asked for
    /// without listing its moves.
    UnreadableLine(usize),
}

/// The lines of the reply that are read.
fn read_lines(reply: &str) -> (res: Vec<String>)
    ensures
        strings_view(res@) == reply_lines(reply@),
{
    let chars = chars_of(reply);
    let all = lines(&chars);
    let ghost ls = lines_of(reply@);
    assert(ls.len() == all@.len());
    let end: usize = if all.len() < 3 { all.len() } else { 3 };
    let mut res: Vec<String> = Vec::new();
    let mut k: usize = 1;
    while k < end
        invariant
            all@.map_values(|v: Vec<char>| v@) == ls,
            ls == lines_of(reply@),
            ls.len() == all@.len(),
            end <= all@.len(),
            end == if all@.len() < 3 { all@.len() } else { 3 },
            1 <= k,
            k <= end || k == 1,
            res@.len() == k - 1,
            forall|t: int| 0 <= t < k - 1 ==> (#[trigger] res@[t])@ == ls[t + 1],
        decreases end - k,
    {
        assert(all@[k as int]@ == ls[k as int]);
        res.push(string_from_chars(&all[k]));
        k = k + 1;
    }
    proof {
        let rl = reply_lines(reply@);
        assert(rl.len() == res@.len());
        assert forall|t: int| 0 <= t < rl.len() implies strings_view(res@)[t] == rl[t] by {
            assert(rl[t] == ls[t + 1]);
        }
        assert(strings_view(res@) =~= rl);
    }
    res
}

/// The first of the options, when there is one and none of them is `None`.
pub fn first_if_all(options: Vec<Option<Vec<String>>>) -> (res: Option<Vec<String>>)
    ensures
        plys_view(res) == first_if_all_some(options@.map_values(|o: Option<Vec<String>>| plys_view(o))),
        options@.len() > 0 && (forall|i: int| 0 <= i < options@.len() ==> (#[trigger] options@[i]) is Some)
            ==> plys_view(res) == plys_view(options@[0]),
        (options@.len() == 0 || exists|i: int| 0 <= i < options@.len() && (#[trigger] options@[i]) is None)
            ==> res is None,
{
    let ghost ov = options@.map_values(|o: Option<Vec<String>>| plys_view(o));
    if options.len() == 0 {
        return None;
    }
    let mut k: usize = 0;
    while k < options.len()
        invariant
            ov == options@.map_values(|o: Option<Vec<String>>| plys_view(o)),
            k <= options@.len(),
            forall|t: int| 0 <= t < k ==> (#[trigger] ov[t]) is Some,
        decreases options@.len() - k,
    {
        if options[k].is_none() {
            assert(ov[k as int] is None);
            return None;
        }
        k = k + 1;
    }
    assert forall|i: int| 0 <= i < options@.len() implies (#[trigger] options@[i]) is Some by {
        assert(ov[i] is Some);
    }
    let mut options = options;
    let first = options.remove(0);
    assert(!(exists|i: int| 0 <= i < ov.len() && (#[trigger] ov[i]) is None));
    first
}

/// The moves of a mate in `moves` that the engine's reply announces in
/// each line that is read (see `mate_of_reply`), where every such line can
/// be read.
pub fn mate_in_reply(reply: &str, moves: usize) -> (res: Option<Vec<String>>)
    requires
        reply_readable(reply@, moves as nat),
    ensures
        plys_view(res) == mate_of_reply(reply@, moves as nat),
        reply_lines(reply@).len() > 0 && (forall|i: int| 0 <= i < reply_lines(reply@).len()
            ==> (#[trigger] line_result(reply_lines(reply@)[i], moves as nat)) is Some)
            ==> plys_view(res) == line_result(reply_lines(reply@)[0], moves as nat),
        (reply_lines(reply@).len() == 0 || exists|i: int| 0 <= i < reply_lines(reply@).len()
            && (#[trigger] line_result(reply_lines(reply@)[i], moves as nat)) is None) ==> res is None,
{
    proof { law_mate_of_reply(reply@, moves as nat); }
    let ls = read_lines(reply);
    let ghost lv = reply_lines(reply@);
    let mut options: Vec<Option<Vec<String>>> = Vec::new();
    let mut k: usize = 0;
    while k < ls.len()
        invariant
            strings_view(ls@) == lv,
            lv == reply_lines(reply@),
            reply_readable(reply@, moves as nat),
            k <= ls@.len(),
            options@.len() == k,
            forall|t: int| 0 <= t < k ==> plys_view(#[trigger] options@[t]) == line_result(lv[t], moves as nat),
        decreases ls@.len() - k,
    {
        assert(ls@[k as int]@ == lv[k as int]);
        assert(line_ok(lv[k as int], moves as nat));
        options.push(mate_in_line(ls[k].as_str(), moves));
        k = k + 1;
    }
    assert(options@.map_values(|o: Option<Vec<String>>| plys_view(o))
        =~= lv.map_values(|l: Seq<char>| line_result(l, moves as nat)));
    first_if_all(options)
}

/// Reads the engine's reply as `mate_in_reply` does, first making sure that
/// each line that is read can be read; the index of the first one that
/// cannot is the error.
pub fn read_mate_reply(reply: &str, moves: usize) -> (res: Result<Option<Vec<String>>, ReplyError>)
    ensures
        res is Ok <==> reply_readable(reply@, moves as nat),
        res matches Ok(o) ==> plys_view(o) == mate_of_reply(reply@, moves as nat),
        res matches Ok(o) ==> (reply_lines(reply@).len() > 0 && (forall|i: int| 0 <= i < reply_lines(reply@).len()
            ==> (#[trigger] line_result(reply_lines(reply@)[i], moves as nat)) is Some)
            ==> plys_view(o) == line_result(reply_lines(reply@)[0], moves as nat)),
        res matches Ok(o) ==> ((reply_lines(reply@).len() == 0 || exists|i: int| 0 <= i < reply_lines(reply@).len()
            && (#[trigger] line_result(reply_lines(reply@)[i], moves as nat)) is None) ==> o is None),
        res matches Err(ReplyError::UnreadableLine(k)) ==> {
            &&& 1 <= k <= reply_lines(reply@).len()
            &&& !line_ok(reply_lines(reply@)[k - 1], moves as nat)
            &&& forall|j: int| 0 <= j < k - 1 ==> line_ok(#[trigger] reply_lines(reply@)[j], moves as nat)
        },
{
    let ls = read_lines(reply);
    let ghost lv = reply_lines(reply@);
    let mut k: usize = 0;
    while k < ls.len()
        invariant
            strings_view(ls@) == lv,
            lv == reply_lines(reply@),
            k <= ls@.len(),
            lv.len() <= 2,
            forall|t: int| 0 <= t < k ==> line_ok(#[trigger] lv[t], moves as nat),
        decreases ls@.len() - k,
    {
        assert(ls@[k as int]@ == lv[k as int]);
        if !line_readable(ls[k].as_str(), moves) {
            return Err(ReplyError::UnreadableLine(k + 1));
        }
        k = k + 1;
    }
    Ok(mate_in_reply(reply, moves))
}

/// The engine's reply is read from its second and third lines: those that
/// exist of them, in order.
pub proof fn law_reply_lines(reply: Seq<char>)
    ensures
        reply_lines(reply).len() == if lines_of(reply).len() >= 3 { 2nat } else if lines_of(reply).len() == 2 { 1nat } else { 0nat },
        forall|i: int| 0 <= i < reply_lines(reply).len() ==> #[trigger] reply_lines(reply)[i] == lines_of(reply)[i + 1],
{
}

/// Where every line read announces the mate asked for, the moves are those
/// of the first line read; where one does not, or no line is read, there
/// are none.
pub proof fn law_mate_of_reply(reply: Seq<char>, moves: nat)
    ensures
        reply_lines(reply).len() > 0 && (forall|i: int| 0 <= i < reply_lines(reply).len()
            ==> (#[trigger] line_result(reply_lines(reply)[i], moves)) is Some)
            ==> mate_of_reply(reply, moves) == line_result(reply_lines(reply)[0], moves),
        (reply_lines(reply).len() == 0 || exists|i: int| 0 <= i < reply_lines(reply).len()
            && (#[trigger] line_result(reply_lines(reply)[i], moves)) is None) ==> mate_of_reply(reply, moves) is None,
{
    let ls = reply_lines(reply);
    let opts = ls.map_values(|l: Seq<char>| line_result(l, moves));
    assert forall|i: int| 0 <= i < ls.len() implies #[trigger] opts[i] == line_result(ls[i], moves) by {}
    if exists|i: int| 0 <= i < ls.len() && (#[trigger] line_result(ls[i], moves)) is None {
        let i = choose|i: int| 0 <= i < ls.len() && (#[trigger] line_result(ls[i], moves)) is None;
        assert(opts[i] is None);
    }
    if ls.len() > 0 && (forall|i: int| 0 <= i < ls.len() ==> (#[trigger] line_result(ls[i], moves)) is Some) {
        assert forall|i: int| 0 <= i < opts.len() implies !((#[trigger] opts[i]) is None) by {
            assert(line_result(ls[i], moves) is Some);
        }
        assert(opts[0] == line_result(ls[0], moves));
    }
}
/// `pieces` joined with `c` between each two of them.
pub open spec fn joined(pieces: Seq<Seq<char>>, c: char) -> Seq<char>
    decreases pieces.len(),
{
    if pieces.len() == 0 {
        seq![]
    } else if pieces.len() == 1 {
        pieces[0]
    } else {
        joined(pieces.drop_last(), c) + seq![c] + pieces.last()
    }
}

/// No `c` stands in `s`.
pub open spec fn free_of(s: Seq<char>, c: char) -> bool {
    forall|i: int| 0 <= i < s.len() ==> s[i] != c
}

proof fn lemma_joined_push(ps: Seq<Seq<char>>, c: char, x: char)
    requires
        ps.len() >= 1,
    ensures
        joined(ps.update(ps.len() - 1, ps.last().push(x)), c) == joined(ps, c).push(x),
{
    let qs = ps.update(ps.len() - 1, ps.last().push(x));
    if ps.len() == 1 {
        assert(qs[0] == ps[0].push(x));
    } else {
        assert(qs.drop_last() =~= ps.drop_last());
        assert(qs.last() == ps.last().push(x));
        assert(joined(qs, c) =~= joined(ps, c).push(x));
    }
}

/// Splitting at `c` loses nothing: the pieces joined with `c` give the text
/// back, and no piece holds a `c`.
pub proof fn law_split_joined(s: Seq<char>, c: char)
    ensures
        joined(split_on(s, c), c) == s,
        forall|i: int| 0 <= i < split_on(s, c).len() ==> free_of(#[trigger] split_on(s, c)[i], c),
    decreases s.len(),
{
    lemma_split_on_len(s, c);
    if s.len() == 0 {
        assert(split_on(s, c)[0] =~= s);
    } else {
        let before = split_on(s.drop_last(), c);
        law_split_joined(s.drop_last(), c);
        lemma_split_on_len(s.drop_last(), c);
        if s.last() == c {
            let ps = before.push(seq![]);
            assert(ps.drop_last() =~= before);
            assert(joined(ps, c) =~= s);
            assert forall|i: int| 0 <= i < ps.len() implies free_of(#[trigger] ps[i], c) by {
                if i < before.len() {
                    assert(ps[i] == before[i]);
                }
            }
        } else {
            lemma_joined_push(before, c, s.last());
            assert(s =~= s.drop_last().push(s.last()));
            let ps = before.update(before.len() - 1, before.last().push(s.last()));
            assert forall|i: int| 0 <= i < ps.len() implies free_of(#[trigger] ps[i], c) by {
                if i < before.len() - 1 {
                    assert(ps[i] == before[i]);
                } else {
                    assert(free_of(before[before.len() - 1], c));
                    assert forall|j: int| 0 <= j < ps[i].len() implies ps[i][j] != c by {
                        if j < before.last().len() {
                            assert(ps[i][j] == before.last()[j]);
                        }
                    }
                }
            }
        }
    }
}

proof fn lemma_split_free(t: Seq<char>, c: char)
    requires
        free_of(t, c),
    ensures
        split_on(t, c) == seq![t],
    decreases t.len(),
{
    if t.len() == 0 {
        assert(t =~= Seq::<char>::empty());
        assert(seq![seq![]] =~= seq![t]);
    } else {
        assert(free_of(t.drop_last(), c));
        lemma_split_free(t.drop_last(), c);
        assert(t.drop_last().push(t.last()) =~= t);
        assert(split_on(t, c) =~= seq![t]);
    }
}

proof fn lemma_split_after(s: Seq<char>, t: Seq<char>, c: char)
    requires
        free_of(t, c),
    ensures
        split_on(s + seq![c] + t, c) == split_on(s, c).push(t),
    decreases t.len(),
{
    let w = s + seq![c] + t;
    lemma_split_on_len(s, c);
    if t.len() == 0 {
        assert(t =~= Seq::<char>::empty());
        assert(w.drop_last() =~= s);
        assert(w.last() == c);
    } else {
        assert(free_of(t.drop_last(), c));
        lemma_split_after(s, t.drop_last(), c);
        assert(w.drop_last() =~= s + seq![c] + t.drop_last());
        assert(t.drop_last().push(t.last()) =~= t);
        assert(split_on(w, c) =~= split_on(s, c).push(t));
    }
}

/// Pieces free of `c`, joined with `c`, split at `c` into the same pieces.
pub proof fn law_joined_split(ps: Seq<Seq<char>>, c: char)
    requires
        ps.len() >= 1,
        forall|i: int| 0 <= i < ps.len() ==> free_of(#[trigger] ps[i], c),
    ensures
        split_on(joined(ps, c), c) == ps,
    decreases ps.len(),
{
    if ps.len() == 1 {
        lemma_split_free(ps[0], c);
        assert(seq![ps[0]] =~= ps);
    } else {
        let front = ps.drop_last();
        assert forall|i: int| 0 <= i < front.len() implies free_of(#[trigger] front[i], c) by {
            assert(front[i] == ps[i]);
        }
        law_joined_split(front, c);
        lemma_split_after(joined(front, c), ps.last(), c);
        assert(front.push(ps.last()) =~= ps);
    }
}

proof fn lemma_joined_three(p: Seq<Seq<char>>, c: char)
    requires
        p.len() == 3,
    ensures
        joined(p, c) == p[0] + seq![c] + p[1] + seq![c] + p[2],
{
    let q = p.drop_last();
    assert(q.drop_last().len() == 1);
    assert(joined(q.drop_last(), c) == q.drop_last()[0]);
    assert(joined(q, c) == joined(q.drop_last(), c) + seq![c] + q.last());
    assert(joined(p, c) == joined(q, c) + seq![c] + p.last());
}

/// A line announces a mate in `moves` only where its mate number reads as
/// `moves`; the moves it gives are three, none with a space in it, and the
/// text after the first `" pv "` of the line is these moves separated by
/// single spaces.
pub proof fn law_capture_moves(info: Seq<char>, mate: Option<Seq<char>>, moves: nat)
    requires
        capture_ok(info, mate, moves),
    ensures
        capture_result(info, mate, moves) matches Some(p) ==> {
            &&& mate matches Some(d) && parse_usize_of(d) == Some(moves)
            &&& p.len() == 3
            &&& forall|i: int| 0 <= i < 3 ==> free_of(#[trigger] p[i], ' ')
            &&& exists|k: int| occurs_at_first(info, pv_marker(), k)
                && #[trigger] info.skip(k + 4) == p[0] + seq![' '] + p[1] + seq![' '] + p[2]
        },
{
    if let Some(p) = capture_result(info, mate, moves) {
        let d = mate->0;
        let k = first_occurrence(info, pv_marker())->0;
        let w = info.skip(k + 4);
        lemma_split_on_len(w, ' ');
        law_split_joined(w, ' ');
        assert(p == split_on(w, ' '));
        lemma_joined_three(p, ' ');
        let i = choose|i: int| 0 <= i <= info.len() - pv_marker().len()
            && #[trigger] info.subrange(i, i + pv_marker().len()) == pv_marker();
        lemma_first_occurrence(info, pv_marker(), i);
    }
}

/// Conversely, a line whose mate number reads as `moves` and whose text
/// after the first `" pv "` is three moves without spaces, separated by
/// single spaces, announces a mate in `moves` with exactly these moves.
pub proof fn law_capture_moves_found(info: Seq<char>, d: Seq<char>, moves: nat, k: int, p: Seq<Seq<char>>)
    requires
        parse_usize_of(d) == Some(moves),
        occurs_at_first(info, pv_marker(), k),
        p.len() == 3,
        forall|i: int| 0 <= i < 3 ==> free_of(#[trigger] p[i], ' '),
        info.skip(k + 4) == p[0] + seq![' '] + p[1] + seq![' '] + p[2],
    ensures
        capture_result(info, Some(d), moves) == Some(p),
{
    lemma_first_occurrence(info, pv_marker(), k);
    let f = first_occurrence(info, pv_marker())->0;
    if f < k {
        assert(info.subrange(f, f + 4) == pv_marker());
    } else if k < f {
        assert(info.subrange(k, k + 4) == pv_marker());
    }
    assert(f == k);
    lemma_joined_three(p, ' ');
    law_joined_split(p, ' ');
}
proof fn lemma_decimal_digits(n: nat)
    ensures
        decimal(n).len() > 0,
        all_digits(decimal(n)),
        digits_value(decimal(n)) == n,
    decreases n,
{
    assert(digit_value(digit_char(n % 10)) == n % 10);
    if n < 10 {
        assert(decimal(n).drop_last() =~= Seq::<char>::empty());
        assert(digits_value(Seq::<char>::empty()) == 0);
        assert(decimal(n).last() == digit_char(n % 10));
    } else {
        lemma_decimal_digits(n / 10);
        let d = decimal(n / 10);
        let e = d.push(digit_char(n % 10));
        assert(e.drop_last() =~= d);
        assert(digits_value(e) == digits_value(d) * 10 + n % 10);
        assert((n / 10) * 10 + n % 10 == n) by (nonlinear_arith);
        assert(decimal(n) == e);
        assert forall|i: int| 0 <= i < e.len() implies is_digit(#[trigger] e[i]) by {
            if i < d.len() {
                assert(e[i] == d[i]);
            }
        }
    }
}

/// A number written in decimal, with or without a leading `+`, reads back
/// as the same number where it fits in a `usize`, and as nothing where it
/// does not.
pub proof fn law_parse_decimal(n: nat)
    ensures
        parse_usize_of(decimal(n)) == if n <= usize::MAX { Some(n) } else { None::<nat> },
        parse_usize_of(seq!['+'] + decimal(n)) == parse_usize_of(decimal(n)),
{
    lemma_decimal_digits(n);
    assert(is_digit(decimal(n)[0]));
    assert((seq!['+'] + decimal(n)).drop_first() =~= decimal(n));
}
proof fn lemma_split_keeps_free(s: Seq<char>, c: char, d: char)
    requires
        free_of(s, d),
    ensures
        forall|i: int| 0 <= i < split_on(s, c).len() ==> free_of(#[trigger] split_on(s, c)[i], d),
    decreases s.len(),
{
    lemma_split_on_len(s, c);
    if s.len() == 0 {
        assert(split_on(s, c)[0] =~= s);
    } else {
        let before = split_on(s.drop_last(), c);
        assert(free_of(s.drop_last(), d));
        lemma_split_keeps_free(s.drop_last(), c, d);
        lemma_split_on_len(s.drop_last(), c);
        if s.last() == c {
            let ps = before.push(seq![]);
            assert forall|i: int| 0 <= i < ps.len() implies free_of(#[trigger] ps[i], d) by {
                if i < before.len() {
                    assert(ps[i] == before[i]);
                }
            }
        } else {
            let ps = before.update(before.len() - 1, before.last().push(s.last()));
            assert forall|i: int| 0 <= i < ps.len() implies free_of(#[trigger] ps[i], d) by {
                if i < before.len() - 1 {
                    assert(ps[i] == before[i]);
                } else {
                    assert(free_of(before[before.len() - 1], d));
                    assert forall|j: int| 0 <= j < ps[i].len() implies ps[i][j] != d by {
                        if j < before.last().len() {
                            assert(ps[i][j] == before.last()[j]);
                        }
                    }
                }
            }
        }
    }
}

/// The lines of a text hold no line feed, and where the text has no
/// carriage return, joining its lines with line feeds gives the text back,
/// but for the line feed that ends it, if one does.
pub proof fn law_lines_joined(s: Seq<char>)
    ensures
        forall|i: int| 0 <= i < lines_of(s).len() ==> free_of(#[trigger] lines_of(s)[i], '\n'),
        free_of(s, '\r') ==> s == joined(lines_of(s), '\n')
            + if s.len() > 0 && s.last() == '\n' { seq!['\n'] } else { Seq::<char>::empty() },
{
    let segs = split_on(s, '\n');
    let ls = lines_of(s);
    lemma_split_on_len(s, '\n');
    law_split_joined(s, '\n');
    let n = segs.len() - 1;
    assert forall|i: int| 0 <= i < ls.len() implies free_of(#[trigger] ls[i], '\n') by {
        if i < n {
            assert(ls[i] == strip_cr(segs[i]));
            assert(free_of(segs[i], '\n'));
            assert forall|j: int| 0 <= j < strip_cr(segs[i]).len() implies strip_cr(segs[i])[j] != '\n' by {
                assert(strip_cr(segs[i])[j] == segs[i][j]);
            }
        } else {
            assert(ls[i] == segs[n]);
            assert(free_of(segs[n], '\n'));
        }
    }
    if free_of(s, '\r') {
        lemma_split_keeps_free(s, '\n', '\r');
        let front = Seq::new(n as nat, |i: int| strip_cr(segs[i]));
        assert forall|i: int| 0 <= i < n implies #[trigger] front[i] == segs[i] by {
            assert(free_of(segs[i], '\r'));
            if segs[i].len() > 0 {
                assert(segs[i].last() != '\r');
            }
        }
        assert(front =~= segs.drop_last());
        if s.len() > 0 {
            lemma_split_on_len(s.drop_last(), '\n');
        }
        if segs.last().len() > 0 {
            assert(ls =~= segs);
            if s.len() > 0 && s.last() == '\n' {
                assert(segs.last().len() == 0);
            }
            assert(s =~= joined(ls, '\n') + Seq::<char>::empty());
        } else {
            assert(ls =~= segs.drop_last());
            if n == 0 {
                assert(s.len() == 0);
                assert(s =~= joined(ls, '\n') + Seq::<char>::empty());
            } else {
                assert(s.len() > 0);
                assert(s.last() == '\n');
                assert(joined(segs, '\n') == joined(segs.drop_last(), '\n') + seq!['\n'] + segs.last());
                assert(s =~= joined(ls, '\n') + seq!['\n']);
            }
        }
    }
}
} // verus!
