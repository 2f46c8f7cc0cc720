//! Replacing the value of the top-level `"actions"` member of a JSON text,
//! keeping the rest of the text (comments of layout, other members) as it
//! was. Only quotes, backslashes, braces, colons and JSON whitespace are
//! looked at.

use vstd::prelude::*;

verus! {

/// JSON whitespace.
pub open spec fn is_json_ws(c: char) -> bool {
    c == ' ' || c == '\n' || c == '\r' || c == '\t'
}

/// Position of the quote that closes a string whose body starts at `i`;
/// a backslash skips the character after it.
pub open spec fn string_close(s: Seq<char>, i: int) -> Option<int>
    decreases s.len() - i,
{
    if i < 0 || i >= s.len() {
        None
    } else if s[i] == '\\' {
        if i + 2 < s.len() {
            string_close(s, i + 2)
        } else {
            None
        }
    } else if s[i] == '"' {
        Some(i)
    } else {
        string_close(s, i + 1)
    }
}

/// A closing quote lies at or after the start.
pub proof fn lemma_string_close(s: Seq<char>, i: int)
    ensures
        string_close(s, i) matches Some(e) ==> i <= e < s.len() && s[e] == '"',
    decreases s.len() - i,
{
    if 0 <= i < s.len() {
        if s[i] == '\\' {
            if i + 2 < s.len() {
                lemma_string_close(s, i + 2);
            }
        } else if s[i] != '"' {
            lemma_string_close(s, i + 1);
        }
    }
}

/// The first position at or after `i` that is not JSON whitespace.
pub open spec fn ws_skip(s: Seq<char>, i: int) -> int
    decreases s.len() - i,
{
    if 0 <= i < s.len() && is_json_ws(s[i]) {
        ws_skip(s, i + 1)
    } else {
        i
    }
}

/// Position of the brace that brings the nesting `depth` back to zero,
/// scanning from `i`; braces inside strings do not count.
pub open spec fn brace_close(s: Seq<char>, i: int, depth: nat) -> Option<int>
    decreases s.len() - i,
{
    if i < 0 || i >= s.len() {
        None
    } else if s[i] == '"' {
        match string_close(s, i + 1) {
            Some(e) => {
                proof {
                    lemma_string_close(s, i + 1);
                }
                brace_close(s, e + 1, depth)
            },
            None => None,
        }
    } else if s[i] == '{' {
        brace_close(s, i + 1, depth + 1)
    } else if s[i] == '}' {
        if depth == 0 {
            None
        } else if depth == 1 {
            Some(i)
        } else {
            brace_close(s, i + 1, (depth - 1) as nat)
        }
    } else {
        brace_close(s, i + 1, depth)
    }
}

/// A closing brace lies at or after the start.
pub proof fn lemma_brace_close(s: Seq<char>, i: int, depth: nat)
    ensures
        brace_close(s, i, depth) matches Some(e) ==> i <= e < s.len() && s[e] == '}',
    decreases s.len() - i,
{
    if 0 <= i < s.len() {
        if s[i] == '"' {
            lemma_string_close(s, i + 1);
            if let Some(e) = string_close(s, i + 1) {
                lemma_brace_close(s, e + 1, depth);
            }
        } else if s[i] == '{' {
            lemma_brace_close(s, i + 1, depth + 1);
        } else if s[i] == '}' {
            if depth > 1 {
                lemma_brace_close(s, i + 1, (depth - 1) as nat);
            }
        } else {
            lemma_brace_close(s, i + 1, depth);
        }
    }
}

/// The token `"actions"`, quotes included.
pub open spec fn actions_key() -> Seq<char> {
    seq!['"', 'a', 'c', 't', 'i', 'o', 'n', 's', '"']
}

/// Scanning from `i` at brace depth `depth`: the first `"actions"` key at
/// depth one whose value is an object, as the position of the value's
/// opening brace, the position just after its closing brace, and the
/// position of the key.
pub open spec fn actions_value(s: Seq<char>, i: int, depth: nat) -> Option<(int, int, int)>
    decreases s.len() - i,
{
    if i < 0 || i >= s.len() {
        None
    } else if s[i] == '"' {
        match string_close(s, i + 1) {
            None => None,
            Some(e) => {
                proof {
                    lemma_string_close(s, i + 1);
                }
                if depth == 1 && s.subrange(i, e + 1) == actions_key() {
                    let c = ws_skip(s, e + 1);
                    if 0 <= c < s.len() && s[c] == ':' {
                        let v = ws_skip(s, c + 1);
                        if 0 <= v < s.len() && s[v] == '{' {
                            match brace_close(s, v, 0) {
                                Some(close) => Some((v, close + 1, i)),
                                None => None,
                            }
                        } else {
                            actions_value(s, e + 1, depth)
                        }
                    } else {
                        actions_value(s, e + 1, depth)
                    }
                } else {
                    actions_value(s, e + 1, depth)
                }
            },
        }
    } else if s[i] == '{' {
        actions_value(s, i + 1, depth + 1)
    } else if s[i] == '}' {
        actions_value(s, i + 1, if depth == 0 { 0 } else { (depth - 1) as nat })
    } else {
        actions_value(s, i + 1, depth)
    }
}

/// The characters of a string.
pub fn chars_of(s: &str) -> (r: Vec<char>)
    ensures
        r@ == s@,
{
    let n = s.unicode_len();
    let mut r: Vec<char> = Vec::new();
    let mut i: usize = 0;
    while i < n
        invariant
            i <= n,
            n == s@.len(),
            r@ == s@.take(i as int),
        decreases n - i,
    {
        r.push(s.get_char(i));
        i += 1;
        assert(r@ =~= s@.take(i as int));
    }
    assert(s@.take(n as int) =~= s@);
    r
}

/// Position of the quote closing the string that opens at `start`.
pub fn scan_string_end(s: &[char], start: usize) -> (r: Option<usize>)
    ensures
        r == (match string_close(s@, start + 1) {
            Some(e) => Some(e as usize),
            None => None::<usize>,
        }),
{
    proof {
        lemma_string_close(s@, start + 1);
    }
    if start >= s.len() {
        return None;
    }
    let mut i: usize = start + 1;
    while i < s.len()
        invariant
            start < i,
            i <= s@.len() + 1,
            string_close(s@, start + 1) == string_close(s@, i as int),
        decreases s@.len() - i,
    {
        if s[i] == '\\' {
            if s.len() - i <= 2 {
                return None;
            }
            i += 2;
        } else if s[i] == '"' {
            return Some(i);
        } else {
            i += 1;
        }
    }
    None
}

/// The first position at or after `index` that is not JSON whitespace.
pub fn skip_ws(s: &[char], index: usize) -> (r: usize)
    requires
        index <= s@.len(),
    ensures
        r == ws_skip(s@, index as int),
        index <= r <= s@.len(),
{
    let mut i = index;
    while i < s.len() && (s[i] == ' ' || s[i] == '\n' || s[i] == '\r' || s[i] == '\t')
        invariant
            index <= i <= s@.len(),
            ws_skip(s@, index as int) == ws_skip(s@, i as int),
        decreases s@.len() - i,
    {
        i += 1;
    }
    i
}

/// Position of the brace closing the object that opens at `start`.
pub fn scan_matching_brace(s: &[char], start: usize) -> (r: Option<usize>)
    ensures
        r == (match brace_close(s@, start as int, 0) {
            Some(e) => Some(e as usize),
            None => None::<usize>,
        }),
        r matches Some(e) ==> e < s@.len(),
{
    let mut i = start;
    let mut depth: usize = 0;
    while i < s.len()
        invariant
            start <= i,
            depth <= i - start,
            brace_close(s@, start as int, 0) == brace_close(s@, i as int, depth as nat),
        decreases s@.len() - i,
    {
        if s[i] == '"' {
            proof {
                lemma_string_close(s@, i + 1);
            }
            match scan_string_end(s, i) {
                Some(e) => {
                    i = e + 1;
                },
                None => {
                    return None;
                },
            }
        } else if s[i] == '{' {
            depth += 1;
            i += 1;
        } else if s[i] == '}' {
            if depth == 0 {
                return None;
            }
            depth -= 1;
            i += 1;
            if depth == 0 {
                return Some(i - 1);
            }
        } else {
            i += 1;
        }
    }
    None
}

/// Whether `s[i..]` starts with the token `"actions"`.
fn is_actions_token(s: &[char], i: usize, end: usize) -> (r: bool)
    requires
        i <= end < s@.len(),
    ensures
        r == (s@.subrange(i as int, end + 1) == actions_key()),
{
    if end - i != 8 {
        assert(actions_key().len() == 9);
        return false;
    }
    let r = s[i] == '"' && s[i + 1] == 'a' && s[i + 2] == 'c' && s[i + 3] == 't' && s[i + 4] == 'i'
        && s[i + 5] == 'o' && s[i + 6] == 'n' && s[i + 7] == 's' && s[i + 8] == '"';
    proof {
        if r {
            assert(s@.subrange(i as int, end + 1) =~= actions_key());
        } else {
            if s@.subrange(i as int, end + 1) == actions_key() {
                assert(s@.subrange(i as int, end + 1)[0] == actions_key()[0]);
                assert(s@.subrange(i as int, end + 1)[1] == actions_key()[1]);
                assert(s@.subrange(i as int, end + 1)[2] == actions_key()[2]);
                assert(s@.subrange(i as int, end + 1)[3] == actions_key()[3]);
                assert(s@.subrange(i as int, end + 1)[4] == actions_key()[4]);
                assert(s@.subrange(i as int, end + 1)[5] == actions_key()[5]);
                assert(s@.subrange(i as int, end + 1)[6] == actions_key()[6]);
                assert(s@.subrange(i as int, end + 1)[7] == actions_key()[7]);
                assert(s@.subrange(i as int, end + 1)[8] == actions_key()[8]);
            }
        }
    }
    r
}

/// The value of the top-level `"actions"` member when it is an object: the
/// position of its opening brace, the position just after its closing
/// brace, and the position of the key.
pub fn find_top_level_actions_value(s: &[char]) -> (r: Option<(usize, usize, usize)>)
    ensures
        r == (match actions_value(s@, 0, 0) {
            Some((a, b, c)) => Some((a as usize, b as usize, c as usize)),
            None => None::<(usize, usize, usize)>,
        }),
{
    let mut i: usize = 0;
    let mut depth: usize = 0;
    while i < s.len()
        invariant
            depth <= i,
            actions_value(s@, 0, 0) == actions_value(s@, i as int, depth as nat),
        decreases s@.len() - i,
    {
        if s[i] == '"' {
            proof {
                lemma_string_close(s@, i + 1);
            }
            let end = match scan_string_end(s, i) {
                Some(e) => e,
                None => {
                    return None;
                },
            };
            if depth == 1 && is_actions_token(s, i, end) {
                let cursor = skip_ws(s, end + 1);
                if cursor < s.len() && s[cursor] == ':' {
                    let value = skip_ws(s, cursor + 1);
                    if value < s.len() && s[value] == '{' {
                        assert(string_close(s@, i + 1) == Some(end as int));
                        assert(actions_value(s@, i as int, depth as nat) == match brace_close(s@, value as int, 0) {
                            Some(close) => Some((value as int, close + 1, i as int)),
                            None => None,
                        });
                        let n: usize = s.len();
                        proof {
                            lemma_brace_close(s@, value as int, 0);
                        }
                        return match scan_matching_brace(s, value) {
                            Some(close) => {
                                assert(close < n);
                                Some((value, close + 1, i))
                            },
                            None => None,
                        };
                    }
                }
            }
            i = end + 1;
        } else if s[i] == '{' {
            depth += 1;
            i += 1;
        } else if s[i] == '}' {
            if depth > 0 {
                depth -= 1;
            }
            i += 1;
        } else {
            i += 1;
        }
    }
    None
}


/// Unicode white space, as `char::is_whitespace` defines it.
pub open spec fn is_whitespace(c: char) -> bool {
    let u = c as u32;
    ||| 9 <= u <= 13
    ||| u == 32
    ||| u == 0x85
    ||| u == 0xa0
    ||| u == 0x1680
    ||| 0x2000 <= u <= 0x200a
    ||| u == 0x2028
    ||| u == 0x2029
    ||| u == 0x202f
    ||| u == 0x205f
    ||| u == 0x3000
}

/// Unicode white space, as `char::is_whitespace` defines it.
pub fn char_is_whitespace(c: char) -> (r: bool)
    ensures
        r == is_whitespace(c),
{
    let u = c as u32;
    (9 <= u && u <= 13) || u == 32 || u == 0x85 || u == 0xa0 || u == 0x1680 || (0x2000 <= u && u <= 0x200a)
        || u == 0x2028 || u == 0x2029 || u == 0x202f || u == 0x205f || u == 0x3000
}

/// Start of the line that position `i` is on: just after the last newline
/// before `i`, or zero.
pub open spec fn line_start(s: Seq<char>, i: int) -> int
    decreases i,
{
    if i <= 0 {
        0
    } else if s[i - 1] == '\n' {
        i
    } else {
        line_start(s, i - 1)
    }
}

/// End of the run of white space that starts at `i`, stopping at `to`.
pub open spec fn ws_run_end(s: Seq<char>, i: int, to: int) -> int
    decreases to - i,
{
    if i < to && is_whitespace(s[i]) {
        ws_run_end(s, i + 1, to)
    } else {
        i
    }
}

/// The white space that begins the line position `i` is on, up to `i`.
pub open spec fn indent_at(s: Seq<char>, i: int) -> Seq<char> {
    let start = line_start(s, i);
    s.subrange(start, ws_run_end(s, start, i))
}

pub proof fn lemma_line_start(s: Seq<char>, i: int)
    requires
        0 <= i <= s.len(),
    ensures
        0 <= line_start(s, i) <= i,
    decreases i,
{
    if i > 0 && s[i - 1] != '\n' {
        lemma_line_start(s, i - 1);
    }
}

pub proof fn lemma_ws_run_end(s: Seq<char>, i: int, to: int)
    requires
        i <= to,
    ensures
        i <= ws_run_end(s, i, to) <= to,
    decreases to - i,
{
    if i < to && is_whitespace(s[i]) {
        lemma_ws_run_end(s, i + 1, to);
    }
}

/// The white space that begins the line `index` is on, up to `index`.
pub fn line_indent(source: &str, index: usize) -> (r: String)
    requires
        index <= source@.len(),
    ensures
        r@ == indent_at(source@, index as int),
{
    let chars = chars_of(source);
    let mut start = index;
    while start > 0 && chars[start - 1] != '\n'
        invariant
            start <= index,
            index <= chars@.len(),
            chars@ == source@,
            line_start(source@, index as int) == line_start(source@, start as int),
        decreases start,
    {
        start -= 1;
    }
    proof {
        lemma_line_start(source@, index as int);
    }
    let mut i = start;
    while i < index && char_is_whitespace(chars[i])
        invariant
            start <= i <= index,
            index <= chars@.len(),
            chars@ == source@,
            start == line_start(source@, index as int),
            ws_run_end(source@, start as int, index as int) == ws_run_end(source@, i as int, index as int),
        decreases index - i,
    {
        i += 1;
    }
    source.substring_char(start, i).to_owned()
}

/// Position of the first newline at or after `i`.
pub open spec fn newline_from(s: Seq<char>, i: int) -> Option<int>
    decreases s.len() - i,
{
    if i < 0 || i >= s.len() {
        None
    } else if s[i] == '\n' {
        Some(i)
    } else {
        newline_from(s, i + 1)
    }
}

pub proof fn lemma_newline_from(s: Seq<char>, i: int)
    requires
        0 <= i,
    ensures
        newline_from(s, i) matches Some(k) ==> i <= k < s.len() && s[k] == '\n'
            && forall|j: int| i <= j < k ==> s[j] != '\n',
        newline_from(s, i) is None ==> forall|j: int| i <= j < s.len() ==> s[j] != '\n',
    decreases s.len() - i,
{
    if i < s.len() && s[i] != '\n' {
        lemma_newline_from(s, i + 1);
    }
}

/// A line without its `\r`, when it ends in one.
pub open spec fn strip_cr(line: Seq<char>) -> Seq<char> {
    if line.len() > 0 && line.last() == '\r' {
        line.drop_last()
    } else {
        line
    }
}

/// The lines of `s` as `str::lines` gives them: split at `\n`, a `\r`
/// before it dropped, the last line ending optional.
pub open spec fn lines(s: Seq<char>) -> Seq<Seq<char>>
    decreases s.len(),
{
    if s.len() == 0 {
        Seq::empty()
    } else {
        match newline_from(s, 0) {
            None => seq![s],
            Some(k) => {
                proof {
                    lemma_newline_from(s, 0);
                }
                seq![strip_cr(s.take(k))] + lines(s.skip(k + 1))
            },
        }
    }
}

/// Each line preceded by `sep`.
pub open spec fn prefixed(ls: Seq<Seq<char>>, sep: Seq<char>) -> Seq<char>
    decreases ls.len(),
{
    if ls.len() == 0 {
        Seq::empty()
    } else {
        sep + ls[0] + prefixed(ls.drop_first(), sep)
    }
}

/// The lines of `text` joined by a newline followed by `indent`.
pub open spec fn indented(text: Seq<char>, indent: Seq<char>) -> Seq<char> {
    let ls = lines(text);
    if ls.len() == 0 {
        Seq::empty()
    } else {
        ls[0] + prefixed(ls.drop_first(), seq!['\n'] + indent)
    }
}

/// Append `s[from..to]` to `out`.
fn append_range(out: &mut String, s: &str, from: usize, to: usize)
    requires
        from <= to <= s@.len(),
    ensures
        final(out)@ == old(out)@ + s@.subrange(from as int, to as int),
{
    let piece = s.substring_char(from, to);
    out.append(piece);
}

/// The line of `s` that starts at `pos`: where it ends without its `\r`,
/// and where the next line starts.
fn next_line(s: &str, pos: usize) -> (r: (usize, usize))
    requires
        pos < s@.len(),
    ensures
        pos <= r.0 <= s@.len(),
        r.1 <= s@.len(),
        pos < r.1,
        s@.skip(pos as int).len() > 0,
        lines(s@.skip(pos as int)) == seq![s@.subrange(pos as int, r.0 as int)] + lines(s@.skip(r.1 as int)),
{
    let n = s.unicode_len();
    let ghost rest = s@.skip(pos as int);
    let mut k = pos;
    while k < n && s.get_char(k) != '\n'
        invariant
            pos <= k <= n,
            n == s@.len(),
            forall|j: int| pos <= j < k ==> s@[j] != '\n',
        decreases n - k,
    {
        k += 1;
    }
    proof {
        lemma_newline_from(rest, 0);
        if k < n {
            assert(rest[k - pos] == '\n');
            assert forall|j: int| 0 <= j < k - pos implies rest[j] != '\n' by {
                assert(rest[j] == s@[pos + j]);
            }
            if newline_from(rest, 0) != Some((k - pos) as int) {
                let m = newline_from(rest, 0)->0;
                assert(rest[m] == '\n');
            }
        } else {
            assert forall|j: int| 0 <= j < rest.len() implies rest[j] != '\n' by {
                assert(rest[j] == s@[pos + j]);
            }
            if let Some(m) = newline_from(rest, 0) {
                assert(rest[m] == '\n');
            }
        }
    }
    if k == n {
        assert(rest =~= s@.subrange(pos as int, n as int));
        assert(s@.skip(n as int) =~= Seq::<char>::empty());
        assert(lines(s@.skip(n as int)) =~= Seq::<Seq<char>>::empty());
        assert(lines(rest) =~= seq![s@.subrange(pos as int, n as int)] + lines(s@.skip(n as int)));
        return (n, n);
    }
    let mut end = k;
    if end > pos && s.get_char(end - 1) == '\r' {
        end -= 1;
    }
    proof {
        assert(newline_from(rest, 0) == Some((k - pos) as int));
        assert(rest.take(k - pos) =~= s@.subrange(pos as int, k as int));
        assert(strip_cr(rest.take(k - pos)) =~= s@.subrange(pos as int, end as int));
        assert(rest.skip(k - pos + 1) =~= s@.skip(k + 1));
        assert(lines(rest) == seq![strip_cr(rest.take(k - pos))] + lines(rest.skip(k - pos + 1)));
    }
    (end, k + 1)
}

/// The lines of `text` joined by a newline followed by `indent`.
pub fn indent_multiline(text: &str, indent: &str) -> (r: String)
    ensures
        r@ == indented(text@, indent@),
{
    let n = text.unicode_len();
    let mut out = String::new();
    if n == 0 {
        assert(out@ =~= indented(text@, indent@));
        return out;
    }
    let ghost sep = seq!['\n'] + indent@;
    assert(text@.skip(0) =~= text@);
    let (first_end, mut pos) = next_line(text, 0);
    append_range(&mut out, text, 0, first_end);
    proof {
        let ls = lines(text@);
        assert(ls == seq![text@.subrange(0, first_end as int)] + lines(text@.skip(pos as int)));
        assert(ls[0] == text@.subrange(0, first_end as int));
        assert(ls.drop_first() =~= lines(text@.skip(pos as int)));
        assert(out@ =~= text@.subrange(0, first_end as int));
    }
    while pos < n
        invariant
            pos <= n,
            n == text@.len(),
            sep == seq!['\n'] + indent@,
            indented(text@, indent@) == out@ + prefixed(lines(text@.skip(pos as int)), sep),
        decreases n - pos,
    {
        let ghost before = out@;
        let (end, next) = next_line(text, pos);
        out.append("\n");
        out.append(indent);
        append_range(&mut out, text, pos, end);
        proof {
            reveal_strlit("\n");
            let ls = lines(text@.skip(pos as int));
            assert(ls.drop_first() =~= lines(text@.skip(next as int)));
            assert(out@ =~= before + sep + text@.subrange(pos as int, end as int));
        }
        pos = next;
    }
    proof {
        assert(text@.skip(pos as int) =~= Seq::<char>::empty());
        assert(lines(text@.skip(pos as int)) =~= Seq::<Seq<char>>::empty());
        assert(out@ =~= indented(text@, indent@));
    }
    out
}


/// Bounds of the `"actions"` value found by a scan.
pub proof fn lemma_actions_value(s: Seq<char>, i: int, depth: nat)
    requires
        0 <= i,
    ensures
        actions_value(s, i, depth) matches Some((a, b, c)) ==> i <= c < a < b <= s.len(),
    decreases s.len() - i,
{
    if i < s.len() {
        if s[i] == '"' {
            lemma_string_close(s, i + 1);
            if let Some(e) = string_close(s, i + 1) {
                let c = ws_skip(s, e + 1);
                lemma_ws_skip(s, e + 1);
                lemma_ws_skip(s, c + 1);
                let v = ws_skip(s, c + 1);
                if 0 <= v < s.len() {
                    lemma_brace_close(s, v, 0);
                }
                lemma_actions_value(s, e + 1, depth);
            }
        } else if s[i] == '{' {
            lemma_actions_value(s, i + 1, depth + 1);
        } else if s[i] == '}' {
            lemma_actions_value(s, i + 1, if depth == 0 { 0 } else { (depth - 1) as nat });
        } else {
            lemma_actions_value(s, i + 1, depth);
        }
    }
}

/// Skipping white space does not go back.
pub proof fn lemma_ws_skip(s: Seq<char>, i: int)
    ensures
        ws_skip(s, i) >= i,
    decreases s.len() - i,
{
    if 0 <= i < s.len() && is_json_ws(s[i]) {
        lemma_ws_skip(s, i + 1);
    }
}

/// `source` with the value of its top-level `"actions"` member replaced by
/// `replacement`, whose lines after the first are indented like the line
/// of the key; nothing when there is no such member whose value is an
/// object.
pub open spec fn patched_actions(source: Seq<char>, replacement: Seq<char>) -> Option<Seq<char>> {
    match actions_value(source, 0, 0) {
        Some((start, end, key)) => Some(
            source.take(start) + indented(replacement, indent_at(source, key)) + source.skip(end),
        ),
        None => None,
    }
}

/// Replace the value of the top-level `"actions"` member of `source`.
pub fn replace_top_level_actions_object(source: &str, replacement: &str) -> (r: Option<String>)
    ensures
        match patched_actions(source@, replacement@) {
            Some(p) => r matches Some(t) && t@ == p,
            None => r is None,
        },
{
    let chars = chars_of(source);
    proof {
        lemma_actions_value(source@, 0, 0);
    }
    let (value_start, value_end, key) = match find_top_level_actions_value(chars.as_slice()) {
        Some(found) => found,
        None => {
            return None;
        },
    };
    let n = source.unicode_len();
    let indent = line_indent(source, key);
    let body = indent_multiline(replacement, indent.as_str());
    let mut rendered = String::new();
    append_range(&mut rendered, source, 0, value_start);
    rendered.append(body.as_str());
    append_range(&mut rendered, source, value_end, n);
    proof {
        assert(source@.subrange(0, value_start as int) =~= source@.take(value_start as int));
        assert(source@.subrange(value_end as int, n as int) =~= source@.skip(value_end as int));
    }
    Some(rendered)
}

} // verus!
