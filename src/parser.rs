use vstd::prelude::*;
use crate::error::TSPError;

verus! {

/// `c` is white space as `char::is_whitespace` defines it (Unicode White_Space).
pub open spec fn is_space(c: char) -> bool {
    ||| c == ' '
    ||| ('\t' <= c && c <= '\r')
    ||| c == '\u{85}'
    ||| c == '\u{a0}'
    ||| c == '\u{1680}'
    ||| ('\u{2000}' <= c && c <= '\u{200a}')
    ||| c == '\u{2028}'
    ||| c == '\u{2029}'
    ||| c == '\u{202f}'
    ||| c == '\u{205f}'
    ||| c == '\u{3000}'
}

pub open spec fn is_digit(c: char) -> bool {
    '0' <= c && c <= '9'
}

/// Value of a string of decimal digits.
pub open spec fn digits_value(s: Seq<char>) -> int
    decreases s.len(),
{
    if s.len() == 0 {
        0
    } else {
        digits_value(s.drop_last()) * 10 + (s.last() as int - '0' as int)
    }
}

/// Number of leading sign characters of a token: one for `+` or `-`.
pub open spec fn sign_len(t: Seq<char>) -> int {
    if t.len() > 0 && (t[0] == '-' || t[0] == '+') {
        1
    } else {
        0
    }
}

/// The distance a token stands for: an optional sign followed by at least one
/// decimal digit, whose value fits in an `i64`.
pub open spec fn number_value(t: Seq<char>) -> Option<int> {
    let body = t.subrange(sign_len(t), t.len() as int);
    let v = if sign_len(t) == 1 && t[0] == '-' {
        -digits_value(body)
    } else {
        digits_value(body)
    };
    if body.len() > 0 && (forall|k: int| 0 <= k < body.len() ==> is_digit(#[trigger] body[k]))
        && i64::MIN <= v <= i64::MAX {
        Some(v)
    } else {
        None
    }
}

/// The characters of each token.
pub open spec fn views(tokens: Seq<Vec<char>>) -> Seq<Seq<char>> {
    tokens.map_values(|t: Vec<char>| t@)
}

/// Every token is a number.
pub open spec fn all_numbers(tokens: Seq<Seq<char>>) -> bool {
    forall|k: int| 0 <= k < tokens.len() ==> (#[trigger] number_value(tokens[k])) is Some
}

/// `row` holds the values of `tokens`, in order.
pub open spec fn row_of(tokens: Seq<Seq<char>>, row: Seq<i64>) -> bool {
    &&& row.len() == tokens.len()
    &&& forall|k: int| 0 <= k < tokens.len() ==> number_value(tokens[k]) == Some(#[trigger] row[k] as int)
}

/// A retained line of input: its text without surrounding white space, and
/// the white-space separated tokens of that text.
pub struct InputLine {
    pub text: Vec<char>,
    pub tokens: Vec<Vec<char>>,
}

/// A token holds at least one character and no white space.
pub open spec fn is_token(t: Seq<char>) -> bool {
    t.len() > 0 && forall|k: int| 0 <= k < t.len() ==> !is_space(#[trigger] t[k])
}

/// A line that is kept: not blank, not a comment, split into tokens.
pub open spec fn is_kept_line(l: InputLine) -> bool {
    &&& l.text.len() > 0
    &&& l.text@[0] != '#'
    &&& !is_space(l.text@[0])
    &&& !is_space(l.text@.last())
    &&& l.tokens.len() > 0
    &&& forall|k: int| 0 <= k < l.tokens.len() ==> is_token(#[trigger] l.tokens@[k]@)
}

/// The lines from `start` on are exactly `n` rows of `n` numbers.
pub open spec fn block_ok(texts: Seq<Seq<char>>, start: int, n: int) -> bool {
    &&& start + n == texts.len()
    &&& forall|i: int|
        0 <= i < n ==> all_numbers(split_tokens(#[trigger] texts[start + i])) && split_tokens(
            texts[start + i],
        ).len() == n
}

/// `m` is the matrix that the `n` lines from `start` spell out.
pub open spec fn block_of(texts: Seq<Seq<char>>, start: int, n: int, m: Seq<Vec<i64>>) -> bool {
    &&& m.len() == n
    &&& forall|i: int| 0 <= i < n ==> row_of(split_tokens(texts[start + i]), (#[trigger] m[i])@)
}

/// The first fault met when reading rows `i..n` of the block at `start`:
/// a missing row, a token that is not a number, a row of the wrong length
/// (rows counted from 1), or, once `n` rows are read, lines left over.
pub open spec fn block_fault(texts: Seq<Seq<char>>, start: int, n: int, i: int) -> Option<TSPError>
    decreases n - i,
{
    if i >= n {
        if start + n != texts.len() {
            Some(
                TSPError::DimensionMismatch {
                    in_row: None,
                    found: (texts.len() - start) as usize,
                    expected: n as usize,
                },
            )
        } else {
            None
        }
    } else if start + i >= texts.len() {
        Some(
            TSPError::DimensionMismatch {
                in_row: None,
                found: (texts.len() - start) as usize,
                expected: n as usize,
            },
        )
    } else if !all_numbers(split_tokens(texts[start + i])) {
        Some(TSPError::InvalidNumber { row: (i + 1) as usize })
    } else if split_tokens(texts[start + i]).len() != n {
        Some(
            TSPError::DimensionMismatch {
                in_row: Some((i + 1) as usize),
                found: split_tokens(texts[start + i]).len() as usize,
                expected: n as usize,
            },
        )
    } else {
        block_fault(texts, start, n, i + 1)
    }
}

proof fn lemma_block_fault_kind(texts: Seq<Seq<char>>, start: int, n: int, i: int)
    ensures
        block_fault(texts, start, n, i) matches Some(e) ==> (e is InvalidNumber
            || e is DimensionMismatch),
    decreases n - i,
{
    if i < n && start + i < texts.len() {
        lemma_block_fault_kind(texts, start, n, i + 1);
    }
}

/// What reading `n` rows of `n` numbers from line `start` gives: the matrix
/// when the lines from `start` are exactly such rows, else the first fault.
pub open spec fn block_outcome(
    texts: Seq<Seq<char>>,
    start: int,
    n: int,
    r: Result<Vec<Vec<i64>>, TSPError>,
) -> bool {
    &&& r is Ok <==> block_ok(texts, start, n)
    &&& r matches Ok(m) ==> block_of(texts, start, n, m@)
    &&& r matches Err(e) ==> (e is InvalidNumber || e is DimensionMismatch)
    &&& match block_fault(texts, start, n, 0) {
        Some(e) => r == Err::<Vec<Vec<i64>>, TSPError>(e),
        None => r is Ok,
    }
}

/// The matrix part of a parse result.
pub open spec fn matrix_part(r: Result<(Vec<String>, Vec<Vec<i64>>), TSPError>) -> Result<
    Vec<Vec<i64>>,
    TSPError,
> {
    match r {
        Ok(p) => Ok(p.1),
        Err(e) => Err(e),
    }
}

/// The names are the tokens of a line, in order.
pub open spec fn names_of_tokens(names: Seq<String>, tokens: Seq<Seq<char>>) -> bool {
    &&& names.len() == tokens.len()
    &&& forall|k: int| 0 <= k < names.len() ==> (#[trigger] names[k])@ == tokens[k]
}

/// The first line is read as the row of city names.
pub open spec fn matrix_layout(texts: Seq<Seq<char>>) -> bool {
    &&& texts.len() > 0
    &&& split_tokens(texts[0]).len() > 1
    &&& !all_numbers(split_tokens(texts[0]))
}

/// Line `k` is the first line made of numbers only.
pub open spec fn first_numeric_line(texts: Seq<Seq<char>>, k: int) -> bool {
    &&& 0 <= k < texts.len()
    &&& all_numbers(split_tokens(texts[k]))
    &&& forall|i: int| 0 <= i < k ==> !all_numbers(split_tokens(#[trigger] texts[i]))
}

/// Result of reading the matrix layout: names on the first line, then one
/// row per name.
pub open spec fn matrix_outcome(
    texts: Seq<Seq<char>>,
    r: Result<(Vec<String>, Vec<Vec<i64>>), TSPError>,
) -> bool {
    &&& (r matches Err(TSPError::MalformedLayout)) <==> texts.len() < 2
    &&& texts.len() >= 2 ==> block_outcome(
        texts,
        1,
        split_tokens(texts[0]).len() as int,
        matrix_part(r),
    )
    &&& r matches Ok(p) ==> names_of_tokens(p.0@, split_tokens(texts[0]))
}

/// Result of reading the list layout: one name per line up to the first line
/// of numbers, then one row per name from there.
pub open spec fn list_outcome(
    texts: Seq<Seq<char>>,
    r: Result<(Vec<String>, Vec<Vec<i64>>), TSPError>,
) -> bool {
    &&& (r matches Err(TSPError::MalformedLayout)) <==> !(exists|s: int|
        0 < s && first_numeric_line(texts, s))
    &&& forall|s: int|
        0 < s && first_numeric_line(texts, s) ==> {
            &&& block_outcome(texts, s, s, matrix_part(r))
            &&& r matches Ok(p) ==> p.0.len() == s && forall|i: int|
                0 <= i < s ==> (#[trigger] p.0@[i])@ == texts[i]
        }
}

/// Result of reading an input text.
pub open spec fn parse_outcome(
    content: Seq<char>,
    r: Result<(Vec<String>, Vec<Vec<i64>>), TSPError>,
) -> bool {
    let texts = kept_texts(content);
    &&& (r matches Err(TSPError::EmptyInput)) <==> texts.len() == 0
    &&& texts.len() > 0 && matrix_layout(texts) ==> matrix_outcome(texts, r)
    &&& texts.len() > 0 && !matrix_layout(texts) ==> list_outcome(texts, r)
}

/// Tokens finished after reading the first `k` characters of `s`, and the
/// token being read.
pub open spec fn split_state(s: Seq<char>, k: nat) -> (Seq<Seq<char>>, Seq<char>)
    decreases k,
{
    if k == 0 || k > s.len() {
        (Seq::empty(), Seq::empty())
    } else {
        let st = split_state(s, (k - 1) as nat);
        let c = s[k - 1];
        if is_space(c) {
            if st.1.len() > 0 {
                (st.0.push(st.1), Seq::empty())
            } else {
                st
            }
        } else {
            (st.0, st.1.push(c))
        }
    }
}

/// The maximal runs of non-white-space characters of `s`, in order.
pub open spec fn split_tokens(s: Seq<char>) -> Seq<Seq<char>> {
    let st = split_state(s, s.len());
    if st.1.len() > 0 {
        st.0.push(st.1)
    } else {
        st.0
    }
}

/// `s` without its leading white space.
pub open spec fn trim_start(s: Seq<char>) -> Seq<char>
    decreases s.len(),
{
    if s.len() > 0 && is_space(s[0]) {
        trim_start(s.drop_first())
    } else {
        s
    }
}

/// `s` without its trailing white space.
pub open spec fn trim_end(s: Seq<char>) -> Seq<char>
    decreases s.len(),
{
    if s.len() > 0 && is_space(s.last()) {
        trim_end(s.drop_last())
    } else {
        s
    }
}

pub open spec fn trim(s: Seq<char>) -> Seq<char> {
    trim_end(trim_start(s))
}

/// A trimmed line is kept unless it is blank or a comment.
pub open spec fn is_kept(t: Seq<char>) -> bool {
    t.len() > 0 && t[0] != '#'
}

/// Kept lines after reading the first `k` characters of `s`, and the raw
/// line being read. Lines end at `\n`.
pub open spec fn lines_state(s: Seq<char>, k: nat) -> (Seq<Seq<char>>, Seq<char>)
    decreases k,
{
    if k == 0 || k > s.len() {
        (Seq::empty(), Seq::empty())
    } else {
        let st = lines_state(s, (k - 1) as nat);
        let c = s[k - 1];
        if c == '\n' {
            if is_kept(trim(st.1)) {
                (st.0.push(trim(st.1)), Seq::empty())
            } else {
                (st.0, Seq::empty())
            }
        } else {
            (st.0, st.1.push(c))
        }
    }
}

/// The trimmed lines of `s` that are neither blank nor comments, in order.
pub open spec fn kept_texts(s: Seq<char>) -> Seq<Seq<char>> {
    let st = lines_state(s, s.len());
    if is_kept(trim(st.1)) {
        st.0.push(trim(st.1))
    } else {
        st.0
    }
}

/// Relies on `String`'s `FromIterator<&char>`: the string of these characters.
#[verifier::external_body]
pub(crate) fn string_of(cs: &Vec<char>) -> (r: String)
    ensures
        r@ == cs@,
{
    cs.iter().collect()
}

/// Relies on `str::chars` collected into a `Vec`: the characters of the text.
#[verifier::external_body]
pub(crate) fn chars_of(s: &str) -> (r: Vec<char>)
    ensures
        r@ == s@,
{
    s.chars().collect()
}

fn is_space_char(c: char) -> (r: bool)
    ensures
        r == is_space(c),
{
    c == ' ' || ('\t' <= c && c <= '\r') || c == '\u{85}' || c == '\u{a0}' || c == '\u{1680}'
        || ('\u{2000}' <= c && c <= '\u{200a}') || c == '\u{2028}' || c == '\u{2029}'
        || c == '\u{202f}' || c == '\u{205f}' || c == '\u{3000}'
}

/// Reads a token as a number.
pub fn parse_number(t: &Vec<char>) -> (r: Option<i64>)
    ensures
        match number_value(t@) {
            Some(v) => r == Some(v as i64),
            None => r is None,
        },
{
    let len = t.len();
    let start: usize = if len > 0 && (t[0] == '-' || t[0] == '+') {
        1
    } else {
        0
    };
    let negative = start == 1 && t[0] == '-';
    let ghost body = t@.subrange(start as int, len as int);
    assert(sign_len(t@) == start);
    assert(t@.subrange(sign_len(t@), t@.len() as int) == body);
    if start == len {
        return None;
    }
    let mut acc: i128 = 0;
    let mut too_big = false;
    let mut k: usize = start;
    while k < len
        invariant
            start <= k <= len,
            len == t.len(),
            start < len,
            body == t@.subrange(start as int, len as int),
            sign_len(t@) == start,
            t@.subrange(sign_len(t@), t@.len() as int) == body,
            negative == (start == 1 && t@[0] == '-'),
            forall|i: int| start <= i < k ==> is_digit(#[trigger] t@[i]),
            !too_big ==> acc == digits_value(t@.subrange(start as int, k as int)),
            !too_big ==> 0 <= acc <= 0x8000_0000_0000_0000,
            too_big ==> digits_value(t@.subrange(start as int, k as int)) > 0x8000_0000_0000_0000,
        decreases len - k,
    {
        let c = t[k];
        if !('0' <= c && c <= '9') {
            assert(!is_digit(body[k - start]));
            assert(!(forall|i: int| 0 <= i < body.len() ==> is_digit(#[trigger] body[i])));
            assert(number_value(t@) is None);
            return None;
        }
        let ghost prefix = t@.subrange(start as int, k as int);
        assert(t@.subrange(start as int, k + 1).drop_last() =~= prefix);
        assert(digits_value(t@.subrange(start as int, k + 1)) == digits_value(prefix) * 10 + (c as int
            - '0' as int));
        if !too_big {
            acc = acc * 10 + (c as u32 - '0' as u32) as i128;
            if acc > 0x8000_0000_0000_0000 {
                too_big = true;
            }
        } else {
            assert(digits_value(prefix) * 10 + (c as int - '0' as int) > 0x8000_0000_0000_0000)
                by (nonlinear_arith)
                requires
                    digits_value(prefix) > 0x8000_0000_0000_0000,
                    c as int - '0' as int >= 0,
            ;
        }
        k += 1;
    }
    assert(t@.subrange(start as int, k as int) =~= body);
    assert forall|i: int| 0 <= i < body.len() implies is_digit(#[trigger] body[i]) by {
        assert(is_digit(t@[i + start]));
    }
    if too_big {
        return None;
    }
    if negative {
        Some((-acc) as i64)
    } else if acc > 0x7fff_ffff_ffff_ffff {
        None
    } else {
        Some(acc as i64)
    }
}

/// Reads every token of a row as a number.
pub fn parse_row(tokens: &Vec<Vec<char>>) -> (r: Option<Vec<i64>>)
    ensures
        r is Some <==> all_numbers(views(tokens@)),
        r matches Some(row) ==> row_of(views(tokens@), row@),
{
    let mut row: Vec<i64> = Vec::new();
    let mut k: usize = 0;
    while k < tokens.len()
        invariant
            k <= tokens.len(),
            row@.len() == k,
            forall|i: int| 0 <= i < k ==> number_value(tokens@[i]@) == Some(#[trigger] row@[i] as int),
        decreases tokens.len() - k,
    {
        match parse_number(&tokens[k]) {
            Some(v) => {
                row.push(v);
            },
            None => {
                assert(number_value(tokens@[k as int]@) is None);
                assert(views(tokens@)[k as int] == tokens@[k as int]@);
                return None;
            },
        }
        k += 1;
    }
    assert(all_numbers(views(tokens@))) by {
        assert forall|i: int| 0 <= i < tokens@.len() implies (#[trigger] number_value(
            views(tokens@)[i],
        )) is Some by {
            assert(views(tokens@)[i] == tokens@[i]@);
            assert(number_value(tokens@[i]@) == Some(row@[i] as int));
        }
    }
    assert forall|i: int| 0 <= i < tokens@.len() implies number_value(views(tokens@)[i]) == Some(
        #[trigger] row@[i] as int,
    ) by {
        assert(views(tokens@)[i] == tokens@[i]@);
    }
    Some(row)
}

/// Tells whether every token is a number, without keeping the values.
fn is_numeric_line(tokens: &Vec<Vec<char>>) -> (r: bool)
    ensures
        r == all_numbers(views(tokens@)),
{
    let mut k: usize = 0;
    while k < tokens.len()
        invariant
            k <= tokens.len(),
            forall|i: int| 0 <= i < k ==> (#[trigger] number_value(tokens@[i]@)) is Some,
        decreases tokens.len() - k,
    {
        if parse_number(&tokens[k]).is_none() {
            assert(views(tokens@)[k as int] == tokens@[k as int]@);
            return false;
        }
        k += 1;
    }
    assert forall|i: int| 0 <= i < tokens@.len() implies (#[trigger] number_value(
        views(tokens@)[i],
    )) is Some by {
        assert(views(tokens@)[i] == tokens@[i]@);
    }
    true
}

/// Splits a text into its white-space separated tokens.
pub fn tokens_of(text: &Vec<char>) -> (r: Vec<Vec<char>>)
    ensures
        r@.map_values(|t: Vec<char>| t@) == split_tokens(text@),
        forall|k: int| 0 <= k < r.len() ==> is_token(#[trigger] r@[k]@),
        text.len() > 0 && !is_space(text@[0]) ==> r.len() > 0,
{
    let mut r: Vec<Vec<char>> = Vec::new();
    let mut cur: Vec<char> = Vec::new();
    let mut k: usize = 0;
    while k < text.len()
        invariant
            k <= text.len(),
            forall|i: int| 0 <= i < r.len() ==> is_token(#[trigger] r@[i]@),
            forall|i: int| 0 <= i < cur.len() ==> !is_space(#[trigger] cur@[i]),
            k > 0 && !is_space(text@[0]) ==> r.len() > 0 || cur.len() > 0,
            r@.map_values(|t: Vec<char>| t@) == split_state(text@, k as nat).0,
            cur@ == split_state(text@, k as nat).1,
        decreases text.len() - k,
    {
        let c = text[k];
        let ghost before = r@.map_values(|t: Vec<char>| t@);
        if is_space_char(c) {
            if cur.len() > 0 {
                let ghost cv = cur@;
                r.push(cur);
                assert(r@.map_values(|t: Vec<char>| t@) =~= before.push(cv));
                cur = Vec::new();
            }
        } else {
            cur.push(c);
        }
        k += 1;
    }
    assert(split_state(text@, text@.len()) == split_state(text@, k as nat));
    if cur.len() > 0 {
        let ghost before = r@.map_values(|t: Vec<char>| t@);
        let ghost cv = cur@;
        r.push(cur);
        assert(r@.map_values(|t: Vec<char>| t@) =~= before.push(cv));
    }
    r
}

/// The characters `raw[lo..hi]` without leading and trailing white space.
fn trimmed(raw: &Vec<char>, lo: usize, hi: usize) -> (r: Vec<char>)
    requires
        lo <= hi <= raw.len(),
    ensures
        r@ == trim(raw@.subrange(lo as int, hi as int)),
        r.len() > 0 ==> !is_space(r@[0]) && !is_space(r@.last()),
        r.len() == 0 ==> forall|i: int| lo <= i < hi ==> is_space(#[trigger] raw@[i]),
{
    let mut a: usize = lo;
    while a < hi && is_space_char(raw[a])
        invariant
            lo <= a <= hi <= raw.len(),
            forall|i: int| lo <= i < a ==> is_space(#[trigger] raw@[i]),
            trim_start(raw@.subrange(lo as int, hi as int)) == trim_start(raw@.subrange(a as int, hi as int)),
        decreases hi - a,
    {
        assert(raw@.subrange(a as int, hi as int).drop_first() =~= raw@.subrange(a + 1, hi as int));
        a += 1;
    }
    let ghost left = raw@.subrange(a as int, hi as int);
    assert(trim_start(left) == left);
    let mut b: usize = hi;
    while b > a && is_space_char(raw[b - 1])
        invariant
            lo <= a <= b <= hi <= raw.len(),
            a < hi ==> !is_space(raw@[a as int]),
            a < hi ==> a < b,
            left == raw@.subrange(a as int, hi as int),
            trim_end(left) == trim_end(raw@.subrange(a as int, b as int)),
        decreases b,
    {
        assert(raw@.subrange(a as int, b as int).drop_last() =~= raw@.subrange(a as int, b - 1));
        b -= 1;
    }
    assert(trim_end(raw@.subrange(a as int, b as int)) == raw@.subrange(a as int, b as int));
    let mut r: Vec<char> = Vec::new();
    let mut k: usize = a;
    while k < b
        invariant
            a <= k <= b <= raw.len(),
            r@ == raw@.subrange(a as int, k as int),
        decreases b - k,
    {
        r.push(raw[k]);
        k += 1;
        assert(r@ =~= raw@.subrange(a as int, k as int));
    }
    r
}

/// The text of each line.
pub open spec fn texts_of(lines: Seq<InputLine>) -> Seq<Seq<char>> {
    lines.map_values(|l: InputLine| l.text@)
}

/// Each line's tokens are the tokens of its text.
pub open spec fn tokens_match(lines: Seq<InputLine>) -> bool {
    forall|i: int|
        0 <= i < lines.len() ==> (#[trigger] lines[i]).tokens@.map_values(|t: Vec<char>| t@)
            == split_tokens(lines[i].text@)
}

/// Breaks the text into lines and keeps each one that is neither blank nor a
/// comment (its first character, past any white space, is `#`).
pub fn kept_lines(chars: &Vec<char>) -> (r: Vec<InputLine>)
    ensures
        texts_of(r@) == kept_texts(chars@),
        tokens_match(r@),
        forall|k: int| 0 <= k < r.len() ==> is_kept_line(#[trigger] r@[k]),
{
    let mut r: Vec<InputLine> = Vec::new();
    let mut start: usize = 0;
    let mut k: usize = 0;
    loop
        invariant_except_break
            texts_of(r@) == lines_state(chars@, k as nat).0,
            chars@.subrange(start as int, k as int) == lines_state(chars@, k as nat).1,
        invariant
            start <= k <= chars.len(),
            forall|i: int| 0 <= i < r.len() ==> is_kept_line(#[trigger] r@[i]),
            tokens_match(r@),
        ensures
            texts_of(r@) == kept_texts(chars@),
            tokens_match(r@),
            forall|i: int| 0 <= i < r.len() ==> is_kept_line(#[trigger] r@[i]),
        decreases chars.len() - k,
    {
        let at_end = k == chars.len();
        if at_end || chars[k] == '\n' {
            let text = trimmed(chars, start, k);
            if text.len() > 0 && text[0] != '#' {
                let tokens = tokens_of(&text);
                let ghost before = r@;
                let line = InputLine { text, tokens };
                r.push(line);
                assert(r@ == before.push(line));
                assert(texts_of(r@) =~= texts_of(before).push(line.text@));
                assert forall|i: int| 0 <= i < r.len() implies (#[trigger] r@[i]).tokens@.map_values(
                    |t: Vec<char>| t@,
                ) == split_tokens(r@[i].text@) by {
                    if i < before.len() {
                        assert(r@[i] == before[i]);
                    }
                }
            }
            if at_end {
                break;
            }
            start = k + 1;
            k += 1;
            assert(chars@.subrange(start as int, k as int) =~= Seq::<char>::empty());
        } else {
            k += 1;
            assert(chars@.subrange(start as int, k as int) =~= chars@.subrange(start as int, k - 1).push(chars@[k - 1]));
        }
    }
    r
}

/// Reads `n` rows of `n` numbers from the lines at `start`; further lines are
/// ignored. Rows are counted from 1 in errors, and are checked in order.
pub fn parse_block(lines: &Vec<InputLine>, start: usize, n: usize) -> (r: Result<Vec<Vec<i64>>, TSPError>)
    requires
        start <= lines.len(),
        tokens_match(lines@),
    ensures
        block_outcome(texts_of(lines@), start as int, n as int, r),
{
    let ghost texts = texts_of(lines@);
    proof {
        lemma_block_fault_kind(texts, start as int, n as int, 0);
    }
    let mut m: Vec<Vec<i64>> = Vec::new();
    let mut i: usize = 0;
    while i < n && start + i < lines.len()
        invariant
            start <= lines.len(),
            tokens_match(lines@),
            texts == texts_of(lines@),
            i <= n,
            start + i <= lines.len(),
            m.len() == i,
            forall|j: int|
                0 <= j < i ==> all_numbers(split_tokens(#[trigger] texts[start + j]))
                    && split_tokens(texts[start + j]).len() == n,
            forall|j: int| 0 <= j < i ==> row_of(split_tokens(texts[start + j]), (#[trigger] m@[j])@),
            block_fault(texts, start as int, n as int, 0) == block_fault(texts, start as int, n as int, i as int),
        decreases n - i,
    {
        let line = &lines[start + i];
        assert(views(line.tokens@) == split_tokens(texts[start + i]));
        match parse_row(&line.tokens) {
            None => {
                return Err(TSPError::InvalidNumber { row: i + 1 });
            },
            Some(row) => {
                if row.len() != n {
                    return Err(
                        TSPError::DimensionMismatch { in_row: Some(i + 1), found: row.len(), expected: n },
                    );
                }
                m.push(row);
            },
        }
        i += 1;
    }
    if i < n {
        assert(!block_ok(texts, start as int, n as int));
        return Err(TSPError::DimensionMismatch { in_row: None, found: i, expected: n });
    }
    if start + n != lines.len() {
        assert(!block_ok(texts, start as int, n as int));
        return Err(TSPError::DimensionMismatch { in_row: None, found: lines.len() - start, expected: n });
    }
    Ok(m)
}

/// Reader of the two input layouts.
pub struct InputParser;

impl InputParser {
    pub fn new() -> (r: Self) {
        InputParser
    }

    /// The first line names more than one city and is not all numbers.
    pub fn is_matrix_format(&self, lines: &Vec<InputLine>) -> (r: bool)
        requires
            tokens_match(lines@),
        ensures
            r == matrix_layout(texts_of(lines@)),
    {
        if lines.len() == 0 {
            return false;
        }
        assert(views(lines@[0].tokens@) == split_tokens(texts_of(lines@)[0]));
        lines[0].tokens.len() > 1 && !is_numeric_line(&lines[0].tokens)
    }

    /// Names on the first line, then one row of numbers per city.
    pub fn parse_matrix_format(&self, lines: &Vec<InputLine>) -> (r: Result<(Vec<String>, Vec<Vec<i64>>), TSPError>)
        requires
            tokens_match(lines@),
        ensures
            matrix_outcome(texts_of(lines@), r),
    {
        let ghost texts = texts_of(lines@);
        if lines.len() < 2 {
            return Err(TSPError::MalformedLayout);
        }
        let first = &lines[0].tokens;
        assert(views(first@) == split_tokens(texts[0]));
        let mut cities: Vec<String> = Vec::new();
        let mut k: usize = 0;
        while k < first.len()
            invariant
                k <= first.len(),
                cities.len() == k,
                forall|i: int| 0 <= i < k ==> (#[trigger] cities@[i])@ == first@[i]@,
            decreases first.len() - k,
        {
            cities.push(string_of(&first[k]));
            k += 1;
        }
        assert forall|i: int| 0 <= i < cities.len() implies (#[trigger] cities@[i])@ == split_tokens(
            texts[0],
        )[i] by {
            assert(views(first@)[i] == first@[i]@);
        }
        let n = cities.len();
        match parse_block(lines, 1, n) {
            Ok(m) => Ok((cities, m)),
            Err(e) => Err(e),
        }
    }

    /// One city name per line, then the matrix from the first line that is
    /// all numbers, one row per city named before it.
    pub fn parse_list_format(&self, lines: &Vec<InputLine>) -> (r: Result<(Vec<String>, Vec<Vec<i64>>), TSPError>)
        requires
            tokens_match(lines@),
        ensures
            list_outcome(texts_of(lines@), r),
    {
        let ghost texts = texts_of(lines@);
        let mut s: usize = 0;
        while s < lines.len() && !is_numeric_line(&lines[s].tokens)
            invariant
                s <= lines.len(),
                tokens_match(lines@),
                texts == texts_of(lines@),
                forall|i: int| 0 <= i < s ==> !all_numbers(split_tokens(#[trigger] texts[i])),
            decreases lines.len() - s,
        {
            assert(views(lines@[s as int].tokens@) == split_tokens(texts[s as int]));
            s += 1;
        }
        if s < lines.len() {
            assert(views(lines@[s as int].tokens@) == split_tokens(texts[s as int]));
        }
        if s == lines.len() || s == 0 {
            assert forall|t: int| 0 < t && first_numeric_line(texts, t) implies false by {
                if t > s {
                    assert(!all_numbers(split_tokens(texts[s as int])));
                } else if t < s {
                    assert(!all_numbers(split_tokens(texts[t])));
                }
            }
            return Err(TSPError::MalformedLayout);
        }
        assert(first_numeric_line(texts, s as int));
        assert forall|t: int| 0 < t && first_numeric_line(texts, t) implies t == s by {
            if t > s {
                assert(!all_numbers(split_tokens(texts[s as int])));
            } else if t < s {
                assert(!all_numbers(split_tokens(texts[t])));
            }
        }
        let mut cities: Vec<String> = Vec::new();
        let mut k: usize = 0;
        while k < s
            invariant
                k <= s < lines.len(),
                texts == texts_of(lines@),
                cities.len() == k,
                forall|i: int| 0 <= i < k ==> (#[trigger] cities@[i])@ == texts[i],
            decreases s - k,
        {
            cities.push(string_of(&lines[k].text));
            k += 1;
        }
        match parse_block(lines, s, s) {
            Ok(m) => Ok((cities, m)),
            Err(e) => Err(e),
        }
    }

    /// Reads the cities and their distance matrix from the text of an input
    /// file. Blank lines and lines whose first non-blank character is `#`
    /// are dropped first.
    pub fn parse(&mut self, content: &str) -> (r: Result<(Vec<String>, Vec<Vec<i64>>), TSPError>)
        ensures
            parse_outcome(content@, r),
    {
        let chars = chars_of(content);
        let lines = kept_lines(&chars);
        assert(texts_of(lines@).len() == lines@.len());
        if lines.len() == 0 {
            return Err(TSPError::EmptyInput);
        }
        if self.is_matrix_format(&lines) {
            self.parse_matrix_format(&lines)
        } else {
            self.parse_list_format(&lines)
        }
    }
}

} // verus!
