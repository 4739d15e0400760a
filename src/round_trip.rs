use vstd::prelude::*;
use crate::error::TSPError;
use crate::output::{decimal, digit_char};
use crate::parser::{
    all_numbers, block_ok, digits_value, is_digit, is_space, is_token, kept_texts,
    lines_state, matrix_layout, matrix_part, number_value, parse_outcome, sign_len, split_state,
    split_tokens, trim, trim_end, trim_start,
};

verus! {

/// The parts joined into one sequence with `sep` between neighbours.
pub open spec fn join_with(parts: Seq<Seq<char>>, sep: char) -> Seq<char>
    decreases parts.len(),
{
    if parts.len() == 0 {
        Seq::empty()
    } else if parts.len() == 1 {
        parts[0]
    } else {
        join_with(parts.drop_last(), sep) + seq![sep] + parts.last()
    }
}

/// Decimal text of an integer, with a leading `-` when it is negative.
pub open spec fn number_text(v: int) -> Seq<char> {
    if v < 0 {
        seq!['-'] + decimal((-v) as nat)
    } else {
        decimal(v as nat)
    }
}

/// The entries of a row as tokens.
pub open spec fn row_tokens(row: Seq<i64>) -> Seq<Seq<char>> {
    row.map_values(|v: i64| number_text(v as int))
}

/// The lines of the matrix layout: the names, then one line per row.
pub open spec fn matrix_lines(names: Seq<Seq<char>>, m: Seq<Seq<i64>>) -> Seq<Seq<char>> {
    seq![join_with(names, ' ')] + m.map_values(|row: Seq<i64>| join_with(row_tokens(row), ' '))
}

/// Text of the matrix layout: names separated by spaces on the first line,
/// then each row's entries separated by spaces on a line of its own.
pub open spec fn matrix_text(names: Seq<Seq<char>>, m: Seq<Seq<i64>>) -> Seq<char> {
    join_with(matrix_lines(names, m), '\n')
}

proof fn lemma_digit_char(d: nat)
    requires
        d < 10,
    ensures
        is_digit(digit_char(d)),
        digit_char(d) as int - '0' as int == d,
{
}

proof fn lemma_decimal(n: nat)
    ensures
        decimal(n).len() > 0,
        forall|i: int| 0 <= i < decimal(n).len() ==> is_digit(#[trigger] decimal(n)[i]),
        digits_value(decimal(n)) == n,
    decreases n,
{
    if n < 10 {
        lemma_digit_char(n);
        assert(decimal(n).drop_last() =~= Seq::<char>::empty());
        assert(digits_value(Seq::<char>::empty()) == 0);
        assert(decimal(n).last() == digit_char(n));
        assert(digits_value(decimal(n)) == 0 * 10 + (digit_char(n) as int - '0' as int));
    } else {
        lemma_decimal(n / 10);
        lemma_digit_char(n % 10);
        assert(decimal(n).drop_last() =~= decimal(n / 10));
        assert(decimal(n).last() == digit_char(n % 10));
        vstd::arithmetic::div_mod::lemma_fundamental_div_mod(n as int, 10);
        assert(digits_value(decimal(n)) == digits_value(decimal(n / 10)) * 10 + (digit_char(n % 10) as int - '0' as int));
        assert(digits_value(decimal(n)) == (n / 10) * 10 + n % 10);
    }
}

proof fn lemma_number_text(v: i64)
    ensures
        number_value(number_text(v as int)) == Some(v as int),
        is_token(number_text(v as int)),
        number_text(v as int)[0] != '#',
{
    let t = number_text(v as int);
    if v < 0 {
        let k = (-v) as nat;
        lemma_decimal(k);
        assert(sign_len(t) == 1);
        assert(t.subrange(1, t.len() as int) =~= decimal(k));
        assert forall|i: int| 0 <= i < t.len() implies !is_space(#[trigger] t[i]) by {
            if i > 0 {
                assert(t[i] == decimal(k)[i - 1]);
            }
        }
    } else {
        let k = v as nat;
        lemma_decimal(k);
        assert(is_digit(t[0]));
        assert(sign_len(t) == 0);
        assert(t.subrange(0, t.len() as int) =~= t);
        assert forall|i: int| 0 <= i < t.len() implies !is_space(#[trigger] t[i]) by {
            assert(is_digit(t[i]));
        }
    }
}

/// Each character of a join is the separator or a character of a part.
proof fn lemma_join_chars(parts: Seq<Seq<char>>, sep: char)
    requires
        parts.len() > 0,
        forall|i: int| 0 <= i < parts.len() ==> is_token(#[trigger] parts[i]),
    ensures
        join_with(parts, sep).len() > 0,
        join_with(parts, sep)[0] == parts[0][0],
        join_with(parts, sep).last() == parts.last().last(),
        forall|i: int|
            0 <= i < join_with(parts, sep).len() ==> #[trigger] join_with(parts, sep)[i] == sep
                || !is_space(join_with(parts, sep)[i]),
    decreases parts.len(),
{
    let j = join_with(parts, sep);
    if parts.len() == 1 {
        assert(is_token(parts[0]));
    } else {
        let init = parts.drop_last();
        let a = join_with(init, sep);
        let t = parts.last();
        assert(forall|i: int| 0 <= i < init.len() ==> #[trigger] init[i] == parts[i]);
        lemma_join_chars(init, sep);
        assert(is_token(parts[parts.len() - 1]));
        assert(j == a + seq![sep] + t);
        assert forall|i: int| 0 <= i < j.len() implies #[trigger] j[i] == sep || !is_space(j[i]) by {
            if i < a.len() {
                assert(j[i] == a[i]);
            } else if i > a.len() {
                assert(j[i] == t[i - a.len() - 1]);
            }
        }
    }
}

proof fn lemma_trim_kept(l: Seq<char>)
    requires
        l.len() > 0,
        !is_space(l[0]),
        !is_space(l.last()),
    ensures
        trim(l) == l,
{
    assert(trim_start(l) == l);
    assert(trim_end(l) == l);
}

proof fn lemma_split_prefix(s: Seq<char>, k: nat)
    requires
        k <= s.len(),
    ensures
        split_state(s, k) == split_state(s.subrange(0, k as int), k),
    decreases k,
{
    if k > 0 {
        let p = s.subrange(0, k as int);
        lemma_split_prefix(s, (k - 1) as nat);
        lemma_split_prefix(p, (k - 1) as nat);
        assert(p.subrange(0, k - 1) =~= s.subrange(0, k - 1));
        assert(p[k - 1] == s[k - 1]);
    }
}

proof fn lemma_split_run(s: Seq<char>, p: nat, t: Seq<char>, done: Seq<Seq<char>>, j: nat)
    requires
        split_state(s, p) == (done, Seq::<char>::empty()),
        p + t.len() <= s.len(),
        s.subrange(p as int, (p + t.len()) as int) == t,
        forall|i: int| 0 <= i < t.len() ==> !is_space(#[trigger] t[i]),
        j <= t.len(),
    ensures
        split_state(s, p + j) == (done, t.take(j as int)),
    decreases j,
{
    if j > 0 {
        lemma_split_run(s, p, t, done, (j - 1) as nat);
        assert(s[p + j - 1] == t[j - 1]);
        assert(t.take(j as int) =~= t.take(j - 1).push(t[j - 1]));
    } else {
        assert(t.take(0) =~= Seq::<char>::empty());
    }
}

proof fn lemma_split_join(ts: Seq<Seq<char>>)
    requires
        ts.len() > 0,
        forall|i: int| 0 <= i < ts.len() ==> is_token(#[trigger] ts[i]),
    ensures
        split_state(join_with(ts, ' '), join_with(ts, ' ').len()) == (ts.drop_last(), ts.last()),
        split_tokens(join_with(ts, ' ')) == ts,
    decreases ts.len(),
{
    let s = join_with(ts, ' ');
    let t = ts.last();
    assert(is_token(ts[ts.len() - 1]));
    if ts.len() == 1 {
        assert(s.subrange(0, t.len() as int) =~= t);
        lemma_split_run(s, 0, t, Seq::empty(), t.len());
        assert(t.take(t.len() as int) =~= t);
        assert(ts.drop_last() =~= Seq::<Seq<char>>::empty());
    } else {
        let init = ts.drop_last();
        let a = join_with(init, ' ');
        assert(forall|i: int| 0 <= i < init.len() ==> #[trigger] init[i] == ts[i]);
        lemma_split_join(init);
        assert(is_token(init[init.len() - 1]));
        assert(s == a + seq![' '] + t);
        lemma_split_prefix(s, a.len());
        assert(s.subrange(0, a.len() as int) =~= a);
        assert(s[a.len() as int] == ' ');
        assert(init.drop_last().push(init.last()) =~= init);
        assert(split_state(s, a.len() + 1) == (init, Seq::<char>::empty()));
        assert(s.subrange((a.len() + 1) as int, (a.len() + 1 + t.len()) as int) =~= t);
        lemma_split_run(s, a.len() + 1, t, init, t.len());
        assert(t.take(t.len() as int) =~= t);
    }
    assert(ts.drop_last().push(ts.last()) =~= ts);
}

/// A line that the parser keeps as it stands.
spec fn plain_line(l: Seq<char>) -> bool {
    &&& l.len() > 0
    &&& !is_space(l[0])
    &&& !is_space(l.last())
    &&& l[0] != '#'
    &&& forall|k: int| 0 <= k < l.len() ==> #[trigger] l[k] != '\n'
}

proof fn lemma_lines_prefix(s: Seq<char>, k: nat)
    requires
        k <= s.len(),
    ensures
        lines_state(s, k) == lines_state(s.subrange(0, k as int), k),
    decreases k,
{
    if k > 0 {
        let p = s.subrange(0, k as int);
        lemma_lines_prefix(s, (k - 1) as nat);
        lemma_lines_prefix(p, (k - 1) as nat);
        assert(p.subrange(0, k - 1) =~= s.subrange(0, k - 1));
        assert(p[k - 1] == s[k - 1]);
    }
}

proof fn lemma_lines_run(s: Seq<char>, p: nat, t: Seq<char>, done: Seq<Seq<char>>, j: nat)
    requires
        lines_state(s, p) == (done, Seq::<char>::empty()),
        p + t.len() <= s.len(),
        s.subrange(p as int, (p + t.len()) as int) == t,
        forall|i: int| 0 <= i < t.len() ==> #[trigger] t[i] != '\n',
        j <= t.len(),
    ensures
        lines_state(s, p + j) == (done, t.take(j as int)),
    decreases j,
{
    if j > 0 {
        lemma_lines_run(s, p, t, done, (j - 1) as nat);
        assert(s[p + j - 1] == t[j - 1]);
        assert(t.take(j as int) =~= t.take(j - 1).push(t[j - 1]));
    } else {
        assert(t.take(0) =~= Seq::<char>::empty());
    }
}

proof fn lemma_lines_join(ls: Seq<Seq<char>>)
    requires
        ls.len() > 0,
        forall|i: int| 0 <= i < ls.len() ==> plain_line(#[trigger] ls[i]),
    ensures
        lines_state(join_with(ls, '\n'), join_with(ls, '\n').len()) == (ls.drop_last(), ls.last()),
        kept_texts(join_with(ls, '\n')) == ls,
    decreases ls.len(),
{
    let s = join_with(ls, '\n');
    let t = ls.last();
    assert(plain_line(ls[ls.len() - 1]));
    if ls.len() == 1 {
        assert(s.subrange(0, t.len() as int) =~= t);
        lemma_lines_run(s, 0, t, Seq::empty(), t.len());
        assert(t.take(t.len() as int) =~= t);
        assert(ls.drop_last() =~= Seq::<Seq<char>>::empty());
    } else {
        let init = ls.drop_last();
        let a = join_with(init, '\n');
        assert(forall|i: int| 0 <= i < init.len() ==> #[trigger] init[i] == ls[i]);
        lemma_lines_join(init);
        assert(plain_line(init[init.len() - 1]));
        lemma_trim_kept(init.last());
        assert(s == a + seq!['\n'] + t);
        lemma_lines_prefix(s, a.len());
        assert(s.subrange(0, a.len() as int) =~= a);
        assert(s[a.len() as int] == '\n');
        assert(init.drop_last().push(init.last()) =~= init);
        assert(lines_state(s, a.len() + 1) == (init, Seq::<char>::empty()));
        assert(s.subrange((a.len() + 1) as int, (a.len() + 1 + t.len()) as int) =~= t);
        lemma_lines_run(s, a.len() + 1, t, init, t.len());
        assert(t.take(t.len() as int) =~= t);
    }
    lemma_trim_kept(t);
    assert(ls.drop_last().push(ls.last()) =~= ls);
}

/// A line of tokens joined by spaces is kept as it stands and splits back
/// into the same tokens.
proof fn lemma_token_line(ts: Seq<Seq<char>>)
    requires
        ts.len() > 0,
        forall|i: int| 0 <= i < ts.len() ==> is_token(#[trigger] ts[i]),
        ts[0][0] != '#',
    ensures
        plain_line(join_with(ts, ' ')),
        split_tokens(join_with(ts, ' ')) == ts,
{
    let l = join_with(ts, ' ');
    lemma_join_chars(ts, ' ');
    assert(is_token(ts[0]));
    assert(is_token(ts[ts.len() - 1]));
    assert forall|k: int| 0 <= k < l.len() implies #[trigger] l[k] != '\n' by {
        assert(l[k] == ' ' || !is_space(l[k]));
    }
    lemma_split_join(ts);
}

/// Round trip of the matrix layout: reading the text that writes the names on
/// one line and each row of the matrix on a line of its own gives back those
/// names and that matrix. The names are tokens, there are at least two, the
/// first does not start a comment and one of them is not a number, so that
/// the text is read in the matrix layout.
pub proof fn lemma_round_trip(
    names: Seq<Seq<char>>,
    m: Seq<Seq<i64>>,
    r: Result<(Vec<String>, Vec<Vec<i64>>), TSPError>,
)
    requires
        names.len() >= 2,
        forall|i: int| 0 <= i < names.len() ==> is_token(#[trigger] names[i]),
        names[0][0] != '#',
        exists|i: int| 0 <= i < names.len() && (#[trigger] number_value(names[i])) is None,
        m.len() == names.len(),
        forall|i: int| 0 <= i < m.len() ==> (#[trigger] m[i]).len() == names.len(),
        parse_outcome(matrix_text(names, m), r),
    ensures
        r matches Ok(p) && p.0@.map_values(|c: String| c@) == names && p.1@.map_values(
            |row: Vec<i64>| row@,
        ) == m,
{
    let n = names.len();
    let ls = matrix_lines(names, m);
    lemma_token_line(names);
    assert forall|i: int| 0 <= i < m.len() implies {
        &&& plain_line(#[trigger] ls[i + 1])
        &&& split_tokens(ls[i + 1]) == row_tokens(m[i])
        &&& all_numbers(row_tokens(m[i]))
    } by {
        let ts = row_tokens(m[i]);
        assert(ls[i + 1] == join_with(ts, ' '));
        assert forall|k: int| 0 <= k < ts.len() implies is_token(#[trigger] ts[k]) && number_value(
            ts[k],
        ) == Some(m[i][k] as int) by {
            lemma_number_text(m[i][k]);
        }
        lemma_number_text(m[i][0]);
        lemma_token_line(ts);
    }
    assert forall|i: int| 0 <= i < ls.len() implies plain_line(#[trigger] ls[i]) by {
        if i > 0 {
            assert(plain_line(ls[(i - 1) + 1]));
        }
    }
    lemma_lines_join(ls);
    assert(kept_texts(matrix_text(names, m)) == ls);
    assert(split_tokens(ls[0]) == names);
    assert(!all_numbers(names));
    assert(matrix_layout(ls));
    assert(block_ok(ls, 1, n as int)) by {
        assert forall|i: int| 0 <= i < n implies all_numbers(split_tokens(#[trigger] ls[1 + i]))
            && split_tokens(ls[1 + i]).len() == n by {
            assert(split_tokens(ls[i + 1]) == row_tokens(m[i]));
        }
    }
    assert(matrix_part(r) is Ok);
    let p = r->Ok_0;
    assert(p.0@.map_values(|c: String| c@) =~= names);
    assert(p.1@.len() == n);
    assert forall|i: int| 0 <= i < n implies #[trigger] p.1@[i]@ == m[i] by {
        assert(split_tokens(ls[i + 1]) == row_tokens(m[i]));
        assert(ls[1 + i] == ls[i + 1]);
        assert forall|k: int| 0 <= k < n implies p.1@[i]@[k] == m[i][k] by {
            lemma_number_text(m[i][k]);
            assert(row_tokens(m[i])[k] == number_text(m[i][k] as int));
        }
        assert(p.1@[i]@ =~= m[i]);
    }
    assert(p.1@.map_values(|row: Vec<i64>| row@) =~= m);
}

} // verus!
