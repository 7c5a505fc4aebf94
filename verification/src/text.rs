//! The input grammar: lines, whitespace-separated fields, `#` comments.
//!
//! A text is split into lines at each `'\n'` (line numbers count from 1).
//! A line's fields are its maximal runs of non-whitespace characters, where
//! whitespace is the Unicode `White_Space` set (what `char::is_whitespace`
//! tests). A line with no field, or whose first field starts with `#`, is
//! skipped. For a residual file each kept line is one token: the line with
//! its leading and trailing whitespace removed.

use vstd::prelude::*;

verus! {

broadcast use vstd::string::axiom_spec_iter;

/// The Unicode `White_Space` property.
pub open spec fn spec_is_white_space(c: char) -> bool {
    let u = c as u32;
    ||| 0x09 <= u <= 0x0D
    ||| u == 0x20
    ||| u == 0x85
    ||| u == 0xA0
    ||| u == 0x1680
    ||| 0x2000 <= u <= 0x200A
    ||| u == 0x2028
    ||| u == 0x2029
    ||| u == 0x202F
    ||| u == 0x205F
    ||| u == 0x3000
}

/// Number of characters before the first `'\n'` of `s` (all of `s` if none).
pub open spec fn line_end(s: Seq<char>) -> nat
    decreases s.len(),
{
    if s.len() == 0 || s[0] == '\n' {
        0
    } else {
        1 + line_end(s.drop_first())
    }
}

/// Number of characters before the first whitespace of `s` (all of `s` if none).
pub open spec fn token_end(s: Seq<char>) -> nat
    decreases s.len(),
{
    if s.len() == 0 || spec_is_white_space(s[0]) {
        0
    } else {
        1 + token_end(s.drop_first())
    }
}

/// The lines of `s`: the pieces between its `'\n'` characters.
pub open spec fn lines_of(s: Seq<char>) -> Seq<Seq<char>>
    decreases s.len(),
{
    let k = line_end(s);
    if k >= s.len() {
        seq![s]
    } else {
        proof {
            lemma_line_end_le(s);
        }
        seq![s.take(k as int)] + lines_of(s.skip(k + 1 as int))
    }
}

/// The fields of `s`: its maximal runs of non-whitespace characters, in order.
pub open spec fn fields_of(s: Seq<char>) -> Seq<Seq<char>>
    decreases s.len(),
{
    if s.len() == 0 {
        seq![]
    } else if spec_is_white_space(s[0]) {
        fields_of(s.drop_first())
    } else {
        proof {
            lemma_token_end_le(s);
        }
        let k = token_end(s);
        seq![s.take(k as int)] + fields_of(s.skip(k as int))
    }
}

/// `s` without its leading whitespace.
pub open spec fn trim_start(s: Seq<char>) -> Seq<char>
    decreases s.len(),
{
    if s.len() > 0 && spec_is_white_space(s[0]) {
        trim_start(s.drop_first())
    } else {
        s
    }
}

/// `s` without its trailing whitespace.
pub open spec fn trim_end(s: Seq<char>) -> Seq<char>
    decreases s.len(),
{
    if s.len() > 0 && spec_is_white_space(s.last()) {
        trim_end(s.drop_last())
    } else {
        s
    }
}

/// `s` without leading and trailing whitespace.
pub open spec fn trim(s: Seq<char>) -> Seq<char> {
    trim_end(trim_start(s))
}

/// A line of a matrix file is kept when it has a field and its first field
/// does not start with `#`.
pub open spec fn is_data_line(fields: Seq<Seq<char>>) -> bool {
    fields.len() > 0 && fields[0][0] != '#'
}

/// A line of a residual file is kept when, trimmed, it is not empty and does
/// not start with `#`.
pub open spec fn is_resid_line(token: Seq<char>) -> bool {
    token.len() > 0 && token[0] != '#'
}

/// The kept rows of a matrix file whose lines are `lines`, the first of them
/// numbered `first`: each as its line number and its fields.
pub open spec fn matrix_rows(lines: Seq<Seq<char>>, first: int) -> Seq<(int, Seq<Seq<char>>)>
    decreases lines.len(),
{
    if lines.len() == 0 {
        seq![]
    } else {
        let f = fields_of(lines[0]);
        let rest = matrix_rows(lines.drop_first(), first + 1);
        if is_data_line(f) {
            seq![(first, f)] + rest
        } else {
            rest
        }
    }
}

/// The kept lines of a residual file whose lines are `lines`, the first of
/// them numbered `first`: each as its line number and its trimmed text.
pub open spec fn resid_rows(lines: Seq<Seq<char>>, first: int) -> Seq<(int, Seq<char>)>
    decreases lines.len(),
{
    if lines.len() == 0 {
        seq![]
    } else {
        let t = trim(lines[0]);
        let rest = resid_rows(lines.drop_first(), first + 1);
        if is_resid_line(t) {
            seq![(first, t)] + rest
        } else {
            rest
        }
    }
}

/// One kept line of a matrix file.
#[derive(Debug)]
pub struct MatrixRow {
    /// Line number in the file, counting from 1.
    pub line: usize,
    /// The line's fields, in order.
    pub fields: Vec<Vec<char>>,
}

/// One kept line of a residual file.
#[derive(Debug)]
pub struct ResidLine {
    /// Line number in the file, counting from 1.
    pub line: usize,
    /// The line with leading and trailing whitespace removed.
    pub token: Vec<char>,
}

/// The character sequences of a list of fields.
pub open spec fn fields_view(f: Seq<Vec<char>>) -> Seq<Seq<char>> {
    Seq::new(f.len(), |k: int| f[k]@)
}

/// Line numbers and fields of tokenized matrix rows.
pub open spec fn matrix_rows_view(rows: Seq<MatrixRow>) -> Seq<(int, Seq<Seq<char>>)> {
    Seq::new(rows.len(), |r: int| (rows[r].line as int, fields_view(rows[r].fields@)))
}

/// Line numbers and tokens of tokenized residual lines.
pub open spec fn resid_rows_view(rows: Seq<ResidLine>) -> Seq<(int, Seq<char>)> {
    Seq::new(rows.len(), |r: int| (rows[r].line as int, rows[r].token@))
}

/// The characters a number is written with (ASCII digits and letters, `.`,
/// `+`, `-`), and `#`.
pub open spec fn is_number_char(c: char) -> bool {
    ||| ('0' <= c && c <= '9')
    ||| ('a' <= c && c <= 'z')
    ||| ('A' <= c && c <= 'Z')
    ||| c == '.'
    ||| c == '+'
    ||| c == '-'
    ||| c == '#'
}

/// Whitespace is exactly the Unicode `White_Space` set, the characters
/// `char::is_whitespace` accepts: tab, line feed, vertical tab, form feed,
/// carriage return, space, next line, no-break space, ogham space mark, the
/// spaces U+2000 to U+200A, line and paragraph separators, narrow no-break
/// space, medium mathematical space and ideographic space. In particular no
/// character a number is written with is whitespace.
pub proof fn lemma_white_space_set(c: char)
    ensures
        spec_is_white_space(c) <==> (c == '\t' || c == '\n' || c == '\u{0B}' || c == '\u{0C}' || c
            == '\r' || c == ' ' || c == '\u{85}' || c == '\u{A0}' || c == '\u{1680}' || ('\u{2000}'
            <= c && c <= '\u{200A}') || c == '\u{2028}' || c == '\u{2029}' || c == '\u{202F}' || c
            == '\u{205F}' || c == '\u{3000}'),
        is_number_char(c) ==> !spec_is_white_space(c),
{
}

/// A non-empty run of number characters is one field: `"2.5e-3"` is never
/// split.
pub proof fn lemma_number_is_one_field(a: Seq<char>)
    requires
        a.len() > 0,
        forall|i: int| 0 <= i < a.len() ==> #[trigger] is_number_char(a[i]),
    ensures
        fields_of(a) == seq![a],
{
    assert forall|i: int| 0 <= i < a.len() implies !spec_is_white_space(a[i]) by {
        lemma_white_space_set(a[i]);
    }
    lemma_token_end_at(a, 0, a.len() as int, a.len() as int);
    assert(a.subrange(0, a.len() as int) =~= a);
    lemma_white_space_set(a[0]);
    assert(a.take(a.len() as int) =~= a);
    assert(a.skip(a.len() as int) =~= Seq::<char>::empty());
    assert(fields_of(Seq::<char>::empty()) =~= Seq::<Seq<char>>::empty());
    assert(seq![a] + Seq::<Seq<char>>::empty() =~= seq![a]);
}

/// Two runs of number characters separated by a space or a tab are exactly
/// two fields, the two runs: the fields of `"1 2.5e-3"` are `"1"` and
/// `"2.5e-3"`.
pub proof fn lemma_two_numbers_are_two_fields(a: Seq<char>, sep: char, b: Seq<char>)
    requires
        a.len() > 0,
        b.len() > 0,
        forall|i: int| 0 <= i < a.len() ==> #[trigger] is_number_char(a[i]),
        forall|i: int| 0 <= i < b.len() ==> #[trigger] is_number_char(b[i]),
        sep == ' ' || sep == '\t',
    ensures
        fields_of(a + seq![sep] + b) == seq![a, b],
{
    let s = a + seq![sep] + b;
    lemma_white_space_set(sep);
    assert forall|k: int| 0 <= k < a.len() implies !spec_is_white_space(s[k]) by {
        lemma_white_space_set(a[k]);
        assert(s[k] == a[k]);
    }
    assert(s[a.len() as int] == sep);
    lemma_token_end_at(s, 0, a.len() as int, s.len() as int);
    assert(s.subrange(0, s.len() as int) =~= s);
    lemma_white_space_set(a[0]);
    assert(!spec_is_white_space(s[0]));
    assert(s.take(a.len() as int) =~= a);
    let rest = s.skip(a.len() as int);
    assert(rest =~= seq![sep] + b);
    assert(rest.drop_first() =~= b);
    assert(fields_of(rest) == fields_of(b));
    lemma_number_is_one_field(b);
    assert(seq![a] + seq![b] =~= seq![a, b]);
}

/// A line ends at or before the end of the text, on a newline if before it.
pub proof fn lemma_line_end_le(s: Seq<char>)
    ensures
        line_end(s) <= s.len(),
        line_end(s) < s.len() ==> s[line_end(s) as int] == '\n',
    decreases s.len(),
{
    if s.len() > 0 && s[0] != '\n' {
        lemma_line_end_le(s.drop_first());
    }
}

/// A field ends at or before the end of the text, and is not empty when
/// the text starts with a non-whitespace character.
pub proof fn lemma_token_end_le(s: Seq<char>)
    ensures
        token_end(s) <= s.len(),
        s.len() > 0 && !spec_is_white_space(s[0]) ==> token_end(s) >= 1,
    decreases s.len(),
{
    if s.len() > 0 && !spec_is_white_space(s[0]) {
        lemma_token_end_le(s.drop_first());
    }
}

/// The line that starts at `p` runs to the first `'\n'` at or after `p`.
proof fn lemma_line_end_at(s: Seq<char>, p: int, e: int, hi: int)
    requires
        0 <= p <= e <= hi <= s.len(),
        forall|k: int| p <= k < e ==> s[k] != '\n',
        e == hi || s[e] == '\n',
    ensures
        line_end(s.subrange(p, hi)) == e - p,
    decreases e - p,
{
    if p < e {
        assert(s.subrange(p, hi).drop_first() =~= s.subrange(p + 1, hi));
        lemma_line_end_at(s, p + 1, e, hi);
    }
}

/// The field that starts at `i` runs to the first whitespace at or after `i`.
proof fn lemma_token_end_at(s: Seq<char>, i: int, j: int, hi: int)
    requires
        0 <= i <= j <= hi <= s.len(),
        forall|k: int| i <= k < j ==> !spec_is_white_space(s[k]),
        j == hi || spec_is_white_space(s[j]),
    ensures
        token_end(s.subrange(i, hi)) == j - i,
    decreases j - i,
{
    if i < j {
        assert(s.subrange(i, hi).drop_first() =~= s.subrange(i + 1, hi));
        lemma_token_end_at(s, i + 1, j, hi);
    }
}

/// Splitting the text from `p` on: the line `p..e`, then the lines after `e`.
proof fn lemma_lines_step(s: Seq<char>, p: int, e: int)
    requires
        0 <= p <= e <= s.len(),
        forall|k: int| p <= k < e ==> s[k] != '\n',
        e == s.len() || s[e] == '\n',
    ensures
        e == s.len() ==> lines_of(s.subrange(p, s.len() as int)) == seq![s.subrange(p, e)],
        e < s.len() ==> lines_of(s.subrange(p, s.len() as int)) == seq![s.subrange(p, e)]
            + lines_of(s.subrange(e + 1, s.len() as int)),
{
    let t = s.subrange(p, s.len() as int);
    lemma_line_end_at(s, p, e, s.len() as int);
    if e == s.len() {
        assert(t =~= s.subrange(p, e));
    } else {
        assert(t.take(e - p) =~= s.subrange(p, e));
        assert(t.skip(e - p + 1) =~= s.subrange(e + 1, s.len() as int));
    }
}

/// Kept rows of a list of lines: the first line's, then the rest's.
proof fn lemma_matrix_rows_cons(x: Seq<char>, rest: Seq<Seq<char>>, first: int)
    ensures
        matrix_rows(seq![x] + rest, first) == (if is_data_line(fields_of(x)) {
            seq![(first, fields_of(x))]
        } else {
            Seq::<(int, Seq<Seq<char>>)>::empty()
        }) + matrix_rows(rest, first + 1),
{
    let l = seq![x] + rest;
    assert(l[0] == x);
    assert(l.drop_first() =~= rest);
    if !is_data_line(fields_of(x)) {
        assert(Seq::<(int, Seq<Seq<char>>)>::empty() + matrix_rows(rest, first + 1) =~= matrix_rows(
            rest,
            first + 1,
        ));
    }
}

/// Kept residual lines of a list of lines: the first line's, then the rest's.
proof fn lemma_resid_rows_cons(x: Seq<char>, rest: Seq<Seq<char>>, first: int)
    ensures
        resid_rows(seq![x] + rest, first) == (if is_resid_line(trim(x)) {
            seq![(first, trim(x))]
        } else {
            Seq::<(int, Seq<char>)>::empty()
        }) + resid_rows(rest, first + 1),
{
    let l = seq![x] + rest;
    assert(l[0] == x);
    assert(l.drop_first() =~= rest);
    if !is_resid_line(trim(x)) {
        assert(Seq::<(int, Seq<char>)>::empty() + resid_rows(rest, first + 1) =~= resid_rows(
            rest,
            first + 1,
        ));
    }
}

/// Leading whitespace of `p..e` runs up to `st`.
proof fn lemma_trim_start_at(s: Seq<char>, p: int, st: int, e: int)
    requires
        0 <= p <= st <= e <= s.len(),
        forall|k: int| p <= k < st ==> spec_is_white_space(s[k]),
        st == e || !spec_is_white_space(s[st]),
    ensures
        trim_start(s.subrange(p, e)) == s.subrange(st, e),
    decreases st - p,
{
    if p < st {
        assert(s.subrange(p, e).drop_first() =~= s.subrange(p + 1, e));
        lemma_trim_start_at(s, p + 1, st, e);
    }
}

/// Trailing whitespace of `st..e` starts at `en`.
proof fn lemma_trim_end_at(s: Seq<char>, st: int, en: int, e: int)
    requires
        0 <= st <= en <= e <= s.len(),
        forall|k: int| en <= k < e ==> spec_is_white_space(s[k]),
        en == st || !spec_is_white_space(s[en - 1]),
    ensures
        trim_end(s.subrange(st, e)) == s.subrange(st, en),
    decreases e - en,
{
    if en < e {
        assert(s.subrange(st, e).drop_last() =~= s.subrange(st, e - 1));
        lemma_trim_end_at(s, st, en, e - 1);
    }
}

/// A copy of `s[lo..hi]`.
fn copy_range(s: &Vec<char>, lo: usize, hi: usize) -> (res: Vec<char>)
    requires
        lo <= hi <= s@.len(),
    ensures
        res@ == s@.subrange(lo as int, hi as int),
{
    let mut out: Vec<char> = Vec::new();
    let mut k = lo;
    while k < hi
        invariant
            lo <= k <= hi <= s@.len(),
            out@ == s@.subrange(lo as int, k as int),
        decreases hi - k,
    {
        out.push(s[k]);
        k = k + 1;
    }
    out
}

/// End of the line that starts at `p`: the next `'\n'` at or after `p`, or
/// the end of the text.
fn find_line_end(s: &Vec<char>, p: usize) -> (e: usize)
    requires
        p <= s@.len(),
    ensures
        p <= e <= s@.len(),
        forall|k: int| p <= k < e ==> s@[k] != '\n',
        e == s@.len() || s@[e as int] == '\n',
{
    let mut e = p;
    while e < s.len() && s[e] != '\n'
        invariant
            p <= e <= s@.len(),
            forall|k: int| p <= k < e ==> s@[k] != '\n',
        decreases s@.len() - e,
    {
        e = e + 1;
    }
    e
}

/// The fields of the line `s[p..e]`.
fn split_fields(s: &Vec<char>, p: usize, e: usize) -> (out: Vec<Vec<char>>)
    requires
        p <= e <= s@.len(),
    ensures
        fields_view(out@) == fields_of(s@.subrange(p as int, e as int)),
        forall|k: int| 0 <= k < out@.len() ==> (#[trigger] out@[k])@.len() > 0,
{
    let mut out: Vec<Vec<char>> = Vec::new();
    let mut i = p;
    while i < e
        invariant
            p <= i <= e <= s@.len(),
            fields_view(out@) + fields_of(s@.subrange(i as int, e as int)) == fields_of(
                s@.subrange(p as int, e as int),
            ),
            forall|k: int| 0 <= k < out@.len() ==> (#[trigger] out@[k])@.len() > 0,
        decreases e - i,
    {
        if is_white_space(s[i]) {
            assert(s@.subrange(i as int, e as int).drop_first() =~= s@.subrange(
                i + 1,
                e as int,
            ));
            i = i + 1;
        } else {
            let mut tok: Vec<char> = Vec::new();
            let mut j = i;
            while j < e && !is_white_space(s[j])
                invariant
                    i <= j <= e <= s@.len(),
                    tok@ == s@.subrange(i as int, j as int),
                    forall|k: int| i <= k < j ==> !spec_is_white_space(s@[k]),
                decreases e - j,
            {
                tok.push(s[j]);
                j = j + 1;
            }
            proof {
                let t = s@.subrange(i as int, e as int);
                lemma_token_end_at(s@, i as int, j as int, e as int);
                assert(t.take(j - i) =~= s@.subrange(i as int, j as int));
                assert(t.skip(j - i) =~= s@.subrange(j as int, e as int));
                assert(fields_of(t) == seq![s@.subrange(i as int, j as int)] + fields_of(
                    s@.subrange(j as int, e as int),
                ));
            }
            let ghost old_out = out@;
            out.push(tok);
            assert(fields_view(out@) =~= fields_view(old_out).push(tok@));
            assert(fields_view(out@) + fields_of(s@.subrange(j as int, e as int)) =~= fields_view(
                old_out,
            ) + (seq![s@.subrange(i as int, j as int)] + fields_of(
                s@.subrange(j as int, e as int),
            )));
            i = j;
        }
    }
    assert(fields_of(s@.subrange(e as int, e as int)) =~= Seq::<Seq<char>>::empty());
    assert(fields_view(out@) + Seq::<Seq<char>>::empty() =~= fields_view(out@));
    out
}

/// The trimmed text of the line `s[p..e]`.
fn trim_range(s: &Vec<char>, p: usize, e: usize) -> (res: Vec<char>)
    requires
        p <= e <= s@.len(),
    ensures
        res@ == trim(s@.subrange(p as int, e as int)),
{
    let mut st = p;
    while st < e && is_white_space(s[st])
        invariant
            p <= st <= e <= s@.len(),
            forall|k: int| p <= k < st ==> spec_is_white_space(s@[k]),
        decreases e - st,
    {
        st = st + 1;
    }
    let mut en = e;
    while en > st && is_white_space(s[en - 1])
        invariant
            st <= en <= e <= s@.len(),
            forall|k: int| en <= k < e ==> spec_is_white_space(s@[k]),
        decreases en - st,
    {
        en = en - 1;
    }
    proof {
        lemma_trim_start_at(s@, p as int, st as int, e as int);
        lemma_trim_end_at(s@, st as int, en as int, e as int);
    }
    copy_range(s, st, en)
}

/// Split a matrix file into its kept rows: one per line that has a field and
/// whose first field does not start with `#`, each with its line number and
/// its whitespace-separated fields.
pub fn tokenize_matrix(text: &str) -> (rows: Vec<MatrixRow>)
    requires
        text@.len() < usize::MAX,
    ensures
        matrix_rows_view(rows@) == matrix_rows(lines_of(text@), 1),
        forall|r: int, k: int|
            0 <= r < rows@.len() && 0 <= k < rows@[r].fields@.len() ==> (
            #[trigger] rows@[r].fields@[k])@.len() > 0,
{
    let s = chars_of(text);
    let n = s.len();
    let mut rows: Vec<MatrixRow> = Vec::new();
    let mut p: usize = 0;
    let mut ln: usize = 1;
    assert(s@.subrange(0, n as int) =~= s@);
    loop
        invariant_except_break
            p <= n,
            1 <= ln <= p + 1,
            matrix_rows_view(rows@) + matrix_rows(lines_of(s@.subrange(p as int, n as int)), ln as int)
                == matrix_rows(lines_of(s@), 1),
        invariant
            n == s@.len(),
            s@ == text@,
            n < usize::MAX,
            forall|r: int, k: int|
                0 <= r < rows@.len() && 0 <= k < rows@[r].fields@.len() ==> (
                #[trigger] rows@[r].fields@[k])@.len() > 0,
        ensures
            matrix_rows_view(rows@) == matrix_rows(lines_of(s@), 1),
        decreases n - p,
    {
        let e = find_line_end(&s, p);
        let fields = split_fields(&s, p, e);
        let ghost line = s@.subrange(p as int, e as int);
        let ghost before = rows@;
        proof {
            lemma_lines_step(s@, p as int, e as int);
            if e == n {
                lemma_matrix_rows_cons(line, Seq::empty(), ln as int);
                assert(seq![line] + Seq::<Seq<char>>::empty() =~= seq![line]);
            } else {
                lemma_matrix_rows_cons(line, lines_of(s@.subrange(e + 1, n as int)), ln as int);
            }
        }
        let kept = fields.len() > 0 && fields[0][0] != '#';
        assert(kept == is_data_line(fields_of(line))) by {
            if fields@.len() > 0 {
                assert(fields_view(fields@)[0] == fields@[0]@);
            }
        }
        if kept {
            rows.push(MatrixRow { line: ln, fields });
            assert(matrix_rows_view(rows@) =~= matrix_rows_view(before) + seq![
                (ln as int, fields_of(line)),
            ]);
        } else {
            assert(matrix_rows_view(rows@) =~= matrix_rows_view(before) + Seq::<
                (int, Seq<Seq<char>>),
            >::empty());
        }
        if e == n {
            assert(matrix_rows(Seq::<Seq<char>>::empty(), ln + 1) =~= Seq::<
                (int, Seq<Seq<char>>),
            >::empty());
            assert(matrix_rows_view(rows@) =~= matrix_rows(lines_of(s@), 1));
            break ;
        }
        assert(matrix_rows_view(rows@) + matrix_rows(
            lines_of(s@.subrange(e + 1, n as int)),
            ln + 1,
        ) =~= matrix_rows(lines_of(s@), 1));
        p = e + 1;
        ln = ln + 1;
    }
    rows
}

/// Split a residual file into its kept lines: one per line that, with leading
/// and trailing whitespace removed, is not empty and does not start with `#`,
/// each with its line number and that trimmed text.
pub fn tokenize_resid(text: &str) -> (rows: Vec<ResidLine>)
    requires
        text@.len() < usize::MAX,
    ensures
        resid_rows_view(rows@) == resid_rows(lines_of(text@), 1),
{
    let s = chars_of(text);
    let n = s.len();
    let mut rows: Vec<ResidLine> = Vec::new();
    let mut p: usize = 0;
    let mut ln: usize = 1;
    assert(s@.subrange(0, n as int) =~= s@);
    loop
        invariant_except_break
            p <= n,
            1 <= ln <= p + 1,
            resid_rows_view(rows@) + resid_rows(lines_of(s@.subrange(p as int, n as int)), ln as int)
                == resid_rows(lines_of(s@), 1),
        invariant
            n == s@.len(),
            s@ == text@,
            n < usize::MAX,
        ensures
            resid_rows_view(rows@) == resid_rows(lines_of(s@), 1),
        decreases n - p,
    {
        let e = find_line_end(&s, p);
        let token = trim_range(&s, p, e);
        let ghost line = s@.subrange(p as int, e as int);
        let ghost before = rows@;
        proof {
            lemma_lines_step(s@, p as int, e as int);
            if e == n {
                lemma_resid_rows_cons(line, Seq::empty(), ln as int);
                assert(seq![line] + Seq::<Seq<char>>::empty() =~= seq![line]);
            } else {
                lemma_resid_rows_cons(line, lines_of(s@.subrange(e + 1, n as int)), ln as int);
            }
        }
        let kept = token.len() > 0 && token[0] != '#';
        if kept {
            rows.push(ResidLine { line: ln, token });
            assert(resid_rows_view(rows@) =~= resid_rows_view(before) + seq![
                (ln as int, trim(line)),
            ]);
        } else {
            assert(resid_rows_view(rows@) =~= resid_rows_view(before) + Seq::<
                (int, Seq<char>),
            >::empty());
        }
        if e == n {
            assert(resid_rows(Seq::<Seq<char>>::empty(), ln + 1) =~= Seq::<
                (int, Seq<char>),
            >::empty());
            assert(resid_rows_view(rows@) =~= resid_rows(lines_of(s@), 1));
            break ;
        }
        assert(resid_rows_view(rows@) + resid_rows(lines_of(s@.subrange(e + 1, n as int)), ln + 1)
            =~= resid_rows(lines_of(s@), 1));
        p = e + 1;
        ln = ln + 1;
    }
    rows
}

/// `c` is Unicode whitespace, as `char::is_whitespace` decides.
pub fn is_white_space(c: char) -> (res: bool)
    ensures
        res == spec_is_white_space(c),
{
    let u = c as u32;
    (0x09 <= u && u <= 0x0D) || u == 0x20 || u == 0x85 || u == 0xA0 || u == 0x1680 || (0x2000
        <= u && u <= 0x200A) || u == 0x2028 || u == 0x2029 || u == 0x202F || u == 0x205F || u
        == 0x3000
}

/// The characters of `text`, in order.
fn chars_of(text: &str) -> (res: Vec<char>)
    ensures
        res@ == text@,
{
    let mut out: Vec<char> = Vec::new();
    for c in it: text.chars()
        invariant
            out@ == it.seq().take(it.index() as int),
    {
        out.push(c);
    }
    assert(out@ == text@);
    out
}

} // verus!
