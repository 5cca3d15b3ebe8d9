//! Character-level text utilities: whitespace tokenization, line splitting,
//! searching, and decimal parsing/formatting, each specified over `Seq<char>`.

use vstd::prelude::*;
use vstd::string::*;

verus! {

// ---------------------------------------------------------------------------
// Character classes
// ---------------------------------------------------------------------------

/// Ascii whitespace, as `char::is_ascii_whitespace` defines it.
pub open spec fn is_ascii_ws(c: char) -> bool {
    c == ' ' || c == '\t' || c == '\n' || c == '\r' || c == '\x0c'
}

pub fn ascii_ws(c: char) -> (r: bool)
    ensures
        r == is_ascii_ws(c),
{
    c == ' ' || c == '\t' || c == '\n' || c == '\r' || c == '\x0c'
}

pub open spec fn is_digit(c: char) -> bool {
    48 <= c as u32 && c as u32 <= 57
}

pub fn digit(c: char) -> (r: bool)
    ensures
        r == is_digit(c),
{
    let v = c as u32;
    48 <= v && v <= 57
}

/// Numeric value of a decimal digit character.
pub open spec fn digit_val(c: char) -> nat {
    (c as u32 - 48) as nat
}

// ---------------------------------------------------------------------------
// Whitespace tokenization
// ---------------------------------------------------------------------------

/// Tokens of `s[i..]`, with `cur` the partial token read so far: the maximal
/// runs of non-whitespace characters, in order.
pub open spec fn toks(s: Seq<char>, i: int, cur: Seq<char>) -> Seq<Seq<char>>
    decreases s.len() - i,
        when 0 <= i <= s.len()
{
    if i == s.len() {
        if cur.len() == 0 {
            Seq::empty()
        } else {
            seq![cur]
        }
    } else if is_ascii_ws(s[i]) {
        if cur.len() == 0 {
            toks(s, i + 1, Seq::empty())
        } else {
            seq![cur] + toks(s, i + 1, Seq::empty())
        }
    } else {
        toks(s, i + 1, cur.push(s[i]))
    }
}

/// The whitespace-separated tokens of `s`.
pub open spec fn tokens_of(s: Seq<char>) -> Seq<Seq<char>> {
    toks(s, 0, Seq::empty())
}

/// Every token is non-empty.
pub proof fn lemma_toks_nonempty(s: Seq<char>, i: int, cur: Seq<char>)
    requires
        0 <= i <= s.len(),
    ensures
        forall|k: int| 0 <= k < toks(s, i, cur).len() ==> #[trigger] toks(s, i, cur)[k].len() > 0,
    decreases s.len() - i,
{
    if i == s.len() {
        if cur.len() > 0 {
            assert(toks(s, i, cur) == seq![cur]);
            assert(toks(s, i, cur)[0] == cur);
        } else {
            assert(toks(s, i, cur) == Seq::<Seq<char>>::empty());
        }
    } else if is_ascii_ws(s[i]) {
        lemma_toks_nonempty(s, i + 1, Seq::empty());
        if cur.len() > 0 {
            let rest = toks(s, i + 1, Seq::<char>::empty());
            assert(toks(s, i, cur) == seq![cur] + rest);
            assert forall|k: int| 0 <= k < toks(s, i, cur).len() implies #[trigger] toks(
                s,
                i,
                cur,
            )[k].len() > 0 by {
                if k == 0 {
                    assert((seq![cur] + rest)[k] == cur);
                } else {
                    assert((seq![cur] + rest)[k] == rest[k - 1]);
                }
            }
        }
    } else {
        lemma_toks_nonempty(s, i + 1, cur.push(s[i]));
        assert(toks(s, i, cur) == toks(s, i + 1, cur.push(s[i])));
    }
}

/// Every token of a whole string is non-empty.
pub proof fn lemma_tokens_nonempty(s: Seq<char>)
    ensures
        forall|k: int| 0 <= k < tokens_of(s).len() ==> #[trigger] tokens_of(s)[k].len() > 0,
{
    lemma_toks_nonempty(s, 0, Seq::empty());
}

/// Pushes a copy of `t` onto `r`, tracked at the level of views.
fn push_str(r: &mut Vec<String>, t: &str)
    ensures
        final(r).deep_view() == old(r).deep_view().push(t@),
{
    r.push(String::from_str(t));
    proof {
        assert(r.deep_view() =~= old(r).deep_view().push(t@));
    }
}

/// Splits `s` into its whitespace-separated tokens.
pub fn tokenize(s: &str) -> (r: Vec<String>)
    ensures
        r.deep_view() == tokens_of(s@),
{
    let n = s.unicode_len();
    let mut r: Vec<String> = Vec::new();
    let mut i: usize = 0;
    let mut start: usize = 0;
    let mut in_tok: bool = false;
    while i < n
        invariant
            n == s@.len(),
            i <= n,
            in_tok ==> start < i,
            r.deep_view() + toks(
                s@,
                i as int,
                if in_tok {
                    s@.subrange(start as int, i as int)
                } else {
                    Seq::empty()
                },
            ) == tokens_of(s@),
        decreases n - i,
    {
        let ghost cur = if in_tok {
            s@.subrange(start as int, i as int)
        } else {
            Seq::<char>::empty()
        };
        let c = s.get_char(i);
        if ascii_ws(c) {
            if in_tok {
                let t = s.substring_char(start, i);
                push_str(&mut r, t);
                in_tok = false;
                proof {
                    assert(toks(s@, i as int, cur) =~= seq![cur] + toks(
                        s@,
                        i + 1,
                        Seq::empty(),
                    ));
                    assert(r.deep_view() + toks(s@, i + 1, Seq::<char>::empty()) =~= tokens_of(
                        s@,
                    ));
                }
            }
        } else {
            if !in_tok {
                start = i;
                in_tok = true;
            }
            proof {
                assert(s@.subrange(start as int, i + 1) =~= cur.push(s@[i as int]));
            }
        }
        i = i + 1;
    }
    if in_tok {
        let t = s.substring_char(start, n);
        push_str(&mut r, t);
        proof {
            assert(r.deep_view() =~= tokens_of(s@));
        }
    } else {
        proof {
            assert(r.deep_view() =~= tokens_of(s@));
        }
    }
    r
}

// ---------------------------------------------------------------------------
// Searching
// ---------------------------------------------------------------------------

/// Index of the first occurrence of `c` in `s` at or after `i`.
pub open spec fn find_from(s: Seq<char>, c: char, i: int) -> Option<int>
    decreases s.len() - i,
        when 0 <= i <= s.len()
{
    if i == s.len() {
        None
    } else if s[i] == c {
        Some(i)
    } else {
        find_from(s, c, i + 1)
    }
}

/// What `find_from` returns: a first occurrence, or the absence of any.
pub proof fn lemma_find_from(s: Seq<char>, c: char, i: int)
    requires
        0 <= i <= s.len(),
    ensures
        match find_from(s, c, i) {
            Some(j) => i <= j < s.len() && s[j] == c && forall|k: int| i <= k < j ==> s[k] != c,
            None => forall|k: int| i <= k < s.len() ==> s[k] != c,
        },
    decreases s.len() - i,
{
    if i < s.len() && s[i] != c {
        lemma_find_from(s, c, i + 1);
    }
}

/// First occurrence of `c` in `s` at or after `from`.
pub fn find_char(s: &str, c: char, from: usize) -> (r: Option<usize>)
    requires
        from <= s@.len(),
    ensures
        match r {
            Some(j) => Some(j as int) == find_from(s@, c, from as int),
            None => find_from(s@, c, from as int) is None,
        },
{
    let n = s.unicode_len();
    let mut i: usize = from;
    while i < n
        invariant
            n == s@.len(),
            from <= i <= n,
            find_from(s@, c, from as int) == find_from(s@, c, i as int),
        decreases n - i,
    {
        if s.get_char(i) == c {
            return Some(i);
        }
        i = i + 1;
    }
    None
}

// ---------------------------------------------------------------------------
// Comparison helpers
// ---------------------------------------------------------------------------

/// Character-for-character equality of two string slices.
pub fn str_eq(a: &str, b: &str) -> (r: bool)
    ensures
        r == (a@ == b@),
{
    let na = a.unicode_len();
    let nb = b.unicode_len();
    if na != nb {
        return false;
    }
    let mut i: usize = 0;
    while i < na
        invariant
            na == a@.len(),
            na == b@.len(),
            i <= na,
            forall|k: int| 0 <= k < i ==> a@[k] == b@[k],
        decreases na - i,
    {
        if s_neq(a.get_char(i), b.get_char(i)) {
            return false;
        }
        i = i + 1;
    }
    proof {
        assert(a@ =~= b@);
    }
    true
}

/// Character inequality (split out to keep `str_eq`'s loop body simple).
fn s_neq(a: char, b: char) -> (r: bool)
    ensures
        r == (a != b),
{
    a != b
}

/// Whether `s` contains the character `c`.
pub fn str_contains(s: &str, c: char) -> (r: bool)
    ensures
        r == s@.contains(c),
{
    let n = s.unicode_len();
    let mut i: usize = 0;
    while i < n
        invariant
            n == s@.len(),
            i <= n,
            forall|k: int| 0 <= k < i ==> s@[k] != c,
        decreases n - i,
    {
        if s.get_char(i) == c {
            assert(s@[i as int] == c);
            return true;
        }
        i = i + 1;
    }
    false
}

/// Whether `s` begins with `p`.
pub fn str_starts_with(s: &str, p: &str) -> (r: bool)
    ensures
        r == (s@.len() >= p@.len() && s@.subrange(0, p@.len() as int) == p@),
{
    let n = s.unicode_len();
    let np = p.unicode_len();
    if n < np {
        return false;
    }
    let mut i: usize = 0;
    while i < np
        invariant
            n == s@.len(),
            np == p@.len(),
            np <= n,
            i <= np,
            forall|k: int| 0 <= k < i ==> s@[k] == p@[k],
        decreases np - i,
    {
        if s_neq(s.get_char(i), p.get_char(i)) {
            assert(s@.subrange(0, np as int)[i as int] != p@[i as int]);
            return false;
        }
        i = i + 1;
    }
    proof {
        assert(s@.subrange(0, np as int) =~= p@);
    }
    true
}

/// Index of the first token at or after `i` that opens with `[`.
pub open spec fn find_bracket_spec(ts: Seq<Seq<char>>, i: int) -> Option<int>
    decreases ts.len() - i,
        when 0 <= i <= ts.len()
{
    if i == ts.len() {
        None
    } else if ts[i].len() > 0 && ts[i][0] == '[' {
        Some(i)
    } else {
        find_bracket_spec(ts, i + 1)
    }
}

/// First token that opens with `[`, among non-empty tokens.
pub fn find_bracket(toks: &Vec<String>) -> (r: Option<usize>)
    requires
        forall|k: int|
            0 <= k < toks.deep_view().len() ==> #[trigger] toks.deep_view()[k].len() > 0,
    ensures
        match r {
            Some(b) => b < toks@.len() && Some(b as int) == find_bracket_spec(toks.deep_view(), 0),
            None => find_bracket_spec(toks.deep_view(), 0) is None,
        },
{
    let ghost ts = toks.deep_view();
    let n = toks.len();
    let mut bi: usize = 0;
    while bi < n
        invariant
            n == ts.len(),
            ts == toks.deep_view(),
            bi <= n,
            forall|k: int| 0 <= k < ts.len() ==> #[trigger] ts[k].len() > 0,
            find_bracket_spec(ts, 0) == find_bracket_spec(ts, bi as int),
        decreases n - bi,
    {
        proof {
            assert(ts[bi as int] == toks@[bi as int]@);
        }
        let tok: &String = &toks[bi];
        if tok.as_str().get_char(0) == '[' {
            return Some(bi);
        }
        bi = bi + 1;
    }
    None
}

// ---------------------------------------------------------------------------
// Line splitting
// ---------------------------------------------------------------------------

/// Drops one trailing carriage return, as `str::lines` does per line.
pub open spec fn strip_cr(l: Seq<char>) -> Seq<char> {
    if l.len() > 0 && l.last() == '\r' {
        l.drop_last()
    } else {
        l
    }
}

/// Lines of `s[i..]`, with `cur` the partial line read so far: segments
/// separated by `'\n'`, each with one trailing `'\r'` removed, and no final
/// empty segment after a terminating newline.
pub open spec fn lines_acc(s: Seq<char>, i: int, cur: Seq<char>) -> Seq<Seq<char>>
    decreases s.len() - i,
        when 0 <= i <= s.len()
{
    if i == s.len() {
        if cur.len() == 0 {
            Seq::empty()
        } else {
            seq![strip_cr(cur)]
        }
    } else if s[i] == '\n' {
        seq![strip_cr(cur)] + lines_acc(s, i + 1, Seq::empty())
    } else {
        lines_acc(s, i + 1, cur.push(s[i]))
    }
}

/// The lines of `s`, as `str::lines` splits them.
pub open spec fn spec_lines(s: Seq<char>) -> Seq<Seq<char>> {
    lines_acc(s, 0, Seq::empty())
}

/// The segment `s[start..end]` with one trailing carriage return removed.
fn strip_cr_sub(s: &str, start: usize, end: usize) -> (r: &str)
    requires
        start <= end <= s@.len(),
    ensures
        r@ == strip_cr(s@.subrange(start as int, end as int)),
{
    if end > start && s.get_char(end - 1) == '\r' {
        proof {
            assert(s@.subrange(start as int, end as int).last() == s@[end - 1]);
            assert(s@.subrange(start as int, end as int).drop_last() =~= s@.subrange(
                start as int,
                end - 1,
            ));
        }
        s.substring_char(start, end - 1)
    } else {
        s.substring_char(start, end)
    }
}

/// Splits `s` into lines, as `str::lines` does.
pub fn split_lines(s: &str) -> (r: Vec<String>)
    ensures
        r.deep_view() == spec_lines(s@),
{
    let n = s.unicode_len();
    let mut r: Vec<String> = Vec::new();
    let mut i: usize = 0;
    let mut start: usize = 0;
    proof {
        assert(s@.subrange(0, 0) =~= Seq::<char>::empty());
        assert(r.deep_view() =~= Seq::<Seq<char>>::empty());
        assert(r.deep_view() + lines_acc(s@, 0, Seq::<char>::empty()) =~= spec_lines(s@));
    }
    while i < n
        invariant
            n == s@.len(),
            start <= i <= n,
            r.deep_view() + lines_acc(s@, i as int, s@.subrange(start as int, i as int))
                == spec_lines(s@),
        decreases n - i,
    {
        let ghost cur = s@.subrange(start as int, i as int);
        let c = s.get_char(i);
        if c == '\n' {
            let t = strip_cr_sub(s, start, i);
            push_str(&mut r, t);
            start = i + 1;
            proof {
                assert(lines_acc(s@, i as int, cur) =~= seq![strip_cr(cur)] + lines_acc(
                    s@,
                    i + 1,
                    Seq::empty(),
                ));
                assert(s@.subrange(start as int, i + 1) =~= Seq::<char>::empty());
                assert(r.deep_view() + lines_acc(s@, i + 1, Seq::<char>::empty()) =~= spec_lines(
                    s@,
                ));
            }
        } else {
            proof {
                assert(s@.subrange(start as int, i + 1) =~= cur.push(s@[i as int]));
            }
        }
        i = i + 1;
    }
    if start < n {
        let t = strip_cr_sub(s, start, n);
        push_str(&mut r, t);
    }
    proof {
        assert(r.deep_view() =~= spec_lines(s@));
    }
    r
}

// ---------------------------------------------------------------------------
// Doubled-hyphen collapsing
// ---------------------------------------------------------------------------

/// `s` with each doubled hyphen collapsed to a single one, left to right and
/// without overlap, as `str::replace("--", "-")` rewrites it.
pub open spec fn collapse_hyphens(s: Seq<char>) -> Seq<char>
    decreases s.len(),
{
    if s.len() == 0 {
        Seq::empty()
    } else if s.len() >= 2 && s[0] == '-' && s[1] == '-' {
        seq!['-'] + collapse_hyphens(s.skip(2))
    } else {
        seq![s[0]] + collapse_hyphens(s.skip(1))
    }
}

/// A region without doubled hyphens is copied unchanged.
proof fn lemma_collapse_nopair(s: Seq<char>, k: int)
    requires
        0 <= k <= s.len(),
        forall|j: int| 0 <= j < k ==> !((#[trigger] s[j]) == '-' && j + 1 < s.len() && s[j + 1] == '-'),
    ensures
        collapse_hyphens(s) == s.take(k) + collapse_hyphens(s.skip(k)),
    decreases k,
{
    if k == 0 {
        assert(s.take(0) =~= Seq::<char>::empty());
        assert(s.skip(0) =~= s);
        assert(collapse_hyphens(s) =~= s.take(0) + collapse_hyphens(s.skip(0)));
    } else {
        assert(!(s[0] == '-' && 1 < s.len() && s[1] == '-'));
        let t = s.skip(1);
        assert forall|j: int| 0 <= j < k - 1 implies !((#[trigger] t[j]) == '-' && j + 1 < t.len()
            && t[j + 1] == '-') by {
            assert(t[j] == s[j + 1]);
        }
        lemma_collapse_nopair(t, k - 1);
        assert(t.take(k - 1) =~= s.take(k).skip(1));
        assert(t.skip(k - 1) =~= s.skip(k));
        if s.len() >= 2 && s[0] == '-' && s[1] == '-' {
            assert(false);
        }
        assert(collapse_hyphens(s) == seq![s[0]] + collapse_hyphens(t));
        assert(collapse_hyphens(s) =~= s.take(k) + collapse_hyphens(s.skip(k)));
    }
}

/// Rewrites `s` with doubled hyphens collapsed to single ones.
pub fn collapse_hyphens_exec(s: &str) -> (r: String)
    ensures
        r@ == collapse_hyphens(s@),
{
    let n = s.unicode_len();
    let mut out = String::new();
    let mut i: usize = 0;
    let mut seg: usize = 0;
    proof {
        assert(s@.skip(0) =~= s@);
        assert(out@ + collapse_hyphens(s@) =~= collapse_hyphens(s@));
    }
    while i < n
        invariant
            n == s@.len(),
            seg <= i <= n,
            collapse_hyphens(s@) == out@ + collapse_hyphens(s@.skip(seg as int)),
            forall|j: int|
                seg <= j < i ==> !((#[trigger] s@[j]) == '-' && j + 1 < s@.len() && s@[j + 1] == '-'),
        decreases n - i,
    {
        let c = s.get_char(i);
        if c == '-' && i + 1 < n && s.get_char(i + 1) == '-' {
            let piece = s.substring_char(seg, i + 1);
            proof {
                let rest = s@.skip(seg as int);
                assert forall|j: int| 0 <= j < i - seg implies !((#[trigger] rest[j]) == '-' && j
                    + 1 < rest.len() && rest[j + 1] == '-') by {
                    assert(rest[j] == s@[j + seg]);
                }
                lemma_collapse_nopair(rest, i - seg);
                assert(rest.skip(i - seg) =~= s@.skip(i as int));
                assert(rest.take(i - seg) =~= s@.subrange(seg as int, i as int));
                let tail = s@.skip(i as int);
                assert(tail.len() >= 2);
                assert(tail[0] == s@[i as int]);
                assert(tail[1] == s@[i + 1]);
                assert(tail.skip(2) =~= s@.skip(i + 2));
                assert(collapse_hyphens(tail) == seq!['-'] + collapse_hyphens(tail.skip(2)));
                assert(s@.subrange(seg as int, i + 1) =~= s@.subrange(seg as int, i as int)
                    + seq!['-']);
            }
            out.append(piece);
            proof {
                assert(out@ + collapse_hyphens(s@.skip(i + 2)) =~= collapse_hyphens(s@));
            }
            i = i + 2;
            seg = i;
        } else {
            i = i + 1;
        }
    }
    let piece = s.substring_char(seg, n);
    proof {
        let rest = s@.skip(seg as int);
        assert forall|j: int| 0 <= j < rest.len() implies !((#[trigger] rest[j]) == '-' && j + 1
            < rest.len() && rest[j + 1] == '-') by {
            assert(rest[j] == s@[j + seg]);
        }
        lemma_collapse_nopair(rest, rest.len() as int);
        assert(rest.take(rest.len() as int) =~= s@.subrange(seg as int, n as int));
        assert(rest.skip(rest.len() as int) =~= Seq::<char>::empty());
        assert(collapse_hyphens(Seq::<char>::empty()) =~= Seq::<char>::empty());
        assert(collapse_hyphens(s@) =~= out@ + s@.subrange(seg as int, n as int));
    }
    out.append(piece);
    out
}

} // verus!
