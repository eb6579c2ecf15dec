//! Character classes and whitespace-based text splitting, with exact
//! sequence-level specifications for every executable helper.

use vstd::prelude::*;

verus! {

// ---------------------------------------------------------------------------
// Character classes
// ---------------------------------------------------------------------------

/// The Unicode `White_Space` code points, the class that `str::trim` and
/// `str::split_whitespace` split on.
pub open spec fn is_ws_char(c: char) -> bool {
    let u = c as u32;
    u == 0x20 || u == 0x09 || u == 0x0A || u == 0x0B || u == 0x0C || u == 0x0D || u == 0x85
        || u == 0xA0 || u == 0x1680 || (0x2000 <= u && u <= 0x200A) || u == 0x2028 || u == 0x2029
        || u == 0x202F || u == 0x205F || u == 0x3000
}

pub fn is_ws(c: char) -> (r: bool)
    ensures
        r == is_ws_char(c),
{
    let u = c as u32;
    u == 0x20 || u == 0x09 || u == 0x0A || u == 0x0B || u == 0x0C || u == 0x0D || u == 0x85
        || u == 0xA0 || u == 0x1680 || (0x2000 <= u && u <= 0x200A) || u == 0x2028 || u == 0x2029
        || u == 0x202F || u == 0x205F || u == 0x3000
}

pub open spec fn is_ascii_char(c: char) -> bool {
    c as u32 <= 0x7F
}

pub open spec fn is_digit_char(c: char) -> bool {
    0x30 <= c as u32 && c as u32 <= 0x39
}

pub open spec fn is_alpha_char(c: char) -> bool {
    (0x41 <= c as u32 && c as u32 <= 0x5A) || (0x61 <= c as u32 && c as u32 <= 0x7A)
}

pub fn is_ascii_c(c: char) -> (r: bool)
    ensures
        r == is_ascii_char(c),
{
    c as u32 <= 0x7F
}

pub fn is_digit_c(c: char) -> (r: bool)
    ensures
        r == is_digit_char(c),
{
    let u = c as u32;
    0x30 <= u && u <= 0x39
}

pub fn is_alpha_c(c: char) -> (r: bool)
    ensures
        r == is_alpha_char(c),
{
    let u = c as u32;
    (0x41 <= u && u <= 0x5A) || (0x61 <= u && u <= 0x7A)
}

// ---------------------------------------------------------------------------
// String equality and prefix tests
// ---------------------------------------------------------------------------

/// Character-wise equality of two string slices.
pub fn str_eq_str(a: &str, b: &str) -> (r: bool)
    ensures
        r == (a@ == b@),
{
    let la = a.unicode_len();
    let lb = b.unicode_len();
    if la != lb {
        return false;
    }
    let mut i: usize = 0;
    while i < la
        invariant
            i <= la,
            la == a@.len(),
            la == b@.len(),
            forall|j: int| 0 <= j < i ==> a@[j] == b@[j],
        decreases la - i,
    {
        if a.get_char(i) != b.get_char(i) {
            return false;
        }
        i += 1;
    }
    proof {
        assert(a@ =~= b@);
    }
    true
}

/// Whether `p@` is a prefix of `s@`.
pub fn str_starts_with(s: &str, p: &str) -> (r: bool)
    ensures
        r == p@.is_prefix_of(s@),
{
    let ls = s.unicode_len();
    let lp = p.unicode_len();
    if lp > ls {
        return false;
    }
    let mut i: usize = 0;
    while i < lp
        invariant
            i <= lp,
            lp <= ls,
            ls == s@.len(),
            lp == p@.len(),
            forall|j: int| 0 <= j < i ==> p@[j] == s@[j],
        decreases lp - i,
    {
        if p.get_char(i) != s.get_char(i) {
            return false;
        }
        i += 1;
    }
    proof {
        assert(p@ =~= s@.subrange(0, p@.len() as int));
    }
    true
}

// ---------------------------------------------------------------------------
// Trimming
// ---------------------------------------------------------------------------

pub open spec fn ltrim(s: Seq<char>) -> Seq<char>
    decreases s.len(),
{
    if s.len() > 0 && is_ws_char(s[0]) {
        ltrim(s.drop_first())
    } else {
        s
    }
}

pub open spec fn rtrim(s: Seq<char>) -> Seq<char>
    decreases s.len(),
{
    if s.len() > 0 && is_ws_char(s.last()) {
        rtrim(s.drop_last())
    } else {
        s
    }
}

/// What `str::trim` leaves: the input without leading and trailing whitespace.
pub open spec fn spec_trim(s: Seq<char>) -> Seq<char> {
    rtrim(ltrim(s))
}

proof fn lemma_ltrim_skip(s: Seq<char>, a: int)
    requires
        0 <= a <= s.len(),
        forall|j: int| 0 <= j < a ==> is_ws_char(s[j]),
        a == s.len() || !is_ws_char(s[a]),
    ensures
        ltrim(s) == s.skip(a),
    decreases a,
{
    if a == 0 {
        assert(s.skip(0) =~= s);
    } else {
        assert(is_ws_char(s[0]));
        lemma_ltrim_skip(s.drop_first(), a - 1);
        assert(s.drop_first().skip(a - 1) =~= s.skip(a));
    }
}

proof fn lemma_rtrim_take(s: Seq<char>, b: int)
    requires
        0 <= b <= s.len(),
        forall|j: int| b <= j < s.len() ==> is_ws_char(s[j]),
        b == 0 || !is_ws_char(s[b - 1]),
    ensures
        rtrim(s) == s.take(b),
    decreases s.len(),
{
    if b == s.len() {
        if s.len() > 0 && is_ws_char(s.last()) {
            assert(!is_ws_char(s[b - 1]));
            assert(false);
        }
        assert(s.take(b) =~= s);
    } else {
        assert(is_ws_char(s.last()));
        lemma_rtrim_take(s.drop_last(), b);
        assert(s.drop_last().take(b) =~= s.take(b));
    }
}

/// The input without leading and trailing whitespace.
pub fn trim(s: &str) -> (r: &str)
    ensures
        r@ == spec_trim(s@),
{
    let n = s.unicode_len();
    let mut a: usize = 0;
    while a < n && is_ws(s.get_char(a))
        invariant
            a <= n,
            n == s@.len(),
            forall|j: int| 0 <= j < a ==> is_ws_char(s@[j]),
        decreases n - a,
    {
        a += 1;
    }
    let mut b: usize = n;
    while b > a && is_ws(s.get_char(b - 1))
        invariant
            a <= b <= n,
            n == s@.len(),
            forall|j: int| b <= j < n ==> is_ws_char(s@[j]),
        decreases b,
    {
        b -= 1;
    }
    let r = s.substring_char(a, b);
    proof {
        lemma_ltrim_skip(s@, a as int);
        let t = s@.skip(a as int);
        if a == n {
            assert(t =~= Seq::<char>::empty());
            assert(rtrim(t) == t);
            assert(r@ =~= t);
        } else {
            assert(b > a);
            assert(!is_ws_char(s@[b - 1]));
            assert forall|j: int| b - a <= j < t.len() implies is_ws_char(t[j]) by {
                assert(t[j] == s@[a + j]);
            }
            assert(!is_ws_char(t[b - a - 1]));
            lemma_rtrim_take(t, b - a);
            assert(t.take(b - a) =~= s@.subrange(a as int, b as int));
        }
    }
    r
}

// ---------------------------------------------------------------------------
// Whitespace tokenization
// ---------------------------------------------------------------------------

/// Length of the leading run of non-whitespace characters.
pub open spec fn tok_len(s: Seq<char>) -> nat
    decreases s.len(),
{
    if s.len() == 0 {
        0
    } else if is_ws_char(s[0]) {
        0
    } else {
        1 + tok_len(s.drop_first())
    }
}

pub proof fn lemma_tok_len_bounds(s: Seq<char>)
    ensures
        tok_len(s) <= s.len(),
        forall|j: int| 0 <= j < tok_len(s) ==> !is_ws_char(s[j]),
        tok_len(s) < s.len() ==> is_ws_char(s[tok_len(s) as int]),
    decreases s.len(),
{
    if s.len() > 0 && !is_ws_char(s[0]) {
        lemma_tok_len_bounds(s.drop_first());
        assert forall|j: int| 0 <= j < tok_len(s) implies !is_ws_char(s[j]) by {
            if j > 0 {
                assert(s.drop_first()[j - 1] == s[j]);
            }
        }
    }
}

pub proof fn lemma_tok_len_at(s: Seq<char>, k: int)
    requires
        0 <= k <= s.len(),
        forall|j: int| 0 <= j < k ==> !is_ws_char(s[j]),
        k == s.len() || is_ws_char(s[k]),
    ensures
        tok_len(s) == k,
    decreases k,
{
    if k == 0 {
    } else {
        assert(!is_ws_char(s[0]));
        lemma_tok_len_at(s.drop_first(), k - 1);
    }
}

/// What `str::split_whitespace` yields: the maximal non-whitespace runs.
pub open spec fn spec_tokens(s: Seq<char>) -> Seq<Seq<char>>
    decreases s.len(),
    via spec_tokens_dec
{
    if s.len() == 0 {
        Seq::empty()
    } else if is_ws_char(s[0]) {
        spec_tokens(s.drop_first())
    } else {
        seq![s.take(tok_len(s) as int)] + spec_tokens(s.skip(tok_len(s) as int))
    }
}

#[via_fn]
proof fn spec_tokens_dec(s: Seq<char>) {
    if s.len() > 0 && !is_ws_char(s[0]) {
        lemma_tok_len_bounds(s);
    }
}

/// A token, as a token sequence member: non-empty and free of whitespace.
pub open spec fn is_clean_tok(t: Seq<char>) -> bool {
    t.len() > 0 && forall|j: int| 0 <= j < t.len() ==> !is_ws_char(t[j])
}

/// Every token is non-empty and free of whitespace.
pub proof fn lemma_tokens_wf(s: Seq<char>)
    ensures
        forall|i: int| 0 <= i < spec_tokens(s).len() ==> is_clean_tok(#[trigger] spec_tokens(s)[i]),
    decreases s.len(),
{
    if s.len() == 0 {
        assert(spec_tokens(s).len() == 0);
    } else if is_ws_char(s[0]) {
        lemma_tokens_wf(s.drop_first());
        assert forall|i: int| 0 <= i < spec_tokens(s).len() implies is_clean_tok(
            #[trigger] spec_tokens(s)[i],
        ) by {
            assert(spec_tokens(s)[i] == spec_tokens(s.drop_first())[i]);
        }
    } else {
        lemma_tok_len_bounds(s);
        lemma_tokens_wf(s.skip(tok_len(s) as int));
        let t = s.take(tok_len(s) as int);
        assert(is_clean_tok(t));
        assert forall|i: int| 0 <= i < spec_tokens(s).len() implies is_clean_tok(
            #[trigger] spec_tokens(s)[i],
        ) by {
            if i == 0 {
                assert(spec_tokens(s)[0] == t);
            } else {
                assert(spec_tokens(s)[i] == spec_tokens(s.skip(tok_len(s) as int))[i - 1]);
            }
        }
    }
}

/// Splits on whitespace, like `str::split_whitespace`, collecting the tokens.
pub fn split_ws(s: &str) -> (r: Vec<String>)
    ensures
        r.deep_view() == spec_tokens(s@),
{
    let n = s.unicode_len();
    let mut r: Vec<String> = Vec::new();
    let mut i: usize = 0;
    proof {
        assert(r.deep_view() =~= Seq::<Seq<char>>::empty());
        assert(s@.skip(0) =~= s@);
        assert(r.deep_view() + spec_tokens(s@) =~= spec_tokens(s@));
    }
    while i < n
        invariant
            i <= n,
            n == s@.len(),
            spec_tokens(s@) == r.deep_view() + spec_tokens(s@.skip(i as int)),
        decreases n - i,
    {
        if is_ws(s.get_char(i)) {
            proof {
                assert(s@.skip(i as int)[0] == s@[i as int]);
                assert(s@.skip(i as int).drop_first() =~= s@.skip(i + 1));
            }
            i += 1;
        } else {
            let start = i;
            let mut j = i + 1;
            while j < n && !is_ws(s.get_char(j))
                invariant
                    start < j <= n,
                    n == s@.len(),
                    forall|m: int| start <= m < j ==> !is_ws_char(s@[m]),
                decreases n - j,
            {
                j += 1;
            }
            let tok = s.substring_char(start, j).to_owned();
            let ghost old_dv = r.deep_view();
            proof {
                let rest = s@.skip(start as int);
                assert forall|m: int| 0 <= m < j - start implies !is_ws_char(rest[m]) by {
                    assert(rest[m] == s@[start + m]);
                }
                if j < n {
                    assert(rest[j - start] == s@[j as int]);
                }
                lemma_tok_len_at(rest, j - start);
                assert(rest.take(j - start) =~= s@.subrange(start as int, j as int));
                assert(rest.skip(j - start) =~= s@.skip(j as int));
                assert(spec_tokens(rest) == seq![tok@] + spec_tokens(s@.skip(j as int)));
                assert((old_dv + seq![tok@]) + spec_tokens(s@.skip(j as int)) =~= old_dv + (seq![
                    tok@,
                ] + spec_tokens(s@.skip(j as int))));
            }
            r.push(tok);
            proof {
                assert(r.deep_view() =~= old_dv + seq![r@.last()@]);
            }
            i = j;
        }
    }
    proof {
        assert(s@.skip(n as int) =~= Seq::<char>::empty());
        assert(r.deep_view() + Seq::<Seq<char>>::empty() =~= r.deep_view());
    }
    r
}

// ---------------------------------------------------------------------------
// Joining tokens with single spaces
// ---------------------------------------------------------------------------

/// Tokens joined with a single space between consecutive tokens.
pub open spec fn spec_join(toks: Seq<Seq<char>>) -> Seq<char>
    decreases toks.len(),
{
    if toks.len() == 0 {
        Seq::empty()
    } else if toks.len() == 1 {
        toks[0]
    } else {
        toks[0] + seq![' '] + spec_join(toks.drop_first())
    }
}

pub proof fn lemma_join_push(toks: Seq<Seq<char>>, t: Seq<char>)
    ensures
        spec_join(toks.push(t)) == if toks.len() == 0 {
            t
        } else {
            spec_join(toks) + seq![' '] + t
        },
    decreases toks.len(),
{
    let p = toks.push(t);
    if toks.len() == 0 {
        assert(p.len() == 1);
        assert(p[0] == t);
    } else if toks.len() == 1 {
        assert(p.len() == 2);
        assert(p[0] == toks[0]);
        assert(p.drop_first() =~= seq![t]);
        assert(spec_join(p.drop_first()) == t);
    } else {
        assert(p[0] == toks[0]);
        assert(p.drop_first() =~= toks.drop_first().push(t));
        lemma_join_push(toks.drop_first(), t);
        assert(spec_join(p) == toks[0] + seq![' '] + (spec_join(toks.drop_first()) + seq![' '] + t));
        assert(toks[0] + seq![' '] + (spec_join(toks.drop_first()) + seq![' '] + t) =~= (toks[0]
            + seq![' '] + spec_join(toks.drop_first())) + seq![' '] + t);
    }
}

/// Joins `toks[from..to]` with single spaces.
pub fn join_range(toks: &Vec<String>, from: usize, to: usize) -> (r: String)
    requires
        from <= to <= toks.len(),
    ensures
        r@ == spec_join(toks.deep_view().subrange(from as int, to as int)),
{
    let mut r = String::new();
    let mut i = from;
    proof {
        reveal_strlit(" ");
    }
    while i < to
        invariant
            from <= i <= to <= toks.len(),
            r@ == spec_join(toks.deep_view().subrange(from as int, i as int)),
            " "@ =~= seq![' '],
        decreases to - i,
    {
        if i > from {
            r.append(" ");
        }
        r.append(toks[i].as_str());
        proof {
            let pre = toks.deep_view().subrange(from as int, i as int);
            assert(toks.deep_view().subrange(from as int, i + 1) =~= pre.push(toks@[i as int]@));
            lemma_join_push(pre, toks@[i as int]@);
        }
        i += 1;
    }
    proof {
        if from == to {
            assert(toks.deep_view().subrange(from as int, to as int) =~= Seq::<Seq<char>>::empty());
        }
    }
    r
}

// ---------------------------------------------------------------------------
// Scanning for a single character
// ---------------------------------------------------------------------------

/// Length of the leading run of characters other than `c`.
pub open spec fn upto_char(s: Seq<char>, c: char) -> nat
    decreases s.len(),
{
    if s.len() == 0 {
        0
    } else if s[0] == c {
        0
    } else {
        1 + upto_char(s.drop_first(), c)
    }
}

pub proof fn lemma_upto_char_bounds(s: Seq<char>, c: char)
    ensures
        upto_char(s, c) <= s.len(),
        forall|j: int| 0 <= j < upto_char(s, c) ==> s[j] != c,
        upto_char(s, c) < s.len() ==> s[upto_char(s, c) as int] == c,
    decreases s.len(),
{
    if s.len() > 0 && s[0] != c {
        lemma_upto_char_bounds(s.drop_first(), c);
        assert forall|j: int| 0 <= j < upto_char(s, c) implies s[j] != c by {
            if j > 0 {
                assert(s.drop_first()[j - 1] == s[j]);
            }
        }
    }
}

pub proof fn lemma_upto_char_at(s: Seq<char>, c: char, k: int)
    requires
        0 <= k <= s.len(),
        forall|j: int| 0 <= j < k ==> s[j] != c,
        k == s.len() || s[k] == c,
    ensures
        upto_char(s, c) == k,
    decreases k,
{
    if k == 0 {
    } else {
        assert(s[0] != c);
        lemma_upto_char_at(s.drop_first(), c, k - 1);
    }
}

/// Index of the first occurrence of `c` in `s`, or the length if absent.
pub fn find_char(s: &str, c: char) -> (r: usize)
    ensures
        r == upto_char(s@, c),
        r <= s@.len(),
{
    let n = s.unicode_len();
    let mut i: usize = 0;
    while i < n && s.get_char(i) != c
        invariant
            i <= n,
            n == s@.len(),
            forall|j: int| 0 <= j < i ==> s@[j] != c,
        decreases n - i,
    {
        i += 1;
    }
    proof {
        lemma_upto_char_at(s@, c, i as int);
    }
    i
}

// ---------------------------------------------------------------------------
// Line splitting
// ---------------------------------------------------------------------------

/// A line with one trailing carriage return removed, as `str::lines` does.
pub open spec fn strip_cr(l: Seq<char>) -> Seq<char> {
    if l.len() > 0 && l.last() == '\r' {
        l.drop_last()
    } else {
        l
    }
}

/// What `str::lines` yields: segments split at `'\n'`, each without a
/// trailing `'\r'`, and no final empty segment after a trailing newline.
pub open spec fn spec_lines(s: Seq<char>) -> Seq<Seq<char>>
    decreases s.len(),
    via spec_lines_dec
{
    if s.len() == 0 {
        Seq::empty()
    } else {
        let k = upto_char(s, '\n');
        if k == s.len() {
            seq![strip_cr(s)]
        } else {
            seq![strip_cr(s.take(k as int))] + spec_lines(s.skip(k as int + 1))
        }
    }
}

#[via_fn]
proof fn spec_lines_dec(s: Seq<char>) {
    if s.len() > 0 {
        lemma_upto_char_bounds(s, '\n');
    }
}

/// Splits into lines, like `str::lines`, collecting the segments.
pub fn split_lines(s: &str) -> (r: Vec<String>)
    ensures
        r.deep_view() == spec_lines(s@),
{
    let n = s.unicode_len();
    let mut r: Vec<String> = Vec::new();
    let mut i: usize = 0;
    proof {
        assert(r.deep_view() =~= Seq::<Seq<char>>::empty());
        assert(s@.skip(0) =~= s@);
        assert(r.deep_view() + spec_lines(s@) =~= spec_lines(s@));
    }
    while i < n
        invariant
            i <= n,
            n == s@.len(),
            spec_lines(s@) == r.deep_view() + spec_lines(s@.skip(i as int)),
        decreases n - i,
    {
        let mut j = i;
        while j < n && s.get_char(j) != '\n'
            invariant
                i <= j <= n,
                n == s@.len(),
                forall|m: int| i <= m < j ==> s@[m] != '\n',
            decreases n - j,
        {
            j += 1;
        }
        let end = if j > i && s.get_char(j - 1) == '\r' {
            j - 1
        } else {
            j
        };
        let line = s.substring_char(i, end).to_owned();
        let ghost old_dv = r.deep_view();
        proof {
            let rest = s@.skip(i as int);
            assert forall|m: int| 0 <= m < j - i implies rest[m] != '\n' by {
                assert(rest[m] == s@[i + m]);
            }
            if j < n {
                assert(rest[j - i] == s@[j as int]);
            }
            lemma_upto_char_at(rest, '\n', j - i);
            let seg = rest.take(j - i);
            assert(seg =~= s@.subrange(i as int, j as int));
            if j > i && s@[j - 1] == '\r' {
                assert(seg.last() == '\r');
                assert(strip_cr(seg) =~= s@.subrange(i as int, j - 1));
            } else {
                if seg.len() > 0 {
                    assert(seg.last() == s@[j - 1]);
                }
                assert(strip_cr(seg) =~= s@.subrange(i as int, j as int));
            }
            assert(line@ == strip_cr(seg));
            let ni: int = if j < n {
                j as int + 1
            } else {
                n as int
            };
            if j == n {
                assert(seg =~= rest);
                assert(spec_lines(rest) == seq![strip_cr(rest)]);
                assert(s@.skip(n as int) =~= Seq::<char>::empty());
                assert(spec_lines(rest) =~= seq![line@] + spec_lines(s@.skip(ni)));
            } else {
                assert(rest.skip(j - i + 1) =~= s@.skip(j + 1));
                assert(spec_lines(rest) == seq![line@] + spec_lines(s@.skip(ni)));
            }
            assert(old_dv + (seq![line@] + spec_lines(s@.skip(ni))) =~= (old_dv + seq![line@])
                + spec_lines(s@.skip(ni)));
        }
        r.push(line);
        proof {
            assert(r.deep_view() =~= old_dv + seq![r@.last()@]);
        }
        i = if j < n {
            j + 1
        } else {
            n
        };
    }
    proof {
        assert(s@.skip(n as int) =~= Seq::<char>::empty());
        assert(r.deep_view() + Seq::<Seq<char>>::empty() =~= r.deep_view());
    }
    r
}

// ---------------------------------------------------------------------------
// Splitting and joining on a separator character
// ---------------------------------------------------------------------------

/// What `str::split(c)` yields: the segments between occurrences of `c`,
/// empty segments included.
pub open spec fn spec_split(s: Seq<char>, c: char) -> Seq<Seq<char>>
    decreases s.len(),
    via spec_split_dec
{
    let k = upto_char(s, c);
    if k == s.len() {
        seq![s]
    } else {
        seq![s.take(k as int)] + spec_split(s.skip(k as int + 1), c)
    }
}

#[via_fn]
proof fn spec_split_dec(s: Seq<char>, c: char) {
    lemma_upto_char_bounds(s, c);
}

/// Splits on every occurrence of `c`, keeping empty segments.
pub fn split_char(s: &str, c: char) -> (r: Vec<String>)
    ensures
        r.deep_view() == spec_split(s@, c),
{
    let n = s.unicode_len();
    let mut r: Vec<String> = Vec::new();
    let mut i: usize = 0;
    proof {
        assert(r.deep_view() =~= Seq::<Seq<char>>::empty());
        assert(s@.skip(0) =~= s@);
        assert(r.deep_view() + spec_split(s@, c) =~= spec_split(s@, c));
    }
    loop
        invariant
            i <= n,
            n == s@.len(),
            spec_split(s@, c) == r.deep_view() + spec_split(s@.skip(i as int), c),
        decreases n - i,
    {
        let mut j = i;
        while j < n && s.get_char(j) != c
            invariant
                i <= j <= n,
                n == s@.len(),
                forall|m: int| i <= m < j ==> s@[m] != c,
            decreases n - j,
        {
            j += 1;
        }
        let seg = s.substring_char(i, j).to_owned();
        let ghost old_dv = r.deep_view();
        proof {
            let rest = s@.skip(i as int);
            assert forall|m: int| 0 <= m < j - i implies rest[m] != c by {
                assert(rest[m] == s@[i + m]);
            }
            if j < n {
                assert(rest[j - i] == s@[j as int]);
            }
            lemma_upto_char_at(rest, c, j - i);
            assert(rest.take(j - i) =~= s@.subrange(i as int, j as int));
            assert(seg@ == rest.take(j - i));
            if j == n {
                assert(spec_split(rest, c) == seq![rest]);
                assert(rest =~= rest.take(j - i));
                assert(old_dv + seq![seg@] =~= old_dv + spec_split(rest, c));
            } else {
                assert(rest.skip(j - i + 1) =~= s@.skip(j + 1));
                assert(spec_split(rest, c) == seq![seg@] + spec_split(s@.skip(j + 1), c));
                assert(old_dv + (seq![seg@] + spec_split(s@.skip(j + 1), c)) =~= (old_dv + seq![
                    seg@,
                ]) + spec_split(s@.skip(j + 1), c));
            }
        }
        r.push(seg);
        proof {
            assert(r.deep_view() =~= old_dv + seq![r@.last()@]);
        }
        if j == n {
            proof {
                assert(r.deep_view() =~= spec_split(s@, c));
            }
            return r;
        }
        i = j + 1;
    }
}

/// Segments joined with the single character `c` between them.
pub open spec fn spec_join_char(toks: Seq<Seq<char>>, c: char) -> Seq<char>
    decreases toks.len(),
{
    if toks.len() == 0 {
        Seq::empty()
    } else if toks.len() == 1 {
        toks[0]
    } else {
        toks[0] + seq![c] + spec_join_char(toks.drop_first(), c)
    }
}

pub proof fn lemma_join_char_push(toks: Seq<Seq<char>>, c: char, t: Seq<char>)
    ensures
        spec_join_char(toks.push(t), c) == if toks.len() == 0 {
            t
        } else {
            spec_join_char(toks, c) + seq![c] + t
        },
    decreases toks.len(),
{
    let p = toks.push(t);
    if toks.len() == 0 {
        assert(p.len() == 1);
        assert(p[0] == t);
    } else if toks.len() == 1 {
        assert(p.len() == 2);
        assert(p[0] == toks[0]);
        assert(p.drop_first() =~= seq![t]);
        assert(spec_join_char(p.drop_first(), c) == t);
    } else {
        assert(p[0] == toks[0]);
        assert(p.drop_first() =~= toks.drop_first().push(t));
        lemma_join_char_push(toks.drop_first(), c, t);
        assert(spec_join_char(p, c) == toks[0] + seq![c] + (spec_join_char(toks.drop_first(), c)
            + seq![c] + t));
        assert(toks[0] + seq![c] + (spec_join_char(toks.drop_first(), c) + seq![c] + t) =~= (
        toks[0] + seq![c] + spec_join_char(toks.drop_first(), c)) + seq![c] + t);
    }
}

/// Joins `toks[from..to]` with `sep` between consecutive segments.
pub fn join_char_range(toks: &Vec<String>, from: usize, to: usize, sep: char, sep_str: &str) -> (r:
    String)
    requires
        from <= to <= toks.len(),
        sep_str@ == seq![sep],
    ensures
        r@ == spec_join_char(toks.deep_view().subrange(from as int, to as int), sep),
{
    let mut r = String::new();
    let mut i = from;
    while i < to
        invariant
            from <= i <= to <= toks.len(),
            sep_str@ == seq![sep],
            r@ == spec_join_char(toks.deep_view().subrange(from as int, i as int), sep),
        decreases to - i,
    {
        if i > from {
            r.append(sep_str);
        }
        r.append(toks[i].as_str());
        proof {
            let pre = toks.deep_view().subrange(from as int, i as int);
            assert(toks.deep_view().subrange(from as int, i + 1) =~= pre.push(toks@[i as int]@));
            lemma_join_char_push(pre, sep, toks@[i as int]@);
        }
        i += 1;
    }
    proof {
        if from == to {
            assert(toks.deep_view().subrange(from as int, to as int) =~= Seq::<Seq<char>>::empty());
        }
    }
    r
}

// ---------------------------------------------------------------------------
// Space padding and digits
// ---------------------------------------------------------------------------

pub open spec fn spec_spaces(n: nat) -> Seq<char> {
    Seq::new(n, |i: int| ' ')
}

/// `s` left-justified in a field of width `w`, padded with spaces.
pub open spec fn spec_pad(s: Seq<char>, w: nat) -> Seq<char> {
    if s.len() >= w {
        s
    } else {
        s + spec_spaces((w - s.len()) as nat)
    }
}

/// Appends `s` left-justified in a field of width `w`.
pub fn append_padded(out: &mut String, s: &str, w: usize)
    ensures
        final(out)@ == old(out)@ + spec_pad(s@, w as nat),
{
    out.append(s);
    let len = s.unicode_len();
    proof {
        reveal_strlit(" ");
        assert(out@ + spec_spaces(0) =~= out@);
    }
    if len >= w {
        return ;
    }
    let mut k = len;
    while k < w
        invariant
            len <= k <= w,
            len == s@.len(),
            " "@ =~= seq![' '],
            out@ == old(out)@ + s@ + spec_spaces((k - len) as nat),
        decreases w - k,
    {
        out.append(" ");
        proof {
            assert(spec_spaces((k + 1 - len) as nat) =~= spec_spaces((k - len) as nat) + seq![' ']);
            assert((old(out)@ + s@ + spec_spaces((k - len) as nat)) + seq![' '] =~= old(out)@ + s@
                + spec_spaces((k + 1 - len) as nat));
        }
        k += 1;
    }
    proof {
        assert(old(out)@ + s@ + spec_spaces((w - len) as nat) =~= old(out)@ + (s@ + spec_spaces(
            (w - len) as nat,
        )));
    }
}

/// Length of the leading run of decimal digits.
pub open spec fn digits_len(s: Seq<char>) -> nat
    decreases s.len(),
{
    if s.len() == 0 {
        0
    } else if !is_digit_char(s[0]) {
        0
    } else {
        1 + digits_len(s.drop_first())
    }
}

pub proof fn lemma_digits_len_bounds(s: Seq<char>)
    ensures
        digits_len(s) <= s.len(),
        forall|j: int| 0 <= j < digits_len(s) ==> is_digit_char(s[j]),
        digits_len(s) < s.len() ==> !is_digit_char(s[digits_len(s) as int]),
    decreases s.len(),
{
    if s.len() > 0 && is_digit_char(s[0]) {
        lemma_digits_len_bounds(s.drop_first());
        assert forall|j: int| 0 <= j < digits_len(s) implies is_digit_char(s[j]) by {
            if j > 0 {
                assert(s.drop_first()[j - 1] == s[j]);
            }
        }
    }
}

pub proof fn lemma_digits_len_at(s: Seq<char>, k: int)
    requires
        0 <= k <= s.len(),
        forall|j: int| 0 <= j < k ==> is_digit_char(s[j]),
        k == s.len() || !is_digit_char(s[k]),
    ensures
        digits_len(s) == k,
    decreases k,
{
    if k == 0 {
    } else {
        assert(is_digit_char(s[0]));
        lemma_digits_len_at(s.drop_first(), k - 1);
    }
}

pub open spec fn digit_char(d: int) -> char {
    if d == 0 {
        '0'
    } else if d == 1 {
        '1'
    } else if d == 2 {
        '2'
    } else if d == 3 {
        '3'
    } else if d == 4 {
        '4'
    } else if d == 5 {
        '5'
    } else if d == 6 {
        '6'
    } else if d == 7 {
        '7'
    } else if d == 8 {
        '8'
    } else {
        '9'
    }
}

pub open spec fn digit_val(c: char) -> int {
    c as u32 - 0x30
}

/// The value and the glyph of a decimal digit determine each other.
pub proof fn lemma_digit_char_val(d: int, c: char)
    ensures
        0 <= d <= 9 ==> digit_val(digit_char(d)) == d && is_digit_char(digit_char(d)),
        is_digit_char(c) ==> digit_char(digit_val(c)) == c && 0 <= digit_val(c) <= 9,
{
}

/// A one-character string holding the given decimal digit.
pub fn digit_str(d: u32) -> (r: &'static str)
    requires
        d < 10,
    ensures
        r@ =~= seq![digit_char(d as int)],
{
    proof {
        reveal_strlit("0");
        reveal_strlit("1");
        reveal_strlit("2");
        reveal_strlit("3");
        reveal_strlit("4");
        reveal_strlit("5");
        reveal_strlit("6");
        reveal_strlit("7");
        reveal_strlit("8");
        reveal_strlit("9");
    }
    if d == 0 {
        "0"
    } else if d == 1 {
        "1"
    } else if d == 2 {
        "2"
    } else if d == 3 {
        "3"
    } else if d == 4 {
        "4"
    } else if d == 5 {
        "5"
    } else if d == 6 {
        "6"
    } else if d == 7 {
        "7"
    } else if d == 8 {
        "8"
    } else {
        "9"
    }
}

} // verus!

