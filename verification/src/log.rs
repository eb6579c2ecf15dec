//! A whole Cabrillo log: the header mapping with last-write-wins inserts,
//! the line-oriented parser, first-error validation, and the canonical
//! serialized form with headers sorted by key.

use vstd::prelude::*;

use crate::date::{date_wf, time_wf};
use crate::qso::{
    QSO,
    QsoV,
    CabrilloError,
    CabrilloErrorV,
    spec_parse_qso_line,
    parse_qso_line,
    qso_res_view,
    unit_res_view,
    spec_validate_qso,
    validate_qso,
    spec_render_qso,
    append_qso_line,
};
use crate::text::{
    spec_trim,
    trim,
    spec_lines,
    split_lines,
    str_starts_with,
    str_eq_str,
    find_char,
    upto_char,
};

verus! {

// ---------------------------------------------------------------------------
// The log and its view
// ---------------------------------------------------------------------------

/// A parsed Cabrillo log: header entries in insertion order with pairwise
/// distinct keys, and contacts in file order.
#[derive(Debug, Clone, PartialEq)]
pub struct CabrilloLog {
    pub headers: Vec<(String, String)>,
    pub qsos: Vec<QSO>,
}

/// The mathematical shadow of [`CabrilloLog`].
#[verifier::ext_equal]
pub struct LogV {
    pub headers: Seq<(Seq<char>, Seq<char>)>,
    pub qsos: Seq<QsoV>,
}

impl View for CabrilloLog {
    type V = LogV;

    open spec fn view(&self) -> LogV {
        LogV { headers: self.headers.deep_view(), qsos: self.qsos.deep_view() }
    }
}

/// The header mapping a header sequence denotes; a later entry for the same
/// key wins.
pub open spec fn headers_map(hs: Seq<(Seq<char>, Seq<char>)>) -> Map<Seq<char>, Seq<char>>
    decreases hs.len(),
{
    if hs.len() == 0 {
        Map::empty()
    } else {
        headers_map(hs.drop_last()).insert(hs.last().0, hs.last().1)
    }
}

pub open spec fn headers_distinct(hs: Seq<(Seq<char>, Seq<char>)>) -> bool {
    forall|i: int, j: int| 0 <= i < j < hs.len() ==> (#[trigger] hs[i]).0 != (#[trigger] hs[j]).0
}

/// Validity carried by every parsed log: distinct header keys, and calendar
/// dates and clock times inside their ranges.
pub open spec fn log_wf(l: LogV) -> bool {
    headers_distinct(l.headers) && forall|i: int|
        0 <= i < l.qsos.len() ==> date_wf((#[trigger] l.qsos[i]).date) && time_wf(l.qsos[i].time)
}

// ---------------------------------------------------------------------------
// Header upsert
// ---------------------------------------------------------------------------

/// Index of the first entry with key `k`, or the length if absent.
pub open spec fn find_key(hs: Seq<(Seq<char>, Seq<char>)>, k: Seq<char>) -> int
    decreases hs.len(),
{
    if hs.len() == 0 {
        0
    } else if hs[0].0 == k {
        0
    } else {
        1 + find_key(hs.drop_first(), k)
    }
}

pub proof fn lemma_find_key_bounds(hs: Seq<(Seq<char>, Seq<char>)>, k: Seq<char>)
    ensures
        0 <= find_key(hs, k) <= hs.len(),
        forall|j: int| 0 <= j < find_key(hs, k) ==> (#[trigger] hs[j]).0 != k,
        find_key(hs, k) < hs.len() ==> hs[find_key(hs, k)].0 == k,
    decreases hs.len(),
{
    if hs.len() > 0 && hs[0].0 != k {
        lemma_find_key_bounds(hs.drop_first(), k);
        assert forall|j: int| 0 <= j < find_key(hs, k) implies (#[trigger] hs[j]).0 != k by {
            if j > 0 {
                assert(hs.drop_first()[j - 1] == hs[j]);
            }
        }
    }
}

pub proof fn lemma_find_key_at(hs: Seq<(Seq<char>, Seq<char>)>, k: Seq<char>, j: int)
    requires
        0 <= j <= hs.len(),
        forall|m: int| 0 <= m < j ==> (#[trigger] hs[m]).0 != k,
        j == hs.len() || hs[j].0 == k,
    ensures
        find_key(hs, k) == j,
    decreases j,
{
    if j > 0 {
        lemma_find_key_at(hs.drop_first(), k, j - 1);
    }
}

/// Inserting `k -> v`: overwrite the entry holding `k`, else append.
pub open spec fn spec_upsert(
    hs: Seq<(Seq<char>, Seq<char>)>,
    k: Seq<char>,
    v: Seq<char>,
) -> Seq<(Seq<char>, Seq<char>)> {
    let i = find_key(hs, k);
    if i < hs.len() {
        hs.update(i, (k, v))
    } else {
        hs.push((k, v))
    }
}

pub proof fn lemma_upsert_distinct(hs: Seq<(Seq<char>, Seq<char>)>, k: Seq<char>, v: Seq<char>)
    requires
        headers_distinct(hs),
    ensures
        headers_distinct(spec_upsert(hs, k, v)),
{
    lemma_find_key_bounds(hs, k);
    let i = find_key(hs, k);
    let r = spec_upsert(hs, k, v);
    if i < hs.len() {
        assert(hs[i].0 == k);
        assert forall|a: int, b: int| 0 <= a < b < r.len() implies (#[trigger] r[a]).0 != (
        #[trigger] r[b]).0 by {
            assert(r[a].0 == if a == i {
                k
            } else {
                hs[a].0
            });
            assert(r[b].0 == if b == i {
                k
            } else {
                hs[b].0
            });
        }
    } else {
        assert forall|a: int, b: int| 0 <= a < b < r.len() implies (#[trigger] r[a]).0 != (
        #[trigger] r[b]).0 by {
            if b < hs.len() {
            } else {
                assert(r[b].0 == k);
                assert(r[a].0 == hs[a].0);
            }
        }
    }
}

fn upsert_header(hs: &mut Vec<(String, String)>, k: String, v: String)
    ensures
        final(hs).deep_view() == spec_upsert(old(hs).deep_view(), k@, v@),
{
    let ghost dv = hs.deep_view();
    let n = hs.len();
    let mut i: usize = 0;
    while i < n
        invariant
            i <= n,
            n == hs.len(),
            dv == hs.deep_view(),
            dv == old(hs).deep_view(),
            forall|j: int| 0 <= j < i ==> (#[trigger] dv[j]).0 != k@,
        decreases n - i,
    {
        if str_eq_str(hs[i].0.as_str(), k.as_str()) {
            proof {
                assert(dv[i as int].0 == hs@[i as int].0@);
                lemma_find_key_at(dv, k@, i as int);
            }
            let ghost kv = k@;
            let ghost vv = v@;
            let ghost pre = hs@;
            hs[i] = (k, v);
            proof {
                assert(hs@ == pre.update(i as int, hs@[i as int]));
                assert(hs@[i as int].deep_view() == (kv, vv));
                assert(hs.deep_view() =~= dv.update(i as int, (kv, vv)));
            }
            return ;
        }
        i += 1;
    }
    proof {
        lemma_find_key_at(dv, k@, n as int);
    }
    hs.push((k, v));
    proof {
        assert(hs.deep_view() =~= dv.push((k@, v@)));
    }
}

// ---------------------------------------------------------------------------
// Parsing
// ---------------------------------------------------------------------------

/// The parser's running state.
#[verifier::ext_equal]
pub struct PState {
    pub in_header: bool,
    pub headers: Seq<(Seq<char>, Seq<char>)>,
    pub qsos: Seq<QsoV>,
}

pub open spec fn init_state() -> PState {
    PState { in_header: true, headers: Seq::empty(), qsos: Seq::empty() }
}

/// One line of input applied to the parser state.  Blank, comment and
/// marker lines are skipped; a `QSO:` line ends the header section and
/// yields a contact; an `X-QSO:` line ends it yielding nothing; other lines
/// are header entries while the header section lasts and are dropped after.
pub open spec fn step_line(st: PState, raw: Seq<char>) -> Result<PState, CabrilloErrorV> {
    let l = spec_trim(raw);
    if l.len() == 0 || l[0] == '#' {
        Ok(st)
    } else if "START-OF-LOG:"@.is_prefix_of(l) || "END-OF-LOG:"@.is_prefix_of(l) {
        Ok(st)
    } else if st.in_header {
        if "QSO:"@.is_prefix_of(l) {
            match spec_parse_qso_line(l) {
                Ok(q) => Ok(PState { in_header: false, headers: st.headers, qsos: st.qsos.push(q) }),
                Err(e) => Err(e),
            }
        } else if "X-QSO:"@.is_prefix_of(l) {
            Ok(PState { in_header: false, headers: st.headers, qsos: st.qsos })
        } else if upto_char(l, ':') < l.len() {
            let ci = upto_char(l, ':') as int;
            let k = spec_trim(l.take(ci));
            let v = spec_trim(l.skip(ci + 1));
            Ok(PState { in_header: true, headers: spec_upsert(st.headers, k, v), qsos: st.qsos })
        } else {
            Ok(st)
        }
    } else {
        if "QSO:"@.is_prefix_of(l) {
            match spec_parse_qso_line(l) {
                Ok(q) => Ok(PState { in_header: false, headers: st.headers, qsos: st.qsos.push(q) }),
                Err(e) => Err(e),
            }
        } else {
            Ok(st)
        }
    }
}

/// The parser state after a sequence of lines, or its first error.
pub open spec fn run_lines(st: PState, ls: Seq<Seq<char>>) -> Result<PState, CabrilloErrorV>
    decreases ls.len(),
{
    if ls.len() == 0 {
        Ok(st)
    } else {
        match step_line(st, ls[0]) {
            Ok(st2) => run_lines(st2, ls.drop_first()),
            Err(e) => Err(e),
        }
    }
}

/// Parsing a whole text: its lines folded over the initial state.
pub open spec fn spec_parse(text: Seq<char>) -> Result<LogV, CabrilloErrorV> {
    match run_lines(init_state(), spec_lines(text)) {
        Ok(st) => Ok(LogV { headers: st.headers, qsos: st.qsos }),
        Err(e) => Err(e),
    }
}

pub open spec fn log_res_view(r: Result<CabrilloLog, CabrilloError>) -> Result<
    LogV,
    CabrilloErrorV,
> {
    match r {
        Ok(l) => Ok(l@),
        Err(e) => Err(e@),
    }
}

impl CabrilloLog {
    /// Parses a Cabrillo text; all-or-nothing, the first malformed contact
    /// line aborts the whole parse.
    pub fn parse(content: &str) -> (r: Result<CabrilloLog, CabrilloError>)
        ensures
            log_res_view(r) == spec_parse(content@),
            r is Ok ==> log_wf(r->Ok_0@),
    {
        let lines = split_lines(content);
        let ghost lv = lines.deep_view();
        let mut headers: Vec<(String, String)> = Vec::new();
        let mut qsos: Vec<QSO> = Vec::new();
        let mut in_header = true;
        let mut i: usize = 0;
        let n = lines.len();
        proof {
            assert(headers.deep_view() =~= Seq::<(Seq<char>, Seq<char>)>::empty());
            assert(qsos.deep_view() =~= Seq::<QsoV>::empty());
            assert(PState {
                in_header: in_header,
                headers: headers.deep_view(),
                qsos: qsos.deep_view(),
            } =~= init_state());
            assert(lv.skip(0) =~= lv);
        }
        while i < n
            invariant
                i <= n,
                n == lines.len(),
                lv == lines.deep_view(),
                lv == spec_lines(content@),
                headers_distinct(headers.deep_view()),
                forall|j: int|
                    0 <= j < qsos.deep_view().len() ==> date_wf(
                        (#[trigger] qsos.deep_view()[j]).date,
                    ) && time_wf(qsos.deep_view()[j].time),
                run_lines(init_state(), lv) == run_lines(
                    PState {
                        in_header: in_header,
                        headers: headers.deep_view(),
                        qsos: qsos.deep_view(),
                    },
                    lv.skip(i as int),
                ),
            decreases n - i,
        {
            let ghost st0 = PState {
                in_header: in_header,
                headers: headers.deep_view(),
                qsos: qsos.deep_view(),
            };
            proof {
                assert(lines@[i as int]@ == lv[i as int]);
                assert(lv.skip(i as int)[0] == lv[i as int]);
                assert(lv.skip(i as int).drop_first() =~= lv.skip(i as int + 1));
            }
            let line = trim(lines[i].as_str());
            let ln = line.unicode_len();
            let ghost l = spec_trim(lv[i as int]);
            if ln == 0 || line.get_char(0) == '#' {
                // skipped: blank or comment
                proof {
                    assert(step_line(st0, lv[i as int]) == Ok::<PState, CabrilloErrorV>(st0));
                }
            } else if str_starts_with(line, "START-OF-LOG:") || str_starts_with(
                line,
                "END-OF-LOG:",
            ) {
                // skipped: markers
                proof {
                    assert(step_line(st0, lv[i as int]) == Ok::<PState, CabrilloErrorV>(st0));
                }
            } else if str_starts_with(line, "QSO:") {
                in_header = false;
                match parse_qso_line(line) {
                    Ok(q) => {
                        let ghost qv = q@;
                        qsos.push(q);
                        proof {
                            assert(qsos.deep_view() =~= st0.qsos.push(qv));
                            assert(step_line(st0, lv[i as int]) == Ok::<PState, CabrilloErrorV>(
                                PState {
                                    in_header: false,
                                    headers: headers.deep_view(),
                                    qsos: qsos.deep_view(),
                                },
                            ));
                        }
                    },
                    Err(e) => {
                        proof {
                            assert(step_line(st0, lv[i as int]) == Err::<PState, CabrilloErrorV>(
                                e@,
                            ));
                            assert(run_lines(init_state(), lv) == Err::<PState, CabrilloErrorV>(
                                e@,
                            ));
                        }
                        return Err(e);
                    },
                }
            } else if in_header {
                if str_starts_with(line, "X-QSO:") {
                    in_header = false;
                    proof {
                        assert(step_line(st0, lv[i as int]) == Ok::<PState, CabrilloErrorV>(
                            PState {
                                in_header: false,
                                headers: headers.deep_view(),
                                qsos: qsos.deep_view(),
                            },
                        ));
                    }
                } else {
                    let ci = find_char(line, ':');
                    if ci < ln {
                        let key = trim(line.substring_char(0, ci)).to_owned();
                        let val = trim(line.substring_char(ci + 1, ln)).to_owned();
                        let ghost hs0 = headers.deep_view();
                        proof {
                            assert(line@.subrange(0, ci as int) =~= l.take(ci as int));
                            assert(line@.subrange(ci as int + 1, ln as int) =~= l.skip(
                                ci as int + 1,
                            ));
                            lemma_upsert_distinct(hs0, key@, val@);
                        }
                        upsert_header(&mut headers, key, val);
                        proof {
                            assert(step_line(st0, lv[i as int]) == Ok::<PState, CabrilloErrorV>(
                                PState {
                                    in_header: true,
                                    headers: headers.deep_view(),
                                    qsos: qsos.deep_view(),
                                },
                            ));
                        }
                    } else {
                        // a header-section line without a colon is dropped
                        proof {
                            assert(step_line(st0, lv[i as int]) == Ok::<PState, CabrilloErrorV>(
                                st0,
                            ));
                        }
                    }
                }
            } else {
                // after the first contact line, only QSO: lines matter
                proof {
                    assert(step_line(st0, lv[i as int]) == Ok::<PState, CabrilloErrorV>(st0));
                }
            }
            i += 1;
        }
        proof {
            assert(lv.skip(n as int) =~= Seq::<Seq<char>>::empty());
        }
        let log = CabrilloLog { headers, qsos };
        proof {
            assert(log@ =~= LogV { headers: log.headers.deep_view(), qsos: log.qsos.deep_view() });
        }
        Ok(log)
    }
}

// ---------------------------------------------------------------------------
// Key order and header sorting
// ---------------------------------------------------------------------------

/// Lexicographic order on character sequences by code point.
pub open spec fn str_le(a: Seq<char>, b: Seq<char>) -> bool
    decreases a.len(),
{
    if a.len() == 0 {
        true
    } else if b.len() == 0 {
        false
    } else if a[0] == b[0] {
        str_le(a.drop_first(), b.drop_first())
    } else {
        (a[0] as u32) < (b[0] as u32)
    }
}

proof fn lemma_str_le_skip(a: Seq<char>, b: Seq<char>, i: int)
    requires
        0 <= i <= a.len(),
        i <= b.len(),
        forall|j: int| 0 <= j < i ==> a[j] == b[j],
    ensures
        str_le(a, b) == str_le(a.skip(i), b.skip(i)),
    decreases i,
{
    if i == 0 {
        assert(a.skip(0) =~= a);
        assert(b.skip(0) =~= b);
    } else {
        assert(a[0] == b[0]);
        lemma_str_le_skip(a.drop_first(), b.drop_first(), i - 1);
        assert(a.drop_first().skip(i - 1) =~= a.skip(i));
        assert(b.drop_first().skip(i - 1) =~= b.skip(i));
    }
}

/// Whether `a` precedes `b` (or equals it) in lexicographic order.
pub fn str_le_x(a: &str, b: &str) -> (r: bool)
    ensures
        r == str_le(a@, b@),
{
    let na = a.unicode_len();
    let nb = b.unicode_len();
    let mut i: usize = 0;
    while i < na && i < nb && a.get_char(i) == b.get_char(i)
        invariant
            i <= na,
            i <= nb,
            na == a@.len(),
            nb == b@.len(),
            forall|j: int| 0 <= j < i ==> a@[j] == b@[j],
        decreases na - i,
    {
        i += 1;
    }
    proof {
        lemma_str_le_skip(a@, b@, i as int);
        if i < na {
            assert(a@.skip(i as int)[0] == a@[i as int]);
        }
        if i < nb {
            assert(b@.skip(i as int)[0] == b@[i as int]);
        }
    }
    if i == na {
        true
    } else if i == nb {
        false
    } else {
        (a.get_char(i) as u32) < (b.get_char(i) as u32)
    }
}

/// `x` placed before the first entry whose key does not precede it.
pub open spec fn spec_insert_hdr(
    x: (Seq<char>, Seq<char>),
    s: Seq<(Seq<char>, Seq<char>)>,
) -> Seq<(Seq<char>, Seq<char>)>
    decreases s.len(),
{
    if s.len() == 0 {
        seq![x]
    } else if str_le(x.0, s[0].0) {
        seq![x] + s
    } else {
        seq![s[0]] + spec_insert_hdr(x, s.drop_first())
    }
}

/// Insertion sort of header entries by key.
pub open spec fn spec_sort_hdrs(s: Seq<(Seq<char>, Seq<char>)>) -> Seq<(Seq<char>, Seq<char>)>
    decreases s.len(),
{
    if s.len() == 0 {
        s
    } else {
        spec_insert_hdr(s[0], spec_sort_hdrs(s.drop_first()))
    }
}

proof fn lemma_insert_hdr_at(
    x: (Seq<char>, Seq<char>),
    s: Seq<(Seq<char>, Seq<char>)>,
    j: int,
)
    requires
        0 <= j <= s.len(),
        forall|m: int| 0 <= m < j ==> !str_le(x.0, (#[trigger] s[m]).0),
        j == s.len() || str_le(x.0, s[j].0),
    ensures
        spec_insert_hdr(x, s) == s.take(j) + seq![x] + s.skip(j),
    decreases j,
{
    if j == 0 {
        if s.len() == 0 {
            assert(spec_insert_hdr(x, s) =~= s.take(0) + seq![x] + s.skip(0));
        } else {
            assert(str_le(x.0, s[0].0));
            assert(seq![x] + s =~= s.take(0) + seq![x] + s.skip(0));
        }
    } else {
        assert(!str_le(x.0, s[0].0));
        lemma_insert_hdr_at(x, s.drop_first(), j - 1);
        assert(s.drop_first().take(j - 1) =~= s.take(j).drop_first());
        assert(seq![s[0]] + (s.drop_first().take(j - 1) + seq![x] + s.drop_first().skip(j - 1))
            =~= s.take(j) + seq![x] + s.skip(j));
    }
}

/// Keys appear in lexicographic order.
pub open spec fn hdrs_sorted(s: Seq<(Seq<char>, Seq<char>)>) -> bool {
    forall|i: int, j: int| 0 <= i < j < s.len() ==> str_le((#[trigger] s[i]).0, (#[trigger] s[j]).0)
}

/// The key order is total.
pub proof fn lemma_str_le_total(a: Seq<char>, b: Seq<char>)
    ensures
        str_le(a, b) || str_le(b, a),
    decreases a.len(),
{
    if a.len() > 0 && b.len() > 0 {
        if a[0] == b[0] {
            lemma_str_le_total(a.drop_first(), b.drop_first());
        } else {
            assert(a[0] as u32 != b[0] as u32) by {
                vstd::utf8::char_u32_cast(a[0], a[0] as u32);
                vstd::utf8::char_u32_cast(b[0], b[0] as u32);
            }
        }
    }
}

/// The key order is transitive.
pub proof fn lemma_str_le_trans(a: Seq<char>, b: Seq<char>, c: Seq<char>)
    requires
        str_le(a, b),
        str_le(b, c),
    ensures
        str_le(a, c),
    decreases a.len(),
{
    if a.len() > 0 && b.len() > 0 && c.len() > 0 {
        if a[0] == b[0] && b[0] == c[0] {
            lemma_str_le_trans(a.drop_first(), b.drop_first(), c.drop_first());
        }
    }
}

proof fn lemma_insert_hdr_sorted(x: (Seq<char>, Seq<char>), s: Seq<(Seq<char>, Seq<char>)>)
    requires
        hdrs_sorted(s),
    ensures
        hdrs_sorted(spec_insert_hdr(x, s)),
    decreases s.len(),
{
    let r = spec_insert_hdr(x, s);
    if s.len() == 0 {
    } else if str_le(x.0, s[0].0) {
        assert forall|i: int, j: int| 0 <= i < j < r.len() implies str_le(
            (#[trigger] r[i]).0,
            (#[trigger] r[j]).0,
        ) by {
            if i == 0 {
                assert(r[j] == s[j - 1]);
                if j > 1 {
                    lemma_str_le_trans(x.0, s[0].0, s[j - 1].0);
                }
            } else {
                assert(r[i] == s[i - 1] && r[j] == s[j - 1]);
            }
        }
    } else {
        let rest = s.drop_first();
        assert(hdrs_sorted(rest)) by {
            assert forall|i: int, j: int| 0 <= i < j < rest.len() implies str_le(
                (#[trigger] rest[i]).0,
                (#[trigger] rest[j]).0,
            ) by {
                assert(rest[i] == s[i + 1] && rest[j] == s[j + 1]);
            }
        }
        lemma_insert_hdr_sorted(x, rest);
        let inner = spec_insert_hdr(x, rest);
        lemma_str_le_total(x.0, s[0].0);
        // the head precedes everything inserted behind it
        assert forall|m: int| 0 <= m < inner.len() implies str_le(s[0].0, (#[trigger] inner[m]).0)
            by {
            lemma_insert_hdr_le(x, rest, s[0].0, m);
        }
        assert forall|i: int, j: int| 0 <= i < j < r.len() implies str_le(
            (#[trigger] r[i]).0,
            (#[trigger] r[j]).0,
        ) by {
            if i == 0 {
                assert(r[j] == inner[j - 1]);
            } else {
                assert(r[i] == inner[i - 1] && r[j] == inner[j - 1]);
            }
        }
    }
}

proof fn lemma_insert_hdr_le(
    x: (Seq<char>, Seq<char>),
    s: Seq<(Seq<char>, Seq<char>)>,
    lo: Seq<char>,
    m: int,
)
    requires
        str_le(lo, x.0),
        forall|i: int| 0 <= i < s.len() ==> str_le(lo, (#[trigger] s[i]).0),
        0 <= m < spec_insert_hdr(x, s).len(),
    ensures
        str_le(lo, spec_insert_hdr(x, s)[m].0),
    decreases s.len(),
{
    let r = spec_insert_hdr(x, s);
    if s.len() == 0 {
        assert(r[m] == x);
    } else if str_le(x.0, s[0].0) {
        if m > 0 {
            assert(r[m] == s[m - 1]);
        }
    } else {
        if m == 0 {
            assert(r[0] == s[0]);
        } else {
            assert(r[m] == spec_insert_hdr(x, s.drop_first())[m - 1]);
            assert forall|i: int| 0 <= i < s.drop_first().len() implies str_le(
                lo,
                (#[trigger] s.drop_first()[i]).0,
            ) by {
                assert(s.drop_first()[i] == s[i + 1]);
            }
            lemma_insert_hdr_le(x, s.drop_first(), lo, m - 1);
        }
    }
}

/// The serialized header section is sorted by key.
pub proof fn lemma_sort_hdrs_sorted(s: Seq<(Seq<char>, Seq<char>)>)
    ensures
        hdrs_sorted(spec_sort_hdrs(s)),
    decreases s.len(),
{
    if s.len() > 0 {
        lemma_sort_hdrs_sorted(s.drop_first());
        lemma_insert_hdr_sorted(s[0], spec_sort_hdrs(s.drop_first()));
    }
}

/// The header entries sorted by key.
fn sort_headers(hs: &Vec<(String, String)>) -> (r: Vec<(String, String)>)
    ensures
        r.deep_view() == spec_sort_hdrs(hs.deep_view()),
{
    let n = hs.len();
    let mut r: Vec<(String, String)> = Vec::new();
    let mut i = n;
    proof {
        assert(hs.deep_view().skip(n as int) =~= Seq::<(Seq<char>, Seq<char>)>::empty());
        assert(r.deep_view() =~= spec_sort_hdrs(hs.deep_view().skip(n as int)));
    }
    while i > 0
        invariant
            i <= n,
            n == hs.len(),
            r.deep_view() == spec_sort_hdrs(hs.deep_view().skip(i as int)),
        decreases i,
    {
        i -= 1;
        let ghost hv = hs.deep_view();
        let ghost rv = r.deep_view();
        let ghost x = hv[i as int];
        let rn = r.len();
        let mut j: usize = 0;
        while j < rn && !str_le_x(hs[i].0.as_str(), r[j].0.as_str())
            invariant
                j <= rn,
                rn == r.len(),
                i < n,
                n == hs.len(),
                hv == hs.deep_view(),
                rv == r.deep_view(),
                x == hv[i as int],
                forall|m: int| 0 <= m < j ==> !str_le(x.0, (#[trigger] rv[m]).0),
            decreases rn - j,
        {
            j += 1;
        }
        proof {
            lemma_insert_hdr_at(x, rv, j as int);
        }
        r.insert(j, (hs[i].0.clone(), hs[i].1.clone()));
        proof {
            assert(r.deep_view() =~= rv.take(j as int) + seq![x] + rv.skip(j as int));
            assert(hv.skip(i as int)[0] == x);
            assert(hv.skip(i as int).drop_first() =~= hv.skip(i as int + 1));
            assert(r.deep_view() == spec_sort_hdrs(hv.skip(i as int)));
        }
    }
    proof {
        assert(hs.deep_view().skip(0) =~= hs.deep_view());
    }
    r
}

// ---------------------------------------------------------------------------
// Serialization
// ---------------------------------------------------------------------------

/// One header line, `KEY: value`, newline included.
pub open spec fn spec_render_header(h: (Seq<char>, Seq<char>)) -> Seq<char> {
    h.0 + ": "@ + h.1 + "\n"@
}

pub open spec fn spec_render_headers(hs: Seq<(Seq<char>, Seq<char>)>) -> Seq<char>
    decreases hs.len(),
{
    if hs.len() == 0 {
        Seq::empty()
    } else {
        spec_render_header(hs[0]) + spec_render_headers(hs.drop_first())
    }
}

pub proof fn lemma_render_headers_push(hs: Seq<(Seq<char>, Seq<char>)>, h: (Seq<char>, Seq<char>))
    ensures
        spec_render_headers(hs.push(h)) == spec_render_headers(hs) + spec_render_header(h),
    decreases hs.len(),
{
    let p = hs.push(h);
    if hs.len() == 0 {
        assert(p[0] == h);
        assert(p.drop_first() =~= Seq::<(Seq<char>, Seq<char>)>::empty());
        assert(spec_render_headers(p.drop_first()) == Seq::<char>::empty());
        assert(spec_render_headers(p) == spec_render_header(h) + Seq::<char>::empty());
        assert(spec_render_header(h) + Seq::<char>::empty() =~= Seq::<char>::empty()
            + spec_render_header(h));
    } else {
        assert(p[0] == hs[0]);
        assert(p.drop_first() =~= hs.drop_first().push(h));
        lemma_render_headers_push(hs.drop_first(), h);
        vstd::seq_lib::lemma_concat_associative(
            spec_render_header(hs[0]),
            spec_render_headers(hs.drop_first()),
            spec_render_header(h),
        );
    }
}

pub open spec fn spec_render_qsos(qs: Seq<QsoV>) -> Seq<char>
    decreases qs.len(),
{
    if qs.len() == 0 {
        Seq::empty()
    } else {
        spec_render_qso(qs[0]) + spec_render_qsos(qs.drop_first())
    }
}

pub proof fn lemma_render_qsos_push(qs: Seq<QsoV>, q: QsoV)
    ensures
        spec_render_qsos(qs.push(q)) == spec_render_qsos(qs) + spec_render_qso(q),
    decreases qs.len(),
{
    let p = qs.push(q);
    if qs.len() == 0 {
        assert(p[0] == q);
        assert(p.drop_first() =~= Seq::<QsoV>::empty());
        assert(spec_render_qsos(p.drop_first()) == Seq::<char>::empty());
        assert(spec_render_qsos(p) == spec_render_qso(q) + Seq::<char>::empty());
        assert(spec_render_qso(q) + Seq::<char>::empty() =~= Seq::<char>::empty() + spec_render_qso(
            q,
        ));
    } else {
        assert(p[0] == qs[0]);
        assert(p.drop_first() =~= qs.drop_first().push(q));
        lemma_render_qsos_push(qs.drop_first(), q);
        vstd::seq_lib::lemma_concat_associative(
            spec_render_qso(qs[0]),
            spec_render_qsos(qs.drop_first()),
            spec_render_qso(q),
        );
    }
}

/// The canonical text of a log: the version marker, the header lines sorted
/// by key, the contact lines in stored order, the end marker.
pub open spec fn spec_serialize(l: LogV) -> Seq<char> {
    "START-OF-LOG: 3.0\n"@ + spec_render_headers(spec_sort_hdrs(l.headers)) + spec_render_qsos(
        l.qsos,
    ) + "END-OF-LOG:\n"@
}

/// Calendar and clock validity of every contact, what rendering needs.
pub open spec fn times_wf(l: LogV) -> bool {
    forall|i: int|
        0 <= i < l.qsos.len() ==> date_wf((#[trigger] l.qsos[i]).date) && time_wf(l.qsos[i].time)
}

// ---------------------------------------------------------------------------
// Validation
// ---------------------------------------------------------------------------

/// Validation is a pure function of the log value alone: any two runs on
/// equal logs report the same result, so validating twice changes nothing.
pub proof fn lemma_validate_deterministic(
    l1: LogV,
    l2: LogV,
    r1: Result<(), CabrilloErrorV>,
    r2: Result<(), CabrilloErrorV>,
)
    requires
        l1 == l2,
        r1 == spec_validate(l1),
        r2 == spec_validate(l2),
    ensures
        r1 == r2,
{
}

/// The first invalid contact's error, in stored order.
pub open spec fn spec_validate_seq(qs: Seq<QsoV>) -> Result<(), CabrilloErrorV>
    decreases qs.len(),
{
    if qs.len() == 0 {
        Ok(())
    } else {
        match spec_validate_qso(qs[0]) {
            Ok(u) => spec_validate_seq(qs.drop_first()),
            Err(e) => Err(e),
        }
    }
}

/// What validation of a whole log reports.
pub open spec fn spec_validate(l: LogV) -> Result<(), CabrilloErrorV> {
    spec_validate_seq(l.qsos)
}

impl CabrilloLog {
    /// Checks every contact in order and stops at the first violation.
    pub fn validate(&self) -> (r: Result<(), CabrilloError>)
        ensures
            unit_res_view(r) == spec_validate(self@),
    {
        let ghost qv = self.qsos.deep_view();
        let n = self.qsos.len();
        let mut i: usize = 0;
        proof {
            assert(qv.skip(0) =~= qv);
        }
        while i < n
            invariant
                i <= n,
                n == self.qsos.len(),
                qv == self.qsos.deep_view(),
                spec_validate_seq(qv) == spec_validate_seq(qv.skip(i as int)),
            decreases n - i,
        {
            proof {
                assert(qv.skip(i as int)[0] == qv[i as int]);
                assert(qv.skip(i as int).drop_first() =~= qv.skip(i as int + 1));
            }
            if let Err(e) = validate_qso(&self.qsos[i]) {
                return Err(e);
            }
            i += 1;
        }
        proof {
            assert(qv.skip(n as int) =~= Seq::<QsoV>::empty());
        }
        Ok(())
    }

    /// Whether every contact's date and time are valid, the condition
    /// rendering needs; true of every parsed log.
    pub fn times_ok(&self) -> (r: bool)
        ensures
            r == times_wf(self@),
    {
        let ghost qv = self.qsos.deep_view();
        let n = self.qsos.len();
        let mut i: usize = 0;
        while i < n
            invariant
                i <= n,
                n == self.qsos.len(),
                qv == self.qsos.deep_view(),
                forall|j: int|
                    0 <= j < i ==> date_wf((#[trigger] qv[j]).date) && time_wf(qv[j].time),
            decreases n - i,
        {
            if !(crate::date::date_ok(&self.qsos[i].date) && crate::date::time_ok(
                &self.qsos[i].time,
            )) {
                proof {
                    assert(self@.qsos == qv);
                    assert(qv[i as int] == self.qsos@[i as int]@);
                    assert(!(date_wf(qv[i as int].date) && time_wf(qv[i as int].time)));
                }
                return false;
            }
            i += 1;
        }
        true
    }

    /// Renders the log in canonical form.
    pub fn serialize(&self) -> (r: String)
        requires
            times_wf(self@),
        ensures
            r@ == spec_serialize(self@),
    {
        let mut out = String::new();
        out.append("START-OF-LOG: 3.0\n");
        let sorted = sort_headers(&self.headers);
        let ghost sv = sorted.deep_view();
        let sn = sorted.len();
        let mut i: usize = 0;
        proof {
            assert(sv.take(0) =~= Seq::<(Seq<char>, Seq<char>)>::empty());
            assert(out@ =~= "START-OF-LOG: 3.0\n"@ + spec_render_headers(sv.take(0)));
        }
        while i < sn
            invariant
                i <= sn,
                sn == sorted.len(),
                sv == sorted.deep_view(),
                out@ == "START-OF-LOG: 3.0\n"@ + spec_render_headers(sv.take(i as int)),
            decreases sn - i,
        {
            let ghost pre = out@;
            out.append(sorted[i].0.as_str());
            out.append(": ");
            out.append(sorted[i].1.as_str());
            out.append("\n");
            proof {
                assert(out@ =~= pre + spec_render_header(sv[i as int]));
                assert(sv.take(i as int + 1) =~= sv.take(i as int).push(sv[i as int]));
                lemma_render_headers_push(sv.take(i as int), sv[i as int]);
                assert(out@ =~= "START-OF-LOG: 3.0\n"@ + spec_render_headers(
                    sv.take(i as int + 1),
                ));
            }
            i += 1;
        }
        proof {
            assert(sv.take(sn as int) =~= sv);
        }
        let ghost qv = self.qsos.deep_view();
        let qn = self.qsos.len();
        let mut j: usize = 0;
        proof {
            assert(qv.take(0) =~= Seq::<QsoV>::empty());
            assert(out@ + spec_render_qsos(qv.take(0)) =~= out@);
        }
        while j < qn
            invariant
                j <= qn,
                qn == self.qsos.len(),
                qv == self.qsos.deep_view(),
                times_wf(self@),
                qv == self@.qsos,
                out@ == "START-OF-LOG: 3.0\n"@ + spec_render_headers(spec_sort_hdrs(
                    self@.headers,
                )) + spec_render_qsos(qv.take(j as int)),
            decreases qn - j,
        {
            let ghost pre = out@;
            append_qso_line(&mut out, &self.qsos[j]);
            proof {
                assert(out@ == pre + spec_render_qso(qv[j as int]));
                assert(qv.take(j as int + 1) =~= qv.take(j as int).push(qv[j as int]));
                lemma_render_qsos_push(qv.take(j as int), qv[j as int]);
                assert(out@ =~= "START-OF-LOG: 3.0\n"@ + spec_render_headers(spec_sort_hdrs(
                    self@.headers,
                )) + spec_render_qsos(qv.take(j as int + 1)));
            }
            j += 1;
        }
        proof {
            assert(qv.take(qn as int) =~= qv);
        }
        out.append("END-OF-LOG:\n");
        proof {
            assert(out@ =~= spec_serialize(self@));
        }
        out
    }
}

// ---------------------------------------------------------------------------
// Header lookup
// ---------------------------------------------------------------------------

pub proof fn lemma_headers_map_at(hs: Seq<(Seq<char>, Seq<char>)>, k: Seq<char>, j: int)
    requires
        0 <= j < hs.len(),
        hs[j].0 == k,
        forall|m: int| j < m < hs.len() ==> (#[trigger] hs[m]).0 != k,
    ensures
        headers_map(hs).contains_key(k),
        headers_map(hs)[k] == hs[j].1,
    decreases hs.len(),
{
    if j == hs.len() - 1 {
    } else {
        assert(hs.last().0 != k);
        lemma_headers_map_at(hs.drop_last(), k, j);
        assert(hs.drop_last()[j] == hs[j]);
    }
}

pub proof fn lemma_headers_map_absent(hs: Seq<(Seq<char>, Seq<char>)>, k: Seq<char>)
    requires
        forall|m: int| 0 <= m < hs.len() ==> (#[trigger] hs[m]).0 != k,
    ensures
        !headers_map(hs).contains_key(k),
    decreases hs.len(),
{
    if hs.len() > 0 {
        lemma_headers_map_absent(hs.drop_last(), k);
    }
}

impl CabrilloLog {
    /// The value stored for a header key, if any; a later entry for the
    /// same key shadows an earlier one.
    pub fn get_header(&self, key: &str) -> (r: Option<&String>)
        ensures
            match r {
                Some(v) => headers_map(self@.headers).contains_key(key@) && headers_map(
                    self@.headers,
                )[key@] == v@,
                None => !headers_map(self@.headers).contains_key(key@),
            },
    {
        let ghost hv = self.headers.deep_view();
        let n = self.headers.len();
        let mut i = n;
        while i > 0
            invariant
                i <= n,
                n == self.headers.len(),
                hv == self.headers.deep_view(),
                forall|m: int| i <= m < n ==> (#[trigger] hv[m]).0 != key@,
            decreases i,
        {
            i -= 1;
            if str_eq_str(self.headers[i].0.as_str(), key) {
                proof {
                    lemma_headers_map_at(hv, key@, i as int);
                }
                return Some(&self.headers[i].1);
            }
        }
        proof {
            lemma_headers_map_absent(hv, key@);
        }
        None
    }
}

} // verus!
