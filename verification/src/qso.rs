//! A single contact record: the token-level checks, the contact-line
//! reading with its exchange/callsign boundary scan, validation, and the
//! fixed-width canonical rendering.

use vstd::prelude::*;

use crate::date::{
    Date,
    Time,
    date_wf,
    time_wf,
    spec_parse_date,
    spec_parse_time,
    parse_date,
    parse_time,
    spec_fmt_date,
    spec_fmt_time,
    append_date,
    append_time,
};
use crate::text::{
    is_ascii_char,
    is_digit_char,
    is_alpha_char,
    is_ascii_c,
    is_digit_c,
    is_alpha_c,
    digits_len,
    lemma_digits_len_at,
    str_eq_str,
    spec_tokens,
    spec_join,
    spec_pad,
    split_ws,
    join_range,
    append_padded,
};

verus! {

// ---------------------------------------------------------------------------
// Errors
// ---------------------------------------------------------------------------

/// Errors raised while reading or validating a log.
#[derive(Debug, Clone, PartialEq)]
pub enum CabrilloError {
    InvalidFormat(String),
    MissingRequiredField(String),
    InvalidDate(String),
    InvalidTime(String),
    InvalidCallsign(String),
    ParseError(String),
}

/// The mathematical shadow of [`CabrilloError`].
#[verifier::ext_equal]
pub enum CabrilloErrorV {
    InvalidFormat(Seq<char>),
    MissingRequiredField(Seq<char>),
    InvalidDate(Seq<char>),
    InvalidTime(Seq<char>),
    InvalidCallsign(Seq<char>),
    ParseError(Seq<char>),
}

impl View for CabrilloError {
    type V = CabrilloErrorV;

    open spec fn view(&self) -> CabrilloErrorV {
        match self {
            CabrilloError::InvalidFormat(m) => CabrilloErrorV::InvalidFormat(m@),
            CabrilloError::MissingRequiredField(m) => CabrilloErrorV::MissingRequiredField(m@),
            CabrilloError::InvalidDate(m) => CabrilloErrorV::InvalidDate(m@),
            CabrilloError::InvalidTime(m) => CabrilloErrorV::InvalidTime(m@),
            CabrilloError::InvalidCallsign(m) => CabrilloErrorV::InvalidCallsign(m@),
            CabrilloError::ParseError(m) => CabrilloErrorV::ParseError(m@),
        }
    }
}

impl CabrilloError {
    /// A readable rendering of the error, in place of `Display`.
    pub fn message(&self) -> (r: String)
        ensures
            r@ == spec_error_message(self@),
    {
        let (head, payload): (&str, &String) = match self {
            CabrilloError::InvalidFormat(m) => ("Invalid format: ", m),
            CabrilloError::MissingRequiredField(m) => ("Missing required field: ", m),
            CabrilloError::InvalidDate(m) => ("Invalid date: ", m),
            CabrilloError::InvalidTime(m) => ("Invalid time: ", m),
            CabrilloError::InvalidCallsign(m) => ("Invalid callsign: ", m),
            CabrilloError::ParseError(m) => ("Parse error: ", m),
        };
        let mut r = head.to_owned();
        r.append(payload.as_str());
        r
    }
}

pub open spec fn spec_error_message(e: CabrilloErrorV) -> Seq<char> {
    match e {
        CabrilloErrorV::InvalidFormat(m) => "Invalid format: "@ + m,
        CabrilloErrorV::MissingRequiredField(m) => "Missing required field: "@ + m,
        CabrilloErrorV::InvalidDate(m) => "Invalid date: "@ + m,
        CabrilloErrorV::InvalidTime(m) => "Invalid time: "@ + m,
        CabrilloErrorV::InvalidCallsign(m) => "Invalid callsign: "@ + m,
        CabrilloErrorV::ParseError(m) => "Parse error: "@ + m,
    }
}

// ---------------------------------------------------------------------------
// The contact record
// ---------------------------------------------------------------------------

/// One contact (QSO) of a Cabrillo log.
#[derive(Debug, Clone, PartialEq)]
pub struct QSO {
    pub freq: String,
    pub mode: String,
    pub date: Date,
    pub time: Time,
    pub sent_call: String,
    pub sent_rst_exch: String,
    pub rcvd_call: String,
    pub rcvd_rst_exch: String,
    pub tx: Option<String>,
}

/// The mathematical shadow of [`QSO`].
#[verifier::ext_equal]
pub struct QsoV {
    pub freq: Seq<char>,
    pub mode: Seq<char>,
    pub date: Date,
    pub time: Time,
    pub sent_call: Seq<char>,
    pub sent_rst_exch: Seq<char>,
    pub rcvd_call: Seq<char>,
    pub rcvd_rst_exch: Seq<char>,
    pub tx: Option<Seq<char>>,
}

impl View for QSO {
    type V = QsoV;

    open spec fn view(&self) -> QsoV {
        QsoV {
            freq: self.freq@,
            mode: self.mode@,
            date: self.date,
            time: self.time,
            sent_call: self.sent_call@,
            sent_rst_exch: self.sent_rst_exch@,
            rcvd_call: self.rcvd_call@,
            rcvd_rst_exch: self.rcvd_rst_exch@,
            tx: if self.tx is Some {
                Some(self.tx->Some_0@)
            } else {
                None
            },
        }
    }
}

impl DeepView for QSO {
    type V = QsoV;

    open spec fn deep_view(&self) -> QsoV {
        self.view()
    }
}

// ---------------------------------------------------------------------------
// Plausible-callsign shape
// ---------------------------------------------------------------------------

/// The boundary heuristic: all ASCII, at least one digit, at least one
/// letter, longer than two characters.
pub open spec fn spec_valid_callsign(s: Seq<char>) -> bool {
    s.len() > 2 && (forall|i: int| 0 <= i < s.len() ==> is_ascii_char(#[trigger] s[i])) && (exists|
        i: int,
    |
        0 <= i < s.len() && is_digit_char(#[trigger] s[i])) && (exists|i: int|
        0 <= i < s.len() && is_alpha_char(#[trigger] s[i]))
}

/// Whether a token is shaped like a callsign.
pub fn is_valid_callsign(call: &str) -> (r: bool)
    ensures
        r == spec_valid_callsign(call@),
{
    let n = call.unicode_len();
    if n <= 2 {
        return false;
    }
    let mut has_digit = false;
    let mut has_alpha = false;
    let mut i: usize = 0;
    while i < n
        invariant
            i <= n,
            n == call@.len(),
            forall|j: int| 0 <= j < i ==> is_ascii_char(#[trigger] call@[j]),
            has_digit == exists|j: int| 0 <= j < i && is_digit_char(#[trigger] call@[j]),
            has_alpha == exists|j: int| 0 <= j < i && is_alpha_char(#[trigger] call@[j]),
        decreases n - i,
    {
        let c = call.get_char(i);
        if !is_ascii_c(c) {
            return false;
        }
        if is_digit_c(c) {
            has_digit = true;
        }
        if is_alpha_c(c) {
            has_alpha = true;
        }
        i += 1;
    }
    has_digit && has_alpha
}

// ---------------------------------------------------------------------------
// Mode and band whitelists
// ---------------------------------------------------------------------------

pub open spec fn spec_valid_mode(s: Seq<char>) -> bool {
    s == "CW"@ || s == "PH"@ || s == "FM"@ || s == "RY"@ || s == "DG"@
}

/// Whether a token is one of the fixed mode names.
pub fn is_valid_mode(mode: &str) -> (r: bool)
    ensures
        r == spec_valid_mode(mode@),
{
    str_eq_str(mode, "CW") || str_eq_str(mode, "PH") || str_eq_str(mode, "FM") || str_eq_str(
        mode,
        "RY",
    ) || str_eq_str(mode, "DG")
}

pub open spec fn spec_band_name(s: Seq<char>) -> bool {
    s == "160"@ || s == "80"@ || s == "40"@ || s == "20"@ || s == "15"@ || s == "10"@ || s == "6"@
        || s == "2"@ || s == "222"@ || s == "432"@ || s == "902"@ || s == "1.2G"@ || s == "2.3G"@
        || s == "3.4G"@ || s == "5.7G"@ || s == "10G"@ || s == "24G"@ || s == "47G"@ || s == "75G"@
        || s == "122G"@ || s == "134G"@ || s == "241G"@ || s == "LIGHT"@ || s == "50"@ || s == "70"@
        || s == "144"@
}

fn is_band_name(band: &str) -> (r: bool)
    ensures
        r == spec_band_name(band@),
{
    str_eq_str(band, "160") || str_eq_str(band, "80") || str_eq_str(band, "40") || str_eq_str(
        band,
        "20",
    ) || str_eq_str(band, "15") || str_eq_str(band, "10") || str_eq_str(band, "6") || str_eq_str(
        band,
        "2",
    ) || str_eq_str(band, "222") || str_eq_str(band, "432") || str_eq_str(band, "902")
        || str_eq_str(band, "1.2G") || str_eq_str(band, "2.3G") || str_eq_str(band, "3.4G")
        || str_eq_str(band, "5.7G") || str_eq_str(band, "10G") || str_eq_str(band, "24G")
        || str_eq_str(band, "47G") || str_eq_str(band, "75G") || str_eq_str(band, "122G")
        || str_eq_str(band, "134G") || str_eq_str(band, "241G") || str_eq_str(band, "LIGHT")
        || str_eq_str(band, "50") || str_eq_str(band, "70") || str_eq_str(band, "144")
}

// ---------------------------------------------------------------------------
// The floating-point literal grammar
// ---------------------------------------------------------------------------

/// `s` without one leading `+` or `-`.
pub open spec fn strip_sign(s: Seq<char>) -> Seq<char> {
    if s.len() > 0 && (s[0] == '+' || s[0] == '-') {
        s.drop_first()
    } else {
        s
    }
}

/// Case-insensitive equality with a lowercase ASCII word.
pub open spec fn eq_word_ci(s: Seq<char>, w: Seq<char>) -> bool {
    s.len() == w.len() && forall|i: int|
        0 <= i < s.len() ==> (#[trigger] s[i] == w[i] || s[i] as u32 + 0x20 == w[i] as u32)
}

fn eq_ignore_case(s: &str, w: &str) -> (r: bool)
    ensures
        r == eq_word_ci(s@, w@),
{
    let n = s.unicode_len();
    let m = w.unicode_len();
    if n != m {
        return false;
    }
    let mut i: usize = 0;
    while i < n
        invariant
            i <= n,
            n == s@.len(),
            n == w@.len(),
            forall|j: int| 0 <= j < i ==> (#[trigger] s@[j] == w@[j] || s@[j] as u32 + 0x20 == w@[j] as u32),
        decreases n - i,
    {
        let a = s.get_char(i);
        let b = w.get_char(i);
        if !(a == b || a as u32 + 0x20 == b as u32) {
            return false;
        }
        i += 1;
    }
    true
}

/// An exponent suffix: `e` or `E`, an optional sign, then one or more digits.
pub open spec fn spec_exp_part(s: Seq<char>) -> bool {
    s.len() >= 1 && (s[0] == 'e' || s[0] == 'E') && {
        let b = strip_sign(s.drop_first());
        b.len() > 0 && digits_len(b) == b.len()
    }
}

/// An unsigned decimal number with optional fraction and exponent.
pub open spec fn spec_number_lit(s: Seq<char>) -> bool {
    let d1 = digits_len(s) as int;
    let rest = s.skip(d1);
    if rest.len() == 0 {
        d1 > 0
    } else if rest[0] == '.' {
        let frac = rest.drop_first();
        let d2 = digits_len(frac) as int;
        let rest2 = frac.skip(d2);
        (d1 > 0 || d2 > 0) && (rest2.len() == 0 || spec_exp_part(rest2))
    } else {
        d1 > 0 && spec_exp_part(rest)
    }
}

/// The strings accepted by `f64` parsing: an optional sign, then one of
/// `inf`, `infinity`, `nan` (any case) or a decimal number.
pub open spec fn spec_float_lit(s: Seq<char>) -> bool {
    let b = strip_sign(s);
    eq_word_ci(b, "inf"@) || eq_word_ci(b, "infinity"@) || eq_word_ci(b, "nan"@) || spec_number_lit(
        b,
    )
}

/// Scans the exponent suffix beginning at `k`.
fn exp_part_at(s: &str, k: usize) -> (r: bool)
    requires
        k < s@.len(),
    ensures
        r == spec_exp_part(s@.skip(k as int)),
{
    let n = s.unicode_len();
    let c = s.get_char(k);
    proof {
        assert(s@.skip(k as int)[0] == s@[k as int]);
    }
    if c != 'e' && c != 'E' {
        return false;
    }
    let start: usize = if k + 1 < n && (s.get_char(k + 1) == '+' || s.get_char(k + 1) == '-') {
        k + 2
    } else {
        k + 1
    };
    proof {
        let tail = s@.skip(k as int).drop_first();
        assert(tail =~= s@.skip(k as int + 1));
        if tail.len() > 0 {
            assert(tail[0] == s@[k + 1]);
        }
        assert(strip_sign(s@.skip(k as int + 1)) =~= s@.skip(start as int));
    }
    if start >= n {
        proof {
            assert(s@.skip(start as int).len() == 0);
        }
        return false;
    }
    let mut j = start;
    while j < n && is_digit_c(s.get_char(j))
        invariant
            start <= j <= n,
            n == s@.len(),
            forall|m: int| start <= m < j ==> is_digit_char(#[trigger] s@[m]),
        decreases n - j,
    {
        j += 1;
    }
    proof {
        let b = s@.skip(start as int);
        assert forall|m: int| 0 <= m < j - start implies is_digit_char(b[m]) by {
            assert(b[m] == s@[start + m]);
        }
        if j < n {
            assert(b[j - start] == s@[j as int]);
        }
        lemma_digits_len_at(b, j - start);
    }
    j == n
}

/// Whether a token is a well-formed floating-point literal, the condition
/// under which `str::parse::<f64>` succeeds.
pub fn is_float_lit(s: &str) -> (r: bool)
    ensures
        r == spec_float_lit(s@),
{
    let n = s.unicode_len();
    let start: usize = if n > 0 && (s.get_char(0) == '+' || s.get_char(0) == '-') {
        1
    } else {
        0
    };
    proof {
        assert(strip_sign(s@) =~= s@.skip(start as int));
    }
    let rem = s.substring_char(start, n);
    if eq_ignore_case(rem, "inf") || eq_ignore_case(rem, "infinity") || eq_ignore_case(rem, "nan") {
        return true;
    }
    // decimal number: leading digits
    let rn = rem.unicode_len();
    let mut i: usize = 0;
    while i < rn && is_digit_c(rem.get_char(i))
        invariant
            i <= rn,
            rn == rem@.len(),
            forall|m: int| 0 <= m < i ==> is_digit_char(#[trigger] rem@[m]),
        decreases rn - i,
    {
        i += 1;
    }
    proof {
        if i < rn {
            assert(!is_digit_char(rem@[i as int]));
        }
        lemma_digits_len_at(rem@, i as int);
    }
    if i == rn {
        proof {
            assert(rem@.skip(i as int).len() == 0);
        }
        return i > 0;
    }
    proof {
        assert(rem@.skip(i as int)[0] == rem@[i as int]);
    }
    if rem.get_char(i) == '.' {
        let fs = i + 1;
        let mut j = fs;
        while j < rn && is_digit_c(rem.get_char(j))
            invariant
                fs <= j <= rn,
                rn == rem@.len(),
                forall|m: int| fs <= m < j ==> is_digit_char(#[trigger] rem@[m]),
            decreases rn - j,
        {
            j += 1;
        }
        proof {
            let frac = rem@.skip(i as int).drop_first();
            assert(frac =~= rem@.skip(fs as int));
            assert forall|m: int| 0 <= m < j - fs implies is_digit_char(frac[m]) by {
                assert(frac[m] == rem@[fs + m]);
            }
            if j < rn {
                assert(frac[j - fs] == rem@[j as int]);
            }
            lemma_digits_len_at(frac, j - fs);
            assert(frac.skip(j - fs) =~= rem@.skip(j as int));
        }
        if !(i > 0 || j > fs) {
            return false;
        }
        if j == rn {
            proof {
                assert(rem@.skip(j as int).len() == 0);
            }
            return true;
        }
        exp_part_at(rem, j)
    } else {
        if i == 0 {
            return false;
        }
        exp_part_at(rem, i)
    }
}

/// Whether a token is an accepted band name or a numeric frequency.
pub fn is_valid_band(band: &str) -> (r: bool)
    ensures
        r == spec_valid_band(band@),
{
    is_band_name(band) || is_float_lit(band)
}

pub open spec fn spec_valid_band(s: Seq<char>) -> bool {
    spec_band_name(s) || spec_float_lit(s)
}

// ---------------------------------------------------------------------------
// Reading one contact line
// ---------------------------------------------------------------------------

/// First index at or after `i` whose token is shaped like a callsign, or
/// the token count when none is.
pub open spec fn scan_call(toks: Seq<Seq<char>>, i: int) -> int
    decreases toks.len() - i,
{
    if i >= toks.len() {
        i
    } else if spec_valid_callsign(toks[i]) {
        i
    } else {
        scan_call(toks, i + 1)
    }
}

pub proof fn lemma_scan_call_at(toks: Seq<Seq<char>>, i: int, k: int)
    requires
        0 <= i <= k <= toks.len(),
        forall|j: int| i <= j < k ==> !spec_valid_callsign(#[trigger] toks[j]),
        k == toks.len() || spec_valid_callsign(toks[k]),
    ensures
        scan_call(toks, i) == k,
    decreases k - i,
{
    if i < k {
        lemma_scan_call_at(toks, i + 1, k);
    }
}

/// Reading a contact from its whitespace tokens.  Positions 1 to 5 are
/// fixed; the received callsign is the first callsign-shaped token from
/// position 6 on; tokens before it form the sent exchange; a final `0` or
/// `1` is the transmitter flag; the rest is the received exchange.
pub open spec fn spec_parse_qso_toks(toks: Seq<Seq<char>>) -> Result<QsoV, CabrilloErrorV> {
    if toks.len() < 10 || toks[0] != "QSO:"@ {
        Err(CabrilloErrorV::InvalidFormat("Invalid QSO line"@))
    } else {
        match spec_parse_date(toks[3]) {
            None => Err(CabrilloErrorV::InvalidDate(toks[3])),
            Some(date) => match spec_parse_time(toks[4]) {
                None => Err(CabrilloErrorV::InvalidTime(toks[4])),
                Some(time) => {
                    let rci = scan_call(toks, 6);
                    if rci >= toks.len() {
                        Err(CabrilloErrorV::InvalidFormat("No valid received callsign found"@))
                    } else if rci + 1 >= toks.len() {
                        Err(CabrilloErrorV::InvalidFormat("Missing received RST/EXCH"@))
                    } else {
                        let last = toks[toks.len() - 1];
                        let has_tx = last == "0"@ || last == "1"@;
                        Ok(
                            QsoV {
                                freq: toks[1],
                                mode: toks[2],
                                date,
                                time,
                                sent_call: toks[5],
                                sent_rst_exch: spec_join(toks.subrange(6, rci)),
                                rcvd_call: toks[rci],
                                rcvd_rst_exch: if has_tx {
                                    spec_join(toks.subrange(rci + 1, toks.len() - 1))
                                } else {
                                    spec_join(toks.subrange(rci + 1, toks.len() as int))
                                },
                                tx: if has_tx {
                                    Some(last)
                                } else {
                                    None
                                },
                            },
                        )
                    }
                }
            },
        }
    }
}

/// Reading a contact from a raw line: tokenize, then read the tokens.
pub open spec fn spec_parse_qso_line(line: Seq<char>) -> Result<QsoV, CabrilloErrorV> {
    spec_parse_qso_toks(spec_tokens(line))
}

pub open spec fn qso_res_view(r: Result<QSO, CabrilloError>) -> Result<QsoV, CabrilloErrorV> {
    match r {
        Ok(q) => Ok(q@),
        Err(e) => Err(e@),
    }
}

/// Reads one `QSO:` line into a contact record.
pub fn parse_qso_line(line: &str) -> (r: Result<QSO, CabrilloError>)
    ensures
        qso_res_view(r) == spec_parse_qso_line(line@),
        r is Ok ==> date_wf(r->Ok_0.date) && time_wf(r->Ok_0.time),
{
    let toks = split_ws(line);
    let ghost tv = toks.deep_view();
    let nt = toks.len();
    if nt < 10 || !str_eq_str(toks[0].as_str(), "QSO:") {
        return Err(CabrilloError::InvalidFormat("Invalid QSO line".to_owned()));
    }
    let date = match parse_date(toks[3].as_str()) {
        Some(d) => d,
        None => {
            return Err(CabrilloError::InvalidDate(toks[3].clone()));
        },
    };
    let time = match parse_time(toks[4].as_str()) {
        Some(t) => t,
        None => {
            return Err(CabrilloError::InvalidTime(toks[4].clone()));
        },
    };
    let mut rci: usize = 6;
    while rci < nt && !is_valid_callsign(toks[rci].as_str())
        invariant
            6 <= rci <= nt,
            nt == toks.len(),
            tv == toks.deep_view(),
            forall|j: int| 6 <= j < rci ==> !spec_valid_callsign(#[trigger] tv[j]),
        decreases nt - rci,
    {
        rci += 1;
    }
    proof {
        lemma_scan_call_at(tv, 6, rci as int);
    }
    if rci >= nt {
        return Err(CabrilloError::InvalidFormat("No valid received callsign found".to_owned()));
    }
    if rci + 1 >= nt {
        return Err(CabrilloError::InvalidFormat("Missing received RST/EXCH".to_owned()));
    }
    let sent_rst_exch = join_range(&toks, 6, rci);
    let last_is_tx = str_eq_str(toks[nt - 1].as_str(), "0") || str_eq_str(
        toks[nt - 1].as_str(),
        "1",
    );
    let tx: Option<String> = if last_is_tx {
        Some(toks[nt - 1].clone())
    } else {
        None
    };
    let rcvd_rst_exch: String = if last_is_tx {
        join_range(&toks, rci + 1, nt - 1)
    } else {
        join_range(&toks, rci + 1, nt)
    };
    let q = QSO {
        freq: toks[1].clone(),
        mode: toks[2].clone(),
        date,
        time,
        sent_call: toks[5].clone(),
        sent_rst_exch,
        rcvd_call: toks[rci].clone(),
        rcvd_rst_exch,
        tx,
    };
    proof {
        let s = spec_parse_qso_toks(tv);
        assert(s is Ok);
        assert(q@ =~= s->Ok_0);
    }
    Ok(q)
}

// ---------------------------------------------------------------------------
// Validating one contact
// ---------------------------------------------------------------------------

/// The first violated constraint of a contact, checked in a fixed order:
/// sent callsign, received callsign, band or frequency, mode, transmitter
/// flag.
pub open spec fn spec_validate_qso(q: QsoV) -> Result<(), CabrilloErrorV> {
    if q.sent_call.len() == 0 || !spec_valid_callsign(q.sent_call) {
        Err(CabrilloErrorV::InvalidCallsign(q.sent_call))
    } else if q.rcvd_call.len() == 0 || !spec_valid_callsign(q.rcvd_call) {
        Err(CabrilloErrorV::InvalidCallsign(q.rcvd_call))
    } else if !spec_valid_band(q.freq) {
        Err(CabrilloErrorV::InvalidFormat("Invalid band/freq: "@ + q.freq))
    } else if !spec_valid_mode(q.mode) {
        Err(CabrilloErrorV::InvalidFormat("Invalid mode: "@ + q.mode))
    } else if q.tx is Some && q.tx->Some_0 != "0"@ && q.tx->Some_0 != "1"@ {
        Err(CabrilloErrorV::InvalidFormat("Invalid transmitter: "@ + q.tx->Some_0))
    } else {
        Ok(())
    }
}

pub open spec fn unit_res_view(r: Result<(), CabrilloError>) -> Result<(), CabrilloErrorV> {
    match r {
        Ok(u) => Ok(u),
        Err(e) => Err(e@),
    }
}

/// Checks one contact, reporting the first violated constraint.
pub fn validate_qso(q: &QSO) -> (r: Result<(), CabrilloError>)
    ensures
        unit_res_view(r) == spec_validate_qso(q@),
{
    if q.sent_call.as_str().is_empty() || !is_valid_callsign(q.sent_call.as_str()) {
        return Err(CabrilloError::InvalidCallsign(q.sent_call.clone()));
    }
    if q.rcvd_call.as_str().is_empty() || !is_valid_callsign(q.rcvd_call.as_str()) {
        return Err(CabrilloError::InvalidCallsign(q.rcvd_call.clone()));
    }
    if !is_valid_band(q.freq.as_str()) {
        let mut m = "Invalid band/freq: ".to_owned();
        m.append(q.freq.as_str());
        return Err(CabrilloError::InvalidFormat(m));
    }
    if !is_valid_mode(q.mode.as_str()) {
        let mut m = "Invalid mode: ".to_owned();
        m.append(q.mode.as_str());
        return Err(CabrilloError::InvalidFormat(m));
    }
    if let Some(t) = &q.tx {
        if !(str_eq_str(t.as_str(), "0") || str_eq_str(t.as_str(), "1")) {
            let mut m = "Invalid transmitter: ".to_owned();
            m.append(t.as_str());
            return Err(CabrilloError::InvalidFormat(m));
        }
    }
    Ok(())
}

// ---------------------------------------------------------------------------
// Rendering one contact line
// ---------------------------------------------------------------------------

/// The canonical fixed-width contact line: callsigns left-justified to 13
/// columns, exchanges to 8, the transmitter flag appended when present.
pub open spec fn spec_render_qso(q: QsoV) -> Seq<char> {
    "QSO: "@ + q.freq + " "@ + q.mode + " "@ + spec_fmt_date(q.date) + " "@ + spec_fmt_time(q.time)
        + " "@ + spec_pad(q.sent_call, 13) + " "@ + spec_pad(q.sent_rst_exch, 8) + " "@ + spec_pad(
        q.rcvd_call,
        13,
    ) + " "@ + spec_pad(q.rcvd_rst_exch, 8) + (if q.tx is Some {
        " "@ + q.tx->Some_0
    } else {
        Seq::<char>::empty()
    }) + "\n"@
}

/// Appends the canonical line for `q`, newline included.
#[verifier::rlimit(100)]
pub fn append_qso_line(out: &mut String, q: &QSO)
    requires
        date_wf(q.date),
        time_wf(q.time),
    ensures
        final(out)@ == old(out)@ + spec_render_qso(q@),
{
    let ghost p1 = "QSO: "@ + q@.freq + " "@ + q@.mode + " "@ + spec_fmt_date(q@.date) + " "@
        + spec_fmt_time(q@.time) + " "@;
    let ghost p2 = p1 + spec_pad(q@.sent_call, 13) + " "@ + spec_pad(q@.sent_rst_exch, 8) + " "@
        + spec_pad(q@.rcvd_call, 13) + " "@ + spec_pad(q@.rcvd_rst_exch, 8);
    out.append("QSO: ");
    out.append(q.freq.as_str());
    out.append(" ");
    out.append(q.mode.as_str());
    out.append(" ");
    append_date(out, &q.date);
    out.append(" ");
    append_time(out, &q.time);
    out.append(" ");
    proof {
        assert(out@ =~= old(out)@ + p1);
    }
    append_padded(out, q.sent_call.as_str(), 13);
    out.append(" ");
    append_padded(out, q.sent_rst_exch.as_str(), 8);
    out.append(" ");
    append_padded(out, q.rcvd_call.as_str(), 13);
    out.append(" ");
    append_padded(out, q.rcvd_rst_exch.as_str(), 8);
    proof {
        assert(out@ =~= (old(out)@ + p1) + (spec_pad(q@.sent_call, 13) + " "@ + spec_pad(
            q@.sent_rst_exch,
            8,
        ) + " "@ + spec_pad(q@.rcvd_call, 13) + " "@ + spec_pad(q@.rcvd_rst_exch, 8)));
        assert(out@ =~= old(out)@ + p2);
    }
    let ghost mid = out@;
    if let Some(t) = &q.tx {
        out.append(" ");
        out.append(t.as_str());
        proof {
            assert(out@ =~= mid + (" "@ + q@.tx->Some_0));
        }
    } else {
        proof {
            assert(out@ =~= mid + Seq::<char>::empty());
        }
    }
    out.append("\n");
    proof {
        assert(out@ =~= (old(out)@ + p2) + (if q@.tx is Some {
            " "@ + q@.tx->Some_0
        } else {
            Seq::<char>::empty()
        }) + "\n"@);
        assert(out@ =~= old(out)@ + spec_render_qso(q@));
    }
}

} // verus!
