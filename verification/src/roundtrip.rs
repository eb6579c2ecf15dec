//! The parse/serialize round trip: a log parsed from text, rendered in
//! canonical form and parsed again, reproduces the same header mapping and
//! the same contact sequence.

use vstd::prelude::*;

use crate::text::{
    is_ws_char,
    is_clean_tok,
    spec_tokens,
    spec_trim,
    ltrim,
    rtrim,
    tok_len,
    lemma_tok_len_bounds,
    lemma_tok_len_at,
    lemma_tokens_wf,
    spec_join,
    spec_pad,
    spec_spaces,
    upto_char,
    lemma_upto_char_bounds,
    lemma_upto_char_at,
    spec_lines,
    strip_cr,
};
use crate::date::{date_wf, time_wf, lemma_date_round_trip, lemma_time_round_trip, spec_fmt_date,
    spec_fmt_time};
use crate::date::{spec_parse_date, spec_parse_time};
use crate::qso::{QsoV, CabrilloErrorV, spec_valid_callsign, spec_parse_qso_toks,
    spec_parse_qso_line, spec_render_qso, scan_call, lemma_scan_call_at};
use crate::log::{PState, LogV, step_line, run_lines, init_state, spec_parse, spec_serialize,
    spec_render_header, spec_render_headers, spec_render_qsos, spec_upsert, spec_sort_hdrs,
    spec_insert_hdr, headers_map, headers_distinct, find_key, lemma_find_key_bounds,
    lemma_find_key_at, lemma_headers_map_at};

verus! {

// ---------------------------------------------------------------------------
// How tokenization treats concatenation, joins and trimming
// ---------------------------------------------------------------------------

/// A sequence of whitespace has no tokens.
pub proof fn lemma_tokens_all_ws(s: Seq<char>)
    requires
        forall|i: int| 0 <= i < s.len() ==> is_ws_char(#[trigger] s[i]),
    ensures
        spec_tokens(s) == Seq::<Seq<char>>::empty(),
    decreases s.len(),
{
    if s.len() > 0 {
        lemma_tokens_all_ws(s.drop_first());
    }
}

/// A single clean token tokenizes to itself.
pub proof fn lemma_tokens_single(t: Seq<char>)
    requires
        is_clean_tok(t),
    ensures
        spec_tokens(t) == seq![t],
{
    reveal_with_fuel(spec_tokens, 2);
    lemma_tok_len_at(t, t.len() as int);
    assert(t.take(t.len() as int) =~= t);
    assert(t.skip(t.len() as int) =~= Seq::<char>::empty());
    assert(spec_tokens(t) =~= seq![t]);
}

/// Tokens distribute over concatenation at a whitespace boundary.
pub proof fn lemma_tokens_concat(a: Seq<char>, b: Seq<char>)
    requires
        a.len() == 0 || b.len() == 0 || is_ws_char(a.last()) || is_ws_char(b[0]),
    ensures
        spec_tokens(a + b) == spec_tokens(a) + spec_tokens(b),
    decreases a.len(),
{
    if a.len() == 0 {
        assert(a + b =~= b);
        assert(spec_tokens(a) + spec_tokens(b) =~= spec_tokens(b));
    } else if b.len() == 0 {
        assert(a + b =~= a);
        assert(spec_tokens(a) + spec_tokens(b) =~= spec_tokens(a));
    } else if is_ws_char(a[0]) {
        assert((a + b)[0] == a[0]);
        assert((a + b).drop_first() =~= a.drop_first() + b);
        if a.len() > 1 && is_ws_char(a.last()) {
            assert(a.drop_first().last() == a.last());
        }
        lemma_tokens_concat(a.drop_first(), b);
    } else {
        let k = tok_len(a) as int;
        lemma_tok_len_bounds(a);
        if k < a.len() {
            assert forall|j: int| 0 <= j < k implies !is_ws_char((a + b)[j]) by {
                assert((a + b)[j] == a[j]);
            }
            assert((a + b)[k] == a[k]);
            lemma_tok_len_at(a + b, k);
            assert((a + b).take(k) =~= a.take(k));
            assert((a + b).skip(k) =~= a.skip(k) + b);
            assert(is_ws_char(a.skip(k)[0]));
            lemma_tokens_concat(a.skip(k), b);
            assert(spec_tokens(a + b) == seq![a.take(k)] + (spec_tokens(a.skip(k)) + spec_tokens(
                b,
            )));
            assert(seq![a.take(k)] + (spec_tokens(a.skip(k)) + spec_tokens(b)) =~= (seq![a.take(k)]
                + spec_tokens(a.skip(k))) + spec_tokens(b));
        } else {
            // a is one clean token; the boundary whitespace is b's first char
            assert(is_ws_char(b[0]));
            assert forall|j: int| 0 <= j < a.len() implies !is_ws_char((a + b)[j]) by {
                assert((a + b)[j] == a[j]);
            }
            assert((a + b)[a.len() as int] == b[0]);
            lemma_tok_len_at(a + b, a.len() as int);
            assert((a + b).take(a.len() as int) =~= a);
            assert((a + b).skip(a.len() as int) =~= b);
            assert(is_clean_tok(a));
            lemma_tokens_single(a);
            assert(spec_tokens(a + b) == seq![a] + spec_tokens(b));
        }
    }
}

/// Dropping a trailing whitespace character leaves the tokens unchanged.
pub proof fn lemma_tokens_drop_last_ws(s: Seq<char>)
    requires
        s.len() > 0,
        is_ws_char(s.last()),
    ensures
        spec_tokens(s) == spec_tokens(s.drop_last()),
    decreases s.len(),
{
    if s.len() == 1 {
        assert(spec_tokens(s) == spec_tokens(s.drop_first()));
        assert(s.drop_first() =~= Seq::<char>::empty());
        assert(s.drop_last() =~= Seq::<char>::empty());
    } else if is_ws_char(s[0]) {
        assert(s.drop_last()[0] == s[0]);
        assert(s.drop_first().last() == s.last());
        lemma_tokens_drop_last_ws(s.drop_first());
        assert(s.drop_first().drop_last() =~= s.drop_last().drop_first());
        assert(spec_tokens(s.drop_last()) == spec_tokens(s.drop_last().drop_first()));
    } else {
        let k = tok_len(s) as int;
        lemma_tok_len_bounds(s);
        assert(k < s.len());
        let d = s.drop_last();
        if k < s.len() - 1 {
            assert forall|j: int| 0 <= j < k implies !is_ws_char(d[j]) by {
                assert(d[j] == s[j]);
            }
            assert(d[k] == s[k]);
            lemma_tok_len_at(d, k);
            assert(d.take(k) =~= s.take(k));
            assert(d.skip(k) =~= s.skip(k).drop_last());
            assert(s.skip(k).last() == s.last());
            lemma_tokens_drop_last_ws(s.skip(k));
        } else {
            // the trailing whitespace is right after the only token
            assert forall|j: int| 0 <= j < d.len() implies !is_ws_char(d[j]) by {
                assert(d[j] == s[j]);
            }
            assert(d =~= s.take(k));
            assert(is_clean_tok(d));
            lemma_tokens_single(d);
            assert(s.skip(k) =~= seq![s.last()]);
            lemma_tokens_all_ws(s.skip(k));
            assert(spec_tokens(s) =~= seq![d]);
        }
    }
}

proof fn lemma_tokens_rtrim(s: Seq<char>)
    ensures
        spec_tokens(rtrim(s)) == spec_tokens(s),
    decreases s.len(),
{
    if s.len() > 0 && is_ws_char(s.last()) {
        lemma_tokens_drop_last_ws(s);
        lemma_tokens_rtrim(s.drop_last());
    }
}

/// Joining clean tokens and tokenizing again gives the tokens back.
pub proof fn lemma_tokens_of_join(toks: Seq<Seq<char>>)
    requires
        forall|i: int| 0 <= i < toks.len() ==> is_clean_tok(#[trigger] toks[i]),
    ensures
        spec_tokens(spec_join(toks)) == toks,
    decreases toks.len(),
{
    if toks.len() == 0 {
        assert(spec_tokens(spec_join(toks)) =~= toks);
    } else if toks.len() == 1 {
        lemma_tokens_single(toks[0]);
        assert(spec_tokens(spec_join(toks)) =~= toks);
    } else {
        let head = toks[0] + seq![' '];
        let rest = spec_join(toks.drop_first());
        assert(spec_join(toks) == toks[0] + seq![' '] + rest);
        assert(toks[0] + seq![' '] + rest =~= head + rest);
        assert(is_ws_char(head.last()));
        lemma_tokens_concat(head, rest);
        assert(is_ws_char(head[toks[0].len() as int]));
        assert(head.last() == ' ');
        lemma_tokens_concat(toks[0], seq![' ']);
        lemma_tokens_single(toks[0]);
        lemma_tokens_all_ws(seq![' ']);
        assert(spec_tokens(head) =~= seq![toks[0]]);
        lemma_tokens_of_join(toks.drop_first());
        assert(spec_tokens(spec_join(toks)) == seq![toks[0]] + toks.drop_first());
        assert(seq![toks[0]] + toks.drop_first() =~= toks);
    }
}

/// Padding adds only whitespace to the tokens' right.
pub proof fn lemma_tokens_pad(t: Seq<char>, w: nat)
    ensures
        spec_tokens(spec_pad(t, w)) == spec_tokens(t),
{
    if t.len() < w {
        let sp = spec_spaces((w - t.len()) as nat);
        if t.len() == 0 {
            assert(t + sp =~= sp);
            lemma_tokens_all_ws(sp);
            assert(spec_tokens(t) =~= Seq::<Seq<char>>::empty());
        } else {
            assert(is_ws_char(sp[0]));
            lemma_tokens_concat(t, sp);
            lemma_tokens_all_ws(sp);
            assert(spec_tokens(t) + spec_tokens(sp) =~= spec_tokens(t));
        }
    }
}

// ---------------------------------------------------------------------------
// One contact line round-trips
// ---------------------------------------------------------------------------

/// The shape every contact produced by parsing has, and all that the
/// contact-line round trip needs: whitespace-free fields, valid calendar
/// values, exchanges that are single-space joins of their tokens, no
/// callsign-shaped token inside the sent exchange, a transmitter flag that
/// is `0` or `1` when present and a last exchange token that is neither
/// when absent, and at least ten tokens in all.
pub open spec fn qso_rt(q: QsoV) -> bool {
    &&& is_clean_tok(q.freq)
    &&& is_clean_tok(q.mode)
    &&& date_wf(q.date)
    &&& time_wf(q.time)
    &&& is_clean_tok(q.sent_call)
    &&& spec_join(spec_tokens(q.sent_rst_exch)) == q.sent_rst_exch
    &&& (forall|i: int|
        0 <= i < spec_tokens(q.sent_rst_exch).len() ==> !spec_valid_callsign(
            #[trigger] spec_tokens(q.sent_rst_exch)[i],
        ))
    &&& is_clean_tok(q.rcvd_call)
    &&& spec_valid_callsign(q.rcvd_call)
    &&& spec_join(spec_tokens(q.rcvd_rst_exch)) == q.rcvd_rst_exch
    &&& (match q.tx {
        Some(t) => t == "0"@ || t == "1"@,
        None => spec_tokens(q.rcvd_rst_exch).len() > 0 && spec_tokens(q.rcvd_rst_exch).last()
            != "0"@ && spec_tokens(q.rcvd_rst_exch).last() != "1"@,
    })
    &&& 7 + spec_tokens(q.sent_rst_exch).len() + spec_tokens(q.rcvd_rst_exch).len() + (
    if q.tx is Some {
        1int
    } else {
        0int
    }) >= 10
}

/// The token sequence a rendered contact line splits into.
pub open spec fn qso_toks(q: QsoV) -> Seq<Seq<char>> {
    seq!["QSO:"@, q.freq, q.mode, spec_fmt_date(q.date), spec_fmt_time(q.time), q.sent_call]
        + spec_tokens(q.sent_rst_exch) + seq![q.rcvd_call] + spec_tokens(q.rcvd_rst_exch) + (
    if q.tx is Some {
        seq![q.tx->Some_0]
    } else {
        Seq::<Seq<char>>::empty()
    })
}

/// The only whitespace character occurring in `s` is a plain space.
pub open spec fn only_space_ws(s: Seq<char>) -> bool {
    forall|j: int| 0 <= j < s.len() ==> (!is_ws_char(#[trigger] s[j]) || s[j] == ' ')
}

proof fn lemma_only_space_concat(a: Seq<char>, b: Seq<char>)
    requires
        only_space_ws(a),
        only_space_ws(b),
    ensures
        only_space_ws(a + b),
{
    assert forall|j: int| 0 <= j < (a + b).len() implies (!is_ws_char(#[trigger] (a + b)[j]) || (a
        + b)[j] == ' ') by {
        if j < a.len() {
            assert((a + b)[j] == a[j]);
        } else {
            assert((a + b)[j] == b[j - a.len()]);
        }
    }
}

proof fn lemma_only_space_clean(t: Seq<char>)
    requires
        forall|j: int| 0 <= j < t.len() ==> !is_ws_char(#[trigger] t[j]),
    ensures
        only_space_ws(t),
{
}

proof fn lemma_only_space_pad(t: Seq<char>, w: nat)
    requires
        only_space_ws(t),
    ensures
        only_space_ws(spec_pad(t, w)),
{
    if t.len() < w {
        let sp = spec_spaces((w - t.len()) as nat);
        assert(only_space_ws(sp));
        lemma_only_space_concat(t, sp);
    }
}

/// A join of clean tokens contains no whitespace but spaces.
proof fn lemma_only_space_join(toks: Seq<Seq<char>>)
    requires
        forall|i: int| 0 <= i < toks.len() ==> is_clean_tok(#[trigger] toks[i]),
    ensures
        only_space_ws(spec_join(toks)),
    decreases toks.len(),
{
    if toks.len() == 0 {
    } else if toks.len() == 1 {
        lemma_only_space_clean(toks[0]);
    } else {
        lemma_only_space_join(toks.drop_first());
        lemma_only_space_clean(toks[0]);
        assert(only_space_ws(seq![' ']));
        lemma_only_space_concat(toks[0], seq![' ']);
        lemma_only_space_concat(toks[0] + seq![' '], spec_join(toks.drop_first()));
        assert(spec_join(toks) == toks[0] + seq![' '] + spec_join(toks.drop_first()));
    }
}

/// Appending a space and a piece extends the tokens by the piece's tokens.
proof fn lemma_tokens_sep(a: Seq<char>, p: Seq<char>)
    ensures
        spec_tokens(a + " "@ + p) == spec_tokens(a) + spec_tokens(p),
{
    reveal_strlit(" ");
    assert(" "@.len() == 1 && " "@[0] == ' ');
    lemma_tokens_concat(a, " "@);
    lemma_tokens_all_ws(" "@);
    assert((a + " "@).last() == ' ');
    lemma_tokens_concat(a + " "@, p);
    assert(spec_tokens(a + " "@) =~= spec_tokens(a));
    assert(spec_tokens(a + " "@ + p) == spec_tokens(a + " "@) + spec_tokens(p));
}

proof fn lemma_tokens_qso_head()
    ensures
        spec_tokens("QSO: "@) == seq!["QSO:"@],
        "QSO: "@.len() == 5,
        "QSO: "@.last() == ' ',
        "QSO: "@[0] == 'Q',
        "QSO:"@.len() == 4,
        !is_ws_char('Q'),
{
    reveal_strlit("QSO: ");
    reveal_strlit("QSO:");
    assert forall|j: int| 0 <= j < 4 implies !is_ws_char("QSO: "@[j]) by {
        assert("QSO: "@[j] == "QSO:"@[j]);
    }
    lemma_tok_len_at("QSO: "@, 4);
    reveal_with_fuel(spec_tokens, 3);
    assert("QSO: "@.take(4) =~= "QSO:"@);
    assert("QSO: "@.skip(4) =~= seq![' ']);
    lemma_tokens_all_ws("QSO: "@.skip(4));
    assert(spec_tokens("QSO: "@) =~= seq!["QSO:"@]);
}

/// A rendered contact line, its newline dropped, splits into exactly the
/// contact's tokens.
#[verifier::rlimit(100)]
pub proof fn lemma_render_qso_tokens(q: QsoV)
    requires
        qso_rt(q),
    ensures
        spec_render_qso(q) == spec_render_qso(q).drop_last() + "\n"@,
        spec_tokens(spec_render_qso(q).drop_last()) == qso_toks(q),
        spec_render_qso(q).drop_last().len() > 0,
        spec_render_qso(q).drop_last()[0] == 'Q',
        !is_ws_char(spec_render_qso(q).drop_last()[0]),
        spec_render_qso(q).drop_last().last() != '\r',
        spec_render_qso(q).drop_last().last() != '\n',
        only_space_ws(spec_render_qso(q).drop_last()),
{
    reveal_strlit("\n");
    reveal_strlit(" ");
    lemma_tokens_qso_head();
    reveal_strlit("QSO: ");
    let d = spec_fmt_date(q.date);
    let t = spec_fmt_time(q.time);
    lemma_date_round_trip(q.date);
    lemma_time_round_trip(q.time);
    assert(is_clean_tok(d));
    assert(is_clean_tok(t));
    let p1 = "QSO: "@ + q.freq;
    lemma_tokens_concat("QSO: "@, q.freq);
    lemma_tokens_single(q.freq);
    assert(spec_tokens(p1) =~= seq!["QSO:"@, q.freq]);
    let p2 = p1 + " "@ + q.mode;
    lemma_tokens_sep(p1, q.mode);
    lemma_tokens_single(q.mode);
    assert(spec_tokens(p2) =~= seq!["QSO:"@, q.freq, q.mode]);
    let p3 = p2 + " "@ + d;
    lemma_tokens_sep(p2, d);
    lemma_tokens_single(d);
    assert(spec_tokens(p3) =~= seq!["QSO:"@, q.freq, q.mode, d]);
    let p4 = p3 + " "@ + t;
    lemma_tokens_sep(p3, t);
    lemma_tokens_single(t);
    assert(spec_tokens(p4) =~= seq!["QSO:"@, q.freq, q.mode, d, t]);
    let p5 = p4 + " "@ + spec_pad(q.sent_call, 13);
    lemma_tokens_sep(p4, spec_pad(q.sent_call, 13));
    lemma_tokens_pad(q.sent_call, 13);
    lemma_tokens_single(q.sent_call);
    assert(spec_tokens(p5) =~= seq!["QSO:"@, q.freq, q.mode, d, t, q.sent_call]);
    let p6 = p5 + " "@ + spec_pad(q.sent_rst_exch, 8);
    lemma_tokens_sep(p5, spec_pad(q.sent_rst_exch, 8));
    lemma_tokens_pad(q.sent_rst_exch, 8);
    assert(spec_tokens(p6) =~= seq!["QSO:"@, q.freq, q.mode, d, t, q.sent_call] + spec_tokens(
        q.sent_rst_exch,
    ));
    let p7 = p6 + " "@ + spec_pad(q.rcvd_call, 13);
    lemma_tokens_sep(p6, spec_pad(q.rcvd_call, 13));
    lemma_tokens_pad(q.rcvd_call, 13);
    lemma_tokens_single(q.rcvd_call);
    let p8 = p7 + " "@ + spec_pad(q.rcvd_rst_exch, 8);
    lemma_tokens_sep(p7, spec_pad(q.rcvd_rst_exch, 8));
    lemma_tokens_pad(q.rcvd_rst_exch, 8);
    let txif = if q.tx is Some {
        " "@ + q.tx->Some_0
    } else {
        Seq::<char>::empty()
    };
    let body = p8 + txif;
    assert(spec_render_qso(q) == body + "\n"@);
    assert("\n"@.len() == 1);
    assert(spec_render_qso(q).drop_last() =~= body);
    if q.tx is Some {
        let tv = q.tx->Some_0;
        reveal_strlit("0");
        reveal_strlit("1");
        assert(is_clean_tok(tv)) by {
            assert(!is_ws_char('0') && !is_ws_char('1'));
        }
        assert(txif[0] == ' ');
        lemma_tokens_concat(p8, txif);
        lemma_tokens_concat(" "@, tv);
        lemma_tokens_all_ws(" "@);
        lemma_tokens_single(tv);
        assert(spec_tokens(txif) =~= seq![tv]);
        assert(body.last() == tv.last());
        assert(tv.last() != '\r' && tv.last() != '\n') by {
            assert(is_clean_tok(tv));
            assert(is_ws_char('\r') && is_ws_char('\n'));
        }
    } else {
        assert(body =~= p8);
        let pad = spec_pad(q.rcvd_rst_exch, 8);
        assert(pad.len() >= 8);
        assert(body.last() == pad.last());
        if q.rcvd_rst_exch.len() >= 8 {
            assert(pad.last() == q.rcvd_rst_exch.last());
            lemma_tokens_wf(q.rcvd_rst_exch);
            let rts = spec_tokens(q.rcvd_rst_exch);
            assert(rts.len() > 0);
            // a join of clean tokens ends with its last token's last char
            lemma_join_last(rts);
            assert(!is_ws_char(q.rcvd_rst_exch.last()));
            assert(is_ws_char('\r') && is_ws_char('\n'));
        } else {
            assert(pad.last() == ' ');
        }
    }
    assert(spec_tokens(body) =~= qso_toks(q));
    assert(body[0] == 'Q');
    assert(body.len() > 0);
    // nothing but plain spaces is whitespace anywhere in the line
    assert(only_space_ws("QSO: "@));
    assert(only_space_ws(" "@));
    lemma_only_space_clean(q.freq);
    lemma_only_space_concat("QSO: "@, q.freq);
    lemma_only_space_clean(q.mode);
    lemma_only_space_concat(p1, " "@);
    lemma_only_space_concat(p1 + " "@, q.mode);
    lemma_only_space_clean(d);
    lemma_only_space_concat(p2, " "@);
    lemma_only_space_concat(p2 + " "@, d);
    lemma_only_space_clean(t);
    lemma_only_space_concat(p3, " "@);
    lemma_only_space_concat(p3 + " "@, t);
    lemma_only_space_clean(q.sent_call);
    lemma_only_space_pad(q.sent_call, 13);
    lemma_only_space_concat(p4, " "@);
    lemma_only_space_concat(p4 + " "@, spec_pad(q.sent_call, 13));
    lemma_tokens_wf(q.sent_rst_exch);
    lemma_only_space_join(spec_tokens(q.sent_rst_exch));
    assert(only_space_ws(q.sent_rst_exch));
    lemma_only_space_pad(q.sent_rst_exch, 8);
    lemma_only_space_concat(p5, " "@);
    lemma_only_space_concat(p5 + " "@, spec_pad(q.sent_rst_exch, 8));
    lemma_only_space_clean(q.rcvd_call);
    lemma_only_space_pad(q.rcvd_call, 13);
    lemma_only_space_concat(p6, " "@);
    lemma_only_space_concat(p6 + " "@, spec_pad(q.rcvd_call, 13));
    lemma_tokens_wf(q.rcvd_rst_exch);
    lemma_only_space_join(spec_tokens(q.rcvd_rst_exch));
    assert(only_space_ws(q.rcvd_rst_exch));
    lemma_only_space_pad(q.rcvd_rst_exch, 8);
    lemma_only_space_concat(p7, " "@);
    lemma_only_space_concat(p7 + " "@, spec_pad(q.rcvd_rst_exch, 8));
    if q.tx is Some {
        reveal_strlit("0");
        reveal_strlit("1");
        lemma_only_space_clean(q.tx->Some_0);
        lemma_only_space_concat(" "@, q.tx->Some_0);
    } else {
        assert(only_space_ws(txif));
    }
    lemma_only_space_concat(p8, txif);
}

/// A non-empty join of clean tokens ends in a non-whitespace character.
proof fn lemma_join_last(toks: Seq<Seq<char>>)
    requires
        toks.len() > 0,
        forall|i: int| 0 <= i < toks.len() ==> is_clean_tok(#[trigger] toks[i]),
    ensures
        spec_join(toks).len() > 0,
        !is_ws_char(spec_join(toks).last()),
    decreases toks.len(),
{
    if toks.len() == 1 {
        assert(is_clean_tok(toks[0]));
    } else {
        lemma_join_last(toks.drop_first());
        assert(spec_join(toks).last() == spec_join(toks.drop_first()).last());
    }
}

pub proof fn lemma_scan_call_bounds(toks: Seq<Seq<char>>, i: int)
    requires
        0 <= i <= toks.len(),
    ensures
        i <= scan_call(toks, i) <= toks.len(),
        forall|j: int| i <= j < scan_call(toks, i) ==> !spec_valid_callsign(#[trigger] toks[j]),
        scan_call(toks, i) < toks.len() ==> spec_valid_callsign(toks[scan_call(toks, i)]),
    decreases toks.len() - i,
{
    if i < toks.len() && !spec_valid_callsign(toks[i]) {
        lemma_scan_call_bounds(toks, i + 1);
    }
}

/// Reading a contact's own token sequence gives the contact back.
#[verifier::rlimit(100)]
pub proof fn lemma_parse_qso_toks_round_trip(q: QsoV)
    requires
        qso_rt(q),
    ensures
        spec_parse_qso_toks(qso_toks(q)) == Ok::<QsoV, CabrilloErrorV>(q),
{
    let toks = qso_toks(q);
    let sts = spec_tokens(q.sent_rst_exch);
    let rts = spec_tokens(q.rcvd_rst_exch);
    let ns = sts.len() as int;
    let nr = rts.len() as int;
    let ntx: int = if q.tx is Some {
        1
    } else {
        0
    };
    assert(toks.len() == 7 + ns + nr + ntx);
    assert(toks.len() >= 10);
    assert(toks[0] == "QSO:"@);
    assert(toks[1] == q.freq);
    assert(toks[2] == q.mode);
    assert(toks[3] == spec_fmt_date(q.date));
    assert(toks[4] == spec_fmt_time(q.time));
    assert(toks[5] == q.sent_call);
    lemma_date_round_trip(q.date);
    lemma_time_round_trip(q.time);
    let rci = 6 + ns;
    assert forall|j: int| 6 <= j < rci implies !spec_valid_callsign(#[trigger] toks[j]) by {
        assert(toks[j] == sts[j - 6]);
    }
    assert(toks[rci] == q.rcvd_call);
    lemma_scan_call_at(toks, 6, rci);
    assert(rci < toks.len());
    assert(rci + 1 < toks.len());
    let last = toks[toks.len() - 1];
    if q.tx is Some {
        assert(last == q.tx->Some_0);
        assert(toks.subrange(rci + 1, toks.len() - 1) =~= rts);
    } else {
        assert(last == rts[nr - 1]);
        reveal_strlit("0");
        reveal_strlit("1");
        assert(last != "0"@ && last != "1"@);
        assert(toks.subrange(rci + 1, toks.len() as int) =~= rts);
    }
    assert(toks.subrange(6, rci) =~= sts);
    let r = spec_parse_qso_toks(toks);
    assert(r is Ok);
    assert(r->Ok_0 =~= q);
}

/// Every contact a parse produces satisfies the round-trip shape.
#[verifier::rlimit(100)]
pub proof fn lemma_parse_qso_rt(line: Seq<char>, q: QsoV)
    requires
        spec_parse_qso_line(line) == Ok::<QsoV, CabrilloErrorV>(q),
    ensures
        qso_rt(q),
{
    let toks = spec_tokens(line);
    lemma_tokens_wf(line);
    let rci = scan_call(toks, 6);
    lemma_scan_call_bounds(toks, 6);
    assert(toks.len() >= 10);
    assert(rci < toks.len());
    assert(rci + 1 < toks.len());
    assert(spec_parse_date(toks[3]) is Some);
    assert(spec_parse_time(toks[4]) is Some);
    assert(date_wf(q.date));
    assert(time_wf(q.time));
    let sub = toks.subrange(6, rci);
    assert forall|i: int| 0 <= i < sub.len() implies is_clean_tok(#[trigger] sub[i]) by {
        assert(sub[i] == toks[6 + i]);
    }
    lemma_tokens_of_join(sub);
    assert(q.sent_rst_exch == spec_join(sub));
    assert(spec_tokens(q.sent_rst_exch) == sub);
    assert forall|i: int| 0 <= i < spec_tokens(q.sent_rst_exch).len() implies !spec_valid_callsign(
        #[trigger] spec_tokens(q.sent_rst_exch)[i],
    ) by {
        assert(sub[i] == toks[6 + i]);
    }
    let last = toks[toks.len() - 1];
    let has_tx = last == "0"@ || last == "1"@;
    let rsub = if has_tx {
        toks.subrange(rci + 1, toks.len() - 1)
    } else {
        toks.subrange(rci + 1, toks.len() as int)
    };
    assert forall|i: int| 0 <= i < rsub.len() implies is_clean_tok(#[trigger] rsub[i]) by {
        assert(rsub[i] == toks[rci + 1 + i]);
    }
    lemma_tokens_of_join(rsub);
    assert(q.rcvd_rst_exch == spec_join(rsub));
    assert(spec_tokens(q.rcvd_rst_exch) == rsub);
    if has_tx {
        assert(q.tx == Some(last));
    } else {
        assert(q.tx is None);
        assert(rsub.len() == toks.len() - rci - 1 >= 1);
        assert(rsub.last() == toks[toks.len() - 1]);
    }
    assert(7 + spec_tokens(q.sent_rst_exch).len() + spec_tokens(q.rcvd_rst_exch).len() + (
    if q.tx is Some {
        1int
    } else {
        0int
    }) == toks.len());
}

// ---------------------------------------------------------------------------
// Trimming shapes
// ---------------------------------------------------------------------------

proof fn lemma_ltrim_len(s: Seq<char>)
    ensures
        ltrim(s).len() <= s.len(),
    decreases s.len(),
{
    if s.len() > 0 && is_ws_char(s[0]) {
        lemma_ltrim_len(s.drop_first());
    }
}

proof fn lemma_rtrim_len(s: Seq<char>)
    ensures
        rtrim(s).len() <= s.len(),
    decreases s.len(),
{
    if s.len() > 0 && is_ws_char(s.last()) {
        lemma_rtrim_len(s.drop_last());
    }
}

/// What remains after trimming the right: a prefix, cut at the last
/// non-whitespace character.
pub proof fn lemma_rtrim_shape(s: Seq<char>)
    ensures
        rtrim(s).len() <= s.len(),
        rtrim(s) == s.take(rtrim(s).len() as int),
        forall|j: int| rtrim(s).len() <= j < s.len() ==> is_ws_char(#[trigger] s[j]),
        rtrim(s).len() > 0 ==> !is_ws_char(s[rtrim(s).len() - 1]),
    decreases s.len(),
{
    if s.len() > 0 && is_ws_char(s.last()) {
        lemma_rtrim_shape(s.drop_last());
        assert(s.drop_last().take(rtrim(s).len() as int) =~= s.take(rtrim(s).len() as int));
        assert forall|j: int| rtrim(s).len() <= j < s.len() implies is_ws_char(#[trigger] s[j]) by {
            if j < s.len() - 1 {
                assert(s.drop_last()[j] == s[j]);
            }
        }
        if rtrim(s).len() > 0 {
            assert(s.drop_last()[rtrim(s).len() - 1] == s[rtrim(s).len() - 1]);
        }
    } else {
        assert(s.take(s.len() as int) =~= s);
    }
}

/// A string with non-whitespace ends trims to itself.
pub proof fn lemma_trim_id(s: Seq<char>)
    requires
        s.len() > 0,
        !is_ws_char(s[0]),
        !is_ws_char(s.last()),
    ensures
        spec_trim(s) == s,
{
    assert(ltrim(s) == s);
    assert(rtrim(s) == s);
}

/// A trimmed non-empty string has non-whitespace ends.
pub proof fn lemma_trimmed_ends(s: Seq<char>)
    requires
        spec_trim(s) == s,
        s.len() > 0,
    ensures
        !is_ws_char(s[0]),
        !is_ws_char(s.last()),
{
    if is_ws_char(s[0]) {
        lemma_ltrim_len(s.drop_first());
        lemma_rtrim_len(ltrim(s));
        assert(spec_trim(s).len() < s.len());
    } else {
        assert(ltrim(s) == s);
        if is_ws_char(s.last()) {
            lemma_rtrim_len(s.drop_last());
            assert(spec_trim(s).len() < s.len());
        }
    }
}

// ---------------------------------------------------------------------------
// One parser step on a rendered contact line
// ---------------------------------------------------------------------------

/// A rendered contact line steps the parser into appending exactly that
/// contact, whether or not the header section was still open.
#[verifier::rlimit(100)]
pub proof fn lemma_step_qso_line(st: PState, q: QsoV)
    requires
        qso_rt(q),
    ensures
        step_line(st, spec_render_qso(q).drop_last()) == Ok::<PState, CabrilloErrorV>(
            PState { in_header: false, headers: st.headers, qsos: st.qsos.push(q) },
        ),
{
    let body = spec_render_qso(q).drop_last();
    lemma_render_qso_tokens(q);
    assert(ltrim(body) == body);
    let l = rtrim(body);
    assert(spec_trim(body) == l);
    lemma_rtrim_shape(body);
    lemma_tokens_rtrim(body);
    assert(spec_tokens(l) == qso_toks(q));
    assert(qso_toks(q).len() >= 10);
    if l.len() == 0 {
        assert(spec_tokens(l) =~= Seq::<Seq<char>>::empty());
        assert(false);
    }
    assert(l[0] == body[0]);
    assert(l[0] == 'Q');
    reveal_strlit("QSO: ");
    reveal_strlit("QSO:");
    reveal_strlit("X-QSO:");
    reveal_strlit("START-OF-LOG:");
    reveal_strlit("END-OF-LOG:");
    assert(l[0] != '#');
    // the line begins with the four marker characters and a colon
    assert("QSO: "@.is_prefix_of(body));
    assert(body[3] == "QSO: "@[3]);
    assert(body[3] == ':');
    assert(!is_ws_char(':'));
    if l.len() <= 3 {
        assert(is_ws_char(body[3]));
        assert(false);
    }
    assert(l.take(4) =~= "QSO:"@) by {
        assert(l[0] == body[0] && l[1] == body[1] && l[2] == body[2] && l[3] == body[3]);
        assert(body[0] == "QSO: "@[0] && body[1] == "QSO: "@[1] && body[2] == "QSO: "@[2]);
    }
    assert("QSO:"@.is_prefix_of(l)) by {
        assert(l.subrange(0, 4) =~= l.take(4));
    }
    assert(!"START-OF-LOG:"@.is_prefix_of(l)) by {
        if "START-OF-LOG:"@.is_prefix_of(l) {
            assert(l.subrange(0, 13)[0] == l[0]);
            assert(l[0] == 'S');
        }
    }
    assert(!"END-OF-LOG:"@.is_prefix_of(l)) by {
        if "END-OF-LOG:"@.is_prefix_of(l) {
            assert(l.subrange(0, 11)[0] == l[0]);
            assert(l[0] == 'E');
        }
    }
    lemma_parse_qso_toks_round_trip(q);
    assert(spec_parse_qso_line(l) == Ok::<QsoV, CabrilloErrorV>(q));
}

/// What remains after trimming the left: a suffix beginning at the first
/// non-whitespace character.
proof fn lemma_ltrim_shape(s: Seq<char>)
    ensures
        ltrim(s).len() <= s.len(),
        ltrim(s) == s.skip(s.len() - ltrim(s).len()),
        ltrim(s).len() > 0 ==> !is_ws_char(ltrim(s)[0]),
    decreases s.len(),
{
    if s.len() > 0 && is_ws_char(s[0]) {
        lemma_ltrim_shape(s.drop_first());
        let d = s.drop_first();
        assert(d.skip(d.len() - ltrim(s).len()) =~= s.skip(s.len() - ltrim(s).len()));
    } else {
        assert(s.skip(0) =~= s);
    }
}

/// Trimming twice is trimming once.
pub proof fn lemma_trim_idem(x: Seq<char>)
    ensures
        spec_trim(spec_trim(x)) == spec_trim(x),
{
    let t = spec_trim(x);
    if t.len() == 0 {
        assert(spec_trim(t) == t);
    } else {
        lemma_ltrim_shape(x);
        lemma_rtrim_shape(ltrim(x));
        assert(t == ltrim(x).take(t.len() as int));
        assert(!is_ws_char(t[t.len() - 1])) by {
            assert(t[t.len() - 1] == ltrim(x)[t.len() - 1]);
        }
        assert(!is_ws_char(t[0])) by {
            assert(t[0] == ltrim(x)[0]);
        }
        lemma_trim_id(t);
    }
}

/// Trimming cannot introduce a character the input lacks.
proof fn lemma_trim_no_char(x: Seq<char>, c: char)
    requires
        forall|j: int| 0 <= j < x.len() ==> #[trigger] x[j] != c,
    ensures
        forall|j: int| 0 <= j < spec_trim(x).len() ==> #[trigger] spec_trim(x)[j] != c,
{
    lemma_ltrim_shape(x);
    lemma_rtrim_shape(ltrim(x));
    let t = spec_trim(x);
    let a = x.len() - ltrim(x).len();
    assert forall|j: int| 0 <= j < t.len() implies #[trigger] t[j] != c by {
        assert(t[j] == ltrim(x)[j]);
        assert(ltrim(x)[j] == x[a + j]);
    }
}

// ---------------------------------------------------------------------------
// One parser step on a rendered header line
// ---------------------------------------------------------------------------

/// The shape every header entry produced by parsing has: both sides
/// trimmed, no colon in the key, no newline in either, and a key that does
/// not begin a comment.
pub open spec fn hdr_rt(h: (Seq<char>, Seq<char>)) -> bool {
    &&& spec_trim(h.0) == h.0
    &&& spec_trim(h.1) == h.1
    &&& upto_char(h.0, ':') == h.0.len()
    &&& upto_char(h.0, '\n') == h.0.len()
    &&& upto_char(h.1, '\n') == h.1.len()
    &&& (h.0.len() > 0 ==> h.0[0] != '#')
}

/// A key that does not collide with a marker word, so that its rendered
/// line reads back as a header line.
pub open spec fn hdr_plain(h: (Seq<char>, Seq<char>)) -> bool {
    h.0 != "QSO"@ && h.0 != "X-QSO"@ && h.0 != "START-OF-LOG"@ && h.0 != "END-OF-LOG"@
}

/// A line whose first colon sits at `kl` cannot start with a marker `m`
/// (a colon-free word `w` followed by a colon) unless the key is that word.
proof fn lemma_not_marker_prefix(l: Seq<char>, kl: int, w: Seq<char>, m: Seq<char>)
    requires
        0 <= kl < l.len(),
        forall|j: int| 0 <= j < kl ==> l[j] != ':',
        l[kl] == ':',
        m.len() == w.len() + 1,
        forall|j: int| 0 <= j < w.len() ==> m[j] == w[j] && #[trigger] w[j] != ':',
        m[w.len() as int] == ':',
        l.take(kl) != w,
    ensures
        !m.is_prefix_of(l),
{
    if m.is_prefix_of(l) {
        assert forall|j: int| 0 <= j < m.len() implies l[j] == m[j] by {
            assert(l.subrange(0, m.len() as int)[j] == l[j]);
        }
        let wl = w.len() as int;
        if kl < wl {
            assert(l[kl] == m[kl]);
            assert(m[kl] == w[kl]);
        } else if kl > wl {
            assert(l[wl] == m[wl]);
        } else {
            assert(l.take(kl) =~= w);
        }
    }
}

/// A rendered header line steps the parser into inserting exactly that
/// entry, with the header section still open.
#[verifier::rlimit(100)]
pub proof fn lemma_step_header_line(st: PState, h: (Seq<char>, Seq<char>))
    requires
        st.in_header,
        hdr_rt(h),
        hdr_plain(h),
    ensures
        spec_render_header(h) == spec_render_header(h).drop_last() + "\n"@,
        step_line(st, spec_render_header(h).drop_last()) == Ok::<PState, CabrilloErrorV>(
            PState { in_header: true, headers: spec_upsert(st.headers, h.0, h.1), qsos: st.qsos },
        ),
{
    reveal_strlit(": ");
    reveal_strlit("\n");
    let k = h.0;
    let v = h.1;
    let body = k + ": "@ + v;
    assert(": "@.len() == 2 && ": "@[0] == ':' && ": "@[1] == ' ');
    assert("\n"@.len() == 1);
    assert(spec_render_header(h) == body + "\n"@);
    assert(spec_render_header(h).drop_last() =~= body);
    lemma_upto_char_bounds(k, ':');
    let kl = k.len() as int;
    assert(body.len() == kl + 2 + v.len());
    if k.len() > 0 {
        lemma_trimmed_ends(k);
        assert(body[0] == k[0]);
    } else {
        assert(body[0] == ':');
    }
    assert(!is_ws_char(':')) by {
        assert(':' as u32 == 0x3A);
    }
    assert(!is_ws_char(body[0]));
    assert(ltrim(body) == body);
    let l = spec_trim(body);
    if v.len() > 0 {
        lemma_trimmed_ends(v);
        assert(body.last() == v.last());
        assert(rtrim(body) == body);
        assert(l == body);
    } else {
        assert(body.last() == ' ');
        assert(is_ws_char(' '));
        assert(body.drop_last() =~= k + seq![':']);
        assert(rtrim(body) == rtrim(body.drop_last()));
        assert((k + seq![':']).last() == ':');
        assert(rtrim(k + seq![':']) == k + seq![':']);
        assert(l == k + seq![':']);
    }
    assert(l.len() == kl + 1 + (if v.len() > 0 {
        1 + v.len() as int
    } else {
        0int
    }));
    assert forall|j: int| 0 <= j < kl implies l[j] == k[j] by {
        assert(body[j] == k[j]);
    }
    assert(l[kl] == ':');
    assert forall|j: int| 0 <= j < kl implies l[j] != ':' by {
        assert(l[j] == k[j]);
    }
    assert(l.take(kl) =~= k);
    if k.len() > 0 {
        assert(l[0] == k[0]);
        assert(l[0] != '#');
    } else {
        assert(l[0] == ':');
    }
    reveal_strlit("QSO:");
    reveal_strlit("QSO");
    reveal_strlit("X-QSO:");
    reveal_strlit("X-QSO");
    reveal_strlit("START-OF-LOG:");
    reveal_strlit("START-OF-LOG");
    reveal_strlit("END-OF-LOG:");
    reveal_strlit("END-OF-LOG");
    lemma_not_marker_prefix(l, kl, "QSO"@, "QSO:"@);
    lemma_not_marker_prefix(l, kl, "X-QSO"@, "X-QSO:"@);
    lemma_not_marker_prefix(l, kl, "START-OF-LOG"@, "START-OF-LOG:"@);
    lemma_not_marker_prefix(l, kl, "END-OF-LOG"@, "END-OF-LOG:"@);
    lemma_upto_char_at(l, ':', kl);
    assert(upto_char(l, ':') < l.len());
    assert(spec_trim(l.take(kl)) == k);
    let tail = l.skip(kl + 1);
    if v.len() > 0 {
        assert(tail =~= seq![' '] + v);
        assert(tail[0] == ' ');
        assert(is_ws_char(tail[0]));
        assert(tail.drop_first() =~= v);
        assert(ltrim(tail) == ltrim(v));
        lemma_trimmed_ends(v);
        assert(ltrim(v) == v);
        assert(rtrim(v) == v);
        assert(spec_trim(tail) == v);
    } else {
        assert(tail =~= Seq::<char>::empty());
        assert(spec_trim(tail) =~= v);
    }
    assert(step_line(st, body) == Ok::<PState, CabrilloErrorV>(
        PState { in_header: true, headers: spec_upsert(st.headers, k, v), qsos: st.qsos },
    ));
}

// ---------------------------------------------------------------------------
// The marker lines are skipped
// ---------------------------------------------------------------------------

pub proof fn lemma_step_start_marker(st: PState)
    ensures
        step_line(st, "START-OF-LOG: 3.0"@) == Ok::<PState, CabrilloErrorV>(st),
{
    reveal_strlit("START-OF-LOG: 3.0");
    reveal_strlit("START-OF-LOG:");
    let s = "START-OF-LOG: 3.0"@;
    assert(s.len() == 17);
    assert(!is_ws_char(s[0])) by {
        assert(s[0] == 'S');
    }
    assert(!is_ws_char(s.last())) by {
        assert(s.last() == '0');
    }
    lemma_trim_id(s);
    assert(s[0] != '#');
    assert("START-OF-LOG:"@.is_prefix_of(s)) by {
        assert("START-OF-LOG:"@ =~= s.subrange(0, 13));
    }
}

pub proof fn lemma_step_end_marker(st: PState)
    ensures
        step_line(st, "END-OF-LOG:"@) == Ok::<PState, CabrilloErrorV>(st),
{
    reveal_strlit("END-OF-LOG:");
    reveal_strlit("START-OF-LOG:");
    let s = "END-OF-LOG:"@;
    assert(s.len() == 11);
    assert(!is_ws_char(s[0])) by {
        assert(s[0] == 'E');
    }
    assert(!is_ws_char(s.last())) by {
        assert(s.last() == ':');
        assert(':' as u32 == 0x3A);
    }
    lemma_trim_id(s);
    assert(s[0] != '#');
    assert("END-OF-LOG:"@.is_prefix_of(s)) by {
        assert("END-OF-LOG:"@ =~= s.subrange(0, 11));
    }
}

// ---------------------------------------------------------------------------
// Lines of rendered text
// ---------------------------------------------------------------------------

/// Line splitting distributes over concatenation after a newline.
pub proof fn lemma_lines_concat(a: Seq<char>, b: Seq<char>)
    requires
        a.len() > 0,
        a.last() == '\n',
    ensures
        spec_lines(a + b) == spec_lines(a) + spec_lines(b),
    decreases a.len(),
{
    reveal_with_fuel(spec_lines, 2);
    let k = upto_char(a, '\n') as int;
    lemma_upto_char_bounds(a, '\n');
    if k == a.len() {
        assert(a[a.len() - 1] != '\n');
        assert(false);
    }
    assert forall|j: int| 0 <= j < k implies (a + b)[j] != '\n' by {
        assert((a + b)[j] == a[j]);
    }
    assert((a + b)[k] == a[k]);
    lemma_upto_char_at(a + b, '\n', k);
    assert((a + b).take(k) =~= a.take(k));
    if k == a.len() - 1 {
        assert(a.skip(k + 1) =~= Seq::<char>::empty());
        assert((a + b).skip(k + 1) =~= b);
        assert(spec_lines(a) =~= seq![strip_cr(a.take(k))]);
        if k + 1 == (a + b).len() {
            assert(b =~= Seq::<char>::empty());
            assert(spec_lines(a + b) =~= seq![strip_cr(a.take(k))]);
            assert(spec_lines(b) =~= Seq::<Seq<char>>::empty());
            assert(spec_lines(a) + spec_lines(b) =~= spec_lines(a + b));
        } else {
            assert(spec_lines(a + b) == seq![strip_cr((a + b).take(k))] + spec_lines(b));
            assert(spec_lines(a) + spec_lines(b) =~= spec_lines(a + b));
        }
    } else {
        assert(a.skip(k + 1).len() > 0);
        assert(a.skip(k + 1).last() == a.last());
        lemma_lines_concat(a.skip(k + 1), b);
        assert((a + b).skip(k + 1) =~= a.skip(k + 1) + b);
        assert(spec_lines(a + b) == seq![strip_cr((a + b).take(k))] + (spec_lines(a.skip(k + 1))
            + spec_lines(b)));
        assert(spec_lines(a) == seq![strip_cr(a.take(k))] + spec_lines(a.skip(k + 1)));
        assert(seq![strip_cr(a.take(k))] + (spec_lines(a.skip(k + 1)) + spec_lines(b)) =~= (seq![
            strip_cr(a.take(k)),
        ] + spec_lines(a.skip(k + 1))) + spec_lines(b));
    }
}

/// A newline-free segment followed by a newline is one line.
pub proof fn lemma_lines_single(x: Seq<char>)
    requires
        forall|j: int| 0 <= j < x.len() ==> #[trigger] x[j] != '\n',
        x.len() == 0 || x.last() != '\r',
    ensures
        spec_lines(x + "\n"@) == seq![x],
{
    reveal_strlit("\n");
    reveal_with_fuel(spec_lines, 2);
    let s = x + "\n"@;
    assert("\n"@.len() == 1 && "\n"@[0] == '\n');
    assert forall|j: int| 0 <= j < x.len() implies s[j] != '\n' by {
        assert(s[j] == x[j]);
    }
    assert(s[x.len() as int] == '\n');
    lemma_upto_char_at(s, '\n', x.len() as int);
    assert(s.take(x.len() as int) =~= x);
    assert(strip_cr(x) == x);
    assert(s.skip(x.len() as int + 1) =~= Seq::<char>::empty());
    assert(spec_lines(s) =~= seq![x]);
}

// ---------------------------------------------------------------------------
// Running the parser over concatenated line lists
// ---------------------------------------------------------------------------

/// No line of a text contains a newline.
pub proof fn lemma_lines_no_newline(s: Seq<char>)
    ensures
        forall|i: int, j: int|
            0 <= i < spec_lines(s).len() && 0 <= j < spec_lines(s)[i].len()
                ==> #[trigger] spec_lines(s)[i][j] != '\n',
    decreases s.len(),
{
    if s.len() > 0 {
        let k = upto_char(s, '\n') as int;
        lemma_upto_char_bounds(s, '\n');
        let line0 = strip_cr(s.take(k));
        assert forall|j: int| 0 <= j < line0.len() implies #[trigger] line0[j] != '\n' by {
            assert(line0[j] == s.take(k)[j]);
            assert(s.take(k)[j] == s[j]);
        }
        if k < s.len() {
            lemma_lines_no_newline(s.skip(k + 1));
            assert forall|i: int, j: int|
                0 <= i < spec_lines(s).len() && 0 <= j < spec_lines(s)[i].len() implies #[trigger] spec_lines(
                s,
            )[i][j] != '\n' by {
                if i == 0 {
                    assert(spec_lines(s)[0] == line0);
                } else {
                    assert(spec_lines(s)[i] == spec_lines(s.skip(k + 1))[i - 1]);
                }
            }
        } else {
            assert forall|i: int, j: int|
                0 <= i < spec_lines(s).len() && 0 <= j < spec_lines(s)[i].len() implies #[trigger] spec_lines(
                s,
            )[i][j] != '\n' by {
                assert(spec_lines(s)[i] == strip_cr(s));
                assert(strip_cr(s)[j] == s[j]);
            }
        }
    }
}

// ---------------------------------------------------------------------------
// What every parse result looks like
// ---------------------------------------------------------------------------

/// The running parser state only ever holds round-trippable content.
pub open spec fn st_rt(st: PState) -> bool {
    &&& headers_distinct(st.headers)
    &&& (forall|i: int| 0 <= i < st.headers.len() ==> hdr_rt(#[trigger] st.headers[i]))
    &&& (forall|i: int| 0 <= i < st.qsos.len() ==> qso_rt(#[trigger] st.qsos[i]))
}

/// The shape every parsed log has: distinct trimmed colon-free header
/// keys and round-trippable contacts.
pub open spec fn log_rt(l: LogV) -> bool {
    &&& headers_distinct(l.headers)
    &&& (forall|i: int| 0 <= i < l.headers.len() ==> hdr_rt(#[trigger] l.headers[i]))
    &&& (forall|i: int| 0 <= i < l.qsos.len() ==> qso_rt(#[trigger] l.qsos[i]))
}

#[verifier::rlimit(100)]
proof fn lemma_step_preserves_rt(st: PState, raw: Seq<char>)
    requires
        st_rt(st),
        step_line(st, raw) is Ok,
        forall|j: int| 0 <= j < raw.len() ==> #[trigger] raw[j] != '\n',
    ensures
        st_rt(step_line(st, raw)->Ok_0),
{
    let l = spec_trim(raw);
    lemma_trim_no_char(raw, '\n');
    if l.len() == 0 || l[0] == '#' {
    } else if "START-OF-LOG:"@.is_prefix_of(l) || "END-OF-LOG:"@.is_prefix_of(l) {
    } else if "QSO:"@.is_prefix_of(l) {
        match spec_parse_qso_line(l) {
            Ok(q) => {
                lemma_parse_qso_rt(l, q);
                let st2 = step_line(st, raw)->Ok_0;
                assert forall|i: int| 0 <= i < st2.qsos.len() implies qso_rt(
                    #[trigger] st2.qsos[i],
                ) by {
                    if i < st.qsos.len() {
                        assert(st2.qsos[i] == st.qsos[i]);
                    } else {
                        assert(st2.qsos[i] == q);
                    }
                }
            },
            Err(e) => {
                assert(false);
            },
        }
    } else if st.in_header {
        if "X-QSO:"@.is_prefix_of(l) {
        } else if upto_char(l, ':') < l.len() {
            let ci = upto_char(l, ':') as int;
            lemma_upto_char_bounds(l, ':');
            let k = spec_trim(l.take(ci));
            let v = spec_trim(l.skip(ci + 1));
            lemma_trim_idem(l.take(ci));
            lemma_trim_idem(l.skip(ci + 1));
            assert forall|j: int| 0 <= j < l.take(ci).len() implies #[trigger] l.take(ci)[j]
                != ':' by {
                assert(l.take(ci)[j] == l[j]);
            }
            lemma_trim_no_char(l.take(ci), ':');
            lemma_upto_char_at(k, ':', k.len() as int);
            assert forall|j: int| 0 <= j < l.take(ci).len() implies #[trigger] l.take(ci)[j]
                != '\n' by {
                assert(l.take(ci)[j] == l[j]);
            }
            lemma_trim_no_char(l.take(ci), '\n');
            lemma_upto_char_at(k, '\n', k.len() as int);
            assert forall|j: int| 0 <= j < l.skip(ci + 1).len() implies #[trigger] l.skip(
                ci + 1,
            )[j] != '\n' by {
                assert(l.skip(ci + 1)[j] == l[ci + 1 + j]);
            }
            lemma_trim_no_char(l.skip(ci + 1), '\n');
            lemma_upto_char_at(v, '\n', v.len() as int);
            if k.len() > 0 {
                // the key begins where the line begins, which is no comment
                lemma_trim_idem(raw);
                lemma_trimmed_ends(l);
                assert(!is_ws_char(l[0]));
                assert(l.take(ci)[0] == l[0]);
                assert(ltrim(l.take(ci)) == l.take(ci));
                lemma_rtrim_shape(l.take(ci));
                assert(k[0] == l.take(ci)[0]);
                assert(k[0] != '#');
            }
            assert(hdr_rt((k, v)));
            crate::log::lemma_upsert_distinct(st.headers, k, v);
            let st2 = step_line(st, raw)->Ok_0;
            assert(st2.headers == spec_upsert(st.headers, k, v));
            lemma_find_key_bounds(st.headers, k);
            let fi = find_key(st.headers, k);
            assert forall|i: int| 0 <= i < st2.headers.len() implies hdr_rt(
                #[trigger] st2.headers[i],
            ) by {
                if fi < st.headers.len() {
                    if i == fi {
                        assert(st2.headers[i] == (k, v));
                    } else {
                        assert(st2.headers[i] == st.headers[i]);
                    }
                } else {
                    if i < st.headers.len() {
                        assert(st2.headers[i] == st.headers[i]);
                    } else {
                        assert(st2.headers[i] == (k, v));
                    }
                }
            }
        } else {
        }
    } else {
    }
}

proof fn lemma_run_preserves_rt(st: PState, ls: Seq<Seq<char>>)
    requires
        st_rt(st),
        run_lines(st, ls) is Ok,
        forall|i: int, j: int|
            0 <= i < ls.len() && 0 <= j < ls[i].len() ==> #[trigger] ls[i][j] != '\n',
    ensures
        st_rt(run_lines(st, ls)->Ok_0),
    decreases ls.len(),
{
    if ls.len() > 0 {
        assert(forall|j: int| 0 <= j < ls[0].len() ==> #[trigger] ls[0][j] != '\n');
        lemma_step_preserves_rt(st, ls[0]);
        assert forall|i: int, j: int|
            0 <= i < ls.drop_first().len() && 0 <= j < ls.drop_first()[i].len() implies #[trigger] ls.drop_first()[i][j]
            != '\n' by {
            assert(ls.drop_first()[i] == ls[i + 1]);
        }
        lemma_run_preserves_rt(step_line(st, ls[0])->Ok_0, ls.drop_first());
    }
}

/// Whatever parsing accepts is round-trippable.
pub proof fn lemma_parse_output_rt(text: Seq<char>, l: LogV)
    requires
        spec_parse(text) == Ok::<LogV, CabrilloErrorV>(l),
    ensures
        log_rt(l),
{
    lemma_lines_no_newline(text);
    lemma_run_preserves_rt(init_state(), spec_lines(text));
}

pub proof fn lemma_run_lines_app(st: PState, l1: Seq<Seq<char>>, l2: Seq<Seq<char>>)
    requires
        run_lines(st, l1) is Ok,
    ensures
        run_lines(st, l1 + l2) == run_lines(run_lines(st, l1)->Ok_0, l2),
    decreases l1.len(),
{
    if l1.len() == 0 {
        assert(l1 + l2 =~= l2);
    } else {
        assert((l1 + l2)[0] == l1[0]);
        assert((l1 + l2).drop_first() =~= l1.drop_first() + l2);
        lemma_run_lines_app(step_line(st, l1[0])->Ok_0, l1.drop_first(), l2);
    }
}

// ---------------------------------------------------------------------------
// Rendered sections, as line lists
// ---------------------------------------------------------------------------

pub open spec fn hdr_lines(hs: Seq<(Seq<char>, Seq<char>)>) -> Seq<Seq<char>> {
    Seq::new(hs.len(), |i: int| spec_render_header(hs[i]).drop_last())
}

pub open spec fn qso_lines(qs: Seq<QsoV>) -> Seq<Seq<char>> {
    Seq::new(qs.len(), |i: int| spec_render_qso(qs[i]).drop_last())
}

#[verifier::rlimit(100)]
pub proof fn lemma_lines_render_headers(hs: Seq<(Seq<char>, Seq<char>)>)
    requires
        forall|i: int| 0 <= i < hs.len() ==> hdr_rt(#[trigger] hs[i]),
    ensures
        spec_lines(spec_render_headers(hs)) == hdr_lines(hs),
        hs.len() > 0 ==> spec_render_headers(hs).len() > 0 && spec_render_headers(hs).last()
            == '\n',
    decreases hs.len(),
{
    reveal_strlit(": ");
    reveal_strlit("\n");
    if hs.len() == 0 {
        assert(spec_lines(spec_render_headers(hs)) =~= hdr_lines(hs));
    } else {
        let h = hs[0];
        let k = h.0;
        let v = h.1;
        let body = k + ": "@ + v;
        let lf = spec_render_header(h);
        assert(": "@.len() == 2 && ": "@[0] == ':' && ": "@[1] == ' ');
        assert("\n"@.len() == 1 && "\n"@[0] == '\n');
        assert(lf == body + "\n"@);
        assert(lf.drop_last() =~= body);
        lemma_upto_char_bounds(k, '\n');
        lemma_upto_char_bounds(v, '\n');
        assert forall|j: int| 0 <= j < body.len() implies #[trigger] body[j] != '\n' by {
            if j < k.len() {
                assert(body[j] == k[j]);
            } else if j < k.len() + 2 {
                assert(body[j] == ": "@[j - k.len()]);
            } else {
                assert(body[j] == v[j - k.len() - 2]);
            }
        }
        if v.len() > 0 {
            lemma_trimmed_ends(v);
            assert(body.last() == v.last());
            assert(is_ws_char('\r'));
        } else {
            assert(body.last() == ' ');
        }
        assert(body.last() != '\r');
        lemma_lines_single(body);
        let rest = spec_render_headers(hs.drop_first());
        assert(spec_render_headers(hs) == lf + rest);
        assert(lf.last() == '\n');
        lemma_lines_concat(lf, rest);
        lemma_lines_render_headers(hs.drop_first());
        assert(hdr_lines(hs.drop_first()) =~= hdr_lines(hs).drop_first());
        assert(spec_lines(spec_render_headers(hs)) == seq![body] + hdr_lines(hs.drop_first()));
        assert(hdr_lines(hs)[0] == body);
        assert(seq![body] + hdr_lines(hs.drop_first()) =~= hdr_lines(hs));
        if hs.drop_first().len() > 0 {
            assert(spec_render_headers(hs).last() == rest.last());
        } else {
            assert(rest =~= Seq::<char>::empty());
            assert(spec_render_headers(hs) =~= lf);
        }
    }
}

#[verifier::rlimit(100)]
pub proof fn lemma_lines_render_qsos(qs: Seq<QsoV>)
    requires
        forall|i: int| 0 <= i < qs.len() ==> qso_rt(#[trigger] qs[i]),
    ensures
        spec_lines(spec_render_qsos(qs)) == qso_lines(qs),
        qs.len() > 0 ==> spec_render_qsos(qs).len() > 0 && spec_render_qsos(qs).last() == '\n',
    decreases qs.len(),
{
    reveal_strlit("\n");
    if qs.len() == 0 {
        assert(spec_lines(spec_render_qsos(qs)) =~= qso_lines(qs));
    } else {
        lemma_render_qso_tokens(qs[0]);
        let lf = spec_render_qso(qs[0]);
        let body = lf.drop_last();
        assert("\n"@.len() == 1 && "\n"@[0] == '\n');
        assert(lf == body + "\n"@);
        assert(is_ws_char('\n'));
        assert forall|j: int| 0 <= j < body.len() implies #[trigger] body[j] != '\n' by {
            assert(!is_ws_char(body[j]) || body[j] == ' ');
        }
        lemma_lines_single(body);
        let rest = spec_render_qsos(qs.drop_first());
        assert(spec_render_qsos(qs) == lf + rest);
        assert(lf.last() == '\n');
        lemma_lines_concat(lf, rest);
        lemma_lines_render_qsos(qs.drop_first());
        assert(qso_lines(qs.drop_first()) =~= qso_lines(qs).drop_first());
        assert(spec_lines(spec_render_qsos(qs)) == seq![body] + qso_lines(qs.drop_first()));
        assert(qso_lines(qs)[0] == body);
        assert(seq![body] + qso_lines(qs.drop_first()) =~= qso_lines(qs));
        if qs.drop_first().len() > 0 {
            assert(spec_render_qsos(qs).last() == rest.last());
        } else {
            assert(rest =~= Seq::<char>::empty());
            assert(spec_render_qsos(qs) =~= lf);
        }
    }
}

// ---------------------------------------------------------------------------
// Running the parser over rendered sections
// ---------------------------------------------------------------------------

/// Each entry inserted in order, first to last.
pub open spec fn fold_upserts(
    acc: Seq<(Seq<char>, Seq<char>)>,
    hs: Seq<(Seq<char>, Seq<char>)>,
) -> Seq<(Seq<char>, Seq<char>)>
    decreases hs.len(),
{
    if hs.len() == 0 {
        acc
    } else {
        fold_upserts(spec_upsert(acc, hs[0].0, hs[0].1), hs.drop_first())
    }
}

pub proof fn lemma_run_header_lines(st: PState, hs: Seq<(Seq<char>, Seq<char>)>)
    requires
        st.in_header,
        forall|i: int| 0 <= i < hs.len() ==> hdr_rt(#[trigger] hs[i]) && hdr_plain(hs[i]),
    ensures
        run_lines(st, hdr_lines(hs)) == Ok::<PState, CabrilloErrorV>(
            PState { in_header: true, headers: fold_upserts(st.headers, hs), qsos: st.qsos },
        ),
    decreases hs.len(),
{
    if hs.len() == 0 {
        assert(hdr_lines(hs) =~= Seq::<Seq<char>>::empty());
        assert(PState { in_header: true, headers: st.headers, qsos: st.qsos } =~= st);
    } else {
        lemma_step_header_line(st, hs[0]);
        assert(hdr_lines(hs)[0] == spec_render_header(hs[0]).drop_last());
        assert(hdr_lines(hs).drop_first() =~= hdr_lines(hs.drop_first()));
        let st2 = PState {
            in_header: true,
            headers: spec_upsert(st.headers, hs[0].0, hs[0].1),
            qsos: st.qsos,
        };
        lemma_run_header_lines(st2, hs.drop_first());
    }
}

pub proof fn lemma_run_qso_lines(st: PState, qs: Seq<QsoV>)
    requires
        forall|i: int| 0 <= i < qs.len() ==> qso_rt(#[trigger] qs[i]),
    ensures
        run_lines(st, qso_lines(qs)) == Ok::<PState, CabrilloErrorV>(
            PState {
                in_header: if qs.len() == 0 {
                    st.in_header
                } else {
                    false
                },
                headers: st.headers,
                qsos: st.qsos + qs,
            },
        ),
    decreases qs.len(),
{
    if qs.len() == 0 {
        assert(qso_lines(qs) =~= Seq::<Seq<char>>::empty());
        assert(st.qsos + qs =~= st.qsos);
        assert(PState { in_header: st.in_header, headers: st.headers, qsos: st.qsos + qs } =~= st);
    } else {
        lemma_step_qso_line(st, qs[0]);
        assert(qso_lines(qs)[0] == spec_render_qso(qs[0]).drop_last());
        assert(qso_lines(qs).drop_first() =~= qso_lines(qs.drop_first()));
        let st2 = PState { in_header: false, headers: st.headers, qsos: st.qsos.push(qs[0]) };
        lemma_run_qso_lines(st2, qs.drop_first());
        assert(st.qsos.push(qs[0]) + qs.drop_first() =~= st.qsos + qs);
    }
}

/// Inserting entries whose keys are all new simply appends them.
pub proof fn lemma_fold_upserts_fresh(
    acc: Seq<(Seq<char>, Seq<char>)>,
    hs: Seq<(Seq<char>, Seq<char>)>,
)
    requires
        headers_distinct(acc + hs),
    ensures
        fold_upserts(acc, hs) == acc + hs,
    decreases hs.len(),
{
    if hs.len() == 0 {
        assert(acc + hs =~= acc);
    } else {
        let k = hs[0].0;
        let v = hs[0].1;
        assert forall|j: int| 0 <= j < acc.len() implies (#[trigger] acc[j]).0 != k by {
            assert((acc + hs)[j] == acc[j]);
            assert((acc + hs)[acc.len() as int] == hs[0]);
        }
        lemma_find_key_at(acc, k, acc.len() as int);
        assert((k, v) == hs[0]);
        assert(spec_upsert(acc, k, v) == acc.push(hs[0]));
        assert(acc.push(hs[0]) + hs.drop_first() =~= acc + hs);
        lemma_fold_upserts_fresh(acc.push(hs[0]), hs.drop_first());
    }
}

// ---------------------------------------------------------------------------
// Sorting the headers is a permutation
// ---------------------------------------------------------------------------

proof fn lemma_insert_hdr_mem(
    x: (Seq<char>, Seq<char>),
    s: Seq<(Seq<char>, Seq<char>)>,
    y: (Seq<char>, Seq<char>),
)
    ensures
        spec_insert_hdr(x, s).len() == s.len() + 1,
        spec_insert_hdr(x, s).contains(y) <==> (y == x || s.contains(y)),
    decreases s.len(),
{
    let r = spec_insert_hdr(x, s);
    if s.len() == 0 {
        assert(r == seq![x]);
        if y == x {
            assert(r[0] == y);
        }
        if r.contains(y) {
            let i = choose|i: int| 0 <= i < r.len() && r[i] == y;
            assert(y == x);
        }
    } else if crate::log::str_le(x.0, s[0].0) {
        assert(r == seq![x] + s);
        if y == x {
            assert(r[0] == y);
        }
        if s.contains(y) {
            let i = choose|i: int| 0 <= i < s.len() && s[i] == y;
            assert(r[i + 1] == y);
        }
        if r.contains(y) {
            let i = choose|i: int| 0 <= i < r.len() && r[i] == y;
            if i > 0 {
                assert(s[i - 1] == y);
            }
        }
    } else {
        let inner = spec_insert_hdr(x, s.drop_first());
        assert(r == seq![s[0]] + inner);
        lemma_insert_hdr_mem(x, s.drop_first(), y);
        if y == x {
            assert(inner.contains(y));
            let i = choose|i: int| 0 <= i < inner.len() && inner[i] == y;
            assert(r[i + 1] == y);
        }
        if s.contains(y) {
            let i = choose|i: int| 0 <= i < s.len() && s[i] == y;
            if i == 0 {
                assert(r[0] == y);
            } else {
                assert(s.drop_first()[i - 1] == y);
                assert(s.drop_first().contains(y));
                assert(inner.contains(y));
                let m = choose|m: int| 0 <= m < inner.len() && inner[m] == y;
                assert(r[m + 1] == y);
            }
        }
        if r.contains(y) {
            let i = choose|i: int| 0 <= i < r.len() && r[i] == y;
            if i == 0 {
                assert(s[0] == y);
            } else {
                assert(inner[i - 1] == y);
                assert(inner.contains(y));
                if y != x {
                    assert(s.drop_first().contains(y));
                    let m = choose|m: int| 0 <= m < s.drop_first().len() && s.drop_first()[m] == y;
                    assert(s[m + 1] == y);
                }
            }
        }
    }
}

proof fn lemma_sort_mem(s: Seq<(Seq<char>, Seq<char>)>, y: (Seq<char>, Seq<char>))
    ensures
        spec_sort_hdrs(s).len() == s.len(),
        spec_sort_hdrs(s).contains(y) <==> s.contains(y),
    decreases s.len(),
{
    if s.len() > 0 {
        lemma_sort_mem(s.drop_first(), y);
        lemma_insert_hdr_mem(s[0], spec_sort_hdrs(s.drop_first()), y);
        if s.contains(y) {
            let i = choose|i: int| 0 <= i < s.len() && s[i] == y;
            if i > 0 {
                assert(s.drop_first()[i - 1] == y);
                assert(s.drop_first().contains(y));
            }
        }
        if y != s[0] && s.drop_first().contains(y) {
            let m = choose|m: int| 0 <= m < s.drop_first().len() && s.drop_first()[m] == y;
            assert(s[m + 1] == y);
        }
        if spec_sort_hdrs(s).contains(y) && y == s[0] {
            assert(s[0] == y);
        }
    }
}

proof fn lemma_insert_hdr_distinct(x: (Seq<char>, Seq<char>), s: Seq<(Seq<char>, Seq<char>)>)
    requires
        headers_distinct(s),
        forall|i: int| 0 <= i < s.len() ==> (#[trigger] s[i]).0 != x.0,
    ensures
        headers_distinct(spec_insert_hdr(x, s)),
    decreases s.len(),
{
    let r = spec_insert_hdr(x, s);
    if s.len() == 0 {
    } else if crate::log::str_le(x.0, s[0].0) {
        assert forall|a: int, b: int| 0 <= a < b < r.len() implies (#[trigger] r[a]).0 != (
        #[trigger] r[b]).0 by {
            if a == 0 {
                assert(r[b] == s[b - 1]);
            } else {
                assert(r[a] == s[a - 1] && r[b] == s[b - 1]);
            }
        }
    } else {
        let inner = spec_insert_hdr(x, s.drop_first());
        assert forall|i: int|
            0 <= i < s.drop_first().len() implies (#[trigger] s.drop_first()[i]).0 != x.0 by {
            assert(s.drop_first()[i] == s[i + 1]);
        }
        assert(headers_distinct(s.drop_first())) by {
            assert forall|a: int, b: int|
                0 <= a < b < s.drop_first().len() implies (#[trigger] s.drop_first()[a]).0 != (
            #[trigger] s.drop_first()[b]).0 by {
                assert(s.drop_first()[a] == s[a + 1] && s.drop_first()[b] == s[b + 1]);
            }
        }
        lemma_insert_hdr_distinct(x, s.drop_first());
        // the head's key is neither x's nor any of the tail's
        assert forall|m: int| 0 <= m < inner.len() implies (#[trigger] inner[m]).0 != s[0].0 by {
            assert(inner.contains(inner[m]));
            lemma_insert_hdr_mem(x, s.drop_first(), inner[m]);
            if inner[m] == x {
            } else {
                let j = choose|j: int|
                    0 <= j < s.drop_first().len() && #[trigger] s.drop_first()[j] == inner[m];
                assert(s[j + 1] == inner[m]);
            }
        }
        assert forall|a: int, b: int| 0 <= a < b < r.len() implies (#[trigger] r[a]).0 != (
        #[trigger] r[b]).0 by {
            if a == 0 {
                assert(r[b] == inner[b - 1]);
            } else {
                assert(r[a] == inner[a - 1] && r[b] == inner[b - 1]);
            }
        }
    }
}

proof fn lemma_sort_distinct(s: Seq<(Seq<char>, Seq<char>)>)
    requires
        headers_distinct(s),
    ensures
        headers_distinct(spec_sort_hdrs(s)),
    decreases s.len(),
{
    if s.len() > 0 {
        let rest = s.drop_first();
        assert(headers_distinct(rest)) by {
            assert forall|a: int, b: int| 0 <= a < b < rest.len() implies (#[trigger] rest[a]).0
                != (#[trigger] rest[b]).0 by {
                assert(rest[a] == s[a + 1] && rest[b] == s[b + 1]);
            }
        }
        lemma_sort_distinct(rest);
        let sorted_rest = spec_sort_hdrs(rest);
        assert forall|i: int| 0 <= i < sorted_rest.len() implies (#[trigger] sorted_rest[i]).0
            != s[0].0 by {
            assert(sorted_rest.contains(sorted_rest[i]));
            lemma_sort_mem(rest, sorted_rest[i]);
            let j = choose|j: int| 0 <= j < rest.len() && #[trigger] rest[j] == sorted_rest[i];
            assert(s[j + 1] == sorted_rest[i]);
        }
        lemma_insert_hdr_distinct(s[0], sorted_rest);
    }
}

proof fn lemma_headers_map_key_exists(hs: Seq<(Seq<char>, Seq<char>)>, k: Seq<char>)
    requires
        headers_map(hs).contains_key(k),
    ensures
        exists|i: int| 0 <= i < hs.len() && (#[trigger] hs[i]).0 == k,
    decreases hs.len(),
{
    if hs.len() > 0 {
        if hs.last().0 == k {
            assert(hs[hs.len() - 1].0 == k);
        } else {
            lemma_headers_map_key_exists(hs.drop_last(), k);
            let w = choose|i: int|
                0 <= i < hs.drop_last().len() && (#[trigger] hs.drop_last()[i]).0 == k;
            assert(hs[w].0 == k);
        }
    }
}

/// With distinct keys, sorting the entries leaves the mapping unchanged.
pub proof fn lemma_sorted_map_eq(s: Seq<(Seq<char>, Seq<char>)>)
    requires
        headers_distinct(s),
    ensures
        headers_map(spec_sort_hdrs(s)) == headers_map(s),
{
    let t = spec_sort_hdrs(s);
    lemma_sort_distinct(s);
    assert forall|k: Seq<char>| #[trigger] headers_map(s).contains_key(k) implies headers_map(
        t,
    ).contains_key(k) && headers_map(t)[k] == headers_map(s)[k] by {
        lemma_headers_map_key_exists(s, k);
        let j = choose|j: int| 0 <= j < s.len() && (#[trigger] s[j]).0 == k;
        lemma_headers_map_at(s, k, j);
        let p = s[j];
        assert(s.contains(p));
        lemma_sort_mem(s, p);
        let i = choose|i: int| 0 <= i < t.len() && #[trigger] t[i] == p;
        lemma_headers_map_at(t, k, i);
    }
    assert forall|k: Seq<char>| #[trigger] headers_map(t).contains_key(k) implies headers_map(
        s,
    ).contains_key(k) by {
        lemma_headers_map_key_exists(t, k);
        let i = choose|i: int| 0 <= i < t.len() && (#[trigger] t[i]).0 == k;
        let p = t[i];
        assert(t.contains(p));
        lemma_sort_mem(s, p);
        let j = choose|j: int| 0 <= j < s.len() && #[trigger] s[j] == p;
        lemma_headers_map_at(s, k, j);
    }
    assert(headers_map(t) =~= headers_map(s));
}

// ---------------------------------------------------------------------------
// The round trip itself
// ---------------------------------------------------------------------------

/// Serializing a round-trippable log and parsing the result succeeds and
/// reproduces the same header mapping and the same contact sequence; the
/// headers come back sorted by key.
#[verifier::rlimit(100)]
pub proof fn lemma_serialize_parse_round_trip(l: LogV)
    requires
        log_rt(l),
        forall|i: int| 0 <= i < l.headers.len() ==> hdr_plain(#[trigger] l.headers[i]),
    ensures
        spec_parse(spec_serialize(l)) is Ok,
        spec_parse(spec_serialize(l))->Ok_0.qsos == l.qsos,
        spec_parse(spec_serialize(l))->Ok_0.headers == spec_sort_hdrs(l.headers),
        headers_map(spec_parse(spec_serialize(l))->Ok_0.headers) == headers_map(l.headers),
{
    reveal_strlit("START-OF-LOG: 3.0\n");
    reveal_strlit("START-OF-LOG: 3.0");
    reveal_strlit("END-OF-LOG:\n");
    reveal_strlit("END-OF-LOG:");
    reveal_strlit("\n");
    let sorted = spec_sort_hdrs(l.headers);
    lemma_sort_distinct(l.headers);
    assert forall|i: int| 0 <= i < sorted.len() implies hdr_rt(#[trigger] sorted[i]) && hdr_plain(
        sorted[i],
    ) by {
        assert(sorted.contains(sorted[i]));
        lemma_sort_mem(l.headers, sorted[i]);
        let j = choose|j: int| 0 <= j < l.headers.len() && #[trigger] l.headers[j] == sorted[i];
        assert(hdr_rt(l.headers[j]) && hdr_plain(l.headers[j]));
    }
    let hpart = spec_render_headers(sorted);
    let qpart = spec_render_qsos(l.qsos);
    let m1 = "START-OF-LOG: 3.0\n"@;
    let m2 = "END-OF-LOG:\n"@;
    let m1b = "START-OF-LOG: 3.0"@;
    let m2b = "END-OF-LOG:"@;
    let text = spec_serialize(l);
    assert(text == m1 + hpart + qpart + m2);
    // the lines of the serialized text
    assert(m1.len() == 18 && m1b.len() == 17);
    assert(m1 =~= m1b + "\n"@);
    assert(m1.last() == '\n');
    assert forall|j: int| 0 <= j < m1b.len() implies #[trigger] m1b[j] != '\n' by {
        assert(m1b[j] == m1[j]);
    }
    lemma_lines_single(m1b);
    assert(m2.len() == 12 && m2b.len() == 11);
    assert(m2 =~= m2b + "\n"@);
    assert forall|j: int| 0 <= j < m2b.len() implies #[trigger] m2b[j] != '\n' by {
        assert(m2b[j] == m2[j]);
    }
    lemma_lines_single(m2b);
    lemma_lines_render_headers(sorted);
    lemma_lines_render_qsos(l.qsos);
    let tail2 = qpart + m2;
    let tail1 = hpart + tail2;
    assert(text =~= m1 + tail1);
    lemma_lines_concat(m1, tail1);
    if l.qsos.len() > 0 {
        lemma_lines_concat(qpart, m2);
    } else {
        assert(qpart =~= Seq::<char>::empty());
        assert(tail2 =~= m2);
        assert(qso_lines(l.qsos) =~= Seq::<Seq<char>>::empty());
    }
    assert(spec_lines(tail2) == qso_lines(l.qsos) + seq![m2b]) by {
        if l.qsos.len() > 0 {
        } else {
            assert(qso_lines(l.qsos) + seq![m2b] =~= seq![m2b]);
        }
    }
    if sorted.len() > 0 {
        lemma_lines_concat(hpart, tail2);
    } else {
        assert(hpart =~= Seq::<char>::empty());
        assert(tail1 =~= tail2);
        assert(hdr_lines(sorted) =~= Seq::<Seq<char>>::empty());
    }
    assert(spec_lines(tail1) == hdr_lines(sorted) + (qso_lines(l.qsos) + seq![m2b])) by {
        if sorted.len() > 0 {
        } else {
            assert(hdr_lines(sorted) + (qso_lines(l.qsos) + seq![m2b]) =~= qso_lines(l.qsos)
                + seq![m2b]);
        }
    }
    assert(spec_lines(text) == seq![m1b] + (hdr_lines(sorted) + (qso_lines(l.qsos) + seq![m2b])));
    // running the parser over those lines
    let st0 = init_state();
    lemma_step_start_marker(st0);
    let after_hdrs = PState {
        in_header: true,
        headers: fold_upserts(st0.headers, sorted),
        qsos: st0.qsos,
    };
    lemma_run_header_lines(st0, sorted);
    assert(Seq::<(Seq<char>, Seq<char>)>::empty() + sorted =~= sorted);
    lemma_fold_upserts_fresh(st0.headers, sorted);
    assert(after_hdrs.headers == sorted);
    lemma_run_qso_lines(after_hdrs, l.qsos);
    let after_qsos = PState {
        in_header: if l.qsos.len() == 0 {
            true
        } else {
            false
        },
        headers: sorted,
        qsos: Seq::<QsoV>::empty() + l.qsos,
    };
    assert(after_qsos.qsos =~= l.qsos);
    lemma_step_end_marker(after_qsos);
    // compose the runs
    lemma_run_lines_app(st0, hdr_lines(sorted), qso_lines(l.qsos) + seq![m2b]);
    lemma_run_lines_app(after_hdrs, qso_lines(l.qsos), seq![m2b]);
    assert(run_lines(after_qsos, seq![m2b]) == Ok::<PState, CabrilloErrorV>(after_qsos)) by {
        reveal_with_fuel(run_lines, 2);
        assert(seq![m2b][0] == m2b);
        assert(seq![m2b].drop_first() =~= Seq::<Seq<char>>::empty());
    }
    assert(run_lines(after_hdrs, qso_lines(l.qsos) + seq![m2b]) == Ok::<PState, CabrilloErrorV>(
        after_qsos,
    ));
    assert(run_lines(st0, hdr_lines(sorted) + (qso_lines(l.qsos) + seq![m2b])) == Ok::<
        PState,
        CabrilloErrorV,
    >(after_qsos)) by {
        assert(hdr_lines(sorted) + (qso_lines(l.qsos) + seq![m2b]) =~= (hdr_lines(sorted)
            + qso_lines(l.qsos)) + seq![m2b]);
        lemma_run_lines_app(st0, hdr_lines(sorted), qso_lines(l.qsos) + seq![m2b]);
    }
    let all = spec_lines(text);
    assert(all[0] == m1b);
    assert(all.drop_first() =~= hdr_lines(sorted) + (qso_lines(l.qsos) + seq![m2b]));
    assert(run_lines(st0, all) == Ok::<PState, CabrilloErrorV>(after_qsos));
    lemma_sorted_map_eq(l.headers);
}

/// Round trip: any log produced by parsing, once serialized, parses again
/// to the same header mapping and the same ordered contact sequence —
/// provided no header key is itself one of the marker words, whose
/// rendered line would be mistaken for a marker.
pub proof fn lemma_parse_serialize_round_trip(text: Seq<char>, l: LogV)
    requires
        spec_parse(text) == Ok::<LogV, CabrilloErrorV>(l),
        forall|i: int| 0 <= i < l.headers.len() ==> hdr_plain(#[trigger] l.headers[i]),
    ensures
        spec_parse(spec_serialize(l)) is Ok,
        spec_parse(spec_serialize(l))->Ok_0.qsos == l.qsos,
        headers_map(spec_parse(spec_serialize(l))->Ok_0.headers) == headers_map(l.headers),
{
    lemma_parse_output_rt(text, l);
    lemma_serialize_parse_round_trip(l);
}

} // verus!
