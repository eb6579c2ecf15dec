//! Geographic entities and the prefix index built from master-data rows:
//! comma-separated fields, a country name with an optional `/part`
//! qualifier, checked numeric fields, and a semicolon-terminated alias
//! prefix list whose leading `=` markers are stripped.

use vstd::prelude::*;

use crate::qso::{CabrilloError, CabrilloErrorV};
use crate::text::{
    digit_val,
    digits_len,
    is_digit_char,
    is_digit_c,
    lemma_digits_len_at,
    lemma_digits_len_bounds,
    spec_split,
    split_char,
    spec_join_char,
    join_char_range,
    spec_tokens,
    split_ws,
    spec_trim,
    trim,
    str_eq_str,
    str_starts_with,
};

verus! {

// ---------------------------------------------------------------------------
// Unsigned decimal reading
// ---------------------------------------------------------------------------

/// The number denoted by a digit string, most significant digit first.
pub open spec fn uval(s: Seq<char>) -> int
    decreases s.len(),
{
    if s.len() == 0 {
        0
    } else {
        uval(s.drop_last()) * 10 + digit_val(s.last())
    }
}

pub proof fn lemma_uval_take_step(s: Seq<char>, i: int)
    requires
        0 <= i < s.len(),
    ensures
        uval(s.take(i + 1)) == uval(s.take(i)) * 10 + digit_val(s[i]),
{
    assert(s.take(i + 1).drop_last() =~= s.take(i));
    assert(s.take(i + 1).last() == s[i]);
}

pub proof fn lemma_uval_nonneg(s: Seq<char>)
    requires
        forall|j: int| 0 <= j < s.len() ==> is_digit_char(#[trigger] s[j]),
    ensures
        uval(s) >= 0,
    decreases s.len(),
{
    if s.len() > 0 {
        lemma_uval_nonneg(s.drop_last());
        assert(is_digit_char(s.last()));
    }
}

/// A digit string's value only grows as digits are appended.
pub proof fn lemma_uval_mono(s: Seq<char>, i: int)
    requires
        0 <= i <= s.len(),
        forall|j: int| 0 <= j < s.len() ==> is_digit_char(#[trigger] s[j]),
    ensures
        uval(s) >= uval(s.take(i)),
    decreases s.len() - i,
{
    if i == s.len() {
        assert(s.take(i) =~= s);
    } else {
        lemma_uval_take_step(s, i);
        assert forall|j: int| 0 <= j < s.take(i).len() implies is_digit_char(
            #[trigger] s.take(i)[j],
        ) by {
            assert(s.take(i)[j] == s[j]);
        }
        lemma_uval_nonneg(s.take(i));
        assert(is_digit_char(s[i]));
        assert(uval(s.take(i + 1)) >= uval(s.take(i)));
        lemma_uval_mono(s, i + 1);
    }
}

/// What `str::parse::<u32>` accepts: an optional `+`, then digits whose
/// value fits.
pub open spec fn spec_parse_u32(s: Seq<char>) -> Option<u32> {
    let b = if s.len() > 0 && s[0] == '+' {
        s.drop_first()
    } else {
        s
    };
    if b.len() > 0 && digits_len(b) == b.len() && uval(b) <= u32::MAX {
        Some(uval(b) as u32)
    } else {
        None
    }
}

/// Reads an unsigned 32-bit decimal, rejecting overflow.
pub fn parse_u32(tok: &str) -> (r: Option<u32>)
    ensures
        r == spec_parse_u32(tok@),
{
    let n = tok.unicode_len();
    let start: usize = if n > 0 && tok.get_char(0) == '+' {
        1
    } else {
        0
    };
    let ghost b = tok@.skip(start as int);
    proof {
        if start == 1 {
            assert(b =~= tok@.drop_first());
        } else {
            assert(b =~= tok@);
        }
    }
    if start == n {
        return None;
    }
    let mut acc: u64 = 0;
    let mut i = start;
    while i < n
        invariant
            start <= i <= n,
            n == tok@.len(),
            b == tok@.skip(start as int),
            b == (if tok@.len() > 0 && tok@[0] == '+' {
                tok@.drop_first()
            } else {
                tok@
            }),
            forall|m: int| 0 <= m < i - start ==> is_digit_char(#[trigger] b[m]),
            acc == uval(b.take(i - start)),
            acc <= u32::MAX,
        decreases n - i,
    {
        let c = tok.get_char(i);
        proof {
            assert(b[i - start] == tok@[i as int]);
        }
        if !is_digit_c(c) {
            proof {
                lemma_digits_len_bounds(b);
                if digits_len(b) == b.len() {
                    assert(is_digit_char(b[i - start]));
                }
            }
            return None;
        }
        acc = acc * 10 + ((c as u32 - 0x30) as u64);
        proof {
            lemma_uval_take_step(b, i - start);
        }
        if acc > 0xFFFF_FFFF {
            proof {
                lemma_digits_len_bounds(b);
                if digits_len(b) == b.len() {
                    lemma_uval_mono(b, i + 1 - start);
                }
            }
            return None;
        }
        i += 1;
    }
    proof {
        lemma_digits_len_at(b, n - start as int);
        assert(b.take(n - start as int) =~= b);
    }
    Some(acc as u32)
}

// ---------------------------------------------------------------------------
// Signed fixed-point reading, in thousandths
// ---------------------------------------------------------------------------

/// The thousandths denoted by a fraction string's first three digits.
pub open spec fn frac_milli(f: Seq<char>) -> int {
    if f.len() == 0 {
        0
    } else if f.len() == 1 {
        digit_val(f[0]) * 100
    } else if f.len() == 2 {
        digit_val(f[0]) * 100 + digit_val(f[1]) * 10
    } else {
        digit_val(f[0]) * 100 + digit_val(f[1]) * 10 + digit_val(f[2])
    }
}

/// What a plain decimal number (optional sign, digits, optional fraction)
/// denotes in thousandths, truncated after three fractional digits; `None`
/// on any other shape or when the value does not fit.
pub open spec fn spec_parse_milli(s: Seq<char>) -> Option<i64> {
    let neg = s.len() > 0 && s[0] == '-';
    let b = if s.len() > 0 && (s[0] == '+' || s[0] == '-') {
        s.drop_first()
    } else {
        s
    };
    let d1 = digits_len(b) as int;
    let ip = b.take(d1);
    let rest = b.skip(d1);
    let shape_ok = if rest.len() == 0 {
        d1 > 0
    } else {
        rest[0] == '.' && digits_len(rest.drop_first()) == rest.len() - 1 && (d1 > 0 || rest.len()
            > 1)
    };
    if shape_ok {
        let frac = if rest.len() == 0 {
            Seq::<char>::empty()
        } else {
            rest.drop_first()
        };
        let mag = uval(ip) * 1000 + frac_milli(frac);
        if mag <= i64::MAX {
            if neg {
                Some((-mag) as i64)
            } else {
                Some(mag as i64)
            }
        } else {
            None
        }
    } else {
        None
    }
}

/// Reads a signed decimal into thousandths; the fraction is truncated
/// after three digits.
#[verifier::rlimit(100)]
pub fn parse_milli(tok: &str) -> (r: Option<i64>)
    ensures
        r == spec_parse_milli(tok@),
{
    let n = tok.unicode_len();
    let signed = n > 0 && (tok.get_char(0) == '+' || tok.get_char(0) == '-');
    let neg = n > 0 && tok.get_char(0) == '-';
    let start: usize = if signed {
        1
    } else {
        0
    };
    let ghost b = tok@.skip(start as int);
    proof {
        if start == 1 {
            assert(b =~= tok@.drop_first());
        } else {
            assert(b =~= tok@);
        }
    }
    // integer part
    let mut acc: u64 = 0;
    let mut i = start;
    while i < n && is_digit_c(tok.get_char(i))
        invariant
            start <= i <= n,
            n == tok@.len(),
            b == tok@.skip(start as int),
            b == (if tok@.len() > 0 && (tok@[0] == '+' || tok@[0] == '-') {
                tok@.drop_first()
            } else {
                tok@
            }),
            neg == (tok@.len() > 0 && tok@[0] == '-'),
            forall|m: int| 0 <= m < i - start ==> is_digit_char(#[trigger] b[m]),
            acc == uval(b.take(i - start)),
            acc <= 9_223_372_036_854_775u64,
        decreases n - i,
    {
        proof {
            assert(b[i - start] == tok@[i as int]);
        }
        let c = tok.get_char(i);
        acc = acc * 10 + ((c as u32 - 0x30) as u64);
        proof {
            lemma_uval_take_step(b, i - start);
        }
        if acc > 9_223_372_036_854_775u64 {
            // too large whatever follows: the magnitude is at least this
            // integer part in thousandths
            proof {
                let d1 = digits_len(b) as int;
                lemma_digits_len_bounds(b);
                assert(is_digit_char(b[i - start]));
                if d1 < i + 1 - start {
                    assert(!is_digit_char(b[d1]));
                    assert(false);
                }
                let ip = b.take(d1);
                assert forall|j: int| 0 <= j < ip.len() implies is_digit_char(
                    #[trigger] ip[j],
                ) by {
                    assert(ip[j] == b[j]);
                }
                assert(ip.take(i + 1 - start) =~= b.take(i + 1 - start));
                lemma_uval_mono(ip, i + 1 - start);
                assert(uval(ip) > 9_223_372_036_854_775);
                if spec_parse_milli(tok@) is Some {
                    let rest = b.skip(d1);
                    let frac = if rest.len() == 0 {
                        Seq::<char>::empty()
                    } else {
                        rest.drop_first()
                    };
                    assert(frac_milli(frac) >= 0) by {
                        lemma_digits_len_bounds(frac);
                    }
                    assert(uval(ip) * 1000 + frac_milli(frac) > i64::MAX);
                    assert(false);
                }
            }
            return None;
        }
        i += 1;
    }
    proof {
        if i < n {
            assert(b[i - start] == tok@[i as int]);
        }
        lemma_digits_len_at(b, i - start);
        assert(b.take(digits_len(b) as int) =~= b.take(i - start));
    }
    let d1 = i - start;
    if i == n {
        if d1 == 0 {
            return None;
        }
        proof {
            assert(b.skip(i - start) =~= Seq::<char>::empty());
        }
        let mag = acc * 1000;
        if neg {
            return Some(-(mag as i64));
        }
        return Some(mag as i64);
    }
    proof {
        assert(b.skip(i - start)[0] == b[i - start]);
    }
    if tok.get_char(i) != '.' {
        return None;
    }
    // fraction
    let fs = i + 1;
    let mut j = fs;
    let mut fval: u64 = 0;
    let mut fdigits: usize = 0;
    while j < n && is_digit_c(tok.get_char(j))
        invariant
            fs <= j <= n,
            fs <= n + 1,
            n == tok@.len(),
            b == tok@.skip(start as int),
            start < fs,
            forall|m: int| fs <= m < j ==> is_digit_char(#[trigger] tok@[m]),
            fdigits == j - fs,
            fval == frac_milli(tok@.subrange(fs as int, j as int)),
            fval <= 999,
        decreases n - j,
    {
        let c = tok.get_char(j);
        let d = (c as u32 - 0x30) as u64;
        proof {
            assert(tok@.subrange(fs as int, j + 1) =~= tok@.subrange(fs as int, j as int).push(
                tok@[j as int],
            ));
        }
        if fdigits == 0 {
            fval = d * 100;
        } else if fdigits == 1 {
            fval = fval + d * 10;
        } else if fdigits == 2 {
            fval = fval + d;
        }
        proof {
            let pre = tok@.subrange(fs as int, j as int);
            let post = tok@.subrange(fs as int, j + 1);
            assert(post.len() == fdigits + 1);
            if fdigits >= 3 {
                assert(frac_milli(post) == frac_milli(pre)) by {
                    assert(post[0] == pre[0] && post[1] == pre[1] && post[2] == pre[2]);
                }
            } else {
                if fdigits >= 1 {
                    assert(post[0] == pre[0]);
                }
                if fdigits >= 2 {
                    assert(post[1] == pre[1]);
                }
                assert(post[fdigits as int] == tok@[j as int]);
            }
        }
        fdigits += 1;
        j += 1;
    }
    if j < n {
        // a non-digit inside the fraction: not a plain decimal
        proof {
            let rest = b.skip(d1 as int);
            let frac = rest.drop_first();
            assert(frac =~= tok@.skip(fs as int));
            assert forall|m: int| 0 <= m < j - fs implies is_digit_char(#[trigger] frac[m]) by {
                assert(frac[m] == tok@[fs + m]);
            }
            assert(frac[j - fs] == tok@[j as int]);
            lemma_digits_len_at(frac, j - fs);
        }
        return None;
    }
    if d1 == 0 && fdigits == 0 {
        return None;
    }
    let mag: u64 = acc * 1000 + fval;
    proof {
        let rest = b.skip(d1 as int);
        let frac = rest.drop_first();
        assert(frac =~= tok@.skip(fs as int));
        assert forall|m: int| 0 <= m < frac.len() implies is_digit_char(#[trigger] frac[m]) by {
            assert(frac[m] == tok@[fs + m]);
        }
        lemma_digits_len_at(frac, frac.len() as int);
        assert(frac =~= tok@.subrange(fs as int, n as int));
    }
    if mag > 0x7FFF_FFFF_FFFF_FFFFu64 {
        return None;
    }
    if neg {
        Some(-(mag as i64))
    } else {
        Some(mag as i64)
    }
}

// ---------------------------------------------------------------------------
// The entity record
// ---------------------------------------------------------------------------

/// A geographic/regulatory entity.  `latitude` and `longitude` are in
/// thousandths of a degree, `time_offset` in thousandths of an hour.
#[derive(Debug, Clone, PartialEq)]
pub struct Entity {
    pub main_prefix: String,
    pub country: String,
    pub cq_zone: u32,
    pub itu_zone: u32,
    pub continent: String,
    pub latitude: i64,
    pub longitude: i64,
    pub time_offset: i64,
    pub dxcc: u32,
    pub part: Option<String>,
}

/// The mathematical shadow of [`Entity`].
#[verifier::ext_equal]
pub struct EntityV {
    pub main_prefix: Seq<char>,
    pub country: Seq<char>,
    pub cq_zone: u32,
    pub itu_zone: u32,
    pub continent: Seq<char>,
    pub latitude: i64,
    pub longitude: i64,
    pub time_offset: i64,
    pub dxcc: u32,
    pub part: Option<Seq<char>>,
}

impl View for Entity {
    type V = EntityV;

    open spec fn view(&self) -> EntityV {
        EntityV {
            main_prefix: self.main_prefix@,
            country: self.country@,
            cq_zone: self.cq_zone,
            itu_zone: self.itu_zone,
            continent: self.continent@,
            latitude: self.latitude,
            longitude: self.longitude,
            time_offset: self.time_offset,
            dxcc: self.dxcc,
            part: if self.part is Some {
                Some(self.part->Some_0@)
            } else {
                None
            },
        }
    }
}

impl DeepView for Entity {
    type V = EntityV;

    open spec fn deep_view(&self) -> EntityV {
        self.view()
    }
}

impl Entity {
    /// A copy equal to `self` under the view.
    pub fn duplicate(&self) -> (r: Entity)
        ensures
            r@ == self@,
    {
        let part: Option<String> = match &self.part {
            Some(p) => Some(p.clone()),
            None => None,
        };
        let r = Entity {
            main_prefix: self.main_prefix.clone(),
            country: self.country.clone(),
            cq_zone: self.cq_zone,
            itu_zone: self.itu_zone,
            continent: self.continent.clone(),
            latitude: self.latitude,
            longitude: self.longitude,
            time_offset: self.time_offset,
            dxcc: self.dxcc,
            part,
        };
        proof {
            assert(r@ =~= self@);
        }
        r
    }
}

// ---------------------------------------------------------------------------
// Key-value sequences of entities
// ---------------------------------------------------------------------------

/// Index of the first entry with key `k`, or the length if absent.
pub open spec fn kv_find(s: Seq<(Seq<char>, EntityV)>, k: Seq<char>) -> int
    decreases s.len(),
{
    if s.len() == 0 {
        0
    } else if s[0].0 == k {
        0
    } else {
        1 + kv_find(s.drop_first(), k)
    }
}

pub proof fn lemma_kv_find_bounds(s: Seq<(Seq<char>, EntityV)>, k: Seq<char>)
    ensures
        0 <= kv_find(s, k) <= s.len(),
        forall|j: int| 0 <= j < kv_find(s, k) ==> (#[trigger] s[j]).0 != k,
        kv_find(s, k) < s.len() ==> s[kv_find(s, k)].0 == k,
    decreases s.len(),
{
    if s.len() > 0 && s[0].0 != k {
        lemma_kv_find_bounds(s.drop_first(), k);
        assert forall|j: int| 0 <= j < kv_find(s, k) implies (#[trigger] s[j]).0 != k by {
            if j > 0 {
                assert(s.drop_first()[j - 1] == s[j]);
            }
        }
    }
}

pub proof fn lemma_kv_find_at(s: Seq<(Seq<char>, EntityV)>, k: Seq<char>, j: int)
    requires
        0 <= j <= s.len(),
        forall|m: int| 0 <= m < j ==> (#[trigger] s[m]).0 != k,
        j == s.len() || s[j].0 == k,
    ensures
        kv_find(s, k) == j,
    decreases j,
{
    if j > 0 {
        lemma_kv_find_at(s.drop_first(), k, j - 1);
    }
}

pub open spec fn kv_distinct(s: Seq<(Seq<char>, EntityV)>) -> bool {
    forall|i: int, j: int| 0 <= i < j < s.len() ==> (#[trigger] s[i]).0 != (#[trigger] s[j]).0
}

/// Inserting `k -> v`: overwrite the entry holding `k`, else append.
pub open spec fn kv_upsert(
    s: Seq<(Seq<char>, EntityV)>,
    k: Seq<char>,
    v: EntityV,
) -> Seq<(Seq<char>, EntityV)> {
    let i = kv_find(s, k);
    if i < s.len() {
        s.update(i, (k, v))
    } else {
        s.push((k, v))
    }
}

/// The mapping a key-value sequence denotes; a later entry wins.
pub open spec fn kv_map(s: Seq<(Seq<char>, EntityV)>) -> Map<Seq<char>, EntityV>
    decreases s.len(),
{
    if s.len() == 0 {
        Map::empty()
    } else {
        kv_map(s.drop_last()).insert(s.last().0, s.last().1)
    }
}

pub proof fn lemma_kv_upsert_distinct(s: Seq<(Seq<char>, EntityV)>, k: Seq<char>, v: EntityV)
    requires
        kv_distinct(s),
    ensures
        kv_distinct(kv_upsert(s, k, v)),
{
    lemma_kv_find_bounds(s, k);
    let i = kv_find(s, k);
    let r = kv_upsert(s, k, v);
    if i < s.len() {
        assert(s[i].0 == k);
        assert forall|a: int, b: int| 0 <= a < b < r.len() implies (#[trigger] r[a]).0 != (
        #[trigger] r[b]).0 by {
            assert(r[a].0 == if a == i {
                k
            } else {
                s[a].0
            });
            assert(r[b].0 == if b == i {
                k
            } else {
                s[b].0
            });
        }
    } else {
        assert forall|a: int, b: int| 0 <= a < b < r.len() implies (#[trigger] r[a]).0 != (
        #[trigger] r[b]).0 by {
            if b == s.len() {
                assert(r[b].0 == k);
                assert(r[a].0 == s[a].0);
            }
        }
    }
}

/// On distinct keys, overwriting in place is insertion into the mapping.
pub proof fn lemma_kv_upsert_map(s: Seq<(Seq<char>, EntityV)>, k: Seq<char>, v: EntityV)
    requires
        kv_distinct(s),
    ensures
        kv_map(kv_upsert(s, k, v)) == kv_map(s).insert(k, v),
    decreases s.len(),
{
    lemma_kv_find_bounds(s, k);
    let i = kv_find(s, k);
    let u = kv_upsert(s, k, v);
    if i == s.len() {
        assert(u.drop_last() =~= s);
        assert(u.last() == (k, v));
    } else if i == s.len() - 1 {
        assert(u.drop_last() =~= s.drop_last());
        assert(u.last() == (k, v));
        assert(s[i].0 == k);
        assert(kv_map(u) == kv_map(s.drop_last()).insert(k, v));
        assert(kv_map(s) == kv_map(s.drop_last()).insert(k, s.last().1));
        assert(kv_map(s.drop_last()).insert(k, s.last().1).insert(k, v) =~= kv_map(
            s.drop_last(),
        ).insert(k, v));
    } else {
        let sd = s.drop_last();
        assert(kv_distinct(sd)) by {
            assert forall|a: int, b: int| 0 <= a < b < sd.len() implies (#[trigger] sd[a]).0 != (
            #[trigger] sd[b]).0 by {
                assert(sd[a] == s[a] && sd[b] == s[b]);
            }
        }
        assert forall|m: int| 0 <= m < i implies (#[trigger] sd[m]).0 != k by {
            assert(sd[m] == s[m]);
        }
        assert(sd[i] == s[i]);
        lemma_kv_find_at(sd, k, i);
        lemma_kv_upsert_map(sd, k, v);
        assert(u.drop_last() =~= sd.update(i, (k, v)));
        assert(u.last() == s.last());
        assert(s.last().0 != k);
        assert(kv_map(u) == kv_map(sd).insert(k, v).insert(s.last().0, s.last().1));
        assert(kv_map(sd).insert(k, v).insert(s.last().0, s.last().1) =~= kv_map(sd).insert(
            s.last().0,
            s.last().1,
        ).insert(k, v));
    }
}

pub proof fn lemma_kv_map_at(s: Seq<(Seq<char>, EntityV)>, k: Seq<char>, j: int)
    requires
        0 <= j < s.len(),
        s[j].0 == k,
        forall|m: int| j < m < s.len() ==> (#[trigger] s[m]).0 != k,
    ensures
        kv_map(s).contains_key(k),
        kv_map(s)[k] == s[j].1,
    decreases s.len(),
{
    if j == s.len() - 1 {
    } else {
        assert(s.last().0 != k);
        lemma_kv_map_at(s.drop_last(), k, j);
        assert(s.drop_last()[j] == s[j]);
    }
}

pub proof fn lemma_kv_map_absent(s: Seq<(Seq<char>, EntityV)>, k: Seq<char>)
    requires
        forall|m: int| 0 <= m < s.len() ==> (#[trigger] s[m]).0 != k,
    ensures
        !kv_map(s).contains_key(k),
    decreases s.len(),
{
    if s.len() > 0 {
        lemma_kv_map_absent(s.drop_last(), k);
    }
}

// ---------------------------------------------------------------------------
// The prefix index
// ---------------------------------------------------------------------------

/// A mapping from callsign prefixes to entities, built once from master
/// data and read-only thereafter.
#[derive(Debug, Clone, PartialEq)]
pub struct PrefixIndex {
    entries: Vec<(String, Entity)>,
}

impl View for PrefixIndex {
    type V = Map<Seq<char>, EntityV>;

    closed spec fn view(&self) -> Map<Seq<char>, EntityV> {
        kv_map(self.entries.deep_view())
    }
}

impl PrefixIndex {
    pub closed spec fn wf(&self) -> bool {
        kv_distinct(self.entries.deep_view())
    }

    /// An empty index.
    pub fn new() -> (r: PrefixIndex)
        ensures
            r@ == Map::<Seq<char>, EntityV>::empty(),
            r.wf(),
    {
        let r = PrefixIndex { entries: Vec::new() };
        proof {
            assert(r.entries.deep_view() =~= Seq::<(Seq<char>, EntityV)>::empty());
        }
        r
    }

    /// Inserts or overwrites one prefix.
    fn insert_prefix(&mut self, k: String, e: Entity)
        requires
            old(self).wf(),
        ensures
            final(self).wf(),
            final(self)@ == old(self)@.insert(k@, e@),
    {
        let ghost dv = self.entries.deep_view();
        proof {
            lemma_kv_upsert_distinct(dv, k@, e@);
            lemma_kv_upsert_map(dv, k@, e@);
        }
        let ghost ev = e@;
        let n = self.entries.len();
        let mut i: usize = 0;
        while i < n
            invariant
                i <= n,
                n == self.entries.len(),
                dv == self.entries.deep_view(),
                dv == old(self).entries.deep_view(),
                kv_distinct(dv),
                ev == e@,
                forall|j: int| 0 <= j < i ==> (#[trigger] dv[j]).0 != k@,
            decreases n - i,
        {
            if str_eq_str(self.entries[i].0.as_str(), k.as_str()) {
                proof {
                    assert(dv[i as int].0 == self.entries@[i as int].0@);
                    lemma_kv_find_at(dv, k@, i as int);
                }
                let ghost kv = k@;
                let ghost pre = self.entries@;
                self.entries[i] = (k, e);
                proof {
                    assert(self.entries@ == pre.update(i as int, self.entries@[i as int]));
                    assert(self.entries@[i as int].0@ == kv);
                    assert(self.entries@[i as int].1@ == ev);
                    assert(self.entries@[i as int].deep_view() == (kv, ev));
                    assert(self.entries.deep_view() =~= dv.update(i as int, (kv, ev)));
                    lemma_kv_upsert_distinct(dv, kv, ev);
                    lemma_kv_upsert_map(dv, kv, ev);
                }
                return ;
            }
            i += 1;
        }
        proof {
            lemma_kv_find_at(dv, k@, n as int);
        }
        self.entries.push((k, e));
        proof {
            assert(self.entries.deep_view() =~= dv.push((k@, ev)));
        }
    }

    /// The entity an exact prefix key denotes, if indexed.
    pub fn get(&self, key: &str) -> (r: Option<&Entity>)
        ensures
            match r {
                Some(e) => self@.contains_key(key@) && e@ == self@[key@],
                None => !self@.contains_key(key@),
            },
    {
        let ghost dv = self.entries.deep_view();
        let n = self.entries.len();
        let mut i = n;
        while i > 0
            invariant
                i <= n,
                n == self.entries.len(),
                dv == self.entries.deep_view(),
                forall|m: int| i <= m < n ==> (#[trigger] dv[m]).0 != key@,
            decreases i,
        {
            i -= 1;
            if str_eq_str(self.entries[i].0.as_str(), key) {
                proof {
                    lemma_kv_map_at(dv, key@, i as int);
                }
                return Some(&self.entries[i].1);
            }
        }
        proof {
            lemma_kv_map_absent(dv, key@);
        }
        None
    }
}

// ---------------------------------------------------------------------------
// Building the index from master-data rows
// ---------------------------------------------------------------------------

/// `s` without its trailing semicolons.
pub open spec fn strip_semis(s: Seq<char>) -> Seq<char>
    decreases s.len(),
{
    if s.len() > 0 && s.last() == ';' {
        strip_semis(s.drop_last())
    } else {
        s
    }
}

proof fn lemma_strip_semis_take(s: Seq<char>, b: int)
    requires
        0 <= b <= s.len(),
        forall|j: int| b <= j < s.len() ==> s[j] == ';',
        b == 0 || s[b - 1] != ';',
    ensures
        strip_semis(s) == s.take(b),
    decreases s.len(),
{
    if b == s.len() {
        if s.len() > 0 && s.last() == ';' {
            assert(s[b - 1] != ';');
            assert(false);
        }
        assert(s.take(b) =~= s);
    } else {
        assert(s.last() == ';');
        lemma_strip_semis_take(s.drop_last(), b);
        assert(s.drop_last().take(b) =~= s.take(b));
    }
}

/// `s` without its leading override markers (`=`).
pub open spec fn strip_eq(s: Seq<char>) -> Seq<char>
    decreases s.len(),
{
    if s.len() > 0 && s[0] == '=' {
        strip_eq(s.drop_first())
    } else {
        s
    }
}

proof fn lemma_strip_eq_skip(s: Seq<char>, a: int)
    requires
        0 <= a <= s.len(),
        forall|j: int| 0 <= j < a ==> s[j] == '=',
        a == s.len() || s[a] != '=',
    ensures
        strip_eq(s) == s.skip(a),
    decreases a,
{
    if a == 0 {
        assert(s.skip(0) =~= s);
    } else {
        assert(s[0] == '=');
        lemma_strip_eq_skip(s.drop_first(), a - 1);
        assert(s.drop_first().skip(a - 1) =~= s.skip(a));
    }
}

/// The country name of a master-data country field: the part before a
/// single `/`, else the whole field.
pub open spec fn country_of(cf: Seq<char>) -> Seq<char> {
    let p = spec_split(cf, '/');
    if p.len() == 2 {
        p[0]
    } else {
        cf
    }
}

/// The sub-entity qualifier after a single `/`, if present.
pub open spec fn part_of(cf: Seq<char>) -> Option<Seq<char>> {
    let p = spec_split(cf, '/');
    if p.len() == 2 {
        Some(p[1])
    } else {
        None
    }
}

/// The entity one well-formed row denotes.
pub open spec fn spec_row_entity(fields: Seq<Seq<char>>) -> EntityV {
    EntityV {
        main_prefix: fields[0],
        country: country_of(fields[1]),
        cq_zone: spec_parse_u32(fields[4])->Some_0,
        itu_zone: spec_parse_u32(fields[5])->Some_0,
        continent: fields[3],
        latitude: spec_parse_milli(fields[6])->Some_0,
        longitude: spec_parse_milli(fields[7])->Some_0,
        time_offset: spec_parse_milli(fields[8])->Some_0,
        dxcc: spec_parse_u32(fields[2])->Some_0,
        part: part_of(fields[1]),
    }
}

/// Every alias prefix, its leading markers stripped, mapped to the entity.
pub open spec fn insert_aliases(
    m: Map<Seq<char>, EntityV>,
    toks: Seq<Seq<char>>,
    e: EntityV,
) -> Map<Seq<char>, EntityV>
    decreases toks.len(),
{
    if toks.len() == 0 {
        m
    } else {
        insert_aliases(m.insert(strip_eq(toks[0]), e), toks.drop_first(), e)
    }
}

/// One master-data row applied to the index under construction.  A blank
/// row is skipped; a row with fewer than ten comma-separated fields, or
/// with an unreadable numeric field, fails the whole build.
pub open spec fn spec_build_row(m: Map<Seq<char>, EntityV>, row: Seq<char>) -> Result<
    Map<Seq<char>, EntityV>,
    CabrilloErrorV,
> {
    let t = spec_trim(row);
    if t.len() == 0 {
        Ok(m)
    } else {
        let fields = spec_split(t, ',');
        if fields.len() < 10 {
            Err(CabrilloErrorV::MissingRequiredField(t))
        } else if spec_parse_u32(fields[2]) is None {
            Err(CabrilloErrorV::InvalidFormat(fields[2]))
        } else if spec_parse_u32(fields[4]) is None {
            Err(CabrilloErrorV::InvalidFormat(fields[4]))
        } else if spec_parse_u32(fields[5]) is None {
            Err(CabrilloErrorV::InvalidFormat(fields[5]))
        } else if spec_parse_milli(fields[6]) is None {
            Err(CabrilloErrorV::InvalidFormat(fields[6]))
        } else if spec_parse_milli(fields[7]) is None {
            Err(CabrilloErrorV::InvalidFormat(fields[7]))
        } else if spec_parse_milli(fields[8]) is None {
            Err(CabrilloErrorV::InvalidFormat(fields[8]))
        } else {
            let alias_str = spec_join_char(fields.subrange(9, fields.len() as int), ',');
            Ok(insert_aliases(m, spec_tokens(strip_semis(alias_str)), spec_row_entity(fields)))
        }
    }
}

/// The index mapping after a sequence of rows, or the first build failure.
pub open spec fn spec_build_rows(m: Map<Seq<char>, EntityV>, rows: Seq<Seq<char>>) -> Result<
    Map<Seq<char>, EntityV>,
    CabrilloErrorV,
>
    decreases rows.len(),
{
    if rows.len() == 0 {
        Ok(m)
    } else {
        match spec_build_row(m, rows[0]) {
            Ok(m2) => spec_build_rows(m2, rows.drop_first()),
            Err(e) => Err(e),
        }
    }
}

/// Building the whole index from master-data rows.
pub open spec fn spec_build(rows: Seq<Seq<char>>) -> Result<
    Map<Seq<char>, EntityV>,
    CabrilloErrorV,
> {
    spec_build_rows(Map::empty(), rows)
}

/// Compiles master-data rows into the prefix index; last row wins on a
/// repeated prefix, and a malformed row is a fatal build failure.
pub fn build_index(rows: &Vec<String>) -> (r: Result<PrefixIndex, CabrilloError>)
    ensures
        (match r {
            Ok(ix) => spec_build(rows.deep_view()) == Ok::<
                Map<Seq<char>, EntityV>,
                CabrilloErrorV,
            >(ix@) && ix.wf(),
            Err(e) => spec_build(rows.deep_view()) == Err::<
                Map<Seq<char>, EntityV>,
                CabrilloErrorV,
            >(e@),
        }),
{
    let ghost rv = rows.deep_view();
    let mut ix = PrefixIndex::new();
    let n = rows.len();
    let mut i: usize = 0;
    proof {
        assert(rv.skip(0) =~= rv);
    }
    while i < n
        invariant
            i <= n,
            n == rows.len(),
            rv == rows.deep_view(),
            ix.wf(),
            spec_build_rows(Map::empty(), rv) == spec_build_rows(ix@, rv.skip(i as int)),
        decreases n - i,
    {
        let ghost m0 = ix@;
        proof {
            assert(rows@[i as int]@ == rv[i as int]);
            assert(rv.skip(i as int)[0] == rv[i as int]);
            assert(rv.skip(i as int).drop_first() =~= rv.skip(i as int + 1));
        }
        let t = trim(rows[i].as_str());
        let ghost tl = spec_trim(rv[i as int]);
        if !t.is_empty() {
            let fields = split_char(t, ',');
            let ghost fv = fields.deep_view();
            if fields.len() < 10 {
                proof {
                    assert(spec_build_row(m0, rv[i as int]) == Err::<
                        Map<Seq<char>, EntityV>,
                        CabrilloErrorV,
                    >(CabrilloErrorV::MissingRequiredField(tl)));
                }
                return Err(CabrilloError::MissingRequiredField(t.to_owned()));
            }
            let dxcc = match parse_u32(fields[2].as_str()) {
                Some(v) => v,
                None => {
                    return Err(CabrilloError::InvalidFormat(fields[2].clone()));
                },
            };
            let cq_zone = match parse_u32(fields[4].as_str()) {
                Some(v) => v,
                None => {
                    return Err(CabrilloError::InvalidFormat(fields[4].clone()));
                },
            };
            let itu_zone = match parse_u32(fields[5].as_str()) {
                Some(v) => v,
                None => {
                    return Err(CabrilloError::InvalidFormat(fields[5].clone()));
                },
            };
            let latitude = match parse_milli(fields[6].as_str()) {
                Some(v) => v,
                None => {
                    return Err(CabrilloError::InvalidFormat(fields[6].clone()));
                },
            };
            let longitude = match parse_milli(fields[7].as_str()) {
                Some(v) => v,
                None => {
                    return Err(CabrilloError::InvalidFormat(fields[7].clone()));
                },
            };
            let time_offset = match parse_milli(fields[8].as_str()) {
                Some(v) => v,
                None => {
                    return Err(CabrilloError::InvalidFormat(fields[8].clone()));
                },
            };
            let cp = split_char(fields[1].as_str(), '/');
            let (country, part): (String, Option<String>) = if cp.len() == 2 {
                (cp[0].clone(), Some(cp[1].clone()))
            } else {
                (fields[1].clone(), None)
            };
            let ent = Entity {
                main_prefix: fields[0].clone(),
                country,
                cq_zone,
                itu_zone,
                continent: fields[3].clone(),
                latitude,
                longitude,
                time_offset,
                dxcc,
                part,
            };
            let ghost ev = ent@;
            proof {
                assert(cp.deep_view() == spec_split(fv[1], '/'));
                assert(ev =~= spec_row_entity(fv));
            }
            proof {
                reveal_strlit(",");
                assert(","@ =~= seq![',']);
            }
            let alias_str = join_char_range(&fields, 9, fields.len(), ',', ",");
            let ghost av = alias_str@;
            let an = alias_str.as_str().unicode_len();
            let mut end = an;
            while end > 0 && alias_str.as_str().get_char(end - 1) == ';'
                invariant
                    end <= an,
                    an == av.len(),
                    av == alias_str@,
                    forall|m: int| end <= m < an ==> av[m] == ';',
                decreases end,
            {
                end -= 1;
            }
            proof {
                lemma_strip_semis_take(av, end as int);
            }
            let core = alias_str.as_str().substring_char(0, end);
            proof {
                assert(core@ =~= av.take(end as int));
            }
            let toks = split_ws(core);
            let ghost tv = toks.deep_view();
            let tn = toks.len();
            let mut j: usize = 0;
            proof {
                assert(tv.skip(0) =~= tv);
            }
            while j < tn
                invariant
                    j <= tn,
                    tn == toks.len(),
                    tv == toks.deep_view(),
                    ev == ent@,
                    ix.wf(),
                    insert_aliases(m0, tv, ev) == insert_aliases(ix@, tv.skip(j as int), ev),
                decreases tn - j,
            {
                proof {
                    assert(toks@[j as int]@ == tv[j as int]);
                    assert(tv.skip(j as int)[0] == tv[j as int]);
                    assert(tv.skip(j as int).drop_first() =~= tv.skip(j as int + 1));
                }
                let tok = toks[j].as_str();
                let tkn = tok.unicode_len();
                let mut st: usize = 0;
                while st < tkn && tok.get_char(st) == '='
                    invariant
                        st <= tkn,
                        tkn == tok@.len(),
                        forall|m: int| 0 <= m < st ==> tok@[m] == '=',
                    decreases tkn - st,
                {
                    st += 1;
                }
                proof {
                    lemma_strip_eq_skip(tok@, st as int);
                }
                let key = tok.substring_char(st, tkn).to_owned();
                proof {
                    assert(key@ =~= tok@.skip(st as int));
                }
                ix.insert_prefix(key, ent.duplicate());
                j += 1;
            }
            proof {
                assert(tv.skip(tn as int) =~= Seq::<Seq<char>>::empty());
                assert(spec_build_row(m0, rv[i as int]) == Ok::<
                    Map<Seq<char>, EntityV>,
                    CabrilloErrorV,
                >(ix@));
            }
        }
        i += 1;
    }
    proof {
        assert(rv.skip(n as int) =~= Seq::<Seq<char>>::empty());
    }
    Ok(ix)
}

// ---------------------------------------------------------------------------
// What resolution means
// ---------------------------------------------------------------------------

/// Longest-prefix lookup restricted to prefixes of length at most `k`: the
/// entity of the longest indexed prefix of `call`, trying lengths `k` down
/// to one.
pub open spec fn spec_resolve_from(
    m: Map<Seq<char>, EntityV>,
    call: Seq<char>,
    k: nat,
) -> Option<EntityV>
    decreases k,
{
    if k == 0 {
        None
    } else if m.contains_key(call.take(k as int)) {
        Some(m[call.take(k as int)])
    } else {
        spec_resolve_from(m, call, (k - 1) as nat)
    }
}

/// The entity of the longest indexed prefix of `call`, if any.
pub open spec fn spec_resolve(m: Map<Seq<char>, EntityV>, call: Seq<char>) -> Option<EntityV> {
    spec_resolve_from(m, call, call.len())
}

/// Resolution bounded by `k` finds nothing exactly when no prefix of
/// length one to `k` is indexed.
pub proof fn lemma_resolve_from_none(m: Map<Seq<char>, EntityV>, call: Seq<char>, k: nat)
    ensures
        spec_resolve_from(m, call, k) is None <==> (forall|j: int|
            1 <= j <= k ==> !m.contains_key(#[trigger] call.take(j))),
    decreases k,
{
    if k > 0 {
        lemma_resolve_from_none(m, call, (k - 1) as nat);
    }
}

/// Resolution bounded by `k` returns the entity of the longest indexed
/// prefix: if length `j` is indexed and no greater length up to `k` is,
/// the result is exactly the entity stored for the length-`j` prefix.
pub proof fn lemma_resolve_from_hit(m: Map<Seq<char>, EntityV>, call: Seq<char>, k: nat, j: int)
    requires
        1 <= j <= k,
        m.contains_key(call.take(j)),
        forall|j2: int| j < j2 <= k ==> !m.contains_key(#[trigger] call.take(j2)),
    ensures
        spec_resolve_from(m, call, k) == Some(m[call.take(j)]),
    decreases k,
{
    if k > j {
        lemma_resolve_from_hit(m, call, (k - 1) as nat, j);
    }
}

/// A key the mapping holds comes from some entry.
pub proof fn lemma_kv_map_key_exists(s: Seq<(Seq<char>, EntityV)>, k: Seq<char>)
    requires
        kv_map(s).contains_key(k),
    ensures
        exists|i: int| 0 <= i < s.len() && (#[trigger] s[i]).0 == k,
    decreases s.len(),
{
    if s.len() > 0 {
        if s.last().0 == k {
            assert(s[s.len() - 1].0 == k);
        } else {
            lemma_kv_map_key_exists(s.drop_last(), k);
            let w = choose|i: int| 0 <= i < s.drop_last().len() && (#[trigger] s.drop_last()[i]).0
                == k;
            assert(s[w].0 == k);
        }
    }
}

/// Resolves by scanning every indexed prefix and keeping the longest one
/// that the callsign starts with; agrees exactly with descending-prefix
/// resolution.
pub fn enrich_callsign2(index: &PrefixIndex, callsign: &str) -> (r: Option<Entity>)
    requires
        index.wf(),
    ensures
        match r {
            Some(e) => spec_resolve(index@, callsign@) == Some(e@),
            None => spec_resolve(index@, callsign@) is None,
        },
{
    let ghost dv = index.entries.deep_view();
    let ghost cv = callsign@;
    let n = index.entries.len();
    let cn = callsign.unicode_len();
    let mut best: usize = 0;
    let mut have_best = false;
    let mut best_len: usize = 0;
    let mut i: usize = 0;
    while i < n
        invariant
            i <= n,
            n == index.entries.len(),
            dv == index.entries.deep_view(),
            kv_distinct(dv),
            cv == callsign@,
            cn == cv.len(),
            !have_best ==> best_len == 0 && (forall|m: int|
                0 <= m < i ==> !((#[trigger] dv[m]).0.is_prefix_of(cv) && dv[m].0.len() > 0)),
            have_best ==> best < i && dv[best as int].0.is_prefix_of(cv) && dv[best as int].0.len()
                == best_len && best_len > 0,
            have_best ==> (forall|m: int|
                0 <= m < i && (#[trigger] dv[m]).0.is_prefix_of(cv) ==> dv[m].0.len() <= best_len),
        decreases n - i,
    {
        proof {
            assert(dv[i as int].0 == index.entries@[i as int].0@);
        }
        let plen = index.entries[i].0.as_str().unicode_len();
        if str_starts_with(callsign, index.entries[i].0.as_str()) && plen > best_len {
            best = i;
            best_len = plen;
            have_best = true;
        }
        i += 1;
    }
    if have_best {
        proof {
            let bk = dv[best as int].0;
            assert(bk =~= cv.take(best_len as int));
            lemma_kv_map_at(dv, bk, best as int);
            assert forall|j2: int| best_len < j2 <= cv.len() implies !index@.contains_key(
                #[trigger] cv.take(j2),
            ) by {
                if index@.contains_key(cv.take(j2)) {
                    lemma_kv_map_key_exists(dv, cv.take(j2));
                    let w = choose|w: int| 0 <= w < dv.len() && (#[trigger] dv[w]).0 == cv.take(j2);
                    assert(cv.take(j2).is_prefix_of(cv)) by {
                        assert(cv.take(j2) =~= cv.subrange(0, j2));
                    }
                    assert(dv[w].0.len() <= best_len);
                }
            }
            lemma_resolve_from_hit(index@, cv, cv.len(), best_len as int);
        }
        Some(index.entries[best].1.duplicate())
    } else {
        proof {
            assert forall|j: int| 1 <= j <= cv.len() implies !index@.contains_key(
                #[trigger] cv.take(j),
            ) by {
                if index@.contains_key(cv.take(j)) {
                    lemma_kv_map_key_exists(dv, cv.take(j));
                    let w = choose|w: int| 0 <= w < dv.len() && (#[trigger] dv[w]).0 == cv.take(j);
                    assert(cv.take(j).is_prefix_of(cv)) by {
                        assert(cv.take(j) =~= cv.subrange(0, j));
                    }
                }
            }
            lemma_resolve_from_none(index@, cv, cv.len());
        }
        None
    }
}

} // verus!
