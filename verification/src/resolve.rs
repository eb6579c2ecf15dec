//! Longest-prefix resolution of callsigns against the prefix index, and
//! the laws that pin its behaviour down.

use vstd::prelude::*;

use crate::entity::{Entity, EntityV, PrefixIndex, spec_resolve, spec_resolve_from,
    lemma_resolve_from_none, lemma_resolve_from_hit};

verus! {

/// All non-empty prefixes of `s`, longest first.
pub fn get_all_prefixes_descending(s: &str) -> (r: Vec<String>)
    ensures
        r.deep_view() == Seq::new(s@.len(), |i: int| s@.take(s@.len() - i)),
{
    let n = s.unicode_len();
    let mut r: Vec<String> = Vec::new();
    let mut k = n;
    proof {
        assert(r.deep_view() =~= Seq::new((n - k) as nat, |i: int| s@.take(n - i)));
    }
    while k > 0
        invariant
            k <= n,
            n == s@.len(),
            r.deep_view() == Seq::new((n - k) as nat, |i: int| s@.take(n - i)),
        decreases k,
    {
        let p = s.substring_char(0, k).to_owned();
        proof {
            assert(p@ =~= s@.take(k as int));
        }
        let ghost old_dv = r.deep_view();
        let ghost pvv = p@;
        r.push(p);
        proof {
            assert(r.deep_view() =~= old_dv.push(pvv));
            assert(old_dv.push(pvv) =~= Seq::new((n - (k - 1)) as nat, |i: int| s@.take(n - i)));
        }
        k -= 1;
    }
    r
}

/// Resolves a callsign to the entity of its longest indexed prefix, trying
/// every prefix from the whole string down to a single character; absence
/// of a match is an expected outcome, not an error.
pub fn enrich_callsign<'a>(index: &'a PrefixIndex, callsign: &str) -> (r: Option<&'a Entity>)
    ensures
        match r {
            Some(e) => spec_resolve(index@, callsign@) == Some(e@),
            None => spec_resolve(index@, callsign@) is None,
        },
{
    let prefixes = get_all_prefixes_descending(callsign);
    let ghost pv = prefixes.deep_view();
    let n = callsign.unicode_len();
    let mut idx: usize = 0;
    proof {
        assert(prefixes@.len() == pv.len());
        assert(pv.len() == callsign@.len());
    }
    while idx < prefixes.len()
        invariant
            idx <= prefixes.len(),
            n == callsign@.len(),
            prefixes.len() == n,
            pv == prefixes.deep_view(),
            pv == Seq::new(callsign@.len(), |i: int| callsign@.take(callsign@.len() - i)),
            spec_resolve(index@, callsign@) == spec_resolve_from(
                index@,
                callsign@,
                (n - idx) as nat,
            ),
        decreases prefixes.len() - idx,
    {
        proof {
            assert(prefixes@[idx as int]@ == pv[idx as int]);
            assert(pv[idx as int] == callsign@.take(n - idx));
        }
        if let Some(e) = index.get(prefixes[idx].as_str()) {
            return Some(e);
        }
        idx += 1;
    }
    None
}

// ---------------------------------------------------------------------------
// Laws of resolution
// ---------------------------------------------------------------------------

/// No match is safe: a callsign none of whose prefixes is indexed resolves
/// to nothing, never to an error.
pub proof fn lemma_resolve_no_match(m: Map<Seq<char>, EntityV>, call: Seq<char>)
    requires
        forall|j: int| 1 <= j <= call.len() ==> !m.contains_key(#[trigger] call.take(j)),
    ensures
        spec_resolve(m, call) is None,
{
    lemma_resolve_from_none(m, call, call.len());
}

/// Resolution from a prefix of length `a` up: once some prefix of length
/// at least `a` is indexed, the result is the entity of an indexed prefix
/// no shorter than `a`.
pub proof fn lemma_resolve_at_least(m: Map<Seq<char>, EntityV>, call: Seq<char>, a: int, k: nat)
    requires
        1 <= a <= k <= call.len(),
        m.contains_key(call.take(a)),
    ensures
        exists|j: int|
            a <= j <= k && m.contains_key(#[trigger] call.take(j)) && spec_resolve_from(
                m,
                call,
                k,
            ) == Some(m[call.take(j)]),
    decreases k,
{
    if k == a {
        assert(m.contains_key(call.take(a)) && spec_resolve_from(m, call, k) == Some(
            m[call.take(a)],
        ));
    } else {
        if m.contains_key(call.take(k as int)) {
            assert(m.contains_key(call.take(k as int)) && spec_resolve_from(m, call, k) == Some(
                m[call.take(k as int)],
            ));
        } else {
            lemma_resolve_at_least(m, call, a, (k - 1) as nat);
        }
    }
}

/// Longest-prefix correctness: when two prefixes of a callsign are both
/// indexed, the longer one of length `a` shadows the shorter one of length
/// `b`; the result is the entity of an indexed prefix of length at least
/// `a`, never the shorter prefix's place in the scan.
pub proof fn lemma_longest_prefix_wins(m: Map<Seq<char>, EntityV>, call: Seq<char>, a: int, b: int)
    requires
        1 <= b < a <= call.len(),
        m.contains_key(call.take(a)),
        m.contains_key(call.take(b)),
    ensures
        spec_resolve(m, call) is Some,
        exists|j: int|
            a <= j <= call.len() && m.contains_key(#[trigger] call.take(j)) && spec_resolve(
                m,
                call,
            ) == Some(m[call.take(j)]),
{
    lemma_resolve_at_least(m, call, a, call.len());
}

} // verus!
