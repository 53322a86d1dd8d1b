//! Occurrence search within rendered text, and correlation of a global
//! search-match index with the occurrence to highlight inside one node's
//! rendered value.
//!
//! Offsets are counted in characters, not bytes: the text-display consumer
//! addresses text by character position, so a multi-byte character must
//! occupy exactly one position.

use vstd::prelude::*;

use crate::text::lower_char;
use crate::text::str_to_chars;
use crate::text::to_lower;

verus! {

/// Whether text character `a` and pattern character `b` agree under the
/// given case mode.
pub open spec fn chars_match(a: char, b: char, case_sensitive: bool) -> bool {
    if case_sensitive {
        a == b
    } else {
        lower_char(a) == lower_char(b)
    }
}

/// Whether `pat` matches `text` at character position `i`.
pub open spec fn match_at(text: Seq<char>, pat: Seq<char>, case_sensitive: bool, i: int) -> bool {
    &&& 0 <= i
    &&& i + pat.len() <= text.len()
    &&& forall|j: int| 0 <= j < pat.len() ==> chars_match(text[i + j], pat[j], case_sensitive)
}

/// Every occurrence of `pat` in `text` starting at or after position `i`,
/// in ascending order of start, as (start, end) character spans. The scan
/// advances one character past each occurrence's start, so overlapping
/// occurrences are all reported.
pub open spec fn occurrences_from(
    text: Seq<char>,
    pat: Seq<char>,
    case_sensitive: bool,
    i: int,
) -> Seq<(int, int)>
    decreases text.len() - i + 1,
{
    if i < 0 || i + pat.len() > text.len() {
        Seq::empty()
    } else {
        let rest = occurrences_from(text, pat, case_sensitive, i + 1);
        if match_at(text, pat, case_sensitive, i) {
            seq![(i, i + pat.len() as int)] + rest
        } else {
            rest
        }
    }
}

/// All occurrences of `pat` in `text`; an empty pattern has none, rather
/// than one at every position.
pub open spec fn occurrences(text: Seq<char>, pat: Seq<char>, case_sensitive: bool) -> Seq<
    (int, int),
> {
    if pat.len() == 0 {
        Seq::empty()
    } else {
        occurrences_from(text, pat, case_sensitive, 0)
    }
}

/// The spans of an occurrence vector, as mathematical pairs.
pub open spec fn spans_view(v: Seq<(usize, usize)>) -> Seq<(int, int)> {
    v.map_values(|o: (usize, usize)| (o.0 as int, o.1 as int))
}

/// Finds all occurrences of `pattern` in `text`, as (start, end) character
/// offsets in ascending order, overlapping occurrences included. An empty
/// pattern yields no occurrences.
pub fn find_all_occurrences(text: &str, pattern: &str, case_sensitive: bool) -> (r: Vec<
    (usize, usize),
>)
    ensures
        spans_view(r@) == occurrences(text@, pattern@, case_sensitive),
        pattern@.len() == 0 ==> r@.len() == 0,
{
    let t = str_to_chars(text);
    let p = str_to_chars(pattern);
    let n = t.len();
    let m = p.len();
    let mut out: Vec<(usize, usize)> = Vec::new();
    if m == 0 {
        proof {
            assert(spans_view(out@) =~= occurrences(text@, pattern@, case_sensitive));
        }
        return out;
    }
    if m > n {
        proof {
            assert(spans_view(out@) =~= occurrences(text@, pattern@, case_sensitive));
        }
        return out;
    }
    let mut i: usize = 0;
    while i <= n - m
        invariant
            t@ == text@,
            p@ == pattern@,
            n == t@.len(),
            m == p@.len(),
            1 <= m <= n,
            i <= n - m + 1,
            occurrences(text@, pattern@, case_sensitive) == spans_view(out@) + occurrences_from(
                text@,
                pattern@,
                case_sensitive,
                i as int,
            ),
        decreases n - i,
    {
        let mut j: usize = 0;
        let mut ok = true;
        while j < m && ok
            invariant
                t@ == text@,
                p@ == pattern@,
                n == t@.len(),
                m == p@.len(),
                1 <= m <= n,
                i + m <= n,
                j <= m,
                ok ==> forall|k: int|
                    0 <= k < j ==> chars_match(text@[i + k], pattern@[k], case_sensitive),
                !ok ==> !match_at(text@, pattern@, case_sensitive, i as int),
            decreases m - j + (if ok { 1int } else { 0int }),
        {
            let tc = t[i + j];
            let pc = p[j];
            let same = if case_sensitive {
                tc == pc
            } else {
                let tl = to_lower(tc);
                let pl = to_lower(pc);
                tl == pl
            };
            if same {
                j = j + 1;
            } else {
                ok = false;
            }
        }
        let ghost before = out@;
        if ok {
            out.push((i, i + m));
        }
        proof {
            if ok {
                assert(match_at(text@, pattern@, case_sensitive, i as int));
                assert(spans_view(out@) =~= spans_view(before) + seq![
                    (i as int, i + m as int),
                ]);
                assert(spans_view(before) + (seq![(i as int, i + m as int)] + occurrences_from(
                    text@,
                    pattern@,
                    case_sensitive,
                    i as int + 1,
                )) =~= spans_view(out@) + occurrences_from(
                    text@,
                    pattern@,
                    case_sensitive,
                    i as int + 1,
                ));
            }
        }
        i = i + 1;
    }
    proof {
        assert(occurrences_from(text@, pattern@, case_sensitive, i as int) =~= Seq::<
            (int, int),
        >::empty());
        assert(spans_view(out@) + Seq::<(int, int)>::empty() =~= spans_view(out@));
    }
    out
}

/// Position in `ms`, at or after `i`, of the first record carrying global
/// match index `idx`.
pub open spec fn match_pos_from(ms: Seq<(usize, bool)>, idx: usize, i: int) -> Option<int>
    decreases ms.len() - i,
{
    if i < 0 || i >= ms.len() {
        None
    } else if ms[i].0 == idx {
        Some(i)
    } else {
        match_pos_from(ms, idx, i + 1)
    }
}

/// How many of the records before position `p` are value matches (their
/// key-match flag is false).
pub open spec fn value_matches_before(ms: Seq<(usize, bool)>, p: int) -> int
    decreases p,
{
    if p <= 0 {
        0
    } else {
        value_matches_before(ms, p - 1) + if !ms[p - 1].1 {
            1int
        } else {
            0int
        }
    }
}

/// The span to highlight inside a node's rendered value for global match
/// `idx`, given the node's match records `ms`: the record's rank among the
/// node's value matches selects the same-ranked occurrence of `pat` in
/// `text`. A missing index, a key match, or a rank beyond the occurrences
/// found highlights nothing.
pub open spec fn resolve_highlight(
    ms: Seq<(usize, bool)>,
    idx: usize,
    text: Seq<char>,
    pat: Seq<char>,
    case_sensitive: bool,
) -> Option<(int, int)> {
    match match_pos_from(ms, idx, 0) {
        None => None,
        Some(p) => {
            if ms[p].1 {
                None
            } else {
                let rank = value_matches_before(ms, p);
                let occ = occurrences(text, pat, case_sensitive);
                if rank < occ.len() {
                    Some(occ[rank])
                } else {
                    None
                }
            }
        },
    }
}

/// Determines which occurrence of `search_text` to highlight inside
/// `formatted_value` for the match at global index `match_index`, given the
/// `(global_index, is_key_match)` records sharing this node's path.
/// Key matches, unknown indices and out-of-range ranks highlight nothing,
/// never fault.
pub fn find_occurrence_to_highlight(
    matches: &Vec<(usize, bool)>,
    match_index: usize,
    formatted_value: &str,
    search_text: &str,
    case_sensitive: bool,
) -> (r: Option<(usize, usize)>)
    ensures
        match r {
            Some(span) => resolve_highlight(
                matches@,
                match_index,
                formatted_value@,
                search_text@,
                case_sensitive,
            ) == Some((span.0 as int, span.1 as int)),
            None => resolve_highlight(
                matches@,
                match_index,
                formatted_value@,
                search_text@,
                case_sensitive,
            ) is None,
        },
{
    let n = matches.len();
    let mut local: usize = 0;
    while local < n && matches[local].0 != match_index
        invariant
            n == matches@.len(),
            local <= n,
            match_pos_from(matches@, match_index, 0) == match_pos_from(
                matches@,
                match_index,
                local as int,
            ),
        decreases n - local,
    {
        local = local + 1;
    }
    if local == n {
        return None;
    }
    if matches[local].1 {
        return None;
    }
    let mut occurrence_in_node: usize = 0;
    let mut k: usize = 0;
    while k < local
        invariant
            n == matches@.len(),
            local < n,
            k <= local,
            occurrence_in_node <= k,
            occurrence_in_node as int == value_matches_before(matches@, k as int),
        decreases local - k,
    {
        if !matches[k].1 {
            occurrence_in_node = occurrence_in_node + 1;
        }
        k = k + 1;
    }
    let occ = find_all_occurrences(formatted_value, search_text, case_sensitive);
    if occurrence_in_node < occ.len() {
        let span = occ[occurrence_in_node];
        proof {
            assert(spans_view(occ@)[occurrence_in_node as int] == (
                span.0 as int,
                span.1 as int,
            ));
        }
        Some(span)
    } else {
        None
    }
}

proof fn lemma_match_pos_none(ms: Seq<(usize, bool)>, idx: usize, i: int)
    requires
        forall|k: int| i <= k < ms.len() ==> (#[trigger] ms[k]).0 != idx,
    ensures
        match_pos_from(ms, idx, i) is None,
    decreases ms.len() - i,
{
    if 0 <= i < ms.len() {
        lemma_match_pos_none(ms, idx, i + 1);
    }
}

/// Bounds safety and key exclusion of match correlation: a global index
/// absent from the match records, a key match, or a value-match rank
/// beyond the occurrences actually found, highlights nothing.
pub proof fn lemma_resolve_bounds(
    ms: Seq<(usize, bool)>,
    idx: usize,
    text: Seq<char>,
    pat: Seq<char>,
    case_sensitive: bool,
)
    ensures
        (forall|k: int| 0 <= k < ms.len() ==> (#[trigger] ms[k]).0 != idx) ==> resolve_highlight(
            ms,
            idx,
            text,
            pat,
            case_sensitive,
        ) is None,
        (match_pos_from(ms, idx, 0) matches Some(p) && value_matches_before(ms, p)
            >= occurrences(text, pat, case_sensitive).len()) ==> resolve_highlight(
            ms,
            idx,
            text,
            pat,
            case_sensitive,
        ) is None,
        (match_pos_from(ms, idx, 0) matches Some(p) && ms[p].1) ==> resolve_highlight(
            ms,
            idx,
            text,
            pat,
            case_sensitive,
        ) is None,
{
    if forall|k: int| 0 <= k < ms.len() ==> (#[trigger] ms[k]).0 != idx {
        lemma_match_pos_none(ms, idx, 0);
    }
}

proof fn lemma_occurrences_characterize(
    text: Seq<char>,
    pat: Seq<char>,
    case_sensitive: bool,
    i: int,
)
    requires
        pat.len() > 0,
        i >= 0,
    ensures
        forall|k: int|
            0 <= k < occurrences_from(text, pat, case_sensitive, i).len() ==> {
                let o = #[trigger] occurrences_from(text, pat, case_sensitive, i)[k];
                &&& o.0 >= i
                &&& o.1 == o.0 + pat.len()
                &&& match_at(text, pat, case_sensitive, o.0)
            },
        forall|k: int|
            0 <= k < occurrences_from(text, pat, case_sensitive, i).len() - 1
                ==> (#[trigger] occurrences_from(text, pat, case_sensitive, i)[k]).0
                < occurrences_from(text, pat, case_sensitive, i)[k + 1].0,
        forall|p: int|
            p >= i && match_at(text, pat, case_sensitive, p) ==> occurrences_from(
                text,
                pat,
                case_sensitive,
                i,
            ).contains((p, p + pat.len() as int)),
    decreases text.len() - i + 1,
{
    let occ = occurrences_from(text, pat, case_sensitive, i);
    if i < 0 || i + pat.len() > text.len() {
        assert forall|p: int| p >= i && match_at(text, pat, case_sensitive, p) implies occ.contains(
            (p, p + pat.len() as int),
        ) by {
            assert(p + pat.len() <= text.len());
            assert(false);
        };
    } else {
        lemma_occurrences_characterize(text, pat, case_sensitive, i + 1);
        let rest = occurrences_from(text, pat, case_sensitive, i + 1);
        assert forall|p: int| p >= i && match_at(text, pat, case_sensitive, p) implies occ.contains(
            (p, p + pat.len() as int),
        ) by {
            if p > i {
                assert(rest.contains((p, p + pat.len() as int)));
                let w = choose|w: int| 0 <= w < rest.len() && rest[w] == (p, p + pat.len() as int);
                if match_at(text, pat, case_sensitive, i) {
                    assert(occ[w + 1] == (p, p + pat.len() as int));
                } else {
                    assert(occ[w] == (p, p + pat.len() as int));
                }
            } else {
                assert(occ[0] == (p, p + pat.len() as int));
            }
        };
    }
}

/// The occurrence list is exact: every reported span is a real match of
/// the pattern's length, the starts ascend strictly, and every position
/// where the pattern matches is reported — overlapping matches included.
pub proof fn lemma_occurrences_exact(text: Seq<char>, pat: Seq<char>, case_sensitive: bool)
    requires
        pat.len() > 0,
    ensures
        forall|k: int|
            0 <= k < occurrences(text, pat, case_sensitive).len() ==> {
                let o = #[trigger] occurrences(text, pat, case_sensitive)[k];
                &&& o.1 == o.0 + pat.len()
                &&& match_at(text, pat, case_sensitive, o.0)
            },
        forall|k: int|
            0 <= k < occurrences(text, pat, case_sensitive).len() - 1
                ==> (#[trigger] occurrences(text, pat, case_sensitive)[k]).0 < occurrences(
                text,
                pat,
                case_sensitive,
            )[k + 1].0,
        forall|p: int|
            match_at(text, pat, case_sensitive, p) ==> occurrences(
                text,
                pat,
                case_sensitive,
            ).contains((p, p + pat.len() as int)),
{
    lemma_occurrences_characterize(text, pat, case_sensitive, 0);
}

} // verus!
