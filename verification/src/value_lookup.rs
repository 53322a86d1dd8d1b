//! The path mini-language: segment model, parser, and value lookup.
//!
//! A path addresses one node of a document tree. Its textual form is a `$`
//! root sigil followed by components: `.key` for an object member whose name
//! is a plain identifier, `["key"]` for any other member name (with `\`
//! escaping `"` and `\` inside the quotes), and `[7]` for an array element.
//! The grammar must match the whole input; any deviation fails the parse.

use vstd::prelude::*;

use crate::JsonValue;
use crate::text::char_range;
use crate::text::chars_to_string;
use crate::text::str_to_chars;

verus! {

/// One step of a path: an object member selected by name, or an array
/// element selected by position.
#[derive(Debug, PartialEq)]
pub enum PathSegment {
    Key(String),
    Index(usize),
}

/// The mathematical form of a path segment.
pub enum Seg {
    Key(Seq<char>),
    Index(int),
}

impl View for PathSegment {
    type V = Seg;

    open spec fn view(&self) -> Seg {
        match self {
            PathSegment::Key(s) => Seg::Key(s@),
            PathSegment::Index(i) => Seg::Index(*i as int),
        }
    }
}

/// The views of a sequence of segments.
pub open spec fn segs_view(segs: Seq<PathSegment>) -> Seq<Seg> {
    segs.map_values(|seg: PathSegment| seg@)
}

/// Whether a character is an ASCII decimal digit.
pub open spec fn is_digit_char(c: char) -> bool {
    '0' <= c && c <= '9'
}

/// The numeric value of an ASCII decimal digit.
pub open spec fn digit_val(c: char) -> int {
    c as int - 48
}

/// Index of the first character at or after `i` that ends a dot-key run
/// (a `.` or `[`), or the text's length when no such character follows.
pub open spec fn key_run_end(s: Seq<char>, i: int) -> int
    decreases s.len() - i,
{
    if i < 0 || i >= s.len() {
        s.len() as int
    } else if s[i] == '.' || s[i] == '[' {
        i
    } else {
        key_run_end(s, i + 1)
    }
}

pub proof fn lemma_key_run_end(s: Seq<char>, i: int)
    requires
        0 <= i <= s.len(),
    ensures
        i <= key_run_end(s, i) <= s.len(),
        forall|j: int| i <= j < key_run_end(s, i) ==> s[j] != '.' && s[j] != '[',
        key_run_end(s, i) < s.len() ==> s[key_run_end(s, i)] == '.' || s[key_run_end(s, i)] == '[',
    decreases s.len() - i,
{
    if i < s.len() && s[i] != '.' && s[i] != '[' {
        lemma_key_run_end(s, i + 1);
    }
}

/// Position of the closing quote of a bracket-quoted key scanned from `i`,
/// honoring backslash escapes; absent when the text ends first.
pub open spec fn quote_end(s: Seq<char>, i: int) -> Option<int>
    decreases s.len() - i,
{
    if i < 0 || i >= s.len() {
        None
    } else if s[i] == '\\' {
        if i + 1 < s.len() {
            quote_end(s, i + 2)
        } else {
            None
        }
    } else if s[i] == '"' {
        Some(i)
    } else {
        quote_end(s, i + 1)
    }
}

pub proof fn lemma_quote_end(s: Seq<char>, i: int)
    requires
        0 <= i <= s.len(),
    ensures
        quote_end(s, i) matches Some(q) ==> i <= q < s.len() && s[q] == '"',
    decreases s.len() - i,
{
    if i < s.len() {
        if s[i] == '\\' {
            if i + 1 < s.len() {
                lemma_quote_end(s, i + 2);
            }
        } else if s[i] != '"' {
            lemma_quote_end(s, i + 1);
        }
    }
}

/// The unescaped content of a bracket-quoted key scanned from `i` up to its
/// closing quote: a backslash contributes the character that follows it.
pub open spec fn quoted_content(s: Seq<char>, i: int) -> Seq<char>
    decreases s.len() - i,
{
    if i < 0 || i >= s.len() {
        Seq::empty()
    } else if s[i] == '\\' {
        if i + 1 < s.len() {
            seq![s[i + 1]] + quoted_content(s, i + 2)
        } else {
            Seq::empty()
        }
    } else if s[i] == '"' {
        Seq::empty()
    } else {
        seq![s[i]] + quoted_content(s, i + 1)
    }
}

/// Index of the first character at or after `i` that is not an ASCII digit,
/// or the text's length.
pub open spec fn digits_end(s: Seq<char>, i: int) -> int
    decreases s.len() - i,
{
    if i < 0 || i >= s.len() {
        s.len() as int
    } else if is_digit_char(s[i]) {
        digits_end(s, i + 1)
    } else {
        i
    }
}

pub proof fn lemma_digits_end(s: Seq<char>, i: int)
    requires
        0 <= i <= s.len(),
    ensures
        i <= digits_end(s, i) <= s.len(),
        forall|j: int| i <= j < digits_end(s, i) ==> is_digit_char(s[j]),
        digits_end(s, i) < s.len() ==> !is_digit_char(s[digits_end(s, i)]),
    decreases s.len() - i,
{
    if i < s.len() && is_digit_char(s[i]) {
        lemma_digits_end(s, i + 1);
    }
}

/// The numeric value of the digit run `s[i..e]`, read as a decimal number.
pub open spec fn digits_val(s: Seq<char>, i: int, e: int) -> int
    decreases e - i,
{
    if e <= i {
        0
    } else {
        digits_val(s, i, e - 1) * 10 + digit_val(s[e - 1])
    }
}

/// Parse of the component list starting at `i`: the segments it denotes, or
/// absent when the text from `i` on is not a run of well-formed components.
pub open spec fn parse_components(s: Seq<char>, i: int) -> Option<Seq<Seg>>
    decreases s.len() - i,
{
    if i < 0 || i >= s.len() {
        Some(Seq::empty())
    } else if s[i] == '.' {
        let e = key_run_end(s, i + 1);
        if e == i + 1 {
            None
        } else {
            proof {
                lemma_key_run_end(s, i + 1);
            }
            match parse_components(s, e) {
                Some(rest) => Some(seq![Seg::Key(s.subrange(i + 1, e))] + rest),
                None => None,
            }
        }
    } else if s[i] == '[' {
        if i + 1 < s.len() && s[i + 1] == '"' {
            match quote_end(s, i + 2) {
                Some(q) => {
                    if q + 1 < s.len() && s[q + 1] == ']' {
                        proof {
                            lemma_quote_end(s, i + 2);
                        }
                        match parse_components(s, q + 2) {
                            Some(rest) => Some(seq![Seg::Key(quoted_content(s, i + 2))] + rest),
                            None => None,
                        }
                    } else {
                        None
                    }
                },
                None => None,
            }
        } else {
            let e = digits_end(s, i + 1);
            if i + 1 < e && e < s.len() && s[e] == ']' && digits_val(s, i + 1, e) <= usize::MAX
                as int {
                proof {
                    lemma_digits_end(s, i + 1);
                }
                match parse_components(s, e + 1) {
                    Some(rest) => Some(seq![Seg::Index(digits_val(s, i + 1, e))] + rest),
                    None => None,
                }
            } else {
                None
            }
        }
    } else {
        None
    }
}

/// Parse of a whole path string: the `$` root sigil followed by components.
/// The bare root `$` denotes the empty segment sequence.
pub open spec fn parse_path(s: Seq<char>) -> Option<Seq<Seg>> {
    if s.len() == 0 || s[0] != '$' {
        None
    } else {
        parse_components(s, 1)
    }
}

/// `rest` with `prefix` prepended to its segments, when present.
pub open spec fn with_prefix(prefix: Seq<Seg>, rest: Option<Seq<Seg>>) -> Option<Seq<Seg>> {
    match rest {
        Some(r) => Some(prefix + r),
        None => None,
    }
}

proof fn lemma_with_prefix_assoc(a: Seq<Seg>, b: Seq<Seg>, x: Option<Seq<Seg>>)
    ensures
        with_prefix(a, with_prefix(b, x)) == with_prefix(a + b, x),
{
    match x {
        Some(r) => {
            assert(a + (b + r) =~= (a + b) + r);
        },
        None => {},
    }
}

proof fn lemma_segs_view_push(v: Seq<PathSegment>, p: PathSegment)
    ensures
        segs_view(v.push(p)) == segs_view(v) + seq![p@],
{
    assert(segs_view(v.push(p)) =~= segs_view(v) + seq![p@]);
}

/// Parses a path string into segments. The whole string must match the
/// grammar; any deviation yields an absent result, never a panic.
pub fn parse_json_path(path: &str) -> (r: Option<Vec<PathSegment>>)
    ensures
        match r {
            Some(segs) => parse_path(path@) == Some(segs_view(segs@)),
            None => parse_path(path@) is None,
        },
{
    let t = str_to_chars(path);
    let ghost s = path@;
    let n = t.len();
    if n == 0 {
        return None;
    }
    if t[0] != '$' {
        return None;
    }
    let mut segs: Vec<PathSegment> = Vec::new();
    let mut i: usize = 1;
    while i < n
        invariant
            s == path@,
            t@ == s,
            n == s.len(),
            1 <= i <= n,
            parse_path(s) == with_prefix(segs_view(segs@), parse_components(s, i as int)),
        decreases n - i,
    {
        let ghost old_segs = segs@;
        let c = t[i];
        if c == '.' {
            let start = i + 1;
            let mut j: usize = start;
            while j < n && t[j] != '.' && t[j] != '['
                invariant
                    t@ == s,
                    n == s.len(),
                    start <= j <= n,
                    key_run_end(s, start as int) == key_run_end(s, j as int),
                decreases n - j,
            {
                j = j + 1;
            }
            assert(key_run_end(s, start as int) == j as int);
            if j == start {
                return None;
            }
            let key_chars = char_range(&t, start, j);
            let key = chars_to_string(&key_chars);
            segs.push(PathSegment::Key(key));
            proof {
                let seg = Seg::Key(s.subrange(start as int, j as int));
                assert(parse_components(s, i as int) == with_prefix(
                    seq![seg],
                    parse_components(s, j as int),
                ));
                lemma_segs_view_push(old_segs, PathSegment::Key(key));
                lemma_with_prefix_assoc(
                    segs_view(old_segs),
                    seq![seg],
                    parse_components(s, j as int),
                );
            }
            i = j;
        } else if c == '[' {
            if i + 1 < n && t[i + 1] == '"' {
                let mut j: usize = i + 2;
                let mut key_chars: Vec<char> = Vec::new();
                loop
                    invariant
                        s == path@,
                        t@ == s,
                        n == s.len(),
                        i + 2 <= j <= n,
                        quote_end(s, (i + 2) as int) == quote_end(s, j as int),
                        quoted_content(s, (i + 2) as int) == key_chars@ + quoted_content(
                            s,
                            j as int,
                        ),
                        parse_path(s) == with_prefix(
                            segs_view(segs@),
                            parse_components(s, i as int),
                        ),
                        s[i as int] == '[',
                        i + 1 < n && s[i + 1 as int] == '"',
                        1 <= i < n,
                        segs@ == old_segs,
                    ensures
                        i + 2 <= j < n,
                        s[j as int] == '"',
                        quote_end(s, (i + 2) as int) == Some(j as int),
                        quoted_content(s, (i + 2) as int) == key_chars@,
                    decreases n - j,
                {
                    if j >= n {
                        return None;
                    }
                    let cj = t[j];
                    if cj == '\\' {
                        if j + 1 >= n {
                            return None;
                        }
                        let esc = t[j + 1];
                        key_chars.push(esc);
                        j = j + 2;
                        proof {
                            assert(quoted_content(s, (i + 2) as int) =~= key_chars@
                                + quoted_content(s, j as int));
                        }
                    } else if cj == '"' {
                        break;
                    } else {
                        key_chars.push(cj);
                        j = j + 1;
                        proof {
                            assert(quoted_content(s, (i + 2) as int) =~= key_chars@
                                + quoted_content(s, j as int));
                        }
                    }
                }
                if j + 1 >= n {
                    return None;
                }
                if t[j + 1] != ']' {
                    return None;
                }
                let key = chars_to_string(&key_chars);
                segs.push(PathSegment::Key(key));
                proof {
                    let seg = Seg::Key(quoted_content(s, (i + 2) as int));
                    assert(parse_components(s, i as int) == with_prefix(
                        seq![seg],
                        parse_components(s, (j + 2) as int),
                    ));
                    lemma_segs_view_push(old_segs, PathSegment::Key(key));
                    lemma_with_prefix_assoc(
                        segs_view(old_segs),
                        seq![seg],
                        parse_components(s, (j + 2) as int),
                    );
                }
                i = j + 2;
            } else {
                let start = i + 1;
                let mut j: usize = start;
                let mut acc: usize = 0;
                let mut too_big = false;
                while j < n && t[j] != ']'
                    invariant
                        s == path@,
                        t@ == s,
                        n == s.len(),
                        start == i + 1,
                        i < n,
                        start <= j <= n,
                        1 <= i,
                        s[i as int] == '[',
                        !(i + 1 < n && s[i + 1 as int] == '"'),
                        parse_path(s) == with_prefix(
                            segs_view(segs@),
                            parse_components(s, i as int),
                        ),
                        forall|k: int| start <= k < j ==> is_digit_char(#[trigger] s[k]),
                        digits_end(s, start as int) == digits_end(s, j as int),
                        !too_big ==> acc as int == digits_val(s, start as int, j as int),
                        too_big ==> digits_val(s, start as int, j as int) > usize::MAX as int,
                    decreases n - j,
                {
                    let cj = t[j];
                    if !('0' <= cj && cj <= '9') {
                        return None;
                    }
                    let d: u32 = (cj as u32) - 48;
                    let du: usize = d as usize;
                    assert(du as int == digit_val(s[j as int]));
                    assert(0 <= du <= 9);
                    if !too_big {
                        if acc > (usize::MAX - du) / 10 {
                            proof {
                                let m = usize::MAX as int;
                                assert((acc as int) * 10 + (du as int) > m) by (nonlinear_arith)
                                    requires
                                        acc as int > (m - du as int) / 10,
                                        0 <= du as int <= 9,
                                        m > 9,
                                        acc as int >= 0,
                                ;
                            }
                            too_big = true;
                        } else {
                            proof {
                                let m = usize::MAX as int;
                                assert((acc as int) * 10 + (du as int) <= m) by (nonlinear_arith)
                                    requires
                                        acc as int <= (m - du as int) / 10,
                                        0 <= du as int <= 9,
                                        m > 9,
                                        acc as int >= 0,
                                ;
                            }
                            acc = acc * 10 + du;
                        }
                    } else {
                        proof {
                            let dv = digits_val(s, start as int, j as int);
                            assert(dv * 10 + digit_val(s[j as int]) > usize::MAX as int)
                                by (nonlinear_arith)
                                requires
                                    dv > usize::MAX as int,
                                    digit_val(s[j as int]) >= 0,
                            ;
                        }
                    }
                    j = j + 1;
                }
                assert(digits_end(s, start as int) == j as int);
                if j == n {
                    return None;
                }
                if j == start {
                    return None;
                }
                if too_big {
                    return None;
                }
                segs.push(PathSegment::Index(acc));
                proof {
                    let seg = Seg::Index(digits_val(s, start as int, j as int));
                    assert(parse_components(s, i as int) == with_prefix(
                        seq![seg],
                        parse_components(s, (j + 1) as int),
                    ));
                    lemma_segs_view_push(old_segs, PathSegment::Index(acc));
                    lemma_with_prefix_assoc(
                        segs_view(old_segs),
                        seq![seg],
                        parse_components(s, (j + 1) as int),
                    );
                }
                i = j + 1;
            }
        } else {
            return None;
        }
    }
    proof {
        assert(segs_view(segs@) + Seq::<Seg>::empty() =~= segs_view(segs@));
    }
    Some(segs)
}

/// First value paired with `key` among an object's entries. Objects keep
/// insertion order; a duplicated key resolves to its first occurrence.
pub open spec fn obj_get(entries: Seq<(String, JsonValue)>, key: Seq<char>) -> Option<JsonValue>
    decreases entries.len(),
{
    if entries.len() == 0 {
        None
    } else if entries[0].0@ == key {
        Some(entries[0].1)
    } else {
        obj_get(entries.skip(1), key)
    }
}

/// The value a segment sequence addresses within `v`: a key segment selects
/// an object member, an index segment selects an array element, and any
/// mismatch of segment and node kind fails the whole lookup.
pub open spec fn lookup_segments(v: JsonValue, segs: Seq<Seg>) -> Option<JsonValue>
    decreases segs.len(),
{
    if segs.len() == 0 {
        Some(v)
    } else {
        match segs[0] {
            Seg::Key(k) => match v {
                JsonValue::Obj(entries) => match obj_get(entries@, k) {
                    Some(child) => lookup_segments(child, segs.skip(1)),
                    None => None,
                },
                _ => None,
            },
            Seg::Index(i) => match v {
                JsonValue::Arr(els) => if 0 <= i < els@.len() {
                    lookup_segments(els@[i], segs.skip(1))
                } else {
                    None
                },
                _ => None,
            },
        }
    }
}

/// The value a segment sequence addresses across the lines of a
/// line-delimited document: the first segment must be an index choosing the
/// line; an empty path or a leading key segment finds nothing.
pub open spec fn lookup_jsonl(values: Seq<JsonValue>, segs: Seq<Seg>) -> Option<JsonValue> {
    if segs.len() == 0 {
        None
    } else {
        match segs[0] {
            Seg::Index(i) => if 0 <= i < values.len() {
                lookup_segments(values[i], segs.skip(1))
            } else {
                None
            },
            Seg::Key(_) => None,
        }
    }
}

/// Resolves the segments from position `from` on, step by step from `value`.
fn lookup_from<'a>(value: &'a JsonValue, segments: &Vec<PathSegment>, from: usize) -> (r: Option<
    &'a JsonValue,
>)
    requires
        from <= segments@.len(),
    ensures
        match r {
            Some(v) => lookup_segments(*value, segs_view(segments@).skip(from as int)) == Some(*v),
            None => lookup_segments(*value, segs_view(segments@).skip(from as int)) is None,
        },
{
    let ghost all = segs_view(segments@);
    let mut current: &JsonValue = value;
    let mut k: usize = from;
    let n = segments.len();
    while k < n
        invariant
            all == segs_view(segments@),
            n == segments@.len(),
            from <= k <= n,
            lookup_segments(*value, all.skip(from as int)) == lookup_segments(
                *current,
                all.skip(k as int),
            ),
        decreases n - k,
    {
        let ghost rest = all.skip(k as int);
        proof {
            assert(rest[0] == segments@[k as int]@);
            assert(rest.skip(1) =~= all.skip(k as int + 1));
        }
        let seg = &segments[k];
        match seg {
            PathSegment::Key(key) => {
                match current {
                    JsonValue::Obj(entries) => {
                        let en = entries.len();
                        let mut m: usize = 0;
                        proof {
                            assert(entries@.skip(0) =~= entries@);
                        }
                        while m < en && !(entries[m].0 == *key)
                            invariant
                                en == entries@.len(),
                                m <= en,
                                obj_get(entries@, key@) == obj_get(
                                    entries@.skip(m as int),
                                    key@,
                                ),
                            decreases en - m,
                        {
                            proof {
                                assert(entries@.skip(m as int).skip(1) =~= entries@.skip(
                                    m as int + 1,
                                ));
                            }
                            m = m + 1;
                        }
                        if m == en {
                            proof {
                                assert(entries@.skip(m as int) =~= Seq::<(
                                    String,
                                    JsonValue,
                                )>::empty());
                            }
                            return None;
                        }
                        current = &entries[m].1;
                    },
                    _ => {
                        return None;
                    },
                }
            },
            PathSegment::Index(idx) => {
                match current {
                    JsonValue::Arr(els) => {
                        if *idx < els.len() {
                            current = &els[*idx];
                        } else {
                            return None;
                        }
                    },
                    _ => {
                        return None;
                    },
                }
            },
        }
        k = k + 1;
    }
    proof {
        assert(all.skip(n as int) =~= Seq::<Seg>::empty());
    }
    Some(current)
}

/// Looks up `path` in a single document value. The bare root `$` addresses
/// the whole value; a path that fails the grammar, or one that addresses a
/// member or element the value does not have, finds nothing.
pub fn lookup_value<'a>(root: &'a JsonValue, path: &str) -> (r: Option<&'a JsonValue>)
    ensures
        match parse_path(path@) {
            Some(segs) => match r {
                Some(v) => lookup_segments(*root, segs) == Some(*v),
                None => lookup_segments(*root, segs) is None,
            },
            None => r is None,
        },
{
    let segments = match parse_json_path(path) {
        Some(segments) => segments,
        None => {
            return None;
        },
    };
    proof {
        assert(segs_view(segments@).skip(0) =~= segs_view(segments@));
    }
    lookup_from(root, &segments, 0)
}

/// Looks up `path` across the lines of a line-delimited document: the first
/// segment picks the line, the rest resolve within it. The bare root `$`
/// finds nothing here, since the collection has no single root value.
pub fn lookup_value_in_jsonl<'a>(values: &'a Vec<JsonValue>, path: &str) -> (r: Option<
    &'a JsonValue,
>)
    ensures
        match parse_path(path@) {
            Some(segs) => match r {
                Some(v) => lookup_jsonl(values@, segs) == Some(*v),
                None => lookup_jsonl(values@, segs) is None,
            },
            None => r is None,
        },
{
    let segments = match parse_json_path(path) {
        Some(segments) => segments,
        None => {
            return None;
        },
    };
    if segments.len() == 0 {
        return None;
    }
    let first = &segments[0];
    match first {
        PathSegment::Index(idx) => {
            if *idx < values.len() {
                lookup_from(&values[*idx], &segments, 1)
            } else {
                None
            }
        },
        PathSegment::Key(_) => None,
    }
}

/// A run of non-terminator characters up to `p`, with `p` the end of the
/// text or a terminator, pins down where a dot-key run ends.
pub proof fn lemma_key_run_end_is(s: Seq<char>, j: int, p: int)
    requires
        0 <= j <= p <= s.len(),
        forall|k: int| j <= k < p ==> s[k] != '.' && s[k] != '[',
        p == s.len() || s[p] == '.' || s[p] == '[',
    ensures
        key_run_end(s, j) == p,
    decreases p - j,
{
    if j < p {
        lemma_key_run_end_is(s, j + 1, p);
    }
}

/// A run of digits up to `p`, with `p` the end of the text or a non-digit,
/// pins down where a digit run ends.
pub proof fn lemma_digits_end_is(s: Seq<char>, j: int, p: int)
    requires
        0 <= j <= p <= s.len(),
        forall|k: int| j <= k < p ==> is_digit_char(#[trigger] s[k]),
        p == s.len() || !is_digit_char(s[p]),
    ensures
        digits_end(s, j) == p,
    decreases p - j,
{
    if j < p {
        lemma_digits_end_is(s, j + 1, p);
    }
}

/// A quoted-key scan that closes within `s` is unaffected by text appended
/// after `s`.
pub proof fn lemma_quote_scan_stable(s: Seq<char>, ext: Seq<char>, j: int)
    requires
        0 <= j <= s.len(),
        quote_end(s, j) is Some,
    ensures
        quote_end(s + ext, j) == quote_end(s, j),
        quoted_content(s + ext, j) == quoted_content(s, j),
    decreases s.len() - j,
{
    if j < s.len() {
        if s[j] == '\\' {
            if j + 1 < s.len() {
                lemma_quote_scan_stable(s, ext, j + 2);
            }
        } else if s[j] != '"' {
            lemma_quote_scan_stable(s, ext, j + 1);
        }
    }
}

/// A digit run's value depends only on the characters in its range.
pub proof fn lemma_digits_val_eq(s: Seq<char>, t: Seq<char>, si: int, ti: int, len: int)
    requires
        len >= 0,
        forall|k: int| 0 <= k < len ==> #[trigger] s[si + k] == t[ti + k],
    ensures
        digits_val(s, si, si + len) == digits_val(t, ti, ti + len),
    decreases len,
{
    if len > 0 {
        lemma_digits_val_eq(s, t, si, ti, len - 1);
    }
}

/// Lookup type safety: a key segment against an array node, or an index
/// segment against an object node, never finds a value — nor does either
/// against a scalar.
pub proof fn lemma_lookup_type_safety(v: JsonValue, segs: Seq<Seg>)
    requires
        segs.len() > 0,
    ensures
        segs[0] is Key && !(v is Obj) ==> lookup_segments(v, segs) is None,
        segs[0] is Index && !(v is Arr) ==> lookup_segments(v, segs) is None,
{
}

} // verus!

