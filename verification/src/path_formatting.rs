//! Path formatting: rendering an object key or array index as its canonical
//! path component, and appending components to a base path.
//!
//! Two parallel paths are built per tree node during traversal — a display
//! path rooted at a caller-chosen prefix and a data path rooted at `$` —
//! but the builders do not distinguish them: the distinction is only the
//! base string the caller supplies. Any path built from a parseable base is
//! itself parseable, back to the same segments plus the appended one.

use vstd::prelude::*;

use crate::text::chars_to_string;
use crate::text::is_alnum;
use crate::text::is_alnum_char;
use crate::text::is_alpha;
use crate::text::is_alpha_char;
use crate::text::str_to_chars;
use crate::value_lookup::Seg;
use crate::value_lookup::digit_val;
use crate::value_lookup::digits_val;
use crate::value_lookup::is_digit_char;
use crate::value_lookup::digits_end;
use crate::value_lookup::key_run_end;
use crate::value_lookup::lemma_digits_end;
use crate::value_lookup::lemma_digits_end_is;
use crate::value_lookup::lemma_digits_val_eq;
use crate::value_lookup::lemma_key_run_end;
use crate::value_lookup::lemma_key_run_end_is;
use crate::value_lookup::lemma_quote_end;
use crate::value_lookup::lemma_quote_scan_stable;
use crate::value_lookup::parse_components;
use crate::value_lookup::parse_path;
use crate::value_lookup::quote_end;
use crate::value_lookup::quoted_content;

verus! {

/// Whether a character may appear in a dot-form key: underscores and the
/// alphanumeric characters. An alphanumeric character is never one of the
/// grammar's terminators, which keeps dot-form components parseable.
pub open spec fn is_ident_char(c: char) -> bool {
    c == '_' || (is_alnum_char(c) && c != '.' && c != '[')
}

/// Whether a key renders in dot form: non-empty, first character alphabetic
/// or underscore, every character alphanumeric or underscore.
pub open spec fn is_identifier(key: Seq<char>) -> bool {
    &&& key.len() > 0
    &&& (is_alpha_char(key[0]) || key[0] == '_')
    &&& forall|k: int| 0 <= k < key.len() ==> is_ident_char(#[trigger] key[k])
}

/// A key's characters with `\` and `"` backslash-escaped. Backslashes are
/// escaped in the same pass, so an escaping backslash is never re-escaped.
pub open spec fn escape_key(key: Seq<char>) -> Seq<char>
    decreases key.len(),
{
    if key.len() == 0 {
        Seq::empty()
    } else {
        (if key[0] == '\\' || key[0] == '"' {
            seq!['\\', key[0]]
        } else {
            seq![key[0]]
        }) + escape_key(key.skip(1))
    }
}

/// The canonical component form of an object key: `.key` for an
/// identifier, the bracket-quoted escaped form for any other key.
pub open spec fn formatted_component(key: Seq<char>) -> Seq<char> {
    if is_identifier(key) {
        seq!['.'] + key
    } else {
        seq!['[', '"'] + escape_key(key) + seq!['"', ']']
    }
}

/// The character for one decimal digit.
pub open spec fn digit_char(d: int) -> char {
    if d == 0 {
        '0'
    } else if d == 1 {
        '1'
    } else if d == 2 {
        '2'
    } else if d == 3 {
        '3'
    } else if d == 4 {
        '4'
    } else if d == 5 {
        '5'
    } else if d == 6 {
        '6'
    } else if d == 7 {
        '7'
    } else if d == 8 {
        '8'
    } else {
        '9'
    }
}

/// The decimal digits of `n`, most significant first.
pub open spec fn decimal_digits(n: int) -> Seq<char>
    decreases n,
{
    if n < 10 {
        seq![digit_char(n)]
    } else {
        proof {
            vstd::arithmetic::div_mod::lemma_div_decreases(n, 10);
        }
        decimal_digits(n / 10) + seq![digit_char(n % 10)]
    }
}

/// The decimal rendering of a number is a non-empty digit run whose value
/// is the number itself.
pub proof fn lemma_decimal_digits(n: int)
    requires
        n >= 0,
    ensures
        decimal_digits(n).len() >= 1,
        forall|k: int|
            0 <= k < decimal_digits(n).len() ==> is_digit_char(#[trigger] decimal_digits(n)[k]),
        digits_val(decimal_digits(n), 0, decimal_digits(n).len() as int) == n,
    decreases n,
{
    if n < 10 {
        let s0 = decimal_digits(n);
        assert(s0 == seq![digit_char(n)]);
        assert(digits_val(s0, 0, 0) == 0);
        assert(digits_val(s0, 0, 1) == digit_val(s0[0]));
        assert(digit_val(digit_char(n)) == n);
    } else {
        vstd::arithmetic::div_mod::lemma_div_decreases(n, 10);
        lemma_decimal_digits(n / 10);
        let pre = decimal_digits(n / 10);
        let whole = decimal_digits(n);
        let plen = pre.len() as int;
        lemma_digits_val_eq(whole, pre, 0, 0, plen);
        vstd::arithmetic::div_mod::lemma_fundamental_div_mod(n, 10);
        assert(digits_val(whole, 0, plen + 1) == digits_val(whole, 0, plen) * 10 + digit_val(
            whole[plen],
        ));
    }
}

fn digit_to_char(d: usize) -> (c: char)
    requires
        d < 10,
    ensures
        c == digit_char(d as int),
{
    if d == 0 {
        '0'
    } else if d == 1 {
        '1'
    } else if d == 2 {
        '2'
    } else if d == 3 {
        '3'
    } else if d == 4 {
        '4'
    } else if d == 5 {
        '5'
    } else if d == 6 {
        '6'
    } else if d == 7 {
        '7'
    } else if d == 8 {
        '8'
    } else {
        '9'
    }
}

/// Appends the decimal digits of `n` to `out`.
pub(crate) fn push_decimal_digits(n: usize, out: &mut Vec<char>)
    ensures
        final(out)@ == old(out)@ + decimal_digits(n as int),
    decreases n,
{
    let q = n / 10;
    let d = n % 10;
    if q > 0 {
        proof {
            vstd::arithmetic::div_mod::lemma_div_decreases(n as int, 10);
        }
        push_decimal_digits(q, out);
    }
    let c = digit_to_char(d);
    out.push(c);
    proof {
        assert(out@ =~= old(out)@ + decimal_digits(n as int));
    }
}

/// Renders an object key in its canonical component form: `.key` when the
/// key is an identifier (non-empty, alphabetic or underscore first, then
/// alphanumerics or underscores), otherwise `["key"]` with `\` and `"`
/// backslash-escaped.
pub fn format_path_component(key: &str) -> (r: String)
    ensures
        r@ == formatted_component(key@),
{
    let kc = str_to_chars(key);
    let n = kc.len();
    let mut valid = n > 0;
    if valid {
        let c0 = kc[0];
        let alpha = is_alpha(c0);
        valid = alpha || c0 == '_';
    }
    let mut k: usize = 0;
    while k < n
        invariant
            kc@ == key@,
            n == key@.len(),
            k <= n,
            valid == (key@.len() > 0 && (is_alpha_char(key@[0]) || key@[0] == '_') && (forall|
                p: int,
            |
                0 <= p < k ==> is_ident_char(#[trigger] key@[p]))),
        decreases n - k,
    {
        if valid {
            let c = kc[k];
            let alnum = is_alnum(c);
            valid = alnum || c == '_';
        }
        k = k + 1;
    }
    assert(valid == is_identifier(key@));
    if valid {
        let mut outv: Vec<char> = Vec::new();
        outv.push('.');
        let mut k: usize = 0;
        while k < n
            invariant
                kc@ == key@,
                n == key@.len(),
                k <= n,
                outv@ == seq!['.'] + key@.take(k as int),
            decreases n - k,
        {
            let c = kc[k];
            outv.push(c);
            k = k + 1;
            proof {
                assert(outv@ =~= seq!['.'] + key@.take(k as int));
            }
        }
        proof {
            assert(key@.take(n as int) =~= key@);
        }
        chars_to_string(&outv)
    } else {
        let mut outv: Vec<char> = Vec::new();
        outv.push('[');
        outv.push('"');
        proof {
            assert(key@.skip(0) =~= key@);
        }
        let mut k: usize = 0;
        while k < n
            invariant
                kc@ == key@,
                n == key@.len(),
                k <= n,
                outv@ + escape_key(key@.skip(k as int)) == seq!['[', '"'] + escape_key(key@),
        decreases n - k,
        {
            let ghost before = outv@;
            let ghost rest = key@.skip(k as int);
            let c = kc[k];
            if c == '\\' || c == '"' {
                outv.push('\\');
            }
            outv.push(c);
            proof {
                assert(rest[0] == key@[k as int]);
                assert(rest.skip(1) =~= key@.skip(k as int + 1));
                if c == '\\' || c == '"' {
                    assert(outv@ =~= before + seq!['\\', c]);
                    assert(before + seq!['\\', c] + escape_key(rest.skip(1)) =~= before
                        + escape_key(rest));
                } else {
                    assert(outv@ =~= before + seq![c]);
                    assert(before + seq![c] + escape_key(rest.skip(1)) =~= before + escape_key(
                        rest,
                    ));
                }
            }
            k = k + 1;
        }
        proof {
            assert(key@.skip(n as int) =~= Seq::<char>::empty());
            assert(escape_key(Seq::<char>::empty()) =~= Seq::<char>::empty());
            assert(outv@ + Seq::<char>::empty() =~= outv@);
        }
        outv.push('"');
        outv.push(']');
        proof {
            assert(outv@ =~= seq!['[', '"'] + escape_key(key@) + seq!['"', ']']);
        }
        chars_to_string(&outv)
    }
}

/// Appends the canonical component of `key` to `base`, verbatim. A base
/// that parses yields a path that parses to the same segments plus this
/// key segment.
pub fn build_object_path(base: &str, key: &str) -> (r: String)
    ensures
        r@ == base@ + formatted_component(key@),
        parse_path(base@) matches Some(segs) ==> parse_path(r@) == Some(
            segs.push(Seg::Key(key@)),
        ),
{
    let component = format_path_component(key);
    let mut r = base.to_owned();
    r.append(component.as_str());
    proof {
        if parse_path(base@) is Some {
            lemma_object_path_round_trip(base@, key@);
        }
    }
    r
}

/// Appends the component `[index]` to `base`, in decimal. A base that
/// parses yields a path that parses to the same segments plus this index
/// segment.
pub fn build_array_path(base: &str, index: usize) -> (r: String)
    ensures
        r@ == base@ + seq!['['] + decimal_digits(index as int) + seq![']'],
        parse_path(base@) matches Some(segs) ==> parse_path(r@) == Some(
            segs.push(Seg::Index(index as int)),
        ),
{
    let mut outv: Vec<char> = Vec::new();
    outv.push('[');
    push_decimal_digits(index, &mut outv);
    outv.push(']');
    let component = chars_to_string(&outv);
    let mut r = base.to_owned();
    r.append(component.as_str());
    proof {
        assert(r@ =~= base@ + seq!['['] + decimal_digits(index as int) + seq![']']);
        if parse_path(base@) is Some {
            lemma_array_path_round_trip(base@, index as int);
            assert(base@ + (seq!['['] + decimal_digits(index as int) + seq![']']) =~= r@);
        }
    }
    r
}

/// A dot-form component: a `.` followed by a non-empty key free of the
/// characters that end a dot-key run.
pub open spec fn dot_component(comp: Seq<char>, key: Seq<char>) -> bool {
    &&& comp == seq!['.'] + key
    &&& key.len() > 0
    &&& forall|k: int| 0 <= k < key.len() ==> #[trigger] key[k] != '.' && key[k] != '['
}

/// A bracket-quoted component: the escaped key between `["` and `"]`.
pub open spec fn quoted_component(comp: Seq<char>, key: Seq<char>) -> bool {
    comp == seq!['[', '"'] + escape_key(key) + seq!['"', ']']
}

/// A bracket-index component: a non-empty digit run of value `i` between
/// `[` and `]`.
pub open spec fn index_component(comp: Seq<char>, i: int) -> bool {
    &&& comp.len() >= 3
    &&& comp[0] == '['
    &&& comp[comp.len() - 1] == ']'
    &&& forall|k: int| 1 <= k < comp.len() - 1 ==> is_digit_char(#[trigger] comp[k])
    &&& digits_val(comp, 1, comp.len() - 1) == i
    &&& 0 <= i <= usize::MAX as int
}

/// Whether `comp` is a well-formed component denoting exactly `seg`.
pub open spec fn component_denotes(comp: Seq<char>, seg: Seg) -> bool {
    match seg {
        Seg::Key(key) => dot_component(comp, key) || quoted_component(comp, key),
        Seg::Index(i) => index_component(comp, i),
    }
}

/// Scanning a quoted key over the escaped form of `key`, up to a closing
/// quote, recovers `key` itself: unescaping inverts escaping.
proof fn lemma_quote_scan(s: Seq<char>, j: int, p: int, key: Seq<char>)
    requires
        0 <= j <= p < s.len(),
        s.subrange(j, p) == escape_key(key),
        s[p] == '"',
    ensures
        quote_end(s, j) == Some(p),
        quoted_content(s, j) == key,
    decreases key.len(),
{
    let esc = escape_key(key);
    if key.len() == 0 {
        assert(esc.len() == 0);
        assert(j == p);
    } else {
        let c = key[0];
        let rest_esc = escape_key(key.skip(1));
        if c == '\\' || c == '"' {
            assert(esc == seq!['\\', c] + rest_esc);
            assert(s[j] == s.subrange(j, p)[0]);
            assert(s[j + 1] == s.subrange(j, p)[1]);
            assert forall|k: int| 0 <= k < p - (j + 2) implies #[trigger] s.subrange(
                j + 2,
                p,
            )[k] == rest_esc[k] by {
                assert(s.subrange(j, p)[k + 2] == s[j + 2 + k]);
                assert(esc[k + 2] == rest_esc[k]);
            };
            assert(s.subrange(j + 2, p) =~= rest_esc);
            lemma_quote_scan(s, j + 2, p, key.skip(1));
            assert(quoted_content(s, j) =~= key);
        } else {
            assert(esc == seq![c] + rest_esc);
            assert(s[j] == s.subrange(j, p)[0]);
            assert forall|k: int| 0 <= k < p - (j + 1) implies #[trigger] s.subrange(
                j + 1,
                p,
            )[k] == rest_esc[k] by {
                assert(s.subrange(j, p)[k + 1] == s[j + 1 + k]);
                assert(esc[k + 1] == rest_esc[k]);
            };
            assert(s.subrange(j + 1, p) =~= rest_esc);
            lemma_quote_scan(s, j + 1, p, key.skip(1));
            assert(quoted_content(s, j) =~= key);
        }
    }
}

/// Appending one well-formed component to text whose component run parses
/// extends the parse by exactly the denoted segment.
proof fn lemma_components_extend(s: Seq<char>, ext: Seq<char>, i: int, seg: Seg)
    requires
        0 <= i <= s.len(),
        parse_components(s, i) is Some,
        component_denotes(ext, seg),
    ensures
        parse_components(s + ext, i) == Some(parse_components(s, i)->Some_0.push(seg)),
    decreases s.len() - i,
{
    let sx = s + ext;
    let n = s.len() as int;
    let nx = sx.len() as int;
    // every component form starts with '.' or '[' and has at least two
    // characters
    assert(ext.len() >= 2 && (ext[0] == '.' || ext[0] == '[')) by {
        match seg {
            Seg::Key(key) => {
                if dot_component(ext, key) {
                    assert(ext[0] == '.');
                } else {
                    assert(ext[0] == '[');
                }
            },
            Seg::Index(v) => {
                assert(ext[0] == '[');
            },
        }
    };
    if i >= n {
        // the appended component is parsed on its own at the end
        assert(i == n);
        assert(parse_components(s, i) == Some(Seq::<Seg>::empty()));
        match seg {
            Seg::Key(key) => {
                if dot_component(ext, key) {
                    assert(sx[i] == '.');
                    lemma_key_run_end_is(sx, i + 1, nx);
                    assert(key_run_end(sx, i + 1) == nx);
                    assert(nx > i + 1);
                    assert(parse_components(sx, nx) == Some(Seq::<Seg>::empty()));
                    assert(sx.subrange(i + 1, nx) =~= key);
                    assert(seq![Seg::Key(key)] + Seq::<Seg>::empty() =~= Seq::<
                        Seg,
                    >::empty().push(seg));
                } else {
                    let esc = escape_key(key);
                    let p = i + 2 + esc.len() as int;
                    assert(sx[i] == '[');
                    assert(i + 1 < nx && sx[i + 1] == '"');
                    assert(sx.subrange(i + 2, p) =~= esc);
                    assert(sx[p] == '"');
                    lemma_quote_scan(sx, i + 2, p, key);
                    assert(quote_end(sx, i + 2) == Some(p));
                    assert(p + 1 < nx && sx[p + 1] == ']');
                    assert(p + 2 == nx);
                    assert(parse_components(sx, p + 2) == Some(Seq::<Seg>::empty()));
                    assert(seq![Seg::Key(key)] + Seq::<Seg>::empty() =~= Seq::<
                        Seg,
                    >::empty().push(seg));
                }
            },
            Seg::Index(v) => {
                let p = i + ext.len() - 1;
                assert(sx[i] == '[');
                assert(is_digit_char(ext[1]));
                assert(sx[i + 1] != '"');
                lemma_digits_end_is(sx, i + 1, p);
                assert(digits_end(sx, i + 1) == p);
                assert(i + 1 < p && p < nx && sx[p] == ']');
                lemma_digits_val_eq(sx, ext, i + 1, 1, ext.len() - 2);
                assert(digits_val(sx, i + 1, p) == v);
                assert(parse_components(sx, p + 1) == Some(Seq::<Seg>::empty()));
                assert(seq![Seg::Index(v)] + Seq::<Seg>::empty() =~= Seq::<Seg>::empty().push(
                    seg,
                ));
            },
        }
    } else {
        let segs = parse_components(s, i)->Some_0;
        if s[i] == '.' {
            let e = key_run_end(s, i + 1);
            lemma_key_run_end(s, i + 1);
            assert(e != i + 1);
            assert(parse_components(s, e) is Some);
            lemma_key_run_end_is(sx, i + 1, e);
            assert(key_run_end(sx, i + 1) == e);
            assert(sx.subrange(i + 1, e) =~= s.subrange(i + 1, e));
            lemma_components_extend(s, ext, e, seg);
            let hd = seq![Seg::Key(s.subrange(i + 1, e))];
            let rest = parse_components(s, e)->Some_0;
            assert(hd + rest.push(seg) =~= (hd + rest).push(seg));
        } else if i + 1 < n && s[i + 1] == '"' {
            assert(s[i] == '[');
            let q = quote_end(s, i + 2)->Some_0;
            assert(quote_end(s, i + 2) is Some);
            lemma_quote_end(s, i + 2);
            assert(q + 1 < n && s[q + 1] == ']');
            assert(parse_components(s, q + 2) is Some);
            lemma_quote_scan_stable(s, ext, i + 2);
            assert(quote_end(sx, i + 2) == Some(q));
            assert(sx[i + 1] == '"');
            assert(sx[q + 1] == ']');
            lemma_components_extend(s, ext, q + 2, seg);
            let hd = seq![Seg::Key(quoted_content(s, i + 2))];
            let rest = parse_components(s, q + 2)->Some_0;
            assert(hd + rest.push(seg) =~= (hd + rest).push(seg));
        } else {
            assert(s[i] == '[');
            let e = digits_end(s, i + 1);
            lemma_digits_end(s, i + 1);
            assert(i + 1 < e && e < n && s[e] == ']' && digits_val(s, i + 1, e) <= usize::MAX
                as int);
            assert(i + 1 < n);
            assert(sx[i + 1] == s[i + 1]);
            lemma_digits_end_is(sx, i + 1, e);
            assert(digits_end(sx, i + 1) == e);
            lemma_digits_val_eq(sx, s, i + 1, i + 1, e - (i + 1));
            assert(digits_val(sx, i + 1, e) == digits_val(s, i + 1, e));
            assert(parse_components(s, e + 1) is Some);
            lemma_components_extend(s, ext, e + 1, seg);
            let hd = seq![Seg::Index(digits_val(s, i + 1, e))];
            let rest = parse_components(s, e + 1)->Some_0;
            assert(hd + rest.push(seg) =~= (hd + rest).push(seg));
        }
    }
}

/// Appending a formatted key component to a parseable path extends its
/// parse by exactly that key segment: the format/parse round trip, for
/// every key.
pub proof fn lemma_object_path_round_trip(base: Seq<char>, key: Seq<char>)
    requires
        parse_path(base) is Some,
    ensures
        parse_path(base + formatted_component(key)) == Some(
            parse_path(base)->Some_0.push(Seg::Key(key)),
        ),
{
    let comp = formatted_component(key);
    if is_identifier(key) {
        assert(dot_component(comp, key)) by {
            assert(forall|k: int| 0 <= k < key.len() ==> #[trigger] key[k] != '.' && key[k]
                != '[') by {
                assert(forall|k: int|
                    0 <= k < key.len() ==> is_ident_char(#[trigger] key[k]));
            };
        };
    } else {
        assert(quoted_component(comp, key));
    }
    let sx = base + comp;
    assert(base.len() > 0 && base[0] == '$');
    assert(sx.len() > 0 && sx[0] == '$');
    lemma_components_extend(base, comp, 1, Seg::Key(key));
}

/// Appending a bracket-index component to a parseable path extends its
/// parse by exactly that index segment.
pub proof fn lemma_array_path_round_trip(base: Seq<char>, i: int)
    requires
        parse_path(base) is Some,
        0 <= i <= usize::MAX as int,
    ensures
        parse_path(base + (seq!['['] + decimal_digits(i) + seq![']'])) == Some(
            parse_path(base)->Some_0.push(Seg::Index(i)),
        ),
{
    let comp = seq!['['] + decimal_digits(i) + seq![']'];
    lemma_decimal_digits(i);
    assert(comp[comp.len() - 1] == ']');
    assert(forall|k: int| 1 <= k < comp.len() - 1 ==> is_digit_char(#[trigger] comp[k])) by {
        assert(forall|k: int|
            0 <= k < decimal_digits(i).len() ==> is_digit_char(
                #[trigger] decimal_digits(i)[k],
            ));
    };
    lemma_digits_val_eq(comp, decimal_digits(i), 1, 0, decimal_digits(i).len() as int);
    assert(index_component(comp, i));
    assert(base.len() > 0 && base[0] == '$');
    let sx = base + comp;
    assert(sx[0] == '$');
    lemma_components_extend(base, comp, 1, Seg::Index(i));
}

/// Parsing a freshly built single-key path recovers exactly that key: the
/// round trip from the root holds for every key, in dot form and in the
/// escaped bracket form alike.
pub proof fn lemma_key_round_trip(key: Seq<char>)
    ensures
        parse_path(seq!['$'] + formatted_component(key)) == Some(seq![Seg::Key(key)]),
{
    let root = seq!['$'];
    assert(parse_path(root) == Some(Seq::<Seg>::empty()));
    lemma_object_path_round_trip(root, key);
    assert(Seq::<Seg>::empty().push(Seg::Key(key)) =~= seq![Seg::Key(key)]);
}

/// Parsing a freshly built single-index path recovers exactly that index.
pub proof fn lemma_index_round_trip(i: int)
    requires
        0 <= i <= usize::MAX as int,
    ensures
        parse_path(seq!['$'] + (seq!['['] + decimal_digits(i) + seq![']'])) == Some(
            seq![Seg::Index(i)],
        ),
{
    let root = seq!['$'];
    assert(parse_path(root) == Some(Seq::<Seg>::empty()));
    lemma_array_path_round_trip(root, i);
    assert(Seq::<Seg>::empty().push(Seg::Index(i)) =~= seq![Seg::Index(i)]);
}

} // verus!
