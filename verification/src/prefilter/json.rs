//! Conservative JSON detection and the byte-preserving JSON key prefilter.
//!
//! Repeated object keys (`"key": `) and repeated string values are collected into a token
//! table; formatting, quotes and numbers are left exactly as they are.
use vstd::prelude::*;

use crate::buf::{append_range, append_slice};
use crate::error::CodropResult;
use crate::prefilter::dict::{
    byte_count, find_least_frequent_byte, spec_least_frequent_byte, spec_substitute_from,
    substitute_tokens, InvertResult,
};
use crate::prefilter::text::{
    law_token_table_roundtrip, prefilter_output_is, serialize_token_table,
    spec_serialize_token_table, spec_table_prefilter_decode, table_decode_result_is,
    table_prefilter_decode, utf8_is_valid, MAX_TABLE_TOKEN_LEN,
};
use crate::prefilter::tokens::{
    is_top_selection, lemma_top_selection_unique, qualifies, record_occurrence, select_top_tokens,
    tabulates,
};

verus! {

/// Longest key or string token that the JSON prefilter collects.
pub const MAX_JSON_TOKEN_LEN: usize = 48;

/// ASCII whitespace: space, tab, line feed, form feed, carriage return.
pub open spec fn is_ascii_ws(b: u8) -> bool {
    b == 0x20 || b == 0x09 || b == 0x0A || b == 0x0C || b == 0x0D
}

/// First index at or after `i` that is not whitespace (or the end).
pub open spec fn trim_start_index(s: Seq<u8>, i: int) -> int
    decreases s.len() - i,
{
    if 0 <= i < s.len() && is_ascii_ws(s[i]) { trim_start_index(s, i + 1) } else { i }
}

/// Smallest `j' <= j` such that `s[j'..j]` is all whitespace, not going below `lo`.
pub open spec fn trim_end_index(s: Seq<u8>, lo: int, j: int) -> int
    decreases j,
{
    if j > lo && j > 0 && j <= s.len() && is_ascii_ws(s[j - 1]) { trim_end_index(s, lo, j - 1) } else { j }
}

/// `s` without leading and trailing ASCII whitespace.
pub open spec fn spec_trim(s: Seq<u8>) -> Seq<u8> {
    let a = trim_start_index(s, 0);
    let b = trim_end_index(s, a, s.len() as int);
    s.subrange(a, b)
}

/// Net bracket depth of `s`: openings minus closings.
pub open spec fn bracket_depth(s: Seq<u8>) -> int
    decreases s.len(),
{
    if s.len() == 0 {
        0
    } else {
        let b = s.last();
        bracket_depth(s.drop_last()) + if b == 0x7B || b == 0x5B {
            1int
        } else if b == 0x7D || b == 0x5D {
            -1int
        } else {
            0int
        }
    }
}

/// No prefix of `s` closes more brackets than it opens.
pub open spec fn depth_never_negative(s: Seq<u8>) -> bool {
    forall|k: int| 0 <= k <= s.len() ==> bracket_depth(#[trigger] s.take(k)) >= 0
}

/// JSON-looking: after trimming, an object or array with balanced brackets, quotes and a colon
/// in a non-empty object, a comma, quote or colon in an array with more than two bytes inside,
/// and well-formed UTF-8.
pub open spec fn spec_is_json(data: Seq<u8>) -> bool {
    let t = spec_trim(data);
    let is_object = t.len() >= 2 && t[0] == 0x7B && t[t.len() - 1] == 0x7D;
    let is_array = t.len() >= 2 && t[0] == 0x5B && t[t.len() - 1] == 0x5D;
    let interior = spec_trim(t.subrange(1, t.len() - 1));
    let quotes = byte_count(t, 0x22);
    let colons = byte_count(t, 0x3A);
    let commas = byte_count(t, 0x2C);
    &&& t.len() >= 2
    &&& (is_object || is_array)
    &&& depth_never_negative(t)
    &&& bracket_depth(t) == 0
    &&& (is_object && interior.len() > 0 ==> quotes >= 2 && colons > 0)
    &&& (is_array && interior.len() > 2 ==> commas > 0 || quotes > 0 || colons > 0)
    &&& vstd::utf8::valid_utf8(t)
}

/// Bounds of `s[lo..hi]` without leading and trailing ASCII whitespace.
fn trim_bounds(s: &[u8], lo: usize, hi: usize) -> (r: (usize, usize))
    requires
        lo <= hi <= s@.len(),
    ensures
        spec_trim(s@.subrange(lo as int, hi as int)) == s@.subrange(r.0 as int, r.1 as int),
        lo <= r.0 <= r.1 <= hi,
{
    let ghost sub = s@.subrange(lo as int, hi as int);
    let mut a = lo;
    while a < hi && (s[a] == 0x20 || s[a] == 0x09 || s[a] == 0x0A || s[a] == 0x0C || s[a] == 0x0D)
        invariant
            lo <= a <= hi,
            hi <= s@.len(),
            sub == s@.subrange(lo as int, hi as int),
            trim_start_index(sub, 0) == trim_start_index(sub, a - lo),
        decreases hi - a,
    {
        a = a + 1;
    }
    assert(trim_start_index(sub, 0) == a - lo);
    let mut b = hi;
    while b > a && (s[b - 1] == 0x20 || s[b - 1] == 0x09 || s[b - 1] == 0x0A || s[b - 1] == 0x0C
        || s[b - 1] == 0x0D)
        invariant
            lo <= a <= b <= hi,
            hi <= s@.len(),
            sub == s@.subrange(lo as int, hi as int),
            trim_end_index(sub, a - lo, sub.len() as int) == trim_end_index(sub, a - lo, b - lo),
        decreases b,
    {
        b = b - 1;
    }
    assert(trim_end_index(sub, a - lo, sub.len() as int) == b - lo);
    assert(sub.subrange(a - lo, b - lo) =~= s@.subrange(a as int, b as int));
    (a, b)
}

proof fn lemma_depth_take(s: Seq<u8>, k: int)
    requires
        0 <= k < s.len(),
    ensures
        s.take(k + 1).drop_last() == s.take(k),
        s.take(k + 1).last() == s[k],
{
    assert(s.take(k + 1).drop_last() =~= s.take(k));
}

/// Conservatively determines whether `data` is likely JSON.
pub fn is_json(data: &[u8]) -> (r: bool)
    ensures
        r == spec_is_json(data@),
{
    let (a, b) = trim_bounds(data, 0, data.len());
    assert(data@.subrange(0, data@.len() as int) =~= data@);
    let ghost t = data@.subrange(a as int, b as int);
    if b - a < 2 {
        return false;
    }
    let first = data[a];
    let last = data[b - 1];
    let is_object = first == 0x7B && last == 0x7D;
    let is_array = first == 0x5B && last == 0x5D;
    if !is_object && !is_array {
        return false;
    }
    let mut quotes: usize = 0;
    let mut colons: usize = 0;
    let mut commas: usize = 0;
    let mut depth: usize = 0;
    let mut i = a;
    assert(t.take(0) =~= Seq::<u8>::empty());
    while i < b
        invariant
            a <= i <= b,
            b <= data@.len(),
            t == data@.subrange(a as int, b as int),
            t == spec_trim(data@),
            quotes == byte_count(t.take(i - a), 0x22),
            colons == byte_count(t.take(i - a), 0x3A),
            commas == byte_count(t.take(i - a), 0x2C),
            depth as int == bracket_depth(t.take(i - a)),
            quotes <= i - a,
            colons <= i - a,
            commas <= i - a,
            depth <= i - a,
            forall|k: int| 0 <= k <= i - a ==> bracket_depth(#[trigger] t.take(k)) >= 0,
        decreases b - i,
    {
        let c = data[i];
        proof {
            lemma_depth_take(t, i - a);
        }
        if c == 0x22 {
            quotes = quotes + 1;
        } else if c == 0x3A {
            colons = colons + 1;
        } else if c == 0x2C {
            commas = commas + 1;
        } else if c == 0x7B || c == 0x5B {
            depth = depth + 1;
        } else if c == 0x7D || c == 0x5D {
            if depth == 0 {
                assert(bracket_depth(t.take(i - a + 1)) < 0);
                assert(!depth_never_negative(t));
                return false;
            }
            depth = depth - 1;
        }
        i = i + 1;
        proof {
            assert forall|k: int| 0 <= k <= i - a implies bracket_depth(#[trigger] t.take(k)) >= 0 by {}
        }
    }
    assert(t.take(b - a) =~= t);
    if depth != 0 {
        return false;
    }
    let (ia, ib) = trim_bounds(data, a + 1, b - 1);
    assert(t.subrange(1, t.len() - 1) =~= data@.subrange(a + 1, b - 1));
    if is_object {
        if ib > ia && (quotes < 2 || colons == 0) {
            return false;
        }
    } else if is_array && ib > ia && ib - ia > 2 {
        if commas == 0 && quotes == 0 && colons == 0 {
            return false;
        }
    }
    let mut trimmed: Vec<u8> = Vec::new();
    append_range(&mut trimmed, data, a, b);
    utf8_is_valid(trimmed.as_slice())
}

/// End of a JSON string body scanned from `k`: the index of the closing quote, skipping
/// backslash escapes, or an index at or past the end when the string is unterminated.
pub open spec fn string_end(src: Seq<u8>, k: int) -> int
    decreases src.len() - k,
{
    if k < 0 || k >= src.len() {
        k
    } else if src[k] == 0x22 {
        k
    } else if src[k] == 0x5C && k + 1 < src.len() {
        string_end(src, k + 2)
    } else {
        string_end(src, k + 1)
    }
}

/// First index at or after `i` that is neither a space nor a tab.
pub open spec fn skip_spaces(src: Seq<u8>, i: int) -> int
    decreases src.len() - i,
{
    if 0 <= i < src.len() && (src[i] == 0x20 || src[i] == 0x09) { skip_spaces(src, i + 1) } else { i }
}

pub proof fn lemma_string_end(src: Seq<u8>, k: int)
    requires
        0 <= k,
    ensures
        k <= string_end(src, k),
        string_end(src, k) < src.len() ==> src[string_end(src, k)] == 0x22,
        string_end(src, k) >= src.len() ==> string_end(src, k) <= src.len() + 1 || string_end(src, k) == k,
    decreases src.len() - k,
{
    if 0 <= k < src.len() && src[k] != 0x22 {
        if src[k] == 0x5C && k + 1 < src.len() {
            lemma_string_end(src, k + 2);
        } else {
            lemma_string_end(src, k + 1);
        }
    }
}

pub proof fn lemma_skip_spaces(src: Seq<u8>, i: int)
    requires
        0 <= i,
    ensures
        i <= skip_spaces(src, i),
        i <= src.len() ==> skip_spaces(src, i) <= src.len(),
    decreases src.len() - i,
{
    if 0 <= i < src.len() && (src[i] == 0x20 || src[i] == 0x09) {
        lemma_skip_spaces(src, i + 1);
    }
}

/// The key patterns (`"key":` with the blanks around the colon, 4 to 48 bytes) and quoted
/// string values (6 to 48 bytes) of `src[i..]`, in order.
pub open spec fn json_tokens_from(src: Seq<u8>, i: int) -> Seq<Seq<u8>>
    decreases src.len() - i,
{
    if i < 0 || i >= src.len() {
        Seq::empty()
    } else if src[i] != 0x22 {
        json_tokens_from(src, i + 1)
    } else {
        let j = string_end(src, i + 1);
        proof {
            lemma_string_end(src, i + 1);
        }
        if j >= src.len() {
            Seq::empty()
        } else {
            let q = j + 1;
            let post = skip_spaces(src, q);
            proof {
                lemma_skip_spaces(src, q);
            }
            if post < src.len() && src[post] == 0x3A {
                let post2 = skip_spaces(src, post + 1);
                proof {
                    lemma_skip_spaces(src, post + 1);
                }
                let t = src.subrange(i, post2);
                if 4 <= t.len() <= MAX_JSON_TOKEN_LEN {
                    seq![t] + json_tokens_from(src, post2)
                } else {
                    json_tokens_from(src, post2)
                }
            } else {
                let t = src.subrange(i, q);
                if 6 <= t.len() <= MAX_JSON_TOKEN_LEN {
                    seq![t] + json_tokens_from(src, q)
                } else {
                    json_tokens_from(src, q)
                }
            }
        }
    }
}

/// The JSON token table chosen for `src`: the `min(max_tokens, 254)` keys and strings that
/// occur at least twice and save more than six bytes, best first.
pub open spec fn spec_json_tokens(src: Seq<u8>, max_tokens: nat) -> Seq<Seq<u8>> {
    let limit = if max_tokens < 254 { max_tokens } else { 254nat };
    choose|r: Seq<Seq<u8>>| is_top_selection(json_tokens_from(src, 0), r, 2, 6, limit)
}

/// Skip spaces and tabs from `i`.
fn skip_spaces_exec(src: &[u8], i: usize) -> (r: usize)
    requires
        i <= src@.len(),
    ensures
        r == skip_spaces(src@, i as int),
        i <= r <= src@.len(),
{
    let mut p = i;
    while p < src.len() && (src[p] == 0x20 || src[p] == 0x09)
        invariant
            i <= p <= src@.len(),
            skip_spaces(src@, i as int) == skip_spaces(src@, p as int),
        decreases src@.len() - p,
    {
        p = p + 1;
    }
    p
}

/// Extracts repeated JSON keys (such as `"name": `) and repeated string values.
pub fn extract_json_keys(src: &[u8], max_tokens: usize) -> (r: Vec<Vec<u8>>)
    ensures
        r.deep_view() == spec_json_tokens(src@, max_tokens as nat),
        r@.len() <= 254,
        forall|i: int| 0 <= i < r@.len() ==> 4 <= (#[trigger] r.deep_view()[i]).len() <= MAX_JSON_TOKEN_LEN,
{
    let ghost all = json_tokens_from(src@, 0);
    let mut toks: Vec<Vec<u8>> = Vec::new();
    let mut cnts: Vec<usize> = Vec::new();
    let ghost mut seen: Seq<Seq<u8>> = Seq::empty();
    let n = src.len();
    let mut i: usize = 0;
    assert(toks.deep_view() =~= Seq::<Seq<u8>>::empty());
    assert(seen + all =~= all);
    while i < n
        invariant
            i <= n,
            n == src@.len(),
            all == json_tokens_from(src@, 0),
            all == seen + json_tokens_from(src@, i as int),
            4 * seen.len() <= i,
            tabulates(seen, toks.deep_view(), cnts@),
            forall|x: Seq<u8>| #[trigger] toks.deep_view().contains(x) ==> 4 <= x.len() <= MAX_JSON_TOKEN_LEN,
        decreases n - i,
    {
        if src[i] != 0x22 {
            i = i + 1;
        } else {
            let start = i;
            let ghost i0 = i as int;
            i = i + 1;
            proof {
                lemma_string_end(src@, i as int);
            }
            while i < n && src[i] != 0x22
                invariant
                    start < i,
                    i <= n + 1,
                    n == src@.len(),
                    string_end(src@, start + 1) == string_end(src@, i as int),
                decreases n + 1 - i,
            {
                if src[i] == 0x5C && n - i > 1 {
                    i = i + 2;
                } else {
                    i = i + 1;
                }
            }
            assert(string_end(src@, start + 1) == i as int);
            if i < n {
                i = i + 1;
                let key_quote_end = i;
                let post = skip_spaces_exec(src, i);
                if post < n && src[post] == 0x3A {
                    let post2 = skip_spaces_exec(src, post + 1);
                    let ghost t = src@.subrange(start as int, post2 as int);
                    if post2 - start >= 4 && post2 - start <= MAX_JSON_TOKEN_LEN {
                        record_occurrence(&mut toks, &mut cnts, src, start, post2, Ghost(seen));
                        proof {
                            assert(all == seen.push(t) + json_tokens_from(src@, post2 as int));
                            seen = seen.push(t);
                        }
                    }
                    i = post2;
                } else {
                    let ghost t = src@.subrange(start as int, key_quote_end as int);
                    if key_quote_end - start >= 6 && key_quote_end - start <= MAX_JSON_TOKEN_LEN {
                        record_occurrence(&mut toks, &mut cnts, src, start, key_quote_end, Ghost(seen));
                        proof {
                            assert(all == seen.push(t) + json_tokens_from(src@, key_quote_end as int));
                            seen = seen.push(t);
                        }
                    }
                    i = key_quote_end;
                }
            } else {
                assert(json_tokens_from(src@, i0) =~= Seq::<Seq<u8>>::empty());
                assert(json_tokens_from(src@, n as int) =~= Seq::<Seq<u8>>::empty());
                i = n;
            }
        }
    }
    assert(json_tokens_from(src@, i as int) =~= Seq::<Seq<u8>>::empty());
    assert(all == seen);
    let limit = if max_tokens < 254 { max_tokens } else { 254 };
    proof {
        let tv = toks.deep_view();
        assert forall|k: int| 0 <= k < toks@.len() implies (#[trigger] toks@[k])@.len() <= 255 by {
            assert(tv[k] == toks@[k]@);
            assert(tv.contains(tv[k]));
        }
    }
    let r = select_top_tokens(&toks, &cnts, 2, 6, limit, Ghost(all));
    proof {
        let rv = r.deep_view();
        lemma_top_selection_unique(all, rv, spec_json_tokens(src@, max_tokens as nat), 2, 6, limit as nat);
        assert forall|k: int| 0 <= k < r@.len() implies 4 <= (#[trigger] rv[k]).len() <= MAX_JSON_TOKEN_LEN by {
            assert(qualifies(all, rv[k], 2, 6));
            assert(toks.deep_view().contains(rv[k]));
        }
    }
    r
}

/// JSON prefilter output for `src`: metadata `[esc, token table]` and the substituted data,
/// when repeated keys exist and the two together are shorter than `src`.
pub open spec fn spec_json_prefilter_encode(src: Seq<u8>) -> Option<(Seq<u8>, Seq<u8>)> {
    let toks = spec_json_tokens(src, 64);
    let esc = spec_least_frequent_byte(src);
    let transformed = spec_substitute_from(src, 0, toks, esc);
    let meta = seq![esc] + spec_serialize_token_table(toks);
    if toks.len() == 0 || transformed.len() + meta.len() >= src.len() {
        None
    } else {
        Some((meta, transformed))
    }
}

/// Encodes JSON by substituting repeated keys and strings; returns `(metadata, transformed)`.
pub fn json_prefilter_encode(src: &[u8]) -> (r: Option<(Vec<u8>, Vec<u8>)>)
    ensures
        prefilter_output_is(spec_json_prefilter_encode(src@), r),
        r matches Some((m, t)) ==> forall|max: int| max >= src@.len()
            ==> spec_table_prefilter_decode(m@, t@, max) == Some(InvertResult::Done(src@)),
{
    let tokens = extract_json_keys(src, 64);
    if tokens.len() == 0 {
        return None;
    }
    let esc_byte = find_least_frequent_byte(src);
    let transformed = substitute_tokens(src, tokens.as_slice(), esc_byte);
    let mut meta: Vec<u8> = Vec::new();
    meta.push(esc_byte);
    let table = serialize_token_table(tokens.as_slice());
    append_slice(&mut meta, table.as_slice());
    assert(meta@ =~= seq![esc_byte] + spec_serialize_token_table(tokens.deep_view()));
    if transformed.len() >= src.len() || meta.len() >= src.len() - transformed.len() {
        return None;
    }
    proof {
        let toks = tokens.deep_view();
        assert forall|i: int| 0 <= i < toks.len() implies 1 <= (#[trigger] toks[i]).len() <= MAX_TABLE_TOKEN_LEN by {}
        law_token_table_roundtrip(toks, Seq::empty());
        let ser = spec_serialize_token_table(toks);
        assert(ser + Seq::<u8>::empty() =~= ser);
        assert(meta@.skip(1) =~= ser);
        assert forall|max: int| max >= src@.len() implies spec_table_prefilter_decode(meta@, transformed@, max)
            == Some(InvertResult::Done(src@)) by {
            crate::prefilter::text::lemma_parse_shift(meta@, 1, toks);
            crate::prefilter::dict::law_substitute_invert(src@, toks, esc_byte, max);
        }
    }
    Some((meta, transformed))
}

/// Reverses the JSON prefilter to recover the exact original bytes.
pub fn json_prefilter_decode(meta: &[u8], transformed: &[u8], max_output_size: usize) -> (r: CodropResult<Vec<u8>>)
    ensures
        table_decode_result_is(spec_table_prefilter_decode(meta@, transformed@, max_output_size as int), r, max_output_size),
{
    table_prefilter_decode(meta, transformed, max_output_size)
}

proof fn lemma_byte_count_pos(s: Seq<u8>, b: u8, i: int)
    requires
        0 <= i < s.len(),
        s[i] == b,
    ensures
        byte_count(s, b) > 0,
    decreases s.len(),
{
    if i < s.len() - 1 {
        lemma_byte_count_pos(s.drop_last(), b, i);
    }
}

/// A byte sequence that starts with `[` and ends with `]`, whose brackets balance without any
/// prefix closing more than it opened, that is well-formed UTF-8 and that holds a comma, is
/// detected as JSON, whatever else it holds (an array of numbers `[1, 2, 3]` among them).
pub proof fn law_comma_array_is_json(data: Seq<u8>)
    requires
        data.len() >= 2,
        data[0] == 0x5B,
        data[data.len() - 1] == 0x5D,
        forall|k: int| 0 <= k <= data.len() ==> bracket_depth(#[trigger] data.take(k)) >= 0,
        bracket_depth(data) == 0,
        vstd::utf8::valid_utf8(data),
        data.contains(0x2Cu8),
    ensures
        spec_is_json(data),
{
    assert(trim_start_index(data, 0) == 0);
    assert(trim_end_index(data, 0, data.len() as int) == data.len());
    assert(spec_trim(data) =~= data);
    let i = choose|i: int| 0 <= i < data.len() && data[i] == 0x2Cu8;
    lemma_byte_count_pos(data, 0x2Cu8, i);
}

/// A byte sequence that starts with `{` and ends with `}`, whose brackets balance without any
/// prefix closing more than it opened, that is well-formed UTF-8 and that holds two quotes
/// and a colon, is detected as JSON.
pub proof fn law_keyed_object_is_json(data: Seq<u8>, q1: int, q2: int, c: int)
    requires
        data.len() >= 2,
        data[0] == 0x7B,
        data[data.len() - 1] == 0x7D,
        forall|k: int| 0 <= k <= data.len() ==> bracket_depth(#[trigger] data.take(k)) >= 0,
        bracket_depth(data) == 0,
        vstd::utf8::valid_utf8(data),
        0 <= q1 < q2 < data.len(),
        data[q1] == 0x22 && data[q2] == 0x22,
        0 <= c < data.len() && data[c] == 0x3A,
    ensures
        spec_is_json(data),
{
    assert(trim_start_index(data, 0) == 0);
    assert(trim_end_index(data, 0, data.len() as int) == data.len());
    assert(spec_trim(data) =~= data);
    lemma_byte_count_pos(data, 0x3Au8, c);
    lemma_byte_count_two(data, 0x22u8, q1, q2);
}

proof fn lemma_byte_count_two(s: Seq<u8>, b: u8, i: int, j: int)
    requires
        0 <= i < j < s.len(),
        s[i] == b,
        s[j] == b,
    ensures
        byte_count(s, b) >= 2,
    decreases s.len(),
{
    if j < s.len() - 1 {
        lemma_byte_count_two(s.drop_last(), b, i, j);
    } else {
        lemma_byte_count_pos(s.drop_last(), b, i);
    }
}

/// Data whose first byte is neither whitespace nor an opening bracket is never taken for JSON.
pub proof fn law_json_starts_with_bracket(data: Seq<u8>)
    requires
        data.len() > 0,
        !is_ascii_ws(data[0]),
        data[0] != 0x7B,
        data[0] != 0x5B,
    ensures
        !spec_is_json(data),
{
    assert(trim_start_index(data, 0) == 0);
    lemma_trim_end_keeps_first(data, data.len() as int);
    let b = trim_end_index(data, 0, data.len() as int);
    assert(b <= data.len()) by {
        lemma_trim_end_le(data, data.len() as int);
    }
    let t = spec_trim(data);
    assert(t == data.subrange(0, b));
    assert(t[0] == data[0]);
}

proof fn lemma_trim_end_le(s: Seq<u8>, j: int)
    requires
        0 <= j <= s.len(),
    ensures
        trim_end_index(s, 0, j) <= j,
    decreases j,
{
    if j > 0 && is_ascii_ws(s[j - 1]) {
        lemma_trim_end_le(s, j - 1);
    }
}

proof fn lemma_trim_end_keeps_first(s: Seq<u8>, j: int)
    requires
        1 <= j <= s.len(),
        !is_ascii_ws(s[0]),
    ensures
        trim_end_index(s, 0, j) >= 1,
    decreases j,
{
    if j > 1 && is_ascii_ws(s[j - 1]) {
        lemma_trim_end_keeps_first(s, j - 1);
    }
}

} // verus!
