//! Conservative text detection and the repeated-word prefilter.
//!
//! Words that recur often enough are collected into a token table that travels with the
//! block; the text is then rewritten with two-byte references to the table.
use vstd::prelude::*;

use crate::buf::{append_range, append_slice};
use crate::error::{CodropError, CodropResult};
use crate::prefilter::dict::{
    find_least_frequent_byte, invert_result_is, invert_tokens, spec_invert_tokens,
    spec_least_frequent_byte, spec_substitute_from, substitute_tokens, InvertResult,
};
use crate::prefilter::tokens::{
    is_top_selection, lemma_top_selection_unique, record_occurrence, select_top_tokens, tabulates,
};

verus! {

/// Maximum dynamic tokens extracted in a single block.
pub const MAX_DYNAMIC_TOKENS: usize = 64;
/// Minimum token length for dynamic extraction.
pub const MIN_TOKEN_LEN: usize = 4;
/// Maximum token length for dynamic extraction.
pub const MAX_TOKEN_LEN: usize = 32;

/// Longest token a serialized token table may hold (JSON keys run up to this length).
pub const MAX_TABLE_TOKEN_LEN: usize = 48;
/// Number of leading bytes that text detection inspects.
pub const TEXT_SAMPLE_LEN: usize = 4096;

/// Whether `bytes` is well-formed UTF-8, as `std::str::from_utf8` decides it.
#[verifier::external_body]
pub(crate) fn utf8_is_valid(bytes: &[u8]) -> (r: bool)
    ensures
        r == vstd::utf8::valid_utf8(bytes@),
{
    std::str::from_utf8(bytes).is_ok()
}

/// Space, tab, line feed or carriage return.
pub open spec fn is_blank(b: u8) -> bool {
    b == 0x20 || b == 0x09 || b == 0x0A || b == 0x0D
}

/// A byte that counts as readable text: visible ASCII, blank, or part of a multi-byte sequence.
pub open spec fn is_readable(b: u8) -> bool {
    (0x21 <= b && b <= 0x7E) || is_blank(b) || b >= 0x80
}

/// Number of readable bytes in `s`.
pub open spec fn readable_count(s: Seq<u8>) -> nat
    decreases s.len(),
{
    if s.len() == 0 {
        0
    } else {
        readable_count(s.drop_last()) + if is_readable(s.last()) { 1nat } else { 0nat }
    }
}

/// Number of blank bytes in `s`.
pub open spec fn blank_count(s: Seq<u8>) -> nat
    decreases s.len(),
{
    if s.len() == 0 {
        0
    } else {
        blank_count(s.drop_last()) + if is_blank(s.last()) { 1nat } else { 0nat }
    }
}

/// The prefix of `data` that text detection looks at.
pub open spec fn text_sample(data: Seq<u8>) -> Seq<u8> {
    if data.len() > TEXT_SAMPLE_LEN { data.take(TEXT_SAMPLE_LEN as int) } else { data }
}

/// Text: non-empty, and its sample has no zero byte, at least 92% readable bytes, at least
/// 5% blanks, and is well-formed UTF-8.
pub open spec fn spec_is_text(data: Seq<u8>) -> bool {
    let s = text_sample(data);
    &&& data.len() > 0
    &&& !s.contains(0u8)
    &&& 25 * readable_count(s) >= 23 * s.len()
    &&& 20 * blank_count(s) >= s.len()
    &&& vstd::utf8::valid_utf8(s)
}

proof fn lemma_counts_bound(s: Seq<u8>)
    ensures
        readable_count(s) <= s.len(),
        blank_count(s) <= s.len(),
    decreases s.len(),
{
    if s.len() > 0 {
        lemma_counts_bound(s.drop_last());
    }
}

/// Conservatively determines whether `data` is likely human-readable or structured text.
pub fn is_text(data: &[u8]) -> (r: bool)
    ensures
        r == spec_is_text(data@),
{
    if data.len() == 0 {
        return false;
    }
    let n = if data.len() > TEXT_SAMPLE_LEN { TEXT_SAMPLE_LEN } else { data.len() };
    let ghost s = text_sample(data@);
    assert(s =~= data@.take(n as int));
    let mut readable: usize = 0;
    let mut blanks: usize = 0;
    let mut i: usize = 0;
    while i < n
        invariant
            i <= n,
            n <= data@.len(),
            s == data@.take(n as int),
            readable == readable_count(s.take(i as int)),
            blanks == blank_count(s.take(i as int)),
            readable <= i,
            blanks <= i,
            n <= TEXT_SAMPLE_LEN,
            !s.take(i as int).contains(0u8),
        decreases n - i,
    {
        let b = data[i];
        proof {
            assert(s.take(i + 1).drop_last() =~= s.take(i as int));
            assert(s.take(i + 1).last() == b);
            lemma_counts_bound(s.take(i as int));
        }
        if b == 0 {
            assert(s[i as int] == 0u8);
            assert(s.contains(0u8));
            return false;
        }
        if 0x21 <= b && b <= 0x7E {
            readable = readable + 1;
        } else if b == 0x20 || b == 0x09 || b == 0x0A || b == 0x0D {
            readable = readable + 1;
            blanks = blanks + 1;
        } else if b >= 0x80 {
            readable = readable + 1;
        }
        i = i + 1;
        proof {
            let t = s.take(i as int);
            assert forall|k: int| 0 <= k < t.len() implies t[k] != 0u8 by {
                if k < i - 1 {
                    assert(t[k] == s.take(i - 1)[k]);
                }
            }
        }
    }
    assert(s.take(n as int) =~= s);
    if (readable as u64) * 25 < (n as u64) * 23 || (blanks as u64) * 20 < n as u64 {
        return false;
    }
    let mut sample: Vec<u8> = Vec::new();
    append_range(&mut sample, data, 0, n);
    assert(sample@ =~= s);
    utf8_is_valid(sample.as_slice())
}

/// Index of the first non-blank byte at or after `i`.
pub open spec fn skip_blanks(src: Seq<u8>, i: int) -> int
    decreases src.len() - i,
{
    if 0 <= i < src.len() && is_blank(src[i]) { skip_blanks(src, i + 1) } else { i }
}

/// End of the word starting at `start`: the first blank, the end of input, or
/// `MAX_TOKEN_LEN` bytes on, whichever comes first; scanning from `e`.
pub open spec fn word_end(src: Seq<u8>, start: int, e: int) -> int
    decreases src.len() - e,
{
    if 0 <= e < src.len() && !is_blank(src[e]) && e - start < MAX_TOKEN_LEN {
        word_end(src, start, e + 1)
    } else {
        e
    }
}

pub proof fn lemma_skip_blanks(src: Seq<u8>, i: int)
    requires
        0 <= i,
    ensures
        i <= skip_blanks(src, i),
        skip_blanks(src, i) <= src.len() || skip_blanks(src, i) == i,
        skip_blanks(src, i) < src.len() ==> !is_blank(src[skip_blanks(src, i)]),
    decreases src.len() - i,
{
    if 0 <= i < src.len() && is_blank(src[i]) {
        lemma_skip_blanks(src, i + 1);
    }
}

pub proof fn lemma_word_end(src: Seq<u8>, start: int, e: int)
    requires
        0 <= start <= e,
        e <= src.len(),
        e - start <= MAX_TOKEN_LEN,
    ensures
        e <= word_end(src, start, e) <= src.len(),
        word_end(src, start, e) - start <= MAX_TOKEN_LEN,
        (e < src.len() && !is_blank(src[e]) && e - start < MAX_TOKEN_LEN) ==> word_end(src, start, e) > e,
    decreases src.len() - e,
{
    if 0 <= e < src.len() && !is_blank(src[e]) && e - start < MAX_TOKEN_LEN {
        lemma_word_end(src, start, e + 1);
    }
}

/// The words of `src[pos..]` of length at least `MIN_TOKEN_LEN`, in order.
pub open spec fn words_from(src: Seq<u8>, pos: int) -> Seq<Seq<u8>>
    decreases src.len() - pos,
{
    if pos < 0 {
        Seq::empty()
    } else {
        let start = skip_blanks(src, pos);
        if start >= src.len() {
            Seq::empty()
        } else {
            let end = word_end(src, start, start);
            let w = src.subrange(start, end);
            proof {
                lemma_skip_blanks(src, pos);
                lemma_word_end(src, start, start);
            }
            if end <= start {
                Seq::empty()
            } else if w.len() >= MIN_TOKEN_LEN {
                seq![w] + words_from(src, end)
            } else {
                words_from(src, end)
            }
        }
    }
}

/// The dynamic token table chosen for `src`: the `min(max_tokens, 64)` words of at least four
/// bytes that occur at least three times and save more than eight bytes, best first.
pub open spec fn spec_text_tokens(src: Seq<u8>, max_tokens: nat) -> Seq<Seq<u8>> {
    let limit = if max_tokens < MAX_DYNAMIC_TOKENS { max_tokens } else { MAX_DYNAMIC_TOKENS as nat };
    choose|r: Seq<Seq<u8>>| is_top_selection(words_from(src, 0), r, 3, 8, limit)
}

/// Identifies repeated words that yield a net size reduction.
/// Identifies repeated words that yield a net size reduction.
pub fn extract_repeated_tokens(src: &[u8], max_tokens: usize) -> (r: Vec<Vec<u8>>)
    ensures
        r.deep_view() == spec_text_tokens(src@, max_tokens as nat),
        r@.len() <= MAX_DYNAMIC_TOKENS,
        forall|i: int| 0 <= i < r@.len() ==> 4 <= (#[trigger] r.deep_view()[i]).len() <= MAX_TOKEN_LEN,
{
    let ghost all = words_from(src@, 0);
    let mut toks: Vec<Vec<u8>> = Vec::new();
    let mut cnts: Vec<usize> = Vec::new();
    let ghost mut seen: Seq<Seq<u8>> = Seq::empty();
    let n = src.len();
    let mut start: usize = 0;
    assert(toks.deep_view() =~= Seq::<Seq<u8>>::empty());
    assert(seen + all =~= all);
    while start < n
        invariant
            start <= n,
            n == src@.len(),
            all == words_from(src@, 0),
            all == seen + words_from(src@, start as int),
            4 * seen.len() <= start,
            tabulates(seen, toks.deep_view(), cnts@),
            forall|x: Seq<u8>| #[trigger] toks.deep_view().contains(x) ==> 4 <= x.len() <= MAX_TOKEN_LEN,
        decreases n - start,
    {
        let ghost s0 = start as int;
        proof {
            lemma_skip_blanks(src@, s0);
        }
        while start < n && (src[start] == 0x20 || src[start] == 0x0A || src[start] == 0x0D || src[start] == 0x09)
            invariant
                s0 <= start <= n,
                n == src@.len(),
                skip_blanks(src@, start as int) == skip_blanks(src@, s0),
            decreases n - start,
        {
            start = start + 1;
        }
        assert(start as int == skip_blanks(src@, s0));
        if start >= n {
            assert(words_from(src@, s0) =~= Seq::<Seq<u8>>::empty());
            assert(words_from(src@, start as int) =~= Seq::<Seq<u8>>::empty());
        } else {
            let mut end = start;
            proof {
                lemma_word_end(src@, start as int, start as int);
            }
            while end < n && end - start < MAX_TOKEN_LEN && src[end] != 0x20 && src[end] != 0x0A
                && src[end] != 0x0D && src[end] != 0x09
                invariant
                    start <= end <= n,
                    n == src@.len(),
                    end - start <= MAX_TOKEN_LEN,
                    word_end(src@, start as int, start as int) == word_end(src@, start as int, end as int),
                decreases n - end,
            {
                end = end + 1;
            }
            assert(end as int == word_end(src@, start as int, start as int));
            let ghost w = src@.subrange(start as int, end as int);
            if end - start >= MIN_TOKEN_LEN {
                record_occurrence(&mut toks, &mut cnts, src, start, end, Ghost(seen));
                proof {
                    assert(all == seen.push(w) + words_from(src@, end as int));
                    seen = seen.push(w);
                }
            } else {
                assert(words_from(src@, s0) == words_from(src@, end as int));
            }
            start = end;
        }
    }
    assert(words_from(src@, start as int) =~= Seq::<Seq<u8>>::empty());
    assert(all == seen);
    let limit = if max_tokens < MAX_DYNAMIC_TOKENS { max_tokens } else { MAX_DYNAMIC_TOKENS };
    proof {
        let tv = toks.deep_view();
        assert forall|i: int| 0 <= i < toks@.len() implies (#[trigger] toks@[i])@.len() <= 255 by {
            assert(tv[i] == toks@[i]@);
            assert(tv.contains(tv[i]));
        }
    }
    let r = select_top_tokens(&toks, &cnts, 3, 8, limit, Ghost(all));
    proof {
        let rv = r.deep_view();
        lemma_top_selection_unique(all, rv, spec_text_tokens(src@, max_tokens as nat), 3, 8, limit as nat);
        assert forall|i: int| 0 <= i < r@.len() implies 4 <= (#[trigger] rv[i]).len() <= MAX_TOKEN_LEN by {
            assert(crate::prefilter::tokens::qualifies(all, rv[i], 3, 8));
            assert(toks.deep_view().contains(rv[i]));
        }
    }
    r
}

/// The entries of a token table: each token's length byte followed by its bytes.
pub open spec fn token_entries(tokens: Seq<Seq<u8>>) -> Seq<u8>
    decreases tokens.len(),
{
    if tokens.len() == 0 {
        Seq::empty()
    } else {
        seq![tokens[0].len() as u8] + tokens[0] + token_entries(tokens.drop_first())
    }
}

/// Serialized token table: `[count, (len, bytes)*]`.
pub open spec fn spec_serialize_token_table(tokens: Seq<Seq<u8>>) -> Seq<u8> {
    seq![tokens.len() as u8] + token_entries(tokens)
}

proof fn lemma_entries_push(tokens: Seq<Seq<u8>>, t: Seq<u8>)
    ensures
        token_entries(tokens.push(t)) == token_entries(tokens) + seq![t.len() as u8] + t,
    decreases tokens.len(),
{
    if tokens.len() == 0 {
        assert(tokens.push(t).drop_first() =~= Seq::<Seq<u8>>::empty());
        assert(tokens.push(t)[0] == t);
        assert(token_entries(Seq::<Seq<u8>>::empty()) =~= Seq::<u8>::empty());
        assert(token_entries(tokens.push(t)) =~= seq![t.len() as u8] + t);
    } else {
        assert(tokens.push(t).drop_first() =~= tokens.drop_first().push(t));
        lemma_entries_push(tokens.drop_first(), t);
        assert(token_entries(tokens.push(t)) =~= token_entries(tokens) + seq![t.len() as u8] + t);
    }
}

/// Serializes dynamic tokens into metadata bytes: `[count: u8, (len: u8, bytes)*]`.
pub fn serialize_token_table(tokens: &[Vec<u8>]) -> (r: Vec<u8>)
    ensures
        r@ == spec_serialize_token_table(tokens.deep_view()),
{
    let ghost tv = tokens.deep_view();
    let mut out: Vec<u8> = Vec::new();
    out.push(tokens.len() as u8);
    let mut i: usize = 0;
    assert(tv.take(0) =~= Seq::<Seq<u8>>::empty());
    while i < tokens.len()
        invariant
            i <= tokens@.len(),
            tv == tokens.deep_view(),
            out@ == seq![tokens@.len() as u8] + token_entries(tv.take(i as int)),
        decreases tokens@.len() - i,
    {
        assert(tv[i as int] == tokens@[i as int]@);
        out.push(tokens[i].len() as u8);
        append_slice(&mut out, tokens[i].as_slice());
        proof {
            assert(tv.take(i + 1) =~= tv.take(i as int).push(tv[i as int]));
            lemma_entries_push(tv.take(i as int), tv[i as int]);
        }
        i = i + 1;
        assert(out@ =~= seq![tokens@.len() as u8] + token_entries(tv.take(i as int)));
    }
    assert(tv.take(i as int) =~= tv);
    out
}

/// Parse of `count` table entries at `pos`, appended to `acc`: the tokens and the end position.
pub open spec fn parse_token_entries(src: Seq<u8>, pos: int, count: nat, acc: Seq<Seq<u8>>) -> Option<(Seq<Seq<u8>>, int)>
    decreases count,
{
    if count == 0 {
        Some((acc, pos))
    } else if pos < 0 || pos >= src.len() {
        None
    } else {
        let l = src[pos] as int;
        if l == 0 || l > MAX_TABLE_TOKEN_LEN || pos + 1 + l > src.len() {
            None
        } else {
            parse_token_entries(src, pos + 1 + l, (count - 1) as nat, acc.push(src.subrange(pos + 1, pos + 1 + l)))
        }
    }
}

/// Parse of a serialized token table at `off`: the tokens and the position after the table.
pub open spec fn spec_parse_token_table(src: Seq<u8>, off: int) -> Option<(Seq<Seq<u8>>, int)> {
    if off < 0 || off >= src.len() {
        None
    } else {
        parse_token_entries(src, off + 1, src[off] as nat, Seq::empty())
    }
}

/// Deserializes dynamic tokens from metadata bytes starting at `*offset`.
pub fn deserialize_token_table(src: &[u8], offset: &mut usize) -> (r: CodropResult<Vec<Vec<u8>>>)
    ensures
        match spec_parse_token_table(src@, *old(offset) as int) {
            Some((toks, end)) => r matches Ok(v) && v.deep_view() == toks && *final(offset) == end,
            None => r matches Err(CodropError::CorruptedPrefilterData(_)),
        },
{
    if *offset >= src.len() {
        return Err(CodropError::CorruptedPrefilterData("truncated token table header".to_string()));
    }
    let num_tokens = src[*offset] as usize;
    *offset = *offset + 1;
    let ghost off0 = *old(offset) as int;
    let mut tokens: Vec<Vec<u8>> = Vec::new();
    let mut k: usize = 0;
    assert(tokens.deep_view() =~= Seq::<Seq<u8>>::empty());
    while k < num_tokens
        invariant
            k <= num_tokens,
            off0 == *old(offset) as int,
            num_tokens == src@[off0] as nat,
            0 <= off0 < src@.len(),
            *offset <= src@.len(),
            spec_parse_token_table(src@, off0)
                == parse_token_entries(src@, *offset as int, (num_tokens - k) as nat, tokens.deep_view()),
        decreases num_tokens - k,
    {
        let ghost pos = *offset as int;
        let ghost cnt = (num_tokens - k) as nat;
        if *offset >= src.len() {
            assert(parse_token_entries(src@, pos, cnt, tokens.deep_view()) is None);
            return Err(CodropError::CorruptedPrefilterData("truncated token table entry length".to_string()));
        }
        let t_len = src[*offset] as usize;
        *offset = *offset + 1;
        if t_len == 0 || t_len > MAX_TABLE_TOKEN_LEN {
            assert(parse_token_entries(src@, pos, cnt, tokens.deep_view()) is None);
            return Err(CodropError::CorruptedPrefilterData("invalid token length in table".to_string()));
        }
        if t_len > src.len() - *offset {
            return Err(CodropError::CorruptedPrefilterData("truncated token table entry data".to_string()));
        }
        let ghost tv = tokens.deep_view();
        let mut t: Vec<u8> = Vec::new();
        append_range(&mut t, src, *offset, *offset + t_len);
        assert(t@ =~= src@.subrange(*offset as int, *offset + t_len));
        assert(t.deep_view() =~= t@);
        tokens.push(t);
        assert(tokens.deep_view() =~= tv.push(src@.subrange(*offset as int, *offset + t_len)));
        *offset = *offset + t_len;
        k = k + 1;
    }
    Ok(tokens)
}

proof fn lemma_parse_entries(pre: Seq<u8>, tokens: Seq<Seq<u8>>, rest: Seq<u8>, acc: Seq<Seq<u8>>)
    requires
        forall|i: int| 0 <= i < tokens.len() ==> 1 <= (#[trigger] tokens[i]).len() <= MAX_TABLE_TOKEN_LEN,
    ensures
        parse_token_entries(pre + token_entries(tokens) + rest, pre.len() as int, tokens.len(), acc)
            == Some((acc + tokens, (pre.len() + token_entries(tokens).len()) as int)),
    decreases tokens.len(),
{
    let src = pre + token_entries(tokens) + rest;
    if tokens.len() == 0 {
        assert(acc + tokens =~= acc);
    } else {
        let t = tokens[0];
        let tail = tokens.drop_first();
        let pre2 = pre + seq![t.len() as u8] + t;
        assert(token_entries(tokens) =~= seq![t.len() as u8] + t + token_entries(tail));
        assert(src =~= pre2 + token_entries(tail) + rest);
        assert(src[pre.len() as int] == t.len() as u8);
        assert(src.subrange(pre.len() + 1int, pre.len() + 1int + t.len()) =~= t);
        assert forall|i: int| 0 <= i < tail.len() implies 1 <= (#[trigger] tail[i]).len() <= MAX_TABLE_TOKEN_LEN by {
            assert(tail[i] == tokens[i + 1]);
        }
        lemma_parse_entries(pre2, tail, rest, acc.push(t));
        assert(acc.push(t) + tail =~= acc + tokens);
    }
}

/// A serialized token table parses back to the same tokens, ending right after the table,
/// whatever follows it, when there are at most 255 tokens of 1 to 48 bytes each.
pub proof fn law_token_table_roundtrip(tokens: Seq<Seq<u8>>, rest: Seq<u8>)
    requires
        tokens.len() <= 255,
        forall|i: int| 0 <= i < tokens.len() ==> 1 <= (#[trigger] tokens[i]).len() <= MAX_TABLE_TOKEN_LEN,
    ensures
        spec_parse_token_table(spec_serialize_token_table(tokens) + rest, 0)
            == Some((tokens, spec_serialize_token_table(tokens).len() as int)),
{
    let pre = seq![tokens.len() as u8];
    let src = spec_serialize_token_table(tokens) + rest;
    assert(src =~= pre + token_entries(tokens) + rest);
    lemma_parse_entries(pre, tokens, rest, Seq::empty());
    assert(Seq::<Seq<u8>>::empty() + tokens =~= tokens);
}

/// Text prefilter output for `src`: metadata `[esc, token table]` and the substituted text,
/// when the text has repeated words and the two together are shorter than `src`.
pub open spec fn spec_text_prefilter_encode(src: Seq<u8>) -> Option<(Seq<u8>, Seq<u8>)> {
    let toks = spec_text_tokens(src, MAX_DYNAMIC_TOKENS as nat);
    let esc = spec_least_frequent_byte(src);
    let transformed = spec_substitute_from(src, 0, toks, esc);
    let meta = seq![esc] + spec_serialize_token_table(toks);
    if toks.len() == 0 || transformed.len() + meta.len() >= src.len() {
        None
    } else {
        Some((meta, transformed))
    }
}

/// Outcome of reversing the text prefilter; `None` when the metadata is malformed.
pub open spec fn spec_table_prefilter_decode(meta: Seq<u8>, transformed: Seq<u8>, max: int) -> Option<InvertResult> {
    if meta.len() == 0 {
        None
    } else {
        match spec_parse_token_table(meta, 1) {
            Some((toks, _)) => Some(spec_invert_tokens(transformed, toks, meta[0], max)),
            None => None,
        }
    }
}

/// `r` is what a table-prefilter reversal with outcome `res` returns.
pub open spec fn table_decode_result_is(res: Option<InvertResult>, r: CodropResult<Vec<u8>>, max: usize) -> bool {
    match res {
        Some(ir) => invert_result_is(ir, r, max),
        None => r matches Err(CodropError::CorruptedPrefilterData(_)),
    }
}

/// `r` matches the spec outcome `s` of a prefilter encoder.
pub open spec fn prefilter_output_is(s: Option<(Seq<u8>, Seq<u8>)>, r: Option<(Vec<u8>, Vec<u8>)>) -> bool {
    match r {
        Some((m, t)) => s == Some((m@, t@)),
        None => s is None,
    }
}

/// Encodes text using dynamic token substitution; returns `(metadata, transformed)`.
pub fn text_prefilter_encode(src: &[u8]) -> (r: Option<(Vec<u8>, Vec<u8>)>)
    ensures
        prefilter_output_is(spec_text_prefilter_encode(src@), r),
        r matches Some((m, t)) ==> forall|max: int| max >= src@.len()
            ==> spec_table_prefilter_decode(m@, t@, max) == Some(InvertResult::Done(src@)),
{
    let tokens = extract_repeated_tokens(src, MAX_DYNAMIC_TOKENS);
    if tokens.len() == 0 {
        return None;
    }
    let esc_byte = find_least_frequent_byte(src);
    let transformed = substitute_tokens(src, tokens.as_slice(), esc_byte);
    let mut meta: Vec<u8> = Vec::new();
    meta.push(esc_byte);
    let table = serialize_token_table(tokens.as_slice());
    append_slice(&mut meta, table.as_slice());
    assert(meta@ =~= seq![esc_byte] + spec_serialize_token_table(tokens.deep_view()));
    if transformed.len() >= src.len() || meta.len() >= src.len() - transformed.len() {
        return None;
    }
    proof {
        let toks = tokens.deep_view();
        assert forall|i: int| 0 <= i < toks.len() implies 1 <= (#[trigger] toks[i]).len() <= MAX_TABLE_TOKEN_LEN by {}
        law_token_table_roundtrip(toks, Seq::empty());
        let ser = spec_serialize_token_table(toks);
        assert(ser + Seq::<u8>::empty() =~= ser);
        assert(meta@.skip(1) =~= ser);
        assert forall|max: int| max >= src@.len() implies spec_table_prefilter_decode(meta@, transformed@, max)
            == Some(InvertResult::Done(src@)) by {
            lemma_parse_shift(meta@, 1, toks);
            crate::prefilter::dict::law_substitute_invert(src@, toks, esc_byte, max);
        }
    }
    Some((meta, transformed))
}

/// Parsing a table that starts after a one-byte prefix.
pub proof fn lemma_parse_shift(meta: Seq<u8>, k: int, toks: Seq<Seq<u8>>)
    requires
        k == 1,
        meta.len() >= 1,
        spec_parse_token_table(meta.skip(1), 0) == Some((toks, meta.len() - 1)),
    ensures
        spec_parse_token_table(meta, 1) matches Some((t2, _)) && t2 == toks,
{
    assert(meta.skip(1)[0] == meta[1]);
    lemma_parse_entries_shift(meta, 1, 2, (meta[1]) as nat, Seq::empty());
}

proof fn lemma_parse_entries_shift(meta: Seq<u8>, k: int, pos: int, count: nat, acc: Seq<Seq<u8>>)
    requires
        k == 1,
        meta.len() >= 1,
        pos >= 1,
    ensures
        parse_token_entries(meta, pos, count, acc) == match parse_token_entries(meta.skip(1), pos - 1, count, acc) {
            Some((t, e)) => Some((t, e + 1)),
            None => None,
        },
    decreases count,
{
    let m2 = meta.skip(1);
    if count > 0 && pos < meta.len() {
        let l = meta[pos] as int;
        assert(m2[pos - 1] == meta[pos]);
        if !(l == 0 || l > MAX_TABLE_TOKEN_LEN || pos + 1 + l > meta.len()) {
            assert(m2.subrange(pos - 1 + 1, pos - 1 + 1 + l) =~= meta.subrange(pos + 1, pos + 1 + l));
            lemma_parse_entries_shift(meta, k, pos + 1 + l, (count - 1) as nat, acc.push(meta.subrange(pos + 1, pos + 1 + l)));
        }
    }
}

/// Reverses the text prefilter to recover the original bytes.
pub fn text_prefilter_decode(meta: &[u8], transformed: &[u8], max_output_size: usize) -> (r: CodropResult<Vec<u8>>)
    ensures
        table_decode_result_is(spec_table_prefilter_decode(meta@, transformed@, max_output_size as int), r, max_output_size),
{
    table_prefilter_decode(meta, transformed, max_output_size)
}

/// Reverses a prefilter whose metadata is `[esc, token table]`.
pub(crate) fn table_prefilter_decode(meta: &[u8], transformed: &[u8], max_output_size: usize) -> (r: CodropResult<Vec<u8>>)
    ensures
        table_decode_result_is(spec_table_prefilter_decode(meta@, transformed@, max_output_size as int), r, max_output_size),
{
    if meta.len() == 0 {
        return Err(CodropError::CorruptedPrefilterData("empty prefilter metadata".to_string()));
    }
    let esc_byte = meta[0];
    let mut offset: usize = 1;
    let tokens = deserialize_token_table(meta, &mut offset)?;
    invert_tokens(transformed, tokens.as_slice(), esc_byte, max_output_size)
}

} // verus!
