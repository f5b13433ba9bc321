//! Finding the case-folded hits of a query in a file's text, and the lines
//! around each hit.
use vstd::prelude::*;
use vstd::string::StringSliceAdditionalSpecFns;
use vstd::utf8::encode_utf8;
use vstd::utf8::valid_utf8;
use crate::trigram::{push_char, string_from_utf8};

verus! {

/// The Unicode lower-case form of `s`, as `str::to_lowercase` computes it.
pub uninterp spec fn lower_of(s: Seq<char>) -> Seq<char>;

/// Relies on `str::to_lowercase`: the result depends on the characters alone.
#[verifier::external_body]
fn to_lowercase(s: &str) -> (r: String)
    ensures
        r@ == lower_of(s@),
{
    s.to_lowercase()
}

/// A hit of a query in a file: its byte offset and length in the case-folded
/// text, and the lines around it.
pub struct Match {
    pub file_path: String,
    pub offset: usize,
    pub length: usize,
    pub text: String,
}

/// `text` without a leading byte-order mark.
pub open spec fn without_bom(text: Seq<char>) -> Seq<char> {
    if text.len() > 0 && text[0] == '\u{feff}' {
        text.drop_first()
    } else {
        text
    }
}

/// A line break byte.
pub open spec fn is_line_break(b: u8) -> bool {
    b == 13 || b == 10
}

/// Where the context before position `p` of `b` starts: walking back one
/// byte at a time, the walk stops before the line break that would be line
/// `budget + 1`, or at the start.
pub open spec fn context_start(b: Seq<u8>, p: int, lines: nat, budget: nat) -> int
    decreases p,
{
    if p <= 0 {
        0
    } else if is_line_break(b[p - 1]) {
        if lines + 1 >= budget + 1 {
            p
        } else {
            context_start(b, p - 1, lines + 1, budget)
        }
    } else {
        context_start(b, p - 1, lines, budget)
    }
}

/// Where the context after position `p` of `b` ends: walking forward one
/// byte at a time, the walk stops at the line break that would be line
/// `budget + 1`, or at the end.
pub open spec fn context_end(b: Seq<u8>, p: int, lines: nat, budget: nat) -> int
    decreases b.len() - p,
{
    if p >= b.len() {
        b.len() as int
    } else if is_line_break(b[p]) {
        if lines + 1 >= budget + 1 {
            p
        } else {
            context_end(b, p + 1, lines + 1, budget)
        }
    } else {
        context_end(b, p + 1, lines, budget)
    }
}

/// `q` occurs in `b` at the character boundary `i`.
pub open spec fn hit_at(b: Seq<u8>, q: Seq<u8>, i: int) -> bool {
    &&& vstd::utf8::is_char_boundary(b, i)
    &&& i + q.len() <= b.len()
    &&& b.subrange(i, i + q.len()) == q
}

/// The positions below `n` at which `q` occurs in `b`, in increasing order.
pub open spec fn hits_below(b: Seq<u8>, q: Seq<u8>, n: int) -> Seq<int>
    decreases n,
{
    if n <= 0 {
        Seq::empty()
    } else if hit_at(b, q, n - 1) {
        hits_below(b, q, n - 1).push(n - 1)
    } else {
        hits_below(b, q, n - 1)
    }
}

proof fn lemma_context_start_bounds(b: Seq<u8>, p: int, lines: nat, budget: nat)
    requires
        0 <= p <= b.len(),
    ensures
        0 <= context_start(b, p, lines, budget) <= p,
    decreases p,
{
    if p > 0 {
        lemma_context_start_bounds(b, p - 1, if is_line_break(b[p - 1]) {
            lines + 1
        } else {
            lines
        }, budget);
    }
}

proof fn lemma_context_end_bounds(b: Seq<u8>, p: int, lines: nat, budget: nat)
    requires
        0 <= p <= b.len(),
    ensures
        p <= context_end(b, p, lines, budget) <= b.len(),
    decreases b.len() - p,
{
    if p < b.len() {
        lemma_context_end_bounds(b, p + 1, if is_line_break(b[p]) {
            lines + 1
        } else {
            lines
        }, budget);
    }
}

/// The start and end of the context around the `length` bytes at `offset`:
/// up to `surrounding_lines / 2` line breaks before and after.
pub fn context_bounds(b: &[u8], offset: usize, length: usize, surrounding_lines: usize) -> (r: (
    usize,
    usize,
))
    requires
        offset + length <= b@.len(),
    ensures
        r.0 == context_start(b@, offset as int, 0, (surrounding_lines / 2) as nat),
        r.1 == context_end(b@, offset + length, 0, (surrounding_lines / 2) as nat),
        r.0 <= offset,
        offset + length <= r.1 <= b@.len(),
{
    let budget = surrounding_lines / 2;
    let n = b.len();
    assert(offset + length <= n);
    let hit_end = offset + length;
    let mut start = offset;
    let mut lines: usize = 0;
    let mut stopped = false;
    proof {
        lemma_context_start_bounds(b@, offset as int, 0, budget as nat);
    }
    while start > 0 && !stopped
        invariant
            start <= offset,
            lines <= budget,
            stopped ==> context_start(b@, offset as int, 0, budget as nat) == start,
            !stopped ==> context_start(b@, offset as int, 0, budget as nat) == context_start(
                b@,
                start as int,
                lines as nat,
                budget as nat,
            ),
            offset + length <= b@.len(),
        decreases start, if stopped {
            0int
        } else {
            1int
        },
    {
        if b[start - 1] == 13 || b[start - 1] == 10 {
            if lines >= budget {
                stopped = true;
            } else {
                lines = lines + 1;
                start = start - 1;
            }
        } else {
            start = start - 1;
        }
    }
    let mut end = hit_end;
    let mut lines: usize = 0;
    let mut stopped = false;
    proof {
        lemma_context_end_bounds(b@, hit_end as int, 0, budget as nat);
    }
    while end < b.len() && !stopped
        invariant
            hit_end <= end <= b@.len(),
            hit_end == offset + length,
            lines <= budget,
            stopped ==> context_end(b@, hit_end as int, 0, budget as nat) == end,
            !stopped ==> context_end(b@, hit_end as int, 0, budget as nat) == context_end(
                b@,
                end as int,
                lines as nat,
                budget as nat,
            ),
        decreases b@.len() - end, if stopped {
            0int
        } else {
            1int
        },
    {
        if b[end] == 13 || b[end] == 10 {
            if lines >= budget {
                stopped = true;
            } else {
                lines = lines + 1;
                end = end + 1;
            }
        } else {
            end = end + 1;
        }
    }
    (start, end)
}

/// `text` without a leading byte-order mark.
pub fn drop_bom(text: &str) -> (r: String)
    ensures
        r@ == without_bom(text@),
{
    let mut rest = String::new();
    let mut first = true;
    for c in it: text.chars()
        invariant
            it.seq() == text@,
            first == (it.index() == 0),
            rest@ == without_bom(text@.subrange(0, it.index() as int)),
    {
        let ghost pre = text@.subrange(0, it.index() as int);
        let ghost post = text@.subrange(0, it.index() as int + 1);
        proof {
            assert(post =~= pre.push(c));
            if !first {
                assert(post[0] == pre[0]);
                assert(post.drop_first() =~= pre.drop_first().push(c));
            } else {
                assert(post.drop_first() =~= Seq::<char>::empty());
            }
        }
        if !(first && c == '\u{feff}') {
            push_char(&mut rest, c);
        }
        first = false;
    }
    assert(text@.subrange(0, text@.len() as int) =~= text@);
    rest
}

/// The case-folded bytes of `text` without its byte-order mark.
pub open spec fn folded_bytes(text: Seq<char>) -> Seq<u8> {
    encode_utf8(lower_of(without_bom(text)))
}

/// The bytes `s..e` of `text`, where they are valid UTF-8; else those of
/// `folded`, where they are; else nothing.
pub open spec fn snippet(text: Seq<u8>, folded: Seq<u8>, s: int, e: int) -> Seq<u8> {
    if e <= text.len() && valid_utf8(text.subrange(s, e)) {
        text.subrange(s, e)
    } else if valid_utf8(folded.subrange(s, e)) {
        folded.subrange(s, e)
    } else {
        Seq::empty()
    }
}

/// `m` is the hit at `pos` of the query `q` in the file `path` whose text
/// without its byte-order mark has the bytes `text` and, case folded, `folded`.
pub open spec fn match_at(
    m: Match,
    path: Seq<char>,
    text: Seq<u8>,
    folded: Seq<u8>,
    q: Seq<u8>,
    pos: int,
) -> bool {
    &&& m.file_path@ == path
    &&& m.offset == pos
    &&& m.length == q.len()
    &&& encode_utf8(m.text@) == snippet(
        text,
        folded,
        context_start(folded, pos, 0, 2),
        context_end(folded, pos + q.len(), 0, 2),
    )
}

/// Whether the bytes of `b` from `i` on begin with `q`.
fn starts_at(b: &[u8], q: &[u8], i: usize) -> (r: bool)
    requires
        i <= b@.len(),
    ensures
        r == (i + q@.len() <= b@.len() && b@.subrange(i as int, i + q@.len()) == q@),
{
    let n = b.len();
    if q.len() > n - i {
        return false;
    }
    let mut j: usize = 0;
    while j < q.len()
        invariant
            j <= q@.len(),
            n == b@.len(),
            i + q@.len() <= b@.len(),
            forall|t: int| 0 <= t < j ==> b@[i + t] == q@[t],
        decreases q@.len() - j,
    {
        if b[i + j] != q[j] {
            assert(b@.subrange(i as int, i + q@.len())[j as int] != q@[j as int]);
            return false;
        }
        j = j + 1;
    }
    assert(b@.subrange(i as int, i + q@.len()) =~= q@);
    true
}

/// The bytes `s..e` of `b` as a string, where they are valid UTF-8.
fn text_between(b: &[u8], s: usize, e: usize) -> (r: Option<String>)
    requires
        s <= e <= b@.len(),
    ensures
        r is Some <==> valid_utf8(b@.subrange(s as int, e as int)),
        r matches Some(t) ==> encode_utf8(t@) == b@.subrange(s as int, e as int),
{
    let mut bytes: Vec<u8> = Vec::new();
    let mut k: usize = s;
    while k < e
        invariant
            s <= k <= e,
            e <= b@.len(),
            bytes@ == b@.subrange(s as int, k as int),
        decreases e - k,
    {
        bytes.push(b[k]);
        k = k + 1;
        assert(bytes@ =~= b@.subrange(s as int, k as int));
    }
    match string_from_utf8(bytes) {
        Ok(t) => Some(t),
        Err(_) => None,
    }
}

/// Finds every hit of `folded_query` in `folded`, the case-folded form of
/// `text`, the text of the file `file_path`. A hit is a character boundary of
/// `folded` where the bytes of `folded_query` begin; each comes with the text
/// from two line breaks before it to two line breaks after it.
pub fn scrape_folded(file_path: &str, text: &str, folded: &str, folded_query: &str) -> (r: Vec<
    Match,
>)
    ensures
        r@.len() == hits_below(
            folded.spec_bytes(),
            folded_query.spec_bytes(),
            folded.spec_bytes().len() as int,
        ).len(),
        forall|k: int|
            0 <= k < r@.len() ==> match_at(
                #[trigger] r@[k],
                file_path@,
                text.spec_bytes(),
                folded.spec_bytes(),
                folded_query.spec_bytes(),
                hits_below(
                    folded.spec_bytes(),
                    folded_query.spec_bytes(),
                    folded.spec_bytes().len() as int,
                )[k],
            ),
{
    let mut matches: Vec<Match> = Vec::new();
    let text_bytes = text.as_bytes();
    let folded_bytes = folded.as_bytes();
    let q = folded_query.as_bytes();
    let ghost path = file_path@;
    let ghost tb = text_bytes@;
    let ghost fb = folded_bytes@;
    let ghost qb = q@;
    let mut i: usize = 0;
    while i < folded_bytes.len()
        invariant
            i <= fb.len(),
            fb == folded_bytes@,
            fb == folded.spec_bytes(),
            qb == q@,
            tb == text_bytes@,
            path == file_path@,
            matches@.len() == hits_below(fb, qb, i as int).len(),
            forall|k: int|
                0 <= k < matches@.len() ==> match_at(
                    #[trigger] matches@[k],
                    path,
                    tb,
                    fb,
                    qb,
                    hits_below(fb, qb, i as int)[k],
                ),
        decreases fb.len() - i,
    {
        let ghost before = matches@;
        if folded.is_char_boundary(i) && starts_at(folded_bytes, q, i) {
            let (s, e) = context_bounds(folded_bytes, i, q.len(), 5);
            let snippet_text = if e <= text_bytes.len() {
                match text_between(text_bytes, s, e) {
                    Some(t) => t,
                    None => match text_between(folded_bytes, s, e) {
                        Some(t) => t,
                        None => String::new(),
                    },
                }
            } else {
                match text_between(folded_bytes, s, e) {
                    Some(t) => t,
                    None => String::new(),
                }
            };
            let m = Match {
                file_path: file_path.to_string(),
                offset: i,
                length: q.len(),
                text: snippet_text,
            };
            proof {
                assert(encode_utf8(Seq::<char>::empty()) =~= Seq::<u8>::empty()) by {
                    reveal_with_fuel(encode_utf8, 1);
                }
                assert(match_at(m, path, tb, fb, qb, i as int));
            }
            matches.push(m);
            proof {
                assert(hits_below(fb, qb, i as int + 1) == hits_below(fb, qb, i as int).push(
                    i as int,
                ));
                assert forall|k: int| 0 <= k < matches@.len() implies match_at(
                    #[trigger] matches@[k],
                    path,
                    tb,
                    fb,
                    qb,
                    hits_below(fb, qb, i as int + 1)[k],
                ) by {
                    if k < before.len() {
                        assert(matches@[k] == before[k]);
                    }
                }
            }
        } else {
            assert(hits_below(fb, qb, i as int + 1) == hits_below(fb, qb, i as int));
        }
        i = i + 1;
    }
    matches
}

/// Finds every hit of `query` in the text of the file `file_path`, folding
/// the case of both and ignoring a leading byte-order mark (see
/// `scrape_folded`). An empty query has no hits.
pub fn scrape_text(file_path: &str, file_text: &str, query: &str) -> (r: Vec<Match>)
    ensures
        query@.len() == 0 ==> r@.len() == 0,
        query@.len() > 0 ==> r@.len() == hits_below(
            folded_bytes(file_text@),
            encode_utf8(lower_of(query@)),
            folded_bytes(file_text@).len() as int,
        ).len(),
        query@.len() > 0 ==> forall|k: int|
            0 <= k < r@.len() ==> match_at(
                #[trigger] r@[k],
                file_path@,
                encode_utf8(without_bom(file_text@)),
                folded_bytes(file_text@),
                encode_utf8(lower_of(query@)),
                hits_below(
                    folded_bytes(file_text@),
                    encode_utf8(lower_of(query@)),
                    folded_bytes(file_text@).len() as int,
                )[k],
            ),
{
    if query.is_empty() {
        return Vec::new();
    }
    let text = drop_bom(file_text);
    let lowered = to_lowercase(text.as_str());
    let lowered_query = to_lowercase(query);
    scrape_folded(file_path, text.as_str(), lowered.as_str(), lowered_query.as_str())
}

} // verus!
