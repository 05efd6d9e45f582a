use vstd::prelude::*;

use crate::text::string_of;

verus! {

/// The most characters that a token's type or key may hold.
pub const MAX_TOKEN_LEN: usize = 1000;

/// Whether `c` ends a token's type (`key` false) or its key (`key` true).
pub open spec fn is_terminator(c: char, key: bool) -> bool {
    if key {
        c == ';' || c == '{'
    } else {
        c == ':'
    }
}

/// Reading a token's type or key that began at `start`, now at `i`:
/// `(true, t)` when its terminator stands at `t`; `(false, e)` when the read
/// fails, the characters before `e` being consumed. It fails on a blank, on
/// more than `MAX_TOKEN_LEN` characters, and at the end of the input.
pub open spec fn read_field(doc: Seq<char>, start: int, i: int, key: bool) -> (bool, int)
    decreases doc.len() - i,
{
    if i < 0 || i >= doc.len() {
        (false, doc.len() as int)
    } else if is_terminator(doc[i], key) {
        (true, i)
    } else if doc[i] == ' ' || i + 1 - start > MAX_TOKEN_LEN {
        (false, i + 1)
    } else {
        read_field(doc, start, i + 1, key)
    }
}

/// The position of the first `{` at or after `i`, or the end of the input.
pub open spec fn find_open(doc: Seq<char>, i: int) -> int
    decreases doc.len() - i,
{
    if i < 0 || i >= doc.len() {
        doc.len() as int
    } else if doc[i] == '{' {
        i
    } else {
        find_open(doc, i + 1)
    }
}

/// The brace depth after `c`, from `depth` before it.
pub open spec fn next_depth(depth: int, c: char) -> int {
    if c == '{' {
        depth + 1
    } else if c == '}' {
        depth - 1
    } else {
        depth
    }
}

/// The position of the `}` that brings the brace depth, `depth` at `i`, to
/// zero; the end of the input when none does.
pub open spec fn match_close(doc: Seq<char>, i: int, depth: int) -> int
    decreases doc.len() - i,
{
    if i < 0 || i >= doc.len() {
        doc.len() as int
    } else if next_depth(depth, doc[i]) == 0 {
        i
    } else {
        match_close(doc, i + 1, next_depth(depth, doc[i]))
    }
}

/// The body of a block token whose key ends before `i`: `None` when no `{`
/// follows; else `(start, end, next)`: the body is `doc[start..end]`, and the
/// scan goes on at `next`. The body ends before the `}` that closes the first
/// `{`; when no `}` closes it, the body ends before the last character of
/// the input.
pub open spec fn body_span(doc: Seq<char>, i: int) -> Option<(int, int, int)> {
    let o = find_open(doc, i);
    if o >= doc.len() {
        None
    } else {
        let c = match_close(doc, o + 1, 1);
        if c < doc.len() {
            Some((o + 1, c, c + 1))
        } else if o + 1 < doc.len() {
            Some((o + 1, doc.len() - 1, doc.len() as int))
        } else {
            Some((o + 1, o + 1, doc.len() as int))
        }
    }
}

pub proof fn lemma_read_field_bounds(doc: Seq<char>, start: int, i: int, key: bool)
    requires
        0 <= i,
    ensures
        read_field(doc, start, i, key).0 ==> i <= read_field(doc, start, i, key).1 < doc.len(),
        !read_field(doc, start, i, key).0 ==> read_field(doc, start, i, key).1 <= doc.len(),
        !read_field(doc, start, i, key).0 && i < doc.len() ==> i < read_field(doc, start, i, key).1,
    decreases doc.len() - i,
{
    if i < doc.len() && !is_terminator(doc[i], key) && !(doc[i] == ' ' || i + 1 - start
        > MAX_TOKEN_LEN) {
        lemma_read_field_bounds(doc, start, i + 1, key);
    }
}

pub proof fn lemma_find_open_bounds(doc: Seq<char>, i: int)
    requires
        0 <= i,
    ensures
        i <= find_open(doc, i) <= doc.len() || (i > doc.len() && find_open(doc, i) == doc.len()),
        find_open(doc, i) < doc.len() ==> doc[find_open(doc, i)] == '{',
    decreases doc.len() - i,
{
    if i < doc.len() && doc[i] != '{' {
        lemma_find_open_bounds(doc, i + 1);
    }
}

pub proof fn lemma_match_close_bounds(doc: Seq<char>, i: int, depth: int)
    requires
        0 <= i <= doc.len(),
    ensures
        i <= match_close(doc, i, depth) <= doc.len(),
    decreases doc.len() - i,
{
    if i < doc.len() && next_depth(depth, doc[i]) != 0 {
        lemma_match_close_bounds(doc, i + 1, next_depth(depth, doc[i]));
    }
}

pub proof fn lemma_body_span_bounds(doc: Seq<char>, i: int)
    requires
        0 <= i,
    ensures
        body_span(doc, i) matches Some((s, e, n)) ==> i < s <= e <= n <= doc.len(),
{
    lemma_find_open_bounds(doc, i);
    let o = find_open(doc, i);
    if o < doc.len() {
        lemma_match_close_bounds(doc, o + 1, 1);
    }
}

/// Reads a header field from `*i`; on success `*i` ends at its terminator.
fn read_header_field(bytes: &[char], i: &mut usize, key: bool) -> (ok: bool)
    requires
        *old(i) <= bytes@.len(),
    ensures
        ok == read_field(bytes@, *old(i) as int, *old(i) as int, key).0,
        *final(i) == read_field(bytes@, *old(i) as int, *old(i) as int, key).1,
{
    let start = *i;
    let ghost outcome = read_field(bytes@, start as int, start as int, key);
    while *i < bytes.len()
        invariant
            start == *old(i),
            start <= *i <= bytes@.len(),
            *i - start <= MAX_TOKEN_LEN,
            outcome == read_field(bytes@, start as int, start as int, key),
            outcome == read_field(bytes@, start as int, *i as int, key),
        decreases bytes@.len() - *i,
    {
        let c = bytes[*i];
        let term = if key {
            c == ';' || c == '{'
        } else {
            c == ':'
        };
        if term {
            return true;
        }
        *i += 1;
        if c == ' ' || *i - start > MAX_TOKEN_LEN {
            return false;
        }
    }
    false
}

/// Reads a token's type, from just after its `@` at `*i`, up to the `:`.
/// On success the type is returned and `*i` ends after the `:`; on failure
/// `*i` ends after the characters consumed.
pub fn parse_token_type(bytes: &[char], bytes_len: usize, i: &mut usize) -> (r: Result<
    String,
    String,
>)
    requires
        bytes_len == bytes@.len(),
        *old(i) <= bytes_len,
    ensures
        ({
            let (ok, t) = read_field(bytes@, *old(i) as int, *old(i) as int, false);
            match r {
                Ok(name) => ok && name@ == bytes@.subrange(*old(i) as int, t) && *final(i) == t
                    + 1,
                Err(_) => !ok && *final(i) == t,
            }
        }),
{
    let start = *i;
    proof {
        lemma_read_field_bounds(bytes@, start as int, start as int, false);
    }
    if read_header_field(bytes, i, false) {
        let name = string_of(vstd::slice::slice_subrange(bytes, start, *i));
        *i += 1;
        Ok(name)
    } else {
        Err(String::from_str("Token too long or invalid!"))
    }
}

/// Reads a token's key, from `*i` just after the `:` of its type, up to
/// `;` or `{`. On success the key is returned and `*i` ends after a `;`, or
/// at a `{`; on failure `*i` ends after the characters consumed.
pub fn parse_token_key(bytes: &[char], bytes_len: usize, i: &mut usize) -> (r: Result<
    String,
    String,
>)
    requires
        bytes_len == bytes@.len(),
        *old(i) <= bytes_len,
    ensures
        ({
            let (ok, t) = read_field(bytes@, *old(i) as int, *old(i) as int, true);
            match r {
                Ok(key) => ok && key@ == bytes@.subrange(*old(i) as int, t) && *final(i) == if bytes@[t]
                    == ';' {
                    t + 1
                } else {
                    t
                },
                Err(_) => !ok && *final(i) == t,
            }
        }),
{
    let start = *i;
    proof {
        lemma_read_field_bounds(bytes@, start as int, start as int, true);
    }
    if read_header_field(bytes, i, true) {
        let key = string_of(vstd::slice::slice_subrange(bytes, start, *i));
        if bytes[*i] == ';' {
            *i += 1;
        }
        Ok(key)
    } else {
        Err(String::from_str("Token too long or invalid!"))
    }
}

/// Captures the body of a block token whose key ends before `*i`, as
/// `body_span` states; `*i` ends where the scan goes on.
pub fn capture_body<'b>(bytes: &'b [char], bytes_len: usize, i: &mut usize) -> (r: Option<
    &'b [char],
>)
    requires
        bytes_len == bytes@.len(),
        *old(i) <= bytes_len,
    ensures
        match body_span(bytes@, *old(i) as int) {
            None => r is None && *final(i) == bytes@.len(),
            Some((s, e, n)) => r matches Some(body) && body@ == bytes@.subrange(s, e)
                && *final(i) == n,
        },
{
    let ghost i0 = *i as int;
    proof {
        lemma_body_span_bounds(bytes@, i0);
    }
    while *i < bytes_len && bytes[*i] != '{'
        invariant
            i0 <= *i <= bytes@.len(),
            bytes_len == bytes@.len(),
            find_open(bytes@, i0) == find_open(bytes@, *i as int),
        decreases bytes@.len() - *i,
    {
        *i += 1;
    }
    if *i >= bytes_len {
        return None;
    }
    *i += 1;
    let start = *i;
    let mut depth: usize = 1;
    let ghost o = start - 1;
    while *i < bytes_len && depth > 0
        invariant
            1 <= start <= *i <= bytes@.len(),
            bytes_len == bytes@.len(),
            depth <= *i - start + 1,
            depth > 0 ==> match_close(bytes@, start as int, 1) == match_close(
                bytes@,
                *i as int,
                depth as int,
            ),
            depth == 0 ==> match_close(bytes@, start as int, 1) == *i - 1 && *i - 1
                < bytes@.len(),
        decreases bytes@.len() - *i,
    {
        let c = bytes[*i];
        if c == '{' {
            depth += 1;
        } else if c == '}' {
            depth -= 1;
        }
        *i += 1;
    }
    let end = if depth == 0 {
        *i - 1
    } else if start < bytes_len {
        bytes_len - 1
    } else {
        start
    };
    Some(vstd::slice::slice_subrange(bytes, start, end))
}

} // verus!
