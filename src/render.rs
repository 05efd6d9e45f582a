use vstd::prelude::*;

use crate::path::{get_display_value, parse_index, parse_index_chars, resolve};
use crate::scan::{
    body_span, capture_body, find_open, lemma_body_span_bounds, lemma_read_field_bounds,
    match_close, next_depth, parse_token_key, parse_token_type, read_field,
};
use crate::text::{chars_of, extend_chars, lower_of, lowercase, string_of};
use crate::value::{display_text, push_display, Value};

verus! {

/// The kinds of token, by their lower-cased type name.
#[derive(Debug, PartialEq)]
pub enum TokenKind {
    Value,
    ForValue,
    For,
    ForFor,
    If,
    ForIf,
    Unknown,
}

/// The kind that a lower-cased type name denotes.
pub open spec fn kind_of(name: Seq<char>) -> TokenKind {
    if name == seq!['v', 'a', 'l', 'u', 'e'] {
        TokenKind::Value
    } else if name == seq!['f', 'o', 'r', 'v', 'a', 'l', 'u', 'e'] {
        TokenKind::ForValue
    } else if name == seq!['f', 'o', 'r'] {
        TokenKind::For
    } else if name == seq!['f', 'o', 'r', 'f', 'o', 'r'] {
        TokenKind::ForFor
    } else if name == seq!['i', 'f'] {
        TokenKind::If
    } else if name == seq!['f', 'o', 'r', 'i', 'f'] {
        TokenKind::ForIf
    } else {
        TokenKind::Unknown
    }
}

/// Whether tokens of the kind carry a `{...}` body.
pub open spec fn is_block(kind: TokenKind) -> bool {
    match kind {
        TokenKind::For | TokenKind::ForFor | TokenKind::If | TokenKind::ForIf => true,
        _ => false,
    }
}

/// The position of the first `c` at or after `i` in `s`, or the length of `s`.
pub open spec fn first_index(s: Seq<char>, c: char, i: int) -> int
    decreases s.len() - i,
{
    if i < 0 || i >= s.len() {
        s.len() as int
    } else if s[i] == c {
        i
    } else {
        first_index(s, c, i + 1)
    }
}

/// The scope entry and the subpath that a scoped key `<idx>.<subpath>`
/// names: the entry at position `idx` from the bottom of the stack. Absent
/// when `idx` is no index or out of range, or when `need_path` holds and the
/// key has no `.`; without a `.` the subpath is empty.
pub open spec fn scope_target(stack: Seq<Value>, key: Seq<char>, need_path: bool) -> Option<
    (Value, Seq<char>),
> {
    let d = first_index(key, '.', 0);
    let sub = if d < key.len() {
        key.subrange(d + 1, key.len() as int)
    } else {
        Seq::empty()
    };
    match parse_index(key.subrange(0, d)) {
        Some(n) => if n < stack.len() && (d < key.len() || !need_path) {
            Some((stack[n as int], sub))
        } else {
            None
        },
        None => None,
    }
}

/// What a token without a body emits.
pub open spec fn inline_output(
    kind: TokenKind,
    name: Seq<char>,
    key: Seq<char>,
    root: Value,
    stack: Seq<Value>,
) -> Seq<char> {
    match kind {
        TokenKind::Value => display_text(resolve(root, key)),
        TokenKind::ForValue => match scope_target(stack, key, false) {
            Some((v, sub)) => display_text(resolve(v, sub)),
            None => Seq::empty(),
        },
        _ => seq!['@'] + name + seq![':'] + key + seq![';'],
    }
}

/// The text that `doc`, from position `i` on, renders to against `root`,
/// with `stack` holding the elements bound by the enclosing loops (the
/// outermost first).
pub open spec fn render_from(doc: Seq<char>, i: int, root: Value, stack: Seq<Value>) -> Seq<char>
    decreases doc.len(), 3int, doc.len() - i,
{
    if i < 0 || i >= doc.len() {
        Seq::empty()
    } else if doc[i] == '\\' {
        if i + 1 < doc.len() {
            seq![doc[i + 1]] + render_from(doc, i + 2, root, stack)
        } else {
            Seq::empty()
        }
    } else if doc[i] == '@' {
        let (type_ok, t) = read_field(doc, i + 1, i + 1, false);
        proof {
            lemma_read_field_bounds(doc, i + 1, i + 1, false);
        }
        if !type_ok {
            doc.subrange(i, t) + render_from(doc, t, root, stack)
        } else {
            let (key_ok, k) = read_field(doc, t + 1, t + 1, true);
            proof {
                lemma_read_field_bounds(doc, t + 1, t + 1, true);
            }
            if !key_ok {
                doc.subrange(i, k) + render_from(doc, k, root, stack)
            } else {
                let name = doc.subrange(i + 1, t);
                let key = doc.subrange(t + 1, k);
                let after = if doc[k] == ';' {
                    k + 1
                } else {
                    k
                };
                let kind = kind_of(lower_of(name));
                if is_block(kind) {
                    proof {
                        lemma_body_span_bounds(doc, after);
                    }
                    match body_span(doc, after) {
                        None => Seq::empty(),
                        Some((s, e, n)) => block_output(
                            kind,
                            key,
                            doc.subrange(s, e),
                            root,
                            stack,
                        ) + render_from(doc, n, root, stack),
                    }
                } else {
                    inline_output(kind, name, key, root, stack) + render_from(
                        doc,
                        after,
                        root,
                        stack,
                    )
                }
            }
        }
    } else {
        seq![doc[i]] + render_from(doc, i + 1, root, stack)
    }
}

/// What a block token with body `body` emits.
pub open spec fn block_output(
    kind: TokenKind,
    key: Seq<char>,
    body: Seq<char>,
    root: Value,
    stack: Seq<Value>,
) -> Seq<char>
    decreases body.len() + 1, 2int, 0int,
{
    match kind {
        TokenKind::For => match resolve(root, key) {
            Some(Value::Array(items)) => render_each(body, root, stack, items@),
            _ => Seq::empty(),
        },
        TokenKind::ForFor => match scope_target(stack, key, true) {
            Some((v, sub)) => match resolve(v, sub) {
                Some(Value::Array(items)) => render_each(body, root, stack, items@),
                _ => Seq::empty(),
            },
            None => Seq::empty(),
        },
        TokenKind::If => if resolve(root, key) == Some(Value::Bool(true)) {
            render_from(body, 0, root, stack)
        } else {
            Seq::empty()
        },
        TokenKind::ForIf => match scope_target(stack, key, true) {
            Some((v, sub)) => if resolve(v, sub) == Some(Value::Bool(true)) {
                render_from(body, 0, root, stack)
            } else {
                Seq::empty()
            },
            None => Seq::empty(),
        },
        _ => Seq::empty(),
    }
}

/// The body rendered once for each item, in order, each time with the item
/// bound on top of the stack.
pub open spec fn render_each(body: Seq<char>, root: Value, stack: Seq<Value>, items: Seq<Value>) -> Seq<
    char,
>
    decreases body.len() + 1, 1int, items.len(),
{
    if items.len() == 0 {
        Seq::empty()
    } else {
        render_each(body, root, stack, items.drop_last()) + render_from(
            body,
            0,
            root,
            stack.push(items.last()),
        )
    }
}

/// What a block token whose key ends before `i` emits, and where the scan
/// goes on after it.
pub open spec fn block_effect(
    kind: TokenKind,
    key: Seq<char>,
    doc: Seq<char>,
    i: int,
    root: Value,
    stack: Seq<Value>,
) -> (Seq<char>, int) {
    match body_span(doc, i) {
        None => (Seq::empty(), doc.len() as int),
        Some((s, e, n)) => (block_output(kind, key, doc.subrange(s, e), root, stack), n),
    }
}

/// Whether `s` is the word `w`.
fn is_word(s: &Vec<char>, w: &Vec<char>) -> (r: bool)
    ensures
        r == (s@ == w@),
{
    if s.len() != w.len() {
        return false;
    }
    let mut i: usize = 0;
    while i < s.len()
        invariant
            i <= s@.len(),
            s@.len() == w@.len(),
            forall|j: int| 0 <= j < i ==> s@[j] == w@[j],
        decreases s@.len() - i,
    {
        if s[i] != w[i] {
            return false;
        }
        i += 1;
    }
    assert(s@ =~= w@);
    true
}

/// The kind of token that the lower-cased type name `lowered` denotes.
pub fn token_kind(lowered: &str) -> (k: TokenKind)
    ensures
        k == kind_of(lowered@),
{
    let name = chars_of(lowered);
    if is_word(&name, &vec!['v', 'a', 'l', 'u', 'e']) {
        TokenKind::Value
    } else if is_word(&name, &vec!['f', 'o', 'r', 'v', 'a', 'l', 'u', 'e']) {
        TokenKind::ForValue
    } else if is_word(&name, &vec!['f', 'o', 'r']) {
        TokenKind::For
    } else if is_word(&name, &vec!['f', 'o', 'r', 'f', 'o', 'r']) {
        TokenKind::ForFor
    } else if is_word(&name, &vec!['i', 'f']) {
        TokenKind::If
    } else if is_word(&name, &vec!['f', 'o', 'r', 'i', 'f']) {
        TokenKind::ForIf
    } else {
        TokenKind::Unknown
    }
}

/// The scope entry and subpath that the scoped key `key` names, as
/// `scope_target` states.
fn scope_target_of<'a>(stack: &Vec<&'a Value>, key: &String, need_path: bool) -> (r: Option<
    (&'a Value, String),
>)
    ensures
        match r {
            Some((v, sub)) => scope_target(stack@.unref(), key@, need_path) == Some(
                (*v, sub@),
            ),
            None => scope_target(stack@.unref(), key@, need_path) is None,
        },
{
    let cs = chars_of(key.as_str());
    let mut d: usize = 0;
    while d < cs.len() && cs[d] != '.'
        invariant
            d <= cs@.len(),
            cs@ == key@,
            first_index(cs@, '.', 0) == first_index(cs@, '.', d as int),
        decreases cs@.len() - d,
    {
        d += 1;
    }
    let has_path = d < cs.len();
    if need_path && !has_path {
        return None;
    }
    match parse_index_chars(vstd::slice::slice_subrange(cs.as_slice(), 0, d)) {
        Some(n) => {
            if n >= stack.len() {
                return None;
            }
            let sub = if has_path {
                string_of(vstd::slice::slice_subrange(cs.as_slice(), d + 1, cs.len()))
            } else {
                String::new()
            };
            Some((stack[n], sub))
        },
        None => None,
    }
}

/// Appends the display text of the value that `token_key` reaches from
/// `modal`.
pub fn parse_value(modal: &Value, ret_vec: &mut Vec<char>, token_key: &String)
    ensures
        final(ret_vec)@ == old(ret_vec)@ + display_text(resolve(*modal, token_key@)),
{
    let v = get_display_value(modal, token_key.as_str());
    push_display(v, ret_vec);
}

/// Appends the display text of the value that the scoped key `token_key`
/// (`<idx>.<subpath>`) reaches from the scope entry at `idx`; nothing when
/// the index is not a number or out of range.
pub fn parse_forvalue(foreach_modal: &Vec<&Value>, ret_vec: &mut Vec<char>, token_key: &String)
    ensures
        final(ret_vec)@ == old(ret_vec)@ + match scope_target(
            foreach_modal@.unref(),
            token_key@,
            false,
        ) {
            Some((v, sub)) => display_text(resolve(v, sub)),
            None => Seq::empty(),
        },
{
    match scope_target_of(foreach_modal, token_key, false) {
        Some((entry, sub)) => {
            let v = get_display_value(entry, sub.as_str());
            push_display(v, ret_vec);
        },
        None => {},
    }
}

/// Renders `body` once for each item of `items`, each time with the item
/// bound on top of the stack.
fn render_items<'a>(
    body: &[char],
    items: &'a Vec<Value>,
    modal: &'a Value,
    foreach_modal: &mut Vec<&'a Value>,
    ret_vec: &mut Vec<char>,
)
    ensures
        final(ret_vec)@ == old(ret_vec)@ + render_each(
            body@,
            *modal,
            old(foreach_modal)@.unref(),
            items@,
        ),
        final(foreach_modal)@ == old(foreach_modal)@,
    decreases body@.len() + 1, 0int,
{
    let ghost stack = foreach_modal@.unref();
    let mut k: usize = 0;
    assert(items@.take(0) =~= Seq::<Value>::empty());
    while k < items.len()
        invariant
            k <= items@.len(),
            stack == old(foreach_modal)@.unref(),
            foreach_modal@ == old(foreach_modal)@,
            ret_vec@ == old(ret_vec)@ + render_each(body@, *modal, stack, items@.take(k as int)),
        decreases items@.len() - k,
    {
        foreach_modal.push(&items[k]);
        assert(foreach_modal@.unref() =~= stack.push(items@[k as int]));
        parse_chars(body, modal, foreach_modal, ret_vec);
        foreach_modal.pop();
        assert(foreach_modal@ =~= old(foreach_modal)@);
        assert(items@.take(k + 1 as int).drop_last() =~= items@.take(k as int));
        k += 1;
    }
    assert(items@.take(k as int) =~= items@);
}

/// What a token with type `name` and key `key` emits, its headers ending
/// before `after`, and where the scan goes on.
pub open spec fn token_effect(
    name: Seq<char>,
    key: Seq<char>,
    doc: Seq<char>,
    after: int,
    root: Value,
    stack: Seq<Value>,
) -> (Seq<char>, int) {
    let kind = kind_of(lower_of(name));
    if is_block(kind) {
        block_effect(kind, key, doc, after, root, stack)
    } else {
        (inline_output(kind, name, key, root, stack), after)
    }
}

/// What the text from the `@` at `i` emits, and where the scan goes on.
pub open spec fn at_effect(doc: Seq<char>, i: int, root: Value, stack: Seq<Value>) -> (
    Seq<char>,
    int,
) {
    let (type_ok, t) = read_field(doc, i + 1, i + 1, false);
    if !type_ok {
        (doc.subrange(i, t), t)
    } else {
        let (key_ok, k) = read_field(doc, t + 1, t + 1, true);
        if !key_ok {
            (doc.subrange(i, k), k)
        } else {
            let after = if doc[k] == ';' {
                k + 1
            } else {
                k
            };
            token_effect(doc.subrange(i + 1, t), doc.subrange(t + 1, k), doc, after, root, stack)
        }
    }
}

pub proof fn lemma_render_at(doc: Seq<char>, i: int, root: Value, stack: Seq<Value>)
    requires
        0 <= i < doc.len(),
        doc[i] == '@',
    ensures
        i < at_effect(doc, i, root, stack).1 <= doc.len(),
        render_from(doc, i, root, stack) == at_effect(doc, i, root, stack).0 + render_from(
            doc,
            at_effect(doc, i, root, stack).1,
            root,
            stack,
        ),
{
    lemma_read_field_bounds(doc, i + 1, i + 1, false);
    let t = read_field(doc, i + 1, i + 1, false).1;
    if read_field(doc, i + 1, i + 1, false).0 {
        lemma_read_field_bounds(doc, t + 1, t + 1, true);
        let k = read_field(doc, t + 1, t + 1, true).1;
        if read_field(doc, t + 1, t + 1, true).0 {
            let after = if doc[k] == ';' {
                k + 1
            } else {
                k
            };
            lemma_body_span_bounds(doc, after);
        }
    }
}

/// Emits a token whose headers end before `*i`, as `token_effect` states.
fn parse_token<'a>(
    name: &String,
    key: &String,
    modal: &'a Value,
    foreach_modal: &mut Vec<&'a Value>,
    ret_vec: &mut Vec<char>,
    doc: &[char],
    len: usize,
    i: &mut usize,
)
    requires
        len == doc@.len(),
        *old(i) <= len,
    ensures
        ({
            let (out, next) = token_effect(
                name@,
                key@,
                doc@,
                *old(i) as int,
                *modal,
                old(foreach_modal)@.unref(),
            );
            &&& final(ret_vec)@ == old(ret_vec)@ + out
            &&& *final(i) == next
        }),
        final(foreach_modal)@ == old(foreach_modal)@,
    decreases doc@.len(), 2int,
{
    let lowered = lowercase(name.as_str());
    match token_kind(lowered.as_str()) {
        TokenKind::Value => {
            parse_value(modal, ret_vec, key);
        },
        TokenKind::ForValue => {
            parse_forvalue(foreach_modal, ret_vec, key);
        },
        TokenKind::For => {
            parse_for(modal, foreach_modal, ret_vec, doc, len, i, key);
        },
        TokenKind::ForFor => {
            parse_forfor(modal, foreach_modal, ret_vec, doc, len, i, key);
        },
        TokenKind::If => {
            parse_if(modal, foreach_modal, ret_vec, doc, len, i, key);
        },
        TokenKind::ForIf => {
            parse_forif(modal, foreach_modal, ret_vec, doc, len, i, key);
        },
        TokenKind::Unknown => {
            ret_vec.push('@');
            let nc = chars_of(name.as_str());
            extend_chars(ret_vec, nc.as_slice());
            ret_vec.push(':');
            let kc = chars_of(key.as_str());
            extend_chars(ret_vec, kc.as_slice());
            ret_vec.push(';');
            assert(ret_vec@ =~= old(ret_vec)@ + (seq!['@'] + name@ + seq![':'] + key@ + seq![
                ';',
            ]));
        },
    }
}

/// Reads the token headers from the `@` at `*i` and emits what
/// `at_effect` states.
fn parse_at<'a>(
    modal: &'a Value,
    foreach_modal: &mut Vec<&'a Value>,
    ret_vec: &mut Vec<char>,
    doc: &[char],
    len: usize,
    i: &mut usize,
)
    requires
        len == doc@.len(),
        *old(i) < len,
    ensures
        ({
            let (out, next) = at_effect(doc@, *old(i) as int, *modal, old(foreach_modal)@.unref());
            &&& final(ret_vec)@ == old(ret_vec)@ + out
            &&& *final(i) == next
        }),
        final(foreach_modal)@ == old(foreach_modal)@,
    decreases doc@.len(), 3int,
{
    let at = *i;
    *i += 1;
    proof {
        lemma_read_field_bounds(doc@, at + 1, at + 1, false);
    }
    match parse_token_type(doc, len, i) {
        Err(_) => {
            extend_chars(ret_vec, vstd::slice::slice_subrange(doc, at, *i));
        },
        Ok(name) => {
            let ghost t = *i - 1;
            proof {
                lemma_read_field_bounds(doc@, t + 1, t + 1, true);
            }
            match parse_token_key(doc, len, i) {
                Err(_) => {
                    extend_chars(ret_vec, vstd::slice::slice_subrange(doc, at, *i));
                },
                Ok(key) => {
                    parse_token(&name, &key, modal, foreach_modal, ret_vec, doc, len, i);
                },
            }
        },
    }
}

/// Renders the document `doc` against `modal`, appending to `ret_vec`;
/// `foreach_modal` holds the elements bound by the enclosing loops.
pub fn parse_chars<'a>(
    doc: &[char],
    modal: &'a Value,
    foreach_modal: &mut Vec<&'a Value>,
    ret_vec: &mut Vec<char>,
)
    ensures
        final(ret_vec)@ == old(ret_vec)@ + render_from(
            doc@,
            0,
            *modal,
            old(foreach_modal)@.unref(),
        ),
        final(foreach_modal)@ == old(foreach_modal)@,
    decreases doc@.len(), 4int,
{
    let ghost stack = foreach_modal@.unref();
    let len = doc.len();
    let mut i: usize = 0;
    while i < len
        invariant
            i <= len == doc@.len(),
            stack == old(foreach_modal)@.unref(),
            foreach_modal@ == old(foreach_modal)@,
            old(ret_vec)@ + render_from(doc@, 0, *modal, stack) == ret_vec@ + render_from(
                doc@,
                i as int,
                *modal,
                stack,
            ),
        decreases len - i,
    {
        let ghost before = ret_vec@;
        let ghost i0 = i as int;
        let ch = doc[i];
        if ch == '\\' {
            if i + 1 < len {
                ret_vec.push(doc[i + 1]);
                i += 2;
            } else {
                i = len;
            }
        } else if ch == '@' {
            proof {
                lemma_render_at(doc@, i0, *modal, stack);
            }
            parse_at(modal, foreach_modal, ret_vec, doc, len, &mut i);
        } else {
            ret_vec.push(ch);
            i += 1;
        }
        assert(ret_vec@ + render_from(doc@, i as int, *modal, stack) =~= before + render_from(
            doc@,
            i0,
            *modal,
            stack,
        ));
    }
}

/// Renders the body of a `for` token whose key ends before `*i` once for
/// each element of the array that `token_key` reaches from `modal`, each
/// time with the element bound on top of `foreach_modal`; `*i` ends after
/// the body.
pub fn parse_for<'a>(
    modal: &'a Value,
    foreach_modal: &mut Vec<&'a Value>,
    ret_vec: &mut Vec<char>,
    bytes: &[char],
    bytes_len: usize,
    i: &mut usize,
    token_key: &String,
)
    requires
        bytes_len == bytes@.len(),
        *old(i) <= bytes_len,
    ensures
        ({
            let (out, next) = block_effect(
                TokenKind::For,
                token_key@,
                bytes@,
                *old(i) as int,
                *modal,
                old(foreach_modal)@.unref(),
            );
            &&& final(ret_vec)@ == old(ret_vec)@ + out
            &&& *final(i) == next
        }),
        final(foreach_modal)@ == old(foreach_modal)@,
    decreases bytes@.len(), 1int,
{
    proof {
        lemma_body_span_bounds(bytes@, *i as int);
    }
    if let Some(inner) = capture_body(bytes, bytes_len, i) {
        if let Some(Value::Array(items)) = get_display_value(modal, token_key.as_str()) {
            render_items(inner, items, modal, foreach_modal, ret_vec);
        }
    }
}

/// Renders the body of a `forfor` token once for each element of the array
/// that the scoped key `token_key` (`<idx>.<subpath>`) reaches from the
/// scope entry at `idx`, each time with the element bound on top of
/// `foreach_modal`; `*i` ends after the body.
pub fn parse_forfor<'a>(
    modal: &'a Value,
    foreach_modal: &mut Vec<&'a Value>,
    ret_vec: &mut Vec<char>,
    bytes: &[char],
    bytes_len: usize,
    i: &mut usize,
    token_key: &String,
)
    requires
        bytes_len == bytes@.len(),
        *old(i) <= bytes_len,
    ensures
        ({
            let (out, next) = block_effect(
                TokenKind::ForFor,
                token_key@,
                bytes@,
                *old(i) as int,
                *modal,
                old(foreach_modal)@.unref(),
            );
            &&& final(ret_vec)@ == old(ret_vec)@ + out
            &&& *final(i) == next
        }),
        final(foreach_modal)@ == old(foreach_modal)@,
    decreases bytes@.len(), 1int,
{
    proof {
        lemma_body_span_bounds(bytes@, *i as int);
    }
    if let Some(inner) = capture_body(bytes, bytes_len, i) {
        if let Some((entry, sub)) = scope_target_of(foreach_modal, token_key, true) {
            if let Some(Value::Array(items)) = get_display_value(entry, sub.as_str()) {
                render_items(inner, items, modal, foreach_modal, ret_vec);
            }
        }
    }
}

/// Renders the body of an `if` token when `token_key` reaches `true` from
/// `modal`; `*i` ends after the body.
pub fn parse_if<'a>(
    modal: &'a Value,
    foreach_modal: &mut Vec<&'a Value>,
    ret_vec: &mut Vec<char>,
    bytes: &[char],
    bytes_len: usize,
    i: &mut usize,
    token_key: &String,
)
    requires
        bytes_len == bytes@.len(),
        *old(i) <= bytes_len,
    ensures
        ({
            let (out, next) = block_effect(
                TokenKind::If,
                token_key@,
                bytes@,
                *old(i) as int,
                *modal,
                old(foreach_modal)@.unref(),
            );
            &&& final(ret_vec)@ == old(ret_vec)@ + out
            &&& *final(i) == next
        }),
        final(foreach_modal)@ == old(foreach_modal)@,
    decreases bytes@.len(), 1int,
{
    proof {
        lemma_body_span_bounds(bytes@, *i as int);
    }
    if let Some(inner) = capture_body(bytes, bytes_len, i) {
        if let Some(Value::Bool(true)) = get_display_value(modal, token_key.as_str()) {
            parse_chars(inner, modal, foreach_modal, ret_vec);
        }
    }
}

/// Renders the body of a `forif` token when the scoped key `token_key`
/// (`<idx>.<subpath>`) reaches `true` from the scope entry at `idx`; `*i`
/// ends after the body.
pub fn parse_forif<'a>(
    modal: &'a Value,
    foreach_modal: &mut Vec<&'a Value>,
    ret_vec: &mut Vec<char>,
    bytes: &[char],
    bytes_len: usize,
    i: &mut usize,
    token_key: &String,
)
    requires
        bytes_len == bytes@.len(),
        *old(i) <= bytes_len,
    ensures
        ({
            let (out, next) = block_effect(
                TokenKind::ForIf,
                token_key@,
                bytes@,
                *old(i) as int,
                *modal,
                old(foreach_modal)@.unref(),
            );
            &&& final(ret_vec)@ == old(ret_vec)@ + out
            &&& *final(i) == next
        }),
        final(foreach_modal)@ == old(foreach_modal)@,
    decreases bytes@.len(), 1int,
{
    proof {
        lemma_body_span_bounds(bytes@, *i as int);
    }
    if let Some(inner) = capture_body(bytes, bytes_len, i) {
        if let Some((entry, sub)) = scope_target_of(foreach_modal, token_key, true) {
            if let Some(Value::Bool(true)) = get_display_value(entry, sub.as_str()) {
                parse_chars(inner, modal, foreach_modal, ret_vec);
            }
        }
    }
}

/// The text that `doc` renders to against `root`, outside any loop.
pub open spec fn render(doc: Seq<char>, root: Value) -> Seq<char> {
    render_from(doc, 0, root, Seq::empty())
}

/// Renders `html` against `modal`, with `foreach_modal` holding the elements
/// bound by the enclosing loops (the outermost first).
pub fn parse<'a>(html: &String, modal: &'a Value, foreach_modal: &mut Vec<&'a Value>) -> (r: String)
    ensures
        r@ == render_from(html@, 0, *modal, old(foreach_modal)@.unref()),
        final(foreach_modal)@ == old(foreach_modal)@,
{
    let doc = chars_of(html.as_str());
    let mut out: Vec<char> = Vec::new();
    parse_chars(doc.as_slice(), modal, foreach_modal, &mut out);
    assert(out@ =~= render_from(html@, 0, *modal, old(foreach_modal)@.unref()));
    string_of(out.as_slice())
}

/// Renders the document `html` against the data context `modal`.
pub fn process_string(html: &String, modal: &Value) -> (r: String)
    ensures
        r@ == render(html@, *modal),
{
    let mut foreach_modal: Vec<&Value> = Vec::new();
    assert(foreach_modal@.unref() =~= Seq::<Value>::empty());
    parse(html, modal, &mut foreach_modal)
}

proof fn lemma_plain_suffix(doc: Seq<char>, i: int, root: Value, stack: Seq<Value>)
    requires
        0 <= i <= doc.len(),
        !doc.contains('@'),
        !doc.contains('\\'),
    ensures
        render_from(doc, i, root, stack) == doc.subrange(i, doc.len() as int),
    decreases doc.len() - i,
{
    if i < doc.len() {
        assert(doc[i] != '@' && doc[i] != '\\') by {
            if doc[i] == '@' || doc[i] == '\\' {
                assert(doc.contains(doc[i]));
            }
        }
        lemma_plain_suffix(doc, i + 1, root, stack);
        assert(doc.subrange(i, doc.len() as int) =~= seq![doc[i]] + doc.subrange(
            i + 1,
            doc.len() as int,
        ));
    } else {
        assert(doc.subrange(i, doc.len() as int) =~= Seq::<char>::empty());
    }
}

/// A document that holds neither `@` nor `\` renders as itself, whatever
/// the data context and the enclosing loops.
pub proof fn lemma_plain_text_unchanged(doc: Seq<char>, root: Value, stack: Seq<Value>)
    requires
        !doc.contains('@'),
        !doc.contains('\\'),
    ensures
        render_from(doc, 0, root, stack) == doc,
{
    lemma_plain_suffix(doc, 0, root, stack);
    assert(doc.subrange(0, doc.len() as int) =~= doc);
}

/// The brace depth at the end of `s`, from zero at its start.
pub open spec fn brace_depth(s: Seq<char>) -> int
    decreases s.len(),
{
    if s.len() == 0 {
        0
    } else {
        next_depth(brace_depth(s.drop_last()), s.last())
    }
}

/// The braces of `s` balance: no prefix closes more than it opens, and the
/// whole closes all that it opens.
pub open spec fn balanced(s: Seq<char>) -> bool {
    &&& brace_depth(s) == 0
    &&& forall|k: int| 0 <= k <= s.len() ==> brace_depth(#[trigger] s.take(k)) >= 0
}

proof fn lemma_balanced_close(doc: Seq<char>, b: Seq<char>, j: int)
    requires
        balanced(b),
        0 <= j <= b.len(),
        doc.len() > b.len() + 1,
        doc.subrange(1, b.len() + 1int) == b,
        doc[b.len() + 1int] == '}',
    ensures
        match_close(doc, 1 + j, 1 + brace_depth(b.take(j))) == 1 + b.len(),
    decreases b.len() - j,
{
    if j < b.len() {
        assert(b.take(j + 1).drop_last() =~= b.take(j));
        assert(doc[1 + j] == b[j]);
        assert(brace_depth(b.take(j + 1)) >= 0);
        lemma_balanced_close(doc, b, j + 1);
    } else {
        assert(b.take(j) =~= b);
    }
}

/// A body whose braces balance, inside the `{` and `}` that enclose it, is
/// captured whole, whatever follows; an `if` whose key reaches `true`
/// renders exactly that body, and a body without `@` and `\` comes out as
/// it stands.
pub proof fn lemma_balanced_body(
    b: Seq<char>,
    rest: Seq<char>,
    key: Seq<char>,
    root: Value,
    stack: Seq<Value>,
)
    requires
        balanced(b),
    ensures
        body_span(seq!['{'] + b + seq!['}'] + rest, 0) == Some(
            (1int, 1 + b.len() as int, 2 + b.len() as int),
        ),
        resolve(root, key) == Some(Value::Bool(true)) ==> block_effect(
            TokenKind::If,
            key,
            seq!['{'] + b + seq!['}'] + rest,
            0,
            root,
            stack,
        ) == (render_from(b, 0, root, stack), 2 + b.len() as int),
        !b.contains('@') && !b.contains('\\') ==> render_from(b, 0, root, stack) == b,
{
    let doc = seq!['{'] + b + seq!['}'] + rest;
    assert(doc[0] == '{');
    assert(find_open(doc, 0) == 0);
    assert(doc.subrange(1, b.len() + 1int) =~= b);
    assert(doc[b.len() + 1int] == '}');
    assert(b.take(0) =~= Seq::<char>::empty());
    lemma_balanced_close(doc, b, 0);
    if !b.contains('@') && !b.contains('\\') {
        lemma_plain_text_unchanged(b, root, stack);
    }
}

/// Scope entries are addressed from the bottom of the stack: binding one
/// more element leaves what each scoped key names unchanged, and the new
/// element answers to the index equal to the former depth.
pub proof fn lemma_scope_absolute(
    stack: Seq<Value>,
    e: Value,
    key: Seq<char>,
    need_path: bool,
)
    ensures
        scope_target(stack, key, need_path) is Some ==> scope_target(
            stack.push(e),
            key,
            need_path,
        ) == scope_target(stack, key, need_path),
        ({
            let d = first_index(key, '.', 0);
            parse_index(key.subrange(0, d)) == Some(stack.len()) && (d < key.len() || !need_path)
        }) ==> scope_target(stack.push(e), key, need_path) is Some && scope_target(
            stack.push(e),
            key,
            need_path,
        )->Some_0.0 == e,
{
}

} // verus!
