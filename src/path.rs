use vstd::prelude::*;

use crate::text::{chars_of, string_of};
use crate::value::{display_text, lookup, push_display, Value};

verus! {

/// The pieces of `s` between occurrences of `sep`, in order; there is always
/// at least one piece, and an empty `s` gives one empty piece.
pub open spec fn split(s: Seq<char>, sep: char) -> Seq<Seq<char>>
    decreases s.len(),
{
    if s.len() == 0 {
        seq![Seq::empty()]
    } else {
        let parts = split(s.drop_last(), sep);
        if s.last() == sep {
            parts.push(Seq::empty())
        } else {
            parts.update(parts.len() - 1, parts.last().push(s.last()))
        }
    }
}

/// The value of a string of decimal digits.
pub open spec fn digits_value(s: Seq<char>) -> nat
    decreases s.len(),
{
    if s.len() == 0 {
        0
    } else {
        digits_value(s.drop_last()) * 10 + digit_value(s.last())
    }
}

/// The value of a decimal digit character.
pub open spec fn digit_value(c: char) -> nat {
    (c as u32 - 48) as nat
}

pub open spec fn is_digit(c: char) -> bool {
    '0' <= c && c <= '9'
}

/// The digits of an index text: `s` without one leading `+`.
pub open spec fn index_digits(s: Seq<char>) -> Seq<char> {
    if s.len() > 0 && s[0] == '+' {
        s.drop_first()
    } else {
        s
    }
}

pub open spec fn all_digits(d: Seq<char>) -> bool {
    forall|j: int| 0 <= j < d.len() ==> is_digit(#[trigger] d[j])
}

/// The non-negative integer that `s` denotes as an index: an optional `+`,
/// then one or more decimal digits, with a value that fits a `usize`.
pub open spec fn parse_index(s: Seq<char>) -> Option<nat> {
    let d = index_digits(s);
    if d.len() > 0 && all_digits(d) && digits_value(d) <= usize::MAX {
        Some(digits_value(d))
    } else {
        None
    }
}

/// The member `k` of an object; absent for anything else.
pub open spec fn member(v: Option<Value>, k: Seq<char>) -> Option<Value> {
    match v {
        Some(Value::Object(members)) => lookup(members@, k),
        _ => None,
    }
}

/// One piece of a bracketed segment after the first `[`: an empty piece
/// changes nothing; `N]` selects element `N` of an array, and leaves the
/// value as it was when `N` is not an index in range or the value is no
/// array; a piece without the closing `]` is looked up as a member.
pub open spec fn apply_bracket(v: Option<Value>, piece: Seq<char>) -> Option<Value> {
    if piece.len() == 0 {
        v
    } else if piece.last() != ']' {
        member(v, piece)
    } else {
        match v {
            Some(Value::Array(items)) => match parse_index(piece.drop_last()) {
                Some(n) => if n < items@.len() {
                    Some(items@[n as int])
                } else {
                    v
                },
                None => v,
            },
            _ => v,
        }
    }
}

/// The pieces applied in order.
pub open spec fn apply_brackets(v: Option<Value>, pieces: Seq<Seq<char>>) -> Option<Value>
    decreases pieces.len(),
{
    if pieces.len() == 0 {
        v
    } else {
        apply_brackets(apply_bracket(v, pieces[0]), pieces.drop_first())
    }
}

/// A segment with brackets: the text before the first `[`, when not empty,
/// is a member key; then each bracket group applies.
pub open spec fn index_segment(v: Value, seg: Seq<char>) -> Option<Value> {
    let pieces = split(seg, '[');
    let start = if pieces[0].len() == 0 {
        Some(v)
    } else {
        member(Some(v), pieces[0])
    };
    apply_brackets(start, pieces.drop_first())
}

/// What one segment does to the current value: `None` when the walk stops
/// there with the value unchanged, else the next value (itself possibly absent).
pub open spec fn step(v: Value, seg: Seq<char>) -> Option<Option<Value>> {
    match v {
        Value::Object(members) => if seg.contains('[') {
            Some(index_segment(v, seg))
        } else {
            Some(lookup(members@, seg))
        },
        Value::Array(_) => if seg.contains('[') {
            Some(index_segment(v, seg))
        } else {
            None
        },
        _ => None,
    }
}

/// The walk over the remaining segments; a scalar, null, or an array met by
/// a plain segment ends it early, an absent value stays absent.
pub open spec fn walk(v: Option<Value>, segs: Seq<Seq<char>>) -> Option<Value>
    decreases segs.len(),
{
    if segs.len() == 0 {
        v
    } else {
        match v {
            None => None,
            Some(x) => match step(x, segs[0]) {
                None => v,
                Some(next) => walk(next, segs.drop_first()),
            },
        }
    }
}

/// The value that `path` reaches from `root`, or `None` when it is absent.
pub open spec fn resolve(root: Value, path: Seq<char>) -> Option<Value> {
    walk(Some(root), split(path, '.'))
}

/// The value behind an optional reference.
pub open spec fn deref_opt(r: Option<&Value>) -> Option<Value> {
    match r {
        Some(v) => Some(*v),
        None => None,
    }
}

pub proof fn lemma_split_nonempty(s: Seq<char>, sep: char)
    ensures
        split(s, sep).len() >= 1,
    decreases s.len(),
{
    if s.len() > 0 {
        lemma_split_nonempty(s.drop_last(), sep);
    }
}

/// The texts of a list of character vectors.
pub open spec fn views(v: Seq<Vec<char>>) -> Seq<Seq<char>> {
    v.map_values(|x: Vec<char>| x@)
}

/// Splits `s` at each `sep`.
pub fn split_chars(s: &[char], sep: char) -> (r: Vec<Vec<char>>)
    ensures
        views(r@) == split(s@, sep),
{
    let mut done: Vec<Vec<char>> = Vec::new();
    let mut cur: Vec<char> = Vec::new();
    let mut i: usize = 0;
    assert(s@.take(0) =~= Seq::<char>::empty());
    while i < s.len()
        invariant
            i <= s@.len(),
            split(s@.take(i as int), sep) =~= views(done@).push(cur@),
        decreases s@.len() - i,
    {
        let c = s[i];
        assert(s@.take(i + 1 as int).drop_last() =~= s@.take(i as int));
        proof {
            lemma_split_nonempty(s@.take(i as int), sep);
        }
        if c == sep {
            let ghost before = views(done@);
            let ghost last = cur@;
            done.push(cur);
            cur = Vec::new();
            assert(views(done@) =~= before.push(last));
        } else {
            cur.push(c);
        }
        i += 1;
    }
    assert(s@.take(i as int) =~= s@);
    let ghost before = views(done@);
    let ghost last = cur@;
    done.push(cur);
    assert(views(done@) =~= before.push(last));
    done
}

pub proof fn lemma_digits_value_prefix(s: Seq<char>, k: int)
    requires
        0 <= k <= s.len(),
    ensures
        digits_value(s.take(k)) <= digits_value(s),
    decreases s.len(),
{
    if k < s.len() {
        assert(s.drop_last().take(k) =~= s.take(k));
        lemma_digits_value_prefix(s.drop_last(), k);
    } else {
        assert(s.take(k) =~= s);
    }
}

/// Reads `s` as an index, as `parse_index` states.
pub fn parse_index_chars(s: &[char]) -> (r: Option<usize>)
    ensures
        match r {
            Some(n) => parse_index(s@) == Some(n as nat),
            None => parse_index(s@) is None,
        },
{
    let start: usize = if s.len() > 0 && s[0] == '+' {
        1
    } else {
        0
    };
    let ghost d = s@.subrange(start as int, s@.len() as int);
    assert(d =~= index_digits(s@));
    if start >= s.len() {
        return None;
    }
    let mut v: usize = 0;
    let mut i: usize = start;
    assert(d.take(0) =~= Seq::<char>::empty());
    while i < s.len()
        invariant
            start <= i <= s@.len(),
            d == s@.subrange(start as int, s@.len() as int),
            d == index_digits(s@),
            v as nat == digits_value(d.take(i - start)),
            forall|j: int| 0 <= j < i - start ==> is_digit(#[trigger] d[j]),
        decreases s@.len() - i,
    {
        let c = s[i];
        if !('0' <= c && c <= '9') {
            assert(!is_digit(d[i - start]));
            assert(!all_digits(d));
            return None;
        }
        let dig: usize = (c as u32 - 48) as usize;
        assert(d.take(i - start + 1).drop_last() =~= d.take(i - start));
        if v > (usize::MAX - dig) / 10 {
            assert(v * 10 + dig > usize::MAX) by (nonlinear_arith)
                requires
                    v > (usize::MAX - dig) / 10,
                    dig <= 9,
            ;
            proof {
                lemma_digits_value_prefix(d, i - start + 1);
            }
            assert(digits_value(d.take(i - start + 1)) == v * 10 + dig);
            assert(digits_value(d) > usize::MAX);
            return None;
        }
        assert(v * 10 + dig <= usize::MAX) by (nonlinear_arith)
            requires
                v <= (usize::MAX - dig) / 10,
                dig <= 9,
        ;
        v = v * 10 + dig;
        i += 1;
    }
    assert(d.take(i - start) =~= d);
    Some(v)
}

/// Whether `s` holds `c`.
fn contains_char(s: &[char], c: char) -> (r: bool)
    ensures
        r == s@.contains(c),
{
    let mut i: usize = 0;
    while i < s.len()
        invariant
            i <= s@.len(),
            forall|j: int| 0 <= j < i ==> s@[j] != c,
        decreases s@.len() - i,
    {
        if s[i] == c {
            assert(s@[i as int] == c);
            return true;
        }
        i += 1;
    }
    false
}

/// The first member of `members` whose key is `k`.
fn lookup_member<'a>(members: &'a Vec<(String, Value)>, k: &String) -> (r: Option<&'a Value>)
    ensures
        deref_opt(r) == lookup(members@, k@),
{
    let mut i: usize = 0;
    assert(members@.skip(0) =~= members@);
    while i < members.len()
        invariant
            i <= members@.len(),
            lookup(members@, k@) == lookup(members@.skip(i as int), k@),
        decreases members@.len() - i,
    {
        assert(members@.skip(i as int).drop_first() =~= members@.skip(i + 1 as int));
        if members[i].0 == *k {
            return Some(&members[i].1);
        }
        i += 1;
    }
    None
}

/// The member `k` of `v` when `v` is an object.
fn member_of<'a>(v: Option<&'a Value>, k: &[char]) -> (r: Option<&'a Value>)
    ensures
        deref_opt(r) == member(deref_opt(v), k@),
{
    match v {
        Some(Value::Object(members)) => lookup_member(members, &string_of(k)),
        _ => None,
    }
}

fn apply_bracket_piece<'a>(v: Option<&'a Value>, piece: &[char]) -> (r: Option<&'a Value>)
    ensures
        deref_opt(r) == apply_bracket(deref_opt(v), piece@),
{
    let n = piece.len();
    if n == 0 {
        return v;
    }
    if piece[n - 1] != ']' {
        return member_of(v, piece);
    }
    match v {
        Some(Value::Array(items)) => {
            let digits = vstd::slice::slice_subrange(piece, 0, n - 1);
            assert(digits@ =~= piece@.drop_last());
            match parse_index_chars(digits) {
                Some(idx) => if idx < items.len() {
                    Some(&items[idx])
                } else {
                    v
                },
                None => v,
            }
        },
        _ => v,
    }
}

fn index_segment_of<'a>(v: &'a Value, seg: &[char]) -> (r: Option<&'a Value>)
    ensures
        deref_opt(r) == index_segment(*v, seg@),
{
    let pieces = split_chars(seg, '[');
    proof {
        lemma_split_nonempty(seg@, '[');
    }
    let ghost all = views(pieces@);
    let mut cur: Option<&'a Value> = if pieces[0].len() == 0 {
        Some(v)
    } else {
        member_of(Some(v), pieces[0].as_slice())
    };
    let mut i: usize = 1;
    assert(all.skip(1) =~= all.drop_first());
    while i < pieces.len()
        invariant
            1 <= i <= pieces@.len(),
            all == views(pieces@),
            all == split(seg@, '['),
            index_segment(*v, seg@) == apply_brackets(deref_opt(cur), all.skip(i as int)),
        decreases pieces@.len() - i,
    {
        assert(all.skip(i as int).drop_first() =~= all.skip(i + 1 as int));
        cur = apply_bracket_piece(cur, pieces[i].as_slice());
        i += 1;
    }
    assert(all.skip(i as int) =~= Seq::<Seq<char>>::empty());
    cur
}

/// What one segment does to `v`, as `step` states.
fn step_of<'a>(v: &'a Value, seg: &[char]) -> (r: Option<Option<&'a Value>>)
    ensures
        match r {
            None => step(*v, seg@) is None,
            Some(next) => step(*v, seg@) == Some(deref_opt(next)),
        },
{
    match v {
        Value::Object(members) => if contains_char(seg, '[') {
            Some(index_segment_of(v, seg))
        } else {
            Some(lookup_member(members, &string_of(seg)))
        },
        Value::Array(_) => if contains_char(seg, '[') {
            Some(index_segment_of(v, seg))
        } else {
            None
        },
        _ => None,
    }
}

/// The value that the dotted, bracket-indexed path `attr_val` reaches from
/// `modal`, or `None` when it is absent.
pub fn get_display_value<'a>(modal: &'a Value, attr_val: &str) -> (r: Option<&'a Value>)
    ensures
        deref_opt(r) == resolve(*modal, attr_val@),
{
    let path = chars_of(attr_val);
    let segs = split_chars(path.as_slice(), '.');
    let ghost all = views(segs@);
    let mut cur: &'a Value = modal;
    let mut i: usize = 0;
    assert(all.skip(0) =~= all);
    while i < segs.len()
        invariant
            i <= segs@.len(),
            all == views(segs@),
            resolve(*modal, attr_val@) == walk(Some(*cur), all.skip(i as int)),
        decreases segs@.len() - i,
    {
        assert(all.skip(i as int).drop_first() =~= all.skip(i + 1 as int));
        match step_of(cur, segs[i].as_slice()) {
            None => {
                return Some(cur);
            },
            Some(None) => {
                assert(walk(None, all.skip(i + 1 as int)) is None);
                return None;
            },
            Some(Some(next)) => {
                cur = next;
            },
        }
        i += 1;
    }
    assert(all.skip(i as int) =~= Seq::<Seq<char>>::empty());
    Some(cur)
}

/// The display text of the value that `attr_val` reaches from `modal`.
pub fn get_display_string(modal: &Value, attr_val: &String) -> (r: String)
    ensures
        r@ == display_text(resolve(*modal, attr_val@)),
{
    let v = get_display_value(modal, attr_val.as_str());
    let mut out: Vec<char> = Vec::new();
    push_display(v, &mut out);
    assert(out@ =~= display_text(resolve(*modal, attr_val@)));
    string_of(out.as_slice())
}

} // verus!
