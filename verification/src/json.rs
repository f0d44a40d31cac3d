//! The JSON text of manifests: how it is written, and that it can be told apart.
//!
//! A text is scanned with the depth of its brackets and whether it stands within
//! a string. A text that is closed, that is whose brackets and strings close and
//! which has no separator outside them, ends where the next separator stands, so
//! that an object can be taken apart in one way only.

use crate::text;
use vstd::prelude::*;
use vstd::string::*;

verus! {

/// A character as JSON writes it in a string: quotes, backslashes and control
/// characters escaped, the others as they are.
pub open spec fn escaped(c: char) -> Seq<char> {
    if c == '"' || c == '\\' {
        seq!['\\', c]
    } else if c == '\x08' {
        seq!['\\', 'b']
    } else if c == '\t' {
        seq!['\\', 't']
    } else if c == '\n' {
        seq!['\\', 'n']
    } else if c == '\x0c' {
        seq!['\\', 'f']
    } else if c == '\r' {
        seq!['\\', 'r']
    } else if ' ' > c {
        seq!['\\', 'u', '0', '0', lower_hex(c as int / 16), lower_hex(c as int % 16)]
    } else {
        seq![c]
    }
}

/// The lower-case hexadecimal digit for a number below sixteen.
pub open spec fn lower_hex(v: int) -> char {
    if v < 10 {
        (0x30 + v) as char
    } else {
        (0x57 + v) as char
    }
}

/// The characters of a string as JSON writes them.
pub open spec fn escaped_all(s: Seq<char>) -> Seq<char>
    decreases s.len(),
{
    if s.len() == 0 {
        Seq::empty()
    } else {
        escaped_all(s.drop_last()) + escaped(s.last())
    }
}

/// A string as JSON writes it, in quotes.
pub open spec fn quoted(s: Seq<char>) -> Seq<char> {
    (seq!['"'] + escaped_all(s)).push('"')
}

/// `serde_json::to_string` on a string writes its characters in quotes, each
/// escaped where JSON asks for it, and does not fail.
#[verifier::external_body]
pub(crate) fn quote(s: &str) -> (r: String)
    ensures
        r@ == quoted(s@),
{
    serde_json::to_string(s).unwrap_or_default()
}

/// A member of an object.
pub open spec fn member(key: Seq<char>, value: Seq<char>) -> Seq<char> {
    quoted(key).push(':') + value
}

/// The members of an object, one after the other.
pub open spec fn members(list: Seq<(Seq<char>, Seq<char>)>) -> Seq<char>
    decreases list.len(),
{
    if list.len() == 0 {
        Seq::empty()
    } else if list.len() == 1 {
        member(list[0].0, list[0].1)
    } else {
        members(list.drop_last()).push(',') + member(list.last().0, list.last().1)
    }
}

/// An object with the given members, the values given as texts.
pub open spec fn object(list: Seq<(Seq<char>, Seq<char>)>) -> Seq<char> {
    (seq!['{'] + members(list)).push('}')
}

/// The elements of an array, given as texts, one after the other.
pub open spec fn elements(list: Seq<Seq<char>>) -> Seq<char> {
    text::join_with(list, ',')
}

/// An array with the given elements, given as texts.
pub open spec fn array(list: Seq<Seq<char>>) -> Seq<char> {
    (seq!['['] + elements(list)).push(']')
}

/// A JSON value.
pub enum Json {
    Null,
    Bool(bool),
    /// A number, by its digits.
    Number(Seq<char>),
    Text(Seq<char>),
    Array(Seq<Json>),
    Object(Seq<(Seq<char>, Json)>),
}

/// Whether text can be that of a number.
pub open spec fn is_number(n: Seq<char>) -> bool {
    n.len() > 0 && forall|i: int|
        0 <= i < n.len() ==> ('0' <= #[trigger] n[i] && n[i] <= '9') || n[i] == '-' || n[i] == '+'
            || n[i] == '.' || n[i] == 'e' || n[i] == 'E'
}

/// Whether a text is that of a JSON value, written without spaces.
pub open spec fn is_text_of(text: Seq<char>, value: Json) -> bool
    decreases value,
{
    match value {
        Json::Null => text == "null"@,
        Json::Bool(b) => text == if b {
            "true"@
        } else {
            "false"@
        },
        Json::Number(n) => is_number(n) && text == n,
        Json::Text(s) => text == quoted(s),
        Json::Array(items) => exists|list: Seq<Seq<char>>| #[trigger]
            array(list) == text && list.len() == items.len() && forall|i: int|
                0 <= i < items.len() ==> is_text_of(#[trigger] list[i], items[i]),
        Json::Object(items) => exists|list: Seq<(Seq<char>, Seq<char>)>| #[trigger]
            object(list) == text && list.len() == items.len() && forall|i: int|
                0 <= i < items.len() ==> (#[trigger] list[i]).0 == items[i].0 && is_text_of(
                    list[i].1,
                    items[i].1,
                ),
    }
}

/// Whether a text is that of some JSON value, written without spaces.
pub open spec fn is_json(text: Seq<char>) -> bool {
    exists|value: Json| is_text_of(text, value)
}

/// Where a scan of a text stands.
pub struct Scan {
    /// How many brackets are open.
    pub depth: int,
    /// Whether it stands within a string.
    pub inside: bool,
    /// Whether the next character of the string is escaped.
    pub escape: bool,
}

/// Before a text.
pub open spec fn top() -> Scan {
    Scan { depth: 0, inside: false, escape: false }
}

/// At the start of a string.
pub open spec fn in_string() -> Scan {
    Scan { depth: 0, inside: true, escape: false }
}

/// The scan after one character.
pub open spec fn step(s: Scan, c: char) -> Scan {
    if s.inside {
        if s.escape {
            Scan { escape: false, ..s }
        } else if c == '\\' {
            Scan { escape: true, ..s }
        } else if c == '"' {
            Scan { inside: false, ..s }
        } else {
            s
        }
    } else if c == '"' {
        Scan { inside: true, ..s }
    } else if c == '{' || c == '[' {
        Scan { depth: s.depth + 1, ..s }
    } else if c == '}' || c == ']' {
        Scan { depth: s.depth - 1, ..s }
    } else {
        s
    }
}

/// The scan after a text.
pub open spec fn run(s: Scan, t: Seq<char>) -> Scan
    decreases t.len(),
{
    if t.len() == 0 {
        s
    } else {
        step(run(s, t.drop_last()), t.last())
    }
}

/// Whether a character separates.
pub open spec fn is_separator(c: char) -> bool {
    c == ',' || c == ':' || c == '}' || c == ']'
}

/// Whether a character separates what stands before it from what follows.
pub open spec fn separates(s: Scan, c: char) -> bool {
    s.depth == 0 && !s.inside && is_separator(c)
}

/// Whether a text closes all that it opens, and nothing in it separates.
#[verifier::opaque]
pub open spec fn closed(v: Seq<char>) -> bool {
    run(top(), v) == top() && forall|i: int|
        0 <= i < v.len() ==> !separates(run(top(), v.take(i)), #[trigger] v[i])
}

/// Whether a text closes all that it opens, and nothing else.
pub open spec fn balanced(t: Seq<char>) -> bool {
    run(top(), t) == top() && forall|i: int|
        0 <= i <= t.len() ==> run(top(), #[trigger] t.take(i)).depth >= 0
}

proof fn lemma_run_concat(s: Scan, a: Seq<char>, b: Seq<char>)
    ensures
        run(s, a + b) == run(run(s, a), b),
    decreases b.len(),
{
    if b.len() == 0 {
        assert(a + b =~= a);
    } else {
        lemma_run_concat(s, a, b.drop_last());
        assert((a + b).drop_last() =~= a + b.drop_last());
    }
}

proof fn lemma_run_deeper(s: Scan, t: Seq<char>)
    ensures
        run((Scan { depth: s.depth + 1, ..s }), t) == (Scan {
            depth: run(s, t).depth + 1,
            ..run(s, t)
        }),
    decreases t.len(),
{
    if t.len() > 0 {
        lemma_run_deeper(s, t.drop_last());
    }
}

/// Nothing closes in a closed text what was not opened in it.
proof fn lemma_closed_depth(v: Seq<char>, i: int)
    requires
        closed(v),
        0 <= i <= v.len(),
    ensures
        run(top(), v.take(i)).depth >= 0,
    decreases i,
{
    reveal(closed);
    if i > 0 {
        lemma_closed_depth(v, i - 1);
        assert(v.take(i).drop_last() =~= v.take(i - 1));
        assert(!separates(run(top(), v.take(i - 1)), v[i - 1]));
    }
}

proof fn lemma_closed_is_balanced(v: Seq<char>)
    requires
        closed(v),
    ensures
        balanced(v),
{
    reveal(closed);
    assert forall|i: int| 0 <= i <= v.len() implies run(top(), #[trigger] v.take(i)).depth
        >= 0 by {
        lemma_closed_depth(v, i);
    }
}

proof fn lemma_balanced_concat(a: Seq<char>, b: Seq<char>)
    requires
        balanced(a),
        balanced(b),
    ensures
        balanced(a + b),
{
    lemma_run_concat(top(), a, b);
    assert forall|i: int| 0 <= i <= (a + b).len() implies run(
        top(),
        #[trigger] (a + b).take(i),
    ).depth >= 0 by {
        if i <= a.len() {
            assert((a + b).take(i) =~= a.take(i));
        } else {
            assert((a + b).take(i) =~= a + b.take(i - a.len()));
            lemma_run_concat(top(), a, b.take(i - a.len()));
        }
    }
}

proof fn lemma_balanced_char(c: char)
    requires
        c == ',' || c == ':',
    ensures
        balanced(seq![c]),
{
    let t = seq![c];
    reveal_with_fuel(run, 2);
    assert forall|i: int| 0 <= i <= t.len() implies run(top(), #[trigger] t.take(i)).depth
        >= 0 by {
        if i == 0 {
            assert(t.take(i) =~= Seq::empty());
        } else {
            assert(t.take(i) =~= t);
        }
    }
}

/// What closes all that it opens is closed between brackets.
proof fn lemma_bracketed(open: char, t: Seq<char>, close: char)
    requires
        open == '{' || open == '[',
        close == '}' || close == ']',
        balanced(t),
    ensures
        closed((seq![open] + t).push(close)),
{
    reveal(closed);
    let v = (seq![open] + t).push(close);
    let deep = Scan { depth: 1, ..top() };
    reveal_with_fuel(run, 2);
    assert(run(top(), seq![open]) == deep) by {
        assert(seq![open].drop_last() =~= Seq::empty());
    }
    assert forall|k: int| 0 <= k <= t.len() implies run(top(), #[trigger] (seq![open] + t).take(
        k + 1,
    )) == (Scan { depth: run(top(), t.take(k)).depth + 1, ..run(top(), t.take(k)) }) by {
        assert((seq![open] + t).take(k + 1) =~= seq![open] + t.take(k));
        lemma_run_concat(top(), seq![open], t.take(k));
        lemma_run_deeper(top(), t.take(k));
    }
    assert(t.take(t.len() as int) =~= t);
    assert((seq![open] + t).take(t.len() as int + 1) =~= seq![open] + t);
    assert(run(top(), seq![open] + t) == deep);
    assert(v.drop_last() =~= seq![open] + t);
    assert forall|i: int| 0 <= i < v.len() implies !separates(
        run(top(), v.take(i)),
        #[trigger] v[i],
    ) by {
        if i == 0 {
            assert(v[0] == open);
        } else {
            assert(v.take(i) =~= (seq![open] + t).take(i - 1 + 1));
            assert(run(top(), t.take(i - 1)).depth >= 0);
        }
    }
}

/// A text without quotes, brackets and separators is closed.
proof fn lemma_plain_closed(t: Seq<char>)
    requires
        forall|i: int|
            0 <= i < t.len() ==> !is_separator(#[trigger] t[i]) && t[i] != '"' && t[i] != '{'
                && t[i] != '[',
    ensures
        closed(t),
    decreases t.len(),
{
    reveal(closed);
    if t.len() > 0 {
        let front = t.drop_last();
        assert forall|i: int| 0 <= i < front.len() implies !is_separator(#[trigger] front[i])
            && front[i] != '"' && front[i] != '{' && front[i] != '[' by {
            assert(front[i] == t[i]);
        }
        lemma_plain_closed(front);
        assert(t[t.len() - 1] == t.last());
    }
}

proof fn lemma_lower_hex(v: int)
    requires
        0 <= v < 16,
    ensures
        lower_hex(v) != '"',
        lower_hex(v) != '\\',
{
}

/// An escaped character leaves a string open, wherever one stops in it.
proof fn lemma_escaped_inside(c: char)
    ensures
        run(in_string(), escaped(c)) == in_string(),
        forall|k: int|
            0 <= k <= escaped(c).len() ==> run(in_string(), #[trigger] escaped(c).take(k)).inside
                && run(in_string(), escaped(c).take(k)).depth == 0,
{
    let e = escaped(c);
    reveal_with_fuel(run, 7);
    if e.len() == 6 {
        lemma_lower_hex(c as int / 16);
        lemma_lower_hex(c as int % 16);
        let s1 = Scan { escape: true, ..in_string() };
        assert(e.take(0) =~= Seq::empty());
        assert(e.take(1).drop_last() =~= e.take(0));
        assert(run(in_string(), e.take(1)) == s1);
        assert(e.take(2).drop_last() =~= e.take(1));
        assert(run(in_string(), e.take(2)) == in_string());
        assert(e.take(3).drop_last() =~= e.take(2));
        assert(run(in_string(), e.take(3)) == in_string());
        assert(e.take(4).drop_last() =~= e.take(3));
        assert(run(in_string(), e.take(4)) == in_string());
        assert(e.take(5).drop_last() =~= e.take(4));
        assert(run(in_string(), e.take(5)) == in_string());
        assert(e.take(6).drop_last() =~= e.take(5));
        assert(run(in_string(), e.take(6)) == in_string());
        assert(e.take(6) =~= e);
    } else if e.len() == 2 {
        let s1 = Scan { escape: true, ..in_string() };
        assert(e.take(0) =~= Seq::empty());
        assert(e.take(1).drop_last() =~= e.take(0));
        assert(run(in_string(), e.take(1)) == s1);
        assert(e.take(2).drop_last() =~= e.take(1));
        assert(run(in_string(), e.take(2)) == in_string());
        assert(e.take(2) =~= e);
    } else {
        assert(e.take(0) =~= Seq::empty());
        assert(e.take(1) =~= e);
        assert(e.drop_last() =~= Seq::empty());
    }
}

/// The characters of a string leave it open.
proof fn lemma_escaped_all_inside(s: Seq<char>)
    ensures
        run(in_string(), escaped_all(s)) == in_string(),
        forall|k: int|
            0 <= k <= escaped_all(s).len() ==> run(
                in_string(),
                #[trigger] escaped_all(s).take(k),
            ).inside,
    decreases s.len(),
{
    let all = escaped_all(s);
    if s.len() == 0 {
        assert forall|k: int| 0 <= k <= all.len() implies run(
            in_string(),
            #[trigger] all.take(k),
        ).inside by {
            assert(all.take(k) =~= Seq::empty());
        }
    } else {
        let front = escaped_all(s.drop_last());
        let e = escaped(s.last());
        lemma_escaped_all_inside(s.drop_last());
        lemma_escaped_inside(s.last());
        lemma_run_concat(in_string(), front, e);
        assert forall|k: int| 0 <= k <= all.len() implies run(
            in_string(),
            #[trigger] all.take(k),
        ).inside by {
            if k <= front.len() {
                assert(all.take(k) =~= front.take(k));
            } else {
                assert(all.take(k) =~= front + e.take(k - front.len()));
                lemma_run_concat(in_string(), front, e.take(k - front.len()));
            }
        }
    }
}

/// A string in quotes is closed.
pub proof fn lemma_quoted_closed(s: Seq<char>)
    ensures
        closed(quoted(s)),
{
    reveal(closed);
    let v = quoted(s);
    let q = seq!['"'];
    let all = escaped_all(s);
    reveal_with_fuel(run, 2);
    lemma_escaped_all_inside(s);
    assert(q.drop_last() =~= Seq::empty());
    assert(run(top(), q) == in_string());
    lemma_run_concat(top(), q, all);
    assert(v.drop_last() =~= q + all);
    assert forall|i: int| 0 <= i < v.len() implies !separates(
        run(top(), v.take(i)),
        #[trigger] v[i],
    ) by {
        if i == 0 {
            assert(v[0] == '"');
        } else {
            assert(v.take(i) =~= q + all.take(i - 1));
            lemma_run_concat(top(), q, all.take(i - 1));
        }
    }
}

/// A closed text ends where the next separator stands: two that go on to the same
/// text are the same.
proof fn lemma_closed_ends(a: Seq<char>, r: Seq<char>, b: Seq<char>, t: Seq<char>)
    requires
        closed(a),
        closed(b),
        a + r == b + t,
        r.len() == 0 || is_separator(r[0]),
        t.len() == 0 || is_separator(t[0]),
    ensures
        a == b,
        r == t,
{
    reveal(closed);
    let whole = a + r;
    assert(whole.len() == a.len() + r.len() && whole.len() == b.len() + t.len());
    if a.len() < b.len() {
        let n = a.len() as int;
        assert(whole[n] == r[0]);
        assert(whole[n] == b[n]);
        assert(b.take(n) =~= whole.take(n));
        assert(a =~= whole.take(n));
        assert(!separates(run(top(), b.take(n)), b[n]));
    } else if b.len() < a.len() {
        let n = b.len() as int;
        assert((b + t)[n] == t[0]);
        assert(whole[n] == a[n]);
        assert(a.take(n) =~= whole.take(n));
        assert(b =~= whole.take(n));
        assert(!separates(run(top(), a.take(n)), a[n]));
    }
    assert(a =~= whole.take(a.len() as int));
    assert(b =~= whole.take(a.len() as int));
    assert(r =~= whole.skip(a.len() as int));
    assert(t =~= whole.skip(a.len() as int));
}

proof fn lemma_escaped_all_front(s: Seq<char>)
    requires
        s.len() > 0,
    ensures
        escaped_all(s) == escaped(s[0]) + escaped_all(s.drop_first()),
    decreases s.len(),
{
    if s.len() == 1 {
        assert(s.drop_last() =~= Seq::empty());
        assert(s.drop_first() =~= Seq::empty());
        assert(escaped_all(s.drop_last()) =~= Seq::empty());
        assert(escaped_all(s) =~= escaped(s[0]));
        assert(escaped(s[0]) + escaped_all(s.drop_first()) =~= escaped(s[0]));
    } else {
        lemma_escaped_all_front(s.drop_last());
        assert(s.drop_last().drop_first() =~= s.drop_first().drop_last());
        assert(s.drop_first().last() == s.last());
        assert(escaped_all(s) =~= escaped(s[0]) + escaped_all(s.drop_first()));
    }
}

/// No two characters are escaped alike, nor one to the beginning of another.
proof fn lemma_escaped_apart(a: char, r: Seq<char>, b: char, t: Seq<char>)
    requires
        escaped(a) + r == escaped(b) + t,
    ensures
        a == b,
        r == t,
{
    let whole = escaped(a) + r;
    let other = escaped(b) + t;
    assert(whole[0] == escaped(a)[0]);
    assert(other[0] == escaped(b)[0]);
    if whole[0] == '\\' {
        assert(whole[1] == escaped(a)[1]);
        assert(other[1] == escaped(b)[1]);
        if whole[1] == 'u' {
            assert(escaped(a).len() == 6 && escaped(b).len() == 6);
            assert(whole[4] == escaped(a)[4] && whole[5] == escaped(a)[5]);
            assert(other[4] == escaped(b)[4] && other[5] == escaped(b)[5]);
            assert(lower_hex(a as int / 16) == lower_hex(b as int / 16));
            assert(lower_hex(a as int % 16) == lower_hex(b as int % 16));
            assert(a as int / 16 == b as int / 16);
            assert(a as int % 16 == b as int % 16);
        }
    }
    assert(a == b);
    assert(r =~= whole.skip(escaped(a).len() as int));
    assert(t =~= other.skip(escaped(a).len() as int));
}

/// Escaping makes nothing shorter, and nothing of nothing.
proof fn lemma_escaped_all_len(s: Seq<char>)
    ensures
        escaped_all(s).len() >= s.len(),
        s.len() == 0 ==> escaped_all(s).len() == 0,
    decreases s.len(),
{
    if s.len() > 0 {
        lemma_escaped_all_len(s.drop_last());
        assert(escaped(s.last()).len() >= 1);
    }
}

proof fn lemma_escaped_all_injective(a: Seq<char>, b: Seq<char>)
    requires
        escaped_all(a) == escaped_all(b),
    ensures
        a == b,
    decreases a.len(),
{
    if a.len() > 0 {
        lemma_escaped_all_front(a);
    }
    if b.len() > 0 {
        lemma_escaped_all_front(b);
    }
    if a.len() > 0 && b.len() > 0 {
        lemma_escaped_apart(
            a[0],
            escaped_all(a.drop_first()),
            b[0],
            escaped_all(b.drop_first()),
        );
        lemma_escaped_all_injective(a.drop_first(), b.drop_first());
        assert(a =~= seq![a[0]] + a.drop_first());
        assert(b =~= seq![b[0]] + b.drop_first());
    } else {
        lemma_escaped_all_len(a);
        lemma_escaped_all_len(b);
        assert(a =~= b);
    }
}

/// Two strings are never written alike.
pub proof fn law_quoted_is_injective(a: Seq<char>, b: Seq<char>)
    requires
        quoted(a) == quoted(b),
    ensures
        a == b,
{
    assert(escaped_all(a) =~= quoted(a).subrange(1, quoted(a).len() - 1));
    assert(escaped_all(b) =~= quoted(b).subrange(1, quoted(b).len() - 1));
    lemma_escaped_all_injective(a, b);
}

/// What follows the first member of an object.
spec fn members_after(list: Seq<(Seq<char>, Seq<char>)>) -> Seq<char> {
    if list.len() == 0 {
        Seq::empty()
    } else {
        seq![','] + members(list)
    }
}

proof fn lemma_members_front(list: Seq<(Seq<char>, Seq<char>)>)
    requires
        list.len() > 0,
    ensures
        members(list) == member(list[0].0, list[0].1) + members_after(list.drop_first()),
    decreases list.len(),
{
    let first = member(list[0].0, list[0].1);
    let rest = list.drop_first();
    if list.len() == 1 {
        assert(first + members_after(rest) =~= first);
    } else {
        let front = list.drop_last();
        lemma_members_front(front);
        assert(front.drop_first() =~= rest.drop_last());
        assert(rest.last() == list.last());
        if rest.len() == 1 {
            assert(rest.drop_last() =~= Seq::empty());
            assert(rest[0] == list.last());
        }
        assert(members(list) =~= first + members_after(rest));
    }
}

/// Whether every value of a list is closed.
pub open spec fn closed_values(list: Seq<(Seq<char>, Seq<char>)>) -> bool {
    forall|i: int| 0 <= i < list.len() ==> closed((#[trigger] list[i]).1)
}

proof fn lemma_member_balanced(key: Seq<char>, value: Seq<char>)
    requires
        closed(value),
    ensures
        balanced(member(key, value)),
{
    lemma_quoted_closed(key);
    lemma_closed_is_balanced(quoted(key));
    lemma_closed_is_balanced(value);
    lemma_balanced_char(':');
    lemma_balanced_concat(quoted(key), seq![':']);
    lemma_balanced_concat(quoted(key) + seq![':'], value);
    assert(quoted(key) + seq![':'] =~= quoted(key).push(':'));
}

proof fn lemma_members_balanced(list: Seq<(Seq<char>, Seq<char>)>)
    requires
        closed_values(list),
    ensures
        balanced(members(list)),
    decreases list.len(),
{
    if list.len() == 0 {
        lemma_plain_closed(members(list));
        lemma_closed_is_balanced(members(list));
    } else {
        let front = list.drop_last();
        assert(closed(list[list.len() - 1].1));
        lemma_member_balanced(list.last().0, list.last().1);
        if list.len() > 1 {
            assert(closed_values(front)) by {
                assert forall|i: int| 0 <= i < front.len() implies closed(
                    (#[trigger] front[i]).1,
                ) by {
                    assert(front[i] == list[i]);
                }
            }
            lemma_members_balanced(front);
            lemma_balanced_char(',');
            lemma_balanced_concat(members(front), seq![',']);
            assert(members(front) + seq![','] =~= members(front).push(','));
            lemma_balanced_concat(
                members(front).push(','),
                member(list.last().0, list.last().1),
            );
        }
    }
}

/// An object of closed values is closed.
pub proof fn lemma_object_closed(list: Seq<(Seq<char>, Seq<char>)>)
    requires
        closed_values(list),
    ensures
        closed(object(list)),
{
    lemma_members_balanced(list);
    lemma_bracketed('{', members(list), '}');
}

/// The first member of an object, and what follows it, can be told from the text.
proof fn lemma_first_member(
    a: (Seq<char>, Seq<char>),
    ra: Seq<char>,
    b: (Seq<char>, Seq<char>),
    rb: Seq<char>,
)
    requires
        closed(a.1),
        closed(b.1),
        ra.len() == 0 || ra[0] == ',',
        rb.len() == 0 || rb[0] == ',',
        member(a.0, a.1) + ra == member(b.0, b.1) + rb,
    ensures
        a == b,
        ra == rb,
{
    let ta = seq![':'] + (a.1 + ra);
    let tb = seq![':'] + (b.1 + rb);
    lemma_quoted_closed(a.0);
    lemma_quoted_closed(b.0);
    assert(quoted(a.0) + ta =~= member(a.0, a.1) + ra);
    assert(quoted(b.0) + tb =~= member(b.0, b.1) + rb);
    lemma_closed_ends(quoted(a.0), ta, quoted(b.0), tb);
    law_quoted_is_injective(a.0, b.0);
    assert(a.1 + ra =~= ta.skip(1));
    assert(b.1 + rb =~= tb.skip(1));
    lemma_closed_ends(a.1, ra, b.1, rb);
}

proof fn lemma_rest_closed(list: Seq<(Seq<char>, Seq<char>)>)
    requires
        closed_values(list),
        list.len() > 0,
    ensures
        closed(list[0].1),
        closed_values(list.drop_first()),
{
    let rest = list.drop_first();
    assert forall|i: int| 0 <= i < rest.len() implies closed((#[trigger] rest[i]).1) by {
        assert(rest[i] == list[i + 1]);
    }
}

/// Only where there are no members there is no text.
proof fn lemma_members_len(list: Seq<(Seq<char>, Seq<char>)>)
    ensures
        list.len() == 0 <==> members(list).len() == 0,
{
    if list.len() > 0 {
        assert(member(list.last().0, list.last().1).len() > 0);
        assert(list.len() == 1 ==> list[0] == list.last());
    }
}

proof fn lemma_members_injective(
    a: Seq<(Seq<char>, Seq<char>)>,
    b: Seq<(Seq<char>, Seq<char>)>,
)
    requires
        closed_values(a),
        closed_values(b),
        members(a) == members(b),
    ensures
        a == b,
    decreases a.len(),
{
    if a.len() > 0 {
        lemma_members_front(a);
        lemma_rest_closed(a);
    }
    if b.len() > 0 {
        lemma_members_front(b);
        lemma_rest_closed(b);
    }
    if a.len() > 0 && b.len() > 0 {
        let fa = a.drop_first();
        let fb = b.drop_first();
        let ra = members_after(fa);
        let rb = members_after(fb);
        lemma_first_member(a[0], ra, b[0], rb);
        if fa.len() > 0 {
            assert(members(fa) =~= ra.skip(1));
        }
        if fb.len() > 0 {
            assert(members(fb) =~= rb.skip(1));
        }
        lemma_members_injective(fa, fb);
        assert(a =~= seq![a[0]] + fa);
        assert(b =~= seq![b[0]] + fb);
    } else {
        lemma_members_len(a);
        lemma_members_len(b);
        assert(a =~= b);
    }
}

/// An object of closed values can be taken apart in one way only.
pub proof fn law_object_is_injective(
    a: Seq<(Seq<char>, Seq<char>)>,
    b: Seq<(Seq<char>, Seq<char>)>,
)
    requires
        closed_values(a),
        closed_values(b),
        object(a) == object(b),
    ensures
        a == b,
{
    assert(members(a) =~= object(a).subrange(1, object(a).len() - 1));
    assert(members(b) =~= object(b).subrange(1, object(b).len() - 1));
    lemma_members_injective(a, b);
}

/// An array of closed elements is closed.
proof fn lemma_array_closed(list: Seq<Seq<char>>)
    requires
        forall|i: int| 0 <= i < list.len() ==> closed(#[trigger] list[i]),
    ensures
        closed(array(list)),
{
    lemma_elements_balanced(list);
    lemma_bracketed('[', elements(list), ']');
}

proof fn lemma_elements_balanced(list: Seq<Seq<char>>)
    requires
        forall|i: int| 0 <= i < list.len() ==> closed(#[trigger] list[i]),
    ensures
        balanced(elements(list)),
    decreases list.len(),
{
    if list.len() == 0 {
        lemma_plain_closed(elements(list));
        lemma_closed_is_balanced(elements(list));
    } else {
        let front = list.drop_last();
        assert(closed(list[list.len() - 1]));
        lemma_closed_is_balanced(list.last());
        if list.len() > 1 {
            assert forall|i: int| 0 <= i < front.len() implies closed(#[trigger] front[i]) by {
                assert(front[i] == list[i]);
            }
            lemma_elements_balanced(front);
            lemma_balanced_char(',');
            lemma_balanced_concat(elements(front), seq![',']);
            assert(elements(front) + seq![','] =~= elements(front).push(','));
            lemma_balanced_concat(elements(front).push(','), list.last());
        }
    }
}

/// The text of a JSON value is closed.
pub proof fn lemma_text_closed(text: Seq<char>, value: Json)
    requires
        is_text_of(text, value),
    ensures
        closed(text),
    decreases value,
{
    match value {
        Json::Null => {
            reveal_strlit("null");
            lemma_plain_closed(text);
        },
        Json::Bool(_) => {
            reveal_strlit("true");
            reveal_strlit("false");
            lemma_plain_closed(text);
        },
        Json::Number(_) => {
            lemma_plain_closed(text);
        },
        Json::Text(s) => {
            lemma_quoted_closed(s);
        },
        Json::Array(items) => {
            let list = choose|list: Seq<Seq<char>>| #[trigger]
                array(list) == text && list.len() == items.len() && forall|i: int|
                    0 <= i < items.len() ==> is_text_of(#[trigger] list[i], items[i]);
            assert forall|i: int| 0 <= i < list.len() implies closed(#[trigger] list[i]) by {
                lemma_text_closed(list[i], items[i]);
            }
            lemma_array_closed(list);
        },
        Json::Object(items) => {
            let list = choose|list: Seq<(Seq<char>, Seq<char>)>| #[trigger]
                object(list) == text && list.len() == items.len() && forall|i: int|
                    0 <= i < items.len() ==> (#[trigger] list[i]).0 == items[i].0 && is_text_of(
                        list[i].1,
                        items[i].1,
                    );
            assert forall|i: int| 0 <= i < list.len() implies closed((#[trigger] list[i]).1) by {
                lemma_text_closed(list[i].1, items[i].1);
            }
            lemma_object_closed(list);
        },
    }
}

/// Decimal digits, with or without a sign, and what stands for no number are
/// closed.
pub proof fn lemma_number_closed(n: int)
    ensures
        closed(text::signed_decimal(n)),
        closed("null"@),
{
    text::lemma_decimal_digits(if n < 0 {
        (-n) as nat
    } else {
        n as nat
    });
    lemma_plain_closed(text::signed_decimal(n));
    reveal_strlit("null");
    lemma_plain_closed("null"@);
}

} // verus!
