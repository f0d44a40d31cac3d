//! Text as sequences of characters.
//!
//! Object keys, names and prefixes are strings. Everything the library says of
//! a string it says of its characters, `Seq<char>`, and this module holds the
//! operations on them that the rest is built from: splitting at a separator
//! and joining again, trimming, searching, ordering and writing numbers.

use vstd::prelude::*;
use vstd::string::*;
use vstd::utf8::*;

verus! {

/// The characters of each string of a list.
pub open spec fn views(list: Seq<String>) -> Seq<Seq<char>> {
    list.map_values(|s: String| s@)
}

/// `String::push` appends the one character.
pub assume_specification[ String::push ](s: &mut String, c: char)
    ensures
        final(s)@ == old(s)@.push(c),
;

/// `String::from_utf8` succeeds exactly on well-formed UTF-8, and the string it
/// returns has the given bytes as its encoding.
#[verifier::external_body]
pub(crate) fn string_from_utf8(bytes: Vec<u8>) -> (r: Option<String>)
    ensures
        r is Some <==> valid_utf8(bytes@),
        r matches Some(s) ==> encode_utf8(s@) == bytes@,
{
    String::from_utf8(bytes).ok()
}

/// The lower-case form that Unicode gives to a string.
pub uninterp spec fn lowercase(s: Seq<char>) -> Seq<char>;

/// `str::to_lowercase` is a function of the string's characters.
#[verifier::external_body]
pub(crate) fn to_lowercase(s: &str) -> (r: String)
    ensures
        r@ == lowercase(s@),
{
    s.to_lowercase()
}

/// The characters of a string, in order.
pub(crate) fn chars_of(s: &str) -> (r: Vec<char>)
    ensures
        r@ == s@,
{
    let mut out: Vec<char> = Vec::new();
    for c in it: s.chars()
        invariant
            it.seq() == s@,
            out@ == it.seq().take(it.index() as int),
    {
        out.push(c);
    }
    assert(out@ =~= s@);
    out
}

/// The string with the given characters from `from` up to `to`.
pub(crate) fn string_of(chars: &Vec<char>, from: usize, to: usize) -> (r: String)
    requires
        from <= to <= chars@.len(),
    ensures
        r@ == chars@.subrange(from as int, to as int),
{
    let mut out = String::new();
    let mut i: usize = from;
    while i < to
        invariant
            from <= i <= to <= chars@.len(),
            out@ == chars@.subrange(from as int, i as int),
        decreases to - i,
    {
        out.push(chars[i]);
        i += 1;
    }
    out
}

/// Whether two strings have the same characters.
pub(crate) fn same(a: &str, b: &str) -> (r: bool)
    ensures
        r == (a@ == b@),
{
    let x = a.as_bytes();
    let y = b.as_bytes();
    proof {
        encode_utf8_decode_utf8(a@);
        encode_utf8_decode_utf8(b@);
    }
    if x.len() != y.len() {
        return false;
    }
    let mut i: usize = 0;
    while i < x.len()
        invariant
            i <= x@.len(),
            x@.len() == y@.len(),
            x@ == encode_utf8(a@),
            y@ == encode_utf8(b@),
            forall|j: int| 0 <= j < i ==> x@[j] == y@[j],
        decreases x@.len() - i,
    {
        if x[i] != y[i] {
            return false;
        }
        i += 1;
    }
    assert(x@ =~= y@);
    true
}

/// The pieces of `s` between the occurrences of `sep`, as `str::split` gives
/// them: always at least one, and an empty one wherever two separators meet or
/// one stands at an end.
pub open spec fn split_on(s: Seq<char>, sep: char) -> Seq<Seq<char>>
    decreases s.len(),
{
    if s.len() == 0 {
        seq![Seq::<char>::empty()]
    } else {
        let front = split_on(s.drop_last(), sep);
        if s.last() == sep {
            front.push(Seq::empty())
        } else {
            front.update(front.len() - 1, front.last().push(s.last()))
        }
    }
}

/// The pieces written one after the other with `sep` between them.
pub open spec fn join_with(parts: Seq<Seq<char>>, sep: char) -> Seq<char>
    decreases parts.len(),
{
    if parts.len() == 0 {
        Seq::empty()
    } else if parts.len() == 1 {
        parts[0]
    } else {
        join_with(parts.drop_last(), sep).push(sep) + parts.last()
    }
}

pub proof fn lemma_split_nonempty(s: Seq<char>, sep: char)
    ensures
        split_on(s, sep).len() > 0,
    decreases s.len(),
{
    if s.len() > 0 {
        lemma_split_nonempty(s.drop_last(), sep);
    }
}

/// No piece of a split holds the separator.
pub proof fn lemma_split_pieces(s: Seq<char>, sep: char)
    ensures
        forall|i: int, j: int|
            0 <= i < split_on(s, sep).len() && 0 <= j < split_on(s, sep)[i].len()
                ==> #[trigger] split_on(s, sep)[i][j] != sep,
    decreases s.len(),
{
    if s.len() > 0 {
        lemma_split_nonempty(s.drop_last(), sep);
        lemma_split_pieces(s.drop_last(), sep);
    }
}

/// Joining the pieces of a split gives the text back.
pub proof fn lemma_join_of_split(s: Seq<char>, sep: char)
    ensures
        join_with(split_on(s, sep), sep) == s,
    decreases s.len(),
{
    if s.len() > 0 {
        let t = s.drop_last();
        let front = split_on(t, sep);
        lemma_split_nonempty(t, sep);
        lemma_join_of_split(t, sep);
        if s.last() == sep {
            let all = front.push(Seq::empty());
            assert(all.drop_last() =~= front);
            assert(join_with(all, sep) =~= t.push(sep));
        } else {
            let last = front.last().push(s.last());
            let all = front.update(front.len() - 1, last);
            assert(all.drop_last() =~= front.drop_last());
            if front.len() > 1 {
                assert(join_with(front, sep) == join_with(front.drop_last(), sep).push(sep)
                    + front.last());
                assert(join_with(all, sep) =~= join_with(front, sep).push(s.last()));
            }
        }
        assert(s =~= t.push(s.last()));
    }
}

/// Splitting `a`, a separator and `b` gives the pieces of `a`, then those of `b`.
pub proof fn lemma_split_at_separator(a: Seq<char>, b: Seq<char>, sep: char)
    ensures
        split_on(a.push(sep) + b, sep) == split_on(a, sep) + split_on(b, sep),
    decreases b.len(),
{
    let whole = a.push(sep) + b;
    if b.len() == 0 {
        assert(whole =~= a.push(sep));
        assert(whole.drop_last() =~= a);
        assert(split_on(whole, sep) =~= split_on(a, sep) + split_on(b, sep));
    } else {
        let t = b.drop_last();
        lemma_split_at_separator(a, t, sep);
        lemma_split_nonempty(t, sep);
        assert(whole.drop_last() =~= a.push(sep) + t);
        assert(whole.last() == b.last());
        assert(split_on(whole, sep) =~= split_on(a, sep) + split_on(b, sep));
    }
}

/// Text without the separator is its own only piece.
pub proof fn lemma_split_without(s: Seq<char>, sep: char)
    requires
        !s.contains(sep),
    ensures
        split_on(s, sep) == seq![s],
    decreases s.len(),
{
    if s.len() > 0 {
        let t = s.drop_last();
        assert forall|i: int| 0 <= i < t.len() implies t[i] != sep by {
            assert(t[i] == s[i]);
        }
        lemma_split_without(t, sep);
        assert(s.last() != sep);
        assert(t.push(s.last()) =~= s);
        assert(seq![t].update(0, s) =~= seq![s]);
    } else {
        assert(s =~= Seq::empty());
    }
}

/// Splitting what was joined from pieces without the separator gives them back.
pub proof fn lemma_split_of_join(parts: Seq<Seq<char>>, sep: char)
    requires
        parts.len() > 0,
        forall|i: int| 0 <= i < parts.len() ==> !(#[trigger] parts[i]).contains(sep),
    ensures
        split_on(join_with(parts, sep), sep) == parts,
    decreases parts.len(),
{
    if parts.len() == 1 {
        lemma_split_without(parts[0], sep);
        assert(parts =~= seq![parts[0]]);
    } else {
        let front = parts.drop_last();
        assert forall|i: int| 0 <= i < front.len() implies !(#[trigger] front[i]).contains(sep) by {
            assert(front[i] == parts[i]);
        }
        lemma_split_of_join(front, sep);
        lemma_split_at_separator(join_with(front, sep), parts.last(), sep);
        lemma_split_without(parts.last(), sep);
        assert(parts =~= front + seq![parts.last()]);
    }
}

/// The pieces of a string between the occurrences of a separator.
pub(crate) fn split(s: &str, sep: char) -> (r: Vec<String>)
    ensures
        views(r@) == split_on(s@, sep),
        r@.len() > 0,
{
    let mut out: Vec<String> = Vec::new();
    let mut cur = String::new();
    let chars = chars_of(s);
    let mut i: usize = 0;
    assert(split_on(s@.take(0), sep) =~= views(out@).push(cur@));
    while i < chars.len()
        invariant
            chars@ == s@,
            i <= chars@.len(),
            split_on(s@.take(i as int), sep) == views(out@).push(cur@),
        decreases chars@.len() - i,
    {
        let c = chars[i];
        let ghost t = s@.take(i as int + 1);
        assert(t.drop_last() =~= s@.take(i as int));
        assert(t.last() == c);
        let ghost before = views(out@).push(cur@);
        if c == sep {
            out.push(cur);
            assert(views(out@) =~= before);
            cur = String::new();
        } else {
            cur.push(c);
            assert(views(out@).push(cur@) =~= before.update(before.len() - 1, cur@));
        }
        i += 1;
    }
    assert(s@.take(i as int) =~= s@);
    let ghost before = views(out@).push(cur@);
    out.push(cur);
    assert(views(out@) =~= before);
    out
}

/// The strings written one after the other with `sep` between them.
pub(crate) fn join(parts: &Vec<String>, sep: char) -> (r: String)
    ensures
        r@ == join_with(views(parts@), sep),
{
    let mut out = String::new();
    let mut i: usize = 0;
    while i < parts.len()
        invariant
            i <= parts@.len(),
            out@ == join_with(views(parts@).take(i as int), sep),
        decreases parts@.len() - i,
    {
        let ghost t = views(parts@).take(i as int + 1);
        assert(t.drop_last() =~= views(parts@).take(i as int));
        if i > 0 {
            out.push(sep);
        }
        out.append(parts[i].as_str());
        assert(out@ =~= join_with(t, sep));
        i += 1;
    }
    assert(views(parts@).take(i as int) =~= views(parts@));
    out
}

/// Whether Unicode gives the character the property White_Space.
pub open spec fn is_space(c: char) -> bool {
    let u = c as u32;
    ||| 0x09 <= u <= 0x0d
    ||| u == 0x20
    ||| u == 0x85
    ||| u == 0xa0
    ||| u == 0x1680
    ||| 0x2000 <= u <= 0x200a
    ||| u == 0x2028
    ||| u == 0x2029
    ||| u == 0x202f
    ||| u == 0x205f
    ||| u == 0x3000
}

/// `s` without the longest run of matching characters at its end.
pub open spec fn trim_end_where(s: Seq<char>, drop: spec_fn(char) -> bool) -> Seq<char>
    decreases s.len(),
{
    if s.len() > 0 && drop(s.last()) {
        trim_end_where(s.drop_last(), drop)
    } else {
        s
    }
}

/// `s` without the longest run of matching characters at its start.
pub open spec fn trim_start_where(s: Seq<char>, drop: spec_fn(char) -> bool) -> Seq<char>
    decreases s.len(),
{
    if s.len() > 0 && drop(s[0]) {
        trim_start_where(s.drop_first(), drop)
    } else {
        s
    }
}

/// The test for one character.
pub open spec fn is_char(c: char) -> spec_fn(char) -> bool {
    |x: char| x == c
}

/// The test for white space.
pub open spec fn is_blank() -> spec_fn(char) -> bool {
    |x: char| is_space(x)
}

/// `s` without the trailing occurrences of `c`.
pub open spec fn trim_end_char(s: Seq<char>, c: char) -> Seq<char> {
    trim_end_where(s, is_char(c))
}

/// `s` without the leading and trailing occurrences of `c`.
pub open spec fn trim_char(s: Seq<char>, c: char) -> Seq<char> {
    trim_end_where(trim_start_where(s, is_char(c)), is_char(c))
}

/// `s` without leading and trailing white space.
pub open spec fn trim_space(s: Seq<char>) -> Seq<char> {
    trim_end_where(trim_start_where(s, is_blank()), is_blank())
}

/// Trimming at the end leaves a prefix that no matching character closes.
pub proof fn lemma_trim_end(s: Seq<char>, drop: spec_fn(char) -> bool)
    ensures
        trim_end_where(s, drop).is_prefix_of(s),
        trim_end_where(s, drop).len() > 0 ==> !drop(trim_end_where(s, drop).last()),
    decreases s.len(),
{
    if s.len() > 0 && drop(s.last()) {
        lemma_trim_end(s.drop_last(), drop);
    }
}

/// Whether a character is white space.
pub(crate) fn is_white_space(c: char) -> (r: bool)
    ensures
        r == is_space(c),
{
    let u = c as u32;
    (0x09 <= u && u <= 0x0d) || u == 0x20 || u == 0x85 || u == 0xa0 || u == 0x1680 || (0x2000 <= u
        && u <= 0x200a) || u == 0x2028 || u == 0x2029 || u == 0x202f || u == 0x205f || u == 0x3000
}

/// `str::trim_end_matches` for one character.
pub(crate) fn trim_end(s: &str, c: char) -> (r: String)
    ensures
        r@ == trim_end_char(s@, c),
{
    let chars = chars_of(s);
    let ghost drop = is_char(c);
    let mut end: usize = chars.len();
    assert(s@.take(end as int) =~= s@);
    while end > 0 && chars[end - 1] == c
        invariant
            chars@ == s@,
            end <= chars@.len(),
            drop == is_char(c),
            trim_end_where(s@, drop) == trim_end_where(s@.take(end as int), drop),
        decreases end,
    {
        assert(s@.take(end as int).drop_last() =~= s@.take(end as int - 1));
        end -= 1;
    }
    let r = string_of(&chars, 0, end);
    assert(r@ =~= s@.take(end as int));
    r
}

/// `str::trim_matches` for one character.
pub(crate) fn trim_both(s: &str, c: char) -> (r: String)
    ensures
        r@ == trim_char(s@, c),
{
    let chars = chars_of(s);
    let ghost drop = is_char(c);
    let mut start: usize = 0;
    assert(s@.skip(0) =~= s@);
    while start < chars.len() && chars[start] == c
        invariant
            chars@ == s@,
            start <= chars@.len(),
            drop == is_char(c),
            trim_start_where(s@, drop) == trim_start_where(s@.skip(start as int), drop),
        decreases chars@.len() - start,
    {
        assert(s@.skip(start as int).drop_first() =~= s@.skip(start as int + 1));
        start += 1;
    }
    let ghost t = s@.skip(start as int);
    assert(trim_start_where(s@, drop) == t);
    let mut end: usize = chars.len();
    assert(t.take(end - start) =~= t);
    while end > start && chars[end - 1] == c
        invariant
            chars@ == s@,
            start <= end <= chars@.len(),
            t == s@.skip(start as int),
            drop == is_char(c),
            trim_end_where(t, drop) == trim_end_where(t.take(end - start), drop),
        decreases end,
    {
        assert(t.take(end - start).drop_last() =~= t.take(end - start - 1));
        end -= 1;
    }
    let r = string_of(&chars, start, end);
    assert(r@ =~= t.take(end - start));
    r
}

/// `str::trim`.
pub(crate) fn trim(s: &str) -> (r: String)
    ensures
        r@ == trim_space(s@),
{
    let chars = chars_of(s);
    let ghost drop = is_blank();
    let mut start: usize = 0;
    assert(s@.skip(0) =~= s@);
    while start < chars.len() && is_white_space(chars[start])
        invariant
            chars@ == s@,
            start <= chars@.len(),
            drop == is_blank(),
            trim_start_where(s@, drop) == trim_start_where(s@.skip(start as int), drop),
        decreases chars@.len() - start,
    {
        assert(s@.skip(start as int).drop_first() =~= s@.skip(start as int + 1));
        start += 1;
    }
    let ghost t = s@.skip(start as int);
    assert(trim_start_where(s@, drop) == t);
    let mut end: usize = chars.len();
    assert(t.take(end - start) =~= t);
    while end > start && is_white_space(chars[end - 1])
        invariant
            chars@ == s@,
            start <= end <= chars@.len(),
            t == s@.skip(start as int),
            drop == is_blank(),
            trim_end_where(t, drop) == trim_end_where(t.take(end - start), drop),
        decreases end,
    {
        assert(t.take(end - start).drop_last() =~= t.take(end - start - 1));
        end -= 1;
    }
    let r = string_of(&chars, start, end);
    assert(r@ =~= t.take(end - start));
    r
}

/// The position of the last `c` in `s`, or -1.
pub open spec fn last_at(s: Seq<char>, c: char) -> int
    decreases s.len(),
{
    if s.len() == 0 {
        -1
    } else if s.last() == c {
        s.len() - 1
    } else {
        last_at(s.drop_last(), c)
    }
}

/// `last_at` is the greatest position at which `c` stands.
pub proof fn lemma_last_at(s: Seq<char>, c: char)
    ensures
        -1 <= last_at(s, c) < s.len(),
        last_at(s, c) >= 0 ==> s[last_at(s, c)] == c,
        forall|i: int| last_at(s, c) < i < s.len() ==> s[i] != c,
        last_at(s, c) >= 0 <==> s.contains(c),
    decreases s.len(),
{
    if s.len() > 0 && s.last() != c {
        lemma_last_at(s.drop_last(), c);
        assert forall|i: int| last_at(s, c) < i < s.len() implies s[i] != c by {
            if i < s.len() - 1 {
                assert(s.drop_last()[i] == s[i]);
            }
        }
        if s.contains(c) {
            let i = choose|i: int| 0 <= i < s.len() && s[i] == c;
            assert(s.drop_last()[i] == c);
        }
    }
}

/// A position is `last_at` if `c` stands there and nowhere after it.
pub proof fn lemma_last_at_unique(s: Seq<char>, c: char, k: int)
    requires
        -1 <= k < s.len(),
        k >= 0 ==> s[k] == c,
        forall|i: int| k < i < s.len() ==> s[i] != c,
    ensures
        last_at(s, c) == k,
{
    lemma_last_at(s, c);
}

/// The position of the last `c` among the first `end` characters.
pub(crate) fn rfind(chars: &Vec<char>, end: usize, c: char) -> (r: Option<usize>)
    requires
        end <= chars@.len(),
    ensures
        match r {
            Some(k) => last_at(chars@.take(end as int), c) == k && k < end,
            None => last_at(chars@.take(end as int), c) == -1,
        },
{
    let mut i: usize = end;
    while i > 0
        invariant
            i <= end <= chars@.len(),
            last_at(chars@.take(end as int), c) == last_at(chars@.take(i as int), c),
        decreases i,
    {
        assert(chars@.take(i as int).drop_last() =~= chars@.take(i as int - 1));
        if chars[i - 1] == c {
            return Some(i - 1);
        }
        i -= 1;
    }
    None
}

/// Whether the character occurs in the string.
pub(crate) fn contains_char(s: &str, c: char) -> (r: bool)
    ensures
        r == s@.contains(c),
{
    let chars = chars_of(s);
    let mut i: usize = 0;
    while i < chars.len()
        invariant
            chars@ == s@,
            i <= chars@.len(),
            forall|j: int| 0 <= j < i ==> s@[j] != c,
        decreases chars@.len() - i,
    {
        if chars[i] == c {
            assert(s@[i as int] == c);
            return true;
        }
        i += 1;
    }
    false
}

/// Whether `part` stands in `chars` at position `at`.
pub(crate) fn stands_at(chars: &Vec<char>, part: &Vec<char>, at: usize) -> (r: bool)
    requires
        at + part@.len() <= chars@.len(),
    ensures
        r == (chars@.subrange(at as int, at + part@.len()) == part@),
{
    let mut i: usize = 0;
    while i < part.len()
        invariant
            at + part.len() <= chars.len(),
            i <= part@.len(),
            forall|j: int| 0 <= j < i ==> chars@[at + j] == part@[j],
        decreases part@.len() - i,
    {
        if chars[at + i] != part[i] {
            assert(chars@.subrange(at as int, at + part@.len())[i as int] != part@[i as int]);
            return false;
        }
        i += 1;
    }
    assert(chars@.subrange(at as int, at + part@.len()) =~= part@);
    true
}

/// Whether `part` occurs in `s`.
pub open spec fn holds_text(s: Seq<char>, part: Seq<char>) -> bool {
    exists|at: int|
        0 <= at <= s.len() - part.len() && #[trigger] s.subrange(at, at + part.len()) == part
}

/// `str::contains` for a string.
pub(crate) fn contains_str(s: &str, part: &str) -> (r: bool)
    ensures
        r == holds_text(s@, part@),
{
    let chars = chars_of(s);
    let want = chars_of(part);
    if want.len() > chars.len() {
        return false;
    }
    let mut at: usize = 0;
    while at <= chars.len() - want.len()
        invariant
            chars@ == s@,
            want@ == part@,
            want@.len() <= chars@.len(),
            at <= chars.len() - want.len() + 1,
            forall|j: int|
                0 <= j < at ==> #[trigger] s@.subrange(j, j + part@.len()) != part@,
        decreases chars@.len() - want@.len() + 1 - at,
    {
        if stands_at(&chars, &want, at) {
            return true;
        }
        if at == chars.len() {
            return false;
        }
        at += 1;
    }
    false
}

/// `str::starts_with` for a string.
pub(crate) fn starts_with(s: &str, part: &str) -> (r: bool)
    ensures
        r == part@.is_prefix_of(s@),
{
    let chars = chars_of(s);
    let want = chars_of(part);
    want.len() <= chars.len() && stands_at(&chars, &want, 0)
}

/// `str::strip_prefix` for a string.
pub(crate) fn strip_prefix(s: &str, part: &str) -> (r: Option<String>)
    ensures
        r is Some <==> part@.is_prefix_of(s@),
        r matches Some(rest) ==> rest@ == s@.skip(part@.len() as int),
{
    let chars = chars_of(s);
    let want = chars_of(part);
    if want.len() <= chars.len() && stands_at(&chars, &want, 0) {
        let rest = string_of(&chars, want.len(), chars.len());
        assert(rest@ =~= s@.skip(part@.len() as int));
        Some(rest)
    } else {
        None
    }
}

/// `str::ends_with` for one character.
pub(crate) fn ends_with(s: &str, c: char) -> (r: bool)
    ensures
        r == (s@.len() > 0 && s@.last() == c),
{
    let chars = chars_of(s);
    chars.len() > 0 && chars[chars.len() - 1] == c
}

/// `str::ends_with` for a string.
pub(crate) fn ends_with_str(s: &str, part: &str) -> (r: bool)
    ensures
        r == part@.is_suffix_of(s@),
{
    let chars = chars_of(s);
    let want = chars_of(part);
    if want.len() > chars.len() {
        return false;
    }
    let at: usize = chars.len() - want.len();
    assert(s@.subrange(at as int, at + part@.len()) =~= s@.subrange(at as int, s@.len() as int));
    stands_at(&chars, &want, at)
}

/// The first string followed by the second.
pub(crate) fn concat(a: &str, b: &str) -> (r: String)
    ensures
        r@ == a@ + b@,
{
    let mut out = a.to_owned();
    out.append(b);
    out
}

/// Whether `a` comes before `b` in the order of strings: character by
/// character, a proper prefix before what it starts.
pub open spec fn before(a: Seq<char>, b: Seq<char>) -> bool
    decreases b.len(),
{
    b.len() > 0 && (a.len() == 0 || a[0] < b[0] || (a[0] == b[0] && before(
        a.drop_first(),
        b.drop_first(),
    )))
}

/// The order of strings is strict.
pub proof fn lemma_before_irreflexive(a: Seq<char>)
    ensures
        !before(a, a),
    decreases a.len(),
{
    if a.len() > 0 {
        lemma_before_irreflexive(a.drop_first());
    }
}

/// The order of strings is transitive.
pub proof fn lemma_before_transitive(a: Seq<char>, b: Seq<char>, c: Seq<char>)
    requires
        before(a, b),
        before(b, c),
    ensures
        before(a, c),
    decreases b.len(),
{
    if a.len() > 0 && a[0] == b[0] && b[0] == c[0] {
        lemma_before_transitive(a.drop_first(), b.drop_first(), c.drop_first());
    }
}

/// Of two different strings one comes first.
pub proof fn lemma_before_total(a: Seq<char>, b: Seq<char>)
    ensures
        a == b || before(a, b) || before(b, a),
    decreases a.len(),
{
    if a.len() == 0 || b.len() == 0 {
        if a.len() == b.len() {
            assert(a =~= b);
        }
    } else {
        lemma_before_total(a.drop_first(), b.drop_first());
        if a[0] == b[0] && a.drop_first() == b.drop_first() {
            assert(a =~= seq![a[0]] + a.drop_first());
            assert(b =~= seq![b[0]] + b.drop_first());
        }
    }
}

/// The first character in which two strings differ decides which comes first, and
/// where there is none the shorter one does.
pub proof fn law_first_difference_decides(
    same: Seq<char>,
    a: char,
    x: Seq<char>,
    b: char,
    y: Seq<char>,
)
    requires
        a < b,
    ensures
        before(same.push(a) + x, same.push(b) + y),
        !before(same.push(b) + y, same.push(a) + x),
        before(same, same.push(a) + x),
        !before(same.push(a) + x, same),
    decreases same.len(),
{
    let p = same.push(a) + x;
    let q = same.push(b) + y;
    if same.len() > 0 {
        let t = same.drop_first();
        law_first_difference_decides(t, a, x, b, y);
        assert(p.drop_first() =~= t.push(a) + x);
        assert(q.drop_first() =~= t.push(b) + y);
        assert(p[0] == same[0] && q[0] == same[0]);
    } else {
        assert(p[0] == a && q[0] == b);
    }
}

/// Whether the first string comes before the second.
pub(crate) fn comes_before(a: &str, b: &str) -> (r: bool)
    ensures
        r == before(a@, b@),
{
    let x = chars_of(a);
    let y = chars_of(b);
    let mut i: usize = 0;
    assert(a@.skip(0) =~= a@);
    assert(b@.skip(0) =~= b@);
    while i < x.len() && i < y.len()
        invariant
            x@ == a@,
            y@ == b@,
            i <= x@.len(),
            i <= y@.len(),
            before(a@, b@) == before(a@.skip(i as int), b@.skip(i as int)),
        decreases x@.len() - i,
    {
        let ghost p = a@.skip(i as int);
        let ghost q = b@.skip(i as int);
        let c = x[i];
        let d = y[i];
        assert(p[0] == c && q[0] == d);
        if c < d {
            return true;
        }
        if c != d {
            return false;
        }
        assert(p.drop_first() =~= a@.skip(i as int + 1));
        assert(q.drop_first() =~= b@.skip(i as int + 1));
        i += 1;
    }
    i < y.len()
}

/// The digit that stands for `d`.
pub open spec fn digit(d: nat) -> char {
    (0x30 + d) as char
}

/// `n` in decimal digits.
pub open spec fn decimal(n: nat) -> Seq<char>
    decreases n,
{
    if n < 10 {
        seq![digit(n)]
    } else {
        decimal(n / 10).push(digit(n % 10))
    }
}

/// A number in decimal digits.
pub(crate) fn decimal_of(n: u64) -> (r: String)
    ensures
        r@ == decimal(n as nat),
    decreases n,
{
    let mut out = String::new();
    if n >= 10 {
        out = decimal_of(n / 10);
    }
    let d: u8 = (n % 10) as u8;
    out.push((0x30 + d) as char);
    assert(out@ =~= decimal(n as nat));
    out
}

/// `n` in decimal digits, with a minus sign where it is negative.
pub open spec fn signed_decimal(n: int) -> Seq<char> {
    if n < 0 {
        seq!['-'] + decimal((-n) as nat)
    } else {
        decimal(n as nat)
    }
}

/// A signed number in decimal digits.
pub(crate) fn signed_decimal_of(n: i64) -> (r: String)
    ensures
        r@ == signed_decimal(n as int),
{
    if n < 0 {
        let mut out = String::new();
        out.push('-');
        let m: u64 = if n == i64::MIN {
            0x8000_0000_0000_0000
        } else {
            (-n) as u64
        };
        out.append(decimal_of(m).as_str());
        assert(out@ =~= signed_decimal(n as int));
        out
    } else {
        decimal_of(n as u64)
    }
}

/// The encoding of two texts one after the other is that of the first, then
/// that of the second.
pub proof fn lemma_utf8_concat(a: Seq<char>, b: Seq<char>)
    ensures
        encode_utf8(a + b) == encode_utf8(a) + encode_utf8(b),
    decreases a.len(),
{
    if a.len() == 0 {
        assert(a + b =~= b);
        assert(encode_utf8(a) + encode_utf8(b) =~= encode_utf8(b));
    } else {
        lemma_utf8_concat(a.drop_first(), b);
        assert((a + b).drop_first() =~= a.drop_first() + b);
        assert(encode_utf8(a + b) =~= encode_utf8(a) + encode_utf8(b));
    }
}

/// A number in decimal is one digit or more, and nothing else.
pub proof fn lemma_decimal_digits(n: nat)
    ensures
        decimal(n).len() > 0,
        forall|i: int| 0 <= i < decimal(n).len() ==> '0' <= #[trigger] decimal(n)[i] <= '9',
    decreases n,
{
    if n >= 10 {
        lemma_decimal_digits(n / 10);
    }
}

/// Two numbers are never written alike.
pub proof fn lemma_decimal_injective(m: nat, n: nat)
    requires
        decimal(m) == decimal(n),
    ensures
        m == n,
    decreases m,
{
    if m >= 10 {
        lemma_decimal_digits(m / 10);
    }
    if n >= 10 {
        lemma_decimal_digits(n / 10);
    }
    assert(decimal(m).last() == digit(m % 10));
    assert(decimal(n).last() == digit(n % 10));
    assert(m % 10 == n % 10);
    assert(m < 10 ==> decimal(m).len() == 1);
    assert(n < 10 ==> decimal(n).len() == 1);
    if m >= 10 && n >= 10 {
        assert(decimal(m / 10) =~= decimal(m).drop_last());
        assert(decimal(n / 10) =~= decimal(n).drop_last());
        lemma_decimal_injective(m / 10, n / 10);
    }
}

/// Two numbers are never written alike, nor one with a sign as one without.
pub proof fn lemma_signed_decimal_injective(m: int, n: int)
    requires
        signed_decimal(m) == signed_decimal(n),
    ensures
        m == n,
{
    let a = if m < 0 {
        (-m) as nat
    } else {
        m as nat
    };
    let b = if n < 0 {
        (-n) as nat
    } else {
        n as nat
    };
    lemma_decimal_digits(a);
    lemma_decimal_digits(b);
    assert(signed_decimal(m)[0] == signed_decimal(n)[0]);
    assert(decimal(a)[0] >= '0' && decimal(b)[0] >= '0');
    if m < 0 {
        assert(decimal(a) =~= signed_decimal(m).skip(1));
    }
    if n < 0 {
        assert(decimal(b) =~= signed_decimal(n).skip(1));
    }
    lemma_decimal_injective(a, b);
}

/// A character takes one byte at least, and four at most.
pub proof fn lemma_utf8_len(s: Seq<char>)
    ensures
        s.len() <= encode_utf8(s).len() <= 4 * s.len(),
    decreases s.len(),
{
    if s.len() > 0 {
        lemma_utf8_len(s.drop_first());
    }
}

/// Where every part is at most `k` times as long as another, so is what they are
/// joined to.
pub proof fn lemma_join_len(a: Seq<Seq<char>>, b: Seq<Seq<char>>, sep: char, k: nat)
    requires
        k > 0,
        a.len() == b.len(),
        forall|i: int| 0 <= i < a.len() ==> (#[trigger] a[i]).len() <= k * b[i].len(),
    ensures
        join_with(a, sep).len() <= k * join_with(b, sep).len(),
    decreases a.len(),
{
    if a.len() > 1 {
        let m = join_with(b.drop_last(), sep).len();
        let n = b.last().len();
        lemma_join_len(a.drop_last(), b.drop_last(), sep, k);
        assert(a[a.len() - 1].len() <= k * b[b.len() - 1].len());
        assert(k * (m + 1 + n) == k * m + k + k * n) by (nonlinear_arith);
    } else if a.len() == 1 {
        assert(a[0].len() <= k * b[0].len());
    }
}

/// What is joined holds the characters of the parts and the separator.
pub proof fn lemma_join_chars(parts: Seq<Seq<char>>, sep: char, i: int)
    requires
        0 <= i < join_with(parts, sep).len(),
    ensures
        join_with(parts, sep)[i] == sep || exists|p: int, j: int|
            0 <= p < parts.len() && 0 <= j < parts[p].len() && join_with(parts, sep)[i]
                == #[trigger] parts[p][j],
    decreases parts.len(),
{
    if parts.len() == 1 {
        assert(parts[0][i] == join_with(parts, sep)[i]);
    } else if parts.len() > 1 {
        let front = parts.drop_last();
        let m = join_with(front, sep).len();
        if i < m {
            lemma_join_chars(front, sep, i);
            if join_with(front, sep)[i] != sep {
                let (p, j) = choose|p: int, j: int|
                    0 <= p < front.len() && 0 <= j < front[p].len() && join_with(front, sep)[i]
                        == #[trigger] front[p][j];
                assert(parts[p][j] == front[p][j]);
            }
        } else if i > m {
            assert(parts[parts.len() - 1][i - m - 1] == join_with(parts, sep)[i]);
        }
    }
}

/// No piece of a text takes more bytes than the text.
pub proof fn lemma_utf8_pieces(s: Seq<char>, sep: char)
    ensures
        forall|i: int|
            0 <= i < split_on(s, sep).len() ==> encode_utf8(
                #[trigger] split_on(s, sep)[i],
            ).len() <= encode_utf8(s).len(),
    decreases s.len(),
{
    if s.len() > 0 {
        let t = s.drop_last();
        let one = seq![s.last()];
        let front = split_on(t, sep);
        lemma_split_nonempty(t, sep);
        lemma_utf8_pieces(t, sep);
        assert(s =~= t + one);
        lemma_utf8_concat(t, one);
        assert forall|i: int| 0 <= i < split_on(s, sep).len() implies encode_utf8(
            #[trigger] split_on(s, sep)[i],
        ).len() <= encode_utf8(s).len() by {
            if i < front.len() {
                assert(encode_utf8(front[i]).len() <= encode_utf8(t).len());
            }
            if s.last() != sep && i == front.len() - 1 {
                assert(split_on(s, sep)[i] =~= front[i] + one);
                lemma_utf8_concat(front[i], one);
            }
        }
    } else {
        assert(split_on(s, sep)[0].len() == 0);
    }
}

/// Trimming at the end takes matching characters only, and all of them.
pub proof fn law_trim_end_takes_the_run(s: Seq<char>, drop: spec_fn(char) -> bool)
    ensures
        ({
            let kept = trim_end_where(s, drop);
            &&& kept.len() <= s.len()
            &&& kept == s.take(kept.len() as int)
            &&& forall|i: int| kept.len() <= i < s.len() ==> drop(#[trigger] s[i])
            &&& kept.len() > 0 ==> !drop(s[kept.len() - 1])
        }),
    decreases s.len(),
{
    let kept = trim_end_where(s, drop);
    if s.len() > 0 && drop(s.last()) {
        let t = s.drop_last();
        law_trim_end_takes_the_run(t, drop);
        assert(t.take(kept.len() as int) =~= s.take(kept.len() as int));
        assert forall|i: int| kept.len() <= i < s.len() implies drop(#[trigger] s[i]) by {
            if i < t.len() {
                assert(s[i] == t[i]);
            }
        }
    } else {
        assert(s.take(s.len() as int) =~= s);
    }
}

/// Trimming at the start takes matching characters only, and all of them.
pub proof fn law_trim_start_takes_the_run(s: Seq<char>, drop: spec_fn(char) -> bool)
    ensures
        ({
            let kept = trim_start_where(s, drop);
            let gone = s.len() - kept.len();
            &&& 0 <= gone
            &&& kept == s.skip(gone)
            &&& forall|i: int| 0 <= i < gone ==> drop(#[trigger] s[i])
            &&& kept.len() > 0 ==> !drop(s[gone])
        }),
    decreases s.len(),
{
    let kept = trim_start_where(s, drop);
    let gone = s.len() - kept.len();
    if s.len() > 0 && drop(s[0]) {
        let t = s.drop_first();
        law_trim_start_takes_the_run(t, drop);
        assert(t.skip(gone - 1) =~= s.skip(gone));
        assert forall|i: int| 0 <= i < gone implies drop(#[trigger] s[i]) by {
            if i > 0 {
                assert(s[i] == t[i - 1]);
            }
        }
    } else {
        assert(s.skip(0) =~= s);
    }
}

/// The number that decimal digits stand for.
pub open spec fn value_of(digits: Seq<char>) -> int
    decreases digits.len(),
{
    if digits.len() == 0 {
        0
    } else {
        10 * value_of(digits.drop_last()) + (digits.last() as int - '0' as int)
    }
}

/// A number in decimal digits is read as that number, and does not start with a
/// nought unless it is nought.
pub proof fn law_decimal_is_read_back(n: nat)
    ensures
        value_of(decimal(n)) == n,
        n > 0 ==> decimal(n)[0] != '0',
        decimal(0) == seq!['0'],
        forall|i: int| 0 <= i < decimal(n).len() ==> '0' <= #[trigger] decimal(n)[i] <= '9',
    decreases n,
{
    lemma_decimal_digits(n);
    reveal_with_fuel(value_of, 2);
    if n >= 10 {
        law_decimal_is_read_back(n / 10);
        lemma_decimal_digits(n / 10);
        assert(decimal(n).drop_last() =~= decimal(n / 10));
        assert(decimal(n)[0] == decimal(n / 10)[0]);
    } else {
        assert(decimal(n).drop_last() =~= Seq::<char>::empty());
        assert(value_of(decimal(n).drop_last()) == 0);
    }
}

/// A negative number is written as its opposite with a minus sign before it.
pub proof fn law_minus_sign_negates(n: nat)
    requires
        n > 0,
    ensures
        signed_decimal(-n) == seq!['-'] + signed_decimal(n as int),
        signed_decimal(n as int) == decimal(n),
{
}

} // verus!
