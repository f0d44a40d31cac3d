//! Object stores: listings in pages, copies by source, deletions in batches.

use crate::codec;
use crate::storage::entries;
use crate::storage::entries::{RawObject, RawView};
use crate::storage::tree;
use crate::text;
use vstd::prelude::*;
use vstd::string::*;
use vstd::utf8::*;

verus! {

/// Whether a byte stands for itself in a copy source.
pub open spec fn is_plain(b: u8) -> bool {
    ||| 0x41 <= b <= 0x5a
    ||| 0x61 <= b <= 0x7a
    ||| 0x30 <= b <= 0x39
    ||| b == 0x2d
    ||| b == 0x5f
    ||| b == 0x2e
    ||| b == 0x7e
    ||| b == 0x2f
}

/// One byte of a copy source: itself, or a percent sign and two upper-case
/// hexadecimal digits.
pub open spec fn escaped(b: u8) -> Seq<char> {
    if is_plain(b) {
        seq![b as char]
    } else {
        seq!['%', codec::hex_digit(b as int / 16), codec::hex_digit(b as int % 16)]
    }
}

/// The bytes of a copy source.
pub open spec fn all_escaped(bytes: Seq<u8>) -> Seq<char>
    decreases bytes.len(),
{
    if bytes.len() == 0 {
        Seq::empty()
    } else {
        escaped(bytes[0]) + all_escaped(bytes.drop_first())
    }
}

proof fn lemma_escaped_push(bytes: Seq<u8>, b: u8)
    ensures
        all_escaped(bytes.push(b)) == all_escaped(bytes) + escaped(b),
    decreases bytes.len(),
{
    let after = bytes.push(b);
    if bytes.len() == 0 {
        assert(after.drop_first() =~= Seq::empty());
        assert(after[0] == b);
        assert(all_escaped(after) == escaped(b) + all_escaped(after.drop_first()));
        assert(all_escaped(after.drop_first()).len() == 0);
        assert(all_escaped(after) =~= escaped(b));
        assert(all_escaped(bytes) + escaped(b) =~= escaped(b));
    } else {
        lemma_escaped_push(bytes.drop_first(), b);
        assert(after.drop_first() =~= bytes.drop_first().push(b));
        assert(escaped(bytes[0]) + (all_escaped(bytes.drop_first()) + escaped(b)) =~= (escaped(
            bytes[0],
        ) + all_escaped(bytes.drop_first())) + escaped(b));
    }
}

/// The source of a copy: bucket and key, the key escaped for a URL.
pub fn encode_copy_source(bucket: &str, key: &str) -> (r: String)
    ensures
        r@ == bucket@.push('/') + all_escaped(encode_utf8(key@)),
{
    let mut out = bucket.to_string();
    out.push('/');
    let bytes = key.as_bytes();
    let ghost start = out@;
    let mut i: usize = 0;
    assert(start + all_escaped(bytes@.take(0)) =~= start);
    while i < bytes.len()
        invariant
            i <= bytes@.len(),
            out@ == start + all_escaped(bytes@.take(i as int)),
        decreases bytes@.len() - i,
    {
        let b = bytes[i];
        let ghost before = out@;
        if (0x41 <= b && b <= 0x5a) || (0x61 <= b && b <= 0x7a) || (0x30 <= b && b <= 0x39) || b
            == 0x2d || b == 0x5f || b == 0x2e || b == 0x7e || b == 0x2f {
            out.push(b as char);
        } else {
            out.push('%');
            codec::push_hex(&mut out, b);
        }
        proof {
            assert(out@ =~= before + escaped(b));
            lemma_escaped_push(bytes@.take(i as int), b);
            assert(bytes@.take(i as int).push(b) =~= bytes@.take(i as int + 1));
            assert(start + (all_escaped(bytes@.take(i as int)) + escaped(b)) =~= (start
                + all_escaped(bytes@.take(i as int))) + escaped(b));
        }
        i += 1;
    }
    assert(bytes@.take(i as int) =~= bytes@);
    out
}

proof fn lemma_hex_digit(a: int, b: int)
    requires
        0 <= a < 16,
        0 <= b < 16,
        codec::hex_digit(a) == codec::hex_digit(b),
    ensures
        a == b,
{
}

/// Two keys never have one copy source: what is escaped can be told again.
pub proof fn law_escape_is_injective(a: Seq<u8>, b: Seq<u8>)
    requires
        all_escaped(a) == all_escaped(b),
    ensures
        a == b,
    decreases a.len(),
{
    let ea = all_escaped(a);
    let eb = all_escaped(b);
    if a.len() == 0 {
        if b.len() > 0 {
            assert(escaped(b[0]).len() > 0);
            assert(eb.len() > 0);
        }
        assert(a =~= b);
    } else {
        assert(escaped(a[0]).len() > 0);
        assert(ea.len() > 0);
        assert(b.len() > 0);
        assert(ea[0] == escaped(a[0])[0]);
        assert(eb[0] == escaped(b[0])[0]);
        if !is_plain(a[0]) && !is_plain(b[0]) {
            assert(ea[1] == escaped(a[0])[1] && ea[2] == escaped(a[0])[2]);
            assert(eb[1] == escaped(b[0])[1] && eb[2] == escaped(b[0])[2]);
            lemma_hex_digit(a[0] as int / 16, b[0] as int / 16);
            lemma_hex_digit(a[0] as int % 16, b[0] as int % 16);
        }
        assert(a[0] == b[0]);
        let n = escaped(a[0]).len() as int;
        assert(all_escaped(a.drop_first()) =~= ea.skip(n));
        assert(all_escaped(b.drop_first()) =~= eb.skip(n));
        law_escape_is_injective(a.drop_first(), b.drop_first());
        assert(a =~= seq![a[0]] + a.drop_first());
        assert(b =~= seq![b[0]] + b.drop_first());
    }
}

/// An object as the store lists it.
#[derive(Debug)]
pub struct StoredObject {
    pub key: Option<String>,
    pub size: Option<i64>,
    /// Seconds since the epoch.
    pub modified: Option<i64>,
}

/// A size that the store reports; none counts as zero.
pub open spec fn size_of(size: Option<i64>) -> u64 {
    match size {
        Some(n) => if n < 0 {
            0
        } else {
            n as u64
        },
        None => 0,
    }
}

/// A size that the store reports.
pub fn reported_size(size: Option<i64>) -> (r: u64)
    ensures
        r == size_of(size),
{
    match size {
        Some(n) => if n < 0 {
            0
        } else {
            n as u64
        },
        None => 0,
    }
}

/// The common prefixes of a page.
pub open spec fn prefix_objects(prefixes: Seq<Seq<char>>) -> Seq<RawView> {
    prefixes.map_values(
        |p: Seq<char>| RawView { key: p, size: 0, modified: None, is_prefix: true },
    )
}

/// The objects of a page; the marker of the listed folder itself is none of
/// them.
pub open spec fn page_objects(prefix: Seq<char>, objects: Seq<StoredObject>) -> Seq<RawView>
    decreases objects.len(),
{
    if objects.len() == 0 {
        Seq::empty()
    } else {
        let front = page_objects(prefix, objects.drop_last());
        let o = objects.last();
        match o.key {
            Some(key) => if key@ == prefix {
                front
            } else {
                front.push(
                    RawView {
                        key: key@,
                        size: size_of(o.size),
                        modified: o.modified,
                        is_prefix: false,
                    },
                )
            },
            None => front,
        }
    }
}

/// What one page of a listing holds: common prefixes, then objects.
pub fn listed_page(prefix: &str, prefixes: &Vec<String>, objects: &Vec<StoredObject>) -> (r: Vec<
    RawObject,
>)
    ensures
        entries::raw_views(r@) == prefix_objects(text::views(prefixes@)) + page_objects(
            prefix@,
            objects@,
        ),
{
    let ghost folders = prefix_objects(text::views(prefixes@));
    let mut out: Vec<RawObject> = Vec::new();
    let mut i: usize = 0;
    while i < prefixes.len()
        invariant
            i <= prefixes.len(),
            folders == prefix_objects(text::views(prefixes@)),
            out@.len() == i,
            forall|j: int| 0 <= j < i ==> (#[trigger] out@[j])@ == folders[j],
        decreases prefixes.len() - i,
    {
        out.push(
            RawObject { key: prefixes[i].clone(), size: 0, modified: None, is_prefix: true },
        );
        i += 1;
    }
    assert(entries::raw_views(out@) =~= folders + page_objects(prefix@, objects@.take(0)));
    let mut k: usize = 0;
    while k < objects.len()
        invariant
            k <= objects.len(),
            entries::raw_views(out@) == folders + page_objects(
                prefix@,
                objects@.take(k as int),
            ),
        decreases objects.len() - k,
    {
        let ghost before = entries::raw_views(out@);
        assert(objects@.take(k as int + 1).drop_last() =~= objects@.take(k as int));
        if let Some(key) = &objects[k].key {
            if !text::same(key.as_str(), prefix) {
                let o = RawObject {
                    key: key.clone(),
                    size: reported_size(objects[k].size),
                    modified: objects[k].modified,
                    is_prefix: false,
                };
                let ghost v = o@;
                out.push(o);
                assert(entries::raw_views(out@) =~= before.push(v));
                assert((folders + page_objects(prefix@, objects@.take(k as int))).push(v)
                    =~= folders + page_objects(prefix@, objects@.take(k as int + 1)));
            }
        }
        k += 1;
    }
    assert(objects@.take(k as int) =~= objects@);
    out
}

/// The token of the next page, if there is one.
pub fn next_page(truncated: Option<bool>, token: Option<String>) -> (r: Option<String>)
    ensures
        r == if truncated == Some(true) {
            token
        } else {
            None
        },
{
    match truncated {
        Some(more) => if more {
            token
        } else {
            None
        },
        None => None,
    }
}

/// Batch `i` of the keys to delete.
pub open spec fn batch_of(keys: Seq<Seq<char>>, i: int) -> Seq<Seq<char>> {
    keys.subrange(
        i * 1000,
        if (i + 1) * 1000 <= keys.len() {
            (i + 1) * 1000
        } else {
            keys.len() as int
        },
    )
}

/// The keys to delete, a thousand at a time.
pub fn delete_batches(keys: &Vec<String>) -> (r: Vec<Vec<String>>)
    ensures
        r@.len() == (keys@.len() + 999) / 1000,
        forall|i: int|
            0 <= i < r@.len() ==> text::views((#[trigger] r@[i])@) == batch_of(
                text::views(keys@),
                i,
            ),
{
    let ghost views = text::views(keys@);
    let mut out: Vec<Vec<String>> = Vec::new();
    let mut at: usize = 0;
    while at < keys.len()
        invariant
            at <= keys.len(),
            views == text::views(keys@),
            at < keys@.len() ==> at == out@.len() * 1000,
            at == keys@.len() ==> out@.len() == (keys@.len() + 999) / 1000,
            forall|i: int|
                0 <= i < out@.len() ==> text::views((#[trigger] out@[i])@) == batch_of(views, i),
        decreases keys.len() - at,
    {
        let ghost i = out@.len() as int;
        let end: usize = if keys.len() - at <= 1000 {
            keys.len()
        } else {
            at + 1000
        };
        let mut batch: Vec<String> = Vec::new();
        let mut k: usize = at;
        while k < end
            invariant
                at <= k <= end <= keys.len(),
                views == text::views(keys@),
                text::views(batch@) == views.subrange(at as int, k as int),
            decreases end - k,
        {
            let ghost before = text::views(batch@);
            batch.push(keys[k].clone());
            assert(text::views(batch@) =~= before.push(views[k as int]));
            assert(views.subrange(at as int, k + 1) =~= before.push(views[k as int]));
            k += 1;
        }
        assert(text::views(batch@) =~= batch_of(views, i));
        out.push(batch);
        at = end;
    }
    out
}

/// The first `k` batches, one after the other.
pub open spec fn batched(keys: Seq<Seq<char>>, k: nat) -> Seq<Seq<char>>
    decreases k,
{
    if k == 0 {
        Seq::empty()
    } else {
        batched(keys, (k - 1) as nat) + batch_of(keys, k - 1)
    }
}

/// The batches hold every key, in order, and a thousand at most each.
pub proof fn law_batches_hold_all(keys: Seq<Seq<char>>)
    ensures
        batched(keys, ((keys.len() + 999) / 1000) as nat) == keys,
        forall|i: int|
            0 <= i < (keys.len() + 999) / 1000 ==> 0 < (#[trigger] batch_of(keys, i)).len()
                <= 1000,
{
    let n = ((keys.len() + 999) / 1000) as nat;
    if n > 0 {
        lemma_batched(keys, (n - 1) as nat);
        assert(batched(keys, n) =~= keys);
    } else {
        assert(keys =~= Seq::empty());
    }
}

proof fn lemma_batched(keys: Seq<Seq<char>>, k: nat)
    requires
        k * 1000 <= keys.len(),
    ensures
        batched(keys, k) == keys.take(k as int * 1000),
    decreases k,
{
    if k > 0 {
        lemma_batched(keys, (k - 1) as nat);
        assert(keys.take((k - 1) * 1000) + batch_of(keys, k - 1) =~= keys.take(k as int * 1000));
    } else {
        assert(keys.take(0) =~= Seq::empty());
    }
}

/// The range of a request for all bytes from an offset on.
pub fn range_from(offset: u64) -> (r: String)
    ensures
        r@ == ("bytes="@ + text::decimal(offset as nat)).push('-'),
{
    let digits = text::decimal_of(offset);
    let mut out = text::concat("bytes=", digits.as_str());
    out.push('-');
    out
}

/// The range of a request for the first bytes.
pub fn range_first(len: u64) -> (r: String)
    ensures
        r@ == "bytes=0-"@ + text::decimal(
            if len == 0 {
                0
            } else {
                (len - 1) as nat
            },
        ),
{
    let end: u64 = if len == 0 {
        0
    } else {
        len - 1
    };
    let digits = text::decimal_of(end);
    text::concat("bytes=0-", digits.as_str())
}

/// The whole length of an object of which the part from an offset on was
/// fetched: the reply gives the length of that part.
pub fn total_len(offset: u64, remaining: Option<i64>) -> (r: u64)
    requires
        offset + size_of(remaining) <= u64::MAX,
    ensures
        r == offset + size_of(remaining),
{
    offset + reported_size(remaining)
}

/// A key that is copied to another.
#[derive(Debug)]
pub struct CopyStep {
    pub from: String,
    pub to: String,
}

/// How a folder of an object store is renamed: every object below it is copied,
/// then its marker where there is one, and what was there is deleted.
pub fn rename_copies(from: &str, to: &str, objects: &Vec<RawObject>) -> (r: (Vec<CopyStep>, Vec<String>))
    ensures
        r.0@.len() == objects@.len(),
        forall|i: int|
            0 <= i < objects@.len() ==> (#[trigger] r.0@[i]).from@ == objects@[i].key@
                && r.0@[i].to@ == tree::moved_key(objects@[i].key@, from@, to@),
        r.1@.len() == objects@.len() + 1,
        forall|i: int| 0 <= i < objects@.len() ==> (#[trigger] r.1@[i])@ == objects@[i].key@,
        r.1@.last()@ == from@,
{
    let mut copies: Vec<CopyStep> = Vec::new();
    let mut old_keys: Vec<String> = Vec::new();
    let mut i: usize = 0;
    while i < objects.len()
        invariant
            i <= objects.len(),
            copies@.len() == i,
            old_keys@.len() == i,
            forall|j: int|
                0 <= j < i ==> (#[trigger] copies@[j]).from@ == objects@[j].key@ && copies@[j].to@
                    == tree::moved_key(objects@[j].key@, from@, to@),
            forall|j: int| 0 <= j < i ==> (#[trigger] old_keys@[j])@ == objects@[j].key@,
        decreases objects.len() - i,
    {
        let key = &objects[i].key;
        copies.push(CopyStep { from: key.clone(), to: tree::new_key(key.as_str(), from, to) });
        old_keys.push(key.clone());
        i += 1;
    }
    old_keys.push(from.to_string());
    (copies, old_keys)
}

/// The end of the next piece of a body that is sent at a limited rate.
pub fn piece_end(off: usize, len: usize) -> (r: usize)
    requires
        off < len,
    ensures
        r == if len - off < 0x1_0000 {
            len as int
        } else {
            off + 0x1_0000
        },
        off < r <= len,
{
    if len - off < 0x1_0000 {
        len
    } else {
        off + 0x1_0000
    }
}

/// A page holds its common prefixes as folders and its objects as files, each by its
/// own key, but not the marker of the folder that is listed.
pub proof fn law_page_holds_its_objects(
    prefix: Seq<char>,
    prefixes: Seq<Seq<char>>,
    objects: Seq<StoredObject>,
)
    ensures
        prefix_objects(prefixes).len() == prefixes.len(),
        forall|i: int|
            0 <= i < prefixes.len() ==> {
                let o = #[trigger] prefix_objects(prefixes)[i];
                o.key == prefixes[i] && o.is_prefix && o.size == 0 && o.modified is None
            },
        ({
            let kept = objects.filter(|s: StoredObject| s.key is Some && s.key->0@ != prefix);
            let page = page_objects(prefix, objects);
            &&& page.len() == kept.len()
            &&& forall|i: int|
                0 <= i < kept.len() ==> {
                    let o = #[trigger] page[i];
                    &&& o.key == kept[i].key->0@
                    &&& !o.is_prefix
                    &&& o.modified == kept[i].modified
                    &&& kept[i].size is Some && kept[i].size->0 >= 0 ==> o.size == kept[i].size->0
                    &&& kept[i].size is None || kept[i].size->0 < 0 ==> o.size == 0
                }
        }),
    decreases objects.len(),
{
    reveal(Seq::filter);
    if objects.len() > 0 {
        law_page_holds_its_objects(prefix, prefixes, objects.drop_last());
    }
}

/// A copy source is read back by its percent signs: letters, digits and the five other
/// plain characters stand for themselves, every other byte for its hexadecimal digits.
pub proof fn law_escape_is_read_back(b: u8)
    ensures
        is_plain(b) <==> ('A' as u8 <= b <= 'Z' as u8 || 'a' as u8 <= b <= 'z' as u8 || '0' as u8
            <= b <= '9' as u8 || b == '-' as u8 || b == '_' as u8 || b == '.' as u8 || b
            == '~' as u8 || b == '/' as u8),
        is_plain(b) ==> escaped(b).len() == 1 && escaped(b)[0] as u32 == b,
        !is_plain(b) ==> {
            let e = escaped(b);
            &&& e.len() == 3
            &&& e[0] == '%'
            &&& hex_value(e[1]) * 16 + hex_value(e[2]) == b
            &&& 0 <= hex_value(e[1]) < 16
            &&& 0 <= hex_value(e[2]) < 16
        },
{
}

/// What an upper-case hexadecimal digit stands for.
pub open spec fn hex_value(c: char) -> int {
    if '0' <= c <= '9' {
        c as int - '0' as int
    } else if 'A' <= c <= 'F' {
        c as int - 'A' as int + 10
    } else {
        -1
    }
}

} // verus!
