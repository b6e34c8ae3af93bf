//! Text primitives over Unicode scalar values.
//!
//! Every operation is specified on the `Seq<char>` view of a string, except
//! ordering and lengths, which follow the UTF-8 bytes.

use vstd::prelude::*;
use vstd::string::*;
use vstd::utf8::*;

verus! {

/// `String::push` appends one character.
pub assume_specification[ String::push ](s: &mut String, c: char)
    ensures
        final(s)@ == old(s)@.push(c),
;

/// The characters of a string, in order.
pub fn chars_of(s: &str) -> (r: Vec<char>)
    ensures
        r@ == s@,
{
    let mut out: Vec<char> = Vec::new();
    for c in it: s.chars()
        invariant
            it.seq() == s@,
            out@ == s@.take(it.index() as int),
    {
        out.push(c);
        assert(s@.take(it.index() as int).push(c) =~= s@.take(it.index() + 1));
    }
    assert(s@.take(s@.len() as int) =~= s@);
    out
}

/// The string made of `chars[from..to]`.
pub fn string_of(chars: &[char], from: usize, to: usize) -> (r: String)
    requires
        from <= to <= chars@.len(),
    ensures
        r@ == chars@.subrange(from as int, to as int),
{
    let mut out = String::new();
    let mut i: usize = from;
    while i < to
        invariant
            from <= i <= to <= chars@.len(),
            out@ == chars@.subrange(from as int, i as int),
        decreases to - i,
    {
        out.push(chars[i]);
        assert(chars@.subrange(from as int, i as int).push(chars@[i as int])
            =~= chars@.subrange(from as int, i + 1));
        i = i + 1;
    }
    out
}

/// Two strings with the same UTF-8 bytes hold the same characters.
pub proof fn lemma_bytes_determine_chars(a: Seq<char>, b: Seq<char>)
    ensures
        encode_utf8(a) == encode_utf8(b) <==> a == b,
{
    encode_utf8_decode_utf8(a);
    encode_utf8_decode_utf8(b);
}

/// Whether two strings hold the same text.
pub fn str_eq(a: &str, b: &str) -> (r: bool)
    ensures
        r == (a@ == b@),
{
    proof {
        lemma_bytes_determine_chars(a@, b@);
    }
    let x = a.as_bytes();
    let y = b.as_bytes();
    if x.len() != y.len() {
        return false;
    }
    let mut i: usize = 0;
    while i < x.len()
        invariant
            i <= x@.len(),
            x@.len() == y@.len(),
            forall|k: int| 0 <= k < i ==> x@[k] == y@[k],
            x@ == a.spec_bytes(),
            y@ == b.spec_bytes(),
            encode_utf8(a@) == encode_utf8(b@) <==> a@ == b@,
        decreases x@.len() - i,
    {
        if x[i] != y[i] {
            return false;
        }
        i = i + 1;
    }
    assert(x@ =~= y@);
    true
}

// ---------------------------------------------------------------------------
// Byte ranges
// ---------------------------------------------------------------------------

/// The text in the bytes `start..end` of `s`.
pub open spec fn slice(s: Seq<char>, start: int, end: int) -> Seq<char> {
    decode_utf8(encode_utf8(s).subrange(start, end))
}

/// A byte range of `s` that starts and ends between characters.
pub open spec fn in_text(start: usize, end: usize, s: Seq<char>) -> bool {
    let bytes = encode_utf8(s);
    &&& start <= end <= bytes.len()
    &&& is_char_boundary(bytes, start as int)
    &&& is_char_boundary(bytes, end as int)
}

/// A boundary stays one in the bytes up to a later boundary.
proof fn lemma_boundary_in_front(bytes: Seq<u8>, start: int, end: int)
    requires
        valid_utf8(bytes),
        0 <= start <= end <= bytes.len(),
        is_char_boundary(bytes, start),
        is_char_boundary(bytes, end),
    ensures
        valid_utf8(bytes.subrange(0, end)),
        is_char_boundary(bytes.subrange(0, end), start),
{
    valid_utf8_split(bytes, end);
    let front = bytes.subrange(0, end);
    if start == end {
        is_char_boundary_start_end_of_seq(front);
    } else {
        is_char_boundary_iff_not_is_continuation_byte(bytes, start);
        is_char_boundary_iff_not_is_continuation_byte(front, start);
        assert(front[start] == bytes[start]);
    }
}

/// A byte range between characters parts the text in three.
pub proof fn lemma_slice_parts(s: Seq<char>, start: usize, end: usize)
    requires
        in_text(start, end, s),
    ensures
        s == slice(s, 0, start as int) + slice(s, start as int, end as int) + slice(
            s,
            end as int,
            encode_utf8(s).len() as int,
        ),
{
    let bytes = encode_utf8(s);
    encode_utf8_valid_utf8(s);
    encode_utf8_decode_utf8(s);
    lemma_boundary_in_front(bytes, start as int, end as int);
    let front = bytes.subrange(0, end as int);
    decode_utf8_split(bytes, end as int);
    decode_utf8_split(front, start as int);
    assert(front.subrange(0, start as int) =~= bytes.subrange(0, start as int));
    assert(front.subrange(start as int, end as int) =~= bytes.subrange(start as int, end as int));
}

/// Part a text at a byte range: what stands in front of it, and what is in it.
pub fn cut(s: &str, start: usize, end: usize) -> (r: (&str, &str))
    requires
        in_text(start, end, s@),
    ensures
        r.0@ == slice(s@, 0, start as int),
        r.1@ == slice(s@, start as int, end as int),
{
    proof {
        encode_utf8_valid_utf8(s@);
        lemma_boundary_in_front(encode_utf8(s@), start as int, end as int);
    }
    let (front, _) = s.split_at(end);
    let (before, inside) = front.split_at(start);
    proof {
        let bytes = encode_utf8(s@);
        encode_utf8_decode_utf8(before@);
        encode_utf8_decode_utf8(inside@);
        assert(front.spec_bytes() == bytes.subrange(0, end as int));
        assert(before.spec_bytes() =~= bytes.subrange(0, start as int));
        assert(inside.spec_bytes() =~= bytes.subrange(start as int, end as int));
    }
    (before, inside)
}

// ---------------------------------------------------------------------------
// White space
// ---------------------------------------------------------------------------

/// Characters with the Unicode `White_Space` property.
pub open spec fn is_space(c: char) -> bool {
    let v = c as u32;
    ||| 0x09 <= v <= 0x0d
    ||| v == 0x20
    ||| v == 0x85
    ||| v == 0xa0
    ||| v == 0x1680
    ||| 0x2000 <= v <= 0x200a
    ||| v == 0x2028
    ||| v == 0x2029
    ||| v == 0x202f
    ||| v == 0x205f
    ||| v == 0x3000
}

/// Whether a character is white space.
pub fn char_is_space(c: char) -> (r: bool)
    ensures
        r == is_space(c),
{
    let v: u32 = c as u32;
    (0x09 <= v && v <= 0x0d) || v == 0x20 || v == 0x85 || v == 0xa0 || v == 0x1680 || (0x2000 <= v
        && v <= 0x200a) || v == 0x2028 || v == 0x2029 || v == 0x202f || v == 0x205f || v == 0x3000
}

/// Text made of white space only, the empty text among it.
pub open spec fn blank(s: Seq<char>) -> bool {
    forall|i: int| 0 <= i < s.len() ==> is_space(#[trigger] s[i])
}

/// `s` without its leading white space.
pub open spec fn trim_start(s: Seq<char>) -> Seq<char>
    decreases s.len(),
{
    if s.len() > 0 && is_space(s[0]) {
        trim_start(s.skip(1))
    } else {
        s
    }
}

/// `s` without its trailing white space.
pub open spec fn trim_end(s: Seq<char>) -> Seq<char>
    decreases s.len(),
{
    if s.len() > 0 && is_space(s.last()) {
        trim_end(s.drop_last())
    } else {
        s
    }
}

/// `s` without leading and trailing white space.
pub open spec fn trim(s: Seq<char>) -> Seq<char> {
    trim_end(trim_start(s))
}

proof fn lemma_trim_start_skip(s: Seq<char>, n: int)
    requires
        0 <= n <= s.len(),
        forall|k: int| 0 <= k < n ==> is_space(#[trigger] s[k]),
    ensures
        trim_start(s) == trim_start(s.skip(n)),
    decreases n,
{
    if n > 0 {
        assert(s.skip(1).skip(n - 1) =~= s.skip(n));
        lemma_trim_start_skip(s.skip(1), n - 1);
    } else {
        assert(s.skip(0) =~= s);
    }
}

proof fn lemma_trim_end_take(s: Seq<char>, n: int)
    requires
        0 <= n <= s.len(),
        forall|k: int| n <= k < s.len() ==> is_space(#[trigger] s[k]),
    ensures
        trim_end(s) == trim_end(s.take(n)),
    decreases s.len() - n,
{
    if n < s.len() {
        assert(s.drop_last().take(n) =~= s.take(n));
        lemma_trim_end_take(s.drop_last(), n);
    } else {
        assert(s.take(n) =~= s);
    }
}

/// The bounds of the trimmed text inside `chars[from..to]`.
pub fn trim_bounds(chars: &[char], from: usize, to: usize) -> (r: (usize, usize))
    requires
        from <= to <= chars@.len(),
    ensures
        from <= r.0 <= r.1 <= to,
        chars@.subrange(r.0 as int, r.1 as int) == trim(chars@.subrange(from as int, to as int)),
        chars@.subrange(r.0 as int, to as int) == trim_start(
            chars@.subrange(from as int, to as int),
        ),
        forall|k: int| from <= k < r.0 ==> is_space(#[trigger] chars@[k]),
        forall|k: int| r.1 <= k < to ==> is_space(#[trigger] chars@[k]),
        r.0 < r.1 ==> !is_space(chars@[r.0 as int]) && !is_space(chars@[r.1 - 1]),
{
    let ghost whole = chars@.subrange(from as int, to as int);
    let mut start: usize = from;
    while start < to && char_is_space(chars[start])
        invariant
            from <= start <= to <= chars@.len(),
            forall|k: int| from <= k < start ==> is_space(#[trigger] chars@[k]),
        decreases to - start,
    {
        start = start + 1;
    }
    let ghost tail = chars@.subrange(start as int, to as int);
    proof {
        assert(whole.skip(start - from) =~= tail);
        assert forall|k: int| 0 <= k < start - from implies is_space(#[trigger] whole[k]) by {
            assert(whole[k] == chars@[from + k]);
        }
        lemma_trim_start_skip(whole, start - from);
        assert(trim_start(tail) == tail);
    }
    let mut end: usize = to;
    while end > start && char_is_space(chars[end - 1])
        invariant
            start <= end <= to <= chars@.len(),
            forall|k: int| end <= k < to ==> is_space(#[trigger] chars@[k]),
        decreases end - start,
    {
        end = end - 1;
    }
    proof {
        assert(tail.take(end - start) =~= chars@.subrange(start as int, end as int));
        assert forall|k: int| end - start <= k < tail.len() implies is_space(
            #[trigger] tail[k],
        ) by {
            assert(tail[k] == chars@[start + k]);
        }
        lemma_trim_end_take(tail, end - start);
    }
    (start, end)
}

/// `s` without leading and trailing white space.
pub fn trimmed(s: &str) -> (r: String)
    ensures
        r@ == trim(s@),
{
    let chars = chars_of(s);
    let bounds = trim_bounds(&chars, 0, chars.len());
    assert(chars@.subrange(0, chars@.len() as int) =~= chars@);
    string_of(&chars, bounds.0, bounds.1)
}

/// Whether a text is white space only.
pub fn is_blank(s: &str) -> (r: bool)
    ensures
        r == blank(s@),
{
    for c in it: s.chars()
        invariant
            it.seq() == s@,
            forall|k: int| 0 <= k < it.index() ==> is_space(#[trigger] s@[k]),
    {
        if !char_is_space(c) {
            assert(!is_space(s@[it.index() as int]));
            return false;
        }
    }
    true
}

// ---------------------------------------------------------------------------
// Prefixes, suffixes and parts
// ---------------------------------------------------------------------------

/// `part` stands in `s` at position `i`.
pub open spec fn occurs_at(s: Seq<char>, part: Seq<char>, i: int) -> bool {
    &&& 0 <= i
    &&& i + part.len() <= s.len()
    &&& s.subrange(i, i + part.len()) == part
}

/// `s` begins with `prefix`.
pub open spec fn starts_with(s: Seq<char>, prefix: Seq<char>) -> bool {
    occurs_at(s, prefix, 0)
}

/// `s` ends with `suffix`.
pub open spec fn ends_with(s: Seq<char>, suffix: Seq<char>) -> bool {
    occurs_at(s, suffix, s.len() - suffix.len())
}

/// `part` stands somewhere in `s`.
pub open spec fn contains(s: Seq<char>, part: Seq<char>) -> bool {
    exists|i: int| occurs_at(s, part, i)
}

/// Whether `part` stands in `chars` at `at`.
pub fn occurs(chars: &[char], part: &[char], at: usize) -> (r: bool)
    ensures
        r == occurs_at(chars@, part@, at as int),
{
    let total: usize = chars.len();
    if at > total || part.len() > total - at {
        return false;
    }
    let mut i: usize = 0;
    while i < part.len()
        invariant
            i <= part@.len(),
            total == chars@.len(),
            at + part@.len() <= chars@.len(),
            forall|k: int| 0 <= k < i ==> chars@[at + k] == part@[k],
        decreases part@.len() - i,
    {
        if chars[at + i] != part[i] {
            assert(chars@.subrange(at as int, at + part@.len())[i as int] != part@[i as int]);
            return false;
        }
        i = i + 1;
    }
    assert(chars@.subrange(at as int, at + part@.len()) =~= part@);
    true
}

/// Whether `s` begins with `prefix`.
pub fn has_prefix(s: &str, prefix: &str) -> (r: bool)
    ensures
        r == starts_with(s@, prefix@),
{
    let chars = chars_of(s);
    let part = chars_of(prefix);
    occurs(&chars, &part, 0)
}

/// Whether `s` ends with `suffix`.
pub fn has_suffix(s: &str, suffix: &str) -> (r: bool)
    ensures
        r == ends_with(s@, suffix@),
{
    let chars = chars_of(s);
    let part = chars_of(suffix);
    if part.len() > chars.len() {
        return false;
    }
    occurs(&chars, &part, chars.len() - part.len())
}

/// Whether `part` stands somewhere in `s`.
pub fn has_part(s: &str, part: &str) -> (r: bool)
    ensures
        r == contains(s@, part@),
{
    let chars = chars_of(s);
    let wanted = chars_of(part);
    if wanted.len() > chars.len() {
        return false;
    }
    let last: usize = chars.len() - wanted.len();
    let mut i: usize = 0;
    while i <= last
        invariant
            chars@ == s@,
            wanted@ == part@,
            last == chars@.len() - wanted@.len(),
            i <= last + 1,
            forall|k: int| 0 <= k < i ==> !occurs_at(s@, part@, k),
        decreases last + 1 - i,
    {
        if occurs(&chars, &wanted, i) {
            return true;
        }
        if i == last {
            return false;
        }
        i = i + 1;
    }
    false
}

/// Whether a character stands in `s`.
pub fn has_char(s: &str, wanted: char) -> (r: bool)
    ensures
        r == s@.contains(wanted),
{
    for c in it: s.chars()
        invariant
            it.seq() == s@,
            forall|k: int| 0 <= k < it.index() ==> #[trigger] s@[k] != wanted,
    {
        if c == wanted {
            assert(s@[it.index() as int] == wanted);
            return true;
        }
    }
    false
}

// ---------------------------------------------------------------------------
// Splitting and joining
// ---------------------------------------------------------------------------

/// The position of the first `sep` in `s` at or behind `from`, or the length.
pub open spec fn next_sep(s: Seq<char>, sep: char, from: int) -> int
    decreases s.len() - from,
{
    if from >= s.len() || from < 0 {
        s.len() as int
    } else if s[from] == sep {
        from
    } else {
        next_sep(s, sep, from + 1)
    }
}

/// The fields of `s[from..]` between occurrences of `sep`.
pub open spec fn split_from(s: Seq<char>, sep: char, from: int) -> Seq<Seq<char>>
    recommends
        0 <= from <= s.len(),
    decreases s.len() - from,
    via split_from_decreases
{
    if from < 0 || from > s.len() {
        seq![]
    } else {
        let end = next_sep(s, sep, from);
        if end >= s.len() {
            seq![s.skip(from)]
        } else {
            seq![s.subrange(from, end)] + split_from(s, sep, end + 1)
        }
    }
}

#[via_fn]
proof fn split_from_decreases(s: Seq<char>, sep: char, from: int) {
    if 0 <= from <= s.len() {
        lemma_next_sep(s, sep, from);
    }
}

/// The fields of `s` between occurrences of `sep`; at least one.
pub open spec fn split(s: Seq<char>, sep: char) -> Seq<Seq<char>> {
    split_from(s, sep, 0)
}

pub proof fn lemma_next_sep(s: Seq<char>, sep: char, from: int)
    requires
        0 <= from <= s.len(),
    ensures
        from <= next_sep(s, sep, from) <= s.len(),
        forall|k: int| from <= k < next_sep(s, sep, from) ==> #[trigger] s[k] != sep,
        next_sep(s, sep, from) < s.len() ==> s[next_sep(s, sep, from)] == sep,
    decreases s.len() - from,
{
    if from < s.len() && s[from] != sep {
        lemma_next_sep(s, sep, from + 1);
    }
}

/// The position of the first `sep` in `chars` at or behind `from`, or the length.
pub fn find_sep(chars: &[char], sep: char, from: usize) -> (r: usize)
    requires
        from <= chars@.len(),
    ensures
        r == next_sep(chars@, sep, from as int),
        from <= r <= chars@.len(),
{
    let mut i: usize = from;
    while i < chars.len() && chars[i] != sep
        invariant
            from <= i <= chars@.len(),
            next_sep(chars@, sep, from as int) == next_sep(chars@, sep, i as int),
        decreases chars@.len() - i,
    {
        i = i + 1;
    }
    i
}

/// The views of a vector of strings.
pub open spec fn views(v: Seq<String>) -> Seq<Seq<char>> {
    Seq::new(v.len(), |i: int| v[i]@)
}

/// Test whether a list holds a text.
pub fn has_text(list: &[String], wanted: &str) -> (r: bool)
    ensures
        r == views(list@).contains(wanted@),
{
    let ghost all = views(list@);
    let mut i: usize = 0;
    while i < list.len()
        invariant
            i <= list@.len(),
            all == views(list@),
            forall|k: int| 0 <= k < i ==> #[trigger] all[k] != wanted@,
        decreases list@.len() - i,
    {
        assert(all[i as int] == list@[i as int]@);
        if str_eq(list[i].as_str(), wanted) {
            assert(all.contains(all[i as int]));
            return true;
        }
        i = i + 1;
    }
    false
}

/// The first `count` texts of a list.
pub fn first_texts(list: Vec<String>, count: usize) -> (r: Vec<String>)
    ensures
        views(r@) == if list@.len() > count {
            views(list@).take(count as int)
        } else {
            views(list@)
        },
{
    let ghost all = views(list@);
    let mut list = list;
    while list.len() > count
        invariant
            list@.len() <= all.len(),
            views(list@) == all.take(list@.len() as int),
            list@.len() >= count || list@.len() == all.len(),
        decreases list@.len(),
    {
        let ghost n = list@.len() - 1;
        let _ = list.pop();
        assert(views(list@) =~= all.take(n));
    }
    assert(all.take(all.len() as int) =~= all);
    list
}

/// Copy an optional text.
pub fn clone_option(s: &Option<String>) -> (r: Option<String>)
    ensures
        r == *s,
{
    match s {
        Some(text) => Some(text.clone()),
        None => None,
    }
}

/// Copy texts.
pub fn clone_texts(list: &[String]) -> (r: Vec<String>)
    ensures
        views(r@) == views(list@),
{
    let mut out: Vec<String> = Vec::new();
    let mut i: usize = 0;
    while i < list.len()
        invariant
            i <= list@.len(),
            out@.len() == i,
            forall|k: int| 0 <= k < i ==> (#[trigger] out@[k])@ == list@[k]@,
        decreases list@.len() - i,
    {
        out.push(list[i].clone());
        i = i + 1;
    }
    assert(views(out@) =~= views(list@));
    out
}

/// The fields of `s` between occurrences of `sep`.
pub fn split_on(s: &str, sep: char) -> (r: Vec<String>)
    ensures
        views(r@) == split(s@, sep),
        r@.len() >= 1,
{
    let chars = chars_of(s);
    let mut out: Vec<String> = Vec::new();
    let mut from: usize = 0;
    assert(views(out@) + split_from(s@, sep, 0) =~= split(s@, sep));
    loop
        invariant
            chars@ == s@,
            from <= chars@.len(),
            views(out@) + split_from(s@, sep, from as int) == split(s@, sep),
        decreases chars@.len() - from,
    {
        let end = find_sep(&chars, sep, from);
        let ghost before = views(out@);
        out.push(string_of(&chars, from, end));
        assert(views(out@) =~= before.push(s@.subrange(from as int, end as int)));
        if end >= chars.len() {
            assert(s@.skip(from as int) =~= s@.subrange(from as int, end as int));
            assert(views(out@) =~= before + split_from(s@, sep, from as int));
            return out;
        }
        assert(before + split_from(s@, sep, from as int) =~= views(out@) + split_from(
            s@,
            sep,
            end + 1,
        ));
        from = end + 1;
    }
}

/// `parts` with `sep` between neighbours.
pub open spec fn joined(parts: Seq<Seq<char>>, sep: Seq<char>) -> Seq<char>
    decreases parts.len(),
{
    if parts.len() == 0 {
        seq![]
    } else if parts.len() == 1 {
        parts[0]
    } else {
        joined(parts.drop_last(), sep) + sep + parts.last()
    }
}

/// `parts` with `sep` between neighbours.
pub fn join(parts: &[String], sep: &str) -> (r: String)
    ensures
        r@ == joined(views(parts@), sep@),
{
    let mut out = String::new();
    let mut i: usize = 0;
    while i < parts.len()
        invariant
            i <= parts@.len(),
            out@ == joined(views(parts@).take(i as int), sep@),
        decreases parts@.len() - i,
    {
        proof {
            let next = views(parts@).take(i + 1);
            assert(next.drop_last() =~= views(parts@).take(i as int));
            assert(next.last() == parts@[i as int]@);
        }
        if i > 0 {
            out.append(sep);
        }
        out.append(parts[i].as_str());
        i = i + 1;
    }
    assert(views(parts@).take(parts@.len() as int) =~= views(parts@));
    out
}

/// `a` followed by `b`.
pub fn concat2(a: &str, b: &str) -> (r: String)
    ensures
        r@ == a@ + b@,
{
    let mut out = a.to_owned();
    out.append(b);
    out
}

/// `a`, `b` and `c` in a row.
pub fn concat3(a: &str, b: &str, c: &str) -> (r: String)
    ensures
        r@ == a@ + b@ + c@,
{
    let mut out = concat2(a, b);
    out.append(c);
    out
}

/// `s` with every `from` replaced by `to`.
pub open spec fn replaced(s: Seq<char>, from: char, to: char) -> Seq<char> {
    Seq::new(
        s.len(),
        |i: int|
            if s[i] == from {
                to
            } else {
                s[i]
            },
    )
}

/// `s` with every `from` replaced by `to`.
pub fn replace_char(s: &str, from: char, to: char) -> (r: String)
    ensures
        r@ == replaced(s@, from, to),
{
    let mut out = String::new();
    for c in it: s.chars()
        invariant
            it.seq() == s@,
            out@ == replaced(s@, from, to).take(it.index() as int),
    {
        if c == from {
            out.push(to);
        } else {
            out.push(c);
        }
        assert(out@ =~= replaced(s@, from, to).take(it.index() + 1));
    }
    assert(replaced(s@, from, to).take(s@.len() as int) =~= replaced(s@, from, to));
    out
}

// ---------------------------------------------------------------------------
// ASCII letter case
// ---------------------------------------------------------------------------

/// The lowercase form of an ASCII letter; any other character as it is.
pub open spec fn ascii_lower(c: char) -> char {
    if 'A' <= c <= 'Z' {
        ((c as u32) + 32) as char
    } else {
        c
    }
}

/// `s` with its ASCII letters in lower case.
pub open spec fn ascii_lowered(s: Seq<char>) -> Seq<char> {
    Seq::new(s.len(), |i: int| ascii_lower(s[i]))
}

/// The lowercase form of an ASCII letter; any other character as it is.
pub fn char_ascii_lower(c: char) -> (r: char)
    ensures
        r == ascii_lower(c),
{
    if 'A' <= c && c <= 'Z' {
        let b: u8 = c as u8;
        let lower: u8 = b + 32;
        lower as char
    } else {
        c
    }
}

/// `s` with its ASCII letters in lower case.
pub fn to_ascii_lower(s: &str) -> (r: String)
    ensures
        r@ == ascii_lowered(s@),
{
    let mut out = String::new();
    for c in it: s.chars()
        invariant
            it.seq() == s@,
            out@ == ascii_lowered(s@).take(it.index() as int),
    {
        out.push(char_ascii_lower(c));
        assert(out@ =~= ascii_lowered(s@).take(it.index() + 1));
    }
    assert(ascii_lowered(s@).take(s@.len() as int) =~= ascii_lowered(s@));
    out
}

/// Whether two strings differ at most in the case of ASCII letters.
pub fn eq_ignore_ascii_case(a: &str, b: &str) -> (r: bool)
    ensures
        r == (ascii_lowered(a@) == ascii_lowered(b@)),
{
    let x = to_ascii_lower(a);
    let y = to_ascii_lower(b);
    str_eq(x.as_str(), y.as_str())
}

// ---------------------------------------------------------------------------
// Decimal numbers
// ---------------------------------------------------------------------------

/// The decimal digit of a value below ten.
pub open spec fn digit(n: nat) -> char {
    (('0' as u32) + n) as char
}

/// The decimal notation of `n`, without leading zeros.
pub open spec fn decimal(n: nat) -> Seq<char>
    decreases n,
{
    if n < 10 {
        seq![digit(n)]
    } else {
        decimal(n / 10).push(digit(n % 10))
    }
}

/// The decimal notation of `n`.
pub fn decimal_text(n: u64) -> (r: String)
    ensures
        r@ == decimal(n as nat),
    decreases n,
{
    let mut out = if n < 10 {
        String::new()
    } else {
        decimal_text(n / 10)
    };
    let last: u8 = (n % 10) as u8;
    out.push((48 + last) as char);
    assert(out@ =~= decimal(n as nat));
    out
}

/// The value of a decimal digit.
pub open spec fn is_digit(c: char) -> bool {
    '0' <= c <= '9'
}

/// The number that a list of digits is in decimal notation.
pub open spec fn digits_value(s: Seq<char>) -> nat
    decreases s.len(),
{
    if s.len() == 0 {
        0
    } else {
        digits_value(s.drop_last()) * 10 + (s.last() as u32 - '0' as u32) as nat
    }
}

/// A text is a nonempty list of digits.
pub open spec fn all_digits(s: Seq<char>) -> bool {
    s.len() > 0 && forall|i: int| 0 <= i < s.len() ==> is_digit(#[trigger] s[i])
}

/// A number in decimal notation with an optional plus sign, if it is at most `limit`.
pub open spec fn number(s: Seq<char>, limit: nat) -> Option<nat> {
    let digits = if s.len() > 0 && s[0] == '+' {
        s.skip(1)
    } else {
        s
    };
    if all_digits(digits) && digits_value(digits) <= limit {
        Some(digits_value(digits))
    } else {
        None
    }
}

proof fn lemma_digits_grow(s: Seq<char>, i: int)
    requires
        0 <= i <= s.len(),
        forall|k: int| 0 <= k < s.len() ==> is_digit(#[trigger] s[k]),
    ensures
        digits_value(s.take(i)) <= digits_value(s),
    decreases s.len(),
{
    if i < s.len() {
        assert(s.drop_last().take(i) =~= s.take(i));
        assert forall|k: int| 0 <= k < s.drop_last().len() implies is_digit(
            #[trigger] s.drop_last()[k],
        ) by {
            assert(is_digit(s[k]));
        }
        lemma_digits_grow(s.drop_last(), i);
    } else {
        assert(s.take(i) =~= s);
    }
}

/// Read a number in decimal notation with an optional plus sign.
pub fn parse_usize(s: &str) -> (r: Option<usize>)
    ensures
        match r {
            Some(n) => number(s@, usize::MAX as nat) == Some(n as nat),
            None => number(s@, usize::MAX as nat) is None,
        },
{
    let chars = chars_of(s);
    let from: usize = if chars.len() > 0 && chars[0] == '+' {
        1
    } else {
        0
    };
    let ghost digits = s@.skip(from as int);
    proof {
        if from == 0 {
            assert(digits =~= s@);
        }
    }
    if chars.len() == from {
        return None;
    }
    let mut value: usize = 0;
    let mut i: usize = from;
    while i < chars.len()
        invariant
            from <= i <= chars@.len(),
            chars@ == s@,
            from <= 1,
            digits == s@.skip(from as int),
            number(s@, usize::MAX as nat) == (if all_digits(digits) && digits_value(digits)
                <= usize::MAX {
                Some(digits_value(digits))
            } else {
                None::<nat>
            }),
            forall|k: int| 0 <= k < i - from ==> is_digit(#[trigger] digits[k]),
            value == digits_value(digits.take(i - from)),
        decreases chars@.len() - i,
    {
        let c = chars[i];
        assert(digits[i - from] == c);
        if c < '0' || c > '9' {
            assert(!all_digits(digits));
            return None;
        }
        let ghost next = digits.take(i + 1 - from);
        proof {
            assert(next.drop_last() =~= digits.take(i - from));
            assert(next.last() == c);
            if all_digits(digits) {
                lemma_digits_grow(digits, i + 1 - from);
            }
        }
        let figure: usize = (c as u32 - '0' as u32) as usize;
        let tenfold = match value.checked_mul(10) {
            Some(tenfold) => tenfold,
            None => {
                return None;
            },
        };
        value = match tenfold.checked_add(figure) {
            Some(sum) => sum,
            None => {
                return None;
            },
        };
        i = i + 1;
    }
    assert(digits.take(digits.len() as int) =~= digits);
    Some(value)
}

/// A number is read back from its decimal notation.
pub proof fn law_decimal_is_read_back(n: nat, limit: nat)
    requires
        n <= limit,
    ensures
        number(decimal(n), limit) == Some(n),
{
    lemma_decimal(n);
    assert(is_digit(decimal(n)[0]));
}

pub proof fn lemma_decimal(n: nat)
    ensures
        all_digits(decimal(n)),
        digits_value(decimal(n)) == n,
    decreases n,
{
    let last = digit(n % 10);
    assert(is_digit(last) && last as u32 - '0' as u32 == n % 10);
    if n < 10 {
        let one = decimal(n);
        assert(one.drop_last() =~= seq![]);
        assert(digits_value(one.drop_last()) == 0);
    } else {
        lemma_decimal(n / 10);
        let front = decimal(n / 10);
        assert(decimal(n).drop_last() =~= front);
        assert forall|i: int| 0 <= i < decimal(n).len() implies is_digit(#[trigger] decimal(n)[i]) by {
            if i < front.len() {
                assert(is_digit(front[i]));
            }
        }
    }
}

// ---------------------------------------------------------------------------
// Laws of text
// ---------------------------------------------------------------------------

/// Trimming leaves the middle of a text: only white space goes, and none is left at the ends.
pub proof fn law_trimming_drops_only_white_space(s: Seq<char>)
    ensures
        trim(s).len() > 0 ==> !is_space(trim(s)[0]) && !is_space(trim(s).last()),
        exists|from: int, to: int|
            {
                &&& 0 <= from <= to <= s.len()
                &&& trim(s) == #[trigger] s.subrange(from, to)
                &&& forall|k: int| 0 <= k < from || to <= k < s.len() ==> is_space(#[trigger] s[k])
            },
{
    lemma_trim_start_part(s);
    let tail = trim_start(s);
    lemma_trim_end_part(tail);
    let from = s.len() - tail.len();
    let to = from + trim(s).len();
    assert(s.subrange(from, to) =~= trim(s));
    assert forall|k: int| 0 <= k < from || to <= k < s.len() implies is_space(#[trigger] s[k]) by {
        if to <= k {
            assert(tail[k - from] == s[k]);
        }
    }
}

proof fn lemma_trim_start_part(s: Seq<char>)
    ensures
        trim_start(s).len() <= s.len(),
        trim_start(s) == s.skip(s.len() - trim_start(s).len()),
        forall|k: int| 0 <= k < s.len() - trim_start(s).len() ==> is_space(#[trigger] s[k]),
        trim_start(s).len() > 0 ==> !is_space(trim_start(s)[0]),
    decreases s.len(),
{
    if s.len() > 0 && is_space(s[0]) {
        let rest = s.skip(1);
        lemma_trim_start_part(rest);
        assert(rest.skip(rest.len() - trim_start(rest).len()) =~= s.skip(
            s.len() - trim_start(s).len(),
        ));
        assert forall|k: int| 0 <= k < s.len() - trim_start(s).len() implies is_space(
            #[trigger] s[k],
        ) by {
            if k > 0 {
                assert(rest[k - 1] == s[k]);
            }
        }
    } else {
        assert(s.skip(0) =~= s);
    }
}

proof fn lemma_trim_end_part(s: Seq<char>)
    ensures
        trim_end(s).len() <= s.len(),
        trim_end(s) == s.take(trim_end(s).len() as int),
        forall|k: int| trim_end(s).len() <= k < s.len() ==> is_space(#[trigger] s[k]),
        trim_end(s).len() > 0 ==> !is_space(trim_end(s).last()),
        trim_end(s).len() > 0 ==> trim_end(s)[0] == s[0],
    decreases s.len(),
{
    if s.len() > 0 && is_space(s.last()) {
        let rest = s.drop_last();
        lemma_trim_end_part(rest);
        assert(rest.take(trim_end(rest).len() as int) =~= s.take(trim_end(s).len() as int));
        assert forall|k: int| trim_end(s).len() <= k < s.len() implies is_space(
            #[trigger] s[k],
        ) by {
            if k < rest.len() {
                assert(rest[k] == s[k]);
            }
        }
    } else {
        assert(s.take(s.len() as int) =~= s);
    }
}

/// A text without the separator is its own only field. A text with a separator in it has the
/// fields of what stands in front of it, and then the fields of what stands behind it.
pub proof fn law_fields_stand_between_separators(a: Seq<char>, b: Seq<char>, sep: char)
    ensures
        !a.contains(sep) ==> split(a, sep) == seq![a],
        split(a + seq![sep] + b, sep) == split(a, sep) + split(b, sep),
{
    if !a.contains(sep) {
        lemma_next_sep(a, sep, 0);
        assert(a.skip(0) =~= a);
        assert(split(a, sep) =~= seq![a]);
    }
    lemma_split_in_two(a, b, sep, 0);
}

proof fn lemma_split_shift(s: Seq<char>, sep: char, n: int, from: int)
    requires
        0 <= n <= from <= s.len(),
    ensures
        split_from(s, sep, from) == split_from(s.skip(n), sep, from - n),
    decreases s.len() - from,
{
    let t = s.skip(n);
    lemma_next_sep_shift(s, sep, n, from);
    lemma_next_sep(s, sep, from);
    let end = next_sep(s, sep, from);
    if end < s.len() {
        lemma_split_shift(s, sep, n, end + 1);
        assert(s.subrange(from, end) =~= t.subrange(from - n, end - n));
    } else {
        assert(s.skip(from) =~= t.skip(from - n));
    }
}

proof fn lemma_next_sep_shift(s: Seq<char>, sep: char, n: int, from: int)
    requires
        0 <= n <= from <= s.len(),
    ensures
        next_sep(s, sep, from) == next_sep(s.skip(n), sep, from - n) + n,
    decreases s.len() - from,
{
    if from < s.len() && s[from] != sep {
        lemma_next_sep_shift(s, sep, n, from + 1);
    }
}

proof fn lemma_split_in_two(a: Seq<char>, b: Seq<char>, sep: char, from: int)
    requires
        0 <= from <= a.len(),
    ensures
        split_from(a + seq![sep] + b, sep, from) == split_from(a, sep, from) + split(b, sep),
    decreases a.len() - from,
{
    let s = a + seq![sep] + b;
    lemma_next_sep(a, sep, from);
    lemma_next_sep(s, sep, from);
    let end = next_sep(a, sep, from);
    let found = next_sep(s, sep, from);
    assert(found == end) by {
        if found < end {
            assert(a[found] == s[found]);
        } else if end < found {
            assert(s[end] == if end < a.len() {
                a[end]
            } else {
                sep
            });
        }
    }
    if end < a.len() {
        lemma_split_in_two(a, b, sep, end + 1);
        assert(s.subrange(from, end) =~= a.subrange(from, end));
        assert(split_from(s, sep, from) =~= split_from(a, sep, from) + split(b, sep));
    } else {
        lemma_split_shift(s, sep, end + 1, end + 1);
        assert(s.skip(end + 1) =~= b);
        assert(s.subrange(from, end) =~= a.skip(from));
        assert(split_from(s, sep, from) =~= split_from(a, sep, from) + split(b, sep));
    }
}

/// Joining puts the separator between neighbours, and nowhere else.
pub proof fn law_joining_goes_part_by_part(parts: Seq<Seq<char>>, last: Seq<char>, sep: Seq<char>)
    ensures
        joined(seq![], sep) == Seq::<char>::empty(),
        joined(seq![last], sep) == last,
        parts.len() > 0 ==> joined(parts.push(last), sep) == joined(parts, sep) + sep + last,
{
    assert(parts.push(last).drop_last() =~= parts);
}

/// A text begins with what is put in front of others, ends with what is put behind them, and
/// contains what is put between them.
pub proof fn law_parts_stand_where_they_are_put(a: Seq<char>, part: Seq<char>, b: Seq<char>)
    ensures
        starts_with(part + b, part),
        ends_with(a + part, part),
        contains(a + part + b, part),
{
    let n = a.len() as int;
    let whole = a + part + b;
    assert((part + b).subrange(0, part.len() as int) =~= part);
    assert((a + part).subrange(n, n + part.len()) =~= part);
    assert(whole.subrange(n, n + part.len()) =~= part);
    assert(occurs_at(whole, part, n));
}

/// What a text begins with, ends with or contains can be split off it.
pub proof fn law_parts_can_be_split_off(s: Seq<char>, part: Seq<char>)
    ensures
        starts_with(s, part) ==> s == part + s.skip(part.len() as int),
        ends_with(s, part) ==> s == s.take(s.len() - part.len()) + part,
        contains(s, part) ==> exists|a: Seq<char>, b: Seq<char>| s == #[trigger] (a + part + b),
{
    let n = part.len() as int;
    if starts_with(s, part) {
        assert(s =~= s.subrange(0, n) + s.skip(n));
    }
    if ends_with(s, part) {
        assert(s =~= s.take(s.len() - n) + s.subrange(s.len() - n, s.len() as int));
    }
    if contains(s, part) {
        let i = choose|i: int| occurs_at(s, part, i);
        let (a, b) = (s.take(i), s.skip(i + n));
        assert(s =~= a + s.subrange(i, i + n) + b);
        assert(s == a + part + b);
    }
}

} // verus!
