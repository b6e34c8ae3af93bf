//! Repository-relative paths.
//!
//! A path is text with `/` between its components. Normalization also takes
//! `\` for a separator and drops empty components.

use crate::text;
use vstd::prelude::*;

verus! {

/// The parts that are not empty, in order.
pub open spec fn nonempty(parts: Seq<Seq<char>>) -> Seq<Seq<char>>
    decreases parts.len(),
{
    if parts.len() == 0 {
        seq![]
    } else if parts.last().len() > 0 {
        nonempty(parts.drop_last()).push(parts.last())
    } else {
        nonempty(parts.drop_last())
    }
}

/// The components of a path: what stands between `/` or `\`, without empty parts.
pub open spec fn components(path: Seq<char>) -> Seq<Seq<char>> {
    nonempty(text::split(text::replaced(path, '\\', '/'), '/'))
}

/// A path with single `/` between its components and none at its ends.
pub open spec fn normalized(path: Seq<char>) -> Seq<char> {
    text::joined(components(path), seq!['/'])
}

/// The components of a path.
pub fn components_of(path: &str) -> (r: Vec<String>)
    ensures
        text::views(r@) == components(path@),
{
    let unified = text::replace_char(path, '\\', '/');
    let parts = text::split_on(unified.as_str(), '/');
    let mut out: Vec<String> = Vec::new();
    let mut i: usize = 0;
    assert(text::views(parts@).take(0) =~= Seq::<Seq<char>>::empty());
    while i < parts.len()
        invariant
            i <= parts@.len(),
            text::views(parts@) == text::split(text::replaced(path@, '\\', '/'), '/'),
            text::views(out@) == nonempty(text::views(parts@).take(i as int)),
        decreases parts@.len() - i,
    {
        proof {
            let next = text::views(parts@).take(i + 1);
            assert(next.drop_last() =~= text::views(parts@).take(i as int));
            assert(next.last() == parts@[i as int]@);
        }
        if !parts[i].as_str().is_empty() {
            let ghost before = text::views(out@);
            out.push(parts[i].clone());
            assert(text::views(out@) =~= before.push(parts@[i as int]@));
        }
        i = i + 1;
    }
    assert(text::views(parts@).take(parts@.len() as int) =~= text::views(parts@));
    out
}

/// Normalize a repository-relative path to use `/` separators.
///
/// Backslashes become forward slashes, leading and trailing separators are
/// dropped, and repeated separators collapse into one.
pub fn normalize_path(path: &str) -> (r: String)
    ensures
        r@ == normalized(path@),
{
    let parts = components_of(path);
    proof {
        reveal_strlit("/");
        assert("/"@ =~= seq!['/']);
    }
    text::join(&parts, "/")
}

// ---------------------------------------------------------------------------
// Normalization is stable
// ---------------------------------------------------------------------------

/// A text that can stand as one component.
pub open spec fn is_component(part: Seq<char>) -> bool {
    &&& part.len() > 0
    &&& forall|i: int| 0 <= i < part.len() ==> #[trigger] part[i] != '/' && part[i] != '\\'
}

pub open spec fn all_components(parts: Seq<Seq<char>>) -> bool {
    forall|i: int| 0 <= i < parts.len() ==> is_component(#[trigger] parts[i])
}

proof fn lemma_split_fields(s: Seq<char>, sep: char, from: int)
    requires
        0 <= from <= s.len(),
    ensures
        text::split_from(s, sep, from).len() >= 1,
        forall|i: int, k: int|
            0 <= i < text::split_from(s, sep, from).len() && 0 <= k < text::split_from(s, sep, from)[i].len()
                ==> (#[trigger] text::split_from(s, sep, from)[i][k]) != sep && s.contains(
                text::split_from(s, sep, from)[i][k],
            ),
    decreases s.len() - from,
{
    text::lemma_next_sep(s, sep, from);
    let end = text::next_sep(s, sep, from);
    let all = text::split_from(s, sep, from);
    if end < s.len() {
        lemma_split_fields(s, sep, end + 1);
        let rest = text::split_from(s, sep, end + 1);
        assert forall|i: int, k: int| 0 <= i < all.len() && 0 <= k < all[i].len() implies (
        #[trigger] all[i][k]) != sep && s.contains(all[i][k]) by {
            if i == 0 {
                assert(all[0] == s.subrange(from, end));
                assert(all[0][k] == s[from + k]);
            } else {
                assert(all[i] == rest[i - 1]);
                assert(rest[i - 1][k] != sep);
            }
        }
    } else {
        assert forall|i: int, k: int| 0 <= i < all.len() && 0 <= k < all[i].len() implies (
        #[trigger] all[i][k]) != sep && s.contains(all[i][k]) by {
            assert(all[0] == s.skip(from));
            assert(all[0][k] == s[from + k]);
        }
    }
}

proof fn lemma_nonempty(parts: Seq<Seq<char>>)
    ensures
        forall|i: int|
            0 <= i < nonempty(parts).len() ==> (#[trigger] nonempty(parts)[i]).len() > 0
                && parts.contains(nonempty(parts)[i]),
    decreases parts.len(),
{
    if parts.len() > 0 {
        let rest = parts.drop_last();
        lemma_nonempty(rest);
        assert forall|i: int| 0 <= i < nonempty(parts).len() implies (#[trigger] nonempty(
            parts,
        )[i]).len() > 0 && parts.contains(nonempty(parts)[i]) by {
            if i < nonempty(rest).len() {
                assert(nonempty(rest)[i].len() > 0);
                assert(rest.contains(nonempty(rest)[i]));
                let k = choose|k: int| 0 <= k < rest.len() && rest[k] == nonempty(rest)[i];
                assert(parts[k] == nonempty(rest)[i]);
            } else {
                assert(parts[parts.len() - 1] == parts.last());
            }
        }
    }
}

proof fn lemma_nonempty_keeps(parts: Seq<Seq<char>>)
    requires
        forall|i: int| 0 <= i < parts.len() ==> (#[trigger] parts[i]).len() > 0,
    ensures
        nonempty(parts) == parts,
    decreases parts.len(),
{
    if parts.len() > 0 {
        assert forall|i: int| 0 <= i < parts.drop_last().len() implies (
        #[trigger] parts.drop_last()[i]).len() > 0 by {
            assert(parts.drop_last()[i] == parts[i]);
        }
        lemma_nonempty_keeps(parts.drop_last());
        assert(parts.last() == parts[parts.len() - 1]);
        assert(parts.drop_last().push(parts.last()) =~= parts);
    } else {
        assert(nonempty(parts) =~= parts);
    }
}

/// Every component of a path is a component text.
pub proof fn lemma_components_are_components(path: Seq<char>)
    ensures
        all_components(components(path)),
{
    let unified = text::replaced(path, '\\', '/');
    let parts = text::split(unified, '/');
    lemma_split_fields(unified, '/', 0);
    lemma_nonempty(parts);
    assert forall|i: int| 0 <= i < components(path).len() implies is_component(
        #[trigger] components(path)[i],
    ) by {
        let part = components(path)[i];
        assert(parts.contains(part));
        let j = choose|j: int| 0 <= j < parts.len() && parts[j] == part;
        assert forall|k: int| 0 <= k < part.len() implies #[trigger] part[k] != '/' && part[k]
            != '\\' by {
            assert(parts[j][k] != '/');
            assert(unified.contains(parts[j][k]));
        }
    }
}

proof fn lemma_next_sep_append(a: Seq<char>, b: Seq<char>, sep: char, from: int)
    requires
        0 <= from <= a.len(),
        forall|k: int| 0 <= k < b.len() ==> #[trigger] b[k] != sep,
    ensures
        text::next_sep(a.push(sep) + b, sep, from) == text::next_sep(a, sep, from),
    decreases a.len() - from,
{
    let s = a.push(sep) + b;
    if from < a.len() {
        assert(s[from] == a[from]);
        if a[from] != sep {
            lemma_next_sep_append(a, b, sep, from + 1);
        }
    } else {
        assert(s[from] == sep);
    }
}

proof fn lemma_no_sep(s: Seq<char>, sep: char, from: int)
    requires
        0 <= from <= s.len(),
        forall|k: int| from <= k < s.len() ==> #[trigger] s[k] != sep,
    ensures
        text::next_sep(s, sep, from) == s.len(),
    decreases s.len() - from,
{
    if from < s.len() {
        lemma_no_sep(s, sep, from + 1);
    }
}

proof fn lemma_split_append(a: Seq<char>, b: Seq<char>, sep: char, from: int)
    requires
        0 <= from <= a.len(),
        forall|k: int| 0 <= k < b.len() ==> #[trigger] b[k] != sep,
    ensures
        text::split_from(a.push(sep) + b, sep, from) == text::split_from(a, sep, from).push(b),
    decreases a.len() - from,
{
    let s = a.push(sep) + b;
    lemma_next_sep_append(a, b, sep, from);
    text::lemma_next_sep(a, sep, from);
    let end = text::next_sep(a, sep, from);
    if end < a.len() {
        lemma_split_append(a, b, sep, end + 1);
        assert(s.subrange(from, end) =~= a.subrange(from, end));
        assert(text::split_from(s, sep, from) =~= text::split_from(a, sep, from).push(b));
    } else {
        assert(s.subrange(from, end) =~= a.skip(from));
        assert forall|k: int| end + 1 <= k < s.len() implies #[trigger] s[k] != sep by {
            assert(s[k] == b[k - end - 1]);
        }
        lemma_no_sep(s, sep, end + 1);
        assert(s.skip(end + 1) =~= b);
        assert(text::split_from(s, sep, end + 1) =~= seq![b]);
        assert(text::split_from(s, sep, from) =~= text::split_from(a, sep, from).push(b));
    }
}

proof fn lemma_joined_chars(parts: Seq<Seq<char>>)
    requires
        all_components(parts),
    ensures
        forall|k: int| 0 <= k < text::joined(parts, seq!['/']).len() ==> #[trigger] text::joined(parts, seq!['/'])[k] != '\\',
    decreases parts.len(),
{
    let whole = text::joined(parts, seq!['/']);
    if parts.len() == 1 {
        assert(is_component(parts[0]));
    } else if parts.len() > 1 {
        let rest = parts.drop_last();
        assert(all_components(rest)) by {
            assert forall|i: int| 0 <= i < rest.len() implies is_component(#[trigger] rest[i]) by {
                assert(rest[i] == parts[i]);
            }
        }
        lemma_joined_chars(rest);
        assert(is_component(parts[parts.len() - 1]));
        let head = text::joined(rest, seq!['/']);
        assert forall|k: int| 0 <= k < whole.len() implies #[trigger] whole[k] != '\\' by {
            if k < head.len() {
                assert(whole[k] == head[k]);
            } else if k > head.len() {
                assert(whole[k] == parts.last()[k - head.len() - 1]);
            }
        }
    }
}

proof fn lemma_split_joined(parts: Seq<Seq<char>>)
    requires
        parts.len() > 0,
        all_components(parts),
    ensures
        text::split(text::joined(parts, seq!['/']), '/') == parts,
    decreases parts.len(),
{
    let last = parts.last();
    assert(is_component(parts[parts.len() - 1]));
    if parts.len() == 1 {
        lemma_no_sep(last, '/', 0);
        assert(last.skip(0) =~= last);
        assert(text::split(last, '/') =~= parts);
    } else {
        let rest = parts.drop_last();
        assert forall|i: int| 0 <= i < rest.len() implies is_component(#[trigger] rest[i]) by {
            assert(rest[i] == parts[i]);
        }
        lemma_split_joined(rest);
        let head = text::joined(rest, seq!['/']);
        lemma_split_append(head, last, '/', 0);
        assert(head.push('/') + last =~= head + seq!['/'] + last);
        assert(rest.push(last) =~= parts);
    }
}

/// The parts of a text determine it.
pub proof fn lemma_split_is_injective(a: Seq<char>, b: Seq<char>, sep: char)
    requires
        text::split(a, sep) == text::split(b, sep),
    ensures
        a == b,
{
    lemma_split_rejoins(a, sep, 0);
    lemma_split_rejoins(b, sep, 0);
    assert(a.skip(0) =~= a);
    assert(b.skip(0) =~= b);
}

proof fn lemma_split_rejoins(s: Seq<char>, sep: char, from: int)
    requires
        0 <= from <= s.len(),
    ensures
        text::split_from(s, sep, from).len() > 0,
        rejoined(text::split_from(s, sep, from), sep) == s.skip(from),
    decreases s.len() - from,
{
    text::lemma_next_sep(s, sep, from);
    let at = text::next_sep(s, sep, from);
    if at < s.len() {
        lemma_split_rejoins(s, sep, at + 1);
        let rest = text::split_from(s, sep, at + 1);
        let all = text::split_from(s, sep, from);
        assert(all =~= seq![s.subrange(from, at)] + rest);
        assert(all.drop_first() =~= rest);
        assert(s.subrange(from, at) + seq![sep] + s.skip(at + 1) =~= s.skip(from));
    } else {
        let all = text::split_from(s, sep, from);
        assert(all.len() == 1);
        assert(all[0] =~= s.skip(from));
    }
}

/// Parts with a separator between them.
spec fn rejoined(parts: Seq<Seq<char>>, sep: char) -> Seq<char>
    decreases parts.len(),
{
    if parts.len() == 0 {
        seq![]
    } else if parts.len() == 1 {
        parts[0]
    } else {
        parts[0] + seq![sep] + rejoined(parts.drop_first(), sep)
    }
}

/// A normalized path holds no backslash.
pub proof fn lemma_normalized_has_no_backslash(path: Seq<char>)
    ensures
        !normalized(path).contains('\\'),
{
    lemma_components_are_components(path);
    lemma_joined_chars(components(path));
}

/// Normalization keeps the components of a path, so normalizing twice is
/// normalizing once.
pub proof fn law_normalization_is_stable(path: Seq<char>)
    ensures
        components(normalized(path)) == components(path),
        normalized(normalized(path)) == normalized(path),
{
    let parts = components(path);
    let text = normalized(path);
    lemma_components_are_components(path);
    lemma_joined_chars(parts);
    assert(text::replaced(text, '\\', '/') =~= text);
    if parts.len() == 0 {
        assert(text.len() == 0);
        assert(text::split(text, '/') =~= seq![text.skip(0)]);
        assert(text.skip(0) =~= Seq::<char>::empty());
        reveal_with_fuel(nonempty, 2);
        assert(components(text) =~= parts);
    } else {
        lemma_split_joined(parts);
        assert forall|i: int| 0 <= i < parts.len() implies (#[trigger] parts[i]).len() > 0 by {
            assert(is_component(parts[i]));
        }
        lemma_nonempty_keeps(parts);
    }
}

// ---------------------------------------------------------------------------
// File names and extensions
// ---------------------------------------------------------------------------

/// The position of the last `c` in `s[..upto]`, or -1.
pub open spec fn last_index(s: Seq<char>, c: char, upto: int) -> int
    decreases upto,
{
    if upto <= 0 {
        -1
    } else if s[upto - 1] == c {
        upto - 1
    } else {
        last_index(s, c, upto - 1)
    }
}

/// The parts that are neither empty nor `.`, in order.
pub open spec fn named(parts: Seq<Seq<char>>) -> Seq<Seq<char>>
    decreases parts.len(),
{
    if parts.len() == 0 {
        seq![]
    } else if parts.last().len() == 0 || parts.last() == "."@ {
        named(parts.drop_last())
    } else {
        named(parts.drop_last()).push(parts.last())
    }
}

/// The steps of a path: `/` for the root, `.` where a relative path starts with it,
/// and the names.
pub open spec fn steps(path: Seq<char>) -> Seq<Seq<char>> {
    let parts = text::split(path, '/');
    let first = if path.len() > 0 && path[0] == '/' {
        seq!["/"@]
    } else if parts[0] == "."@ {
        seq!["."@]
    } else {
        seq![]
    };
    first + named(parts)
}

/// `inner` is `outer` or lies below it.
pub open spec fn is_within(inner: Seq<char>, outer: Seq<char>) -> bool {
    steps(outer).is_prefix_of(steps(inner))
}

/// The steps of a path.
pub fn steps_of(path: &str) -> (r: Vec<String>)
    ensures
        text::views(r@) == steps(path@),
{
    let parts = text::split_on(path, '/');
    let chars = text::chars_of(path);
    let mut out: Vec<String> = Vec::new();
    assert(text::views(parts@)[0] == parts@[0]@);
    if chars.len() > 0 && chars[0] == '/' {
        out.push("/".to_owned());
    } else if text::str_eq(parts[0].as_str(), ".") {
        out.push(".".to_owned());
    }
    let ghost first = text::views(out@);
    let mut i: usize = 0;
    assert(text::views(parts@).take(0) =~= Seq::<Seq<char>>::empty());
    assert(first =~= first + named(text::views(parts@).take(0)));
    while i < parts.len()
        invariant
            i <= parts@.len(),
            text::views(parts@) == text::split(path@, '/'),
            text::views(out@) == first + named(text::views(parts@).take(i as int)),
        decreases parts@.len() - i,
    {
        proof {
            let next = text::views(parts@).take(i + 1);
            assert(next.drop_last() =~= text::views(parts@).take(i as int));
            assert(next.last() == parts@[i as int]@);
        }
        if !parts[i].as_str().is_empty() && !text::str_eq(parts[i].as_str(), ".") {
            let ghost before = text::views(out@);
            out.push(parts[i].clone());
            assert(text::views(out@) =~= before.push(parts@[i as int]@));
            assert(text::views(out@) =~= first + named(text::views(parts@).take(i + 1)));
        }
        i = i + 1;
    }
    assert(text::views(parts@).take(parts@.len() as int) =~= text::views(parts@));
    assert(first =~= if path@.len() > 0 && path@[0] == '/' {
        seq!["/"@]
    } else if text::split(path@, '/')[0] == "."@ {
        seq!["."@]
    } else {
        seq![]
    });
    out
}

/// Test whether `inner` is `outer` or lies below it.
pub fn lies_within(inner: &str, outer: &str) -> (r: bool)
    ensures
        r == is_within(inner@, outer@),
{
    let a = steps_of(inner);
    let b = steps_of(outer);
    if b.len() > a.len() {
        return false;
    }
    let mut i: usize = 0;
    while i < b.len()
        invariant
            i <= b@.len() <= a@.len(),
            text::views(a@) == steps(inner@),
            text::views(b@) == steps(outer@),
            forall|k: int| 0 <= k < i ==> text::views(a@)[k] == #[trigger] text::views(b@)[k],
        decreases b@.len() - i,
    {
        if !text::str_eq(a[i].as_str(), b[i].as_str()) {
            assert(text::views(a@)[i as int] != text::views(b@)[i as int]);
            assert(text::views(a@).take(text::views(b@).len() as int)[i as int] == text::views(a@)[i as int]);
            return false;
        }
        i = i + 1;
    }
    assert(text::views(a@).take(text::views(b@).len() as int) =~= text::views(b@));
    true
}

/// A path from the root.
pub open spec fn is_rooted(path: Seq<char>) -> bool {
    path.len() > 0 && path[0] == '/'
}

/// Test whether a path starts at the root.
pub fn starts_at_root(path: &str) -> (r: bool)
    ensures
        r == is_rooted(path@),
{
    let chars = text::chars_of(path);
    chars.len() > 0 && chars[0] == '/'
}

/// A part of a path that names nothing.
pub open spec fn is_unnamed(part: Seq<char>) -> bool {
    part.len() == 0 || part == "."@
}

/// The parts from the first name on that stands behind `count` names.
pub open spec fn behind_names(parts: Seq<Seq<char>>, count: nat) -> Seq<Seq<char>>
    decreases parts.len(),
{
    if parts.len() == 0 {
        parts
    } else if is_unnamed(parts[0]) {
        behind_names(parts.skip(1), count)
    } else if count == 0 {
        parts
    } else {
        behind_names(parts.skip(1), (count - 1) as nat)
    }
}

/// The parts up to the last name.
pub open spec fn up_to_a_name(parts: Seq<Seq<char>>) -> Seq<Seq<char>>
    decreases parts.len(),
{
    if parts.len() > 0 && is_unnamed(parts.last()) {
        up_to_a_name(parts.drop_last())
    } else {
        parts
    }
}

/// The step in front of the names of a path.
pub open spec fn has_lead(path: Seq<char>) -> bool {
    is_rooted(path) || text::split(path, '/')[0] == "."@
}

/// The parts of a path behind its first `count` steps, without those that name nothing at
/// either end.
pub open spec fn behind_steps(path: Seq<char>, count: nat) -> Seq<Seq<char>> {
    let names = if has_lead(path) {
        count - 1
    } else {
        count as int
    };
    up_to_a_name(behind_names(text::split(path, '/'), names as nat))
}

/// What of a path is left behind `base`, as it is written there; a path elsewhere, and one
/// behind a base without steps, as it is.
pub open spec fn relative_to(path: Seq<char>, base: Seq<char>) -> Seq<char> {
    if is_within(path, base) && steps(base).len() > 0 {
        text::joined(behind_steps(path, steps(base).len()), "/"@)
    } else {
        path
    }
}

fn unnamed(part: &str) -> (r: bool)
    ensures
        r == is_unnamed(part@),
{
    part.is_empty() || text::str_eq(part, ".")
}

/// What of a path is left behind `base`, as it is written there; a path elsewhere, and one
/// behind a base without steps, as it is.
pub fn relative_path(path: &str, base: &str) -> (r: String)
    ensures
        r@ == relative_to(path@, base@),
{
    let count: usize = steps_of(base).len();
    if count == 0 || !lies_within(path, base) {
        return path.to_owned();
    }
    let parts = text::split_on(path, '/');
    let ghost all = text::views(parts@);
    assert(all[0] == parts@[0]@);
    let mut left: usize = if starts_at_root(path) || text::str_eq(parts[0].as_str(), ".") {
        count - 1
    } else {
        count
    };
    let ghost names = left as nat;
    let mut start: usize = 0;
    assert(all.skip(0) =~= all);
    while start < parts.len() && (left > 0 || unnamed(parts[start].as_str()))
        invariant
            start <= parts@.len(),
            all == text::views(parts@),
            behind_names(all, names) == behind_names(all.skip(start as int), left as nat),
        decreases parts@.len() - start,
    {
        proof {
            let here = all.skip(start as int);
            assert(here[0] == parts@[start as int]@);
            assert(here.skip(1) =~= all.skip(start + 1));
        }
        if !unnamed(parts[start].as_str()) {
            left = left - 1;
        }
        start = start + 1;
    }
    let ghost tail = all.skip(start as int);
    proof {
        if start < parts@.len() {
            assert(tail[0] == parts@[start as int]@);
        }
        assert(behind_names(all, names) == tail);
    }
    let mut end: usize = parts.len();
    assert(tail.take(tail.len() as int) =~= tail);
    while end > start && unnamed(parts[end - 1].as_str())
        invariant
            start <= end <= parts@.len(),
            all == text::views(parts@),
            tail == all.skip(start as int),
            up_to_a_name(tail) == up_to_a_name(tail.take(end - start)),
        decreases end - start,
    {
        proof {
            let here = tail.take(end - start);
            assert(here.last() == parts@[end - 1]@);
            assert(here.drop_last() =~= tail.take(end - start - 1));
        }
        end = end - 1;
    }
    proof {
        if end > start {
            assert(tail.take(end - start).last() == parts@[end - 1]@);
        }
        assert(up_to_a_name(tail) == tail.take(end - start));
    }
    let mut rest: Vec<String> = Vec::new();
    let mut i: usize = start;
    assert(text::views(rest@) =~= tail.take(0));
    while i < end
        invariant
            start <= i <= end <= parts@.len(),
            all == text::views(parts@),
            tail == all.skip(start as int),
            text::views(rest@) == tail.take(i - start),
        decreases end - i,
    {
        let ghost before = text::views(rest@);
        rest.push(parts[i].clone());
        proof {
            assert(text::views(rest@) =~= before.push(parts@[i as int]@));
            assert(tail[i - start] == parts@[i as int]@);
            assert(text::views(rest@) =~= tail.take(i + 1 - start));
        }
        i = i + 1;
    }
    text::join(&rest, "/")
}

/// `name` below `base`. An absolute name replaces the base.
pub open spec fn below(base: Seq<char>, name: Seq<char>) -> Seq<char> {
    if base.len() == 0 || (name.len() > 0 && name[0] == '/') {
        name
    } else if base.last() == '/' {
        base + name
    } else {
        base + "/"@ + name
    }
}

/// Put `name` below `base`. An absolute name replaces the base.
pub fn join_path(base: &str, name: &str) -> (r: String)
    ensures
        r@ == below(base@, name@),
{
    let b = text::chars_of(base);
    let n = text::chars_of(name);
    if b.len() == 0 || (n.len() > 0 && n[0] == '/') {
        name.to_owned()
    } else if b[b.len() - 1] == '/' {
        text::concat2(base, name)
    } else {
        text::concat3(base, "/", name)
    }
}

/// A step that names a file or a directory.
pub open spec fn is_name(part: Seq<char>) -> bool {
    &&& part.len() > 0
    &&& part != "."@
    &&& forall|k: int| 0 <= k < part.len() ==> #[trigger] part[k] != '/'
}

proof fn lemma_named_are_names(parts: Seq<Seq<char>>)
    requires
        forall|i: int, k: int|
            0 <= i < parts.len() && 0 <= k < parts[i].len() ==> #[trigger] parts[i][k] != '/',
    ensures
        forall|i: int| 0 <= i < named(parts).len() ==> is_name(#[trigger] named(parts)[i]),
    decreases parts.len(),
{
    if parts.len() > 0 {
        let rest = parts.drop_last();
        assert forall|i: int, k: int| 0 <= i < rest.len() && 0 <= k < rest[i].len() implies
            #[trigger] rest[i][k] != '/' by {
            assert(parts[i][k] != '/');
        }
        lemma_named_are_names(rest);
        let last = parts[parts.len() - 1];
        assert forall|k: int| 0 <= k < last.len() implies #[trigger] last[k] != '/' by {
            assert(parts[parts.len() - 1][k] != '/');
        }
        let before = named(rest);
        assert forall|i: int| 0 <= i < named(parts).len() implies is_name(
            #[trigger] named(parts)[i],
        ) by {
            if i < before.len() {
                assert(named(parts)[i] == before[i]);
            }
        }
    }
}

proof fn lemma_named_joins(a: Seq<Seq<char>>, b: Seq<Seq<char>>)
    ensures
        named(a + b) == named(a) + named(b),
    decreases b.len(),
{
    if b.len() == 0 {
        assert(a + b =~= a);
        assert(named(a) + named(b) =~= named(a));
    } else {
        lemma_named_joins(a, b.drop_last());
        assert((a + b).drop_last() =~= a + b.drop_last());
        assert((a + b).last() == b.last());
        if !is_unnamed(b.last()) {
            assert(named(a) + named(b.drop_last()).push(b.last()) =~= (named(a) + named(
                b.drop_last(),
            )).push(b.last()));
        }
    }
}

proof fn lemma_names_behind(parts: Seq<Seq<char>>, count: nat)
    requires
        count <= named(parts).len(),
    ensures
        named(behind_names(parts, count)) == named(parts).skip(count as int),
        behind_names(parts, count).len() > 0 ==> !is_unnamed(behind_names(parts, count)[0]),
        forall|k: int|
            0 <= k < behind_names(parts, count).len() ==> parts.contains(
                #[trigger] behind_names(parts, count)[k],
            ),
    decreases parts.len(),
{
    let found = behind_names(parts, count);
    if parts.len() == 0 {
        assert(named(parts).skip(0) =~= named(parts));
    } else {
        let (first, rest) = (parts.take(1), parts.skip(1));
        assert(parts =~= first + rest);
        lemma_named_joins(first, rest);
        assert(first.drop_last() =~= seq![]);
        assert(first.last() == parts[0]);
        assert(named(seq![]) == Seq::<Seq<char>>::empty());
        if is_unnamed(parts[0]) {
            assert(named(first) =~= seq![]);
            assert(named(parts) =~= named(rest));
            lemma_names_behind(rest, count);
        } else {
            assert(named(first) =~= seq![parts[0]]);
            if count == 0 {
                assert(named(parts).skip(0) =~= named(parts));
            } else {
                lemma_names_behind(rest, (count - 1) as nat);
                assert(named(parts).skip(count as int) =~= named(rest).skip(count - 1));
            }
        }
        assert forall|k: int| 0 <= k < found.len() implies parts.contains(#[trigger] found[k]) by {
            if found != parts {
                assert(rest.contains(found[k]));
                let m = choose|m: int| 0 <= m < rest.len() && rest[m] == found[k];
                assert(parts[m + 1] == found[k]);
            }
        }
    }
}

proof fn lemma_names_stay(parts: Seq<Seq<char>>)
    ensures
        named(up_to_a_name(parts)) == named(parts),
        up_to_a_name(parts).len() <= parts.len(),
        forall|k: int|
            0 <= k < up_to_a_name(parts).len() ==> #[trigger] up_to_a_name(parts)[k] == parts[k],
    decreases parts.len(),
{
    if parts.len() > 0 && is_unnamed(parts.last()) {
        lemma_names_stay(parts.drop_last());
    }
}

/// Parts that hold no separator.
spec fn are_parts(parts: Seq<Seq<char>>) -> bool {
    forall|i: int, k: int|
        0 <= i < parts.len() && 0 <= k < parts[i].len() ==> #[trigger] parts[i][k] != '/'
}

proof fn lemma_split_further(path: Seq<char>, rest: Seq<Seq<char>>)
    requires
        rest.len() > 0,
        are_parts(rest),
    ensures
        text::split(path + "/"@ + text::joined(rest, "/"@), '/') == text::split(path, '/') + rest,
    decreases rest.len(),
{
    reveal_strlit("/");
    let whole = text::joined(rest, "/"@);
    let last = rest[rest.len() - 1];
    assert forall|k: int| 0 <= k < last.len() implies #[trigger] last[k] != '/' by {
        assert(rest[rest.len() - 1][k] != '/');
    }
    if rest.len() == 1 {
        lemma_split_append(path, last, '/', 0);
        assert(path.push('/') + last =~= path + "/"@ + whole);
        assert(text::split(path, '/').push(last) =~= text::split(path, '/') + rest);
    } else {
        let fewer = rest.drop_last();
        assert forall|i: int, k: int| 0 <= i < fewer.len() && 0 <= k < fewer[i].len() implies
            #[trigger] fewer[i][k] != '/' by {
            assert(rest[i][k] != '/');
        }
        lemma_split_further(path, fewer);
        let head = path + "/"@ + text::joined(fewer, "/"@);
        lemma_split_append(head, last, '/', 0);
        assert(whole == text::joined(fewer, "/"@) + "/"@ + last);
        assert(head.push('/') + last =~= path + "/"@ + whole);
        assert((text::split(path, '/') + fewer).push(last) =~= text::split(path, '/') + rest);
    }
}

proof fn lemma_joined_starts(rest: Seq<Seq<char>>)
    requires
        rest.len() > 0,
        rest[0].len() > 0,
    ensures
        text::joined(rest, "/"@).len() > 0,
        text::joined(rest, "/"@)[0] == rest[0][0],
    decreases rest.len(),
{
    if rest.len() > 1 {
        lemma_joined_starts(rest.drop_last());
    }
}

proof fn lemma_steps_below(base: Seq<char>, rest: Seq<Seq<char>>)
    requires
        is_rooted(base),
        are_parts(rest),
        rest.len() > 0 ==> rest[0].len() > 0,
    ensures
        steps(below(base, text::joined(rest, "/"@))) == steps(base) + named(rest),
{
    reveal_strlit("/");
    let whole = text::joined(rest, "/"@);
    let end = base[base.len() - 1];
    let front = base.drop_last();
    if end == '/' {
        assert(base =~= front.push('/') + Seq::<char>::empty());
        lemma_split_append(front, seq![], '/', 0);
        assert(text::split(front, '/').push(seq![]).drop_last() =~= text::split(front, '/'));
        assert(named(text::split(base, '/')) == named(text::split(front, '/')));
    }
    if rest.len() == 0 {
        if end == '/' {
            assert(base + whole =~= base);
        } else {
            lemma_split_append(base, seq![], '/', 0);
            assert(base.push('/') + Seq::<char>::empty() =~= base + "/"@ + whole);
            assert(text::split(base, '/').push(seq![]).drop_last() =~= text::split(base, '/'));
        }
    } else {
        lemma_joined_starts(rest);
        assert(rest[0][0] != '/');
        if end == '/' {
            lemma_split_further(front, rest);
            assert(front + "/"@ + whole =~= base + whole);
            lemma_named_joins(text::split(front, '/'), rest);
        } else {
            lemma_split_further(base, rest);
            lemma_named_joins(text::split(base, '/'), rest);
        }
    }
    assert(steps(below(base, whole)) =~= steps(base) + named(rest));
}

/// What is relative to a directory leads back from there.
pub proof fn law_relative_paths_lead_back(path: Seq<char>, base: Seq<char>)
    requires
        is_rooted(base),
        is_within(path, base),
    ensures
        steps(below(base, relative_to(path, base))) == steps(path),
{
    reveal_strlit("/");
    reveal_strlit(".");
    let parts = text::split(path, '/');
    lemma_split_fields(path, '/', 0);
    lemma_named_are_names(parts);
    assert(steps(base)[0] == "/"@);
    assert(steps(path)[0] == "/"@) by {
        assert(steps(path).take(steps(base).len() as int)[0] == steps(path)[0]);
    }
    if !is_rooted(path) {
        if parts[0] == "."@ {
            assert("."@[0] != "/"@[0]);
        } else {
            assert(is_name(named(parts)[0]));
            assert("/"@[0] == '/');
        }
    }
    let count = steps(base).len();
    let names = (count - 1) as nat;
    let tail = behind_names(parts, names);
    let rest = behind_steps(path, count);
    assert(steps(path) =~= seq!["/"@] + named(parts));
    lemma_names_behind(parts, names);
    lemma_names_stay(tail);
    assert(are_parts(rest)) by {
        assert forall|i: int, k: int| 0 <= i < rest.len() && 0 <= k < rest[i].len() implies
            #[trigger] rest[i][k] != '/' by {
            assert(rest[i] == tail[i]);
            let m = choose|m: int| 0 <= m < parts.len() && parts[m] == tail[i];
            assert(parts[m][k] != '/');
        }
    }
    if rest.len() > 0 {
        assert(rest[0] == tail[0]);
    }
    lemma_steps_below(base, rest);
    assert(steps(base) + named(rest) =~= steps(path)) by {
        assert(steps(path).take(count as int) == steps(base));
        assert(named(parts).skip(names as int) =~= steps(path).skip(count as int));
    }
}

/// The last of `parts` that is neither empty nor `.`.
pub open spec fn last_named(parts: Seq<Seq<char>>) -> Option<Seq<char>>
    decreases parts.len(),
{
    if parts.len() == 0 {
        None
    } else if parts.last().len() == 0 || parts.last() == "."@ {
        last_named(parts.drop_last())
    } else {
        Some(parts.last())
    }
}

/// The file name of a path: its last component behind `/`, unless that is `..`.
pub open spec fn file_name(path: Seq<char>) -> Option<Seq<char>> {
    match last_named(text::split(path, '/')) {
        Some(name) => if name == ".."@ {
            None
        } else {
            Some(name)
        },
        None => None,
    }
}

/// What stands behind the last dot of a file name; a leading dot starts none.
pub open spec fn name_extension(name: Seq<char>) -> Option<Seq<char>> {
    let dot = last_index(name, '.', name.len() as int);
    if dot <= 0 {
        None
    } else {
        Some(name.skip(dot + 1))
    }
}

/// The extension of a path, without its dot.
pub open spec fn extension(path: Seq<char>) -> Option<Seq<char>> {
    match file_name(path) {
        Some(name) => name_extension(name),
        None => None,
    }
}

/// The view of an optional string.
pub open spec fn opt_view(s: Option<String>) -> Option<Seq<char>> {
    match s {
        Some(text) => Some(text@),
        None => None,
    }
}

/// The file name of a path.
pub fn file_name_of(path: &str) -> (r: Option<String>)
    ensures
        opt_view(r) == file_name(path@),
{
    let parts = text::split_on(path, '/');
    let mut i: usize = parts.len();
    assert(text::views(parts@).take(parts@.len() as int) =~= text::views(parts@));
    while i > 0
        invariant
            i <= parts@.len(),
            text::views(parts@) == text::split(path@, '/'),
            last_named(text::split(path@, '/')) == last_named(text::views(parts@).take(i as int)),
        decreases i,
    {
        let part = &parts[i - 1];
        proof {
            let now = text::views(parts@).take(i as int);
            assert(now.drop_last() =~= text::views(parts@).take(i - 1));
            assert(now.last() == part@);
        }
        if part.as_str().is_empty() || text::str_eq(part.as_str(), ".") {
            i = i - 1;
        } else if text::str_eq(part.as_str(), "..") {
            return None;
        } else {
            return Some(part.clone());
        }
    }
    None
}

/// What stands behind the last dot of a file name; a leading dot starts none.
pub fn name_extension_of(name: &str) -> (r: Option<String>)
    ensures
        opt_view(r) == name_extension(name@),
{
    let chars = text::chars_of(name);
    let mut i: usize = chars.len();
    while i > 0 && chars[i - 1] != '.'
        invariant
            i <= chars@.len(),
            chars@ == name@,
            last_index(name@, '.', name@.len() as int) == last_index(name@, '.', i as int),
        decreases i,
    {
        i = i - 1;
    }
    if i <= 1 {
        return None;
    }
    let tail = text::string_of(&chars, i, chars.len());
    assert(tail@ =~= name@.skip(i as int));
    Some(tail)
}

/// The extension of a path, without its dot.
pub fn extension_of(path: &str) -> (r: Option<String>)
    ensures
        opt_view(r) == extension(path@),
{
    match file_name_of(path) {
        Some(name) => name_extension_of(name.as_str()),
        None => None,
    }
}

// ---------------------------------------------------------------------------
// Laws of paths
// ---------------------------------------------------------------------------

proof fn lemma_nonempty_joins(a: Seq<Seq<char>>, b: Seq<Seq<char>>)
    ensures
        nonempty(a + b) == nonempty(a) + nonempty(b),
    decreases b.len(),
{
    if b.len() > 0 {
        assert((a + b).drop_last() =~= a + b.drop_last());
        assert((a + b).last() == b.last());
        lemma_nonempty_joins(a, b.drop_last());
        assert(nonempty(a + b) =~= nonempty(a) + nonempty(b));
    } else {
        assert(a + b =~= a);
        assert(nonempty(a) + nonempty(b) =~= nonempty(a));
    }
}

/// A text without separators is its own only component, unless it is empty. A path with a
/// separator in it, `/` or `\`, has the components of what stands in front of it, and then
/// those of what stands behind it.
pub proof fn law_components_stand_between_separators(a: Seq<char>, b: Seq<char>)
    ensures
        a.len() == 0 ==> components(a) == Seq::<Seq<char>>::empty(),
        a.len() > 0 && !a.contains('/') && !a.contains('\\') ==> components(a) == seq![a],
        components(a + seq!['/'] + b) == components(a) + components(b),
        components(a + seq!['\\'] + b) == components(a) + components(b),
{
    let (x, y) = (text::replaced(a, '\\', '/'), text::replaced(b, '\\', '/'));
    text::law_fields_stand_between_separators(x, y, '/');
    lemma_nonempty_joins(text::split(x, '/'), text::split(y, '/'));
    assert(text::replaced(a + seq!['/'] + b, '\\', '/') =~= x + seq!['/'] + y);
    assert(text::replaced(a + seq!['\\'] + b, '\\', '/') =~= x + seq!['/'] + y);
    if !a.contains('/') && !a.contains('\\') {
        assert(x =~= a) by {
            assert forall|k: int| 0 <= k < a.len() implies x[k] == a[k] by {
                assert(a.contains(a[k]));
            }
        }
        assert(text::split(x, '/') == seq![a]);
        reveal_with_fuel(nonempty, 2);
        assert(seq![a].drop_last() =~= Seq::<Seq<char>>::empty());
        assert(nonempty(seq![a]) =~= if a.len() > 0 {
            seq![a]
        } else {
            seq![]
        });
    }
}

/// A normalized path has no separator at its ends, no backslash, and `/` between components
/// that hold neither separator.
pub proof fn law_normalized_paths_have_plain_components(path: Seq<char>, i: int)
    requires
        0 <= i < components(path).len(),
    ensures
        components(path)[i].len() > 0,
        !components(path)[i].contains('/'),
        !components(path)[i].contains('\\'),
        !normalized(path).contains('\\'),
        normalized(path) == text::joined(components(path), seq!['/']),
{
    lemma_components_are_components(path);
    lemma_normalized_has_no_backslash(path);
    let part = components(path)[i];
    assert(is_component(part));
}

proof fn lemma_last_index(s: Seq<char>, c: char, upto: int)
    requires
        0 <= upto <= s.len(),
    ensures
        -1 <= last_index(s, c, upto) < upto,
        last_index(s, c, upto) >= 0 ==> s[last_index(s, c, upto)] == c,
        forall|k: int| last_index(s, c, upto) < k < upto ==> #[trigger] s[k] != c,
    decreases upto,
{
    if upto > 0 && s[upto - 1] != c {
        lemma_last_index(s, c, upto - 1);
    }
}

proof fn lemma_name_extension(stem: Seq<char>, ext: Seq<char>)
    requires
        stem.len() > 0,
        !ext.contains('.'),
    ensures
        name_extension(stem + seq!['.'] + ext) == Some(ext),
{
    let name = stem + seq!['.'] + ext;
    lemma_last_index(name, '.', name.len() as int);
    let dot = last_index(name, '.', name.len() as int);
    assert(name[stem.len() as int] == '.');
    if dot > stem.len() {
        assert(name[dot] == ext[dot - stem.len() - 1]);
        assert(ext.contains('.'));
    }
    assert(name.skip(dot + 1) =~= ext);
}

/// The extension of a path is what stands behind the last dot of its file name, whatever
/// directory the file is in.
pub proof fn law_extensions_stand_behind_the_last_dot(
    directory: Seq<char>,
    stem: Seq<char>,
    ext: Seq<char>,
)
    requires
        stem.len() > 0,
        !stem.contains('/'),
        !ext.contains('/'),
        !ext.contains('.'),
        stem != "."@ || ext.len() > 0,
    ensures
        extension(stem + seq!['.'] + ext) == Some(ext),
        extension(directory + seq!['/'] + (stem + seq!['.'] + ext)) == Some(ext),
        file_name(directory + seq!['/'] + (stem + seq!['.'] + ext)) == Some(
            stem + seq!['.'] + ext,
        ),
{
    reveal_strlit(".");
    reveal_strlit("..");
    let name = stem + seq!['.'] + ext;
    lemma_name_extension(stem, ext);
    assert(!name.contains('/')) by {
        if name.contains('/') {
            let k = choose|k: int| 0 <= k < name.len() && name[k] == '/';
            if k < stem.len() {
                assert(stem[k] == '/');
            } else if k > stem.len() {
                assert(ext[k - stem.len() - 1] == '/');
            }
        }
    }
    assert(name != "."@ && name.len() > 0) by {
        assert(name.len() >= 2);
    }
    assert(name != ".."@) by {
        if name == ".."@ {
            assert(stem =~= "."@) by {
                assert(stem.len() == 1 || ext.len() == 0);
                if stem.len() == 2 {
                    assert(name.len() >= 3);
                }
                assert(name[0] == '.');
            }
        }
    }
    text::law_fields_stand_between_separators(name, seq![], '/');
    text::law_fields_stand_between_separators(directory, name, '/');
    assert(text::split(name, '/') == seq![name]);
    let parts = text::split(directory, '/') + seq![name];
    assert(parts.last() == name);
    assert(seq![name].last() == name);
}

/// A path lies within itself, and whatever lies within a path lies within what that path
/// lies in.
pub proof fn law_within_is_an_order(a: Seq<char>, b: Seq<char>, c: Seq<char>)
    ensures
        is_within(a, a),
        is_within(a, b) && is_within(b, c) ==> is_within(a, c),
        is_within(a, b) && is_within(b, a) ==> steps(a) == steps(b),
{
    let (x, y, z) = (steps(a), steps(b), steps(c));
    assert(x.take(x.len() as int) =~= x);
    if is_within(a, b) && is_within(b, c) {
        assert(x.take(z.len() as int) =~= y.take(z.len() as int));
    }
    if is_within(a, b) && is_within(b, a) {
        assert(x =~= y);
    }
}

/// The names of a path are what stands between its `/`, without empty parts and `.`. They
/// stand behind the root, where the path starts at the root.
pub proof fn law_steps_are_the_names_of_a_path(base: Seq<char>, name: Seq<char>)
    requires
        base.len() > 0,
        name.len() > 0,
        !name.contains('/'),
    ensures
        steps(base + seq!['/'] + name) == (if name == "."@ {
            steps(base)
        } else {
            steps(base).push(name)
        }),
        is_within(base + seq!['/'] + name, base),
        is_within(base, base + seq!['/'] + name) ==> name == "."@,
{
    let whole = base + seq!['/'] + name;
    text::law_fields_stand_between_separators(base, name, '/');
    text::law_fields_stand_between_separators(name, seq![], '/');
    let parts = text::split(base, '/');
    assert(text::split(whole, '/') =~= parts.push(name));
    assert(parts.push(name).drop_last() =~= parts);
    lemma_split_fields(base, '/', 0);
    assert(text::split(whole, '/')[0] == parts[0]);
    assert(whole[0] == base[0]);
    assert(steps(whole) =~= (if name == "."@ {
        steps(base)
    } else {
        steps(base).push(name)
    }));
    assert(steps(whole).take(steps(base).len() as int) =~= steps(base));
}

/// A path of names with single `/` between them: none of its parts at either end is empty or
/// `.`.
pub open spec fn is_plain_path(path: Seq<char>) -> bool {
    let parts = text::split(path, '/');
    !is_unnamed(parts[0]) && !is_unnamed(parts.last())
}

proof fn lemma_behind_all_names(a: Seq<Seq<char>>, b: Seq<Seq<char>>)
    ensures
        behind_names(a + b, named(a).len()) == behind_names(b, 0),
    decreases a.len(),
{
    if a.len() > 0 {
        let rest = a.skip(1);
        assert((a + b).skip(1) =~= rest + b);
        lemma_behind_all_names(rest, b);
        lemma_named_from_the_front(a);
    } else {
        assert(a + b =~= b);
    }
}

proof fn lemma_named_from_the_front(a: Seq<Seq<char>>)
    requires
        a.len() > 0,
    ensures
        named(a).len() == named(a.skip(1)).len() + if is_unnamed(a[0]) {
            0nat
        } else {
            1nat
        },
    decreases a.len(),
{
    let last = a.last();
    if a.len() > 1 {
        lemma_named_from_the_front(a.drop_last());
        assert(a.skip(1).drop_last() =~= a.drop_last().skip(1));
        assert(a.skip(1).last() == last);
        assert(a.drop_last()[0] == a[0]);
    } else {
        assert(a.skip(1) =~= seq![]);
        assert(a.drop_last() =~= seq![]);
        assert(named(a.skip(1)) =~= seq![]);
        assert(named(a.drop_last()) =~= seq![]);
    }
}

proof fn lemma_rejoined_is_joined(parts: Seq<Seq<char>>)
    requires
        parts.len() > 0,
    ensures
        rejoined(parts, '/') == text::joined(parts, seq!['/']),
    decreases parts.len(),
{
    if parts.len() > 1 {
        lemma_rejoined_grows(parts.drop_last(), parts.last());
        assert(parts.drop_last().push(parts.last()) =~= parts);
        lemma_rejoined_is_joined(parts.drop_last());
    }
}

proof fn lemma_rejoined_grows(parts: Seq<Seq<char>>, last: Seq<char>)
    requires
        parts.len() > 0,
    ensures
        rejoined(parts.push(last), '/') == rejoined(parts, '/') + seq!['/'] + last,
    decreases parts.len(),
{
    let all = parts.push(last);
    reveal_with_fuel(rejoined, 2);
    if parts.len() > 1 {
        assert(all.drop_first() =~= parts.drop_first().push(last));
        lemma_rejoined_grows(parts.drop_first(), last);
        assert(rejoined(all, '/') =~= rejoined(parts, '/') + seq!['/'] + last);
    } else {
        assert(all.drop_first() =~= seq![last]);
        assert(rejoined(all, '/') =~= rejoined(parts, '/') + seq!['/'] + last);
    }
}

/// What stands below a directory is read back as it was put there.
pub proof fn law_relative_paths_are_read_back(base: Seq<char>, path: Seq<char>)
    requires
        is_plain_path(path),
        base.len() > 0,
        steps(base).len() > 0,
    ensures
        is_within(base + seq!['/'] + path, base),
        relative_to(base + seq!['/'] + path, base) == path,
{
    reveal_strlit("/");
    let whole = base + seq!['/'] + path;
    let (a, b) = (text::split(base, '/'), text::split(path, '/'));
    text::law_fields_stand_between_separators(base, path, '/');
    lemma_split_fields(base, '/', 0);
    lemma_split_fields(path, '/', 0);
    assert(text::split(whole, '/') == a + b);
    assert((a + b)[0] == a[0]);
    assert(whole[0] == base[0]);
    lemma_named_joins(a, b);
    assert(steps(whole) =~= steps(base) + named(b));
    assert(steps(whole).take(steps(base).len() as int) =~= steps(base));
    lemma_behind_all_names(a, b);
    assert(behind_names(b, 0) == b);
    assert(up_to_a_name(b) == b);
    assert(behind_steps(whole, steps(base).len()) == b);
    lemma_split_rejoins(path, '/', 0);
    lemma_rejoined_is_joined(b);
    assert(path.skip(0) =~= path);
    assert("/"@ =~= seq!['/']);
}

proof fn lemma_last_index_of_none(s: Seq<char>, c: char, upto: int)
    requires
        0 <= upto <= s.len(),
        forall|k: int| 0 < k < upto ==> s[k] != c,
    ensures
        last_index(s, c, upto) <= 0,
    decreases upto,
{
    if upto > 0 {
        lemma_last_index_of_none(s, c, upto - 1);
    }
}

/// A file name whose only dot is its first character has no extension, and one without a dot
/// has none either.
pub proof fn law_a_leading_dot_starts_no_extension(name: Seq<char>)
    requires
        forall|k: int| 0 < k < name.len() ==> name[k] != '.',
    ensures
        name_extension(name) is None,
{
    lemma_last_index_of_none(name, '.', name.len() as int);
}

} // verus!
