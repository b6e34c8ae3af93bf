//! The lexical channel: query terms, the ripgrep command line, and its matches.

use crate::order::{self, Ranked};
use crate::{language, paths, text, unicode};
use vstd::prelude::*;
use vstd::utf8::*;

verus! {

/// A line that matches a term of the query.
#[derive(Debug)]
pub struct LexicalMatch {
    pub relative_path: String,
    pub line: u32,
}

/// What a [`LexicalMatch`] says.
pub struct LexicalMatchView {
    pub relative_path: Seq<char>,
    pub line: u32,
}

impl View for LexicalMatch {
    type V = LexicalMatchView;

    open spec fn view(&self) -> LexicalMatchView {
        LexicalMatchView { relative_path: self.relative_path@, line: self.line }
    }
}

pub open spec fn match_views(matches: Seq<LexicalMatch>) -> Seq<LexicalMatchView> {
    matches.map_values(|m: LexicalMatch| m@)
}

// ---------------------------------------------------------------------------
// Terms
// ---------------------------------------------------------------------------

/// A word that says too little to search for.
pub open spec fn is_stop_word(term: Seq<char>) -> bool {
    ||| term == "the"@
    ||| term == "and"@
    ||| term == "into"@
    ||| term == "from"@
    ||| term == "that"@
    ||| term == "this"@
    ||| term == "with"@
    ||| term == "where"@
    ||| term == "code"@
    ||| term == "generated"@
    ||| term == "given"@
    ||| term == "retrieve"@
    ||| term == "relevant"@
}

/// A character of a term.
pub open spec fn is_term_char(c: char) -> bool {
    unicode::alphanumeric(c) || c == '_' || c == '#'
}

/// The runs of term characters between all others.
pub open spec fn fields(query: Seq<char>) -> Seq<Seq<char>>
    decreases query.len(),
{
    if query.len() == 0 {
        seq![seq![]]
    } else {
        let before = fields(query.drop_last());
        if is_term_char(query.last()) {
            before.drop_last().push(before.last().push(query.last()))
        } else {
            before.push(seq![])
        }
    }
}

/// A text without `#` at its start.
pub open spec fn without_leading_hash(s: Seq<char>) -> Seq<char>
    decreases s.len(),
{
    if s.len() > 0 && s[0] == '#' {
        without_leading_hash(s.skip(1))
    } else {
        s
    }
}

/// A text without `#` at its end.
pub open spec fn without_trailing_hash(s: Seq<char>) -> Seq<char>
    decreases s.len(),
{
    if s.len() > 0 && s.last() == '#' {
        without_trailing_hash(s.drop_last())
    } else {
        s
    }
}

/// The term of a run of characters.
pub open spec fn term_of(field: Seq<char>) -> Seq<char> {
    unicode::lowercase(without_trailing_hash(without_leading_hash(field)))
}

/// A term of at least three bytes that says something.
pub open spec fn is_useful(term: Seq<char>) -> bool {
    encode_utf8(term).len() >= 3 && !is_stop_word(term)
}

/// The useful ones of some words, in order.
pub open spec fn useful_terms(words: Seq<Seq<char>>) -> Seq<Seq<char>>
    decreases words.len(),
{
    if words.len() == 0 {
        seq![]
    } else {
        let before = useful_terms(words.drop_last());
        if is_useful(words.last()) {
            before.push(words.last())
        } else {
            before
        }
    }
}

pub open spec fn by_length() -> spec_fn(Seq<char>, Seq<char>) -> bool {
    |a: Seq<char>, b: Seq<char>| encode_utf8(a).len() > encode_utf8(b).len()
}

/// How many terms are searched for.
pub const MAX_TERMS: usize = 12;

/// The words of a query.
pub open spec fn query_words(query: Seq<char>) -> Seq<Seq<char>> {
    fields(query).map_values(|field: Seq<char>| term_of(field))
}

/// The terms of a query.
pub open spec fn query_terms(query: Seq<char>) -> Seq<Seq<char>> {
    chosen_terms(query_words(query))
}

/// The terms among some words: the useful ones, the longest first, then in their order,
/// each once, at most twelve.
pub open spec fn chosen_terms(words: Seq<Seq<char>>) -> Seq<Seq<char>> {
    let all = order::sorted_by(order::ascending_list(useful_terms(words)), by_length());
    if all.len() > MAX_TERMS {
        all.take(MAX_TERMS as int)
    } else {
        all
    }
}

fn stop_word(term: &str) -> (r: bool)
    ensures
        r == is_stop_word(term@),
{
    text::str_eq(term, "the") || text::str_eq(term, "and") || text::str_eq(term, "into")
        || text::str_eq(term, "from") || text::str_eq(term, "that") || text::str_eq(term, "this")
        || text::str_eq(term, "with") || text::str_eq(term, "where") || text::str_eq(term, "code")
        || text::str_eq(term, "generated") || text::str_eq(term, "given") || text::str_eq(
        term,
        "retrieve",
    ) || text::str_eq(term, "relevant")
}

fn field_texts(query: &str) -> (r: Vec<String>)
    ensures
        text::views(r@) == fields(query@),
        forall|k: int|
            0 <= k < query@.len() && (query@[k] as u32) < 0x80 ==> unicode::alphanumeric(
                #[trigger] query@[k],
            ) == unicode::ascii_alphanumeric(query@[k]),
{
    let chars = text::chars_of(query);
    let ghost all = query@;
    let mut done: Vec<String> = Vec::new();
    let mut current = String::new();
    let mut i: usize = 0;
    proof {
        assert(all.take(0) =~= seq![]);
        assert(text::views(done@).push(current@) =~= seq![seq![]]);
    }
    while i < chars.len()
        invariant
            i <= chars@.len(),
            all == query@,
            chars@ == all,
            text::views(done@).push(current@) == fields(all.take(i as int)),
            forall|k: int|
                0 <= k < i && (all[k] as u32) < 0x80 ==> unicode::alphanumeric(#[trigger] all[k])
                    == unicode::ascii_alphanumeric(all[k]),
        decreases chars@.len() - i,
    {
        let c = chars[i];
        let ghost before = text::views(done@).push(current@);
        proof {
            let next = all.take(i + 1);
            assert(next.drop_last() =~= all.take(i as int));
            assert(next.last() == c);
            assert(before.drop_last() =~= text::views(done@));
            assert(before.last() == current@);
        }
        if unicode::is_alphanumeric(c) || c == '_' || c == '#' {
            current.push(c);
        } else {
            let ghost old_done = text::views(done@);
            let ghost old_current = current@;
            done.push(current);
            current = String::new();
            assert(text::views(done@) =~= old_done.push(old_current));
            assert(current@ =~= seq![]);
        }
        i = i + 1;
    }
    assert(all.take(all.len() as int) =~= all);
    let ghost old_done = text::views(done@);
    let ghost old_current = current@;
    done.push(current);
    assert(text::views(done@) =~= old_done.push(old_current));
    done
}

proof fn lemma_leading_hash(s: Seq<char>, n: int)
    requires
        0 <= n <= s.len(),
        forall|k: int| 0 <= k < n ==> s[k] == '#',
    ensures
        without_leading_hash(s) == without_leading_hash(s.skip(n)),
    decreases n,
{
    if n > 0 {
        assert(s.skip(1).skip(n - 1) =~= s.skip(n));
        lemma_leading_hash(s.skip(1), n - 1);
    } else {
        assert(s.skip(0) =~= s);
    }
}

proof fn lemma_trailing_hash(s: Seq<char>, n: int)
    requires
        0 <= n <= s.len(),
        forall|k: int| n <= k < s.len() ==> s[k] == '#',
    ensures
        without_trailing_hash(s) == without_trailing_hash(s.take(n)),
    decreases s.len() - n,
{
    if n < s.len() {
        assert(s.drop_last().take(n) =~= s.take(n));
        lemma_trailing_hash(s.drop_last(), n);
    } else {
        assert(s.take(n) =~= s);
    }
}

fn term_text(field: &str) -> (r: String)
    ensures
        r@ == term_of(field@),
        ({
            let core = without_trailing_hash(without_leading_hash(field@));
            unicode::is_ascii_text(core) ==> r@ == text::ascii_lowered(core)
        }),
{
    let chars = text::chars_of(field);
    let mut start: usize = 0;
    while start < chars.len() && chars[start] == '#'
        invariant
            start <= chars@.len(),
            forall|k: int| 0 <= k < start ==> chars@[k] == '#',
        decreases chars@.len() - start,
    {
        start = start + 1;
    }
    let ghost tail = field@.skip(start as int);
    proof {
        lemma_leading_hash(field@, start as int);
        assert(without_leading_hash(tail) == tail);
    }
    let mut end: usize = chars.len();
    while end > start && chars[end - 1] == '#'
        invariant
            start <= end <= chars@.len(),
            forall|k: int| end <= k < chars@.len() ==> chars@[k] == '#',
        decreases end - start,
    {
        end = end - 1;
    }
    let inner = text::string_of(&chars, start, end);
    proof {
        assert forall|k: int| end - start <= k < tail.len() implies tail[k] == '#' by {
            assert(tail[k] == chars@[start + k]);
        }
        lemma_trailing_hash(tail, end - start);
        assert(tail.take(end - start) =~= inner@);
    }
    unicode::to_lowercase(inner.as_str())
}

/// A term, ordered by its length.
struct Term {
    text: String,
    size: usize,
}

impl Term {
    spec fn fits(self) -> bool {
        self.size == encode_utf8(self.text@).len()
    }
}

impl Ranked for Term {
    closed spec fn below(self, other: Self) -> bool {
        self.size > other.size
    }

    proof fn asymmetric(a: Self, b: Self) {
    }

    proof fn weakly_ordered(a: Self, b: Self, c: Self) {
    }

    fn is_below(&self, other: &Self) -> (r: bool) {
        self.size > other.size
    }
}

/// A character of an identifier in lower case.
pub open spec fn plain_identifier_char(c: char) -> bool {
    'a' <= c <= 'z' || '0' <= c <= '9' || c == '_'
}

/// An identifier of ASCII letters in lower case, digits and underscores that is long enough
/// to search for and no stop word.
pub open spec fn is_plain_identifier(s: Seq<char>) -> bool {
    &&& s.len() >= 3
    &&& forall|k: int| 0 <= k < s.len() ==> plain_identifier_char(#[trigger] s[k])
    &&& says_something(s)
}

/// A word is none of those that say too little.
pub open spec fn says_something(s: Seq<char>) -> bool {
    !set![
        "the"@,
        "and"@,
        "into"@,
        "from"@,
        "that"@,
        "this"@,
        "with"@,
        "where"@,
        "code"@,
        "generated"@,
        "given"@,
        "retrieve"@,
        "relevant"@,
    ].contains(s)
}

proof fn lemma_one_field(query: Seq<char>)
    requires
        forall|k: int| 0 <= k < query.len() ==> #[trigger] is_term_char(query[k]),
    ensures
        fields(query) == seq![query],
    decreases query.len(),
{
    if query.len() > 0 {
        let rest = query.drop_last();
        assert forall|k: int| 0 <= k < rest.len() implies #[trigger] is_term_char(rest[k]) by {
            assert(rest[k] == query[k]);
        }
        lemma_one_field(rest);
        assert(is_term_char(query[query.len() - 1]));
        assert(rest.push(query.last()) =~= query);
        assert(fields(query) =~= seq![query]);
    } else {
        assert(fields(query) =~= seq![query]) by {
            assert(query =~= seq![]);
        }
    }
}

proof fn lemma_ascii_bytes(s: Seq<char>)
    ensures
        encode_utf8(s).len() >= s.len(),
    decreases s.len(),
{
    if s.len() > 0 {
        encode_utf8_first_scalar(s);
        lemma_ascii_bytes(s.drop_first());
    }
}

proof fn lemma_one_term(word: Seq<char>)
    requires
        encode_utf8(word).len() >= 3,
        says_something(word),
    ensures
        chosen_terms(seq![word]) == seq![word],
{
    let one = seq![word];
    assert(one.drop_last() =~= seq![]);
    assert(useful_terms(one.drop_last()) =~= seq![]);
    assert(useful_terms(one) =~= one);
    order::lemma_ascending_list(one);
    let list = order::ascending_list(one);
    order::law_members_determine_an_ascending_list(list, one);
    assert(list == one);
    assert(order::sorted_by(one.drop_last(), by_length()) =~= seq![]);
    assert(order::sorted_by(one, by_length()) =~= one);
}

/// The useful terms of a query: the longest first, then in alphabetical order, at most
/// twelve.
pub fn terms(query: &str) -> (r: Vec<String>)
    ensures
        text::views(r@) == query_terms(query@),
        is_plain_identifier(query@) ==> text::views(r@) == seq![query@],
{
    let runs = field_texts(query);
    let mut words: Vec<String> = Vec::new();
    let mut i: usize = 0;
    while i < runs.len()
        invariant
            i <= runs@.len(),
            text::views(runs@) == fields(query@),
            words@.len() == i,
            forall|k: int| 0 <= k < i ==> (#[trigger] words@[k])@ == query_words(query@)[k],
            forall|k: int|
                0 <= k < i ==> ({
                    let core = without_trailing_hash(without_leading_hash(runs@[k]@));
                    unicode::is_ascii_text(core) ==> (#[trigger] words@[k])@
                        == text::ascii_lowered(core)
                }),
        decreases runs@.len() - i,
    {
        assert(text::views(runs@)[i as int] == runs@[i as int]@);
        words.push(term_text(runs[i].as_str()));
        i = i + 1;
    }
    proof {
        assert(text::views(runs@).len() == runs@.len());
        assert(text::views(words@) =~= query_words(query@));
        if is_plain_identifier(query@) {
            assert forall|k: int| 0 <= k < query@.len() implies #[trigger] is_term_char(
                query@[k],
            ) by {
                assert(plain_identifier_char(query@[k]));
            }
            lemma_one_field(query@);
            assert(text::views(runs@)[0] == query@);
            assert(runs@[0]@ == query@);
            assert(plain_identifier_char(query@[0]) && plain_identifier_char(
                query@[query@.len() - 1],
            ));
            assert(unicode::is_ascii_text(query@)) by {
                assert forall|k: int| 0 <= k < query@.len() implies (#[trigger] query@[k] as u32)
                    < 0x80 by {
                    assert(plain_identifier_char(query@[k]));
                }
            }
            assert(text::ascii_lowered(query@) =~= query@) by {
                assert forall|k: int| 0 <= k < query@.len() implies text::ascii_lowered(
                    query@,
                )[k] == query@[k] by {
                    assert(plain_identifier_char(query@[k]));
                }
            }
            assert(words@[0]@ == query@);
            assert(query_words(query@) =~= seq![query@]);
            lemma_ascii_bytes(query@);
            lemma_one_term(query@);
        }
    }
    choose_terms(&words)
}

/// Choose the terms to search for among some words in lower case.
pub fn choose_terms(words: &[String]) -> (r: Vec<String>)
    ensures
        text::views(r@) == chosen_terms(text::views(words@)),
{
    let ghost all = text::views(words@);
    let mut useful: Vec<String> = Vec::new();
    let mut i: usize = 0;
    proof {
        assert(all.take(0) =~= seq![]);
        assert(text::views(useful@) =~= seq![]);
    }
    while i < words.len()
        invariant
            i <= words@.len(),
            all == text::views(words@),
            text::views(useful@) == useful_terms(all.take(i as int)),
        decreases words@.len() - i,
    {
        proof {
            let next = all.take(i + 1);
            assert(next.drop_last() =~= all.take(i as int));
            assert(next.last() == words@[i as int]@);
        }
        let term = words[i].as_str();
        if term.as_bytes().len() >= 3 && !stop_word(term) {
            let ghost before = text::views(useful@);
            useful.push(words[i].clone());
            assert(text::views(useful@) =~= before.push(words@[i as int]@));
        }
        i = i + 1;
    }
    assert(all.take(all.len() as int) =~= all);
    let distinct = order::distinct(&useful);
    let ghost names = text::views(distinct@);
    let mut sized: Vec<Term> = Vec::new();
    let mut k: usize = 0;
    while k < distinct.len()
        invariant
            k <= distinct@.len(),
            sized@.len() == k,
            forall|j: int|
                0 <= j < k ==> (#[trigger] sized@[j]).fits() && sized@[j].text@ == distinct@[j]@,
        decreases distinct@.len() - k,
    {
        let size: usize = distinct[k].as_str().as_bytes().len();
        sized.push(Term { text: distinct[k].clone(), size });
        k = k + 1;
    }
    let ghost unsorted = sized@;
    let sorted = order::sort(sized);
    proof {
        assert(unsorted.map_values(|term: Term| term.text@) =~= names);
        lemma_term_order(unsorted);
        order::lemma_rank_is_an_order::<Term>();
        order::law_sorting_orders_the_items(unsorted, order::rank::<Term>());
    }
    let ghost final_names = order::sorted_by(names, by_length());
    let mut out: Vec<String> = Vec::new();
    let mut n: usize = 0;
    while n < sorted.len() && n < MAX_TERMS
        invariant
            n <= sorted@.len(),
            n <= MAX_TERMS,
            out@.len() == n,
            forall|j: int| 0 <= j < n ==> (#[trigger] out@[j])@ == sorted@[j].text@,
        decreases sorted@.len() - n,
    {
        out.push(sorted[n].text.clone());
        n = n + 1;
    }
    proof {
        assert(final_names == sorted@.map_values(|term: Term| term.text@));
        assert(text::views(out@) =~= final_names.take(n as int));
        if n == sorted@.len() {
            assert(final_names.take(n as int) =~= final_names);
        }
    }
    out
}

proof fn lemma_term_insert(list: Seq<Term>, x: Term)
    requires
        forall|i: int| 0 <= i < list.len() ==> (#[trigger] list[i]).fits(),
        x.fits(),
    ensures
        order::inserted_by(list, x, order::rank::<Term>()).map_values(|term: Term| term.text@)
            == order::inserted_by(
            list.map_values(|term: Term| term.text@),
            x.text@,
            by_length(),
        ),
        forall|i: int|
            0 <= i < order::inserted_by(list, x, order::rank::<Term>()).len() ==> (
            #[trigger] order::inserted_by(list, x, order::rank::<Term>())[i]).fits(),
    decreases list.len(),
{
    let f = |term: Term| term.text@;
    let mapped = list.map_values(f);
    if list.len() > 0 {
        assert(list[list.len() - 1].fits());
        assert(mapped.last() == list.last().text@);
        assert(mapped.drop_last() =~= list.drop_last().map_values(f));
    }
    if list.len() == 0 || !x.below(list.last()) {
        assert(list.push(x).map_values(f) =~= mapped.push(x.text@));
    } else {
        let rest = list.drop_last();
        assert forall|i: int| 0 <= i < rest.len() implies (#[trigger] rest[i]).fits() by {
            assert(rest[i] == list[i]);
        }
        lemma_term_insert(rest, x);
        let head = order::inserted_by(rest, x, order::rank::<Term>());
        assert(head.push(list.last()).map_values(f) =~= head.map_values(f).push(
            list.last().text@,
        ));
    }
}

proof fn lemma_term_order(list: Seq<Term>)
    requires
        forall|i: int| 0 <= i < list.len() ==> (#[trigger] list[i]).fits(),
    ensures
        order::sorted_by(list, order::rank::<Term>()).map_values(|term: Term| term.text@)
            == order::sorted_by(list.map_values(|term: Term| term.text@), by_length()),
        forall|i: int|
            0 <= i < order::sorted_by(list, order::rank::<Term>()).len() ==> (
            #[trigger] order::sorted_by(list, order::rank::<Term>())[i]).fits(),
    decreases list.len(),
{
    let f = |term: Term| term.text@;
    let mapped = list.map_values(f);
    if list.len() > 0 {
        let rest = list.drop_last();
        assert forall|i: int| 0 <= i < rest.len() implies (#[trigger] rest[i]).fits() by {
            assert(rest[i] == list[i]);
        }
        lemma_term_order(rest);
        assert(list[list.len() - 1].fits());
        lemma_term_insert(order::sorted_by(rest, order::rank::<Term>()), list.last());
        assert(mapped.drop_last() =~= rest.map_values(f));
        assert(mapped.last() == list.last().text@);
    } else {
        assert(order::sorted_by(list, order::rank::<Term>()).map_values(f) =~= mapped);
    }
}

proof fn lemma_by_length_is_an_order()
    ensures
        order::is_order(by_length()),
{
}

proof fn lemma_useful_terms(words: Seq<Seq<char>>, term: Seq<char>)
    requires
        useful_terms(words).contains(term),
    ensures
        is_useful(term),
    decreases words.len(),
{
    let all = useful_terms(words);
    let k = choose|k: int| 0 <= k < all.len() && all[k] == term;
    if words.len() > 0 {
        let before = useful_terms(words.drop_last());
        if k < before.len() {
            assert(before[k] == term);
            lemma_useful_terms(words.drop_last(), term);
        }
    }
}

/// The terms of a query are at most twelve, each of them useful and none of them twice,
/// and none stands behind a shorter one.
pub proof fn law_terms_are_useful(query: Seq<char>)
    ensures
        query_terms(query).len() <= MAX_TERMS,
        forall|i: int| 0 <= i < query_terms(query).len() ==> is_useful(#[trigger] query_terms(query)[i]),
        query_terms(query).no_duplicates(),
        order::in_order(query_terms(query), by_length()),
{
    broadcast use vstd::seq_lib::group_to_multiset_ensures;

    let list = order::ascending_list(useful_terms(query_words(query)));
    let all = order::sorted_by(list, by_length());
    let terms = query_terms(query);
    lemma_by_length_is_an_order();
    order::lemma_ascending_list(useful_terms(query_words(query)));
    order::law_sorting_orders_the_items(list, by_length());
    assert(list.no_duplicates()) by {
        assert forall|i: int, j: int| 0 <= i < list.len() && 0 <= j < list.len() && i
            != j implies list[i] != list[j] by {
            order::lemma_precedes_total(list[i], list[j]);
        }
    }
    list.lemma_multiset_has_no_duplicates();
    all.lemma_multiset_has_no_duplicates_conv();
    assert forall|i: int| 0 <= i < terms.len() implies is_useful(#[trigger] terms[i]) by {
        assert(terms[i] == all[i]);
        assert(all.contains(terms[i]));
        order::lemma_sorted_contains(list, by_length(), terms[i]);
        assert(list.contains(terms[i]));
        lemma_useful_terms(query_words(query), terms[i]);
    }
    assert forall|i: int, j: int| 0 <= i < terms.len() && 0 <= j < terms.len() && i
        != j implies terms[i] != terms[j] by {
        assert(all[i] != all[j]);
    }
    assert forall|i: int, j: int| 0 <= i < j < terms.len() implies !by_length()(
        #[trigger] terms[j],
        #[trigger] terms[i],
    ) by {
        assert(terms[i] == all[i] && terms[j] == all[j]);
    }
}

// ---------------------------------------------------------------------------
// Symbol queries
// ---------------------------------------------------------------------------

/// The symbol queries of a term: its singular, where it looks like a plural, and the
/// term itself.
pub open spec fn symbol_names(term: Seq<char>) -> Seq<Seq<char>> {
    if term.len() > 0 && term.last() == 's' && encode_utf8(term).len() > 4 {
        seq![term.drop_last().push('#'), term.push('#')]
    } else {
        seq![term.push('#')]
    }
}

pub open spec fn all_symbol_names(terms: Seq<Seq<char>>) -> Seq<Seq<char>>
    decreases terms.len(),
{
    if terms.len() == 0 {
        seq![]
    } else {
        all_symbol_names(terms.drop_last()) + symbol_names(terms.last())
    }
}

/// A list without texts that repeat the one in front of them.
pub open spec fn without_repeats(list: Seq<Seq<char>>) -> Seq<Seq<char>>
    decreases list.len(),
{
    if list.len() == 0 {
        seq![]
    } else {
        let before = without_repeats(list.drop_last());
        if before.len() > 0 && before.last() == list.last() {
            before
        } else {
            before.push(list.last())
        }
    }
}

/// How many symbol queries are sent to a language server.
pub const MAX_SYMBOL_QUERIES: usize = 8;

/// The symbol queries of a search.
pub open spec fn symbol_query_list(query: Seq<char>) -> Seq<Seq<char>> {
    symbol_list(query_terms(query))
}

/// The symbol queries for some terms.
pub open spec fn symbol_list(terms: Seq<Seq<char>>) -> Seq<Seq<char>> {
    let all = without_repeats(all_symbol_names(terms));
    if all.len() > MAX_SYMBOL_QUERIES {
        all.take(MAX_SYMBOL_QUERIES as int)
    } else {
        all
    }
}

fn append_symbol_names(out: &mut Vec<String>, term: &str)
    ensures
        text::views(final(out)@) == text::views(old(out)@) + symbol_names(term@),
{
    let chars = text::chars_of(term);
    let size: usize = term.as_bytes().len();
    let ghost before = text::views(out@);
    if chars.len() > 0 && chars[chars.len() - 1] == 's' && size > 4 {
        let mut singular = text::string_of(&chars, 0, chars.len() - 1);
        assert(singular@ =~= term@.drop_last());
        singular.push('#');
        out.push(singular);
    }
    let mut plain = term.to_owned();
    plain.push('#');
    out.push(plain);
    assert(text::views(out@) =~= before + symbol_names(term@));
}

fn drop_repeats(list: Vec<String>) -> (r: Vec<String>)
    ensures
        text::views(r@) == without_repeats(text::views(list@)),
{
    let ghost all = text::views(list@);
    let mut out: Vec<String> = Vec::new();
    let mut i: usize = 0;
    proof {
        assert(all.take(0) =~= seq![]);
        assert(text::views(out@) =~= seq![]);
    }
    while i < list.len()
        invariant
            i <= list@.len(),
            all == text::views(list@),
            text::views(out@) == without_repeats(all.take(i as int)),
        decreases list@.len() - i,
    {
        proof {
            let next = all.take(i + 1);
            assert(next.drop_last() =~= all.take(i as int));
            assert(next.last() == list@[i as int]@);
        }
        let repeats = out.len() > 0 && text::str_eq(
            out[out.len() - 1].as_str(),
            list[i].as_str(),
        );
        let ghost before = text::views(out@);
        assert(out@.len() > 0 ==> before.last() == out@[out@.len() - 1]@);
        if !repeats {
            out.push(list[i].clone());
            assert(text::views(out@) =~= before.push(list@[i as int]@));
        }
        i = i + 1;
    }
    assert(all.take(all.len() as int) =~= all);
    out
}

/// The symbol queries that a search sends to language servers.
pub fn symbol_queries(query: &str) -> (r: Vec<String>)
    ensures
        text::views(r@) == symbol_query_list(query@),
{
    symbol_queries_for(&terms(query))
}

/// The symbol queries for some terms.
pub fn symbol_queries_for(words: &[String]) -> (r: Vec<String>)
    ensures
        text::views(r@) == symbol_list(text::views(words@)),
{
    let ghost all = text::views(words@);
    let mut names: Vec<String> = Vec::new();
    let mut i: usize = 0;
    proof {
        assert(all.take(0) =~= seq![]);
        assert(text::views(names@) =~= seq![]);
    }
    while i < words.len()
        invariant
            i <= words@.len(),
            all == text::views(words@),
            text::views(names@) == all_symbol_names(all.take(i as int)),
        decreases words@.len() - i,
    {
        proof {
            let next = all.take(i + 1);
            assert(next.drop_last() =~= all.take(i as int));
            assert(next.last() == words@[i as int]@);
        }
        append_symbol_names(&mut names, words[i].as_str());
        i = i + 1;
    }
    assert(all.take(all.len() as int) =~= all);
    let distinct = drop_repeats(names);
    let ghost list = text::views(distinct@);
    let out = text::first_texts(distinct, MAX_SYMBOL_QUERIES);
    assert(list.len() <= MAX_SYMBOL_QUERIES ==> list.take(list.len() as int) =~= list);
    out
}

// ---------------------------------------------------------------------------
// Ripgrep
// ---------------------------------------------------------------------------

/// Why there is no lexical search.
#[derive(Debug, Clone, Copy, PartialEq, Eq, Structural)]
pub enum LexicalError {
    /// The query has no term that is worth searching for.
    NoTerms,
}

impl LexicalError {
    /// The text of the error.
    pub fn message(&self) -> (r: &'static str)
        ensures
            r@ == "query has no searchable lexical terms"@,
    {
        "query has no searchable lexical terms"
    }
}

/// A flag in front of each text.
pub open spec fn flagged(flag: Seq<char>, list: Seq<Seq<char>>) -> Seq<Seq<char>>
    decreases list.len(),
{
    if list.len() == 0 {
        seq![]
    } else {
        flagged(flag, list.drop_last()).push(flag).push(list.last())
    }
}

pub open spec fn glob_list() -> Seq<Seq<char>> {
    Seq::new(language::registered().len(), |i: int| language::registered()[i].glob())
}

/// The arguments of ripgrep for the terms of a query.
pub open spec fn argument_list(terms: Seq<Seq<char>>, root: Seq<char>) -> Seq<Seq<char>> {
    seq!["--json"@, "--line-number"@, "--ignore-case"@, "--fixed-strings"@] + flagged(
        "--glob"@,
        glob_list(),
    ) + flagged("-e"@, terms) + seq!["--"@, root]
}

fn append_flagged(out: &mut Vec<String>, flag: &str, list: &[String])
    ensures
        text::views(final(out)@) == text::views(old(out)@) + flagged(flag@, text::views(list@)),
{
    let ghost before = text::views(out@);
    let ghost all = text::views(list@);
    let mut i: usize = 0;
    assert(all.take(0) =~= seq![]);
    assert(before =~= before + flagged(flag@, all.take(0)));
    while i < list.len()
        invariant
            i <= list@.len(),
            all == text::views(list@),
            text::views(out@) == before + flagged(flag@, all.take(i as int)),
        decreases list@.len() - i,
    {
        proof {
            let next = all.take(i + 1);
            assert(next.drop_last() =~= all.take(i as int));
            assert(next.last() == list@[i as int]@);
        }
        let ghost now = text::views(out@);
        out.push(flag.to_owned());
        out.push(list[i].clone());
        assert(text::views(out@) =~= now.push(flag@).push(list@[i as int]@));
        assert(text::views(out@) =~= before + flagged(flag@, all.take(i + 1)));
        i = i + 1;
    }
    assert(all.take(all.len() as int) =~= all);
}

fn glob_texts() -> (r: Vec<String>)
    ensures
        text::views(r@) == glob_list(),
{
    let all = language::adapters();
    let mut out: Vec<String> = Vec::new();
    let mut i: usize = 0;
    while i < 9
        invariant
            i <= 9,
            all@.len() == 9,
            forall|k: int|
                0 <= k < all@.len() ==> (#[trigger] all@[k]).language == language::registered()[k],
            out@.len() == i,
            forall|k: int|
                0 <= k < i ==> (#[trigger] out@[k])@ == language::registered()[k].glob(),
        decreases 9 - i,
    {
        out.push(all[i].glob().to_owned());
        i = i + 1;
    }
    assert(text::views(out@) =~= glob_list());
    out
}

/// The arguments of ripgrep for a query over the files below `root`.
pub fn ripgrep_arguments(query: &str, root: &str) -> (r: Result<Vec<String>, LexicalError>)
    ensures
        match r {
            Ok(arguments) => {
                &&& query_terms(query@).len() > 0
                &&& text::views(arguments@) == argument_list(query_terms(query@), root@)
            },
            Err(_) => query_terms(query@).len() == 0,
        },
{
    let words = terms(query);
    assert(text::views(words@).len() == words@.len());
    arguments_for(&words, root)
}

/// The arguments of ripgrep for some terms over the files below `root`.
pub fn arguments_for(words: &[String], root: &str) -> (r: Result<Vec<String>, LexicalError>)
    ensures
        match r {
            Ok(arguments) => {
                &&& words@.len() > 0
                &&& text::views(arguments@) == argument_list(text::views(words@), root@)
            },
            Err(_) => words@.len() == 0,
        },
{
    if words.len() == 0 {
        return Err(LexicalError::NoTerms);
    }
    let mut out: Vec<String> = Vec::new();
    out.push("--json".to_owned());
    out.push("--line-number".to_owned());
    out.push("--ignore-case".to_owned());
    out.push("--fixed-strings".to_owned());
    assert(text::views(out@) =~= seq![
        "--json"@,
        "--line-number"@,
        "--ignore-case"@,
        "--fixed-strings"@,
    ]);
    append_flagged(&mut out, "--glob", &glob_texts());
    append_flagged(&mut out, "-e", words);
    out.push("--".to_owned());
    out.push(root.to_owned());
    assert(text::views(out@) =~= argument_list(text::views(words@), root@));
    Ok(out)
}

/// Ripgrep has done its work: it found something, or found nothing.
pub fn exit_is_good(success: bool, code: Option<i32>) -> (r: bool)
    ensures
        r == (success || code == Some(1i32)),
{
    success || match code {
        Some(value) => value == 1,
        None => false,
    }
}

/// An event of ripgrep's output. Whether its path is absolute is for the platform to say;
/// `resolved` is the canonical form of an absolute path, where it has one.
#[derive(Debug)]
pub struct RipgrepEvent {
    pub kind: String,
    pub path: Option<String>,
    pub absolute: bool,
    pub resolved: Option<String>,
    pub line_number: Option<u32>,
}

/// The match that an event reports.
pub open spec fn event_match(root: Seq<char>, event: RipgrepEvent) -> Option<LexicalMatchView> {
    if event.kind@ != "match"@ || event.path is None || event.line_number is None {
        None
    } else {
        let path = event.path->0@;
        let normalized = if !event.absolute {
            paths::below(root, path)
        } else if event.resolved is Some {
            event.resolved->0@
        } else {
            path
        };
        Some(
            LexicalMatchView {
                relative_path: text::replaced(paths::relative_to(normalized, root), '\\', '/'),
                line: event.line_number->0,
            },
        )
    }
}

/// The matches that the events report, in order.
pub open spec fn event_matches(
    root: Seq<char>,
    events: Seq<RipgrepEvent>,
) -> Seq<LexicalMatchView>
    decreases events.len(),
{
    if events.len() == 0 {
        seq![]
    } else {
        let before = event_matches(root, events.drop_last());
        match event_match(root, events.last()) {
            Some(found) => before.push(found),
            None => before,
        }
    }
}

fn match_of(root: &str, event: &RipgrepEvent) -> (r: Option<LexicalMatch>)
    ensures
        match r {
            Some(found) => event_match(root@, *event) == Some(found@),
            None => event_match(root@, *event) is None,
        },
{
    if !text::str_eq(event.kind.as_str(), "match") {
        return None;
    }
    let path = match &event.path {
        Some(path) => path.as_str(),
        None => {
            return None;
        },
    };
    let line: u32 = match event.line_number {
        Some(line) => line,
        None => {
            return None;
        },
    };
    let normalized = if !event.absolute {
        paths::join_path(root, path)
    } else {
        match &event.resolved {
            Some(resolved) => resolved.clone(),
            None => path.to_owned(),
        }
    };
    let relative = paths::relative_path(normalized.as_str(), root);
    Some(
        LexicalMatch { relative_path: text::replace_char(relative.as_str(), '\\', '/'), line },
    )
}

/// Collect the matches below `root` that ripgrep's events report.
pub fn collect_matches(root: &str, events: &[RipgrepEvent]) -> (r: Vec<LexicalMatch>)
    ensures
        match_views(r@) == event_matches(root@, events@),
{
    let mut out: Vec<LexicalMatch> = Vec::new();
    let mut i: usize = 0;
    proof {
        assert(events@.take(0) =~= seq![]);
        assert(match_views(out@) =~= seq![]);
    }
    while i < events.len()
        invariant
            i <= events@.len(),
            match_views(out@) == event_matches(root@, events@.take(i as int)),
        decreases events@.len() - i,
    {
        proof {
            let next = events@.take(i + 1);
            assert(next.drop_last() =~= events@.take(i as int));
            assert(next.last() == events@[i as int]);
        }
        let ghost before = out@;
        if let Some(found) = match_of(root, &events[i]) {
            out.push(found);
            assert(match_views(out@) =~= match_views(before).push(found@));
        }
        i = i + 1;
    }
    assert(events@.take(events@.len() as int) =~= events@);
    out
}

// ---------------------------------------------------------------------------
// Finding ripgrep
// ---------------------------------------------------------------------------

/// The default ripgrep command, which is looked for.
pub open spec fn is_default_command(configured: Seq<char>) -> bool {
    text::ascii_lowered(configured) == "rg"@ || text::ascii_lowered(configured) == "rg.exe"@
}

/// Report whether a configured command is the default one. Explicit custom commands
/// and paths are used unchanged.
pub fn default_command(configured: &str) -> (r: bool)
    ensures
        r == is_default_command(configured@),
{
    let lower = text::to_ascii_lower(configured);
    text::str_eq(lower.as_str(), "rg") || text::str_eq(lower.as_str(), "rg.exe")
}

/// The names that ripgrep has in a directory of the search path.
pub fn command_names(windows: bool) -> (r: Vec<String>)
    ensures
        text::views(r@) == if windows {
            seq!["rg.exe"@, "rg"@]
        } else {
            seq!["rg"@]
        },
{
    let mut out: Vec<String> = Vec::new();
    if windows {
        out.push("rg.exe".to_owned());
    }
    out.push("rg".to_owned());
    assert(text::views(out@) =~= if windows {
        seq!["rg.exe"@, "rg"@]
    } else {
        seq!["rg"@]
    });
    out
}

/// The directories of the editors that bundle ripgrep, below `base`.
pub open spec fn editor_roots(base: Seq<char>) -> Seq<Seq<char>> {
    seq![
        paths::below(base, "Microsoft VS Code"@),
        paths::below(base, "Microsoft VS Code Insiders"@),
        paths::below(base, "VSCodium"@),
    ]
}

/// The directories of the editors that bundle ripgrep.
pub open spec fn install_root_list(
    local_app_data: Option<Seq<char>>,
    program_files: Option<Seq<char>>,
) -> Seq<Seq<char>> {
    let local = match local_app_data {
        Some(base) => editor_roots(paths::below(base, "Programs"@)),
        None => seq![],
    };
    let shared = match program_files {
        Some(base) => editor_roots(base),
        None => seq![],
    };
    local + shared
}

fn append_editor_roots(out: &mut Vec<String>, base: &str)
    ensures
        text::views(final(out)@) == text::views(old(out)@) + editor_roots(base@),
{
    let ghost before = text::views(out@);
    out.push(paths::join_path(base, "Microsoft VS Code"));
    out.push(paths::join_path(base, "Microsoft VS Code Insiders"));
    out.push(paths::join_path(base, "VSCodium"));
    assert(text::views(out@) =~= before + editor_roots(base@));
}

/// The directories of the editors that bundle ripgrep, given the directories for local
/// application data and for programs.
pub fn vscode_install_roots(local_app_data: Option<&str>, program_files: Option<&str>) -> (r: Vec<
    String,
>)
    ensures
        text::views(r@) == install_root_list(
            match local_app_data {
                Some(base) => Some(base@),
                None => None,
            },
            match program_files {
                Some(base) => Some(base@),
                None => None,
            },
        ),
{
    let mut out: Vec<String> = Vec::new();
    assert(text::views(out@) =~= seq![]);
    if let Some(base) = local_app_data {
        append_editor_roots(&mut out, paths::join_path(base, "Programs").as_str());
    }
    let ghost local = text::views(out@);
    if let Some(base) = program_files {
        append_editor_roots(&mut out, base);
    } else {
        assert(local =~= local + seq![]);
    }
    proof {
        let expected = match local_app_data {
            Some(base) => editor_roots(paths::below(base@, "Programs"@)),
            None => seq![],
        };
        assert(local =~= expected);
    }
    out
}

/// Where ripgrep is bundled below a directory of an editor.
pub open spec fn bundled_in(root: Seq<char>) -> Seq<Seq<char>> {
    seq![
        paths::below(
            root,
            "resources/app/node_modules.asar.unpacked/@vscode/ripgrep/bin/rg.exe"@,
        ),
        paths::below(
            root,
            "resources/app/node_modules.asar.unpacked/@vscode/ripgrep-universal/bin/win32-x64/rg.exe"@,
        ),
    ]
}

pub open spec fn bundled_in_all(roots: Seq<Seq<char>>) -> Seq<Seq<char>>
    decreases roots.len(),
{
    if roots.len() == 0 {
        seq![]
    } else {
        bundled_in_all(roots.drop_last()) + bundled_in(roots.last())
    }
}

fn append_bundled(out: &mut Vec<String>, root: &str)
    ensures
        text::views(final(out)@) == text::views(old(out)@) + bundled_in(root@),
{
    let ghost before = text::views(out@);
    out.push(
        paths::join_path(
            root,
            "resources/app/node_modules.asar.unpacked/@vscode/ripgrep/bin/rg.exe",
        ),
    );
    out.push(
        paths::join_path(
            root,
            "resources/app/node_modules.asar.unpacked/@vscode/ripgrep-universal/bin/win32-x64/rg.exe",
        ),
    );
    assert(text::views(out@) =~= before + bundled_in(root@));
}

/// Where an editor may bundle ripgrep: below its own directory, then below the
/// directories in it, the last first.
pub fn vscode_candidates(install_root: &str, children: &[String]) -> (r: Vec<String>)
    ensures
        text::views(r@) == bundled_in_all(
            seq![install_root@] + order::ascending_list(text::views(children@)).reverse(),
        ),
{
    let sorted = order::distinct(children);
    let ghost names = text::views(sorted@);
    let ghost roots = seq![install_root@] + names.reverse();
    let mut out: Vec<String> = Vec::new();
    assert(text::views(out@) =~= seq![]);
    append_bundled(&mut out, install_root);
    proof {
        let first = roots.take(1);
        assert(first.drop_last() =~= seq![]);
        assert(bundled_in_all(first.drop_last()) =~= seq![]);
        assert(text::views(out@) =~= bundled_in_all(first));
    }
    let mut i: usize = sorted.len();
    while i > 0
        invariant
            i <= sorted@.len(),
            names == text::views(sorted@),
            roots == seq![install_root@] + names.reverse(),
            text::views(out@) == bundled_in_all(roots.take(1 + names.len() - i)),
        decreases i,
    {
        i = i - 1;
        proof {
            let next = roots.take(1 + names.len() - i);
            assert(next.drop_last() =~= roots.take(names.len() - i));
            assert(next.last() == names[i as int]);
        }
        append_bundled(&mut out, sorted[i].as_str());
    }
    assert(roots.take((1 + names.len()) as int) =~= roots);
    out
}

/// Choose the ripgrep command: a custom command as it is configured, and else the one
/// found on the search path, the one an editor bundles, or the configured one.
pub fn resolve_ripgrep_path(
    configured: &str,
    on_path: Option<String>,
    bundled: Option<String>,
    windows: bool,
) -> (r: String)
    ensures
        r@ == if !is_default_command(configured@) {
            configured@
        } else if on_path is Some {
            on_path->0@
        } else if windows && bundled is Some {
            bundled->0@
        } else {
            configured@
        },
{
    if !default_command(configured) {
        return configured.to_owned();
    }
    if let Some(found) = on_path {
        return found;
    }
    if windows {
        if let Some(found) = bundled {
            return found;
        }
    }
    configured.to_owned()
}

// ---------------------------------------------------------------------------
// Laws of terms
// ---------------------------------------------------------------------------

/// The words of a query are its runs of alphanumeric characters, `_` and `#`: a text of such
/// characters is one field, and any other character ends the field in front of it and starts
/// another one.
pub proof fn law_fields_are_runs_of_term_characters(a: Seq<char>, c: char, b: Seq<char>)
    ensures
        (forall|k: int|
            0 <= k < a.len() ==> unicode::alphanumeric(#[trigger] a[k]) || a[k] == '_' || a[k]
                == '#') ==> fields(a) == seq![a],
        !unicode::alphanumeric(c) && c != '_' && c != '#' ==> fields(a + seq![c] + b) == fields(a)
            + fields(b),
{
    if forall|k: int|
        0 <= k < a.len() ==> unicode::alphanumeric(#[trigger] a[k]) || a[k] == '_' || a[k]
            == '#' {
        assert forall|k: int| 0 <= k < a.len() implies #[trigger] is_term_char(a[k]) by {}
        lemma_one_field(a);
    }
    if !unicode::alphanumeric(c) && c != '_' && c != '#' {
        lemma_fields_join(a, c, b);
    }
}

proof fn lemma_fields_join(a: Seq<char>, c: char, b: Seq<char>)
    requires
        !is_term_char(c),
    ensures
        fields(a + seq![c] + b) == fields(a) + fields(b),
        fields(b).len() > 0,
    decreases b.len(),
{
    let whole = a + seq![c] + b;
    if b.len() > 0 {
        let rest = b.drop_last();
        lemma_fields_join(a, c, rest);
        assert(whole.drop_last() =~= a + seq![c] + rest);
        assert(whole.last() == b.last());
        let (x, y) = (fields(a), fields(rest));
        assert((x + y).last() == y.last());
        assert((x + y).drop_last() =~= x + y.drop_last());
        assert(fields(whole) =~= x + fields(b));
    } else {
        assert(whole.drop_last() =~= a);
        assert(fields(whole) =~= fields(a) + fields(b));
    }
}

/// A word is a field without the `#` at its ends, in lower case.
pub proof fn law_words_lose_the_hashes_at_their_ends(
    before: Seq<char>,
    core: Seq<char>,
    behind: Seq<char>,
)
    requires
        forall|k: int| 0 <= k < before.len() ==> #[trigger] before[k] == '#',
        forall|k: int| 0 <= k < behind.len() ==> #[trigger] behind[k] == '#',
        core.len() > 0,
        core[0] != '#',
        core.last() != '#',
    ensures
        term_of(before + core + behind) == unicode::lowercase(core),
{
    let field = before + core + behind;
    assert forall|k: int| 0 <= k < before.len() implies field[k] == '#' by {
        assert(field[k] == before[k]);
    }
    lemma_leading_hash(field, before.len() as int);
    let tail = core + behind;
    assert(field.skip(before.len() as int) =~= tail);
    assert(tail[0] == core[0]);
    assert forall|k: int| core.len() <= k < tail.len() implies tail[k] == '#' by {
        assert(tail[k] == behind[k - core.len()]);
    }
    lemma_trailing_hash(tail, core.len() as int);
    assert(tail.take(core.len() as int) =~= core);
}

/// A query that is one identifier, already in lower case, long enough and no stop word, has
/// that identifier as its only term.
pub proof fn law_an_identifier_is_its_own_term(name: Seq<char>)
    requires
        forall|k: int|
            0 <= k < name.len() ==> unicode::alphanumeric(#[trigger] name[k]) || name[k] == '_',
        forall|k: int| 0 <= k < name.len() ==> #[trigger] name[k] != '#',
        unicode::lowercase(name) == name,
        encode_utf8(name).len() >= 3,
        says_something(name),
    ensures
        query_terms(name) == seq![name],
{
    law_fields_are_runs_of_term_characters(name, ' ', seq![]);
    assert(name.len() > 0) by {
        if name.len() == 0 {
            assert(name =~= seq![]);
            assert(encode_utf8(name).len() == 0);
        }
    }
    law_words_lose_the_hashes_at_their_ends(seq![], name, seq![]);
    assert(seq![] + name + seq![] =~= name);
    assert(query_words(name) =~= seq![name]);
    lemma_one_term(name);
}

/// Terms stand by falling length, and those of one length in alphabetical order.
pub open spec fn stands_before(a: Seq<char>, b: Seq<char>) -> bool {
    ||| encode_utf8(a).len() > encode_utf8(b).len()
    ||| encode_utf8(a).len() == encode_utf8(b).len() && order::precedes(a, b)
}

spec fn all_stand(list: Seq<Seq<char>>) -> bool {
    forall|i: int, j: int|
        0 <= i < j < list.len() ==> stands_before(#[trigger] list[i], #[trigger] list[j])
}

proof fn lemma_insert_stands(list: Seq<Seq<char>>, x: Seq<char>)
    requires
        all_stand(list),
        forall|i: int| 0 <= i < list.len() ==> order::precedes(#[trigger] list[i], x),
    ensures
        all_stand(order::inserted_by(list, x, by_length())),
        forall|i: int|
            0 <= i < order::inserted_by(list, x, by_length()).len() ==> order::inserted_by(
                list,
                x,
                by_length(),
            )[i] == x || list.contains(
                #[trigger] order::inserted_by(list, x, by_length())[i],
            ),
    decreases list.len(),
{
    let out = order::inserted_by(list, x, by_length());
    if list.len() == 0 || !by_length()(x, list.last()) {
        assert forall|i: int, j: int| 0 <= i < j < out.len() implies stands_before(
            #[trigger] out[i],
            #[trigger] out[j],
        ) by {
            if j == list.len() {
                assert(order::precedes(list[i], x));
                if i < list.len() - 1 {
                    assert(stands_before(list[i], list[list.len() - 1]));
                }
            } else {
                assert(stands_before(list[i], list[j]));
            }
        }
        assert forall|i: int| 0 <= i < out.len() implies out[i] == x || list.contains(
            #[trigger] out[i],
        ) by {
            if i < list.len() {
                assert(list[i] == out[i]);
            }
        }
    } else {
        let rest = list.drop_last();
        assert forall|i: int, j: int| 0 <= i < j < rest.len() implies stands_before(
            #[trigger] rest[i],
            #[trigger] rest[j],
        ) by {
            assert(stands_before(list[i], list[j]));
        }
        assert forall|i: int| 0 <= i < rest.len() implies order::precedes(
            #[trigger] rest[i],
            x,
        ) by {
            assert(rest[i] == list[i]);
        }
        lemma_insert_stands(rest, x);
        let head = order::inserted_by(rest, x, by_length());
        let n = list.len() - 1;
        assert forall|i: int, j: int| 0 <= i < j < out.len() implies stands_before(
            #[trigger] out[i],
            #[trigger] out[j],
        ) by {
            assert(out[i] == head[i]);
            if j < head.len() {
                assert(stands_before(head[i], head[j]));
            } else if head[i] != x {
                assert(rest.contains(head[i]));
                let k = choose|k: int| 0 <= k < rest.len() && rest[k] == head[i];
                assert(stands_before(list[k], list[n]));
            }
        }
        assert forall|i: int| 0 <= i < out.len() implies out[i] == x || list.contains(
            #[trigger] out[i],
        ) by {
            if i < head.len() {
                assert(out[i] == head[i]);
                if head[i] != x {
                    let k = choose|k: int| 0 <= k < rest.len() && rest[k] == head[i];
                    assert(list[k] == head[i]);
                }
            } else {
                assert(list[n] == out[i]);
            }
        }
    }
}

proof fn lemma_sort_stands(list: Seq<Seq<char>>)
    requires
        order::ascending(list),
    ensures
        all_stand(order::sorted_by(list, by_length())),
    decreases list.len(),
{
    if list.len() > 0 {
        let rest = list.drop_last();
        assert forall|i: int, j: int| 0 <= i < j < rest.len() implies order::precedes(
            #[trigger] rest[i],
            #[trigger] rest[j],
        ) by {
            assert(order::precedes(list[i], list[j]));
        }
        lemma_sort_stands(rest);
        let sorted = order::sorted_by(rest, by_length());
        lemma_by_length_is_an_order();
        assert forall|i: int| 0 <= i < sorted.len() implies order::precedes(
            #[trigger] sorted[i],
            list.last(),
        ) by {
            assert(sorted.contains(sorted[i]));
            order::lemma_sorted_contains(rest, by_length(), sorted[i]);
            let k = choose|k: int| 0 <= k < rest.len() && rest[k] == sorted[i];
            assert(order::precedes(list[k], list[list.len() - 1]));
        }
        lemma_insert_stands(sorted, list.last());
    }
}

proof fn lemma_useful_are_kept(words: Seq<Seq<char>>, k: int)
    requires
        0 <= k < words.len(),
        is_useful(words[k]),
    ensures
        useful_terms(words).contains(words[k]),
    decreases words.len(),
{
    let rest = words.drop_last();
    let out = useful_terms(words);
    if k < rest.len() {
        lemma_useful_are_kept(rest, k);
        let before = useful_terms(rest);
        let at = choose|at: int| 0 <= at < before.len() && before[at] == rest[k];
        assert(out[at] == words[k]);
    } else {
        assert(out.last() == words[k]);
    }
}

proof fn lemma_useful_come_from(words: Seq<Seq<char>>, term: Seq<char>)
    requires
        useful_terms(words).contains(term),
    ensures
        words.contains(term),
    decreases words.len(),
{
    let out = useful_terms(words);
    let k = choose|k: int| 0 <= k < out.len() && out[k] == term;
    if words.len() > 0 {
        let rest = words.drop_last();
        let before = useful_terms(rest);
        if k < before.len() {
            assert(before[k] == term);
            lemma_useful_come_from(rest, term);
            let at = choose|at: int| 0 <= at < rest.len() && rest[at] == term;
            assert(words[at] == term);
        } else {
            assert(words[words.len() - 1] == term);
        }
    }
}

/// The terms among some words are words of at least three bytes that are no stop words. Each
/// such word is a term, unless there are twelve terms that all stand before it.
pub proof fn law_terms_are_the_longest_useful_words(words: Seq<Seq<char>>, word: Seq<char>)
    ensures
        ({
            let terms = chosen_terms(words);
            let useful = words.contains(word) && encode_utf8(word).len() >= 3 && says_something(
                word,
            );
            &&& terms.len() <= 12
            &&& terms.contains(word) ==> useful
            &&& useful ==> terms.contains(word) || terms.len() == 12 && forall|i: int|
                0 <= i < terms.len() ==> stands_before(#[trigger] terms[i], word)
        }),
{
    let some = useful_terms(words);
    let list = order::ascending_list(some);
    let all = order::sorted_by(list, by_length());
    let terms = chosen_terms(words);
    order::lemma_ascending_list(some);
    lemma_by_length_is_an_order();
    order::lemma_sorted_contains(list, by_length(), word);
    lemma_sort_stands(list);
    assert(list.contains(word) <==> some.contains(word));
    if terms.contains(word) {
        let k = choose|k: int| 0 <= k < terms.len() && terms[k] == word;
        assert(all[k] == word);
        assert(all.contains(word));
        lemma_useful_come_from(words, word);
        lemma_useful_terms(words, word);
    }
    if words.contains(word) && is_useful(word) {
        let k = choose|k: int| 0 <= k < words.len() && words[k] == word;
        lemma_useful_are_kept(words, k);
        let at = choose|at: int| 0 <= at < all.len() && all[at] == word;
        if at < terms.len() {
            assert(terms[at] == word);
        } else {
            assert forall|i: int| 0 <= i < terms.len() implies stands_before(
                #[trigger] terms[i],
                word,
            ) by {
                assert(terms[i] == all[i]);
                assert(stands_before(all[i], all[at]));
            }
        }
    }
}

/// The longest terms stand first, and those of one length in alphabetical order, so no term
/// stands twice.
pub proof fn law_terms_stand_by_length(words: Seq<Seq<char>>, i: int, j: int)
    requires
        0 <= i < j < chosen_terms(words).len(),
    ensures
        stands_before(chosen_terms(words)[i], chosen_terms(words)[j]),
        chosen_terms(words)[i] != chosen_terms(words)[j],
{
    let list = order::ascending_list(useful_terms(words));
    let all = order::sorted_by(list, by_length());
    let terms = chosen_terms(words);
    order::lemma_ascending_list(useful_terms(words));
    lemma_sort_stands(list);
    assert(terms[i] == all[i] && terms[j] == all[j]);
    assert(stands_before(all[i], all[j]));
    order::lemma_precedes_total(all[i], all[i]);
}

// ---------------------------------------------------------------------------
// Laws of symbol queries
// ---------------------------------------------------------------------------

/// A symbol query for a term: the term with `#` behind it, or the singular of one that looks
/// like a plural of more than four bytes.
pub open spec fn asks_for(query: Seq<char>, term: Seq<char>) -> bool {
    ||| query == term.push('#')
    ||| is_plural(term) && query == term.drop_last().push('#')
}

/// A term of more than four bytes that ends with `s`.
pub open spec fn is_plural(term: Seq<char>) -> bool {
    term.len() > 0 && term.last() == 's' && encode_utf8(term).len() > 4
}

proof fn lemma_repeats_keep(list: Seq<Seq<char>>, x: Seq<char>)
    ensures
        without_repeats(list).contains(x) <==> list.contains(x),
        without_repeats(list).len() > 0 <==> list.len() > 0,
        list.len() > 0 ==> without_repeats(list).last() == list.last(),
    decreases list.len(),
{
    if list.len() > 0 {
        let rest = list.drop_last();
        lemma_repeats_keep(rest, x);
        let (before, out) = (without_repeats(rest), without_repeats(list));
        if before.contains(x) {
            let k = choose|k: int| 0 <= k < before.len() && before[k] == x;
            assert(out[k] == x);
            let m = choose|m: int| 0 <= m < rest.len() && rest[m] == x;
            assert(list[m] == x);
        }
        if list.contains(x) {
            let m = choose|m: int| 0 <= m < list.len() && list[m] == x;
            if m < rest.len() {
                assert(rest[m] == x);
            } else {
                assert(out[out.len() - 1] == x);
            }
        }
        if out.contains(x) {
            let k = choose|k: int| 0 <= k < out.len() && out[k] == x;
            if k < before.len() {
                assert(before[k] == x);
            } else {
                assert(list[list.len() - 1] == x);
            }
        }
    } else {
        assert(without_repeats(list) =~= seq![]);
    }
}

proof fn lemma_symbol_names(terms: Seq<Seq<char>>, x: Seq<char>)
    ensures
        all_symbol_names(terms).contains(x) <==> exists|i: int|
            0 <= i < terms.len() && asks_for(x, #[trigger] terms[i]),
    decreases terms.len(),
{
    if terms.len() > 0 {
        let rest = terms.drop_last();
        lemma_symbol_names(rest, x);
        let (a, b) = (all_symbol_names(rest), symbol_names(terms.last()));
        let all = all_symbol_names(terms);
        let n = terms.len() - 1;
        if all.contains(x) {
            let k = choose|k: int| 0 <= k < all.len() && all[k] == x;
            if k < a.len() {
                assert(a[k] == x);
                let i = choose|i: int| 0 <= i < rest.len() && asks_for(x, #[trigger] rest[i]);
                assert(asks_for(x, terms[i]));
            } else {
                assert(b[k - a.len()] == x);
                assert(asks_for(x, terms[n]));
            }
        }
        if exists|i: int| 0 <= i < terms.len() && asks_for(x, #[trigger] terms[i]) {
            let i = choose|i: int| 0 <= i < terms.len() && asks_for(x, #[trigger] terms[i]);
            if i < n {
                assert(asks_for(x, rest[i]));
                let k = choose|k: int| 0 <= k < a.len() && a[k] == x;
                assert(all[k] == x);
            } else {
                if x == b[0] {
                    assert(all[a.len() as int] == x);
                } else {
                    assert(all[(a.len() + 1) as int] == x);
                }
            }
        }
    }
}

/// Symbol queries ask for the terms and for the singulars of their plurals, and for nothing
/// else. There are at most eight, and where there are fewer none is left out.
pub proof fn law_symbol_queries_ask_for_the_terms(terms: Seq<Seq<char>>, query: Seq<char>)
    ensures
        ({
            let list = symbol_list(terms);
            let asked = exists|i: int| 0 <= i < terms.len() && asks_for(query, #[trigger] terms[i]);
            &&& list.len() <= 8
            &&& list.contains(query) ==> asked
            &&& asked && list.len() < 8 ==> list.contains(query)
        }),
{
    let names = all_symbol_names(terms);
    let all = without_repeats(names);
    lemma_repeats_keep(names, query);
    lemma_symbol_names(terms, query);
    let list = symbol_list(terms);
    if list.contains(query) {
        let k = choose|k: int| 0 <= k < list.len() && list[k] == query;
        assert(all[k] == query);
    }
}

proof fn lemma_repeats_grow(a: Seq<Seq<char>>, b: Seq<Seq<char>>)
    ensures
        without_repeats(a).is_prefix_of(without_repeats(a + b)),
    decreases b.len(),
{
    let (x, y) = (without_repeats(a), without_repeats(a + b));
    if b.len() > 0 {
        let rest = b.drop_last();
        assert((a + b).drop_last() =~= a + rest);
        lemma_repeats_grow(a, rest);
        let z = without_repeats(a + rest);
        assert(y.take(x.len() as int) =~= z.take(x.len() as int));
    } else {
        assert(a + b =~= a);
        assert(y.take(x.len() as int) =~= x);
    }
}

/// The terms in front are asked for first: more terms behind them add queries behind theirs.
pub proof fn law_symbol_queries_follow_the_terms(terms: Seq<Seq<char>>, last: Seq<char>)
    ensures
        symbol_list(terms).is_prefix_of(symbol_list(terms.push(last))),
{
    assert(terms.push(last).drop_last() =~= terms);
    let (a, b) = (all_symbol_names(terms), symbol_names(last));
    lemma_repeats_grow(a, b);
    let (x, y) = (symbol_list(terms), symbol_list(terms.push(last)));
    assert(y.take(x.len() as int) =~= x);
}

// ---------------------------------------------------------------------------
// Laws of ripgrep
// ---------------------------------------------------------------------------

proof fn lemma_flagged(flag: Seq<char>, list: Seq<Seq<char>>, i: int)
    requires
        0 <= i < list.len(),
    ensures
        flagged(flag, list).len() == 2 * list.len(),
        flagged(flag, list)[2 * i] == flag,
        flagged(flag, list)[2 * i + 1] == list[i],
    decreases list.len(),
{
    let rest = list.drop_last();
    lemma_flagged_size(flag, rest);
    if i < rest.len() {
        lemma_flagged(flag, rest, i);
        assert(rest[i] == list[i]);
    }
}

proof fn lemma_flagged_size(flag: Seq<char>, list: Seq<Seq<char>>)
    ensures
        flagged(flag, list).len() == 2 * list.len(),
    decreases list.len(),
{
    if list.len() > 0 {
        lemma_flagged_size(flag, list.drop_last());
    }
}

/// An argument is an option, and the one behind it its value.
pub open spec fn has_option(
    args: Seq<Seq<char>>,
    at: int,
    option: Seq<char>,
    value: Seq<char>,
) -> bool {
    args[at] == option && args[at + 1] == value
}

/// Ripgrep is asked for its matches as JSON with line numbers, without regard to case and
/// with the terms as plain texts: in the files of each registered language, for each term,
/// below the root, and with nothing else.
pub proof fn law_ripgrep_searches_for_each_term(terms: Seq<Seq<char>>, root: Seq<char>)
    ensures
        ({
            let args = argument_list(terms, root);
            let languages = language::registered();
            let first = 4 + 2 * languages.len();
            &&& args.len() == first + 2 * terms.len() + 2
            &&& args[0] == "--json"@
            &&& args[1] == "--line-number"@
            &&& args[2] == "--ignore-case"@
            &&& args[3] == "--fixed-strings"@
            &&& forall|i: int|
                0 <= i < languages.len() ==> has_option(
                    args,
                    4 + 2 * i,
                    "--glob"@,
                    (#[trigger] languages[i]).glob(),
                )
            &&& forall|i: int|
                0 <= i < terms.len() ==> has_option(
                    args,
                    first + 2 * i,
                    "-e"@,
                    #[trigger] terms[i],
                )
            &&& args[args.len() - 2] == "--"@
            &&& args[args.len() - 1] == root
        }),
{
    let args = argument_list(terms, root);
    let languages = language::registered();
    let first = 4 + 2 * languages.len();
    let (globs, wanted) = (flagged("--glob"@, glob_list()), flagged("-e"@, terms));
    lemma_flagged_size("--glob"@, glob_list());
    lemma_flagged_size("-e"@, terms);
    assert forall|i: int| 0 <= i < languages.len() implies has_option(
        args,
        4 + 2 * i,
        "--glob"@,
        (#[trigger] languages[i]).glob(),
    ) by {
        lemma_flagged("--glob"@, glob_list(), i);
        assert(args[4 + 2 * i] == globs[2 * i] && args[5 + 2 * i] == globs[2 * i + 1]);
        assert(glob_list()[i] == languages[i].glob());
    }
    assert forall|i: int| 0 <= i < terms.len() implies has_option(
        args,
        first + 2 * i,
        "-e"@,
        #[trigger] terms[i],
    ) by {
        lemma_flagged("-e"@, terms, i);
        assert(args[first + 2 * i] == wanted[2 * i] && args[first + 2 * i + 1] == wanted[2 * i
            + 1]);
    }
}

/// An event reports a match if and only if it is one and has a path and a line; the line is
/// that of the event. The events are taken one by one, in order.
pub proof fn law_events_report_their_lines(
    root: Seq<char>,
    events: Seq<RipgrepEvent>,
    event: RipgrepEvent,
)
    ensures
        event_match(root, event) is Some <==> event.kind@ == "match"@ && event.path is Some
            && event.line_number is Some,
        event_match(root, event) matches Some(found) ==> Some(found.line) == event.line_number,
        event_matches(root, seq![]) == Seq::<LexicalMatchView>::empty(),
        event_matches(root, events.push(event)) == (match event_match(root, event) {
            Some(found) => event_matches(root, events).push(found),
            None => event_matches(root, events),
        }),
{
    assert(events.push(event).drop_last() =~= events);
}

/// A match that ripgrep reports at a place below the root, by a relative path or by an
/// absolute one, comes out with the path below the root.
pub proof fn law_matches_have_paths_below_the_root(
    root: Seq<char>,
    path: Seq<char>,
    event: RipgrepEvent,
)
    requires
        paths::is_plain_path(path),
        !path.contains('\\'),
        root.len() > 0,
        root.last() != '/',
        paths::steps(root).len() > 0,
        event_match(root, event) is Some,
        !event.absolute && event.path->0@ == path || event.absolute && event.resolved is Some
            && event.resolved->0@ == root + seq!['/'] + path || event.absolute
            && event.resolved is None && event.path->0@ == root + seq!['/'] + path,
    ensures
        event_match(root, event)->0.relative_path == path,
{
    reveal_strlit("/");
    paths::law_relative_paths_are_read_back(root, path);
    assert(root + "/"@ + path =~= root + seq!['/'] + path);
    assert(text::replaced(path, '\\', '/') =~= path) by {
        assert forall|k: int| 0 <= k < path.len() implies text::replaced(path, '\\', '/')[k]
            == path[k] by {
            assert(path.contains(path[k]));
        }
    }
}

/// A ripgrep that is configured by name or path is used as it is; only the plain name, in
/// whatever case, is looked for.
pub proof fn law_only_the_plain_command_is_looked_for(configured: Seq<char>, other: Seq<char>)
    ensures
        configured.len() != 2 && configured.len() != 6 ==> !is_default_command(configured),
        configured.contains('/') || configured.contains('\\') ==> !is_default_command(configured),
        text::ascii_lowered(configured) == text::ascii_lowered(other) ==> is_default_command(
            configured,
        ) == is_default_command(other),
        is_default_command("rg"@),
        is_default_command("rg.exe"@),
{
    reveal_strlit("rg");
    reveal_strlit("rg.exe");
    let lower = text::ascii_lowered(configured);
    assert(text::ascii_lowered("rg"@) =~= "rg"@);
    assert(text::ascii_lowered("rg.exe"@) =~= "rg.exe"@);
    if configured.contains('/') {
        let k = choose|k: int| 0 <= k < configured.len() && configured[k] == '/';
        assert(lower[k] == '/');
    }
    if configured.contains('\\') {
        let k = choose|k: int| 0 <= k < configured.len() && configured[k] == '\\';
        assert(lower[k] == '\\');
    }
}

/// Where an editor may bundle ripgrep is tried directory by directory, in their order: for
/// each at two places below it.
pub proof fn law_editors_are_searched_in_order(roots: Seq<Seq<char>>, root: Seq<char>)
    ensures
        bundled_in_all(seq![]) == Seq::<Seq<char>>::empty(),
        bundled_in_all(roots.push(root)) == bundled_in_all(roots) + bundled_in(root),
        bundled_in(root).len() == 2,
        root.len() > 0 && root.last() != '/' ==> text::starts_with(bundled_in(root)[0], root)
            && text::starts_with(bundled_in(root)[1], root) && bundled_in(root)[0].last() == 'e'
            && bundled_in(root)[1].last() == 'e',
{
    assert(roots.push(root).drop_last() =~= roots);
    reveal_strlit("resources/app/node_modules.asar.unpacked/@vscode/ripgrep/bin/rg.exe");
    reveal_strlit(
        "resources/app/node_modules.asar.unpacked/@vscode/ripgrep-universal/bin/win32-x64/rg.exe",
    );
    reveal_strlit("/");
    if root.len() > 0 && root.last() != '/' {
        assert(bundled_in(root)[0].subrange(0, root.len() as int) =~= root);
        assert(bundled_in(root)[1].subrange(0, root.len() as int) =~= root);
    }
}

/// The words that are passed over are those of a fixed list, and no others.
pub proof fn law_few_words_are_passed_over(term: Seq<char>)
    ensures
        is_stop_word(term) <==> seq![
            "the"@,
            "and"@,
            "into"@,
            "from"@,
            "that"@,
            "this"@,
            "with"@,
            "where"@,
            "code"@,
            "generated"@,
            "given"@,
            "retrieve"@,
            "relevant"@,
        ].contains(term),
{
    let list = seq![
        "the"@,
        "and"@,
        "into"@,
        "from"@,
        "that"@,
        "this"@,
        "with"@,
        "where"@,
        "code"@,
        "generated"@,
        "given"@,
        "retrieve"@,
        "relevant"@,
    ];
    assert(list[0] == "the"@);
    assert(list[1] == "and"@);
    assert(list[2] == "into"@);
    assert(list[3] == "from"@);
    assert(list[4] == "that"@);
    assert(list[5] == "this"@);
    assert(list[6] == "with"@);
    assert(list[7] == "where"@);
    assert(list[8] == "code"@);
    assert(list[9] == "generated"@);
    assert(list[10] == "given"@);
    assert(list[11] == "retrieve"@);
    assert(list[12] == "relevant"@);
}

} // verus!
