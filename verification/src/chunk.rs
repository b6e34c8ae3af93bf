//! Chunks of source files, and scans that reuse the chunks of unchanged files.

use crate::language::{self, Language, LanguageAdapter};
use crate::manifest::{self, CachedFile, CachedFileView};
use crate::order::{self, Ranked};
use crate::spans;
use crate::syntax::{self, ParseFailure, SyntaxNode, SyntaxTree};
use crate::table::Table;
use crate::{text, workspace};
use vstd::prelude::*;

verus! {

/// The version of the documents that chunks are indexed as.
pub const DOCUMENT_FORMAT_VERSION: &'static str = "rust-chunks-v1";

/// A piece of a source file that is indexed and found as one.
#[derive(Debug)]
pub struct Chunk {
    pub relative_file_path: String,
    pub language: String,
    /// The line of the first character, from one.
    pub start_line: u32,
    /// The line of the last character, from one.
    pub end_line: u32,
    pub code: String,
    pub content_hash: String,
}

/// What a [`Chunk`] says.
pub struct ChunkView {
    pub relative_file_path: Seq<char>,
    pub language: Seq<char>,
    pub start_line: u32,
    pub end_line: u32,
    pub code: Seq<char>,
    pub content_hash: Seq<char>,
}

impl View for Chunk {
    type V = ChunkView;

    open spec fn view(&self) -> ChunkView {
        ChunkView {
            relative_file_path: self.relative_file_path@,
            language: self.language@,
            start_line: self.start_line,
            end_line: self.end_line,
            code: self.code@,
            content_hash: self.content_hash@,
        }
    }
}

impl Clone for Chunk {
    fn clone(&self) -> (r: Self)
        ensures
            r@ == self@,
    {
        Chunk {
            relative_file_path: self.relative_file_path.clone(),
            language: self.language.clone(),
            start_line: self.start_line,
            end_line: self.end_line,
            code: self.code.clone(),
            content_hash: self.content_hash.clone(),
        }
    }
}

pub open spec fn chunk_views(chunks: Seq<Chunk>) -> Seq<ChunkView> {
    chunks.map_values(|chunk: Chunk| chunk@)
}

/// Copy chunks.
pub fn clone_chunks(chunks: &[Chunk]) -> (r: Vec<Chunk>)
    ensures
        chunk_views(r@) == chunk_views(chunks@),
{
    let mut out: Vec<Chunk> = Vec::new();
    let mut i: usize = 0;
    while i < chunks.len()
        invariant
            i <= chunks@.len(),
            out@.len() == i,
            forall|k: int| 0 <= k < i ==> (#[trigger] out@[k])@ == chunks@[k]@,
        decreases chunks@.len() - i,
    {
        out.push(chunks[i].clone());
        i = i + 1;
    }
    assert(chunk_views(out@) =~= chunk_views(chunks@));
    out
}

// ---------------------------------------------------------------------------
// Lines
// ---------------------------------------------------------------------------

/// How many line ends a text holds.
pub open spec fn newlines(s: Seq<char>) -> nat
    decreases s.len(),
{
    if s.len() == 0 {
        0
    } else if s.last() == '\n' {
        newlines(s.drop_last()) + 1
    } else {
        newlines(s.drop_last())
    }
}

proof fn lemma_newlines_join(a: Seq<char>, b: Seq<char>)
    ensures
        newlines(a + b) == newlines(a) + newlines(b),
    decreases b.len(),
{
    if b.len() == 0 {
        assert(a + b =~= a);
    } else {
        assert((a + b).drop_last() =~= a + b.drop_last());
        lemma_newlines_join(a, b.drop_last());
    }
}

proof fn lemma_newlines_bound(s: Seq<char>)
    ensures
        newlines(s) <= s.len(),
    decreases s.len(),
{
    if s.len() > 0 {
        lemma_newlines_bound(s.drop_last());
    }
}

fn count_newlines(chars: &[char], from: usize, to: usize) -> (r: usize)
    requires
        from <= to <= chars@.len(),
    ensures
        r == newlines(chars@.subrange(from as int, to as int)),
        r <= to - from,
{
    let mut count: usize = 0;
    let mut i: usize = from;
    assert(chars@.subrange(from as int, from as int) =~= seq![]);
    while i < to
        invariant
            from <= i <= to <= chars@.len(),
            count == newlines(chars@.subrange(from as int, i as int)),
            count <= i - from,
        decreases to - i,
    {
        proof {
            let next = chars@.subrange(from as int, i + 1);
            assert(next.drop_last() =~= chars@.subrange(from as int, i as int));
            assert(next.last() == chars@[i as int]);
        }
        if chars[i] == '\n' {
            count = count + 1;
        }
        i = i + 1;
    }
    count
}

// ---------------------------------------------------------------------------
// Chunks
// ---------------------------------------------------------------------------

/// A text of nothing but white space, braces and semicolons.
pub open spec fn is_noise(code: Seq<char>) -> bool {
    forall|i: int| 0 <= i < code.len() ==> #[trigger] is_noise_char(code[i])
}

pub open spec fn is_noise_char(c: char) -> bool {
    text::is_space(c) || c == '{' || c == '}' || c == ';'
}

/// The text of a span, without white space at its ends.
pub open spec fn span_code(source: Seq<char>, span: (usize, usize)) -> Seq<char> {
    text::trim(text::slice(source, span.0 as int, span.1 as int))
}

/// Where the text of a span starts, in characters.
pub open spec fn span_first(source: Seq<char>, span: (usize, usize)) -> int {
    let raw = text::slice(source, span.0 as int, span.1 as int);
    text::slice(source, 0, span.0 as int).len() + (raw.len() - text::trim_start(raw).len())
}

/// The line of the character at `at`, from one.
pub open spec fn line_at(source: Seq<char>, at: int) -> u32 {
    (newlines(source.take(at)) + 1) as u32
}

/// The chunk of a span.
pub open spec fn chunk_of(
    path: Seq<char>,
    language: Language,
    source: Seq<char>,
    span: (usize, usize),
) -> ChunkView {
    let code = span_code(source, span);
    let first = span_first(source, span);
    ChunkView {
        relative_file_path: path,
        language: language.identifier(),
        start_line: line_at(source, first),
        end_line: line_at(source, first + code.len()),
        code,
        content_hash: workspace::sha256(code),
    }
}

/// The chunks of the spans that hold more than noise, in order.
pub open spec fn chunks_of(
    path: Seq<char>,
    language: Language,
    source: Seq<char>,
    list: Seq<(usize, usize)>,
) -> Seq<ChunkView>
    decreases list.len(),
{
    if list.len() == 0 {
        seq![]
    } else {
        let before = chunks_of(path, language, source, list.drop_last());
        if is_noise(span_code(source, list.last())) {
            before
        } else {
            before.push(chunk_of(path, language, source, list.last()))
        }
    }
}

/// The spans start and end between characters.
pub open spec fn spans_in_text(list: Seq<(usize, usize)>, source: Seq<char>) -> bool {
    forall|i: int|
        0 <= i < list.len() ==> text::in_text((#[trigger] list[i]).0, list[i].1, source)
}

fn all_noise(chars: &[char], from: usize, to: usize) -> (r: bool)
    requires
        from <= to <= chars@.len(),
    ensures
        r == is_noise(chars@.subrange(from as int, to as int)),
{
    let ghost part = chars@.subrange(from as int, to as int);
    let mut i: usize = from;
    while i < to
        invariant
            from <= i <= to <= chars@.len(),
            part == chars@.subrange(from as int, to as int),
            forall|k: int| 0 <= k < i - from ==> is_noise_char(#[trigger] part[k]),
        decreases to - i,
    {
        let c = chars[i];
        assert(part[i - from] == c);
        if !(text::char_is_space(c) || c == '{' || c == '}' || c == ';') {
            assert(!is_noise_char(part[i - from]));
            return false;
        }
        i = i + 1;
    }
    assert forall|k: int| 0 <= k < part.len() implies #[trigger] is_noise_char(part[k]) by {}
    true
}

proof fn lemma_chars_fit(s: Seq<char>)
    ensures
        s.len() <= vstd::utf8::encode_utf8(s).len(),
    decreases s.len(),
{
    if s.len() > 0 {
        vstd::utf8::encode_utf8_first_scalar(s);
        lemma_chars_fit(s.drop_first());
    }
}

/// The chunk of a span, unless it is noise.
fn chunk_at(path: &str, source: &str, adapter: LanguageAdapter, span: (usize, usize)) -> (r: Option<
    Chunk,
>)
    requires
        syntax::parseable(source@),
        text::in_text(span.0, span.1, source@),
    ensures
        match r {
            Some(chunk) => {
                &&& !is_noise(span_code(source@, span))
                &&& chunk@ == chunk_of(path@, adapter.language, source@, span)
            },
            None => is_noise(span_code(source@, span)),
        },
{
    let (before, inside) = text::cut(source, span.0, span.1);
    let raw = text::chars_of(inside);
    let bounds = text::trim_bounds(&raw, 0, raw.len());
    assert(raw@.subrange(0, raw@.len() as int) =~= raw@);
    if all_noise(&raw, bounds.0, bounds.1) {
        return None;
    }
    let head = text::chars_of(before);
    let code = text::string_of(&raw, bounds.0, bounds.1);
    let content_hash = workspace::hash(code.as_str());
    let ghost lead = raw@.subrange(0, bounds.0 as int);
    let ghost first = head@.len() + bounds.0;
    proof {
        text::lemma_slice_parts(source@, span.0, span.1);
        lemma_chars_fit(source@);
        assert(source@.take(first) =~= head@ + lead);
        assert(source@.take(first + code@.len()) =~= head@ + lead + code@);
        lemma_newlines_join(head@, lead);
        lemma_newlines_join(head@ + lead, code@);
        lemma_newlines_bound(source@.take(first + code@.len()));
        assert(span_first(source@, span) == first);
        assert(head@.subrange(0, head@.len() as int) =~= head@);
    }
    let above: usize = count_newlines(&head, 0, head.len()) + count_newlines(&raw, 0, bounds.0);
    let below: usize = above + count_newlines(&raw, bounds.0, bounds.1);
    Some(
        Chunk {
            relative_file_path: path.to_owned(),
            language: adapter.identifier().to_owned(),
            start_line: above as u32 + 1,
            end_line: below as u32 + 1,
            code,
            content_hash,
        },
    )
}

/// The chunks of the spans that hold more than noise, in order.
pub fn chunks_from_spans(
    path: &str,
    source: &str,
    adapter: LanguageAdapter,
    list: &[(usize, usize)],
) -> (r: Vec<Chunk>)
    requires
        syntax::parseable(source@),
        spans_in_text(list@, source@),
    ensures
        chunk_views(r@) == chunks_of(path@, adapter.language, source@, list@),
{
    let mut out: Vec<Chunk> = Vec::new();
    let mut i: usize = 0;
    assert(list@.take(0) =~= seq![]);
    assert(chunk_views(out@) =~= seq![]);
    while i < list.len()
        invariant
            i <= list@.len(),
            syntax::parseable(source@),
            spans_in_text(list@, source@),
            chunk_views(out@) == chunks_of(
                path@,
                adapter.language,
                source@,
                list@.take(i as int),
            ),
        decreases list@.len() - i,
    {
        proof {
            let next = list@.take(i + 1);
            assert(next.drop_last() =~= list@.take(i as int));
            assert(next.last() == list@[i as int]);
        }
        let ghost before = out@;
        if let Some(chunk) = chunk_at(path, source, adapter, list[i]) {
            out.push(chunk);
            assert(chunk_views(out@) =~= chunk_views(before).push(chunk@));
        }
        i = i + 1;
    }
    assert(list@.take(list@.len() as int) =~= list@);
    out
}

proof fn lemma_trim_is_part(s: Seq<char>)
    ensures
        text::trim_start(s).len() <= s.len(),
        text::trim_start(s) == s.skip(s.len() - text::trim_start(s).len()),
    decreases s.len(),
{
    if s.len() > 0 && text::is_space(s[0]) {
        lemma_trim_is_part(s.skip(1));
        let rest = text::trim_start(s.skip(1));
        assert(s.skip(1).skip(s.len() - 1 - rest.len()) =~= s.skip(s.len() - rest.len()));
    } else {
        assert(s.skip(0) =~= s);
    }
}

proof fn lemma_trim_end_is_part(s: Seq<char>)
    ensures
        text::trim_end(s).len() <= s.len(),
        text::trim_end(s) == s.take(text::trim_end(s).len() as int),
    decreases s.len(),
{
    if s.len() > 0 && text::is_space(s.last()) {
        lemma_trim_end_is_part(s.drop_last());
        let rest = text::trim_end(s.drop_last());
        assert(s.drop_last().take(rest.len() as int) =~= s.take(rest.len() as int));
    } else {
        assert(s.take(s.len() as int) =~= s);
    }
}

proof fn lemma_newlines_grow(s: Seq<char>, a: int, b: int)
    requires
        0 <= a <= b <= s.len(),
    ensures
        newlines(s.take(a)) <= newlines(s.take(b)) <= b,
{
    assert(s.take(b) =~= s.take(a) + s.subrange(a, b));
    lemma_newlines_join(s.take(a), s.subrange(a, b));
    lemma_newlines_bound(s.take(b));
}

/// The code of a chunk is a part of its source as it stands, its lines are those of
/// its first and its last character, and its hash is the hash of its code.
pub proof fn law_chunks_quote_their_source(
    path: Seq<char>,
    language: Language,
    source: Seq<char>,
    span: (usize, usize),
)
    requires
        syntax::parseable(source),
        text::in_text(span.0, span.1, source),
    ensures
        ({
            let chunk = chunk_of(path, language, source, span);
            let first = span_first(source, span);
            &&& 0 <= first
            &&& first + chunk.code.len() <= source.len()
            &&& chunk.code == source.subrange(first, first + chunk.code.len())
            &&& chunk.start_line == newlines(source.take(first)) + 1
            &&& chunk.end_line == newlines(source.take(first + chunk.code.len())) + 1
            &&& chunk.start_line <= chunk.end_line
            &&& chunk.content_hash == workspace::sha256(chunk.code)
        }),
{
    let raw = text::slice(source, span.0 as int, span.1 as int);
    let head = text::slice(source, 0, span.0 as int);
    let tail = text::trim_start(raw);
    let code = text::trim(raw);
    let first = span_first(source, span);
    text::lemma_slice_parts(source, span.0, span.1);
    lemma_trim_is_part(raw);
    lemma_trim_end_is_part(tail);
    lemma_chars_fit(source);
    assert(code =~= source.subrange(first, first + code.len()));
    lemma_newlines_grow(source, first, first + code.len());
}

// ---------------------------------------------------------------------------
// Spans of a tree in its source
// ---------------------------------------------------------------------------

spec fn at_boundary(source: Seq<char>, at: usize) -> bool {
    vstd::utf8::is_char_boundary(vstd::utf8::encode_utf8(source), at as int)
}

spec fn at_boundaries(list: Seq<(usize, usize)>, source: Seq<char>) -> bool {
    forall|i: int|
        0 <= i < list.len() ==> at_boundary(source, (#[trigger] list[i]).0) && at_boundary(
            source,
            list[i].1,
        )
}

#[verifier::rlimit(50)]
proof fn lemma_walk_boundaries(
    syntax: language::Syntax,
    tree: SyntaxTree,
    source: Seq<char>,
    n: nat,
)
    requires
        syntax::well_placed(tree, source),
        n <= tree.children.len(),
    ensures
        ({
            let walk = spans::walked(syntax, tree, n);
            &&& at_boundaries(walk.spans, source)
            &&& at_boundary(source, walk.start)
            &&& at_boundary(source, walk.end)
            &&& walk.prefix is Some ==> at_boundary(source, walk.prefix->0)
        }),
    decreases tree, 0nat, n,
{
    if n > 0 {
        let k = (n - 1) as nat;
        let child = tree.children[k as int];
        assert(syntax::well_placed(child, source));
        lemma_walk_boundaries(syntax, tree, source, k);
        lemma_span_boundaries(syntax, child, source);
    }
}

proof fn lemma_span_boundaries(syntax: language::Syntax, tree: SyntaxTree, source: Seq<char>)
    requires
        syntax::well_placed(tree, source),
    ensures
        at_boundaries(spans::spans(syntax, tree), source),
    decreases tree, 1nat, 0nat,
{
    if !spans::stays_whole(syntax, tree) && tree.children.len() > 0 {
        lemma_walk_boundaries(syntax, tree, source, tree.children.len());
    }
}

/// The spans of a tree that lies in its source start and end between characters.
pub proof fn lemma_spans_in_text(syntax: language::Syntax, tree: SyntaxTree, source: Seq<char>)
    requires
        syntax::well_placed(tree, source),
    ensures
        spans_in_text(spans::spans(syntax, tree), source),
{
    lemma_span_boundaries(syntax, tree, source);
    syntax::lemma_well_placed_is_nested(tree, source);
    spans::law_spans_are_disjoint_and_in_order(syntax, tree);
    let list = spans::spans(syntax, tree);
    assert forall|i: int| 0 <= i < list.len() implies text::in_text(
        (#[trigger] list[i]).0,
        list[i].1,
        source,
    ) by {
        assert(at_boundary(source, list[i].0) && at_boundary(source, list[i].1));
    }
}

// ---------------------------------------------------------------------------
// Chunks of a file
// ---------------------------------------------------------------------------

/// The chunks of a file whose tree is known.
pub open spec fn tree_chunks(
    path: Seq<char>,
    language: Language,
    source: Seq<char>,
    tree: SyntaxTree,
) -> Seq<ChunkView> {
    chunks_of(path, language, source, spans::spans(language.syntax(), tree))
}

/// The chunks of a file, or why it has none.
pub open spec fn file_chunks(path: Seq<char>, language: Language, source: Seq<char>) -> Result<
    Seq<ChunkView>,
    ParseFailure,
> {
    match syntax::source_tree(language.grammar(), source) {
        Ok(tree) => Ok(tree_chunks(path, language, source, tree)),
        Err(failure) => Err(failure),
    }
}

/// Why a file has no chunks.
#[derive(Debug)]
pub enum ChunkError {
    /// No language is registered for the extension of this path.
    UnsupportedExtension(String),
    /// The file could not be parsed.
    Parse(ParseFailure),
}

impl ChunkError {
    /// The text of the error.
    pub open spec fn text(self) -> Seq<char> {
        match self {
            ChunkError::UnsupportedExtension(path) => "unsupported source extension: "@ + path@,
            ChunkError::Parse(ParseFailure::Language) => "Tree-sitter cannot use the grammar"@,
            ChunkError::Parse(ParseFailure::Cancelled) => "Tree-sitter parse cancelled"@,
            ChunkError::Parse(ParseFailure::Malformed) => "Tree-sitter nodes lie outside the source"@,
            ChunkError::Parse(ParseFailure::Margins) => "source is indented too deeply"@,
        }
    }

    /// The text of the error.
    pub fn message(&self) -> (r: String)
        ensures
            r@ == self.text(),
    {
        match self {
            ChunkError::UnsupportedExtension(path) => text::concat2(
                "unsupported source extension: ",
                path.as_str(),
            ),
            ChunkError::Parse(ParseFailure::Language) => {
                "Tree-sitter cannot use the grammar".to_owned()
            },
            ChunkError::Parse(ParseFailure::Cancelled) => "Tree-sitter parse cancelled".to_owned(),
            ChunkError::Parse(ParseFailure::Malformed) => {
                "Tree-sitter nodes lie outside the source".to_owned()
            },
            ChunkError::Parse(ParseFailure::Margins) => {
                "source is indented too deeply".to_owned()
            },
        }
    }
}

/// Chunk a file whose tree is known.
pub fn chunks_from_tree(
    path: &str,
    source: &str,
    adapter: LanguageAdapter,
    root: &SyntaxNode,
) -> (r: Vec<Chunk>)
    requires
        syntax::parseable(source@),
        syntax::well_placed(syntax::tree_of(*root), source@),
    ensures
        chunk_views(r@) == tree_chunks(
            path@,
            adapter.language,
            source@,
            syntax::tree_of(*root),
        ),
{
    let ghost tree = syntax::tree_of(*root);
    let mut list: Vec<(usize, usize)> = Vec::new();
    proof {
        syntax::lemma_well_placed_is_nested(tree, source@);
        lemma_spans_in_text(adapter.language.syntax(), tree, source@);
    }
    spans::ranges(adapter.syntax(), root, &mut list);
    assert(list@ =~= spans::spans(adapter.language.syntax(), tree));
    chunks_from_spans(path, source, adapter, &list)
}

/// Parse and chunk a file.
pub fn chunks_with_adapter(path: &str, source: &str, adapter: LanguageAdapter) -> (r: Result<
    Vec<Chunk>,
    ParseFailure,
>)
    requires
        syntax::parseable(source@),
    ensures
        match r {
            Ok(chunks) => file_chunks(path@, adapter.language, source@) == Ok::<
                Seq<ChunkView>,
                ParseFailure,
            >(chunk_views(chunks@)),
            Err(failure) => file_chunks(path@, adapter.language, source@) == Err::<
                Seq<ChunkView>,
                ParseFailure,
            >(failure),
        },
{
    match syntax::parse(adapter.grammar(), source) {
        Ok(root) => Ok(chunks_from_tree(path, source, adapter, &root)),
        Err(failure) => Err(failure),
    }
}

/// Chunk a Rust file.
pub fn rust_chunks(path: &str, source: &str) -> (r: Result<Vec<Chunk>, ChunkError>)
    requires
        syntax::parseable(source@),
    ensures
        match r {
            Ok(chunks) => file_chunks(path@, Language::Rust, source@) == Ok::<
                Seq<ChunkView>,
                ParseFailure,
            >(chunk_views(chunks@)),
            Err(ChunkError::Parse(failure)) => file_chunks(path@, Language::Rust, source@) == Err::<
                Seq<ChunkView>,
                ParseFailure,
            >(failure),
            Err(ChunkError::UnsupportedExtension(_)) => false,
        },
{
    match chunks_with_adapter(path, source, LanguageAdapter { language: Language::Rust }) {
        Ok(chunks) => Ok(chunks),
        Err(failure) => Err(ChunkError::Parse(failure)),
    }
}

/// Chunk a file in the language of its extension.
pub fn chunks_for_path(path: &str, source: &str) -> (r: Result<Vec<Chunk>, ChunkError>)
    requires
        syntax::parseable(source@),
    ensures
        match language::language_of_path(path@) {
            Some(language) => match r {
                Ok(chunks) => file_chunks(path@, language, source@) == Ok::<
                    Seq<ChunkView>,
                    ParseFailure,
                >(chunk_views(chunks@)),
                Err(ChunkError::Parse(failure)) => file_chunks(path@, language, source@) == Err::<
                    Seq<ChunkView>,
                    ParseFailure,
                >(failure),
                Err(ChunkError::UnsupportedExtension(_)) => false,
            },
            None => r matches Err(ChunkError::UnsupportedExtension(p)) && p@ == path@,
        },
{
    match language::for_path(path) {
        Some(adapter) => match chunks_with_adapter(path, source, adapter) {
            Ok(chunks) => Ok(chunks),
            Err(failure) => Err(ChunkError::Parse(failure)),
        },
        None => Err(ChunkError::UnsupportedExtension(path.to_owned())),
    }
}

// ---------------------------------------------------------------------------
// Scans
// ---------------------------------------------------------------------------

/// A source file of a registered language.
#[derive(Debug)]
pub struct SourceFile {
    pub relative_path: String,
    pub source: String,
    pub content_hash: String,
    pub adapter: LanguageAdapter,
}

/// What a [`SourceFile`] says.
pub struct SourceFileView {
    pub relative_path: Seq<char>,
    pub source: Seq<char>,
    pub content_hash: Seq<char>,
    pub language: Language,
}

impl View for SourceFile {
    type V = SourceFileView;

    open spec fn view(&self) -> SourceFileView {
        SourceFileView {
            relative_path: self.relative_path@,
            source: self.source@,
            content_hash: self.content_hash@,
            language: self.adapter.language,
        }
    }
}

pub open spec fn source_views(files: Seq<SourceFile>) -> Seq<SourceFileView> {
    files.map_values(|file: SourceFile| file@)
}

/// The source file at a path below the workspace, if its language is registered.
pub fn source_file(path: &str, source: String) -> (r: Option<SourceFile>)
    ensures
        match language::language_of_path(path@) {
            Some(language) => r is Some && r->0@ == (SourceFileView {
                relative_path: text::replaced(path@, '\\', '/'),
                source: source@,
                content_hash: workspace::sha256(source@),
                language,
            }),
            None => r is None,
        },
{
    match language::for_path(path) {
        Some(adapter) => {
            let content_hash = workspace::hash(source.as_str());
            Some(
                SourceFile {
                    relative_path: text::replace_char(path, '\\', '/'),
                    source,
                    content_hash,
                    adapter,
                },
            )
        },
        None => None,
    }
}

impl Ranked for SourceFile {
    open spec fn below(self, other: Self) -> bool {
        order::precedes(self.relative_path@, other.relative_path@)
    }

    proof fn asymmetric(a: Self, b: Self) {
        String::asymmetric(a.relative_path, b.relative_path);
    }

    proof fn weakly_ordered(a: Self, b: Self, c: Self) {
        String::weakly_ordered(a.relative_path, b.relative_path, c.relative_path);
    }

    fn is_below(&self, other: &Self) -> (r: bool) {
        order::text_precedes(self.relative_path.as_str(), other.relative_path.as_str())
    }
}

impl Ranked for Chunk {
    open spec fn below(self, other: Self) -> bool {
        chunk_before(self@, other@)
    }

    proof fn asymmetric(a: Self, b: Self) {
        order::lemma_precedes_total(a.relative_file_path@, b.relative_file_path@);
    }

    proof fn weakly_ordered(a: Self, b: Self, c: Self) {
        let (x, y, z) = (a.relative_file_path@, b.relative_file_path@, c.relative_file_path@);
        order::lemma_precedes_total(x, y);
        order::lemma_precedes_total(y, z);
        order::lemma_precedes_total(x, z);
        if x != y && y != z {
            order::lemma_precedes_transitive(z, y, x);
        }
    }

    fn is_below(&self, other: &Self) -> (r: bool) {
        if text::str_eq(self.relative_file_path.as_str(), other.relative_file_path.as_str()) {
            proof {
                order::lemma_precedes_total(self.relative_file_path@, other.relative_file_path@);
            }
            self.start_line < other.start_line
        } else {
            order::text_precedes(
                self.relative_file_path.as_str(),
                other.relative_file_path.as_str(),
            )
        }
    }
}

/// Chunks stand in the order of their paths, then of their first lines.
pub open spec fn chunk_before(a: ChunkView, b: ChunkView) -> bool {
    ||| order::precedes(a.relative_file_path, b.relative_file_path)
    ||| a.relative_file_path == b.relative_file_path && a.start_line < b.start_line
}

pub open spec fn by_place() -> spec_fn(ChunkView, ChunkView) -> bool {
    |a: ChunkView, b: ChunkView| chunk_before(a, b)
}

pub open spec fn by_path() -> spec_fn(SourceFileView, SourceFileView) -> bool {
    |a: SourceFileView, b: SourceFileView| order::precedes(a.relative_path, b.relative_path)
}

/// The files in the order of their paths.
pub open spec fn in_path_order(files: Seq<SourceFileView>) -> Seq<SourceFileView> {
    order::sorted_by(files, by_path())
}

/// What a file adds to the fingerprint of a workspace.
pub open spec fn material(file: SourceFileView) -> Seq<char> {
    file.relative_path + seq!['\0'] + file.content_hash + seq!['\0'] + file.language.identifier()
        + seq!['\0'] + file.language.cache_version() + seq!['\n']
}

pub open spec fn all_material(files: Seq<SourceFileView>) -> Seq<char>
    decreases files.len(),
{
    if files.len() == 0 {
        seq![]
    } else {
        all_material(files.drop_last()) + material(files.last())
    }
}

/// The fingerprint of files that stand in order.
pub open spec fn fingerprint_of(files: Seq<SourceFileView>) -> Seq<char> {
    workspace::sha256(all_material(files))
}

/// The cached chunks of a file can be used again: the content, the language and the
/// version of its chunks are unchanged.
pub open spec fn reusable(
    file: SourceFileView,
    previous: Map<Seq<char>, CachedFileView>,
) -> bool {
    &&& previous.contains_key(file.relative_path)
    &&& previous[file.relative_path].content_hash == file.content_hash
    &&& previous[file.relative_path].language == file.language.identifier()
    &&& previous[file.relative_path].adapter_version == file.language.cache_version()
}

/// The chunks of a file in a scan: cached where they can be used again.
pub open spec fn scan_chunks(
    file: SourceFileView,
    previous: Map<Seq<char>, CachedFileView>,
) -> Result<Seq<ChunkView>, ParseFailure> {
    if reusable(file, previous) {
        Ok(previous[file.relative_path].chunks)
    } else {
        file_chunks(file.relative_path, file.language, file.source)
    }
}

/// The first failure of a scan.
pub open spec fn scan_failure(
    files: Seq<SourceFileView>,
    previous: Map<Seq<char>, CachedFileView>,
) -> Option<ParseFailure>
    decreases files.len(),
{
    if files.len() == 0 {
        None
    } else {
        match scan_failure(files.drop_last(), previous) {
            Some(failure) => Some(failure),
            None => match scan_chunks(files.last(), previous) {
                Ok(_) => None,
                Err(failure) => Some(failure),
            },
        }
    }
}

/// The chunks of all files, file by file.
pub open spec fn collected(
    files: Seq<SourceFileView>,
    previous: Map<Seq<char>, CachedFileView>,
) -> Seq<ChunkView>
    decreases files.len(),
{
    if files.len() == 0 {
        seq![]
    } else {
        collected(files.drop_last(), previous) + scan_chunks(files.last(), previous)->Ok_0
    }
}

/// What is kept of a file for the next scan.
pub open spec fn cached(
    file: SourceFileView,
    previous: Map<Seq<char>, CachedFileView>,
) -> CachedFileView {
    CachedFileView {
        language: file.language.identifier(),
        adapter_version: file.language.cache_version(),
        content_hash: file.content_hash,
        chunks: scan_chunks(file, previous)->Ok_0,
    }
}

/// What is kept of all files for the next scan.
pub open spec fn kept(
    files: Seq<SourceFileView>,
    previous: Map<Seq<char>, CachedFileView>,
) -> Map<Seq<char>, CachedFileView>
    decreases files.len(),
{
    if files.len() == 0 {
        Map::empty()
    } else {
        kept(files.drop_last(), previous).insert(
            files.last().relative_path,
            cached(files.last(), previous),
        )
    }
}

/// How many files are used again.
pub open spec fn reused(
    files: Seq<SourceFileView>,
    previous: Map<Seq<char>, CachedFileView>,
) -> nat
    decreases files.len(),
{
    if files.len() == 0 {
        0
    } else if reusable(files.last(), previous) {
        reused(files.drop_last(), previous) + 1
    } else {
        reused(files.drop_last(), previous)
    }
}

/// How many of the paths are not among the kept files.
pub open spec fn missing(
    known: Seq<Seq<char>>,
    files: Map<Seq<char>, CachedFileView>,
) -> nat
    decreases known.len(),
{
    if known.len() == 0 {
        0
    } else if files.contains_key(known.last()) {
        missing(known.drop_last(), files)
    } else {
        missing(known.drop_last(), files) + 1
    }
}

/// The result of a scan.
#[derive(Debug)]
pub struct Scan {
    pub chunks: Vec<Chunk>,
    pub files: Table<CachedFile>,
    pub fingerprint: String,
    pub parsed_files: usize,
    pub unchanged_files: usize,
    pub removed_files: usize,
}

/// What a [`Scan`] says.
pub struct ScanView {
    pub chunks: Seq<ChunkView>,
    pub files: Map<Seq<char>, CachedFileView>,
    pub fingerprint: Seq<char>,
    pub parsed_files: nat,
    pub unchanged_files: nat,
    pub removed_files: nat,
}

impl View for Scan {
    type V = ScanView;

    open spec fn view(&self) -> ScanView {
        ScanView {
            chunks: chunk_views(self.chunks@),
            files: manifest::file_views(self.files@),
            fingerprint: self.fingerprint@,
            parsed_files: self.parsed_files as nat,
            unchanged_files: self.unchanged_files as nat,
            removed_files: self.removed_files as nat,
        }
    }
}

/// The scan of files that stand in order. `known` are the paths of the previous scan.
pub open spec fn scan_of(
    files: Seq<SourceFileView>,
    previous: Map<Seq<char>, CachedFileView>,
    known: Seq<Seq<char>>,
) -> ScanView {
    ScanView {
        chunks: order::sorted_by(collected(files, previous), by_place()),
        files: kept(files, previous),
        fingerprint: fingerprint_of(files),
        parsed_files: (files.len() - reused(files, previous)) as nat,
        unchanged_files: reused(files, previous),
        removed_files: missing(known, kept(files, previous)),
    }
}

fn material_text(file: &SourceFile) -> (r: String)
    ensures
        r@ == material(file@),
{
    let mut out = file.relative_path.clone();
    out.push('\0');
    out.append(file.content_hash.as_str());
    out.push('\0');
    out.append(file.adapter.identifier());
    out.push('\0');
    out.append(file.adapter.cache_version());
    out.push('\n');
    assert(out@ =~= material(file@));
    out
}

fn material_of(files: &[SourceFile]) -> (r: String)
    ensures
        r@ == all_material(source_views(files@)),
{
    let mut out = String::new();
    let mut i: usize = 0;
    let ghost all = source_views(files@);
    assert(all.take(0) =~= seq![]);
    while i < files.len()
        invariant
            i <= files@.len(),
            all == source_views(files@),
            out@ == all_material(all.take(i as int)),
        decreases files@.len() - i,
    {
        proof {
            let next = all.take(i + 1);
            assert(next.drop_last() =~= all.take(i as int));
            assert(next.last() == files@[i as int]@);
        }
        out.append(material_text(&files[i]).as_str());
        i = i + 1;
    }
    assert(all.take(all.len() as int) =~= all);
    out
}

fn sort_files(files: Vec<SourceFile>) -> (r: Vec<SourceFile>)
    ensures
        source_views(r@) == in_path_order(source_views(files@)),
        r@.to_multiset() == files@.to_multiset(),
{
    proof {
        order::lemma_sorted_maps(
            files@,
            |file: SourceFile| file@,
            order::rank::<SourceFile>(),
            by_path(),
        );
        order::lemma_rank_is_an_order::<SourceFile>();
        order::law_sorting_orders_the_items(files@, order::rank::<SourceFile>());
    }
    order::sort(files)
}

/// Fingerprint the files of a workspace, found in any order.
pub fn fingerprint(files: Vec<SourceFile>) -> (r: String)
    ensures
        r@ == fingerprint_of(in_path_order(source_views(files@))),
{
    let files = sort_files(files);
    workspace::hash(material_of(&files).as_str())
}

/// The path and the content hash of a file do not hold the character that ends them in the
/// material.
pub open spec fn is_plain(file: SourceFileView) -> bool {
    !file.relative_path.contains('\0') && !file.content_hash.contains('\0')
}

proof fn lemma_first_field(a: Seq<char>, b: Seq<char>, end: char, x: Seq<char>, y: Seq<char>)
    requires
        !a.contains(end),
        !b.contains(end),
        a + seq![end] + x == b + seq![end] + y,
    ensures
        a == b,
        x == y,
{
    let (left, right) = (a + seq![end] + x, b + seq![end] + y);
    if a.len() < b.len() {
        assert(left[a.len() as int] == end);
        assert(right[a.len() as int] == b[a.len() as int]);
        assert(b.contains(end));
    } else if b.len() < a.len() {
        assert(right[b.len() as int] == end);
        assert(left[b.len() as int] == a[b.len() as int]);
        assert(a.contains(end));
    }
    assert forall|k: int| 0 <= k < a.len() implies a[k] == b[k] by {
        assert(left[k] == a[k] && right[k] == b[k]);
    }
    assert(a =~= b);
    let skipped = a.len() + 1;
    assert(left.len() == skipped + x.len() && right.len() == skipped + y.len());
    assert forall|k: int| 0 <= k < x.len() implies x[k] == y[k] by {
        assert(left[skipped + k] == x[k] && right[skipped + k] == y[k]);
    }
    assert(x =~= y);
}

proof fn lemma_first_material(a: SourceFileView, b: SourceFileView, x: Seq<char>, y: Seq<char>)
    requires
        is_plain(a),
        is_plain(b),
        material(a) + x == material(b) + y,
    ensures
        a.relative_path == b.relative_path,
        a.content_hash == b.content_hash,
        a.language == b.language,
        x == y,
{
    let end = seq!['\0'];
    let (va, vb) = (
        a.language.cache_version() + seq!['\n'] + x,
        b.language.cache_version() + seq!['\n'] + y,
    );
    let (la, lb) = (a.language.identifier() + end + va, b.language.identifier() + end + vb);
    let (ha, hb) = (a.content_hash + end + la, b.content_hash + end + lb);
    assert(a.relative_path + end + ha =~= material(a) + x);
    assert(b.relative_path + end + hb =~= material(b) + y);
    lemma_first_field(a.relative_path, b.relative_path, '\0', ha, hb);
    lemma_first_field(a.content_hash, b.content_hash, '\0', la, lb);
    language::lemma_identifiers_are_letters(a.language);
    language::lemma_identifiers_are_letters(b.language);
    lemma_first_field(a.language.identifier(), b.language.identifier(), '\0', va, vb);
    language::law_extensions_and_identifiers_are_distinct(a.language, b.language);
    let version = a.language.cache_version() + seq!['\n'];
    assert(va.skip(version.len() as int) =~= x);
    assert(vb.skip(version.len() as int) =~= y);
}

proof fn lemma_material_from_the_front(files: Seq<SourceFileView>)
    requires
        files.len() > 0,
    ensures
        all_material(files) == material(files[0]) + all_material(files.skip(1)),
    decreases files.len(),
{
    let rest = files.drop_last();
    if rest.len() > 0 {
        lemma_material_from_the_front(rest);
        assert(files.skip(1).drop_last() =~= rest.skip(1));
        assert(all_material(files) =~= material(files[0]) + all_material(files.skip(1)));
    } else {
        assert(all_material(rest) =~= seq![]);
        assert(all_material(files.skip(1)) =~= seq![]);
        assert(all_material(files) =~= material(files[0]) + all_material(files.skip(1)));
    }
}

/// What is fingerprinted tells lists of files apart that differ in a path, in a content
/// hash or in a language.
pub proof fn law_the_material_tells_files_apart(a: Seq<SourceFileView>, b: Seq<SourceFileView>)
    requires
        forall|i: int| 0 <= i < a.len() ==> is_plain(#[trigger] a[i]),
        forall|i: int| 0 <= i < b.len() ==> is_plain(#[trigger] b[i]),
        all_material(a) == all_material(b),
    ensures
        a.len() == b.len(),
        forall|i: int|
            0 <= i < a.len() ==> {
                &&& (#[trigger] a[i]).relative_path == b[i].relative_path
                &&& a[i].content_hash == b[i].content_hash
                &&& a[i].language == b[i].language
            },
    decreases a.len(),
{
    if a.len() > 0 {
        lemma_material_from_the_front(a);
    }
    if b.len() > 0 {
        lemma_material_from_the_front(b);
    }
    if a.len() > 0 && b.len() > 0 {
        let (x, y) = (a.skip(1), b.skip(1));
        lemma_first_material(a[0], b[0], all_material(x), all_material(y));
        assert forall|i: int| 0 <= i < x.len() implies is_plain(#[trigger] x[i]) by {
            assert(x[i] == a[i + 1]);
        }
        assert forall|i: int| 0 <= i < y.len() implies is_plain(#[trigger] y[i]) by {
            assert(y[i] == b[i + 1]);
        }
        law_the_material_tells_files_apart(x, y);
        assert forall|i: int| 0 <= i < a.len() implies {
            &&& (#[trigger] a[i]).relative_path == b[i].relative_path
            &&& a[i].content_hash == b[i].content_hash
            &&& a[i].language == b[i].language
        } by {
            if i > 0 {
                assert(x[i - 1] == a[i] && y[i - 1] == b[i]);
            }
        }
    }
}

/// The order in which the files are found does not matter.
pub proof fn law_the_walk_order_does_not_matter(a: Seq<SourceFileView>, b: Seq<SourceFileView>)
    requires
        a.to_multiset() == b.to_multiset(),
        distinct_paths(a),
    ensures
        in_path_order(a) == in_path_order(b),
{
    broadcast use vstd::seq_lib::group_to_multiset_ensures;

    let before = by_path();
    assert forall|x: SourceFileView, y: SourceFileView| #[trigger] before(x, y) implies !before(
        y,
        x,
    ) by {
        order::lemma_precedes_total(x.relative_path, y.relative_path);
    }
    assert forall|x: SourceFileView, y: SourceFileView, z: SourceFileView|
        !(#[trigger] before(x, y)) && !(#[trigger] before(y, z)) implies !before(x, z) by {
        order::lemma_precedes_weakly(x.relative_path, y.relative_path, z.relative_path);
    }
    assert forall|x: SourceFileView, y: SourceFileView|
        a.contains(x) && a.contains(y) && x != y implies #[trigger] before(x, y) || before(
        y,
        x,
    ) by {
        let i = choose|i: int| 0 <= i < a.len() && a[i] == x;
        let j = choose|j: int| 0 <= j < a.len() && a[j] == y;
        if i < j {
            assert(a[i].relative_path != a[j].relative_path);
        } else {
            assert(a[j].relative_path != a[i].relative_path);
        }
        order::lemma_precedes_total(x.relative_path, y.relative_path);
    }
    order::law_sorting_forgets_the_order(a, b, before);
}

/// All files are small enough for the parser.
pub open spec fn all_parseable(files: Seq<SourceFile>) -> bool {
    forall|file: SourceFile| #[trigger]
        files.contains(file) ==> syntax::parseable(file.source@)
}

fn chunks_in_scan(file: &SourceFile, previous: &Table<CachedFile>) -> (r: (
    bool,
    Result<Vec<Chunk>, ParseFailure>,
))
    requires
        syntax::parseable(file.source@),
    ensures
        r.0 == reusable(file@, manifest::file_views(previous@)),
        match r.1 {
            Ok(chunks) => scan_chunks(file@, manifest::file_views(previous@)) == Ok::<
                Seq<ChunkView>,
                ParseFailure,
            >(chunk_views(chunks@)),
            Err(failure) => scan_chunks(file@, manifest::file_views(previous@)) == Err::<
                Seq<ChunkView>,
                ParseFailure,
            >(failure),
        },
{
    match previous.get(file.relative_path.as_str()) {
        Some(cached) => {
            assert(manifest::file_views(previous@)[file.relative_path@] == cached@);
            if text::str_eq(cached.content_hash.as_str(), file.content_hash.as_str())
                && text::str_eq(cached.language.as_str(), file.adapter.identifier())
                && text::str_eq(cached.adapter_version.as_str(), file.adapter.cache_version()) {
                return (true, Ok(clone_chunks(&cached.chunks)));
            }
        },
        None => {},
    }
    (
        false,
        chunks_with_adapter(file.relative_path.as_str(), file.source.as_str(), file.adapter),
    )
}

fn extend(all: &mut Vec<Chunk>, more: &[Chunk])
    ensures
        chunk_views(final(all)@) == chunk_views(old(all)@) + chunk_views(more@),
{
    let ghost before = chunk_views(all@);
    let mut i: usize = 0;
    assert(chunk_views(more@).take(0) =~= seq![]);
    assert(before =~= before + chunk_views(more@).take(0));
    while i < more.len()
        invariant
            i <= more@.len(),
            chunk_views(all@) == before + chunk_views(more@).take(i as int),
        decreases more@.len() - i,
    {
        let ghost now = all@;
        all.push(more[i].clone());
        proof {
            assert(chunk_views(all@) =~= chunk_views(now).push(more@[i as int]@));
            assert(chunk_views(more@).take(i + 1) =~= chunk_views(more@).take(i as int).push(
                more@[i as int]@,
            ));
            assert(chunk_views(all@) =~= before + chunk_views(more@).take(i + 1));
        }
        i = i + 1;
    }
    assert(chunk_views(more@).take(more@.len() as int) =~= chunk_views(more@));
}

fn count_missing(previous: &Table<CachedFile>, files: &Table<CachedFile>) -> (r: usize)
    ensures
        r == missing(previous.keys(), manifest::file_views(files@)),
{
    let total: usize = previous.len();
    let ghost known = previous.keys();
    let mut count: usize = 0;
    let mut i: usize = 0;
    assert(known.take(0) =~= seq![]);
    while i < total
        invariant
            i <= total,
            total == known.len(),
            known == previous.keys(),
            count <= i,
            count == missing(known.take(i as int), manifest::file_views(files@)),
        decreases total - i,
    {
        proof {
            let next = known.take(i + 1);
            assert(next.drop_last() =~= known.take(i as int));
            assert(next.last() == known[i as int]);
        }
        let (path, _) = previous.entry(i);
        if files.get(path.as_str()).is_none() {
            count = count + 1;
        }
        i = i + 1;
    }
    assert(known.take(known.len() as int) =~= known);
    count
}

proof fn lemma_failure_stays(
    files: Seq<SourceFileView>,
    previous: Map<Seq<char>, CachedFileView>,
    n: int,
)
    requires
        0 <= n <= files.len(),
        scan_failure(files.take(n), previous) is Some,
    ensures
        scan_failure(files, previous) == scan_failure(files.take(n), previous),
    decreases files.len(),
{
    if n < files.len() {
        assert(files.drop_last().take(n) =~= files.take(n));
        lemma_failure_stays(files.drop_last(), previous, n);
    } else {
        assert(files.take(n) =~= files);
    }
}

/// Scan the files of a workspace, found in any order, and use the chunks of unchanged
/// files again.
pub fn scan_incremental(files: Vec<SourceFile>, previous: &Table<CachedFile>) -> (r: Result<
    Scan,
    ParseFailure,
>)
    requires
        all_parseable(files@),
    ensures
        ({
            let found = in_path_order(source_views(files@));
            let before = manifest::file_views(previous@);
            match r {
                Ok(scan) => {
                    &&& scan_failure(found, before) is None
                    &&& scan@ == scan_of(found, before, previous.keys())
                },
                Err(failure) => scan_failure(found, before) == Some(failure),
            }
        }),
{
    let sorted = sort_files(files);
    let ghost found = source_views(sorted@);
    let ghost before = manifest::file_views(previous@);
    let mut chunks: Vec<Chunk> = Vec::new();
    let mut table: Table<CachedFile> = Table::new();
    let mut unchanged_files: usize = 0;
    let mut i: usize = 0;
    proof {
        broadcast use vstd::seq_lib::group_to_multiset_ensures;

        assert forall|k: int| 0 <= k < sorted@.len() implies syntax::parseable(
            (#[trigger] sorted@[k]).source@,
        ) by {
            assert(sorted@.contains(sorted@[k]));
            assert(sorted@.to_multiset().count(sorted@[k]) > 0);
            assert(files@.contains(sorted@[k]));
        }
        assert(found.take(0) =~= seq![]);
        assert(chunk_views(chunks@) =~= seq![]);
        assert(manifest::file_views(table@) =~= Map::empty());
    }
    while i < sorted.len()
        invariant
            i <= sorted@.len(),
            found == source_views(sorted@),
            found == in_path_order(source_views(files@)),
            before == manifest::file_views(previous@),
            forall|k: int|
                0 <= k < sorted@.len() ==> syntax::parseable((#[trigger] sorted@[k]).source@),
            scan_failure(found.take(i as int), before) is None,
            chunk_views(chunks@) == collected(found.take(i as int), before),
            manifest::file_views(table@) == kept(found.take(i as int), before),
            unchanged_files == reused(found.take(i as int), before),
            unchanged_files <= i,
        decreases sorted@.len() - i,
    {
        let file = &sorted[i];
        proof {
            let next = found.take(i + 1);
            assert(next.drop_last() =~= found.take(i as int));
            assert(next.last() == file@);
        }
        let (unchanged, outcome) = chunks_in_scan(file, previous);
        if unchanged {
            unchanged_files = unchanged_files + 1;
        }
        match outcome {
            Ok(list) => {
                extend(&mut chunks, &list);
                let entry = CachedFile {
                    language: file.adapter.identifier().to_owned(),
                    adapter_version: file.adapter.cache_version().to_owned(),
                    content_hash: file.content_hash.clone(),
                    chunks: list,
                };
                let ghost now = table@;
                table.insert(file.relative_path.clone(), entry);
                assert(manifest::file_views(table@) =~= manifest::file_views(now).insert(
                    file.relative_path@,
                    entry@,
                ));
                assert(entry@ == cached(file@, before));
            },
            Err(failure) => {
                proof {
                    lemma_failure_stays(found, before, i + 1);
                }
                return Err(failure);
            },
        }
        i = i + 1;
    }
    proof {
        assert(found.take(found.len() as int) =~= found);
        order::lemma_sorted_maps(
            chunks@,
            |chunk: Chunk| chunk@,
            order::rank::<Chunk>(),
            by_place(),
        );
    }
    let removed_files: usize = count_missing(previous, &table);
    let fingerprint = workspace::hash(material_of(&sorted).as_str());
    let chunks = order::sort(chunks);
    Ok(
        Scan {
            chunks,
            files: table,
            fingerprint,
            parsed_files: sorted.len() - unchanged_files,
            unchanged_files,
            removed_files,
        },
    )
}

/// No two files have the same path.
pub open spec fn distinct_paths(files: Seq<SourceFileView>) -> bool {
    forall|i: int, j: int|
        0 <= i < j < files.len() ==> (#[trigger] files[i]).relative_path != (
        #[trigger] files[j]).relative_path
}

proof fn lemma_no_failure(
    files: Seq<SourceFileView>,
    previous: Map<Seq<char>, CachedFileView>,
    i: int,
)
    requires
        scan_failure(files, previous) is None,
        0 <= i < files.len(),
    ensures
        scan_chunks(files[i], previous) is Ok,
    decreases files.len(),
{
    if i < files.len() - 1 {
        assert(files.drop_last()[i] == files[i]);
        lemma_no_failure(files.drop_last(), previous, i);
    }
}

proof fn lemma_kept_holds(
    files: Seq<SourceFileView>,
    previous: Map<Seq<char>, CachedFileView>,
    i: int,
)
    requires
        distinct_paths(files),
        0 <= i < files.len(),
    ensures
        kept(files, previous).contains_key(files[i].relative_path),
        kept(files, previous)[files[i].relative_path] == cached(files[i], previous),
    decreases files.len(),
{
    if i < files.len() - 1 {
        let rest = files.drop_last();
        assert(rest[i] == files[i]);
        assert forall|a: int, b: int| 0 <= a < b < rest.len() implies (
        #[trigger] rest[a]).relative_path != (#[trigger] rest[b]).relative_path by {
            assert(rest[a] == files[a] && rest[b] == files[b]);
        }
        lemma_kept_holds(rest, previous, i);
        assert(files[i].relative_path != files[files.len() - 1].relative_path);
    }
}

proof fn lemma_all_reused(
    files: Seq<SourceFileView>,
    first: Map<Seq<char>, CachedFileView>,
    second: Map<Seq<char>, CachedFileView>,
)
    requires
        forall|i: int|
            0 <= i < files.len() ==> reusable(#[trigger] files[i], second) && scan_chunks(
                files[i],
                second,
            ) == scan_chunks(files[i], first),
    ensures
        reused(files, second) == files.len(),
        scan_failure(files, second) == scan_failure(files, first),
        collected(files, second) == collected(files, first),
        kept(files, second) == kept(files, first),
    decreases files.len(),
{
    if files.len() > 0 {
        let rest = files.drop_last();
        assert forall|i: int| 0 <= i < rest.len() implies reusable(#[trigger] rest[i], second)
            && scan_chunks(rest[i], second) == scan_chunks(rest[i], first) by {
            assert(rest[i] == files[i]);
        }
        lemma_all_reused(rest, first, second);
        assert(files.last() == files[files.len() - 1]);
        assert(reusable(files[files.len() - 1], second));
    }
}

proof fn lemma_kept_comes_from(
    files: Seq<SourceFileView>,
    previous: Map<Seq<char>, CachedFileView>,
    path: Seq<char>,
)
    requires
        kept(files, previous).contains_key(path),
    ensures
        exists|i: int| 0 <= i < files.len() && (#[trigger] files[i]).relative_path == path,
    decreases files.len(),
{
    if files.last().relative_path == path {
        assert(files[files.len() - 1].relative_path == path);
    } else {
        let rest = files.drop_last();
        lemma_kept_comes_from(rest, previous, path);
        let i = choose|i: int| 0 <= i < rest.len() && (#[trigger] rest[i]).relative_path == path;
        assert(files[i].relative_path == path);
    }
}

/// A file is among others, with the same content hash and the same language.
pub open spec fn is_unchanged(files: Seq<SourceFileView>, file: SourceFileView) -> bool {
    exists|i: int|
        0 <= i < files.len() && (#[trigger] files[i]).relative_path == file.relative_path
            && files[i].content_hash == file.content_hash && files[i].language == file.language
}

/// Of the next files those that are unchanged are used again, and those alone: a file is
/// parsed where it is new, or where its content or its language has changed.
pub proof fn law_only_changed_files_are_parsed(
    files: Seq<SourceFileView>,
    previous: Map<Seq<char>, CachedFileView>,
    next: SourceFileView,
)
    requires
        distinct_paths(files),
    ensures
        reusable(next, kept(files, previous)) <==> is_unchanged(files, next),
{
    let table = kept(files, previous);
    if table.contains_key(next.relative_path) {
        lemma_kept_comes_from(files, previous, next.relative_path);
        let i = choose|i: int|
            0 <= i < files.len() && (#[trigger] files[i]).relative_path == next.relative_path;
        lemma_kept_holds(files, previous, i);
        if reusable(next, table) {
            language::law_extensions_and_identifiers_are_distinct(files[i].language, next.language);
            assert(is_unchanged(files, next));
        }
    }
    if is_unchanged(files, next) {
        let i = choose|i: int|
            0 <= i < files.len() && (#[trigger] files[i]).relative_path == next.relative_path
                && files[i].content_hash == next.content_hash && files[i].language == next.language;
        lemma_kept_holds(files, previous, i);
    }
}

/// A second scan of the same files parses nothing and finds the same chunks, the same
/// fingerprint and nothing removed.
pub proof fn law_rescan_parses_nothing(
    files: Seq<SourceFileView>,
    previous: Map<Seq<char>, CachedFileView>,
    known: Seq<Seq<char>>,
    kept_paths: Seq<Seq<char>>,
)
    requires
        distinct_paths(files),
        scan_failure(files, previous) is None,
        forall|path: Seq<char>| #[trigger]
            kept_paths.contains(path) ==> kept(files, previous).contains_key(path),
    ensures
        ({
            let first = scan_of(files, previous, known);
            let second = scan_of(files, first.files, kept_paths);
            &&& scan_failure(files, first.files) is None
            &&& second.parsed_files == 0
            &&& second.unchanged_files == files.len()
            &&& second.removed_files == 0
            &&& second.chunks == first.chunks
            &&& second.files == first.files
            &&& second.fingerprint == first.fingerprint
        }),
{
    let table = kept(files, previous);
    assert forall|i: int| 0 <= i < files.len() implies reusable(#[trigger] files[i], table)
        && scan_chunks(files[i], table) == scan_chunks(files[i], previous) by {
        lemma_no_failure(files, previous, i);
        lemma_kept_holds(files, previous, i);
    }
    lemma_all_reused(files, previous, table);
    lemma_nothing_missing(kept_paths, table);
}

proof fn lemma_nothing_missing(known: Seq<Seq<char>>, files: Map<Seq<char>, CachedFileView>)
    requires
        forall|path: Seq<char>| #[trigger] known.contains(path) ==> files.contains_key(path),
    ensures
        missing(known, files) == 0,
    decreases known.len(),
{
    if known.len() > 0 {
        assert(known.contains(known[known.len() - 1]));
        let rest = known.drop_last();
        assert forall|path: Seq<char>| #[trigger] rest.contains(path) implies files.contains_key(
            path,
        ) by {
            let k = choose|k: int| 0 <= k < rest.len() && rest[k] == path;
            assert(known[k] == path);
            assert(known.contains(path));
        }
        lemma_nothing_missing(rest, files);
    }
}

// ---------------------------------------------------------------------------
// Laws of scans
// ---------------------------------------------------------------------------

/// Lines are counted by the line ends in front of them.
pub proof fn law_newlines_are_line_ends(s: Seq<char>)
    ensures
        newlines(s) == s.filter(|c: char| c == '\n').len(),
    decreases s.len(),
{
    reveal(Seq::filter);
    if s.len() > 0 {
        law_newlines_are_line_ends(s.drop_last());
    }
}

/// A chunk says what stands in a source: its code is a part of the source with no white
/// space at its ends, its lines are those of the part, and its hash is the hash of its code.
pub open spec fn quotes(chunk: ChunkView, source: Seq<char>, at: int) -> bool {
    &&& 0 <= at
    &&& at + chunk.code.len() <= source.len()
    &&& chunk.code == source.subrange(at, at + chunk.code.len())
    &&& chunk.start_line == source.take(at).filter(|c: char| c == '\n').len() + 1
    &&& chunk.end_line == source.take(at + chunk.code.len()).filter(|c: char| c == '\n').len() + 1
    &&& chunk.content_hash == workspace::sha256(chunk.code)
    &&& chunk.code.len() > 0
    &&& !text::is_space(chunk.code[0])
    &&& !text::is_space(chunk.code.last())
    &&& exists|k: int|
        0 <= k < chunk.code.len() && !text::is_space(#[trigger] chunk.code[k]) && chunk.code[k]
            != '{' && chunk.code[k] != '}' && chunk.code[k] != ';'
}

proof fn lemma_trim_ends(s: Seq<char>)
    ensures
        text::trim_start(s).len() > 0 ==> !text::is_space(text::trim_start(s)[0]),
        text::trim_end(s).len() > 0 ==> !text::is_space(text::trim_end(s).last()),
    decreases s.len(),
{
    if s.len() > 0 {
        lemma_trim_ends(s.skip(1));
        lemma_trim_ends(s.drop_last());
    }
}

proof fn lemma_span_is_quoted(
    path: Seq<char>,
    language: Language,
    source: Seq<char>,
    span: (usize, usize),
)
    requires
        syntax::parseable(source),
        text::in_text(span.0, span.1, source),
        !is_noise(span_code(source, span)),
    ensures
        quotes(chunk_of(path, language, source, span), source, span_first(source, span)),
{
    let chunk = chunk_of(path, language, source, span);
    let first = span_first(source, span);
    law_chunks_quote_their_source(path, language, source, span);
    law_newlines_are_line_ends(source.take(first));
    law_newlines_are_line_ends(source.take(first + chunk.code.len()));
    let raw = text::slice(source, span.0 as int, span.1 as int);
    lemma_trim_ends(raw);
    lemma_trim_ends(text::trim_start(raw));
    lemma_trim_end_is_part(text::trim_start(raw));
    let k = choose|k: int| 0 <= k < chunk.code.len() && !(#[trigger] is_noise_char(chunk.code[k]));
    assert(!text::is_space(chunk.code[k]));
}

proof fn lemma_chunk_comes_from(
    path: Seq<char>,
    language: Language,
    source: Seq<char>,
    list: Seq<(usize, usize)>,
    k: int,
)
    requires
        0 <= k < chunks_of(path, language, source, list).len(),
    ensures
        exists|i: int|
            0 <= i < list.len() && !is_noise(span_code(source, #[trigger] list[i])) && chunks_of(
                path,
                language,
                source,
                list,
            )[k] == chunk_of(path, language, source, list[i]),
    decreases list.len(),
{
    let rest = list.drop_last();
    let before = chunks_of(path, language, source, rest);
    if k < before.len() {
        lemma_chunk_comes_from(path, language, source, rest, k);
        let i = choose|i: int|
            0 <= i < rest.len() && !is_noise(span_code(source, #[trigger] rest[i])) && before[k]
                == chunk_of(path, language, source, rest[i]);
        assert(list[i] == rest[i]);
    } else {
        assert(list[list.len() - 1] == list.last());
    }
}

/// The chunks of a file belong to it and quote it.
pub proof fn law_the_chunks_of_a_file_quote_it(
    path: Seq<char>,
    language: Language,
    source: Seq<char>,
    k: int,
)
    requires
        syntax::parseable(source),
        file_chunks(path, language, source) is Ok,
        0 <= k < file_chunks(path, language, source)->Ok_0.len(),
    ensures
        ({
            let chunk = file_chunks(path, language, source)->Ok_0[k];
            &&& chunk.relative_file_path == path
            &&& chunk.language == language.identifier()
            &&& exists|at: int| #[trigger] quotes(chunk, source, at)
        }),
{
    let tree = syntax::source_tree(language.grammar(), source)->Ok_0;
    let list = spans::spans(language.syntax(), tree);
    lemma_spans_in_text(language.syntax(), tree, source);
    lemma_chunk_comes_from(path, language, source, list, k);
    let i = choose|i: int|
        0 <= i < list.len() && !is_noise(span_code(source, #[trigger] list[i])) && chunks_of(
            path,
            language,
            source,
            list,
        )[k] == chunk_of(path, language, source, list[i]);
    lemma_span_is_quoted(path, language, source, list[i]);
    assert(quotes(
        file_chunks(path, language, source)->Ok_0[k],
        source,
        span_first(source, list[i]),
    ));
}

/// A cache holds a file as it is now: with its content hash, its language, and the version
/// that its language has.
pub open spec fn holds_as_is(
    previous: Map<Seq<char>, CachedFileView>,
    file: SourceFileView,
) -> bool {
    previous.contains_key(file.relative_path) && {
        let old = previous[file.relative_path];
        old.content_hash == file.content_hash && old.language == file.language.identifier()
            && old.adapter_version == file.language.cache_version()
    }
}

/// A scan keeps each file under its path, with its own content hash, language and version.
/// The chunks of a file that the cache holds as it is are the cached ones. Those of every
/// other file are parsed from its current source, whatever the cache holds.
pub proof fn law_changed_files_get_the_chunks_of_their_source(
    files: Seq<SourceFileView>,
    previous: Map<Seq<char>, CachedFileView>,
    known: Seq<Seq<char>>,
    i: int,
)
    requires
        distinct_paths(files),
        scan_failure(files, previous) is None,
        0 <= i < files.len(),
        syntax::parseable(files[i].source),
    ensures
        ({
            let file = files[i];
            let kept_files = scan_of(files, previous, known).files;
            let entry = kept_files[file.relative_path];
            let old = previous[file.relative_path];
            let unchanged = previous.contains_key(file.relative_path) && old.content_hash
                == file.content_hash && old.language == file.language.identifier()
                && old.adapter_version == file.language.cache_version();
            &&& kept_files.contains_key(file.relative_path)
            &&& entry.content_hash == file.content_hash
            &&& entry.language == file.language.identifier()
            &&& entry.adapter_version == file.language.cache_version()
            &&& unchanged ==> entry.chunks == old.chunks
            &&& !unchanged ==> file_chunks(file.relative_path, file.language, file.source) == Ok::<
                Seq<ChunkView>,
                ParseFailure,
            >(entry.chunks)
            &&& !unchanged ==> forall|k: int|
                0 <= k < entry.chunks.len() ==> {
                    &&& (#[trigger] entry.chunks[k]).relative_file_path == file.relative_path
                    &&& entry.chunks[k].language == file.language.identifier()
                    &&& exists|at: int| #[trigger] quotes(entry.chunks[k], file.source, at)
                }
        }),
{
    let file = files[i];
    lemma_no_failure(files, previous, i);
    lemma_kept_holds(files, previous, i);
    let entry = kept(files, previous)[file.relative_path];
    assert(entry.chunks == scan_chunks(file, previous)->Ok_0);
    assert(reusable(file, previous) <==> holds_as_is(previous, file));
    if !holds_as_is(previous, file) {
        assert(file_chunks(file.relative_path, file.language, file.source) == Ok::<
            Seq<ChunkView>,
            ParseFailure,
        >(entry.chunks));
        assert forall|k: int| 0 <= k < entry.chunks.len() implies {
            &&& (#[trigger] entry.chunks[k]).relative_file_path == file.relative_path
            &&& entry.chunks[k].language == file.language.identifier()
            &&& exists|at: int| #[trigger] quotes(entry.chunks[k], file.source, at)
        } by {
            law_the_chunks_of_a_file_quote_it(file.relative_path, file.language, file.source, k);
        }
    }
}

/// A scan keeps the files that it found, and no others.
pub proof fn law_a_scan_keeps_the_files_it_found(
    files: Seq<SourceFileView>,
    previous: Map<Seq<char>, CachedFileView>,
    known: Seq<Seq<char>>,
    path: Seq<char>,
)
    requires
        distinct_paths(files),
    ensures
        scan_of(files, previous, known).files.contains_key(path) <==> exists|i: int|
            0 <= i < files.len() && (#[trigger] files[i]).relative_path == path,
{
    if kept(files, previous).contains_key(path) {
        lemma_kept_comes_from(files, previous, path);
    }
    if exists|i: int| 0 <= i < files.len() && (#[trigger] files[i]).relative_path == path {
        let i = choose|i: int| 0 <= i < files.len() && (#[trigger] files[i]).relative_path == path;
        lemma_kept_holds(files, previous, i);
    }
}

proof fn lemma_reused_are_held(
    files: Seq<SourceFileView>,
    previous: Map<Seq<char>, CachedFileView>,
)
    ensures
        reused(files, previous) == files.filter(
            |file: SourceFileView| holds_as_is(previous, file),
        ).len(),
    decreases files.len(),
{
    reveal(Seq::filter);
    if files.len() > 0 {
        lemma_reused_are_held(files.drop_last(), previous);
    }
}

proof fn lemma_missing_are_gone(
    known: Seq<Seq<char>>,
    files: Map<Seq<char>, CachedFileView>,
)
    ensures
        missing(known, files) == known.filter(|path: Seq<char>| !files.contains_key(path)).len(),
    decreases known.len(),
{
    reveal(Seq::filter);
    if known.len() > 0 {
        lemma_missing_are_gone(known.drop_last(), files);
    }
}

/// The files that the cache holds as they are count as unchanged, all others as parsed, and
/// the known paths that were not found again as removed.
pub proof fn law_scans_count_the_files(
    files: Seq<SourceFileView>,
    previous: Map<Seq<char>, CachedFileView>,
    known: Seq<Seq<char>>,
)
    ensures
        ({
            let scan = scan_of(files, previous, known);
            &&& scan.unchanged_files == files.filter(
                |file: SourceFileView| holds_as_is(previous, file),
            ).len()
            &&& scan.parsed_files + scan.unchanged_files == files.len()
            &&& scan.removed_files == known.filter(
                |path: Seq<char>| !scan.files.contains_key(path),
            ).len()
        }),
{
    lemma_reused_are_held(files, previous);
    lemma_missing_are_gone(known, kept(files, previous));
    files.lemma_filter_len(|file: SourceFileView| holds_as_is(previous, file));
}

/// A scan fails if and only if a file that the cache does not hold as it is cannot be parsed,
/// and it fails for the first such file.
pub proof fn law_a_scan_fails_where_a_file_cannot_be_parsed(
    files: Seq<SourceFileView>,
    previous: Map<Seq<char>, CachedFileView>,
)
    ensures
        scan_failure(files, previous) is None <==> forall|i: int|
            0 <= i < files.len() ==> holds_as_is(previous, #[trigger] files[i]) || file_chunks(
                files[i].relative_path,
                files[i].language,
                files[i].source,
            ) is Ok,
        scan_failure(files, previous) matches Some(failure) ==> exists|i: int|
            {
                &&& 0 <= i < files.len()
                &&& !holds_as_is(previous, #[trigger] files[i])
                &&& file_chunks(files[i].relative_path, files[i].language, files[i].source) == Err::<
                    Seq<ChunkView>,
                    ParseFailure,
                >(failure)
                &&& forall|k: int|
                    0 <= k < i ==> holds_as_is(previous, #[trigger] files[k]) || file_chunks(
                        files[k].relative_path,
                        files[k].language,
                        files[k].source,
                    ) is Ok
            },
    decreases files.len(),
{
    if files.len() > 0 {
        let rest = files.drop_last();
        law_a_scan_fails_where_a_file_cannot_be_parsed(rest, previous);
        let last = files[files.len() - 1];
        assert(forall|k: int| 0 <= k < rest.len() ==> rest[k] == #[trigger] files[k]);
        if scan_failure(rest, previous) is None {
            assert forall|k: int| 0 <= k < rest.len() implies holds_as_is(
                previous,
                #[trigger] files[k],
            ) || file_chunks(files[k].relative_path, files[k].language, files[k].source) is Ok by {
                assert(rest[k] == files[k]);
            }
        } else {
            let i = choose|i: int|
                {
                    &&& 0 <= i < rest.len()
                    &&& !holds_as_is(previous, #[trigger] rest[i])
                    &&& file_chunks(rest[i].relative_path, rest[i].language, rest[i].source)
                        == Err::<Seq<ChunkView>, ParseFailure>(scan_failure(rest, previous)->0)
                    &&& forall|k: int|
                        0 <= k < i ==> holds_as_is(previous, #[trigger] rest[k]) || file_chunks(
                            rest[k].relative_path,
                            rest[k].language,
                            rest[k].source,
                        ) is Ok
                };
            assert(rest[i] == files[i]);
            assert forall|k: int| 0 <= k < i implies holds_as_is(previous, #[trigger] files[k])
                || file_chunks(files[k].relative_path, files[k].language, files[k].source) is Ok by {
                assert(rest[k] == files[k]);
            }
        }
    }
}

proof fn lemma_by_place_is_an_order()
    ensures
        order::is_order(by_place()),
{
    let before = by_place();
    assert forall|a: ChunkView, b: ChunkView| #[trigger] before(a, b) implies !before(b, a) by {
        order::lemma_precedes_total(a.relative_file_path, b.relative_file_path);
    }
    assert forall|a: ChunkView, b: ChunkView, c: ChunkView|
        !(#[trigger] before(a, b)) && !(#[trigger] before(b, c)) implies !before(a, c) by {
        let (x, y, z) = (a.relative_file_path, b.relative_file_path, c.relative_file_path);
        order::lemma_precedes_total(x, y);
        order::lemma_precedes_total(y, z);
        order::lemma_precedes_total(x, z);
        if x != y && y != z {
            order::lemma_precedes_transitive(z, y, x);
        }
    }
}

proof fn lemma_collected_are_kept(
    files: Seq<SourceFileView>,
    previous: Map<Seq<char>, CachedFileView>,
)
    ensures
        collected(files, previous) == Seq::new(
            files.len(),
            |i: int| cached(files[i], previous).chunks,
        ).flatten_alt(),
    decreases files.len(),
{
    let parts = Seq::new(files.len(), |i: int| cached(files[i], previous).chunks);
    if files.len() > 0 {
        let rest = files.drop_last();
        lemma_collected_are_kept(rest, previous);
        assert(parts.drop_last() =~= Seq::new(
            rest.len(),
            |i: int| cached(rest[i], previous).chunks,
        ));
        assert(parts.last() == scan_chunks(files.last(), previous)->Ok_0);
    }
}

/// The chunks of a scan are those of its files, each as often as there, in the order of
/// their paths and then of their first lines.
pub proof fn law_a_scan_lists_the_chunks_of_its_files(
    files: Seq<SourceFileView>,
    previous: Map<Seq<char>, CachedFileView>,
    known: Seq<Seq<char>>,
)
    requires
        distinct_paths(files),
    ensures
        ({
            let scan = scan_of(files, previous, known);
            &&& scan.chunks.to_multiset() == Seq::new(
                files.len(),
                |i: int| scan.files[files[i].relative_path].chunks,
            ).flatten().to_multiset()
            &&& forall|i: int, j: int|
                0 <= i < j < scan.chunks.len() ==> order::precedes(
                    (#[trigger] scan.chunks[i]).relative_file_path,
                    (#[trigger] scan.chunks[j]).relative_file_path,
                ) || (scan.chunks[i].relative_file_path == scan.chunks[j].relative_file_path
                    && scan.chunks[i].start_line <= scan.chunks[j].start_line)
        }),
{
    let scan = scan_of(files, previous, known);
    let all = collected(files, previous);
    let parts = Seq::new(files.len(), |i: int| cached(files[i], previous).chunks);
    let held = Seq::new(files.len(), |i: int| scan.files[files[i].relative_path].chunks);
    lemma_collected_are_kept(files, previous);
    assert forall|i: int| 0 <= i < files.len() implies parts[i] == held[i] by {
        lemma_kept_holds(files, previous, i);
    }
    assert(parts =~= held);
    parts.lemma_flatten_and_flatten_alt_are_equivalent();
    lemma_by_place_is_an_order();
    order::law_sorting_orders_the_items(all, by_place());
    assert forall|i: int, j: int| 0 <= i < j < scan.chunks.len() implies order::precedes(
        (#[trigger] scan.chunks[i]).relative_file_path,
        (#[trigger] scan.chunks[j]).relative_file_path,
    ) || (scan.chunks[i].relative_file_path == scan.chunks[j].relative_file_path
        && scan.chunks[i].start_line <= scan.chunks[j].start_line) by {
        assert(!by_place()(scan.chunks[j], scan.chunks[i]));
        order::lemma_precedes_total(
            scan.chunks[i].relative_file_path,
            scan.chunks[j].relative_file_path,
        );
    }
}

/// Scan the files of a workspace and parse all of them.
pub fn scan(files: Vec<SourceFile>) -> (r: Result<Vec<Chunk>, ParseFailure>)
    requires
        all_parseable(files@),
    ensures
        ({
            let found = in_path_order(source_views(files@));
            match r {
                Ok(chunks) => {
                    &&& scan_failure(found, Map::empty()) is None
                    &&& chunk_views(chunks@) == scan_of(found, Map::empty(), seq![]).chunks
                },
                Err(failure) => scan_failure(found, Map::empty()) == Some(failure),
            }
        }),
{
    let previous: Table<CachedFile> = Table::new();
    assert(manifest::file_views(previous@) =~= Map::empty());
    match scan_incremental(files, &previous) {
        Ok(scan) => Ok(scan.chunks),
        Err(failure) => Err(failure),
    }
}

/// A span holds code: a character that is neither white space nor a brace nor a semicolon.
pub open spec fn holds_code(source: Seq<char>, span: (usize, usize)) -> bool {
    let raw = text::slice(source, span.0 as int, span.1 as int);
    exists|j: int|
        0 <= j < raw.len() && !text::is_space(#[trigger] raw[j]) && raw[j] != '{' && raw[j] != '}'
            && raw[j] != ';'
}

proof fn lemma_code_is_not_noise(source: Seq<char>, span: (usize, usize))
    ensures
        holds_code(source, span) <==> !is_noise(span_code(source, span)),
{
    let raw = text::slice(source, span.0 as int, span.1 as int);
    let code = text::trim(raw);
    text::law_trimming_drops_only_white_space(raw);
    let (from, to) = choose|from: int, to: int|
        {
            &&& 0 <= from <= to <= raw.len()
            &&& code == #[trigger] raw.subrange(from, to)
            &&& forall|k: int|
                0 <= k < from || to <= k < raw.len() ==> text::is_space(#[trigger] raw[k])
        };
    if holds_code(source, span) {
        let j = choose|j: int|
            0 <= j < raw.len() && !text::is_space(#[trigger] raw[j]) && raw[j] != '{' && raw[j]
                != '}' && raw[j] != ';';
        assert(code[j - from] == raw[j]);
        assert(!is_noise_char(code[j - from]));
    }
    if !is_noise(code) {
        let k = choose|k: int| 0 <= k < code.len() && !(#[trigger] is_noise_char(code[k]));
        assert(code[k] == raw[from + k]);
    }
}

proof fn lemma_chunks_of_spans(
    path: Seq<char>,
    language: Language,
    source: Seq<char>,
    list: Seq<(usize, usize)>,
)
    ensures
        chunks_of(path, language, source, list) == list.filter(
            |span: (usize, usize)| holds_code(source, span),
        ).map_values(|span: (usize, usize)| chunk_of(path, language, source, span)),
    decreases list.len(),
{
    reveal(Seq::filter);
    let kind = |span: (usize, usize)| holds_code(source, span);
    let to = |span: (usize, usize)| chunk_of(path, language, source, span);
    if list.len() > 0 {
        let rest = list.drop_last();
        lemma_chunks_of_spans(path, language, source, rest);
        lemma_code_is_not_noise(source, list.last());
        if kind(list.last()) {
            assert(rest.filter(kind).push(list.last()).map_values(to) =~= rest.filter(
                kind,
            ).map_values(to).push(to(list.last())));
        }
    } else {
        assert(list.filter(kind).map_values(to) =~= seq![]);
    }
}

/// No code of a tree is lost: its spans with code become chunks, one each and in their order,
/// and each chunk is the text of its span without the white space around it.
pub proof fn law_every_span_with_code_is_a_chunk(
    path: Seq<char>,
    language: Language,
    source: Seq<char>,
    tree: SyntaxTree,
)
    ensures
        ({
            let chunks = tree_chunks(path, language, source, tree);
            let parts = spans::spans(language.syntax(), tree).filter(
                |span: (usize, usize)| holds_code(source, span),
            );
            &&& chunks.len() == parts.len()
            &&& forall|k: int|
                0 <= k < parts.len() ==> (#[trigger] chunks[k]).code == text::trim(
                    text::slice(source, parts[k].0 as int, parts[k].1 as int),
                )
        }),
{
    lemma_chunks_of_spans(path, language, source, spans::spans(language.syntax(), tree));
}

} // verus!
