//! The locations in the responses of language servers.

use crate::json::{self, Document, Json};
use crate::lsp::{self, Location, LocationView};
use crate::workspace::Workspace;
use crate::{config, language, paths, text};
use vstd::prelude::*;

verus! {

/// An item of a response that says where something is.
#[derive(Debug)]
pub struct Located {
    pub uri: String,
    /// Lines and characters are zero-based.
    pub start_line: u64,
    pub start_character: u64,
    pub end_line: u64,
    pub end_character: u64,
    pub name: Option<String>,
    pub kind: Option<u64>,
}

/// What a [`Located`] says.
pub struct LocatedView {
    pub uri: Seq<char>,
    pub start_line: u64,
    pub start_character: u64,
    pub end_line: u64,
    pub end_character: u64,
    pub name: Option<Seq<char>>,
    pub kind: Option<u64>,
}

impl View for Located {
    type V = LocatedView;

    open spec fn view(&self) -> LocatedView {
        LocatedView {
            uri: self.uri@,
            start_line: self.start_line,
            start_character: self.start_character,
            end_line: self.end_line,
            end_character: self.end_character,
            name: paths::opt_view(self.name),
            kind: self.kind,
        }
    }
}

/// The first of two values that there is.
pub open spec fn or_else(first: Option<Document>, second: Option<Document>) -> Option<Document> {
    if first is Some {
        first
    } else {
        second
    }
}

/// A number of a position, zero where there is none.
pub open spec fn position(range: Document, end: Seq<char>, axis: Seq<char>) -> u64 {
    match range.field(end).field(axis).as_u64() {
        Some(number) => number,
        None => 0,
    }
}

/// The part of an item that holds its address: the `location` of a symbol, or the item
/// itself.
pub open spec fn holder(item: Document) -> Document {
    match item.get("location"@) {
        Some(location) => location,
        None => item,
    }
}

/// The address of an item.
pub open spec fn address(item: Document) -> Option<Seq<char>> {
    match or_else(holder(item).get("uri"@), item.get("targetUri"@)) {
        Some(uri) => uri.as_text(),
        None => None,
    }
}

/// The range of an item.
pub open spec fn range_of(item: Document) -> Option<Document> {
    or_else(
        holder(item).get("range"@),
        or_else(
            item.get("range"@),
            or_else(item.get("targetSelectionRange"@), item.get("targetRange"@)),
        ),
    )
}

/// What an item of a response says. An item is a symbol, a location or a link to one;
/// `None` where it has no address or no range.
pub open spec fn located(item: Document) -> Option<LocatedView> {
    match (address(item), range_of(item)) {
        (Some(uri), Some(range)) => Some(
            LocatedView {
                uri,
                start_line: position(range, "start"@, "line"@),
                start_character: position(range, "start"@, "character"@),
                end_line: position(range, "end"@, "line"@),
                end_character: position(range, "end"@, "character"@),
                name: item.field("name"@).as_text(),
                kind: item.field("kind"@).as_u64(),
            },
        ),
        _ => None,
    }
}

/// The items of a response: none of null, those of a list, and any other value itself.
pub open spec fn items(response: Document) -> Seq<Document> {
    match response {
        Document::Null => seq![],
        Document::List(list) => list,
        other => seq![other],
    }
}

/// The items that say where something is, in order.
pub open spec fn located_in(list: Seq<Document>) -> Seq<LocatedView>
    decreases list.len(),
{
    if list.len() == 0 {
        seq![]
    } else {
        match located(list.last()) {
            Some(view) => located_in(list.drop_last()).push(view),
            None => located_in(list.drop_last()),
        }
    }
}

/// What a list of items says.
pub open spec fn located_views(list: Seq<Located>) -> Seq<LocatedView> {
    list.map_values(|item: Located| item@)
}

fn read_position(range: &Json, end: &str, axis: &str) -> (r: u64)
    ensures
        r == position(json::document(*range), end@, axis@),
{
    match range.get(end) {
        Some(place) => match place.u64_of(axis) {
            Some(number) => number,
            None => 0,
        },
        None => 0,
    }
}

fn read_address(item: &Json) -> (r: Option<&str>)
    ensures
        match r {
            Some(uri) => address(json::document(*item)) == Some(uri@),
            None => address(json::document(*item)) is None,
        },
{
    let location = match item.get("location") {
        Some(location) => location,
        None => item,
    };
    if let Some(uri) = location.get("uri") {
        return uri.as_text();
    }
    item.text_of("targetUri")
}

fn read_range(item: &Json) -> (r: Option<&Json>)
    ensures
        match r {
            Some(range) => range_of(json::document(*item)) == Some(json::document(*range)),
            None => range_of(json::document(*item)) is None,
        },
{
    let location = match item.get("location") {
        Some(location) => location,
        None => item,
    };
    if let Some(range) = location.get("range") {
        return Some(range);
    }
    if let Some(range) = item.get("range") {
        return Some(range);
    }
    if let Some(range) = item.get("targetSelectionRange") {
        return Some(range);
    }
    item.get("targetRange")
}

/// Read an item of a response.
pub fn read_item(item: &Json) -> (r: Option<Located>)
    ensures
        match r {
            Some(found) => located(json::document(*item)) == Some(found@),
            None => located(json::document(*item)) is None,
        },
{
    let uri = match read_address(item) {
        Some(uri) => uri,
        None => {
            return None;
        },
    };
    let range = match read_range(item) {
        Some(range) => range,
        None => {
            return None;
        },
    };
    let name = match item.text_of("name") {
        Some(name) => Some(name.to_owned()),
        None => None,
    };
    Some(
        Located {
            uri: uri.to_owned(),
            start_line: read_position(range, "start", "line"),
            start_character: read_position(range, "start", "character"),
            end_line: read_position(range, "end", "line"),
            end_character: read_position(range, "end", "character"),
            name,
            kind: item.u64_of("kind"),
        },
    )
}

/// Read the items of a response that say where something is.
pub fn located_items(response: &Json) -> (r: Vec<Located>)
    ensures
        located_views(r@) == located_in(items(json::document(*response))),
{
    let mut out: Vec<Located> = Vec::new();
    match response {
        Json::Null => {
            assert(located_views(out@) =~= seq![]);
        },
        Json::List(list) => {
            let ghost all = json::documents(list@);
            let mut i: usize = 0;
            proof {
                json::lemma_documents(list@);
                assert(located_views(out@) =~= located_in(all.take(0)));
            }
            while i < list.len()
                invariant
                    i <= list@.len(),
                    all == json::documents(list@),
                    all.len() == list@.len(),
                    located_views(out@) == located_in(all.take(i as int)),
                decreases list@.len() - i,
            {
                proof {
                    json::lemma_documents(list@);
                    assert(all[i as int] == json::document(list@[i as int]));
                    assert(all.take(i + 1).drop_last() =~= all.take(i as int));
                    assert(all.take(i + 1).last() == all[i as int]);
                }
                let ghost before = out@;
                if let Some(found) = read_item(&list[i]) {
                    out.push(found);
                    assert(located_views(out@) =~= located_views(before).push(found@));
                }
                i = i + 1;
            }
            assert(all.take(all.len() as int) =~= all);
        },
        other => {
            let ghost one = json::document(*response);
            assert(seq![one].drop_last() =~= seq![]);
            assert(located_in(seq![one].drop_last()) == Seq::<LocatedView>::empty());
            if let Some(found) = read_item(other) {
                out.push(found);
                assert(located_views(out@) =~= Seq::<LocatedView>::empty().push(found@));
            } else {
                assert(located_views(out@) =~= seq![]);
            }
        },
    }
    out
}

/// A one-based line of a zero-based one, in 32 bits.
pub open spec fn one_based(line: u64) -> u32 {
    ((line % 0x1_0000_0000 + 1) % 0x1_0000_0000) as u32
}

/// A character position in 32 bits.
pub open spec fn low(number: u64) -> u32 {
    (number % 0x1_0000_0000) as u32
}

/// A file that an address names.
#[derive(Debug)]
pub struct NamedFile {
    /// The path as the platform writes it.
    pub native: String,
    /// The path with `/` between names.
    pub path: String,
}

/// What a [`NamedFile`] says.
pub struct FileView {
    pub native: Seq<char>,
    pub path: Seq<char>,
}

impl View for NamedFile {
    type V = FileView;

    open spec fn view(&self) -> FileView {
        FileView { native: self.native@, path: self.path@ }
    }
}

/// The location of an item in a workspace, given its file; `None` where the file is not in
/// the workspace. The language is that of the file itself.
pub open spec fn location(
    item: LocatedView,
    file: FileView,
    root: Seq<char>,
    provider: Seq<char>,
) -> Option<LocationView> {
    if paths::is_within(file.path, root) {
        let relative = text::replaced(paths::relative_to(file.path, root), '\\', '/');
        Some(
            LocationView {
                file_path: file.native,
                relative_file_path: Some(relative),
                start_line: one_based(item.start_line),
                start_character: low(item.start_character),
                end_line: one_based(item.end_line),
                end_character: low(item.end_character),
                name: item.name,
                kind: item.kind,
                language: match language::language_of_path(relative) {
                    Some(known) => Some(known.identifier()),
                    None => None,
                },
                provider: Some(provider),
            },
        )
    } else {
        None
    }
}

/// The locations of items in a workspace, given the file of each: the text of an error
/// where the address is none, and `None` where it is not that of a file.
pub open spec fn locations(
    list: Seq<LocatedView>,
    files: Seq<Result<Option<FileView>, Seq<char>>>,
    root: Seq<char>,
    provider: Seq<char>,
) -> Result<Seq<LocationView>, Seq<char>>
    decreases list.len(),
{
    if list.len() == 0 {
        Ok(seq![])
    } else {
        match locations(list.drop_last(), files.drop_last(), root, provider) {
            Err(error) => Err(error),
            Ok(before) => match files.last() {
                Err(error) => Err(error),
                Ok(None) => Ok(before),
                Ok(Some(file)) => match location(list.last(), file, root, provider) {
                    Some(found) => Ok(before.push(found)),
                    None => Ok(before),
                },
            },
        }
    }
}

/// What the file of an address is.
pub open spec fn file_view(file: Result<Option<NamedFile>, String>) -> Result<
    Option<FileView>,
    Seq<char>,
> {
    match file {
        Ok(Some(file)) => Ok(Some(file@)),
        Ok(None) => Ok(None),
        Err(error) => Err(error@),
    }
}

/// What the files of addresses are.
pub open spec fn file_views(files: Seq<Result<Option<NamedFile>, String>>) -> Seq<
    Result<Option<FileView>, Seq<char>>,
> {
    files.map_values(|file: Result<Option<NamedFile>, String>| file_view(file))
}

fn line_of(line: u64) -> (r: u32)
    ensures
        r == one_based(line),
{
    let low: u64 = line % 0x1_0000_0000;
    ((low + 1) % 0x1_0000_0000) as u32
}

/// Make the location of an item.
pub fn location_of(item: &Located, file: &NamedFile, root: &str, provider: &str) -> (r: Option<
    Location,
>)
    ensures
        match r {
            Some(found) => location(item@, file@, root@, provider@) == Some(found@),
            None => location(item@, file@, root@, provider@) is None,
        },
{
    if !paths::lies_within(file.path.as_str(), root) {
        return None;
    }
    let below = paths::relative_path(file.path.as_str(), root);
    let relative = text::replace_char(below.as_str(), '\\', '/');
    let language = match language::for_path(relative.as_str()) {
        Some(adapter) => Some(adapter.identifier().to_owned()),
        None => None,
    };
    Some(
        Location {
            file_path: file.native.clone(),
            relative_file_path: Some(relative),
            start_line: line_of(item.start_line),
            start_character: (item.start_character % 0x1_0000_0000) as u32,
            end_line: line_of(item.end_line),
            end_character: (item.end_character % 0x1_0000_0000) as u32,
            name: text::clone_option(&item.name),
            kind: item.kind,
            language,
            provider: Some(provider.to_owned()),
        },
    )
}

/// Make the locations of items in a workspace, given the file of each.
pub fn locations_of(
    list: &[Located],
    files: &[Result<Option<NamedFile>, String>],
    root: &str,
    provider: &str,
) -> (r: Result<Vec<Location>, String>)
    requires
        list@.len() == files@.len(),
    ensures
        match r {
            Ok(found) => locations(located_views(list@), file_views(files@), root@, provider@)
                == Ok::<_, Seq<char>>(lsp::location_views(found@)),
            Err(error) => locations(located_views(list@), file_views(files@), root@, provider@)
                == Err::<Seq<LocationView>, _>(error@),
        },
{
    let ghost all = located_views(list@);
    let ghost places = file_views(files@);
    let mut out: Vec<Location> = Vec::new();
    let mut i: usize = 0;
    assert(lsp::location_views(out@) =~= seq![]);
    while i < list.len()
        invariant
            i <= list@.len(),
            list@.len() == files@.len(),
            all == located_views(list@),
            places == file_views(files@),
            locations(all.take(i as int), places.take(i as int), root@, provider@) == Ok::<
                _,
                Seq<char>,
            >(lsp::location_views(out@)),
        decreases list@.len() - i,
    {
        let ghost next = all.take(i + 1);
        let ghost next_places = places.take(i + 1);
        proof {
            assert(next.drop_last() =~= all.take(i as int));
            assert(next.last() == list@[i as int]@);
            assert(next_places.drop_last() =~= places.take(i as int));
            assert(next_places.last() == file_view(files@[i as int]));
        }
        match &files[i] {
            Err(error) => {
                proof {
                    lemma_errors_stay(all, places, root@, provider@, i + 1);
                }
                return Err(error.clone());
            },
            Ok(None) => {},
            Ok(Some(file)) => {
                let ghost before = out@;
                if let Some(found) = location_of(&list[i], file, root, provider) {
                    out.push(found);
                    assert(lsp::location_views(out@) =~= lsp::location_views(before).push(found@));
                }
            },
        }
        i = i + 1;
    }
    assert(all.take(list@.len() as int) =~= all);
    assert(places.take(list@.len() as int) =~= places);
    Ok(out)
}

proof fn lemma_errors_stay(
    list: Seq<LocatedView>,
    files: Seq<Result<Option<FileView>, Seq<char>>>,
    root: Seq<char>,
    provider: Seq<char>,
    upto: int,
)
    requires
        list.len() == files.len(),
        0 <= upto <= list.len(),
        locations(list.take(upto), files.take(upto), root, provider) is Err,
    ensures
        locations(list, files, root, provider) == locations(
            list.take(upto),
            files.take(upto),
            root,
            provider,
        ),
    decreases list.len(),
{
    if upto == list.len() {
        assert(list.take(upto) =~= list);
        assert(files.take(upto) =~= files);
    } else {
        assert(list.drop_last().take(upto) =~= list.take(upto));
        assert(files.drop_last().take(upto) =~= files.take(upto));
        lemma_errors_stay(list.drop_last(), files.drop_last(), root, provider, upto);
    }
}

/// The files that platforms take an address for: one of them may take it for a file where
/// another does not.
pub uninterp spec fn address_files(uri: Seq<char>) -> Set<Option<FileView>>;

/// What a file is, where there is one.
pub open spec fn opt_file(file: Option<NamedFile>) -> Option<FileView> {
    match file {
        Some(file) => Some(file@),
        None => None,
    }
}

/// What an address may be taken for: a file, no file, or no address at all.
pub open spec fn is_taken_for(uri: Seq<char>, file: Result<Option<FileView>, Seq<char>>) -> bool {
    match file {
        Ok(file) => config::url_scheme(uri) is Ok && address_files(uri).contains(file),
        Err(error) => config::url_scheme(uri) == Err::<Seq<char>, Seq<char>>(error),
    }
}

/// Calls `reqwest::Url::parse` and `reqwest::Url::to_file_path`, and hands the path out as
/// it is and with `/` in place of `std::path::MAIN_SEPARATOR`. The error is that of a text that is no URL;
/// it does not depend on the platform. Which file an address names does: the answer is one
/// of those that platforms give for the address, and which of them is left open. `None` is
/// an address that names no file, or one whose path is not valid Unicode.
#[verifier::external_body]
fn file_of_address(uri: &str) -> (r: Result<Option<NamedFile>, String>)
    ensures
        match r {
            Ok(file) => config::url_scheme(uri@) is Ok && address_files(uri@).contains(
                opt_file(file),
            ),
            Err(error) => config::url_scheme(uri@) == Err::<Seq<char>, Seq<char>>(error@),
        },
{
    match reqwest::Url::parse(uri) {
        Ok(url) => {
            let file = url.to_file_path().ok().and_then(|path| path.into_os_string().into_string().ok());
            let slashed = |native: &str| native.replace(std::path::MAIN_SEPARATOR, "/");
            Ok(file.map(|native| NamedFile { path: slashed(&native), native }))
        },
        Err(error) => Err(error.to_string()),
    }
}

/// What platforms answer for the address of a file: one of them may have an address where
/// another has none.
pub uninterp spec fn file_answers(path: Seq<char>) -> Set<Option<Seq<char>>>;

/// A platform may answer this for the address of a file.
pub open spec fn is_file_answer(path: Seq<char>, answer: Option<Seq<char>>) -> bool {
    &&& file_answers(path).contains(answer)
    &&& answer is Some ==> text::starts_with(answer->0, "file://"@)
}

/// Calls `reqwest::Url::from_file_path`. Which paths are absolute, and the address of one
/// that is, depend on the path and the platform: the answer is one of those that platforms
/// give for the path, and which of them is left open. An address has the scheme `file`.
#[verifier::external_body]
pub(crate) fn address_of_file(path: &str) -> (r: Option<String>)
    ensures
        file_answers(path@).contains(paths::opt_view(r)),
        r is Some ==> text::starts_with(r->0@, "file://"@),
{
    Some(reqwest::Url::from_file_path(path).ok()?.to_string())
}

/// The locations in a response of a language server. Items outside the workspace are left
/// out, and an address that is none fails the response.
pub fn locations_for(response: &Json, workspace: &Workspace, provider: &str) -> (r: Result<
    Vec<Location>,
    String,
>)
    ensures
        located_in(items(json::document(*response))).len() == 0 ==> r is Ok && r->Ok_0@.len() == 0,
        exists|files: Seq<Result<Option<FileView>, Seq<char>>>|
            {
                &&& files.len() == located_in(items(json::document(*response))).len()
                &&& forall|i: int|
                    0 <= i < files.len() ==> is_taken_for(
                        located_in(items(json::document(*response)))[i].uri,
                        #[trigger] files[i],
                    )
                &&& (match r {
                    Ok(found) => #[trigger] locations(
                        located_in(items(json::document(*response))),
                        files,
                        workspace.path@,
                        provider@,
                    ) == Ok::<_, Seq<char>>(lsp::location_views(found@)),
                    Err(error) => locations(
                        located_in(items(json::document(*response))),
                        files,
                        workspace.path@,
                        provider@,
                    ) == Err::<Seq<LocationView>, _>(error@),
                })
            },
{
    let list = located_items(response);
    let mut files: Vec<Result<Option<NamedFile>, String>> = Vec::new();
    let mut i: usize = 0;
    while i < list.len()
        invariant
            i <= list@.len(),
            files@.len() == i,
            forall|k: int|
                0 <= k < i ==> is_taken_for(list@[k].uri@, file_view(#[trigger] files@[k])),
        decreases list@.len() - i,
    {
        files.push(file_of_address(list[i].uri.as_str()));
        i = i + 1;
    }
    let ghost views = file_views(files@);
    assert(located_views(list@).len() == list@.len());
    let r = locations_of(&list, &files, workspace.path.as_str(), provider);
    proof {
        let all = located_in(items(json::document(*response)));
        assert(views.len() == all.len());
        assert forall|k: int| 0 <= k < views.len() implies is_taken_for(
            all[k].uri,
            #[trigger] views[k],
        ) by {
            assert(views[k] == file_view(files@[k]));
            assert(all[k] == list@[k]@);
        }
        if all.len() == 0 {
            assert(lsp::location_views(r->Ok_0@) =~= seq![]);
            assert(lsp::location_views(r->Ok_0@).len() == 0);
        }
    }
    r
}

/// Whether an address names a file of the workspace, which the platform writes as given.
pub open spec fn is_workspace_file(
    file: Result<Option<FileView>, Seq<char>>,
    native: Seq<char>,
    root: Seq<char>,
) -> bool {
    file matches Ok(Some(named)) && named.native == native && paths::is_within(named.path, root)
}

/// Every location lies in the workspace, in a file that an address names, and is said to
/// come from the server.
pub proof fn law_locations_lie_in_the_workspace(
    list: Seq<LocatedView>,
    files: Seq<Result<Option<FileView>, Seq<char>>>,
    root: Seq<char>,
    provider: Seq<char>,
    i: int,
)
    requires
        list.len() == files.len(),
        locations(list, files, root, provider) is Ok,
        0 <= i < locations(list, files, root, provider)->Ok_0.len(),
    ensures
        ({
            let found = locations(list, files, root, provider)->Ok_0[i];
            &&& found.provider == Some(provider)
            &&& exists|k: int|
                0 <= k < files.len() && is_workspace_file(#[trigger] files[k], found.file_path, root)
        }),
    decreases list.len(),
{
    let found = locations(list, files, root, provider)->Ok_0[i];
    let rest = files.drop_last();
    let before = locations(list.drop_last(), rest, root, provider)->Ok_0;
    if i < before.len() {
        law_locations_lie_in_the_workspace(list.drop_last(), rest, root, provider, i);
        let k = choose|k: int|
            0 <= k < rest.len() && is_workspace_file(#[trigger] rest[k], found.file_path, root);
        assert(files[k] == rest[k]);
    } else {
        assert(files[files.len() - 1] == files.last());
    }
}

// ---------------------------------------------------------------------------
// What locations say
// ---------------------------------------------------------------------------

/// Lines are counted from one where servers count them from zero, and characters stay as
/// they are; both as long as they fit.
pub proof fn law_lines_are_counted_from_one(line: u64, character: u64)
    ensures
        line < u32::MAX ==> one_based(line) == line + 1,
        character <= u32::MAX ==> low(character) == character,
{
}

/// A location is an item in its file: with the path of the file below the workspace and the
/// language of the file, and with all that the item says.
pub open spec fn says_the_item(
    found: LocationView,
    item: LocatedView,
    file: FileView,
    root: Seq<char>,
    provider: Seq<char>,
) -> bool {
    &&& found.file_path == file.native
    &&& found.relative_file_path == Some(
        text::replaced(paths::relative_to(file.path, root), '\\', '/'),
    )
    &&& item.start_line < u32::MAX ==> found.start_line == item.start_line + 1
    &&& item.end_line < u32::MAX ==> found.end_line == item.end_line + 1
    &&& item.start_character <= u32::MAX ==> found.start_character == item.start_character
    &&& item.end_character <= u32::MAX ==> found.end_character == item.end_character
    &&& found.name == item.name
    &&& found.kind == item.kind
    &&& found.language == (match language::language_of_path(found.relative_file_path->0) {
        Some(known) => Some(known.identifier()),
        None => None,
    })
    &&& found.provider == Some(provider)
}

/// The items that lie in files of the workspace.
pub open spec fn in_workspace(
    files: Seq<Result<Option<FileView>, Seq<char>>>,
    root: Seq<char>,
    i: int,
) -> bool {
    0 <= i < files.len() && files[i] is Ok && files[i]->Ok_0 is Some && paths::is_within(
        files[i]->Ok_0->0.path,
        root,
    )
}

/// Where no address fails, every item that lies in a file of the workspace has its location,
/// in order, and no other item has one.
pub proof fn law_items_of_the_workspace_have_locations(
    list: Seq<LocatedView>,
    files: Seq<Result<Option<FileView>, Seq<char>>>,
    root: Seq<char>,
    provider: Seq<char>,
) -> (kept: Seq<int>)
    requires
        list.len() == files.len(),
        locations(list, files, root, provider) is Ok,
    ensures
        ({
            let found = locations(list, files, root, provider)->Ok_0;
            &&& kept.len() == found.len()
            &&& forall|a: int, b: int|
                0 <= a < b < kept.len() ==> #[trigger] kept[a] < #[trigger] kept[b]
            &&& forall|k: int|
                0 <= k < kept.len() ==> {
                    &&& in_workspace(files, root, #[trigger] kept[k])
                    &&& says_the_item(
                        found[k],
                        list[kept[k]],
                        files[kept[k]]->Ok_0->0,
                        root,
                        provider,
                    )
                }
            &&& forall|i: int| #[trigger] in_workspace(files, root, i) ==> kept.contains(i)
        }),
    decreases list.len(),
{
    let found = locations(list, files, root, provider)->Ok_0;
    if list.len() == 0 {
        seq![]
    } else {
        let (items, rest) = (list.drop_last(), files.drop_last());
        let n = list.len() - 1;
        let before = law_items_of_the_workspace_have_locations(items, rest, root, provider);
        let earlier = locations(items, rest, root, provider)->Ok_0;
        let kept = if in_workspace(files, root, n) {
            before.push(n)
        } else {
            before
        };
        assert forall|i: int| 0 <= i < n implies in_workspace(rest, root, i) == #[trigger]
            in_workspace(files, root, i) by {
            assert(rest[i] == files[i]);
        }
        assert forall|k: int| 0 <= k < kept.len() implies {
            &&& in_workspace(files, root, #[trigger] kept[k])
            &&& says_the_item(found[k], list[kept[k]], files[kept[k]]->Ok_0->0, root, provider)
        } by {
            if k < before.len() {
                assert(kept[k] == before[k]);
                assert(in_workspace(rest, root, before[k]));
                assert(rest[kept[k]] == files[kept[k]] && items[kept[k]] == list[kept[k]]);
                assert(found[k] == earlier[k]);
            } else {
                assert(files.last() == files[n] && list.last() == list[n]);
            }
        }
        assert forall|a: int, b: int| 0 <= a < b < kept.len() implies #[trigger] kept[a]
            < #[trigger] kept[b] by {
            assert(kept[a] == before[a]);
            assert(in_workspace(rest, root, before[a]));
            if b < before.len() {
                assert(kept[b] == before[b]);
            }
        }
        assert forall|i: int| #[trigger] in_workspace(files, root, i) implies kept.contains(i) by {
            if i < n {
                assert(in_workspace(rest, root, i));
                let k = choose|k: int| 0 <= k < before.len() && before[k] == i;
                assert(kept[k] == i);
            } else {
                assert(kept[kept.len() - 1] == i);
            }
        }
        kept
    }
}

/// A response fails if and only if one of its addresses does, with the error of the first.
pub proof fn law_bad_addresses_fail_the_response(
    list: Seq<LocatedView>,
    files: Seq<Result<Option<FileView>, Seq<char>>>,
    root: Seq<char>,
    provider: Seq<char>,
)
    requires
        list.len() == files.len(),
    ensures
        locations(list, files, root, provider) is Ok <==> forall|i: int|
            0 <= i < files.len() ==> (#[trigger] files[i]) is Ok,
        locations(list, files, root, provider) matches Err(error) ==> exists|i: int|
            {
                &&& 0 <= i < files.len()
                &&& #[trigger] files[i] == Err::<Option<FileView>, Seq<char>>(error)
                &&& forall|k: int| 0 <= k < i ==> (#[trigger] files[k]) is Ok
            },
    decreases list.len(),
{
    if list.len() > 0 {
        let (items, rest) = (list.drop_last(), files.drop_last());
        let n = list.len() - 1;
        law_bad_addresses_fail_the_response(items, rest, root, provider);
        assert(forall|i: int| 0 <= i < n ==> rest[i] == #[trigger] files[i]);
        if let Err(error) = locations(items, rest, root, provider) {
            let i = choose|i: int|
                {
                    &&& 0 <= i < rest.len()
                    &&& #[trigger] rest[i] == Err::<Option<FileView>, Seq<char>>(error)
                    &&& forall|k: int| 0 <= k < i ==> (#[trigger] rest[k]) is Ok
                };
            assert(files[i] == rest[i]);
            assert forall|k: int| 0 <= k < i implies (#[trigger] files[k]) is Ok by {
                assert(rest[k] is Ok);
            }
        } else {
            assert forall|k: int| 0 <= k < n implies (#[trigger] files[k]) is Ok by {
                assert(rest[k] is Ok);
            }
            assert(files[n] == files.last());
        }
    }
}

/// A number stands in a range at one of its ends.
pub open spec fn has_number(range: Document, end: Seq<char>, axis: Seq<char>, number: u64) -> bool {
    range.get(end) matches Some(place) && place.get(axis) == Some(Document::Unsigned(number))
}

/// Symbols are located by their `location`, locations by themselves, and links by their
/// target, at its selection where they give one. The numbers are those of the range.
pub proof fn law_items_are_located_by_their_addresses(
    item: Document,
    place: Document,
    uri: Seq<char>,
    range: Document,
    number: u64,
)
    ensures
        ({
            let here = Some(Document::Text(uri));
            let symbol = item.get("location"@) == Some(place) && place.get("uri"@) == here
                && place.get("range"@) == Some(range);
            let plain = item.get("location"@) is None && item.get("uri"@) == here && item.get(
                "range"@,
            ) == Some(range);
            let link = item.get("location"@) is None && item.get("uri"@) is None && item.get(
                "range"@,
            ) is None && item.get("targetUri"@) == here && (item.get("targetSelectionRange"@)
                == Some(range) || item.get("targetSelectionRange"@) is None && item.get(
                "targetRange"@,
            ) == Some(range));
            symbol || plain || link ==> located(item) is Some && {
                let found = located(item)->0;
                &&& found.uri == uri
                &&& has_number(range, "start"@, "line"@, number) ==> found.start_line == number
                &&& has_number(range, "start"@, "character"@, number) ==> found.start_character
                    == number
                &&& has_number(range, "end"@, "line"@, number) ==> found.end_line == number
                &&& has_number(range, "end"@, "character"@, number) ==> found.end_character
                    == number
                &&& item.get("name"@) matches Some(Document::Text(name)) ==> found.name == Some(
                    name,
                )
                &&& item.get("kind"@) matches Some(Document::Unsigned(kind)) ==> found.kind == Some(
                    kind,
                )
            }
        }),
{
}

/// A response says nothing where it is null, is a list of items, or is one item; those that
/// are located come out in order.
pub proof fn law_responses_are_lists_of_items(list: Seq<Document>, item: Document)
    ensures
        items(Document::Null).len() == 0,
        items(Document::List(list)) == list,
        !(item is Null) && !(item is List) ==> items(item) == seq![item],
        located_in(seq![]) == Seq::<LocatedView>::empty(),
        located_in(list.push(item)) == (match located(item) {
            Some(found) => located_in(list).push(found),
            None => located_in(list),
        }),
{
    assert(list.push(item).drop_last() =~= list);
}

} // verus!
