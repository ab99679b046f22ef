//! The command shell: what each line means, and what it is answered.

use crate::btree::index_tree;
use crate::collection;
use crate::collection::Collection;
use crate::collection::document_for;
use crate::collection::documents_view;
use crate::collection::given_id;
use crate::collection::goes_through;
use crate::collection::holds;
use crate::collection::id_for;
use crate::collection::number_after;
use crate::collection::with_id;
use crate::document::Document;
use crate::document::DocumentView;
use crate::document::ValueView;
use crate::document::proper;
use crate::encoding::document_bytes;
use crate::encoding::document_of;
use crate::encoding::small;
use crate::float::Float;
use crate::journal::FileAction;
use crate::journal::FileActionView;
use crate::journal::Images;
use crate::journal::file_actions_view;
use crate::journal::files_may_crash_to;
use crate::journal::perform_steps;
use crate::json::Conversion;
use crate::json::Notation;
use crate::json::converts_as;
use crate::json::document_of_text;
use crate::json::document_text;
use crate::json::is_space;
use crate::json::is_whitespace;
use crate::json::joined;
use crate::json::lemma_joined;
use crate::json::parse_document;
use crate::json::shows_as;
use crate::json::skip_spaces;
use crate::json::skip_whitespace;
use crate::json::to_json_string;
use crate::pager::ActionView;
use crate::pager::StorageError;
use crate::pager::recovered;
use crate::pager::storage_error_text;
use crate::query::satisfies;
use crate::text::chars_of;
use crate::text::same_string;
use crate::text::string_of;
use crate::tree::root_insert;
use crate::tree::tree_remove;
use vstd::prelude::*;
use vstd::string::StringExecFns;
use vstd::utf8::encode_utf8;

verus! {

/// The text without whitespace at its start.
pub open spec fn trim_start(text: Seq<char>) -> Seq<char> {
    text.skip(skip_spaces(text, 0))
}

/// The text without whitespace at its end.
pub open spec fn trim_end(text: Seq<char>) -> Seq<char>
    decreases text.len(),
{
    if text.len() > 0 && is_space(text.last()) {
        trim_end(text.drop_last())
    } else {
        text
    }
}

/// The text without whitespace at its start and its end.
pub open spec fn trim(text: Seq<char>) -> Seq<char> {
    trim_end(trim_start(text))
}

/// The number of characters before the first whitespace.
pub open spec fn word_len(text: Seq<char>) -> int
    decreases text.len(),
{
    if text.len() == 0 || is_space(text[0]) {
        0
    } else {
        1 + word_len(text.drop_first())
    }
}

/// The first word of a text, and what follows it without whitespace around.
pub open spec fn first_word(text: Seq<char>) -> (Seq<char>, Seq<char>) {
    let start = trim_start(text);
    (start.take(word_len(start)), trim(start.skip(word_len(start))))
}

/// What a line asks for.
pub enum Command {
    /// The line is blank.
    Nothing,
    Exit,
    Help,
    Use(String),
    Insert(String),
    Find(String),
    Get(String),
    Update(String),
    Delete(String),
    Unknown(String),
}

/// What a line asks for, with the texts as sequences.
pub enum CommandView {
    Nothing,
    Exit,
    Help,
    Use(Seq<char>),
    Insert(Seq<char>),
    Find(Seq<char>),
    Get(Seq<char>),
    Update(Seq<char>),
    Delete(Seq<char>),
    Unknown(Seq<char>),
}

impl View for Command {
    type V = CommandView;

    open spec fn view(&self) -> CommandView {
        match self {
            Command::Nothing => CommandView::Nothing,
            Command::Exit => CommandView::Exit,
            Command::Help => CommandView::Help,
            Command::Use(rest) => CommandView::Use(rest@),
            Command::Insert(rest) => CommandView::Insert(rest@),
            Command::Find(rest) => CommandView::Find(rest@),
            Command::Get(rest) => CommandView::Get(rest@),
            Command::Update(rest) => CommandView::Update(rest@),
            Command::Delete(rest) => CommandView::Delete(rest@),
            Command::Unknown(word) => CommandView::Unknown(word@),
        }
    }
}

/// What a line asks for: its first word names the command.
pub open spec fn command_of(line: Seq<char>) -> CommandView {
    let (word, rest) = first_word(trim(line));
    if trim(line).len() == 0 {
        CommandView::Nothing
    } else if word == "exit"@ || word == "quit"@ {
        CommandView::Exit
    } else if word == "help"@ {
        CommandView::Help
    } else if word == "use"@ {
        CommandView::Use(rest)
    } else if word == "insert"@ {
        CommandView::Insert(rest)
    } else if word == "find"@ {
        CommandView::Find(rest)
    } else if word == "get"@ {
        CommandView::Get(rest)
    } else if word == "update"@ {
        CommandView::Update(rest)
    } else if word == "delete"@ {
        CommandView::Delete(rest)
    } else {
        CommandView::Unknown(word)
    }
}

/// The length of a text without the whitespace at its end.
fn end_of_text(chars: &[char], from: usize) -> (end: usize)
    requires
        from <= chars@.len(),
    ensures
        from <= end <= chars@.len(),
        trim_end(chars@.skip(from as int)) == chars@.subrange(from as int, end as int),
{
    let mut end: usize = chars.len();
    assert(chars@.skip(from as int) =~= chars@.subrange(from as int, end as int));
    while end > from && is_whitespace(chars[end - 1])
        invariant
            from <= end <= chars@.len(),
            trim_end(chars@.skip(from as int)) == trim_end(
                chars@.subrange(from as int, end as int),
            ),
        decreases end,
    {
        let ghost part = chars@.subrange(from as int, end as int);
        assert(part.last() == chars@[end - 1]);
        assert(part.drop_last() =~= chars@.subrange(from as int, end - 1));
        end -= 1;
    }
    assert(end > from ==> chars@.subrange(from as int, end as int).last() == chars@[end - 1]);
    end
}

/// The text without whitespace at its start and its end.
pub fn trimmed(text: &str) -> (result: String)
    ensures
        result@ == trim(text@),
{
    let chars = chars_of(text);
    let start: usize = skip_whitespace(chars.as_slice(), 0);
    let end: usize = end_of_text(chars.as_slice(), start);
    string_of(chars.as_slice(), start, end)
}

/// The first word of a text, and what follows it without whitespace around.
pub fn split_first_word(text: &str) -> (result: (String, String))
    ensures
        (result.0@, result.1@) == first_word(text@),
{
    let chars = chars_of(text);
    let len: usize = chars.len();
    let from: usize = skip_whitespace(chars.as_slice(), 0);
    let ghost start = trim_start(text@);
    let mut to: usize = from;
    assert(start.skip(0) =~= start);
    while to < len && !is_whitespace(chars[to])
        invariant
            from <= to <= len,
            len == chars@.len(),
            start == chars@.skip(from as int),
            word_len(start) == to - from + word_len(start.skip(to - from)),
        decreases len - to,
    {
        let ghost rest = start.skip(to - from);
        assert(rest[0] == chars@[to as int]);
        assert(rest.drop_first() =~= start.skip(to - from + 1));
        to += 1;
    }
    let ghost rest = start.skip(to - from);
    assert(to < len ==> rest[0] == chars@[to as int]);
    assert(word_len(start) == to - from);
    let next: usize = skip_whitespace(chars.as_slice(), to);
    proof {
        assert(rest =~= chars@.skip(to as int));
        lemma_skip_shifted(chars@, to as int, 0);
        assert(trim_start(rest) =~= chars@.skip(next as int));
        assert(start.take(to - from) =~= chars@.subrange(from as int, to as int));
    }
    let end: usize = end_of_text(chars.as_slice(), next);
    (string_of(chars.as_slice(), from, to), string_of(chars.as_slice(), next, end))
}

/// Whitespace is skipped in a part of a text as in the text.
proof fn lemma_skip_shifted(chars: Seq<char>, from: int, pos: int)
    requires
        0 <= from <= chars.len(),
        0 <= pos,
    ensures
        skip_spaces(chars.skip(from), pos) + from == skip_spaces(chars, from + pos),
    decreases chars.len() - pos,
{
    let part = chars.skip(from);
    if pos < part.len() {
        assert(part[pos] == chars[from + pos]);
        if is_space(part[pos]) {
            lemma_skip_shifted(chars, from, pos + 1);
        }
    }
}

/// What a line asks for.
pub fn parse_command(line: &str) -> (command: Command)
    ensures
        command@ == command_of(line@),
{
    let text = trimmed(line);
    if text.as_str().is_empty() {
        return Command::Nothing;
    }
    let (word, rest) = split_first_word(text.as_str());
    if same_string(word.as_str(), "exit") || same_string(word.as_str(), "quit") {
        Command::Exit
    } else if same_string(word.as_str(), "help") {
        Command::Help
    } else if same_string(word.as_str(), "use") {
        Command::Use(rest)
    } else if same_string(word.as_str(), "insert") {
        Command::Insert(rest)
    } else if same_string(word.as_str(), "find") {
        Command::Find(rest)
    } else if same_string(word.as_str(), "get") {
        Command::Get(rest)
    } else if same_string(word.as_str(), "update") {
        Command::Update(rest)
    } else if same_string(word.as_str(), "delete") {
        Command::Delete(rest)
    } else {
        Command::Unknown(word)
    }
}

/// The answer where an operation failed.
pub open spec fn failure(error: StorageError) -> Seq<char> {
    "error: "@ + storage_error_text(error)
}

/// The answer where a text is not JSON.
pub open spec fn parse_failure(message: Seq<char>) -> Seq<char> {
    "parse error: "@ + message
}

/// The answer to adding a document.
pub open spec fn insert_answer(before: Collection, doc: DocumentView) -> Seq<char> {
    match before.insert_outcome(doc) {
        Ok(_) => "inserted _id = "@ + id_for(doc, before.number()),
        Err(error) => failure(error),
    }
}

/// A crash on the way from one collection to the other leaves the documents
/// of one of them.
pub open spec fn safely_reached(before: Collection, after: Collection) -> bool {
    &&& after.base() == before.base()
    &&& goes_through(before.trail(), after.trail(), before@, after@)
}

/// What adding a document makes of a collection.
pub open spec fn inserted(before: Collection, after: Collection, doc: DocumentView) -> bool {
    let number = before.number();
    &&& after.wf()
    &&& after.counter() == if given_id(doc) is None {
        number_after(number)
    } else {
        before.counter()
    }
    &&& after.heap().store() == before.heap_after_insert(doc)
    &&& match before.insert_outcome(doc) {
        Ok((tree, pages)) => {
            &&& after@ == before@.insert(
                id_for(doc, number),
                document_bytes(document_for(doc, number)),
            )
            &&& index_tree(after.index().store()) == tree
            &&& after.index().store().len() == pages
        },
        Err(_) => {
            &&& after@ == before@
            &&& after.index().store() == before.index().store()
        },
    }
    &&& safely_reached(before, after)
}

/// What the command to add a document does and is answered.
pub open spec fn insert_done(
    before: Collection,
    after: Collection,
    rest: Seq<char>,
    answer: Seq<char>,
    conversion: Conversion,
) -> bool {
    match document_of_text(rest, conversion) {
        Ok(doc) => before.wf() ==> {
            &&& answer == insert_answer(before, doc)
            &&& inserted(before, after, doc)
        },
        Err(message) => {
            &&& answer == parse_failure(message)
            &&& after == before
        },
    }
}

/// Several documents, each on a line of its own.
pub open spec fn lines_text(docs: Seq<DocumentView>, notation: Notation) -> Seq<char>
    decreases docs.len(),
{
    if docs.len() == 0 {
        Seq::empty()
    } else if docs.len() == 1 {
        document_text(docs[0], notation)
    } else {
        document_text(docs[0], notation) + seq!['\n'] + lines_text(docs.drop_first(), notation)
    }
}

/// The query that a text stands for: without one, every document matches.
pub open spec fn query_of(rest: Seq<char>, conversion: Conversion) -> Result<
    DocumentView,
    Seq<char>,
> {
    if trim(rest).len() == 0 {
        Ok(Seq::empty())
    } else {
        document_of_text(trim(rest), conversion)
    }
}

/// The answer to a query.
pub open spec fn find_answer(coll: Collection, query: DocumentView, notation: Notation) -> Seq<
    char,
> {
    match coll.documents() {
        Ok(docs) => {
            let found = docs.filter(|doc: DocumentView| satisfies(doc, query));
            if found.len() == 0 {
                "(no matches)"@
            } else {
                lines_text(found, notation)
            }
        },
        Err(error) => failure(error),
    }
}

/// What the command to list documents is answered.
pub open spec fn find_done(
    coll: Collection,
    rest: Seq<char>,
    answer: Seq<char>,
    conversion: Conversion,
    notation: Notation,
) -> bool {
    match query_of(rest, conversion) {
        Ok(query) => coll.wf() ==> answer == find_answer(coll, query, notation),
        Err(message) => answer == parse_failure(message),
    }
}

/// The answer to asking for a document.
pub open spec fn get_answer(coll: Collection, id: Seq<char>, notation: Notation) -> Seq<char> {
    if id.len() == 0 {
        "usage: get <id>"@
    } else if !coll@.contains_key(id) {
        "(not found)"@
    } else {
        match document_of(coll@[id]) {
            Ok(doc) => document_text(doc, notation),
            Err(error) => failure(StorageError::InvalidData(error)),
        }
    }
}

/// What the command to fetch a document is answered.
pub open spec fn get_done(
    coll: Collection,
    rest: Seq<char>,
    answer: Seq<char>,
    notation: Notation,
) -> bool {
    coll.wf() || trim(rest).len() == 0 ==> answer == get_answer(coll, trim(rest), notation)
}

/// The answer to replacing a document.
pub open spec fn update_answer(before: Collection, id: Seq<char>, doc: DocumentView) -> Seq<char> {
    if !before@.contains_key(id) {
        "(not found)"@
    } else {
        match before.renewed(id, doc) {
            Ok(_) => "updated"@,
            Err(error) => failure(error),
        }
    }
}

/// What replacing a document makes of a collection.
pub open spec fn updated(
    before: Collection,
    after: Collection,
    id: Seq<char>,
    doc: DocumentView,
) -> bool {
    let pages = before.index().store().len();
    &&& after.wf()
    &&& after.counter() == before.counter()
    &&& after.index().store().len() == pages
    &&& if !before@.contains_key(id) || before.renewed(id, doc) is Err {
        &&& after@ == before@
        &&& after.heap().store() == before.heap().store()
        &&& after.index().store() == before.index().store()
    } else {
        let (store, p) = before.renewed(id, doc)->Ok_0;
        &&& after@ == before@.insert(id, document_bytes(with_id(doc, id)))
        &&& after.heap().store().len() == store.len()
        &&& root_insert(
            index_tree(before.index().store()),
            encode_utf8(id),
            p,
            pages as int,
        ) matches Ok((tree, _))
        &&& index_tree(after.index().store()) == tree
    }
    &&& safely_reached(before, after)
}

/// What the command to replace a document does and is answered.
pub open spec fn update_done(
    before: Collection,
    after: Collection,
    rest: Seq<char>,
    answer: Seq<char>,
    conversion: Conversion,
) -> bool {
    let (id, text) = first_word(rest);
    if id.len() == 0 || text.len() == 0 {
        &&& answer == "usage: update <id> <json>"@
        &&& after == before
    } else {
        match document_of_text(text, conversion) {
            Ok(doc) => before.wf() ==> {
                &&& answer == update_answer(before, id, doc)
                &&& updated(before, after, id, doc)
            },
            Err(message) => {
                &&& answer == parse_failure(message)
                &&& after == before
            },
        }
    }
}

/// The answer to removing a document.
pub open spec fn delete_answer(before: Collection, id: Seq<char>) -> Seq<char> {
    if id.len() == 0 {
        "usage: delete <id>"@
    } else if before@.contains_key(id) {
        "deleted"@
    } else {
        "(not found)"@
    }
}

/// What the command to remove a document does and is answered.
pub open spec fn delete_done(
    before: Collection,
    after: Collection,
    rest: Seq<char>,
    answer: Seq<char>,
) -> bool {
    let id = trim(rest);
    &&& before.wf() || id.len() == 0 ==> answer == delete_answer(before, id)
    &&& id.len() == 0 ==> after == before
    &&& before.wf() && id.len() > 0 ==> {
        &&& after.wf()
        &&& after.counter() == before.counter()
        &&& after@ == before@.remove(id)
        &&& after.heap().store().len() == before.heap().store().len()
        &&& after.index().store().len() == before.index().store().len()
        &&& if before@.contains_key(id) {
            index_tree(after.index().store()) == tree_remove(
                index_tree(before.index().store()),
                encode_utf8(id),
            )
        } else {
            after.index().store() == before.index().store()
        }
        &&& safely_reached(before, after)
    }
}

/// What a command does to the selected collection and is answered.
pub open spec fn done(
    command: CommandView,
    before: Collection,
    after: Collection,
    answer: Seq<char>,
    conversion: Conversion,
    notation: Notation,
) -> bool {
    match command {
        CommandView::Insert(rest) => insert_done(before, after, rest, answer, conversion),
        CommandView::Find(rest) => {
            &&& after == before
            &&& find_done(before, rest, answer, conversion, notation)
        },
        CommandView::Get(rest) => {
            &&& after == before
            &&& get_done(before, rest, answer, notation)
        },
        CommandView::Update(rest) => update_done(before, after, rest, answer, conversion),
        CommandView::Delete(rest) => delete_done(before, after, rest, answer),
        _ => false,
    }
}

/// The message of a failed operation.
fn failure_message(error: &StorageError) -> (text: String)
    ensures
        text@ == failure(*error),
{
    let mut text = "error: ".to_owned();
    text.append(error.message().as_str());
    text
}

/// The message for a text that is not JSON.
fn parse_failure_message(message: &str) -> (text: String)
    ensures
        text@ == parse_failure(message@),
{
    let mut text = "parse error: ".to_owned();
    text.append(message);
    text
}

/// Adds the document that a text stands for.
pub fn handle_insert<F: Fn(String) -> Option<Float>>(
    coll: &mut Collection,
    rest: &str,
    convert: &F,
) -> (answer: String)
    requires
        old(coll).inv(),
        forall|text: String| #[trigger] call_requires(*convert, (text,)),
    ensures
        final(coll).inv(),
        forall|conversion: Conversion| #[trigger]
            converts_as(*convert, conversion) ==> insert_done(
                *old(coll),
                *final(coll),
                rest@,
                answer@,
                conversion,
            ),
{
    match parse_document(rest, convert) {
        Ok(doc) => match coll.insert(doc) {
            Ok(id) => {
                let mut text = "inserted _id = ".to_owned();
                text.append(id.as_str());
                text
            },
            Err(error) => failure_message(&error),
        },
        Err(message) => parse_failure_message(message.as_str()),
    }
}

/// Writes documents, each on a line of its own.
fn write_lines<G: Fn(Float) -> String>(docs: &Vec<Document>, show: &G) -> (text: String)
    requires
        forall|f: Float| #[trigger] call_requires(*show, (f,)),
    ensures
        forall|notation: Notation| #[trigger]
            shows_as(*show, notation) ==> text@ == lines_text(documents_view(docs@), notation),
{
    let mut text = String::new();
    let ghost all = documents_view(docs@);
    let mut i: usize = 0;
    proof {
        assert(all.skip(0) =~= all);
        assert forall|notation: Notation| #[trigger] shows_as(*show, notation) implies text@
            + lines_text(all, notation) == lines_text(all, notation) by {
            assert(text@ + lines_text(all, notation) =~= lines_text(all, notation));
        }
    }
    while i < docs.len()
        invariant
            i <= docs@.len(),
            all == documents_view(docs@),
            forall|f: Float| #[trigger] call_requires(*show, (f,)),
            forall|notation: Notation| #[trigger]
                shows_as(*show, notation) ==> text@ + lines_text(all.skip(i as int), notation)
                    == lines_text(all, notation),
        decreases docs@.len() - i,
    {
        let ghost sofar = text@;
        proof {
            assert(all.skip(i as int).drop_first() =~= all.skip(i + 1));
            assert(all.skip(i as int)[0] == docs@[i as int].view());
        }
        let line = to_json_string(&docs[i], show);
        text.append(line.as_str());
        i += 1;
        if i < docs.len() {
            text.append("\n");
        }
        proof {
            reveal_strlit("\n");
            assert("\n"@ =~= seq!['\n']);
            assert forall|notation: Notation| #[trigger] shows_as(*show, notation) implies text@
                + lines_text(all.skip(i as int), notation) == lines_text(all, notation) by {
                assert(sofar + lines_text(all.skip(i - 1), notation) =~= text@ + lines_text(
                    all.skip(i as int),
                    notation,
                ));
            }
        }
    }
    proof {
        assert(all.skip(i as int) =~= Seq::empty());
        assert forall|notation: Notation| #[trigger] shows_as(*show, notation) implies text@
            == lines_text(all, notation) by {
            assert(text@ + lines_text(all.skip(i as int), notation) =~= text@);
        }
    }
    text
}

/// Lists the documents that match the query that a text stands for.
pub fn handle_find<F: Fn(String) -> Option<Float>, G: Fn(Float) -> String>(
    coll: &Collection,
    rest: &str,
    convert: &F,
    show: &G,
) -> (answer: String)
    requires
        coll.inv(),
        forall|text: String| #[trigger] call_requires(*convert, (text,)),
        forall|f: Float| #[trigger] call_requires(*show, (f,)),
    ensures
        forall|conversion: Conversion, notation: Notation| #[trigger]
            converts_as(*convert, conversion) && #[trigger] shows_as(*show, notation)
                ==> find_done(*coll, rest@, answer@, conversion, notation),
{
    let text = trimmed(rest);
    let query = if text.as_str().is_empty() {
        Document::new()
    } else {
        match parse_document(text.as_str(), convert) {
            Ok(query) => query,
            Err(message) => {
                return parse_failure_message(message.as_str());
            },
        }
    };
    match coll.find(&query) {
        Ok(docs) => {
            assert(documents_view(docs@).len() == docs@.len());
            if docs.len() == 0 {
                "(no matches)".to_owned()
            } else {
                write_lines(&docs, show)
            }
        },
        Err(error) => failure_message(&error),
    }
}

/// Fetches a document by its identifier.
pub fn handle_get<G: Fn(Float) -> String>(coll: &Collection, rest: &str, show: &G) -> (answer:
    String)
    requires
        coll.inv(),
        forall|f: Float| #[trigger] call_requires(*show, (f,)),
    ensures
        forall|notation: Notation| #[trigger]
            shows_as(*show, notation) ==> get_done(*coll, rest@, answer@, notation),
{
    let id = trimmed(rest);
    if id.as_str().is_empty() {
        return "usage: get <id>".to_owned();
    }
    match coll.find_by_id(id.as_str()) {
        Ok(Some(doc)) => to_json_string(&doc, show),
        Ok(None) => "(not found)".to_owned(),
        Err(error) => failure_message(&error),
    }
}

/// Replaces a document: the first word is its identifier, the rest stands
/// for the new document.
pub fn handle_update<F: Fn(String) -> Option<Float>>(
    coll: &mut Collection,
    rest: &str,
    convert: &F,
) -> (answer: String)
    requires
        old(coll).inv(),
        forall|text: String| #[trigger] call_requires(*convert, (text,)),
    ensures
        final(coll).inv(),
        forall|conversion: Conversion| #[trigger]
            converts_as(*convert, conversion) ==> update_done(
                *old(coll),
                *final(coll),
                rest@,
                answer@,
                conversion,
            ),
{
    let (id, text) = split_first_word(rest);
    if id.as_str().is_empty() || text.as_str().is_empty() {
        return "usage: update <id> <json>".to_owned();
    }
    match parse_document(text.as_str(), convert) {
        Ok(doc) => match coll.update_by_id(id.as_str(), doc) {
            Ok(true) => "updated".to_owned(),
            Ok(false) => "(not found)".to_owned(),
            Err(error) => failure_message(&error),
        },
        Err(message) => parse_failure_message(message.as_str()),
    }
}

/// Removes a document by its identifier.
pub fn handle_delete(coll: &mut Collection, rest: &str) -> (answer: String)
    requires
        old(coll).inv(),
    ensures
        final(coll).inv(),
        delete_done(*old(coll), *final(coll), rest@, answer@),
{
    let id = trimmed(rest);
    if id.as_str().is_empty() {
        return "usage: delete <id>".to_owned();
    }
    match coll.delete_by_id(id.as_str()) {
        Ok(true) => "deleted".to_owned(),
        Ok(false) => "(not found)".to_owned(),
        Err(error) => failure_message(&error),
    }
}

/// What is to be done after a line was carried out.
pub enum Step {
    /// Nothing is to be printed.
    Nothing,
    /// The text is to be printed.
    Print(String),
    /// The collection of this name is to be opened.
    Open(String),
    /// The shell is to be left.
    Exit,
}

/// The open collections, and which of them commands apply to.
pub struct Shell {
    collections: Vec<(String, Collection)>,
    current: Option<usize>,
}

/// The place of the first entry with a name, or the number of entries.
pub open spec fn place(entries: Seq<(Seq<char>, Collection)>, name: Seq<char>) -> int
    decreases entries.len(),
{
    if entries.len() == 0 || entries[0].0 == name {
        0
    } else {
        1 + place(entries.drop_first(), name)
    }
}

/// The answer to selecting a collection.
pub open spec fn using(name: Seq<char>) -> Seq<char> {
    "using collection '"@ + name + "'"@
}

/// The list of commands.
pub open spec fn help() -> Seq<char> {
    "Commands:
  use <name>            switch to (creating if needed) a collection
  insert <json>          insert a document, e.g. insert {\"name\": \"Alice\", \"age\": 30}
  find [json]            find documents matching a query; omit for all documents
                          e.g. find {\"age\": {\"$gt\": 25}}
  get <id>               fetch a document by its _id
  update <id> <json>     replace a document's contents (keeps its _id)
  delete <id>            remove a document by its _id
  help                   show this message
  exit | quit            leave the shell"@
}

impl Shell {
    /// The open collections with their names, in the order in which they
    /// were opened.
    pub closed spec fn entries(&self) -> Seq<(Seq<char>, Collection)> {
        Seq::new(
            self.collections@.len(),
            |i: int| (self.collections@[i].0@, self.collections@[i].1),
        )
    }

    /// The place of the selected collection.
    pub closed spec fn selected(&self) -> Option<int> {
        match self.current {
            Some(i) => Some(i as int),
            None => None,
        }
    }

    /// Every collection is in order and the selected one is open.
    pub open spec fn inv(&self) -> bool {
        &&& forall|i: int| 0 <= i < self.entries().len() ==> (#[trigger] self.entries()[i]).1.inv()
        &&& self.selected() matches Some(i) ==> 0 <= i < self.entries().len()
    }

    /// A shell without collections.
    pub fn new() -> (shell: Self)
        ensures
            shell.inv(),
            shell.entries().len() == 0,
            shell.selected() is None,
    {
        Shell { collections: Vec::new(), current: None }
    }

    /// What is printed before a line is read.
    pub fn prompt(&self) -> (text: String)
        requires
            self.inv(),
        ensures
            text@ == match self.selected() {
                Some(i) => self.entries()[i].0,
                None => "(no collection)"@,
            } + "> "@,
    {
        let mut text = match self.current {
            Some(i) => {
                assert(self.entries()[i as int].0 == self.collections@[i as int].0@);
                self.collections[i].0.clone()
            },
            None => "(no collection)".to_owned(),
        };
        text.append("> ");
        text
    }

    /// The place of the collection of this name, or the number of
    /// collections.
    fn find_place(&self, name: &str) -> (i: usize)
        ensures
            i == place(self.entries(), name@),
            i <= self.collections@.len(),
            i < self.collections@.len() ==> self.collections@[i as int].0@ == name@,
    {
        let ghost all = self.entries();
        let mut i: usize = 0;
        assert(all.skip(0) =~= all);
        while i < self.collections.len()
            invariant
                i <= self.collections@.len(),
                all == self.entries(),
                place(all, name@) == i + place(all.skip(i as int), name@),
            decreases self.collections@.len() - i,
        {
            assert(all.skip(i as int)[0] == all[i as int]);
            if same_string(self.collections[i].0.as_str(), name) {
                return i;
            }
            assert(all.skip(i as int).drop_first() =~= all.skip(i + 1));
            i += 1;
        }
        i
    }

    /// Only the selected collection may have changed.
    pub open spec fn others_unchanged(&self, before: &Shell) -> bool {
        &&& self.selected() == before.selected()
        &&& self.entries().len() == before.entries().len()
        &&& forall|i: int|
            0 <= i < self.entries().len() ==> (#[trigger] self.entries()[i]).0
                == before.entries()[i].0
        &&& forall|i: int|
            0 <= i < self.entries().len() && self.selected() != Some(i) ==> (
            #[trigger] self.entries()[i]) == before.entries()[i]
    }

    /// Carries out a line.
    pub fn execute<F: Fn(String) -> Option<Float>, G: Fn(Float) -> String>(
        &mut self,
        line: &str,
        convert: &F,
        show: &G,
    ) -> (step: Step)
        requires
            old(self).inv(),
            forall|text: String| #[trigger] call_requires(*convert, (text,)),
            forall|f: Float| #[trigger] call_requires(*show, (f,)),
        ensures
            final(self).inv(),
            carried_out(line@, *old(self), *final(self), step),
            forall|conversion: Conversion, notation: Notation| #[trigger]
                converts_as(*convert, conversion) && #[trigger] shows_as(*show, notation)
                    ==> line_done(line@, *old(self), *final(self), step, conversion, notation),
    {
        match parse_command(line) {
            Command::Nothing => Step::Nothing,
            Command::Exit => Step::Exit,
            Command::Help => Step::Print(
                "Commands:
  use <name>            switch to (creating if needed) a collection
  insert <json>          insert a document, e.g. insert {\"name\": \"Alice\", \"age\": 30}
  find [json]            find documents matching a query; omit for all documents
                          e.g. find {\"age\": {\"$gt\": 25}}
  get <id>               fetch a document by its _id
  update <id> <json>     replace a document's contents (keeps its _id)
  delete <id>            remove a document by its _id
  help                   show this message
  exit | quit            leave the shell".to_owned(),
            ),
            Command::Unknown(word) => {
                let mut text = "unknown command: '".to_owned();
                text.append(word.as_str());
                text.append("' (type 'help' for a list)");
                Step::Print(text)
            },
            Command::Use(rest) => self.handle_use(rest.as_str()),
            command => match self.current {
                None => Step::Print("no collection selected — try 'use <name>' first".to_owned()),
                Some(i) => Step::Print(self.apply(i, command, convert, show)),
            },
        }
    }

    /// Selects a collection, or asks for it to be opened.
    fn handle_use(&mut self, rest: &str) -> (step: Step)
        requires
            old(self).inv(),
        ensures
            final(self).inv(),
            ({
                let name = trim(rest@);
                let i = place(old(self).entries(), name);
                if name.len() == 0 {
                    &&& step matches Step::Print(text)
                    &&& text@ == "usage: use <collection name>"@
                    &&& *final(self) == *old(self)
                } else if i < old(self).entries().len() {
                    &&& step matches Step::Print(text)
                    &&& text@ == using(name)
                    &&& final(self).entries() == old(self).entries()
                    &&& final(self).selected() == Some(i)
                } else {
                    &&& step matches Step::Open(asked)
                    &&& asked@ == name
                    &&& *final(self) == *old(self)
                }
            }),
    {
        let name = trimmed(rest);
        if name.as_str().is_empty() {
            return Step::Print("usage: use <collection name>".to_owned());
        }
        let i: usize = self.find_place(name.as_str());
        if i < self.collections.len() {
            self.current = Some(i);
            assert(self.entries() =~= old(self).entries());
            Step::Print(using_message(name.as_str()))
        } else {
            Step::Open(name)
        }
    }

    /// Carries out a command on a collection.
    fn apply<F: Fn(String) -> Option<Float>, G: Fn(Float) -> String>(
        &mut self,
        i: usize,
        command: Command,
        convert: &F,
        show: &G,
    ) -> (answer: String)
        requires
            old(self).inv(),
            old(self).selected() == Some(i as int),
            command is Insert || command is Find || command is Get || command is Update
                || command is Delete,
            forall|text: String| #[trigger] call_requires(*convert, (text,)),
            forall|f: Float| #[trigger] call_requires(*show, (f,)),
        ensures
            final(self).inv(),
            final(self).others_unchanged(old(self)),
            forall|conversion: Conversion, notation: Notation| #[trigger]
                converts_as(*convert, conversion) && #[trigger] shows_as(*show, notation) ==> done(
                    command@,
                    old(self).entries()[i as int].1,
                    final(self).entries()[i as int].1,
                    answer@,
                    conversion,
                    notation,
                ),
    {
        assert(self.entries()[i as int].1 == self.collections@[i as int].1);
        let answer = match command {
            Command::Insert(rest) => handle_insert(
                &mut self.collections[i].1,
                rest.as_str(),
                convert,
            ),
            Command::Find(rest) => handle_find(
                &self.collections[i].1,
                rest.as_str(),
                convert,
                show,
            ),
            Command::Get(rest) => handle_get(&self.collections[i].1, rest.as_str(), show),
            Command::Update(rest) => handle_update(
                &mut self.collections[i].1,
                rest.as_str(),
                convert,
            ),
            Command::Delete(rest) => handle_delete(&mut self.collections[i].1, rest.as_str()),
            _ => String::new(),
        };
        proof {
            assert forall|j: int| 0 <= j < self.entries().len() implies (
            #[trigger] self.entries()[j]).1.inv() by {
                assert(old(self).entries()[j].1.inv());
            }
        }
        answer
    }
}

/// The answer to selecting a collection.
fn using_message(name: &str) -> (text: String)
    ensures
        text@ == using(name@),
{
    let mut text = "using collection '".to_owned();
    text.append(name);
    text.append("'");
    text
}

/// The message for a collection that could not be opened.
pub fn open_failure(name: &str, reason: &str) -> (text: String)
    ensures
        text@ == "error opening collection '"@ + name@ + "': "@ + reason@,
{
    let mut text = "error opening collection '".to_owned();
    text.append(name);
    text.append("': ");
    text.append(reason);
    text
}

/// What a line asks to be done and makes of the shell, whatever it does inside
/// the selected collection.
pub open spec fn carried_out(line: Seq<char>, before: Shell, after: Shell, step: Step) -> bool {
    match command_of(line) {
        CommandView::Nothing => step is Nothing && after == before,
        CommandView::Exit => step is Exit && after == before,
        CommandView::Help => {
            &&& step matches Step::Print(text)
            &&& text@ == help()
            &&& after == before
        },
        CommandView::Unknown(word) => {
            &&& step matches Step::Print(text)
            &&& text@ == "unknown command: '"@ + word + "' (type 'help' for a list)"@
            &&& after == before
        },
        CommandView::Use(rest) => {
            let name = trim(rest);
            let i = place(before.entries(), name);
            if name.len() == 0 {
                &&& step matches Step::Print(text)
                &&& text@ == "usage: use <collection name>"@
                &&& after == before
            } else if i < before.entries().len() {
                &&& step matches Step::Print(text)
                &&& text@ == using(name)
                &&& after.entries() == before.entries()
                &&& after.selected() == Some(i)
            } else {
                &&& step matches Step::Open(asked)
                &&& asked@ == name
                &&& after == before
            }
        },
        _ => match before.selected() {
            None => {
                &&& step matches Step::Print(text)
                &&& text@ == "no collection selected — try 'use <name>' first"@
                &&& after == before
            },
            Some(_) => {
                &&& step is Print
                &&& after.others_unchanged(&before)
            },
        },
    }
}

/// The command is one for the selected collection.
pub open spec fn concerns_documents(command: CommandView) -> bool {
    command is Insert || command is Find || command is Get || command is Update
        || command is Delete
}

/// What a line asks to be done and makes of the shell.
pub open spec fn line_done(
    line: Seq<char>,
    before: Shell,
    after: Shell,
    step: Step,
    conversion: Conversion,
    notation: Notation,
) -> bool {
    &&& carried_out(line, before, after, step)
    &&& concerns_documents(command_of(line)) && before.selected() is Some ==> {
        let i = before.selected()->0;
        done(
            command_of(line),
            before.entries()[i].1,
            after.entries()[i].1,
            step->Print_0@,
            conversion,
            notation,
        )
    }
}

/// The actions that are still to be performed on the files of a collection,
/// in their order.
pub struct Pending {
    pub name: String,
    pub actions: Vec<FileAction>,
}

/// Both hold the same documents and counter, on the same pages.
pub open spec fn same_documents(before: Collection, after: Collection) -> bool {
    &&& after@ == before@
    &&& after.counter() == before.counter()
    &&& after.heap().store() == before.heap().store()
    &&& after.index().store() == before.index().store()
    &&& after.files() == before.files()
    &&& before.wf() ==> after.wf()
}

/// The collection was asked to be brought to physical storage.
pub open spec fn flushed(before: Collection, after: Collection) -> bool {
    &&& same_documents(before, after)
    &&& after.base() == before.base()
    &&& after.trail() == before.trail()
    &&& after.actions() == before.actions().push(
        FileActionView::Heap(ActionView::SyncFile),
    ).push(FileActionView::Index(ActionView::SyncFile))
}

/// The actions of the collection were handed over.
pub open spec fn handed_over(before: Collection, after: Collection, pending: Pending) -> bool {
    &&& same_documents(before, after)
    &&& file_actions_view(pending.actions@) == before.actions()
    &&& perform_steps(before.base(), before.actions()) == after.files()
    &&& after.settled()
}

impl Shell {
    /// Takes over a collection that was opened, in place of one of the same
    /// name, and selects it.
    pub fn opened(&mut self, name: &str, collection: Collection) -> (text: String)
        requires
            old(self).inv(),
            collection.inv(),
        ensures
            final(self).inv(),
            text@ == using(name@),
            ({
                let i = place(old(self).entries(), name@);
                &&& final(self).selected() == Some(i)
                &&& final(self).entries() == if i < old(self).entries().len() {
                    old(self).entries().update(i, (name@, collection))
                } else {
                    old(self).entries().push((name@, collection))
                }
            }),
    {
        let i: usize = self.find_place(name);
        if i < self.collections.len() {
            self.collections.set(i, (name.to_owned(), collection));
            assert(self.entries() =~= old(self).entries().update(i as int, (name@, collection)));
        } else {
            self.collections.push((name.to_owned(), collection));
            assert(self.entries() =~= old(self).entries().push((name@, collection)));
        }
        self.current = Some(i);
        proof {
            assert forall|j: int| 0 <= j < self.entries().len() implies (
            #[trigger] self.entries()[j]).1.inv() by {
                if j != i {
                    assert(old(self).entries()[j].1.inv());
                }
            }
        }
        using_message(name)
    }

    /// Asks for all collections to be brought to physical storage.
    pub fn flush(&mut self)
        requires
            old(self).inv(),
        ensures
            final(self).inv(),
            final(self).selected() == old(self).selected(),
            final(self).entries().len() == old(self).entries().len(),
            forall|i: int|
                0 <= i < final(self).entries().len() ==> {
                    &&& (#[trigger] final(self).entries()[i]).0 == old(self).entries()[i].0
                    &&& flushed(old(self).entries()[i].1, final(self).entries()[i].1)
                },
    {
        let count: usize = self.collections.len();
        let mut i: usize = 0;
        while i < count
            invariant
                i <= count,
                count == self.collections@.len(),
                self.inv(),
                old(self).inv(),
                self.selected() == old(self).selected(),
                self.entries().len() == old(self).entries().len(),
                forall|j: int|
                    0 <= j < i ==> {
                        &&& (#[trigger] self.entries()[j]).0 == old(self).entries()[j].0
                        &&& flushed(old(self).entries()[j].1, self.entries()[j].1)
                    },
                forall|j: int|
                    i <= j < count ==> (#[trigger] self.entries()[j]) == old(self).entries()[j],
            decreases count - i,
        {
            let ghost before = *self;
            assert(self.entries()[i as int].1 == self.collections@[i as int].1);
            self.collections[i].1.flush();
            proof {
                assert forall|j: int| 0 <= j < count implies (#[trigger] self.entries()[j]).0
                    == before.entries()[j].0 && self.entries()[j].1.inv() && (j != i
                    ==> self.entries()[j] == before.entries()[j]) by {
                    assert(before.entries()[j].1.inv());
                }
            }
            i += 1;
        }
    }

    /// Ends the session, at the end of the input or where a line asks for it:
    /// asks for all collections to be brought to physical storage. Returns what
    /// is to be printed last.
    pub fn leave(&mut self) -> (text: String)
        requires
            old(self).inv(),
        ensures
            final(self).inv(),
            text@ == "bye!"@,
            final(self).selected() == old(self).selected(),
            final(self).entries().len() == old(self).entries().len(),
            forall|i: int|
                0 <= i < final(self).entries().len() ==> {
                    &&& (#[trigger] final(self).entries()[i]).0 == old(self).entries()[i].0
                    &&& flushed(old(self).entries()[i].1, final(self).entries()[i].1)
                },
    {
        self.flush();
        "bye!".to_owned()
    }

    /// Hands over the actions of all collections.
    pub fn take_actions(&mut self) -> (pending: Vec<Pending>)
        requires
            old(self).inv(),
        ensures
            final(self).inv(),
            final(self).selected() == old(self).selected(),
            final(self).entries().len() == old(self).entries().len(),
            pending@.len() == old(self).entries().len(),
            forall|i: int|
                0 <= i < final(self).entries().len() ==> {
                    &&& (#[trigger] final(self).entries()[i]).0 == old(self).entries()[i].0
                    &&& pending@[i].name@ == old(self).entries()[i].0
                    &&& handed_over(
                        old(self).entries()[i].1,
                        final(self).entries()[i].1,
                        pending@[i],
                    )
                },
    {
        let count: usize = self.collections.len();
        let mut pending: Vec<Pending> = Vec::new();
        let mut i: usize = 0;
        while i < count
            invariant
                i <= count,
                count == self.collections@.len(),
                pending@.len() == i,
                self.inv(),
                old(self).inv(),
                self.selected() == old(self).selected(),
                self.entries().len() == old(self).entries().len(),
                forall|j: int|
                    0 <= j < i ==> {
                        &&& (#[trigger] self.entries()[j]).0 == old(self).entries()[j].0
                        &&& pending@[j].name@ == old(self).entries()[j].0
                        &&& handed_over(
                            old(self).entries()[j].1,
                            self.entries()[j].1,
                            pending@[j],
                        )
                    },
                forall|j: int|
                    i <= j < count ==> (#[trigger] self.entries()[j]) == old(self).entries()[j],
            decreases count - i,
        {
            let ghost before = *self;
            assert(self.entries()[i as int].1 == self.collections@[i as int].1);
            let name = self.collections[i].0.clone();
            let actions = self.collections[i].1.take_actions();
            pending.push(Pending { name, actions });
            proof {
                assert forall|j: int| 0 <= j < count implies (#[trigger] self.entries()[j]).0
                    == before.entries()[j].0 && self.entries()[j].1.inv() && (j != i
                    ==> self.entries()[j] == before.entries()[j]) by {
                    assert(before.entries()[j].1.inv());
                }
            }
            i += 1;
        }
        pending
    }
}

/// A document that was added is what is answered when it is asked for by the
/// identifier that it got. Its lengths must fit in 32 bits, and the
/// identifier must not be empty.
pub proof fn law_added_is_fetched(
    before: Collection,
    after: Collection,
    doc: DocumentView,
    notation: Notation,
)
    requires
        before.wf(),
        before.insert_outcome(doc) is Ok,
        inserted(before, after, doc),
        proper(ValueView::Document(doc)),
        small(ValueView::Document(document_for(doc, before.number()))),
        id_for(doc, before.number()).len() > 0,
    ensures
        get_answer(after, id_for(doc, before.number()), notation) == document_text(
            document_for(doc, before.number()),
            notation,
        ),
{
    collection::law_added_document_is_read_back(doc, before.number());
}

/// A document that was put in the place of another is what is answered when
/// it is asked for.
pub proof fn law_replaced_is_fetched(
    before: Collection,
    after: Collection,
    id: Seq<char>,
    doc: DocumentView,
    notation: Notation,
)
    requires
        before.wf(),
        before@.contains_key(id),
        before.renewed(id, doc) is Ok,
        updated(before, after, id, doc),
        proper(ValueView::Document(doc)),
        small(ValueView::Document(with_id(doc, id))),
        id.len() > 0,
    ensures
        get_answer(after, id, notation) == document_text(with_id(doc, id), notation),
{
    collection::law_new_document_is_read_back(doc, id);
}

/// A document that was removed is not found.
pub proof fn law_removed_is_not_found(
    before: Collection,
    after: Collection,
    rest: Seq<char>,
    answer: Seq<char>,
    notation: Notation,
)
    requires
        before.wf(),
        delete_done(before, after, rest, answer),
        trim(rest).len() > 0,
    ensures
        get_answer(after, trim(rest), notation) == "(not found)"@,
        delete_answer(after, trim(rest)) == "(not found)"@,
{
}

/// The text of a command stands for no document, or an argument is missing.
pub open spec fn malformed(command: CommandView, conversion: Conversion) -> bool {
    match command {
        CommandView::Insert(rest) => document_of_text(rest, conversion) is Err,
        CommandView::Find(rest) => query_of(rest, conversion) is Err,
        CommandView::Get(rest) => trim(rest).len() == 0,
        CommandView::Update(rest) => {
            let (id, text) = first_word(rest);
            id.len() == 0 || text.len() == 0 || document_of_text(text, conversion) is Err
        },
        CommandView::Delete(rest) => trim(rest).len() == 0,
        _ => false,
    }
}

/// The collection refuses a command: the identifier is unknown, or the
/// operation fails.
pub open spec fn refused(
    command: CommandView,
    before: Collection,
    conversion: Conversion,
) -> bool {
    match command {
        CommandView::Insert(rest) => document_of_text(rest, conversion) matches Ok(doc)
            && before.insert_outcome(doc) is Err,
        CommandView::Find(rest) => query_of(rest, conversion) is Ok && before.documents() is Err,
        CommandView::Get(rest) => !before@.contains_key(trim(rest)) || document_of(
            before@[trim(rest)],
        ) is Err,
        CommandView::Update(rest) => {
            let (id, text) = first_word(rest);
            document_of_text(text, conversion) matches Ok(doc) && (!before@.contains_key(id)
                || before.renewed(id, doc) is Err)
        },
        CommandView::Delete(rest) => !before@.contains_key(trim(rest)),
        _ => false,
    }
}

/// A command that fails is answered and leaves every stored document as it
/// was. One that is malformed leaves the whole collection as it was, even one
/// that is damaged.
pub proof fn law_failing_command_changes_nothing(
    command: CommandView,
    before: Collection,
    after: Collection,
    answer: Seq<char>,
    conversion: Conversion,
    notation: Notation,
)
    requires
        done(command, before, after, answer, conversion, notation),
        malformed(command, conversion) || before.wf() && refused(command, before, conversion),
    ensures
        answer.len() > 0,
        after@ == before@,
        before.wf() ==> after.wf(),
        malformed(command, conversion) ==> after == before,
{
    reveal_strlit("error: ");
    reveal_strlit("parse error: ");
    reveal_strlit("(not found)");
    reveal_strlit("usage: get <id>");
    reveal_strlit("usage: update <id> <json>");
    reveal_strlit("usage: delete <id>");
    match command {
        CommandView::Delete(rest) => {
            if trim(rest).len() > 0 {
                assert(before@.remove(trim(rest)) =~= before@);
            }
        },
        _ => {},
    }
}

/// A line fails: the command is unknown, lacks an argument or a collection, or
/// is refused.
pub open spec fn line_fails(line: Seq<char>, shell: Shell, conversion: Conversion) -> bool {
    let command = command_of(line);
    match command {
        CommandView::Nothing => false,
        CommandView::Exit => false,
        CommandView::Help => false,
        CommandView::Unknown(_) => true,
        CommandView::Use(rest) => trim(rest).len() == 0,
        _ => match shell.selected() {
            None => true,
            Some(i) => {
                let coll = shell.entries()[i].1;
                malformed(command, conversion) || coll.wf() && refused(command, coll, conversion)
            },
        },
    }
}

/// The same collections are open under the same names, the same one is
/// selected, and each stores the same documents.
pub open spec fn same_stored(before: Shell, after: Shell) -> bool {
    &&& after.selected() == before.selected()
    &&& after.entries().len() == before.entries().len()
    &&& forall|i: int|
        0 <= i < after.entries().len() ==> {
            &&& (#[trigger] after.entries()[i]).0 == before.entries()[i].0
            &&& after.entries()[i].1@ == before.entries()[i].1@
            &&& before.entries()[i].1.wf() ==> after.entries()[i].1.wf()
        }
}

/// A line that fails is answered with a message, and leaves every stored
/// document of every collection as it was.
pub proof fn law_failing_line_changes_nothing(
    line: Seq<char>,
    before: Shell,
    after: Shell,
    step: Step,
    conversion: Conversion,
    notation: Notation,
)
    requires
        before.inv(),
        line_done(line, before, after, step, conversion, notation),
        line_fails(line, before, conversion),
    ensures
        step matches Step::Print(text) && text@.len() > 0,
        same_stored(before, after),
{
    reveal_strlit("unknown command: '");
    reveal_strlit("usage: use <collection name>");
    reveal_strlit("no collection selected — try 'use <name>' first");
    if concerns_documents(command_of(line)) && before.selected() is Some {
        let i = before.selected()->0;
        law_failing_command_changes_nothing(
            command_of(line),
            before.entries()[i].1,
            after.entries()[i].1,
            step->Print_0@,
            conversion,
            notation,
        );
        assert forall|j: int| 0 <= j < after.entries().len() implies ({
            &&& (#[trigger] after.entries()[j]).0 == before.entries()[j].0
            &&& after.entries()[j].1@ == before.entries()[j].1@
            &&& before.entries()[j].1.wf() ==> after.entries()[j].1.wf()
        }) by {
            if j != i {
                assert(after.entries()[j] == before.entries()[j]);
            }
        }
    }
}

/// What becomes of the shell before the next line is read: the actions of all
/// collections are handed over, and a collection that is asked for is opened,
/// unless that fails.
pub open spec fn goes_on(before: Shell, after: Shell, step: Step) -> bool {
    match step {
        Step::Open(name) => {
            ||| after == before
            ||| {
                let n = before.entries().len();
                &&& after.selected() == Some(n as int)
                &&& after.entries().len() == n + 1
                &&& after.entries().take(n as int) == before.entries()
                &&& after.entries()[n as int].0 == name@
                &&& after.entries()[n as int].1.inv()
            }
        },
        _ => {
            &&& after.inv()
            &&& after.selected() == before.selected()
            &&& after.entries().len() == before.entries().len()
            &&& forall|i: int|
                0 <= i < after.entries().len() ==> {
                    &&& (#[trigger] after.entries()[i]).0 == before.entries()[i].0
                    &&& same_documents(before.entries()[i].1, after.entries()[i].1)
                }
        },
    }
}

/// The shells of a session: the first before any line is read, each other one
/// after one more line was carried out.
pub open spec fn session(
    lines: Seq<Seq<char>>,
    shells: Seq<Shell>,
    steps: Seq<Step>,
    conversion: Conversion,
    notation: Notation,
) -> bool {
    &&& steps.len() == lines.len()
    &&& shells.len() == lines.len() + 1
    &&& forall|i: int| 0 <= i < shells.len() ==> (#[trigger] shells[i]).inv()
    &&& forall|i: int|
        0 <= i < lines.len() ==> exists|middle: Shell|
            #![trigger goes_on(middle, shells[i + 1], steps[i])]
            line_done(lines[i], shells[i], middle, #[trigger] steps[i], conversion, notation)
                && goes_on(middle, shells[i + 1], steps[i])
}

/// In a session on any lines, every stretch of lines that fail is answered line
/// by line, and leaves every stored document of every collection as it was.
pub proof fn law_failing_lines_change_nothing(
    lines: Seq<Seq<char>>,
    shells: Seq<Shell>,
    steps: Seq<Step>,
    conversion: Conversion,
    notation: Notation,
    from: int,
    to: int,
)
    requires
        session(lines, shells, steps, conversion, notation),
        0 <= from <= to <= lines.len(),
        forall|i: int|
            from <= i < to ==> line_fails(#[trigger] lines[i], shells[i], conversion),
    ensures
        forall|i: int|
            from <= i < to ==> (#[trigger] steps[i] matches Step::Print(text) && text@.len() > 0),
        same_stored(shells[from], shells[to]),
    decreases to - from,
{
    if from < to {
        let last = to - 1;
        law_failing_lines_change_nothing(
            lines,
            shells,
            steps,
            conversion,
            notation,
            from,
            last,
        );
        let step = steps[last];
        let middle = choose|middle: Shell|
            #![trigger goes_on(middle, shells[last + 1], steps[last])]
            line_done(lines[last], shells[last], middle, steps[last], conversion, notation)
                && goes_on(middle, shells[last + 1], steps[last]);
        assert(line_fails(lines[last], shells[last], conversion));
        assert(shells[last].inv());
        law_failing_line_changes_nothing(
            lines[last],
            shells[last],
            middle,
            step,
            conversion,
            notation,
        );
        assert forall|j: int| 0 <= j < shells[to].entries().len() implies ({
            &&& (#[trigger] shells[to].entries()[j]).0 == shells[from].entries()[j].0
            &&& shells[to].entries()[j].1@ == shells[from].entries()[j].1@
            &&& shells[from].entries()[j].1.wf() ==> shells[to].entries()[j].1.wf()
        }) by {
            assert(middle.entries()[j].0 == shells[last].entries()[j].0);
            assert(shells[last].entries()[j].0 == shells[from].entries()[j].0);
        }
    }
}

/// If a command is cut short by a crash, recovery finds the documents from
/// before it or those from after it.
pub proof fn law_interrupted_command(
    command: CommandView,
    before: Collection,
    after: Collection,
    answer: Seq<char>,
    conversion: Conversion,
    notation: Notation,
    out: Images,
)
    requires
        before.wf(),
        before.settled(),
        done(command, before, after, answer, conversion, notation),
        files_may_crash_to(after.base(), after.actions(), out),
    ensures
        after.wf(),
        ({
            let files = (recovered(out.heap), recovered(out.index));
            holds(files, before@) || holds(files, after@)
        }),
{
    if after == before {
        assert(before.trail().take(before.trail().len() as int) =~= before.trail());
    }
    collection::law_interrupted_operation(before, after, out);
}

/// The answer to a query is one line for each document that matches, in their
/// order: the JSON text of the document. The lines are joined by newlines.
/// Where no document matches, the answer says so.
pub proof fn law_answer_to_a_query(
    coll: Collection,
    docs: Seq<DocumentView>,
    query: DocumentView,
    notation: Notation,
)
    requires
        coll.documents() == Ok::<Seq<DocumentView>, StorageError>(docs),
    ensures
        ({
            let found = docs.filter(|doc: DocumentView| satisfies(doc, query));
            &&& found.len() == 0 ==> find_answer(coll, query, notation) == "(no matches)"@
            &&& found.len() > 0 ==> find_answer(coll, query, notation) == joined(
                Seq::new(found.len(), |i: int| document_text(found[i], notation)),
                seq!['\n'],
            )
        }),
{
    lemma_lines_joined(docs.filter(|doc: DocumentView| satisfies(doc, query)), notation);
}

/// Several documents are written as one line each, joined by newlines.
pub proof fn lemma_lines_joined(docs: Seq<DocumentView>, notation: Notation)
    ensures
        lines_text(docs, notation) == joined(
            Seq::new(docs.len(), |i: int| document_text(docs[i], notation)),
            seq!['\n'],
        ),
    decreases docs.len(),
{
    let parts = Seq::new(docs.len(), |i: int| document_text(docs[i], notation));
    lemma_joined(parts, seq!['\n']);
    if docs.len() > 1 {
        let rest = docs.drop_first();
        lemma_lines_joined(rest, notation);
        assert(parts.drop_first() =~= Seq::new(
            rest.len(),
            |i: int| document_text(rest[i], notation),
        ));
    }
}

/// The answers of the other commands.
pub proof fn law_answers(
    before: Collection,
    id: Seq<char>,
    doc: DocumentView,
    notation: Notation,
)
    ensures
        before.insert_outcome(doc) is Ok ==> insert_answer(before, doc) == "inserted _id = "@
            + id_for(doc, before.number()),
        before.insert_outcome(doc) matches Err(error) ==> insert_answer(before, doc) == "error: "@
            + storage_error_text(error),
        !before@.contains_key(id) ==> update_answer(before, id, doc) == "(not found)"@,
        before@.contains_key(id) && before.renewed(id, doc) is Ok ==> update_answer(before, id, doc)
            == "updated"@,
        id.len() > 0 && before@.contains_key(id) ==> delete_answer(before, id) == "deleted"@,
        id.len() > 0 && !before@.contains_key(id) ==> delete_answer(before, id) == "(not found)"@,
        id.len() > 0 && !before@.contains_key(id) ==> get_answer(before, id, notation)
            == "(not found)"@,
        id.len() > 0 && before@.contains_key(id) && document_of(before@[id]) is Ok ==> get_answer(
            before,
            id,
            notation,
        ) == document_text(document_of(before@[id])->Ok_0, notation),
{
}

/// All characters are whitespace.
pub open spec fn is_blank(text: Seq<char>) -> bool {
    forall|i: int| 0 <= i < text.len() ==> is_space(#[trigger] text[i])
}

/// There is no whitespace at either end.
pub open spec fn is_tight(text: Seq<char>) -> bool {
    text.len() > 0 ==> !is_space(text[0]) && !is_space(text.last())
}

proof fn lemma_skip_blank(blank: Seq<char>, rest: Seq<char>, pos: int)
    requires
        is_blank(blank),
        0 <= pos <= blank.len(),
        rest.len() > 0 ==> !is_space(rest[0]),
    ensures
        skip_spaces(blank + rest, pos) == blank.len(),
    decreases blank.len() - pos,
{
    let all = blank + rest;
    if pos < blank.len() {
        assert(all[pos] == blank[pos]);
        lemma_skip_blank(blank, rest, pos + 1);
    } else if rest.len() > 0 {
        assert(all[pos] == rest[0]);
    }
}

proof fn lemma_trim_end(text: Seq<char>, blank: Seq<char>)
    requires
        is_blank(blank),
        text.len() > 0 ==> !is_space(text.last()),
    ensures
        trim_end(text + blank) == text,
    decreases blank.len(),
{
    let all = text + blank;
    if blank.len() > 0 {
        let less = blank.drop_last();
        assert(all.last() == blank[blank.len() - 1]);
        assert(all.drop_last() =~= text + less);
        assert forall|i: int| 0 <= i < less.len() implies is_space(#[trigger] less[i]) by {
            assert(less[i] == blank[i]);
        }
        lemma_trim_end(text, less);
    } else {
        assert(all =~= text);
    }
}

/// Trimming takes away the whitespace around a text and nothing else.
pub proof fn law_trimming(left: Seq<char>, text: Seq<char>, right: Seq<char>)
    requires
        is_blank(left),
        is_blank(right),
        is_tight(text),
    ensures
        trim(left + text + right) == text,
{
    let all = left + text + right;
    if text.len() == 0 {
        let blank = left + right;
        assert(all =~= blank + Seq::empty());
        assert forall|i: int| 0 <= i < blank.len() implies is_space(#[trigger] blank[i]) by {
            if i < left.len() {
                assert(blank[i] == left[i]);
            } else {
                assert(blank[i] == right[i - left.len()]);
            }
        }
        lemma_skip_blank(blank, Seq::empty(), 0);
        assert(trim_start(all) =~= Seq::empty());
        assert(trim(all) =~= text);
    } else {
        let rest = text + right;
        assert(rest[0] == text[0]);
        assert(all =~= left + rest);
        lemma_skip_blank(left, rest, 0);
        assert(trim_start(all) =~= rest);
        lemma_trim_end(text, right);
    }
}

proof fn lemma_word_len(word: Seq<char>, rest: Seq<char>)
    requires
        forall|i: int| 0 <= i < word.len() ==> !is_space(#[trigger] word[i]),
        rest.len() > 0 ==> is_space(rest[0]),
    ensures
        word_len(word + rest) == word.len(),
    decreases word.len(),
{
    let all = word + rest;
    if word.len() == 0 {
        assert(all =~= rest);
    } else {
        let less = word.drop_first();
        assert(all[0] == word[0]);
        assert(all.drop_first() =~= less + rest);
        assert forall|i: int| 0 <= i < less.len() implies !is_space(#[trigger] less[i]) by {
            assert(less[i] == word[i + 1]);
        }
        lemma_word_len(less, rest);
    }
}

/// A text is split behind its first word: what stands before the first
/// whitespace and what stands behind it.
pub proof fn law_first_word(
    left: Seq<char>,
    word: Seq<char>,
    gap: Seq<char>,
    rest: Seq<char>,
    right: Seq<char>,
)
    requires
        is_blank(left),
        is_blank(gap),
        is_blank(right),
        is_tight(rest),
        word.len() > 0,
        forall|i: int| 0 <= i < word.len() ==> !is_space(#[trigger] word[i]),
        rest.len() > 0 ==> gap.len() > 0,
    ensures
        first_word(left + word + gap + rest + right) == (word, rest),
{
    let all = left + word + gap + rest + right;
    let behind = gap + rest + right;
    let start = word + behind;
    assert(all =~= left + start);
    assert(start[0] == word[0]);
    lemma_skip_blank(left, start, 0);
    assert(trim_start(all) =~= start);
    assert(behind.len() > 0 ==> is_space(behind[0])) by {
        if gap.len() > 0 {
            assert(behind[0] == gap[0]);
        } else if right.len() > 0 {
            assert(behind[0] == right[0]);
        }
    }
    lemma_word_len(word, behind);
    assert(start.take(word.len() as int) =~= word);
    assert(start.skip(word.len() as int) =~= behind);
    law_trimming(gap, rest, right);
}

/// A line asks for the command that its first word names, with what follows as
/// its argument, however much whitespace stands around and between them. A
/// line of whitespace asks for nothing, and a word that names no command is
/// unknown.
pub proof fn law_commands(
    left: Seq<char>,
    word: Seq<char>,
    gap: Seq<char>,
    rest: Seq<char>,
    right: Seq<char>,
)
    requires
        is_blank(left),
        is_blank(gap),
        is_blank(right),
        is_tight(rest),
        word.len() > 0,
        forall|i: int| 0 <= i < word.len() ==> !is_space(#[trigger] word[i]),
        rest.len() > 0 ==> gap.len() > 0,
    ensures
        command_of(left) == CommandView::Nothing,
        ({
            let command = command_of(left + word + gap + rest + right);
            &&& word =~= seq!['e', 'x', 'i', 't'] ==> command == CommandView::Exit
            &&& word =~= seq!['q', 'u', 'i', 't'] ==> command == CommandView::Exit
            &&& word =~= seq!['h', 'e', 'l', 'p'] ==> command == CommandView::Help
            &&& word =~= seq!['u', 's', 'e'] ==> command == CommandView::Use(rest)
            &&& word =~= seq!['i', 'n', 's', 'e', 'r', 't'] ==> command == CommandView::Insert(rest)
            &&& word =~= seq!['f', 'i', 'n', 'd'] ==> command == CommandView::Find(rest)
            &&& word =~= seq!['g', 'e', 't'] ==> command == CommandView::Get(rest)
            &&& word =~= seq!['u', 'p', 'd', 'a', 't', 'e'] ==> command == CommandView::Update(rest)
            &&& word =~= seq!['d', 'e', 'l', 'e', 't', 'e'] ==> command == CommandView::Delete(rest)
            &&& {
                ||| word =~= seq!['e', 'x', 'i', 't']
                ||| word =~= seq!['q', 'u', 'i', 't']
                ||| word =~= seq!['h', 'e', 'l', 'p']
                ||| word =~= seq!['u', 's', 'e']
                ||| word =~= seq!['i', 'n', 's', 'e', 'r', 't']
                ||| word =~= seq!['f', 'i', 'n', 'd']
                ||| word =~= seq!['g', 'e', 't']
                ||| word =~= seq!['u', 'p', 'd', 'a', 't', 'e']
                ||| word =~= seq!['d', 'e', 'l', 'e', 't', 'e']
                ||| command == CommandView::Unknown(word)
            }
        }),
{
    let none = Seq::<char>::empty();
    let all = left + word + gap + rest + right;
    law_trimming(left, none, none);
    assert(left + none + none =~= left);
    let body = if rest.len() == 0 {
        word
    } else {
        word + gap + rest
    };
    assert(body[0] == word[0]);
    if rest.len() == 0 {
        let tail = gap + right;
        assert forall|i: int| 0 <= i < tail.len() implies is_space(#[trigger] tail[i]) by {
            if i < gap.len() {
                assert(tail[i] == gap[i]);
            } else {
                assert(tail[i] == right[i - gap.len()]);
            }
        }
        assert(body.last() == word[word.len() - 1]);
        law_trimming(left, body, tail);
        assert(all =~= left + body + tail);
        law_first_word(none, word, none, rest, none);
        assert(none + word + none + rest + none =~= body);
    } else {
        assert(body.last() == rest.last());
        law_trimming(left, body, right);
        assert(all =~= left + body + right);
        law_first_word(none, word, gap, rest, none);
        assert(none + word + gap + rest + none =~= body);
    }
    assert(trim(all) == body);
    reveal_strlit("exit");
    reveal_strlit("quit");
    reveal_strlit("help");
    reveal_strlit("use");
    reveal_strlit("insert");
    reveal_strlit("find");
    reveal_strlit("get");
    reveal_strlit("update");
    reveal_strlit("delete");
    assert("exit"@ =~= seq!['e', 'x', 'i', 't']);
    assert("quit"@ =~= seq!['q', 'u', 'i', 't']);
    assert("help"@ =~= seq!['h', 'e', 'l', 'p']);
    assert("use"@ =~= seq!['u', 's', 'e']);
    assert("insert"@ =~= seq!['i', 'n', 's', 'e', 'r', 't']);
    assert("find"@ =~= seq!['f', 'i', 'n', 'd']);
    assert("get"@ =~= seq!['g', 'e', 't']);
    assert("update"@ =~= seq!['u', 'p', 'd', 'a', 't', 'e']);
    assert("delete"@ =~= seq!['d', 'e', 'l', 'e', 't', 'e']);
    assert("exit"@[0] == 'e' && "quit"@[0] == 'q' && "help"@[0] == 'h' && "use"@[0] == 'u'
        && "insert"@[0] == 'i' && "find"@[0] == 'f' && "get"@[0] == 'g' && "update"@[0] == 'u'
        && "delete"@[0] == 'd');
    assert("use"@.len() == 3 && "update"@.len() == 6);
}

/// A name is looked up among the open collections: it is found exactly if one
/// of them bears it, and the first that does is found.
pub proof fn law_place(entries: Seq<(Seq<char>, Collection)>, name: Seq<char>)
    ensures
        0 <= place(entries, name) <= entries.len(),
        place(entries, name) < entries.len() ==> entries[place(entries, name)].0 == name,
        forall|i: int| 0 <= i < place(entries, name) ==> (#[trigger] entries[i]).0 != name,
    decreases entries.len(),
{
    if entries.len() > 0 && entries[0].0 != name {
        let rest = entries.drop_first();
        law_place(rest, name);
        assert forall|i: int| 0 <= i < place(entries, name) implies (#[trigger] entries[i]).0
            != name by {
            if i > 0 {
                assert(rest[i - 1] == entries[i]);
            }
        }
    }
}

/// A query is what its text stands for, and a blank text asks for all
/// documents.
pub proof fn law_query_of_a_text(
    left: Seq<char>,
    text: Seq<char>,
    right: Seq<char>,
    conversion: Conversion,
)
    requires
        is_blank(left),
        is_blank(right),
        is_tight(text),
    ensures
        text.len() == 0 ==> query_of(left + text + right, conversion) == Ok::<
            DocumentView,
            Seq<char>,
        >(Seq::empty()),
        text.len() > 0 ==> query_of(left + text + right, conversion) == document_of_text(
            text,
            conversion,
        ),
{
    law_trimming(left, text, right);
}

/// The answers to commands that lack an argument, and to those that fail.
pub proof fn law_answers_to_failing_commands(
    before: Collection,
    id: Seq<char>,
    doc: DocumentView,
    notation: Notation,
)
    ensures
        get_answer(before, Seq::empty(), notation) == "usage: get <id>"@,
        delete_answer(before, Seq::empty()) == "usage: delete <id>"@,
        before@.contains_key(id) ==> (before.renewed(id, doc) matches Err(error) ==> update_answer(
            before,
            id,
            doc,
        ) == "error: "@ + storage_error_text(error)),
        id.len() > 0 && before@.contains_key(id) ==> (document_of(before@[id]) matches Err(reason)
            ==> get_answer(before, id, notation) == "error: "@ + storage_error_text(
            StorageError::InvalidData(reason),
        )),
        before.documents() matches Err(error) ==> find_answer(before, doc, notation) == "error: "@
            + storage_error_text(error),
{
}

/// What the commands of a line do to the selected collection, and what they are
/// answered: the document of the text is added, replaces another or is looked
/// for, the document under the identifier is shown or removed. Nothing else
/// changes in the shell.
pub proof fn law_lines_take_effect(
    line: Seq<char>,
    before: Shell,
    after: Shell,
    step: Step,
    conversion: Conversion,
    notation: Notation,
    i: int,
    doc: DocumentView,
)
    requires
        line_done(line, before, after, step, conversion, notation),
        before.inv(),
        before.selected() == Some(i),
        before.entries()[i].1.wf(),
    ensures
        ({
            let coll = before.entries()[i].1;
            let new = after.entries()[i].1;
            let number = coll.number();
            let answer = step->Print_0@;
            &&& concerns_documents(command_of(line)) ==> {
                &&& step is Print
                &&& after.selected() == before.selected()
                &&& after.entries().len() == before.entries().len()
                &&& forall|j: int|
                    0 <= j < after.entries().len() && j != i ==> (#[trigger] after.entries()[j])
                        == before.entries()[j]
            }
            &&& command_of(line) matches CommandView::Insert(text) ==> {
                &&& document_of_text(text, conversion) == Ok::<DocumentView, Seq<char>>(doc)
                    && coll.insert_outcome(doc) is Ok ==> {
                    &&& answer == "inserted _id = "@ + id_for(doc, number)
                    &&& new@ == coll@.insert(
                        id_for(doc, number),
                        document_bytes(document_for(doc, number)),
                    )
                }
                &&& document_of_text(text, conversion) matches Err(message) ==> answer
                    == "parse error: "@ + message
            }
            &&& command_of(line) matches CommandView::Find(text) ==> {
                &&& new == coll
                &&& query_of(text, conversion) == Ok::<DocumentView, Seq<char>>(doc) ==> answer
                    == find_answer(coll, doc, notation)
                &&& query_of(text, conversion) matches Err(message) ==> answer == "parse error: "@
                    + message
            }
            &&& command_of(line) matches CommandView::Get(text) ==> {
                &&& new == coll
                &&& answer == get_answer(coll, trim(text), notation)
            }
            &&& command_of(line) matches CommandView::Update(text) ==> {
                let (id, rest) = first_word(text);
                &&& id.len() > 0 && rest.len() > 0 && document_of_text(rest, conversion) == Ok::<
                    DocumentView,
                    Seq<char>,
                >(doc) && coll@.contains_key(id) && coll.renewed(id, doc) is Ok ==> {
                    &&& answer == "updated"@
                    &&& new@ == coll@.insert(id, document_bytes(with_id(doc, id)))
                }
                &&& id.len() > 0 && rest.len() > 0 && document_of_text(rest, conversion) is Ok
                    && !coll@.contains_key(id) ==> answer == "(not found)"@ && new@ == coll@
                &&& id.len() == 0 || rest.len() == 0 ==> answer == "usage: update <id> <json>"@
                    && new == coll
                &&& id.len() > 0 && rest.len() > 0 ==> (document_of_text(
                    rest,
                    conversion,
                ) matches Err(message) ==> answer == "parse error: "@ + message && new == coll)
            }
            &&& command_of(line) matches CommandView::Delete(text) ==> {
                let id = trim(text);
                &&& id.len() > 0 && coll@.contains_key(id) ==> answer == "deleted"@
                &&& id.len() > 0 && !coll@.contains_key(id) ==> answer == "(not found)"@
                &&& id.len() == 0 ==> answer == "usage: delete <id>"@ && new == coll
                &&& id.len() > 0 ==> new@ == coll@.remove(id)
            }
        }),
{
}

/// What the other lines do: a blank line nothing, `exit` and `quit` end the
/// session, `use` selects a collection that is open or asks for it, and an
/// unknown word is answered.
pub proof fn law_other_lines(line: Seq<char>, before: Shell, after: Shell, step: Step)
    requires
        carried_out(line, before, after, step),
    ensures
        command_of(line) is Nothing ==> step is Nothing && after == before,
        command_of(line) is Exit ==> step is Exit && after == before,
        command_of(line) is Help ==> step is Print && after == before && step->Print_0@
            == "Commands:
  use <name>            switch to (creating if needed) a collection
  insert <json>          insert a document, e.g. insert {\"name\": \"Alice\", \"age\": 30}
  find [json]            find documents matching a query; omit for all documents
                          e.g. find {\"age\": {\"$gt\": 25}}
  get <id>               fetch a document by its _id
  update <id> <json>     replace a document's contents (keeps its _id)
  delete <id>            remove a document by its _id
  help                   show this message
  exit | quit            leave the shell"@,
        command_of(line) matches CommandView::Unknown(word) ==> step is Print && step->Print_0@
            == "unknown command: '"@ + word + "' (type 'help' for a list)"@ && after == before,
        concerns_documents(command_of(line)) && before.selected() is None ==> step is Print
            && after == before && step->Print_0@
            == "no collection selected — try 'use <name>' first"@,
        command_of(line) matches CommandView::Use(text) ==> {
            let name = trim(text);
            &&& name.len() == 0 ==> step is Print && step->Print_0@
                == "usage: use <collection name>"@ && after == before
            &&& name.len() > 0 && (exists|k: int|
                0 <= k < before.entries().len() && (#[trigger] before.entries()[k]).0 == name) ==> {
                &&& step is Print
                &&& step->Print_0@ == "using collection '"@ + name + "'"@
                &&& after.entries() == before.entries()
                &&& after.selected() matches Some(k) && 0 <= k < before.entries().len()
                    && before.entries()[k].0 == name
            }
            &&& name.len() > 0 && !(exists|k: int|
                0 <= k < before.entries().len() && (#[trigger] before.entries()[k]).0 == name) ==> {
                &&& step is Open
                &&& step->Open_0@ == name
                &&& after == before
            }
        },
{
    match command_of(line) {
        CommandView::Use(text) => {
            let name = trim(text);
            law_place(before.entries(), name);
            if place(before.entries(), name) < before.entries().len() {
                assert(before.entries()[place(before.entries(), name)].0 == name);
            }
        },
        _ => {},
    }
}

/// What flushing and handing over do to a collection: no document and no byte
/// of the files changes. Flushing adds a request to sync each of the two files
/// behind the actions that are there; handing over takes all actions, in their
/// order, and leaves none.
pub proof fn law_flushing_and_handing_over(
    before: Collection,
    flushed_one: Collection,
    emptied: Collection,
    pending: Pending,
    i: int,
)
    requires
        flushed(before, flushed_one),
        handed_over(before, emptied, pending),
    ensures
        flushed_one@ == before@,
        emptied@ == before@,
        flushed_one.files() == before.files(),
        emptied.files() == before.files(),
        flushed_one.counter() == before.counter(),
        emptied.counter() == before.counter(),
        flushed_one.actions() == before.actions() + seq![
            FileActionView::Heap(ActionView::SyncFile),
            FileActionView::Index(ActionView::SyncFile),
        ],
        pending.actions@.len() == before.actions().len(),
        0 <= i < before.actions().len() ==> pending.actions@[i]@ == before.actions()[i],
        emptied.actions().len() == 0,
        perform_steps(before.base(), before.actions()) == emptied.files(),
{
    assert(file_actions_view(pending.actions@).len() == pending.actions@.len());
    assert(flushed_one.actions() =~= before.actions() + seq![
        FileActionView::Heap(ActionView::SyncFile),
        FileActionView::Index(ActionView::SyncFile),
    ]);
    if 0 <= i < before.actions().len() {
        assert(file_actions_view(pending.actions@)[i] == pending.actions@[i]@);
    }
}

} // verus!
