//! Documents, views on them, and the read path from a view to lines and tokens.
//!
//! A [`State`] owns every open document and every view. Opening a path that an open document
//! already has gives a new view on that document; a document lives as long as some view
//! refers to it.
use vstd::hash_map::{HashMapWithView, StringHashMap};
use vstd::hash_set::HashSetWithView;
use vstd::prelude::*;

use crate::document::{
    concat_all, document_lines, end_states_of, lemma_start_state_prefix, lemma_start_state_suffix,
    lemma_table_covers, lemma_table_round_trip, line_table, read_lines, split_chars, start_state,
    string_views, table_bytes, table_fits, table_pieces, table_views, tables_of, tokenize_line,
    tokenize_lines,
};
use crate::encoding::{byte_len, prefix_chars};
use crate::tokenizer;

verus! {

broadcast use vstd::std_specs::hash::group_hash_axioms;

/// What a token is, as a hint for rendering.
#[derive(Clone, Copy, Debug, PartialEq, Eq, Hash, Structural)]
pub enum TokenKind {
    /// A run of whitespace. The tokenizer reads whitespace one character at a time as
    /// `Unknown`; this kind is there for indexes that classify by whitespace alone.
    Whitespace,
    /// An identifier that is not a reserved word.
    Identifier,
    /// A reserved word.
    Keyword,
    /// A block comment, or the part of one that lies on the line.
    Comment,
    /// A string, or the part of one that lies on the line.
    String,
    /// Anything else, one character at a time.
    Unknown,
}

/// One entry of a line's token table: the token's length in bytes, and its kind.
#[derive(Clone, Copy, Debug, PartialEq, Eq, Hash, Structural)]
pub struct Token {
    pub byte_count: usize,
    pub kind: TokenKind,
}

/// A handle on a view.
#[derive(Clone, Copy, Debug, PartialEq, Eq, Hash, Structural)]
pub struct ViewId(usize);

impl ViewId {
    /// The number behind the handle.
    pub closed spec fn index(self) -> usize {
        self.0
    }
}

/// A place in a document: a line, and a byte offset in it.
#[derive(Clone, Copy, Debug, Default, PartialEq, Eq, Hash, PartialOrd, Ord, Structural)]
pub struct Position {
    pub line_index: usize,
    pub byte_index: usize,
}

/// A selection, from where it was anchored to where the cursor is.
#[derive(Clone, Copy, Debug, Default, PartialEq, Eq, Hash, PartialOrd, Ord, Structural)]
pub struct Selection {
    pub anchor: Position,
    pub cursor: Position,
}

/// Whether `a` comes before `b` or is `b`, line first, then byte.
pub open spec fn position_le(a: Position, b: Position) -> bool {
    a.line_index < b.line_index || (a.line_index == b.line_index && a.byte_index <= b.byte_index)
}

fn position_le_exec(a: Position, b: Position) -> (r: bool)
    ensures
        r == position_le(a, b),
{
    a.line_index < b.line_index || (a.line_index == b.line_index && a.byte_index <= b.byte_index)
}

impl Selection {
    /// The earlier end of the selection.
    pub open spec fn start_spec(self) -> Position {
        if position_le(self.anchor, self.cursor) {
            self.anchor
        } else {
            self.cursor
        }
    }

    /// The later end of the selection.
    pub open spec fn end_spec(self) -> Position {
        if position_le(self.anchor, self.cursor) {
            self.cursor
        } else {
            self.anchor
        }
    }

    /// The earlier end of the selection.
    pub fn start(self) -> (r: Position)
        ensures
            r == self.start_spec(),
    {
        if position_le_exec(self.anchor, self.cursor) {
            self.anchor
        } else {
            self.cursor
        }
    }

    /// The later end of the selection.
    pub fn end(self) -> (r: Position)
        ensures
            r == self.end_spec(),
    {
        if position_le_exec(self.anchor, self.cursor) {
            self.cursor
        } else {
            self.anchor
        }
    }
}

/// What a document holds, as the contracts see it.
pub struct Document {
    /// The path it was read from; none for an anonymous document.
    pub path: Option<Seq<char>>,
    /// Its text, line by line.
    pub lines: Seq<Seq<char>>,
    /// The token table of each line.
    pub tables: Seq<Seq<Token>>,
    /// The views that refer to it.
    pub views: Set<usize>,
}

/// A document just read, with `view` its only view.
pub open spec fn new_document(path: Option<Seq<char>>, lines: Seq<Seq<char>>, view: usize) -> Document {
    Document { path, lines, tables: tables_of(lines), views: set![view] }
}

/// `document` with one view more.
pub open spec fn with_view(document: Document, view: usize) -> Document {
    Document { views: document.views.insert(view), ..document }
}

/// `document` with line `k` replaced by `text`, and its tables those of the new lines.
pub open spec fn edited(document: Document, k: int, text: Seq<char>) -> Document {
    Document {
        lines: document.lines.update(k, text),
        tables: tables_of(document.lines.update(k, text)),
        ..document
    }
}

/// `document` with one view less.
pub open spec fn without_view(document: Document, view: usize) -> Document {
    Document { views: document.views.remove(view), ..document }
}

struct ViewEntry {
    model_id: usize,
    selections: Vec<Selection>,
}

struct Model {
    view_ids: HashSetWithView<usize>,
    path: Option<String>,
    text: Vec<String>,
    tokens: Vec<Vec<Token>>,
    end_states: Vec<tokenizer::State>,
}

impl Model {
    spec fn document(&self) -> Document {
        Document {
            path: match self.path {
                Some(p) => Some(p@),
                None => None,
            },
            lines: string_views(self.text@),
            tables: table_views(self.tokens@),
            views: self.view_ids@,
        }
    }

    spec fn wf(&self) -> bool {
        let lines = string_views(self.text@);
        &&& self.text@.len() >= 1
        &&& self.tokens@.len() == self.text@.len()
        &&& table_views(self.tokens@) == tables_of(lines)
        &&& forall|k: int|
            0 <= k < lines.len() ==> table_fits(#[trigger] lines[k], table_views(self.tokens@)[k])
        &&& self.end_states@ == end_states_of(lines)
    }

    /// Replaces line `k` and tokenizes again what the change reaches: line `k` from the
    /// state in which the line above ends, then each line below while the state in which the
    /// line above it ends has changed.
    fn replace_line(&mut self, k: usize, text: String)
        requires
            old(self).wf(),
            k < old(self).text@.len(),
        ensures
            final(self).wf(),
            final(self).path == old(self).path,
            final(self).view_ids == old(self).view_ids,
            string_views(final(self).text@) == string_views(old(self).text@).update(k as int, text@),
    {
        let _len = self.text.len();
        let ghost before = string_views(self.text@);
        let ghost after = before.update(k as int, text@);
        let start = if k == 0 {
            tokenizer::State::Initial(tokenizer::InitialState)
        } else {
            self.end_states[k - 1]
        };
        proof {
            lemma_start_state_prefix(before, after, k as int);
            assert forall|m: int| 0 <= m < k implies #[trigger] tables_of(after)[m] == tables_of(
                before,
            )[m] by {
                lemma_start_state_prefix(before, after, m);
            }
            assert forall|m: int| 0 <= m < k implies #[trigger] end_states_of(after)[m]
                == end_states_of(before)[m] by {
                lemma_start_state_prefix(before, after, m + 1);
            }
        }
        let (table, end) = tokenize_line(start, text.as_str());
        let changed = end != self.end_states[k];
        self.text.set(k, text);
        self.tokens.set(k, table);
        self.end_states.set(k, end);
        proof {
            assert(string_views(self.text@) =~= after);
            assert(table_views(self.tokens@) =~= tables_of(after).take(k + 1) + tables_of(
                before,
            ).skip(k + 1));
            assert(self.end_states@ =~= end_states_of(after).take(k + 1) + end_states_of(
                before,
            ).skip(k + 1));
        }
        self.retokenize_below(k + 1, end, changed, Ghost(before), Ghost(after));
    }

    /// Tokenizes lines again from `j` on, for as long as a line begins in another state than
    /// it did in `before`.
    fn retokenize_below(
        &mut self,
        j: usize,
        state: tokenizer::State,
        changed: bool,
        before: Ghost<Seq<Seq<char>>>,
        after: Ghost<Seq<Seq<char>>>,
    )
        requires
            string_views(old(self).text@) == after@,
            old(self).text@.len() >= 1,
            before@.len() == after@.len(),
            0 < j <= after@.len(),
            forall|m: int| j <= m < after@.len() ==> after@[m] == before@[m],
            table_views(old(self).tokens@) == tables_of(after@).take(j as int) + tables_of(
                before@,
            ).skip(j as int),
            old(self).end_states@ == end_states_of(after@).take(j as int) + end_states_of(
                before@,
            ).skip(j as int),
            forall|m: int|
                0 <= m < after@.len() ==> table_fits(
                    #[trigger] after@[m],
                    table_views(old(self).tokens@)[m],
                ),
            state == start_state(after@, j as int),
            !changed ==> start_state(after@, j as int) == start_state(before@, j as int),
        ensures
            final(self).wf(),
            final(self).path == old(self).path,
            final(self).view_ids == old(self).view_ids,
            final(self).text == old(self).text,
    {
        let ghost before = before@;
        let ghost after = after@;
        assert(table_views(self.tokens@).len() == self.tokens@.len());
        let mut j = j;
        let mut state = state;
        let mut changed = changed;
        while changed && j < self.text.len()
            invariant
                string_views(self.text@) == after,
                self.text == old(self).text,
                self.path == old(self).path,
                self.view_ids == old(self).view_ids,
                self.text@.len() >= 1,
                self.tokens@.len() == after.len(),
                self.end_states@.len() == after.len(),
                before.len() == after.len(),
                0 < j <= after.len(),
                forall|m: int| j <= m < after.len() ==> after[m] == before[m],
                table_views(self.tokens@) == tables_of(after).take(j as int) + tables_of(
                    before,
                ).skip(j as int),
                self.end_states@ == end_states_of(after).take(j as int) + end_states_of(
                    before,
                ).skip(j as int),
                forall|m: int|
                    0 <= m < after.len() ==> table_fits(
                        #[trigger] after[m],
                        table_views(self.tokens@)[m],
                    ),
                state == start_state(after, j as int),
                !changed ==> start_state(after, j as int) == start_state(before, j as int),
            decreases after.len() - j,
        {
            proof {
                assert(self.text@[j as int]@ == after[j as int]);
                assert(self.end_states@[j as int] == start_state(before, j + 1));
            }
            let (table, next) = tokenize_line(state, self.text[j].as_str());
            changed = next != self.end_states[j];
            self.tokens.set(j, table);
            self.end_states.set(j, next);
            state = next;
            j = j + 1;
            proof {
                assert(table_views(self.tokens@) =~= tables_of(after).take(j as int) + tables_of(
                    before,
                ).skip(j as int));
                assert(self.end_states@ =~= end_states_of(after).take(j as int) + end_states_of(
                    before,
                ).skip(j as int));
            }
        }
        proof {
            if j < after.len() {
                lemma_same_below(before, after, j as int);
            }
            assert(table_views(self.tokens@) =~= tables_of(after));
            assert(self.end_states@ =~= end_states_of(after));
        }
    }
}

/// Two texts that begin line `j` in the same state and agree from there on have the same
/// tables and end states from line `j` on.
proof fn lemma_same_below(before: Seq<Seq<char>>, after: Seq<Seq<char>>, j: int)
    requires
        before.len() == after.len(),
        0 <= j <= after.len(),
        start_state(after, j) == start_state(before, j),
        forall|m: int| j <= m < after.len() ==> after[m] == before[m],
    ensures
        forall|m: int| j <= m < after.len() ==> #[trigger] tables_of(after)[m] == tables_of(before)[m],
        forall|m: int|
            j <= m < after.len() ==> #[trigger] end_states_of(after)[m] == end_states_of(before)[m],
{
    assert forall|m: int| j <= m < after.len() implies #[trigger] tables_of(after)[m] == tables_of(
        before,
    )[m] by {
        lemma_start_state_suffix(after, before, j, m);
    }
    assert forall|m: int| j <= m < after.len() implies #[trigger] end_states_of(after)[m]
        == end_states_of(before)[m] by {
        lemma_start_state_suffix(after, before, j, m + 1);
    }
}

/// Every open document and every view.
pub struct State {
    view_id: usize,
    views: HashMapWithView<usize, ViewEntry>,
    model_id: usize,
    models: HashMapWithView<usize, Model>,
    model_ids_by_path: StringHashMap<usize>,
}

impl State {
    /// The document each view refers to.
    pub closed spec fn view_documents(&self) -> Map<usize, usize> {
        self.views@.map_values(|e: ViewEntry| e.model_id)
    }

    /// The selections of each view.
    pub closed spec fn view_selections(&self) -> Map<usize, Seq<Selection>> {
        self.views@.map_values(|e: ViewEntry| e.selections@)
    }

    /// The open documents.
    pub closed spec fn documents(&self) -> Map<usize, Document> {
        self.models@.map_values(|m: Model| m.document())
    }

    /// The open document of each path.
    pub closed spec fn path_index(&self) -> Map<Seq<char>, usize> {
        self.model_ids_by_path@
    }

    /// Whether fresh numbers are left for one more view and one more document.
    pub closed spec fn has_ids_left_spec(&self) -> bool {
        self.view_id < usize::MAX && self.model_id < usize::MAX
    }

    /// Views and documents refer to each other, paths lead to the documents read from them,
    /// and every document has a view.
    pub closed spec fn wf(&self) -> bool {
        &&& forall|v: usize| #[trigger]
            self.views@.contains_key(v) ==> {
                &&& v < self.view_id
                &&& self.models@.contains_key(self.views@[v].model_id)
                &&& self.models@[self.views@[v].model_id].view_ids@.contains(v)
            }
        &&& forall|m: usize| #[trigger]
            self.models@.contains_key(m) ==> {
                &&& m < self.model_id
                &&& self.models@[m].wf()
                &&& !self.models@[m].view_ids@.is_empty()
                &&& forall|v: usize| #[trigger]
                    self.models@[m].view_ids@.contains(v) ==> self.views@.contains_key(v)
                        && self.views@[v].model_id == m
                &&& match self.models@[m].path {
                    Some(p) => self.model_ids_by_path@.contains_key(p@)
                        && self.model_ids_by_path@[p@] == m,
                    None => true,
                }
            }
        &&& forall|p: Seq<char>| #[trigger]
            self.model_ids_by_path@.contains_key(p) ==> {
                let m = self.model_ids_by_path@[p];
                &&& self.models@.contains_key(m)
                &&& self.models@[m].path is Some
                &&& self.models@[m].path.unwrap()@ == p
            }
    }

    /// A new view `v` refers to the open document `d`; nothing else changed.
    pub open spec fn joined(self, post: State, v: usize, d: usize) -> bool {
        &&& !self.view_documents().contains_key(v)
        &&& self.documents().contains_key(d)
        &&& post.view_documents() == self.view_documents().insert(v, d)
        &&& post.view_selections() == self.view_selections().insert(v, Seq::empty())
        &&& post.documents() == self.documents().insert(d, with_view(self.documents()[d], v))
        &&& post.path_index() == self.path_index()
    }

    /// A new document `d`, read as `lines` from `path`, has a new view `v`; nothing else
    /// changed.
    pub open spec fn created(
        self,
        post: State,
        v: usize,
        d: usize,
        path: Option<Seq<char>>,
        lines: Seq<Seq<char>>,
    ) -> bool {
        &&& !self.view_documents().contains_key(v)
        &&& !self.documents().contains_key(d)
        &&& post.view_documents() == self.view_documents().insert(v, d)
        &&& post.view_selections() == self.view_selections().insert(v, Seq::empty())
        &&& post.documents() == self.documents().insert(d, new_document(path, lines, v))
        &&& post.path_index() == match path {
            Some(p) => self.path_index().insert(p, d),
            None => self.path_index(),
        }
    }

    /// View `v` is gone, and with it its document `d` if `v` was the document's last view.
    pub open spec fn closed_view(self, post: State, v: usize) -> bool {
        let d = self.view_documents()[v];
        let document = self.documents()[d];
        &&& post.view_documents() == self.view_documents().remove(v)
        &&& post.view_selections() == self.view_selections().remove(v)
        &&& if document.views == set![v] {
            &&& post.documents() == self.documents().remove(d)
            &&& post.path_index() == match document.path {
                Some(p) => self.path_index().remove(p),
                None => self.path_index(),
            }
        } else {
            &&& post.documents() == self.documents().insert(d, without_view(document, v))
            &&& post.path_index() == self.path_index()
        }
    }

    /// What [`State::create_view`] makes of `self`: `post`, and the view `r` it opened, if any.
    pub open spec fn opened(self, post: State, path: Option<Seq<char>>, r: Option<usize>) -> bool {
        match path {
            None => r matches Some(v) && self.created(
                post,
                v,
                post.view_documents()[v],
                None,
                seq![Seq::<char>::empty()],
            ),
            Some(p) => if self.path_index().contains_key(p) {
                r matches Some(v) && self.joined(post, v, self.path_index()[p])
            } else {
                r is None && post == self
            },
        }
    }

    /// What [`State::create_view_with_bytes`] makes of `self`: `post`, with `v` the view it
    /// opened.
    pub open spec fn opened_with_bytes(
        self,
        post: State,
        path: Option<Seq<char>>,
        bytes: Seq<u8>,
        v: usize,
    ) -> bool {
        if path matches Some(p) && self.path_index().contains_key(p) {
            self.joined(post, v, self.path_index()[path.unwrap()])
        } else {
            self.created(post, v, post.view_documents()[v], path, document_lines(bytes))
        }
    }

    /// No view and no document.
    pub fn new() -> (r: State)
        ensures
            r.wf(),
            r.has_ids_left_spec(),
            r.view_documents().is_empty(),
            r.documents().is_empty(),
            r.path_index().is_empty(),
    {
        let r = State {
            view_id: 0,
            views: HashMapWithView::new(),
            model_id: 0,
            models: HashMapWithView::new(),
            model_ids_by_path: StringHashMap::new(),
        };
        proof {
            assert(r.views@.dom() =~= Set::empty());
            assert(r.models@.dom() =~= Set::empty());
            assert(r.model_ids_by_path@.dom() =~= Set::empty());
            assert(r.view_documents() =~= Map::empty());
            assert(r.documents() =~= Map::empty());
        }
        r
    }

    /// Whether fresh numbers are left for one more view and one more document.
    pub fn has_ids_left(&self) -> (r: bool)
        ensures
            r == self.has_ids_left_spec(),
    {
        self.view_id < usize::MAX && self.model_id < usize::MAX
    }
}


/// The view of an optional path.
pub open spec fn path_view(path: Option<String>) -> Option<Seq<char>> {
    match path {
        Some(p) => Some(p@),
        None => None,
    }
}

/// A document read from `bytes`, with no view yet.
fn create_model(path: Option<String>, bytes: &[u8]) -> (r: Model)
    ensures
        r.wf(),
        r.view_ids@.is_empty(),
        r.document().path == path_view(path),
        r.document().lines == document_lines(bytes@),
        bytes@.len() == 0 ==> r.document().lines == seq![Seq::<char>::empty()],
{
    let text = read_lines(bytes);
    let (tokens, end_states) = tokenize_lines(&text);
    let r = Model { view_ids: HashSetWithView::new(), path, text, tokens, end_states };
    proof {
        assert(r.document().path == path_view(path));
        assert(table_views(r.tokens@).len() == r.tokens@.len());
        assert(string_views(r.text@).len() == r.text@.len());
    }
    r
}

impl State {
    /// Adds `model` as a new document, with a new view on it.
    fn open_model(&mut self, model: Model) -> (r: ViewId)
        requires
            old(self).wf(),
            old(self).has_ids_left_spec(),
            model.wf(),
            model.view_ids@.is_empty(),
            model.document().path matches Some(p) ==> !old(self).path_index().contains_key(p),
        ensures
            final(self).wf(),
            old(self).created(
                *final(self),
                r.index(),
                final(self).view_documents()[r.index()],
                model.document().path,
                model.document().lines,
            ),
    {
        let ghost pre = *self;
        let view_id = self.view_id;
        self.view_id = self.view_id + 1;
        let model_id = self.model_id;
        self.model_id = self.model_id + 1;
        let mut model = model;
        let ghost before = model.document();
        model.view_ids.insert(view_id);
        match &model.path {
            Some(p) => {
                self.model_ids_by_path.insert(p.clone(), model_id);
            },
            None => {},
        }
        self.models.insert(model_id, model);
        self.views.insert(view_id, ViewEntry { model_id, selections: Vec::new() });
        proof {
            assert(model.view_ids@ =~= set![view_id]);
            assert(model.document() == new_document(before.path, before.lines, view_id));
            assert(self.view_documents() =~= pre.view_documents().insert(view_id, model_id));
            assert(self.view_selections() =~= pre.view_selections().insert(view_id, Seq::empty()));
            assert(self.documents() =~= pre.documents().insert(model_id, model.document()));
            assert(self.path_index() =~= match before.path {
                Some(p) => pre.path_index().insert(p, model_id),
                None => pre.path_index(),
            });
        }
        ViewId(view_id)
    }

    /// Adds a new view on the open document `model_id`.
    fn join_model(&mut self, model_id: usize) -> (r: ViewId)
        requires
            old(self).wf(),
            old(self).has_ids_left_spec(),
            old(self).documents().contains_key(model_id),
        ensures
            final(self).wf(),
            old(self).joined(*final(self), r.index(), model_id),
    {
        let ghost pre = *self;
        let view_id = self.view_id;
        self.view_id = self.view_id + 1;
        let mut model = self.models.remove(&model_id).unwrap();
        let ghost before = model.document();
        model.view_ids.insert(view_id);
        self.models.insert(model_id, model);
        self.views.insert(view_id, ViewEntry { model_id, selections: Vec::new() });
        proof {
            assert(model.document() == with_view(before, view_id));
            assert(self.view_documents() =~= pre.view_documents().insert(view_id, model_id));
            assert(self.view_selections() =~= pre.view_selections().insert(view_id, Seq::empty()));
            assert(self.documents() =~= pre.documents().insert(model_id, model.document()));
        }
        ViewId(view_id)
    }

    /// Opens a view without reading anything: on the open document of `path`, or on a new
    /// empty anonymous document when there is no path. Gives `None`, and changes nothing, when
    /// no open document has `path`: its text must then be read and handed to
    /// [`State::create_view_with_bytes`].
    pub fn create_view(&mut self, path: Option<&str>) -> (r: Option<ViewId>)
        requires
            old(self).wf(),
            old(self).has_ids_left_spec(),
        ensures
            final(self).wf(),
            old(self).opened(
                *final(self),
                match path {
                    Some(p) => Some(p@),
                    None => None,
                },
                match r {
                    Some(v) => Some(v.index()),
                    None => None,
                },
            ),
    {
        match path {
            Some(p) => match self.model_ids_by_path.get(p) {
                Some(model_id) => Some(self.join_model(*model_id)),
                None => None,
            },
            None => {
                let empty: Vec<u8> = Vec::new();
                let model = create_model(None, empty.as_slice());
                Some(self.open_model(model))
            },
        }
    }

    /// Opens a view on the open document of `path`, or else on a new document read from
    /// `bytes` (the contents of the file at `path`, if there is a path).
    pub fn create_view_with_bytes(&mut self, path: Option<String>, bytes: &[u8]) -> (r: ViewId)
        requires
            old(self).wf(),
            old(self).has_ids_left_spec(),
        ensures
            final(self).wf(),
            old(self).opened_with_bytes(*final(self), path_view(path), bytes@, r.index()),
    {
        match &path {
            Some(p) => match self.model_ids_by_path.get(p.as_str()) {
                Some(model_id) => {
                    return self.join_model(*model_id);
                },
                None => {},
            },
            None => {},
        }
        let model = create_model(path, bytes);
        self.open_model(model)
    }

    /// Closes a view; closes its document too when no other view refers to it.
    pub fn destroy_view(&mut self, view_id: ViewId)
        requires
            old(self).wf(),
            old(self).view_documents().contains_key(view_id.index()),
        ensures
            final(self).wf(),
            old(self).closed_view(*final(self), view_id.index()),
    {
        let ghost pre = *self;
        let entry = self.views.remove(&view_id.0).unwrap();
        let model_id = entry.model_id;
        let mut model = self.models.remove(&model_id).unwrap();
        let ghost before = model.document();
        model.view_ids.remove(&view_id.0);
        if model.view_ids.is_empty() {
            proof {
                assert(before.views =~= set![view_id.0]);
            }
            self.destroy_model(&model);
            proof {
                assert(self.view_documents() =~= pre.view_documents().remove(view_id.0));
                assert(self.view_selections() =~= pre.view_selections().remove(view_id.0));
                assert(self.documents() =~= pre.documents().remove(model_id));
            }
        } else {
            proof {
                assert(before.views != set![view_id.0]);
            }
            self.models.insert(model_id, model);
            proof {
                assert(model.document() == without_view(before, view_id.0));
                assert(self.view_documents() =~= pre.view_documents().remove(view_id.0));
                assert(self.view_selections() =~= pre.view_selections().remove(view_id.0));
                assert(self.documents() =~= pre.documents().insert(model_id, model.document()));
            }
        }
    }

    /// Forgets the path of a document that is being closed.
    fn destroy_model(&mut self, model: &Model)
        ensures
            final(self).views == old(self).views,
            final(self).models == old(self).models,
            final(self).view_id == old(self).view_id,
            final(self).model_id == old(self).model_id,
            final(self).model_ids_by_path@ == match model.path {
                Some(p) => old(self).model_ids_by_path@.remove(p@),
                None => old(self).model_ids_by_path@,
            },
    {
        match &model.path {
            Some(path) => {
                self.model_ids_by_path.remove(path.as_str());
            },
            None => {},
        }
    }
}


// ---------------------------------------------------------------------------------------------
// The read path
// ---------------------------------------------------------------------------------------------

/// How many selections at the front of `selections` start on line `line` or before it.
pub open spec fn started_count(selections: Seq<Selection>, line: int) -> int
    decreases selections.len(),
{
    if selections.len() == 0 || selections[0].start_spec().line_index > line {
        0
    } else {
        1 + started_count(selections.drop_first(), line)
    }
}

/// Where the selections for the lines after `line` begin: of those that started, only the
/// last may reach further down, and it stays if it does.
pub open spec fn kept_from(selections: Seq<Selection>, line: int) -> int {
    let end = started_count(selections, line);
    if end > 0 && selections[end - 1].end_spec().line_index > line {
        end - 1
    } else {
        end
    }
}

/// The byte range of line `line` that `selection` covers, the line taking `line_bytes` bytes.
pub open spec fn selection_range(selection: Selection, line: int, line_bytes: usize) -> std::ops::Range<usize> {
    std::ops::Range {
        start: if selection.start_spec().line_index == line {
            selection.start_spec().byte_index
        } else {
            0
        },
        end: if selection.end_spec().line_index == line {
            selection.end_spec().byte_index
        } else {
            line_bytes
        },
    }
}

proof fn lemma_started_count(selections: Seq<Selection>, line: int, end: int)
    requires
        0 <= end <= selections.len(),
        forall|j: int| 0 <= j < end ==> #[trigger] selections[j].start_spec().line_index <= line,
        end == selections.len() || selections[end].start_spec().line_index > line,
    ensures
        started_count(selections, line) == end,
    decreases end,
{
    if end > 0 {
        let rest = selections.drop_first();
        assert forall|j: int| 0 <= j < end - 1 implies #[trigger] rest[j].start_spec().line_index
            <= line by {
            assert(rest[j] == selections[j + 1]);
        }
        if end < selections.len() {
            assert(rest[end - 1] == selections[end]);
        }
        lemma_started_count(rest, line, end - 1);
    }
}

/// The text, token tables and selections of a view, borrowed for reading.
pub struct Context<'a> {
    selections: &'a [Selection],
    text: &'a [String],
    tokens: &'a [Vec<Token>],
}

impl<'a> Context<'a> {
    /// The view's selections.
    pub closed spec fn selections_view(&self) -> Seq<Selection> {
        self.selections@
    }

    /// The document's lines.
    pub closed spec fn lines_view(&self) -> Seq<Seq<char>> {
        string_views(self.text@)
    }

    /// The document's token tables.
    pub closed spec fn tables_view(&self) -> Seq<Seq<Token>> {
        table_views(self.tokens@)
    }

    /// Every line has a table, and each table fits its line.
    pub closed spec fn wf(&self) -> bool {
        &&& self.text@.len() == self.tokens@.len()
        &&& forall|k: int|
            0 <= k < self.text@.len() ==> table_fits(
                #[trigger] string_views(self.text@)[k],
                table_views(self.tokens@)[k],
            )
    }

    /// The lines of the view, from the first.
    pub fn lines(&self) -> (r: Lines<'a>)
        requires
            self.wf(),
        ensures
            r.wf(),
            r.line_index() == 0,
            r.rest_selections() == self.selections_view(),
            r.lines_view() == self.lines_view(),
            r.tables_view() == self.tables_view(),
    {
        Lines { selections: self.selections, text: self.text, tokens: self.tokens, line_index: 0 }
    }
}

/// The lines of a view, one after the other.
pub struct Lines<'a> {
    selections: &'a [Selection],
    text: &'a [String],
    tokens: &'a [Vec<Token>],
    line_index: usize,
}

impl<'a> Lines<'a> {
    /// The selections that may still cover the next line or later ones.
    pub closed spec fn rest_selections(&self) -> Seq<Selection> {
        self.selections@
    }

    /// The document's lines.
    pub closed spec fn lines_view(&self) -> Seq<Seq<char>> {
        string_views(self.text@)
    }

    /// The document's token tables.
    pub closed spec fn tables_view(&self) -> Seq<Seq<Token>> {
        table_views(self.tokens@)
    }

    /// The index of the next line.
    pub closed spec fn line_index(&self) -> int {
        self.line_index as int
    }

    /// Every line has a table, and each table fits its line.
    pub closed spec fn wf(&self) -> bool {
        &&& self.text@.len() == self.tokens@.len()
        &&& forall|k: int|
            0 <= k < self.text@.len() ==> table_fits(
                #[trigger] string_views(self.text@)[k],
                table_views(self.tokens@)[k],
            )
    }

    /// The next line, with the selections that may cover it.
    ///
    /// These are the selections that start on the line or before it and were not left
    /// behind by an earlier line. The window only moves forward: after line `L`, the
    /// selections that started on `L` or before are dropped, except the last one if it
    /// reaches past `L`.
    pub fn next(&mut self) -> (r: Option<Line<'a>>)
        requires
            old(self).wf(),
        ensures
            final(self).wf(),
            final(self).lines_view() == old(self).lines_view(),
            final(self).tables_view() == old(self).tables_view(),
            old(self).line_index() >= old(self).lines_view().len() ==> r is None && *final(self)
                == *old(self),
            old(self).line_index() < old(self).lines_view().len() ==> {
                let line = old(self).line_index();
                let selections = old(self).rest_selections();
                &&& r matches Some(l) && {
                    &&& l.wf()
                    &&& l.line_index() == line
                    &&& l.text_view() == old(self).lines_view()[line]
                    &&& l.table_view() == old(self).tables_view()[line]
                    &&& l.selections_view() == selections.take(started_count(selections, line))
                }
                &&& final(self).line_index() == line + 1
                &&& final(self).rest_selections() == selections.skip(kept_from(selections, line))
            },
    {
        if self.line_index >= self.text.len() {
            return None;
        }
        let line_index = self.line_index;
        let mut end: usize = 0;
        let mut done = false;
        while !done && end < self.selections.len()
            invariant
                end <= self.selections@.len(),
                forall|j: int|
                    0 <= j < end ==> #[trigger] self.selections@[j].start_spec().line_index
                        <= line_index,
                done ==> end < self.selections@.len() && self.selections@[end as int].start_spec().line_index > line_index,
            decreases self.selections@.len() - end + if done { 0int } else { 1int },
        {
            if self.selections[end].start().line_index > line_index {
                done = true;
            } else {
                end = end + 1;
            }
        }
        proof {
            lemma_started_count(self.selections@, line_index as int, end as int);
        }
        let start = if end > 0 && self.selections[end - 1].end().line_index > line_index {
            end - 1
        } else {
            end
        };
        let (selections, _) = self.selections.split_at(end);
        let (_, rest) = self.selections.split_at(start);
        let text = self.text[line_index].as_str();
        let tokens = self.tokens[line_index].as_slice();
        proof {
            assert(string_views(self.text@)[line_index as int] == text@);
            assert(table_views(self.tokens@)[line_index as int] == tokens@);
        }
        self.selections = rest;
        self.line_index = line_index + 1;
        Some(Line { selections, text, tokens, line_index })
    }
}

/// One line of a view: its text, its token table, and the selections that may cover it.
#[derive(Clone, Copy, Debug, PartialEq, Eq, Hash)]
pub struct Line<'a> {
    selections: &'a [Selection],
    text: &'a str,
    tokens: &'a [Token],
    line_index: usize,
}

impl<'a> Line<'a> {
    /// The selections that may cover the line.
    pub closed spec fn selections_view(&self) -> Seq<Selection> {
        self.selections@
    }

    /// The text of the line.
    pub closed spec fn text_view(&self) -> Seq<char> {
        self.text@
    }

    /// The token table of the line.
    pub closed spec fn table_view(&self) -> Seq<Token> {
        self.tokens@
    }

    /// The index of the line in its document.
    pub closed spec fn line_index(&self) -> int {
        self.line_index as int
    }

    /// The table fits the text.
    pub closed spec fn wf(&self) -> bool {
        table_fits(self.text@, self.tokens@)
    }

    /// The byte ranges of the line that its selections cover, one for each selection.
    pub fn selections(&self) -> (r: Selections<'a>)
        ensures
            r.wf(),
            r.rest() == self.selections_view(),
            r.line_index() == self.line_index(),
            r.line_bytes() == byte_len(self.text_view()) as usize,
    {
        assert(self.selections@.skip(0) =~= self.selections@);
        Selections { selections: self.selections, index: 0, text: self.text, line_index: self.line_index }
    }

    /// The tokens of the line: each one's text, cut out of the line, and its kind.
    pub fn tokens(&self) -> (r: Tokens<'a>)
        requires
            self.wf(),
        ensures
            r.wf(),
            r.rest_text() == self.text_view(),
            r.rest_table() == self.table_view(),
    {
        assert(self.tokens@.skip(0) =~= self.tokens@);
        Tokens { text: self.text, tokens: self.tokens, index: 0 }
    }
}

/// The byte ranges of a line that its selections cover.
pub struct Selections<'a> {
    selections: &'a [Selection],
    index: usize,
    text: &'a str,
    line_index: usize,
}

impl<'a> Selections<'a> {
    /// The selections not handed out yet.
    pub closed spec fn rest(&self) -> Seq<Selection> {
        self.selections@.skip(self.index as int)
    }

    /// The index of the line.
    pub closed spec fn line_index(&self) -> int {
        self.line_index as int
    }

    /// The length of the line in bytes.
    pub closed spec fn line_bytes(&self) -> usize {
        byte_len(self.text@) as usize
    }

    /// The selections not handed out yet are a part of the line's selections.
    pub closed spec fn wf(&self) -> bool {
        self.index <= self.selections@.len()
    }

    /// The range that the next selection covers on the line: from its start, or the start of
    /// the line if it began on an earlier line, to its end, or the end of the line if it
    /// goes on below.
    pub fn next(&mut self) -> (r: Option<std::ops::Range<usize>>)
        requires
            old(self).wf(),
        ensures
            final(self).wf(),
            final(self).line_index() == old(self).line_index(),
            final(self).line_bytes() == old(self).line_bytes(),
            old(self).rest().len() == 0 ==> r is None && final(self).rest() == old(self).rest(),
            old(self).rest().len() > 0 ==> r == Some(
                selection_range(old(self).rest()[0], old(self).line_index(), old(self).line_bytes()),
            ) && final(self).rest() == old(self).rest().drop_first(),
    {
        if self.index >= self.selections.len() {
            return None;
        }
        let selection = self.selections[self.index];
        assert(old(self).rest()[0] == selection);
        self.index = self.index + 1;
        let start = selection.start();
        let end = selection.end();
        let start_byte_index = if start.line_index == self.line_index {
            start.byte_index
        } else {
            0
        };
        let end_byte_index = if end.line_index == self.line_index {
            end.byte_index
        } else {
            self.text.len()
        };
        proof {
            assert(self.selections@.skip(self.index as int) =~= old(self).rest().drop_first());
        }
        Some(start_byte_index..end_byte_index)
    }
}

/// The tokens of a line, one after the other.
pub struct Tokens<'a> {
    text: &'a str,
    tokens: &'a [Token],
    index: usize,
}

impl<'a> Tokens<'a> {
    /// The text not yet handed out.
    pub closed spec fn rest_text(&self) -> Seq<char> {
        self.text@
    }

    /// The table entries not yet handed out.
    pub closed spec fn rest_table(&self) -> Seq<Token> {
        self.tokens@.skip(self.index as int)
    }

    /// The rest of the table fits the rest of the text.
    pub closed spec fn wf(&self) -> bool {
        &&& self.index <= self.tokens@.len()
        &&& table_fits(self.text@, self.tokens@.skip(self.index as int))
    }

    /// The next token: the piece of the line that its byte count cuts out, and its kind.
    pub fn next(&mut self) -> (r: Option<TokenRef<'a>>)
        requires
            old(self).wf(),
        ensures
            final(self).wf(),
            (old(self).rest_table().len() == 0) == (old(self).rest_text().len() == 0),
            old(self).rest_table().len() == 0 ==> r is None && final(self).rest_text() == old(
                self,
            ).rest_text() && final(self).rest_table() == old(self).rest_table(),
            old(self).rest_table().len() > 0 ==> {
                let pieces = table_pieces(old(self).rest_text(), old(self).rest_table());
                let k = prefix_chars(
                    old(self).rest_text(),
                    old(self).rest_table()[0].byte_count as int,
                );
                &&& r matches Some(t) && t.text@ == pieces[0] && t.kind == old(
                    self,
                ).rest_table()[0].kind
                &&& final(self).rest_text() == old(self).rest_text().skip(k)
                &&& final(self).rest_table() == old(self).rest_table().drop_first()
            },
    {
        if self.index >= self.tokens.len() {
            return None;
        }
        let token = self.tokens[self.index];
        let ghost rest = self.tokens@.skip(self.index as int);
        let ghost k = prefix_chars(self.text@, token.byte_count as int);
        let ghost text0 = self.text@;
        proof {
            assert(rest[0] == token);
            assert(table_pieces(text0, rest)[0] == text0.take(k));
        }
        let (head, tail) = split_chars(self.text, Ghost(k), token.byte_count);
        self.text = tail;
        self.index = self.index + 1;
        proof {
            assert(self.tokens@.skip(self.index as int) =~= rest.drop_first());
        }
        Some(TokenRef { text: head, kind: token.kind })
    }
}

/// A token of a line: its text, and its kind.
#[derive(Clone, Copy, Debug, PartialEq, Eq, Hash)]
pub struct TokenRef<'a> {
    pub text: &'a str,
    pub kind: TokenKind,
}

/// Whether `selections` are in the order of where they start.
pub open spec fn sorted_by_start(selections: Seq<Selection>) -> bool {
    forall|i: int, j: int|
        0 <= i < j < selections.len() ==> position_le(
            #[trigger] selections[i].start_spec(),
            #[trigger] selections[j].start_spec(),
        )
}

/// Sorts `selections` by where they start; those that start at the same place keep their
/// order.
fn sort_by_start(selections: Vec<Selection>) -> (r: Vec<Selection>)
    ensures
        sorted_by_start(r@),
        r@.to_multiset() == selections@.to_multiset(),
{
    let mut sorted: Vec<Selection> = Vec::new();
    let mut i: usize = 0;
    proof {
        assert(selections@.take(0) =~= Seq::<Selection>::empty());
        assert(sorted@ =~= Seq::<Selection>::empty());
    }
    while i < selections.len()
        invariant
            i <= selections@.len(),
            sorted_by_start(sorted@),
            sorted@.to_multiset() == selections@.take(i as int).to_multiset(),
        decreases selections@.len() - i,
    {
        let selection = selections[i];
        let start = selection.start();
        let mut p: usize = sorted.len();
        while p > 0 && !position_le_exec(sorted[p - 1].start(), start)
            invariant
                p <= sorted@.len(),
                forall|j: int|
                    p <= j < sorted@.len() ==> !position_le(#[trigger] sorted@[j].start_spec(), start),
            decreases p,
        {
            p = p - 1;
        }
        let ghost old_sorted = sorted@;
        sorted.insert(p, selection);
        proof {
            assert(sorted@ == old_sorted.insert(p as int, selection));
            vstd::seq_lib::to_multiset_insert(old_sorted, p as int, selection);
            assert(selections@.take(i + 1) =~= selections@.take(i as int).push(selection));
            vstd::seq_lib::to_multiset_build(selections@.take(i as int), selection);
            assert forall|a: int, b: int| 0 <= a < b < sorted@.len() implies position_le(
                #[trigger] sorted@[a].start_spec(),
                #[trigger] sorted@[b].start_spec(),
            ) by {
                if a < p && b < p {
                    assert(sorted@[a] == old_sorted[a] && sorted@[b] == old_sorted[b]);
                } else if a < p && b == p {
                    assert(sorted@[a] == old_sorted[a]);
                    if a < p - 1 {
                        assert(position_le(old_sorted[a].start_spec(), old_sorted[p - 1].start_spec()));
                    }
                } else if a < p {
                    assert(sorted@[a] == old_sorted[a] && sorted@[b] == old_sorted[b - 1]);
                } else if a == p {
                    assert(sorted@[b] == old_sorted[b - 1]);
                    assert(!position_le(old_sorted[b - 1].start_spec(), start));
                } else {
                    assert(sorted@[a] == old_sorted[a - 1] && sorted@[b] == old_sorted[b - 1]);
                }
            }
        }
        i = i + 1;
    }
    proof {
        assert(selections@.take(selections@.len() as int) =~= selections@);
    }
    sorted
}

impl State {
    /// Sets the selections of view `view_id`, kept in the order of where they start.
    pub fn set_selections(&mut self, view_id: ViewId, selections: Vec<Selection>)
        requires
            old(self).wf(),
            old(self).view_documents().contains_key(view_id.index()),
        ensures
            final(self).wf(),
            final(self).view_documents() == old(self).view_documents(),
            final(self).documents() == old(self).documents(),
            final(self).path_index() == old(self).path_index(),
            final(self).view_selections() == old(self).view_selections().insert(
                view_id.index(),
                final(self).view_selections()[view_id.index()],
            ),
            sorted_by_start(final(self).view_selections()[view_id.index()]),
            final(self).view_selections()[view_id.index()].to_multiset()
                == selections@.to_multiset(),
    {
        let ghost pre = *self;
        let sorted = sort_by_start(selections);
        let mut entry = self.views.remove(&view_id.0).unwrap();
        entry.selections = sorted;
        self.views.insert(view_id.0, entry);
        proof {
            assert(self.view_documents() =~= pre.view_documents());
            assert(self.view_selections() =~= pre.view_selections().insert(view_id.0, sorted@));
            assert(self.documents() =~= pre.documents());
        }
    }

    /// Replaces line `line_index` of the document that view `view_id` shows with `text`.
    ///
    /// The line is tokenized again from the state in which the line above ends; the lines
    /// below are tokenized again, one after the other, until one ends in the same state as
    /// before the change. The tables are then those of the whole new text tokenized afresh.
    pub fn set_line(&mut self, view_id: ViewId, line_index: usize, text: String)
        requires
            old(self).wf(),
            old(self).view_documents().contains_key(view_id.index()),
            line_index < old(self).documents()[old(self).view_documents()[view_id.index()]].lines.len(),
        ensures
            final(self).wf(),
            final(self).view_documents() == old(self).view_documents(),
            final(self).view_selections() == old(self).view_selections(),
            final(self).path_index() == old(self).path_index(),
            ({
                let d = old(self).view_documents()[view_id.index()];
                final(self).documents() == old(self).documents().insert(
                    d,
                    edited(old(self).documents()[d], line_index as int, text@),
                )
            }),
    {
        let ghost pre = *self;
        let model_id = self.views.get(&view_id.0).unwrap().model_id;
        let mut model = self.models.remove(&model_id).unwrap();
        let ghost before = model.document();
        let ghost new_text = text@;
        model.replace_line(line_index, text);
        self.models.insert(model_id, model);
        proof {
            assert(model.document() == edited(before, line_index as int, new_text));
            assert(self.documents() =~= pre.documents().insert(model_id, model.document()));
            assert(self.view_documents() =~= pre.view_documents());
            assert(self.view_selections() =~= pre.view_selections());
        }
    }

    /// The text, token tables and selections of a view, for reading.
    pub fn context(&self, view_id: ViewId) -> (r: Context<'_>)
        requires
            self.wf(),
            self.view_documents().contains_key(view_id.index()),
        ensures
            r.wf(),
            r.selections_view() == self.view_selections()[view_id.index()],
            r.lines_view() == self.documents()[self.view_documents()[view_id.index()]].lines,
            r.tables_view() == self.documents()[self.view_documents()[view_id.index()]].tables,
    {
        let view = self.views.get(&view_id.0).unwrap();
        let model = self.models.get(&view.model_id).unwrap();
        Context {
            selections: view.selections.as_slice(),
            text: model.text.as_slice(),
            tokens: model.tokens.as_slice(),
        }
    }
}


// ---------------------------------------------------------------------------------------------
// Laws of the registry
// ---------------------------------------------------------------------------------------------

/// Two views opened on one path share one document: the first reads the path's text, the
/// second finds the document open.
pub proof fn lemma_same_path_same_document(
    s0: State,
    s1: State,
    s2: State,
    path: Seq<char>,
    bytes: Seq<u8>,
    v1: usize,
    r2: Option<usize>,
)
    requires
        s0.wf(),
        s1.wf(),
        s0.opened_with_bytes(s1, Some(path), bytes, v1),
        s1.opened(s2, Some(path), r2),
    ensures
        r2 matches Some(v2) && s2.view_documents()[v1] == s2.view_documents()[v2],
        s2.documents().contains_key(s2.view_documents()[v1]),
{
    assert(s1.path_index().contains_key(path));
    assert(s1.view_documents()[v1] == s1.path_index()[path]);
}

/// Closing a view keeps its document open while another view still refers to it.
pub proof fn lemma_close_shared_view(s0: State, s1: State, v: usize, w: usize)
    requires
        s0.wf(),
        s0.view_documents().contains_key(v),
        s0.view_documents().contains_key(w),
        w != v,
        s0.view_documents()[w] == s0.view_documents()[v],
        s0.closed_view(s1, v),
    ensures
        s1.documents().contains_key(s0.view_documents()[v]),
        s1.documents()[s0.view_documents()[v]].views.contains(w),
        s1.path_index() == s0.path_index(),
{
    let d = s0.view_documents()[v];
    assert(s0.documents()[d].views.contains(w));
    assert(s0.documents()[d].views != set![v]);
}

/// Closing the last view of a document closes the document and forgets its path, so that
/// the next view on that path has to read it again.
pub proof fn lemma_close_last_view(s0: State, s1: State, s2: State, v: usize, r: Option<usize>)
    requires
        s0.wf(),
        s0.view_documents().contains_key(v),
        forall|w: usize|
            #[trigger] s0.view_documents().contains_key(w) && w != v ==> s0.view_documents()[w]
                != s0.view_documents()[v],
        s0.closed_view(s1, v),
        s0.documents()[s0.view_documents()[v]].path is Some,
        s1.opened(s2, s0.documents()[s0.view_documents()[v]].path, r),
    ensures
        !s1.documents().contains_key(s0.view_documents()[v]),
        !s1.path_index().contains_key(s0.documents()[s0.view_documents()[v]].path.unwrap()),
        r is None,
{
    let d = s0.view_documents()[v];
    let p = s0.documents()[d].path.unwrap();
    assert(s0.documents()[d].views =~= set![v]) by {
        assert forall|w: usize| #[trigger] s0.documents()[d].views.contains(w) implies w == v by {
            assert(s0.view_documents().contains_key(w));
        }
    }
}


/// Every line of an open document has a table that fits it: its byte counts add up to the
/// line's byte length, the pieces they cut out give back the line, and the table is the one
/// the tokenizer makes of the line from the state in which the line above ended.
pub proof fn lemma_document_tables(s: State, d: usize, k: int)
    requires
        s.wf(),
        s.documents().contains_key(d),
        0 <= k < s.documents()[d].lines.len(),
    ensures
        s.documents()[d].tables.len() == s.documents()[d].lines.len(),
        table_bytes(s.documents()[d].tables[k]) == byte_len(s.documents()[d].lines[k]),
        concat_all(table_pieces(s.documents()[d].lines[k], s.documents()[d].tables[k]))
            == s.documents()[d].lines[k],
        s.documents()[d].tables[k] == line_table(
            start_state(s.documents()[d].lines, k),
            s.documents()[d].lines[k],
        ),
{
    let document = s.documents()[d];
    assert(table_fits(document.lines[k], document.tables[k]));
    lemma_table_covers(document.lines[k], document.tables[k]);
    lemma_table_round_trip(document.lines[k], document.tables[k]);
}

} // verus!
