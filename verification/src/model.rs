//! The store of open documents.
//!
//! Each open document is kept as one atomic triple: its text buffer, its
//! parsed tree, and its inferred bindings. An edit replaces the whole
//! triple, so a reader never sees a stale buffer next to a fresh tree.
//! The map of documents is a concurrently readable hash map; its calls
//! stand behind trusted wrappers.

use crate::ast::{
    spec_add_bindings, stmt_errors, stmt_node_v_wf, stmt_node_view, stmt_view, Statement, StmtNodeV,
};
use crate::node::{
    lemma_at_pos_stmt_wf, pos_wf, span_wf, spec_at_pos_stmt, Node, Position, Span,
};
use crate::parser::parse;
use crate::text::{
    spec_apply_changes, spec_new_version, text_wf, ContentChange, DocPosition, DocRange,
    TextDocument, TextDocumentMutationError,
};
use crate::typesystem::{
    Bindings, CallableType, SimpleType, Type, TypeV,
};
use vstd::prelude::*;

verus! {

/// A failure of a store operation.
#[derive(Debug)]
pub enum ModelError {
    TextDocumentError(TextDocumentMutationError),
    UnknownDocument(String),
}

/// One diagnostic, as published to the editor: a 0-based range, a
/// severity, a source tag, and a message.
#[derive(Debug, Clone)]
pub struct Diagnostic {
    pub range: DocRange,
    pub severity: DiagnosticSeverity,
    pub source: String,
    pub message: String,
}

/// The severity of a published diagnostic.
#[derive(Copy, Clone, Debug, PartialEq, Eq, Structural)]
pub enum DiagnosticSeverity {
    Error,
}

/// The published snapshot of one open document: buffer, tree, bindings.
#[derive(Debug)]
pub struct DocumentData {
    pub doc: TextDocument,
    pub ast: Node<Statement>,
    pub bindings: Bindings,
}

/// The mathematical value of a document snapshot.
#[verifier::ext_equal]
pub struct DocDataV {
    pub uri: Seq<char>,
    pub language_id: Seq<char>,
    pub version: u64,
    pub content: Seq<char>,
    pub line_offsets: Seq<usize>,
    pub ast: StmtNodeV,
    pub bindings: Map<Seq<char>, TypeV>,
}

/// The value of a document snapshot.
pub open spec fn doc_data_view(d: DocumentData) -> DocDataV {
    DocDataV {
        uri: d.doc.uri@,
        language_id: d.doc.language_id@,
        version: d.doc.version,
        content: d.doc.content@,
        line_offsets: d.doc.line_offsets@,
        ast: stmt_node_view(d.ast),
        bindings: d.bindings@,
    }
}

/// A well-formed snapshot: the buffer's line index matches its text, the
/// tree is well formed, and the bindings bind each name once.
pub open spec fn doc_data_wf(d: DocumentData) -> bool {
    text_wf(d.doc) && stmt_node_v_wf(stmt_node_view(d.ast)) && d.bindings.wf()
}

impl Clone for DocumentData {
    /// A copy with the same snapshot value; well-formedness carries over.
    fn clone(&self) -> (r: Self)
        ensures
            doc_data_view(r) == doc_data_view(*self),
            doc_data_wf(*self) ==> doc_data_wf(r),
    {
        let r = DocumentData {
            doc: self.doc.clone(),
            ast: self.ast.clone(),
            bindings: self.bindings.clone(),
        };
        proof {
            assert(doc_data_view(r) =~= doc_data_view(*self));
        }
        r
    }
}

/// The concurrently readable map from document identity to its snapshot.
///
/// The map itself comes from an outside concurrent hash map; Verus sees
/// it only through this struct and the trusted wrappers below.
#[verifier::external_body]
pub struct DocumentMap {
    inner: flurry::HashMap<String, DocumentData>,
}

/// What the map holds: each open document's snapshot value, by identity.
pub uninterp spec fn doc_map_view(m: DocumentMap) -> Map<Seq<char>, DocDataV>;

/// Whether every snapshot the map holds was well formed when stored, so
/// that a handed-out copy is well formed too.
pub uninterp spec fn doc_map_all_wf(m: DocumentMap) -> bool;

impl View for DocumentMap {
    type V = Map<Seq<char>, DocDataV>;

    open spec fn view(&self) -> Map<Seq<char>, DocDataV> {
        doc_map_view(*self)
    }
}

/// A store value with no documents.
pub open spec fn empty_doc_map() -> Map<Seq<char>, DocDataV> {
    Map::empty()
}

/// Relies on `flurry::HashMap::with_capacity`: a freshly created map is
/// empty, whatever room it reserves.
#[verifier::external_body]
fn doc_map_with_capacity(capacity: usize) -> (r: DocumentMap)
    ensures
        r@ == empty_doc_map() && doc_map_all_wf(r),
{
    DocumentMap { inner: flurry::HashMap::with_capacity(capacity) }
}

/// Relies on `flurry::HashMap::insert` (through a pinned reference): the
/// map afterwards holds the given value under the key, other keys are
/// untouched.
#[verifier::external_body]
fn doc_map_insert(m: &mut DocumentMap, key: String, value: DocumentData)
    ensures
        doc_map_view(*final(m)) == doc_map_view(*old(m)).insert(key@, doc_data_view(value)),
        doc_map_all_wf(*final(m)) == (doc_map_all_wf(*old(m)) && doc_data_wf(value)),
{
    m.inner.pin().insert(key, value);
}

/// Relies on `flurry::HashMap::get` (under a guard): the value stored
/// under the key, if any, handed out as a clone; the crate's own clone
/// keeps the snapshot's value and its well-formedness.
#[verifier::external_body]
fn doc_map_get(m: &DocumentMap, key: &String) -> (r: Option<DocumentData>)
    ensures
        match r {
            Some(d) => doc_map_view(*m).contains_key(key@) && doc_data_view(d) == doc_map_view(
                *m,
            )[key@] && (doc_map_all_wf(*m) ==> doc_data_wf(d)),
            None => !doc_map_view(*m).contains_key(key@),
        },
{
    let guard = m.inner.guard();
    match m.inner.get(key, &guard) {
        Some(d) => Some(d.clone()),
        None => None,
    }
}

/// Relies on `flurry::HashMap::keys` (under a guard): every key the map
/// holds, each exactly once, in arbitrary order.
#[verifier::external_body]
fn doc_map_keys(m: &DocumentMap) -> (r: Vec<String>)
    ensures
        forall|i: int, j: int| 0 <= i < j < r@.len() ==> (#[trigger] r@[i])@ != (#[trigger] r@[j])@,
        forall|i: int| 0 <= i < r@.len() ==> doc_map_view(*m).contains_key((#[trigger] r@[i])@),
        forall|k: Seq<char>|
            doc_map_view(*m).contains_key(k) ==> exists|i: int|
                0 <= i < r@.len() && (#[trigger] r@[i])@ == k,
{
    let guard = m.inner.guard();
    let mut out: Vec<String> = Vec::new();
    for k in m.inner.keys(&guard) {
        out.push(k.clone());
    }
    out
}

/// The callable type of the prelude's trigonometric functions: a double
/// matrix to a double matrix.
pub open spec fn trig_type_v() -> TypeV {
    TypeV::Callable {
        args: seq![TypeV::Matrix { size: None, ty: SimpleType::Double }],
        ret: Box::new(TypeV::Matrix { size: None, ty: SimpleType::Double }),
    }
}

/// The callable type of the prelude's `sound` procedure: a double matrix
/// and a 1-by-1 double matrix, to nothing.
pub open spec fn sound_type_v() -> TypeV {
    TypeV::Callable {
        args: seq![
            TypeV::Matrix { size: None, ty: SimpleType::Double },
            TypeV::Matrix { size: Some((1usize, 1usize)), ty: SimpleType::Double },
        ],
        ret: Box::new(TypeV::SimpleType(SimpleType::Void)),
    }
}

/// The prelude: the built-in callables available without declaration.
pub open spec fn spec_prelude() -> Map<Seq<char>, TypeV> {
    Map::<Seq<char>, TypeV>::empty().insert("sin"@, trig_type_v()).insert(
        "cos"@,
        trig_type_v(),
    ).insert("tan"@, trig_type_v()).insert("sound"@, sound_type_v())
}

/// Builds the prelude bindings: `sin`, `cos` and `tan` as matrix-to-
/// matrix callables, and `sound` as a procedure.
pub fn get_prelude() -> (r: Bindings)
    ensures
        r.wf(),
        r@ == spec_prelude(),
{
    let mut args: Vec<Type> = Vec::new();
    args.push(Type::Matrix { size: None, ty: SimpleType::Double });
    let trig = Type::Callable(
        CallableType {
            args_types: args,
            return_type: Box::new(Type::Matrix { size: None, ty: SimpleType::Double }),
        },
    );
    proof {
        crate::typesystem::lemma_types_view_index(trig->Callable_0.args_types@);
        assert(crate::typesystem::types_view(trig->Callable_0.args_types@) =~= seq![
            TypeV::Matrix { size: None, ty: SimpleType::Double },
        ]);
        assert(trig@ =~= trig_type_v());
    }
    let mut args2: Vec<Type> = Vec::new();
    args2.push(Type::Matrix { size: None, ty: SimpleType::Double });
    args2.push(Type::Matrix { size: Some((1, 1)), ty: SimpleType::Double });
    let sound = Type::Callable(
        CallableType {
            args_types: args2,
            return_type: Box::new(Type::SimpleType(SimpleType::Void)),
        },
    );
    proof {
        let sargs = sound->Callable_0.args_types@;
        assert(sargs.len() == 2);
        assert(sargs[0] == Type::Matrix { size: None, ty: SimpleType::Double });
        assert(sargs[1] == Type::Matrix {
            size: Some((1usize, 1usize)),
            ty: SimpleType::Double,
        });
        crate::typesystem::lemma_types_view_index(sargs);
        assert(crate::typesystem::types_view(sargs) =~= seq![
            TypeV::Matrix { size: None, ty: SimpleType::Double },
            TypeV::Matrix { size: Some((1usize, 1usize)), ty: SimpleType::Double },
        ]);
        assert(*sound->Callable_0.return_type == Type::SimpleType(SimpleType::Void));
        assert(crate::typesystem::type_view(*sound->Callable_0.return_type)
            == TypeV::SimpleType(SimpleType::Void));
        assert(sound@ =~~= sound_type_v());
    }
    let mut b = Bindings::new();
    let trig2 = crate::typesystem::clone_type(&trig);
    let trig3 = crate::typesystem::clone_type(&trig);
    b.insert(String::from_str("sin"), trig);
    b.insert(String::from_str("cos"), trig2);
    b.insert(String::from_str("tan"), trig3);
    b.insert(String::from_str("sound"), sound);
    b
}

/// The bindings of a parsed tree: the prelude, extended by each
/// assignment in document order.
pub fn get_bindings(ast: &Node<Statement>) -> (r: Bindings)
    requires
        stmt_v_wf_of(ast),
    ensures
        r.wf(),
        r@ == spec_add_bindings(stmt_view(ast.data), spec_prelude()),
{
    let mut b = get_prelude();
    ast.data.add_bindings(&mut b);
    b
}

/// The tree below a node is well formed.
pub open spec fn stmt_v_wf_of(ast: &Node<Statement>) -> bool {
    crate::ast::stmt_v_wf(stmt_view(ast.data))
}

/// The 0-based protocol position for an internal 1-based position.
pub fn parser_pos_to_lsp_pos(pos: Position) -> (r: DocPosition)
    requires
        pos_wf(pos),
    ensures
        r.line as int == pos.line - 1,
        r.character as int == pos.col - 1,
{
    DocPosition { line: (pos.line - 1) as u64, character: (pos.col - 1) as u64 }
}

/// The 0-based protocol range for an internal span.
pub fn parser_range_to_lsp_range(range: Span) -> (r: DocRange)
    requires
        span_wf(range),
    ensures
        r.start.line as int == range.start.line - 1,
        r.start.character as int == range.start.col - 1,
        r.end.line as int == range.end.line - 1,
        r.end.character as int == range.end.col - 1,
{
    DocRange {
        start: parser_pos_to_lsp_pos(range.start),
        end: parser_pos_to_lsp_pos(range.end),
    }
}

/// The pair names a binding of some open document, with its type.
pub open spec fn pair_from_store(m: Map<Seq<char>, DocDataV>, p: (String, Type)) -> bool {
    exists|k: Seq<char>|
        #[trigger] m.contains_key(k) && m[k].bindings.contains_key(p.0@) && m[k].bindings[p.0@]
            == p.1@
}

/// The list carries this name with this type.
pub open spec fn name_listed(rs: Seq<(String, Type)>, name: Seq<char>, t: TypeV) -> bool {
    exists|i: int| 0 <= i < rs.len() && (#[trigger] rs[i]).0@ == name && rs[i].1@ == t
}

/// The store: a concurrently readable map from document identity to the
/// document's published snapshot.
pub struct Model {
    documents: DocumentMap,
}

impl View for Model {
    type V = Map<Seq<char>, DocDataV>;

    closed spec fn view(&self) -> Map<Seq<char>, DocDataV> {
        doc_map_view(self.documents)
    }
}

impl Default for Model {
    /// An empty store.
    fn default() -> (r: Self)
        ensures
            r@ == Map::<Seq<char>, DocDataV>::empty(),
            r.wf(),
    {
        Model { documents: doc_map_with_capacity(0) }
    }
}

impl Model {
    /// Every stored snapshot is well formed.
    pub closed spec fn wf(&self) -> bool {
        doc_map_all_wf(self.documents)
    }

    /// The current snapshot of a document, if it is open.
    pub fn document(&self, uri: &String) -> (r: Option<DocumentData>)
        requires
            self.wf(),
        ensures
            match r {
                Some(d) => self@.contains_key(uri@) && doc_data_view(d) == self@[uri@]
                    && doc_data_wf(d),
                None => !self@.contains_key(uri@),
            },
    {
        doc_map_get(&self.documents, uri)
    }

    /// Opens (or replaces) a document: parses the text, derives the
    /// bindings, and publishes the snapshot at version 0.
    pub fn set_document(&mut self, uri: String, text: String)
        requires
            old(self).wf(),
        ensures
            final(self).wf(),
            final(self)@.contains_key(uri@),
            ({
                let v = final(self)@[uri@];
                &&& final(self)@ == old(self)@.insert(uri@, v)
                &&& v.uri == uri@
                &&& v.language_id == "octave"@
                &&& v.version == 0
                &&& v.content == text@
                &&& stmt_node_v_wf(v.ast)
                &&& v.ast == crate::parser::spec_parse(text@)
                &&& v.ast.stmt is Block
                &&& v.bindings == spec_add_bindings(v.ast.stmt, spec_prelude())
            }),
    {
        let ast = parse(text.as_str());
        let bindings = get_bindings(&ast);
        let doc = TextDocument::new(uri.clone(), "octave", 0, text);
        let data = DocumentData { doc, ast, bindings };
        doc_map_insert(&mut self.documents, uri, data);
    }

    /// Applies an ordered batch of changes to an open document: the
    /// buffer is updated, the text reparsed, the bindings rederived, and
    /// the new snapshot published atomically. An unknown identity is
    /// reported and nothing changes.
    pub fn apply_edits(
        &mut self,
        uri: &String,
        changes: Vec<ContentChange>,
        version: Option<i64>,
    ) -> (r: Result<(), ModelError>)
        requires
            old(self).wf(),
        ensures
            final(self).wf(),
            (r is Err) == !old(self)@.contains_key(uri@),
            r is Err ==> r->Err_0 is UnknownDocument && r->Err_0->UnknownDocument_0@ == uri@
                && final(self)@ == old(self)@,
            r is Ok ==> final(self)@.contains_key(uri@) && ({
                let before = old(self)@[uri@];
                let v = final(self)@[uri@];
                &&& final(self)@ == old(self)@.insert(uri@, v)
                &&& v.uri == before.uri
                &&& v.language_id == before.language_id
                &&& v.content == spec_apply_changes(before.content, changes@)
                &&& v.version == spec_new_version(version)
                &&& stmt_node_v_wf(v.ast)
                &&& v.ast == crate::parser::spec_parse(v.content)
                &&& v.ast.stmt is Block
                &&& v.bindings == spec_add_bindings(v.ast.stmt, spec_prelude())
            }),
    {
        match doc_map_get(&self.documents, uri) {
            None => Err(ModelError::UnknownDocument(uri.clone())),
            Some(data) => {
                let DocumentData { doc, ast: _, bindings: _ } = data;
                let mut doc = doc;
                doc.update(changes, version);
                let text = doc.text();
                let ast = parse(text.as_str());
                let bindings = get_bindings(&ast);
                let new_data = DocumentData { doc, ast, bindings };
                doc_map_insert(&mut self.documents, uri.clone(), new_data);
                Ok(())
            },
        }
    }

    /// The diagnostics of a document: one per error leaf in its tree,
    /// each with the leaf's range made 0-based, severity `Error`, source
    /// tag `Octave`, and the leaf's message. An unknown identity yields
    /// none.
    pub fn get_diagnostics(&self, uri: &String) -> (r: Vec<Diagnostic>)
        requires
            self.wf(),
        ensures
            !self@.contains_key(uri@) ==> r@.len() == 0,
            self@.contains_key(uri@) ==> ({
                let errs = stmt_errors(self@[uri@].ast);
                &&& r@.len() == errs.len()
                &&& forall|i: int|
                    0 <= i < errs.len() ==> {
                        let d = #[trigger] r@[i];
                        &&& d.range.start.line as int == errs[i].0.start.line - 1
                        &&& d.range.start.character as int == errs[i].0.start.col - 1
                        &&& d.range.end.line as int == errs[i].0.end.line - 1
                        &&& d.range.end.character as int == errs[i].0.end.col - 1
                        &&& d.severity is Error
                        &&& d.source@ == "Octave"@
                        &&& d.message@ == errs[i].1
                    }
            }),
    {
        match doc_map_get(&self.documents, uri) {
            None => Vec::new(),
            Some(data) => {
                let ghost nv: StmtNodeV = stmt_node_view(data.ast);
                let errs = data.ast.as_ref().get_errors();
                proof {
                    crate::ast::lemma_err_view(errs@);
                    lemma_stmt_errors_wf(nv);
                }
                let mut out: Vec<Diagnostic> = Vec::new();
                let mut i: usize = 0;
                while i < errs.len()
                    invariant
                        i <= errs@.len(),
                        crate::ast::err_view(errs@) == stmt_errors(nv),
                        forall|k: int|
                            0 <= k < stmt_errors(nv).len() ==> span_wf(
                                (#[trigger] stmt_errors(nv)[k]).0,
                            ),
                        forall|k: int|
                            0 <= k < errs@.len() ==> (#[trigger] errs@[k]).span == stmt_errors(
                                nv,
                            )[k].0 && errs@[k].data@ == stmt_errors(nv)[k].1,
                        out@.len() == i,
                        forall|k: int|
                            0 <= k < i ==> {
                                let d = #[trigger] out@[k];
                                &&& d.range.start.line as int == stmt_errors(nv)[k].0.start.line
                                    - 1
                                &&& d.range.start.character as int == stmt_errors(
                                    nv,
                                )[k].0.start.col - 1
                                &&& d.range.end.line as int == stmt_errors(nv)[k].0.end.line - 1
                                &&& d.range.end.character as int == stmt_errors(nv)[k].0.end.col
                                    - 1
                                &&& d.severity is Error
                                &&& d.source@ == "Octave"@
                                &&& d.message@ == stmt_errors(nv)[k].1
                            },
                    decreases errs@.len() - i,
                {
                    let range = parser_range_to_lsp_range(errs[i].span);
                    out.push(
                        Diagnostic {
                            range,
                            severity: DiagnosticSeverity::Error,
                            source: String::from_str("Octave"),
                            message: errs[i].data.clone(),
                        },
                    );
                    i = i + 1;
                }
                out
            },
        }
    }

    /// Every binding of every open document, flattened into one list of
    /// name/type pairs: completion is global to all open buffers.
    pub fn get_variables(&self) -> (r: Vec<(String, Type)>)
        requires
            self.wf(),
        ensures
            forall|i: int| 0 <= i < r@.len() ==> pair_from_store(self@, #[trigger] r@[i]),
            forall|k: Seq<char>, name: Seq<char>|
                self@.contains_key(k) && #[trigger] self@[k].bindings.contains_key(name)
                    ==> name_listed(r@, name, self@[k].bindings[name]),
    {
        let keys = doc_map_keys(&self.documents);
        let mut out: Vec<(String, Type)> = Vec::new();
        let mut j: usize = 0;
        while j < keys.len()
            invariant
                j <= keys@.len(),
                self.wf(),
                forall|i: int|
                    0 <= i < keys@.len() ==> self@.contains_key((#[trigger] keys@[i])@),
                forall|k: Seq<char>|
                    self@.contains_key(k) ==> exists|i: int|
                        0 <= i < keys@.len() && (#[trigger] keys@[i])@ == k,
                forall|i: int| 0 <= i < out@.len() ==> pair_from_store(self@, #[trigger] out@[i]),
                forall|jj: int, name: Seq<char>|
                    0 <= jj < j && #[trigger] self@[keys@[jj]@].bindings.contains_key(name)
                        ==> name_listed(out@, name, self@[keys@[jj]@].bindings[name]),
            decreases keys@.len() - j,
        {
            let data = doc_map_get(&self.documents, &keys[j]);
            match data {
                Some(d) => {
                    let ghost key_view: Seq<char> = keys@[j as int]@;
                    let pairs = d.bindings.to_pairs();
                    let ghost out_before: Seq<(String, Type)> = out@;
                    let mut p: usize = 0;
                    while p < pairs.len()
                        invariant
                            p <= pairs@.len(),
                            self@.contains_key(key_view),
                            self@[key_view].bindings == d.bindings@,
                            forall|i: int, i2: int|
                                0 <= i < i2 < pairs@.len() ==> (#[trigger] pairs@[i]).0@
                                    != (#[trigger] pairs@[i2]).0@,
                            forall|i: int|
                                0 <= i < pairs@.len() ==> d.bindings@.contains_key(
                                    (#[trigger] pairs@[i]).0@,
                                ) && d.bindings@[pairs@[i].0@] == pairs@[i].1@,
                            forall|name: Seq<char>|
                                d.bindings@.contains_key(name) ==> exists|i: int|
                                    0 <= i < pairs@.len() && (#[trigger] pairs@[i]).0@ == name,
                            out@.len() == out_before.len() + p,
                            forall|i: int|
                                0 <= i < out_before.len() ==> #[trigger] out@[i]
                                    == out_before[i],
                            forall|i: int|
                                out_before.len() <= i < out@.len() ==> (#[trigger] out@[i]).0@
                                    == pairs@[i - out_before.len()].0@ && out@[i].1@ == pairs@[
                                    i - out_before.len()].1@,
                        decreases pairs@.len() - p,
                    {
                        let name = pairs[p].0.clone();
                        let ty = crate::typesystem::clone_type(&pairs[p].1);
                        out.push((name, ty));
                        p = p + 1;
                    }
                    proof {
                        assert forall|i: int| 0 <= i < out@.len() implies pair_from_store(
                            self@,
                            #[trigger] out@[i],
                        ) by {
                            if i >= out_before.len() {
                                assert(self@.contains_key(key_view)
                                    && self@[key_view].bindings.contains_key(out@[i].0@)
                                    && self@[key_view].bindings[out@[i].0@] == out@[i].1@);
                            }
                        }
                        assert forall|jj: int, name: Seq<char>|
                            0 <= jj < j + 1 && #[trigger] self@[keys@[jj]@].bindings.contains_key(
                                name,
                            ) implies name_listed(
                            out@,
                            name,
                            self@[keys@[jj]@].bindings[name],
                        ) by {
                            if jj == j as int {
                                let w = choose|i: int|
                                    0 <= i < pairs@.len() && (#[trigger] pairs@[i]).0@ == name;
                                assert(out@[out_before.len() + w].0@ == name);
                                assert(out@[out_before.len() + w].1@ == self@[keys@[
                                jj]@].bindings[name]);
                            } else {
                                assert(name_listed(out_before, name, self@[keys@[jj]@].bindings[
                                name]));
                                let w = choose|i: int|
                                    0 <= i < out_before.len() && (#[trigger] out_before[i]).0@
                                        == name && out_before[i].1@ == self@[keys@[
                                    jj]@].bindings[name];
                                assert(out@[w].0@ == name && out@[w].1@ == self@[keys@[
                                jj]@].bindings[name]);
                            }
                        }
                    }
                },
                None => {
                    proof {
                        assert(false);
                    }
                },
            }
            j = j + 1;
        }
        proof {
            assert forall|k: Seq<char>, name: Seq<char>|
                self@.contains_key(k) && #[trigger] self@[k].bindings.contains_key(
                    name,
                ) implies name_listed(out@, name, self@[k].bindings[name]) by {
                let w = choose|i: int| 0 <= i < keys@.len() && (#[trigger] keys@[i])@ == k;
                assert(self@[keys@[w]@].bindings.contains_key(name));
            }
        }
        out
    }

    /// The type and span of the most specific expression under the given
    /// protocol position in the given document, if any.
    pub fn hover_at(&self, uri: &String, pos: DocPosition) -> (r: Option<(Type, Span)>)
        requires
            self.wf(),
            pos.line + 1 <= usize::MAX,
            pos.character + 1 <= usize::MAX,
        ensures
            ({
                let p = Position { line: (pos.line + 1) as usize, col: (pos.character + 1) as usize };
                match r {
                    Some((t, sp)) => self@.contains_key(uri@) && ({
                        let v = self@[uri@];
                        &&& spec_at_pos_stmt(v.ast, p) is Some
                        &&& sp == spec_at_pos_stmt(v.ast, p)->0.span
                        &&& t@ == crate::ast::spec_type_of(
                            spec_at_pos_stmt(v.ast, p)->0.expr,
                            v.bindings,
                        )
                    }),
                    None => !self@.contains_key(uri@) || spec_at_pos_stmt(
                        self@[uri@].ast,
                        p,
                    ) is None,
                }
            }),
    {
        match doc_map_get(&self.documents, uri) {
            None => None,
            Some(data) => {
                let p = Position::from_protocol(pos);
                proof {
                    lemma_at_pos_stmt_wf(stmt_node_view(data.ast), p);
                }
                match data.ast.at_pos(p) {
                    None => None,
                    Some(found) => {
                        let t = found.data.type_of(&data.bindings);
                        Some((t, found.span))
                    },
                }
            },
        }
    }
}

/// Every error collected below a well-formed statement has a well-formed
/// span.
pub proof fn lemma_stmt_errors_wf(n: StmtNodeV)
    requires
        stmt_node_v_wf(n),
    ensures
        forall|k: int| 0 <= k < stmt_errors(n).len() ==> span_wf((#[trigger] stmt_errors(n)[k]).0),
    decreases n,
{
    match n.stmt {
        crate::ast::StmtV::Error(_) => {
            assert(stmt_errors(n) =~= seq![(n.span, n.stmt->Error_0)]);
        },
        crate::ast::StmtV::IgnoreOutput(inner) => {
            lemma_stmt_errors_wf(*inner);
            assert(stmt_errors(n) == stmt_errors(*inner));
        },
        crate::ast::StmtV::Expr(e) => {
            lemma_expr_errors_wf(e);
            assert(stmt_errors(n) == crate::ast::expr_errors(e));
        },
        crate::ast::StmtV::Assignment(_, e) => {
            lemma_expr_errors_wf(e);
            assert(stmt_errors(n) == crate::ast::expr_errors(e));
        },
        crate::ast::StmtV::AugAssignment(_, _, e) => {
            lemma_expr_errors_wf(e);
            assert(stmt_errors(n) == crate::ast::expr_errors(e));
        },
        crate::ast::StmtV::Block(v) => {
            lemma_stmts_errors_wf(v);
            assert(stmt_errors(n) == crate::ast::stmts_errors(v));
        },
        crate::ast::StmtV::EOI => {
            assert(stmt_errors(n) =~= Seq::<(Span, Seq<char>)>::empty());
        },
    }
}

/// Every error collected below a list of well-formed statements has a
/// well-formed span.
proof fn lemma_stmts_errors_wf(ss: Seq<StmtNodeV>)
    requires
        forall|i: int| 0 <= i < ss.len() ==> stmt_node_v_wf(#[trigger] ss[i]),
    ensures
        forall|k: int|
            0 <= k < crate::ast::stmts_errors(ss).len() ==> span_wf(
                (#[trigger] crate::ast::stmts_errors(ss)[k]).0,
            ),
    decreases ss,
{
    if ss.len() > 0 {
        lemma_stmt_errors_wf(ss[0]);
        assert forall|i: int| 0 <= i < ss.drop_first().len() implies stmt_node_v_wf(
            #[trigger] ss.drop_first()[i],
        ) by {
            assert(ss.drop_first()[i] == ss[i + 1]);
        }
        lemma_stmts_errors_wf(ss.drop_first());
        assert(crate::ast::stmts_errors(ss) == stmt_errors(ss[0]) + crate::ast::stmts_errors(
            ss.drop_first(),
        ));
    } else {
        assert(crate::ast::stmts_errors(ss) =~= Seq::<(Span, Seq<char>)>::empty());
    }
}

/// Every error collected below a well-formed expression has a well-formed
/// span.
proof fn lemma_expr_errors_wf(n: crate::ast::ExprNodeV)
    requires
        crate::ast::expr_node_v_wf(n),
    ensures
        forall|k: int|
            0 <= k < crate::ast::expr_errors(n).len() ==> span_wf(
                (#[trigger] crate::ast::expr_errors(n)[k]).0,
            ),
    decreases n,
{
    let ee = crate::ast::expr_errors(n);
    match n.expr {
        crate::ast::ExprV::Matrix { cells, .. } => {
            lemma_cells_errors_wf(cells);
            assert(ee == crate::ast::nodes_errors(cells));
        },
        crate::ast::ExprV::Op(_, a, b) => {
            lemma_expr_errors_wf(*a);
            lemma_expr_errors_wf(*b);
            assert(ee == crate::ast::expr_errors(*a) + crate::ast::expr_errors(*b));
        },
        crate::ast::ExprV::Incr(a) => {
            lemma_expr_errors_wf(*a);
            assert(ee == crate::ast::expr_errors(*a));
        },
        crate::ast::ExprV::Decr(a) => {
            lemma_expr_errors_wf(*a);
            assert(ee == crate::ast::expr_errors(*a));
        },
        crate::ast::ExprV::Range(s, st, e2) => {
            lemma_expr_errors_wf(*s);
            match st {
                Some(x) => {
                    lemma_expr_errors_wf(*x);
                    assert(ee == crate::ast::expr_errors(*s) + crate::ast::expr_errors(*x)
                        + crate::ast::expr_errors(*e2));
                },
                None => {
                    assert(ee == crate::ast::expr_errors(*s) + Seq::<(Span, Seq<char>)>::empty()
                        + crate::ast::expr_errors(*e2));
                },
            }
            lemma_expr_errors_wf(*e2);
        },
        crate::ast::ExprV::Call(c, args) => {
            lemma_expr_errors_wf(*c);
            lemma_cells_errors_wf(args);
            assert(ee == crate::ast::expr_errors(*c) + crate::ast::nodes_errors(args));
        },
        crate::ast::ExprV::Error(_) => {
            assert(ee =~= seq![(n.span, n.expr->Error_0)]);
        },
        _ => {
            assert(ee =~= Seq::<(Span, Seq<char>)>::empty());
        },
    }
}

/// Every error collected below a list of well-formed expressions has a
/// well-formed span.
proof fn lemma_cells_errors_wf(cells: Seq<crate::ast::ExprNodeV>)
    requires
        forall|i: int| 0 <= i < cells.len() ==> crate::ast::expr_node_v_wf(#[trigger] cells[i]),
    ensures
        forall|k: int|
            0 <= k < crate::ast::nodes_errors(cells).len() ==> span_wf(
                (#[trigger] crate::ast::nodes_errors(cells)[k]).0,
            ),
    decreases cells,
{
    if cells.len() > 0 {
        lemma_expr_errors_wf(cells[0]);
        assert forall|i: int| 0 <= i < cells.drop_first().len() implies crate::ast::expr_node_v_wf(
            #[trigger] cells.drop_first()[i],
        ) by {
            assert(cells.drop_first()[i] == cells[i + 1]);
        }
        lemma_cells_errors_wf(cells.drop_first());
        assert(crate::ast::nodes_errors(cells) == crate::ast::expr_errors(cells[0])
            + crate::ast::nodes_errors(cells.drop_first()));
    } else {
        assert(crate::ast::nodes_errors(cells) =~= Seq::<(Span, Seq<char>)>::empty());
    }
}

} // verus!
