//! `include = [...]` expansion for `config.toml`.
//!
//! A config file may pull in shared fragments before its own keys are read:
//!
//! ```toml
//! include = ["fleet.toml"]
//! ```
//!
//! Paths resolve relative to the directory of the file carrying the key.
//! Fragments are merged as raw TOML, so a fragment need not be a complete,
//! valid configuration on its own.
//!
//! Precedence: every fragment is merged in array order, then the including file
//! on top. Tables deep-merge; scalars and arrays replace wholesale. Nested
//! fragments are expanded depth-first, so a fragment's own fragments land
//! underneath it.
//!
//! Finding and reading files is left to the caller. `expand` says whether there
//! is anything to do; from then on the run says which path to resolve and which
//! file to read, and takes the answers.

use vstd::prelude::*;

use crate::text;
use crate::toml_tree;
use crate::toml_tree::deep_merge;

verus! {

/// Top-level key holding the list of fragments. Stripped during expansion so
/// that it never reaches the schema, which would flag it as an unknown key.
pub const INCLUDE_KEY: &'static str = "include";

// ---------------------------------------------------------------------------
// Files and errors
// ---------------------------------------------------------------------------
/// A resolved file. Two files are the same where their handles are. `parent` is
/// the handle of the directory that holds it, where it has one.
#[derive(Debug)]
pub struct SourceFile {
    pub handle: u64,
    pub shown: String,
    pub parent: Option<u64>,
}

/// A `SourceFile` with its shown path as a sequence of characters.
pub struct FileView {
    pub handle: u64,
    pub shown: Seq<char>,
    pub parent: Option<u64>,
}

impl View for SourceFile {
    type V = FileView;

    open spec fn view(&self) -> FileView {
        FileView { handle: self.handle, shown: self.shown@, parent: self.parent }
    }
}

/// The views of a list of files.
pub open spec fn file_views(files: Seq<SourceFile>) -> Seq<FileView> {
    files.map_values(|f: SourceFile| f@)
}

/// A path that leads to no file: what was looked for, and why it failed.
#[derive(Debug)]
pub struct Missing {
    pub target: String,
    pub cause: String,
}

/// A `Missing` with its texts as sequences of characters.
pub struct MissingView {
    pub target: Seq<char>,
    pub cause: Seq<char>,
}

impl View for Missing {
    type V = MissingView;

    open spec fn view(&self) -> MissingView {
        MissingView { target: self.target@, cause: self.cause@ }
    }
}

/// Why an expansion failed.
#[derive(Debug)]
pub enum IncludeError {
    /// The list in `source` is no array.
    NotAnArray { source: String },
    /// The list in `source` holds something other than strings.
    NotPaths { source: String },
    /// The entry leads to no file.
    Unresolved { entry: String, source: String, target: String, cause: String },
    /// The file is already being expanded.
    Cycle { chain: String },
    /// The file cannot be read.
    Unreadable { path: String, cause: String },
    /// The file is no TOML.
    Malformed { path: String, parse_error: toml::de::Error },
    /// The merged table cannot be written.
    Unwritable { path: String, write_error: toml::ser::Error },
}

/// An `IncludeError` with its texts as sequences of characters.
pub enum IncludeErrorView {
    NotAnArray { source: Seq<char> },
    NotPaths { source: Seq<char> },
    Unresolved { entry: Seq<char>, source: Seq<char>, target: Seq<char>, cause: Seq<char> },
    Cycle { chain: Seq<char> },
    Unreadable { path: Seq<char>, cause: Seq<char> },
    Malformed { path: Seq<char>, parse_error: toml::de::Error },
    Unwritable { path: Seq<char>, write_error: toml::ser::Error },
}

impl View for IncludeError {
    type V = IncludeErrorView;

    open spec fn view(&self) -> IncludeErrorView {
        match *self {
            IncludeError::NotAnArray { source } => IncludeErrorView::NotAnArray {
                source: source@,
            },
            IncludeError::NotPaths { source } => IncludeErrorView::NotPaths { source: source@ },
            IncludeError::Unresolved { entry, source, target, cause } => IncludeErrorView::Unresolved {
                entry: entry@,
                source: source@,
                target: target@,
                cause: cause@,
            },
            IncludeError::Cycle { chain } => IncludeErrorView::Cycle { chain: chain@ },
            IncludeError::Unreadable { path, cause } => IncludeErrorView::Unreadable {
                path: path@,
                cause: cause@,
            },
            IncludeError::Malformed { path, parse_error } => IncludeErrorView::Malformed {
                path: path@,
                parse_error,
            },
            IncludeError::Unwritable { path, write_error } => IncludeErrorView::Unwritable {
                path: path@,
                write_error,
            },
        }
    }
}

/// What an error says, without its cause.
pub open spec fn error_message(e: IncludeErrorView) -> Seq<char> {
    match e {
        IncludeErrorView::NotAnArray { source } => "`include` in "@ + source
            + " must be an array of paths"@,
        IncludeErrorView::NotPaths { source } => "`include` in "@ + source
            + " must contain only path strings"@,
        IncludeErrorView::Unresolved { entry, source, target, cause } => "Config include \""@
            + entry + "\" from "@ + source + " does not resolve to a readable file at "@ + target,
        IncludeErrorView::Cycle { chain } => "Config include cycle: "@ + chain,
        IncludeErrorView::Unreadable { path, cause } => "Failed to read config include "@ + path,
        IncludeErrorView::Malformed { path, parse_error } => "Failed to parse config include "@ + path,
        IncludeErrorView::Unwritable { path, write_error } => "Failed to re-serialize "@ + path
            + " after include expansion"@,
    }
}

impl IncludeError {
    /// What the error says, without its cause.
    pub fn message(&self) -> (s: String)
        ensures
            s@ == error_message(self@),
    {
        match self {
            IncludeError::NotAnArray { source } => {
                let mut s = "`include` in ".to_owned();
                s.append(source.as_str());
                s.append(" must be an array of paths");
                s
            },
            IncludeError::NotPaths { source } => {
                let mut s = "`include` in ".to_owned();
                s.append(source.as_str());
                s.append(" must contain only path strings");
                s
            },
            IncludeError::Unresolved { entry, source, target, cause: _ } => {
                let mut s = "Config include \"".to_owned();
                s.append(entry.as_str());
                s.append("\" from ");
                s.append(source.as_str());
                s.append(" does not resolve to a readable file at ");
                s.append(target.as_str());
                s
            },
            IncludeError::Cycle { chain } => {
                let mut s = "Config include cycle: ".to_owned();
                s.append(chain.as_str());
                s
            },
            IncludeError::Unreadable { path, cause: _ } => {
                let mut s = "Failed to read config include ".to_owned();
                s.append(path.as_str());
                s
            },
            IncludeError::Malformed { path, parse_error: _ } => {
                let mut s = "Failed to parse config include ".to_owned();
                s.append(path.as_str());
                s
            },
            IncludeError::Unwritable { path, write_error: _ } => {
                let mut s = "Failed to re-serialize ".to_owned();
                s.append(path.as_str());
                s.append(" after include expansion");
                s
            },
        }
    }
}

/// The file being expanded, as it is shown: the last of the chain.
pub open spec fn current_shown(chain: Seq<FileView>) -> Seq<char> {
    if chain.len() == 0 {
        "config"@
    } else {
        chain.last().shown
    }
}

/// The chain as it is shown: each file, with an arrow to the one it pulls in.
pub open spec fn chain_shown(chain: Seq<FileView>) -> Seq<char> {
    text::joined(chain.map_values(|f: FileView| f.shown), " -> "@)
}

/// The file being expanded, as it is shown.
pub fn current(chain: &[SourceFile]) -> (s: String)
    ensures
        s@ == current_shown(file_views(chain@)),
{
    if chain.len() == 0 {
        "config".to_owned()
    } else {
        chain[chain.len() - 1].shown.clone()
    }
}

/// The chain as it is shown.
pub fn chain_display(chain: &[SourceFile]) -> (s: String)
    ensures
        s@ == chain_shown(file_views(chain@)),
{
    let mut names: Vec<String> = Vec::new();
    let mut i: usize = 0;
    while i < chain.len()
        invariant
            i <= chain@.len(),
            names@.len() == i,
            forall|j: int| 0 <= j < i ==> #[trigger] names@[j]@ == chain@[j].shown@,
        decreases chain@.len() - i,
    {
        names.push(chain[i].shown.clone());
        i += 1;
    }
    assert(text::texts(names@) =~= file_views(chain@).map_values(|f: FileView| f.shown));
    text::join(names.as_slice(), " -> ")
}

/// Whether the file with this handle is on the chain.
pub open spec fn on_chain(chain: Seq<FileView>, handle: u64) -> bool {
    exists|i: int| 0 <= i < chain.len() && #[trigger] chain[i].handle == handle
}

fn chain_contains(chain: &[SourceFile], handle: u64) -> (r: bool)
    ensures
        r == on_chain(file_views(chain@), handle),
{
    let mut i: usize = 0;
    while i < chain.len()
        invariant
            i <= chain@.len(),
            forall|j: int| 0 <= j < i ==> #[trigger] file_views(chain@)[j].handle != handle,
        decreases chain@.len() - i,
    {
        if chain[i].handle == handle {
            assert(file_views(chain@)[i as int].handle == handle);
            return true;
        }
        i += 1;
    }
    false
}

// ---------------------------------------------------------------------------
// One source
// ---------------------------------------------------------------------------
/// Whether every item is a string.
pub open spec fn all_texts(items: Seq<toml_tree::Toml>) -> bool {
    forall|i: int| 0 <= i < items.len() ==> (#[trigger] items[i]) is Text
}

/// The paths that a table pulls in, in array order; none where it lacks the key.
pub open spec fn includes_of(
    table: Map<Seq<char>, toml_tree::Toml>,
    chain: Seq<FileView>,
) -> Result<Seq<Seq<char>>, IncludeErrorView> {
    if !table.dom().contains(INCLUDE_KEY@) {
        Ok(Seq::empty())
    } else {
        match table[INCLUDE_KEY@] {
            toml_tree::Toml::Array(items) => if all_texts(items) {
                Ok(items.map_values(|item: toml_tree::Toml| item->Text_0))
            } else {
                Err(IncludeErrorView::NotPaths { source: current_shown(chain) })
            },
            _ => Err(IncludeErrorView::NotAnArray { source: current_shown(chain) }),
        }
    }
}

/// The view of a list of paths, or of the error.
pub open spec fn paths_view(r: Result<Vec<String>, IncludeError>) -> Result<
    Seq<Seq<char>>,
    IncludeErrorView,
> {
    match r {
        Ok(paths) => Ok(text::texts(paths@)),
        Err(e) => Err(e@),
    }
}

/// Removes the key and validates it as an array of path strings.
pub fn take_includes(table: &mut toml::map::Map<String, toml::Value>, chain: &[SourceFile]) -> (r:
    Result<Vec<String>, IncludeError>)
    ensures
        toml_tree::table_tree(*final(table)) == toml_tree::table_tree(*old(table)).remove(
            INCLUDE_KEY@,
        ),
        paths_view(r) == includes_of(toml_tree::table_tree(*old(table)), file_views(chain@)),
{
    let raw = match toml_tree::remove(table, INCLUDE_KEY) {
        None => {
            let none: Vec<String> = Vec::new();
            assert(text::texts(none@) =~= Seq::empty());
            return Ok(none);
        },
        Some(raw) => raw,
    };
    let items = match raw.as_array() {
        None => {
            return Err(IncludeError::NotAnArray { source: current(chain) });
        },
        Some(items) => items,
    };
    let ghost trees = items@.map_values(|item: toml::Value| toml_tree::value_tree(item));
    let mut paths: Vec<String> = Vec::new();
    let mut i: usize = 0;
    while i < items.len()
        invariant
            i <= items@.len(),
            trees == items@.map_values(|item: toml::Value| toml_tree::value_tree(item)),
            toml_tree::value_tree(raw) == toml_tree::Toml::Array(trees),
            toml_tree::table_tree(*table) == toml_tree::table_tree(*old(table)).remove(
                INCLUDE_KEY@,
            ),
            toml_tree::table_tree(*old(table)).dom().contains(INCLUDE_KEY@),
            toml_tree::table_tree(*old(table))[INCLUDE_KEY@] == toml_tree::value_tree(raw),
            paths@.len() == i,
            forall|j: int|
                0 <= j < i ==> (#[trigger] trees[j]) == toml_tree::Toml::Text(paths@[j]@),
        decreases items@.len() - i,
    {
        match items[i].as_str() {
            None => {
                assert(!(trees[i as int] is Text));
                return Err(IncludeError::NotPaths { source: current(chain) });
            },
            Some(entry) => {
                paths.push(entry.to_owned());
            },
        }
        i += 1;
    }
    assert(text::texts(paths@) =~= trees.map_values(|item: toml_tree::Toml| item->Text_0));
    Ok(paths)
}

/// A source whose fragments are being merged: the directory that its paths are
/// relative to, the paths that are still to come, and its own keys.
#[derive(Debug)]
pub struct Layer {
    pub dir: u64,
    pub pending: Vec<String>,
    pub table: toml::map::Map<String, toml::Value>,
}

/// A `Layer` with its paths and its table as what they hold.
#[verifier::ext_equal]
pub struct LayerView {
    pub dir: u64,
    pub pending: Seq<Seq<char>>,
    pub table: Map<Seq<char>, toml_tree::Toml>,
}

impl View for Layer {
    type V = LayerView;

    open spec fn view(&self) -> LayerView {
        LayerView {
            dir: self.dir,
            pending: text::texts(self.pending@),
            table: toml_tree::table_tree(self.table),
        }
    }
}

/// The views of a list of layers.
pub open spec fn layer_views(layers: Seq<Layer>) -> Seq<LayerView> {
    layers.map_values(|l: Layer| l@)
}

/// The layer that a parsed source makes; the source is the last of the chain.
pub open spec fn layer_of(
    table: Map<Seq<char>, toml_tree::Toml>,
    dir: u64,
    chain: Seq<FileView>,
) -> Result<LayerView, IncludeErrorView> {
    match includes_of(table, chain) {
        Ok(pending) => Ok(LayerView { dir, pending, table: table.remove(INCLUDE_KEY@) }),
        Err(e) => Err(e),
    }
}

/// The view of a layer, or of the error.
pub open spec fn layer_view(r: Result<Layer, IncludeError>) -> Result<
    LayerView,
    IncludeErrorView,
> {
    match r {
        Ok(layer) => Ok(layer@),
        Err(e) => Err(e@),
    }
}

fn make_layer(
    table: toml::map::Map<String, toml::Value>,
    dir: u64,
    chain: &[SourceFile],
) -> (r: Result<Layer, IncludeError>)
    ensures
        layer_view(r) == layer_of(toml_tree::table_tree(table), dir, file_views(chain@)),
{
    let mut table = table;
    match take_includes(&mut table, chain) {
        Ok(pending) => Ok(Layer { dir, pending, table }),
        Err(e) => Err(e),
    }
}

// ---------------------------------------------------------------------------
// A run
// ---------------------------------------------------------------------------
/// An expansion under way: what has been merged so far, the sources whose
/// fragments are being merged, each pulled in by the one before it, and the
/// files they came from.
#[derive(Debug)]
pub struct IncludeRun {
    path: String,
    out: toml::map::Map<String, toml::Value>,
    layers: Vec<Layer>,
    chain: Vec<SourceFile>,
}

/// An `IncludeRun` with its parts as what they hold.
#[verifier::ext_equal]
pub struct RunView {
    pub path: Seq<char>,
    pub out: Map<Seq<char>, toml_tree::Toml>,
    pub layers: Seq<LayerView>,
    pub chain: Seq<FileView>,
}

impl View for IncludeRun {
    type V = RunView;

    closed spec fn view(&self) -> RunView {
        RunView {
            path: self.path@,
            out: toml_tree::table_tree(self.out),
            layers: layer_views(self.layers@),
            chain: file_views(self.chain@),
        }
    }
}

impl IncludeRun {
    #[verifier::type_invariant]
    spec fn well_formed(self) -> bool {
        self@.wf()
    }
}

impl RunView {
    /// There is a file for each layer, no file twice, and the key has been taken
    /// out of everything that is or will be merged.
    pub open spec fn wf(self) -> bool {
        &&& !self.out.dom().contains(INCLUDE_KEY@)
        &&& forall|i: int|
            0 <= i < self.layers.len() ==> !(#[trigger] self.layers[i]).table.dom().contains(
                INCLUDE_KEY@,
            )
        &&& self.layers.len() == self.chain.len()
        &&& forall|i: int, j: int|
            0 <= i < j < self.chain.len() ==> (#[trigger] self.chain[i]).handle != (
            #[trigger] self.chain[j]).handle
    }
}

/// What is asked of a file system: to resolve `entry` relative to `dir`.
#[derive(Debug)]
pub struct ResolveInclude {
    run: IncludeRun,
    dir: u64,
    entry: String,
}

/// A `ResolveInclude` with its parts as what they hold.
#[verifier::ext_equal]
pub struct ResolveView {
    pub run: RunView,
    pub dir: u64,
    pub entry: Seq<char>,
}

impl View for ResolveInclude {
    type V = ResolveView;

    closed spec fn view(&self) -> ResolveView {
        ResolveView { run: self.run@, dir: self.dir, entry: self.entry@ }
    }
}

/// What is asked of a file system: to read `file`.
#[derive(Debug)]
pub struct ReadInclude {
    run: IncludeRun,
    dir: u64,
    file: SourceFile,
}

/// A `ReadInclude` with its parts as what they hold.
#[verifier::ext_equal]
pub struct ReadView {
    pub run: RunView,
    pub dir: u64,
    pub file: FileView,
}

impl View for ReadInclude {
    type V = ReadView;

    closed spec fn view(&self) -> ReadView {
        ReadView { run: self.run@, dir: self.dir, file: self.file@ }
    }
}

impl ReadInclude {
    #[verifier::type_invariant]
    spec fn well_formed(self) -> bool {
        self@.wf()
    }
}

impl ReadView {
    /// The run is well-formed and the file is not yet part of it.
    pub open spec fn wf(self) -> bool {
        self.run.wf() && !on_chain(self.run.chain, self.file.handle)
    }
}

/// What a run does next.
#[derive(Debug)]
pub enum IncludeStep {
    Resolve(ResolveInclude),
    Finished(Result<String, IncludeError>),
}

/// The run with every source merged that has no more fragments to come.
pub open spec fn settled(run: RunView) -> RunView
    decreases run.layers.len(),
{
    if run.layers.len() > 0 && run.layers.last().pending.len() == 0 {
        settled(
            RunView {
                path: run.path,
                out: toml_tree::merged_tables(run.out, run.layers.last().table),
                layers: run.layers.drop_last(),
                chain: run.chain.drop_last(),
            },
        )
    } else {
        run
    }
}

/// The run without the first path that is still to come.
pub open spec fn entry_taken(run: RunView) -> RunView {
    let last = run.layers.last();
    RunView {
        layers: run.layers.drop_last().push(
            LayerView { dir: last.dir, pending: last.pending.skip(1), table: last.table },
        ),
        ..run
    }
}

/// The text that a finished run gives.
pub open spec fn written(path: Seq<char>, text: Result<Seq<char>, toml::ser::Error>) -> Result<
    Seq<char>,
    IncludeErrorView,
> {
    match text {
        Ok(s) => Ok(s),
        Err(write_error) => Err(IncludeErrorView::Unwritable { path, write_error }),
    }
}

/// The view of a text, or of the error.
pub open spec fn written_view(r: Result<String, IncludeError>) -> Result<
    Seq<char>,
    IncludeErrorView,
> {
    match r {
        Ok(s) => Ok(s@),
        Err(e) => Err(e@),
    }
}

/// The file that an entry leads to, unless it leads nowhere or is already being
/// expanded.
pub open spec fn resolved_file(
    entry: Seq<char>,
    chain: Seq<FileView>,
    found: Result<FileView, MissingView>,
) -> Result<FileView, IncludeErrorView> {
    match found {
        Err(missing) => Err(
            IncludeErrorView::Unresolved {
                entry,
                source: current_shown(chain),
                target: missing.target,
                cause: missing.cause,
            },
        ),
        Ok(file) => if on_chain(chain, file.handle) {
            Err(IncludeErrorView::Cycle { chain: chain_shown(chain.push(file)) })
        } else {
            Ok(file)
        },
    }
}

/// The layer that a parsed file makes. Its paths are relative to its own
/// directory; `dir` stands in where it has none.
pub open spec fn parsed_layer(
    file: FileView,
    dir: u64,
    chain: Seq<FileView>,
    parsed: Result<Map<Seq<char>, toml_tree::Toml>, toml::de::Error>,
) -> Result<LayerView, IncludeErrorView> {
    match parsed {
        Err(parse_error) => Err(IncludeErrorView::Malformed { path: file.shown, parse_error }),
        Ok(table) => layer_of(
            table,
            match file.parent {
                Some(own) => own,
                None => dir,
            },
            chain.push(file),
        ),
    }
}

/// The layer that the text of a file makes.
pub open spec fn read_layer(
    file: FileView,
    dir: u64,
    chain: Seq<FileView>,
    text: Result<Seq<char>, Seq<char>>,
) -> Result<LayerView, IncludeErrorView> {
    match text {
        Err(cause) => Err(IncludeErrorView::Unreadable { path: file.shown, cause }),
        Ok(text) => parsed_layer(file, dir, chain, toml_tree::toml_document(text)),
    }
}

/// The run that goes on with the fragments of a file.
pub open spec fn layer_added(run: RunView, file: FileView, layer: LayerView) -> RunView {
    RunView { layers: run.layers.push(layer), chain: run.chain.push(file), ..run }
}

/// The view of a file that was looked for.
pub open spec fn found_view(found: Result<SourceFile, Missing>) -> Result<FileView, MissingView> {
    match found {
        Ok(file) => Ok(file@),
        Err(missing) => Err(missing@),
    }
}

/// The view of a text that was read.
pub open spec fn text_view(text: Result<String, String>) -> Result<Seq<char>, Seq<char>> {
    match text {
        Ok(text) => Ok(text@),
        Err(cause) => Err(cause@),
    }
}

/// What a parsed table holds.
pub open spec fn parsed_view(
    parsed: Result<toml::map::Map<String, toml::Value>, toml::de::Error>,
) -> Result<Map<Seq<char>, toml_tree::Toml>, toml::de::Error> {
    match parsed {
        Ok(table) => Ok(toml_tree::table_tree(table)),
        Err(cause) => Err(cause),
    }
}

/// The text of a finished run, or the error that it could not be written.
pub fn write_outcome(path: String, text: Result<String, toml::ser::Error>) -> (r: Result<
    String,
    IncludeError,
>)
    ensures
        written_view(r) == written(
            path@,
            match text {
                Ok(s) => Ok(s@),
                Err(write_error) => Err(write_error),
            },
        ),
{
    match text {
        Ok(s) => Ok(s),
        Err(write_error) => Err(IncludeError::Unwritable { path, write_error }),
    }
}

impl IncludeRun {
    /// Merges every source that has no more fragments to come, and says what to
    /// do next: resolve the next path, or nothing more.
    pub fn next(self) -> (step: IncludeStep)
        ensures
            match step {
                IncludeStep::Resolve(asked) => {
                    let run = settled(self@);
                    &&& run.layers.len() > 0
                    &&& run.layers.last().pending.len() > 0
                    &&& asked@.dir == run.layers.last().dir
                    &&& asked@.entry == run.layers.last().pending[0]
                    &&& asked@.run == entry_taken(run)
                    &&& asked@.run.wf()
                },
                IncludeStep::Finished(r) => {
                    let run = settled(self@);
                    &&& run.layers.len() == 0
                    &&& written_view(r) == written(run.path, toml_tree::toml_text(run.out))
                    &&& r matches Ok(text) ==> !has_includes(toml_tree::toml_document(text@))
                },
            },
    {
        proof {
            use_type_invariant(&self);
        }
        let IncludeRun { path, mut out, mut layers, mut chain } = self;
        let ghost start = self@;
        loop
            invariant
                start.wf(),
                ({
                    let run = RunView {
                        path: path@,
                        out: toml_tree::table_tree(out),
                        layers: layer_views(layers@),
                        chain: file_views(chain@),
                    };
                    run.wf() && settled(run) == settled(start)
                }),
                start == self@,
            decreases layers@.len(),
        {
            let ghost run = RunView {
                path: path@,
                out: toml_tree::table_tree(out),
                layers: layer_views(layers@),
                chain: file_views(chain@),
            };
            match layers.pop() {
                None => {
                    let text = toml_tree::write_table(&out);
                    return IncludeStep::Finished(write_outcome(path, text));
                },
                Some(mut layer) => {
                    assert(layer_views(layers@) =~= run.layers.drop_last());
                    assert(layer@ == run.layers.last());
                    if layer.pending.len() == 0 {
                        deep_merge(&mut out, layer.table);
                        let _ = chain.pop();
                        assert(file_views(chain@) =~= run.chain.drop_last());
                    } else {
                        let dir: u64 = layer.dir;
                        let ghost pending = layer.pending@;
                        let entry = layer.pending.remove(0);
                        assert(text::texts(layer.pending@) =~= text::texts(pending).skip(1));
                        layers.push(layer);
                        assert(layer_views(layers@) =~= entry_taken(run).layers);
                        let next_run = IncludeRun { path, out, layers, chain };
                        return IncludeStep::Resolve(
                            ResolveInclude { run: next_run, dir, entry },
                        );
                    }
                },
            }
        }
    }
}

impl ResolveInclude {
    /// The directory that the path is relative to.
    pub fn dir(&self) -> (dir: u64)
        ensures
            dir == self@.dir,
    {
        self.dir
    }

    /// The path to resolve.
    pub fn entry(&self) -> (entry: &str)
        ensures
            entry@ == self@.entry,
    {
        self.entry.as_str()
    }

    /// Takes the file that the path leads to. A path that leads nowhere, or to
    /// a file that is already being expanded, is an error.
    pub fn resolved(self, found: Result<SourceFile, Missing>) -> (r: Result<
        ReadInclude,
        IncludeError,
    >)
        ensures
            match r {
                Ok(asked) => {
                    &&& resolved_file(self@.entry, self@.run.chain, found_view(found))
                        == Ok::<_, IncludeErrorView>(asked@.file)
                    &&& asked@.run == self@.run
                    &&& asked@.dir == self@.dir
                    &&& asked@.wf()
                },
                Err(e) => resolved_file(self@.entry, self@.run.chain, found_view(found)) == Err::<
                    FileView,
                    _,
                >(e@),
            },
    {
        let ResolveInclude { run, dir, entry } = self;
        proof {
            use_type_invariant(&run);
        }
        match found {
            Err(missing) => {
                let Missing { target, cause } = missing;
                let source = current(run.chain.as_slice());
                Err(IncludeError::Unresolved { entry, source, target, cause })
            },
            Ok(file) => if chain_contains(run.chain.as_slice(), file.handle) {
                let IncludeRun { path: _, out: _, layers: _, mut chain } = run;
                let ghost before = chain@;
                chain.push(file);
                assert(file_views(chain@) =~= file_views(before).push(file@));
                Err(IncludeError::Cycle { chain: chain_display(chain.as_slice()) })
            } else {
                Ok(ReadInclude { run, dir, file })
            },
        }
    }
}

/// The run that goes on with a layer, or the error.
pub open spec fn run_with(
    asked: ReadView,
    layer: Result<LayerView, IncludeErrorView>,
) -> Result<RunView, IncludeErrorView> {
    match layer {
        Ok(layer) => Ok(layer_added(asked.run, asked.file, layer)),
        Err(e) => Err(e),
    }
}

/// The view of a run, or of the error.
pub open spec fn run_view(r: Result<IncludeRun, IncludeError>) -> Result<
    RunView,
    IncludeErrorView,
> {
    match r {
        Ok(run) => Ok(run@),
        Err(e) => Err(e@),
    }
}

impl ReadInclude {
    /// The file to read.
    pub fn file(&self) -> (file: &SourceFile)
        ensures
            file@ == self@.file,
    {
        &self.file
    }

    /// Takes the parsed file and goes on with its fragments.
    pub fn parsed(
        self,
        parsed: Result<toml::map::Map<String, toml::Value>, toml::de::Error>,
    ) -> (r: Result<IncludeRun, IncludeError>)
        ensures
            run_view(r) == run_with(
                self@,
                parsed_layer(self@.file, self@.dir, self@.run.chain, parsed_view(parsed)),
            ),
            r matches Ok(run) ==> run@.wf(),
    {
        proof {
            use_type_invariant(&self);
        }
        let ReadInclude { run, dir, file } = self;
        let table = match parsed {
            Err(parse_error) => {
                return Err(IncludeError::Malformed { path: file.shown, parse_error });
            },
            Ok(table) => table,
        };
        let child_dir: u64 = match file.parent {
            Some(own) => own,
            None => dir,
        };
        let IncludeRun { path, out, mut layers, mut chain } = run;
        let ghost chain_before = chain@;
        let ghost layers_before = layers@;
        chain.push(file);
        assert(file_views(chain@) =~= file_views(chain_before).push(file@));
        match make_layer(table, child_dir, chain.as_slice()) {
            Err(e) => Err(e),
            Ok(layer) => {
                layers.push(layer);
                assert(layer_views(layers@) =~= layer_views(layers_before).push(layer@));
                proof {
                    let views = file_views(chain_before);
                    assert forall|i: int| 0 <= i < views.len() implies (#[trigger] views[i]).handle
                        != file.handle by {}
                }
                Ok(IncludeRun { path, out, layers, chain })
            },
        }
    }

    /// Takes the text of the file and goes on with its fragments. A file that
    /// cannot be read or parsed is an error.
    pub fn read(self, text: Result<String, String>) -> (r: Result<IncludeRun, IncludeError>)
        ensures
            run_view(r) == run_with(
                self@,
                read_layer(self@.file, self@.dir, self@.run.chain, text_view(text)),
            ),
            r matches Ok(run) ==> run@.wf(),
    {
        match text {
            Err(cause) => {
                proof {
                    use_type_invariant(&self);
                }
                let ReadInclude { run: _, dir: _, file } = self;
                Err(IncludeError::Unreadable { path: file.shown, cause })
            },
            Ok(text) => {
                let parsed = toml_tree::parse_table(text.as_str());
                self.parsed(parsed)
            },
        }
    }
}

// ---------------------------------------------------------------------------
// The start
// ---------------------------------------------------------------------------
/// A root file that pulls in fragments.
#[derive(Debug)]
pub struct RootSource {
    pub path: String,
    pub table: toml::map::Map<String, toml::Value>,
}

/// What is to be done with a config file.
#[derive(Debug)]
pub enum Expansion {
    /// There is nothing to expand: the contents stay as they are.
    Verbatim(String),
    /// There are fragments to merge.
    Layered(RootSource),
}

/// The contents stay as they are.
pub open spec fn verbatim(e: Expansion, contents: Seq<char>) -> bool {
    e matches Expansion::Verbatim(s) && s@ == contents
}

/// There are fragments to merge under what `table` holds.
pub open spec fn layered(
    e: Expansion,
    path: Seq<char>,
    table: Map<Seq<char>, toml_tree::Toml>,
) -> bool {
    e matches Expansion::Layered(root) && root.path@ == path && toml_tree::table_tree(root.table)
        == table
}

/// Whether what was parsed has the key.
pub open spec fn has_includes(
    parsed: Result<Map<Seq<char>, toml_tree::Toml>, toml::de::Error>,
) -> bool {
    parsed matches Ok(table) && table.dom().contains(INCLUDE_KEY@)
}

/// Says what is to be done with contents that were parsed.
pub fn expand_parsed(
    contents: &str,
    parsed: Result<toml::map::Map<String, toml::Value>, toml::de::Error>,
    path: &str,
) -> (e: Expansion)
    ensures
        !has_includes(parsed_view(parsed)) ==> verbatim(e, contents@),
        has_includes(parsed_view(parsed)) ==> layered(e, path@, parsed_view(parsed)->Ok_0),
{
    match parsed {
        Err(_) => Expansion::Verbatim(contents.to_owned()),
        Ok(table) => if toml_tree::contains_key(&table, INCLUDE_KEY) {
            Expansion::Layered(RootSource { path: path.to_owned(), table })
        } else {
            Expansion::Verbatim(contents.to_owned())
        },
    }
}

/// Expands the list of fragments in `contents`, read from the file shown as
/// `path`.
///
/// The contents come back verbatim when there is nothing to pull in, so a
/// config that does not use the feature is identical to what was read. A root
/// file that fails to parse also comes back verbatim: whoever reads it reports
/// syntax errors with far better context. Once the key is present the expansion
/// fails closed: a missing, unreadable, malformed, or cyclic fragment is an
/// error, never a silently degraded config.
pub fn expand(contents: &str, path: &str) -> (e: Expansion)
    ensures
        !has_includes(toml_tree::toml_document(contents@)) ==> verbatim(e, contents@),
        has_includes(toml_tree::toml_document(contents@)) ==> layered(
            e,
            path@,
            toml_tree::toml_document(contents@)->Ok_0,
        ),
{
    let parsed = toml_tree::parse_table(contents);
    expand_parsed(contents, parsed, path)
}

/// The run that merges the fragments of a root file.
pub open spec fn started(
    path: Seq<char>,
    table: Map<Seq<char>, toml_tree::Toml>,
    root: FileView,
    here: u64,
) -> Result<RunView, IncludeErrorView> {
    match layer_of(
        table,
        match root.parent {
            Some(own) => own,
            None => here,
        },
        seq![root],
    ) {
        Ok(layer) => Ok(
            RunView {
                path,
                out: toml_tree::no_entries(),
                layers: seq![layer],
                chain: seq![root],
            },
        ),
        Err(e) => Err(e),
    }
}

impl RootSource {
    /// Starts to merge the fragments of the root file, which resolves to
    /// `root`. Its paths are relative to its own directory; `here` stands in
    /// where it has none.
    pub fn start(self, root: SourceFile, here: u64) -> (r: Result<IncludeRun, IncludeError>)
        ensures
            run_view(r) == started(
                self.path@,
                toml_tree::table_tree(self.table),
                root@,
                here,
            ),
            r matches Ok(run) ==> run@.wf(),
    {
        let RootSource { path, table } = self;
        let dir: u64 = match root.parent {
            Some(own) => own,
            None => here,
        };
        let mut chain: Vec<SourceFile> = Vec::new();
        chain.push(root);
        assert(file_views(chain@) =~= seq![root@]);
        match make_layer(table, dir, chain.as_slice()) {
            Err(e) => Err(e),
            Ok(layer) => {
                let mut layers: Vec<Layer> = Vec::new();
                layers.push(layer);
                assert(layer_views(layers@) =~= seq![layer@]);
                Ok(IncludeRun { path, out: toml_tree::new_table(), layers, chain })
            },
        }
    }
}

// ---------------------------------------------------------------------------
// Laws
// ---------------------------------------------------------------------------
/// Every entry of the list is taken, in array order, by its whole text. A table
/// without the key pulls in nothing, and a list that is no array, or holds
/// something other than strings, is an error that names the file.
pub proof fn law_every_entry_is_taken(
    table: Map<Seq<char>, toml_tree::Toml>,
    chain: Seq<FileView>,
)
    ensures
        !table.dom().contains("include"@) ==> (includes_of(table, chain) matches Ok(paths)
            && paths.len() == 0),
        table.dom().contains("include"@) ==> match table["include"@] {
            toml_tree::Toml::Array(items) => {
                &&& (forall|i: int| 0 <= i < items.len() ==> (#[trigger] items[i]) is Text) ==> (
                includes_of(table, chain) matches Ok(paths) && paths.len() == items.len()
                    && forall|i: int|
                    0 <= i < items.len() ==> #[trigger] items[i] == toml_tree::Toml::Text(paths[i]))
                &&& (exists|i: int| 0 <= i < items.len() && !((#[trigger] items[i]) is Text)) ==> (
                includes_of(table, chain) matches Err(IncludeErrorView::NotPaths { source })
                    && source == current_shown(chain))
            },
            _ => includes_of(table, chain) matches Err(IncludeErrorView::NotAnArray { source })
                && source == current_shown(chain),
        },
{
    if table.dom().contains("include"@) {
        if let toml_tree::Toml::Array(items) = table["include"@] {
            if all_texts(items) {
                let paths = includes_of(table, chain)->Ok_0;
                assert forall|i: int| 0 <= i < items.len() implies #[trigger] items[i]
                    == toml_tree::Toml::Text(paths[i]) by {
                    assert(items[i] is Text);
                }
            }
        }
    }
}

/// Two lists come to the same paths only where they hold the same texts.
pub proof fn law_different_lists_pull_in_different_paths(
    table: Map<Seq<char>, toml_tree::Toml>,
    other: Map<Seq<char>, toml_tree::Toml>,
    chain: Seq<FileView>,
)
    requires
        table.dom().contains("include"@),
        other.dom().contains("include"@),
        includes_of(table, chain) is Ok,
        includes_of(other, chain) is Ok,
        includes_of(table, chain) == includes_of(other, chain),
    ensures
        table["include"@] == other["include"@],
{
    law_every_entry_is_taken(table, chain);
    law_every_entry_is_taken(other, chain);
    let a = table["include"@]->Array_0;
    let b = other["include"@]->Array_0;
    assert forall|i: int| 0 <= i < a.len() implies #[trigger] a[i] == b[i] by {
        assert(a[i] is Text);
        assert(b[i] is Text);
    }
    assert(a =~= b);
}

/// The file that an error names is the one being expanded, and a chain is shown
/// with every file on it, in order.
pub proof fn law_chain_is_shown_whole(
    first: Seq<FileView>,
    file: FileView,
    rest: Seq<FileView>,
)
    requires
        first.len() > 0,
        rest.len() > 0,
    ensures
        current_shown(first.push(file)) == file.shown,
        current_shown(Seq::empty()) == "config"@,
        chain_shown(seq![file]) == file.shown,
        chain_shown(first + rest) == chain_shown(first) + " -> "@ + chain_shown(rest),
{
    let shown = |f: FileView| f.shown;
    let a = first.map_values(shown);
    let b = rest.map_values(shown);
    text::law_join(a, file.shown, b, " -> "@);
    assert((first + rest).map_values(shown) =~= a + b);
    assert(seq![file].map_values(shown) =~= seq![file.shown]);
}

/// A file is on a chain where some file of the chain has its handle.
pub proof fn law_on_chain(before: Seq<FileView>, file: FileView, after: Seq<FileView>, handle: u64)
    ensures
        on_chain(before.push(file) + after, file.handle),
        on_chain(before + after, handle) <==> on_chain(before, handle) || on_chain(after, handle),
        !on_chain(Seq::empty(), handle),
{
    let all = before.push(file) + after;
    assert(all[before.len() as int].handle == file.handle);
    let both = before + after;
    if on_chain(before, handle) {
        let i = choose|i: int| 0 <= i < before.len() && #[trigger] before[i].handle == handle;
        assert(both[i].handle == handle);
    }
    if on_chain(after, handle) {
        let i = choose|i: int| 0 <= i < after.len() && #[trigger] after[i].handle == handle;
        assert(both[before.len() + i].handle == handle);
    }
    if on_chain(both, handle) {
        let i = choose|i: int| 0 <= i < both.len() && #[trigger] both[i].handle == handle;
        if i < before.len() {
            assert(before[i].handle == handle);
        } else {
            assert(after[i - before.len()].handle == handle);
        }
    }
}

/// What an error says names the file, the entry, the place or the chain that it is
/// about, whole.
pub proof fn law_messages_name_what_they_are_about(
    a: Seq<char>,
    b: Seq<char>,
    c: Seq<char>,
    d: Seq<char>,
)
    ensures
        error_message(IncludeErrorView::NotAnArray { source: a }) == "`include` in "@ + a
            + " must be an array of paths"@,
        error_message(IncludeErrorView::NotPaths { source: a }) == "`include` in "@ + a
            + " must contain only path strings"@,
        error_message(
            IncludeErrorView::Unresolved { entry: a, source: b, target: c, cause: d },
        ) == "Config include \""@ + a + "\" from "@ + b
            + " does not resolve to a readable file at "@ + c,
        error_message(IncludeErrorView::Cycle { chain: a }) == "Config include cycle: "@ + a,
        error_message(IncludeErrorView::Unreadable { path: a, cause: d })
            == "Failed to read config include "@ + a,
{
}

/// What an error about a text of TOML says names the file, whatever the cause.
pub proof fn law_messages_name_the_file(
    path: Seq<char>,
    parse_error: toml::de::Error,
    write_error: toml::ser::Error,
)
    ensures
        error_message(IncludeErrorView::Malformed { path, parse_error })
            == "Failed to parse config include "@ + path,
        error_message(IncludeErrorView::Unwritable { path, write_error })
            == "Failed to re-serialize "@ + path + " after include expansion"@,
{
}

/// An entry that leads nowhere is an error that says what was looked for and from
/// where; one that leads to a file on the chain is a cycle, shown up to that file;
/// and any other leads to the file that was found.
pub proof fn law_resolving(
    entry: Seq<char>,
    chain: Seq<FileView>,
    file: FileView,
    missing: MissingView,
)
    ensures
        resolved_file(entry, chain, Err(missing)) == Err::<FileView, _>(
            IncludeErrorView::Unresolved {
                entry,
                source: current_shown(chain),
                target: missing.target,
                cause: missing.cause,
            },
        ),
        !(exists|i: int| 0 <= i < chain.len() && (#[trigger] chain[i]).handle == file.handle)
            ==> resolved_file(entry, chain, Ok(file)) == Ok::<_, IncludeErrorView>(file),
        (exists|i: int| 0 <= i < chain.len() && (#[trigger] chain[i]).handle == file.handle)
            ==> resolved_file(entry, chain, Ok(file)) == Err::<FileView, _>(
            IncludeErrorView::Cycle { chain: chain_shown(chain.push(file)) },
        ),
{
}

/// A file comes to a layer with the paths that it lists, relative to the file's own
/// directory, and with all that it holds but the list. What cannot be read or
/// parsed is an error that names the file and gives the cause.
pub proof fn law_layer_of_a_file(
    file: FileView,
    dir: u64,
    chain: Seq<FileView>,
    text: Seq<char>,
    cause: Seq<char>,
)
    ensures
        read_layer(file, dir, chain, Err(cause)) == Err::<LayerView, _>(
            IncludeErrorView::Unreadable { path: file.shown, cause },
        ),
        match toml_tree::toml_document(text) {
            Err(parse_error) => read_layer(file, dir, chain, Ok(text)) == Err::<LayerView, _>(
                IncludeErrorView::Malformed { path: file.shown, parse_error },
            ),
            Ok(table) => match read_layer(file, dir, chain, Ok(text)) {
                Ok(layer) => {
                    &&& includes_of(table, chain.push(file)) == Ok::<_, IncludeErrorView>(
                        layer.pending,
                    )
                    &&& file.parent matches Some(own) ==> layer.dir == own
                    &&& file.parent is None ==> layer.dir == dir
                    &&& layer_holds_all_but_the_list(layer.table, table)
                },
                Err(e) => includes_of(table, chain.push(file)) == Err::<Seq<Seq<char>>, _>(e),
            },
        },
{
}

/// Whether `kept` is what `table` holds under every key but that of the list.
pub open spec fn layer_holds_all_but_the_list(
    kept: Map<Seq<char>, toml_tree::Toml>,
    table: Map<Seq<char>, toml_tree::Toml>,
) -> bool {
    forall|key: Seq<char>|
        (#[trigger] kept.dom().contains(key) <==> table.dom().contains(key) && key != "include"@)
            && (kept.dom().contains(key) ==> kept[key] == table[key])
}

/// A run begins with the root file alone, with the paths that it lists and all that
/// it holds but the list, and with nothing merged.
pub proof fn law_run_begins_with_the_root_alone(
    path: Seq<char>,
    table: Map<Seq<char>, toml_tree::Toml>,
    root: FileView,
    here: u64,
)
    ensures
        match started(path, table, root, here) {
            Ok(run) => {
                &&& run.path == path
                &&& run.chain.len() == 1
                &&& run.chain[0] == root
                &&& run.layers.len() == 1
                &&& includes_of(table, run.chain) == Ok::<_, IncludeErrorView>(
                    run.layers[0].pending,
                )
                &&& root.parent matches Some(own) ==> run.layers[0].dir == own
                &&& root.parent is None ==> run.layers[0].dir == here
                &&& layer_holds_all_but_the_list(run.layers[0].table, table)
                &&& forall|key: Seq<char>| !#[trigger] run.out.dom().contains(key)
            },
            Err(e) => includes_of(table, seq![root]) == Err::<Seq<Seq<char>>, _>(e),
        },
{
}

/// A run goes on with the file that was read: nothing else of it changes.
pub proof fn law_run_goes_on_with_the_file(asked: ReadView, layer: LayerView, e: IncludeErrorView)
    ensures
        run_with(asked, Err(e)) == Err::<RunView, _>(e),
        run_with(asked, Ok(layer)) matches Ok(run) && {
            &&& run.path == asked.run.path
            &&& run.out == asked.run.out
            &&& run.layers == asked.run.layers.push(layer)
            &&& run.chain == asked.run.chain.push(asked.file)
        },
{
}

/// Taking the next path takes the first of those to come and leaves the others in
/// their order; nothing else of the run changes.
pub proof fn law_paths_are_taken_in_order(run: RunView)
    requires
        run.layers.len() > 0,
        run.layers.last().pending.len() > 0,
    ensures
        ({
            let taken = entry_taken(run);
            let last = taken.layers.last();
            &&& taken.path == run.path
            &&& taken.out == run.out
            &&& taken.chain == run.chain
            &&& taken.layers.len() == run.layers.len()
            &&& forall|i: int|
                0 <= i < run.layers.len() - 1 ==> #[trigger] taken.layers[i] == run.layers[i]
            &&& last.dir == run.layers.last().dir
            &&& last.table == run.layers.last().table
            &&& seq![run.layers.last().pending[0]] + last.pending == run.layers.last().pending
        }),
{
    let pending = run.layers.last().pending;
    assert(seq![pending[0]] + pending.skip(1) =~= pending);
}

/// Settling merges a source onto what was merged before it once all of its paths
/// are taken, and leaves a run alone that has a path to take or is done.
pub proof fn law_settling_merges_what_is_complete(run: RunView)
    ensures
        run.layers.len() == 0 || run.layers.last().pending.len() > 0 ==> settled(run) == run,
        run.layers.len() > 0 && run.layers.last().pending.len() == 0 ==> settled(run) == settled(
            RunView {
                path: run.path,
                out: toml_tree::merged_tables(run.out, run.layers.last().table),
                layers: run.layers.drop_last(),
                chain: run.chain.drop_last(),
            },
        ),
        settled(run).layers.len() == 0 || settled(run).layers.last().pending.len() > 0,
    decreases run.layers.len(),
{
    if run.layers.len() > 0 && run.layers.last().pending.len() == 0 {
        law_settling_merges_what_is_complete(
            RunView {
                path: run.path,
                out: toml_tree::merged_tables(run.out, run.layers.last().table),
                layers: run.layers.drop_last(),
                chain: run.chain.drop_last(),
            },
        );
    }
}

/// A finished run gives the text as it was written, or says which file could not
/// be written and why.
pub proof fn law_written(path: Seq<char>, text: Seq<char>, write_error: toml::ser::Error)
    ensures
        written(path, Ok(text)) == Ok::<_, IncludeErrorView>(text),
        written(path, Err(write_error)) == Err::<Seq<char>, _>(
            IncludeErrorView::Unwritable { path, write_error },
        ),
{
}

/// A file has something to expand exactly where it is TOML with the key at its top.
/// Contents that stay as they are stay so to the last character, and a root file
/// that is expanded is expanded whole.
pub proof fn law_what_there_is_to_expand(
    e: Expansion,
    contents: Seq<char>,
    table: Map<Seq<char>, toml_tree::Toml>,
    parse_error: toml::de::Error,
)
    ensures
        has_includes(Ok(table)) <==> table.dom().contains("include"@),
        !has_includes(Err(parse_error)),
        verbatim(e, contents) <==> (e matches Expansion::Verbatim(s) && s@ == contents),
        layered(e, contents, table) <==> (e matches Expansion::Layered(root) && root.path@
            == contents && toml_tree::table_tree(root.table) == table),
{
}

/// A view shows each part of a file and of a layer.
pub proof fn law_views_show_files_and_layers(
    file: SourceFile,
    files: Seq<SourceFile>,
    missing: Missing,
    layer: Layer,
    layers: Seq<Layer>,
)
    ensures
        file@.handle == file.handle,
        file@.shown == file.shown@,
        file@.parent == file.parent,
        file_views(files).len() == files.len(),
        forall|i: int| 0 <= i < files.len() ==> #[trigger] file_views(files)[i] == files[i]@,
        missing@.target == missing.target@,
        missing@.cause == missing.cause@,
        layer@.dir == layer.dir,
        layer@.pending == text::texts(layer.pending@),
        layer@.table == toml_tree::table_tree(layer.table),
        layer_views(layers).len() == layers.len(),
        forall|i: int| 0 <= i < layers.len() ==> #[trigger] layer_views(layers)[i] == layers[i]@,
        found_view(Ok(file)) == Ok::<_, MissingView>(file@),
        found_view(Err(missing)) == Err::<FileView, _>(missing@),
{
}

/// A view shows each part of an error, and of an outcome what it is.
pub proof fn law_views_show_errors(
    e: IncludeError,
    s: String,
    paths: Vec<String>,
    layer: Layer,
    run: IncludeRun,
    table: toml::map::Map<String, toml::Value>,
)
    ensures
        e matches IncludeError::NotAnArray { source } ==> e@ == (IncludeErrorView::NotAnArray {
            source: source@,
        }),
        e matches IncludeError::NotPaths { source } ==> e@ == (IncludeErrorView::NotPaths {
            source: source@,
        }),
        e matches IncludeError::Unresolved { entry, source, target, cause } ==> e@ == (
        IncludeErrorView::Unresolved {
            entry: entry@,
            source: source@,
            target: target@,
            cause: cause@,
        }),
        e matches IncludeError::Cycle { chain } ==> e@ == (IncludeErrorView::Cycle {
            chain: chain@,
        }),
        e matches IncludeError::Unreadable { path, cause } ==> e@ == (
        IncludeErrorView::Unreadable { path: path@, cause: cause@ }),
        e matches IncludeError::Malformed { path, parse_error } ==> e@ == (
        IncludeErrorView::Malformed { path: path@, parse_error }),
        e matches IncludeError::Unwritable { path, write_error } ==> e@ == (
        IncludeErrorView::Unwritable { path: path@, write_error }),
        written_view(Ok(s)) == Ok::<_, IncludeErrorView>(s@),
        written_view(Err(e)) == Err::<Seq<char>, _>(e@),
        paths_view(Ok(paths)) == Ok::<_, IncludeErrorView>(text::texts(paths@)),
        paths_view(Err(e)) == Err::<Seq<Seq<char>>, _>(e@),
        layer_view(Ok(layer)) == Ok::<_, IncludeErrorView>(layer@),
        layer_view(Err(e)) == Err::<LayerView, _>(e@),
        run_view(Ok(run)) == Ok::<_, IncludeErrorView>(run@),
        run_view(Err(e)) == Err::<RunView, _>(e@),
        text_view(Ok(s)) == Ok::<_, Seq<char>>(s@),
        text_view(Err(s)) == Err::<Seq<char>, _>(s@),
        parsed_view(Ok(table)) == Ok::<_, toml::de::Error>(toml_tree::table_tree(table)),
{
}

} // verus!
