//! Shared vocabulary: identifiers, kinds, chunks, links and parse results.

use std::ops::Range;

use vstd::prelude::*;

use crate::json::{Json, JsonView};
use crate::keymap::KeyMap;

verus! {

/// Unique identifier for a document in the index. Assigned in ascending order by the registry.
pub type DocId = u32;

/// Unique identifier for a chunk. Assigned in ascending order by the registry.
pub type ChunkId = u32;

/// A namespaced key for a bitmap in the store, such as `tag:work` or `type:task`.
pub type BitmapKey = String;

/// Seconds since the Unix epoch.
pub type Timestamp = i64;

/// The source type of an indexed document.
#[derive(Debug, PartialEq, Eq)]
pub enum SourceType {
    Obsidian,
    Code,
    Custom(String),
}

/// The source type with its name taken as text.
pub enum SourceTypeView {
    Obsidian,
    Code,
    Custom(Seq<char>),
}

impl View for SourceType {
    type V = SourceTypeView;

    open spec fn view(&self) -> SourceTypeView {
        match self {
            SourceType::Obsidian => SourceTypeView::Obsidian,
            SourceType::Code => SourceTypeView::Code,
            SourceType::Custom(s) => SourceTypeView::Custom(s@),
        }
    }
}

impl Clone for SourceType {
    fn clone(&self) -> (r: Self)
        ensures
            r == *self,
    {
        match self {
            SourceType::Obsidian => SourceType::Obsidian,
            SourceType::Code => SourceType::Code,
            SourceType::Custom(s) => SourceType::Custom(s.clone()),
        }
    }
}

/// Document type detected from structure and path.
#[derive(Clone, Copy, Debug, PartialEq, Eq, Structural)]
pub enum DocType {
    /// No strong structural signal.
    Note,
    /// High density of checkboxes.
    Task,
    /// High density of wikilinks: a map of content.
    Moc,
    /// Has url, isbn or source in its frontmatter.
    Reference,
    /// A source file.
    SourceFile,
    /// A file of tests.
    TestFile,
    /// A configuration file.
    ConfigFile,
}

/// The document type of a note.
pub type NoteType = DocType;

/// The category of a bitmap key, for catalog queries.
#[derive(Clone, Copy, Debug, PartialEq, Eq, Structural)]
pub enum BitmapCategory {
    Tag,
    Folder,
    Link,
    Type,
    Source,
}

/// The kind of a chunk of a document or of code.
#[derive(Clone, Copy, Debug, PartialEq, Eq, Structural)]
pub enum ChunkKind {
    Section,
    Frontmatter,
    Body,
    Function,
    Method,
    Class,
    Module,
    Import,
    Constant,
}

/// Visibility of a code symbol.
#[derive(Clone, Copy, Debug, PartialEq, Eq, Structural)]
pub enum Visibility {
    Public,
    Private,
    /// Visible within its own crate or package.
    Internal,
}

/// What only some kinds of chunks have.
#[derive(Debug)]
pub struct ChunkMetadata {
    /// For code: the function's signature.
    pub signature: Option<String>,
    /// For code: the language.
    pub language: Option<String>,
    /// For code: visibility or export status.
    pub visibility: Option<Visibility>,
}

/// Chunk metadata with its strings taken as texts.
#[verifier::ext_equal]
pub struct MetadataView {
    pub signature: Option<Seq<char>>,
    pub language: Option<Seq<char>>,
    pub visibility: Option<Visibility>,
}

/// An optional string taken as a text.
pub open spec fn text_of(o: Option<String>) -> Option<Seq<char>> {
    match o {
        Some(s) => Some(s@),
        None => None,
    }
}

/// A copy of an optional string.
pub fn clone_text(o: &Option<String>) -> (r: Option<String>)
    ensures
        r == *o,
{
    match o {
        Some(s) => Some(s.clone()),
        None => None,
    }
}

impl View for ChunkMetadata {
    type V = MetadataView;

    open spec fn view(&self) -> MetadataView {
        MetadataView {
            signature: text_of(self.signature),
            language: text_of(self.language),
            visibility: self.visibility,
        }
    }
}

/// Metadata of a chunk that has none.
pub open spec fn no_metadata() -> MetadataView {
    MetadataView { signature: None, language: None, visibility: None }
}

impl Default for ChunkMetadata {
    fn default() -> (r: Self)
        ensures
            r@ == no_metadata(),
    {
        ChunkMetadata { signature: None, language: None, visibility: None }
    }
}

impl Clone for ChunkMetadata {
    fn clone(&self) -> (r: Self)
        ensures
            r == *self,
    {
        ChunkMetadata {
            signature: clone_text(&self.signature),
            language: clone_text(&self.language),
            visibility: self.visibility,
        }
    }
}

/// A chunk boundary identified by a parser.
#[derive(Debug)]
pub struct Chunk {
    /// Byte range within the source file.
    pub byte_range: Range<usize>,
    /// What kind of chunk this is.
    pub kind: ChunkKind,
    /// Heading text, function name, class name.
    pub label: Option<String>,
    /// Heading depth for documents, scope depth for code.
    pub depth: u8,
    /// What only some kinds of chunks have.
    pub metadata: ChunkMetadata,
}

/// A chunk with its strings taken as texts.
#[verifier::ext_equal]
pub struct ChunkView {
    pub start: int,
    pub end: int,
    pub kind: ChunkKind,
    pub label: Option<Seq<char>>,
    pub depth: u8,
    pub metadata: MetadataView,
}

impl View for Chunk {
    type V = ChunkView;

    open spec fn view(&self) -> ChunkView {
        ChunkView {
            start: self.byte_range.start as int,
            end: self.byte_range.end as int,
            kind: self.kind,
            label: text_of(self.label),
            depth: self.depth,
            metadata: self.metadata@,
        }
    }
}

impl Clone for Chunk {
    fn clone(&self) -> (r: Self)
        ensures
            r == *self,
    {
        Chunk {
            byte_range: Range { start: self.byte_range.start, end: self.byte_range.end },
            kind: self.kind,
            label: clone_text(&self.label),
            depth: self.depth,
            metadata: self.metadata.clone(),
        }
    }
}

/// A reference to another document.
#[derive(Debug)]
pub struct LinkRef {
    /// The target as written, e.g. "ProjectAlpha" from `[[ProjectAlpha]]`.
    pub target: String,
    /// Display text, e.g. "my project" from `[[ProjectAlpha|my project]]`.
    pub display: Option<String>,
    /// Byte position of the link in the source file.
    pub byte_offset: usize,
}

/// A link with its strings taken as texts.
#[verifier::ext_equal]
pub struct LinkView {
    pub target: Seq<char>,
    pub display: Option<Seq<char>>,
    pub byte_offset: int,
}

impl View for LinkRef {
    type V = LinkView;

    open spec fn view(&self) -> LinkView {
        LinkView {
            target: self.target@,
            display: text_of(self.display),
            byte_offset: self.byte_offset as int,
        }
    }
}

impl Clone for LinkRef {
    fn clone(&self) -> (r: Self)
        ensures
            r == *self,
    {
        LinkRef {
            target: self.target.clone(),
            display: clone_text(&self.display),
            byte_offset: self.byte_offset,
        }
    }
}

/// The views of a sequence of values.
pub open spec fn views<T: View>(s: Seq<T>) -> Seq<T::V> {
    Seq::new(s.len(), |i: int| s[i]@)
}

/// Taking views commutes with appending.
pub broadcast proof fn lemma_views_push<T: View>(s: Seq<T>, x: T)
    ensures
        #[trigger] views(s.push(x)) == views(s).push(x@),
{
    assert(views(s.push(x)) =~= views(s).push(x@));
}

/// The complete output of parsing a single file.
#[derive(Debug)]
pub struct ParseResult {
    /// Chunks identified in the file: at minimum one, the whole file.
    pub chunks: Vec<Chunk>,
    /// Tags extracted from frontmatter and text.
    pub tags: Vec<String>,
    /// Links to other documents.
    pub links: Vec<LinkRef>,
    /// Detected document type, if there is a signal for one.
    pub auto_type: Option<DocType>,
    /// Frontmatter fields.
    pub frontmatter: KeyMap<Json>,
}

/// A parse result with its strings taken as texts.
#[verifier::ext_equal]
pub struct ParseView {
    pub chunks: Seq<ChunkView>,
    pub tags: Seq<Seq<char>>,
    pub links: Seq<LinkView>,
    pub auto_type: Option<DocType>,
    pub frontmatter: Map<Seq<char>, JsonView>,
}

/// A map of JSON values with their strings taken as texts.
pub open spec fn json_map(m: Map<Seq<char>, Json>) -> Map<Seq<char>, JsonView> {
    Map::new(|k: Seq<char>| m.dom().contains(k), |k: Seq<char>| m[k].model())
}

impl View for ParseResult {
    type V = ParseView;

    open spec fn view(&self) -> ParseView {
        ParseView {
            chunks: views(self.chunks@),
            tags: self.tags.deep_view(),
            links: views(self.links@),
            auto_type: self.auto_type,
            frontmatter: json_map(self.frontmatter@),
        }
    }
}

/// What parsing gives, with strings taken as texts.
pub open spec fn parse_outcome(r: Result<ParseResult, ParseError>) -> Result<
    ParseView,
    ParseErrorView,
> {
    match r {
        Ok(p) => Ok(p@),
        Err(e) => Err(e@),
    }
}

/// Errors from parsing.
#[derive(Debug)]
pub enum ParseError {
    /// The content is not valid UTF-8.
    InvalidUtf8,
    /// The frontmatter is not valid YAML.
    BadFrontmatter(String),
    /// Any other failure.
    Internal(String),
    /// The parser does not handle this kind of file.
    Unsupported(String),
}

/// A parse error with its strings taken as texts.
pub enum ParseErrorView {
    InvalidUtf8,
    BadFrontmatter(Seq<char>),
    Internal(Seq<char>),
    Unsupported(Seq<char>),
}

impl View for ParseError {
    type V = ParseErrorView;

    open spec fn view(&self) -> ParseErrorView {
        match self {
            ParseError::InvalidUtf8 => ParseErrorView::InvalidUtf8,
            ParseError::BadFrontmatter(s) => ParseErrorView::BadFrontmatter(s@),
            ParseError::Internal(s) => ParseErrorView::Internal(s@),
            ParseError::Unsupported(s) => ParseErrorView::Unsupported(s@),
        }
    }
}

impl ParseError {
    /// The message of the error.
    pub fn message(&self) -> (r: String)
        ensures
            r@ == parse_error_message(self@),
    {
        match self {
            ParseError::InvalidUtf8 => "invalid UTF-8 in file".to_owned(),
            ParseError::BadFrontmatter(s) => crate::text::concat("malformed frontmatter: ", s.as_str()),
            ParseError::Internal(s) => crate::text::concat("parser internal error: ", s.as_str()),
            ParseError::Unsupported(s) => crate::text::concat("unsupported file type: ", s.as_str()),
        }
    }
}

/// The message of a parse error.
pub open spec fn parse_error_message(e: ParseErrorView) -> Seq<char> {
    match e {
        ParseErrorView::InvalidUtf8 => "invalid UTF-8 in file"@,
        ParseErrorView::BadFrontmatter(s) => "malformed frontmatter: "@ + s,
        ParseErrorView::Internal(s) => "parser internal error: "@ + s,
        ParseErrorView::Unsupported(s) => "unsupported file type: "@ + s,
    }
}

/// The kind of a filesystem change.
#[derive(Debug, PartialEq, Eq)]
pub enum ChangeKind {
    Created,
    Modified,
    Deleted,
    Renamed { from: String },
}

/// A filesystem change.
#[derive(Debug, PartialEq, Eq)]
pub struct ChangeEvent {
    pub path: String,
    pub kind: ChangeKind,
}

} // verus!
