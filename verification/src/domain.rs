//! The records that the stores hold and the analyses pass around.

use vstd::prelude::*;
use vstd::slice::slice_to_vec;
use crate::text::{copy_all, copy_opt, has_text, opt_str, opt_text, texts};

verus! {

/// Why an operation failed.
#[derive(Debug)]
pub enum DomainError {
    NotFound(String),
    InvalidInput(String),
    StorageError(String),
    ParseError(String),
    Internal(String),
}

/// A programming language.
#[derive(Debug, Clone, Copy, PartialEq, Eq, Structural)]
pub enum Language {
    Rust,
    Python,
    JavaScript,
    TypeScript,
    Go,
    Hcl,
    Php,
    Cpp,
    Unknown,
}

impl Language {
    /// The name of the language.
    pub open spec fn name(self) -> Seq<char> {
        match self {
            Language::Rust => "rust"@,
            Language::Python => "python"@,
            Language::JavaScript => "javascript"@,
            Language::TypeScript => "typescript"@,
            Language::Go => "go"@,
            Language::Hcl => "hcl"@,
            Language::Php => "php"@,
            Language::Cpp => "cpp"@,
            Language::Unknown => "unknown"@,
        }
    }

    /// The name of the language.
    pub fn as_str(&self) -> (r: &'static str)
        ensures
            r@ == self.name(),
    {
        match self {
            Language::Rust => "rust",
            Language::Python => "python",
            Language::JavaScript => "javascript",
            Language::TypeScript => "typescript",
            Language::Go => "go",
            Language::Hcl => "hcl",
            Language::Php => "php",
            Language::Cpp => "cpp",
            Language::Unknown => "unknown",
        }
    }
}

/// What a chunk of code is.
#[derive(Debug, Clone, Copy, PartialEq, Eq, Structural)]
pub enum NodeType {
    Function,
    Class,
    Struct,
    Module,
    Block,
}

/// An indexed piece of a source file.
#[derive(Debug)]
pub struct CodeChunk {
    pub id: String,
    pub file_path: String,
    pub content: String,
    pub start_line: u32,
    pub end_line: u32,
    pub language: Language,
    pub node_type: NodeType,
    pub symbol_name: Option<String>,
    pub parent_symbol: Option<String>,
    pub repository_id: String,
}

impl CodeChunk {
    /// Puts a stored chunk together again.
    pub fn reconstitute(
        id: String,
        file_path: String,
        content: String,
        start_line: u32,
        end_line: u32,
        language: Language,
        node_type: NodeType,
        symbol_name: Option<String>,
        parent_symbol: Option<String>,
        repository_id: String,
    ) -> (r: CodeChunk)
        ensures
            r == (CodeChunk {
                id,
                file_path,
                content,
                start_line,
                end_line,
                language,
                node_type,
                symbol_name,
                parent_symbol,
                repository_id,
            }),
    {
        CodeChunk {
            id,
            file_path,
            content,
            start_line,
            end_line,
            language,
            node_type,
            symbol_name,
            parent_symbol,
            repository_id,
        }
    }

    /// A copy of the chunk.
    pub fn copied(&self) -> (r: CodeChunk)
        ensures
            r == *self,
    {
        CodeChunk {
            id: self.id.clone(),
            file_path: self.file_path.clone(),
            content: self.content.clone(),
            start_line: self.start_line,
            end_line: self.end_line,
            language: self.language,
            node_type: self.node_type,
            symbol_name: copy_opt(&self.symbol_name),
            parent_symbol: copy_opt(&self.parent_symbol),
            repository_id: self.repository_id.clone(),
        }
    }

    pub fn id(&self) -> (r: &str)
        ensures
            r@ == self.id@,
    {
        self.id.as_str()
    }

    pub fn file_path(&self) -> (r: &str)
        ensures
            r@ == self.file_path@,
    {
        self.file_path.as_str()
    }

    pub fn symbol_name(&self) -> (r: Option<&str>)
        ensures
            opt_str(r) == opt_text(self.symbol_name),
    {
        match &self.symbol_name {
            Some(s) => Some(s.as_str()),
            None => None,
        }
    }
}

/// A chunk with the score it was found with, in parts of
/// [`SCORE_ONE`](crate::fusion::SCORE_ONE).
#[derive(Debug)]
pub struct SearchResult {
    pub chunk: CodeChunk,
    pub score: i128,
}

impl SearchResult {
    pub fn new(chunk: CodeChunk, score: i128) -> (r: SearchResult)
        ensures
            r.chunk == chunk,
            r.score == score,
    {
        SearchResult { chunk, score }
    }

    pub fn chunk(&self) -> (r: &CodeChunk)
        ensures
            *r == self.chunk,
    {
        &self.chunk
    }

    pub fn score(&self) -> (r: i128)
        ensures
            r == self.score,
    {
        self.score
    }
}

/// How one symbol refers to another.
#[derive(Debug, Clone, Copy, PartialEq, Eq, Structural)]
pub enum ReferenceKind {
    Call,
    MethodCall,
    Instantiation,
    MacroInvocation,
    TypeReference,
    Import,
    Inheritance,
    Implementation,
    Unknown,
}

impl ReferenceKind {
    /// The name of the kind.
    pub open spec fn name(self) -> Seq<char> {
        match self {
            ReferenceKind::Call => "call"@,
            ReferenceKind::MethodCall => "method_call"@,
            ReferenceKind::Instantiation => "instantiation"@,
            ReferenceKind::MacroInvocation => "macro_invocation"@,
            ReferenceKind::TypeReference => "type_reference"@,
            ReferenceKind::Import => "import"@,
            ReferenceKind::Inheritance => "inheritance"@,
            ReferenceKind::Implementation => "implementation"@,
            ReferenceKind::Unknown => "unknown"@,
        }
    }

    /// The name of the kind.
    pub fn as_str(&self) -> (r: &'static str)
        ensures
            r@ == self.name(),
    {
        match self {
            ReferenceKind::Call => "call",
            ReferenceKind::MethodCall => "method_call",
            ReferenceKind::Instantiation => "instantiation",
            ReferenceKind::MacroInvocation => "macro_invocation",
            ReferenceKind::TypeReference => "type_reference",
            ReferenceKind::Import => "import",
            ReferenceKind::Inheritance => "inheritance",
            ReferenceKind::Implementation => "implementation",
            ReferenceKind::Unknown => "unknown",
        }
    }
}

/// One reference from a place in the code to a symbol.
#[derive(Debug)]
pub struct SymbolReference {
    pub caller_symbol: Option<String>,
    pub callee_symbol: String,
    pub caller_file_path: String,
    pub reference_file_path: String,
    pub reference_line: u32,
    pub reference_column: u32,
    pub reference_kind: ReferenceKind,
    pub language: Language,
    pub repository_id: String,
    pub callee_package: Option<String>,
    pub enclosing_scope: Option<String>,
    pub import_alias: Option<String>,
}

impl SymbolReference {
    pub fn new(
        caller_symbol: Option<String>,
        callee_symbol: String,
        caller_file_path: String,
        reference_file_path: String,
        reference_line: u32,
        reference_column: u32,
        reference_kind: ReferenceKind,
        language: Language,
        repository_id: String,
    ) -> (r: SymbolReference)
        ensures
            r == (SymbolReference {
                caller_symbol,
                callee_symbol,
                caller_file_path,
                reference_file_path,
                reference_line,
                reference_column,
                reference_kind,
                language,
                repository_id,
                callee_package: None,
                enclosing_scope: None,
                import_alias: None,
            }),
    {
        SymbolReference {
            caller_symbol,
            callee_symbol,
            caller_file_path,
            reference_file_path,
            reference_line,
            reference_column,
            reference_kind,
            language,
            repository_id,
            callee_package: None,
            enclosing_scope: None,
            import_alias: None,
        }
    }

    /// The reference with the package that its callee comes from.
    pub fn with_callee_package(self, package: &str) -> (r: SymbolReference)
        ensures
            opt_text(r.callee_package) == Some(package@),
            r == (SymbolReference { callee_package: r.callee_package, ..self }),
    {
        SymbolReference { callee_package: Some(package.to_string()), ..self }
    }

    /// The reference with the scope that it stands in.
    pub fn with_enclosing_scope(self, scope: &str) -> (r: SymbolReference)
        ensures
            opt_text(r.enclosing_scope) == Some(scope@),
            r == (SymbolReference { enclosing_scope: r.enclosing_scope, ..self }),
    {
        SymbolReference { enclosing_scope: Some(scope.to_string()), ..self }
    }

    /// A copy of the reference.
    pub fn copied(&self) -> (r: SymbolReference)
        ensures
            r == *self,
    {
        SymbolReference {
            caller_symbol: copy_opt(&self.caller_symbol),
            callee_symbol: self.callee_symbol.clone(),
            caller_file_path: self.caller_file_path.clone(),
            reference_file_path: self.reference_file_path.clone(),
            reference_line: self.reference_line,
            reference_column: self.reference_column,
            reference_kind: self.reference_kind,
            language: self.language,
            repository_id: self.repository_id.clone(),
            callee_package: copy_opt(&self.callee_package),
            enclosing_scope: copy_opt(&self.enclosing_scope),
            import_alias: copy_opt(&self.import_alias),
        }
    }
}

/// What to search for, and where.
#[derive(Debug)]
pub struct SearchQuery {
    pub query: String,
    pub limit: usize,
    pub text_search: bool,
    /// Languages to search, or `None` for all.
    pub languages: Option<Vec<Language>>,
    /// Repositories to search, or `None` for all.
    pub repository_ids: Option<Vec<String>>,
}

impl SearchQuery {
    pub fn new(query: &str) -> (r: SearchQuery)
        ensures
            r.query@ == query@,
            r.limit == 10,
            !r.text_search,
            r.languages is None,
            r.repository_ids is None,
    {
        SearchQuery {
            query: query.to_string(),
            limit: 10,
            text_search: false,
            languages: None,
            repository_ids: None,
        }
    }

    pub fn with_limit(self, limit: usize) -> (r: SearchQuery)
        ensures
            r == (SearchQuery { limit, ..self }),
    {
        SearchQuery { limit, ..self }
    }

    pub fn with_text_search(self, text_search: bool) -> (r: SearchQuery)
        ensures
            r == (SearchQuery { text_search, ..self }),
    {
        SearchQuery { text_search, ..self }
    }

    /// The query with another limit and mode: its text and filters copied.
    pub fn adjusted(&self, limit: usize, text_search: bool) -> (r: SearchQuery)
        ensures
            r.query == self.query,
            r.limit == limit,
            r.text_search == text_search,
            forall|c: CodeChunk| #[trigger] r.admits(c) == self.admits(c),
            r.languages is Some == self.languages is Some,
            r.languages matches Some(ls) ==> ls@ == self.languages->0@,
            r.repository_ids is Some == self.repository_ids is Some,
            r.repository_ids matches Some(ids) ==> ids@ == self.repository_ids->0@,
    {
        let languages = match &self.languages {
            Some(ls) => Some(slice_to_vec(ls.as_slice())),
            None => None,
        };
        let repository_ids = match &self.repository_ids {
            Some(ids) => Some(copy_all(ids)),
            None => None,
        };
        SearchQuery { query: self.query.clone(), limit, text_search, languages, repository_ids }
    }

    /// The chunk passes the filters of the query.
    pub open spec fn admits(self, chunk: CodeChunk) -> bool {
        &&& self.languages matches Some(ls) ==> ls@.contains(chunk.language)
        &&& self.repository_ids matches Some(rs) ==> texts(rs@).contains(chunk.repository_id@)
    }

    /// Whether the chunk passes the filters of the query.
    pub fn matches(&self, chunk: &CodeChunk) -> (r: bool)
        ensures
            r == self.admits(*chunk),
    {
        if let Some(ls) = &self.languages {
            let mut found = false;
            let mut i: usize = 0;
            while i < ls.len()
                invariant
                    i <= ls@.len(),
                    found == (exists|k: int| 0 <= k < i && #[trigger] ls@[k] == chunk.language),
                decreases ls@.len() - i,
            {
                if ls[i] == chunk.language {
                    found = true;
                }
                i += 1;
            }
            if !found {
                return false;
            }
        }
        if let Some(rs) = &self.repository_ids {
            if !has_text(rs, chunk.repository_id.as_str()) {
                return false;
            }
        }
        true
    }
}

/// An indexed repository.
#[derive(Debug)]
pub struct Repository {
    pub id: String,
    pub name: String,
    pub path: String,
    pub namespace: Option<String>,
}

/// A repository of a file graph.
#[derive(Debug)]
pub struct FileGraphRepo {
    pub id: String,
    pub name: String,
    pub path: String,
}

/// A dependency of one file on another.
#[derive(Debug)]
pub struct FileEdge {
    pub from_file: String,
    pub from_repo_id: String,
    pub to_file: String,
    pub to_repo_id: String,
    /// Number of references behind the edge.
    pub weight: usize,
    pub reference_kinds: Vec<String>,
    pub symbols: Vec<String>,
}

/// The dependencies between files.
#[derive(Debug)]
pub struct FileGraph {
    /// The repositories, each id once.
    pub repositories: Vec<FileGraphRepo>,
    /// The files at the ends of the edges, each once.
    pub files: Vec<String>,
    pub edges: Vec<FileEdge>,
}

} // verus!
