//! The data model: owners, tags, rule entries, resolved file ownership and
//! the ownership cache, together with their mathematical views.

use vstd::prelude::*;

verus! {

/// Format version written into every persisted cache; a loaded cache whose
/// version differs is rebuilt.
pub const CACHE_VERSION: u32 = 1;

/// Classification of an owner token.
#[derive(Clone, Copy, Debug, PartialEq, Eq, Structural, Hash)]
pub enum OwnerType {
    User,
    Team,
    Email,
    Unowned,
    Unknown,
}

impl OwnerType {
    /// The classification's name, as shown to a reader.
    pub fn label(&self) -> (s: String)
        ensures
            s@ == owner_type_label(*self),
    {
        match self {
            OwnerType::User => String::from_str("User"),
            OwnerType::Team => String::from_str("Team"),
            OwnerType::Email => String::from_str("Email"),
            OwnerType::Unowned => String::from_str("Unowned"),
            OwnerType::Unknown => String::from_str("Unknown"),
        }
    }
}

/// What `OwnerType::label` returns for each classification.
pub open spec fn owner_type_label(t: OwnerType) -> Seq<char> {
    match t {
        OwnerType::User => "User"@,
        OwnerType::Team => "Team"@,
        OwnerType::Email => "Email"@,
        OwnerType::Unowned => "Unowned"@,
        OwnerType::Unknown => "Unknown"@,
    }
}

/// Mathematical value of an [`Owner`].
#[verifier::ext_equal]
pub ghost struct OwnerV {
    pub identifier: Seq<char>,
    pub owner_type: OwnerType,
}

/// An owner as written in a rule: the verbatim token and its derived
/// classification.
#[derive(Debug)]
pub struct Owner {
    pub identifier: String,
    pub owner_type: OwnerType,
}

impl View for Owner {
    type V = OwnerV;

    open spec fn view(&self) -> OwnerV {
        OwnerV { identifier: self.identifier@, owner_type: self.owner_type }
    }
}

impl DeepView for Owner {
    type V = OwnerV;

    open spec fn deep_view(&self) -> OwnerV {
        self.view()
    }
}

impl Clone for Owner {
    fn clone(&self) -> (r: Owner)
        ensures
            r@ == self@,
    {
        Owner { identifier: self.identifier.clone(), owner_type: self.owner_type }
    }
}

impl PartialEq for Owner {
    fn eq(&self, other: &Owner) -> (r: bool) {
        self.owner_type == other.owner_type && self.identifier == other.identifier
    }
}

impl vstd::std_specs::cmp::PartialEqSpecImpl for Owner {
    open spec fn obeys_eq_spec() -> bool {
        true
    }

    open spec fn eq_spec(&self, other: &Owner) -> bool {
        self@ == other@
    }
}

/// A label attached to files by a rule; compared by exact string equality.
#[derive(Debug)]
pub struct Tag(pub String);

impl View for Tag {
    type V = Seq<char>;

    open spec fn view(&self) -> Seq<char> {
        self.0@
    }
}

impl DeepView for Tag {
    type V = Seq<char>;

    open spec fn deep_view(&self) -> Seq<char> {
        self.view()
    }
}

impl Clone for Tag {
    fn clone(&self) -> (r: Tag)
        ensures
            r@ == self@,
    {
        Tag(self.0.clone())
    }
}

impl PartialEq for Tag {
    fn eq(&self, other: &Tag) -> (r: bool) {
        self.0 == other.0
    }
}

impl vstd::std_specs::cmp::PartialEqSpecImpl for Tag {
    open spec fn obeys_eq_spec() -> bool {
        true
    }

    open spec fn eq_spec(&self, other: &Tag) -> bool {
        self@ == other@
    }
}

/// Mathematical value of a [`CodeownersEntry`].
#[verifier::ext_equal]
pub ghost struct EntryV {
    pub source_file: Seq<char>,
    pub line_number: usize,
    pub pattern: Seq<char>,
    pub owners: Seq<OwnerV>,
    pub tags: Seq<Seq<char>>,
}

/// One rule line: where it was written, its pattern, and the owners and tags
/// it assigns.
#[derive(Debug)]
pub struct CodeownersEntry {
    pub source_file: String,
    pub line_number: usize,
    pub pattern: String,
    pub owners: Vec<Owner>,
    pub tags: Vec<Tag>,
}

impl View for CodeownersEntry {
    type V = EntryV;

    open spec fn view(&self) -> EntryV {
        EntryV {
            source_file: self.source_file@,
            line_number: self.line_number,
            pattern: self.pattern@,
            owners: self.owners.deep_view(),
            tags: self.tags.deep_view(),
        }
    }
}

impl DeepView for CodeownersEntry {
    type V = EntryV;

    open spec fn deep_view(&self) -> EntryV {
        self.view()
    }
}

impl Clone for CodeownersEntry {
    fn clone(&self) -> (r: CodeownersEntry)
        ensures
            r@ == self@,
    {
        let r = CodeownersEntry {
            source_file: self.source_file.clone(),
            line_number: self.line_number,
            pattern: self.pattern.clone(),
            owners: self.owners.clone(),
            tags: self.tags.clone(),
        };
        proof {
            assert(r.owners.deep_view() =~= self.owners.deep_view());
            assert(r.tags.deep_view() =~= self.tags.deep_view());
        }
        r
    }
}

/// Mathematical value of an [`InlineCodeownersEntry`].
#[verifier::ext_equal]
pub ghost struct InlineEntryV {
    pub file_path: Seq<char>,
    pub line_number: usize,
    pub owners: Seq<OwnerV>,
    pub tags: Seq<Seq<char>>,
}

/// Ownership declared inside the very file it governs, by an inline marker.
#[derive(Debug)]
pub struct InlineCodeownersEntry {
    pub file_path: String,
    pub line_number: usize,
    pub owners: Vec<Owner>,
    pub tags: Vec<Tag>,
}

impl View for InlineCodeownersEntry {
    type V = InlineEntryV;

    open spec fn view(&self) -> InlineEntryV {
        InlineEntryV {
            file_path: self.file_path@,
            line_number: self.line_number,
            owners: self.owners.deep_view(),
            tags: self.tags.deep_view(),
        }
    }
}

impl DeepView for InlineCodeownersEntry {
    type V = InlineEntryV;

    open spec fn deep_view(&self) -> InlineEntryV {
        self.view()
    }
}

impl Clone for InlineCodeownersEntry {
    fn clone(&self) -> (r: InlineCodeownersEntry)
        ensures
            r@ == self@,
    {
        let r = InlineCodeownersEntry {
            file_path: self.file_path.clone(),
            line_number: self.line_number,
            owners: self.owners.clone(),
            tags: self.tags.clone(),
        };
        proof {
            assert(r.owners.deep_view() =~= self.owners.deep_view());
            assert(r.tags.deep_view() =~= self.tags.deep_view());
        }
        r
    }
}

/// Mathematical value of a [`FileEntry`].
#[verifier::ext_equal]
pub ghost struct FileEntryV {
    pub path: Seq<char>,
    pub owners: Seq<OwnerV>,
    pub tags: Seq<Seq<char>>,
}

/// The resolved ownership of one repository file.
#[derive(Debug)]
pub struct FileEntry {
    pub path: String,
    pub owners: Vec<Owner>,
    pub tags: Vec<Tag>,
}

impl View for FileEntry {
    type V = FileEntryV;

    open spec fn view(&self) -> FileEntryV {
        FileEntryV {
            path: self.path@,
            owners: self.owners.deep_view(),
            tags: self.tags.deep_view(),
        }
    }
}

impl DeepView for FileEntry {
    type V = FileEntryV;

    open spec fn deep_view(&self) -> FileEntryV {
        self.view()
    }
}

impl Clone for FileEntry {
    fn clone(&self) -> (r: FileEntry)
        ensures
            r@ == self@,
    {
        let r = FileEntry {
            path: self.path.clone(),
            owners: self.owners.clone(),
            tags: self.tags.clone(),
        };
        proof {
            assert(r.owners.deep_view() =~= self.owners.deep_view());
            assert(r.tags.deep_view() =~= self.tags.deep_view());
        }
        r
    }
}

/// Mathematical value of a [`CodeownersCache`].
#[verifier::ext_equal]
pub ghost struct CacheV {
    pub version: u32,
    pub hash: Seq<u8>,
    pub entries: Seq<EntryV>,
    pub files: Seq<FileEntryV>,
    pub owners_map: Seq<(OwnerV, Seq<Seq<char>>)>,
    pub tags_map: Seq<(Seq<char>, Seq<Seq<char>>)>,
}

/// The resolved ownership of a whole repository: the rules, every file's
/// ownership, and two reverse indices. The indices are key-unique lists of
/// pairs, which also fixes their serialized form.
#[derive(Debug)]
pub struct CodeownersCache {
    pub version: u32,
    pub hash: Vec<u8>,
    pub entries: Vec<CodeownersEntry>,
    pub files: Vec<FileEntry>,
    pub owners_map: Vec<(Owner, Vec<String>)>,
    pub tags_map: Vec<(Tag, Vec<String>)>,
}

impl View for CodeownersCache {
    type V = CacheV;

    open spec fn view(&self) -> CacheV {
        CacheV {
            version: self.version,
            hash: self.hash@,
            entries: self.entries.deep_view(),
            files: self.files.deep_view(),
            owners_map: self.owners_map.deep_view(),
            tags_map: self.tags_map.deep_view(),
        }
    }
}

impl DeepView for CodeownersCache {
    type V = CacheV;

    open spec fn deep_view(&self) -> CacheV {
        self.view()
    }
}

/// How a cache is written to disk.
#[derive(Clone, Copy, Debug, PartialEq, Eq, Structural)]
pub enum CacheEncoding {
    Bincode,
    Json,
}

/// How query results are rendered by callers.
#[derive(Clone, Copy, Debug, PartialEq, Eq, Structural)]
pub enum OutputFormat {
    Text,
    Json,
    Bincode,
}

impl OutputFormat {
    /// The format's name, as accepted on a command line.
    pub fn label(&self) -> (s: String)
        ensures
            s@ == output_format_label(*self),
    {
        match self {
            OutputFormat::Text => String::from_str("text"),
            OutputFormat::Json => String::from_str("json"),
            OutputFormat::Bincode => String::from_str("bincode"),
        }
    }
}

/// What `OutputFormat::label` returns for each format.
pub open spec fn output_format_label(f: OutputFormat) -> Seq<char> {
    match f {
        OutputFormat::Text => "text"@,
        OutputFormat::Json => "json"@,
        OutputFormat::Bincode => "bincode"@,
    }
}

/// Why an operation could not produce a result.
#[derive(Clone, Copy, Debug, PartialEq, Eq, Structural)]
pub enum Error {
    /// A rule entry whose source path has no parent directory.
    InvalidEntry,
    /// A pattern that does not compile to a matcher.
    InvalidPattern,
    /// Cache bytes that decode under no supported encoding.
    CorruptCache,
}

impl Error {
    /// A short description of the failure.
    pub fn message(&self) -> (s: String)
        ensures
            s@ == error_message(*self),
    {
        match self {
            Error::InvalidEntry => String::from_str("rule entry has no parent directory"),
            Error::InvalidPattern => String::from_str("invalid ownership pattern"),
            Error::CorruptCache => String::from_str("cache contents are not decodable"),
        }
    }
}

/// What `Error::message` returns for each failure.
pub open spec fn error_message(e: Error) -> Seq<char> {
    match e {
        Error::InvalidEntry => "rule entry has no parent directory"@,
        Error::InvalidPattern => "invalid ownership pattern"@,
        Error::CorruptCache => "cache contents are not decodable"@,
    }
}

} // verus!
