//! The archive model: formats, entries, summaries and documents; format
//! detection from a path; and the reading of a ZIP archive into a document.
use vstd::prelude::*;
use crate::paths::{
    extension_of, file_name_of, path_extension, path_file_name, plain_extension, plain_name,
};
use crate::text::{ascii_lower, chars_of, ends_with, ends_with_str, starts_with, to_ascii_lowercase};
use crate::zip_source::{
    zip_contents, zip_entry, zip_len, zip_listing, zip_open, zip_read_error_text, ZipMember,
};

verus! {

/// The archive formats Kist knows.
#[derive(Debug, Clone, Copy, PartialEq, Eq, Structural)]
pub enum ArchiveFormat {
    Zip,
    SevenZip,
    Tar,
    TarGz,
    TarZstd,
}

/// The name under which each format is shown.
pub open spec fn format_label(format: ArchiveFormat) -> Seq<char> {
    match format {
        ArchiveFormat::Zip => "ZIP"@,
        ArchiveFormat::SevenZip => "7z"@,
        ArchiveFormat::Tar => "TAR"@,
        ArchiveFormat::TarGz => "TAR.GZ"@,
        ArchiveFormat::TarZstd => "TAR.ZST"@,
    }
}

impl ArchiveFormat {
    /// The name under which the format is shown.
    pub fn label(self) -> (r: &'static str)
        ensures
            r@ == format_label(self),
    {
        match self {
            ArchiveFormat::Zip => "ZIP",
            ArchiveFormat::SevenZip => "7z",
            ArchiveFormat::Tar => "TAR",
            ArchiveFormat::TarGz => "TAR.GZ",
            ArchiveFormat::TarZstd => "TAR.ZST",
        }
    }
}

/// How hard a new archive is compressed.
#[derive(Debug, Clone, Copy, PartialEq, Eq, Structural)]
pub enum CompressionLevel {
    Fast,
    Balanced,
    Maximum,
}

impl Default for CompressionLevel {
    fn default() -> (r: Self)
        ensures
            r == CompressionLevel::Balanced,
    {
        CompressionLevel::Balanced
    }
}

/// One member of an archive.
#[derive(Debug, Clone)]
pub struct ArchiveEntry {
    pub path: String,
    pub size: u64,
    pub compressed_size: Option<u64>,
    pub is_directory: bool,
}

/// An archive member as a value: its path, sizes and kind.
pub struct EntryView {
    pub path: Seq<char>,
    pub size: u64,
    pub compressed_size: Option<u64>,
    pub is_directory: bool,
}

impl PartialEq for ArchiveEntry {
    fn eq(&self, other: &Self) -> (r: bool) {
        self.path == other.path && self.size == other.size && self.compressed_size
            == other.compressed_size && self.is_directory == other.is_directory
    }
}

impl Eq for ArchiveEntry {
}

impl vstd::std_specs::cmp::PartialEqSpecImpl for ArchiveEntry {
    open spec fn obeys_eq_spec() -> bool {
        true
    }

    open spec fn eq_spec(&self, other: &ArchiveEntry) -> bool {
        self@ == other@
    }
}

impl View for ArchiveEntry {
    type V = EntryView;

    open spec fn view(&self) -> EntryView {
        EntryView {
            path: self.path@,
            size: self.size,
            compressed_size: self.compressed_size,
            is_directory: self.is_directory,
        }
    }
}

/// Totals of an opened archive.
#[derive(Debug, Clone)]
pub struct ArchiveSummary {
    pub path: String,
    pub format: ArchiveFormat,
    pub entries: usize,
    pub original_size: u64,
    pub compressed_size: u64,
}

/// An archive summary as a value.
pub struct SummaryView {
    pub path: Seq<char>,
    pub format: ArchiveFormat,
    pub entries: usize,
    pub original_size: u64,
    pub compressed_size: u64,
}

impl PartialEq for ArchiveSummary {
    fn eq(&self, other: &Self) -> (r: bool) {
        self.path == other.path && self.format == other.format && self.entries == other.entries
            && self.original_size == other.original_size && self.compressed_size
            == other.compressed_size
    }
}

impl Eq for ArchiveSummary {
}

impl vstd::std_specs::cmp::PartialEqSpecImpl for ArchiveSummary {
    open spec fn obeys_eq_spec() -> bool {
        true
    }

    open spec fn eq_spec(&self, other: &ArchiveSummary) -> bool {
        self@ == other@
    }
}

impl View for ArchiveSummary {
    type V = SummaryView;

    open spec fn view(&self) -> SummaryView {
        SummaryView {
            path: self.path@,
            format: self.format,
            entries: self.entries,
            original_size: self.original_size,
            compressed_size: self.compressed_size,
        }
    }
}

/// An opened archive: its summary and its members.
#[derive(Debug, Clone)]
pub struct ArchiveDocument {
    pub summary: ArchiveSummary,
    pub entries: Vec<ArchiveEntry>,
}

/// An archive document as a value.
pub struct DocumentView {
    pub summary: SummaryView,
    pub entries: Seq<EntryView>,
}

impl View for ArchiveDocument {
    type V = DocumentView;

    open spec fn view(&self) -> DocumentView {
        DocumentView { summary: self.summary@, entries: self.entries@.map_values(|e: ArchiveEntry| e@) }
    }
}

/// Why an archive could not be opened.
#[derive(Debug)]
pub enum ArchiveError {
    /// The format is not one Kist can open; holds the extension or format name.
    UnsupportedFormat(String),
    /// The archive file could not be read.
    Io(std::io::Error),
    /// The archive is not a ZIP archive Kist can read; holds the reader's
    /// description of what went wrong.
    Zip(String),
}

/// The outcome of reading an archive file: the bytes, or the error met
/// opening the file, or the error met reading it once open.
#[derive(Debug)]
pub enum FileError {
    /// The file could not be opened.
    Open(std::io::Error),
    /// The file was opened but could not be read.
    Read(std::io::Error),
}

} // verus!

verus! {

/// The format a lower-cased file name announces by its ending, if any.
/// Endings are tried in this order: `.zip`, `.7z`, `.tar.gz`/`.tgz`,
/// `.tar.zst`/`.tzst`, `.tar`.
pub open spec fn format_for_name(name: Seq<char>) -> Option<ArchiveFormat> {
    if ends_with(name, ".zip"@) {
        Some(ArchiveFormat::Zip)
    } else if ends_with(name, ".7z"@) {
        Some(ArchiveFormat::SevenZip)
    } else if ends_with(name, ".tar.gz"@) || ends_with(name, ".tgz"@) {
        Some(ArchiveFormat::TarGz)
    } else if ends_with(name, ".tar.zst"@) || ends_with(name, ".tzst"@) {
        Some(ArchiveFormat::TarZstd)
    } else if ends_with(name, ".tar"@) {
        Some(ArchiveFormat::Tar)
    } else {
        None
    }
}

/// The file name of `path`, ASCII lower-cased; empty when it has none.
pub open spec fn lowered_file_name(path: Seq<char>) -> Seq<char> {
    ascii_lower(
        match file_name_of(path) {
            Some(name) => name,
            None => Seq::empty(),
        },
    )
}

/// The format that `path` names, if any.
pub open spec fn format_of_path(path: Seq<char>) -> Option<ArchiveFormat> {
    format_for_name(lowered_file_name(path))
}

/// What an unsupported path is reported as: its extension, or `unknown`.
pub open spec fn unsupported_name(path: Seq<char>) -> Seq<char> {
    match extension_of(path) {
        Some(ext) => ext,
        None => "unknown"@,
    }
}

/// Reads the archive format from the ending of the path's file name,
/// ignoring ASCII case. An unknown ending is `UnsupportedFormat` with the
/// path's extension (or `unknown`).
pub fn detect_format(path: &str) -> (r: Result<ArchiveFormat, ArchiveError>)
    ensures
        match format_of_path(path@) {
            Some(f) => r matches Ok(g) && g == f,
            None => r matches Err(ArchiveError::UnsupportedFormat(s)) && s@ == unsupported_name(
                path@,
            ),
        },
        plain_name(path@) ==> match format_for_name(ascii_lower(path@)) {
            Some(f) => r matches Ok(g) && g == f,
            None => r matches Err(ArchiveError::UnsupportedFormat(s)) && s@ == match plain_extension(
                path@,
            ) {
                Some(ext) => ext,
                None => "unknown"@,
            },
        },
{
    let name_chars = match path_file_name(path) {
        Some(name) => chars_of(name),
        None => Vec::new(),
    };
    let name = to_ascii_lowercase(&name_chars);
    if ends_with_str(&name, ".zip") {
        Ok(ArchiveFormat::Zip)
    } else if ends_with_str(&name, ".7z") {
        Ok(ArchiveFormat::SevenZip)
    } else if ends_with_str(&name, ".tar.gz") || ends_with_str(&name, ".tgz") {
        Ok(ArchiveFormat::TarGz)
    } else if ends_with_str(&name, ".tar.zst") || ends_with_str(&name, ".tzst") {
        Ok(ArchiveFormat::TarZstd)
    } else if ends_with_str(&name, ".tar") {
        Ok(ArchiveFormat::Tar)
    } else {
        let ext = match path_extension(path) {
            Some(ext) => ext,
            None => "unknown",
        };
        Err(ArchiveError::UnsupportedFormat(ext.to_owned()))
    }
}

} // verus!

verus! {

/// The sum of the values in `s`.
pub open spec fn total(s: Seq<u64>) -> nat
    decreases s.len(),
{
    if s.len() == 0 {
        0
    } else {
        total(s.drop_last()) + s.last() as nat
    }
}

/// The sum of `s`, or `u64::MAX` when it does not fit: what adding the
/// values with `saturating_add` gives.
pub open spec fn saturating_total(s: Seq<u64>) -> u64 {
    if total(s) > u64::MAX {
        u64::MAX
    } else {
        total(s) as u64
    }
}

/// Every member of the listing could be read.
pub open spec fn all_readable(members: Seq<ZipMember>) -> bool {
    forall|i: int| 0 <= i < members.len() ==> #[trigger] members[i] is Ok
}

/// Member `i` is the first that could not be read.
pub open spec fn first_unreadable(members: Seq<ZipMember>, i: int) -> bool {
    &&& 0 <= i < members.len()
    &&& members[i] is Err
    &&& forall|k: int| 0 <= k < i ==> #[trigger] members[k] is Ok
}

/// The entry that a readable ZIP member becomes.
pub open spec fn entry_of(member: ZipMember) -> EntryView {
    let m = member->Ok_0;
    EntryView { path: m.0, size: m.1, compressed_size: Some(m.2), is_directory: m.3 }
}

/// The uncompressed sizes of the members.
pub open spec fn member_sizes(members: Seq<ZipMember>) -> Seq<u64> {
    members.map_values(|m: ZipMember| m->Ok_0.1)
}

/// The packed sizes of the members.
pub open spec fn member_packed_sizes(members: Seq<ZipMember>) -> Seq<u64> {
    members.map_values(|m: ZipMember| m->Ok_0.2)
}

/// The document for a ZIP archive at `path` whose members are all readable:
/// one entry per member, in order, and the saturating totals of their sizes.
pub open spec fn zip_document(path: Seq<char>, members: Seq<ZipMember>) -> DocumentView {
    DocumentView {
        summary: SummaryView {
            path,
            format: ArchiveFormat::Zip,
            entries: members.len() as usize,
            original_size: saturating_total(member_sizes(members)),
            compressed_size: saturating_total(member_packed_sizes(members)),
        },
        entries: members.map_values(|m: ZipMember| entry_of(m)),
    }
}

/// What reading the ZIP archive at `path`, given the outcome of reading its
/// file, returns: an i/o error when the file could not be opened; a ZIP
/// error when it could not be read (its text starting `i/o error: `); a ZIP
/// error with the reader's text when the bytes are refused, or with the
/// text of the first member that cannot be read; else the document of its
/// members.
pub open spec fn zip_outcome(
    path: Seq<char>,
    contents: Result<Vec<u8>, FileError>,
    r: Result<ArchiveDocument, ArchiveError>,
) -> bool {
    match contents {
        Err(FileError::Open(e)) => r matches Err(ArchiveError::Io(e2)) && e2 == e,
        Err(FileError::Read(_)) => r matches Err(ArchiveError::Zip(text)) && starts_with(
            text@,
            "i/o error: "@,
        ),
        Ok(bytes) => match zip_listing(bytes@) {
            Err(refusal) => r matches Err(ArchiveError::Zip(text)) && text@ == refusal,
            Ok(members) => if all_readable(members) {
                r matches Ok(doc) && doc@ == zip_document(path, members)
            } else {
                exists|i: int|
                    #[trigger] first_unreadable(members, i) && (r matches Err(ArchiveError::Zip(text))
                        && text@ == members[i]->Err_0)
            },
        },
    }
}

/// Adding `x` with saturation to the saturating total of `s` gives the
/// saturating total of `s` followed by `x`.
proof fn lemma_saturating_push(s: Seq<u64>, x: u64)
    ensures
        saturating_total(s.push(x)) == if saturating_total(s) + x > u64::MAX {
            u64::MAX
        } else {
            (saturating_total(s) + x) as u64
        },
{
    assert(s.push(x).drop_last() =~= s);
}

/// Lists the ZIP archive at `path` from the outcome of reading its file.
fn open_zip(path: &str, contents: Result<Vec<u8>, FileError>) -> (r: Result<
    ArchiveDocument,
    ArchiveError,
>)
    ensures
        zip_outcome(path@, contents, r),
{
    let bytes = match contents {
        Ok(bytes) => bytes,
        Err(FileError::Open(e)) => return Err(ArchiveError::Io(e)),
        Err(FileError::Read(e)) => return Err(ArchiveError::Zip(zip_read_error_text(e))),
    };
    let ghost listed = bytes@;
    let mut archive = match zip_open(bytes) {
        Ok(archive) => archive,
        Err(text) => return Err(ArchiveError::Zip(text)),
    };
    let ghost members = zip_contents(archive);
    let n = zip_len(&archive);
    let mut entries: Vec<ArchiveEntry> = Vec::new();
    let mut original_size: u64 = 0;
    let mut compressed_size: u64 = 0;
    let mut i: usize = 0;
    while i < n
        invariant
            zip_listing(listed) == Ok::<Seq<ZipMember>, Seq<char>>(members),
            contents matches Ok(b) && b@ == listed,
            n == members.len(),
            zip_contents(archive) == members,
            i <= n,
            forall|k: int| 0 <= k < i ==> #[trigger] members[k] is Ok,
            entries@.len() == i,
            forall|k: int| 0 <= k < i ==> (#[trigger] entries@[k])@ == entry_of(members[k]),
            original_size == saturating_total(member_sizes(members).take(i as int)),
            compressed_size == saturating_total(member_packed_sizes(members).take(i as int)),
        decreases n - i,
    {
        let (name, size, packed, is_dir) = match zip_entry(&mut archive, i) {
            Ok(entry) => entry,
            Err(text) => {
                assert(first_unreadable(members, i as int));
                return Err(ArchiveError::Zip(text));
            },
        };
        proof {
            assert(member_sizes(members).take(i + 1) =~= member_sizes(members).take(i as int).push(size));
            assert(member_packed_sizes(members).take(i + 1) =~= member_packed_sizes(members).take(i as int).push(packed));
            lemma_saturating_push(member_sizes(members).take(i as int), size);
            lemma_saturating_push(member_packed_sizes(members).take(i as int), packed);
        }
        original_size = original_size.saturating_add(size);
        compressed_size = compressed_size.saturating_add(packed);
        entries.push(ArchiveEntry { path: name, size, compressed_size: Some(packed), is_directory: is_dir });
        i = i + 1;
    }
    proof {
        assert(member_sizes(members).take(n as int) =~= member_sizes(members));
        assert(member_packed_sizes(members).take(n as int) =~= member_packed_sizes(members));
    }
    let count = entries.len();
    let doc = ArchiveDocument {
        summary: ArchiveSummary {
            path: path.to_owned(),
            format: ArchiveFormat::Zip,
            entries: count,
            original_size,
            compressed_size,
        },
        entries,
    };
    assert(doc@.entries =~= members.map_values(|m: ZipMember| entry_of(m)));
    Ok(doc)
}

} // verus!

verus! {

/// What opening the archive at `path` needs, before its file is read: `Ok`
/// with the format when the file must be read and listed (ZIP, the one
/// format Kist reads so far); otherwise the error that opening it ends in:
/// `UnsupportedFormat` with the extension for an unknown ending, or with the
/// format's label for a known format Kist cannot read yet.
pub open spec fn open_plan(path: Seq<char>, r: Result<ArchiveFormat, ArchiveError>) -> bool {
    match format_of_path(path) {
        Some(ArchiveFormat::Zip) => r matches Ok(ArchiveFormat::Zip),
        Some(f) => r matches Err(ArchiveError::UnsupportedFormat(s)) && s@ == format_label(f),
        None => r matches Err(ArchiveError::UnsupportedFormat(s)) && s@ == unsupported_name(path),
    }
}

/// Decides how to open the archive at `path`: `Ok(format)` when its file is
/// to be read and listed, or the error that opening it ends in.
pub fn plan_open(path: &str) -> (r: Result<ArchiveFormat, ArchiveError>)
    ensures
        open_plan(path@, r),
{
    let format = detect_format(path)?;
    match format {
        ArchiveFormat::Zip => Ok(ArchiveFormat::Zip),
        _ => Err(ArchiveError::UnsupportedFormat(format.label().to_owned())),
    }
}

/// Opens the archive at `path`, given the outcome of reading its file
/// (which is consulted only for a format Kist reads). The format comes from
/// the path; a ZIP archive is listed member by member.
pub fn open_archive(path: &str, contents: Result<Vec<u8>, FileError>) -> (r: Result<
    ArchiveDocument,
    ArchiveError,
>)
    ensures
        format_of_path(path@) == Some(ArchiveFormat::Zip) ==> zip_outcome(path@, contents, r),
        format_of_path(path@) != Some(ArchiveFormat::Zip) ==> match format_of_path(path@) {
            Some(f) => r matches Err(ArchiveError::UnsupportedFormat(s)) && s@ == format_label(f),
            None => r matches Err(ArchiveError::UnsupportedFormat(s)) && s@ == unsupported_name(
                path@,
            ),
        },
{
    let _ = plan_open(path)?;
    open_zip(path, contents)
}

} // verus!

verus! {

/// `message` is how `error` is described to the user: `unsupported archive
/// format: ` then the name; `could not open archive: ` then the system's
/// description of the i/o error; `invalid or damaged ZIP archive: ` then the
/// reader's description.
pub open spec fn describes(error: &ArchiveError, message: Seq<char>) -> bool {
    match error {
        ArchiveError::UnsupportedFormat(name) => message == "unsupported archive format: "@ + name@,
        ArchiveError::Io(_) => starts_with(message, "could not open archive: "@),
        ArchiveError::Zip(text) => message == "invalid or damaged ZIP archive: "@ + text@,
    }
}

/// Trusted: `std::io::Error`'s `Display`. The text is the system's
/// description of the error and is not stated.
#[verifier::external_body]
fn io_error_text(error: &std::io::Error) -> (r: String) {
    format!("{}", error)
}

impl ArchiveError {
    /// The message shown to the user for this error.
    pub fn message(&self) -> (r: String)
        ensures
            describes(self, r@),
    {
        match self {
            ArchiveError::UnsupportedFormat(name) => {
                let mut m = "unsupported archive format: ".to_owned();
                m.append(name.as_str());
                m
            },
            ArchiveError::Io(error) => {
                let mut m = "could not open archive: ".to_owned();
                let text = io_error_text(error);
                m.append(text.as_str());
                proof {
                    assert(m@.subrange(0, "could not open archive: "@.len() as int) =~= "could not open archive: "@);
                }
                m
            },
            ArchiveError::Zip(text) => {
                let mut m = "invalid or damaged ZIP archive: ".to_owned();
                m.append(text.as_str());
                m
            },
        }
    }
}

} // verus!
