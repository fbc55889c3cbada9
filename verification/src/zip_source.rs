//! The `zip` crate, as the archive reader sees it: the outside types it
//! handles, names for what an archive holds, and the trusted wrappers of the
//! calls it makes.
use vstd::prelude::*;

verus! {

#[verifier::external_type_specification]
#[verifier::external_body]
#[verifier::reject_recursive_types(T)]
pub struct ExCursor<T>(std::io::Cursor<T>);

#[verifier::external_type_specification]
#[verifier::external_body]
pub struct ExIoError(std::io::Error);

#[verifier::external_type_specification]
#[verifier::external_body]
#[verifier::reject_recursive_types(R)]
pub struct ExZipArchive<R>(zip::ZipArchive<R>);

/// What the archive reader learns of one member: its name, its size, its
/// packed size and whether it is a directory.
pub type ZipRecord = (Seq<char>, u64, u64, bool);

/// One member as the reader meets it: its record, or the text (`ZipError`'s
/// `Display`) of the error that `by_index` or the decoding of its name gives.
pub type ZipMember = Result<ZipRecord, Seq<char>>;

/// The members of an opened archive, in the order `by_index` numbers them
/// (one per distinct name in the central directory), each as `by_index` and
/// the member's accessors give it. The archive reads bytes held in memory,
/// so no error here carries a system's description: each is a function of
/// the bytes.
pub uninterp spec fn zip_contents(archive: zip::ZipArchive<std::io::Cursor<Vec<u8>>>) -> Seq<
    ZipMember,
>;

/// What `ZipArchive::new` makes of `bytes` held in memory: the text of the
/// error it refuses them with, or the members of the archive it opens (as
/// `zip_contents` has them).
pub uninterp spec fn zip_listing(bytes: Seq<u8>) -> Result<Seq<ZipMember>, Seq<char>>;

/// Trusted: `zip::ZipArchive::new` over the bytes, held in memory, with its
/// error turned into its `Display` text. It succeeds exactly when
/// `zip_listing` is `Ok`, and then the archive holds that listing; on
/// failure the text is the one `zip_listing` names. Which bytes it accepts,
/// and the texts, are not spelled out.
#[verifier::external_body]
pub fn zip_open(bytes: Vec<u8>) -> (r: Result<zip::ZipArchive<std::io::Cursor<Vec<u8>>>, String>)
    ensures
        match r {
            Ok(archive) => zip_listing(bytes@) == Ok::<Seq<ZipMember>, Seq<char>>(
                zip_contents(archive),
            ),
            Err(text) => zip_listing(bytes@) == Err::<Seq<ZipMember>, Seq<char>>(text@),
        },
{
    match zip::ZipArchive::new(std::io::Cursor::new(bytes)) {
        Ok(archive) => Ok(archive),
        Err(error) => Err(format!("{}", error)),
    }
}

/// Trusted: `ZipArchive::len`, the number of members `by_index` numbers.
#[verifier::external_body]
pub fn zip_len(archive: &zip::ZipArchive<std::io::Cursor<Vec<u8>>>) -> (n: usize)
    ensures
        n == zip_contents(*archive).len(),
{
    archive.len()
}

/// Trusted: `ZipArchive::by_index`, then the member's `name`, `size`,
/// `compressed_size` and `is_dir`, an error turned into its `Display` text.
/// Member `index` is read as `zip_contents` has it; the call moves only the
/// reader's position, so the members stay as they were.
#[verifier::external_body]
pub fn zip_entry(archive: &mut zip::ZipArchive<std::io::Cursor<Vec<u8>>>, index: usize) -> (r:
    Result<(String, u64, u64, bool), String>)
    requires
        index < zip_contents(*old(archive)).len(),
    ensures
        zip_contents(*final(archive)) == zip_contents(*old(archive)),
        match r {
            Ok(entry) => zip_contents(*old(archive))[index as int] == Ok::<ZipRecord, Seq<char>>(
                (entry.0@, entry.1, entry.2, entry.3),
            ),
            Err(text) => zip_contents(*old(archive))[index as int] == Err::<ZipRecord, Seq<char>>(
                text@,
            ),
        },
{
    let file = match archive.by_index(index) {
        Ok(file) => file,
        Err(error) => return Err(format!("{}", error)),
    };
    let name = match file.name() {
        Ok(name) => name.into_owned(),
        Err(error) => return Err(format!("{}", error)),
    };
    Ok((name, file.size(), file.compressed_size(), file.is_dir()))
}

/// Trusted: `ZipError::Io(error)`'s `Display`, the text the `zip` crate
/// gives an i/o error met while reading an archive. The source writes it as
/// `i/o error: ` followed by the error; only that start is stated, since the
/// rest is the system's description of the error.
#[verifier::external_body]
pub fn zip_read_error_text(error: std::io::Error) -> (r: String)
    ensures
        crate::text::starts_with(r@, "i/o error: "@),
{
    format!("{}", zip::result::ZipError::Io(error))
}

} // verus!
