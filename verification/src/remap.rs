//! What is done to one file of a world, by the kind of the file.
//!
//! Nothing here reads or writes a file. The caller reads the file, hands its
//! bytes to the function for its kind, writes back what it gets, and renames
//! the file where `remap_path` has changed its path.

use crate::anvil::{
    in_region, valid_region, write_outcome, Anvil, AnvilError, Chunk, ExternalAction,
    ExternalActionView,
};
use crate::bytes::same_bytes;
use crate::codec::{gzip_decode, gzip_decoded, gzip_encode, gzip_encoded};
use crate::nbt::{document_sites, rewrite_sites, rewritten, visit_nbt, NbtError};
use crate::text::{follows, scan_text, total, visit_text, within_literals, UuidMap};
use vstd::prelude::*;
use vstd::string::StringSliceAdditionalSpecFns;

verus! {

/// The kinds of file, by what is done to them.
#[derive(Debug, Clone, Copy, PartialEq, Eq, Structural)]
pub enum FileKind {
    /// A region file (`mca`): its chunks are NBT documents.
    Region,
    /// A `dat` file: an NBT document, as it is or in a gzip member.
    Dat,
    /// An `nbt` file: an NBT document as it is.
    Nbt,
    /// A text file: `txt`, `json`, `json5`, `properties`, `toml`, `yml`,
    /// `yaml`.
    Text,
    /// Any other file: nothing is done to it.
    Unsupported,
}

/// Why a file was not rewritten.
#[derive(Debug, Clone, Copy, PartialEq, Eq, Structural)]
pub enum RemapError {
    /// The file, or a chunk of it, is no NBT document.
    Nbt(NbtError),
    /// The chunk could not be written to its region.
    Anvil(AnvilError),
    /// The rewritten document could not be compressed.
    Compress,
}

/// The extension is that of a text file.
pub open spec fn is_text_extension(extension: Seq<u8>) -> bool {
    ||| extension == "txt".spec_bytes()
    ||| extension == "json".spec_bytes()
    ||| extension == "json5".spec_bytes()
    ||| extension == "properties".spec_bytes()
    ||| extension == "toml".spec_bytes()
    ||| extension == "yml".spec_bytes()
    ||| extension == "yaml".spec_bytes()
}

/// The kind of a file, by its extension. The extension counts as it is
/// written: upper case letters make another extension.
pub open spec fn kind_of(extension: Seq<u8>) -> FileKind {
    if extension == "mca".spec_bytes() {
        FileKind::Region
    } else if extension == "dat".spec_bytes() {
        FileKind::Dat
    } else if extension == "nbt".spec_bytes() {
        FileKind::Nbt
    } else if is_text_extension(extension) {
        FileKind::Text
    } else {
        FileKind::Unsupported
    }
}

/// The kind of a file, by its extension.
pub fn file_kind(extension: &str) -> (r: FileKind)
    ensures
        r == kind_of(extension.spec_bytes()),
{
    let e = extension.as_bytes();
    if same_bytes(e, "mca".as_bytes()) {
        FileKind::Region
    } else if same_bytes(e, "dat".as_bytes()) {
        FileKind::Dat
    } else if same_bytes(e, "nbt".as_bytes()) {
        FileKind::Nbt
    } else if same_bytes(e, "txt".as_bytes()) || same_bytes(e, "json".as_bytes()) || same_bytes(
        e,
        "json5".as_bytes(),
    ) || same_bytes(e, "properties".as_bytes()) || same_bytes(e, "toml".as_bytes()) || same_bytes(
        e,
        "yml".as_bytes(),
    ) || same_bytes(e, "yaml".as_bytes()) {
        FileKind::Text
    } else {
        FileKind::Unsupported
    }
}

/// Whether a path is one of the files that are rewritten: its extension is
/// that of a region, `dat`, `nbt` or text file, and it is a file that is not
/// empty and not read-only.
pub fn require_remapping(extension: &str, is_file: bool, len: u64, readonly: bool) -> (r: bool)
    ensures
        r == (kind_of(extension.spec_bytes()) != FileKind::Unsupported && is_file && len > 0
            && !readonly),
{
    file_kind(extension) != FileKind::Unsupported && is_file && len > 0 && !readonly
}

/// What an encoder returned, with the encoder's error replaced.
pub fn encoder_outcome(outcome: Result<Vec<u8>, std::io::Error>) -> (r: Result<Vec<u8>, RemapError>)
    ensures
        match outcome {
            Ok(v) => r == Ok::<Vec<u8>, RemapError>(v),
            Err(_) => r == Err::<Vec<u8>, RemapError>(RemapError::Compress),
        },
{
    match outcome {
        Ok(v) => Ok(v),
        Err(_) => Err(RemapError::Compress),
    }
}

/// `r` is what becomes of the NBT document `before`: an error where it is
/// none, else the document with its sites rewritten, and, where `gzip` says
/// so, compressed as a gzip member. Whatever the callback answers, what is
/// handed back is a document that differs from `before` in its sites alone;
/// where the callback follows a mapping, it is the document with each site
/// rewritten as the mapping says.
pub open spec fn document_remapped<F: Fn(u128) -> Option<u128>>(
    before: Seq<u8>,
    r: Result<Vec<u8>, RemapError>,
    gzip: bool,
    cb: &F,
) -> bool {
    match document_sites(before) {
        Err(f) => r == Err::<Vec<u8>, RemapError>(RemapError::Nbt(f.error)),
        Ok(sites) => {
            &&& exists|plain: Seq<u8>| #[trigger]
                rewritten(plain, before, sites, cb) && written_as(plain, gzip, r)
            &&& forall|m: UuidMap|
                follows(cb, m) ==> written_as(#[trigger] rewrite_sites(before, sites, m), gzip, r)
        },
    }
}

/// `r` is what the rewritten document `plain` is handed back as: the
/// document itself, or, where `gzip` says so, the gzip member that holds it,
/// and the error `Compress` exactly where it cannot be compressed.
pub open spec fn written_as(plain: Seq<u8>, gzip: bool, r: Result<Vec<u8>, RemapError>) -> bool {
    if !gzip {
        r is Ok && r->Ok_0@ == plain
    } else {
        match gzip_encoded(plain) {
            Some(member) => r is Ok && r->Ok_0@ == member,
            None => r == Err::<Vec<u8>, RemapError>(RemapError::Compress),
        }
    }
}

/// Rewrites the NBT document that is the content of an `nbt` file.
pub fn remap_nbt<F: Fn(u128) -> Option<u128>>(content: Vec<u8>, cb: &F) -> (r: Result<
    Vec<u8>,
    RemapError,
>)
    requires
        total(cb),
    ensures
        document_remapped(content@, r, false, cb),
{
    let mut content = content;
    match visit_nbt(content.as_mut_slice(), cb) {
        Ok(()) => Ok(content),
        Err(e) => Err(RemapError::Nbt(e)),
    }
}

/// Rewrites the content of a `dat` file, given what came of reading it as a
/// gzip member: where that succeeded, the document in the member is
/// rewritten and compressed again; where it failed, the content itself is
/// taken for the document.
pub fn remap_dat_decoded<F: Fn(u128) -> Option<u128>>(
    content: Vec<u8>,
    decoded: Result<Vec<u8>, std::io::Error>,
    cb: &F,
) -> (r: Result<Vec<u8>, RemapError>)
    requires
        total(cb),
    ensures
        match decoded {
            Ok(plain) => document_remapped(plain@, r, true, cb),
            Err(_) => document_remapped(content@, r, false, cb),
        },
{
    match decoded {
        Err(_) => remap_nbt(content, cb),
        Ok(plain) => {
            let mut uncompressed = plain;
            match visit_nbt(uncompressed.as_mut_slice(), cb) {
                Ok(()) => {
                    let encoded = gzip_encode(uncompressed.as_slice());
                    encoder_outcome(encoded)
                },
                Err(e) => Err(RemapError::Nbt(e)),
            }
        },
    }
}

/// Rewrites the content of a `dat` file: an NBT document in a gzip member,
/// or, where the content is no gzip member, an NBT document as it is.
pub fn remap_dat<F: Fn(u128) -> Option<u128>>(content: Vec<u8>, cb: &F) -> (r: Result<
    Vec<u8>,
    RemapError,
>)
    requires
        total(cb),
    ensures
        match gzip_decoded(content@) {
            Some(plain) => document_remapped(plain, r, true, cb),
            None => document_remapped(content@, r, false, cb),
        },
{
    let decoded = gzip_decode(content.as_slice());
    remap_dat_decoded(content, decoded, cb)
}

/// `r` is what becomes of the content of a file of the given kind.
pub open spec fn content_remapped<F: Fn(u128) -> Option<u128>>(
    kind: FileKind,
    content: Vec<u8>,
    r: Result<Vec<u8>, RemapError>,
    cb: &F,
) -> bool {
    match kind {
        FileKind::Dat => match gzip_decoded(content@) {
            Some(plain) => document_remapped(plain, r, true, cb),
            None => document_remapped(content@, r, false, cb),
        },
        FileKind::Nbt => document_remapped(content@, r, false, cb),
        FileKind::Text => {
            &&& r is Ok
            &&& within_literals(content@, r->Ok_0@)
            &&& forall|m: UuidMap| follows(cb, m) ==> r->Ok_0@ == #[trigger] scan_text(content@, m)
        },
        _ => r == Ok::<Vec<u8>, RemapError>(content),
    }
}

/// Rewrites the content of a file of the given kind. The content of a region
/// file is not rewritten here but chunk by chunk, with `remap_chunk`; that of
/// an unsupported file is left as it is.
pub fn remap_content<F: Fn(u128) -> Option<u128>>(kind: FileKind, content: Vec<u8>, cb: &F) -> (r:
    Result<Vec<u8>, RemapError>)
    requires
        total(cb),
    ensures
        content_remapped(kind, content, r, cb),
{
    match kind {
        FileKind::Dat => remap_dat(content, cb),
        FileKind::Nbt => remap_nbt(content, cb),
        FileKind::Text => {
            let mut text = content;
            visit_text(text.as_mut_slice(), cb);
            Ok(text)
        },
        _ => Ok(content),
    }
}

/// Rewrites the UUIDs in the bytes of a file's path and tells whether the
/// path has changed, so that the file is to be renamed.
pub fn remap_path<F: Fn(u128) -> Option<u128>>(path: &mut Vec<u8>, cb: &F) -> (changed: bool)
    requires
        total(cb),
    ensures
        final(path)@.len() == old(path)@.len(),
        within_literals(old(path)@, final(path)@),
        changed == (final(path)@ != old(path)@),
        forall|m: UuidMap| follows(cb, m) ==> final(path)@ == #[trigger] scan_text(old(path)@, m),
{
    let before = path.clone();
    assert(before@ == path@);
    visit_text(path.as_mut_slice(), cb);
    !same_bytes(before.as_slice(), path.as_slice())
}

/// Rewrites one file that is no region file: first its content, by its
/// extension, then the UUIDs in its path. Returns the new content, and
/// whether the path has changed, so that the file is to be renamed. Where
/// the content is refused, the path is left as it is.
pub fn remap_file<F: Fn(u128) -> Option<u128>>(
    extension: &str,
    path: &mut Vec<u8>,
    content: Vec<u8>,
    cb: &F,
) -> (r: Result<(Vec<u8>, bool), RemapError>)
    requires
        total(cb),
    ensures
        final(path)@.len() == old(path)@.len(),
        match r {
            Ok((out, renamed)) => {
                &&& content_remapped(
                    kind_of(extension.spec_bytes()),
                    content,
                    Ok::<Vec<u8>, RemapError>(out),
                    cb,
                )
                &&& renamed == (final(path)@ != old(path)@)
                &&& forall|m: UuidMap|
                    follows(cb, m) ==> final(path)@ == #[trigger] scan_text(old(path)@, m)
            },
            Err(e) => {
                &&& content_remapped(
                    kind_of(extension.spec_bytes()),
                    content,
                    Err::<Vec<u8>, RemapError>(e),
                    cb,
                )
                &&& final(path)@ == old(path)@
            },
        },
{
    match remap_content(file_kind(extension), content, cb) {
        Ok(out) => {
            let renamed = remap_path(path, cb);
            Ok((out, renamed))
        },
        Err(e) => Err(e),
    }
}

/// Rewrites one chunk of a region and writes it to the region that is being
/// built. A chunk that is no NBT document is not written. Whatever the
/// callback answers, what is written is the chunk with a payload that
/// differs from the chunk's in its sites alone.
pub fn remap_chunk<F: Fn(u128) -> Option<u128>>(output: &mut Anvil, chunk: Chunk, cb: &F) -> (r:
    Result<ExternalAction, RemapError>)
    requires
        total(cb),
        old(output).wf(),
        in_region(chunk.location),
    ensures
        final(output).wf(),
        final(output).file_name() == old(output).file_name(),
        valid_region(old(output).image()) ==> valid_region(
            final(output).image(),
        ),
        match document_sites(chunk.uncompressed@) {
            Err(f) => {
                &&& r == Err::<ExternalAction, RemapError>(RemapError::Nbt(f.error))
                &&& final(output).image() == old(output).image()
            },
            Ok(sites) => {
                &&& exists|payload: Seq<u8>| #[trigger]
                    rewritten(payload, chunk.uncompressed@, sites, cb) && chunk_written(
                        old(output),
                        final(output),
                        r,
                        chunk,
                        payload,
                    )
                &&& forall|m: UuidMap|
                    follows(cb, m) ==> chunk_written(
                        old(output),
                        final(output),
                        r,
                        chunk,
                        #[trigger] rewrite_sites(chunk.uncompressed@, sites, m),
                    )
            },
        },
{
    let mut chunk = chunk;
    let ghost before = chunk;
    match visit_nbt(chunk.uncompressed.as_mut_slice(), cb) {
        Err(e) => Err(RemapError::Nbt(e)),
        Ok(()) => {
            assert(chunk.location == before.location && chunk.external == before.external
                && chunk.timestamp == before.timestamp);
            match output.write(&chunk) {
                Ok(action) => Ok(action),
                Err(e) => Err(RemapError::Anvil(e)),
            }
        },
    }
}

/// `r` and `after` are what writing the chunk `chunk` with the payload
/// `payload` to the region `before` gives.
pub open spec fn chunk_written(
    before: &Anvil,
    after: &Anvil,
    r: Result<ExternalAction, RemapError>,
    chunk: Chunk,
    payload: Seq<u8>,
) -> bool {
    &&& r is Ok || r->Err_0 is Anvil
    &&& write_outcome(
        before.image(),
        before.file_name(),
        chunk.external,
        chunk.location,
        chunk.timestamp,
        payload,
        after.image(),
        remap_action_of(r),
    )
}

/// The action in `r`, as contracts see it, with the error of the region.
pub open spec fn remap_action_of(r: Result<ExternalAction, RemapError>) -> Result<
    ExternalActionView,
    AnvilError,
> {
    match r {
        Ok(a) => Ok(a@),
        Err(RemapError::Anvil(e)) => Err(e),
        Err(_) => Err(AnvilError::Compress),
    }
}

} // verus!
