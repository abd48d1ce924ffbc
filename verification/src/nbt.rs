//! One-pass, in-place rewriting of the UUIDs in a binary NBT document.
//!
//! A document is a tag byte, a name and a value. Three kinds of place in it
//! can hold a UUID: the payload of a string (scanned as text), an int array
//! of exactly four ints (sixteen bytes, big-endian), and two longs of one
//! compound whose names end in `UUIDMost` and `UUIDLeast` after the same
//! prefix (the high and the low half). The contracts call such a place a
//! site. No site touches a tag, a name or a length, so what the document is
//! made of does not depend on what is written into its sites: the sites are
//! a function of the buffer as it was, and the visit leaves the buffer with
//! each site rewritten, in the order in which the document is read.

use crate::bytes::{
    be_u16, be_u32, be_u64, overwrite, read_u16, read_u32, read_u64, same_bytes, u64_be_bytes,
    write_u64,
};
use crate::nbt_laws::lemma_visit_nothing;
use crate::text::{
    follows, in_hyphenated, in_simple, maps_nothing, scan_text, total, visit_text, UuidMap,
};
use vstd::prelude::*;
use vstd::slice::slice_subrange;
use vstd::slice::slice_to_vec;

verus! {

pub const TAG_END: u8 = 0;

pub const TAG_BYTE: u8 = 1;

pub const TAG_SHORT: u8 = 2;

pub const TAG_INT: u8 = 3;

pub const TAG_LONG: u8 = 4;

pub const TAG_FLOAT: u8 = 5;

pub const TAG_DOUBLE: u8 = 6;

pub const TAG_BYTE_ARRAY: u8 = 7;

pub const TAG_STRING: u8 = 8;

pub const TAG_LIST: u8 = 9;

pub const TAG_COMPOUND: u8 = 10;

pub const TAG_INT_ARRAY: u8 = 11;

pub const TAG_LONG_ARRAY: u8 = 12;

/// Why a buffer is no NBT document.
#[derive(Debug, Clone, Copy, PartialEq, Eq, Structural)]
pub enum NbtError {
    /// The buffer ends within the document.
    UnexpectedEof,
    /// A value has a tag that is no tag of a value: the end tag, or none of
    /// the thirteen known.
    UnknownTag(u8),
    /// Bytes follow the document.
    TrailingData,
}

impl NbtError {
    /// A short description of the error.
    pub fn message(&self) -> (r: &'static str)
        ensures
            r@ == self.message_text(),
    {
        match self {
            NbtError::UnexpectedEof => "Malformed NBT: Unexpected EOF",
            NbtError::UnknownTag(_) => "Malformed NBT: Unknown tag type",
            NbtError::TrailingData => "Malformed NBT: Unexpected trailing data",
        }
    }

    /// The text of `message`.
    pub open spec fn message_text(&self) -> Seq<char> {
        match self {
            NbtError::UnexpectedEof => "Malformed NBT: Unexpected EOF"@,
            NbtError::UnknownTag(_) => "Malformed NBT: Unknown tag type"@,
            NbtError::TrailingData => "Malformed NBT: Unexpected trailing data"@,
        }
    }
}

/// The size of a value of fixed size, by its tag: of a byte, a short, an
/// int, a long, a float and a double. The end tag is the tag of no value.
pub open spec fn fixed_size(kind: u8) -> Option<int> {
    if kind == TAG_BYTE {
        Some(1)
    } else if kind == TAG_SHORT {
        Some(2)
    } else if kind == TAG_INT || kind == TAG_FLOAT {
        Some(4)
    } else if kind == TAG_LONG || kind == TAG_DOUBLE {
        Some(8)
    } else {
        None
    }
}

/// The number of bytes that stand behind a tag of fixed size: none behind
/// the end tag, and the size of the value behind the tag of a value.
pub open spec fn payload_size(kind: u8) -> Option<int> {
    if kind == TAG_END {
        Some(0)
    } else {
        fixed_size(kind)
    }
}

/// The size of an element of an array, by the array's tag.
pub open spec fn element_size(kind: u8) -> Option<int> {
    if kind == TAG_BYTE_ARRAY {
        Some(1)
    } else if kind == TAG_INT_ARRAY {
        Some(4)
    } else if kind == TAG_LONG_ARRAY {
        Some(8)
    } else {
        None
    }
}

/// The number of bytes that stand behind a tag of fixed size.
pub fn tag_size(kind: u8) -> (r: Option<usize>)
    ensures
        match r {
            Some(n) => payload_size(kind) == Some(n as int),
            None => payload_size(kind) is None,
        },
{
    match kind {
        0 => Some(0),
        1 => Some(1),
        2 => Some(2),
        3 => Some(4),
        4 => Some(8),
        5 => Some(4),
        6 => Some(8),
        _ => None,
    }
}

/// The size of an element of an array, by the array's tag.
pub fn list_element_size(kind: u8) -> (r: Option<usize>)
    ensures
        match r {
            Some(n) => element_size(kind) == Some(n as int),
            None => element_size(kind) is None,
        },
{
    match kind {
        7 => Some(1),
        11 => Some(4),
        12 => Some(8),
        _ => None,
    }
}

/// The size of a value of fixed size, by its tag.
fn scalar_size(kind: u8) -> (r: Option<usize>)
    ensures
        match r {
            Some(n) => fixed_size(kind) == Some(n as int),
            None => fixed_size(kind) is None,
        },
{
    if kind == TAG_END {
        None
    } else {
        tag_size(kind)
    }
}

/// A place in a document that can hold a UUID.
pub enum Site {
    /// The payload of a string: `len` bytes from `at` on, scanned as text.
    Text { at: int, len: int },
    /// Sixteen bytes in two halves of eight: the high half at `most`, the low
    /// half at `least`, both big-endian.
    Longs { most: int, least: int },
}

/// What reading a part of a document gives: the bytes that it takes and the
/// sites in it, in the order in which they are rewritten.
pub struct Found {
    pub taken: nat,
    pub sites: Seq<Site>,
}

/// What a compound knows of the longs seen so far under one prefix.
pub struct PairView {
    pub prefix: Seq<u8>,
    pub most: Option<int>,
    pub least: Option<int>,
}

/// The bytes of `UUIDMost`.
pub open spec fn most_suffix() -> Seq<u8> {
    seq![0x55u8, 0x55u8, 0x49u8, 0x44u8, 0x4du8, 0x6fu8, 0x73u8, 0x74u8]
}

/// The bytes of `UUIDLeast`.
pub open spec fn least_suffix() -> Seq<u8> {
    seq![0x55u8, 0x55u8, 0x49u8, 0x44u8, 0x4cu8, 0x65u8, 0x61u8, 0x73u8, 0x74u8]
}

/// `name` ends with `suffix`.
pub open spec fn ends_with(name: Seq<u8>, suffix: Seq<u8>) -> bool {
    name.len() >= suffix.len() && name.subrange(name.len() - suffix.len(), name.len() as int)
        == suffix
}

/// The index of the first entry for `prefix`, or the number of entries where
/// there is none.
pub open spec fn find_pair(pairs: Seq<PairView>, prefix: Seq<u8>) -> int
    decreases pairs.len(),
{
    if pairs.len() == 0 || pairs[0].prefix == prefix {
        0
    } else {
        1 + find_pair(pairs.subrange(1, pairs.len() as int), prefix)
    }
}

/// The entries after a long named `<prefix>UUIDMost` was seen at `at`.
pub open spec fn record_most(pairs: Seq<PairView>, prefix: Seq<u8>, at: int) -> Seq<PairView> {
    let i = find_pair(pairs, prefix);
    if 0 <= i < pairs.len() {
        pairs.update(i, PairView { prefix: pairs[i].prefix, most: Some(at), least: pairs[i].least })
    } else {
        pairs.push(PairView { prefix, most: Some(at), least: None })
    }
}

/// The entries after a long named `<prefix>UUIDLeast` was seen at `at`.
pub open spec fn record_least(pairs: Seq<PairView>, prefix: Seq<u8>, at: int) -> Seq<PairView> {
    let i = find_pair(pairs, prefix);
    if 0 <= i < pairs.len() {
        pairs.update(i, PairView { prefix: pairs[i].prefix, most: pairs[i].most, least: Some(at) })
    } else {
        pairs.push(PairView { prefix, most: None, least: Some(at) })
    }
}

/// The sites of a compound's pairs: one for each prefix of which both halves
/// were seen. A half without its other half is no site.
pub open spec fn pair_sites(pairs: Seq<PairView>) -> Seq<Site>
    decreases pairs.len(),
{
    if pairs.len() == 0 {
        Seq::empty()
    } else {
        let last = pairs.last();
        let before = pair_sites(pairs.drop_last());
        if last.most is Some && last.least is Some {
            before.push(Site::Longs { most: last.most->0, least: last.least->0 })
        } else {
            before
        }
    }
}

/// The number of bytes of `buf` from `pos` on.
pub open spec fn left(buf: Seq<u8>, pos: int) -> nat {
    if pos <= buf.len() {
        (buf.len() - pos) as nat
    } else {
        0
    }
}

/// Why the reading of a part of a document ended before the part did, and
/// the sites that were found up to there. These are rewritten all the same.
pub struct Failed {
    pub error: NbtError,
    pub sites: Seq<Site>,
}

/// The reading ends with `error` before any site was found.
pub open spec fn fail(error: NbtError) -> Result<Found, Failed> {
    Err(Failed { error, sites: Seq::empty() })
}

/// What `first` holds, and then what `rest` says of the bytes behind it.
pub open spec fn then(first: Found, rest: Result<Found, Failed>) -> Result<Found, Failed> {
    match rest {
        Err(f) => Err(Failed { error: f.error, sites: first.sites + f.sites }),
        Ok(more) => Ok(Found { taken: first.taken + more.taken, sites: first.sites + more.sites }),
    }
}

/// The value with the tag `kind` that starts at `pos`: the bytes it takes
/// and its sites.
pub open spec fn value_sites(buf: Seq<u8>, pos: int, kind: u8) -> Result<Found, Failed>
    decreases left(buf, pos), 1int, 0nat,
{
    if kind == TAG_INT_ARRAY {
        if pos + 4 > buf.len() {
            fail(NbtError::UnexpectedEof)
        } else if be_u32(buf, pos) == 4 {
            if pos + 20 > buf.len() {
                fail(NbtError::UnexpectedEof)
            } else {
                Ok(Found { taken: 20, sites: seq![Site::Longs { most: pos + 4, least: pos + 12 }] })
            }
        } else if pos + 4 + be_u32(buf, pos) * 4 > buf.len() {
            fail(NbtError::UnexpectedEof)
        } else {
            Ok(Found { taken: (4 + be_u32(buf, pos) * 4) as nat, sites: Seq::empty() })
        }
    } else if fixed_size(kind) is Some {
        if pos + fixed_size(kind)->0 > buf.len() {
            fail(NbtError::UnexpectedEof)
        } else {
            Ok(Found { taken: fixed_size(kind)->0 as nat, sites: Seq::empty() })
        }
    } else if element_size(kind) is Some {
        if pos + 4 > buf.len() || pos + 4 + be_u32(buf, pos) * element_size(kind)->0 > buf.len() {
            fail(NbtError::UnexpectedEof)
        } else {
            Ok(
                Found {
                    taken: (4 + be_u32(buf, pos) * element_size(kind)->0) as nat,
                    sites: Seq::empty(),
                },
            )
        }
    } else if kind == TAG_COMPOUND {
        compound_sites(buf, pos, Seq::empty())
    } else if kind == TAG_LIST {
        if pos + 5 > buf.len() {
            fail(NbtError::UnexpectedEof)
        } else if fixed_size(buf[pos]) is Some {
            if pos + 5 + fixed_size(buf[pos])->0 * be_u32(buf, pos + 1) > buf.len() {
                fail(NbtError::UnexpectedEof)
            } else {
                Ok(
                    Found {
                        taken: (5 + fixed_size(buf[pos])->0 * be_u32(buf, pos + 1)) as nat,
                        sites: Seq::empty(),
                    },
                )
            }
        } else {
            then(
                Found { taken: 5, sites: Seq::empty() },
                list_sites(buf, pos + 5, buf[pos], be_u32(buf, pos + 1) as nat),
            )
        }
    } else if kind == TAG_STRING {
        if pos + 2 > buf.len() || pos + 2 + be_u16(buf, pos) > buf.len() {
            fail(NbtError::UnexpectedEof)
        } else {
            Ok(
                Found {
                    taken: (2 + be_u16(buf, pos)) as nat,
                    sites: seq![Site::Text { at: pos + 2, len: be_u16(buf, pos) }],
                },
            )
        }
    } else {
        fail(NbtError::UnknownTag(kind))
    }
}

/// `count` values with the tag `kind`, one after the other from `pos` on.
pub open spec fn list_sites(buf: Seq<u8>, pos: int, kind: u8, count: nat) -> Result<
    Found,
    Failed,
>
    decreases left(buf, pos), 2int, count,
{
    if count == 0 {
        Ok(Found { taken: 0, sites: Seq::empty() })
    } else {
        match value_sites(buf, pos, kind) {
            Err(f) => Err(f),
            Ok(first) => then(
                first,
                list_sites(buf, pos + first.taken, kind, (count - 1) as nat),
            ),
        }
    }
}

/// The place of the value of the entry of a compound that starts at `pos`:
/// behind the entry's tag and its name.
pub open spec fn entry_value(buf: Seq<u8>, pos: int) -> int {
    pos + 3 + be_u16(buf, pos + 1)
}

/// The name of the entry of a compound that starts at `pos`.
pub open spec fn entry_name(buf: Seq<u8>, pos: int) -> Seq<u8> {
    buf.subrange(pos + 3, entry_value(buf, pos))
}

/// The entry that starts at `pos` is one half of a pair: a long whose name
/// ends with `UUIDMost` or with `UUIDLeast`.
pub open spec fn is_pair_half(buf: Seq<u8>, pos: int) -> bool {
    buf[pos] == TAG_LONG && (ends_with(entry_name(buf, pos), most_suffix()) || ends_with(
        entry_name(buf, pos),
        least_suffix(),
    ))
}

/// The entries of a compound after the half of a pair that starts at `pos`:
/// the half is noted under what stands in its name before the suffix.
pub open spec fn entries_after(buf: Seq<u8>, pos: int, pairs: Seq<PairView>) -> Seq<PairView> {
    let name = entry_name(buf, pos);
    if ends_with(name, most_suffix()) {
        record_most(pairs, name.subrange(0, name.len() - 8), entry_value(buf, pos))
    } else {
        record_least(pairs, name.subrange(0, name.len() - 9), entry_value(buf, pos))
    }
}

/// The rest of a compound from `pos` on, up to its end tag, given the longs
/// that were seen in it before `pos`. Its pairs are rewritten at its end,
/// after all that stands in it.
pub open spec fn compound_sites(buf: Seq<u8>, pos: int, pairs: Seq<PairView>) -> Result<
    Found,
    Failed,
>
    decreases left(buf, pos), 0int, 0nat,
{
    let value = entry_value(buf, pos);
    if pos + 1 > buf.len() {
        fail(NbtError::UnexpectedEof)
    } else if buf[pos] == TAG_END {
        Ok(Found { taken: 1, sites: pair_sites(pairs) })
    } else if pos + 3 > buf.len() || value > buf.len() {
        fail(NbtError::UnexpectedEof)
    } else if is_pair_half(buf, pos) {
        if value + 8 > buf.len() {
            fail(NbtError::UnexpectedEof)
        } else {
            then(
                Found { taken: (value + 8 - pos) as nat, sites: Seq::empty() },
                compound_sites(buf, value + 8, entries_after(buf, pos, pairs)),
            )
        }
    } else {
        match value_sites(buf, value, buf[pos]) {
            Err(f) => Err(f),
            Ok(first) => then(
                Found { taken: (value - pos + first.taken) as nat, sites: first.sites },
                compound_sites(buf, value + first.taken, pairs),
            ),
        }
    }
}

/// The sites of the document that fills `buf`: a tag, a name, and the value
/// with that tag, which ends where the buffer ends.
pub open spec fn document_sites(buf: Seq<u8>) -> Result<Seq<Site>, Failed> {
    if 1 > buf.len() || 3 > buf.len() || 3 + be_u16(buf, 1) > buf.len() {
        Err(Failed { error: NbtError::UnexpectedEof, sites: Seq::empty() })
    } else {
        match value_sites(buf, 3 + be_u16(buf, 1), buf[0]) {
            Err(f) => Err(f),
            Ok(root) => if 3 + be_u16(buf, 1) + root.taken != buf.len() {
                Err(Failed { error: NbtError::TrailingData, sites: root.sites })
            } else {
                Ok(root.sites)
            },
        }
    }
}

/// The UUID whose high half is `most` and whose low half is `least`.
pub open spec fn uuid_of(most: int, least: int) -> u128 {
    (most * 0x1_0000_0000_0000_0000 + least) as u128
}

/// The buffer with one site handed to the mapping.
pub open spec fn rewrite_site(buf: Seq<u8>, site: Site, m: UuidMap) -> Seq<u8> {
    match site {
        Site::Text { at, len } => overwrite(buf, at, scan_text(buf.subrange(at, at + len), m)),
        Site::Longs { most, least } => match m(uuid_of(be_u64(buf, most), be_u64(buf, least))) {
            Some(v) => overwrite(
                overwrite(buf, most, u64_be_bytes(v as int / 0x1_0000_0000_0000_0000)),
                least,
                u64_be_bytes(v as int % 0x1_0000_0000_0000_0000),
            ),
            None => buf,
        },
    }
}

/// The buffer with the sites handed to the mapping, one after the other.
pub open spec fn rewrite_sites(buf: Seq<u8>, sites: Seq<Site>, m: UuidMap) -> Seq<u8>
    decreases sites.len(),
{
    if sites.len() == 0 {
        buf
    } else {
        rewrite_site(rewrite_sites(buf, sites.drop_last(), m), sites.last(), m)
    }
}

/// The byte at `j` belongs to the site.
pub open spec fn site_covers(site: Site, j: int) -> bool {
    match site {
        Site::Text { at, len } => at <= j < at + len,
        Site::Longs { most, least } => most <= j < most + 8 || least <= j < least + 8,
    }
}

/// The byte at `j` belongs to one of the sites.
pub open spec fn sites_cover(sites: Seq<Site>, j: int) -> bool {
    exists|i: int| 0 <= i < sites.len() && site_covers(#[trigger] sites[i], j)
}

/// The sites that a visit has rewritten, whether the buffer is a document or
/// not.
pub open spec fn sites_visited(buf: Seq<u8>) -> Seq<Site> {
    match document_sites(buf) {
        Ok(sites) => sites,
        Err(failed) => failed.sites,
    }
}

/// The byte at `j` may change when the site is rewritten: it is a byte of
/// one of the two halves, or it stands in the string where the string has
/// 36 bytes of the shape of a hyphenated identifier or 32 hex digits.
pub open spec fn site_allows(site: Site, buf: Seq<u8>, j: int) -> bool {
    match site {
        Site::Text { at, len } => {
            &&& at <= j < at + len
            &&& in_hyphenated(buf.subrange(at, at + len), j - at) || in_simple(
                buf.subrange(at, at + len),
                j - at,
            )
        },
        Site::Longs { most, least } => most <= j < most + 8 || least <= j < least + 8,
    }
}

/// The byte at `j` may change when the sites are rewritten.
pub open spec fn sites_allow(sites: Seq<Site>, buf: Seq<u8>, j: int) -> bool {
    exists|i: int| 0 <= i < sites.len() && site_allows(#[trigger] sites[i], buf, j)
}

/// Every byte of `after` that is not as it was in `before` is a byte that
/// may change when the sites are rewritten: all bytes outside the sites are
/// kept, and in a string all bytes outside UUID literals.
pub open spec fn kept_outside(before: Seq<u8>, after: Seq<u8>, sites: Seq<Site>) -> bool {
    &&& after.len() == before.len()
    &&& forall|j: int|
        0 <= j < before.len() && #[trigger] after[j] != before[j] ==> sites_allow(sites, before, j)
}

/// A part of a document that was begun and is not yet read to its end.
pub enum FrameView {
    /// A compound, with the longs seen in it so far.
    Compound { pairs: Seq<PairView> },
    /// A list of which `remaining` items with the tag `kind` are yet to come.
    List { kind: u8, remaining: nat },
}

/// How far a document was read: the position, and the sites found so far.
pub struct Progress {
    pub pos: int,
    pub sites: Seq<Site>,
}

/// What is left of the part `frame` from `pos` on.
pub open spec fn frame_sites(buf: Seq<u8>, pos: int, frame: FrameView) -> Result<Found, Failed> {
    match frame {
        FrameView::Compound { pairs } => compound_sites(buf, pos, pairs),
        FrameView::List { kind, remaining } => list_sites(buf, pos, kind, remaining),
    }
}

/// Reading on from `at` over what `found` holds.
pub open spec fn advance(at: Progress, found: Result<Found, Failed>) -> Result<
    Progress,
    Failed,
> {
    match found {
        Err(f) => Err(Failed { error: f.error, sites: at.sites + f.sites }),
        Ok(f) => Ok(Progress { pos: at.pos + f.taken, sites: at.sites + f.sites }),
    }
}

/// The sites of the whole document, given how far it was read and the parts
/// that were begun, the innermost last. When no part is left, the document
/// must end where the buffer ends.
pub open spec fn resume(buf: Seq<u8>, at: Progress, frames: Seq<FrameView>) -> Result<
    Seq<Site>,
    Failed,
>
    decreases frames.len(),
{
    if frames.len() == 0 {
        if at.pos == buf.len() {
            Ok(at.sites)
        } else {
            Err(Failed { error: NbtError::TrailingData, sites: at.sites })
        }
    } else {
        match advance(at, frame_sites(buf, at.pos, frames.last())) {
            Err(f) => Err(f),
            Ok(next) => resume(buf, next, frames.drop_last()),
        }
    }
}

/// The sites of the whole document, given how far it was read, that a value
/// with the tag `kind` comes next, and the parts that were begun.
pub open spec fn resume_after(
    buf: Seq<u8>,
    at: Progress,
    kind: u8,
    frames: Seq<FrameView>,
) -> Result<Seq<Site>, Failed> {
    match advance(at, value_sites(buf, at.pos, kind)) {
        Err(f) => Err(f),
        Ok(next) => resume(buf, next, frames),
    }
}

/// The longs seen under one prefix of a compound that is being read.
struct PairEntry {
    prefix: Vec<u8>,
    most: Option<usize>,
    least: Option<usize>,
}

/// A part of the document that is being read.
enum VisitFrame {
    Compound(Vec<PairEntry>),
    List { kind: u8, remaining: usize },
}

/// The place of one half of a pair, as contracts see it.
spec fn place(at: Option<usize>) -> Option<int> {
    match at {
        Some(p) => Some(p as int),
        None => None,
    }
}

/// An entry as contracts see it.
spec fn entry_view(entry: PairEntry) -> PairView {
    PairView { prefix: entry.prefix@, most: place(entry.most), least: place(entry.least) }
}

/// The entries of a compound as contracts see them.
spec fn entries_view(entries: Seq<PairEntry>) -> Seq<PairView> {
    entries.map_values(|e: PairEntry| entry_view(e))
}

/// A frame as contracts see it.
spec fn frame_view(frame: VisitFrame) -> FrameView {
    match frame {
        VisitFrame::Compound(entries) => FrameView::Compound { pairs: entries_view(entries@) },
        VisitFrame::List { kind, remaining } => FrameView::List { kind, remaining: remaining as nat },
    }
}

/// The frames as contracts see them.
spec fn frames_view(frames: Seq<VisitFrame>) -> Seq<FrameView> {
    frames.map_values(|f: VisitFrame| frame_view(f))
}

/// Both halves of the entry, where they were seen, lie before `pos`.
spec fn pair_ok(pair: PairView, pos: int) -> bool {
    &&& pair.most is Some ==> 0 <= pair.most->0 && pair.most->0 + 8 <= pos
    &&& pair.least is Some ==> 0 <= pair.least->0 && pair.least->0 + 8 <= pos
}

/// The halves of all entries lie before `pos`.
spec fn pairs_ok(pairs: Seq<PairView>, pos: int) -> bool {
    forall|i: int| 0 <= i < pairs.len() ==> pair_ok(#[trigger] pairs[i], pos)
}

/// The frame can stand on the stack when the document is read up to `pos`:
/// the halves of a compound's pairs lie before `pos`, and the items of a list
/// are not of fixed size.
spec fn frame_ok(frame: FrameView, pos: int) -> bool {
    match frame {
        FrameView::Compound { pairs } => pairs_ok(pairs, pos),
        FrameView::List { kind, remaining } => fixed_size(kind) is None,
    }
}

/// All frames can stand on the stack when the document is read up to `pos`.
spec fn frames_ok(frames: Seq<FrameView>, pos: int) -> bool {
    forall|i: int| 0 <= i < frames.len() ==> frame_ok(#[trigger] frames[i], pos)
}

/// The buffer `cur` is `orig` from `pos` on: nothing was written there.
spec fn unread(cur: Seq<u8>, orig: Seq<u8>, pos: int) -> bool {
    &&& cur.len() == orig.len()
    &&& 0 <= pos <= orig.len()
    &&& forall|j: int| pos <= j < orig.len() ==> #[trigger] cur[j] == orig[j]
}

/// The buffer `cur` is `orig` with `sites` rewritten: whatever the callback
/// answers, every byte outside the sites is kept; and where the callback
/// follows a mapping, each site is rewritten as the mapping says, one after
/// the other.
pub open spec fn rewritten<F: Fn(u128) -> Option<u128>>(
    cur: Seq<u8>,
    orig: Seq<u8>,
    sites: Seq<Site>,
    cb: &F,
) -> bool {
    &&& kept_outside(orig, cur, sites)
    &&& forall|m: UuidMap| follows(cb, m) ==> cur == #[trigger] rewrite_sites(orig, sites, m)
}

/// Rewriting one more site is rewriting the sites with that site added.
proof fn lemma_rewrite_push(buf: Seq<u8>, sites: Seq<Site>, site: Site, m: UuidMap)
    ensures
        rewrite_sites(buf, sites.push(site), m) == rewrite_site(
            rewrite_sites(buf, sites, m),
            site,
            m,
        ),
{
    assert(sites.push(site).drop_last() == sites);
}

/// Handing the two halves of a UUID to the callback and writing back what it
/// answers.
fn visit_uuid<F: Fn(u128) -> Option<u128>>(nbt: &mut [u8], most: usize, least: usize, cb: &F)
    requires
        total(cb),
        most + 8 <= old(nbt)@.len(),
        least + 8 <= old(nbt)@.len(),
    ensures
        final(nbt)@.len() == old(nbt)@.len(),
        forall|j: int|
            0 <= j < old(nbt)@.len() && !(most <= j < most + 8) && !(least <= j < least + 8)
                ==> #[trigger] final(nbt)@[j] == old(nbt)@[j],
        forall|m: UuidMap|
            follows(cb, m) ==> final(nbt)@ == rewrite_site(
                old(nbt)@,
                Site::Longs { most: most as int, least: least as int },
                m,
            ),
{
    let omost: u64 = read_u64(nbt, most);
    let oleast: u64 = read_u64(nbt, least);
    let uuid: u128 = omost as u128 * 0x1_0000_0000_0000_0000 + oleast as u128;
    let answer = cb(uuid);
    if let Some(new_uuid) = answer {
        write_u64(nbt, most, (new_uuid / 0x1_0000_0000_0000_0000) as u64);
        write_u64(nbt, least, (new_uuid % 0x1_0000_0000_0000_0000) as u64);
    }
    proof {
        assert forall|m: UuidMap| follows(cb, m) implies nbt@ == rewrite_site(
            old(nbt)@,
            Site::Longs { most: most as int, least: least as int },
            m,
        ) by {
            assert(call_ensures(*cb, (uuid,), answer));
            assert(m(uuid) == answer);
        }
    }
}

/// Scans the `len` bytes from `at` on as text.
fn visit_str<F: Fn(u128) -> Option<u128>>(nbt: &mut [u8], at: usize, len: usize, cb: &F)
    requires
        total(cb),
        at + len <= old(nbt)@.len(),
    ensures
        final(nbt)@.len() == old(nbt)@.len(),
        forall|j: int|
            0 <= j < old(nbt)@.len() && #[trigger] final(nbt)@[j] != old(nbt)@[j] ==> site_allows(
                Site::Text { at: at as int, len: len as int },
                old(nbt)@,
                j,
            ),
        forall|m: UuidMap|
            follows(cb, m) ==> final(nbt)@ == rewrite_site(
                old(nbt)@,
                Site::Text { at: at as int, len: len as int },
                m,
            ),
{
    let ghost orig = nbt@;
    let (head, tail) = nbt.split_at_mut(at);
    let (text, rest) = tail.split_at_mut(len);
    let ghost before = text@;
    visit_text(text, cb);
    proof {
        assert(before == orig.subrange(at as int, at + len));
        let after = text@;
        assert forall|j: int| 0 <= j < orig.len() && #[trigger] nbt@[j] != orig[j] implies site_allows(
            Site::Text { at: at as int, len: len as int },
            orig,
            j,
        ) by {
            if at <= j < at + len {
                assert(nbt@[j] == after[j - at]);
                assert(orig[j] == before[j - at]);
                assert(after[j - at] != before[j - at]);
            }
        }
        assert forall|m: UuidMap| follows(cb, m) implies nbt@ == rewrite_site(
            orig,
            Site::Text { at: at as int, len: len as int },
            m,
        ) by {
            assert(nbt@ =~= overwrite(orig, at as int, scan_text(before, m)));
        }
    }
}

/// The name ends with `UUIDMost`.
fn has_most_suffix(name: &[u8]) -> (r: bool)
    ensures
        r == ends_with(name@, most_suffix()),
{
    let n: usize = name.len();
    if n < 8 {
        return false;
    }
    let r = name[n - 8] == 0x55 && name[n - 7] == 0x55 && name[n - 6] == 0x49 && name[n - 5] == 0x44
        && name[n - 4] == 0x4d && name[n - 3] == 0x6f && name[n - 2] == 0x73 && name[n - 1] == 0x74;
    proof {
        let tail = name@.subrange(n - 8, n as int);
        if r {
            assert(tail =~= most_suffix());
        } else {
            assert(tail[0] == name@[n - 8] && tail[1] == name@[n - 7] && tail[2] == name@[n - 6]
                && tail[3] == name@[n - 5] && tail[4] == name@[n - 4] && tail[5] == name@[n - 3]
                && tail[6] == name@[n - 2] && tail[7] == name@[n - 1]);
        }
    }
    r
}

/// The name ends with `UUIDLeast`.
fn has_least_suffix(name: &[u8]) -> (r: bool)
    ensures
        r == ends_with(name@, least_suffix()),
{
    let n: usize = name.len();
    if n < 9 {
        return false;
    }
    let r = name[n - 9] == 0x55 && name[n - 8] == 0x55 && name[n - 7] == 0x49 && name[n - 6] == 0x44
        && name[n - 5] == 0x4c && name[n - 4] == 0x65 && name[n - 3] == 0x61 && name[n - 2] == 0x73
        && name[n - 1] == 0x74;
    proof {
        let tail = name@.subrange(n - 9, n as int);
        if r {
            assert(tail =~= least_suffix());
        } else {
            assert(tail[0] == name@[n - 9] && tail[1] == name@[n - 8] && tail[2] == name@[n - 7]
                && tail[3] == name@[n - 6] && tail[4] == name@[n - 5] && tail[5] == name@[n - 4]
                && tail[6] == name@[n - 3] && tail[7] == name@[n - 2] && tail[8] == name@[n - 1]);
        }
    }
    r
}

/// The index of the first entry for `prefix`, or the number of entries.
fn find_entry(entries: &Vec<PairEntry>, prefix: &[u8]) -> (r: usize)
    ensures
        r == find_pair(entries_view(entries@), prefix@),
        r <= entries@.len(),
{
    let n: usize = entries.len();
    let ghost pairs = entries_view(entries@);
    proof {
        assert(pairs.subrange(0, n as int) == pairs);
    }
    let mut i: usize = 0;
    while i < n
        invariant
            i <= n == entries@.len(),
            pairs == entries_view(entries@),
            find_pair(pairs, prefix@) == i + find_pair(pairs.subrange(i as int, n as int), prefix@),
        decreases n - i,
    {
        proof {
            let rest = pairs.subrange(i as int, n as int);
            assert(rest[0] == entry_view(entries@[i as int]));
            assert(rest.subrange(1, rest.len() as int) == pairs.subrange(i + 1, n as int));
        }
        if same_bytes(entries[i].prefix.as_slice(), prefix) {
            return i;
        }
        i += 1;
    }
    proof {
        assert(pairs.subrange(0, n as int) == pairs);
    }
    i
}

/// Notes that a long named `<prefix>UUIDMost` (or, where `most` is false,
/// `<prefix>UUIDLeast`) was seen at `at`.
fn record(entries: &mut Vec<PairEntry>, prefix: &[u8], at: usize, most: bool)
    ensures
        entries_view(final(entries)@) == if most {
            record_most(entries_view(old(entries)@), prefix@, at as int)
        } else {
            record_least(entries_view(old(entries)@), prefix@, at as int)
        },
{
    let ghost before = entries_view(entries@);
    let i = find_entry(entries, prefix);
    if i < entries.len() {
        let entry = entries.remove(i);
        let updated = if most {
            PairEntry { prefix: entry.prefix, most: Some(at), least: entry.least }
        } else {
            PairEntry { prefix: entry.prefix, most: entry.most, least: Some(at) }
        };
        entries.insert(i, updated);
        proof {
            let after = entries_view(entries@);
            let expected = if most {
                record_most(before, prefix@, at as int)
            } else {
                record_least(before, prefix@, at as int)
            };
            assert(after =~= expected);
        }
    } else {
        let fresh = if most {
            PairEntry { prefix: slice_to_vec(prefix), most: Some(at), least: None }
        } else {
            PairEntry { prefix: slice_to_vec(prefix), most: None, least: Some(at) }
        };
        entries.push(fresh);
        proof {
            let after = entries_view(entries@);
            let expected = if most {
                record_most(before, prefix@, at as int)
            } else {
                record_least(before, prefix@, at as int)
            };
            assert(after =~= expected);
        }
    }
}

/// Reading on with a part begun is reading that part to its end and then
/// reading on.
proof fn lemma_resume_push(buf: Seq<u8>, at: Progress, frames: Seq<FrameView>, frame: FrameView)
    ensures
        resume(buf, at, frames.push(frame)) == match advance(
            at,
            frame_sites(buf, at.pos, frame),
        ) {
            Err(f) => Err::<Seq<Site>, Failed>(f),
            Ok(next) => resume(buf, next, frames),
        },
{
    assert(frames.push(frame).drop_last() == frames);
}

/// A list of which nothing is left is done.
proof fn lemma_list_done(buf: Seq<u8>, at: Progress, frames: Seq<FrameView>, kind: u8)
    ensures
        resume(buf, at, frames.push(FrameView::List { kind, remaining: 0 })) == resume(
            buf,
            at,
            frames,
        ),
{
    lemma_resume_push(buf, at, frames, FrameView::List { kind, remaining: 0 });
    assert(at.sites + Seq::<Site>::empty() =~= at.sites);
}

/// A list of which something is left goes on with its next item.
proof fn lemma_list_item(
    buf: Seq<u8>,
    at: Progress,
    frames: Seq<FrameView>,
    kind: u8,
    remaining: nat,
)
    requires
        remaining > 0,
    ensures
        resume(buf, at, frames.push(FrameView::List { kind, remaining })) == resume_after(
            buf,
            at,
            kind,
            frames.push(FrameView::List { kind, remaining: (remaining - 1) as nat }),
        ),
{
    let less = FrameView::List { kind, remaining: (remaining - 1) as nat };
    lemma_resume_push(buf, at, frames, FrameView::List { kind, remaining });
    match value_sites(buf, at.pos, kind) {
        Err(f) => {},
        Ok(first) => {
            let next = Progress { pos: at.pos + first.taken, sites: at.sites + first.sites };
            lemma_resume_push(buf, next, frames, less);
            match list_sites(buf, next.pos, kind, (remaining - 1) as nat) {
                Err(f) => {
                    assert(at.sites + (first.sites + f.sites) =~= next.sites + f.sites);
                },
                Ok(rest) => {
                    assert(at.sites + (first.sites + rest.sites) =~= next.sites + rest.sites);
                },
            }
        },
    }
}

/// A compound that has come to its end tag is done, and its pairs are
/// rewritten.
proof fn lemma_compound_end(
    buf: Seq<u8>,
    at: Progress,
    frames: Seq<FrameView>,
    pairs: Seq<PairView>,
)
    requires
        0 <= at.pos < buf.len(),
        buf[at.pos] == TAG_END,
    ensures
        resume(buf, at, frames.push(FrameView::Compound { pairs })) == resume(
            buf,
            Progress { pos: at.pos + 1, sites: at.sites + pair_sites(pairs) },
            frames,
        ),
{
    lemma_resume_push(buf, at, frames, FrameView::Compound { pairs });
}

/// A compound that has come to one half of a pair notes it and goes on
/// behind it.
proof fn lemma_compound_half(
    buf: Seq<u8>,
    at: Progress,
    frames: Seq<FrameView>,
    pairs: Seq<PairView>,
)
    requires
        0 <= at.pos,
        entry_value(buf, at.pos) + 8 <= buf.len(),
        is_pair_half(buf, at.pos),
    ensures
        resume(buf, at, frames.push(FrameView::Compound { pairs })) == resume(
            buf,
            Progress { pos: entry_value(buf, at.pos) + 8, sites: at.sites },
            frames.push(FrameView::Compound { pairs: entries_after(buf, at.pos, pairs) }),
        ),
{
    let entries = entries_after(buf, at.pos, pairs);
    let behind = Progress { pos: entry_value(buf, at.pos) + 8, sites: at.sites };
    lemma_resume_push(buf, at, frames, FrameView::Compound { pairs });
    lemma_resume_push(buf, behind, frames, FrameView::Compound { pairs: entries });
    match compound_sites(buf, behind.pos, entries) {
        Err(f) => {
            assert(at.sites + (Seq::<Site>::empty() + f.sites) =~= at.sites + f.sites);
        },
        Ok(rest) => {
            assert(at.sites + (Seq::<Site>::empty() + rest.sites) =~= at.sites + rest.sites);
        },
    }
}

/// A compound that has come to any other entry goes on with the entry's
/// value.
proof fn lemma_compound_entry(
    buf: Seq<u8>,
    at: Progress,
    frames: Seq<FrameView>,
    pairs: Seq<PairView>,
)
    requires
        0 <= at.pos,
        entry_value(buf, at.pos) <= buf.len(),
        buf[at.pos] != TAG_END,
        !is_pair_half(buf, at.pos),
    ensures
        resume(buf, at, frames.push(FrameView::Compound { pairs })) == resume_after(
            buf,
            Progress { pos: entry_value(buf, at.pos), sites: at.sites },
            buf[at.pos],
            frames.push(FrameView::Compound { pairs }),
        ),
{
    let value = entry_value(buf, at.pos);
    let kind = buf[at.pos];
    lemma_resume_push(buf, at, frames, FrameView::Compound { pairs });
    match value_sites(buf, value, kind) {
        Err(f) => {},
        Ok(first) => {
            let next = Progress { pos: value + first.taken, sites: at.sites + first.sites };
            lemma_resume_push(buf, next, frames, FrameView::Compound { pairs });
            match compound_sites(buf, next.pos, pairs) {
                Err(f) => {
                    assert(at.sites + (first.sites + f.sites) =~= next.sites + f.sites);
                },
                Ok(rest) => {
                    assert(at.sites + (first.sites + rest.sites) =~= next.sites + rest.sites);
                },
            }
        },
    }
}

/// A compound that comes next is begun.
proof fn lemma_value_compound(buf: Seq<u8>, at: Progress, frames: Seq<FrameView>)
    ensures
        resume(buf, at, frames.push(FrameView::Compound { pairs: Seq::empty() })) == resume_after(
            buf,
            at,
            TAG_COMPOUND,
            frames,
        ),
{
    lemma_resume_push(buf, at, frames, FrameView::Compound { pairs: Seq::empty() });
}

/// A list that comes next, of items that are not of fixed size, is begun
/// behind its header.
proof fn lemma_value_list(buf: Seq<u8>, at: Progress, frames: Seq<FrameView>)
    requires
        0 <= at.pos,
        at.pos + 5 <= buf.len(),
        fixed_size(buf[at.pos]) is None,
    ensures
        resume(
            buf,
            Progress { pos: at.pos + 5, sites: at.sites },
            frames.push(
                FrameView::List { kind: buf[at.pos], remaining: be_u32(buf, at.pos + 1) as nat },
            ),
        ) == resume_after(buf, at, TAG_LIST, frames),
{
    let frame = FrameView::List { kind: buf[at.pos], remaining: be_u32(buf, at.pos + 1) as nat };
    lemma_resume_push(buf, Progress { pos: at.pos + 5, sites: at.sites }, frames, frame);
    match list_sites(buf, at.pos + 5, buf[at.pos], be_u32(buf, at.pos + 1) as nat) {
        Err(f) => {
            assert(at.sites + (Seq::<Site>::empty() + f.sites) =~= at.sites + f.sites);
        },
        Ok(items) => {
            assert(at.sites + (Seq::<Site>::empty() + items.sites) =~= at.sites + items.sites);
        },
    }
}

/// A value without sites that comes next is passed over.
proof fn lemma_value_plain(
    buf: Seq<u8>,
    at: Progress,
    frames: Seq<FrameView>,
    kind: u8,
    taken: nat,
)
    requires
        value_sites(buf, at.pos, kind) == Ok::<Found, Failed>(
            Found { taken, sites: Seq::empty() },
        ),
    ensures
        resume(buf, Progress { pos: at.pos + taken, sites: at.sites }, frames) == resume_after(
            buf,
            at,
            kind,
            frames,
        ),
{
    assert(at.sites + Seq::<Site>::empty() =~= at.sites);
}

/// A value that is one site is passed over, the site being rewritten.
proof fn lemma_value_site(
    buf: Seq<u8>,
    at: Progress,
    frames: Seq<FrameView>,
    kind: u8,
    taken: nat,
    site: Site,
)
    requires
        value_sites(buf, at.pos, kind) == Ok::<Found, Failed>(Found { taken, sites: seq![site] }),
    ensures
        resume(buf, Progress { pos: at.pos + taken, sites: at.sites.push(site) }, frames)
            == resume_after(buf, at, kind, frames),
{
    assert(at.sites + seq![site] =~= at.sites.push(site));
}

/// The frames stay in order when the document is read further.
proof fn lemma_frames_ok_later(frames: Seq<FrameView>, pos: int, later: int)
    requires
        frames_ok(frames, pos),
        pos <= later,
    ensures
        frames_ok(frames, later),
{
    assert forall|i: int| 0 <= i < frames.len() implies frame_ok(#[trigger] frames[i], later) by {
        assert(frame_ok(frames[i], pos));
        match frames[i] {
            FrameView::Compound { pairs } => {
                assert forall|j: int| 0 <= j < pairs.len() implies pair_ok(
                    #[trigger] pairs[j],
                    later,
                ) by {
                    assert(pair_ok(pairs[j], pos));
                }
            },
            FrameView::List { kind, remaining } => {},
        }
    }
}

/// The frames are in order with one more frame that is.
proof fn lemma_frames_ok_push(frames: Seq<VisitFrame>, frame: VisitFrame, pos: int)
    requires
        frames_ok(frames_view(frames), pos),
        frame_ok(frame_view(frame), pos),
    ensures
        frames_view(frames.push(frame)) == frames_view(frames).push(frame_view(frame)),
        frames_ok(frames_view(frames.push(frame)), pos),
{
    assert(frames_view(frames.push(frame)) =~= frames_view(frames).push(frame_view(frame)));
    assert forall|i: int| 0 <= i < frames.len() + 1 implies frame_ok(
        #[trigger] frames_view(frames.push(frame))[i],
        pos,
    ) by {
        if i < frames.len() {
            assert(frame_ok(frames_view(frames)[i], pos));
        }
    }
}

/// The frames without the last are in order, and the last is.
proof fn lemma_frames_ok_pop(frames: Seq<VisitFrame>, pos: int)
    requires
        frames.len() > 0,
        frames_ok(frames_view(frames), pos),
    ensures
        frames_view(frames) == frames_view(frames.drop_last()).push(frame_view(frames.last())),
        frames_ok(frames_view(frames.drop_last()), pos),
        frame_ok(frame_view(frames.last()), pos),
{
    assert(frames_view(frames) =~= frames_view(frames.drop_last()).push(
        frame_view(frames.last()),
    ));
    assert(frame_ok(frames_view(frames)[frames.len() - 1], pos));
    assert forall|i: int| 0 <= i < frames.len() - 1 implies frame_ok(
        #[trigger] frames_view(frames.drop_last())[i],
        pos,
    ) by {
        assert(frame_ok(frames_view(frames)[i], pos));
    }
}

/// The cursor of a visit.
struct NbtReader {
    pos: usize,
}

impl NbtReader {
    /// Goes on by `len` bytes and returns where they start.
    fn take(&mut self, nbt: &[u8], len: u64) -> (r: Result<usize, NbtError>)
        requires
            old(self).pos <= nbt@.len(),
        ensures
            final(self).pos <= nbt@.len(),
            match r {
                Ok(at) => at == old(self).pos && final(self).pos == at + len,
                Err(e) => e == NbtError::UnexpectedEof && old(self).pos + len > nbt@.len()
                    && final(self).pos == old(self).pos,
            },
    {
        let end: usize = nbt.len();
        if len > (end - self.pos) as u64 {
            return Err(NbtError::UnexpectedEof);
        }
        let at: usize = self.pos;
        self.pos = at + len as usize;
        Ok(at)
    }

    /// Goes on over a string: its length and its bytes. Returns where the
    /// bytes start and how many they are.
    fn take_str(&mut self, nbt: &[u8]) -> (r: Result<(usize, usize), NbtError>)
        requires
            old(self).pos <= nbt@.len(),
        ensures
            final(self).pos <= nbt@.len(),
            match r {
                Ok((at, len)) => {
                    &&& at == old(self).pos + 2
                    &&& len == be_u16(nbt@, old(self).pos as int)
                    &&& final(self).pos == at + len
                },
                Err(e) => {
                    &&& e == NbtError::UnexpectedEof
                    &&& old(self).pos + 2 > nbt@.len() || old(self).pos + 2 + be_u16(
                        nbt@,
                        old(self).pos as int,
                    ) > nbt@.len()
                },
            },
    {
        let head = self.take(nbt, 2)?;
        let len: usize = read_u16(nbt, head) as usize;
        let at = self.take(nbt, len as u64)?;
        Ok((at, len))
    }

    /// Reads the int array that comes next. One of exactly four ints is
    /// taken for a UUID.
    #[verifier::rlimit(40)]
    fn visit_int_array<F: Fn(u128) -> Option<u128>>(
        &mut self,
        nbt: &mut [u8],
        cb: &F,
        Ghost(orig): Ghost<Seq<u8>>,
        Ghost(sites): Ghost<Seq<Site>>,
        Ghost(frames): Ghost<Seq<VisitFrame>>,
    ) -> (r: Result<Ghost<Seq<Site>>, NbtError>)
        requires
            in_order(old(nbt)@, orig, old(self).pos as int, sites, frames, cb),
        ensures
            value_done(
                orig,
                TAG_INT_ARRAY,
                Progress { pos: old(self).pos as int, sites },
                frames,
                r,
                final(nbt)@,
                final(self).pos as int,
                frames,
                cb,
            ),
    {
        let ghost start = self.pos as int;
        let ghost at = Progress { pos: start, sites };
        let head = match self.take(nbt, 4) {
            Ok(head) => head,
            Err(e) => {
                return Err(e);
            },
        };
        let count: u32 = read_u32(nbt, head);
        assert(count == be_u32(orig, start));
        if count == 4 {
            let most = match self.take(nbt, 8) {
                Ok(most) => most,
                Err(e) => {
                    return Err(e);
                },
            };
            let least = match self.take(nbt, 8) {
                Ok(least) => least,
                Err(e) => {
                    return Err(e);
                },
            };
            let ghost before = nbt@;
            visit_uuid(nbt, most, least, cb);
            let ghost site = Site::Longs { most: most as int, least: least as int };
            proof {
                lemma_value_site(orig, at, frames_view(frames), TAG_INT_ARRAY, 20, site);
                lemma_frames_ok_later(frames_view(frames), start, self.pos as int);
                lemma_site_behind(before, orig, sites, site, nbt@, self.pos as int, cb);
            }
            Ok(Ghost(sites.push(site)))
        } else {
            match self.take(nbt, count as u64 * 4) {
                Ok(_) => {},
                Err(e) => {
                    return Err(e);
                },
            }
            proof {
                lemma_value_plain(
                    orig,
                    at,
                    frames_view(frames),
                    TAG_INT_ARRAY,
                    (4 + count * 4) as nat,
                );
                lemma_frames_ok_later(frames_view(frames), start, self.pos as int);
            }
            Ok(Ghost(sites))
        }
    }

    /// Passes over the value of fixed size that comes next.
    fn skip_fixed<F: Fn(u128) -> Option<u128>>(
        &mut self,
        nbt: &mut [u8],
        kind: u8,
        size: usize,
        cb: &F,
        Ghost(orig): Ghost<Seq<u8>>,
        Ghost(sites): Ghost<Seq<Site>>,
        Ghost(frames): Ghost<Seq<VisitFrame>>,
    ) -> (r: Result<Ghost<Seq<Site>>, NbtError>)
        requires
            in_order(old(nbt)@, orig, old(self).pos as int, sites, frames, cb),
            kind != TAG_INT_ARRAY,
            fixed_size(kind) == Some(size as int),
        ensures
            final(nbt)@ == old(nbt)@,
            value_done(
                orig,
                kind,
                Progress { pos: old(self).pos as int, sites },
                frames,
                r,
                final(nbt)@,
                final(self).pos as int,
                frames,
                cb,
            ),
    {
        let ghost start = self.pos as int;
        let ghost at = Progress { pos: start, sites };
        match self.take(nbt, size as u64) {
            Ok(_) => {},
            Err(e) => {
                return Err(e);
            },
        }
        proof {
            lemma_value_plain(orig, at, frames_view(frames), kind, size as nat);
            lemma_frames_ok_later(frames_view(frames), start, self.pos as int);
        }
        Ok(Ghost(sites))
    }

    /// Passes over the byte array or long array that comes next.
    fn skip_array<F: Fn(u128) -> Option<u128>>(
        &mut self,
        nbt: &mut [u8],
        kind: u8,
        element: usize,
        cb: &F,
        Ghost(orig): Ghost<Seq<u8>>,
        Ghost(sites): Ghost<Seq<Site>>,
        Ghost(frames): Ghost<Seq<VisitFrame>>,
    ) -> (r: Result<Ghost<Seq<Site>>, NbtError>)
        requires
            in_order(old(nbt)@, orig, old(self).pos as int, sites, frames, cb),
            kind != TAG_INT_ARRAY,
            fixed_size(kind) is None,
            element_size(kind) == Some(element as int),
        ensures
            final(nbt)@ == old(nbt)@,
            value_done(
                orig,
                kind,
                Progress { pos: old(self).pos as int, sites },
                frames,
                r,
                final(nbt)@,
                final(self).pos as int,
                frames,
                cb,
            ),
    {
        let ghost start = self.pos as int;
        let ghost at = Progress { pos: start, sites };
        let head = match self.take(nbt, 4) {
            Ok(head) => head,
            Err(e) => {
                return Err(e);
            },
        };
        let count: u32 = read_u32(nbt, head);
        assert(count == be_u32(orig, start));
        assert(count as int * element as int == be_u32(orig, start) * element_size(kind)->0)
            by (nonlinear_arith)
            requires
                count as int == be_u32(orig, start),
                element as int == element_size(kind)->0,
        ;
        assert(count as int * element as int <= 0xffff_ffff * 8) by (nonlinear_arith)
            requires
                0 <= count <= 0xffff_ffff,
                0 <= element <= 8,
        ;
        match self.take(nbt, count as u64 * element as u64) {
            Ok(_) => {},
            Err(e) => {
                return Err(e);
            },
        }
        proof {
            lemma_value_plain(orig, at, frames_view(frames), kind, (4 + count * element) as nat);
            lemma_frames_ok_later(frames_view(frames), start, self.pos as int);
        }
        Ok(Ghost(sites))
    }

    /// Reads the header of the list that comes next. A list of items of
    /// fixed size is passed over; any other list is begun.
    #[verifier::rlimit(40)]
    fn visit_list<F: Fn(u128) -> Option<u128>>(
        &mut self,
        nbt: &mut [u8],
        stack: &mut Vec<VisitFrame>,
        cb: &F,
        Ghost(orig): Ghost<Seq<u8>>,
        Ghost(sites): Ghost<Seq<Site>>,
    ) -> (r: Result<Ghost<Seq<Site>>, NbtError>)
        requires
            in_order(old(nbt)@, orig, old(self).pos as int, sites, old(stack)@, cb),
        ensures
            final(nbt)@ == old(nbt)@,
            value_done(
                orig,
                TAG_LIST,
                Progress { pos: old(self).pos as int, sites },
                old(stack)@,
                r,
                final(nbt)@,
                final(self).pos as int,
                final(stack)@,
                cb,
            ),
    {
        let ghost start = self.pos as int;
        let ghost at = Progress { pos: start, sites };
        let ghost frames = frames_view(stack@);
        let head = match self.take(nbt, 1) {
            Ok(head) => head,
            Err(e) => {
                return Err(e);
            },
        };
        let ele_kind: u8 = nbt[head];
        let counted = match self.take(nbt, 4) {
            Ok(counted) => counted,
            Err(e) => {
                return Err(e);
            },
        };
        let count: u32 = read_u32(nbt, counted);
        assert(ele_kind == orig[start]);
        assert(count == be_u32(orig, start + 1));
        if let Some(size) = scalar_size(ele_kind) {
            assert(size as int * count as int == fixed_size(ele_kind)->0 * be_u32(orig, start + 1))
                by (nonlinear_arith)
                requires
                    size as int == fixed_size(ele_kind)->0,
                    count as int == be_u32(orig, start + 1),
            ;
            assert(size as int * count as int <= 8 * 0xffff_ffff) by (nonlinear_arith)
                requires
                    0 <= count <= 0xffff_ffff,
                    0 <= size <= 8,
            ;
            match self.take(nbt, size as u64 * count as u64) {
                Ok(_) => {},
                Err(e) => {
                    return Err(e);
                },
            }
            proof {
                lemma_value_plain(orig, at, frames, TAG_LIST, (5 + size * count) as nat);
                lemma_frames_ok_later(frames, start, self.pos as int);
            }
            Ok(Ghost(sites))
        } else {
            let frame = VisitFrame::List { kind: ele_kind, remaining: count as usize };
            proof {
                lemma_frames_ok_later(frames, start, self.pos as int);
                lemma_frames_ok_push(stack@, frame, self.pos as int);
                lemma_value_list(orig, at, frames);
            }
            stack.push(frame);
            Ok(Ghost(sites))
        }
    }

    /// Reads the string that comes next and scans it as text.
    #[verifier::rlimit(40)]
    fn visit_string<F: Fn(u128) -> Option<u128>>(
        &mut self,
        nbt: &mut [u8],
        cb: &F,
        Ghost(orig): Ghost<Seq<u8>>,
        Ghost(sites): Ghost<Seq<Site>>,
        Ghost(frames): Ghost<Seq<VisitFrame>>,
    ) -> (r: Result<Ghost<Seq<Site>>, NbtError>)
        requires
            in_order(old(nbt)@, orig, old(self).pos as int, sites, frames, cb),
        ensures
            value_done(
                orig,
                TAG_STRING,
                Progress { pos: old(self).pos as int, sites },
                frames,
                r,
                final(nbt)@,
                final(self).pos as int,
                frames,
                cb,
            ),
    {
        let ghost start = self.pos as int;
        let ghost at = Progress { pos: start, sites };
        let (text, len) = match self.take_str(nbt) {
            Ok(found) => found,
            Err(e) => {
                assert(be_u16(nbt@, start) == be_u16(orig, start) || start + 2 > orig.len());
                return Err(e);
            },
        };
        assert(len == be_u16(orig, start));
        let ghost before = nbt@;
        visit_str(nbt, text, len, cb);
        let ghost site = Site::Text { at: text as int, len: len as int };
        proof {
            lemma_value_site(orig, at, frames_view(frames), TAG_STRING, (2 + len) as nat, site);
            lemma_frames_ok_later(frames_view(frames), start, self.pos as int);
            assert(before.subrange(text as int, text + len) =~= orig.subrange(
                text as int,
                text + len,
            ));
            lemma_site_behind(before, orig, sites, site, nbt@, self.pos as int, cb);
        }
        Ok(Ghost(sites.push(site)))
    }

    /// Reads the value with the tag `kind` that comes next, or, where it is
    /// a compound or a list of items that are not of fixed size, begins it.
    fn visit_value<F: Fn(u128) -> Option<u128>>(
        &mut self,
        nbt: &mut [u8],
        stack: &mut Vec<VisitFrame>,
        kind: u8,
        cb: &F,
        Ghost(orig): Ghost<Seq<u8>>,
        Ghost(sites): Ghost<Seq<Site>>,
    ) -> (r: Result<Ghost<Seq<Site>>, NbtError>)
        requires
            in_order(old(nbt)@, orig, old(self).pos as int, sites, old(stack)@, cb),
        ensures
            value_done(
                orig,
                kind,
                Progress { pos: old(self).pos as int, sites },
                old(stack)@,
                r,
                final(nbt)@,
                final(self).pos as int,
                final(stack)@,
                cb,
            ),
    {
        if kind == TAG_INT_ARRAY {
            self.visit_int_array(nbt, cb, Ghost(orig), Ghost(sites), Ghost(stack@))
        } else if let Some(size) = scalar_size(kind) {
            self.skip_fixed(nbt, kind, size, cb, Ghost(orig), Ghost(sites), Ghost(stack@))
        } else if let Some(element) = list_element_size(kind) {
            self.skip_array(nbt, kind, element, cb, Ghost(orig), Ghost(sites), Ghost(stack@))
        } else if kind == TAG_COMPOUND {
            let frame = VisitFrame::Compound(Vec::new());
            proof {
                assert(entries_view(Seq::<PairEntry>::empty()) =~= Seq::<PairView>::empty());
                lemma_frames_ok_push(stack@, frame, self.pos as int);
                lemma_value_compound(
                    orig,
                    Progress { pos: self.pos as int, sites },
                    frames_view(stack@),
                );
            }
            stack.push(frame);
            Ok(Ghost(sites))
        } else if kind == TAG_LIST {
            self.visit_list(nbt, stack, cb, Ghost(orig), Ghost(sites))
        } else if kind == TAG_STRING {
            self.visit_string(nbt, cb, Ghost(orig), Ghost(sites), Ghost(stack@))
        } else {
            Err(NbtError::UnknownTag(kind))
        }
    }
}

/// The visit is in order: the callback can be called, nothing was written
/// from `pos` on, the buffer is what it was at first with `sites` rewritten,
/// and the frames can stand.
spec fn in_order<F: Fn(u128) -> Option<u128>>(
    cur: Seq<u8>,
    orig: Seq<u8>,
    pos: int,
    sites: Seq<Site>,
    frames: Seq<VisitFrame>,
    cb: &F,
) -> bool {
    &&& total(cb)
    &&& unread(cur, orig, pos)
    &&& rewritten(cur, orig, sites, cb)
    &&& frames_ok(frames_view(frames), pos)
}

/// The reading has failed with `error`, and the buffer is what it was at
/// first with the sites rewritten that were found up to there.
spec fn failed_with<F: Fn(u128) -> Option<u128>>(
    end: Result<Seq<Site>, Failed>,
    error: NbtError,
    cur: Seq<u8>,
    orig: Seq<u8>,
    cb: &F,
) -> bool {
    &&& end is Err
    &&& end->Err_0.error == error
    &&& rewritten(cur, orig, end->Err_0.sites, cb)
}

/// What holds after a value was read or begun.
spec fn value_done<F: Fn(u128) -> Option<u128>>(
    orig: Seq<u8>,
    kind: u8,
    before: Progress,
    old_frames: Seq<VisitFrame>,
    r: Result<Ghost<Seq<Site>>, NbtError>,
    cur: Seq<u8>,
    pos: int,
    frames: Seq<VisitFrame>,
    cb: &F,
) -> bool {
    &&& cur.len() == orig.len()
    &&& match r {
        Err(e) => failed_with(resume_after(orig, before, kind, frames_view(old_frames)), e, cur, orig, cb),
        Ok(found) => {
            &&& in_order(cur, orig, pos, found@, frames, cb)
            &&& resume(orig, Progress { pos, sites: found@ }, frames_view(frames)) == resume_after(
                orig,
                before,
                kind,
                frames_view(old_frames),
            )
            &&& before.pos <= pos
            &&& frames.len() <= old_frames.len() + 1
            &&& {
                ||| pos > before.pos
                ||| fixed_size(kind) is Some && frames == old_frames
                ||| frames.len() > 0 && frames.last() is Compound
            }
        },
    }
}

/// A site behind the cursor that was rewritten leaves the visit in order.
proof fn lemma_site_behind<F: Fn(u128) -> Option<u128>>(
    before: Seq<u8>,
    orig: Seq<u8>,
    sites: Seq<Site>,
    site: Site,
    after: Seq<u8>,
    pos: int,
    cb: &F,
)
    requires
        rewritten(before, orig, sites, cb),
        before.len() == orig.len(),
        after.len() == orig.len(),
        0 <= pos <= orig.len(),
        forall|j: int| pos <= j < orig.len() ==> #[trigger] before[j] == orig[j],
        forall|m: UuidMap| follows(cb, m) ==> after == rewrite_site(before, site, m),
        match site {
            Site::Text { at, len } => 0 <= at && 0 <= len && at + len <= pos,
            Site::Longs { most, least } => 0 <= most && most + 8 <= pos && 0 <= least && least + 8
                <= pos,
        },
        forall|j: int|
            0 <= j < orig.len() && #[trigger] after[j] != before[j] ==> site_allows(site, orig, j),
    ensures
        rewritten(after, orig, sites.push(site), cb),
        unread(after, orig, pos),
{
    assert forall|m: UuidMap| follows(cb, m) implies after == #[trigger] rewrite_sites(
        orig,
        sites.push(site),
        m,
    ) by {
        lemma_rewrite_push(orig, sites, site, m);
        assert(before == rewrite_sites(orig, sites, m));
    }
    let more = sites.push(site);
    assert forall|j: int| 0 <= j < orig.len() && #[trigger] after[j] != orig[j] implies sites_allow(
        more,
        orig,
        j,
    ) by {
        if after[j] != before[j] {
            assert(site_allows(more[sites.len() as int], orig, j));
        } else {
            let i = choose|i: int| 0 <= i < sites.len() && site_allows(#[trigger] sites[i], orig, j);
            assert(site_allows(more[i], orig, j));
        }
    }
    assert forall|j: int| pos <= j < orig.len() implies #[trigger] after[j] == orig[j] by {
        if after[j] != before[j] {
            assert(site_allows(site, orig, j));
        }
    }
}

/// 1 where the innermost frame is a list, else 0.
spec fn top_is_list(frames: Seq<VisitFrame>) -> int {
    if frames.len() > 0 && frames.last() is List {
        1
    } else {
        0
    }
}

/// The visit has come closer to its end: it has read on, or it has left a
/// list, or it has begun a compound in a list.
spec fn closer(before: int, old_frames: Seq<VisitFrame>, pos: int, frames: Seq<VisitFrame>) -> bool {
    ||| pos > before
    ||| pos == before && top_is_list(frames) < top_is_list(old_frames)
    ||| pos == before && top_is_list(frames) == top_is_list(old_frames) && frames.len()
        < old_frames.len()
}

/// What holds after one step of the visit.
spec fn step_done<F: Fn(u128) -> Option<u128>>(
    orig: Seq<u8>,
    before: Progress,
    old_frames: Seq<VisitFrame>,
    r: Result<(bool, Ghost<Seq<Site>>), NbtError>,
    cur: Seq<u8>,
    pos: int,
    frames: Seq<VisitFrame>,
    cb: &F,
) -> bool {
    &&& cur.len() == orig.len()
    &&& match r {
        Err(e) => failed_with(resume(orig, before, frames_view(old_frames)), e, cur, orig, cb),
        Ok((more, found)) => {
            &&& in_order(cur, orig, pos, found@, frames, cb)
            &&& resume(orig, Progress { pos, sites: found@ }, frames_view(frames)) == resume(
                orig,
                before,
                frames_view(old_frames),
            )
            &&& more == (old_frames.len() > 0)
            &&& !more ==> frames.len() == 0 && pos == before.pos
            &&& more ==> closer(before.pos, old_frames, pos, frames)
        },
    }
}

/// The entries with one more long noted are in order behind that long.
proof fn lemma_record_ok(pairs: Seq<PairView>, prefix: Seq<u8>, at: int, pos: int)
    requires
        pairs_ok(pairs, pos),
        0 <= at,
        at + 8 <= pos,
    ensures
        pairs_ok(record_most(pairs, prefix, at), pos),
        pairs_ok(record_least(pairs, prefix, at), pos),
{
    let with_most = record_most(pairs, prefix, at);
    let with_least = record_least(pairs, prefix, at);
    assert forall|i: int| 0 <= i < with_most.len() implies pair_ok(#[trigger] with_most[i], pos) by {
        if i < pairs.len() {
            assert(pair_ok(pairs[i], pos));
        }
    }
    assert forall|i: int| 0 <= i < with_least.len() implies pair_ok(
        #[trigger] with_least[i],
        pos,
    ) by {
        if i < pairs.len() {
            assert(pair_ok(pairs[i], pos));
        }
    }
}

/// Hands the pairs of a compound that has come to its end to the callback.
fn visit_pairs<F: Fn(u128) -> Option<u128>>(
    nbt: &mut [u8],
    entries: &Vec<PairEntry>,
    cb: &F,
    Ghost(orig): Ghost<Seq<u8>>,
    Ghost(sites): Ghost<Seq<Site>>,
    Ghost(pos): Ghost<int>,
) -> (r: Ghost<Seq<Site>>)
    requires
        total(cb),
        unread(old(nbt)@, orig, pos),
        rewritten(old(nbt)@, orig, sites, cb),
        pairs_ok(entries_view(entries@), pos),
    ensures
        unread(final(nbt)@, orig, pos),
        rewritten(final(nbt)@, orig, r@, cb),
        r@ == sites + pair_sites(entries_view(entries@)),
{
    let ghost pairs = entries_view(entries@);
    let n: usize = entries.len();
    let ghost mut found = sites;
    let mut i: usize = 0;
    proof {
        assert(pairs.subrange(0, 0) =~= Seq::<PairView>::empty());
        assert(sites + Seq::<Site>::empty() =~= sites);
    }
    while i < n
        invariant
            total(cb),
            i <= n == entries@.len(),
            pairs == entries_view(entries@),
            pairs_ok(pairs, pos),
            unread(nbt@, orig, pos),
            rewritten(nbt@, orig, found, cb),
            found == sites + pair_sites(pairs.subrange(0, i as int)),
        decreases n - i,
    {
        proof {
            let upto = pairs.subrange(0, i + 1);
            assert(upto.drop_last() == pairs.subrange(0, i as int));
            assert(upto.last() == entry_view(entries@[i as int]));
            assert(pair_ok(pairs[i as int], pos));
        }
        let entry = &entries[i];
        match (entry.most, entry.least) {
            (Some(most), Some(least)) => {
                let ghost before = nbt@;
                visit_uuid(nbt, most, least, cb);
                let ghost site = Site::Longs { most: most as int, least: least as int };
                proof {
                    lemma_site_behind(before, orig, found, site, nbt@, pos, cb);
                    assert(sites + pair_sites(pairs.subrange(0, i as int)).push(site) =~= found.push(
                        site,
                    ));
                    found = found.push(site);
                }
            },
            _ => {},
        }
        i += 1;
    }
    proof {
        assert(pairs.subrange(0, n as int) == pairs);
    }
    Ghost(found)
}

impl NbtReader {
    /// One step in a compound: its end, or its next entry.
    #[verifier::rlimit(40)]
    fn step_compound<F: Fn(u128) -> Option<u128>>(
        &mut self,
        nbt: &mut [u8],
        stack: &mut Vec<VisitFrame>,
        entries: Vec<PairEntry>,
        cb: &F,
        Ghost(orig): Ghost<Seq<u8>>,
        Ghost(sites): Ghost<Seq<Site>>,
    ) -> (r: Result<(bool, Ghost<Seq<Site>>), NbtError>)
        requires
            in_order(
                old(nbt)@,
                orig,
                old(self).pos as int,
                sites,
                old(stack)@.push(VisitFrame::Compound(entries)),
                cb,
            ),
        ensures
            step_done(
                orig,
                Progress { pos: old(self).pos as int, sites },
                old(stack)@.push(VisitFrame::Compound(entries)),
                r,
                final(nbt)@,
                final(self).pos as int,
                final(stack)@,
                cb,
            ),
            r matches Ok((more, _)) ==> final(self).pos > old(self).pos,
    {
        let ghost start = self.pos as int;
        let ghost at = Progress { pos: start, sites };
        let ghost rest = stack@;
        let ghost frames = frames_view(rest);
        let ghost pairs = entries_view(entries@);
        let mut entries = entries;
        proof {
            lemma_frames_ok_pop(rest.push(VisitFrame::Compound(entries)), start);
            assert(rest.push(VisitFrame::Compound(entries)).drop_last() == rest);
            lemma_resume_push(orig, at, frames, FrameView::Compound { pairs });
        }
        let head = match self.take(nbt, 1) {
            Ok(head) => head,
            Err(e) => {
                return Err(e);
            },
        };
        let kind: u8 = nbt[head];
        assert(kind == orig[start]);
        if kind == TAG_END {
            proof {
                lemma_compound_end(orig, at, frames, pairs);
                lemma_frames_ok_later(frames, start, self.pos as int);
                assert forall|i: int| 0 <= i < pairs.len() implies pair_ok(
                    #[trigger] pairs[i],
                    self.pos as int,
                ) by {
                    assert(pair_ok(pairs[i], start));
                }
            }
            let found = visit_pairs(nbt, &entries, cb, Ghost(orig), Ghost(sites), Ghost(self.pos as int));
            return Ok((true, found));
        }
        let (name_at, name_len) = match self.take_str(nbt) {
            Ok(found) => found,
            Err(e) => {
                assert(be_u16(nbt@, start + 1) == be_u16(orig, start + 1) || start + 3 > orig.len());
                return Err(e);
            },
        };
        assert(name_len == be_u16(orig, start + 1));
        let ghost value = entry_value(orig, start);
        assert(value == self.pos);
        let mut half: bool = false;
        if kind == TAG_LONG {
            let name = slice_subrange(nbt, name_at, name_at + name_len);
            proof {
                assert(name@ =~= entry_name(orig, start));
            }
            if has_most_suffix(name) {
                half = true;
                let prefix = slice_subrange(name, 0, name_len - 8);
                record(&mut entries, prefix, name_at + name_len, true);
            } else if has_least_suffix(name) {
                half = true;
                let prefix = slice_subrange(name, 0, name_len - 9);
                record(&mut entries, prefix, name_at + name_len, false);
            }
        }
        if half {
            assert(is_pair_half(orig, start));
            assert(entries_view(entries@) == entries_after(orig, start, pairs));
            match self.take(nbt, 8) {
                Ok(_) => {},
                Err(e) => {
                    return Err(e);
                },
            }
            let frame = VisitFrame::Compound(entries);
            proof {
                lemma_compound_half(orig, at, frames, pairs);
                lemma_frames_ok_later(frames, start, self.pos as int);
                assert forall|i: int| 0 <= i < pairs.len() implies pair_ok(
                    #[trigger] pairs[i],
                    self.pos as int,
                ) by {
                    assert(pair_ok(pairs[i], start));
                }
                let name = entry_name(orig, start);
                if ends_with(name, most_suffix()) {
                    lemma_record_ok(pairs, name.subrange(0, name.len() - 8), value, self.pos as int);
                } else {
                    lemma_record_ok(pairs, name.subrange(0, name.len() - 9), value, self.pos as int);
                }
                lemma_frames_ok_push(rest, frame, self.pos as int);
            }
            stack.push(frame);
            Ok((true, Ghost(sites)))
        } else {
            assert(!is_pair_half(orig, start));
            let frame = VisitFrame::Compound(entries);
            proof {
                lemma_compound_entry(orig, at, frames, pairs);
                lemma_frames_ok_later(frames, start, self.pos as int);
                assert forall|i: int| 0 <= i < pairs.len() implies pair_ok(
                    #[trigger] pairs[i],
                    self.pos as int,
                ) by {
                    assert(pair_ok(pairs[i], start));
                }
                lemma_frames_ok_push(rest, frame, self.pos as int);
            }
            stack.push(frame);
            match self.visit_value(nbt, stack, kind, cb, Ghost(orig), Ghost(sites)) {
                Ok(found) => Ok((true, found)),
                Err(e) => Err(e),
            }
        }
    }

    /// One step in a list: its end, or its next item.
    fn step_list<F: Fn(u128) -> Option<u128>>(
        &mut self,
        nbt: &mut [u8],
        stack: &mut Vec<VisitFrame>,
        kind: u8,
        remaining: usize,
        cb: &F,
        Ghost(orig): Ghost<Seq<u8>>,
        Ghost(sites): Ghost<Seq<Site>>,
    ) -> (r: Result<(bool, Ghost<Seq<Site>>), NbtError>)
        requires
            in_order(
                old(nbt)@,
                orig,
                old(self).pos as int,
                sites,
                old(stack)@.push(VisitFrame::List { kind, remaining }),
                cb,
            ),
        ensures
            step_done(
                orig,
                Progress { pos: old(self).pos as int, sites },
                old(stack)@.push(VisitFrame::List { kind, remaining }),
                r,
                final(nbt)@,
                final(self).pos as int,
                final(stack)@,
                cb,
            ),
    {
        let ghost start = self.pos as int;
        let ghost at = Progress { pos: start, sites };
        let ghost rest = stack@;
        let ghost frames = frames_view(rest);
        let ghost top = VisitFrame::List { kind, remaining };
        proof {
            lemma_frames_ok_pop(rest.push(top), start);
            assert(rest.push(top).drop_last() == rest);
        }
        if remaining == 0 {
            proof {
                lemma_list_done(orig, at, frames, kind);
            }
            Ok((true, Ghost(sites)))
        } else {
            let frame = VisitFrame::List { kind, remaining: remaining - 1 };
            proof {
                lemma_list_item(orig, at, frames, kind, remaining as nat);
                lemma_frames_ok_push(rest, frame, start);
            }
            stack.push(frame);
            match self.visit_value(nbt, stack, kind, cb, Ghost(orig), Ghost(sites)) {
                Ok(found) => Ok((true, found)),
                Err(e) => Err(e),
            }
        }
    }

    /// One step of the visit, in the innermost part that was begun. Returns
    /// whether there was such a part.
    fn step<F: Fn(u128) -> Option<u128>>(
        &mut self,
        nbt: &mut [u8],
        stack: &mut Vec<VisitFrame>,
        cb: &F,
        Ghost(orig): Ghost<Seq<u8>>,
        Ghost(sites): Ghost<Seq<Site>>,
    ) -> (r: Result<(bool, Ghost<Seq<Site>>), NbtError>)
        requires
            in_order(old(nbt)@, orig, old(self).pos as int, sites, old(stack)@, cb),
        ensures
            step_done(
                orig,
                Progress { pos: old(self).pos as int, sites },
                old(stack)@,
                r,
                final(nbt)@,
                final(self).pos as int,
                final(stack)@,
                cb,
            ),
    {
        let ghost frames = stack@;
        match stack.pop() {
            None => Ok((false, Ghost(sites))),
            Some(top) => {
                proof {
                    assert(frames =~= stack@.push(top));
                }
                match top {
                    VisitFrame::Compound(entries) => self.step_compound(
                        nbt,
                        stack,
                        entries,
                        cb,
                        Ghost(orig),
                        Ghost(sites),
                    ),
                    VisitFrame::List { kind, remaining } => self.step_list(
                        nbt,
                        stack,
                        kind,
                        remaining,
                        cb,
                        Ghost(orig),
                        Ghost(sites),
                    ),
                }
            },
        }
    }
}

/// What a visit leaves of a buffer and returns: an error exactly where the
/// buffer is no document, and the buffer with the document's sites
/// rewritten, or, where it is no document, with the sites that were found
/// before the error.
pub open spec fn visited<F: Fn(u128) -> Option<u128>>(
    before: Seq<u8>,
    after: Seq<u8>,
    r: Result<(), NbtError>,
    cb: &F,
) -> bool {
    &&& after.len() == before.len()
    &&& rewritten(after, before, sites_visited(before), cb)
    &&& match document_sites(before) {
        Err(f) => r == Err::<(), NbtError>(f.error),
        Ok(sites) => r is Ok,
    }
}

impl NbtReader {
    /// A cursor at the start of a buffer.
    fn new() -> (r: NbtReader)
        ensures
            r.pos == 0,
    {
        NbtReader { pos: 0 }
    }

    /// Reads the document that fills `nbt`: the root's tag and name, then
    /// its value, step by step until no part that was begun is left.
    #[verifier::rlimit(40)]
    fn process<F: Fn(u128) -> Option<u128>>(&mut self, nbt: &mut [u8], cb: &F) -> (r: Result<
        (),
        NbtError,
    >)
        requires
            total(cb),
            old(self).pos == 0,
        ensures
            visited(old(nbt)@, final(nbt)@, r, cb),
    {
        let ghost orig = nbt@;
        let end: usize = nbt.len();
        let mut stack: Vec<VisitFrame> = Vec::with_capacity(32);
        let head = match self.take(nbt, 1) {
            Ok(head) => head,
            Err(e) => {
                return Err(e);
            },
        };
        let root_kind: u8 = nbt[head];
        match self.take_str(nbt) {
            Ok(_) => {},
            Err(e) => {
                return Err(e);
            },
        }
        let ghost first = Progress { pos: self.pos as int, sites: Seq::<Site>::empty() };
        proof {
            assert(frames_view(stack@) =~= Seq::<FrameView>::empty());
            assert(Seq::<Site>::empty() + value_sites(orig, first.pos, root_kind)->Ok_0.sites
                =~= value_sites(orig, first.pos, root_kind)->Ok_0.sites);
            assert(document_sites(orig) == resume_after(
                orig,
                first,
                root_kind,
                Seq::<FrameView>::empty(),
            ));
        }
        let mut found: Ghost<Seq<Site>> = match self.visit_value(
            nbt,
            &mut stack,
            root_kind,
            cb,
            Ghost(orig),
            Ghost(Seq::<Site>::empty()),
        ) {
            Ok(found) => found,
            Err(e) => {
                return Err(e);
            },
        };
        let mut more: bool = true;
        while more
            invariant
                end == orig.len(),
                orig == old(nbt)@,
                in_order(nbt@, orig, self.pos as int, found@, stack@, cb),
                resume(
                    orig,
                    Progress { pos: self.pos as int, sites: found@ },
                    frames_view(stack@),
                ) == document_sites(orig),
                !more ==> stack@.len() == 0,
            decreases end - self.pos, top_is_list(stack@), stack@.len(), if more { 1int } else { 0int },
        {
            let ghost before = self.pos as int;
            let ghost frames = stack@;
            match self.step(nbt, &mut stack, cb, Ghost(orig), found) {
                Ok((again, next)) => {
                    assert(again ==> closer(before, frames, self.pos as int, stack@));
                    assert(!again ==> frames.len() == 0 && stack@.len() == 0);
                    assert(!again ==> self.pos == before);
                    more = again;
                    found = next;
                },
                Err(e) => {
                    return Err(e);
                },
            }
        }
        proof {
            assert(frames_view(stack@) =~= Seq::<FrameView>::empty());
        }
        if self.pos != end {
            return Err(NbtError::TrailingData);
        }
        Ok(())
    }
}

/// Rewrites the UUIDs in the NBT document that fills `nbt`: in the strings,
/// in the int arrays of four ints, and in the pairs of longs named
/// `<prefix>UUIDMost` and `<prefix>UUIDLeast` in one compound. Fails where the
/// buffer ends within the document, where a value has an unknown tag, and
/// where bytes follow the document; what was rewritten up to there stays.
/// Whatever the callback answers, every byte outside the sites is kept; where
/// the callback follows a mapping that maps nothing, the buffer is kept.
pub fn visit_nbt<F: Fn(u128) -> Option<u128>>(nbt: &mut [u8], cb: &F) -> (r: Result<(), NbtError>)
    requires
        total(cb),
    ensures
        visited(old(nbt)@, final(nbt)@, r, cb),
        forall|m: UuidMap| follows(cb, m) && maps_nothing(m) ==> final(nbt)@ == old(nbt)@,
{
    let ghost before = nbt@;
    let mut reader = NbtReader::new();
    let r = reader.process(nbt, cb);
    proof {
        assert forall|m: UuidMap| follows(cb, m) && maps_nothing(m) implies nbt@ == before by {
            lemma_visit_nothing(before, m);
        }
    }
    r
}

} // verus!
