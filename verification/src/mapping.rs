//! Where the table of replacements comes from: lists of pairs in CSV files,
//! and the identifiers that offline-mode servers derive from player names.
//!
//! Nothing here reads a file or asks a server. The caller hands over the
//! content of the file, and, for the kinds that go from or to online
//! identifiers, what the server answered.

use crate::bytes::{be_u64, read_u64, same_bytes};
use std::collections::HashMap;
use vstd::array::array_as_slice;
use vstd::prelude::*;
use vstd::slice::slice_subrange;
use vstd::slice::slice_to_vec;
use vstd::string::StringSliceAdditionalSpecFns;

verus! {

/// The kinds of source of a table of replacements.
#[derive(Debug, Clone, Copy, PartialEq, Eq, Structural)]
pub enum MappingKind {
    /// A CSV file: the first column is the original UUID, the second the
    /// new one. The first line does not count.
    Csv,
    /// A JSON object from original UUID to new UUID.
    Json,
    /// A list of player names, one in a line, whose online identifiers are
    /// to become their offline ones.
    ListToOffline,
    /// A list of player names, one in a line, whose offline identifiers are
    /// to become their online ones.
    ListToOnline,
    /// A `usercache.json`, whose players' online identifiers are to become
    /// their offline ones.
    UsercacheToOffline,
    /// A `usercache.json`, whose players' offline identifiers are to become
    /// their online ones.
    UsercacheToOnline,
    /// A CSV file of player names: the first column is the original name,
    /// the second the new one. The first line does not count.
    OfflineRenameCsv,
}

/// The MD5 digest of `data`, as the `md5` crate computes it: sixteen bytes.
pub uninterp spec fn md5_digest(data: Seq<u8>) -> Seq<u8>;

/// The UUID that the `uuid` crate reads out of `text`, or nothing where it
/// refuses `text`.
pub uninterp spec fn uuid_parsed(text: Seq<u8>) -> Option<u128>;

/// Calls `md5::compute`. The claim: the digest depends on `data` alone, and
/// is what `md5_digest` names.
#[verifier::external_body]
pub(crate) fn md5_compute(data: &[u8]) -> (r: [u8; 16])
    ensures
        r@ == md5_digest(data@),
{
    md5::compute(data).0
}

/// Calls `uuid::Uuid::try_parse_ascii`, the parser behind the crate's
/// `from_str`. The claim: whether it accepts `text`, and as which UUID,
/// depends on `text` alone, and is what `uuid_parsed` names.
#[verifier::external_body]
pub(crate) fn parse_uuid(text: &[u8]) -> (r: Option<u128>)
    ensures
        r == uuid_parsed(text@),
{
    match uuid::Uuid::try_parse_ascii(text) {
        Ok(uuid) => Some(uuid.as_u128()),
        Err(_) => None,
    }
}

/// A digest made into the bytes of a UUID of version 3 and of the IETF
/// variant.
pub open spec fn as_version_3(digest: Seq<u8>) -> Seq<u8> {
    digest.update(6, (digest[6] & 0x0f) | 0x30).update(8, (digest[8] & 0x3f) | 0x80)
}

/// The UUID whose sixteen bytes, most significant first, are `bytes`.
pub open spec fn be_u128(bytes: Seq<u8>) -> u128 {
    (be_u64(bytes, 0) * 0x1_0000_0000_0000_0000 + be_u64(bytes, 8)) as u128
}

/// The identifier of the player `name` on a server in offline mode: the
/// MD5 digest of `OfflinePlayer:` and the name, as a UUID of version 3.
pub open spec fn offline_uuid_of(name: Seq<u8>) -> u128 {
    be_u128(as_version_3(md5_digest("OfflinePlayer:".spec_bytes() + name)))
}

/// The UUID of version 3 that is made of a digest: the digest's bytes, most
/// significant first, with the version and the variant set.
pub fn uuid_from_digest(digest: &[u8; 16]) -> (r: u128)
    ensures
        r == be_u128(as_version_3(digest@)),
{
    let mut bytes: Vec<u8> = slice_to_vec(array_as_slice(digest));
    let version: u8 = (bytes[6] & 0x0f) | 0x30;
    bytes.as_mut_slice()[6] = version;
    let variant: u8 = (bytes[8] & 0x3f) | 0x80;
    bytes.as_mut_slice()[8] = variant;
    assert(bytes@ == as_version_3(digest@));
    let most: u64 = read_u64(bytes.as_slice(), 0);
    let least: u64 = read_u64(bytes.as_slice(), 8);
    most as u128 * 0x1_0000_0000_0000_0000 + least as u128
}

/// The identifier of the player `name` on a server in offline mode.
pub fn offline_uuid(name: &[u8]) -> (r: u128)
    ensures
        r == offline_uuid_of(name@),
{
    let mut input: Vec<u8> = slice_to_vec("OfflinePlayer:".as_bytes());
    let mut rest: Vec<u8> = slice_to_vec(name);
    input.append(&mut rest);
    let digest = md5_compute(input.as_slice());
    uuid_from_digest(&digest)
}

/// The ASCII line feed.
pub const LINE_FEED: u8 = 0x0a;

/// The ASCII carriage return.
pub const CARRIAGE_RETURN: u8 = 0x0d;

/// The ASCII comma.
pub const COMMA: u8 = 0x2c;

/// The number of bytes of `s` before its first `c`, or its length where it
/// has none.
pub open spec fn first_of(s: Seq<u8>, c: u8) -> nat
    decreases s.len(),
{
    if s.len() == 0 || s[0] == c {
        0
    } else {
        1 + first_of(s.subrange(1, s.len() as int), c)
    }
}

/// The line without the carriage return at its end, where it has one.
pub open spec fn without_return(line: Seq<u8>) -> Seq<u8> {
    if line.len() > 0 && line.last() == CARRIAGE_RETURN {
        line.drop_last()
    } else {
        line
    }
}

/// The lines of `s`. A line ends with a line feed, or with a carriage return
/// and a line feed; the last line may end with the text. What follows the
/// last line feed is a line only if it is not empty.
pub open spec fn lines_of(s: Seq<u8>) -> Seq<Seq<u8>>
    decreases s.len(),
{
    let n = first_of(s, LINE_FEED);
    if s.len() == 0 {
        Seq::empty()
    } else if n >= s.len() {
        seq![s]
    } else {
        seq![without_return(s.subrange(0, n as int))] + lines_of(
            s.subrange(n as int + 1, s.len() as int),
        )
    }
}

/// What the fields of a line are read as.
#[derive(Debug, Clone, Copy, PartialEq, Eq, Structural)]
pub enum FieldKind {
    /// UUIDs, in any form that the `uuid` crate reads.
    Uuid,
    /// Names of players, which stand for their offline identifiers.
    Name,
}

/// The UUID that a field stands for.
pub open spec fn field_uuid(kind: FieldKind, field: Seq<u8>) -> Option<u128> {
    match kind {
        FieldKind::Uuid => uuid_parsed(field),
        FieldKind::Name => Some(offline_uuid_of(field)),
    }
}

/// Where the comma stands in a line of exactly two fields, and nothing for
/// a line of one field or of more than two.
pub open spec fn only_comma(line: Seq<u8>) -> Option<int> {
    let comma = first_of(line, COMMA) as int;
    let second = line.subrange(comma + 1, line.len() as int);
    if comma >= line.len() || first_of(second, COMMA) < second.len() {
        None
    } else {
        Some(comma)
    }
}

/// The pair of UUIDs that a line stands for: the line has exactly two
/// fields, parted by a comma, and each stands for a UUID.
pub open spec fn line_pair(kind: FieldKind, line: Seq<u8>) -> Option<(u128, u128)> {
    match only_comma(line) {
        None => None,
        Some(comma) => match (
            field_uuid(kind, line.subrange(0, comma)),
            field_uuid(kind, line.subrange(comma + 1, line.len() as int)),
        ) {
            (Some(from), Some(to)) => Some((from, to)),
            _ => None,
        },
    }
}

/// The table with the pair of one more line, where the line stands for
/// one. A later line for the same UUID takes the place of an earlier one.
pub open spec fn with_line(table: Map<u128, u128>, kind: FieldKind, line: Seq<u8>) -> Map<
    u128,
    u128,
> {
    match line_pair(kind, line) {
        Some((from, to)) => table.insert(from, to),
        None => table,
    }
}

/// The table with the pairs of the lines, one after the other.
pub open spec fn with_lines(table: Map<u128, u128>, kind: FieldKind, lines: Seq<Seq<u8>>) -> Map<
    u128,
    u128,
>
    decreases lines.len(),
{
    if lines.len() == 0 {
        table
    } else {
        with_lines(with_line(table, kind, lines[0]), kind, lines.subrange(1, lines.len() as int))
    }
}

/// The table that a CSV text stands for: the pairs of its lines but the
/// first.
pub open spec fn table_of(kind: FieldKind, text: Seq<u8>) -> Map<u128, u128> {
    let lines = lines_of(text);
    if lines.len() == 0 {
        Map::empty()
    } else {
        with_lines(Map::empty(), kind, lines.subrange(1, lines.len() as int))
    }
}

/// The end of the part of `s` from `from` on that has no `c`: the index of
/// the next `c`, or the length of `s`.
fn find_byte(s: &[u8], from: usize, c: u8) -> (end: usize)
    requires
        from <= s@.len(),
    ensures
        from <= end <= s@.len(),
        end - from == first_of(s@.subrange(from as int, s@.len() as int), c),
{
    let len: usize = s.len();
    let mut end: usize = from;
    while end < len && s[end] != c
        invariant
            from <= end <= len == s@.len(),
            first_of(s@.subrange(from as int, len as int), c) == end - from + first_of(
                s@.subrange(end as int, len as int),
                c,
            ),
        decreases len - end,
    {
        proof {
            let rest = s@.subrange(end as int, len as int);
            assert(rest.subrange(1, rest.len() as int) == s@.subrange(end + 1, len as int));
        }
        end += 1;
    }
    end
}

/// The UUID that a field stands for.
fn read_field(kind: FieldKind, field: &[u8]) -> (r: Option<u128>)
    ensures
        r == field_uuid(kind, field@),
{
    match kind {
        FieldKind::Uuid => parse_uuid(field),
        FieldKind::Name => Some(offline_uuid(field)),
    }
}

/// Where the comma stands in a line of exactly two fields.
pub fn split_line(line: &[u8]) -> (r: Option<usize>)
    ensures
        match r {
            Some(comma) => only_comma(line@) == Some(comma as int) && comma < line@.len(),
            None => only_comma(line@) is None,
        },
{
    let len: usize = line.len();
    let comma = find_byte(line, 0, COMMA);
    proof {
        assert(line@.subrange(0, len as int) == line@);
    }
    if comma >= len {
        return None;
    }
    let second = slice_subrange(line, comma + 1, len);
    let more = find_byte(second, 0, COMMA);
    proof {
        assert(second@.subrange(0, second@.len() as int) == second@);
    }
    if more < second.len() {
        return None;
    }
    Some(comma)
}

/// The pair of UUIDs that a line stands for.
fn read_line(kind: FieldKind, line: &[u8]) -> (r: Option<(u128, u128)>)
    ensures
        r == line_pair(kind, line@),
{
    let len: usize = line.len();
    let comma = match split_line(line) {
        Some(comma) => comma,
        None => {
            return None;
        },
    };
    let from = match read_field(kind, slice_subrange(line, 0, comma)) {
        Some(from) => from,
        None => {
            return None;
        },
    };
    match read_field(kind, slice_subrange(line, comma + 1, len)) {
        Some(to) => Some((from, to)),
        None => None,
    }
}

/// The table that a CSV text stands for, its fields read as `kind` says.
pub fn load_pairs(kind: FieldKind, content: &[u8]) -> (r: HashMap<u128, u128>)
    ensures
        r@ == table_of(kind, content@),
{
    let len: usize = content.len();
    let mut map: HashMap<u128, u128> = HashMap::new();
    let mut pos: usize = 0;
    let mut first: bool = true;
    proof {
        assert(content@.subrange(0, len as int) == content@);
    }
    while pos < len
        invariant
            pos <= len == content@.len(),
            first ==> pos == 0 && map@ == Map::<u128, u128>::empty(),
            !first ==> with_lines(
                map@,
                kind,
                lines_of(content@.subrange(pos as int, len as int)),
            ) == table_of(kind, content@),
        decreases len - pos,
    {
        let ghost rest = content@.subrange(pos as int, len as int);
        let end = find_byte(content, pos, LINE_FEED);
        let ghost line: Seq<u8>;
        let ghost after: Seq<u8>;
        let mut stop: usize = end;
        if end < len && end > pos && content[end - 1] == CARRIAGE_RETURN {
            stop = end - 1;
        }
        let next: usize = if end < len {
            end + 1
        } else {
            len
        };
        proof {
            after = content@.subrange(next as int, len as int);
            if end < len {
                line = without_return(rest.subrange(0, end - pos));
                assert(rest.subrange(end - pos + 1, rest.len() as int) == after);
                assert(lines_of(rest) == seq![line] + lines_of(after));
            } else {
                line = rest;
                assert(lines_of(rest) == seq![line]);
                assert(lines_of(after) == Seq::<Seq<u8>>::empty());
                assert(seq![line] + lines_of(after) =~= seq![line]);
            }
            let lines = lines_of(rest);
            assert(lines.len() > 0);
            assert(lines[0] == line);
            assert(lines.subrange(1, lines.len() as int) =~= lines_of(after));
            assert(content@.subrange(pos as int, stop as int) =~= line);
            if first {
                assert(rest == content@);
                assert(table_of(kind, content@) == with_lines(
                    Map::<u128, u128>::empty(),
                    kind,
                    lines_of(after),
                ));
            } else {
                assert(with_lines(map@, kind, lines) == with_lines(
                    with_line(map@, kind, line),
                    kind,
                    lines_of(after),
                ));
            }
        }
        if first {
            first = false;
        } else {
            match read_line(kind, slice_subrange(content, pos, stop)) {
                Some((from, to)) => {
                    map.insert(from, to);
                },
                None => {},
            }
        }
        pos = next;
    }
    proof {
        assert(content@.subrange(len as int, len as int) =~= Seq::<u8>::empty());
        if first {
            assert(content@ =~= Seq::<u8>::empty());
        }
    }
    map
}

/// The table of a CSV file of UUIDs: each line but the first holds the
/// original UUID and the new one. Lines of another form are passed over.
pub fn load_csv(content: &str) -> (r: HashMap<u128, u128>)
    ensures
        r@ == table_of(FieldKind::Uuid, content.spec_bytes()),
{
    load_pairs(FieldKind::Uuid, content.as_bytes())
}

/// The table of a CSV file of player names: each line but the first holds
/// the original name and the new one, which stand for their offline
/// identifiers. Lines of another form are passed over.
pub fn load_offline_rename(content: &str) -> (r: HashMap<u128, u128>)
    ensures
        r@ == table_of(FieldKind::Name, content.spec_bytes()),
{
    load_pairs(FieldKind::Name, content.as_bytes())
}

/// The number of bytes of the white space character that starts at `i`, or
/// 0 where none does. White space is what Unicode calls so, in UTF-8.
pub open spec fn space_at(s: Seq<u8>, i: int) -> int {
    if i < 0 || i >= s.len() {
        0
    } else if (0x09 <= s[i] && s[i] <= 0x0d) || s[i] == 0x20 {
        1
    } else if i + 1 < s.len() && s[i] == 0xc2 && (s[i + 1] == 0x85 || s[i + 1] == 0xa0) {
        2
    } else if i + 2 < s.len() && s[i] == 0xe1 && s[i + 1] == 0x9a && s[i + 2] == 0x80 {
        3
    } else if i + 2 < s.len() && s[i] == 0xe2 && s[i + 1] == 0x80 && ((0x80 <= s[i + 2] && s[i + 2]
        <= 0x8a) || s[i + 2] == 0xa8 || s[i + 2] == 0xa9 || s[i + 2] == 0xaf) {
        3
    } else if i + 2 < s.len() && s[i] == 0xe2 && s[i + 1] == 0x81 && s[i + 2] == 0x9f {
        3
    } else if i + 2 < s.len() && s[i] == 0xe3 && s[i + 1] == 0x80 && s[i + 2] == 0x80 {
        3
    } else {
        0
    }
}

/// The number of bytes of the white space character that ends before `end`
/// and starts at `from` or behind it, or 0 where none does.
pub open spec fn space_before(s: Seq<u8>, from: int, end: int) -> int {
    if from <= end - 1 && space_at(s, end - 1) == 1 {
        1
    } else if from <= end - 2 && space_at(s, end - 2) == 2 {
        2
    } else if from <= end - 3 && space_at(s, end - 3) == 3 {
        3
    } else {
        0
    }
}

/// Where the text starts that follows the white space from `i` on.
pub open spec fn skip_space(s: Seq<u8>, i: int) -> int
    decreases s.len() - i,
{
    if space_at(s, i) > 0 {
        skip_space(s, i + space_at(s, i))
    } else {
        i
    }
}

/// Where the text ends that stands before the white space that ends at
/// `end`, from `from` on.
pub open spec fn skip_space_back(s: Seq<u8>, from: int, end: int) -> int
    decreases end,
{
    if space_before(s, from, end) > 0 && end > 0 {
        skip_space_back(s, from, end - space_before(s, from, end))
    } else {
        end
    }
}

/// The text without the white space at its start and at its end.
pub open spec fn trimmed(s: Seq<u8>) -> Seq<u8> {
    let start = skip_space(s, 0);
    s.subrange(start, skip_space_back(s, start, s.len() as int))
}

/// The number of bytes of the white space character that starts at `i`.
fn space_len(s: &[u8], i: usize) -> (r: usize)
    requires
        i <= s@.len(),
    ensures
        r == space_at(s@, i as int),
        i + r <= s@.len(),
{
    let len: usize = s.len();
    if i >= len {
        return 0;
    }
    let a: u8 = s[i];
    if (0x09 <= a && a <= 0x0d) || a == 0x20 {
        return 1;
    }
    if len - i >= 2 {
        let b: u8 = s[i + 1];
        if a == 0xc2 && (b == 0x85 || b == 0xa0) {
            return 2;
        }
        if len - i >= 3 {
            let c: u8 = s[i + 2];
            if a == 0xe1 && b == 0x9a && c == 0x80 {
                return 3;
            }
            if a == 0xe2 && b == 0x80 && ((0x80 <= c && c <= 0x8a) || c == 0xa8 || c == 0xa9 || c
                == 0xaf) {
                return 3;
            }
            if a == 0xe2 && b == 0x81 && c == 0x9f {
                return 3;
            }
            if a == 0xe3 && b == 0x80 && c == 0x80 {
                return 3;
            }
        }
    }
    0
}

/// The bounds of the text without the white space at its start and at its
/// end.
fn trim(s: &[u8]) -> (r: (usize, usize))
    ensures
        r.0 <= r.1 <= s@.len(),
        s@.subrange(r.0 as int, r.1 as int) == trimmed(s@),
{
    let len: usize = s.len();
    let mut start: usize = 0;
    loop
        invariant
            start <= len == s@.len(),
            skip_space(s@, start as int) == skip_space(s@, 0),
        ensures
            start <= len,
            start == skip_space(s@, 0),
        decreases len - start,
    {
        let n = space_len(s, start);
        if n == 0 {
            break ;
        }
        start += n;
    }
    let mut end: usize = len;
    loop
        invariant
            start <= end <= len == s@.len(),
            skip_space_back(s@, start as int, end as int) == skip_space_back(
                s@,
                start as int,
                len as int,
            ),
        ensures
            start <= end <= len,
            end == skip_space_back(s@, start as int, len as int),
        decreases end,
    {
        let mut n: usize = 0;
        if end - start >= 1 && space_len(s, end - 1) == 1 {
            n = 1;
        } else if end - start >= 2 && space_len(s, end - 2) == 2 {
            n = 2;
        } else if end - start >= 3 && space_len(s, end - 3) == 3 {
            n = 3;
        }
        if n == 0 {
            break ;
        }
        end -= n;
    }
    (start, end)
}

/// The names in a list of player names: the lines of the text, each without
/// the white space at its start and at its end.
pub open spec fn names_of(text: Seq<u8>) -> Seq<Seq<u8>> {
    lines_of(text).map_values(|line: Seq<u8>| trimmed(line))
}

/// The lists as contracts see them.
pub open spec fn names_view(names: Seq<Vec<u8>>) -> Seq<Seq<u8>> {
    names.map_values(|name: Vec<u8>| name@)
}

/// The names in a list of player names, one in a line.
pub fn load_name_list(content: &str) -> (r: Vec<Vec<u8>>)
    ensures
        names_view(r@) == names_of(content.spec_bytes()),
{
    let content = content.as_bytes();
    let len: usize = content.len();
    let mut names: Vec<Vec<u8>> = Vec::new();
    let mut pos: usize = 0;
    proof {
        assert(content@.subrange(0, len as int) == content@);
        assert(names_view(names@) =~= Seq::<Seq<u8>>::empty());
    }
    while pos < len
        invariant
            pos <= len == content@.len(),
            names_view(names@) + names_of(content@.subrange(pos as int, len as int)) == names_of(
                content@,
            ),
        decreases len - pos,
    {
        let ghost rest = content@.subrange(pos as int, len as int);
        let ghost before = names_view(names@);
        let end = find_byte(content, pos, LINE_FEED);
        let mut stop: usize = end;
        if end < len && end > pos && content[end - 1] == CARRIAGE_RETURN {
            stop = end - 1;
        }
        let next: usize = if end < len {
            end + 1
        } else {
            len
        };
        let line = slice_subrange(content, pos, stop);
        let (from, to) = trim(line);
        let name = slice_to_vec(slice_subrange(line, from, to));
        proof {
            let after = content@.subrange(next as int, len as int);
            if end < len {
                assert(rest.subrange(end - pos + 1, rest.len() as int) == after);
                assert(line@ =~= without_return(rest.subrange(0, end - pos)));
                assert(lines_of(rest) == seq![line@] + lines_of(after));
            } else {
                assert(line@ =~= rest);
                assert(lines_of(rest) == seq![line@]);
                assert(lines_of(after) == Seq::<Seq<u8>>::empty());
                assert(seq![line@] + lines_of(after) =~= seq![line@]);
            }
            assert(names_of(rest) =~= seq![trimmed(line@)] + names_of(after));
            assert(names_view(names@.push(name)) =~= before.push(name@));
            assert(before.push(name@) + names_of(after) =~= before + names_of(rest));
        }
        names.push(name);
        pos = next;
    }
    proof {
        assert(content@.subrange(len as int, len as int) =~= Seq::<u8>::empty());
        assert(names_of(Seq::<u8>::empty()) =~= Seq::<Seq<u8>>::empty());
        assert(names_view(names@) + Seq::<Seq<u8>>::empty() =~= names_view(names@));
    }
    names
}

/// Players and their identifiers, as contracts see them.
pub open spec fn players_view(players: Seq<(Vec<u8>, u128)>) -> Seq<(Seq<u8>, u128)> {
    players.map_values(|p: (Vec<u8>, u128)| (p.0@, p.1))
}

/// The offline identifiers of the players `names`.
pub fn offline_uuids(names: &Vec<Vec<u8>>) -> (r: Vec<(Vec<u8>, u128)>)
    ensures
        r@.len() == names@.len(),
        forall|i: int|
            0 <= i < names@.len() ==> (#[trigger] r@[i]).0@ == names@[i]@ && r@[i].1
                == offline_uuid_of(names@[i]@),
{
    let mut ret: Vec<(Vec<u8>, u128)> = Vec::new();
    let mut i: usize = 0;
    while i < names.len()
        invariant
            i <= names@.len(),
            ret@.len() == i,
            forall|j: int|
                0 <= j < i ==> (#[trigger] ret@[j]).0@ == names@[j]@ && ret@[j].1
                    == offline_uuid_of(names@[j]@),
        decreases names@.len() - i,
    {
        let name = names[i].as_slice();
        ret.push((slice_to_vec(name), offline_uuid(name)));
        i += 1;
    }
    ret
}

/// The identifier of the player `name` in `players`: that of the last entry
/// for the name.
pub open spec fn player_uuid(players: Seq<(Seq<u8>, u128)>, name: Seq<u8>) -> Option<u128>
    decreases players.len(),
{
    if players.len() == 0 {
        None
    } else if players.last().0 == name {
        Some(players.last().1)
    } else {
        player_uuid(players.drop_last(), name)
    }
}

/// The table that takes each player's identifier in `a` to the same
/// player's identifier in `b`: for each player of `a`, in order, that `b`
/// knows. A later player with the same identifier in `a` takes the place of
/// an earlier one.
pub open spec fn composed(a: Seq<(Seq<u8>, u128)>, b: Seq<(Seq<u8>, u128)>) -> Map<u128, u128>
    decreases a.len(),
{
    if a.len() == 0 {
        Map::empty()
    } else {
        let before = composed(a.drop_last(), b);
        match player_uuid(b, a.last().0) {
            Some(to) => before.insert(a.last().1, to),
            None => before,
        }
    }
}

/// The identifier of the player `name` in `players`.
fn find_player(players: &Vec<(Vec<u8>, u128)>, name: &[u8]) -> (r: Option<u128>)
    ensures
        r == player_uuid(players_view(players@), name@),
{
    let ghost all = players_view(players@);
    let mut i: usize = players.len();
    proof {
        assert(all.subrange(0, i as int) == all);
    }
    while i > 0
        invariant
            i <= players@.len(),
            all == players_view(players@),
            player_uuid(all, name@) == player_uuid(all.subrange(0, i as int), name@),
        decreases i,
    {
        proof {
            let upto = all.subrange(0, i as int);
            assert(upto.drop_last() == all.subrange(0, i - 1));
            assert(upto.last() == (players@[i - 1].0@, players@[i - 1].1));
        }
        i -= 1;
        if same_bytes(players[i].0.as_slice(), name) {
            return Some(players[i].1);
        }
    }
    None
}

/// The table that takes each player's identifier in `a` to the same
/// player's identifier in `b`.
pub fn a_compose_b_inverse(a: &Vec<(Vec<u8>, u128)>, b: &Vec<(Vec<u8>, u128)>) -> (r: HashMap<
    u128,
    u128,
>)
    ensures
        r@ == composed(players_view(a@), players_view(b@)),
{
    let ghost all = players_view(a@);
    let mut map: HashMap<u128, u128> = HashMap::new();
    let mut i: usize = 0;
    proof {
        assert(all.subrange(0, 0) =~= Seq::<(Seq<u8>, u128)>::empty());
    }
    while i < a.len()
        invariant
            i <= a@.len(),
            all == players_view(a@),
            map@ == composed(all.subrange(0, i as int), players_view(b@)),
        decreases a@.len() - i,
    {
        proof {
            let upto = all.subrange(0, i + 1);
            assert(upto.drop_last() == all.subrange(0, i as int));
            assert(upto.last() == (a@[i as int].0@, a@[i as int].1));
        }
        match find_player(b, a[i].0.as_slice()) {
            Some(to) => {
                map.insert(a[i].1, to);
            },
            None => {},
        }
        i += 1;
    }
    proof {
        assert(all.subrange(0, i as int) == all);
    }
    map
}

/// The table for a list of players, by the kind of the list: from online
/// identifiers to offline ones, or the other way round. Any other kind gives
/// no table here.
pub fn players_mapping(
    kind: MappingKind,
    offline: &Vec<(Vec<u8>, u128)>,
    online: &Vec<(Vec<u8>, u128)>,
) -> (r: Option<HashMap<u128, u128>>)
    ensures
        match kind {
            MappingKind::ListToOffline | MappingKind::UsercacheToOffline => r is Some && r->0@
                == composed(players_view(online@), players_view(offline@)),
            MappingKind::ListToOnline | MappingKind::UsercacheToOnline => r is Some && r->0@
                == composed(players_view(offline@), players_view(online@)),
            _ => r is None,
        },
{
    match kind {
        MappingKind::ListToOffline | MappingKind::UsercacheToOffline => Some(
            a_compose_b_inverse(online, offline),
        ),
        MappingKind::ListToOnline | MappingKind::UsercacheToOnline => Some(
            a_compose_b_inverse(offline, online),
        ),
        _ => None,
    }
}

} // verus!
