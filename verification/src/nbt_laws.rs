//! What holds of the visit of an NBT document, whatever the buffer and the
//! mapping.

use crate::bytes::{overwrite, u64_be_bytes};
use crate::nbt::{
    compound_sites, element_size, fixed_size, list_sites, pair_sites, record_least, record_most,
    rewrite_site, rewrite_sites, site_allows, site_covers, sites_allow, sites_cover,
    sites_visited, value_sites, Failed, Found, PairView, Site, TAG_BYTE_ARRAY, TAG_COMPOUND,
    TAG_INT_ARRAY, TAG_LIST, TAG_LONG_ARRAY, TAG_STRING,
};
use crate::text::{maps_nothing, UuidMap};
use crate::text_laws::{lemma_scan_changes_only_literals, lemma_scan_text_nothing};
use vstd::prelude::*;

verus! {

/// The site lies between `lo` and `hi`.
pub open spec fn site_within(site: Site, lo: int, hi: int) -> bool {
    match site {
        Site::Text { at, len } => lo <= at && 0 <= len && at + len <= hi,
        Site::Longs { most, least } => lo <= most && most + 8 <= hi && lo <= least && least + 8
            <= hi,
    }
}

/// All sites lie between `lo` and `hi`.
pub open spec fn sites_within(sites: Seq<Site>, lo: int, hi: int) -> bool {
    forall|i: int| 0 <= i < sites.len() ==> site_within(#[trigger] sites[i], lo, hi)
}

/// A byte that may change when the sites are rewritten belongs to one of
/// the sites.
pub proof fn lemma_allowed_is_covered(sites: Seq<Site>, buf: Seq<u8>, j: int)
    requires
        sites_allow(sites, buf, j),
    ensures
        sites_cover(sites, j),
{
    let i = choose|i: int| 0 <= i < sites.len() && site_allows(#[trigger] sites[i], buf, j);
    assert(site_covers(sites[i], j));
}

/// The halves that the entry has seen lie between `lo` and `hi`.
pub open spec fn pair_within(pair: PairView, lo: int, hi: int) -> bool {
    &&& pair.most is Some ==> lo <= pair.most->0 && pair.most->0 + 8 <= hi
    &&& pair.least is Some ==> lo <= pair.least->0 && pair.least->0 + 8 <= hi
}

/// The halves that the entries have seen lie between `lo` and `hi`.
pub open spec fn pairs_within(pairs: Seq<PairView>, lo: int, hi: int) -> bool {
    forall|i: int| 0 <= i < pairs.len() ==> pair_within(#[trigger] pairs[i], lo, hi)
}

/// A site that is rewritten leaves the buffer's length, and every byte that
/// does not belong to it.
pub proof fn lemma_rewrite_site_outside(buf: Seq<u8>, site: Site, m: UuidMap)
    requires
        site_within(site, 0, buf.len() as int),
    ensures
        rewrite_site(buf, site, m).len() == buf.len(),
        forall|j: int|
            0 <= j < buf.len() && !site_covers(site, j) ==> #[trigger] rewrite_site(buf, site, m)[j]
                == buf[j],
{
    match site {
        Site::Text { at, len } => {
            lemma_scan_changes_only_literals(buf.subrange(at, at + len), m);
        },
        Site::Longs { most, least } => {},
    }
}

/// Sites that are rewritten leave the buffer's length, and every byte that
/// belongs to none of them.
pub proof fn lemma_rewrite_sites_outside(buf: Seq<u8>, sites: Seq<Site>, m: UuidMap)
    requires
        sites_within(sites, 0, buf.len() as int),
    ensures
        rewrite_sites(buf, sites, m).len() == buf.len(),
        forall|j: int|
            0 <= j < buf.len() && !sites_cover(sites, j) ==> #[trigger] rewrite_sites(
                buf,
                sites,
                m,
            )[j] == buf[j],
    decreases sites.len(),
{
    if sites.len() > 0 {
        let before = sites.drop_last();
        assert forall|i: int| 0 <= i < before.len() implies site_within(
            #[trigger] before[i],
            0,
            buf.len() as int,
        ) by {
            assert(before[i] == sites[i]);
        }
        lemma_rewrite_sites_outside(buf, before, m);
        let mid = rewrite_sites(buf, before, m);
        assert(site_within(sites[sites.len() - 1], 0, buf.len() as int));
        lemma_rewrite_site_outside(mid, sites.last(), m);
        assert forall|j: int| 0 <= j < buf.len() && !sites_cover(sites, j) implies #[trigger] rewrite_sites(
            buf,
            sites,
            m,
        )[j] == buf[j] by {
            assert(!site_covers(sites[sites.len() - 1], j));
            if sites_cover(before, j) {
                let i = choose|i: int| 0 <= i < before.len() && site_covers(#[trigger] before[i], j);
                assert(site_covers(sites[i], j));
            }
        }
    }
}

/// Under a mapping that maps nothing no site is changed.
pub proof fn lemma_rewrite_sites_nothing(buf: Seq<u8>, sites: Seq<Site>, m: UuidMap)
    requires
        maps_nothing(m),
        sites_within(sites, 0, buf.len() as int),
    ensures
        rewrite_sites(buf, sites, m) == buf,
    decreases sites.len(),
{
    if sites.len() > 0 {
        let before = sites.drop_last();
        assert forall|i: int| 0 <= i < before.len() implies site_within(
            #[trigger] before[i],
            0,
            buf.len() as int,
        ) by {
            assert(before[i] == sites[i]);
        }
        lemma_rewrite_sites_nothing(buf, before, m);
        assert(site_within(sites[sites.len() - 1], 0, buf.len() as int));
        match sites.last() {
            Site::Text { at, len } => {
                lemma_scan_text_nothing(buf.subrange(at, at + len), m);
                assert(overwrite(buf, at, buf.subrange(at, at + len)) =~= buf);
            },
            Site::Longs { most, least } => {
                assert(m(crate::nbt::uuid_of(crate::bytes::be_u64(buf, most), crate::bytes::be_u64(buf, least))) is None);
            },
        }
    }
}

/// The sites of a compound's pairs lie where the halves of its entries lie.
pub proof fn lemma_pair_sites_within(pairs: Seq<PairView>, lo: int, hi: int)
    requires
        pairs_within(pairs, lo, hi),
    ensures
        sites_within(pair_sites(pairs), lo, hi),
    decreases pairs.len(),
{
    if pairs.len() > 0 {
        let before = pairs.drop_last();
        assert forall|i: int| 0 <= i < before.len() implies pair_within(
            #[trigger] before[i],
            lo,
            hi,
        ) by {
            assert(before[i] == pairs[i]);
        }
        lemma_pair_sites_within(before, lo, hi);
        assert(pair_within(pairs[pairs.len() - 1], lo, hi));
        let sites = pair_sites(pairs);
        assert forall|i: int| 0 <= i < sites.len() implies site_within(#[trigger] sites[i], lo, hi) by {
            if i < pair_sites(before).len() {
                assert(sites[i] == pair_sites(before)[i]);
            }
        }
    }
}

/// The entries with one more long noted lie where they lay and where that
/// long lies.
pub proof fn lemma_record_within(pairs: Seq<PairView>, prefix: Seq<u8>, at: int, lo: int, hi: int)
    requires
        pairs_within(pairs, lo, hi),
        lo <= at,
        at + 8 <= hi,
    ensures
        pairs_within(record_most(pairs, prefix, at), lo, hi),
        pairs_within(record_least(pairs, prefix, at), lo, hi),
{
    let with_most = record_most(pairs, prefix, at);
    let with_least = record_least(pairs, prefix, at);
    assert forall|i: int| 0 <= i < with_most.len() implies pair_within(
        #[trigger] with_most[i],
        lo,
        hi,
    ) by {
        if i < pairs.len() {
            assert(pair_within(pairs[i], lo, hi));
        }
    }
    assert forall|i: int| 0 <= i < with_least.len() implies pair_within(
        #[trigger] with_least[i],
        lo,
        hi,
    ) by {
        if i < pairs.len() {
            assert(pair_within(pairs[i], lo, hi));
        }
    }
}

/// Sites that lie in a part lie in a larger part.
pub proof fn lemma_sites_within_wider(sites: Seq<Site>, lo: int, hi: int, lower: int, higher: int)
    requires
        sites_within(sites, lo, hi),
        lower <= lo,
        hi <= higher,
    ensures
        sites_within(sites, lower, higher),
{
    assert forall|i: int| 0 <= i < sites.len() implies site_within(
        #[trigger] sites[i],
        lower,
        higher,
    ) by {
        assert(site_within(sites[i], lo, hi));
    }
}

/// Sites that lie in a part, followed by sites that lie in that part, lie
/// in that part.
pub proof fn lemma_sites_within_both(first: Seq<Site>, rest: Seq<Site>, lo: int, hi: int)
    requires
        sites_within(first, lo, hi),
        sites_within(rest, lo, hi),
    ensures
        sites_within(first + rest, lo, hi),
{
    let all = first + rest;
    assert forall|i: int| 0 <= i < all.len() implies site_within(#[trigger] all[i], lo, hi) by {
        if i < first.len() {
            assert(all[i] == first[i]);
        } else {
            assert(all[i] == rest[i - first.len()]);
        }
    }
}

/// The sites that reading a part has found, whether it came to the end of
/// the part or failed before.
pub open spec fn sites_found(read: Result<Found, Failed>) -> Seq<Site> {
    match read {
        Ok(found) => found.sites,
        Err(failed) => failed.sites,
    }
}

/// How far reading a part from `pos` on has come at most: to the end of the
/// part, or, where it failed, to the end of the buffer.
pub open spec fn reach(read: Result<Found, Failed>, pos: int, len: int) -> int {
    match read {
        Ok(found) => pos + found.taken,
        Err(failed) => len,
    }
}

/// A value that is read lies within the buffer, and its sites lie within the
/// value; the sites found before a failure lie within the buffer.
pub proof fn lemma_value_sites_within(buf: Seq<u8>, pos: int, kind: u8)
    requires
        0 <= pos <= buf.len(),
    ensures
        reach(value_sites(buf, pos, kind), pos, buf.len() as int) <= buf.len(),
        sites_within(
            sites_found(value_sites(buf, pos, kind)),
            pos,
            reach(value_sites(buf, pos, kind), pos, buf.len() as int),
        ),
    decreases crate::nbt::left(buf, pos), 1int, 0nat,
{
    if kind == TAG_INT_ARRAY {
    } else if fixed_size(kind) is Some {
    } else if element_size(kind) is Some {
    } else if kind == TAG_COMPOUND {
        lemma_compound_sites_within(buf, pos, Seq::empty(), pos);
    } else if kind == TAG_LIST {
        if pos + 5 <= buf.len() && fixed_size(buf[pos]) is None {
            let count = crate::bytes::be_u32(buf, pos + 1) as nat;
            let items = list_sites(buf, pos + 5, buf[pos], count);
            lemma_list_sites_within(buf, pos + 5, buf[pos], count);
            let end = reach(items, pos + 5, buf.len() as int);
            lemma_sites_within_wider(sites_found(items), pos + 5, end, pos, end);
            assert(Seq::<Site>::empty() + sites_found(items) =~= sites_found(items));
        }
    } else if kind == TAG_STRING {
    }
}

/// The items of a list that are read lie within the buffer, and their sites
/// lie within the items; the sites found before a failure lie within the
/// buffer.
pub proof fn lemma_list_sites_within(buf: Seq<u8>, pos: int, kind: u8, count: nat)
    requires
        0 <= pos <= buf.len(),
    ensures
        reach(list_sites(buf, pos, kind, count), pos, buf.len() as int) <= buf.len(),
        sites_within(
            sites_found(list_sites(buf, pos, kind, count)),
            pos,
            reach(list_sites(buf, pos, kind, count), pos, buf.len() as int),
        ),
    decreases crate::nbt::left(buf, pos), 2int, count,
{
    if count > 0 {
        lemma_value_sites_within(buf, pos, kind);
        match value_sites(buf, pos, kind) {
            Err(failed) => {},
            Ok(first) => {
                let rest = list_sites(buf, pos + first.taken, kind, (count - 1) as nat);
                lemma_list_sites_within(buf, pos + first.taken, kind, (count - 1) as nat);
                let end = reach(rest, pos + first.taken, buf.len() as int);
                lemma_sites_within_wider(first.sites, pos, pos + first.taken, pos, end);
                lemma_sites_within_wider(sites_found(rest), pos + first.taken, end, pos, end);
                lemma_sites_within_both(first.sites, sites_found(rest), pos, end);
            },
        }
    }
}

/// The rest of a compound that is read lies within the buffer, and its
/// sites lie within the compound, given that the longs seen in it so far
/// do; the sites found before a failure lie within the buffer.
pub proof fn lemma_compound_sites_within(buf: Seq<u8>, pos: int, pairs: Seq<PairView>, lo: int)
    requires
        0 <= lo <= pos <= buf.len(),
        pairs_within(pairs, lo, pos),
    ensures
        reach(compound_sites(buf, pos, pairs), pos, buf.len() as int) <= buf.len(),
        sites_within(
            sites_found(compound_sites(buf, pos, pairs)),
            lo,
            reach(compound_sites(buf, pos, pairs), pos, buf.len() as int),
        ),
    decreases crate::nbt::left(buf, pos), 0int, 0nat,
{
    let value = crate::nbt::entry_value(buf, pos);
    let name = crate::nbt::entry_name(buf, pos);
    if pos + 1 > buf.len() {
    } else if buf[pos] == crate::nbt::TAG_END {
        lemma_pair_sites_within(pairs, lo, pos);
        lemma_sites_within_wider(pair_sites(pairs), lo, pos, lo, pos + 1);
    } else if pos + 3 > buf.len() || value > buf.len() {
    } else if crate::nbt::is_pair_half(buf, pos) {
        if value + 8 <= buf.len() {
            let entries = crate::nbt::entries_after(buf, pos, pairs);
            assert forall|i: int| 0 <= i < pairs.len() implies pair_within(
                #[trigger] pairs[i],
                lo,
                value + 8,
            ) by {
                assert(pair_within(pairs[i], lo, pos));
            }
            if crate::nbt::ends_with(name, crate::nbt::most_suffix()) {
                lemma_record_within(pairs, name.subrange(0, name.len() - 8), value, lo, value + 8);
            } else {
                lemma_record_within(pairs, name.subrange(0, name.len() - 9), value, lo, value + 8);
            }
            lemma_compound_sites_within(buf, value + 8, entries, lo);
            let rest = compound_sites(buf, value + 8, entries);
            assert(Seq::<Site>::empty() + sites_found(rest) =~= sites_found(rest));
        }
    } else {
        lemma_value_sites_within(buf, value, buf[pos]);
        match value_sites(buf, value, buf[pos]) {
            Err(failed) => {
                lemma_sites_within_wider(failed.sites, value, buf.len() as int, lo, buf.len() as int);
            },
            Ok(first) => {
                let next = value + first.taken;
                assert forall|i: int| 0 <= i < pairs.len() implies pair_within(
                    #[trigger] pairs[i],
                    lo,
                    next,
                ) by {
                    assert(pair_within(pairs[i], lo, pos));
                }
                lemma_compound_sites_within(buf, next, pairs, lo);
                let rest = compound_sites(buf, next, pairs);
                let end = reach(rest, next, buf.len() as int);
                lemma_sites_within_wider(first.sites, value, next, lo, end);
                lemma_sites_within_both(first.sites, sites_found(rest), lo, end);
            },
        }
    }
}

/// The sites that a visit has rewritten lie within the buffer.
pub proof fn lemma_document_sites_within(buf: Seq<u8>)
    ensures
        sites_within(sites_visited(buf), 0, buf.len() as int),
{
    if !(1 > buf.len() || 3 > buf.len() || 3 + crate::bytes::be_u16(buf, 1) > buf.len()) {
        let start = 3 + crate::bytes::be_u16(buf, 1);
        let root = value_sites(buf, start, buf[0]);
        lemma_value_sites_within(buf, start, buf[0]);
        lemma_sites_within_wider(
            sites_found(root),
            start,
            reach(root, start, buf.len() as int),
            0,
            buf.len() as int,
        );
    }
}

/// A buffer that is visited under a mapping that maps nothing is left as it
/// is, byte for byte, whether it is a document or not.
pub proof fn lemma_visit_nothing(buf: Seq<u8>, m: UuidMap)
    requires
        maps_nothing(m),
    ensures
        rewrite_sites(buf, sites_visited(buf), m) == buf,
{
    lemma_document_sites_within(buf);
    lemma_rewrite_sites_nothing(buf, sites_visited(buf), m);
}

/// A buffer that is visited keeps its length, and every byte that belongs
/// to none of the sites that were found: all tags, names and lengths, and
/// all values but strings, int arrays of four ints and pairs of longs.
pub proof fn lemma_visit_changes_only_sites(buf: Seq<u8>, m: UuidMap)
    ensures
        rewrite_sites(buf, sites_visited(buf), m).len() == buf.len(),
        forall|j: int|
            0 <= j < buf.len() && !sites_cover(sites_visited(buf), j)
                ==> #[trigger] rewrite_sites(buf, sites_visited(buf), m)[j] == buf[j],
{
    lemma_document_sites_within(buf);
    lemma_rewrite_sites_outside(buf, sites_visited(buf), m);
}

/// A value of fixed size, a byte array, a long array and an int array of
/// another count than four hold no site.
pub proof fn lemma_plain_values_hold_no_site(buf: Seq<u8>, pos: int, kind: u8)
    requires
        value_sites(buf, pos, kind) is Ok,
        fixed_size(kind) is Some || kind == TAG_BYTE_ARRAY || kind == TAG_LONG_ARRAY || (kind
            == TAG_INT_ARRAY && crate::bytes::be_u32(buf, pos) != 4),
    ensures
        value_sites(buf, pos, kind)->Ok_0.sites == Seq::<Site>::empty(),
{
}

/// The entry has seen both halves of its pair.
pub open spec fn is_complete(pair: PairView) -> bool {
    pair.most is Some && pair.least is Some
}

/// The byte at `j` belongs to a half of an entry that has seen both halves.
pub open spec fn in_complete_pair(pairs: Seq<PairView>, j: int) -> bool {
    exists|i: int|
        0 <= i < pairs.len() && is_complete(#[trigger] pairs[i]) && site_covers(
            Site::Longs { most: pairs[i].most->0, least: pairs[i].least->0 },
            j,
        )
}

/// The site is the pair of an entry that has seen both halves.
pub open spec fn of_complete_pair(pairs: Seq<PairView>, site: Site) -> bool {
    exists|i: int|
        0 <= i < pairs.len() && is_complete(#[trigger] pairs[i]) && site == (Site::Longs {
            most: pairs[i].most->0,
            least: pairs[i].least->0,
        })
}

/// The pairs of a compound are rewritten where both halves were seen, and
/// only there: each entry with both halves is a site, and each site is an
/// entry with both halves.
pub proof fn lemma_pairs_complete(pairs: Seq<PairView>)
    ensures
        forall|i: int|
            0 <= i < pairs.len() && is_complete(#[trigger] pairs[i]) ==> pair_sites(pairs).contains(
                Site::Longs { most: pairs[i].most->0, least: pairs[i].least->0 },
            ),
        forall|k: int|
            0 <= k < pair_sites(pairs).len() ==> of_complete_pair(
                pairs,
                #[trigger] pair_sites(pairs)[k],
            ),
    decreases pairs.len(),
{
    if pairs.len() > 0 {
        let before = pairs.drop_last();
        let last = pairs.last();
        lemma_pairs_complete(before);
        let sites = pair_sites(pairs);
        let earlier = pair_sites(before);
        assert forall|i: int| 0 <= i < pairs.len() && is_complete(#[trigger] pairs[i]) implies sites.contains(
            Site::Longs { most: pairs[i].most->0, least: pairs[i].least->0 },
        ) by {
            let site = Site::Longs { most: pairs[i].most->0, least: pairs[i].least->0 };
            if i < before.len() {
                assert(before[i] == pairs[i]);
                assert(earlier.contains(site));
                let k = choose|k: int| 0 <= k < earlier.len() && earlier[k] == site;
                assert(sites[k] == site);
            } else {
                assert(sites[sites.len() - 1] == site);
            }
        }
        assert forall|k: int| 0 <= k < sites.len() implies of_complete_pair(
            pairs,
            #[trigger] sites[k],
        ) by {
            if k < earlier.len() {
                assert(sites[k] == earlier[k]);
                assert(of_complete_pair(before, earlier[k]));
                let i = choose|i: int|
                    0 <= i < before.len() && is_complete(#[trigger] before[i]) && earlier[k] == (
                    Site::Longs { most: before[i].most->0, least: before[i].least->0 });
                assert(pairs[i] == before[i]);
            } else {
                assert(is_complete(pairs[pairs.len() - 1]));
            }
        }
    }
}

/// When the pairs of a compound are rewritten, a half without its other
/// half is not changed, nor any other byte that is no half of a pair of
/// which both halves were seen.
pub proof fn lemma_lone_halves_stay(buf: Seq<u8>, pairs: Seq<PairView>, m: UuidMap)
    requires
        pairs_within(pairs, 0, buf.len() as int),
    ensures
        rewrite_sites(buf, pair_sites(pairs), m).len() == buf.len(),
        forall|j: int|
            0 <= j < buf.len() && !in_complete_pair(pairs, j) ==> #[trigger] rewrite_sites(
                buf,
                pair_sites(pairs),
                m,
            )[j] == buf[j],
{
    lemma_pair_sites_within(pairs, 0, buf.len() as int);
    lemma_rewrite_sites_outside(buf, pair_sites(pairs), m);
    lemma_pairs_complete(pairs);
    let sites = pair_sites(pairs);
    assert forall|j: int| 0 <= j < buf.len() && !in_complete_pair(pairs, j) implies #[trigger] rewrite_sites(
        buf,
        sites,
        m,
    )[j] == buf[j] by {
        if sites_cover(sites, j) {
            let k = choose|k: int| 0 <= k < sites.len() && site_covers(#[trigger] sites[k], j);
            assert(of_complete_pair(pairs, sites[k]));
            let i = choose|i: int|
                0 <= i < pairs.len() && is_complete(#[trigger] pairs[i]) && sites[k] == (
                Site::Longs { most: pairs[i].most->0, least: pairs[i].least->0 });
            assert(in_complete_pair(pairs, j));
        }
    }
}

/// A pair of longs is rewritten as one: where the mapping has an answer for
/// the UUID of the two halves, both halves are written, the high half of the
/// answer and its low half; where it has none, neither is.
pub proof fn lemma_pair_rewritten_whole(buf: Seq<u8>, most: int, least: int, m: UuidMap)
    requires
        0 <= most,
        most + 8 <= buf.len(),
        0 <= least,
        least + 8 <= buf.len(),
        most + 8 <= least || least + 8 <= most,
    ensures
        ({
            let after = rewrite_site(buf, Site::Longs { most, least }, m);
            match m(crate::nbt::uuid_of(crate::bytes::be_u64(buf, most), crate::bytes::be_u64(buf, least))) {
                Some(v) => {
                    &&& after.subrange(most, most + 8) == u64_be_bytes(
                        v as int / 0x1_0000_0000_0000_0000,
                    )
                    &&& after.subrange(least, least + 8) == u64_be_bytes(
                        v as int % 0x1_0000_0000_0000_0000,
                    )
                },
                None => after == buf,
            }
        }),
{
    let after = rewrite_site(buf, Site::Longs { most, least }, m);
    match m(crate::nbt::uuid_of(crate::bytes::be_u64(buf, most), crate::bytes::be_u64(buf, least))) {
        Some(v) => {
            let high = u64_be_bytes(v as int / 0x1_0000_0000_0000_0000);
            let low = u64_be_bytes(v as int % 0x1_0000_0000_0000_0000);
            assert(after.subrange(most, most + 8) =~= high);
            assert(after.subrange(least, least + 8) =~= low);
        },
        None => {},
    }
}

} // verus!
