//! Scanner for UUID literals in raw bytes.
//!
//! A buffer is scanned twice, left to right. The first pass looks for the
//! hyphenated form (`8-4-4-4-12` lowercase hex digits), the second for runs of
//! 32 lowercase hex digits. Each match is parsed, handed to a callback, and,
//! if the callback answers with a replacement, overwritten in place by the
//! replacement in the same form. The buffer never changes length.

use crate::bytes::overwrite;
use crate::text_laws::{
    lemma_hyphenated_step, lemma_hyphenated_written, lemma_passes_within_literals,
    lemma_scan_text_nothing, lemma_simple_written,
};
use vstd::prelude::*;

verus! {

/// A mapping from identifiers to their replacements, as contracts see it.
pub type UuidMap = spec_fn(u128) -> Option<u128>;

/// The callback `cb` answers as the mapping `m` does: whatever a call
/// `cb(u)` returns is `m(u)`.
pub open spec fn follows<F: Fn(u128) -> Option<u128>>(cb: &F, m: UuidMap) -> bool {
    forall|u: u128, r: Option<u128>| #[trigger] call_ensures(*cb, (u,), r) ==> r == m(u)
}

/// The callback may be called on every identifier.
pub open spec fn total<F: Fn(u128) -> Option<u128>>(cb: &F) -> bool {
    forall|u: u128| call_requires(*cb, (u,))
}

/// The ASCII hyphen.
pub const DASH: u8 = 0x2d;

/// `c` is one of `0`..`9`, `a`..`f`.
pub open spec fn is_hex_digit(c: u8) -> bool {
    (0x30 <= c && c <= 0x39) || (0x61 <= c && c <= 0x66)
}

/// The value of the hex digit `c`.
pub open spec fn hex_digit_value(c: u8) -> u128 {
    if c <= 0x39 {
        (c - 0x30) as u128
    } else {
        (c - 0x61 + 10) as u128
    }
}

/// The lowercase hex digit of value `d < 16`.
pub open spec fn hex_digit_char(d: u128) -> u8 {
    if d < 10 {
        (0x30 + d) as u8
    } else {
        (0x61 + d - 10) as u8
    }
}

/// Appends one digit to a number read so far; bytes that are no hex digits
/// are passed over.
pub open spec fn push_hex(acc: u128, c: u8) -> u128 {
    if is_hex_digit(c) {
        (acc << 4) | hex_digit_value(c)
    } else {
        acc
    }
}

/// The number that the hex digits of `s` spell, most significant first.
pub open spec fn hex_value(s: Seq<u8>) -> u128
    decreases s.len(),
{
    if s.len() == 0 {
        0
    } else {
        push_hex(hex_value(s.drop_last()), s.last())
    }
}

/// Digit `k` (0 is the most significant of 32) of `u`, as a lowercase hex
/// character.
pub open spec fn uuid_digit(u: u128, k: int) -> u8 {
    hex_digit_char((u >> ((4 * (31 - k)) as u128)) & 0xf)
}

/// Position `j` of a hyphenated identifier holds a hyphen.
pub open spec fn is_dash_position(j: int) -> bool {
    j == 8 || j == 13 || j == 18 || j == 23
}

/// How many hyphens a hyphenated identifier has before position `j`.
pub open spec fn dashes_before(j: int) -> int {
    if j > 23 {
        4
    } else if j > 18 {
        3
    } else if j > 13 {
        2
    } else if j > 8 {
        1
    } else {
        0
    }
}

/// The 36 bytes of `u` in hyphenated lowercase form.
pub open spec fn hyphenated(u: u128) -> Seq<u8> {
    Seq::new(
        36,
        |j: int|
            if is_dash_position(j) {
                DASH
            } else {
                uuid_digit(u, j - dashes_before(j))
            },
    )
}

/// The 32 bytes of `u` in lowercase hex without hyphens.
pub open spec fn simple(u: u128) -> Seq<u8> {
    Seq::new(32, |j: int| uuid_digit(u, j))
}

/// The byte `c` may stand at position `j` of a hyphenated identifier.
pub open spec fn fits_hyphenated(c: u8, j: int) -> bool {
    if is_dash_position(j) {
        c == DASH
    } else {
        is_hex_digit(c)
    }
}

/// The `k` bytes of `buf` before `end` have the shape of the first `k` bytes
/// of a hyphenated identifier.
pub open spec fn hyphenated_prefix(buf: Seq<u8>, end: int, k: int) -> bool {
    &&& 0 <= k <= end <= buf.len()
    &&& forall|p: int| end - k <= p < end ==> fits_hyphenated(#[trigger] buf[p], p - (end - k))
}

/// The `k` bytes of `buf` before `end` are hex digits.
pub open spec fn hex_run(buf: Seq<u8>, end: int, k: int) -> bool {
    &&& 0 <= k <= end <= buf.len()
    &&& forall|p: int| end - k <= p < end ==> is_hex_digit(#[trigger] buf[p])
}

/// What becomes of `buf` when the hyphenated match that starts at `at` is
/// handed to the mapping.
pub open spec fn rewrite_hyphenated(buf: Seq<u8>, at: int, m: UuidMap) -> Seq<u8> {
    match m(hex_value(buf.subrange(at, at + 36))) {
        Some(v) => overwrite(buf, at, hyphenated(v)),
        None => buf,
    }
}

/// What becomes of `buf` when the run of 32 digits that starts at `at` is
/// handed to the mapping.
pub open spec fn rewrite_simple(buf: Seq<u8>, at: int, m: UuidMap) -> Seq<u8> {
    match m(hex_value(buf.subrange(at, at + 32))) {
        Some(v) => overwrite(buf, at, simple(v)),
        None => buf,
    }
}

/// The two buffers have the same length, hex digits at the same places and
/// hyphens at the same places.
pub open spec fn same_shape(a: Seq<u8>, b: Seq<u8>) -> bool {
    &&& a.len() == b.len()
    &&& forall|j: int|
        #![trigger a[j]]
        #![trigger b[j]]
        0 <= j < a.len() ==> is_hex_digit(a[j]) == is_hex_digit(b[j]) && (a[j] == DASH) == (b[j]
            == DASH)
}

/// The byte at `j` stands within 36 bytes that have the shape of a
/// hyphenated identifier.
pub open spec fn in_hyphenated(buf: Seq<u8>, j: int) -> bool {
    exists|s: int| s <= j < s + 36 && #[trigger] hyphenated_prefix(buf, s + 36, 36)
}

/// The byte at `j` stands within 32 hex digits.
pub open spec fn in_simple(buf: Seq<u8>, j: int) -> bool {
    exists|s: int| s <= j < s + 32 && #[trigger] hex_run(buf, s + 32, 32)
}

/// The mapping maps nothing.
pub open spec fn maps_nothing(m: UuidMap) -> bool {
    forall|u: u128| (#[trigger] m(u)) is None
}

/// `after` has the shape of `before`, and every byte of it that is not as
/// it was stands where `before` has 36 bytes of the shape of a hyphenated
/// identifier.
pub open spec fn within_hyphenated(before: Seq<u8>, after: Seq<u8>) -> bool {
    &&& same_shape(after, before)
    &&& forall|j: int|
        0 <= j < before.len() && #[trigger] after[j] != before[j] ==> in_hyphenated(before, j)
}

/// `after` has the shape of `before`, and every byte of it that is not as
/// it was stands where `before` has 32 hex digits.
pub open spec fn within_simple(before: Seq<u8>, after: Seq<u8>) -> bool {
    &&& same_shape(after, before)
    &&& forall|j: int|
        0 <= j < before.len() && #[trigger] after[j] != before[j] ==> in_simple(before, j)
}

/// `after` has the shape of `before`, and every byte of it that is not as
/// it was stands where `before` has 36 bytes of the shape of a hyphenated
/// identifier or 32 hex digits. All other bytes are kept.
pub open spec fn within_literals(before: Seq<u8>, after: Seq<u8>) -> bool {
    &&& same_shape(after, before)
    &&& forall|j: int|
        0 <= j < before.len() && #[trigger] after[j] != before[j] ==> in_hyphenated(before, j)
            || in_simple(before, j)
}

/// One transition of the automaton of the first pass: from the number of
/// bytes matched so far and the next byte to the number matched after it.
/// After eight digits further digits keep the last eight; a digit in the
/// place of the second, third or fourth hyphen keeps the last five; any
/// other deviation starts over.
pub open spec fn hyphenated_next(matched: int, c: u8) -> int {
    if !is_hex_digit(c) && c != DASH {
        0
    } else if matched == 8 {
        if c == DASH {
            9
        } else {
            8
        }
    } else if matched == 13 || matched == 18 || matched == 23 {
        if c == DASH {
            matched + 1
        } else {
            5
        }
    } else if is_hex_digit(c) {
        matched + 1
    } else {
        0
    }
}

/// The first pass over the first `i` bytes: the buffer as it then stands and
/// the number of bytes matched. A match is complete at 36 bytes; it is
/// rewritten and the automaton starts over.
pub open spec fn hyphenated_pass(buf: Seq<u8>, m: UuidMap, i: nat) -> (Seq<u8>, int)
    decreases i,
{
    if i == 0 {
        (buf, 0)
    } else {
        let (b, matched) = hyphenated_pass(buf, m, (i - 1) as nat);
        let next = hyphenated_next(matched, b[i - 1]);
        if next == 36 {
            (rewrite_hyphenated(b, i - 36, m), 0)
        } else {
            (b, next)
        }
    }
}

/// The second pass over the first `i` bytes: the buffer as it then stands and
/// the length of the current run of digits. A run is complete at 32 digits;
/// it is rewritten and the count starts over.
pub open spec fn simple_pass(buf: Seq<u8>, m: UuidMap, i: nat) -> (Seq<u8>, int)
    decreases i,
{
    if i == 0 {
        (buf, 0)
    } else {
        let (b, matched) = simple_pass(buf, m, (i - 1) as nat);
        if !is_hex_digit(b[i - 1]) {
            (b, 0)
        } else if matched + 1 == 32 {
            (rewrite_simple(b, i - 32, m), 0)
        } else {
            (b, matched + 1)
        }
    }
}

/// The buffer after the first pass.
pub open spec fn scan_hyphenated(buf: Seq<u8>, m: UuidMap) -> Seq<u8> {
    hyphenated_pass(buf, m, buf.len()).0
}

/// The buffer after the second pass.
pub open spec fn scan_simple(buf: Seq<u8>, m: UuidMap) -> Seq<u8> {
    simple_pass(buf, m, buf.len()).0
}

/// The buffer after both passes: the second runs over what the first left.
pub open spec fn scan_text(buf: Seq<u8>, m: UuidMap) -> Seq<u8> {
    scan_simple(scan_hyphenated(buf, m), m)
}

/// Tells whether `c` is a lowercase hex digit.
pub fn is_digit(c: u8) -> (r: bool)
    ensures
        r == is_hex_digit(c),
{
    (0x30 <= c && c <= 0x39) || (0x61 <= c && c <= 0x66)
}

/// The value of a hex digit, and `u32::MAX` for any other byte.
pub fn from_hex_char(c: u8) -> (r: u32)
    ensures
        is_hex_digit(c) ==> r == hex_digit_value(c),
        !is_hex_digit(c) ==> r == u32::MAX,
{
    if 0x30 <= c && c <= 0x39 {
        (c - 0x30) as u32
    } else if 0x61 <= c && c <= 0x66 {
        (c - 0x61 + 10) as u32
    } else {
        u32::MAX
    }
}

/// Reads the hex digits of `text` as one number, passing over other bytes.
pub fn from_hex(text: &[u8]) -> (r: u128)
    ensures
        r == hex_value(text@),
{
    let mut ret: u128 = 0;
    let mut i: usize = 0;
    while i < text.len()
        invariant
            i <= text@.len(),
            ret == hex_value(text@.subrange(0, i as int)),
        decreases text@.len() - i,
    {
        let c = text[i];
        proof {
            let s = text@.subrange(0, i + 1);
            assert(s.drop_last() == text@.subrange(0, i as int));
            assert(s.last() == c);
        }
        if is_digit(c) {
            ret = (ret << 4) | (from_hex_char(c) as u128);
        }
        i += 1;
    }
    proof {
        assert(text@.subrange(0, i as int) == text@);
    }
    ret
}

/// The lowercase hex digit of a value below 16.
pub fn to_hex_char(c: u32) -> (r: u8)
    requires
        c < 16,
    ensures
        r == hex_digit_char(c as u128),
        is_hex_digit(r),
{
    if c < 10 {
        0x30 + c as u8
    } else {
        0x61 + c as u8 - 10
    }
}

/// Digit `k` (0 is the most significant of 32) of `uuid`, as a number.
fn nibble(uuid: u128, k: usize) -> (r: u32)
    requires
        k < 32,
    ensures
        r < 16,
        hex_digit_char(r as u128) == uuid_digit(uuid, k as int),
{
    let shift: u128 = (4 * (31 - k)) as u128;
    let d: u128 = (uuid >> shift) & 0xf;
    assert(d < 16) by (bit_vector)
        requires
            d == (uuid >> shift) & 0xf,
    ;
    d as u32
}

/// Overwrites the hyphenated identifier that starts at `at` with `uuid` in
/// the same form. The hyphens stay; only the digits change.
fn write_hyphenated(text: &mut [u8], at: usize, uuid: u128)
    requires
        hyphenated_prefix(old(text)@, at + 36, 36),
    ensures
        final(text)@ == overwrite(old(text)@, at as int, hyphenated(uuid)),
{
    let ghost orig = text@;
    let len = text.len();
    let mut ptr: usize = 0;
    let mut j: usize = 0;
    while j < 36
        invariant
            j <= 36,
            at + 36 <= orig.len() == len,
            text@.len() == orig.len(),
            hyphenated_prefix(orig, at + 36, 36),
            ptr == j - dashes_before(j as int),
            forall|p: int|
                0 <= p < orig.len() ==> #[trigger] text@[p] == if at <= p < at + j {
                    hyphenated(uuid)[p - at]
                } else {
                    orig[p]
                },
        decreases 36 - j,
    {
        assert(fits_hyphenated(orig[at + j], j as int));
        if text[at + j] != DASH {
            let d = to_hex_char(nibble(uuid, ptr));
            text[at + j] = d;
            ptr += 1;
        }
        j += 1;
    }
    assert(text@ =~= overwrite(orig, at as int, hyphenated(uuid)));
}

/// Overwrites the 32 digits that start at `at` with those of `uuid`.
fn write_simple(text: &mut [u8], at: usize, uuid: u128)
    requires
        at + 32 <= old(text)@.len(),
    ensures
        final(text)@ == overwrite(old(text)@, at as int, simple(uuid)),
{
    let ghost orig = text@;
    let len = text.len();
    let mut ptr: usize = 0;
    while ptr < 32
        invariant
            ptr <= 32,
            at + 32 <= orig.len() == len,
            text@.len() == orig.len(),
            forall|p: int|
                0 <= p < orig.len() ==> #[trigger] text@[p] == if at <= p < at + ptr {
                    simple(uuid)[p - at]
                } else {
                    orig[p]
                },
        decreases 32 - ptr,
    {
        let d = to_hex_char(nibble(uuid, ptr));
        text[at + ptr] = d;
        ptr += 1;
    }
    assert(text@ =~= overwrite(orig, at as int, simple(uuid)));
}

/// The first pass: rewrites every hyphenated identifier that the automaton
/// completes.
#[verifier::rlimit(40)]
fn visit_hyphenated<F: Fn(u128) -> Option<u128>>(text: &mut [u8], cb: &F)
    requires
        total(cb),
    ensures
        within_hyphenated(old(text)@, final(text)@),
        forall|m: UuidMap| follows(cb, m) ==> final(text)@ == scan_hyphenated(old(text)@, m),
{
    let ghost orig = text@;
    let len = text.len();
    let mut matched: usize = 0;
    let mut i: usize = 0;
    while i < len
        invariant
            total(cb),
            i <= len == orig.len(),
            text@.len() == orig.len(),
            matched < 36,
            within_hyphenated(orig, text@),
            hyphenated_prefix(text@, i as int, matched as int),
            forall|m: UuidMap|
                follows(cb, m) ==> #[trigger] hyphenated_pass(orig, m, i as nat) == (
                    text@,
                    matched as int,
                ),
        decreases len - i,
    {
        let ghost before = text@;
        let ghost seen = matched;
        let c = text[i];
        if !is_digit(c) && c != DASH {
            matched = 0;
        } else {
            matched =
            match matched {
                8 => if c == DASH {
                    9
                } else {
                    8
                },
                13 => if c == DASH {
                    14
                } else {
                    5
                },
                18 => if c == DASH {
                    19
                } else {
                    5
                },
                23 => if c == DASH {
                    24
                } else {
                    5
                },
                _ => if is_digit(c) {
                    matched + 1
                } else {
                    0
                },
            };
        }
        let ghost step = matched as int;
        assert(step == hyphenated_next(seen as int, c));
        proof {
            lemma_hyphenated_step(before, i as int, seen as int);
        }
        let ghost found = matched == 36;
        let mut answer: Option<u128> = None;
        let mut uuid: u128 = 0;
        if matched == 36 {
            matched = 0;
            uuid = from_hex(&text[i - 35..i + 1]);
            answer = cb(uuid);
            if let Some(new_uuid) = answer {
                write_hyphenated(text, i - 35, new_uuid);
                proof {
                    lemma_hyphenated_written(orig, before, i - 35, new_uuid);
                }
            }
        }
        proof {
            assert forall|m: UuidMap| follows(cb, m) implies #[trigger] hyphenated_pass(
                orig,
                m,
                (i + 1) as nat,
            ) == (text@, matched as int) by {
                let (b, st) = hyphenated_pass(orig, m, i as nat);
                assert(b == before && st == seen);
                assert(hyphenated_next(st, b[i as int]) == step);
                if found {
                    assert(uuid == hex_value(before.subrange(i + 1 - 36, i + 1 - 36 + 36)));
                    assert(call_ensures(*cb, (uuid,), answer));
                    assert(m(uuid) == answer);
                    assert(text@ == rewrite_hyphenated(before, i + 1 - 36, m));
                } else {
                    assert(text@ == before);
                }
            }
        }
        i += 1;
    }
}

/// The second pass: rewrites every run of 32 digits, counted from the start
/// of each run of digits.
#[verifier::rlimit(40)]
fn visit_simple<F: Fn(u128) -> Option<u128>>(text: &mut [u8], cb: &F)
    requires
        total(cb),
    ensures
        within_simple(old(text)@, final(text)@),
        forall|m: UuidMap| follows(cb, m) ==> final(text)@ == scan_simple(old(text)@, m),
{
    let ghost orig = text@;
    let len = text.len();
    let mut matched: usize = 0;
    let mut i: usize = 0;
    while i < len
        invariant
            total(cb),
            i <= len == orig.len(),
            text@.len() == orig.len(),
            matched < 32,
            within_simple(orig, text@),
            hex_run(text@, i as int, matched as int),
            forall|m: UuidMap|
                follows(cb, m) ==> #[trigger] simple_pass(orig, m, i as nat) == (
                    text@,
                    matched as int,
                ),
        decreases len - i,
    {
        let ghost before = text@;
        let ghost seen = matched;
        let c = text[i];
        let mut answer: Option<u128> = None;
        let mut uuid: u128 = 0;
        if !is_digit(c) {
            matched = 0;
        } else {
            matched += 1;
            if matched == 32 {
                matched = 0;
                uuid = from_hex(&text[i - 31..i + 1]);
                answer = cb(uuid);
                if let Some(new_uuid) = answer {
                    write_simple(text, i - 31, new_uuid);
                    proof {
                        lemma_simple_written(orig, before, i - 31, new_uuid);
                    }
                }
            }
        }
        proof {
            assert forall|m: UuidMap| follows(cb, m) implies #[trigger] simple_pass(
                orig,
                m,
                (i + 1) as nat,
            ) == (text@, matched as int) by {
                let (b, st) = simple_pass(orig, m, i as nat);
                assert(b == before && st == seen);
                assert(b[i as int] == c);
                if is_hex_digit(c) && seen + 1 == 32 {
                    assert(uuid == hex_value(before.subrange(i + 1 - 32, i + 1 - 32 + 32)));
                    assert(call_ensures(*cb, (uuid,), answer));
                    assert(m(uuid) == answer);
                    assert(text@ == rewrite_simple(before, i + 1 - 32, m));
                } else {
                    assert(text@ == before);
                }
            }
        }
        i += 1;
    }
}

/// Rewrites every UUID literal in `text` for which the callback has a
/// replacement, first the hyphenated ones, then the runs of 32 digits in what
/// the first pass left. Whatever the callback answers, the text keeps its
/// length and its shape, and every byte outside such literals. Where the
/// callback follows a mapping, the text is the scan of what it was; where
/// that mapping maps nothing, the text is what it was.
pub fn visit_text<F: Fn(u128) -> Option<u128>>(text: &mut [u8], cb: &F)
    requires
        total(cb),
    ensures
        final(text)@.len() == old(text)@.len(),
        within_literals(old(text)@, final(text)@),
        forall|m: UuidMap| follows(cb, m) ==> final(text)@ == scan_text(old(text)@, m),
        forall|m: UuidMap| follows(cb, m) && maps_nothing(m) ==> final(text)@ == old(text)@,
{
    let ghost before = text@;
    visit_hyphenated(text, cb);
    let ghost between = text@;
    visit_simple(text, cb);
    proof {
        lemma_passes_within_literals(before, between, text@);
        assert forall|m: UuidMap| follows(cb, m) && maps_nothing(m) implies text@ == before by {
            lemma_scan_text_nothing(before, m);
        }
    }
}

} // verus!
