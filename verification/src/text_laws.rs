//! What holds of the text scanner, whatever the buffer and the mapping.

use crate::bytes::overwrite;
use crate::text::{
    fits_hyphenated, hex_digit_char, hex_run, hex_value, hyphenated, hyphenated_next,
    hyphenated_pass, hyphenated_prefix, in_hyphenated, in_simple, is_dash_position, is_hex_digit,
    maps_nothing, push_hex, rewrite_hyphenated, rewrite_simple, same_shape, scan_hyphenated,
    scan_simple, scan_text, simple, simple_pass, uuid_digit, within_hyphenated, within_literals,
    within_simple, UuidMap, DASH,
};
use vstd::prelude::*;

verus! {

/// A digit of an identifier is a hex digit, and no hyphen.
pub proof fn lemma_uuid_digit(u: u128, k: int)
    requires
        0 <= k < 32,
    ensures
        is_hex_digit(uuid_digit(u, k)),
        uuid_digit(u, k) != DASH,
{
    let shift = (4 * (31 - k)) as u128;
    let d = (u >> shift) & 0xf;
    assert(d < 16) by (bit_vector)
        requires
            d == (u >> shift) & 0xf,
    ;
}

/// The hyphenated form has the shape of a hyphenated identifier.
pub proof fn lemma_hyphenated_shape(u: u128)
    ensures
        hyphenated(u).len() == 36,
        forall|j: int| 0 <= j < 36 ==> fits_hyphenated(#[trigger] hyphenated(u)[j], j),
{
    assert forall|j: int| 0 <= j < 36 implies fits_hyphenated(#[trigger] hyphenated(u)[j], j) by {
        if !is_dash_position(j) {
            lemma_uuid_digit(u, j - crate::text::dashes_before(j));
        }
    }
}

/// The form without hyphens is made of hex digits.
pub proof fn lemma_simple_shape(u: u128)
    ensures
        simple(u).len() == 32,
        forall|j: int| 0 <= j < 32 ==> is_hex_digit(#[trigger] simple(u)[j]),
{
    assert forall|j: int| 0 <= j < 32 implies is_hex_digit(#[trigger] simple(u)[j]) by {
        lemma_uuid_digit(u, j);
    }
}

/// What holds of the first pass after `i` bytes: the buffer has kept its
/// shape; the bytes matched so far have the shape of the start of a
/// hyphenated identifier and, with all behind them, are as they were; and a
/// byte that was changed stands within 36 bytes that had the shape of a
/// hyphenated identifier.
pub proof fn lemma_hyphenated_pass(buf: Seq<u8>, m: UuidMap, i: nat)
    requires
        i <= buf.len(),
    ensures
        ({
            let (b, matched) = hyphenated_pass(buf, m, i);
            &&& same_shape(b, buf)
            &&& 0 <= matched < 36
            &&& matched <= i
            &&& hyphenated_prefix(buf, i as int, matched)
            &&& forall|j: int| i - matched <= j < buf.len() ==> #[trigger] b[j] == buf[j]
            &&& forall|j: int| 0 <= j < buf.len() && #[trigger] b[j] != buf[j] ==> in_hyphenated(buf, j)
        }),
    decreases i,
{
    if i > 0 {
        lemma_hyphenated_pass(buf, m, (i - 1) as nat);
        let (b, matched) = hyphenated_pass(buf, m, (i - 1) as nat);
        let c = b[i - 1];
        assert(c == buf[i - 1]);
        let next = hyphenated_next(matched, c);
        assert(hyphenated_prefix(buf, i as int, next));
        if next == 36 {
            let at = i - 36;
            let window = b.subrange(at, at + 36);
            let after = rewrite_hyphenated(b, at, m);
            match m(hex_value(window)) {
                Some(v) => {
                    lemma_hyphenated_shape(v);
                    assert forall|j: int| 0 <= j < buf.len() implies is_hex_digit(
                        #[trigger] after[j],
                    ) == is_hex_digit(buf[j]) && (after[j] == DASH) == (buf[j] == DASH) by {
                        if at <= j < at + 36 {
                            assert(after[j] == hyphenated(v)[j - at]);
                            assert(fits_hyphenated(hyphenated(v)[j - at], j - at));
                            assert(fits_hyphenated(buf[j], j - at));
                        } else {
                            assert(after[j] == b[j]);
                        }
                    }
                    assert forall|j: int| 0 <= j < buf.len() && #[trigger] after[j]
                        != buf[j] implies in_hyphenated(buf, j) by {
                        if at <= j < at + 36 {
                            assert(hyphenated_prefix(buf, at + 36, 36));
                        } else {
                            assert(after[j] == b[j]);
                        }
                    }
                    assert forall|j: int| i <= j < buf.len() implies #[trigger] after[j]
                        == buf[j] by {
                        assert(after[j] == b[j]);
                    }
                },
                None => {},
            }
        }
    }
}

/// What holds of the second pass after `i` bytes: the buffer has kept its
/// shape; the bytes counted so far are hex digits and, with all behind
/// them, are as they were; and a byte that was changed stands within 32 hex
/// digits.
pub proof fn lemma_simple_pass(buf: Seq<u8>, m: UuidMap, i: nat)
    requires
        i <= buf.len(),
    ensures
        ({
            let (b, matched) = simple_pass(buf, m, i);
            &&& same_shape(b, buf)
            &&& 0 <= matched < 32
            &&& matched <= i
            &&& hex_run(buf, i as int, matched)
            &&& forall|j: int| i - matched <= j < buf.len() ==> #[trigger] b[j] == buf[j]
            &&& forall|j: int| 0 <= j < buf.len() && #[trigger] b[j] != buf[j] ==> in_simple(buf, j)
        }),
    decreases i,
{
    if i > 0 {
        lemma_simple_pass(buf, m, (i - 1) as nat);
        let (b, matched) = simple_pass(buf, m, (i - 1) as nat);
        let c = b[i - 1];
        assert(c == buf[i - 1]);
        if is_hex_digit(c) && matched + 1 == 32 {
            let at = i - 32;
            let window = b.subrange(at, at + 32);
            let after = rewrite_simple(b, at, m);
            assert(hex_run(buf, i as int, 32));
            match m(hex_value(window)) {
                Some(v) => {
                    lemma_simple_shape(v);
                    assert forall|j: int| 0 <= j < buf.len() implies is_hex_digit(
                        #[trigger] after[j],
                    ) == is_hex_digit(buf[j]) && (after[j] == DASH) == (buf[j] == DASH) by {
                        if at <= j < at + 32 {
                            assert(after[j] == simple(v)[j - at]);
                            assert(is_hex_digit(simple(v)[j - at]));
                            assert(is_hex_digit(buf[j]));
                        } else {
                            assert(after[j] == b[j]);
                        }
                    }
                    assert forall|j: int| 0 <= j < buf.len() && #[trigger] after[j]
                        != buf[j] implies in_simple(buf, j) by {
                        if at <= j < at + 32 {
                            assert(hex_run(buf, at + 32, 32));
                        } else {
                            assert(after[j] == b[j]);
                        }
                    }
                    assert forall|j: int| i <= j < buf.len() implies #[trigger] after[j]
                        == buf[j] by {
                        assert(after[j] == b[j]);
                    }
                },
                None => {},
            }
        }
    }
}

/// The scan keeps the length and the shape of the buffer, and a byte that it
/// changes stood within 36 bytes of the shape of a hyphenated identifier or
/// within 32 hex digits: all other bytes are as they were.
pub proof fn lemma_scan_changes_only_literals(buf: Seq<u8>, m: UuidMap)
    ensures
        scan_text(buf, m).len() == buf.len(),
        same_shape(scan_text(buf, m), buf),
        forall|j: int|
            0 <= j < buf.len() && #[trigger] scan_text(buf, m)[j] != buf[j] ==> in_hyphenated(
                buf,
                j,
            ) || in_simple(buf, j),
{
    let first = scan_hyphenated(buf, m);
    lemma_hyphenated_pass(buf, m, buf.len());
    lemma_simple_pass(first, m, first.len());
    let second = scan_simple(first, m);
    assert forall|j: int| 0 <= j < buf.len() && #[trigger] second[j] != buf[j] implies in_hyphenated(
        buf,
        j,
    ) || in_simple(buf, j) by {
        if first[j] == buf[j] {
            assert(second[j] != first[j]);
            let s = choose|s: int| s <= j < s + 32 && #[trigger] hex_run(first, s + 32, 32);
            assert(hex_run(buf, s + 32, 32)) by {
                assert forall|p: int| s <= p < s + 32 implies is_hex_digit(#[trigger] buf[p]) by {
                    assert(is_hex_digit(first[p]));
                }
            }
        }
    }
}

/// One more byte leaves the bytes that the automaton has matched of the
/// shape of the start of a hyphenated identifier.
pub proof fn lemma_hyphenated_step(buf: Seq<u8>, i: int, matched: int)
    requires
        0 <= i < buf.len(),
        0 <= matched < 36,
        hyphenated_prefix(buf, i, matched),
    ensures
        0 <= hyphenated_next(matched, buf[i]) <= 36,
        hyphenated_prefix(buf, i + 1, hyphenated_next(matched, buf[i])),
{
}

/// A hyphenated identifier that is written over bytes of its shape leaves
/// the buffer within what the first pass may change.
pub proof fn lemma_hyphenated_written(orig: Seq<u8>, before: Seq<u8>, at: int, v: u128)
    requires
        within_hyphenated(orig, before),
        0 <= at,
        hyphenated_prefix(before, at + 36, 36),
    ensures
        within_hyphenated(orig, overwrite(before, at, hyphenated(v))),
{
    let after = overwrite(before, at, hyphenated(v));
    lemma_hyphenated_shape(v);
    assert(hyphenated_prefix(orig, at + 36, 36)) by {
        assert forall|p: int| at <= p < at + 36 implies fits_hyphenated(
            #[trigger] orig[p],
            p - at,
        ) by {
            assert(fits_hyphenated(before[p], p - at));
        }
    }
    assert forall|j: int| 0 <= j < orig.len() implies is_hex_digit(#[trigger] after[j])
        == is_hex_digit(orig[j]) && (after[j] == DASH) == (orig[j] == DASH) by {
        if at <= j < at + 36 {
            assert(after[j] == hyphenated(v)[j - at]);
            assert(fits_hyphenated(hyphenated(v)[j - at], j - at));
            assert(fits_hyphenated(orig[j], j - at));
        } else {
            assert(after[j] == before[j]);
        }
    }
    assert forall|j: int| 0 <= j < orig.len() && #[trigger] after[j] != orig[j] implies in_hyphenated(
        orig,
        j,
    ) by {
        if !(at <= j < at + 36) {
            assert(after[j] == before[j]);
        }
    }
}

/// An identifier without hyphens that is written over 32 hex digits leaves
/// the buffer within what the second pass may change.
pub proof fn lemma_simple_written(orig: Seq<u8>, before: Seq<u8>, at: int, v: u128)
    requires
        within_simple(orig, before),
        0 <= at,
        hex_run(before, at + 32, 32),
    ensures
        within_simple(orig, overwrite(before, at, simple(v))),
{
    let after = overwrite(before, at, simple(v));
    lemma_simple_shape(v);
    assert(hex_run(orig, at + 32, 32)) by {
        assert forall|p: int| at <= p < at + 32 implies is_hex_digit(#[trigger] orig[p]) by {
            assert(is_hex_digit(before[p]));
        }
    }
    assert forall|j: int| 0 <= j < orig.len() implies is_hex_digit(#[trigger] after[j])
        == is_hex_digit(orig[j]) && (after[j] == DASH) == (orig[j] == DASH) by {
        if at <= j < at + 32 {
            assert(after[j] == simple(v)[j - at]);
            assert(is_hex_digit(simple(v)[j - at]));
            assert(is_hex_digit(orig[j]));
        } else {
            assert(after[j] == before[j]);
        }
    }
    assert forall|j: int| 0 <= j < orig.len() && #[trigger] after[j] != orig[j] implies in_simple(
        orig,
        j,
    ) by {
        if !(at <= j < at + 32) {
            assert(after[j] == before[j]);
        }
    }
}

/// What the first pass may change, and then the second, is what the scan
/// may change.
pub proof fn lemma_passes_within_literals(before: Seq<u8>, between: Seq<u8>, after: Seq<u8>)
    requires
        within_hyphenated(before, between),
        within_simple(between, after),
    ensures
        within_literals(before, after),
{
    assert forall|j: int| 0 <= j < before.len() implies is_hex_digit(#[trigger] after[j])
        == is_hex_digit(before[j]) && (after[j] == DASH) == (before[j] == DASH) by {
        assert(is_hex_digit(after[j]) == is_hex_digit(between[j]));
        assert(is_hex_digit(between[j]) == is_hex_digit(before[j]));
    }
    assert forall|j: int| 0 <= j < before.len() && #[trigger] after[j] != before[j] implies in_hyphenated(
        before,
        j,
    ) || in_simple(before, j) by {
        if between[j] == before[j] {
            assert(after[j] != between[j]);
            let s = choose|s: int| s <= j < s + 32 && #[trigger] hex_run(between, s + 32, 32);
            assert(hex_run(before, s + 32, 32)) by {
                assert forall|p: int| s <= p < s + 32 implies is_hex_digit(
                    #[trigger] before[p],
                ) by {
                    assert(is_hex_digit(between[p]));
                }
            }
        }
    }
}

/// Under a mapping that maps nothing the scan leaves the text as it is.
pub proof fn lemma_scan_text_nothing(buf: Seq<u8>, m: UuidMap)
    requires
        maps_nothing(m),
    ensures
        scan_text(buf, m) == buf,
{
    assert forall|k: int| hyphenated_match_ends(buf, k) implies #[trigger] rewrite_hyphenated(
        buf,
        k - 36,
        m,
    ) == buf by {
        assert(m(hex_value(buf.subrange(k - 36, k - 36 + 36))) is None);
    }
    lemma_hyphenated_settled(buf, m, buf.len());
    assert forall|k: int| simple_match_ends(buf, k) implies #[trigger] rewrite_simple(
        buf,
        k - 32,
        m,
    ) == buf by {
        assert(m(hex_value(buf.subrange(k - 32, k - 32 + 32))) is None);
    }
    lemma_simple_settled(buf, m, buf.len());
}

/// The number that the first `k` digits of `u` spell.
pub open spec fn leading_digits(u: u128, k: int) -> u128 {
    if k <= 0 {
        0
    } else {
        u >> ((4 * (32 - k)) as u128)
    }
}

/// One more digit of `u`, appended to its leading digits, gives the leading
/// digits with one more.
pub proof fn lemma_push_digit(u: u128, k: int)
    requires
        0 <= k < 32,
    ensures
        push_hex(leading_digits(u, k), uuid_digit(u, k)) == leading_digits(u, k + 1),
{
    let s = (4 * (31 - k)) as u128;
    let d = (u >> s) & 0xf;
    assert(d < 16) by (bit_vector)
        requires
            d == (u >> s) & 0xf,
    ;
    lemma_uuid_digit(u, k);
    assert(crate::text::hex_digit_value(hex_digit_char(d)) == d);
    if k == 0 {
        assert((0u128 << 4) | ((u >> 124) & 0xf) == u >> 124) by (bit_vector);
    } else {
        let t = (s + 4) as u128;
        assert(((u >> t) << 4) | ((u >> s) & 0xf) == u >> s) by (bit_vector)
            requires
                s <= 120,
                t == s + 4,
        ;
    }
}

/// The form without hyphens reads back as the identifier.
pub proof fn lemma_simple_round_trip(u: u128)
    ensures
        hex_value(simple(u)) == u,
{
    lemma_simple_prefix(u, 32);
    assert(simple(u).subrange(0, 32) == simple(u));
    assert(u >> 0 == u) by (bit_vector);
}

/// The first `k` bytes of the form without hyphens read as the first `k`
/// digits.
proof fn lemma_simple_prefix(u: u128, k: int)
    requires
        0 <= k <= 32,
    ensures
        hex_value(simple(u).subrange(0, k)) == leading_digits(u, k),
    decreases k,
{
    if k > 0 {
        lemma_simple_prefix(u, k - 1);
        let s = simple(u).subrange(0, k);
        assert(s.drop_last() == simple(u).subrange(0, k - 1));
        assert(s.last() == uuid_digit(u, k - 1));
        lemma_uuid_digit(u, k - 1);
        lemma_push_digit(u, k - 1);
    }
}

/// The hyphenated form reads back as the identifier.
pub proof fn lemma_hyphenated_round_trip(u: u128)
    ensures
        hex_value(hyphenated(u)) == u,
{
    lemma_hyphenated_prefix(u, 36);
    assert(hyphenated(u).subrange(0, 36) == hyphenated(u));
    assert(u >> 0 == u) by (bit_vector);
}

/// The first `j` bytes of the hyphenated form read as the digits among
/// them.
proof fn lemma_hyphenated_prefix(u: u128, j: int)
    requires
        0 <= j <= 36,
    ensures
        hex_value(hyphenated(u).subrange(0, j)) == leading_digits(
            u,
            j - crate::text::dashes_before(j),
        ),
    decreases j,
{
    if j > 0 {
        lemma_hyphenated_prefix(u, j - 1);
        let s = hyphenated(u).subrange(0, j);
        assert(s.drop_last() == hyphenated(u).subrange(0, j - 1));
        if is_dash_position(j - 1) {
            assert(s.last() == DASH);
        } else {
            let k = j - 1 - crate::text::dashes_before(j - 1);
            assert(s.last() == uuid_digit(u, k));
            lemma_uuid_digit(u, k);
            lemma_push_digit(u, k);
        }
    }
}

/// The number of bytes that the automaton of the first pass has matched
/// after `i` bytes. It depends on the shape of the buffer alone.
pub open spec fn hyphenated_state(buf: Seq<u8>, i: nat) -> int
    decreases i,
{
    if i == 0 {
        0
    } else {
        let next = hyphenated_next(hyphenated_state(buf, (i - 1) as nat), buf[i - 1]);
        if next == 36 {
            0
        } else {
            next
        }
    }
}

/// The first pass completes a match with byte `i - 1`: the match is the 36
/// bytes before `i`.
pub open spec fn hyphenated_match_ends(buf: Seq<u8>, i: int) -> bool {
    1 <= i <= buf.len() && hyphenated_next(hyphenated_state(buf, (i - 1) as nat), buf[i - 1]) == 36
}

/// The length of the run of digits that the second pass counts after `i`
/// bytes. It depends on the shape of the buffer alone.
pub open spec fn simple_state(buf: Seq<u8>, i: nat) -> int
    decreases i,
{
    if i == 0 {
        0
    } else if !is_hex_digit(buf[i - 1]) || simple_state(buf, (i - 1) as nat) + 1 == 32 {
        0
    } else {
        simple_state(buf, (i - 1) as nat) + 1
    }
}

/// The second pass completes a run with byte `i - 1`: the run is the 32
/// bytes before `i`.
pub open spec fn simple_match_ends(buf: Seq<u8>, i: int) -> bool {
    1 <= i <= buf.len() && is_hex_digit(buf[i - 1]) && simple_state(buf, (i - 1) as nat) + 1 == 32
}

/// Buffers of the same shape take the automaton of the first pass through
/// the same states.
pub proof fn lemma_hyphenated_state_shape(a: Seq<u8>, b: Seq<u8>, i: nat)
    requires
        same_shape(a, b),
        i <= a.len(),
    ensures
        hyphenated_state(a, i) == hyphenated_state(b, i),
        i > 0 ==> hyphenated_match_ends(a, i as int) == hyphenated_match_ends(b, i as int),
    decreases i,
{
    if i > 0 {
        lemma_hyphenated_state_shape(a, b, (i - 1) as nat);
        assert(is_hex_digit(a[i - 1]) == is_hex_digit(b[i - 1]));
        assert((a[i - 1] == DASH) == (b[i - 1] == DASH));
    }
}

/// Buffers of the same shape have the second pass count the same runs.
pub proof fn lemma_simple_state_shape(a: Seq<u8>, b: Seq<u8>, i: nat)
    requires
        same_shape(a, b),
        i <= a.len(),
    ensures
        simple_state(a, i) == simple_state(b, i),
        i > 0 ==> simple_match_ends(a, i as int) == simple_match_ends(b, i as int),
    decreases i,
{
    if i > 0 {
        lemma_simple_state_shape(a, b, (i - 1) as nat);
        assert(is_hex_digit(a[i - 1]) == is_hex_digit(b[i - 1]));
    }
}

/// The first pass is in the state of its automaton.
pub proof fn lemma_hyphenated_pass_state(buf: Seq<u8>, m: UuidMap, i: nat)
    requires
        i <= buf.len(),
    ensures
        hyphenated_pass(buf, m, i).1 == hyphenated_state(buf, i),
    decreases i,
{
    if i > 0 {
        lemma_hyphenated_pass_state(buf, m, (i - 1) as nat);
        lemma_hyphenated_pass(buf, m, (i - 1) as nat);
        assert(hyphenated_pass(buf, m, (i - 1) as nat).0[i - 1] == buf[i - 1]);
    }
}

/// The second pass counts as its automaton does.
pub proof fn lemma_simple_pass_state(buf: Seq<u8>, m: UuidMap, i: nat)
    requires
        i <= buf.len(),
    ensures
        simple_pass(buf, m, i).1 == simple_state(buf, i),
    decreases i,
{
    if i > 0 {
        lemma_simple_pass_state(buf, m, (i - 1) as nat);
        lemma_simple_pass(buf, m, (i - 1) as nat);
        assert(simple_pass(buf, m, (i - 1) as nat).0[i - 1] == buf[i - 1]);
    }
}

/// What the first pass has left behind the bytes that it has matched at `i`
/// stays as it is to the end of the pass.
pub proof fn lemma_hyphenated_final(buf: Seq<u8>, m: UuidMap, i: nat, k: nat)
    requires
        i <= k <= buf.len(),
    ensures
        k - hyphenated_pass(buf, m, k).1 >= i - hyphenated_pass(buf, m, i).1,
        forall|j: int|
            0 <= j < i - hyphenated_pass(buf, m, i).1 ==> #[trigger] hyphenated_pass(buf, m, k).0[j]
                == hyphenated_pass(buf, m, i).0[j],
    decreases k - i,
{
    if k > i {
        lemma_hyphenated_final(buf, m, i, (k - 1) as nat);
        lemma_hyphenated_pass(buf, m, (k - 1) as nat);
        lemma_hyphenated_pass(buf, m, k);
        let (b, matched) = hyphenated_pass(buf, m, (k - 1) as nat);
        let next = hyphenated_next(matched, b[k - 1]);
        if next == 36 {
            assert(matched == 35);
            let after = rewrite_hyphenated(b, k - 36, m);
            assert forall|j: int| 0 <= j < i - hyphenated_pass(buf, m, i).1 implies #[trigger] after[j]
                == hyphenated_pass(buf, m, i).0[j] by {
                assert(after[j] == b[j]);
            }
        }
    }
}

/// What the second pass has left behind the run that it counts at `i` stays
/// as it is to the end of the pass.
pub proof fn lemma_simple_final(buf: Seq<u8>, m: UuidMap, i: nat, k: nat)
    requires
        i <= k <= buf.len(),
    ensures
        k - simple_pass(buf, m, k).1 >= i - simple_pass(buf, m, i).1,
        forall|j: int|
            0 <= j < i - simple_pass(buf, m, i).1 ==> #[trigger] simple_pass(buf, m, k).0[j]
                == simple_pass(buf, m, i).0[j],
    decreases k - i,
{
    if k > i {
        lemma_simple_final(buf, m, i, (k - 1) as nat);
        lemma_simple_pass(buf, m, (k - 1) as nat);
        lemma_simple_pass(buf, m, k);
        let (b, matched) = simple_pass(buf, m, (k - 1) as nat);
        if is_hex_digit(b[k - 1]) && matched + 1 == 32 {
            let after = rewrite_simple(b, k - 32, m);
            assert forall|j: int| 0 <= j < i - simple_pass(buf, m, i).1 implies #[trigger] after[j]
                == simple_pass(buf, m, i).0[j] by {
                assert(after[j] == b[j]);
            }
        }
    }
}

/// A pass over a buffer in which every match rewrites to itself leaves the
/// buffer as it is.
pub proof fn lemma_hyphenated_settled(buf: Seq<u8>, m: UuidMap, i: nat)
    requires
        i <= buf.len(),
        forall|k: int|
            hyphenated_match_ends(buf, k) ==> #[trigger] rewrite_hyphenated(buf, k - 36, m) == buf,
    ensures
        hyphenated_pass(buf, m, i) == (buf, hyphenated_state(buf, i)),
    decreases i,
{
    if i > 0 {
        lemma_hyphenated_settled(buf, m, (i - 1) as nat);
        let next = hyphenated_next(hyphenated_state(buf, (i - 1) as nat), buf[i - 1]);
        if next == 36 {
            assert(hyphenated_match_ends(buf, i as int));
            assert(rewrite_hyphenated(buf, i - 36, m) == buf);
        }
    }
}

/// A pass over a buffer in which every run of 32 digits rewrites to itself
/// leaves the buffer as it is.
pub proof fn lemma_simple_settled(buf: Seq<u8>, m: UuidMap, i: nat)
    requires
        i <= buf.len(),
        forall|k: int| simple_match_ends(buf, k) ==> #[trigger] rewrite_simple(buf, k - 32, m) == buf,
    ensures
        simple_pass(buf, m, i) == (buf, simple_state(buf, i)),
    decreases i,
{
    if i > 0 {
        lemma_simple_settled(buf, m, (i - 1) as nat);
        if is_hex_digit(buf[i - 1]) && simple_state(buf, (i - 1) as nat) + 1 == 32 {
            assert(simple_match_ends(buf, i as int));
            assert(rewrite_simple(buf, i - 32, m) == buf);
        }
    }
}

/// What the mapping answers is not mapped further: an identifier that it
/// gives is left as it is.
pub open spec fn stable(m: UuidMap) -> bool {
    forall|u: u128, v: u128| #[trigger] m(u) == Some(v) ==> m(v) is None || #[trigger] m(v) == Some(v)
}

/// After the first pass, under a stable mapping, each of its matches
/// rewrites to itself.
pub proof fn lemma_hyphenated_match_settled(buf: Seq<u8>, m: UuidMap, i: int)
    requires
        stable(m),
        hyphenated_match_ends(buf, i),
    ensures
        i >= 36,
        rewrite_hyphenated(scan_hyphenated(buf, m), i - 36, m) == scan_hyphenated(buf, m),
        m(hex_value(scan_hyphenated(buf, m).subrange(i - 36, i))) matches Some(v) ==> scan_hyphenated(
            buf,
            m,
        ).subrange(i - 36, i) == hyphenated(v),
{
    let done = scan_hyphenated(buf, m);
    let at = i - 36;
    lemma_hyphenated_pass(buf, m, (i - 1) as nat);
    lemma_hyphenated_pass_state(buf, m, (i - 1) as nat);
    lemma_hyphenated_pass(buf, m, i as nat);
    lemma_hyphenated_pass(buf, m, buf.len());
    lemma_hyphenated_final(buf, m, i as nat, buf.len());
    let (b, matched) = hyphenated_pass(buf, m, (i - 1) as nat);
    assert(b[i - 1] == buf[i - 1]);
    assert(matched == 35);
    let stepped = hyphenated_pass(buf, m, i as nat).0;
    assert(stepped == rewrite_hyphenated(b, at, m));
    let window = done.subrange(at, i);
    assert(window =~= stepped.subrange(at, i)) by {
        assert forall|j: int| 0 <= j < 36 implies window[j] == stepped.subrange(at, i)[j] by {
            assert(done[at + j] == stepped[at + j]);
        }
    }
    let u = hex_value(b.subrange(at, at + 36));
    match m(u) {
        Some(v) => {
            lemma_hyphenated_shape(v);
            assert(stepped.subrange(at, i) =~= hyphenated(v));
            lemma_hyphenated_round_trip(v);
            assert(hex_value(window) == v);
            assert(m(v) is None || m(v) == Some(v));
            if m(v) is Some {
                assert(overwrite(done, at, hyphenated(v)) =~= done);
            }
        },
        None => {
            assert(stepped == b);
            assert(window == b.subrange(at, at + 36));
        },
    }
}

/// After the second pass, under a stable mapping, each of its runs of 32
/// digits rewrites to itself.
pub proof fn lemma_simple_match_settled(buf: Seq<u8>, m: UuidMap, i: int)
    requires
        stable(m),
        simple_match_ends(buf, i),
    ensures
        i >= 32,
        rewrite_simple(scan_simple(buf, m), i - 32, m) == scan_simple(buf, m),
        m(hex_value(scan_simple(buf, m).subrange(i - 32, i))) matches Some(v) ==> scan_simple(
            buf,
            m,
        ).subrange(i - 32, i) == simple(v),
{
    let done = scan_simple(buf, m);
    let at = i - 32;
    lemma_simple_pass(buf, m, (i - 1) as nat);
    lemma_simple_pass_state(buf, m, (i - 1) as nat);
    lemma_simple_pass(buf, m, i as nat);
    lemma_simple_pass(buf, m, buf.len());
    lemma_simple_final(buf, m, i as nat, buf.len());
    let (b, matched) = simple_pass(buf, m, (i - 1) as nat);
    assert(b[i - 1] == buf[i - 1]);
    let stepped = simple_pass(buf, m, i as nat).0;
    assert(stepped == rewrite_simple(b, at, m));
    let window = done.subrange(at, i);
    assert(window =~= stepped.subrange(at, i)) by {
        assert forall|j: int| 0 <= j < 32 implies window[j] == stepped.subrange(at, i)[j] by {
            assert(done[at + j] == stepped[at + j]);
        }
    }
    let u = hex_value(b.subrange(at, at + 32));
    match m(u) {
        Some(v) => {
            lemma_simple_shape(v);
            assert(stepped.subrange(at, i) =~= simple(v));
            lemma_simple_round_trip(v);
            assert(hex_value(window) == v);
            assert(m(v) is None || m(v) == Some(v));
            if m(v) is Some {
                assert(overwrite(done, at, simple(v)) =~= done);
            }
        },
        None => {
            assert(stepped == b);
            assert(window == b.subrange(at, at + 32));
        },
    }
}

/// Under a stable mapping, the first pass done twice is the first pass done
/// once.
pub proof fn lemma_hyphenated_idempotent(buf: Seq<u8>, m: UuidMap)
    requires
        stable(m),
    ensures
        scan_hyphenated(scan_hyphenated(buf, m), m) == scan_hyphenated(buf, m),
{
    let done = scan_hyphenated(buf, m);
    lemma_hyphenated_pass(buf, m, buf.len());
    assert forall|k: int| hyphenated_match_ends(done, k) implies #[trigger] rewrite_hyphenated(
        done,
        k - 36,
        m,
    ) == done by {
        lemma_hyphenated_state_shape(done, buf, k as nat);
        lemma_hyphenated_match_settled(buf, m, k);
    }
    lemma_hyphenated_settled(done, m, done.len());
}

/// Under a stable mapping, the second pass done twice is the second pass
/// done once.
pub proof fn lemma_simple_idempotent(buf: Seq<u8>, m: UuidMap)
    requires
        stable(m),
    ensures
        scan_simple(scan_simple(buf, m), m) == scan_simple(buf, m),
{
    let done = scan_simple(buf, m);
    lemma_simple_pass(buf, m, buf.len());
    assert forall|k: int| simple_match_ends(done, k) implies #[trigger] rewrite_simple(
        done,
        k - 32,
        m,
    ) == done by {
        lemma_simple_state_shape(done, buf, k as nat);
        lemma_simple_match_settled(buf, m, k);
    }
    lemma_simple_settled(done, m, done.len());
}

/// The match `window` is settled under the mapping: the identifier that it
/// spells is not mapped, or it is mapped to the identifier that the match
/// spells, so that rewriting the match changes nothing.
pub open spec fn match_settled(window: Seq<u8>, m: UuidMap) -> bool {
    match m(hex_value(window)) {
        None => true,
        Some(v) => window == if window.len() == 36 {
            hyphenated(v)
        } else {
            simple(v)
        },
    }
}

/// Every match that either pass completes in `buf` is settled under the
/// mapping.
pub open spec fn settled(buf: Seq<u8>, m: UuidMap) -> bool {
    &&& forall|k: int| #[trigger]
        hyphenated_match_ends(buf, k) ==> match_settled(buf.subrange(k - 36, k), m)
    &&& forall|k: int| #[trigger] simple_match_ends(buf, k) ==> match_settled(buf.subrange(k - 32, k), m)
}

/// The scan leaves a buffer as it is in which every match is settled.
pub proof fn lemma_settled_scan(buf: Seq<u8>, m: UuidMap)
    requires
        settled(buf, m),
    ensures
        scan_text(buf, m) == buf,
{
    assert forall|k: int| hyphenated_match_ends(buf, k) implies #[trigger] rewrite_hyphenated(
        buf,
        k - 36,
        m,
    ) == buf by {
        lemma_hyphenated_match_shape(buf, k);
        let window = buf.subrange(k - 36, k - 36 + 36);
        assert(match_settled(buf.subrange(k - 36, k), m));
        if m(hex_value(window)) is Some {
            assert(overwrite(buf, k - 36, window) =~= buf);
        }
    }
    lemma_hyphenated_settled(buf, m, buf.len());
    assert forall|k: int| simple_match_ends(buf, k) implies #[trigger] rewrite_simple(
        buf,
        k - 32,
        m,
    ) == buf by {
        lemma_simple_match_shape(buf, k);
        let window = buf.subrange(k - 32, k - 32 + 32);
        assert(match_settled(buf.subrange(k - 32, k), m));
        if m(hex_value(window)) is Some {
            assert(overwrite(buf, k - 32, window) =~= buf);
        }
    }
    lemma_simple_settled(buf, m, buf.len());
}

/// The digit at `p`, among the first `j` bytes of a window of the shape of
/// a hyphenated identifier, stands in the number that these bytes spell at
/// its place, counted from the last digit among them.
proof fn lemma_spelled_digit(w: Seq<u8>, j: int, p: int)
    requires
        0 <= p < j <= w.len(),
        j <= 36,
        forall|q: int| 0 <= q < w.len() ==> fits_hyphenated(#[trigger] w[q], q),
        !is_dash_position(p),
    ensures
        (hex_value(w.subrange(0, j)) >> ((4 * ((j - crate::text::dashes_before(j)) - 1 - (p
            - crate::text::dashes_before(p)))) as u128)) & 0xf == crate::text::hex_digit_value(
            w[p],
        ),
    decreases j,
{
    let s = w.subrange(0, j);
    assert(s.drop_last() == w.subrange(0, j - 1));
    assert(s.last() == w[j - 1]);
    assert(fits_hyphenated(w[j - 1], j - 1));
    assert(fits_hyphenated(w[p], p));
    let x = hex_value(w.subrange(0, j - 1));
    if is_dash_position(j - 1) {
        lemma_spelled_digit(w, j - 1, p);
    } else {
        let d = crate::text::hex_digit_value(w[j - 1]);
        assert(d < 16);
        if p == j - 1 {
            assert(((x << 4) | d) & 0xf == d) by (bit_vector)
                requires
                    d < 16,
            ;
            assert((((x << 4) | d) >> 0) & 0xf == ((x << 4) | d) & 0xf) by (bit_vector);
        } else {
            lemma_spelled_digit(w, j - 1, p);
            let t = (4 * (((j - 1) - crate::text::dashes_before(j - 1)) - 1 - (p
                - crate::text::dashes_before(p)))) as u128;
            let t4 = (t + 4) as u128;
            assert((((x << 4) | d) >> t4) & 0xf == (x >> t) & 0xf) by (bit_vector)
                requires
                    t <= 120,
                    t4 == t + 4,
                    d < 16,
            ;
        }
    }
}

/// A window of the shape of a hyphenated identifier is the hyphenated form
/// of the identifier that it spells.
pub proof fn lemma_hyphenated_spelled(w: Seq<u8>)
    requires
        w.len() == 36,
        forall|q: int| 0 <= q < 36 ==> fits_hyphenated(#[trigger] w[q], q),
    ensures
        hyphenated(hex_value(w)) == w,
{
    let u = hex_value(w);
    assert(w.subrange(0, 36) == w);
    assert forall|p: int| 0 <= p < 36 implies hyphenated(u)[p] == w[p] by {
        assert(fits_hyphenated(w[p], p));
        if !is_dash_position(p) {
            lemma_spelled_digit(w, 36, p);
            let k = p - crate::text::dashes_before(p);
            assert(4 * (31 - k) == 4 * ((36 - crate::text::dashes_before(36)) - 1 - k));
            assert(hex_digit_char(crate::text::hex_digit_value(w[p])) == w[p]);
        }
    }
    assert(hyphenated(u) =~= w);
}

/// The digit at `p`, among the first `j` of a run of hex digits, stands in
/// the number that these digits spell at its place, counted from the last of
/// them.
proof fn lemma_spelled_simple_digit(w: Seq<u8>, j: int, p: int)
    requires
        0 <= p < j <= w.len(),
        j <= 32,
        forall|q: int| 0 <= q < w.len() ==> is_hex_digit(#[trigger] w[q]),
    ensures
        (hex_value(w.subrange(0, j)) >> ((4 * (j - 1 - p)) as u128)) & 0xf
            == crate::text::hex_digit_value(w[p]),
    decreases j,
{
    let s = w.subrange(0, j);
    assert(s.drop_last() == w.subrange(0, j - 1));
    assert(s.last() == w[j - 1]);
    assert(is_hex_digit(w[j - 1]));
    assert(is_hex_digit(w[p]));
    let x = hex_value(w.subrange(0, j - 1));
    let d = crate::text::hex_digit_value(w[j - 1]);
    assert(d < 16);
    if p == j - 1 {
        assert(((x << 4) | d) & 0xf == d) by (bit_vector)
            requires
                d < 16,
        ;
        assert((((x << 4) | d) >> 0) & 0xf == ((x << 4) | d) & 0xf) by (bit_vector);
    } else {
        lemma_spelled_simple_digit(w, j - 1, p);
        let t = (4 * ((j - 1) - 1 - p)) as u128;
        let t4 = (t + 4) as u128;
        assert((((x << 4) | d) >> t4) & 0xf == (x >> t) & 0xf) by (bit_vector)
            requires
                t <= 120,
                t4 == t + 4,
                d < 16,
        ;
    }
}

/// A run of 32 hex digits is the form without hyphens of the identifier
/// that it spells.
pub proof fn lemma_simple_spelled(w: Seq<u8>)
    requires
        w.len() == 32,
        forall|q: int| 0 <= q < 32 ==> is_hex_digit(#[trigger] w[q]),
    ensures
        simple(hex_value(w)) == w,
{
    let u = hex_value(w);
    assert(w.subrange(0, 32) == w);
    assert forall|p: int| 0 <= p < 32 implies simple(u)[p] == w[p] by {
        assert(is_hex_digit(w[p]));
        lemma_spelled_simple_digit(w, 32, p);
        assert(hex_digit_char(crate::text::hex_digit_value(w[p])) == w[p]);
    }
    assert(simple(u) =~= w);
}

/// A match that the first pass completes has the shape of a hyphenated
/// identifier.
pub proof fn lemma_hyphenated_match_shape(buf: Seq<u8>, k: int)
    requires
        hyphenated_match_ends(buf, k),
    ensures
        36 <= k <= buf.len(),
        hyphenated_prefix(buf, k, 36),
{
    let m: UuidMap = |u: u128| None::<u128>;
    lemma_hyphenated_pass(buf, m, (k - 1) as nat);
    lemma_hyphenated_pass_state(buf, m, (k - 1) as nat);
    lemma_hyphenated_step(buf, k - 1, hyphenated_state(buf, (k - 1) as nat));
}

/// A run that the second pass completes is made of 32 hex digits.
pub proof fn lemma_simple_match_shape(buf: Seq<u8>, k: int)
    requires
        simple_match_ends(buf, k),
    ensures
        32 <= k <= buf.len(),
        hex_run(buf, k, 32),
{
    let m: UuidMap = |u: u128| None::<u128>;
    lemma_simple_pass(buf, m, (k - 1) as nat);
    lemma_simple_pass_state(buf, m, (k - 1) as nat);
}

/// Every match in `buf` spells an identifier that the mapping does not map,
/// or that it maps to itself.
pub open spec fn unmapped_or_self(buf: Seq<u8>, m: UuidMap) -> bool {
    &&& forall|k: int| #[trigger]
        hyphenated_match_ends(buf, k) ==> maps_to_self(m, hex_value(buf.subrange(k - 36, k)))
    &&& forall|k: int| #[trigger]
        simple_match_ends(buf, k) ==> maps_to_self(m, hex_value(buf.subrange(k - 32, k)))
}

/// The mapping does not map `u`, or maps it to itself.
pub open spec fn maps_to_self(m: UuidMap, u: u128) -> bool {
    m(u) is None || m(u) == Some(u)
}

/// A buffer in which every match spells an identifier that is not mapped or
/// mapped to itself is settled, so that the scan leaves it as it is.
pub proof fn lemma_unmapped_or_self_settled(buf: Seq<u8>, m: UuidMap)
    requires
        unmapped_or_self(buf, m),
    ensures
        settled(buf, m),
        scan_text(buf, m) == buf,
{
    assert forall|k: int| #[trigger] hyphenated_match_ends(buf, k) implies match_settled(
        buf.subrange(k - 36, k),
        m,
    ) by {
        lemma_hyphenated_match_shape(buf, k);
        let w = buf.subrange(k - 36, k);
        assert(maps_to_self(m, hex_value(w)));
        assert forall|q: int| 0 <= q < 36 implies fits_hyphenated(#[trigger] w[q], q) by {
            assert(fits_hyphenated(buf[k - 36 + q], q));
        }
        lemma_hyphenated_spelled(w);
    }
    assert forall|k: int| #[trigger] simple_match_ends(buf, k) implies match_settled(
        buf.subrange(k - 32, k),
        m,
    ) by {
        lemma_simple_match_shape(buf, k);
        let w = buf.subrange(k - 32, k);
        assert(maps_to_self(m, hex_value(w)));
        assert forall|q: int| 0 <= q < 32 implies is_hex_digit(#[trigger] w[q]) by {
            assert(is_hex_digit(buf[k - 32 + q]));
        }
        lemma_simple_spelled(w);
    }
    lemma_settled_scan(buf, m);
}

/// Scanning twice is scanning once, where every match in the scanned buffer
/// spells an identifier that the mapping does not map or maps to itself.
pub proof fn lemma_scan_idempotent(buf: Seq<u8>, m: UuidMap)
    requires
        unmapped_or_self(scan_text(buf, m), m),
    ensures
        scan_text(scan_text(buf, m), m) == scan_text(buf, m),
{
    lemma_unmapped_or_self_settled(scan_text(buf, m), m);
}

/// The second pass leaves the matches of the first pass as the first pass
/// wrote them: no run of 32 digits that it rewrites reaches into one of
/// them.
pub open spec fn passes_apart(buf: Seq<u8>, m: UuidMap) -> bool {
    forall|i: int| #[trigger]
        hyphenated_match_ends(buf, i) ==> scan_text(buf, m).subrange(i - 36, i) == scan_hyphenated(
            buf,
            m,
        ).subrange(i - 36, i)
}

/// Under a stable mapping, where the two passes keep apart, every match in
/// the scanned buffer is settled, so that scanning twice is scanning once.
pub proof fn lemma_stable_scan_settled(buf: Seq<u8>, m: UuidMap)
    requires
        stable(m),
        passes_apart(buf, m),
    ensures
        settled(scan_text(buf, m), m),
        scan_text(scan_text(buf, m), m) == scan_text(buf, m),
{
    let first = scan_hyphenated(buf, m);
    let done = scan_text(buf, m);
    lemma_hyphenated_pass(buf, m, buf.len());
    lemma_simple_pass(first, m, first.len());
    assert(same_shape(done, buf)) by {
        assert forall|j: int| 0 <= j < done.len() implies is_hex_digit(#[trigger] done[j])
            == is_hex_digit(buf[j]) && (done[j] == DASH) == (buf[j] == DASH) by {
            assert(is_hex_digit(done[j]) == is_hex_digit(first[j]));
            assert(is_hex_digit(first[j]) == is_hex_digit(buf[j]));
        }
    }
    assert forall|k: int| #[trigger] hyphenated_match_ends(done, k) implies match_settled(
        done.subrange(k - 36, k),
        m,
    ) by {
        lemma_hyphenated_state_shape(done, buf, k as nat);
        lemma_hyphenated_match_settled(buf, m, k);
        assert(done.subrange(k - 36, k) == first.subrange(k - 36, k));
    }
    assert forall|k: int| #[trigger] simple_match_ends(done, k) implies match_settled(
        done.subrange(k - 32, k),
        m,
    ) by {
        lemma_simple_state_shape(done, first, k as nat);
        lemma_simple_match_settled(first, m, k);
    }
    lemma_settled_scan(done, m);
}

} // verus!
