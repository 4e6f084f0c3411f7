//! Track/channel selectors: which (track, channel) pairs feed a roll, and
//! with what semitone offset. A selector is written `track,channel`,
//! optionally followed by `+offset` or `-offset`.

use vstd::prelude::*;
use vstd::string::StringSliceAdditionalSpecFns;

verus! {

/// One selected (track, channel) source and the offset to apply to its
/// pitches.
#[derive(Debug, Clone, Copy, PartialEq, Eq, Structural)]
pub struct ChannelSelector {
    pub midi_track: usize,
    pub midi_channel: u8,
    pub offset: i8,
}

/// Why a selector string was rejected.
#[derive(Debug, Clone, Copy, PartialEq, Eq, Structural)]
pub enum SelectorError {
    /// No `,` between track and channel.
    MissingComma,
    /// The track part is not an unsigned number in range.
    BadTrack,
    /// The channel part is not an unsigned number in range.
    BadChannel,
    /// The offset part is not a signed number in range.
    BadOffset,
}

/// The offset of the first selector naming (track, channel), if any: events
/// from unselected sources never reach the resolver.
pub open spec fn spec_select_offset(
    selectors: Seq<ChannelSelector>,
    track: usize,
    channel: u8,
) -> Option<i8>
    decreases selectors.len(),
{
    if selectors.len() == 0 {
        None
    } else if selectors[0].midi_track == track && selectors[0].midi_channel == channel {
        Some(selectors[0].offset)
    } else {
        spec_select_offset(selectors.skip(1), track, channel)
    }
}

pub fn select_offset(selectors: &Vec<ChannelSelector>, track: usize, channel: u8) -> (r: Option<
    i8,
>)
    ensures
        r == spec_select_offset(selectors@, track, channel),
{
    let mut i: usize = 0;
    proof {
        assert(selectors@.skip(0) =~= selectors@);
    }
    while i < selectors.len()
        invariant
            i <= selectors@.len(),
            spec_select_offset(selectors@, track, channel) == spec_select_offset(
                selectors@.skip(i as int),
                track,
                channel,
            ),
        decreases selectors@.len() - i,
    {
        let sel = &selectors[i];
        proof {
            assert(selectors@.skip(i as int)[0] == selectors@[i as int]);
            assert(selectors@.skip(i as int).skip(1) =~= selectors@.skip(i + 1));
        }
        if sel.midi_track == track && sel.midi_channel == channel {
            return Some(sel.offset);
        }
        i = i + 1;
    }
    None
}

pub open spec fn is_ascii_digit(c: u8) -> bool {
    48 <= c <= 57
}

pub open spec fn all_ascii_digits(s: Seq<u8>) -> bool {
    forall|i: int| 0 <= i < s.len() ==> is_ascii_digit(#[trigger] s[i])
}

/// The number a digit string denotes, most significant digit first.
pub open spec fn digits_val(s: Seq<u8>) -> nat
    decreases s.len(),
{
    if s.len() == 0 {
        0
    } else {
        digits_val(s.drop_last()) * 10 + (s.last() - 48) as nat
    }
}

/// An unsigned number as `usize::from_str` and friends read it: an optional
/// leading `+`, then at least one digit.
pub open spec fn unsigned_digits(s: Seq<u8>) -> Seq<u8> {
    if s.len() > 0 && s[0] == 43 {
        s.skip(1)
    } else {
        s
    }
}

pub open spec fn valid_unsigned(s: Seq<u8>) -> bool {
    unsigned_digits(s).len() > 0 && all_ascii_digits(unsigned_digits(s))
}

pub open spec fn unsigned_val(s: Seq<u8>) -> nat {
    digits_val(unsigned_digits(s))
}

/// A signed number as `i8::from_str` reads it: an optional `+` or `-`, then
/// at least one digit.
pub open spec fn signed_negative(s: Seq<u8>) -> bool {
    s.len() > 0 && s[0] == 45
}

pub open spec fn signed_digits(s: Seq<u8>) -> Seq<u8> {
    if s.len() > 0 && (s[0] == 43 || s[0] == 45) {
        s.skip(1)
    } else {
        s
    }
}

pub open spec fn valid_signed(s: Seq<u8>) -> bool {
    signed_digits(s).len() > 0 && all_ascii_digits(signed_digits(s))
}

pub open spec fn signed_val(s: Seq<u8>) -> int {
    if signed_negative(s) {
        -(digits_val(signed_digits(s)) as int)
    } else {
        digits_val(signed_digits(s)) as int
    }
}

/// Whether `s` holds a comma, and the position of the first one.
pub open spec fn has_comma(s: Seq<u8>) -> bool {
    exists|k: int| 0 <= k < s.len() && s[k] == 44
}

pub open spec fn comma_pos(s: Seq<u8>) -> int {
    choose|k: int|
        0 <= k < s.len() && s[k] == 44 && (forall|j: int| 0 <= j < k ==> s[j] != 44)
}

pub open spec fn is_sign(c: u8) -> bool {
    c == 43 || c == 45
}

pub open spec fn has_sign(s: Seq<u8>) -> bool {
    exists|k: int| 0 <= k < s.len() && is_sign(#[trigger] s[k])
}

pub open spec fn sign_pos(s: Seq<u8>) -> int {
    choose|k: int|
        0 <= k < s.len() && is_sign(s[k]) && (forall|j: int| 0 <= j < k ==> !is_sign(#[trigger] s[j]))
}

/// What `parse_track_selector` returns, as a function of the byte string:
/// the part before the first comma is the track, the part after it the
/// channel, optionally followed by a signed offset starting at the first
/// `+` or `-`.
pub open spec fn spec_parse_track_selector(s: Seq<u8>) -> Result<ChannelSelector, SelectorError> {
    let tpart = if has_comma(s) {
        s.take(comma_pos(s))
    } else {
        s
    };
    if !valid_unsigned(tpart) || unsigned_val(tpart) > usize::MAX {
        Err(SelectorError::BadTrack)
    } else if !has_comma(s) {
        Err(SelectorError::MissingComma)
    } else {
        let rest = s.skip(comma_pos(s) + 1);
        let cpart = if has_sign(rest) {
            rest.take(sign_pos(rest))
        } else {
            rest
        };
        if !valid_unsigned(cpart) || unsigned_val(cpart) > 255 {
            Err(SelectorError::BadChannel)
        } else if has_sign(rest) {
            let opart = rest.skip(sign_pos(rest));
            if !valid_signed(opart) || signed_val(opart) > 127 || signed_val(opart) < -128 {
                Err(SelectorError::BadOffset)
            } else {
                Ok(
                    ChannelSelector {
                        midi_track: unsigned_val(tpart) as usize,
                        midi_channel: unsigned_val(cpart) as u8,
                        offset: signed_val(opart) as i8,
                    },
                )
            }
        } else {
            Ok(
                ChannelSelector {
                    midi_track: unsigned_val(tpart) as usize,
                    midi_channel: unsigned_val(cpart) as u8,
                    offset: 0,
                },
            )
        }
    }
}

/// Extending a digit string can only grow its value.
proof fn lemma_digits_val_prefix(s: Seq<u8>, j: int)
    requires
        0 <= j <= s.len(),
    ensures
        digits_val(s) >= digits_val(s.take(j)),
    decreases s.len() - j,
{
    if j == s.len() {
        assert(s.take(j) =~= s);
    } else {
        lemma_digits_val_prefix(s, j + 1);
        assert(s.take(j + 1).drop_last() =~= s.take(j));
        assert(digits_val(s.take(j + 1)) >= digits_val(s.take(j)));
    }
}

/// Reads the digits of `bytes[lo..hi]` as an unsigned number, rejecting
/// anything over `max` and anything that is not all digits.
fn parse_digits(bytes: &[u8], lo: usize, hi: usize, max: u64) -> (r: Option<u64>)
    requires
        lo <= hi <= bytes@.len(),
    ensures
        ({
            let part = bytes@.subrange(lo as int, hi as int);
            match r {
                Some(v) => part.len() > 0 && all_ascii_digits(part) && digits_val(part) <= max
                    && v == digits_val(part),
                None => part.len() == 0 || !all_ascii_digits(part) || digits_val(part) > max,
            }
        }),
{
    let ghost part = bytes@.subrange(lo as int, hi as int);
    if lo == hi {
        return None;
    }
    let mut acc: u64 = 0;
    let mut i: usize = lo;
    while i < hi
        invariant
            lo <= i <= hi <= bytes@.len(),
            hi > lo,
            part == bytes@.subrange(lo as int, hi as int),
            max <= u64::MAX,
            acc <= max,
            all_ascii_digits(part.take(i - lo)),
            acc == digits_val(part.take(i - lo)),
        decreases hi - i,
    {
        let c = bytes[i];
        proof {
            assert(part[i - lo] == bytes@[i as int]);
        }
        if c < 48 || c > 57 {
            return None;
        }
        let wide: u128 = acc as u128 * 10 + (c - 48) as u128;
        proof {
            assert(part.take(i - lo + 1).drop_last() =~= part.take(i - lo));
            assert(digits_val(part.take(i - lo + 1)) == acc * 10 + (c - 48) as nat);
        }
        if wide > max as u128 {
            proof {
                lemma_digits_val_prefix(part, i - lo + 1);
            }
            return None;
        }
        acc = wide as u64;
        i = i + 1;
    }
    proof {
        assert(part.take(hi - lo) =~= part);
    }
    Some(acc)
}

/// Position of the first comma in `bytes`: `comma_pos` made executable.
fn find_comma(bytes: &[u8]) -> (r: Option<usize>)
    ensures
        has_comma(bytes@) <==> r is Some,
        r matches Some(k) ==> k < bytes@.len() && k == comma_pos(bytes@),
{
    let mut i: usize = 0;
    while i < bytes.len()
        invariant
            i <= bytes@.len(),
            forall|j: int| 0 <= j < i ==> bytes@[j] != 44,
        decreases bytes@.len() - i,
    {
        if bytes[i] == 44 {
            proof {
                assert(0 <= i < bytes@.len() && bytes@[i as int] == 44 && (forall|j: int|
                    0 <= j < i ==> bytes@[j] != 44));
                let k0 = comma_pos(bytes@);
                assert(0 <= k0 < bytes@.len() && bytes@[k0] == 44 && (forall|j: int|
                    0 <= j < k0 ==> bytes@[j] != 44));
                assert(k0 == i);
            }
            return Some(i);
        }
        i = i + 1;
    }
    None
}

/// Position of the first `+` or `-` in `bytes[lo..]`: `sign_pos` of the
/// tail, made executable.
fn find_sign(bytes: &[u8], lo: usize) -> (r: Option<usize>)
    requires
        lo <= bytes@.len(),
    ensures
        has_sign(bytes@.skip(lo as int)) <==> r is Some,
        r matches Some(k) ==> lo <= k < bytes@.len() && is_sign(bytes@[k as int]) && k - lo
            == sign_pos(bytes@.skip(lo as int)),
{
    let ghost rest = bytes@.skip(lo as int);
    let mut i: usize = lo;
    while i < bytes.len()
        invariant
            lo <= i <= bytes@.len(),
            rest == bytes@.skip(lo as int),
            forall|j: int| lo <= j < i ==> !is_sign(#[trigger] bytes@[j]),
        decreases bytes@.len() - i,
    {
        let c = bytes[i];
        if c == 43 || c == 45 {
            proof {
                assert(forall|j: int| 0 <= j < rest.len() ==> rest[j] == bytes@[j + lo]);
                assert(0 <= i - lo < rest.len() && is_sign(rest[i - lo]) && (forall|j: int|
                    0 <= j < i - lo ==> !is_sign(#[trigger] rest[j])));
                let k0 = sign_pos(rest);
                assert(0 <= k0 < rest.len() && is_sign(rest[k0]) && (forall|j: int|
                    0 <= j < k0 ==> !is_sign(#[trigger] rest[j])));
                assert(k0 == i - lo);
            }
            return Some(i);
        }
        i = i + 1;
    }
    proof {
        assert(forall|j: int| 0 <= j < rest.len() ==> rest[j] == bytes@[j + lo] && !is_sign(
            #[trigger] rest[j],
        ));
    }
    None
}

/// Reads `bytes[lo..hi]` as an unsigned number with an optional leading `+`,
/// rejecting values over `max`.
fn parse_unsigned(bytes: &[u8], lo: usize, hi: usize, max: u64) -> (r: Option<u64>)
    requires
        lo <= hi <= bytes@.len(),
    ensures
        ({
            let part = bytes@.subrange(lo as int, hi as int);
            match r {
                Some(v) => valid_unsigned(part) && unsigned_val(part) <= max && v == unsigned_val(
                    part,
                ),
                None => !valid_unsigned(part) || unsigned_val(part) > max,
            }
        }),
{
    let ghost part = bytes@.subrange(lo as int, hi as int);
    let start: usize = if lo < hi && bytes[lo] == 43 {
        lo + 1
    } else {
        lo
    };
    proof {
        assert(unsigned_digits(part) =~= bytes@.subrange(start as int, hi as int));
    }
    parse_digits(bytes, start, hi, max)
}

/// Parses one selector argument, `track,channel` with an optional trailing
/// `+offset` or `-offset`, exactly as [`spec_parse_track_selector`] reads
/// its bytes.
#[verifier::rlimit(100)]
#[verifier::spinoff_prover]
pub fn parse_track_selector(arg: &str) -> (r: Result<ChannelSelector, SelectorError>)
    ensures
        r == spec_parse_track_selector(arg.spec_bytes()),
{
    let bytes = arg.as_bytes();
    let n = bytes.len();
    let ghost s = bytes@;
    let comma = find_comma(bytes);
    let tend: usize = match comma {
        Some(k) => k,
        None => n,
    };
    proof {
        let tpart = if has_comma(s) { s.take(comma_pos(s)) } else { s };
        assert(tpart =~= s.subrange(0, tend as int));
    }
    let track = match parse_digits_as_usize(bytes, 0, tend) {
        Some(t) => t,
        None => {
            return Err(SelectorError::BadTrack);
        },
    };
    let cstart: usize = match comma {
        Some(k) => k + 1,
        None => {
            return Err(SelectorError::MissingComma);
        },
    };
    let ghost rest = s.skip(cstart as int);
    let sign = find_sign(bytes, cstart);
    let cend: usize = match sign {
        Some(k) => k,
        None => n,
    };
    proof {
        let cpart = if has_sign(rest) { rest.take(sign_pos(rest)) } else { rest };
        assert(cpart =~= s.subrange(cstart as int, cend as int));
    }
    let channel = match parse_unsigned(bytes, cstart, cend, 255) {
        Some(c) => c as u8,
        None => {
            return Err(SelectorError::BadChannel);
        },
    };
    match sign {
        None => Ok(ChannelSelector { midi_track: track, midi_channel: channel, offset: 0 }),
        Some(spos) => {
            let ghost opart = rest.skip(sign_pos(rest));
            let negative = bytes[spos] == 45;
            proof {
                assert(opart =~= s.skip(spos as int));
                assert(signed_digits(opart) =~= s.subrange(spos + 1, s.len() as int));
                assert(signed_negative(opart) == negative);
            }
            let bound: u64 = if negative {
                128
            } else {
                127
            };
            match parse_digits(bytes, spos + 1, bytes.len(), bound) {
                None => Err(SelectorError::BadOffset),
                Some(mag) => {
                    let offset: i8 = if negative {
                        if mag == 128 {
                            i8::MIN
                        } else {
                            -(mag as i8)
                        }
                    } else {
                        mag as i8
                    };
                    Ok(ChannelSelector { midi_track: track, midi_channel: channel, offset })
                },
            }
        },
    }
}

/// Reads `bytes[lo..hi]` as a track number with an optional leading `+`.
fn parse_digits_as_usize(bytes: &[u8], lo: usize, hi: usize) -> (r: Option<usize>)
    requires
        lo <= hi <= bytes@.len(),
    ensures
        ({
            let part = bytes@.subrange(lo as int, hi as int);
            match r {
                Some(v) => valid_unsigned(part) && unsigned_val(part) <= usize::MAX && v
                    == unsigned_val(part),
                None => !valid_unsigned(part) || unsigned_val(part) > usize::MAX,
            }
        }),
{
    match parse_unsigned(bytes, lo, hi, usize::MAX as u64) {
        Some(v) => Some(v as usize),
        None => None,
    }
}

} // verus!
