//! Segment (SSTable) codec: an immutable, key-sorted key-value block as
//! one byte file.
//!
//! The format is binary and little-endian: a 32-bit entry count, then for
//! each entry a 32-bit byte length and the UTF-8 bytes of the key,
//! followed by the same for the value, with entries in ascending key
//! order. A segment is modelled as the byte content of its file; the
//! caller writes the bytes out durably and reads them back.
//!
//! A missing segment file is an empty segment, not a fault. A declared
//! entry count that disagrees with the actual byte stream — a truncated
//! file, a length prefix running past the end, or key or value bytes that
//! are not valid UTF-8 — is the data-corruption error. Trailing bytes
//! after the declared entries are ignored. Looking a key up materializes
//! the whole segment first: there is no block index or filter in this
//! design.

use vstd::bytes::{spec_u32_from_le_bytes, spec_u32_to_le_bytes, u32_from_le_bytes, u32_to_le_bytes};
use vstd::prelude::*;
use vstd::utf8::{decode_utf8, encode_utf8, valid_utf8};

use crate::kvmap::{entry_fits, entry_views, sorted_strict, spec_entries_lookup, SpecEntry};

verus! {

/// A UTF-8 encoding never takes more than four bytes per character.
pub proof fn lemma_encode_utf8_len(s: Seq<char>)
    ensures
        encode_utf8(s).len() <= 4 * s.len(),
    decreases s.len(),
{
    if s.len() != 0 {
        lemma_encode_utf8_len(s.drop_first());
    }
}

/// The bytes of one encoded entry: length-prefixed key bytes, then
/// length-prefixed value bytes.
pub open spec fn spec_encode_entry(e: SpecEntry) -> Seq<u8> {
    spec_u32_to_le_bytes(encode_utf8(e.0).len() as u32) + encode_utf8(e.0) + spec_u32_to_le_bytes(
        encode_utf8(e.1).len() as u32,
    ) + encode_utf8(e.1)
}

/// The bytes of the encoded entries, in order.
pub open spec fn spec_encode_entries(entries: Seq<SpecEntry>) -> Seq<u8>
    decreases entries.len(),
{
    if entries.len() == 0 {
        Seq::empty()
    } else {
        spec_encode_entry(entries.first()) + spec_encode_entries(entries.drop_first())
    }
}

/// The bytes of a whole segment: the entry count, then the entries.
pub open spec fn spec_encode_segment(entries: Seq<SpecEntry>) -> Seq<u8> {
    spec_u32_to_le_bytes(entries.len() as u32) + spec_encode_entries(entries)
}

/// Encoding one more entry appends its bytes.
pub proof fn lemma_encode_entries_push(entries: Seq<SpecEntry>, e: SpecEntry)
    ensures
        spec_encode_entries(entries.push(e)) == spec_encode_entries(entries) + spec_encode_entry(e),
    decreases entries.len(),
{
    if entries.len() == 0 {
        assert(entries.push(e).first() == e);
        assert(entries.push(e).drop_first() =~= Seq::<SpecEntry>::empty());
        assert(spec_encode_entries(Seq::<SpecEntry>::empty()) =~= Seq::<u8>::empty());
        assert(spec_encode_entries(entries.push(e)) =~= spec_encode_entry(e));
        assert(spec_encode_entries(entries) + spec_encode_entry(e) =~= spec_encode_entry(e));
    } else {
        assert(entries.push(e).drop_first() =~= entries.drop_first().push(e));
        lemma_encode_entries_push(entries.drop_first(), e);
        assert(spec_encode_entries(entries.push(e)) =~= spec_encode_entries(entries)
            + spec_encode_entry(e));
    }
}

/// One length-prefixed block taken off the front of `bytes`: the block's
/// content and the rest, or nothing when the bytes run out too early.
pub open spec fn spec_take_block(bytes: Seq<u8>) -> Option<(Seq<u8>, Seq<u8>)> {
    if bytes.len() < 4 {
        None
    } else {
        let len = spec_u32_from_le_bytes(bytes.take(4)) as int;
        if bytes.len() - 4 < len {
            None
        } else {
            Some((bytes.subrange(4, 4 + len), bytes.skip(4 + len)))
        }
    }
}

/// `count` entries decoded from the front of `bytes`, or nothing when a
/// block runs past the end or its content is not valid UTF-8. Bytes after
/// the last declared entry are ignored.
pub open spec fn spec_decode_entries(bytes: Seq<u8>, count: nat) -> Option<Seq<SpecEntry>>
    decreases count,
{
    if count == 0 {
        Some(Seq::empty())
    } else {
        match spec_take_block(bytes) {
            None => None,
            Some((kb, rest1)) => match spec_take_block(rest1) {
                None => None,
                Some((vb, rest2)) => {
                    if valid_utf8(kb) && valid_utf8(vb) {
                        match spec_decode_entries(rest2, (count - 1) as nat) {
                            None => None,
                            Some(tail) => Some(seq![(decode_utf8(kb), decode_utf8(vb))] + tail),
                        }
                    } else {
                        None
                    }
                },
            },
        }
    }
}

/// The entries a segment's bytes declare and hold, or nothing when the
/// bytes are corrupt.
pub open spec fn spec_decode_segment(bytes: Seq<u8>) -> Option<Seq<SpecEntry>> {
    if bytes.len() < 4 {
        None
    } else {
        spec_decode_entries(bytes.skip(4), spec_u32_from_le_bytes(bytes.take(4)) as nat)
    }
}

/// The data-corruption fault: a segment's declared entry count disagrees
/// with its actual byte stream, or stored text is not valid UTF-8.
/// A missing segment file is not an error; see [`SSTable::read`].
#[derive(Clone, Copy, Debug, PartialEq, Eq, Structural)]
pub enum SegmentError {
    Corrupt,
}

/// Relies on String::from_utf8: it succeeds exactly on the byte sequences
/// that are valid UTF-8, and yields the string those bytes spell.
#[verifier::external_body]
fn string_from_utf8(bytes: Vec<u8>) -> (r: Option<String>)
    ensures
        r is Some <==> valid_utf8(bytes@),
        r matches Some(s) ==> s@ == decode_utf8(bytes@),
{
    String::from_utf8(bytes).ok()
}

/// The segment codec. A segment is encoded to and decoded from the byte
/// content of one file; the functions never touch storage themselves.
pub struct SSTable;

impl SSTable {
    /// Encodes a sorted sequence of entries as one segment.
    pub fn write(entries: &Vec<(String, String)>) -> (bytes: Vec<u8>)
        requires
            entries@.len() <= 0xFFFF_FFFF,
            sorted_strict(entry_views(entries@)),
            forall|i: int|
                0 <= i < entries@.len() ==> entry_fits(#[trigger] entry_views(entries@)[i]),
        ensures
            bytes@ == spec_encode_segment(entry_views(entries@)),
    {
        let ghost views = entry_views(entries@);
        let mut bytes: Vec<u8> = Vec::new();
        let mut count_bytes = u32_to_le_bytes(entries.len() as u32);
        bytes.append(&mut count_bytes);
        let n = entries.len();
        let mut i: usize = 0;
        proof {
            assert(views.take(0) =~= Seq::<SpecEntry>::empty());
            assert(bytes@ =~= spec_u32_to_le_bytes(n as u32) + spec_encode_entries(views.take(0)));
        }
        while i < n
            invariant
                n == entries@.len() <= 0xFFFF_FFFF,
                views == entry_views(entries@),
                forall|k: int| 0 <= k < views.len() ==> entry_fits(#[trigger] views[k]),
                0 <= i <= n,
                bytes@ == spec_u32_to_le_bytes(n as u32) + spec_encode_entries(
                    views.take(i as int),
                ),
            decreases n - i,
        {
            proof {
                assert(entry_fits(views[i as int]));
                lemma_encode_utf8_len(views[i as int].0);
                lemma_encode_utf8_len(views[i as int].1);
            }
            let mut kb = entries[i].0.as_str().as_bytes_vec();
            let mut klen_bytes = u32_to_le_bytes(kb.len() as u32);
            let mut vb = entries[i].1.as_str().as_bytes_vec();
            let mut vlen_bytes = u32_to_le_bytes(vb.len() as u32);
            proof {
                lemma_encode_entries_push(views.take(i as int), views[i as int]);
                assert(views.take(i + 1 as int) =~= views.take(i as int).push(views[i as int]));
            }
            bytes.append(&mut klen_bytes);
            bytes.append(&mut kb);
            bytes.append(&mut vlen_bytes);
            bytes.append(&mut vb);
            proof {
                assert(bytes@ =~= spec_u32_to_le_bytes(n as u32) + spec_encode_entries(
                    views.take(i + 1 as int),
                ));
            }
            i += 1;
        }
        proof {
            assert(views.take(n as int) =~= views);
        }
        bytes
    }

    /// Decodes a segment from the byte content of its file, or from
    /// nothing when the file does not exist: an engine that has never
    /// flushed has no segment files, and that is an empty segment, not a
    /// fault.
    pub fn read(file: Option<&Vec<u8>>) -> (r: Result<Vec<(String, String)>, SegmentError>)
        ensures
            match file {
                None => r matches Ok(entries) && entries@.len() == 0,
                Some(bytes) => match r {
                    Ok(entries) => spec_decode_segment(bytes@) == Some(entry_views(entries@)),
                    Err(e) => spec_decode_segment(bytes@) is None && e == SegmentError::Corrupt,
                },
            },
    {
        if file.is_none() {
            return Ok(Vec::new());
        }
        let bytes = file.unwrap();
        if bytes.len() < 4 {
            return Err(SegmentError::Corrupt);
        }
        let count = u32_from_le_bytes(vstd::slice::slice_subrange(bytes.as_slice(), 0, 4));
        proof {
            assert(bytes@.subrange(0, 4) =~= bytes@.take(4));
        }
        let mut out: Vec<(String, String)> = Vec::new();
        let mut pos: usize = 4;
        let mut k: u32 = 0;
        let ghost whole = spec_decode_entries(bytes@.skip(4), count as nat);
        proof {
            assert(entry_views(out@) =~= Seq::<SpecEntry>::empty());
        }
        #[verifier::loop_isolation(false)]
        while k < count
            invariant
                4 <= pos <= bytes@.len(),
                0 <= k <= count,
                whole == spec_decode_entries(bytes@.skip(4), count as nat),
                whole == match spec_decode_entries(bytes@.skip(pos as int), (count - k) as nat) {
                    Some(tail) => Some(entry_views(out@) + tail),
                    None => None::<Seq<SpecEntry>>,
                },
            decreases count - k,
        {
            let ghost suffix = bytes@.skip(pos as int);
            let ghost remaining = (count - k) as nat;
            if bytes.len() - pos < 4 {
                return Err(SegmentError::Corrupt);
            }
            let klen32 = u32_from_le_bytes(
                vstd::slice::slice_subrange(bytes.as_slice(), pos, pos + 4),
            );
            proof {
                assert(bytes@.subrange(pos as int, pos + 4 as int) =~= suffix.take(4));
            }
            let klen = klen32 as usize;
            if bytes.len() - pos - 4 < klen {
                return Err(SegmentError::Corrupt);
            }
            let kb = vstd::slice::slice_to_vec(
                vstd::slice::slice_subrange(bytes.as_slice(), pos + 4, pos + 4 + klen),
            );
            proof {
                assert(kb@ =~= suffix.subrange(4, 4 + klen as int));
                assert(bytes@.skip(pos + 4 + klen as int) =~= suffix.skip(4 + klen as int));
            }
            let pos2 = pos + 4 + klen;
            let ghost rest1 = suffix.skip(4 + klen as int);
            let key = match string_from_utf8(kb) {
                Some(key) => key,
                None => {
                    return Err(SegmentError::Corrupt);
                },
            };
            if bytes.len() - pos2 < 4 {
                return Err(SegmentError::Corrupt);
            }
            let vlen32 = u32_from_le_bytes(
                vstd::slice::slice_subrange(bytes.as_slice(), pos2, pos2 + 4),
            );
            proof {
                assert(bytes@.subrange(pos2 as int, pos2 + 4 as int) =~= rest1.take(4));
            }
            let vlen = vlen32 as usize;
            if bytes.len() - pos2 - 4 < vlen {
                return Err(SegmentError::Corrupt);
            }
            let vb = vstd::slice::slice_to_vec(
                vstd::slice::slice_subrange(bytes.as_slice(), pos2 + 4, pos2 + 4 + vlen),
            );
            proof {
                assert(vb@ =~= rest1.subrange(4, 4 + vlen as int));
                assert(bytes@.skip(pos2 + 4 + vlen as int) =~= rest1.skip(4 + vlen as int));
            }
            let pos3 = pos2 + 4 + vlen;
            let ghost rest2 = rest1.skip(4 + vlen as int);
            let value = match string_from_utf8(vb) {
                Some(value) => value,
                None => {
                    return Err(SegmentError::Corrupt);
                },
            };
            proof {
                let e = (key@, value@);
                let tail2 = spec_decode_entries(rest2, (remaining - 1) as nat);
                assert(spec_decode_entries(suffix, remaining) == match tail2 {
                    Some(tail) => Some(seq![e] + tail),
                    None => None::<Seq<SpecEntry>>,
                });
                assert(entry_views(out@.push((key, value))) =~= entry_views(out@).push(e));
                if tail2 is Some {
                    assert(entry_views(out@) + (seq![e] + tail2.unwrap()) =~= entry_views(
                        out@,
                    ).push(e) + tail2.unwrap());
                }
            }
            out.push((key, value));
            pos = pos3;
            k = k + 1;
        }
        proof {
            assert(spec_decode_entries(bytes@.skip(pos as int), 0) == Some(Seq::<
                SpecEntry,
            >::empty()));
            assert(entry_views(out@) + Seq::<SpecEntry>::empty() =~= entry_views(out@));
        }
        Ok(out)
    }

    /// Looks `key` up in the segment `file` holds: the whole segment is
    /// decoded, then searched. A missing file holds nothing; corrupt
    /// bytes are the decoding's error.
    pub fn get(file: Option<&Vec<u8>>, key: &str) -> (r: Result<Option<String>, SegmentError>)
        ensures
            match file {
                None => r matches Ok(v) && v is None,
                Some(bytes) => match spec_decode_segment(bytes@) {
                    Some(entries) => r matches Ok(v) && spec_value_found(
                        v,
                        spec_entries_lookup(entries, key@),
                    ),
                    None => r matches Err(e) && e == SegmentError::Corrupt,
                },
            },
    {
        let entries = match Self::read(file) {
            Ok(entries) => entries,
            Err(e) => {
                return Err(e);
            },
        };
        let ghost views = entry_views(entries@);
        let mut i = entries.len();
        proof {
            assert(views.take(i as int) =~= views);
        }
        #[verifier::loop_isolation(false)]
        while i > 0
            invariant
                0 <= i <= entries@.len(),
                views == entry_views(entries@),
                spec_entries_lookup(views, key@) == spec_entries_lookup(views.take(i as int), key@),
            decreases i,
        {
            i -= 1;
            proof {
                assert(views.take(i + 1 as int).last() == views[i as int]);
                assert(views.take(i + 1 as int).drop_last() =~= views.take(i as int));
            }
            if crate::text::str_eq(entries[i].0.as_str(), key) {
                return Ok(Some(entries[i].1.clone()));
            }
        }
        proof {
            assert(views.take(0) =~= Seq::<SpecEntry>::empty());
        }
        Ok(None)
    }
}

/// Whether an optional owned value spells an optional text.
pub open spec fn spec_value_found(v: Option<String>, t: Option<Seq<char>>) -> bool {
    match (v, t) {
        (Some(v), Some(t)) => v@ == t,
        (None, None) => true,
        _ => false,
    }
}

/// Decoding inverts encoding: a segment written from sorted entries that
/// fit the format reads back as exactly those entries.
pub proof fn lemma_entries_round_trip(entries: Seq<SpecEntry>)
    requires
        forall|i: int| 0 <= i < entries.len() ==> entry_fits(#[trigger] entries[i]),
    ensures
        spec_decode_entries(spec_encode_entries(entries), entries.len() as nat) == Some(entries),
    decreases entries.len(),
{
    vstd::bytes::lemma_auto_spec_u32_to_from_le_bytes();
    if entries.len() == 0 {
        assert(Seq::<SpecEntry>::empty() =~= entries);
    } else {
        broadcast use vstd::utf8::encode_utf8_valid_utf8, vstd::utf8::encode_utf8_decode_utf8;

        let e = entries.first();
        let rest = entries.drop_first();
        let kb = encode_utf8(e.0);
        let vb = encode_utf8(e.1);
        lemma_encode_utf8_len(e.0);
        lemma_encode_utf8_len(e.1);
        let s = spec_encode_entries(entries);
        assert(s == spec_encode_entry(e) + spec_encode_entries(rest));
        assert(s.take(4) =~= spec_u32_to_le_bytes(kb.len() as u32));
        assert(spec_u32_from_le_bytes(s.take(4)) == kb.len());
        assert(s.subrange(4, 4 + kb.len() as int) =~= kb);
        let rest1 = s.skip(4 + kb.len() as int);
        assert(rest1 =~= spec_u32_to_le_bytes(vb.len() as u32) + vb + spec_encode_entries(rest));
        assert(spec_take_block(s) == Some((kb, rest1)));
        assert(rest1.take(4) =~= spec_u32_to_le_bytes(vb.len() as u32));
        assert(spec_u32_from_le_bytes(rest1.take(4)) == vb.len());
        assert(rest1.subrange(4, 4 + vb.len() as int) =~= vb);
        let rest2 = rest1.skip(4 + vb.len() as int);
        assert(rest2 =~= spec_encode_entries(rest));
        assert(spec_take_block(rest1) == Some((vb, rest2)));
        lemma_entries_round_trip(rest);
        assert(seq![(decode_utf8(kb), decode_utf8(vb))] + rest =~= entries);
    }
}

/// The round trip for a whole segment, count prefix included.
pub proof fn lemma_segment_round_trip(entries: Seq<SpecEntry>)
    requires
        entries.len() <= 0xFFFF_FFFF,
        forall|i: int| 0 <= i < entries.len() ==> entry_fits(#[trigger] entries[i]),
    ensures
        spec_decode_segment(spec_encode_segment(entries)) == Some(entries),
{
    vstd::bytes::lemma_auto_spec_u32_to_from_le_bytes();
    let s = spec_encode_segment(entries);
    assert(s.take(4) =~= spec_u32_to_le_bytes(entries.len() as u32));
    assert(spec_u32_from_le_bytes(s.take(4)) == entries.len());
    assert(s.skip(4) =~= spec_encode_entries(entries));
    lemma_entries_round_trip(entries);
}

} // verus!
