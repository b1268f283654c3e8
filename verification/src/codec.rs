//! Versioned wire format for directory deltas.
//!
//! A serialized delta is the seven magic bytes `BOBDIFF`, one version byte,
//! and a zstd frame whose plaintext encodes the entry sequence: a tag byte
//! per entry, length-prefixed path and payload bytes, and one byte for the
//! optional flags record.

use vstd::prelude::*;

use crate::bytes::be64;
use crate::bytes::from_be64;
use crate::bytes::lemma_be64_inverse;
use crate::bytes::push_be64;
use crate::bytes::read_be64;
use crate::diff::{DataState, DiffEntryModel, DirDiff, DirDiffEntry, FileFlags, StateModel,
    check_diff_wf, diff_wf, flags_view};

verus! {

/// Current version byte of the wire format.
pub const MAGIC_VER: u8 = 2;

/// zstd compression level used for the entry payload.
pub const ZSTD_LEVEL: i32 = 9;

pub const TAG_FILE: u8 = 70;

pub const TAG_DIR: u8 = 68;

pub const TAG_IDENT: u8 = 73;

pub const TAG_RAW: u8 = 82;

pub const TAG_PATCH: u8 = 80;

pub const FLAG_NONE: u8 = 78;

pub const FLAG_PLAIN: u8 = 79;

pub const FLAG_EXEC: u8 = 88;

/// The seven magic bytes `BOBDIFF`.
pub open spec fn magic_seq() -> Seq<u8> {
    seq![66u8, 79u8, 66u8, 68u8, 73u8, 70u8, 70u8]
}

/// Why deserialization rejected its input.
#[derive(Debug, PartialEq, Eq, Structural, Clone, Copy)]
pub enum DiffError {
    /// The first seven bytes are not the magic prefix.
    InvalidMagic,
    /// The version byte is missing or not the current version.
    VersionMismatch,
    /// The zstd payload would not decompress.
    Decompression,
    /// The decompressed entry sequence is malformed.
    Malformed,
}

/// The zstd frame that compressing a byte string at the fixed level yields;
/// a function of the plaintext alone.
pub uninterp spec fn zstd_frame_of(plain: Seq<u8>) -> Seq<u8>;

/// What decompressing a byte string yields, if anything; a function of the
/// input alone.
pub uninterp spec fn zstd_decode_of(data: Seq<u8>) -> Option<Seq<u8>>;

/// Relies on zstd::encode_all at a fixed level: the frame is a function of
/// the plaintext, and zstd compression is lossless, so decoding the frame
/// gives the plaintext back.
#[verifier::external_body]
fn compress(plain: &Vec<u8>) -> (r: Vec<u8>)
    ensures
        r@ == zstd_frame_of(plain@),
        zstd_decode_of(r@) == Some(plain@),
{
    zstd::encode_all(plain.as_slice(), ZSTD_LEVEL).expect("zstd compression failed")
}

/// Relies on zstd::decode_all: deterministic decompression of the input
/// bytes, failing exactly when they are not a well-formed frame.
#[verifier::external_body]
fn decompress(data: &[u8]) -> (r: Option<Vec<u8>>)
    ensures
        match r {
            Some(v) => zstd_decode_of(data@) == Some(v@),
            None => zstd_decode_of(data@) is None,
        },
{
    match zstd::decode_all(data) {
        Ok(v) => Some(v),
        Err(_) => None,
    }
}

/// Encoding of the optional flags record.
pub open spec fn enc_flags(f: Option<bool>) -> Seq<u8> {
    match f {
        Option::None => seq![FLAG_NONE],
        Option::Some(true) => seq![FLAG_EXEC],
        Option::Some(false) => seq![FLAG_PLAIN],
    }
}

/// Encoding of a file state.
pub open spec fn enc_state(st: StateModel) -> Seq<u8> {
    match st {
        StateModel::Identical => seq![TAG_IDENT],
        StateModel::Raw(d) => seq![TAG_RAW] + be64(d.len() as u64) + d,
        StateModel::Patch(p) => seq![TAG_PATCH] + be64(p.len() as u64) + p,
    }
}

/// Encoding of one entry.
pub open spec fn enc_entry(e: DiffEntryModel) -> Seq<u8> {
    match e {
        DiffEntryModel::Dir { path } => seq![TAG_DIR] + be64(path.len() as u64) + path,
        DiffEntryModel::File { path, state, flags } => seq![TAG_FILE] + be64(path.len() as u64)
            + path + enc_state(state) + enc_flags(flags),
    }
}

/// Encoding of an entry sequence, first to last.
pub open spec fn enc_entries(s: Seq<DiffEntryModel>) -> Seq<u8>
    decreases s.len(),
{
    if s.len() == 0 {
        Seq::<u8>::empty()
    } else {
        enc_entry(s.first()) + enc_entries(s.drop_first())
    }
}

/// Appending an entry appends its encoding.
pub proof fn lemma_enc_entries_push(s: Seq<DiffEntryModel>, x: DiffEntryModel)
    ensures
        enc_entries(s.push(x)) == enc_entries(s) + enc_entry(x),
    decreases s.len(),
{
    if s.len() == 0 {
        assert(s.push(x).drop_first() =~= Seq::<DiffEntryModel>::empty());
        assert(s.push(x).first() == x);
        assert(enc_entries(s.push(x)) == enc_entry(x) + enc_entries(
            Seq::<DiffEntryModel>::empty(),
        ));
        assert(enc_entry(x) + Seq::<u8>::empty() =~= enc_entry(x));
        assert(Seq::<u8>::empty() + enc_entry(x) =~= enc_entry(x));
    } else {
        assert(s.push(x).drop_first() =~= s.drop_first().push(x));
        lemma_enc_entries_push(s.drop_first(), x);
        assert(enc_entries(s.push(x)) =~= enc_entries(s) + enc_entry(x));
    }
}

/// Append the encoding of the flags record.
fn write_flags(out: &mut Vec<u8>, flags: &Option<FileFlags>)
    ensures
        final(out)@ == old(out)@ + enc_flags(
            match flags {
                Option::None => Option::None,
                Option::Some(f) => Option::Some(f.executable),
            },
        ),
{
    match flags {
        Option::None => out.push(FLAG_NONE),
        Option::Some(f) => {
            if f.executable {
                out.push(FLAG_EXEC);
            } else {
                out.push(FLAG_PLAIN);
            }
        },
    }
    proof {
        assert(out@ =~= old(out)@ + enc_flags(
            match flags {
                Option::None => Option::None,
                Option::Some(f) => Option::Some(f.executable),
            },
        ));
    }
}

/// Append all bytes of a slice.
pub fn append_bytes(out: &mut Vec<u8>, data: &[u8])
    ensures
        final(out)@ == old(out)@ + data@,
{
    let mut j: usize = 0;
    while j < data.len()
        invariant
            0 <= j <= data@.len(),
            out@ == old(out)@ + data@.take(j as int),
        decreases data@.len() - j,
    {
        out.push(data[j]);
        proof {
            assert(old(out)@ + data@.take(j + 1) =~= (old(out)@ + data@.take(j as int)).push(
                data@[j as int],
            ));
        }
        j += 1;
    }
    proof {
        assert(data@.take(data@.len() as int) =~= data@);
    }
}

/// Append the encoding of a file state.
fn write_state(out: &mut Vec<u8>, state: &DataState)
    ensures
        final(out)@ == old(out)@ + enc_state(state@),
{
    match state {
        DataState::Identical => {
            out.push(TAG_IDENT);
            proof {
                assert(out@ =~= old(out)@ + enc_state(state@));
            }
        },
        DataState::Raw(d) => {
            out.push(TAG_RAW);
            push_be64(out, d.len() as u64);
            append_bytes(out, d.as_slice());
            proof {
                assert(out@ =~= old(out)@ + enc_state(state@));
            }
        },
        DataState::Patch(p) => {
            out.push(TAG_PATCH);
            push_be64(out, p.len() as u64);
            append_bytes(out, p.as_slice());
            proof {
                assert(out@ =~= old(out)@ + enc_state(state@));
            }
        },
    }
}

/// Append the encoding of one entry.
fn write_entry(out: &mut Vec<u8>, e: &DirDiffEntry)
    ensures
        final(out)@ == old(out)@ + enc_entry(e@),
{
    match e {
        DirDiffEntry::Dir(path) => {
            out.push(TAG_DIR);
            push_be64(out, path.len() as u64);
            append_bytes(out, path.as_slice());
            proof {
                assert(out@ =~= old(out)@ + enc_entry(e@));
            }
        },
        DirDiffEntry::File { path, state, flags } => {
            out.push(TAG_FILE);
            push_be64(out, path.len() as u64);
            append_bytes(out, path.as_slice());
            write_state(out, state);
            write_flags(out, flags);
            proof {
                assert(out@ =~= old(out)@ + enc_entry(e@));
            }
        },
    }
}

impl DirDiff {
    /// Serialize this delta: magic, version byte, zstd frame of the encoded
    /// entry sequence.
    pub fn ser(&self) -> (r: Vec<u8>)
        ensures
            r@ == magic_seq() + seq![MAGIC_VER] + zstd_frame_of(enc_entries(self@)),
            zstd_decode_of(zstd_frame_of(enc_entries(self@))) == Some(enc_entries(self@)),
    {
        let mut plain: Vec<u8> = Vec::new();
        let mut i: usize = 0;
        proof {
            assert(plain@ =~= enc_entries(self@.take(0)));
        }
        while i < self.entries.len()
            invariant
                0 <= i <= self.entries@.len(),
                self@.len() == self.entries@.len(),
                plain@ == enc_entries(self@.take(i as int)),
            decreases self.entries@.len() - i,
        {
            write_entry(&mut plain, &self.entries[i]);
            proof {
                assert(self@[i as int] == self.entries@[i as int]@);
                assert(self@.take(i + 1) =~= self@.take(i as int).push(self@[i as int]));
                lemma_enc_entries_push(self@.take(i as int), self@[i as int]);
            }
            i += 1;
        }
        proof {
            assert(self@.take(self@.len() as int) =~= self@);
        }
        let frame = compress(&plain);
        let mut out: Vec<u8> = Vec::new();
        out.push(66);
        out.push(79);
        out.push(66);
        out.push(68);
        out.push(73);
        out.push(70);
        out.push(70);
        out.push(MAGIC_VER);
        proof {
            assert(out@ =~= magic_seq() + seq![MAGIC_VER]);
        }
        append_bytes(&mut out, frame.as_slice());
        out
    }
}

/// Parse a flags record from the front of `b`: the record and the bytes
/// consumed, or nothing if the input is malformed.
pub open spec fn parse_flags_spec(b: Seq<u8>) -> Option<(Option<bool>, int)> {
    if b.len() < 1 {
        Option::None
    } else if b[0] == FLAG_NONE {
        Option::Some((Option::None, 1))
    } else if b[0] == FLAG_EXEC {
        Option::Some((Option::Some(true), 1))
    } else if b[0] == FLAG_PLAIN {
        Option::Some((Option::Some(false), 1))
    } else {
        Option::None
    }
}

/// Parse a file state from the front of `b`.
pub open spec fn parse_state_spec(b: Seq<u8>) -> Option<(StateModel, int)> {
    if b.len() < 1 {
        Option::None
    } else if b[0] == TAG_IDENT {
        Option::Some((StateModel::Identical, 1))
    } else if b[0] == TAG_RAW || b[0] == TAG_PATCH {
        if b.len() < 9 {
            Option::None
        } else {
            let dlen = from_be64(b.subrange(1, 9)) as int;
            if 9 + dlen > b.len() {
                Option::None
            } else {
                let data = b.subrange(9, 9 + dlen);
                if b[0] == TAG_RAW {
                    Option::Some((StateModel::Raw(data), 9 + dlen))
                } else {
                    Option::Some((StateModel::Patch(data), 9 + dlen))
                }
            }
        }
    } else {
        Option::None
    }
}

/// Parse one entry from the front of `b`.
pub open spec fn parse_entry_spec(b: Seq<u8>) -> Option<(DiffEntryModel, int)> {
    if b.len() < 9 {
        Option::None
    } else {
        let plen = from_be64(b.subrange(1, 9)) as int;
        if 9 + plen > b.len() {
            Option::None
        } else {
            let path = b.subrange(9, 9 + plen);
            if b[0] == TAG_DIR {
                Option::Some((DiffEntryModel::Dir { path }, 9 + plen))
            } else if b[0] == TAG_FILE {
                match parse_state_spec(b.skip(9 + plen)) {
                    Option::None => Option::None,
                    Option::Some((state, k1)) => match parse_flags_spec(b.skip(9 + plen + k1)) {
                        Option::None => Option::None,
                        Option::Some((flags, k2)) => Option::Some(
                            (DiffEntryModel::File { path, state, flags }, 9 + plen + k1 + k2),
                        ),
                    },
                }
            } else {
                Option::None
            }
        }
    }
}

/// Parse the whole entry sequence.
pub open spec fn parse_entries_spec(b: Seq<u8>) -> Option<Seq<DiffEntryModel>>
    decreases b.len(),
{
    if b.len() == 0 {
        Option::Some(Seq::<DiffEntryModel>::empty())
    } else {
        match parse_entry_spec(b) {
            Option::None => Option::None,
            Option::Some((e, k)) => if k <= 0 || k > b.len() {
                Option::None
            } else {
                match parse_entries_spec(b.skip(k)) {
                    Option::None => Option::None,
                    Option::Some(rest) => Option::Some(seq![e] + rest),
                }
            },
        }
    }
}

/// What deserialization yields on any input: the parsed well-formed entry
/// sequence, or the reason for rejection.
pub open spec fn deser_spec(b: Seq<u8>) -> Result<Seq<DiffEntryModel>, DiffError> {
    if b.len() < 7 || b.subrange(0, 7) != magic_seq() {
        Result::Err(DiffError::InvalidMagic)
    } else if b.len() == 7 || b[7] != MAGIC_VER {
        Result::Err(DiffError::VersionMismatch)
    } else {
        match zstd_decode_of(b.skip(8)) {
            Option::None => Result::Err(DiffError::Decompression),
            Option::Some(plain) => match parse_entries_spec(plain) {
                Option::None => Result::Err(DiffError::Malformed),
                Option::Some(es) => if diff_wf(es) {
                    Result::Ok(es)
                } else {
                    Result::Err(DiffError::Malformed)
                },
            },
        }
    }
}

/// Copy `data[start..end]` into a fresh vector.
pub fn copy_range(data: &[u8], start: usize, end: usize) -> (r: Vec<u8>)
    requires
        start <= end <= data@.len(),
    ensures
        r@ == data@.subrange(start as int, end as int),
{
    let mut r: Vec<u8> = Vec::new();
    let mut j: usize = start;
    while j < end
        invariant
            start <= j <= end <= data@.len(),
            r@ == data@.subrange(start as int, j as int),
        decreases end - j,
    {
        r.push(data[j]);
        proof {
            assert(data@.subrange(start as int, j + 1) =~= data@.subrange(
                start as int,
                j as int,
            ).push(data@[j as int]));
        }
        j += 1;
    }
    r
}

/// Parse a flags record at `pos`.
fn parse_flags(data: &[u8], pos: usize) -> (r: Result<(Option<FileFlags>, usize), DiffError>)
    requires
        pos <= data@.len(),
    ensures
        match r {
            Result::Ok(p) => {
                &&& parse_flags_spec(data@.skip(pos as int)) == Option::Some(
                    (flags_view(p.0), p.1 - pos),
                )
                &&& pos < p.1 <= data@.len()
            },
            Result::Err(e) => {
                &&& parse_flags_spec(data@.skip(pos as int)) is None
                &&& e == DiffError::Malformed
            },
        },
{
    if pos >= data.len() {
        return Result::Err(DiffError::Malformed);
    }
    let tag = data[pos];
    if tag == FLAG_NONE {
        Result::Ok((Option::None, pos + 1))
    } else if tag == FLAG_EXEC {
        Result::Ok((Option::Some(FileFlags { executable: true }), pos + 1))
    } else if tag == FLAG_PLAIN {
        Result::Ok((Option::Some(FileFlags { executable: false }), pos + 1))
    } else {
        Result::Err(DiffError::Malformed)
    }
}

/// Parse a file state at `pos`.
fn parse_state(data: &[u8], pos: usize) -> (r: Result<(DataState, usize), DiffError>)
    requires
        pos <= data@.len(),
    ensures
        match r {
            Result::Ok(p) => {
                &&& parse_state_spec(data@.skip(pos as int)) == Option::Some((p.0@, p.1 - pos))
                &&& pos < p.1 <= data@.len()
            },
            Result::Err(e) => {
                &&& parse_state_spec(data@.skip(pos as int)) is None
                &&& e == DiffError::Malformed
            },
        },
{
    if pos >= data.len() {
        return Result::Err(DiffError::Malformed);
    }
    let tag = data[pos];
    if tag == TAG_IDENT {
        return Result::Ok((DataState::Identical, pos + 1));
    }
    if tag != TAG_RAW && tag != TAG_PATCH {
        return Result::Err(DiffError::Malformed);
    }
    if data.len() - pos < 9 {
        return Result::Err(DiffError::Malformed);
    }
    let dlen64 = read_be64(data, pos + 1);
    proof {
        assert(data@.subrange(pos + 1, pos + 9) =~= data@.skip(pos as int).subrange(1, 9));
    }
    if dlen64 > (data.len() - pos - 9) as u64 {
        return Result::Err(DiffError::Malformed);
    }
    let dlen = dlen64 as usize;
    let payload = copy_range(data, pos + 9, pos + 9 + dlen);
    proof {
        assert(payload@ =~= data@.skip(pos as int).subrange(9, 9 + dlen64 as int));
    }
    if tag == TAG_RAW {
        Result::Ok((DataState::Raw(payload), pos + 9 + dlen))
    } else {
        Result::Ok((DataState::Patch(payload), pos + 9 + dlen))
    }
}

/// Parse one entry at `pos`.
fn parse_entry(data: &[u8], pos: usize) -> (r: Result<(DirDiffEntry, usize), DiffError>)
    requires
        pos <= data@.len(),
    ensures
        match r {
            Result::Ok(p) => {
                &&& parse_entry_spec(data@.skip(pos as int)) == Option::Some((p.0@, p.1 - pos))
                &&& pos < p.1 <= data@.len()
            },
            Result::Err(e) => {
                &&& parse_entry_spec(data@.skip(pos as int)) is None
                &&& e == DiffError::Malformed
            },
        },
{
    if data.len() - pos < 9 {
        return Result::Err(DiffError::Malformed);
    }
    let tag = data[pos];
    let plen64 = read_be64(data, pos + 1);
    proof {
        assert(data@.subrange(pos + 1, pos + 9) =~= data@.skip(pos as int).subrange(1, 9));
    }
    if plen64 > (data.len() - pos - 9) as u64 {
        return Result::Err(DiffError::Malformed);
    }
    let plen = plen64 as usize;
    let path = copy_range(data, pos + 9, pos + 9 + plen);
    proof {
        assert(path@ =~= data@.skip(pos as int).subrange(9, 9 + plen64 as int));
    }
    if tag == TAG_DIR {
        return Result::Ok((DirDiffEntry::Dir(path), pos + 9 + plen));
    }
    if tag != TAG_FILE {
        return Result::Err(DiffError::Malformed);
    }
    let after_path = pos + 9 + plen;
    let (state, after_state) = match parse_state(data, after_path) {
        Result::Ok(p) => p,
        Result::Err(e) => {
            proof {
                assert(data@.skip(after_path as int) =~= data@.skip(pos as int).skip(
                    9 + plen64 as int,
                ));
            }
            return Result::Err(e);
        },
    };
    proof {
        assert(data@.skip(after_path as int) =~= data@.skip(pos as int).skip(9 + plen64 as int));
    }
    let (flags, after_flags) = match parse_flags(data, after_state) {
        Result::Ok(p) => p,
        Result::Err(e) => {
            proof {
                assert(data@.skip(after_state as int) =~= data@.skip(pos as int).skip(
                    9 + plen64 as int + (after_state - after_path),
                ));
            }
            return Result::Err(e);
        },
    };
    proof {
        assert(data@.skip(after_state as int) =~= data@.skip(pos as int).skip(
            9 + plen64 as int + (after_state - after_path),
        ));
    }
    Result::Ok(
        (DirDiffEntry::File { path, state, flags: flags }, after_flags),
    )
}

/// Prefix a parsed tail with already-parsed entries.
pub open spec fn opt_prepend(
    prefix: Seq<DiffEntryModel>,
    rest: Option<Seq<DiffEntryModel>>,
) -> Option<Seq<DiffEntryModel>> {
    match rest {
        Option::None => Option::None,
        Option::Some(r) => Option::Some(prefix + r),
    }
}

impl DirDiff {
    /// Parse a serialized delta.
    ///
    /// Rejects any input whose first seven bytes are not the magic prefix,
    /// then any whose version byte is not the current version, then any
    /// whose payload does not decompress or does not parse as a well-formed
    /// entry sequence.
    pub fn deser(serialized: &[u8]) -> (r: Result<DirDiff, DiffError>)
        ensures
            match r {
                Result::Ok(d) => deser_spec(serialized@) == Result::Ok::<
                    Seq<DiffEntryModel>,
                    DiffError,
                >(d@) && diff_wf(d@),
                Result::Err(e) => deser_spec(serialized@) == Result::Err::<
                    Seq<DiffEntryModel>,
                    DiffError,
                >(e),
            },
    {
        let b = serialized;
        if b.len() < 7 {
            return Result::Err(DiffError::InvalidMagic);
        }
        if b[0] != 66 || b[1] != 79 || b[2] != 66 || b[3] != 68 || b[4] != 73 || b[5] != 70 || b[6]
            != 70 {
            proof {
                assert(b@.subrange(0, 7) != magic_seq()) by {
                    if b@.subrange(0, 7) == magic_seq() {
                        assert(b@[0] == magic_seq()[0] && b@[1] == magic_seq()[1] && b@[2]
                            == magic_seq()[2] && b@[3] == magic_seq()[3] && b@[4] == magic_seq()[4]
                            && b@[5] == magic_seq()[5] && b@[6] == magic_seq()[6]);
                    }
                }
            }
            return Result::Err(DiffError::InvalidMagic);
        }
        proof {
            assert(b@.subrange(0, 7) =~= magic_seq());
        }
        if b.len() == 7 || b[7] != MAGIC_VER {
            return Result::Err(DiffError::VersionMismatch);
        }
        let tail = copy_range(b, 8, b.len());
        proof {
            assert(tail@ =~= b@.skip(8));
        }
        let plain = match decompress(tail.as_slice()) {
            Option::Some(p) => p,
            Option::None => {
                return Result::Err(DiffError::Decompression);
            },
        };
        let mut entries: Vec<DirDiffEntry> = Vec::new();
        let mut pos: usize = 0;
        proof {
            assert(plain@.skip(0) =~= plain@);
            assert(entries@.map_values(|e: DirDiffEntry| e@) =~= Seq::<DiffEntryModel>::empty());
            if parse_entries_spec(plain@) is Some {
                assert(opt_prepend(
                    Seq::<DiffEntryModel>::empty(),
                    parse_entries_spec(plain@),
                ) == parse_entries_spec(plain@)) by {
                    let rr = parse_entries_spec(plain@)->Some_0;
                    assert(Seq::<DiffEntryModel>::empty() + rr =~= rr);
                }
            }
        }
        while pos < plain.len()
            invariant
                0 <= pos <= plain@.len(),
                parse_entries_spec(plain@) == opt_prepend(
                    entries@.map_values(|e: DirDiffEntry| e@),
                    parse_entries_spec(plain@.skip(pos as int)),
                ),
                deser_spec(serialized@) == (match parse_entries_spec(plain@) {
                    Option::None => Result::Err::<Seq<DiffEntryModel>, DiffError>(
                        DiffError::Malformed,
                    ),
                    Option::Some(es) => if diff_wf(es) {
                        Result::Ok::<Seq<DiffEntryModel>, DiffError>(es)
                    } else {
                        Result::Err::<Seq<DiffEntryModel>, DiffError>(DiffError::Malformed)
                    },
                }),
            decreases plain@.len() - pos,
        {
            let ghost done = entries@.map_values(|e: DirDiffEntry| e@);
            match parse_entry(plain.as_slice(), pos) {
                Result::Err(_) => {
                    return Result::Err(DiffError::Malformed);
                },
                Result::Ok((e, end)) => {
                    proof {
                        let tail_now = plain@.skip(pos as int);
                        let k = end - pos;
                        assert(tail_now.skip(k as int) =~= plain@.skip(end as int));
                        if parse_entries_spec(plain@.skip(end as int)) is Some {
                            let rest = parse_entries_spec(plain@.skip(end as int))->Some_0;
                            assert(parse_entries_spec(tail_now) == Option::Some(
                                seq![e@] + rest,
                            ));
                            assert(done + (seq![e@] + rest) =~= done.push(e@) + rest);
                        }
                    }
                    entries.push(e);
                    proof {
                        assert(entries@.map_values(|x: DirDiffEntry| x@) =~= done.push(e@));
                    }
                    pos = end;
                },
            }
        }
        proof {
            assert(plain@.skip(plain@.len() as int) =~= Seq::<u8>::empty());
            let done = entries@.map_values(|e: DirDiffEntry| e@);
            assert(parse_entries_spec(plain@) == Option::Some(done)) by {
                assert(done + Seq::<DiffEntryModel>::empty() =~= done);
            }
        }
        if !check_diff_wf(&entries) {
            return Result::Err(DiffError::Malformed);
        }
        Result::Ok(DirDiff { entries })
    }
}

/// Magic and version rejection: any input whose first seven bytes are not
/// the magic prefix is rejected as invalid magic, and any input with the
/// right magic but a missing or different version byte as a version
/// mismatch.
pub proof fn lemma_deser_rejects(b: Seq<u8>)
    ensures
        b.len() < 7 || b.subrange(0, 7) != magic_seq() ==> deser_spec(b) == Result::Err::<
            Seq<DiffEntryModel>,
            DiffError,
        >(DiffError::InvalidMagic),
        b.len() >= 7 && b.subrange(0, 7) == magic_seq() && (b.len() == 7 || b[7] != MAGIC_VER)
            ==> deser_spec(b) == Result::Err::<Seq<DiffEntryModel>, DiffError>(
            DiffError::VersionMismatch,
        ),
{
}

/// Every length in the entry fits the 64-bit length prefix.
pub open spec fn entry_sized(e: DiffEntryModel) -> bool {
    match e {
        DiffEntryModel::Dir { path } => path.len() < 0x1_0000_0000_0000_0000,
        DiffEntryModel::File { path, state, .. } => path.len() < 0x1_0000_0000_0000_0000 && (
        match state {
            StateModel::Identical => true,
            StateModel::Raw(d) => d.len() < 0x1_0000_0000_0000_0000,
            StateModel::Patch(p) => p.len() < 0x1_0000_0000_0000_0000,
        }),
    }
}

/// Every entry of the sequence is sized for the wire format.
pub open spec fn entries_sized(s: Seq<DiffEntryModel>) -> bool {
    forall|i: int| 0 <= i < s.len() ==> entry_sized(#[trigger] s[i])
}

/// Parsing an encoded flags record consumes exactly it.
proof fn lemma_parse_flags_round(f: Option<bool>, rest: Seq<u8>)
    ensures
        parse_flags_spec(enc_flags(f) + rest) == Option::Some((f, 1int)),
{
    let w = enc_flags(f) + rest;
    assert(w[0] == enc_flags(f)[0]);
}

/// Parsing an encoded file state consumes exactly it.
proof fn lemma_parse_state_round(st: StateModel, rest: Seq<u8>)
    requires
        match st {
            StateModel::Identical => true,
            StateModel::Raw(d) => d.len() < 0x1_0000_0000_0000_0000,
            StateModel::Patch(p) => p.len() < 0x1_0000_0000_0000_0000,
        },
    ensures
        parse_state_spec(enc_state(st) + rest) == Option::Some(
            (st, enc_state(st).len() as int),
        ),
{
    let w = enc_state(st) + rest;
    match st {
        StateModel::Identical => {
            assert(w[0] == TAG_IDENT);
        },
        StateModel::Raw(d) => {
            assert(w[0] == TAG_RAW);
            assert(w.subrange(1, 9) =~= be64(d.len() as u64));
            lemma_be64_inverse(d.len() as u64);
            assert(w.subrange(9, 9 + d.len() as int) =~= d);
        },
        StateModel::Patch(p) => {
            assert(w[0] == TAG_PATCH);
            assert(w.subrange(1, 9) =~= be64(p.len() as u64));
            lemma_be64_inverse(p.len() as u64);
            assert(w.subrange(9, 9 + p.len() as int) =~= p);
        },
    }
}

/// Parsing an encoded entry consumes exactly it.
proof fn lemma_parse_entry_round(e: DiffEntryModel, rest: Seq<u8>)
    requires
        entry_sized(e),
    ensures
        parse_entry_spec(enc_entry(e) + rest) == Option::Some((e, enc_entry(e).len() as int)),
{
    let w = enc_entry(e) + rest;
    match e {
        DiffEntryModel::Dir { path } => {
            assert(w[0] == TAG_DIR);
            assert(w.subrange(1, 9) =~= be64(path.len() as u64));
            lemma_be64_inverse(path.len() as u64);
            assert(w.subrange(9, 9 + path.len() as int) =~= path);
        },
        DiffEntryModel::File { path, state, flags } => {
            assert(w[0] == TAG_FILE);
            assert(w.subrange(1, 9) =~= be64(path.len() as u64));
            lemma_be64_inverse(path.len() as u64);
            assert(w.subrange(9, 9 + path.len() as int) =~= path);
            let after_path = 9 + path.len() as int;
            assert(w.skip(after_path) =~= enc_state(state) + (enc_flags(flags) + rest));
            lemma_parse_state_round(state, enc_flags(flags) + rest);
            let k1 = enc_state(state).len() as int;
            assert(w.skip(after_path + k1) =~= enc_flags(flags) + rest) by {
                assert((enc_state(state) + (enc_flags(flags) + rest)).skip(k1) =~= enc_flags(
                    flags,
                ) + rest);
                assert(w.skip(after_path + k1) =~= w.skip(after_path).skip(k1));
            }
            lemma_parse_flags_round(flags, rest);
        },
    }
}

/// One step of the sequence round trip: an encoded entry in front of an
/// already-parsing tail parses to the entry followed by the tail.
#[verifier::rlimit(100)]
#[verifier::spinoff_prover]
proof fn lemma_parse_entries_round_step(e: DiffEntryModel, tail: Seq<DiffEntryModel>)
    requires
        entry_sized(e),
        parse_entries_spec(enc_entries(tail)) == Option::Some(tail),
    ensures
        parse_entries_spec(enc_entry(e) + enc_entries(tail)) == Option::Some(seq![e] + tail),
{
    let w = enc_entry(e) + enc_entries(tail);
    let k = enc_entry(e).len() as int;
    lemma_parse_entry_round(e, enc_entries(tail));
    assert(k >= 9) by {
        match e {
            DiffEntryModel::Dir { path } => {
                assert(enc_entry(e).len() == 9 + path.len());
            },
            DiffEntryModel::File { path, state, flags } => {
                assert(enc_flags(flags).len() == 1);
                assert(enc_state(state).len() >= 1);
                assert(enc_entry(e).len() >= 9 + path.len());
            },
        }
    }
    assert(w.len() == k + enc_entries(tail).len());
    assert(w.skip(k) =~= enc_entries(tail));
    assert(parse_entries_spec(w) == Option::Some(seq![e] + tail));
}

/// Parsing the encoding of an entry sequence yields the sequence.
#[verifier::spinoff_prover]
pub proof fn lemma_parse_entries_round(s: Seq<DiffEntryModel>)
    requires
        entries_sized(s),
    ensures
        parse_entries_spec(enc_entries(s)) == Option::Some(s),
    decreases s.len(),
{
    if s.len() == 0 {
        assert(enc_entries(s).len() == 0);
        assert(s =~= Seq::<DiffEntryModel>::empty());
    } else {
        let e = s.first();
        let tail = s.drop_first();
        assert(entry_sized(e)) by {
            assert(s[0] == e);
        }
        assert(entries_sized(tail)) by {
            assert(forall|i: int| 0 <= i < tail.len() ==> #[trigger] tail[i] == s[i + 1]);
        }
        lemma_parse_entries_round(tail);
        lemma_parse_entries_round_step(e, tail);
        assert(seq![e] + tail =~= s);
    }
}

/// Codec round trip: a serialized well-formed delta deserializes to the
/// same entry sequence.  `frame` is the zstd frame the serializer produced;
/// decoding it yields the encoded entries, and the whole input is accepted.
pub proof fn lemma_codec_round_trip(entries: Seq<DiffEntryModel>, frame: Seq<u8>)
    requires
        diff_wf(entries),
        entries_sized(entries),
        zstd_decode_of(frame) == Some(enc_entries(entries)),
    ensures
        deser_spec(magic_seq() + seq![MAGIC_VER] + frame) == Result::Ok::<
            Seq<DiffEntryModel>,
            DiffError,
        >(entries),
{
    let b = magic_seq() + seq![MAGIC_VER] + frame;
    assert(b.subrange(0, 7) =~= magic_seq());
    assert(b[7] == MAGIC_VER);
    assert(b.skip(8) =~= frame);
    lemma_parse_entries_round(entries);
}

} // verus!
