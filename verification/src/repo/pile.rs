//! A pile: an append-only file of records, each a multiple of 64 bytes long.
//! A blob record is a 64-byte header (magic marker, timestamp, length, hash)
//! followed by the blob and zero padding up to the next multiple of 64; a
//! branch record is a 64-byte header (magic marker, branch id, head hash).
//! Numbers are stored little-endian.
//!
//! The in-memory state of a pile is an index from blob hashes to where the
//! blobs lie in the file, and the current head of each branch. It is rebuilt
//! by scanning the records that were appended since the last scan; a
//! malformed record stops the scan and reports the length of the valid
//! prefix of the file.
use vstd::prelude::*;

use crate::id::fucid::pow256;
use crate::id::RawId;
use crate::patch::entry::Entry;
use crate::patch::{lemma_identity_tree_key, IdentitySchema, PATCH};
use crate::repo::{compare_and_swap, PushResult};
use crate::value::RawValue;

verus! {

/// The length of a blob header; blob records are aligned to it.
pub const BLOB_HEADER_LEN: usize = 64;

/// The alignment of records in the file.
pub const BLOB_ALIGNMENT: usize = 64;

/// The length of a branch record.
pub const BRANCH_HEADER_LEN: usize = 64;

/// The marker that starts a blob record.
pub const MAGIC_MARKER_BLOB: RawId = [
    0x1E, 0x08, 0xB0, 0x22, 0xFF, 0x2F, 0x47, 0xB6, 0xEB, 0xAC, 0xF1, 0xD6, 0x8E, 0xB3, 0x5D, 0x96,
];

/// The marker that starts a branch record.
pub const MAGIC_MARKER_BRANCH: RawId = [
    0x2B, 0xC9, 0x91, 0xA7, 0xF5, 0xD5, 0xD2, 0xA3, 0xA4, 0x68, 0xC5, 0x3B, 0x0A, 0xA0, 0x35, 0x04,
];

/// The number whose little-endian bytes are `bytes`.
pub open spec fn le_value(bytes: Seq<u8>) -> nat
    decreases bytes.len(),
{
    if bytes.len() == 0 {
        0
    } else {
        le_value(bytes.drop_last()) + pow256((bytes.len() - 1) as nat) * (bytes.last() as nat)
    }
}

proof fn lemma_pow256_step(n: nat)
    ensures
        pow256(n + 1) == 256 * pow256(n),
        pow256(n) >= 1,
    decreases n,
{
    if n > 0 {
        lemma_pow256_step((n - 1) as nat);
    }
}

proof fn lemma_pow256_eight()
    ensures
        pow256(8) == 0x1_0000_0000_0000_0000,
{
    reveal_with_fuel(pow256, 9);
}

proof fn lemma_pow256_monotone(a: nat, b: nat)
    requires
        a <= b,
    ensures
        pow256(a) <= pow256(b),
    decreases b - a,
{
    if a < b {
        lemma_pow256_monotone(a, (b - 1) as nat);
        lemma_pow256_step((b - 1) as nat);
    }
}

/// Reads the little-endian `u64` at `at`.
pub fn read_u64_le(bytes: &[u8], at: usize) -> (r: u64)
    requires
        at + 8 <= bytes.len(),
    ensures
        r as nat == le_value(bytes@.subrange(at as int, at + 8)),
{
    let mut v: u128 = 0;
    let mut m: u128 = 1;
    let mut i: usize = 0;
    while i < 8
        invariant
            i <= 8,
            at + 8 <= bytes.len(),
            m == pow256(i as nat),
            v == le_value(bytes@.subrange(at as int, at + i)),
            v < m,
        decreases 8 - i,
    {
        proof {
            assert(bytes@.subrange(at as int, at + i + 1).drop_last() =~= bytes@.subrange(at as int, at + i));
            lemma_pow256_step(i as nat);
            lemma_pow256_monotone((i + 1) as nat, 8);
            lemma_pow256_eight();
        }
        let b = bytes[at + i] as u128;
        proof {
            let sub = bytes@.subrange(at as int, at + i + 1);
            assert(sub.last() == bytes@[at + i]);
            assert(le_value(sub) == le_value(sub.drop_last()) + pow256(i as nat) * (sub.last() as nat));
            assert(v + b * m < m * 256) by (nonlinear_arith)
                requires
                    v < m,
                    b < 256,
            ;
            assert(b * m <= 255 * m) by (nonlinear_arith)
                requires
                    b < 256,
            ;
        }
        v = v + b * m;
        m = m * 256;
        i = i + 1;
    }
    proof {
        lemma_pow256_eight();
        assert(bytes@.subrange(at as int, at + 8) =~= bytes@.subrange(at as int, at + i));
    }
    v as u64
}

/// The eight little-endian bytes of `x`.
pub fn write_u64_le(x: u64) -> (r: [u8; 8])
    ensures
        le_value(r@) == x as nat,
{
    let mut out = [0u8; 8];
    let mut v: u64 = x;
    let mut i: usize = 0;
    proof {
        assert(out@.subrange(0, 0).len() == 0);
        assert(pow256(0) == 1);
    }
    while i < 8
        invariant
            i <= 8,
            out@.len() == 8,
            x as nat == le_value(out@.subrange(0, i as int)) + pow256(i as nat) * v,
        decreases 8 - i,
    {
        let ghost before = out@;
        out[i] = (v % 256) as u8;
        proof {
            assert(out@.subrange(0, i as int) =~= before.subrange(0, i as int));
            assert(out@.subrange(0, i + 1).drop_last() =~= out@.subrange(0, i as int));
            lemma_pow256_step(i as nat);
            let p = pow256(i as nat);
            assert(p * v == p * (v % 256) + (256 * p) * (v / 256)) by (nonlinear_arith)
                requires
                    v == (v % 256) + 256 * (v / 256),
            ;
        }
        v = v / 256;
        i = i + 1;
    }
    proof {
        lemma_pow256_eight();
        assert(out@.subrange(0, 8) =~= out@);
        assert(pow256(8) * v <= x);
        if v > 0 {
            assert(pow256(8) * v >= pow256(8)) by (nonlinear_arith)
                requires
                    v >= 1,
                    pow256(8) >= 1,
            ;
        }
    }
    out
}

/// The zero bytes that follow a blob of `len` bytes up to the next multiple
/// of the alignment.
pub open spec fn spec_padding(len: int) -> int {
    (64 - len % 64) % 64
}

/// The number of zero bytes that follow a blob of `blob_size` bytes.
pub fn padding_for_blob(blob_size: usize) -> (r: usize)
    ensures
        r == spec_padding(blob_size as int),
        r < BLOB_ALIGNMENT,
        (blob_size + r) % 64 == 0,
{
    (BLOB_ALIGNMENT - blob_size % BLOB_ALIGNMENT) % BLOB_ALIGNMENT
}

/// A record of the file: what it holds and where its blob lies.
pub enum RecordView {
    Blob { hash: Seq<u8>, timestamp: nat, start: int, len: int },
    Branch { id: Seq<u8>, hash: Seq<u8> },
}

/// A record read from the file.
pub enum Record {
    /// A blob of `len` bytes at `start`, stored under `hash`.
    Blob { hash: RawValue, timestamp: u64, start: usize, len: usize },
    /// The head `hash` of the branch `id`.
    Branch { id: RawId, hash: RawValue },
}

impl View for Record {
    type V = RecordView;

    open spec fn view(&self) -> RecordView {
        match *self {
            Record::Blob { hash, timestamp, start, len } => RecordView::Blob {
                hash: hash@,
                timestamp: timestamp as nat,
                start: start as int,
                len: len as int,
            },
            Record::Branch { id, hash } => RecordView::Branch { id: id@, hash: hash@ },
        }
    }
}

/// Whether the bytes are all zero: the nil id.
pub open spec fn is_nil(id: Seq<u8>) -> bool {
    forall|i: int| 0 <= i < id.len() ==> id[i] == 0
}

/// The record that starts at `pos` and the position after it, or `None`
/// when the bytes there do not form a whole record: fewer than sixteen bytes,
/// an unknown marker, a header cut short, a blob or its padding cut short,
/// or a branch with the nil id.
pub open spec fn record_at(file: Seq<u8>, pos: int) -> Option<(RecordView, int)> {
    let rest = file.len() - pos;
    if rest < 16 {
        None
    } else if file.subrange(pos, pos + 16) == MAGIC_MARKER_BLOB@ {
        if rest < 64 {
            None
        } else {
            let len = le_value(file.subrange(pos + 24, pos + 32)) as int;
            if len + spec_padding(len) > rest - 64 {
                None
            } else {
                Some(
                    (
                        RecordView::Blob {
                            hash: file.subrange(pos + 32, pos + 64),
                            timestamp: le_value(file.subrange(pos + 16, pos + 24)),
                            start: pos + 64,
                            len,
                        },
                        pos + 64 + len + spec_padding(len),
                    ),
                )
            }
        }
    } else if file.subrange(pos, pos + 16) == MAGIC_MARKER_BRANCH@ {
        if rest < 64 {
            None
        } else if is_nil(file.subrange(pos + 16, pos + 32)) {
            None
        } else {
            Some((RecordView::Branch { id: file.subrange(pos + 16, pos + 32), hash: file.subrange(pos + 32, pos + 64) }, pos + 64))
        }
    } else {
        None
    }
}

/// The records from `pos` to the end of the file, and the position of the
/// first malformed one, if there is one.
pub open spec fn scan(file: Seq<u8>, pos: int) -> (Seq<RecordView>, Option<int>)
    decreases file.len() - pos,
{
    if pos < 0 || pos >= file.len() {
        (Seq::empty(), None)
    } else {
        match record_at(file, pos) {
            None => (Seq::empty(), Some(pos)),
            Some((r, next)) => if next > pos {
                let (rs, err) = scan(file, next);
                (seq![r] + rs, err)
            } else {
                (Seq::empty(), Some(pos))
            },
        }
    }
}

/// Whether `file[pos..pos + 16]` is `marker`.
pub(crate) fn marker_at(file: &[u8], pos: usize, marker: &RawId) -> (r: bool)
    requires
        pos + 16 <= file.len(),
    ensures
        r == (file@.subrange(pos as int, pos + 16) == marker@),
{
    let mut i: usize = 0;
    while i < 16
        invariant
            i <= 16,
            pos + 16 <= file.len(),
            forall|j: int| 0 <= j < i ==> file@[pos + j] == marker@[j],
        decreases 16 - i,
    {
        if file[pos + i] != marker[i] {
            proof {
                assert(file@.subrange(pos as int, pos + 16)[i as int] != marker@[i as int]);
            }
            return false;
        }
        i = i + 1;
    }
    proof {
        assert(file@.subrange(pos as int, pos + 16) =~= marker@);
    }
    true
}

/// The sixteen bytes at `pos`.
pub(crate) fn read_id(file: &[u8], pos: usize) -> (r: RawId)
    requires
        pos + 16 <= file.len(),
    ensures
        r@ == file@.subrange(pos as int, pos + 16),
{
    let mut out = [0u8; 16];
    let mut i: usize = 0;
    while i < 16
        invariant
            i <= 16,
            pos + 16 <= file.len(),
            out@.len() == 16,
            forall|j: int| 0 <= j < i ==> out@[j] == file@[pos + j],
        decreases 16 - i,
    {
        out[i] = file[pos + i];
        i = i + 1;
    }
    proof {
        assert(out@ =~= file@.subrange(pos as int, pos + 16));
    }
    out
}

/// The thirty-two bytes at `pos`.
pub(crate) fn read_value(file: &[u8], pos: usize) -> (r: RawValue)
    requires
        pos + 32 <= file.len(),
    ensures
        r@ == file@.subrange(pos as int, pos + 32),
{
    let mut out = [0u8; 32];
    let mut i: usize = 0;
    while i < 32
        invariant
            i <= 32,
            pos + 32 <= file.len(),
            out@.len() == 32,
            forall|j: int| 0 <= j < i ==> out@[j] == file@[pos + j],
        decreases 32 - i,
    {
        out[i] = file[pos + i];
        i = i + 1;
    }
    proof {
        assert(out@ =~= file@.subrange(pos as int, pos + 32));
    }
    out
}

/// Whether the id is nil.
fn id_is_nil(id: &RawId) -> (r: bool)
    ensures
        r == is_nil(id@),
{
    let mut i: usize = 0;
    while i < 16
        invariant
            i <= 16,
            forall|j: int| 0 <= j < i ==> id@[j] == 0,
        decreases 16 - i,
    {
        if id[i] != 0 {
            return false;
        }
        i = i + 1;
    }
    true
}

/// Reads the record at `pos`, or `None` when the bytes there do not form a
/// whole record.
pub fn read_record(file: &[u8], pos: usize) -> (r: Option<(Record, usize)>)
    requires
        pos <= file.len(),
    ensures
        r matches Some((rec, next)) ==> record_at(file@, pos as int) == Some((rec@, next as int)),
        r is None ==> record_at(file@, pos as int) is None,
{
    let rest = file.len() - pos;
    if rest < 16 {
        return None;
    }
    if marker_at(file, pos, &MAGIC_MARKER_BLOB) {
        if rest < BLOB_HEADER_LEN {
            return None;
        }
        let timestamp = read_u64_le(file, pos + 16);
        let length = read_u64_le(file, pos + 24);
        let hash = read_value(file, pos + 32);
        let avail = rest - BLOB_HEADER_LEN;
        if length > avail as u64 {
            return None;
        }
        let len = length as usize;
        let pad = padding_for_blob(len);
        if pad > avail - len {
            return None;
        }
        let start = pos + BLOB_HEADER_LEN;
        Some((Record::Blob { hash, timestamp, start, len }, start + len + pad))
    } else if marker_at(file, pos, &MAGIC_MARKER_BRANCH) {
        if rest < BRANCH_HEADER_LEN {
            return None;
        }
        let id = read_id(file, pos + 16);
        if id_is_nil(&id) {
            return None;
        }
        let hash = read_value(file, pos + 32);
        Some((Record::Branch { id, hash }, pos + BRANCH_HEADER_LEN))
    } else {
        None
    }
}

/// Whether a blob has been checked against its hash.
#[derive(Debug, Clone, Copy, PartialEq, Eq)]
pub enum ValidationState {
    /// The blob's bytes hash to its hash.
    Validated,
    /// The blob's bytes do not hash to its hash.
    Invalid,
}

/// The timestamp and length of a stored blob.
#[derive(Debug, Clone, Copy, PartialEq, Eq)]
pub struct BlobMetadata {
    pub timestamp: u64,
    pub length: u64,
}

/// Where a blob of the index is: written by this process but not read back
/// yet, or read from the file at `start`.
#[derive(Debug, Clone, Copy, PartialEq, Eq)]
pub enum IndexEntry {
    InFlight { len: u64, timestamp: u64 },
    Stored { start: usize, size: usize, timestamp: u64 },
}

/// The effect of one record on the blob index and the branch heads: a blob
/// that is stored already keeps its place, any other gets the place of the
/// record; a branch gets the record's head.
pub open spec fn apply_record(
    blobs: Map<Seq<u8>, IndexEntry>,
    heads: Map<Seq<u8>, Seq<u8>>,
    r: RecordView,
) -> (Map<Seq<u8>, IndexEntry>, Map<Seq<u8>, Seq<u8>>) {
    match r {
        RecordView::Blob { hash, timestamp, start, len } => if blobs.contains_key(hash) && blobs[hash] is Stored {
            (blobs, heads)
        } else {
            (blobs.insert(hash, IndexEntry::Stored { start: start as usize, size: len as usize, timestamp: timestamp as u64 }), heads)
        },
        RecordView::Branch { id, hash } => (blobs, heads.insert(id, hash)),
    }
}

/// The effect of the records `rs`, in order.
pub open spec fn apply_records(
    blobs: Map<Seq<u8>, IndexEntry>,
    heads: Map<Seq<u8>, Seq<u8>>,
    rs: Seq<RecordView>,
) -> (Map<Seq<u8>, IndexEntry>, Map<Seq<u8>, Seq<u8>>)
    decreases rs.len(),
{
    if rs.len() == 0 {
        (blobs, heads)
    } else {
        let (b, h) = apply_records(blobs, heads, rs.drop_last());
        apply_record(b, h, rs.last())
    }
}

/// Taking in records leaves each branch at the hash of its last branch
/// record: when record `i` sets branch `id` to `hash` and no later record
/// names that branch, the branch's head afterwards is `hash`, whatever it
/// was before and whatever earlier records said.
pub proof fn lemma_last_branch_record_wins(
    blobs: Map<Seq<u8>, IndexEntry>,
    heads: Map<Seq<u8>, Seq<u8>>,
    rs: Seq<RecordView>,
    i: int,
    id: Seq<u8>,
    hash: Seq<u8>,
)
    requires
        0 <= i < rs.len(),
        rs[i] == (RecordView::Branch { id, hash }),
        forall|j: int| i < j < rs.len() ==> !(#[trigger] rs[j] matches RecordView::Branch { id: other, .. } && other == id),
    ensures
        apply_records(blobs, heads, rs).1.contains_key(id),
        apply_records(blobs, heads, rs).1[id] == hash,
    decreases rs.len(),
{
    if i < rs.len() - 1 {
        let front = rs.drop_last();
        assert forall|j: int| i < j < front.len() implies !(#[trigger] front[j] matches RecordView::Branch { id: other, .. } && other == id) by {
            assert(front[j] == rs[j]);
        }
        lemma_last_branch_record_wins(blobs, heads, front, i, id, hash);
        assert(!(rs[rs.len() - 1] matches RecordView::Branch { id: other, .. } && other == id));
    }
}

/// Record `k` of `rs` sets a branch that no later record of `rs` names.
pub open spec fn last_for_branch(rs: Seq<RecordView>, k: int) -> bool {
    &&& 0 <= k < rs.len()
    &&& rs[k] is Branch
    &&& forall|j: int| k < j < rs.len() ==> !(#[trigger] rs[j] matches RecordView::Branch { id: other, .. } && other == rs[k]->id)
}

/// Taking in records leaves every branch at the hash of the last record
/// that names it.
pub proof fn lemma_branches_follow_last_records(blobs: Map<Seq<u8>, IndexEntry>, heads: Map<Seq<u8>, Seq<u8>>, rs: Seq<RecordView>)
    ensures
        forall|k: int| #[trigger] last_for_branch(rs, k) ==> (rs[k] matches RecordView::Branch { id, hash }
            && apply_records(blobs, heads, rs).1.contains_key(id) && apply_records(blobs, heads, rs).1[id] == hash),
{
    assert forall|k: int| #[trigger] last_for_branch(rs, k) implies (rs[k] matches RecordView::Branch { id, hash }
        && apply_records(blobs, heads, rs).1.contains_key(id) && apply_records(blobs, heads, rs).1[id] == hash) by {
        if let RecordView::Branch { id, hash } = rs[k] {
            lemma_last_branch_record_wins(blobs, heads, rs, k, id, hash);
        }
    }
}

/// A branch that no record names keeps its head.
pub proof fn lemma_unnamed_branch_kept(
    blobs: Map<Seq<u8>, IndexEntry>,
    heads: Map<Seq<u8>, Seq<u8>>,
    rs: Seq<RecordView>,
    id: Seq<u8>,
)
    requires
        forall|j: int| 0 <= j < rs.len() ==> !(#[trigger] rs[j] matches RecordView::Branch { id: other, .. } && other == id),
    ensures
        apply_records(blobs, heads, rs).1.get(id) == heads.get(id),
    decreases rs.len(),
{
    if rs.len() > 0 {
        let front = rs.drop_last();
        assert forall|j: int| 0 <= j < front.len() implies !(#[trigger] front[j] matches RecordView::Branch { id: other, .. } && other == id) by {
            assert(front[j] == rs[j]);
        }
        lemma_unnamed_branch_kept(blobs, heads, front, id);
        assert(!(rs[rs.len() - 1] matches RecordView::Branch { id: other, .. } && other == id));
    }
}

/// The error of a file operation, carried through unchanged.
#[verifier::external_type_specification]
#[verifier::external_body]
pub struct ExIoError(std::io::Error);

/// Why a pile could not be read.
#[derive(Debug)]
pub enum ReadError {
    IoError(std::io::Error),
    /// The file is longer than the pile may grow.
    PileTooLarge,
    /// The record at `valid_length` is malformed; the bytes before it are sound.
    CorruptPile { valid_length: usize },
}

/// Why a blob could not be written.
#[derive(Debug)]
pub enum InsertError {
    IoError(std::io::Error),
}

/// Why a branch head could not be written.
#[derive(Debug)]
pub enum UpdateBranchError {
    IoError(std::io::Error),
}

/// Why the file could not be synced.
#[derive(Debug)]
pub enum FlushError {
    IoError(std::io::Error),
}

/// The in-memory state of a pile of at most `MAX_PILE_SIZE` bytes: the blob
/// index, the branch heads and how much of the file has been read.
pub struct Pile<const MAX_PILE_SIZE: usize> {
    blobs: PATCH<32, IdentitySchema, IndexEntry>,
    branches: PATCH<16, IdentitySchema, RawValue>,
    applied_length: usize,
}

impl<const MAX_PILE_SIZE: usize> Pile<MAX_PILE_SIZE> {
    /// The blob index, by hash.
    pub closed spec fn spec_blobs(&self) -> Map<Seq<u8>, IndexEntry> {
        self.blobs@
    }

    /// The head of each branch, by id.
    pub closed spec fn spec_heads(&self) -> Map<Seq<u8>, Seq<u8>> {
        self.branches@.map_values(|v: RawValue| v@)
    }

    /// How many bytes of the file have been read.
    pub closed spec fn spec_applied_length(&self) -> int {
        self.applied_length as int
    }

    /// An empty pile, of which nothing has been read.
    pub fn new() -> (r: Self)
        ensures
            r.spec_blobs() == Map::<Seq<u8>, IndexEntry>::empty(),
            r.spec_heads() == Map::<Seq<u8>, Seq<u8>>::empty(),
            r.spec_applied_length() == 0,
    {
        let r = Pile { blobs: PATCH::new(), branches: PATCH::new(), applied_length: 0 };
        proof {
            assert(r.spec_heads() =~= Map::<Seq<u8>, Seq<u8>>::empty());
        }
        r
    }

    /// Reads the records appended to `file` since the last read into the
    /// index. A malformed record stops the reading: the records before it
    /// are taken in, and the error reports where it starts; the next read
    /// starts over from the same place.
    pub fn refresh(&mut self, file: &[u8]) -> (r: Result<(), ReadError>)
        requires
            old(self).spec_blobs().len() + file.len() < u64::MAX,
            old(self).spec_heads().len() + file.len() < u64::MAX,
        ensures
            file.len() > MAX_PILE_SIZE ==> (r matches Err(ReadError::PileTooLarge)) && *final(self) == *old(self),
            file.len() <= MAX_PILE_SIZE && file.len() <= old(self).spec_applied_length() ==> r is Ok && *final(self) == *old(self),
            file.len() <= MAX_PILE_SIZE && file.len() > old(self).spec_applied_length() ==> ({
                let (rs, err) = scan(file@, old(self).spec_applied_length());
                let (b, h) = apply_records(old(self).spec_blobs(), old(self).spec_heads(), rs);
                &&& final(self).spec_blobs() == b
                &&& final(self).spec_heads() == h
                &&& forall|k: int| #[trigger] last_for_branch(rs, k) ==> (rs[k] matches RecordView::Branch { id, hash }
                    && final(self).spec_heads().contains_key(id) && final(self).spec_heads()[id] == hash)
                &&& match err {
                    Some(off) => (r matches Err(ReadError::CorruptPile { valid_length }) && valid_length == off)
                        && final(self).spec_applied_length() == old(self).spec_applied_length(),
                    None => r is Ok && final(self).spec_applied_length() == file.len(),
                }
            }),
            stored_within(old(self).spec_blobs(), file.len() as int) ==> stored_within(final(self).spec_blobs(), file.len() as int),
    {
        let file_len = file.len();
        if file_len > MAX_PILE_SIZE {
            return Err(ReadError::PileTooLarge);
        }
        if file_len <= self.applied_length {
            return Ok(());
        }
        let start = self.applied_length;
        let ghost b0 = self.spec_blobs();
        let ghost h0 = self.spec_heads();
        let ghost total = scan(file@, start as int);
        let ghost mut done: Seq<RecordView> = Seq::empty();
        let mut pos = start;
        let n0 = self.blobs.len();
        let m0 = self.branches.len();
        proof {
            assert(scan(file@, start as int).0 =~= done + scan(file@, pos as int).0);
            assert(h0.dom() =~= self.branches@.dom());
        }
        while pos < file_len
            invariant
                start <= pos <= file_len,
                file_len == file.len(),
                file_len <= MAX_PILE_SIZE,
                start == old(self).applied_length,
                self.applied_length == start,
                b0 == old(self).spec_blobs(),
                h0 == old(self).spec_heads(),
                total == scan(file@, start as int),
                total.0 == done + scan(file@, pos as int).0,
                total.1 == scan(file@, pos as int).1,
                (self.spec_blobs(), self.spec_heads()) == apply_records(b0, h0, done),
                self.blobs@.dom().finite(),
                self.branches@.dom().finite(),
                self.blobs@.len() <= n0 + (pos - start),
                self.branches@.len() <= m0 + (pos - start),
                n0 == b0.len(),
                n0 + file_len < u64::MAX,
                m0 + file_len < u64::MAX,
                stored_within(b0, file_len as int) ==> stored_within(self.spec_blobs(), file_len as int),
            decreases file_len - pos,
        {
            match read_record(file, pos) {
                None => {
                    proof {
                        assert(scan(file@, pos as int).0 =~= Seq::<RecordView>::empty());
                        assert(total.0 =~= done);
                    }
                    proof {
                        lemma_branches_follow_last_records(old(self).spec_blobs(), old(self).spec_heads(), scan(file@, old(self).spec_applied_length()).0);
                    }
                    return Err(ReadError::CorruptPile { valid_length: pos });
                },
                Some((rec, next)) => {
                    proof {
                        assert(next > pos);
                    }
                    let ghost bs = self.spec_blobs();
                    let ghost hs = self.spec_heads();
                    match rec {
                        Record::Blob { hash, timestamp, start: s, len } => {
                            let stored = match self.blobs.get(&hash) {
                                Some(IndexEntry::Stored { .. }) => true,
                                _ => false,
                            };
                            proof {
                                lemma_identity_tree_key::<32>(hash@);
                            }
                            if !stored {
                                self.blobs.replace(Entry::with_value(&hash, IndexEntry::Stored { start: s, size: len, timestamp }));
                            }
                        },
                        Record::Branch { id, hash } => {
                            proof {
                                lemma_identity_tree_key::<16>(id@);
                            }
                            self.branches.replace(Entry::with_value(&id, hash));
                            proof {
                                assert(self.spec_heads() =~= hs.insert(id@, hash@));
                            }
                        },
                    }
                    proof {
                        let ghost nd = done.push(rec@);
                        assert(nd.drop_last() =~= done);
                        assert(total.0 =~= nd + scan(file@, next as int).0);
                        done = nd;
                    }
                    pos = next;
                },
            }
        }
        proof {
            assert(total.0 =~= done);
            lemma_branches_follow_last_records(old(self).spec_blobs(), old(self).spec_heads(), scan(file@, old(self).spec_applied_length()).0);
        }
        self.applied_length = file_len;
        Ok(())
    }
}

/// Every stored blob of `blobs` lies within the first `n` bytes of the file.
pub open spec fn stored_within(blobs: Map<Seq<u8>, IndexEntry>, n: int) -> bool {
    forall|h: Seq<u8>|
        #[trigger] blobs.contains_key(h) && blobs[h] is Stored ==> blobs[h]->start + blobs[h]->size <= n
}

/// The BLAKE3 hash of some bytes, as `blake3::hash` computes it.
pub uninterp spec fn spec_blake3(data: Seq<u8>) -> Seq<u8>;

/// `blake3::hash`: the 32-byte BLAKE3 hash of `data`. The contract says only
/// that the result is determined by the bytes.
#[verifier::external_body]
pub(crate) fn blake3_hash(data: &[u8]) -> (r: RawValue)
    ensures
        r@ == spec_blake3(data@),
{
    blake3::hash(data).into()
}

/// Whether `rec` is the record of the blob `data` stored under `hash` at
/// `timestamp`: the header, the blob, then zeros up to the alignment.
pub open spec fn is_blob_record(rec: Seq<u8>, data: Seq<u8>, hash: Seq<u8>, timestamp: nat) -> bool {
    let len = data.len() as int;
    &&& rec.len() == 64 + len + spec_padding(len)
    &&& rec.subrange(0, 16) == MAGIC_MARKER_BLOB@
    &&& le_value(rec.subrange(16, 24)) == timestamp
    &&& le_value(rec.subrange(24, 32)) == len
    &&& rec.subrange(32, 64) == hash
    &&& rec.subrange(64, 64 + len) == data
    &&& forall|i: int| 64 + len <= i < rec.len() ==> rec[i] == 0
}

/// Whether `rec` is the record that sets the head of branch `id` to `hash`.
pub open spec fn is_branch_record(rec: Seq<u8>, id: Seq<u8>, hash: Seq<u8>) -> bool {
    &&& rec.len() == 64
    &&& rec.subrange(0, 16) == MAGIC_MARKER_BRANCH@
    &&& rec.subrange(16, 32) == id
    &&& rec.subrange(32, 64) == hash
}

/// Appends `bytes[..n]` to `out`.
pub(crate) fn push_all(out: &mut Vec<u8>, bytes: &[u8], n: usize)
    requires
        n <= bytes.len(),
    ensures
        final(out)@ == old(out)@ + bytes@.subrange(0, n as int),
{
    let mut i: usize = 0;
    while i < n
        invariant
            i <= n,
            n <= bytes.len(),
            out@ == old(out)@ + bytes@.subrange(0, i as int),
        decreases n - i,
    {
        out.push(bytes[i]);
        proof {
            assert(bytes@.subrange(0, i + 1) =~= bytes@.subrange(0, i as int).push(bytes@[i as int]));
        }
        i = i + 1;
    }
}

/// The record of the blob `data` stored under `hash` at `timestamp`.
pub fn blob_record(data: &[u8], hash: &RawValue, timestamp: u64) -> (r: Vec<u8>)
    requires
        data.len() + 64 + 64 <= usize::MAX,
    ensures
        is_blob_record(r@, data@, hash@, timestamp as nat),
{
    let len = data.len();
    let pad = padding_for_blob(len);
    let mut out: Vec<u8> = Vec::new();
    push_all(&mut out, &MAGIC_MARKER_BLOB, 16);
    let ts = write_u64_le(timestamp);
    push_all(&mut out, &ts, 8);
    let lb = write_u64_le(len as u64);
    push_all(&mut out, &lb, 8);
    push_all(&mut out, hash, 32);
    push_all(&mut out, data, len);
    let zeros = [0u8; 64];
    push_all(&mut out, &zeros, pad);
    proof {
        let r = out@;
        assert(MAGIC_MARKER_BLOB@.subrange(0, 16) =~= MAGIC_MARKER_BLOB@);
        assert(ts@.subrange(0, 8) =~= ts@);
        assert(lb@.subrange(0, 8) =~= lb@);
        assert(hash@.subrange(0, 32) =~= hash@);
        assert(data@.subrange(0, len as int) =~= data@);
        assert(r.subrange(0, 16) =~= MAGIC_MARKER_BLOB@);
        assert(r.subrange(16, 24) =~= ts@);
        assert(r.subrange(24, 32) =~= lb@);
        assert(r.subrange(32, 64) =~= hash@);
        assert(r.subrange(64, 64 + len) =~= data@);
        assert forall|i: int| 64 + len <= i < r.len() implies r[i] == 0 by {
            assert(r[i] == zeros@[i - 64 - len]);
        }
    }
    out
}

/// The record that sets the head of branch `id` to `hash`.
pub fn branch_record(id: &RawId, hash: &RawValue) -> (r: Vec<u8>)
    ensures
        is_branch_record(r@, id@, hash@),
{
    let mut out: Vec<u8> = Vec::new();
    push_all(&mut out, &MAGIC_MARKER_BRANCH, 16);
    push_all(&mut out, id, 16);
    push_all(&mut out, hash, 32);
    proof {
        let r = out@;
        assert(MAGIC_MARKER_BRANCH@.subrange(0, 16) =~= MAGIC_MARKER_BRANCH@);
        assert(id@.subrange(0, 16) =~= id@);
        assert(hash@.subrange(0, 32) =~= hash@);
        assert(r.subrange(0, 16) =~= MAGIC_MARKER_BRANCH@);
        assert(r.subrange(16, 32) =~= id@);
        assert(r.subrange(32, 64) =~= hash@);
    }
    out
}

/// Why a blob could not be read.
#[derive(Debug)]
pub enum GetBlobError {
    /// No blob with that hash has been read from the file.
    BlobNotFound,
    /// The bytes stored under the hash do not hash to it.
    ValidationError(Vec<u8>),
}

impl<const MAX_PILE_SIZE: usize> Pile<MAX_PILE_SIZE> {
    /// The hash of `data` and, when the pile does not know that hash yet,
    /// the record to append to the file for it.
    pub fn put(&self, data: &[u8], timestamp: u64) -> (r: (RawValue, Option<Vec<u8>>))
        requires
            data.len() + 64 + 64 <= usize::MAX,
        ensures
            r.0@ == spec_blake3(data@),
            r.1 is None <==> self.spec_blobs().contains_key(r.0@),
            r.1 matches Some(rec) ==> is_blob_record(rec@, data@, r.0@, timestamp as nat),
    {
        let hash = blake3_hash(data);
        proof {
            lemma_identity_tree_key::<32>(hash@);
        }
        if self.blobs.get(&hash).is_some() {
            (hash, None)
        } else {
            (hash, Some(blob_record(data, &hash, timestamp)))
        }
    }

    /// Notes that the record of a blob of `len` bytes under `hash` has been
    /// appended to the file; it is known from now on, though not read back.
    pub fn put_written(&mut self, hash: &RawValue, len: u64, timestamp: u64)
        requires
            old(self).spec_blobs().len() < u64::MAX,
        ensures
            final(self).spec_blobs() == old(self).spec_blobs().insert(hash@, IndexEntry::InFlight { len, timestamp }),
            final(self).spec_heads() == old(self).spec_heads(),
            final(self).spec_applied_length() == old(self).spec_applied_length(),
    {
        proof {
            lemma_identity_tree_key::<32>(hash@);
        }
        self.blobs.replace(Entry::with_value(hash, IndexEntry::InFlight { len, timestamp }));
    }

    /// The timestamp and length of the blob under `hash`.
    pub fn metadata(&self, hash: &RawValue) -> (r: Option<BlobMetadata>)
        ensures
            !self.spec_blobs().contains_key(hash@) ==> r is None,
            self.spec_blobs().contains_key(hash@) ==> r == Some(
                match self.spec_blobs()[hash@] {
                    IndexEntry::InFlight { len, timestamp } => BlobMetadata { timestamp, length: len },
                    IndexEntry::Stored { start, size, timestamp } => BlobMetadata { timestamp, length: size as u64 },
                },
            ),
    {
        proof {
            lemma_identity_tree_key::<32>(hash@);
        }
        match self.blobs.get(hash) {
            Some(IndexEntry::InFlight { len, timestamp }) => Some(BlobMetadata { timestamp: *timestamp, length: *len }),
            Some(IndexEntry::Stored { start, size, timestamp }) => Some(BlobMetadata { timestamp: *timestamp, length: *size as u64 }),
            None => None,
        }
    }

    /// The bytes of the blob under `hash`, read from `file`, checked against
    /// the hash.
    pub fn get(&self, file: &[u8], hash: &RawValue) -> (r: Result<Vec<u8>, GetBlobError>)
        requires
            stored_within(self.spec_blobs(), file.len() as int),
        ensures
            !(self.spec_blobs().contains_key(hash@) && self.spec_blobs()[hash@] is Stored) ==> r matches Err(GetBlobError::BlobNotFound),
            self.spec_blobs().contains_key(hash@) && self.spec_blobs()[hash@] is Stored ==> ({
                let e = self.spec_blobs()[hash@];
                let bytes = file@.subrange(e->start as int, e->start + e->size);
                if spec_blake3(bytes) == hash@ {
                    r matches Ok(v) && v@ == bytes
                } else {
                    r matches Err(GetBlobError::ValidationError(v)) && v@ == bytes
                }
            }),
    {
        proof {
            lemma_identity_tree_key::<32>(hash@);
        }
        match self.blobs.get(hash) {
            Some(IndexEntry::Stored { start, size, timestamp }) => {
                let start = *start;
                let size = *size;
                proof {
                    assert(self.spec_blobs().contains_key(hash@));
                }
                let mut bytes: Vec<u8> = Vec::new();
                let mut i: usize = 0;
                while i < size
                    invariant
                        i <= size,
                        start + size <= file.len(),
                        bytes@ == file@.subrange(start as int, start + i),
                    decreases size - i,
                {
                    bytes.push(file[start + i]);
                    proof {
                        assert(file@.subrange(start as int, start + i + 1) =~= file@.subrange(start as int, start + i).push(file@[start + i]));
                    }
                    i = i + 1;
                }
                let computed = blake3_hash(bytes.as_slice());
                let mut same = true;
                let mut j: usize = 0;
                while j < 32
                    invariant
                        j <= 32,
                        same <==> forall|x: int| 0 <= x < j ==> computed@[x] == hash@[x],
                    decreases 32 - j,
                {
                    if computed[j] != hash[j] {
                        same = false;
                    }
                    j = j + 1;
                }
                proof {
                    if same {
                        assert(computed@ =~= hash@);
                    } else {
                        let x = choose|x: int| 0 <= x < 32 && computed@[x] != hash@[x];
                        assert(computed@ != hash@);
                    }
                }
                if same {
                    Ok(bytes)
                } else {
                    Err(GetBlobError::ValidationError(bytes))
                }
            },
            _ => Err(GetBlobError::BlobNotFound),
        }
    }

    /// The head of branch `id`.
    pub fn head(&self, id: &RawId) -> (r: Option<RawValue>)
        ensures
            r is None <==> !self.spec_heads().contains_key(id@),
            r matches Some(h) ==> self.spec_heads()[id@] == h@,
    {
        proof {
            lemma_identity_tree_key::<16>(id@);
        }
        match self.branches.get(id) {
            Some(h) => Some(*h),
            None => None,
        }
    }

    /// The ids of the branches, each once.
    pub fn branches(&self) -> (r: PileBranchStoreIter)
        ensures
            r.spec_remaining().no_duplicates(),
            r.spec_remaining().to_set() == self.spec_heads().dom(),
    {
        let prefix: [u8; 0] = [];
        let ids = self.branches.infixes::<0, 16>(&prefix);
        let ghost seqs = ids@.map_values(|x: RawId| x@);
        proof {
            assert(seqs.no_duplicates()) by {
                assert forall|a: int, b: int| 0 <= a < seqs.len() && 0 <= b < seqs.len() && a != b implies seqs[a] != seqs[b] by {
                    if a < b {
                        assert(ids@[a]@ != ids@[b]@);
                    } else {
                        assert(ids@[b]@ != ids@[a]@);
                    }
                }
            }
            assert(seqs.to_set() =~= self.spec_heads().dom()) by {
                assert forall|x: Seq<u8>| #[trigger] seqs.to_set().contains(x) <==> self.spec_heads().dom().contains(x) by {
                    if seqs.to_set().contains(x) {
                        let j = choose|j: int| 0 <= j < seqs.len() && seqs[j] == x;
                        assert(crate::patch::node::views_from(ids@, 0).contains(ids@[j]@));
                    }
                    if self.spec_heads().dom().contains(x) {
                        assert(self.branches@.dom().contains(x));
                        assert(crate::patch::node::views_from(ids@, 0).contains(x));
                        let j = choose|j: int| 0 <= j < ids@.len() && (#[trigger] ids@[j])@ == x;
                        assert(seqs[j] == x);
                    }
                }
            }
        }
        let r = PileBranchStoreIter { ids, pos: 0 };
        proof {
            assert(ids@.subrange(0, ids@.len() as int) =~= ids@);
            assert(r.spec_remaining() =~= seqs);
        }
        r
    }

    /// Sets the head of branch `id` to `new` when it is `expected`; otherwise
    /// leaves it and answers with the current head.
    pub fn update(&mut self, id: &RawId, expected: Option<RawValue>, new: &RawValue) -> (r: PushResult)
        requires
            old(self).spec_heads().len() < u64::MAX,
        ensures
            final(self).spec_blobs() == old(self).spec_blobs(),
            final(self).spec_applied_length() == old(self).spec_applied_length(),
            ({
                let current = old(self).spec_heads().get(id@);
                let want = match expected {
                    Some(h) => Some(h@),
                    None => None,
                };
                if current == want {
                    r == PushResult::Success() && final(self).spec_heads() == old(self).spec_heads().insert(id@, new@)
                } else {
                    &&& r matches PushResult::Conflict(c)
                    &&& (c is None <==> current is None)
                    &&& (c matches Some(h) ==> current == Some(h@))
                    &&& final(self).spec_heads() == old(self).spec_heads()
                }
            }),
    {
        proof {
            assert(old(self).spec_heads().dom() =~= self.branches@.dom());
        }
        compare_and_swap(&mut self.branches, id, expected, new)
    }

    /// Notes that the file has been read up to `end`: the record written by
    /// a successful update, which the state already holds, is not read again.
    pub fn branch_written(&mut self, end: usize)
        ensures
            final(self).spec_blobs() == old(self).spec_blobs(),
            final(self).spec_heads() == old(self).spec_heads(),
            final(self).spec_applied_length() == end,
    {
        self.applied_length = end;
    }
}

/// The ids of the branches of a pile, handed out one by one.
pub struct PileBranchStoreIter {
    ids: Vec<RawId>,
    pos: usize,
}

impl PileBranchStoreIter {
    #[verifier::type_invariant]
    spec fn inv(self) -> bool {
        self.pos <= self.ids@.len()
    }

    /// The ids not handed out yet.
    pub closed spec fn spec_remaining(&self) -> Seq<Seq<u8>> {
        self.ids@.subrange(self.pos as int, self.ids@.len() as int).map_values(|x: RawId| x@)
    }

    /// The next id, or `None` when all have been handed out.
    pub fn next(&mut self) -> (r: Option<RawId>)
        ensures
            old(self).spec_remaining().len() == 0 ==> r is None && final(self).spec_remaining() == old(self).spec_remaining(),
            old(self).spec_remaining().len() > 0 ==> (r matches Some(id) && id@ == old(self).spec_remaining()[0])
                && final(self).spec_remaining() == old(self).spec_remaining().drop_first(),
    {
        proof {
            use_type_invariant(&*self);
        }
        if self.pos < self.ids.len() {
            let id = self.ids[self.pos];
            self.pos = self.pos + 1;
            proof {
                assert(old(self).spec_remaining()[0] == id@);
            }
            proof {
                assert(self.spec_remaining() =~= old(self).spec_remaining().drop_first());
            }
            Some(id)
        } else {
            None
        }
    }
}

/// A blob record appended to a file is read back as that blob, and nothing
/// else: its bytes are the blob's bytes.
pub proof fn lemma_blob_record_read_back(prefix: Seq<u8>, rec: Seq<u8>, data: Seq<u8>, hash: Seq<u8>, timestamp: nat)
    requires
        is_blob_record(rec, data, hash, timestamp),
    ensures
        scan(prefix + rec, prefix.len() as int) == (
            seq![RecordView::Blob { hash, timestamp, start: prefix.len() as int + 64, len: data.len() as int }],
            Option::<int>::None,
        ),
        (prefix + rec).subrange(prefix.len() as int + 64, prefix.len() as int + 64 + data.len()) == data,
{
    let file = prefix + rec;
    let p = prefix.len() as int;
    let len = data.len() as int;
    assert(file.subrange(p, p + 16) =~= rec.subrange(0, 16));
    assert(file.subrange(p + 16, p + 24) =~= rec.subrange(16, 24));
    assert(file.subrange(p + 24, p + 32) =~= rec.subrange(24, 32));
    assert(file.subrange(p + 32, p + 64) =~= rec.subrange(32, 64));
    assert(file.subrange(p + 64, p + 64 + len) =~= rec.subrange(64, 64 + len));
    assert(record_at(file, p) == Some(
        (RecordView::Blob { hash, timestamp, start: p + 64, len }, p + 64 + len + spec_padding(len)),
    ));
    assert(scan(file, file.len() as int) == (Seq::<RecordView>::empty(), Option::<int>::None));
    assert(seq![RecordView::Blob { hash, timestamp, start: p + 64, len }] + Seq::<RecordView>::empty()
        =~= seq![RecordView::Blob { hash, timestamp, start: p + 64, len }]);
}

/// A branch record with a non-nil id appended to a file is read back as
/// that branch and head.
pub proof fn lemma_branch_record_read_back(prefix: Seq<u8>, rec: Seq<u8>, id: Seq<u8>, hash: Seq<u8>)
    requires
        is_branch_record(rec, id, hash),
        !is_nil(id),
    ensures
        scan(prefix + rec, prefix.len() as int) == (seq![RecordView::Branch { id, hash }], Option::<int>::None),
{
    let file = prefix + rec;
    let p = prefix.len() as int;
    assert(file.subrange(p, p + 16) =~= rec.subrange(0, 16));
    assert(file.subrange(p + 16, p + 32) =~= rec.subrange(16, 32));
    assert(file.subrange(p + 32, p + 64) =~= rec.subrange(32, 64));
    assert(MAGIC_MARKER_BLOB@ != MAGIC_MARKER_BRANCH@) by {
        assert(MAGIC_MARKER_BLOB@[0] != MAGIC_MARKER_BRANCH@[0]);
    }
    assert(record_at(file, p) == Some((RecordView::Branch { id, hash }, p + 64)));
    assert(scan(file, file.len() as int) == (Seq::<RecordView>::empty(), Option::<int>::None));
    assert(seq![RecordView::Branch { id, hash }] + Seq::<RecordView>::empty() =~= seq![RecordView::Branch { id, hash }]);
}

/// What a pile reads back of a blob it wrote: once the record that `put`
/// made for `data` is in the file and has been read, the index places the
/// blob's hash on exactly the bytes of `data`, which hash to it; unless a
/// blob with that hash was stored already, in which case it keeps its place.
pub proof fn lemma_put_read_back(
    blobs: Map<Seq<u8>, IndexEntry>,
    heads: Map<Seq<u8>, Seq<u8>>,
    prefix: Seq<u8>,
    rec: Seq<u8>,
    data: Seq<u8>,
    timestamp: nat,
)
    requires
        is_blob_record(rec, data, spec_blake3(data), timestamp),
        !(blobs.contains_key(spec_blake3(data)) && blobs[spec_blake3(data)] is Stored),
        prefix.len() + rec.len() <= usize::MAX,
        timestamp <= u64::MAX,
    ensures
        ({
            let file = prefix + rec;
            let hash = spec_blake3(data);
            let (rs, err) = scan(file, prefix.len() as int);
            let (b, h) = apply_records(blobs, heads, rs);
            &&& err is None
            &&& h == heads
            &&& b.contains_key(hash)
            &&& b[hash] == IndexEntry::Stored { start: (prefix.len() + 64) as usize, size: data.len() as usize, timestamp: timestamp as u64 }
            &&& file.subrange(b[hash]->start as int, b[hash]->start + b[hash]->size) == data
            &&& spec_blake3(file.subrange(b[hash]->start as int, b[hash]->start + b[hash]->size)) == hash
        }),
{
    let hash = spec_blake3(data);
    lemma_blob_record_read_back(prefix, rec, data, hash, timestamp);
    let rs = seq![RecordView::Blob { hash, timestamp, start: prefix.len() as int + 64, len: data.len() as int }];
    assert(rs.drop_last() =~= Seq::<RecordView>::empty());
    assert(apply_records(blobs, heads, rs.drop_last()) == (blobs, heads));
    assert(apply_records(blobs, heads, rs) == apply_record(blobs, heads, rs.last()));
}

} // verus!
