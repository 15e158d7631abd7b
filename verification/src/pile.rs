//! The first pile format: an append-only file of 64-byte aligned records
//! whose blobs are followed by 1 to 64 bytes of padding. A pile in this format
//! is read whole when it is loaded; it keeps a blob index whose entries are
//! checked against their hashes when they are first read.
use vstd::prelude::*;

use crate::id::RawId;
use crate::patch::entry::Entry;
use crate::patch::{lemma_identity_tree_key, IdentitySchema, PATCH};
use crate::repo::pile::{
    blake3_hash, branch_record, is_branch_record, le_value, marker_at, push_all, read_id, read_u64_le, read_value, spec_blake3,
    write_u64_le, Record, RecordView, MAGIC_MARKER_BLOB, MAGIC_MARKER_BRANCH,
};
use crate::value::RawValue;

verus! {

/// Whether a blob has been checked against its hash.
#[derive(Debug, Clone, Copy, PartialEq, Eq)]
pub enum ValidationState {
    /// Not checked yet.
    Unvalidated,
    /// The bytes hash to the hash.
    Validated,
    /// The bytes do not hash to the hash.
    Invalid,
}

/// Where the bytes of an indexed blob lie in the file, and whether they
/// have been checked.
#[derive(Debug, Clone, Copy, PartialEq, Eq)]
pub struct IndexEntry {
    pub start: usize,
    pub len: usize,
    pub state: ValidationState,
}

/// Why a pile could not be loaded.
#[derive(Debug)]
pub enum LoadError {
    IoError(std::io::Error),
    /// A record starts with an unknown marker.
    MagicMarkerError,
    /// A record header is cut short.
    HeaderError,
    /// A record is cut short.
    UnexpectedEndOfFile,
    /// The file is not a multiple of 64 bytes long.
    FileLengthError,
    /// The file is longer than the pile may grow.
    PileTooLarge,
}

/// Why a blob or branch could not be written.
#[derive(Debug)]
pub enum InsertError {
    IoError(std::io::Error),
    PoisonError,
    /// The record would make the pile longer than it may grow.
    PileTooLarge,
}

/// Why a blob could not be read.
#[derive(Debug)]
pub enum GetError {
    PoisonError,
    /// The stored bytes do not hash to the hash they are stored under.
    ValidationError(Vec<u8>),
}

/// Why the file could not be synced.
#[derive(Debug)]
pub enum FlushError {
    IoError(std::io::Error),
    PoisonError,
}

/// What is wrong with a malformed record.
pub enum LoadFault {
    MagicMarker,
    Header,
    UnexpectedEnd,
}

/// The padding after a blob of `len` bytes: 1 to 64 bytes.
pub open spec fn spec_padding(len: int) -> int {
    64 - len % 64
}

/// The padding after a blob of `len` bytes.
pub fn padding(len: usize) -> (r: usize)
    ensures
        r == spec_padding(len as int),
        1 <= r <= 64,
{
    64 - len % 64
}

/// The record at `pos` and the position after it, or what is wrong with it.
pub open spec fn record_at(file: Seq<u8>, pos: int) -> Result<(RecordView, int), LoadFault> {
    let rest = file.len() - pos;
    if rest < 16 {
        Err(LoadFault::UnexpectedEnd)
    } else if file.subrange(pos, pos + 16) == MAGIC_MARKER_BLOB@ {
        if rest < 64 {
            Err(LoadFault::Header)
        } else {
            let len = le_value(file.subrange(pos + 24, pos + 32)) as int;
            if len + spec_padding(len) > rest - 64 {
                Err(LoadFault::UnexpectedEnd)
            } else {
                Ok(
                    (
                        RecordView::Blob {
                            hash: file.subrange(pos + 32, pos + 64),
                            timestamp: le_value(file.subrange(pos + 16, pos + 24)),
                            start: pos + 64,
                            len,
                        },
                        pos + 64 + len + spec_padding(len),
                    ),
                )
            }
        }
    } else if file.subrange(pos, pos + 16) == MAGIC_MARKER_BRANCH@ {
        if rest < 64 {
            Err(LoadFault::Header)
        } else {
            Ok((RecordView::Branch { id: file.subrange(pos + 16, pos + 32), hash: file.subrange(pos + 32, pos + 64) }, pos + 64))
        }
    } else {
        Err(LoadFault::MagicMarker)
    }
}

/// The records from `pos` to the end of the file, and what is wrong with
/// the first malformed one, if there is one.
pub open spec fn scan(file: Seq<u8>, pos: int) -> (Seq<RecordView>, Option<LoadFault>)
    decreases file.len() - pos,
{
    if pos < 0 || pos >= file.len() {
        (Seq::empty(), None)
    } else {
        match record_at(file, pos) {
            Err(f) => (Seq::empty(), Some(f)),
            Ok((r, next)) => if next > pos {
                let (rs, err) = scan(file, next);
                (seq![r] + rs, err)
            } else {
                (Seq::empty(), Some(LoadFault::UnexpectedEnd))
            },
        }
    }
}

/// The effect of the records `rs` on the blob index and the branch heads:
/// the last record of a hash or a branch wins; blobs start unchecked.
pub open spec fn apply_records(
    index: Map<Seq<u8>, IndexEntry>,
    heads: Map<Seq<u8>, Seq<u8>>,
    rs: Seq<RecordView>,
) -> (Map<Seq<u8>, IndexEntry>, Map<Seq<u8>, Seq<u8>>)
    decreases rs.len(),
{
    if rs.len() == 0 {
        (index, heads)
    } else {
        let (i, h) = apply_records(index, heads, rs.drop_last());
        match rs.last() {
            RecordView::Blob { hash, timestamp, start, len } => (
                i.insert(hash, IndexEntry { start: start as usize, len: len as usize, state: ValidationState::Unvalidated }),
                h,
            ),
            RecordView::Branch { id, hash } => (i, h.insert(id, hash)),
        }
    }
}

/// Taking in records leaves each branch at the hash of its last branch
/// record: when record `i` sets branch `id` to `hash` and no later record
/// names that branch, the branch's head afterwards is `hash`, whatever it
/// was before and whatever earlier records said.
pub proof fn lemma_last_branch_record_wins(
    index: Map<Seq<u8>, IndexEntry>,
    heads: Map<Seq<u8>, Seq<u8>>,
    rs: Seq<RecordView>,
    i: int,
    id: Seq<u8>,
    hash: Seq<u8>,
)
    requires
        0 <= i < rs.len(),
        rs[i] == (RecordView::Branch { id, hash }),
        forall|j: int| i < j < rs.len() ==> !(#[trigger] rs[j] matches RecordView::Branch { id: other, .. } && other == id),
    ensures
        apply_records(index, heads, rs).1.contains_key(id),
        apply_records(index, heads, rs).1[id] == hash,
    decreases rs.len(),
{
    if i < rs.len() - 1 {
        let front = rs.drop_last();
        assert forall|j: int| i < j < front.len() implies !(#[trigger] front[j] matches RecordView::Branch { id: other, .. } && other == id) by {
            assert(front[j] == rs[j]);
        }
        lemma_last_branch_record_wins(index, heads, front, i, id, hash);
        assert(!(rs[rs.len() - 1] matches RecordView::Branch { id: other, .. } && other == id));
    }
}

/// A branch that no record names keeps its head.
pub proof fn lemma_unnamed_branch_kept(
    index: Map<Seq<u8>, IndexEntry>,
    heads: Map<Seq<u8>, Seq<u8>>,
    rs: Seq<RecordView>,
    id: Seq<u8>,
)
    requires
        forall|j: int| 0 <= j < rs.len() ==> !(#[trigger] rs[j] matches RecordView::Branch { id: other, .. } && other == id),
    ensures
        apply_records(index, heads, rs).1.get(id) == heads.get(id),
    decreases rs.len(),
{
    if rs.len() > 0 {
        let front = rs.drop_last();
        assert forall|j: int| 0 <= j < front.len() implies !(#[trigger] front[j] matches RecordView::Branch { id: other, .. } && other == id) by {
            assert(front[j] == rs[j]);
        }
        lemma_unnamed_branch_kept(index, heads, front, id);
        assert(!(rs[rs.len() - 1] matches RecordView::Branch { id: other, .. } && other == id));
    }
}

/// Whether `e` is the load error for the fault `f`.
pub open spec fn fault_error(e: LoadError, f: LoadFault) -> bool {
    match f {
        LoadFault::MagicMarker => e is MagicMarkerError,
        LoadFault::Header => e is HeaderError,
        LoadFault::UnexpectedEnd => e is UnexpectedEndOfFile,
    }
}

/// Reads the record at `pos`.
fn read_record(file: &[u8], pos: usize) -> (r: Result<(Record, usize), LoadFault>)
    requires
        pos <= file.len(),
    ensures
        r matches Ok((rec, next)) ==> record_at(file@, pos as int) == Ok::<(RecordView, int), LoadFault>((rec@, next as int)),
        r matches Err(f) ==> record_at(file@, pos as int) == Err::<(RecordView, int), LoadFault>(f),
{
    let rest = file.len() - pos;
    if rest < 16 {
        return Err(LoadFault::UnexpectedEnd);
    }
    if marker_at(file, pos, &MAGIC_MARKER_BLOB) {
        if rest < 64 {
            return Err(LoadFault::Header);
        }
        let timestamp = read_u64_le(file, pos + 16);
        let length = read_u64_le(file, pos + 24);
        let hash = read_value(file, pos + 32);
        let avail = rest - 64;
        if length > avail as u64 {
            return Err(LoadFault::UnexpectedEnd);
        }
        let len = length as usize;
        let pad = padding(len);
        if pad > avail - len {
            return Err(LoadFault::UnexpectedEnd);
        }
        let start = pos + 64;
        Ok((Record::Blob { hash, timestamp, start, len }, start + len + pad))
    } else if marker_at(file, pos, &MAGIC_MARKER_BRANCH) {
        if rest < 64 {
            return Err(LoadFault::Header);
        }
        let id = read_id(file, pos + 16);
        let hash = read_value(file, pos + 32);
        Ok((Record::Branch { id, hash }, pos + 64))
    } else {
        Err(LoadFault::MagicMarker)
    }
}

/// A pile of at most `MAX_PILE_SIZE` bytes: its blob index, its branch
/// heads and its length.
pub struct Pile<const MAX_PILE_SIZE: usize> {
    index: PATCH<32, IdentitySchema, IndexEntry>,
    branches: PATCH<16, IdentitySchema, RawValue>,
    length: usize,
}

impl<const MAX_PILE_SIZE: usize> Pile<MAX_PILE_SIZE> {
    /// The blob index, by hash.
    pub closed spec fn spec_index(&self) -> Map<Seq<u8>, IndexEntry> {
        self.index@
    }

    /// The head of each branch, by id.
    pub closed spec fn spec_heads(&self) -> Map<Seq<u8>, Seq<u8>> {
        self.branches@.map_values(|v: RawValue| v@)
    }

    /// The length of the file.
    pub closed spec fn spec_length(&self) -> int {
        self.length as int
    }

    /// The pile held by `file`: all its records, the last record of each
    /// hash and of each branch winning.
    pub fn load(file: &[u8]) -> (r: Result<Self, LoadError>)
        requires
            file.len() < u64::MAX,
        ensures
            file.len() > MAX_PILE_SIZE ==> r matches Err(LoadError::PileTooLarge),
            file.len() <= MAX_PILE_SIZE && file.len() % 64 != 0 ==> r matches Err(LoadError::FileLengthError),
            file.len() <= MAX_PILE_SIZE && file.len() % 64 == 0 ==> ({
                let (rs, err) = scan(file@, 0);
                match err {
                    Some(f) => r matches Err(e) && fault_error(e, f),
                    None => r matches Ok(p) && ({
                        let (i, h) = apply_records(Map::empty(), Map::empty(), rs);
                        &&& p.spec_index() == i
                        &&& p.spec_heads() == h
                        &&& p.spec_length() == file.len()
                        &&& forall|k: int| 0 <= k < rs.len() ==> (#[trigger] rs[k] matches RecordView::Branch { id, hash } ==> (
                            forall|j: int| k < j < rs.len() ==> !(#[trigger] rs[j] matches RecordView::Branch { id: other, .. } && other == id))
                            ==> p.spec_heads().contains_key(id) && p.spec_heads()[id] == hash)
                    }),
                }
            }),
    {
        let file_len = file.len();
        if file_len > MAX_PILE_SIZE {
            return Err(LoadError::PileTooLarge);
        }
        if file_len % 64 != 0 {
            return Err(LoadError::FileLengthError);
        }
        let mut index: PATCH<32, IdentitySchema, IndexEntry> = PATCH::new();
        let mut branches: PATCH<16, IdentitySchema, RawValue> = PATCH::new();
        let ghost total = scan(file@, 0);
        let ghost mut done: Seq<RecordView> = Seq::empty();
        let mut pos: usize = 0;
        proof {
            assert(total.0 =~= done + scan(file@, 0).0);
        }
        while pos < file_len
            invariant
                pos <= file_len,
                file_len == file.len(),
                file_len < u64::MAX,
                file_len <= MAX_PILE_SIZE,
                file_len % 64 == 0,
                total == scan(file@, 0),
                total.0 == done + scan(file@, pos as int).0,
                total.1 == scan(file@, pos as int).1,
                (index@, branches@.map_values(|v: RawValue| v@)) == apply_records(Map::empty(), Map::empty(), done),
                index@.dom().finite(),
                branches@.dom().finite(),
                index@.len() <= pos,
                branches@.len() <= pos,
            decreases file_len - pos,
        {
            match read_record(file, pos) {
                Err(f) => {
                    proof {
                        assert(scan(file@, pos as int).1 == Some(f));
                    }
                    return Err(
                        match f {
                            LoadFault::MagicMarker => LoadError::MagicMarkerError,
                            LoadFault::Header => LoadError::HeaderError,
                            LoadFault::UnexpectedEnd => LoadError::UnexpectedEndOfFile,
                        },
                    );
                },
                Ok((rec, next)) => {
                    let ghost hs = branches@.map_values(|v: RawValue| v@);
                    match rec {
                        Record::Blob { hash, timestamp, start, len } => {
                            proof {
                                lemma_identity_tree_key::<32>(hash@);
                            }
                            index.replace(Entry::with_value(&hash, IndexEntry { start, len, state: ValidationState::Unvalidated }));
                        },
                        Record::Branch { id, hash } => {
                            proof {
                                lemma_identity_tree_key::<16>(id@);
                                assert(hs.dom() =~= branches@.dom());
                            }
                            branches.replace(Entry::with_value(&id, hash));
                            proof {
                                assert(branches@.map_values(|v: RawValue| v@) =~= hs.insert(id@, hash@));
                            }
                        },
                    }
                    proof {
                        let nd = done.push(rec@);
                        assert(nd.drop_last() =~= done);
                        assert(total.0 =~= nd + scan(file@, next as int).0);
                        done = nd;
                    }
                    pos = next;
                },
            }
        }
        let r = Pile { index, branches, length: file_len };
        proof {
            assert(total.0 =~= done);
            let rs = scan(file@, 0).0;
            assert forall|k: int| 0 <= k < rs.len() implies (#[trigger] rs[k] matches RecordView::Branch { id, hash } ==> (
                forall|j: int| k < j < rs.len() ==> !(#[trigger] rs[j] matches RecordView::Branch { id: other, .. } && other == id))
                ==> r.spec_heads().contains_key(id) && r.spec_heads()[id] == hash) by {
                if let RecordView::Branch { id, hash } = rs[k] {
                    if forall|j: int| k < j < rs.len() ==> !(#[trigger] rs[j] matches RecordView::Branch { id: other, .. } && other == id) {
                        lemma_last_branch_record_wins(Map::empty(), Map::empty(), rs, k, id, hash);
                    }
                }
            }
        }
        Ok(r)
    }
}

/// Whether `rec` is the record of the blob `data` stored under `hash` at
/// `timestamp`: the header, the blob, then 1 to 64 zero bytes.
pub open spec fn is_blob_record(rec: Seq<u8>, data: Seq<u8>, hash: Seq<u8>, timestamp: nat) -> bool {
    let len = data.len() as int;
    &&& rec.len() == 64 + len + spec_padding(len)
    &&& rec.subrange(0, 16) == MAGIC_MARKER_BLOB@
    &&& le_value(rec.subrange(16, 24)) == timestamp
    &&& le_value(rec.subrange(24, 32)) == len
    &&& rec.subrange(32, 64) == hash
    &&& rec.subrange(64, 64 + len) == data
    &&& forall|i: int| 64 + len <= i < rec.len() ==> rec[i] == 0
}

/// The record of the blob `data` stored under `hash` at `timestamp`.
pub fn blob_record(data: &[u8], hash: &RawValue, timestamp: u64) -> (r: Vec<u8>)
    requires
        data.len() + 64 + 64 <= usize::MAX,
    ensures
        is_blob_record(r@, data@, hash@, timestamp as nat),
{
    let len = data.len();
    let pad = padding(len);
    let mut out: Vec<u8> = Vec::new();
    push_all(&mut out, &MAGIC_MARKER_BLOB, 16);
    let ts = write_u64_le(timestamp);
    push_all(&mut out, &ts, 8);
    let lb = write_u64_le(len as u64);
    push_all(&mut out, &lb, 8);
    push_all(&mut out, hash, 32);
    push_all(&mut out, data, len);
    let zeros = [0u8; 64];
    push_all(&mut out, &zeros, pad);
    proof {
        let r = out@;
        assert(MAGIC_MARKER_BLOB@.subrange(0, 16) =~= MAGIC_MARKER_BLOB@);
        assert(ts@.subrange(0, 8) =~= ts@);
        assert(lb@.subrange(0, 8) =~= lb@);
        assert(hash@.subrange(0, 32) =~= hash@);
        assert(data@.subrange(0, len as int) =~= data@);
        assert(r.subrange(0, 16) =~= MAGIC_MARKER_BLOB@);
        assert(r.subrange(16, 24) =~= ts@);
        assert(r.subrange(24, 32) =~= lb@);
        assert(r.subrange(32, 64) =~= hash@);
        assert(r.subrange(64, 64 + len) =~= data@);
        assert forall|i: int| 64 + len <= i < r.len() implies r[i] == 0 by {
            assert(r[i] == zeros@[i - 64 - len]);
        }
    }
    out
}

/// Every entry of the index lies within the first `n` bytes of the file.
pub open spec fn entries_within(index: Map<Seq<u8>, IndexEntry>, n: int) -> bool {
    forall|h: Seq<u8>| #[trigger] index.contains_key(h) ==> index[h].start + index[h].len <= n
}

impl<const MAX_PILE_SIZE: usize> Pile<MAX_PILE_SIZE> {
    /// Makes room for the record of a blob of `value.len()` bytes under
    /// `hash`: the pile grows by the record, which is handed back together
    /// with the length of the pile before it. Fails when the pile would grow
    /// beyond its limit.
    pub fn insert_blob_raw(&mut self, hash: &RawValue, value: &[u8], timestamp: u64) -> (r: Result<(Vec<u8>, usize), InsertError>)
        requires
            value.len() + 64 + 64 <= usize::MAX,
        ensures
            final(self).spec_index() == old(self).spec_index(),
            final(self).spec_heads() == old(self).spec_heads(),
            ({
                let grown = old(self).spec_length() + 64 + value.len() + spec_padding(value.len() as int);
                if grown > MAX_PILE_SIZE {
                    (r matches Err(InsertError::PileTooLarge)) && final(self).spec_length() == old(self).spec_length()
                } else {
                    r matches Ok((rec, at)) && at == old(self).spec_length() && is_blob_record(rec@, value@, hash@, timestamp as nat)
                        && final(self).spec_length() == grown
                }
            }),
    {
        let old_length = self.length;
        let pad = padding(value.len());
        let size = 64 + value.len() + pad;
        if old_length > MAX_PILE_SIZE || size > MAX_PILE_SIZE - old_length {
            return Err(InsertError::PileTooLarge);
        }
        self.length = old_length + size;
        Ok((blob_record(value, hash, timestamp), old_length))
    }

    /// Makes room for the record of `value`, stored under its hash; the hash
    /// comes back with the record and where it goes.
    pub fn insert_blob(&mut self, value: &[u8], timestamp: u64) -> (r: Result<(RawValue, Vec<u8>, usize), InsertError>)
        requires
            value.len() + 64 + 64 <= usize::MAX,
        ensures
            final(self).spec_index() == old(self).spec_index(),
            final(self).spec_heads() == old(self).spec_heads(),
            ({
                let grown = old(self).spec_length() + 64 + value.len() + spec_padding(value.len() as int);
                if grown > MAX_PILE_SIZE {
                    (r matches Err(InsertError::PileTooLarge)) && final(self).spec_length() == old(self).spec_length()
                } else {
                    r matches Ok((hash, rec, at)) && hash@ == spec_blake3(value@) && at == old(self).spec_length()
                        && is_blob_record(rec@, value@, hash@, timestamp as nat) && final(self).spec_length() == grown
                }
            }),
    {
        let hash = blake3_hash(value);
        match self.insert_blob_raw(&hash, value, timestamp) {
            Ok((rec, at)) => Ok((hash, rec, at)),
            Err(e) => Err(e),
        }
    }

    /// Indexes a blob whose record was written at `at`: its entry starts
    /// there, `len` bytes long, in the given state.
    pub fn blob_written(&mut self, hash: &RawValue, state: ValidationState, at: usize, len: usize)
        requires
            old(self).spec_index().len() < u64::MAX,
        ensures
            final(self).spec_index() == old(self).spec_index().insert(hash@, IndexEntry { start: at, len, state }),
            final(self).spec_heads() == old(self).spec_heads(),
            final(self).spec_length() == old(self).spec_length(),
    {
        proof {
            lemma_identity_tree_key::<32>(hash@);
        }
        self.index.replace(Entry::with_value(hash, IndexEntry { start: at, len, state }));
    }

    /// The bytes of the blob under `hash`, read from `file`. A blob that was
    /// not checked yet is checked now, and its state kept.
    pub fn get_blob(&mut self, file: &[u8], hash: &RawValue) -> (r: Result<Option<Vec<u8>>, GetError>)
        requires
            entries_within(old(self).spec_index(), file.len() as int),
            old(self).spec_index().len() < u64::MAX,
        ensures
            final(self).spec_heads() == old(self).spec_heads(),
            final(self).spec_length() == old(self).spec_length(),
            !old(self).spec_index().contains_key(hash@) ==> (r matches Ok(None)) && final(self).spec_index() == old(self).spec_index(),
            old(self).spec_index().contains_key(hash@) ==> ({
                let e = old(self).spec_index()[hash@];
                let bytes = file@.subrange(e.start as int, e.start + e.len);
                match e.state {
                    ValidationState::Validated => (r matches Ok(Some(v)) && v@ == bytes) && final(self).spec_index() == old(self).spec_index(),
                    ValidationState::Invalid => (r matches Err(GetError::ValidationError(v)) && v@ == bytes)
                        && final(self).spec_index() == old(self).spec_index(),
                    ValidationState::Unvalidated => if spec_blake3(bytes) == hash@ {
                        (r matches Ok(Some(v)) && v@ == bytes) && final(self).spec_index() == old(self).spec_index().insert(
                            hash@,
                            IndexEntry { state: ValidationState::Validated, ..e },
                        )
                    } else {
                        (r matches Err(GetError::ValidationError(v)) && v@ == bytes) && final(self).spec_index() == old(
                            self,
                        ).spec_index().insert(hash@, IndexEntry { state: ValidationState::Invalid, ..e })
                    },
                }
            }),
    {
        proof {
            lemma_identity_tree_key::<32>(hash@);
        }
        let entry = match self.index.get(hash) {
            Some(e) => *e,
            None => {
                return Ok(None);
            },
        };
        proof {
            assert(old(self).spec_index().contains_key(hash@));
        }
        let mut bytes: Vec<u8> = Vec::new();
        let mut i: usize = 0;
        while i < entry.len
            invariant
                i <= entry.len,
                entry.start + entry.len <= file.len(),
                bytes@ == file@.subrange(entry.start as int, entry.start + i),
            decreases entry.len - i,
        {
            bytes.push(file[entry.start + i]);
            proof {
                assert(file@.subrange(entry.start as int, entry.start + i + 1) =~= file@.subrange(entry.start as int, entry.start + i).push(
                    file@[entry.start + i],
                ));
            }
            i = i + 1;
        }
        match entry.state {
            ValidationState::Validated => Ok(Some(bytes)),
            ValidationState::Invalid => Err(GetError::ValidationError(bytes)),
            ValidationState::Unvalidated => {
                let computed = blake3_hash(bytes.as_slice());
                let mut same = true;
                let mut j: usize = 0;
                while j < 32
                    invariant
                        j <= 32,
                        same <==> forall|x: int| 0 <= x < j ==> computed@[x] == hash@[x],
                    decreases 32 - j,
                {
                    if computed[j] != hash[j] {
                        same = false;
                    }
                    j = j + 1;
                }
                proof {
                    if same {
                        assert(computed@ =~= hash@);
                    } else {
                        let x = choose|x: int| 0 <= x < 32 && computed@[x] != hash@[x];
                    }
                }
                if same {
                    self.index.replace(Entry::with_value(hash, IndexEntry { state: ValidationState::Validated, ..entry }));
                    Ok(Some(bytes))
                } else {
                    self.index.replace(Entry::with_value(hash, IndexEntry { state: ValidationState::Invalid, ..entry }));
                    Err(GetError::ValidationError(bytes))
                }
            },
        }
    }

    /// Makes room for the record that sets the head of branch `id` to
    /// `hash`, and hands it back. Fails when the pile would grow beyond its
    /// limit.
    pub fn commit_branch(&mut self, id: &RawId, hash: &RawValue) -> (r: Result<Vec<u8>, InsertError>)
        ensures
            final(self).spec_index() == old(self).spec_index(),
            final(self).spec_heads() == old(self).spec_heads(),
            old(self).spec_length() + 64 > MAX_PILE_SIZE ==> (r matches Err(InsertError::PileTooLarge))
                && final(self).spec_length() == old(self).spec_length(),
            old(self).spec_length() + 64 <= MAX_PILE_SIZE ==> (r matches Ok(rec) && is_branch_record(rec@, id@, hash@))
                && final(self).spec_length() == old(self).spec_length() + 64,
    {
        if self.length > MAX_PILE_SIZE || 64 > MAX_PILE_SIZE - self.length {
            return Err(InsertError::PileTooLarge);
        }
        self.length = self.length + 64;
        Ok(branch_record(id, hash))
    }

    /// Notes that the record setting the head of branch `id` to `hash` was
    /// written.
    pub fn branch_written(&mut self, id: &RawId, hash: &RawValue)
        requires
            old(self).spec_heads().len() < u64::MAX,
        ensures
            final(self).spec_index() == old(self).spec_index(),
            final(self).spec_heads() == old(self).spec_heads().insert(id@, hash@),
            final(self).spec_length() == old(self).spec_length(),
    {
        proof {
            lemma_identity_tree_key::<16>(id@);
            assert(old(self).spec_heads().dom() =~= self.branches@.dom());
        }
        self.branches.replace(Entry::with_value(id, *hash));
        proof {
            assert(self.spec_heads() =~= old(self).spec_heads().insert(id@, hash@));
        }
    }

    /// The head of branch `id`.
    pub fn get_branch(&self, id: &RawId) -> (r: Option<RawValue>)
        ensures
            r is None <==> !self.spec_heads().contains_key(id@),
            r matches Some(h) ==> self.spec_heads()[id@] == h@,
    {
        proof {
            lemma_identity_tree_key::<16>(id@);
        }
        match self.branches.get(id) {
            Some(h) => Some(*h),
            None => None,
        }
    }
}

/// A blob record written by `insert_blob_raw` at the end of a file is read
/// back by `load` as that blob.
pub proof fn lemma_blob_record_loads(prefix: Seq<u8>, rec: Seq<u8>, data: Seq<u8>, hash: Seq<u8>, timestamp: nat)
    requires
        is_blob_record(rec, data, hash, timestamp),
    ensures
        scan(prefix + rec, prefix.len() as int) == (
            seq![RecordView::Blob { hash, timestamp, start: prefix.len() as int + 64, len: data.len() as int }],
            Option::<LoadFault>::None,
        ),
        (prefix + rec).subrange(prefix.len() as int + 64, prefix.len() as int + 64 + data.len()) == data,
{
    let file = prefix + rec;
    let p = prefix.len() as int;
    let len = data.len() as int;
    assert(file.subrange(p, p + 16) =~= rec.subrange(0, 16));
    assert(file.subrange(p + 16, p + 24) =~= rec.subrange(16, 24));
    assert(file.subrange(p + 24, p + 32) =~= rec.subrange(24, 32));
    assert(file.subrange(p + 32, p + 64) =~= rec.subrange(32, 64));
    assert(file.subrange(p + 64, p + 64 + len) =~= rec.subrange(64, 64 + len));
    assert(record_at(file, p) == Ok::<(RecordView, int), LoadFault>(
        (RecordView::Blob { hash, timestamp, start: p + 64, len }, p + 64 + len + spec_padding(len)),
    ));
    assert(scan(file, file.len() as int) == (Seq::<RecordView>::empty(), Option::<LoadFault>::None));
    assert(seq![RecordView::Blob { hash, timestamp, start: p + 64, len }] + Seq::<RecordView>::empty()
        =~= seq![RecordView::Blob { hash, timestamp, start: p + 64, len }]);
}

} // verus!
