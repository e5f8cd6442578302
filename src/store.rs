use vstd::prelude::*;
use vstd::string::StringExecFns;
use crate::bytes::copy_bytes;
use crate::block::{block_bytes, block_holds, lemma_block_round_trip, lookup_spec, parse_block, Block};
use crate::decimal::{chars_of, decimal_string, decimal_text, parse_u32, parses_as_u32, u32_value};
use crate::entry::Entry;
use crate::error::StoreError;
use crate::page::strings_view;
use crate::refid::Ref;

verus! {

/// The compression level every block is written with.
pub const COMPRESSION_LEVEL: i32 = 3;

/// The target size of the trained dictionary, in bytes.
pub const DICTIONARY_SIZE: usize = 150000;

/// What zstd's dictionary trainer makes of samples laid end to end in
/// `data`, of the given sizes, for a target size: the dictionary, or `None`
/// when training fails.
pub uninterp spec fn trained_dictionary(data: Seq<u8>, sizes: Seq<usize>, max_size: usize) -> Option<Seq<u8>>;

/// What compressing `data` into one zstd frame with `dict` at `level`
/// gives: the frame, or `None` when zstd refuses.
pub uninterp spec fn compressed_frame(data: Seq<u8>, dict: Seq<u8>, level: i32) -> Option<Seq<u8>>;

/// What decompressing `frame` with `dict` gives: the bytes, or `None` when
/// the dictionary does not load or the frame does not decode.
pub uninterp spec fn decompressed(frame: Seq<u8>, dict: Seq<u8>) -> Option<Seq<u8>>;

pub open spec fn vec_view(r: Option<Vec<u8>>) -> Option<Seq<u8>> {
    match r {
        Some(v) => Some(v@),
        None => None,
    }
}

/// Relies on `zstd::dict::from_continuous`: the outcome depends on the
/// samples and the target size alone. It adds the sizes up and reserves
/// `max_size` bytes, so both must stay in range.
#[verifier::external_body]
fn train_dictionary(data: &[u8], sizes: &[usize], max_size: usize) -> (r: Option<Vec<u8>>)
    requires
        sizes_total(sizes@) <= usize::MAX,
        max_size <= isize::MAX,
    ensures
        vec_view(r) == trained_dictionary(data@, sizes@, max_size),
{
    zstd::dict::from_continuous(data, sizes, max_size).ok()
}

/// Relies on `zstd::bulk::Compressor::with_dictionary` and its `compress`:
/// the outcome depends on the arguments alone, and a frame it makes
/// decompresses with the same dictionary to `data`.
#[verifier::external_body]
fn compress_with_dictionary(data: &[u8], dict: &[u8], level: i32) -> (r: Option<Vec<u8>>)
    ensures
        vec_view(r) == compressed_frame(data@, dict@, level),
        r matches Some(c) ==> decompressed(c@, dict@) == Some(data@),
{
    let mut c = match zstd::bulk::Compressor::with_dictionary(level, dict) {
        Ok(c) => c,
        Err(_) => return None,
    };
    c.compress(data).ok()
}

/// Relies on `zstd::stream::read::Decoder::with_dictionary` read to the
/// end: the outcome depends on the frame and the dictionary alone.
#[verifier::external_body]
fn decompress_with_dictionary(frame: &[u8], dict: &[u8]) -> (r: Option<Vec<u8>>)
    ensures
        vec_view(r) == decompressed(frame@, dict@),
{
    let mut out = Vec::new();
    let mut dec = match zstd::stream::read::Decoder::with_dictionary(frame, dict) {
        Ok(dec) => dec,
        Err(_) => return None,
    };
    match std::io::Read::read_to_end(&mut dec, &mut out) {
        Ok(_) => Some(out),
        Err(_) => None,
    }
}

/// The per-entry sample sizes of a block: each offset's distance to the
/// next, the last one's to the end of the data.
pub open spec fn sample_sizes_spec(starts: Seq<u64>, len: int) -> Seq<usize> {
    Seq::new(
        starts.len(),
        |i: int|
            (if i + 1 < starts.len() {
                starts[i + 1] - starts[i]
            } else {
                len - starts[i]
            }) as usize,
    )
}

/// Offset `i` is not past offset `i + 1`.
pub open spec fn ordered_at(starts: Seq<u64>, i: int) -> bool {
    starts[i] <= starts[i + 1]
}

pub open spec fn size_at(starts: Seq<u64>, len: int, j: int) -> int {
    if j + 1 < starts.len() {
        starts[j + 1] - starts[j]
    } else {
        len - starts[j]
    }
}

/// The sum of the sizes.
pub open spec fn sizes_total(sizes: Seq<usize>) -> int
    decreases sizes.len(),
{
    if sizes.len() == 0 {
        0
    } else {
        sizes_total(sizes.drop_last()) + sizes.last()
    }
}

/// The offsets start at zero, never decrease and stay within the data.
pub open spec fn offsets_ok(starts: Seq<u64>, len: int) -> bool {
    &&& starts.len() > 0 ==> starts[0] == 0
    &&& forall|i: int| 0 <= i < starts.len() - 1 ==> #[trigger] ordered_at(starts, i)
    &&& starts.len() > 0 ==> starts.last() <= len
}

/// The dictionary a commit of `b` compresses with: the one held, else the
/// one trained from `b`.
pub open spec fn commit_dictionary(held: Option<Vec<u8>>, b: Block) -> Option<Seq<u8>> {
    match held {
        Some(d) => Some(d@),
        None => trained_dictionary(
            b.data@,
            sample_sizes_spec(b.starts@, b.data@.len() as int),
            DICTIONARY_SIZE,
        ),
    }
}

/// What committing `b` yields: the dictionary when this commit trained it,
/// and the compressed block; or the error.
pub open spec fn commit_outcome(held: Option<Vec<u8>>, b: Block) -> Result<
    (Option<Seq<u8>>, Seq<u8>),
    StoreError,
> {
    if !offsets_ok(b.starts@, b.data@.len() as int) {
        Err(StoreError::CorruptBlock)
    } else {
        match commit_dictionary(held, b) {
            None => Err(StoreError::TrainFailed),
            Some(k) => match compressed_frame(block_bytes(b.n, b.starts@, b.data@), k, COMPRESSION_LEVEL) {
                None => Err(StoreError::IoError),
                Some(f) => Ok(
                    (
                        if held is Some {
                            None
                        } else {
                            Some(k)
                        },
                        f,
                    ),
                ),
            },
        }
    }
}

/// The name of the file of block `n`: `"<n>.zst"`.
pub open spec fn block_file_text(n: nat) -> Seq<char> {
    decimal_text(n) + seq!['.', 'z', 's', 't']
}

/// What reading entry `i` from a block whose wire form is `plain` yields.
pub open spec fn stored_entry(plain: Seq<u8>, i: int) -> Result<(Seq<u8>, Seq<u8>), StoreError> {
    match parse_block(plain) {
        None => Err(StoreError::CorruptBlock),
        Some((_, starts, data)) => lookup_spec(starts, data, i),
    }
}

/// The name of the file of block `n`.
pub fn block_file_name(n: u64) -> (r: String)
    ensures
        r@ == block_file_text(n as nat),
{
    proof {
        reveal_strlit(".zst");
    }
    let mut r = decimal_string(n);
    r.append(".zst");
    r
}

/// Whether a file name names a block file: it ends in `.zst`.
pub fn is_block_file(name: &str) -> (r: bool)
    ensures
        r == is_block_text(name@),
{
    let cs = chars_of(name);
    let l = cs.len();
    if l < 4 {
        return false;
    }
    let r = cs[l - 4] == '.' && cs[l - 3] == 'z' && cs[l - 2] == 's' && cs[l - 1] == 't';
    assert(r == (name@.subrange(l - 4, l as int) =~= seq!['.', 'z', 's', 't']));
    r
}

proof fn lemma_le_last(starts: Seq<u64>, k: int)
    requires
        0 <= k < starts.len(),
        forall|i: int| 0 <= i < starts.len() - 1 ==> #[trigger] ordered_at(starts, i),
    ensures
        starts[k] <= starts.last(),
    decreases starts.len() - k,
{
    if k < starts.len() - 1 {
        lemma_le_last(starts, k + 1);
        assert(ordered_at(starts, k));
    }
}

impl Block {
    /// The per-entry sample sizes; `None` when the offsets are out of order.
    pub fn sample_sizes(&self) -> (r: Option<Vec<usize>>)
        ensures
            r is Some <==> offsets_ok(self.starts@, self.data@.len() as int),
            r matches Some(v) ==> v@ == sample_sizes_spec(self.starts@, self.data@.len() as int),
            r matches Some(v) ==> sizes_total(v@) <= self.data@.len(),
    {
        let n = self.starts.len();
        let lu = self.data.len();
        let len = lu as u64;
        if n > 0 && self.starts[0] != 0 {
            return None;
        }
        let mut v: Vec<usize> = Vec::new();
        let mut i: usize = 0;
        while i < n
            invariant
                n == self.starts@.len(),
                len == self.data@.len(),
                len == lu,
                i <= n,
                n > 0 ==> self.starts@[0] == 0,
                forall|j: int| 0 <= j < i && j + 1 < n ==> #[trigger] ordered_at(self.starts@, j),
                i == n && n > 0 ==> self.starts@[n - 1] <= len,
                v@.len() == i,
                forall|j: int|
                    0 <= j < i ==> #[trigger] v@[j] as int == size_at(self.starts@, len as int, j),
                i < n ==> sizes_total(v@) == self.starts@[i as int],
                i == n && n > 0 ==> sizes_total(v@) == len,
                n == 0 ==> sizes_total(v@) == 0,
            decreases n - i,
        {
            let s = self.starts[i];
            let next = if i + 1 < n {
                self.starts[i + 1]
            } else {
                len
            };
            if next < s || next > len {
                proof {
                    if i + 1 < n && next < s {
                        assert(!ordered_at(self.starts@, i as int));
                    }
                    if i + 1 < n && next > len && offsets_ok(self.starts@, len as int) {
                        lemma_le_last(self.starts@, i + 1);
                    }
                }
                return None;
            }
            let ghost before = v@;
            v.push((next - s) as usize);
            assert(v@[i as int] as int == size_at(self.starts@, len as int, i as int));
            assert forall|j: int| 0 <= j < i implies v@[j] == before[j] by {}
            assert(v@.drop_last() =~= before);
            assert(sizes_total(v@) == next);
            i = i + 1;
        }
        assert forall|j: int| 0 <= j < n implies v@[j] == sample_sizes_spec(self.starts@, len as int)[j] by {
        }
        assert(v@ =~= sample_sizes_spec(self.starts@, len as int));
        Some(v)
    }
}

/// What one commit produces: the dictionary when it was trained by this
/// commit, the block file's name and its compressed content.
#[derive(Debug)]
pub struct Commit {
    pub dictionary: Option<Vec<u8>>,
    pub file_name: String,
    pub bytes: Vec<u8>,
}

/// A store directory and, once trained or loaded, its dictionary.
#[derive(Debug)]
pub struct Store {
    pub dir: String,
    pub dict: Option<Vec<u8>>,
}

impl Store {
    pub fn new(dir: &str) -> (r: Store)
        ensures
            r.dir@ == dir@,
            r.dict is None,
    {
        Store { dir: dir.to_owned(), dict: None }
    }

    /// Takes the dictionary's bytes, or `None` when the store has no
    /// dictionary file, which fails with `NoDictionary`.
    pub fn open(&mut self, dictionary: Option<Vec<u8>>) -> (r: Result<(), StoreError>)
        ensures
            final(self).dir == old(self).dir,
            match dictionary {
                None => r == Err::<(), StoreError>(StoreError::NoDictionary) && final(self).dict
                    == old(self).dict,
                Some(d) => r is Ok && final(self).dict == Some(d),
            },
    {
        match dictionary {
            None => Err(StoreError::NoDictionary),
            Some(d) => {
                self.dict = Some(d);
                Ok(())
            },
        }
    }

    /// Keeps the block file names among `names`, in order.
    pub fn blocks(&self, names: &Vec<String>) -> (r: Vec<String>)
        ensures
            strings_view(r@) == block_names(strings_view(names@)),
    {
        let ghost all = strings_view(names@);
        let mut r: Vec<String> = Vec::new();
        let mut i: usize = 0;
        while i < names.len()
            invariant
                i <= names@.len(),
                all == strings_view(names@),
                strings_view(r@) == block_names(all.subrange(0, i as int)),
            decreases names@.len() - i,
        {
            let ghost before = r@;
            let keep = is_block_file(names[i].as_str());
            if keep {
                r.push(names[i].clone());
            }
            proof {
                let p = all.subrange(0, i + 1);
                assert(p.drop_last() =~= all.subrange(0, i as int));
                assert(p.last() == names@[i as int]@);
                if keep {
                    assert(strings_view(r@) =~= strings_view(before).push(names@[i as int]@));
                }
            }
            i = i + 1;
        }
        assert(all.subrange(0, i as int) =~= all);
        r
    }

    /// Commits a block under the tag `n`, leaving an empty block behind.
    /// The first commit trains the dictionary from this block and keeps it;
    /// later commits reuse it. Fails with `CorruptBlock` when the offsets
    /// are out of order, `TrainFailed` when training fails and `IoError`
    /// when compression fails; a failed commit leaves the store as it was.
    pub fn commit(&mut self, block: &mut Block, n: usize) -> (r: Result<Commit, StoreError>)
        ensures
            final(block).id == 0,
            final(block).n == 0,
            final(block).starts@ == Seq::<u64>::empty(),
            final(block).data@ == Seq::<u8>::empty(),
            final(self).dir == old(self).dir,
            match commit_outcome(old(self).dict, *old(block)) {
                Err(e) => r is Err && r->Err_0 == e && final(self).dict == old(self).dict,
                Ok((fresh, frame)) => r matches Ok(c) && c.bytes@ == frame && c.file_name@
                    == block_file_text(n as nat) && vec_view(c.dictionary) == fresh && vec_view(
                    final(self).dict,
                ) == commit_dictionary(old(self).dict, *old(block)),
            },
            old(self).dict is Some ==> final(self).dict == old(self).dict,
            r matches Ok(c) ==> final(self).dict matches Some(k) && decompressed(c.bytes@, k@)
                == Some(block_bytes(old(block).n, old(block).starts@, old(block).data@)),
    {
        let mut b = Block::default();
        std::mem::swap(block, &mut b);
        let data_len = b.data.len();
        let sizes = match b.sample_sizes() {
            Some(s) => s,
            None => return Err(StoreError::CorruptBlock),
        };
        assert(sizes_total(sizes@) <= data_len);
        let trained = match &self.dict {
            Some(_) => None,
            None => match train_dictionary(b.data.as_slice(), sizes.as_slice(), DICTIONARY_SIZE) {
                Some(t) => Some(t),
                None => return Err(StoreError::TrainFailed),
            },
        };
        let file_name = block_file_name(n as u64);
        let plain = match b.finish() {
            Ok(p) => p,
            Err(e) => return Err(e),
        };
        let bytes = match &trained {
            Some(t) => compress_with_dictionary(plain.as_slice(), t.as_slice(), COMPRESSION_LEVEL),
            None => match &self.dict {
                Some(d) => compress_with_dictionary(
                    plain.as_slice(),
                    d.as_slice(),
                    COMPRESSION_LEVEL,
                ),
                None => None,
            },
        };
        let bytes = match bytes {
            Some(c) => c,
            None => return Err(StoreError::IoError),
        };
        assert(plain@ == block_bytes(old(block).n, old(block).starts@, old(block).data@));
        match trained {
            Some(t) => {
                let kept = copy_bytes(t.as_slice(), 0, t.len());
                assert(kept@ =~= t@);
                self.dict = Some(kept);
                Ok(Commit { dictionary: Some(t), file_name, bytes })
            },
            None => Ok(Commit { dictionary: None, file_name, bytes }),
        }
    }
}

/// The block file names among `names`, in order.
pub open spec fn block_names(names: Seq<Seq<char>>) -> Seq<Seq<char>>
    decreases names.len(),
{
    if names.len() == 0 {
        Seq::empty()
    } else if is_block_text(names.last()) {
        block_names(names.drop_last()).push(names.last())
    } else {
        block_names(names.drop_last())
    }
}

pub open spec fn is_block_text(name: Seq<char>) -> bool {
    name.len() >= 4 && name.subrange(name.len() - 4, name.len() as int) == seq!['.', 'z', 's', 't']
}

/// What a block file yields once decompressed to `plain`, under the file
/// stem `stem`: its id, count, offsets and data.
pub open spec fn stored_block(stem: Seq<char>, plain: Seq<u8>) -> Result<
    (u32, u32, Seq<u64>, Seq<u8>),
    StoreError,
> {
    if !parses_as_u32(stem) {
        Err(StoreError::BadFilename)
    } else {
        match parse_block(plain) {
            None => Err(StoreError::CorruptBlock),
            Some((n, starts, data)) => Ok((u32_value(stem), n, starts, data)),
        }
    }
}

pub open spec fn block_is(r: Result<Block, StoreError>, o: Result<(u32, u32, Seq<u64>, Seq<u8>), StoreError>) -> bool {
    match o {
        Err(e) => r == Err::<Block, StoreError>(e),
        Ok((id, n, starts, data)) => r matches Ok(b) && b.wf() && b.id == id && b.n == n
            && b.starts@ == starts && b.data@ == data,
    }
}

pub open spec fn entry_is(r: Result<Entry, StoreError>, o: Result<(Seq<u8>, Seq<u8>), StoreError>, at: Ref) -> bool {
    match o {
        Err(e) => r is Err && r->Err_0 == e,
        Ok((t, b)) => r matches Ok(x) && x.wf() && x.title@ == t && x.body@ == b && x.store_ref
            == at,
    }
}

impl Block {
    /// A block from its decompressed wire form, its id read from the file
    /// stem. Fails with `BadFilename` when the stem is not an unsigned 32-bit
    /// decimal and with `CorruptBlock` when the bytes do not parse.
    pub fn from_stored(stem: &str, plain: &[u8]) -> (r: Result<Block, StoreError>)
        ensures
            block_is(r, stored_block(stem@, plain@)),
    {
        let cs = chars_of(stem);
        let id = match parse_u32(&cs, 0, cs.len()) {
            Some(id) => id,
            None => {
                assert(cs@.subrange(0, cs@.len() as int) =~= stem@);
                return Err(StoreError::BadFilename);
            },
        };
        assert(cs@.subrange(0, cs@.len() as int) =~= stem@);
        match Block::from_bytes(plain) {
            Ok(mut b) => {
                b.id = id;
                Ok(b)
            },
            Err(e) => Err(e),
        }
    }
}

impl Store {
    /// Reads a block from the content of its file and the file's stem.
    /// Fails with `StoreNotOpen` before a dictionary is loaded, with
    /// `CorruptBlock` when the content does not decompress or parse, and
    /// with `BadFilename` when the stem is not a block id.
    pub fn read_block(&self, stem: &str, file: &[u8]) -> (r: Result<Block, StoreError>)
        ensures
            self.dict is None ==> r == Err::<Block, StoreError>(StoreError::StoreNotOpen),
            self.dict matches Some(k) ==> match decompressed(file@, k@) {
                None => r == Err::<Block, StoreError>(StoreError::CorruptBlock),
                Some(plain) => block_is(r, stored_block(stem@, plain)),
            },
            r matches Ok(b) ==> b.wf() && parses_as_u32(stem@) && b.id == u32_value(stem@),
            r is Err ==> r->Err_0 == StoreError::StoreNotOpen || r->Err_0
                == StoreError::CorruptBlock || r->Err_0 == StoreError::BadFilename,
    {
        let k = match &self.dict {
            Some(k) => k,
            None => return Err(StoreError::StoreNotOpen),
        };
        match decompress_with_dictionary(file, k.as_slice()) {
            Some(plain) => Block::from_stored(stem, plain.as_slice()),
            None => Err(StoreError::CorruptBlock),
        }
    }

    /// Reads the entry `at` names from the content of its block file. Fails
    /// as `read_block` does, and with `NoSuchEntry` or `CorruptBlock` as
    /// the lookup in the block does.
    pub fn read_entry(&self, at: Ref, file: &[u8]) -> (r: Result<Entry, StoreError>)
        ensures
            self.dict is None ==> r is Err && r->Err_0 == StoreError::StoreNotOpen,
            self.dict matches Some(k) ==> match decompressed(file@, k@) {
                None => r is Err && r->Err_0 == StoreError::CorruptBlock,
                Some(plain) => entry_is(r, stored_entry(plain, at.entry_id as int), at),
            },
            r matches Ok(e) ==> e.store_ref == at,
    {
        let k = match &self.dict {
            Some(k) => k,
            None => return Err(StoreError::StoreNotOpen),
        };
        let plain = match decompress_with_dictionary(file, k.as_slice()) {
            Some(plain) => plain,
            None => return Err(StoreError::CorruptBlock),
        };
        match Block::from_bytes(plain.as_slice()) {
            Ok(mut b) => {
                b.id = at.block_id;
                b.entry(at.entry_id)
            },
            Err(e) => Err(e),
        }
    }
}

/// A block built by appending `es`, committed into `frame` with the
/// dictionary `k` and read back, yields every entry of `es` at its index.
pub proof fn lemma_store_round_trip(
    frame: Seq<u8>,
    k: Seq<u8>,
    starts: Seq<u64>,
    data: Seq<u8>,
    es: Seq<(Seq<u8>, Seq<u8>)>,
)
    requires
        block_holds(starts, data, es),
        es.len() <= u32::MAX,
        decompressed(frame, k) == Some(block_bytes(es.len() as u32, starts, data)),
    ensures
        forall|i: int|
            0 <= i < es.len() ==> #[trigger] stored_entry(decompressed(frame, k)->Some_0, i)
                == Ok::<(Seq<u8>, Seq<u8>), StoreError>(es[i]),
{
    lemma_block_round_trip(es.len() as u32, starts, data, es);
}

} // verus!
