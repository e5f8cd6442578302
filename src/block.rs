use vstd::prelude::*;
use vstd::bytes::{
    lemma_auto_spec_u32_to_from_le_bytes, lemma_auto_spec_u64_to_from_le_bytes,
    spec_u32_from_le_bytes, spec_u32_to_le_bytes, spec_u64_from_le_bytes, spec_u64_to_le_bytes,
    u32_from_le_bytes, u32_to_le_bytes, u64_from_le_bytes, u64_to_le_bytes,
};
use crate::bytes::{copy_bytes, extend_bytes};
use crate::entry::{decode_entry, encode_entry, entry_fits, lemma_decode_encode_prefix, Entry};
use crate::error::StoreError;
use crate::refid::Ref;

verus! {

/// The offsets, each as eight little-endian bytes.
pub open spec fn starts_bytes(starts: Seq<u64>) -> Seq<u8>
    decreases starts.len(),
{
    if starts.len() == 0 {
        Seq::empty()
    } else {
        starts_bytes(starts.drop_last()) + spec_u64_to_le_bytes(starts.last())
    }
}

/// The wire form of a block: `n` as `u32`, four reserved zero bytes, the
/// offsets, then the data.
pub open spec fn block_bytes(n: u32, starts: Seq<u64>, data: Seq<u8>) -> Seq<u8> {
    spec_u32_to_le_bytes(n) + seq![0u8, 0u8, 0u8, 0u8] + starts_bytes(starts) + data
}

/// What parsing a block's wire form yields: `n`, the offsets and the data;
/// the four bytes after `n` are ignored.
pub open spec fn parse_block(s: Seq<u8>) -> Option<(u32, Seq<u64>, Seq<u8>)> {
    if s.len() < 8 {
        None
    } else {
        let n = spec_u32_from_le_bytes(s.subrange(0, 4));
        if 8 + 8 * (n as int) > s.len() {
            None
        } else {
            Some(
                (
                    n,
                    Seq::new(
                        n as nat,
                        |i: int| spec_u64_from_le_bytes(s.subrange(8 + 8 * i, 16 + 8 * i)),
                    ),
                    s.subrange(8 + 8 * (n as int), s.len() as int),
                ),
            )
        }
    }
}

/// What looking entry `i` up in a block with these offsets and data yields.
pub open spec fn lookup_spec(starts: Seq<u64>, data: Seq<u8>, i: int) -> Result<
    (Seq<u8>, Seq<u8>),
    StoreError,
> {
    if i < 0 || i >= starts.len() {
        Err(StoreError::NoSuchEntry)
    } else if starts[i] > data.len() {
        Err(StoreError::CorruptBlock)
    } else {
        match decode_entry(data.subrange(starts[i] as int, data.len() as int)) {
            Some(x) => Ok(x),
            None => Err(StoreError::CorruptBlock),
        }
    }
}

/// The wire forms of the entries, one after another.
pub open spec fn concat_entries(es: Seq<(Seq<u8>, Seq<u8>)>) -> Seq<u8>
    decreases es.len(),
{
    if es.len() == 0 {
        Seq::empty()
    } else {
        concat_entries(es.drop_last()) + encode_entry(es.last().0, es.last().1)
    }
}

/// Where entry `i` begins among the concatenated wire forms.
pub open spec fn entry_offset(es: Seq<(Seq<u8>, Seq<u8>)>, i: int) -> int {
    concat_entries(es.subrange(0, i)).len() as int
}

/// The offsets and data of a block built by appending `es` in order.
pub open spec fn block_holds(starts: Seq<u64>, data: Seq<u8>, es: Seq<(Seq<u8>, Seq<u8>)>) -> bool {
    &&& starts.len() == es.len()
    &&& data == concat_entries(es)
    &&& forall|i: int| 0 <= i < es.len() ==> #[trigger] starts[i] as int == entry_offset(es, i)
    &&& forall|i: int| 0 <= i < es.len() ==> entry_fits(#[trigger] es[i].0, es[i].1)
}

/// The offsets are strictly increasing and the last one lies inside the
/// data.
pub open spec fn offsets_strict(starts: Seq<u64>, len: int) -> bool {
    &&& forall|i: int, j: int| 0 <= i < j < starts.len() ==> #[trigger] starts[i] < #[trigger] starts[j]
    &&& starts.len() > 0 ==> starts.last() < len
}

/// A group of entries: their count, the offset of each in `data`, and
/// their concatenated wire forms. `id` comes from the file name.
#[derive(Debug)]
pub struct Block {
    pub id: u32,
    pub n: u32,
    pub starts: Vec<u64>,
    pub data: Vec<u8>,
}

impl Default for Block {
    fn default() -> (r: Block)
        ensures
            r.id == 0,
            r.n == 0,
            r.starts@ == Seq::<u64>::empty(),
            r.data@ == Seq::<u8>::empty(),
    {
        Block { id: 0, n: 0, starts: Vec::new(), data: Vec::new() }
    }
}

impl Block {
    pub open spec fn wf(&self) -> bool {
        self.n as int == self.starts@.len()
    }

    /// Appends an entry: its offset is the current data length.
    pub fn add(&mut self, entry: Entry) -> (r: Result<(), StoreError>)
        requires
            old(self).wf(),
            old(self).n < u32::MAX,
            entry.wf(),
        ensures
            r is Ok,
            final(self).wf(),
            final(self).id == old(self).id,
            final(self).n == old(self).n + 1,
            final(self).starts@ == old(self).starts@.push(old(self).data@.len() as u64),
            final(self).data@ == old(self).data@ + encode_entry(entry.title@, entry.body@),
            offsets_strict(old(self).starts@, old(self).data@.len() as int) ==> offsets_strict(
                final(self).starts@,
                final(self).data@.len() as int,
            ),
    {
        let bytes = entry.to_bytes();
        self.n = self.n + 1;
        let ghost old_starts = self.starts@;
        let ghost old_len = self.data@.len() as int;
        self.starts.push(self.data.len() as u64);
        extend_bytes(&mut self.data, bytes.as_slice());
        proof {
            lemma_auto_spec_u32_to_from_le_bytes();
            let s = self.starts@;
            assert(s.last() as int == old_len);
            if offsets_strict(old_starts, old_len) {
                assert forall|i: int, j: int| 0 <= i < j < s.len() implies #[trigger] s[i]
                    < #[trigger] s[j] by {
                    assert(s[i] == old_starts[i]);
                    if j < old_starts.len() {
                        assert(s[j] == old_starts[j]);
                    } else {
                        if i < old_starts.len() - 1 {
                            assert(old_starts[i] < old_starts[old_starts.len() - 1]);
                        }
                    }
                }
            }
        }
        Ok(())
    }

    /// The block's wire form.
    pub fn finish(self) -> (r: Result<Vec<u8>, StoreError>)
        ensures
            r matches Ok(b) && b@ == block_bytes(self.n, self.starts@, self.data@),
    {
        let mut r = u32_to_le_bytes(self.n);
        r.push(0);
        r.push(0);
        r.push(0);
        r.push(0);
        let mut i: usize = 0;
        while i < self.starts.len()
            invariant
                i <= self.starts@.len(),
                r@ == spec_u32_to_le_bytes(self.n) + seq![0u8, 0u8, 0u8, 0u8] + starts_bytes(
                    self.starts@.subrange(0, i as int),
                ),
            decreases self.starts@.len() - i,
        {
            let mut b = u64_to_le_bytes(self.starts[i]);
            r.append(&mut b);
            i = i + 1;
            proof {
                let p = self.starts@.subrange(0, i as int);
                assert(p.drop_last() =~= self.starts@.subrange(0, i - 1));
                assert(r@ =~= spec_u32_to_le_bytes(self.n) + seq![0u8, 0u8, 0u8, 0u8]
                    + starts_bytes(p));
            }
        }
        assert(self.starts@.subrange(0, i as int) =~= self.starts@);
        extend_bytes(&mut r, self.data.as_slice());
        Ok(r)
    }

    /// Parses a block's wire form; `id` is left at zero. Fails with
    /// `CorruptBlock` when the bytes are shorter than the header announces.
    pub fn from_bytes(s: &[u8]) -> (r: Result<Block, StoreError>)
        ensures
            match parse_block(s@) {
                None => r is Err && r->Err_0 == StoreError::CorruptBlock,
                Some((n, starts, data)) => r matches Ok(b) && b.wf() && b.id == 0 && b.n == n
                    && b.starts@ == starts && b.data@ == data,
            },
    {
        if s.len() < 8 {
            return Err(StoreError::CorruptBlock);
        }
        let n = u32_from_le_bytes(&s[0..4]);
        if (n as usize) > (s.len() - 8) / 8 {
            return Err(StoreError::CorruptBlock);
        }
        let nu = n as usize;
        let len = s.len();
        assert(8 * nu <= len - 8) by (nonlinear_arith)
            requires
                nu <= (len - 8) / 8,
                len >= 8,
        ;
        let mut starts: Vec<u64> = Vec::new();
        let mut i: usize = 0;
        while i < nu
            invariant
                i <= nu,
                nu == n,
                8 + 8 * nu <= s@.len(),
                len == s@.len(),
                starts@.len() == i,
                forall|j: int|
                    0 <= j < i ==> #[trigger] starts@[j] == spec_u64_from_le_bytes(
                        s@.subrange(8 + 8 * j, 16 + 8 * j),
                    ),
            decreases nu - i,
        {
            assert(8 * i + 16 <= 8 * nu + 8);
            let at = 8 + 8 * i;
            let x = u64_from_le_bytes(&s[at..at + 8]);
            starts.push(x);
            i = i + 1;
        }
        let data = copy_bytes(s, 8 + 8 * nu, s.len());
        let ghost spec_starts = Seq::new(
            n as nat,
            |j: int| spec_u64_from_le_bytes(s@.subrange(8 + 8 * j, 16 + 8 * j)),
        );
        assert(starts@ =~= spec_starts);
        Ok(Block { id: 0, n, starts, data })
    }

    /// Looks entry `n` up, attaching the reference `(id, n)`. Fails with
    /// `NoSuchEntry` when `n` is out of range and with `CorruptBlock` when
    /// the entry's bytes run past the data.
    pub fn entry(&self, n: u32) -> (r: Result<Entry, StoreError>)
        ensures
            match lookup_spec(self.starts@, self.data@, n as int) {
                Err(e) => r is Err && r->Err_0 == e,
                Ok((t, b)) => r matches Ok(x) && x.wf() && x.title@ == t && x.body@ == b
                    && x.store_ref == (Ref { block_id: self.id, entry_id: n }),
            },
    {
        let i = n as usize;
        if i >= self.starts.len() {
            return Err(StoreError::NoSuchEntry);
        }
        let start = self.starts[i];
        if start > self.data.len() as u64 {
            return Err(StoreError::CorruptBlock);
        }
        let s = start as usize;
        let slice = &self.data.as_slice()[s..self.data.len()];
        match Entry::from_bytes(slice) {
            Ok(mut e) => {
                e.store_ref = Ref::new(self.id, n);
                Ok(e)
            },
            Err(err) => Err(err),
        }
    }
}

proof fn lemma_starts_bytes(starts: Seq<u64>)
    ensures
        starts_bytes(starts).len() == 8 * starts.len(),
        forall|i: int|
            0 <= i < starts.len() ==> #[trigger] starts_bytes(starts).subrange(8 * i, 8 * i + 8)
                == spec_u64_to_le_bytes(starts[i]),
    decreases starts.len(),
{
    lemma_auto_spec_u64_to_from_le_bytes();
    if starts.len() > 0 {
        let p = starts.drop_last();
        lemma_starts_bytes(p);
        let s = starts_bytes(starts);
        assert forall|i: int| 0 <= i < starts.len() implies #[trigger] s.subrange(8 * i, 8 * i + 8)
            == spec_u64_to_le_bytes(starts[i]) by {
            if i < p.len() {
                assert(s.subrange(8 * i, 8 * i + 8) =~= starts_bytes(p).subrange(8 * i, 8 * i + 8));
            } else {
                assert(s.subrange(8 * i, 8 * i + 8) =~= spec_u64_to_le_bytes(starts.last()));
            }
        }
    }
}

/// Parsing the wire form of a block gives back its count, offsets and data.
pub proof fn lemma_block_bytes_round_trip(n: u32, starts: Seq<u64>, data: Seq<u8>)
    requires
        starts.len() == n,
    ensures
        parse_block(block_bytes(n, starts, data)) == Some((n, starts, data)),
{
    lemma_auto_spec_u32_to_from_le_bytes();
    lemma_auto_spec_u64_to_from_le_bytes();
    lemma_starts_bytes(starts);
    let s = block_bytes(n, starts, data);
    let sb = starts_bytes(starts);
    assert(s.subrange(0, 4) =~= spec_u32_to_le_bytes(n));
    let parsed = Seq::new(
        n as nat,
        |i: int| spec_u64_from_le_bytes(s.subrange(8 + 8 * i, 16 + 8 * i)),
    );
    assert forall|i: int| 0 <= i < n implies parsed[i] == starts[i] by {
        assert(s.subrange(8 + 8 * i, 16 + 8 * i) =~= sb.subrange(8 * i, 8 * i + 8));
    }
    assert(parsed =~= starts);
    assert(s.subrange(8 + 8 * (n as int), s.len() as int) =~= data);
}

/// Whatever the four reserved bytes after the count hold, a block parses
/// as if they were zero.
pub proof fn lemma_padding_ignored(head: Seq<u8>, pad: Seq<u8>, rest: Seq<u8>)
    requires
        head.len() == 4,
        pad.len() == 4,
    ensures
        parse_block(head + pad + rest) == parse_block(head + seq![0u8, 0u8, 0u8, 0u8] + rest),
{
    let a = head + pad + rest;
    let b = head + seq![0u8, 0u8, 0u8, 0u8] + rest;
    assert(a.len() == b.len());
    assert(a.subrange(0, 4) =~= b.subrange(0, 4));
    assert forall|lo: int, hi: int| 8 <= lo <= hi <= a.len() implies #[trigger] a.subrange(lo, hi)
        == b.subrange(lo, hi) by {
        assert(a.subrange(lo, hi) =~= b.subrange(lo, hi));
    }
    if a.len() >= 8 {
        let n = spec_u32_from_le_bytes(a.subrange(0, 4));
        if 8 + 8 * (n as int) <= a.len() {
            let sa = Seq::new(
                n as nat,
                |i: int| spec_u64_from_le_bytes(a.subrange(8 + 8 * i, 16 + 8 * i)),
            );
            let sb = Seq::new(
                n as nat,
                |i: int| spec_u64_from_le_bytes(b.subrange(8 + 8 * i, 16 + 8 * i)),
            );
            assert forall|i: int| 0 <= i < n implies sa[i] == sb[i] by {
                assert(a.subrange(8 + 8 * i, 16 + 8 * i) == b.subrange(8 + 8 * i, 16 + 8 * i));
            }
            assert(sa =~= sb);
        }
    }
}

proof fn lemma_concat_step(es: Seq<(Seq<u8>, Seq<u8>)>, i: int)
    requires
        0 <= i < es.len(),
    ensures
        concat_entries(es.subrange(0, i + 1)) == concat_entries(es.subrange(0, i)) + encode_entry(
            es[i].0,
            es[i].1,
        ),
{
    assert(es.subrange(0, i + 1).drop_last() =~= es.subrange(0, i));
}

proof fn lemma_concat_prefix(es: Seq<(Seq<u8>, Seq<u8>)>, k: int)
    requires
        0 <= k <= es.len(),
    ensures
        concat_entries(es.subrange(0, k)).len() <= concat_entries(es).len(),
        concat_entries(es).subrange(0, concat_entries(es.subrange(0, k)).len() as int)
            == concat_entries(es.subrange(0, k)),
    decreases es.len(),
{
    if k == es.len() {
        assert(es.subrange(0, k) =~= es);
        assert(concat_entries(es).subrange(0, concat_entries(es).len() as int) =~= concat_entries(
            es,
        ));
    } else {
        let p = es.drop_last();
        lemma_concat_prefix(p, k);
        assert(p.subrange(0, k) =~= es.subrange(0, k));
        let c = concat_entries(es.subrange(0, k));
        assert(concat_entries(es).subrange(0, c.len() as int) =~= concat_entries(p).subrange(
            0,
            c.len() as int,
        ));
    }
}

/// Appending an entry to a block built from `es` gives the block built from
/// `es` followed by that entry.
pub proof fn lemma_append_holds(
    starts: Seq<u64>,
    data: Seq<u8>,
    es: Seq<(Seq<u8>, Seq<u8>)>,
    title: Seq<u8>,
    body: Seq<u8>,
)
    requires
        block_holds(starts, data, es),
        entry_fits(title, body),
        data.len() <= u64::MAX,
    ensures
        block_holds(
            starts.push(data.len() as u64),
            data + encode_entry(title, body),
            es.push((title, body)),
        ),
{
    let es2 = es.push((title, body));
    let starts2 = starts.push(data.len() as u64);
    assert(es2.drop_last() =~= es);
    assert forall|i: int| 0 <= i < es2.len() implies #[trigger] starts2[i] as int == entry_offset(
        es2,
        i,
    ) by {
        assert(es2.subrange(0, i) =~= if i < es.len() {
            es.subrange(0, i)
        } else {
            es
        });
        if i == es.len() {
            assert(es.subrange(0, i) =~= es);
        }
    }
    assert forall|i: int| 0 <= i < es2.len() implies entry_fits(#[trigger] es2[i].0, es2[i].1) by {
        if i < es.len() {
            assert(es2[i] == es[i]);
        }
    }
}

/// In a block built from `es`, each entry starts where the one before it
/// ends, so the offsets are strictly increasing, and the last one ends at
/// the end of the data.
pub proof fn lemma_offsets_increase(starts: Seq<u64>, data: Seq<u8>, es: Seq<(Seq<u8>, Seq<u8>)>)
    requires
        block_holds(starts, data, es),
    ensures
        forall|i: int|
            0 <= i < es.len() - 1 ==> #[trigger] starts[i] + encode_entry(es[i].0, es[i].1).len()
                == starts[i + 1] && starts[i] < starts[i + 1],
        es.len() > 0 ==> starts[es.len() - 1] + encode_entry(
            es[es.len() - 1].0,
            es[es.len() - 1].1,
        ).len() == data.len(),
{
    assert forall|i: int| 0 <= i < es.len() - 1 implies #[trigger] starts[i] + encode_entry(
        es[i].0,
        es[i].1,
    ).len() == starts[i + 1] && starts[i] < starts[i + 1] by {
        lemma_auto_spec_u32_to_from_le_bytes();
        lemma_concat_step(es, i);
        assert(starts[i] as int == entry_offset(es, i));
        assert(starts[i + 1] as int == entry_offset(es, i + 1));
    }
    if es.len() > 0 {
        let l = es.len() - 1;
        lemma_concat_step(es, l);
        assert(es.subrange(0, l + 1) =~= es);
        assert(starts[l] as int == entry_offset(es, l));
    }
}

/// In a block built from `es`, looking entry `i` up yields the `i`-th entry.
pub proof fn lemma_lookup_holds(
    starts: Seq<u64>,
    data: Seq<u8>,
    es: Seq<(Seq<u8>, Seq<u8>)>,
    i: int,
)
    requires
        block_holds(starts, data, es),
        0 <= i < es.len(),
    ensures
        lookup_spec(starts, data, i) == Ok::<(Seq<u8>, Seq<u8>), StoreError>(es[i]),
{
    lemma_concat_step(es, i);
    lemma_concat_prefix(es, i + 1);
    let off = entry_offset(es, i);
    let enc = encode_entry(es[i].0, es[i].1);
    assert(starts[i] as int == off);
    let head = concat_entries(es.subrange(0, i + 1));
    assert(data.subrange(0, head.len() as int) == head);
    let rest = data.subrange(off + enc.len(), data.len() as int);
    assert(data.subrange(off, data.len() as int) =~= enc + rest) by {
        assert forall|j: int| 0 <= j < enc.len() implies data.subrange(off, data.len() as int)[j]
            == enc[j] by {
            assert(data[off + j] == head[off + j]);
        }
    }
    assert(entry_fits(es[i].0, es[i].1));
    lemma_decode_encode_prefix(es[i].0, es[i].1, rest);
}

/// A block built by appending `es` in order, written out and parsed back,
/// yields each entry of `es` at its index.
pub proof fn lemma_block_round_trip(
    n: u32,
    starts: Seq<u64>,
    data: Seq<u8>,
    es: Seq<(Seq<u8>, Seq<u8>)>,
)
    requires
        block_holds(starts, data, es),
        n == es.len(),
    ensures
        parse_block(block_bytes(n, starts, data)) == Some((n, starts, data)),
        forall|i: int|
            0 <= i < es.len() ==> #[trigger] lookup_spec(starts, data, i) == Ok::<
                (Seq<u8>, Seq<u8>),
                StoreError,
            >(es[i]),
{
    lemma_block_bytes_round_trip(n, starts, data);
    assert forall|i: int| 0 <= i < es.len() implies #[trigger] lookup_spec(starts, data, i) == Ok::<
        (Seq<u8>, Seq<u8>),
        StoreError,
    >(es[i]) by {
        lemma_lookup_holds(starts, data, es, i);
    }
}

} // verus!
