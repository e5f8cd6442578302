use vstd::prelude::*;
use vstd::string::{StrSliceExecFns, StringExecFns};
use crate::decimal::{
    decimal_string, decimal_text, lemma_decimal_text, parse_u32, parses_as_u32, u32_value,
    unsigned_digits,
};
use crate::error::StoreError;

verus! {

/// A compact pointer to an entry: the block it lives in and its index there.
#[derive(Debug, Clone, Copy, PartialEq, Eq, Structural)]
pub struct Ref {
    pub block_id: u32,
    pub entry_id: u32,
}

pub open spec fn ref_u64(r: Ref) -> u64 {
    (r.block_id as int + r.entry_id as int * 0x1_0000_0000) as u64
}

/// Textual form `"<block_id>/<entry_id>"`.
pub open spec fn ref_text(r: Ref) -> Seq<char> {
    decimal_text(r.block_id as nat) + seq!['/'] + decimal_text(r.entry_id as nat)
}

pub open spec fn first_slash(s: Seq<char>, k: int) -> bool {
    &&& 0 <= k < s.len()
    &&& s[k] == '/'
    &&& forall|j: int| 0 <= j < k ==> s[j] != '/'
}

pub open spec fn has_slash(s: Seq<char>) -> bool {
    exists|k: int| 0 <= k < s.len() && s[k] == '/'
}

/// What parsing a textual reference yields: split at the first `/`, each
/// side an unsigned 32-bit decimal.
pub open spec fn parse_ref_spec(s: Seq<char>) -> Option<Ref> {
    if has_slash(s) {
        let k = choose|k: int| first_slash(s, k);
        let b = s.subrange(0, k);
        let e = s.subrange(k + 1, s.len() as int);
        if parses_as_u32(b) && parses_as_u32(e) {
            Some(Ref { block_id: u32_value(b), entry_id: u32_value(e) })
        } else {
            None
        }
    } else {
        None
    }
}

pub proof fn lemma_first_slash_unique(s: Seq<char>, k1: int, k2: int)
    requires
        first_slash(s, k1),
        first_slash(s, k2),
    ensures
        k1 == k2,
{
    if k1 < k2 {
        assert(s[k1] != '/');
    } else if k2 < k1 {
        assert(s[k2] != '/');
    }
}

impl Ref {
    pub fn new(block_id: u32, entry_id: u32) -> (r: Ref)
        ensures
            r.block_id == block_id,
            r.entry_id == entry_id,
    {
        Ref { block_id, entry_id }
    }

    /// The 64-bit form: `block_id` in the low half, `entry_id` in the high half
    /// (little-endian bytes 0..3 and 4..7).
    pub fn as_u64(self) -> (r: u64)
        ensures
            r == ref_u64(self),
            r as int == self.block_id as int + self.entry_id as int * 0x1_0000_0000,
    {
        self.block_id as u64 + (self.entry_id as u64) * 0x1_0000_0000
    }

    pub fn from_u64(r: u64) -> (out: Ref)
        ensures
            out.block_id as int == r as int % 0x1_0000_0000,
            out.entry_id as int == r as int / 0x1_0000_0000,
    {
        Ref { block_id: (r % 0x1_0000_0000) as u32, entry_id: (r / 0x1_0000_0000) as u32 }
    }

    /// The textual form, `"<block_id>/<entry_id>"`.
    pub fn to_string(&self) -> (r: String)
        ensures
            r@ == ref_text(*self),
    {
        proof {
            reveal_strlit("/");
        }
        let mut r = decimal_string(self.block_id as u64);
        r.append("/");
        let e = decimal_string(self.entry_id as u64);
        r.append(e.as_str());
        r
    }

    /// Parses the textual form; fails with `BadRef` when the text has no `/`
    /// or a side is not an unsigned 32-bit decimal.
    pub fn from_str(s: &str) -> (r: Result<Ref, StoreError>)
        ensures
            r == (match parse_ref_spec(s@) {
                Some(x) => Ok::<Ref, StoreError>(x),
                None => Err(StoreError::BadRef),
            }),
    {
        let len = s.unicode_len();
        let mut cs: Vec<char> = Vec::new();
        let mut k: usize = len;
        let mut i: usize = 0;
        while i < len
            invariant
                len == s@.len(),
                i <= len,
                k <= len,
                cs@ == s@.subrange(0, i as int),
                k == len ==> forall|j: int| 0 <= j < i ==> s@[j] != '/',
                k < len ==> first_slash(s@, k as int),
            decreases len - i,
        {
            let c = s.get_char(i);
            if c == '/' && k == len {
                k = i;
            }
            cs.push(c);
            i = i + 1;
            assert(cs@ =~= s@.subrange(0, i as int));
        }
        assert(cs@ =~= s@);
        if k == len {
            assert(!has_slash(s@));
            return Err(StoreError::BadRef);
        }
        proof {
            assert(first_slash(s@, k as int));
            let kc = choose|kc: int| first_slash(s@, kc);
            lemma_first_slash_unique(s@, kc, k as int);
        }
        let b = parse_u32(&cs, 0, k);
        let e = parse_u32(&cs, k + 1, len);
        match (b, e) {
            (Some(block_id), Some(entry_id)) => Ok(Ref { block_id, entry_id }),
            _ => Err(StoreError::BadRef),
        }
    }
}

/// The 64-bit form of a reference gives the reference back.
pub proof fn lemma_ref_u64_round_trip(r: Ref)
    ensures
        ({
            let x = ref_u64(r) as int;
            x % 0x1_0000_0000 == r.block_id as int && x / 0x1_0000_0000 == r.entry_id as int
        }),
{
    let x = r.block_id as int + r.entry_id as int * 0x1_0000_0000;
    assert(0 <= x < 0x1_0000_0000_0000_0000);
    assert(x % 0x1_0000_0000 == r.block_id as int && x / 0x1_0000_0000 == r.entry_id as int)
        by (nonlinear_arith)
        requires
            x == r.block_id as int + r.entry_id as int * 0x1_0000_0000,
            0 <= r.block_id < 0x1_0000_0000,
    ;
}

/// Parsing the textual form of a reference gives the reference back.
pub proof fn lemma_ref_text_round_trip(r: Ref)
    ensures
        parse_ref_spec(ref_text(r)) == Some(r),
{
    let db = decimal_text(r.block_id as nat);
    let de = decimal_text(r.entry_id as nat);
    let s = ref_text(r);
    lemma_decimal_text(r.block_id as nat);
    lemma_decimal_text(r.entry_id as nat);
    let k = db.len() as int;
    assert(s[k] == '/');
    assert forall|j: int| 0 <= j < k implies s[j] != '/' by {
        assert(s[j] == db[j]);
        assert(crate::decimal::is_digit(db[j]));
    }
    assert(first_slash(s, k));
    assert(has_slash(s));
    let kc = choose|kc: int| first_slash(s, kc);
    lemma_first_slash_unique(s, kc, k);
    assert(s.subrange(0, k) =~= db);
    assert(s.subrange(k + 1, s.len() as int) =~= de);
    assert(unsigned_digits(db) == db);
    assert(unsigned_digits(de) == de);
}

} // verus!
