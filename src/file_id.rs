//! The 20-byte content-hash identifier: a hex rendering and a
//! lexicographic order over its bytes.

use vstd::prelude::*;
use vstd::utf8::is_ascii_chars;
use core::cmp::Ordering;
use vstd::std_specs::cmp::PartialOrdSpec;
use crate::numeral::{ascii_bytes, ascii_string, lemma_symbol_value, symbol, symbol_of};

verus! {

/// A 160-bit content hash, held as its 20 bytes.
#[derive(Debug, Clone, Copy, Eq, Ord, Hash)]
pub struct FileId(pub [u8; 20]);

/// Two lowercase hex digits for each byte, in order.
pub open spec fn hex_pairs(b: Seq<u8>) -> Seq<u8>
    decreases b.len(),
{
    if b.len() == 0 {
        Seq::empty()
    } else {
        hex_pairs(b.drop_last()) + seq![symbol((b.last() as int) / 16), symbol((b.last() as int) % 16)]
    }
}

/// Lexicographic order: the first index where the sequences differ decides,
/// and a proper prefix comes first.
pub open spec fn lex_order(a: Seq<u8>, b: Seq<u8>) -> Ordering
    decreases a.len(),
{
    if a.len() == 0 || b.len() == 0 {
        if a.len() < b.len() {
            Ordering::Less
        } else if a.len() > b.len() {
            Ordering::Greater
        } else {
            Ordering::Equal
        }
    } else if a[0] < b[0] {
        Ordering::Less
    } else if a[0] > b[0] {
        Ordering::Greater
    } else {
        lex_order(a.drop_first(), b.drop_first())
    }
}

proof fn lemma_hex_pairs_shape(b: Seq<u8>)
    ensures
        hex_pairs(b).len() == 2 * b.len(),
        forall|i: int| 0 <= i < hex_pairs(b).len() ==> #[trigger] hex_pairs(b)[i] < 128,
    decreases b.len(),
{
    if b.len() > 0 {
        lemma_hex_pairs_shape(b.drop_last());
        lemma_symbol_value((b.last() as int) / 16);
        lemma_symbol_value((b.last() as int) % 16);
        let p = hex_pairs(b.drop_last());
        assert forall|i: int| 0 <= i < hex_pairs(b).len() implies #[trigger] hex_pairs(b)[i]
            < 128 by {
            if i < p.len() {
                assert(hex_pairs(b)[i] == p[i]);
            }
        }
    }
}

/// Sequences that agree before index `k` and differ at it are ordered as
/// their bytes at `k`.
proof fn lemma_lex_first_difference(a: Seq<u8>, b: Seq<u8>, k: int)
    requires
        0 <= k < a.len(),
        k < b.len(),
        forall|i: int| 0 <= i < k ==> a[i] == b[i],
        a[k] != b[k],
    ensures
        lex_order(a, b) == (if a[k] < b[k] {
            Ordering::Less
        } else {
            Ordering::Greater
        }),
    decreases k,
{
    if k > 0 {
        assert(a[0] == b[0]);
        lemma_lex_first_difference(a.drop_first(), b.drop_first(), k - 1);
    }
}

impl FileId {
    /// The 40-character lowercase hex form: two digits per byte, first byte
    /// first.
    pub fn to_base16(&self) -> (r: String)
        ensures
            r@.len() == 40,
            is_ascii_chars(r@),
            ascii_bytes(r@) == hex_pairs(self.0@),
    {
        let mut out: Vec<u8> = Vec::new();
        let mut i: usize = 0;
        while i < 20
            invariant
                i <= 20,
                self.0@.len() == 20,
                out@ == hex_pairs(self.0@.subrange(0, i as int)),
            decreases 20 - i,
        {
            let b = self.0[i];
            out.push(symbol_of(b / 16));
            out.push(symbol_of(b % 16));
            assert(self.0@.subrange(0, i + 1).drop_last() =~= self.0@.subrange(0, i as int));
            assert(out@ =~= hex_pairs(self.0@.subrange(0, i + 1)));
            i = i + 1;
        }
        assert(self.0@.subrange(0, 20) =~= self.0@);
        proof {
            lemma_hex_pairs_shape(self.0@);
        }
        ascii_string(out)
    }
}

impl PartialEq for FileId {
    fn eq(&self, other: &FileId) -> (r: bool) {
        let mut i: usize = 0;
        while i < 20
            invariant
                i <= 20,
                self.0@.len() == 20,
                other.0@.len() == 20,
                forall|j: int| 0 <= j < i ==> self.0@[j] == other.0@[j],
            decreases 20 - i,
        {
            if self.0[i] != other.0[i] {
                return false;
            }
            i = i + 1;
        }
        assert(self.0@ =~= other.0@);
        true
    }
}

impl vstd::std_specs::cmp::PartialEqSpecImpl for FileId {
    open spec fn obeys_eq_spec() -> bool {
        true
    }

    open spec fn eq_spec(&self, other: &FileId) -> bool {
        self.0@ == other.0@
    }
}

impl PartialOrd for FileId {
    fn partial_cmp(&self, other: &FileId) -> (r: Option<Ordering>) {
        assert(self.0@.subrange(0, 20) =~= self.0@);
        assert(other.0@.subrange(0, 20) =~= other.0@);
        let mut i: usize = 0;
        while i < 20
            invariant
                i <= 20,
                self.0@.len() == 20,
                other.0@.len() == 20,
                lex_order(self.0@, other.0@) == lex_order(
                    self.0@.subrange(i as int, 20),
                    other.0@.subrange(i as int, 20),
                ),
            decreases 20 - i,
        {
            let a = self.0[i];
            let b = other.0[i];
            assert(self.0@.subrange(i as int, 20).drop_first() =~= self.0@.subrange(i + 1, 20));
            assert(other.0@.subrange(i as int, 20).drop_first() =~= other.0@.subrange(
                i + 1,
                20,
            ));
            if a < b {
                return Some(Ordering::Less);
            } else if a > b {
                return Some(Ordering::Greater);
            }
            i = i + 1;
        }
        Some(Ordering::Equal)
    }
}

impl vstd::std_specs::cmp::PartialOrdSpecImpl for FileId {
    open spec fn obeys_partial_cmp_spec() -> bool {
        true
    }

    open spec fn partial_cmp_spec(&self, other: &FileId) -> Option<Ordering> {
        Some(lex_order(self.0@, other.0@))
    }
}

/// Two content hashes that agree on their first `k` bytes and differ at byte
/// `k` are ordered as their bytes at `k`.
pub proof fn lemma_first_difference_orders(a: FileId, b: FileId, k: int)
    requires
        0 <= k < 20,
        forall|i: int| 0 <= i < k ==> a.0@[i] == b.0@[i],
        a.0@[k] != b.0@[k],
    ensures
        a.partial_cmp_spec(&b) == Some(
            if a.0@[k] < b.0@[k] {
                Ordering::Less
            } else {
                Ordering::Greater
            },
        ),
{
    lemma_lex_first_difference(a.0@, b.0@, k);
}

} // verus!
