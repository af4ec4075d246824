use vstd::prelude::*;
use vstd::relations::sorted_by;
use vstd::seq_lib::lemma_sorted_unique;
use crate::order::{bytes_leq_rel, deep_bytes, lemma_lex_bytes_total_ordering, sort_digests};

verus! {

/// The SHA-256 digest of a byte string. The digest is a function of the
/// input bytes alone; no short formula states its value.
pub uninterp spec fn sha256_of(bytes: Seq<u8>) -> Seq<u8>;

/// Relies on sha2::Sha256::digest: the SHA-256 digest of the input, 32 bytes
/// long, a function of the input bytes alone.
#[verifier::external_body]
pub(crate) fn sha256_digest(bytes: &Vec<u8>) -> (r: Vec<u8>)
    ensures
        r@ == sha256_of(bytes@),
        r@.len() == 32,
{
    let digest = <sha2::Sha256 as sha2::Digest>::digest(bytes.as_slice());
    digest.to_vec()
}

/// The concatenation of a sequence of byte strings, in the given order.
pub open spec fn concat_all(s: Seq<Seq<u8>>) -> Seq<u8>
    decreases s.len(),
{
    if s.len() == 0 {
        Seq::empty()
    } else {
        concat_all(s.drop_last()) + s.last()
    }
}

/// The aggregate digest of a collection of per-file digests: the digests are
/// brought into the canonical (byte-wise lexicographic) order, concatenated,
/// and digested once more. The canonical order makes the result independent
/// of the order in which the files were listed.
pub open spec fn aggregate_digest_of(digests: Seq<Seq<u8>>) -> Seq<u8> {
    sha256_of(concat_all(digests.sort_by(bytes_leq_rel())))
}

fn concat_digests(v: &Vec<Vec<u8>>) -> (r: Vec<u8>)
    ensures
        r@ == concat_all(deep_bytes(v@)),
{
    let mut r: Vec<u8> = Vec::new();
    let mut i: usize = 0;
    proof {
        assert(deep_bytes(v@).subrange(0, 0) =~= Seq::<Seq<u8>>::empty());
    }
    while i < v.len()
        invariant
            i <= v@.len(),
            r@ == concat_all(deep_bytes(v@).subrange(0, i as int)),
        decreases v@.len() - i,
    {
        r.extend_from_slice(v[i].as_slice());
        proof {
            let pre = deep_bytes(v@).subrange(0, i as int);
            let cur = deep_bytes(v@).subrange(0, i as int + 1);
            assert(cur.drop_last() =~= pre);
            assert(cur.last() == v@[i as int]@);
        }
        i = i + 1;
    }
    proof {
        assert(deep_bytes(v@).subrange(0, v@.len() as int) =~= deep_bytes(v@));
    }
    r
}

/// Computes the aggregate digest of the given per-file digests: sorts them
/// into the canonical order, concatenates, and digests the concatenation.
pub fn aggregate_digest(digests: Vec<Vec<u8>>) -> (r: Vec<u8>)
    ensures
        r@ == aggregate_digest_of(deep_bytes(digests@)),
        r@.len() == 32,
{
    let sorted = sort_digests(digests);
    let joined = concat_digests(&sorted);
    sha256_digest(&joined)
}

/// Law: the aggregate digest is insensitive to the order in which the
/// per-file digests were collected; any two collections with the same
/// digests (as a multiset) combine to the same aggregate digest.
pub proof fn lemma_aggregate_order_independent(d1: Seq<Seq<u8>>, d2: Seq<Seq<u8>>)
    requires
        d1.to_multiset() == d2.to_multiset(),
    ensures
        aggregate_digest_of(d1) == aggregate_digest_of(d2),
{
    lemma_lex_bytes_total_ordering();
    d1.lemma_sort_by_ensures(bytes_leq_rel());
    d2.lemma_sort_by_ensures(bytes_leq_rel());
    lemma_sorted_unique(d1.sort_by(bytes_leq_rel()), d2.sort_by(bytes_leq_rel()), bytes_leq_rel());
    assert(d1.sort_by(bytes_leq_rel()) =~= d2.sort_by(bytes_leq_rel()));
}

/// Law: a document with no digested content files always gets the same fixed
/// sentinel: the SHA-256 digest of the empty byte string.
pub proof fn lemma_empty_aggregate_sentinel()
    ensures
        aggregate_digest_of(Seq::<Seq<u8>>::empty()) == sha256_of(Seq::<u8>::empty()),
{
    broadcast use vstd::seq_lib::group_to_multiset_ensures;

    let e = Seq::<Seq<u8>>::empty();
    lemma_lex_bytes_total_ordering();
    e.lemma_sort_by_ensures(bytes_leq_rel());
    assert(e.sort_by(bytes_leq_rel()).to_multiset() =~= e.to_multiset());
    vstd::seq_lib::to_multiset_len(e);
    vstd::seq_lib::to_multiset_len(e.sort_by(bytes_leq_rel()));
    assert(e.sort_by(bytes_leq_rel()).len() == 0);
    assert(e.sort_by(bytes_leq_rel()) =~= e);
    assert(concat_all(e) =~= Seq::<u8>::empty());
}

/// The byte of the ASCII character that stands for a hexadecimal digit,
/// upper case.
pub open spec fn hex_digit_byte(n: u8) -> u8
    recommends
        n < 16,
{
    if n < 10 {
        (n + 48) as u8
    } else {
        (n + 55) as u8
    }
}

/// The ASCII bytes of the upper-case hexadecimal rendering of a byte string,
/// two digits per byte.
pub open spec fn hex_bytes_of(bytes: Seq<u8>) -> Seq<u8>
    decreases bytes.len(),
{
    if bytes.len() == 0 {
        Seq::empty()
    } else {
        hex_bytes_of(bytes.drop_last()).push(hex_digit_byte(bytes.last() / 16)).push(
            hex_digit_byte(bytes.last() % 16),
        )
    }
}

/// The upper-case hexadecimal rendering of a byte string, as characters.
pub open spec fn hex_of(bytes: Seq<u8>) -> Seq<char> {
    hex_bytes_of(bytes).map_values(|b: u8| b as char)
}

proof fn lemma_hex_bytes_ascii(bytes: Seq<u8>)
    ensures
        forall|i: int| 0 <= i < hex_bytes_of(bytes).len() ==> #[trigger] hex_bytes_of(bytes)[i] < 128,
    decreases bytes.len(),
{
    if bytes.len() != 0 {
        lemma_hex_bytes_ascii(bytes.drop_last());
        let h = hex_bytes_of(bytes);
        let p = hex_bytes_of(bytes.drop_last());
        assert forall|i: int| 0 <= i < h.len() implies #[trigger] h[i] < 128 by {
            if i < p.len() {
                assert(h[i] == p[i]);
            } else if i == p.len() {
                assert(h[i] == hex_digit_byte(bytes.last() / 16));
            } else {
                assert(h[i] == hex_digit_byte(bytes.last() % 16));
            }
        }
    }
}

/// Relies on String::from_utf8: bytes below 128 decode to the string of the
/// characters with the same code points.
#[verifier::external_body]
fn ascii_to_string(bytes: Vec<u8>) -> (r: String)
    requires
        forall|i: int| 0 <= i < bytes@.len() ==> bytes@[i] < 128,
    ensures
        r@ == bytes@.map_values(|b: u8| b as char),
{
    String::from_utf8(bytes).unwrap_or_default()
}

/// Renders a byte string as upper-case hexadecimal, two digits per byte.
pub fn to_hex_upper(bytes: &Vec<u8>) -> (r: String)
    ensures
        r@ == hex_of(bytes@),
{
    let mut out: Vec<u8> = Vec::new();
    let mut i: usize = 0;
    proof {
        assert(hex_bytes_of(bytes@.subrange(0, 0)) =~= Seq::<u8>::empty());
    }
    while i < bytes.len()
        invariant
            i <= bytes@.len(),
            out@ == hex_bytes_of(bytes@.subrange(0, i as int)),
        decreases bytes@.len() - i,
    {
        let b = bytes[i];
        let hi = b / 16;
        let lo = b % 16;
        let hb: u8 = if hi < 10 {
            hi + 48
        } else {
            hi + 55
        };
        let lb: u8 = if lo < 10 {
            lo + 48
        } else {
            lo + 55
        };
        out.push(hb);
        out.push(lb);
        proof {
            let pre = bytes@.subrange(0, i as int);
            let cur = bytes@.subrange(0, i as int + 1);
            assert(cur.drop_last() =~= pre);
            assert(cur.last() == bytes@[i as int]);
        }
        i = i + 1;
    }
    proof {
        assert(bytes@.subrange(0, bytes@.len() as int) =~= bytes@);
        lemma_hex_bytes_ascii(bytes@);
    }
    ascii_to_string(out)
}

} // verus!
