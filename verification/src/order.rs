use vstd::prelude::*;
use vstd::relations::{antisymmetric, reflexive, sorted_by, strongly_connected, total_ordering, transitive};
use vstd::seq_lib::lemma_sorted_unique;

verus! {

/// Lexicographic "less or equal" over sequences, comparing elements through an
/// integer key. The empty sequence precedes everything; otherwise the first
/// position with differing keys decides.
pub open spec fn lex_leq<T>(a: Seq<T>, b: Seq<T>, k: spec_fn(T) -> int) -> bool
    decreases a.len(),
{
    if a.len() == 0 {
        true
    } else if b.len() == 0 {
        false
    } else if k(a[0]) < k(b[0]) {
        true
    } else if k(a[0]) > k(b[0]) {
        false
    } else {
        lex_leq(a.drop_first(), b.drop_first(), k)
    }
}

/// The key used for byte sequences: the byte's value.
pub open spec fn byte_key() -> spec_fn(u8) -> int {
    |x: u8| x as int
}

/// The key used for character sequences: the character's code point.
pub open spec fn char_key() -> spec_fn(char) -> int {
    |c: char| c as int
}

/// Byte-wise lexicographic order on byte strings.
pub open spec fn lex_leq_bytes(a: Seq<u8>, b: Seq<u8>) -> bool {
    lex_leq(a, b, byte_key())
}

/// Code-point-wise lexicographic order on character strings.
pub open spec fn lex_leq_chars(a: Seq<char>, b: Seq<char>) -> bool {
    lex_leq(a, b, char_key())
}

pub open spec fn bytes_leq_rel() -> spec_fn(Seq<u8>, Seq<u8>) -> bool {
    |a: Seq<u8>, b: Seq<u8>| lex_leq_bytes(a, b)
}

pub open spec fn chars_leq_rel() -> spec_fn(Seq<char>, Seq<char>) -> bool {
    |a: Seq<char>, b: Seq<char>| lex_leq_chars(a, b)
}

pub proof fn lemma_lex_refl<T>(a: Seq<T>, k: spec_fn(T) -> int)
    ensures
        lex_leq(a, a, k),
    decreases a.len(),
{
    if a.len() != 0 {
        lemma_lex_refl(a.drop_first(), k);
    }
}

pub proof fn lemma_lex_connected<T>(a: Seq<T>, b: Seq<T>, k: spec_fn(T) -> int)
    ensures
        lex_leq(a, b, k) || lex_leq(b, a, k),
    decreases a.len(),
{
    if a.len() != 0 && b.len() != 0 && k(a[0]) == k(b[0]) {
        lemma_lex_connected(a.drop_first(), b.drop_first(), k);
    }
}

pub proof fn lemma_lex_antisym<T>(a: Seq<T>, b: Seq<T>, k: spec_fn(T) -> int)
    requires
        lex_leq(a, b, k),
        lex_leq(b, a, k),
        forall|x: T, y: T| #![trigger k(x), k(y)] k(x) == k(y) ==> x == y,
    ensures
        a == b,
    decreases a.len(),
{
    if a.len() == 0 {
        assert(b.len() == 0);
        assert(a =~= b);
    } else {
        assert(b.len() != 0);
        assert(k(a[0]) == k(b[0]));
        assert(a[0] == b[0]);
        lemma_lex_antisym(a.drop_first(), b.drop_first(), k);
        assert(a.len() == b.len());
        assert forall|i: int| 0 <= i < a.len() implies a[i] == b[i] by {
            if i > 0 {
                assert(a[i] == a.drop_first()[i - 1]);
                assert(b[i] == b.drop_first()[i - 1]);
            }
        }
        assert(a =~= b);
    }
}

pub proof fn lemma_lex_trans<T>(a: Seq<T>, b: Seq<T>, c: Seq<T>, k: spec_fn(T) -> int)
    requires
        lex_leq(a, b, k),
        lex_leq(b, c, k),
    ensures
        lex_leq(a, c, k),
    decreases a.len(),
{
    if a.len() == 0 {
    } else {
        assert(b.len() != 0);
        assert(c.len() != 0);
        if k(a[0]) == k(b[0]) && k(b[0]) == k(c[0]) {
            lemma_lex_trans(a.drop_first(), b.drop_first(), c.drop_first(), k);
        }
    }
}

/// Byte-wise lexicographic order is a total ordering on byte strings.
pub proof fn lemma_lex_bytes_total_ordering()
    ensures
        total_ordering(bytes_leq_rel()),
{
    let rel = bytes_leq_rel();
    let k = byte_key();
    assert forall|x: Seq<u8>| #[trigger] rel(x, x) by {
        lemma_lex_refl(x, k);
    }
    assert(reflexive(rel));
    assert forall|x: Seq<u8>, y: Seq<u8>| #[trigger] rel(x, y) && #[trigger] rel(y, x) implies x == y by {
        lemma_lex_antisym(x, y, k);
    }
    assert(antisymmetric(rel));
    assert forall|x: Seq<u8>, y: Seq<u8>, z: Seq<u8>| #[trigger] rel(x, y) && #[trigger] rel(y, z) implies rel(x, z) by {
        lemma_lex_trans(x, y, z, k);
    }
    assert(transitive(rel));
    assert forall|x: Seq<u8>, y: Seq<u8>| #[trigger] rel(x, y) || #[trigger] rel(y, x) by {
        lemma_lex_connected(x, y, k);
    }
    assert(strongly_connected(rel));
}

/// Compares two byte vectors in the byte-wise lexicographic order.
pub fn bytes_leq(a: &Vec<u8>, b: &Vec<u8>) -> (r: bool)
    ensures
        r == lex_leq_bytes(a@, b@),
{
    let mut i: usize = 0;
    proof {
        assert(a@.skip(0) =~= a@);
        assert(b@.skip(0) =~= b@);
    }
    loop
        invariant
            i <= a@.len(),
            i <= b@.len(),
            lex_leq_bytes(a@, b@) == lex_leq(a@.skip(i as int), b@.skip(i as int), byte_key()),
        decreases a@.len() - i,
    {
        if i == a.len() {
            return true;
        }
        if i == b.len() {
            return false;
        }
        let x = a[i];
        let y = b[i];
        proof {
            assert(a@.skip(i as int)[0] == a@[i as int]);
            assert(b@.skip(i as int)[0] == b@[i as int]);
        }
        if x < y {
            return true;
        }
        if x > y {
            return false;
        }
        proof {
            assert(a@.skip(i as int).drop_first() =~= a@.skip(i as int + 1));
            assert(b@.skip(i as int).drop_first() =~= b@.skip(i as int + 1));
        }
        i = i + 1;
    }
}

/// Compares two strings in the code-point-wise lexicographic order.
pub fn strings_leq(a: &String, b: &String) -> (r: bool)
    ensures
        r == lex_leq_chars(a@, b@),
{
    let alen = a.as_str().unicode_len();
    let blen = b.as_str().unicode_len();
    let mut i: usize = 0;
    proof {
        assert(a@.skip(0) =~= a@);
        assert(b@.skip(0) =~= b@);
    }
    loop
        invariant
            i <= a@.len(),
            i <= b@.len(),
            alen == a@.len(),
            blen == b@.len(),
            lex_leq_chars(a@, b@) == lex_leq(a@.skip(i as int), b@.skip(i as int), char_key()),
        decreases a@.len() - i,
    {
        if i == alen {
            return true;
        }
        if i == blen {
            return false;
        }
        let x = a.as_str().get_char(i);
        let y = b.as_str().get_char(i);
        proof {
            assert(a@.skip(i as int)[0] == a@[i as int]);
            assert(b@.skip(i as int)[0] == b@[i as int]);
        }
        if x < y {
            return true;
        }
        if x > y {
            return false;
        }
        proof {
            assert(a@.skip(i as int).drop_first() =~= a@.skip(i as int + 1));
            assert(b@.skip(i as int).drop_first() =~= b@.skip(i as int + 1));
        }
        i = i + 1;
    }
}

/// The views of a sequence of byte vectors.
pub open spec fn deep_bytes(s: Seq<Vec<u8>>) -> Seq<Seq<u8>> {
    s.map_values(|v: Vec<u8>| v@)
}

proof fn lemma_deep_bytes_push(s: Seq<Vec<u8>>, x: Vec<u8>)
    ensures
        deep_bytes(s.push(x)) =~= deep_bytes(s).push(x@),
{
}

proof fn lemma_deep_bytes_remove(s: Seq<Vec<u8>>, i: int)
    requires
        0 <= i < s.len(),
    ensures
        deep_bytes(s.remove(i)) =~= deep_bytes(s).remove(i),
{
    assert forall|j: int| 0 <= j < s.len() - 1 implies deep_bytes(s.remove(i))[j] == deep_bytes(s).remove(i)[j] by {
    }
}

/// Finds the index of a least digest under the byte-wise lexicographic order.
fn find_min_digest(v: &Vec<Vec<u8>>) -> (m: usize)
    requires
        v@.len() > 0,
    ensures
        m < v@.len(),
        forall|j: int| 0 <= j < v@.len() ==> lex_leq_bytes(v@[m as int]@, #[trigger] v@[j]@),
{
    let mut m: usize = 0;
    let mut j: usize = 1;
    proof {
        lemma_lex_refl(v@[0]@, byte_key());
    }
    while j < v.len()
        invariant
            m < v@.len(),
            1 <= j <= v@.len(),
            forall|jj: int| 0 <= jj < j ==> lex_leq_bytes(v@[m as int]@, #[trigger] v@[jj]@),
        decreases v@.len() - j,
    {
        if bytes_leq(&v[j], &v[m]) {
            proof {
                assert forall|jj: int| 0 <= jj < j + 1 implies lex_leq_bytes(v@[j as int]@, #[trigger] v@[jj]@) by {
                    if jj < j {
                        lemma_lex_trans(v@[j as int]@, v@[m as int]@, v@[jj]@, byte_key());
                    } else {
                        lemma_lex_refl(v@[j as int]@, byte_key());
                    }
                }
            }
            m = j;
        } else {
            proof {
                lemma_lex_connected(v@[j as int]@, v@[m as int]@, byte_key());
            }
        }
        j = j + 1;
    }
    m
}

/// Sorts a collection of digests into the canonical (byte-wise lexicographic)
/// order. The result is exactly the canonical reordering of the input.
pub fn sort_digests(input: Vec<Vec<u8>>) -> (r: Vec<Vec<u8>>)
    ensures
        deep_bytes(r@) == deep_bytes(input@).sort_by(bytes_leq_rel()),
{
    broadcast use vstd::seq_lib::group_to_multiset_ensures;
    broadcast use vstd::multiset::group_multiset_axioms;

    let ghost orig: Seq<Seq<u8>> = deep_bytes(input@);
    let mut rest = input;
    let mut out: Vec<Vec<u8>> = Vec::new();
    proof {
        assert(deep_bytes(out@) =~= Seq::<Seq<u8>>::empty());
        assert(deep_bytes(out@).to_multiset().add(deep_bytes(rest@).to_multiset())
            =~= orig.to_multiset());
    }
    while rest.len() > 0
        invariant
            sorted_by(deep_bytes(out@), bytes_leq_rel()),
            forall|i: int, j: int|
                0 <= i < out@.len() && 0 <= j < rest@.len()
                    ==> lex_leq_bytes(#[trigger] out@[i]@, #[trigger] rest@[j]@),
            deep_bytes(out@).to_multiset().add(deep_bytes(rest@).to_multiset()) == orig.to_multiset(),
        decreases rest@.len(),
    {
        let ghost rest0 = rest@;
        let ghost out0 = out@;
        let m = find_min_digest(&rest);
        let x = rest.remove(m);
        out.push(x);
        proof {
            lemma_deep_bytes_remove(rest0, m as int);
            lemma_deep_bytes_push(out0, x);
            assert(out@ == out0.push(x));
            // the new output stays sorted: its last element is a least
            // element of what remained
            assert forall|i: int, j: int|
                0 <= i < j < deep_bytes(out@).len()
                    implies bytes_leq_rel()(deep_bytes(out@)[i], deep_bytes(out@)[j]) by {
                if j < out0.len() {
                    assert(bytes_leq_rel()(deep_bytes(out0)[i], deep_bytes(out0)[j]));
                } else {
                    assert(deep_bytes(out@)[j] == x@);
                    assert(lex_leq_bytes(out0[i]@, rest0[m as int]@));
                }
            }
            // everything still unsorted is bounded below by the new element
            assert forall|i: int, j: int|
                0 <= i < out@.len() && 0 <= j < rest@.len()
                    implies lex_leq_bytes(#[trigger] out@[i]@, #[trigger] rest@[j]@) by {
                let jj: int = if j < m { j } else { j + 1 };
                assert(rest@[j] == rest0[jj]);
                if i < out0.len() {
                    assert(lex_leq_bytes(out0[i]@, rest0[jj]@));
                } else {
                    assert(out@[i] == x);
                    assert(lex_leq_bytes(rest0[m as int]@, rest0[jj]@));
                }
            }
            vstd::seq_lib::to_multiset_remove(deep_bytes(rest0), m as int);
            assert(deep_bytes(rest@).to_multiset() =~= deep_bytes(rest0).to_multiset().remove(rest0[m as int]@));
            vstd::seq_lib::to_multiset_build(deep_bytes(out0), x@);
            assert(deep_bytes(out@).to_multiset() =~= deep_bytes(out0).to_multiset().insert(x@));
            assert(deep_bytes(rest0).contains(deep_bytes(rest0)[m as int]));
            vstd::seq_lib::to_multiset_contains(deep_bytes(rest0), deep_bytes(rest0)[m as int]);
            assert(deep_bytes(rest0).to_multiset().contains(rest0[m as int]@));
            assert(deep_bytes(out@).to_multiset().add(deep_bytes(rest@).to_multiset())
                =~= orig.to_multiset());
        }
    }
    proof {
        assert(deep_bytes(rest@) =~= Seq::<Seq<u8>>::empty());
        assert(deep_bytes(out@).to_multiset() =~= orig.to_multiset());
        lemma_lex_bytes_total_ordering();
        orig.lemma_sort_by_ensures(bytes_leq_rel());
        lemma_sorted_unique(deep_bytes(out@), orig.sort_by(bytes_leq_rel()), bytes_leq_rel());
        assert(deep_bytes(out@) =~= orig.sort_by(bytes_leq_rel()));
    }
    out
}

} // verus!
