//! Fixed-size byte strings: equality and lexicographic order.

use vstd::prelude::*;

verus! {

/// A plain account address.
pub type Address = [u8; 20];

/// A 32-byte word: a storage slot key or a hash.
pub type B256 = [u8; 32];

/// `a` comes strictly before `b` in lexicographic order: at the first place where they differ,
/// `a` holds the smaller byte, or `a` ends there.
pub open spec fn bytes_lt(a: Seq<u8>, b: Seq<u8>) -> bool {
    exists|i: int| #[trigger] differ_first_at(a, b, i) && (i == a.len() || a[i] < b[i])
}

/// The two sequences agree before `i`, and `b` goes on at `i` with a byte that `a` does not hold
/// there.
pub open spec fn differ_first_at(a: Seq<u8>, b: Seq<u8>, i: int) -> bool {
    &&& 0 <= i <= a.len()
    &&& i < b.len()
    &&& forall|j: int| 0 <= j < i ==> a[j] == b[j]
    &&& i < a.len() ==> a[i] != b[i]
}

/// `a` equals `b` or comes before it.
pub open spec fn bytes_le(a: Seq<u8>, b: Seq<u8>) -> bool {
    a == b || bytes_lt(a, b)
}

/// No byte string comes before itself.
pub proof fn law_bytes_lt_irreflexive(a: Seq<u8>)
    ensures
        !bytes_lt(a, a),
{
}

/// The order is transitive.
pub proof fn law_bytes_lt_transitive(a: Seq<u8>, b: Seq<u8>, c: Seq<u8>)
    requires
        bytes_lt(a, b),
        bytes_lt(b, c),
    ensures
        bytes_lt(a, c),
{
    let i = choose|i: int| #[trigger] differ_first_at(a, b, i) && (i == a.len() || a[i] < b[i]);
    let j = choose|j: int| #[trigger] differ_first_at(b, c, j) && (j == b.len() || b[j] < c[j]);
    let k = if i < j { i } else { j };
    assert(differ_first_at(a, c, k));
}

/// Of two different byte strings one comes before the other.
pub proof fn law_bytes_lt_total(a: Seq<u8>, b: Seq<u8>)
    ensures
        a == b || bytes_lt(a, b) || bytes_lt(b, a),
{
    let short = if a.len() < b.len() { a.len() } else { b.len() };
    lemma_first_difference(a, b, 0, short);
}

/// Finds the first place from `from` on where the two sequences differ.
proof fn lemma_first_difference(a: Seq<u8>, b: Seq<u8>, from: nat, short: nat)
    requires
        from <= short,
        short == (if a.len() < b.len() { a.len() } else { b.len() }),
        forall|j: int| 0 <= j < from ==> a[j] == b[j],
    ensures
        a == b || bytes_lt(a, b) || bytes_lt(b, a),
    decreases short - from,
{
    if from < short && a[from as int] == b[from as int] {
        lemma_first_difference(a, b, from + 1, short);
    } else if from < short {
        assert(differ_first_at(a, b, from as int));
        assert(differ_first_at(b, a, from as int));
    } else if a.len() < b.len() {
        assert(differ_first_at(a, b, from as int));
    } else if b.len() < a.len() {
        assert(differ_first_at(b, a, from as int));
    } else {
        assert(a =~= b);
    }
}

/// Two byte strings never come before each other.
pub proof fn law_bytes_lt_asymmetric(a: Seq<u8>, b: Seq<u8>)
    requires
        bytes_lt(a, b),
    ensures
        !bytes_lt(b, a),
        a != b,
{
    if bytes_lt(b, a) {
        law_bytes_lt_transitive(a, b, a);
    }
}

/// The first place at which two byte strings differ decides: the one with the smaller byte there
/// comes first. A byte string that goes on where another ends comes behind it.
pub proof fn law_first_difference_decides(a: Seq<u8>, b: Seq<u8>, place: int)
    requires
        0 <= place <= a.len(),
        place < b.len(),
        forall|i: int| 0 <= i < place ==> a[i] == b[i],
        place < a.len() ==> a[place] < b[place],
    ensures
        bytes_lt(a, b),
        bytes_le(a, b),
        !bytes_lt(b, a),
        !bytes_le(b, a),
{
    assert(differ_first_at(a, b, place));
    law_bytes_lt_asymmetric(a, b);
}

/// A byte string is at most itself, and not less than itself.
pub proof fn law_nothing_is_less_than_itself(a: Seq<u8>)
    ensures
        bytes_le(a, a),
        !bytes_lt(a, a),
{
    law_bytes_lt_irreflexive(a);
}

/// Byte strings of one size are equal exactly where they hold the same bytes.
pub proof fn lemma_same_bytes<const N: usize>(a: [u8; N], b: [u8; N])
    ensures
        (a@ == b@) == (a == b),
{
    if a@ == b@ {
        assert(a =~= b);
    }
}

/// Tells whether two byte strings are equal.
pub fn bytes_equal<const N: usize>(a: &[u8; N], b: &[u8; N]) -> (equal: bool)
    ensures
        equal == (*a == *b),
{
    let mut i: usize = 0;
    while i < N
        invariant
            i <= N,
            forall|j: int| 0 <= j < i ==> a@[j] == b@[j],
        decreases N - i,
    {
        if a[i] != b[i] {
            assert(a@[i as int] != b@[i as int]);
            return false;
        }
        i += 1;
    }
    assert(*a =~= *b);
    true
}

/// Tells whether `a` comes strictly before `b` in lexicographic order.
pub fn bytes_less<const N: usize>(a: &[u8; N], b: &[u8; N]) -> (less: bool)
    ensures
        less == bytes_lt(a@, b@),
        less <==> exists|place: int|
            {
                &&& 0 <= place < N
                &&& #[trigger] a[place] < b[place]
                &&& forall|i: int| 0 <= i < place ==> a[i] == b[i]
            },
{
    let mut i: usize = 0;
    while i < N
        invariant
            i <= N,
            forall|j: int| 0 <= j < i ==> a@[j] == b@[j],
        decreases N - i,
    {
        if a[i] != b[i] {
            assert(differ_first_at(a@, b@, i as int));
            proof {
                if bytes_lt(a@, b@) {
                    let k = choose|k: int| #[trigger]
                        differ_first_at(a@, b@, k) && (k == a@.len() || a@[k] < b@[k]);
                    assert(k == i);
                }
            }
            return a[i] < b[i];
        }
        i += 1;
    }
    proof {
        assert(a@ =~= b@);
        law_bytes_lt_irreflexive(a@);
    }
    false
}

/// Of two byte strings of one size, the one that holds the smaller byte at the first place where
/// they differ is less. Where they do not differ they are equal, and neither is less.
pub proof fn law_comparing_finds_the_first_difference<const N: usize>(
    a: &[u8; N],
    b: &[u8; N],
    equal: bool,
    less: bool,
    place: int,
)
    requires
        call_ensures(bytes_equal::<N>, (a, b), equal),
        call_ensures(bytes_less::<N>, (a, b), less),
        0 <= place <= N,
        forall|i: int| 0 <= i < place ==> a[i] == b[i],
        place < N ==> a[place] != b[place],
    ensures
        equal == (place == N),
        less == (place < N && a[place] < b[place]),
{
    if place == N {
        assert(a@ =~= b@);
        lemma_same_bytes(*a, *b);
        law_bytes_lt_irreflexive(a@);
    } else if a[place] < b[place] {
        law_first_difference_decides(a@, b@, place);
    } else {
        law_first_difference_decides(b@, a@, place);
    }
}

} // verus!
