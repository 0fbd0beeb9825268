//! The order in which file paths are compared.
//!
//! Paths are ordered as Rust orders `str` values: byte by byte over their
//! UTF-8 encoding, a proper prefix coming before every extension of it.
//! The order is a strict total order on path values, which is what makes
//! every ranking built on it reproducible.

use vstd::prelude::*;
use vstd::utf8::*;

verus! {

/// `a` comes before `b` when both are compared byte by byte from position `i` on.
pub open spec fn bytes_lt_from(a: Seq<u8>, b: Seq<u8>, i: int) -> bool
    decreases a.len() - i,
{
    if i < 0 || i >= b.len() {
        false
    } else if i >= a.len() {
        true
    } else if a[i] != b[i] {
        a[i] < b[i]
    } else {
        bytes_lt_from(a, b, i + 1)
    }
}

/// Lexicographic order on byte strings.
pub open spec fn bytes_lt(a: Seq<u8>, b: Seq<u8>) -> bool {
    bytes_lt_from(a, b, 0)
}

/// The strict order on paths: lexicographic on the UTF-8 bytes.
pub open spec fn path_lt(a: Seq<char>, b: Seq<char>) -> bool {
    bytes_lt(encode_utf8(a), encode_utf8(b))
}

/// No byte string comes before itself.
pub proof fn lemma_bytes_lt_irreflexive(a: Seq<u8>, i: int)
    ensures
        !bytes_lt_from(a, a, i),
    decreases a.len() - i,
{
    if 0 <= i < a.len() {
        lemma_bytes_lt_irreflexive(a, i + 1);
    }
}

/// The order on byte strings is transitive.
pub proof fn lemma_bytes_lt_transitive(a: Seq<u8>, b: Seq<u8>, c: Seq<u8>, i: int)
    requires
        bytes_lt_from(a, b, i),
        bytes_lt_from(b, c, i),
    ensures
        bytes_lt_from(a, c, i),
    decreases a.len() - i,
{
    if i < a.len() && a[i] == b[i] && b[i] == c[i] {
        lemma_bytes_lt_transitive(a, b, c, i + 1);
    }
}

/// Two byte strings of which neither comes before the other agree from `i` on.
pub proof fn lemma_bytes_lt_connected(a: Seq<u8>, b: Seq<u8>, i: int)
    requires
        0 <= i <= a.len(),
        i <= b.len(),
        !bytes_lt_from(a, b, i),
        !bytes_lt_from(b, a, i),
    ensures
        a.len() == b.len(),
        forall|k: int| i <= k < a.len() ==> a[k] == b[k],
    decreases a.len() - i,
{
    if i < a.len() && i < b.len() {
        lemma_bytes_lt_connected(a, b, i + 1);
    }
}

/// No path comes before itself.
pub proof fn lemma_path_lt_irreflexive(a: Seq<char>)
    ensures
        !path_lt(a, a),
{
    lemma_bytes_lt_irreflexive(encode_utf8(a), 0);
}

/// The order on paths is transitive.
pub proof fn lemma_path_lt_transitive(a: Seq<char>, b: Seq<char>, c: Seq<char>)
    requires
        path_lt(a, b),
        path_lt(b, c),
    ensures
        path_lt(a, c),
{
    lemma_bytes_lt_transitive(encode_utf8(a), encode_utf8(b), encode_utf8(c), 0);
}

/// Of two paths, at most one comes before the other.
pub proof fn lemma_path_lt_asymmetric(a: Seq<char>, b: Seq<char>)
    requires
        path_lt(a, b),
    ensures
        !path_lt(b, a),
        a != b,
{
    if path_lt(b, a) {
        lemma_path_lt_transitive(a, b, a);
    }
    lemma_path_lt_irreflexive(a);
}

/// Two different paths are always ordered, one way or the other.
pub proof fn lemma_path_lt_connected(a: Seq<char>, b: Seq<char>)
    requires
        !path_lt(a, b),
        !path_lt(b, a),
    ensures
        a == b,
{
    let x = encode_utf8(a);
    let y = encode_utf8(b);
    lemma_bytes_lt_connected(x, y, 0);
    assert(x =~= y);
    encode_utf8_decode_utf8(a);
    encode_utf8_decode_utf8(b);
}

/// Tells whether the path `a` comes before the path `b`.
pub fn path_less(a: &str, b: &str) -> (r: bool)
    ensures
        r == path_lt(a@, b@),
{
    let x = a.as_bytes();
    let y = b.as_bytes();
    let mut i: usize = 0;
    while i < x.len() && i < y.len()
        invariant
            i <= x.len(),
            i <= y.len(),
            x@ == encode_utf8(a@),
            y@ == encode_utf8(b@),
            bytes_lt(x@, y@) == bytes_lt_from(x@, y@, i as int),
        decreases x.len() - i,
    {
        if x[i] != y[i] {
            return x[i] < y[i];
        }
        i += 1;
    }
    i < y.len()
}

} // verus!
