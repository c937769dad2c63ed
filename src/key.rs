//! The order on keys: byte-wise lexicographic order of the UTF-8 text, which
//! is the order of `String` in std.
use vstd::prelude::*;
use vstd::utf8::{encode_utf8, encode_utf8_decode_utf8};

verus! {

/// The bytes by which a key is ordered.
pub open spec fn key_bytes(s: Seq<char>) -> Seq<u8> {
    encode_utf8(s)
}

/// Three-way lexicographic comparison of byte strings: -1, 0 or 1.
pub open spec fn lex_cmp(a: Seq<u8>, b: Seq<u8>) -> int
    decreases a.len(),
{
    if a.len() == 0 {
        if b.len() == 0 {
            0
        } else {
            -1
        }
    } else if b.len() == 0 {
        1
    } else if a[0] < b[0] {
        -1
    } else if a[0] > b[0] {
        1
    } else {
        lex_cmp(a.drop_first(), b.drop_first())
    }
}

/// Comparison of two keys.
pub open spec fn key_cmp(a: Seq<char>, b: Seq<char>) -> int {
    lex_cmp(key_bytes(a), key_bytes(b))
}

/// Whether a descent that meets `node_key` while placing `new_key` goes to
/// the left: it does when `node_key` is greater than or equal to `new_key`.
pub open spec fn places_left(node_key: Seq<char>, new_key: Seq<char>) -> bool {
    key_cmp(node_key, new_key) >= 0
}

pub proof fn lemma_lex_cmp_refl(a: Seq<u8>)
    ensures
        lex_cmp(a, a) == 0,
    decreases a.len(),
{
    if a.len() > 0 {
        lemma_lex_cmp_refl(a.drop_first());
    }
}

pub proof fn lemma_lex_cmp_zero(a: Seq<u8>, b: Seq<u8>)
    requires
        lex_cmp(a, b) == 0,
    ensures
        a == b,
    decreases a.len(),
{
    if a.len() > 0 && b.len() > 0 {
        lemma_lex_cmp_zero(a.drop_first(), b.drop_first());
        assert(a =~= seq![a[0]] + a.drop_first());
        assert(b =~= seq![b[0]] + b.drop_first());
    }
}

pub proof fn lemma_lex_cmp_antisym(a: Seq<u8>, b: Seq<u8>)
    ensures
        lex_cmp(a, b) == -lex_cmp(b, a),
        -1 <= lex_cmp(a, b) <= 1,
    decreases a.len(),
{
    if a.len() > 0 && b.len() > 0 {
        lemma_lex_cmp_antisym(a.drop_first(), b.drop_first());
    }
}

pub proof fn lemma_lex_cmp_trans(a: Seq<u8>, b: Seq<u8>, c: Seq<u8>)
    ensures
        lex_cmp(a, b) <= 0 && lex_cmp(b, c) <= 0 ==> lex_cmp(a, c) <= 0,
        lex_cmp(a, b) < 0 && lex_cmp(b, c) <= 0 ==> lex_cmp(a, c) < 0,
        lex_cmp(a, b) <= 0 && lex_cmp(b, c) < 0 ==> lex_cmp(a, c) < 0,
    decreases a.len(),
{
    if a.len() > 0 && b.len() > 0 && c.len() > 0 {
        lemma_lex_cmp_trans(a.drop_first(), b.drop_first(), c.drop_first());
    }
}

/// Keys that compare equal are equal.
pub proof fn lemma_key_cmp_zero(a: Seq<char>, b: Seq<char>)
    requires
        key_cmp(a, b) == 0,
    ensures
        a == b,
{
    lemma_lex_cmp_zero(key_bytes(a), key_bytes(b));
    encode_utf8_decode_utf8(a);
    encode_utf8_decode_utf8(b);
}

/// A key equal to the one already in a node goes to that node's left:
/// placement sends equal keys down the left side.
pub proof fn lemma_equal_key_goes_left(node_key: Seq<char>, new_key: Seq<char>)
    requires
        node_key == new_key,
    ensures
        places_left(node_key, new_key),
{
    lemma_lex_cmp_refl(key_bytes(node_key));
}

/// Decides the side of a descent that places `new_key` and meets `node_key`.
pub fn goes_left(node_key: &String, new_key: &String) -> (r: bool)
    ensures
        r == places_left(node_key@, new_key@),
{
    compare_keys(node_key, new_key) >= 0
}

/// Compares two keys: negative when `a < b`, zero when they are equal,
/// positive when `a > b`.
pub fn compare_keys(a: &String, b: &String) -> (r: i8)
    ensures
        r as int == key_cmp(a@, b@),
{
    let x = a.as_str().as_bytes();
    let y = b.as_str().as_bytes();
    let ghost xs = x@;
    let ghost ys = y@;
    assert(xs.subrange(0, xs.len() as int) =~= xs);
    assert(ys.subrange(0, ys.len() as int) =~= ys);
    let mut i: usize = 0;
    while i < x.len() && i < y.len()
        invariant
            xs == x@,
            ys == y@,
            xs == key_bytes(a@),
            ys == key_bytes(b@),
            i <= xs.len(),
            i <= ys.len(),
            lex_cmp(xs, ys) == lex_cmp(
                xs.subrange(i as int, xs.len() as int),
                ys.subrange(i as int, ys.len() as int),
            ),
        decreases xs.len() - i,
    {
        let ghost xr = xs.subrange(i as int, xs.len() as int);
        let ghost yr = ys.subrange(i as int, ys.len() as int);
        assert(xr[0] == x@[i as int]);
        assert(yr[0] == y@[i as int]);
        if x[i] < y[i] {
            return -1;
        }
        if x[i] > y[i] {
            return 1;
        }
        assert(xr.drop_first() =~= xs.subrange(i + 1, xs.len() as int));
        assert(yr.drop_first() =~= ys.subrange(i + 1, ys.len() as int));
        i = i + 1;
    }
    let ghost xr = xs.subrange(i as int, xs.len() as int);
    let ghost yr = ys.subrange(i as int, ys.len() as int);
    if i < x.len() {
        assert(yr.len() == 0);
        1
    } else if i < y.len() {
        assert(xr.len() == 0);
        -1
    } else {
        assert(xr.len() == 0 && yr.len() == 0);
        0
    }
}

} // verus!
