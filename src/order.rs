//! Lexicographic order on the UTF-8 bytes of labels, which is the order of
//! their code points.
use vstd::prelude::*;
use vstd::utf8::*;

verus! {

/// Strict lexicographic order on byte strings.
pub open spec fn bytes_lt(a: Seq<u8>, b: Seq<u8>) -> bool
    decreases a.len(),
{
    if a.len() == 0 {
        b.len() > 0
    } else if b.len() == 0 {
        false
    } else if a[0] != b[0] {
        a[0] < b[0]
    } else {
        bytes_lt(a.drop_first(), b.drop_first())
    }
}

/// The bytes that a label is stored as.
pub open spec fn label_bytes(label: Seq<char>) -> Seq<u8> {
    encode_utf8(label)
}

/// Labels ordered by their bytes.
pub open spec fn label_lt(a: Seq<char>, b: Seq<char>) -> bool {
    bytes_lt(label_bytes(a), label_bytes(b))
}

pub proof fn lemma_bytes_lt_irreflexive(a: Seq<u8>)
    ensures
        !bytes_lt(a, a),
    decreases a.len(),
{
    if a.len() > 0 {
        lemma_bytes_lt_irreflexive(a.drop_first());
    }
}

pub proof fn lemma_bytes_lt_transitive(a: Seq<u8>, b: Seq<u8>, c: Seq<u8>)
    requires
        bytes_lt(a, b),
        bytes_lt(b, c),
    ensures
        bytes_lt(a, c),
    decreases a.len(),
{
    if a.len() > 0 && b.len() > 0 && c.len() > 0 && a[0] == b[0] && b[0] == c[0] {
        lemma_bytes_lt_transitive(a.drop_first(), b.drop_first(), c.drop_first());
    }
}

pub proof fn lemma_bytes_lt_total(a: Seq<u8>, b: Seq<u8>)
    requires
        a != b,
    ensures
        bytes_lt(a, b) || bytes_lt(b, a),
    decreases a.len(),
{
    if a.len() == 0 && b.len() == 0 {
        assert(a =~= b);
    }
    if a.len() > 0 && b.len() > 0 && a[0] == b[0] {
        assert(a =~= seq![a[0]] + a.drop_first());
        assert(b =~= seq![b[0]] + b.drop_first());
        lemma_bytes_lt_total(a.drop_first(), b.drop_first());
    }
}

/// Two labels with the same bytes are the same label.
pub proof fn lemma_label_bytes_injective(a: Seq<char>, b: Seq<char>)
    requires
        label_bytes(a) == label_bytes(b),
    ensures
        a == b,
{
    encode_utf8_decode_utf8(a);
    encode_utf8_decode_utf8(b);
}

pub proof fn lemma_label_lt_total(a: Seq<char>, b: Seq<char>)
    requires
        a != b,
    ensures
        label_lt(a, b) || label_lt(b, a),
{
    if label_bytes(a) == label_bytes(b) {
        lemma_label_bytes_injective(a, b);
    }
    lemma_bytes_lt_total(label_bytes(a), label_bytes(b));
}

/// Compares two byte strings: -1, 0 or 1 as `a` is below, equal to or above `b`.
pub fn compare_bytes(a: &[u8], b: &[u8]) -> (r: i8)
    ensures
        r == -1 <==> bytes_lt(a@, b@),
        r == 0 <==> a@ == b@,
        r == 1 <==> bytes_lt(b@, a@),
{
    let mut i: usize = 0;
    proof {
        assert(a@.skip(0) =~= a@);
        assert(b@.skip(0) =~= b@);
    }
    while i < a.len() && i < b.len()
        invariant
            i <= a@.len(),
            i <= b@.len(),
            a@.subrange(0, i as int) == b@.subrange(0, i as int),
            bytes_lt(a@, b@) == bytes_lt(a@.skip(i as int), b@.skip(i as int)),
            bytes_lt(b@, a@) == bytes_lt(b@.skip(i as int), a@.skip(i as int)),
        decreases a@.len() - i,
    {
        if a[i] != b[i] {
            proof {
                lemma_bytes_lt_asymmetric_or_neq(a@.skip(i as int), b@.skip(i as int));
            }
            if a[i] < b[i] {
                return -1;
            } else {
                return 1;
            }
        }
        proof {
            assert(a@.skip(i as int).drop_first() =~= a@.skip(i + 1));
            assert(b@.skip(i as int).drop_first() =~= b@.skip(i + 1));
            assert(a@.subrange(0, i + 1) =~= a@.subrange(0, i as int).push(a@[i as int]));
            assert(b@.subrange(0, i + 1) =~= b@.subrange(0, i as int).push(b@[i as int]));
        }
        i = i + 1;
    }
    proof {
        assert(a@.subrange(0, i as int) =~= a@ || b@.subrange(0, i as int) =~= b@);
        lemma_bytes_lt_irreflexive(a@);
    }
    if a.len() == b.len() {
        proof {
            assert(a@ =~= a@.subrange(0, i as int));
            assert(b@ =~= b@.subrange(0, i as int));
        }
        0
    } else if i == a.len() {
        proof {
            assert(a@ =~= a@.subrange(0, i as int));
            assert(b@ != a@);
        }
        -1
    } else {
        proof {
            assert(b@ =~= b@.subrange(0, i as int));
            assert(b@ != a@);
        }
        1
    }
}

proof fn lemma_bytes_lt_asymmetric_or_neq(a: Seq<u8>, b: Seq<u8>)
    requires
        a.len() > 0,
        b.len() > 0,
        a[0] != b[0],
    ensures
        bytes_lt(a, b) == (a[0] < b[0]),
        bytes_lt(b, a) == (b[0] < a[0]),
        a != b,
{
}

/// Compares two labels by their bytes: -1, 0 or 1.
pub fn compare_labels(a: &String, b: &String) -> (r: i8)
    ensures
        r == -1 <==> label_lt(a@, b@),
        r == 0 <==> a@ == b@,
        r == 1 <==> label_lt(b@, a@),
{
    let r = compare_bytes(a.as_str().as_bytes(), b.as_str().as_bytes());
    proof {
        if r == 0 {
            lemma_label_bytes_injective(a@, b@);
        }
    }
    r
}

} // verus!
