//! Byte-level helpers over the UTF-8 encoding of a `str`: searching for an
//! ASCII byte and cutting a `str` at positions next to ASCII bytes.
use vstd::prelude::*;
use vstd::string::StringSliceAdditionalSpecFns;
use vstd::utf8::*;

verus! {

/// First index `i >= from` with `b[i] == c`, if any.
pub open spec fn find_from(b: Seq<u8>, from: int, c: u8) -> Option<int>
    decreases b.len() - from,
{
    if from < 0 || from >= b.len() {
        None
    } else if b[from] == c {
        Some(from)
    } else {
        find_from(b, from + 1, c)
    }
}

pub proof fn lemma_find_from(b: Seq<u8>, from: int, c: u8)
    requires
        0 <= from,
    ensures
        match find_from(b, from, c) {
            Some(i) => from <= i < b.len() && b[i] == c && forall|j: int|
                from <= j < i ==> b[j] != c,
            None => forall|j: int| from <= j < b.len() ==> b[j] != c,
        },
    decreases b.len() - from,
{
    if from < b.len() && b[from] != c {
        lemma_find_from(b, from + 1, c);
    }
}

/// A position at which a valid UTF-8 sequence may be cut because an ASCII byte
/// stands on one side of it (or it is an end of the sequence).
pub open spec fn ascii_edge(b: Seq<u8>, i: int) -> bool {
    ||| i == 0
    ||| i == b.len()
    ||| (0 <= i < b.len() && b[i] < 0x80)
    ||| (0 < i <= b.len() && b[i - 1] < 0x80)
}

/// A cut next to an ASCII byte always falls on a character boundary.
pub proof fn lemma_ascii_edge_is_boundary(b: Seq<u8>, i: int)
    requires
        valid_utf8(b),
        0 <= i <= b.len(),
        ascii_edge(b, i),
    ensures
        is_char_boundary(b, i),
{
    if i == 0 || i == b.len() {
        is_char_boundary_start_end_of_seq(b);
    } else if b[i] < 0x80 {
        is_char_boundary_iff_not_is_continuation_byte(b, i);
    } else {
        // b[i - 1] is ASCII: the scalar that starts there has width one, so the
        // next byte starts a scalar of its own.
        is_char_boundary_iff_not_is_continuation_byte(b, i - 1);
        valid_utf8_split(b, i - 1);
        let t = b.subrange(i - 1, b.len() as int);
        assert(t[0] == b[i - 1]);
        assert(valid_first_scalar(t) && valid_utf8(pop_first_scalar(t)));
        assert(length_of_first_scalar(t) == 1);
        let p = pop_first_scalar(t);
        assert(p.len() > 0);
        assert(p[0] == b[i]);
        assert(valid_first_scalar(p));
        is_char_boundary_iff_not_is_continuation_byte(b, i);
    }
}

/// Index of the first byte `c` at or after `from` in `bytes`.
pub fn find_byte(bytes: &[u8], from: usize, c: u8) -> (r: Option<usize>)
    requires
        from <= bytes@.len(),
    ensures
        match r {
            Some(i) => find_from(bytes@, from as int, c) == Some(i as int),
            None => find_from(bytes@, from as int, c) is None,
        },
{
    let mut i = from;
    while i < bytes.len()
        invariant
            from <= i <= bytes@.len(),
            find_from(bytes@, from as int, c) == find_from(bytes@, i as int, c),
        decreases bytes@.len() - i,
    {
        if bytes[i] == c {
            return Some(i);
        }
        i = i + 1;
    }
    None
}

/// The part of `s` between byte positions `lo` and `hi`, where both positions
/// stand next to an ASCII byte or at an end of `s`.
pub fn byte_range<'a>(s: &'a str, lo: usize, hi: usize) -> (r: &'a str)
    requires
        lo <= hi <= s.spec_bytes().len(),
        ascii_edge(s.spec_bytes(), lo as int),
        ascii_edge(s.spec_bytes(), hi as int),
    ensures
        r.spec_bytes() == s.spec_bytes().subrange(lo as int, hi as int),
        r@ == decode_utf8(s.spec_bytes().subrange(lo as int, hi as int)),
{
    broadcast use group_utf8_lib;

    let ghost b = s.spec_bytes();
    proof {
        lemma_ascii_edge_is_boundary(b, lo as int);
    }
    let (_, tail) = s.split_at(lo);
    let ghost t = tail.spec_bytes();
    assert(t == b.subrange(lo as int, b.len() as int));
    proof {
        let k = (hi - lo) as int;
        if hi as int == b.len() {
        } else if b[hi as int] < 0x80 {
            assert(t[k] == b[hi as int]);
        } else if k > 0 {
            assert(t[k - 1] == b[hi - 1]);
        }
        assert(ascii_edge(t, k));
        lemma_ascii_edge_is_boundary(t, k);
    }
    let (mid, _) = tail.split_at(hi - lo);
    assert(mid.spec_bytes() =~= b.subrange(lo as int, hi as int));
    mid
}

} // verus!
