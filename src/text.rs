//! Byte-level view of text: searching for ASCII bytes and cutting a `str`
//! at the offsets found.
use vstd::prelude::*;
use vstd::string::StringSliceAdditionalSpecFns;
use vstd::utf8::*;

verus! {

broadcast use vstd::utf8::encode_utf8_valid_utf8;

/// The byte of `(`.
pub const OPEN_PAREN: u8 = 0x28;

/// The byte of `)`.
pub const CLOSE_PAREN: u8 = 0x29;

/// The byte of `[`.
pub const OPEN_BRACKET: u8 = 0x5b;

/// The byte of `]`.
pub const CLOSE_BRACKET: u8 = 0x5d;

/// The byte of `!`.
pub const BANG: u8 = 0x21;

/// The first index at or after `from` that holds the byte `x`, or `b.len()`
/// when no such index exists.
pub open spec fn next_index(b: Seq<u8>, from: int, x: u8) -> int
    decreases b.len() - from,
{
    if 0 <= from < b.len() {
        if b[from] == x {
            from
        } else {
            next_index(b, from + 1, x)
        }
    } else {
        b.len() as int
    }
}

/// What `next_index` finds: an index in `[from, b.len()]`, holding `x` unless it is
/// the end, with no `x` before it.
pub proof fn lemma_next_index(b: Seq<u8>, from: int, x: u8)
    requires
        0 <= from <= b.len(),
    ensures
        from <= next_index(b, from, x) <= b.len(),
        next_index(b, from, x) < b.len() ==> b[next_index(b, from, x)] == x,
        forall|k: int| from <= k < next_index(b, from, x) ==> b[k] != x,
    decreases b.len() - from,
{
    if from < b.len() && b[from] != x {
        lemma_next_index(b, from + 1, x);
    }
}

/// Searching a suffix of `b` finds the same byte as searching `b` itself.
pub proof fn lemma_next_index_suffix(b: Seq<u8>, g: int, from: int, x: u8)
    requires
        0 <= g <= from <= b.len(),
    ensures
        next_index(b.subrange(g, b.len() as int), from - g, x) == next_index(b, from, x) - g,
    decreases b.len() - from,
{
    if from < b.len() && b[from] != x {
        lemma_next_index_suffix(b, g, from + 1, x);
    }
}

/// In valid UTF-8 the offsets on both sides of an ASCII byte are character boundaries.
pub proof fn lemma_ascii_cut(b: Seq<u8>, i: int)
    requires
        valid_utf8(b),
        0 <= i < b.len(),
        b[i] < 0x80,
    ensures
        is_char_boundary(b, i),
        is_char_boundary(b, i + 1),
{
    is_char_boundary_iff_not_is_continuation_byte(b, i);
    valid_utf8_split(b, i);
    let t = b.subrange(i, b.len() as int);
    assert(t[0] == b[i]);
    assert(length_of_first_scalar(t) == 1);
    assert(valid_utf8(t));
    let u = pop_first_scalar(t);
    assert(valid_utf8(u));
    assert(u =~= b.subrange(i + 1, b.len() as int));
    if i + 1 < b.len() {
        assert(u[0] == b[i + 1]);
        assert(valid_first_scalar(u));
        is_char_boundary_iff_not_is_continuation_byte(b, i + 1);
    } else {
        is_char_boundary_start_end_of_seq(b);
    }
}

/// `b` begins with the bytes of `lit`.
pub open spec fn starts_with(b: Seq<u8>, lit: Seq<u8>) -> bool {
    lit.len() <= b.len() && b.subrange(0, lit.len() as int) == lit
}

/// Matches the ASCII literal `lit` at the start of `s`: on success, the rest of
/// `s` and the part of `s` that holds the literal.
pub(crate) fn tag<'a>(s: &'a str, lit: &[u8]) -> (r: Option<(&'a str, &'a str)>)
    requires
        0 < lit@.len(),
        forall|k: int| 0 <= k < lit@.len() ==> lit@[k] < 0x80,
    ensures
        r is Some <==> starts_with(s.spec_bytes(), lit@),
        r matches Some((rest, m)) ==> m.spec_bytes() == lit@ && rest.spec_bytes()
            == s.spec_bytes().subrange(lit@.len() as int, s.spec_bytes().len() as int),
{
    let b = s.as_bytes();
    let n = lit.len();
    if b.len() < n {
        return None;
    }
    let mut i: usize = 0;
    while i < n
        invariant
            n == lit@.len(),
            n <= b@.len(),
            i <= n,
            b@ == s.spec_bytes(),
            forall|k: int| 0 <= k < i ==> b@[k] == lit@[k],
        decreases n - i,
    {
        if b[i] != lit[i] {
            proof {
                assert(b@.subrange(0, n as int)[i as int] != lit@[i as int]);
            }
            return None;
        }
        i += 1;
    }
    proof {
        assert(b@.subrange(0, n as int) =~= lit@);
        lemma_ascii_cut(b@, n - 1);
        is_char_boundary_start_end_of_seq(b@);
    }
    let m = cut(s, 0, n);
    let rest = cut(s, n, b.len());
    Some((rest, m))
}

/// Splits `s` before the first byte `stop`, or at its end where there is none; the
/// part before must not be empty. On success: the rest of `s` and that part.
pub(crate) fn take_till<'a>(s: &'a str, stop: u8) -> (r: Option<(&'a str, &'a str)>)
    requires
        stop < 0x80,
    ensures
        r is Some <==> 0 < next_index(s.spec_bytes(), 0, stop),
        r matches Some((rest, taken)) ==> {
            let b = s.spec_bytes();
            let j = next_index(b, 0, stop);
            &&& taken.spec_bytes() == b.subrange(0, j)
            &&& rest.spec_bytes() == b.subrange(j, b.len() as int)
        },
{
    let b = s.as_bytes();
    let mut j: usize = 0;
    while j < b.len() && b[j] != stop
        invariant
            b@ == s.spec_bytes(),
            j <= b@.len(),
            next_index(b@, 0, stop) == next_index(b@, j as int, stop),
        decreases b@.len() - j,
    {
        j += 1;
    }
    if j == 0 {
        return None;
    }
    proof {
        is_char_boundary_start_end_of_seq(b@);
        if j < b.len() {
            lemma_ascii_cut(b@, j as int);
        }
    }
    let taken = cut(s, 0, j);
    let rest = cut(s, j, b.len());
    Some((rest, taken))
}

/// The part of `s` between the byte offsets `from` and `to`.
pub(crate) fn cut<'a>(s: &'a str, from: usize, to: usize) -> (r: &'a str)
    requires
        from <= to <= s.spec_bytes().len(),
        is_char_boundary(s.spec_bytes(), from as int),
        is_char_boundary(s.spec_bytes(), to as int),
    ensures
        r.spec_bytes() == s.spec_bytes().subrange(from as int, to as int),
{
    let ghost b = s.spec_bytes();
    proof {
        valid_utf8_split(b, to as int);
    }
    let (head, _) = s.split_at(to);
    proof {
        let h = head.spec_bytes();
        assert(h =~= b.subrange(0, to as int));
        if from == to {
            is_char_boundary_start_end_of_seq(h);
        } else if from > 0 {
            is_char_boundary_iff_not_is_continuation_byte(b, from as int);
            assert(h[from as int] == b[from as int]);
            is_char_boundary_iff_not_is_continuation_byte(h, from as int);
        }
    }
    let (_, mid) = head.split_at(from);
    proof {
        assert(mid.spec_bytes() =~= b.subrange(from as int, to as int));
    }
    mid
}

} // verus!
