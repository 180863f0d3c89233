//! Executable primitives over the report's bytes: runs, numbers, line ends,
//! fixed words, and slices of the text.
use crate::grammar::{
    ByteClass, any_line_at, decimal, has_word, in_class, line_end_at, run_end, value_of,
};
use vstd::prelude::*;
use vstd::string::StringSliceAdditionalSpecFns;
use vstd::utf8::{
    encode_utf8_valid_utf8, is_char_boundary, is_char_boundary_iff_not_is_continuation_byte,
    is_char_boundary_start_end_of_seq, length_of_first_scalar, pop_first_scalar, valid_utf8,
};

verus! {

/// A position found by an executable rule, as the grammar states it.
pub open spec fn opt_pos(r: Option<usize>) -> Option<int> {
    match r {
        Some(e) => Some(e as int),
        None => None,
    }
}

fn class_has(c: ByteClass, x: u8) -> (r: bool)
    ensures
        r == in_class(c, x),
{
    match c {
        ByteClass::Digit => '0' as u8 <= x && x <= '9' as u8,
        ByteClass::Letter => {
            ('A' as u8 <= x && x <= 'Z' as u8) || ('a' as u8 <= x && x <= 'z' as u8)
        },
        ByteClass::Space => x == ' ' as u8 || x == '\t' as u8 || x == '\r' as u8 || x == '\n' as u8,
        ByteClass::Blank => x == ' ' as u8 || x == '\t' as u8,
        ByteClass::LineText => x != '\r' as u8 && x != '\n' as u8,
        ByteClass::NotQuote => x != '\'' as u8,
    }
}

/// The end of the longest run of class `c` from `i`.
pub fn scan(b: &[u8], i: usize, c: ByteClass) -> (e: usize)
    requires
        i <= b@.len(),
    ensures
        e == run_end(b@, i as int, c),
        i <= e <= b@.len(),
        forall|k: int| i <= k < e ==> in_class(c, #[trigger] b@[k]),
{
    let mut k: usize = i;
    while k < b.len() && class_has(c, b[k])
        invariant
            i <= k <= b@.len(),
            run_end(b@, i as int, c) == run_end(b@, k as int, c),
            forall|m: int| i <= m < k ==> in_class(c, #[trigger] b@[m]),
        decreases b@.len() - k,
    {
        k = k + 1;
    }
    k
}

proof fn lemma_decimal_prefix(d: Seq<u8>, k: int)
    requires
        0 <= k <= d.len(),
    ensures
        decimal(d.subrange(0, k)) <= decimal(d),
    decreases d.len(),
{
    if k < d.len() {
        lemma_decimal_prefix(d.drop_last(), k);
        assert(d.drop_last().subrange(0, k) =~= d.subrange(0, k));
    } else {
        assert(d.subrange(0, k) =~= d);
    }
}

/// The value of the digit run `b[i..e]`, or nothing where it exceeds `usize`.
pub fn value(b: &[u8], i: usize, e: usize) -> (r: Option<usize>)
    requires
        i <= e <= b@.len(),
        forall|k: int| i <= k < e ==> in_class(ByteClass::Digit, #[trigger] b@[k]),
    ensures
        match r {
            Some(v) => v == value_of(b@, i as int, e as int),
            None => value_of(b@, i as int, e as int) > usize::MAX,
        },
{
    let mut v: usize = 0;
    let mut k: usize = i;
    assert(b@.subrange(i as int, i as int) =~= Seq::<u8>::empty());
    while k < e
        invariant
            i <= k <= e <= b@.len(),
            forall|m: int| i <= m < e ==> in_class(ByteClass::Digit, #[trigger] b@[m]),
            v == value_of(b@, i as int, k as int),
        decreases e - k,
    {
        let ghost next = b@.subrange(i as int, k + 1);
        assert(next.drop_last() =~= b@.subrange(i as int, k as int));
        assert(next.last() == b@[k as int]);
        let d = (b[k] - '0' as u8) as usize;
        let stepped = match v.checked_mul(10) {
            Some(m) => m.checked_add(d),
            None => None,
        };
        match stepped {
            Some(n) => {
                v = n;
            },
            None => {
                proof {
                    let whole = b@.subrange(i as int, e as int);
                    lemma_decimal_prefix(whole, k + 1 - i);
                    assert(whole.subrange(0, k + 1 - i) =~= next);
                }
                return None;
            },
        }
        k = k + 1;
    }
    Some(v)
}

/// A line terminator at `i`: where it ends.
pub fn skip_empty_line(b: &[u8], i: usize) -> (r: Option<usize>)
    requires
        i <= b@.len(),
    ensures
        opt_pos(r) == line_end_at(b@, i as int),
        r matches Some(j) ==> i < j <= b@.len() && b@[j - 1] == '\n' as u8,
{
    if i < b.len() {
        if b[i] == '\n' as u8 {
            return Some(i + 1);
        } else if b[i] == '\r' as u8 && i + 1 < b.len() && b[i + 1] == '\n' as u8 {
            return Some(i + 2);
        }
    }
    None
}

/// A line of any content with its terminator: where it ends.
pub fn skip_one_line(b: &[u8], i: usize) -> (r: Option<usize>)
    requires
        i <= b@.len(),
    ensures
        opt_pos(r) == any_line_at(b@, i as int),
        r matches Some(j) ==> i < j <= b@.len() && b@[j - 1] == '\n' as u8,
{
    let e = scan(b, i, ByteClass::LineText);
    skip_empty_line(b, e)
}

/// Whether the bytes `w` stand in `b` at `i`.
pub fn word_at(b: &[u8], i: usize, w: &[u8]) -> (r: bool)
    requires
        i <= b@.len(),
    ensures
        r == has_word(b@, i as int, w@),
        b@.len() <= usize::MAX,
{
    if w.len() > b.len() - i {
        return false;
    }
    let mut k: usize = 0;
    while k < w.len()
        invariant
            k <= w@.len(),
            i + w@.len() <= b@.len() <= usize::MAX,
            forall|m: int| 0 <= m < k ==> b@[i + m] == w@[m],
        decreases w@.len() - k,
    {
        if b[i + k] != w[k] {
            assert(b@.subrange(i as int, i + w@.len())[k as int] != w@[k as int]);
            return false;
        }
        k = k + 1;
    }
    assert(b@.subrange(i as int, i + w@.len()) =~= w@);
    true
}

/// A place where text may be cut: either end, or next to an ASCII byte.
pub open spec fn cuttable(b: Seq<u8>, i: int) -> bool {
    ||| i == 0
    ||| i == b.len()
    ||| (0 < i <= b.len() && b[i - 1] < 0x80)
    ||| (0 <= i < b.len() && b[i] < 0x80)
}

proof fn lemma_cuttable_is_boundary(b: Seq<u8>, i: int)
    requires
        valid_utf8(b),
        0 <= i <= b.len(),
        cuttable(b, i),
    ensures
        is_char_boundary(b, i),
    decreases b.len(),
{
    if i == 0 || i == b.len() {
        is_char_boundary_start_end_of_seq(b);
    } else if b[i] < 0x80 {
        is_char_boundary_iff_not_is_continuation_byte(b, i);
    } else {
        let n = length_of_first_scalar(b);
        if i - 1 == 0 {
            reveal_with_fuel(is_char_boundary, 2);
        } else if i - 1 >= n {
            let rest = pop_first_scalar(b);
            assert(rest[i - n - 1] == b[i - 1]);
            lemma_cuttable_is_boundary(rest, i - n);
        }
    }
}

/// The text between the byte offsets `from` and `to`.
pub fn cut<'a>(s: &'a str, from: usize, to: usize) -> (r: &'a str)
    requires
        from <= to <= s.spec_bytes().len(),
        cuttable(s.spec_bytes(), from as int),
        cuttable(s.spec_bytes(), to as int),
    ensures
        r.spec_bytes() == s.spec_bytes().subrange(from as int, to as int),
{
    let ghost b = s.spec_bytes();
    proof {
        encode_utf8_valid_utf8(s@);
        lemma_cuttable_is_boundary(b, from as int);
    }
    let (_, tail) = s.split_at(from);
    let ghost t = tail.spec_bytes();
    proof {
        encode_utf8_valid_utf8(tail@);
        assert(cuttable(t, to - from));
        lemma_cuttable_is_boundary(t, to - from);
    }
    let (mid, _) = tail.split_at(to - from);
    assert(mid.spec_bytes() =~= b.subrange(from as int, to as int));
    mid
}

} // verus!
