//! Characters, UTF-8 byte offsets and line/column positions of a text buffer.

use vstd::prelude::*;

verus! {

/// The number of bytes that UTF-8 uses for `c`.
pub open spec fn utf8_len(c: char) -> nat {
    if (c as u32) < 0x80 {
        1
    } else if (c as u32) < 0x800 {
        2
    } else if (c as u32) < 0x10000 {
        3
    } else {
        4
    }
}

/// The byte offset at which the `i`-th character of `s` starts in UTF-8.
pub open spec fn byte_index(s: Seq<char>, i: int) -> nat
    decreases i,
{
    if i <= 0 || s.len() == 0 {
        0
    } else if i > s.len() {
        byte_index(s, s.len() as int)
    } else {
        byte_index(s, i - 1) + utf8_len(s[i - 1])
    }
}

/// The length of `s` in UTF-8 bytes.
pub open spec fn byte_len(s: Seq<char>) -> nat {
    byte_index(s, s.len() as int)
}

/// Byte offsets grow with the character index.
pub proof fn lemma_byte_index_mono(s: Seq<char>, i: int, j: int)
    requires
        0 <= i <= j <= s.len(),
    ensures
        byte_index(s, i) + (j - i) <= byte_index(s, j),
    decreases j - i,
{
    if i < j {
        lemma_byte_index_mono(s, i, j - 1);
    }
}

/// Byte offsets depend only on the characters before them.
pub proof fn lemma_byte_index_prefix(s: Seq<char>, t: Seq<char>, i: int)
    requires
        0 <= i <= s.len(),
        i <= t.len(),
        s.take(i) == t.take(i),
    ensures
        byte_index(s, i) == byte_index(t, i),
    decreases i,
{
    if i > 0 {
        assert(s.take(i - 1) =~= s.take(i).take(i - 1));
        assert(t.take(i - 1) =~= t.take(i).take(i - 1));
        assert(s[i - 1] == s.take(i)[i - 1]);
        assert(t[i - 1] == t.take(i)[i - 1]);
        lemma_byte_index_prefix(s, t, i - 1);
    }
}

/// The line and column (both counted from 0) reached after reading `s`.
pub open spec fn line_col(s: Seq<char>) -> (int, int)
    decreases s.len(),
{
    if s.len() == 0 {
        (0, 0)
    } else {
        let (l, c) = line_col(s.drop_last());
        if s.last() == '\n' {
            (l + 1, 0)
        } else {
            (l, c + 1)
        }
    }
}

/// Line and column never exceed the number of characters read.
pub proof fn lemma_line_col_bound(s: Seq<char>)
    ensures
        0 <= line_col(s).0 <= s.len(),
        0 <= line_col(s).1 <= s.len(),
    decreases s.len(),
{
    if s.len() > 0 {
        lemma_line_col_bound(s.drop_last());
    }
}

/// The number of characters of `s` that start before byte `offset`.
pub open spec fn chars_before(s: Seq<char>, offset: int) -> nat
    decreases s.len(),
{
    if s.len() == 0 {
        0
    } else if byte_index(s, s.len() - 1) < offset {
        s.len()
    } else {
        chars_before(s.drop_last(), offset)
    }
}

/// The UTF-8 length of a character, computed.
pub fn char_utf8_len(c: char) -> (n: u32)
    ensures
        n == utf8_len(c),
        1 <= n <= 4,
{
    let v = c as u32;
    if v < 0x80 {
        1
    } else if v < 0x800 {
        2
    } else if v < 0x10000 {
        3
    } else {
        4
    }
}

/// The characters of `s`, in order.
pub fn chars_of(s: &str) -> (v: Vec<char>)
    ensures
        v@ == s@,
{
    let mut v: Vec<char> = Vec::new();
    for c in it: s.chars()
        invariant
            v@ == it.seq().take(it.index() as int),
            it.seq() == s@,
    {
        v.push(c);
        assert(v@ =~= it.seq().take(it.index() as int + 1));
    }
    assert(v@ =~= s@);
    v
}

/// When the first `i` characters start before `offset` and the `i`-th does not
/// (or there is none), exactly `i` characters start before `offset`.
pub proof fn lemma_chars_before_exact(s: Seq<char>, offset: int, i: int)
    requires
        0 <= i <= s.len(),
        forall|j: int| 0 <= j < i ==> byte_index(s, j) < offset,
        i < s.len() ==> byte_index(s, i) >= offset,
    ensures
        chars_before(s, offset) == i,
    decreases s.len(),
{
    if s.len() > 0 {
        if i == s.len() {
            assert(byte_index(s, s.len() - 1) < offset);
        } else {
            lemma_byte_index_mono(s, i, s.len() - 1);
            let t = s.drop_last();
            assert forall|j: int| 0 <= j <= t.len() implies byte_index(t, j) == byte_index(s, j) by {
                assert(t.take(j) =~= s.take(j));
                lemma_byte_index_prefix(t, s, j);
            }
            lemma_chars_before_exact(t, offset, i);
        }
    }
}

/// What `chars_before` counts: the characters that start before `offset`, up to the
/// first that does not.
pub proof fn lemma_chars_before_facts(s: Seq<char>, offset: int)
    ensures
        chars_before(s, offset) <= s.len(),
        forall|j: int| 0 <= j < chars_before(s, offset) ==> byte_index(s, j) < offset,
        chars_before(s, offset) < s.len() ==> byte_index(s, chars_before(s, offset) as int) >= offset,
    decreases s.len(),
{
    if s.len() > 0 {
        let t = s.drop_last();
        assert forall|j: int| 0 <= j <= t.len() implies byte_index(t, j) == byte_index(s, j) by {
            assert(t.take(j) =~= s.take(j));
            lemma_byte_index_prefix(t, s, j);
        }
        if byte_index(s, s.len() - 1) < offset {
            assert forall|j: int| 0 <= j < s.len() implies byte_index(s, j) < offset by {
                lemma_byte_index_mono(s, j, s.len() - 1);
            }
        } else {
            lemma_chars_before_facts(t, offset);
        }
    }
}

/// Up to the end of a prefix, counting characters and finding boundaries give the same
/// in the prefix as in the whole.
pub proof fn lemma_chars_before_prefix(y: Seq<char>, k: int, b: int)
    requires
        0 <= k <= y.len(),
        b <= byte_len(y.take(k)),
    ensures
        chars_before(y.take(k), b) == chars_before(y, b),
        byte_index(y.take(k), chars_before(y, b) as int) == byte_index(y, chars_before(y, b) as int),
        is_boundary(y.take(k), b) == is_boundary(y, b),
{
    let x = y.take(k);
    lemma_chars_before_facts(x, b);
    let cb = chars_before(x, b) as int;
    assert forall|j: int| 0 <= j <= x.len() implies byte_index(x, j) == byte_index(y, j) by {
        assert(x.take(j) =~= y.take(j));
        lemma_byte_index_prefix(x, y, j);
    }
    assert forall|j: int| 0 <= j < cb implies byte_index(y, j) < b by {
        assert(byte_index(x, j) < b);
    }
    lemma_chars_before_exact(y, b, cb);
}

/// Byte `b` of `s` is where a character starts, or the end of `s`.
pub open spec fn is_boundary(s: Seq<char>, b: int) -> bool {
    byte_index(s, chars_before(s, b) as int) == b
}

/// The number of characters of `s` that start before byte `b`, and the byte at which
/// the next one starts (the end of `s` when there is none).
pub fn locate(s: &Vec<char>, b: u32) -> (r: (usize, u64))
    ensures
        r.0 == chars_before(s@, b as int),
        r.1 == byte_index(s@, r.0 as int),
        r.0 <= s@.len(),
        r.0 < s@.len() ==> r.1 >= b,
{
    let mut k: usize = 0;
    let mut acc: u64 = 0;
    while k < s.len() && acc < b as u64
        invariant
            k <= s@.len(),
            acc == byte_index(s@, k as int),
            acc <= b + 4,
            forall|j: int| 0 <= j < k ==> byte_index(s@, j) < b,
        decreases s@.len() - k,
    {
        acc = acc + char_utf8_len(s[k]) as u64;
        k = k + 1;
    }
    proof {
        lemma_chars_before_exact(s@, b as int, k as int);
    }
    (k, acc)
}

/// Appends the characters `w` to `v`.
pub fn append_chars(v: &mut Vec<char>, w: &Vec<char>)
    ensures
        final(v)@ == old(v)@ + w@,
{
    let mut j: usize = 0;
    while j < w.len()
        invariant
            j <= w@.len(),
            v@ == old(v)@ + w@.take(j as int),
        decreases w@.len() - j,
    {
        v.push(w[j]);
        j = j + 1;
        assert(v@ =~= old(v)@ + w@.take(j as int));
    }
    assert(w@.take(w@.len() as int) =~= w@);
}

/// The length of `s` in UTF-8 bytes, or `u32::MAX` when it is at least that.
pub fn byte_len_capped(s: &Vec<char>) -> (n: u64)
    ensures
        n == if byte_len(s@) < u32::MAX { byte_len(s@) as int } else { u32::MAX as int },
{
    let mut acc: u64 = 0;
    let mut k: usize = 0;
    while k < s.len()
        invariant
            k <= s@.len(),
            acc == byte_index(s@, k as int),
            acc < u32::MAX,
        decreases s@.len() - k,
    {
        let next = acc + char_utf8_len(s[k]) as u64;
        if next >= 0xffff_ffff {
            proof {
                lemma_byte_index_mono(s@, k + 1, s@.len() as int);
            }
            return 0xffff_ffff;
        }
        acc = next;
        k = k + 1;
    }
    acc
}

} // verus!
