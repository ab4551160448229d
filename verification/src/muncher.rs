//! The number muncher: splits a raw alphanumeric monolith (e.g. `5kg`, `10cm3`, `0xFF`)
//! into a numeric value and a unit, or resolves it as an identifier.
//!
//! Grammar, by the first characters of the symbol:
//! - `0x…`: hexadecimal digits and `_`;  `0b…`: binary digits and `_`;
//! - otherwise, when the symbol starts with a digit (or `.` and a digit): digits, `.`, `_`,
//!   `e`/`E`, and `+`/`-` right after `e`/`E`.
//! The longest such prefix is the number; it must be well formed (underscores aside).
//! The rest, the suffix, is then: nothing; a scale (`k`, `K`, `M`); a known unit or
//! identifier; a known unit followed by a power digit 2–5 (`cm3`); or garbage (poison).
//! A symbol without a number is an identifier.

use vstd::prelude::*;
use crate::builtins::string_from_chars;
use crate::model::{Atom, AtomV, FendOp, OpCode};
use crate::parser::is_digit;
use crate::text::{byte_index, char_utf8_len};
use crate::fend::evaluate_fresh;

verus! {

/// Whether `c` is a hexadecimal digit.
pub open spec fn is_hex(c: char) -> bool {
    is_digit(c) || (97 <= (c as u32) <= 102) || (65 <= (c as u32) <= 70)
}

/// Whether character `i` of `s` continues a number of the given radix.
pub open spec fn continues(s: Seq<char>, i: int, radix: int) -> bool {
    let c = s[i];
    if radix == 16 {
        is_hex(c) || c == '_'
    } else if radix == 2 {
        c == '0' || c == '1' || c == '_'
    } else {
        is_digit(c) || c == '.' || c == '_' || c == 'e' || c == 'E'
            || ((c == '+' || c == '-') && i > 0 && (s[i - 1] == 'e' || s[i - 1] == 'E'))
    }
}

/// The end of the longest run of number characters of `s` from index `i`.
pub open spec fn span_from(s: Seq<char>, i: int, radix: int) -> int
    decreases s.len() - i,
{
    if i < 0 || i >= s.len() {
        i
    } else if continues(s, i, radix) {
        span_from(s, i + 1, radix)
    } else {
        i
    }
}

/// Whether `s` starts like a number.
pub open spec fn numeric_start(s: Seq<char>) -> bool {
    s.len() > 0 && (is_digit(s[0]) || (s[0] == '.' && s.len() > 1 && is_digit(s[1])))
}

/// The radix of the number `s` starts with.
pub open spec fn radix_of(s: Seq<char>) -> int {
    if s.len() >= 2 && s[0] == '0' && s[1] == 'x' {
        16
    } else if s.len() >= 2 && s[0] == '0' && s[1] == 'b' {
        2
    } else {
        10
    }
}

/// The length of the number at the start of `s` (0 when `s` does not start with one).
pub open spec fn number_end(s: Seq<char>) -> int {
    if !numeric_start(s) {
        0
    } else if radix_of(s) == 10 {
        span_from(s, 0, 10)
    } else {
        span_from(s, 2, radix_of(s))
    }
}

/// `s` without underscores.
pub open spec fn strip(s: Seq<char>) -> Seq<char> {
    s.filter(|c: char| c != '_')
}

/// The index of the first `e`/`E` of `t`, or its length.
pub open spec fn first_e(t: Seq<char>, i: int) -> int
    decreases t.len() - i,
{
    if i < 0 || i >= t.len() {
        t.len() as int
    } else if t[i] == 'e' || t[i] == 'E' {
        i
    } else {
        first_e(t, i + 1)
    }
}

/// A mantissa: digits with at most one `.`, at least one digit.
pub open spec fn mantissa_ok(m: Seq<char>) -> bool {
    &&& forall|i: int| 0 <= i < m.len() ==> is_digit(#[trigger] m[i]) || m[i] == '.'
    &&& forall|i: int, j: int| 0 <= i < j < m.len() ==> !(#[trigger] m[i] == '.' && #[trigger] m[j] == '.')
    &&& exists|i: int| 0 <= i < m.len() && is_digit(#[trigger] m[i])
}

/// Whether every character of `y` is a digit.
pub open spec fn all_digits(y: Seq<char>) -> bool {
    forall|i: int| 0 <= i < y.len() ==> is_digit(#[trigger] y[i])
}

/// An exponent after the `e`: an optional sign, then at least one digit and nothing else.
pub open spec fn exponent_ok(x: Seq<char>) -> bool {
    let y = if x.len() > 0 && (x[0] == '+' || x[0] == '-') { x.skip(1) } else { x };
    y.len() >= 1 && all_digits(y)
}

/// Whether the number text `t` (underscores removed) is well formed in `radix`.
pub open spec fn number_ok(t: Seq<char>, radix: int) -> bool {
    if radix == 10 {
        let k = first_e(t, 0);
        mantissa_ok(t.take(k)) && (k == t.len() || exponent_ok(t.skip(k + 1)))
    } else {
        t.len() >= 3
    }
}

/// The value text of a number scaled by the suffix `k`/`K` (thousand) or `M` (million).
pub open spec fn scaled(t: Seq<char>, m: Seq<char>) -> Seq<char> {
    seq!['('] + t + seq![' ', '*', ' '] + m + seq![')']
}

/// Whether a name is known: an identifier of the workspace, or a name that fend was
/// found to know (a unit, a constant, a function); see `munch`.
pub open spec fn known_name(name: Seq<char>, known: Set<Seq<char>>) -> bool {
    known.contains(name)
}

/// The parts of the raw symbol `s` with their byte offsets inside `s`.
pub open spec fn spec_munch(s: Seq<char>, known: Set<Seq<char>>) -> Seq<(AtomV, nat)> {
    let end = number_end(s);
    if s.len() == 0 {
        Seq::empty()
    } else if end == 0 {
        seq![(AtomV::Variable(s), 0nat)]
    } else {
        let t = strip(s.take(end));
        let suffix = s.skip(end);
        let b = byte_index(s, end);
        if !number_ok(t, radix_of(s)) {
            seq![(AtomV::Poison, 0nat)]
        } else if suffix.len() == 0 {
            seq![(AtomV::Value(t), 0nat)]
        } else if suffix == seq!['k'] || suffix == seq!['K'] {
            seq![(AtomV::Value(scaled(t, seq!['1', '0', '0', '0'])), 0nat)]
        } else if suffix == seq!['M'] {
            seq![(AtomV::Value(scaled(t, seq!['1', '0', '0', '0', '0', '0', '0'])), 0nat)]
        } else if known_name(suffix, known) {
            seq![(AtomV::Value(t), 0nat), (AtomV::Variable(suffix), b)]
        } else if suffix.len() >= 2 && ('2' <= suffix.last() <= '5')
            && known_name(suffix.drop_last(), known) {
            let p = byte_index(s, s.len() - 1);
            seq![
                (AtomV::Value(t), 0nat),
                (AtomV::Variable(suffix.drop_last()), b),
                (AtomV::Operator(OpCode::Fend(FendOp::Pow)), p),
                (AtomV::Value(seq![suffix.last()]), p),
            ]
        } else {
            seq![(AtomV::Poison, 0nat)]
        }
    }
}

/// A character that ends the run of a number whatever the radix extends it past the
/// run: the run of `s.push(c)` from `i` is that of `s`.
proof fn lemma_span_push(s: Seq<char>, c: char, i: int, radix: int)
    requires
        0 <= i <= s.len(),
        span_from(s, i, radix) == s.len(),
        !continues(s.push(c), s.len() as int, radix),
    ensures
        span_from(s.push(c), i, radix) == s.len(),
    decreases s.len() - i,
{
    let t = s.push(c);
    if i < s.len() {
        assert(t[i] == s[i]);
        if i > 0 {
            assert(t[i - 1] == s[i - 1]);
        }
        assert(continues(t, i, radix) == continues(s, i, radix));
        lemma_span_push(s, c, i + 1, radix);
    }
}

/// The scale suffixes: a well-formed number `s` followed by `k` or `K` munches to the
/// one value `(s * 1000)`, and followed by `M` to `(s * 1000000)` (underscores dropped);
/// `K` reads exactly as `k`.
pub proof fn lemma_scale_suffix(s: Seq<char>, m: char, known: Set<Seq<char>>)
    requires
        numeric_start(s),
        number_end(s) == s.len(),
        number_ok(strip(s), radix_of(s)),
        m == 'k' || m == 'K' || m == 'M',
    ensures
        spec_munch(s.push(m), known) == seq![(
            AtomV::Value(seq!['('] + strip(s) + seq![' ', '*', ' ']
                + (if m == 'M' { seq!['1', '0', '0', '0', '0', '0', '0'] } else { seq!['1', '0', '0', '0'] })
                + seq![')']),
            0nat,
        )],
        spec_munch(s.push('K'), known) == spec_munch(s.push('k'), known),
{
    lemma_scale_one(s, m, known);
    lemma_scale_one(s, 'K', known);
    lemma_scale_one(s, 'k', known);
}

proof fn lemma_scale_one(s: Seq<char>, m: char, known: Set<Seq<char>>)
    requires
        numeric_start(s),
        number_end(s) == s.len(),
        number_ok(strip(s), radix_of(s)),
        m == 'k' || m == 'K' || m == 'M',
    ensures
        spec_munch(s.push(m), known) == seq![(
            AtomV::Value(seq!['('] + strip(s) + seq![' ', '*', ' ']
                + (if m == 'M' { seq!['1', '0', '0', '0', '0', '0', '0'] } else { seq!['1', '0', '0', '0'] })
                + seq![')']),
            0nat,
        )],
{
    let t = s.push(m);
    assert(t[0] == s[0]);
    if s.len() >= 2 {
        assert(t[1] == s[1]);
    } else {
        assert(t[1] == m);
    }
    assert(numeric_start(t));
    assert(radix_of(t) == radix_of(s));
    let r = radix_of(s);
    assert(t[s.len() as int] == m);
    assert(!continues(t, s.len() as int, r));
    if r == 10 {
        lemma_span_push(s, m, 0, r);
    } else {
        lemma_span_push(s, m, 2, r);
    }
    assert(number_end(t) == s.len());
    assert(t.take(s.len() as int) =~= s);
    assert(t.skip(s.len() as int) =~= seq![m]);
    let end = number_end(t);
    assert(strip(t.take(end)) == strip(s));
    assert(number_ok(strip(t.take(end)), radix_of(t)));
    assert(t.len() != 0 && end != 0);
    let suffix = t.skip(end);
    assert(suffix.len() == 1);
    if m == 'M' {
        assert(suffix =~= seq!['M']);
        assert(suffix != seq!['k'] && suffix != seq!['K']) by {
            assert(suffix[0] != 'k' && suffix[0] != 'K');
            assert(seq!['k'][0] == 'k');
            assert(seq!['K'][0] == 'K');
        }
    } else if m == 'K' {
        assert(suffix =~= seq!['K']);
    } else {
        assert(suffix =~= seq!['k']);
    }
}

/// The view of a list of names as a set.
pub open spec fn name_set(v: Seq<String>) -> Set<Seq<char>> {
    v.map_values(|s: String| s@).to_set()
}

/// The view of munch results.
pub open spec fn parts_view(r: Seq<(Atom, usize)>) -> Seq<(AtomV, nat)> {
    r.map_values(|p: (Atom, usize)| (p.0@, p.1 as nat))
}

// ---------------------------------------------------------------------------
// The executable muncher.
// ---------------------------------------------------------------------------

fn is_digit_exec(c: char) -> (b: bool)
    ensures
        b == is_digit(c),
{
    let v = c as u32;
    48 <= v && v <= 57
}

fn is_hex_exec(c: char) -> (b: bool)
    ensures
        b == is_hex(c),
{
    let v = c as u32;
    (48 <= v && v <= 57) || (97 <= v && v <= 102) || (65 <= v && v <= 70)
}

fn continues_exec(s: &Vec<char>, i: usize, radix: u32) -> (b: bool)
    requires
        i < s@.len(),
    ensures
        b == continues(s@, i as int, radix as int),
{
    let c = s[i];
    if radix == 16 {
        is_hex_exec(c) || c == '_'
    } else if radix == 2 {
        c == '0' || c == '1' || c == '_'
    } else {
        is_digit_exec(c) || c == '.' || c == '_' || c == 'e' || c == 'E'
            || ((c == '+' || c == '-') && i > 0 && (s[i - 1] == 'e' || s[i - 1] == 'E'))
    }
}

fn span_from_exec(s: &Vec<char>, start: usize, radix: u32) -> (end: usize)
    requires
        start <= s@.len(),
    ensures
        end == span_from(s@, start as int, radix as int),
        start <= end <= s@.len(),
{
    let mut i = start;
    while i < s.len() && continues_exec(s, i, radix)
        invariant
            start <= i <= s@.len(),
            span_from(s@, i as int, radix as int) == span_from(s@, start as int, radix as int),
        decreases s@.len() - i,
    {
        i = i + 1;
    }
    i
}

fn number_end_exec(s: &Vec<char>) -> (r: (usize, u32))
    ensures
        r.0 == number_end(s@),
        r.1 == radix_of(s@),
        r.0 <= s@.len(),
{
    let n = s.len();
    let radix: u32 = if n >= 2 && s[0] == '0' && s[1] == 'x' {
        16
    } else if n >= 2 && s[0] == '0' && s[1] == 'b' {
        2
    } else {
        10
    };
    let start_ok = n > 0 && (is_digit_exec(s[0]) || (s[0] == '.' && n > 1 && is_digit_exec(s[1])));
    if !start_ok {
        return (0, radix);
    }
    if radix == 10 {
        (span_from_exec(s, 0, 10), radix)
    } else {
        (span_from_exec(s, 2, radix), radix)
    }
}

/// The characters of `s[0..end]` without underscores.
fn strip_exec(s: &Vec<char>, end: usize) -> (t: Vec<char>)
    requires
        end <= s@.len(),
    ensures
        t@ == strip(s@.take(end as int)),
{
    let mut t: Vec<char> = Vec::new();
    let mut i: usize = 0;
    while i < end
        invariant
            i <= end <= s@.len(),
            t@ == strip(s@.take(i as int)),
        decreases end - i,
    {
        let c = s[i];
        proof {
            assert(s@.take(i + 1) =~= s@.take(i as int).push(c));
            lemma_strip_push(s@.take(i as int), c);
        }
        if c != '_' {
            t.push(c);
        }
        i = i + 1;
    }
    t
}

/// Stripping distributes over appending one character.
proof fn lemma_strip_push(s: Seq<char>, c: char)
    ensures
        strip(s.push(c)) == if c != '_' { strip(s).push(c) } else { strip(s) },
{
    let f = |x: char| x != '_';
    assert(s.push(c).drop_last() =~= s);
    reveal_with_fuel(Seq::filter, 1);
}

fn first_e_exec(t: &Vec<char>) -> (k: usize)
    ensures
        k == first_e(t@, 0),
        k <= t@.len(),
{
    let mut i: usize = 0;
    while i < t.len()
        invariant
            i <= t@.len(),
            first_e(t@, i as int) == first_e(t@, 0),
        decreases t@.len() - i,
    {
        if t[i] == 'e' || t[i] == 'E' {
            return i;
        }
        i = i + 1;
    }
    i
}

fn mantissa_ok_exec(t: &Vec<char>, k: usize) -> (b: bool)
    requires
        k <= t@.len(),
    ensures
        b == mantissa_ok(t@.take(k as int)),
{
    let ghost m = t@.take(k as int);
    let mut all_ok = true;
    let mut dots: usize = 0;
    let mut any_digit = false;
    let mut i: usize = 0;
    while i < k
        invariant
            i <= k <= t@.len(),
            m == t@.take(k as int),
            all_ok == (forall|q: int| 0 <= q < i ==> is_digit(#[trigger] m[q]) || m[q] == '.'),
            dots <= i,
            (dots <= 1) == (forall|q: int, r: int| 0 <= q < r < i ==> !(#[trigger] m[q] == '.' && #[trigger] m[r] == '.')),
            dots >= 1 ==> exists|q: int| 0 <= q < i && m[q] == '.',
            dots == 0 ==> forall|q: int| 0 <= q < i ==> m[q] != '.',
            any_digit == (exists|q: int| 0 <= q < i && is_digit(#[trigger] m[q])),
        decreases k - i,
    {
        let c = t[i];
        assert(c == m[i as int]);
        if !(is_digit_exec(c) || c == '.') {
            all_ok = false;
        }
        if c == '.' {
            if dots >= 1 {
                proof {
                    let q = choose|q: int| 0 <= q < i && m[q] == '.';
                    assert(m[q] == '.' && m[i as int] == '.');
                }
            }
            dots = dots + 1;
        }
        if is_digit_exec(c) {
            any_digit = true;
        }
        i = i + 1;
    }
    all_ok && dots <= 1 && any_digit
}

fn exponent_ok_exec(t: &Vec<char>, start: usize) -> (b: bool)
    requires
        start <= t@.len(),
    ensures
        b == exponent_ok(t@.skip(start as int)),
{
    let ghost x = t@.skip(start as int);
    let mut j = start;
    if j < t.len() && (t[j] == '+' || t[j] == '-') {
        j = j + 1;
    }
    let ghost y = if x.len() > 0 && (x[0] == '+' || x[0] == '-') { x.skip(1) } else { x };
    assert(y =~= t@.skip(j as int));
    if j >= t.len() {
        return false;
    }
    let mut all_digits = true;
    let mut i = j;
    while i < t.len()
        invariant
            j <= i <= t@.len(),
            y == t@.skip(j as int),
            x == t@.skip(start as int),
            y == (if x.len() > 0 && (x[0] == '+' || x[0] == '-') { x.skip(1) } else { x }),
            all_digits == (forall|q: int| 0 <= q < i - j ==> is_digit(#[trigger] y[q])),
        decreases t@.len() - i,
    {
        assert(t[i as int] == y[i - j]);
        if !is_digit_exec(t[i]) {
            all_digits = false;
        }
        i = i + 1;
    }
    assert(y.len() == t@.len() - j);
    assert(x == t@.skip(start as int));
    all_digits
}

fn number_ok_exec(t: &Vec<char>, radix: u32) -> (b: bool)
    ensures
        b == number_ok(t@, radix as int),
{
    if radix == 10 {
        let k = first_e_exec(t);
        let m = mantissa_ok_exec(t, k);
        if !m {
            return false;
        }
        if k == t.len() {
            true
        } else {
            exponent_ok_exec(t, k + 1)
        }
    } else {
        t.len() >= 3
    }
}

/// Whether `name` is in `known` (compared by characters).
fn known_contains(known: &Vec<String>, name: &String) -> (b: bool)
    ensures
        b == known@.map_values(|s: String| s@).contains(name@),
{
    let ghost kv = known@.map_values(|s: String| s@);
    let mut i: usize = 0;
    while i < known.len()
        invariant
            i <= known@.len(),
            kv == known@.map_values(|s: String| s@),
            forall|q: int| 0 <= q < i ==> kv[q] != name@,
        decreases known@.len() - i,
    {
        if known[i] == *name {
            assert(kv[i as int] == name@);
            return true;
        }
        i = i + 1;
    }
    false
}

/// Whether `name` is among the known names.
fn known_name_exec(name: &Vec<char>, known: &Vec<String>) -> (b: bool)
    ensures
        b == known_name(name@, name_set(known@)),
{
    let s = string_from_chars(name);
    known_contains(known, &s)
}

/// The names that the muncher may look up for the symbol `s`: what follows its number,
/// and that without its last character.
pub fn unit_candidates(s: &Vec<char>) -> (r: Vec<String>)
{
    let mut r: Vec<String> = Vec::new();
    let (end, _radix) = number_end_exec(s);
    if end == 0 || end >= s.len() {
        return r;
    }
    let mut suffix: Vec<char> = Vec::new();
    let mut i = end;
    while i < s.len()
        invariant
            end <= i <= s@.len(),
        decreases s@.len() - i,
    {
        suffix.push(s[i]);
        i = i + 1;
    }
    r.push(string_from_chars(&suffix));
    if suffix.len() >= 2 {
        suffix.pop();
        r.push(string_from_chars(&suffix));
    }
    r
}

/// Adding a name to a list adds it to the list's set.
pub proof fn lemma_names_push(v: Seq<String>, s: String)
    ensures
        name_set(v.push(s)) == name_set(v).insert(s@),
{
    let f = |x: String| x@;
    v.lemma_push_map_commute(f, s);
    v.map_values(f).lemma_push_to_set_commute(s@);
}

/// Adds to `known` every name among `names` that fend evaluates on its own. What fend
/// answers is not claimed, so only that `known` grows is stated.
pub fn add_fend_names(names: &Vec<String>, known: &mut Vec<String>)
    ensures
        name_set(old(known)@).subset_of(name_set(final(known)@)),
{
    let mut i: usize = 0;
    while i < names.len()
        invariant
            i <= names@.len(),
            name_set(old(known)@).subset_of(name_set(known@)),
        decreases names@.len() - i,
    {
        if evaluate_fresh(names[i].as_str()).is_some() {
            let ghost before = known@;
            let n = names[i].clone();
            known.push(n);
            proof {
                lemma_names_push(before, n);
            }
        }
        i = i + 1;
    }
}

/// `v` with the characters `w` appended.
fn chars_concat(v: &Vec<char>, w: &Vec<char>) -> (r: Vec<char>)
    ensures
        r@ == v@ + w@,
{
    let mut r: Vec<char> = Vec::new();
    let mut i: usize = 0;
    while i < v.len()
        invariant
            i <= v@.len(),
            r@ == v@.take(i as int),
        decreases v@.len() - i,
    {
        r.push(v[i]);
        i = i + 1;
        assert(r@ =~= v@.take(i as int));
    }
    let mut j: usize = 0;
    while j < w.len()
        invariant
            j <= w@.len(),
            r@ == v@ + w@.take(j as int),
            v@.take(v@.len() as int) == v@,
        decreases w@.len() - j,
    {
        r.push(w[j]);
        j = j + 1;
        assert(r@ =~= v@ + w@.take(j as int));
    }
    assert(w@.take(w@.len() as int) =~= w@);
    assert(v@.take(v@.len() as int) =~= v@);
    r
}

/// The byte offset at which character `i` of `s` starts.
fn byte_offset_exec(s: &Vec<char>, i: usize) -> (b: usize)
    requires
        i <= s@.len(),
        4 * s@.len() <= usize::MAX,
    ensures
        b == byte_index(s@, i as int),
{
    let mut b: usize = 0;
    let mut j: usize = 0;
    while j < i
        invariant
            j <= i <= s@.len(),
            4 * s@.len() <= usize::MAX,
            b == byte_index(s@, j as int),
            b <= 4 * j,
        decreases i - j,
    {
        b = b + char_utf8_len(s[j]) as usize;
        j = j + 1;
    }
    b
}

/// Splits the raw symbol `s` into typed parts with their byte offsets inside `s`, a unit
/// name being accepted when it is among `known` or fend evaluates it on its own. Since
/// fend's answers are not claimed, the parts are those of `spec_munch` for the known
/// names together with some set of further names.
pub fn munch(s: &Vec<char>, known: &Vec<String>) -> (r: Vec<(Atom, usize)>)
    requires
        4 * s@.len() <= usize::MAX,
    ensures
        exists|more: Set<Seq<char>>| parts_view(r@) == spec_munch(s@, name_set(known@).union(more)),
{
    let mut all: Vec<String> = Vec::new();
    let mut i: usize = 0;
    while i < known.len()
        invariant
            i <= known@.len(),
            all@.map_values(|x: String| x@) == known@.take(i as int).map_values(|x: String| x@),
        decreases known@.len() - i,
    {
        let ghost before = all@;
        let n = known[i].clone();
        all.push(n);
        i = i + 1;
        proof {
            let f = |x: String| x@;
            before.lemma_push_map_commute(f, n);
            known@.take(i - 1).lemma_push_map_commute(f, known@[i - 1]);
            assert(known@.take(i as int) =~= known@.take(i - 1).push(known@[i - 1]));
        }
    }
    assert(known@.take(i as int) =~= known@);
    assert(name_set(all@) == name_set(known@));
    let names = unit_candidates(s);
    add_fend_names(&names, &mut all);
    let r = munch_known(s, &all);
    assert(name_set(known@).union(name_set(all@)) =~= name_set(all@));
    r
}

/// Splits the raw symbol `s` into typed parts with their byte offsets inside `s`, a unit
/// name being accepted when it is among `known`.
pub fn munch_known(s: &Vec<char>, known: &Vec<String>) -> (r: Vec<(Atom, usize)>)
    requires
        4 * s@.len() <= usize::MAX,
    ensures
        parts_view(r@) == spec_munch(s@, name_set(known@)),
{
    let mut r: Vec<(Atom, usize)> = Vec::new();
    if s.len() == 0 {
        assert(parts_view(r@) =~= Seq::<(AtomV, nat)>::empty());
        return r;
    }
    let (end, radix) = number_end_exec(s);
    if end == 0 {
        r.push((Atom::Variable(string_from_chars(s)), 0));
        assert(parts_view(r@) =~= seq![(AtomV::Variable(s@), 0nat)]);
        return r;
    }
    let t = strip_exec(s, end);
    let mut suffix: Vec<char> = Vec::new();
    let mut i = end;
    while i < s.len()
        invariant
            end <= i <= s@.len(),
            suffix@ == s@.subrange(end as int, i as int),
        decreases s@.len() - i,
    {
        suffix.push(s[i]);
        i = i + 1;
        assert(suffix@ =~= s@.subrange(end as int, i as int));
    }
    assert(suffix@ =~= s@.skip(end as int));
    let b = byte_offset_exec(s, end);
    if !number_ok_exec(&t, radix) {
        r.push((Atom::Poison, 0));
        assert(parts_view(r@) =~= seq![(AtomV::Poison, 0nat)]);
        return r;
    }
    if suffix.len() == 0 {
        r.push((Atom::Value(string_from_chars(&t)), 0));
        assert(parts_view(r@) =~= seq![(AtomV::Value(t@), 0nat)]);
        return r;
    }
    let one_char = suffix.len() == 1;
    if one_char && (suffix[0] == 'k' || suffix[0] == 'K' || suffix[0] == 'M') {
        let mult = if suffix[0] == 'M' {
            vec!['1', '0', '0', '0', '0', '0', '0']
        } else {
            vec!['1', '0', '0', '0']
        };
        let open = vec!['('];
        let times = vec![' ', '*', ' '];
        let close = vec![')'];
        let a = chars_concat(&open, &t);
        let b2 = chars_concat(&a, &times);
        let c = chars_concat(&b2, &mult);
        let d = chars_concat(&c, &close);
        proof {
            assert(suffix@ =~= seq![suffix@[0]]);
            if suffix@[0] == 'M' {
                assert(mult@ =~= seq!['1', '0', '0', '0', '0', '0', '0']);
            } else {
                assert(mult@ =~= seq!['1', '0', '0', '0']);
            }
            assert(open@ =~= seq!['(']);
            assert(times@ =~= seq![' ', '*', ' ']);
            assert(close@ =~= seq![')']);
        }
        r.push((Atom::Value(string_from_chars(&d)), 0));
        assert(parts_view(r@) =~= seq![(AtomV::Value(d@), 0nat)]);
        return r;
    }
    proof {
        if one_char {
            assert(suffix@ =~= seq![suffix@[0]]);
        }
        assert(!one_char ==> (suffix@ != seq!['k'] && suffix@ != seq!['K'] && suffix@ != seq!['M']));
    }
    if known_name_exec(&suffix, known) {
        r.push((Atom::Value(string_from_chars(&t)), 0));
        r.push((Atom::Variable(string_from_chars(&suffix)), b));
        assert(parts_view(r@) =~= seq![(AtomV::Value(t@), 0nat), (AtomV::Variable(suffix@), b as nat)]);
        return r;
    }
    let n = suffix.len();
    if n >= 2 {
        let last = suffix[n - 1];
        if '2' <= last && last <= '5' {
            let mut prefix = suffix;
            prefix.pop();
            assert(prefix@ =~= s@.skip(end as int).drop_last());
            if known_name_exec(&prefix, known) {
                let p = byte_offset_exec(s, s.len() - 1);
                let mut digit: Vec<char> = Vec::new();
                digit.push(last);
                r.push((Atom::Value(string_from_chars(&t)), 0));
                r.push((Atom::Variable(string_from_chars(&prefix)), b));
                r.push((Atom::Operator(OpCode::Fend(FendOp::Pow)), p));
                r.push((Atom::Value(string_from_chars(&digit)), p));
                assert(digit@ =~= seq![last]);
                assert(parts_view(r@) =~= seq![
                    (AtomV::Value(t@), 0nat),
                    (AtomV::Variable(prefix@), b as nat),
                    (AtomV::Operator(OpCode::Fend(FendOp::Pow)), p as nat),
                    (AtomV::Value(seq![last]), p as nat),
                ]);
                return r;
            }
        }
    }
    r.push((Atom::Poison, 0));
    assert(parts_view(r@) =~= seq![(AtomV::Poison, 0nat)]);
    r
}

} // verus!
