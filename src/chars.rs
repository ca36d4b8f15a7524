//! Character classes and the small text conversions the rest of the library
//! builds on. ASCII behaviour is stated exactly; what the Unicode tables say
//! of other characters is named and left uninterpreted.
use vstd::prelude::*;

verus! {

/// Alphabetic property of a character outside ASCII.
pub uninterp spec fn wide_alphabetic(c: char) -> bool;

/// Numeric property (Nd, Nl, No) of a character outside ASCII.
pub uninterp spec fn wide_numeric(c: char) -> bool;

/// Uppercase property of a character outside ASCII.
pub uninterp spec fn wide_uppercase(c: char) -> bool;

/// Full uppercase mapping of a character outside ASCII.
pub uninterp spec fn wide_to_upper(c: char) -> Seq<char>;

/// Full lowercase mapping of a character outside ASCII.
pub uninterp spec fn wide_to_lower(c: char) -> Seq<char>;

pub open spec fn is_ascii_char(c: char) -> bool {
    (c as u32) < 128
}

/// The White_Space property of Unicode.
pub open spec fn is_space(c: char) -> bool {
    let u = c as u32;
    u == 0x20 || (0x09 <= u && u <= 0x0D) || u == 0x85 || u == 0xA0 || u == 0x1680 || (0x2000 <= u
        && u <= 0x200A) || u == 0x2028 || u == 0x2029 || u == 0x202F || u == 0x205F || u == 0x3000
}

pub open spec fn is_ascii_upper(c: char) -> bool {
    'A' <= c && c <= 'Z'
}

pub open spec fn is_ascii_lower(c: char) -> bool {
    'a' <= c && c <= 'z'
}

pub open spec fn is_ascii_digit(c: char) -> bool {
    '0' <= c && c <= '9'
}

pub open spec fn is_alpha(c: char) -> bool {
    if is_ascii_char(c) {
        is_ascii_upper(c) || is_ascii_lower(c)
    } else {
        wide_alphabetic(c)
    }
}

pub open spec fn is_num(c: char) -> bool {
    if is_ascii_char(c) {
        is_ascii_digit(c)
    } else {
        wide_numeric(c)
    }
}

pub open spec fn is_alnum(c: char) -> bool {
    is_alpha(c) || is_num(c)
}

pub open spec fn is_upper(c: char) -> bool {
    if is_ascii_char(c) {
        is_ascii_upper(c)
    } else {
        wide_uppercase(c)
    }
}

pub open spec fn upper_of(c: char) -> Seq<char> {
    if is_ascii_char(c) {
        if is_ascii_lower(c) {
            seq![((c as u32) - 32) as char]
        } else {
            seq![c]
        }
    } else {
        wide_to_upper(c)
    }
}

pub open spec fn lower_of(c: char) -> Seq<char> {
    if is_ascii_char(c) {
        if is_ascii_upper(c) {
            seq![((c as u32) + 32) as char]
        } else {
            seq![c]
        }
    } else {
        wide_to_lower(c)
    }
}

/// Whether `c` has the White_Space property of Unicode.
pub fn char_is_whitespace(c: char) -> (r: bool)
    ensures
        r == is_space(c),
{
    let u = c as u32;
    u == 0x20 || (0x09 <= u && u <= 0x0D) || u == 0x85 || u == 0xA0 || u == 0x1680 || (0x2000 <= u
        && u <= 0x200A) || u == 0x2028 || u == 0x2029 || u == 0x202F || u == 0x205F || u == 0x3000
}

/// Relies on char::is_alphabetic: the Alphabetic property, which in ASCII
/// holds of the letters A-Z and a-z.
#[verifier::external_body]
pub(crate) fn char_is_alphabetic(c: char) -> (r: bool)
    ensures
        r == is_alpha(c),
        !is_ascii_char(c) ==> r == wide_alphabetic(c),
{
    c.is_alphabetic()
}

/// Relies on char::is_numeric: the general categories Nd, Nl and No, which in
/// ASCII hold of the digits 0-9.
#[verifier::external_body]
pub(crate) fn char_is_numeric(c: char) -> (r: bool)
    ensures
        r == is_num(c),
        !is_ascii_char(c) ==> r == wide_numeric(c),
{
    c.is_numeric()
}

/// Relies on char::is_uppercase: the Uppercase property, which in ASCII
/// holds of the letters A-Z.
#[verifier::external_body]
pub(crate) fn char_is_uppercase(c: char) -> (r: bool)
    ensures
        r == is_upper(c),
        !is_ascii_char(c) ==> r == wide_uppercase(c),
{
    c.is_uppercase()
}

/// Relies on char::to_uppercase: the full uppercase mapping, which in ASCII
/// maps a-z to A-Z and leaves every other character as it is.
#[verifier::external_body]
pub(crate) fn char_to_upper(c: char) -> (r: Vec<char>)
    ensures
        r@ == upper_of(c),
        !is_ascii_char(c) ==> r@ == wide_to_upper(c),
{
    c.to_uppercase().collect()
}

/// Relies on char::to_lowercase: the full lowercase mapping, which in ASCII
/// maps A-Z to a-z and leaves every other character as it is.
#[verifier::external_body]
pub(crate) fn char_to_lower(c: char) -> (r: Vec<char>)
    ensures
        r@ == lower_of(c),
        !is_ascii_char(c) ==> r@ == wide_to_lower(c),
{
    c.to_lowercase().collect()
}

/// Relies on str::chars: the characters of the string, in order.
#[verifier::external_body]
pub(crate) fn chars_of(s: &str) -> (r: Vec<char>)
    ensures
        r@ == s@,
{
    s.chars().collect()
}

/// Relies on String's FromIterator<&char>: the characters, in order.
#[verifier::external_body]
pub(crate) fn string_of(v: &Vec<char>) -> (r: String)
    ensures
        r@ == v@,
{
    v.iter().collect()
}

/// The text cut at each occurrence of `sep`; there is always one piece more
/// than there are separators.
pub open spec fn split_on(s: Seq<char>, sep: char) -> Seq<Seq<char>>
    decreases s.len(),
{
    if s.len() == 0 {
        seq![Seq::empty()]
    } else {
        let p = split_on(s.drop_last(), sep);
        if s.last() == sep {
            p.push(Seq::empty())
        } else {
            p.update(p.len() - 1, p.last().push(s.last()))
        }
    }
}

pub proof fn lemma_split_on_len(s: Seq<char>, sep: char)
    ensures
        split_on(s, sep).len() >= 1,
    decreases s.len(),
{
    if s.len() > 0 {
        lemma_split_on_len(s.drop_last(), sep);
    }
}

/// The bounds of the pieces of `cs` cut at `sep`.
pub fn split_ranges(cs: &Vec<char>, sep: char) -> (r: Vec<(usize, usize)>)
    ensures
        r@.len() == split_on(cs@, sep).len(),
        forall|k: int| 0 <= k < r@.len() ==> #[trigger] r@[k].0 <= r@[k].1 <= cs@.len(),
        forall|k: int|
            0 <= k < r@.len() ==> cs@.subrange(r@[k].0 as int, r@[k].1 as int) == #[trigger] split_on(
                cs@,
                sep,
            )[k],
{
    let mut r: Vec<(usize, usize)> = Vec::new();
    let mut start: usize = 0;
    let mut i: usize = 0;
    assert(cs@.subrange(0, 0) =~= Seq::<char>::empty());
    while i < cs.len()
        invariant
            0 <= start <= i <= cs@.len(),
            r@.len() + 1 == split_on(cs@.subrange(0, i as int), sep).len(),
            split_on(cs@.subrange(0, i as int), sep).last() == cs@.subrange(start as int, i as int),
            forall|k: int| 0 <= k < r@.len() ==> #[trigger] r@[k].0 <= r@[k].1 <= start,
            forall|k: int|
                0 <= k < r@.len() ==> cs@.subrange(r@[k].0 as int, r@[k].1 as int)
                    == #[trigger] split_on(cs@.subrange(0, i as int), sep)[k],
        decreases cs.len() - i,
    {
        let ghost p = split_on(cs@.subrange(0, i as int), sep);
        assert(cs@.subrange(0, i + 1).drop_last() =~= cs@.subrange(0, i as int));
        if cs[i] == sep {
            let ghost r0 = r@;
            let ghost s0 = start;
            let ghost i0 = i;
            r.push((start, i));
            i = i + 1;
            start = i;
            assert forall|k: int| 0 <= k < r@.len() implies #[trigger] r@[k].0 <= r@[k].1 <= start by {
                if k < r@.len() - 1 {
                    assert(r@[k] == r0[k]);
                    assert(r0[k].0 <= r0[k].1 <= s0);
                } else {
                    assert(r@[k] == (s0, i0));
                }
            }
            assert(cs@.subrange(start as int, i as int) =~= Seq::<char>::empty());
            let ghost q = split_on(cs@.subrange(0, i as int), sep);
            assert(q == p.push(Seq::empty()));
            assert forall|k: int| 0 <= k < r@.len() implies cs@.subrange(r@[k].0 as int, r@[k].1 as int) == #[trigger] q[k] by {
                if k < r@.len() - 1 {
                    assert(q[k] == p[k]);
                }
            }
        } else {
            i = i + 1;
            assert(cs@.subrange(start as int, i as int) =~= cs@.subrange(start as int, i - 1).push(
                cs@[i - 1],
            ));
            let ghost q = split_on(cs@.subrange(0, i as int), sep);
            assert(q == p.update(p.len() - 1, p.last().push(cs@[i - 1])));
            assert forall|k: int| 0 <= k < r@.len() implies cs@.subrange(r@[k].0 as int, r@[k].1 as int) == #[trigger] q[k] by {
                assert(q[k] == p[k]);
            }
        }
    }
    assert(cs@.subrange(0, cs.len() as int) =~= cs@);
    let ghost p = split_on(cs@, sep);
    r.push((start, cs.len()));
    assert forall|k: int| 0 <= k < r@.len() implies cs@.subrange(r@[k].0 as int, r@[k].1 as int) == #[trigger] p[k] by {
        if k < r@.len() - 1 {
            assert(cs@.subrange(r@[k].0 as int, r@[k].1 as int) == split_on(
                cs@.subrange(0, cs@.len() as int),
                sep,
            )[k]);
        }
    }
    r
}

/// The characters `cs[a..b]` as a string.
pub fn string_of_range(cs: &Vec<char>, a: usize, b: usize) -> (r: String)
    requires
        a <= b <= cs.len(),
    ensures
        r@ == cs@.subrange(a as int, b as int),
{
    let mut v: Vec<char> = Vec::new();
    let mut i = a;
    while i < b
        invariant
            a <= i <= b <= cs.len(),
            v@ == cs@.subrange(a as int, i as int),
        decreases b - i,
    {
        v.push(cs[i]);
        i = i + 1;
        assert(v@ =~= cs@.subrange(a as int, i as int));
    }
    string_of(&v)
}

/// Whether `s` holds exactly the characters of `lit`.
pub fn eq_lit(s: &str, lit: &str) -> (r: bool)
    ensures
        r == (s@ == lit@),
{
    let a = chars_of(s);
    let b = chars_of(lit);
    if a.len() != b.len() {
        return false;
    }
    let mut i: usize = 0;
    while i < a.len()
        invariant
            0 <= i <= a@.len(),
            a@.len() == b@.len(),
            a@ == s@,
            b@ == lit@,
            a@.subrange(0, i as int) == b@.subrange(0, i as int),
        decreases a.len() - i,
    {
        if a[i] != b[i] {
            assert(a@[i as int] != b@[i as int]);
            return false;
        }
        i = i + 1;
        assert(a@.subrange(0, i as int) =~= b@.subrange(0, i as int));
    }
    assert(a@ =~= a@.subrange(0, i as int));
    assert(b@ =~= b@.subrange(0, i as int));
    true
}

/// Appends the characters of `s` to `v`.
pub fn push_str(v: &mut Vec<char>, s: &str)
    ensures
        final(v)@ == old(v)@ + s@,
{
    let cs = chars_of(s);
    push_all(v, &cs);
}

/// Appends the characters of `cs` to `v`.
pub fn push_all(v: &mut Vec<char>, cs: &Vec<char>)
    ensures
        final(v)@ == old(v)@ + cs@,
{
    let ghost start = v@;
    let mut i: usize = 0;
    while i < cs.len()
        invariant
            0 <= i <= cs.len(),
            v@ == start + cs@.subrange(0, i as int),
        decreases cs.len() - i,
    {
        v.push(cs[i]);
        i = i + 1;
        assert(cs@.subrange(0, i as int) =~= cs@.subrange(0, i - 1).push(cs@[i - 1]));
    }
    assert(cs@.subrange(0, cs.len() as int) =~= cs@);
}

} // verus!
