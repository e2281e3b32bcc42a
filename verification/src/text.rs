//! Character-level helpers shared by the column-name sanitizer and the
//! connection-string parser. Tag names may hold arbitrary Unicode, so the
//! alphanumeric test and whitespace trimming are delegated to the standard
//! library; everything else works on plain character vectors.

use vstd::prelude::*;

verus! {

/// What `char::is_alphanumeric` returns: a function of the character alone.
pub uninterp spec fn char_alphanumeric(c: char) -> bool;

/// Relies on char::is_alphanumeric: whether the character is in the Unicode
/// categories of letters or numbers; a pure function of the character.
pub assume_specification[ char::is_alphanumeric ](c: char) -> (r: bool)
    ensures
        r == char_alphanumeric(c),
;

/// A white-space character: one of the Unicode White_Space code points.
pub open spec fn whitespace_char(c: char) -> bool {
    ||| (0x09 <= c as u32 && c as u32 <= 0x0D)
    ||| c as u32 == 0x20
    ||| c as u32 == 0x85
    ||| c as u32 == 0xA0
    ||| c as u32 == 0x1680
    ||| (0x2000 <= c as u32 && c as u32 <= 0x200A)
    ||| c as u32 == 0x2028
    ||| c as u32 == 0x2029
    ||| c as u32 == 0x202F
    ||| c as u32 == 0x205F
    ||| c as u32 == 0x3000
}

/// Whether the character is white space.
pub fn is_whitespace_char(c: char) -> (r: bool)
    ensures
        r == whitespace_char(c),
{
    let u = c as u32;
    (0x09 <= u && u <= 0x0D) || u == 0x20 || u == 0x85 || u == 0xA0 || u == 0x1680 || (0x2000 <= u
        && u <= 0x200A) || u == 0x2028 || u == 0x2029 || u == 0x202F || u == 0x205F || u == 0x3000
}

/// How many white-space characters the string starts with.
pub open spec fn lead_ws(s: Seq<char>) -> int
    decreases s.len(),
{
    if s.len() == 0 {
        0
    } else if !whitespace_char(s[0]) {
        0
    } else {
        1 + lead_ws(s.drop_first())
    }
}

/// How many white-space characters the string ends with.
pub open spec fn trail_ws(s: Seq<char>) -> int
    decreases s.len(),
{
    if s.len() == 0 {
        0
    } else if !whitespace_char(s.last()) {
        0
    } else {
        1 + trail_ws(s.drop_last())
    }
}

/// The string with leading and trailing white space removed.
pub open spec fn trim_ws_spec(s: Seq<char>) -> Seq<char> {
    let lo = lead_ws(s);
    if lo == s.len() {
        Seq::empty()
    } else {
        s.subrange(lo, s.len() - trail_ws(s))
    }
}

/// The first `lead_ws(s)` characters are white space and, unless the whole
/// string is white space, the next one is not.
pub proof fn lemma_lead_ws(s: Seq<char>)
    ensures
        0 <= lead_ws(s) <= s.len(),
        forall|i: int| 0 <= i < lead_ws(s) ==> whitespace_char(#[trigger] s[i]),
        lead_ws(s) < s.len() ==> !whitespace_char(s[lead_ws(s)]),
    decreases s.len(),
{
    if s.len() > 0 && whitespace_char(s[0]) {
        lemma_lead_ws(s.drop_first());
        assert forall|i: int| 0 <= i < lead_ws(s) implies whitespace_char(#[trigger] s[i]) by {
            if i > 0 {
                assert(whitespace_char(s.drop_first()[i - 1]));
            }
        }
        if lead_ws(s) < s.len() {
            assert(!whitespace_char(s.drop_first()[lead_ws(s) - 1]));
        }
    }
}

/// The last `trail_ws(s)` characters are white space and, unless the whole
/// string is white space, the one before them is not.
pub proof fn lemma_trail_ws(s: Seq<char>)
    ensures
        0 <= trail_ws(s) <= s.len(),
        forall|i: int| s.len() - trail_ws(s) <= i < s.len() ==> whitespace_char(#[trigger] s[i]),
        trail_ws(s) < s.len() ==> !whitespace_char(s[s.len() - trail_ws(s) - 1]),
    decreases s.len(),
{
    if s.len() > 0 && whitespace_char(s.last()) {
        lemma_trail_ws(s.drop_last());
        assert(forall|i: int| 0 <= i < s.len() - 1 ==> s.drop_last()[i] == s[i]);
    }
}

/// Trimming a string without white space leaves it alone.
pub proof fn lemma_trim_ws_identity(s: Seq<char>)
    requires
        forall|i: int| 0 <= i < s.len() ==> !whitespace_char(#[trigger] s[i]),
    ensures
        trim_ws_spec(s) == s,
{
    lemma_lead_ws(s);
    lemma_trail_ws(s);
    if s.len() > 0 {
        assert(lead_ws(s) == 0);
        assert(trail_ws(s) == 0);
        assert(s.subrange(0, s.len() as int) =~= s);
    } else {
        assert(trim_ws_spec(s) =~= s);
    }
}

/// The string with leading and trailing white space removed.
pub fn trim_ws(s: &str) -> (r: String)
    ensures
        r@ == trim_ws_spec(s@),
{
    let v = str_to_chars(s);
    proof {
        lemma_lead_ws(v@);
        lemma_trail_ws(v@);
    }
    let mut lo: usize = 0;
    while lo < v.len() && is_whitespace_char(v[lo])
        invariant
            lo <= v@.len(),
            v@ == s@,
            forall|j: int| 0 <= j < lo ==> whitespace_char(#[trigger] v@[j]),
        decreases v@.len() - lo,
    {
        lo = lo + 1;
    }
    proof {
        lemma_lead_ws(v@);
        if lo < lead_ws(v@) {
            assert(whitespace_char(v@[lo as int]));
        }
        if lo > lead_ws(v@) {
            assert(whitespace_char(v@[lead_ws(v@)]));
        }
        assert(lo == lead_ws(v@));
    }
    if lo == v.len() {
        let r = String::new();
        proof {
            assert(r@ =~= trim_ws_spec(s@));
        }
        return r;
    }
    let mut hi: usize = v.len();
    while hi > lo + 1 && is_whitespace_char(v[hi - 1])
        invariant
            lo < hi <= v@.len(),
            v@ == s@,
            lo < v@.len() && !whitespace_char(v@[lo as int]),
            forall|j: int| hi <= j < v@.len() ==> whitespace_char(#[trigger] v@[j]),
        decreases hi,
    {
        hi = hi - 1;
    }
    proof {
        lemma_trail_ws(v@);
        let tr = trail_ws(v@);
        if hi < v@.len() - tr {
            assert(whitespace_char(v@[hi as int]));
            assert(v@.len() - tr <= hi);
        }
        if hi > v@.len() - tr {
            assert(!whitespace_char(v@[v@.len() - tr - 1]));
            assert(v@.len() - tr - 1 >= lo);
            if v@.len() - tr - 1 >= hi {
                assert(whitespace_char(v@[v@.len() - tr - 1]));
            }
            assert(v@.len() - tr - 1 == hi - 1);
            assert(whitespace_char(v@[hi - 1]) ==> hi == lo + 1);
            if hi == lo + 1 {
                assert(v@.len() - tr == lo);
                assert(whitespace_char(v@[lo as int]));
            }
        }
        assert(hi == v@.len() - tr);
    }
    let out = copy_range(&v, lo, hi);
    proof {
        assert(out@ =~= trim_ws_spec(s@));
    }
    chars_to_string(&out)
}

/// Relies on String::push: appends the character to the end of the string.
#[verifier::external_body]
pub fn push_char(s: &mut String, c: char)
    ensures
        final(s)@ == old(s)@.push(c),
{
    s.push(c);
}

/// The characters of the string, in order, as a vector.
pub fn str_to_chars(s: &str) -> (r: Vec<char>)
    ensures
        r@ == s@,
{
    let mut v: Vec<char> = Vec::new();
    for c in it: s.chars()
        invariant
            it.seq() == s@,
            v@ == it.seq().take(it.index() as int),
    {
        v.push(c);
    }
    proof {
        assert(v@ =~= s@);
    }
    v
}

/// The string holding exactly these characters, in order.
pub fn chars_to_string(v: &Vec<char>) -> (r: String)
    ensures
        r@ == v@,
{
    let mut s = String::new();
    let mut i: usize = 0;
    while i < v.len()
        invariant
            i <= v.len(),
            s@ == v@.take(i as int),
        decreases v.len() - i,
    {
        push_char(&mut s, v[i]);
        proof {
            assert(s@ =~= v@.take(i + 1 as int));
        }
        i = i + 1;
    }
    proof {
        assert(s@ =~= v@);
    }
    s
}

/// A copy of the characters from `a` up to `b`.
pub fn copy_range(v: &Vec<char>, a: usize, b: usize) -> (r: Vec<char>)
    requires
        a <= b <= v@.len(),
    ensures
        r@ == v@.subrange(a as int, b as int),
{
    let mut r: Vec<char> = Vec::new();
    let mut i: usize = a;
    while i < b
        invariant
            a <= i <= b <= v@.len(),
            r@ == v@.subrange(a as int, i as int),
        decreases b - i,
    {
        r.push(v[i]);
        proof {
            assert(r@ =~= v@.subrange(a as int, i + 1));
        }
        i = i + 1;
    }
    r
}

/// An ASCII decimal digit.
pub open spec fn is_ascii_digit_char(c: char) -> bool {
    '0' as u32 <= c as u32 && c as u32 <= '9' as u32
}

/// Whether the character is one of the digits 0 through 9.
pub fn ascii_digit(c: char) -> (r: bool)
    ensures
        r == is_ascii_digit_char(c),
{
    let u = c as u32;
    48 <= u && u <= 57
}

} // verus!
