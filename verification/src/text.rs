use vstd::prelude::*;

verus! {

/// Appends one character to a string.
///
/// Trusted: calls `String::push`, which std documents as appending `c` to the end of
/// the string; the contract claims exactly that of the string's characters.
#[verifier::external_body]
pub fn push_char(s: &mut String, c: char)
    ensures
        final(s)@ == old(s)@.push(c),
{
    s.push(c);
}

/// Whether `n` is the code of a Unicode scalar value (not a surrogate, at most `0x10FFFF`).
pub open spec fn is_scalar(n: u32) -> bool {
    n <= 0x10FFFF && !(0xD800 <= n <= 0xDFFF)
}

/// The character with code `n`, if there is one.
///
/// Trusted: calls `char::from_u32`, which std documents as returning the character whose
/// code is `n` when `n` is a Unicode scalar value and `None` otherwise; the contract
/// claims exactly that.
#[verifier::external_body]
pub fn char_from_u32(n: u32) -> (c: Option<char>)
    ensures
        is_scalar(n) ==> c == Some(n as char),
        !is_scalar(n) ==> c is None,
{
    char::from_u32(n)
}

/// The characters of `s`, in order.
pub fn chars_of(s: &str) -> (v: Vec<char>)
    ensures
        v@ == s@,
{
    let mut v: Vec<char> = Vec::new();
    for c in it: s.chars()
        invariant
            v@ == it.seq().take(it.index() as int),
            it.seq() == s@,
    {
        v.push(c);
    }
    v
}

/// A string holding exactly the characters of `v`.
pub fn string_from_chars(v: &Vec<char>) -> (s: String)
    ensures
        s@ == v@,
{
    let mut s = String::new();
    let mut i: usize = 0;
    while i < v.len()
        invariant
            i <= v.len(),
            s@ == v@.take(i as int),
        decreases v.len() - i,
    {
        push_char(&mut s, v[i]);
        proof {
            assert(v@.take(i as int).push(v@[i as int]) =~= v@.take(i + 1));
        }
        i += 1;
    }
    proof {
        assert(v@.take(v@.len() as int) =~= v@);
    }
    s
}

/// The string holding the single character `c`.
pub fn char_string(c: char) -> (s: String)
    ensures
        s@ == seq![c],
{
    let mut s = String::new();
    push_char(&mut s, c);
    s
}

/// The ASCII decimal digit for `d` (`0 <= d < 10`).
pub open spec fn decimal_digit(d: nat) -> char {
    (('0' as u32) + d) as char
}

/// The decimal representation of `n`, without leading zeros.
pub open spec fn decimal(n: nat) -> Seq<char>
    decreases n,
{
    if n < 10 {
        seq![decimal_digit(n)]
    } else {
        decimal(n / 10).push(decimal_digit(n % 10))
    }
}

fn digit_char(d: u8) -> (c: char)
    requires
        d < 10,
    ensures
        c == decimal_digit(d as nat),
{
    match d {
        0 => '0',
        1 => '1',
        2 => '2',
        3 => '3',
        4 => '4',
        5 => '5',
        6 => '6',
        7 => '7',
        8 => '8',
        _ => '9',
    }
}

/// Appends the decimal representation of `v`.
pub fn push_decimal_u8(s: &mut String, v: u8)
    ensures
        final(s)@ == old(s)@ + decimal(v as nat),
{
    if v >= 100 {
        push_char(s, digit_char(v / 100));
    }
    if v >= 10 {
        push_char(s, digit_char((v / 10) % 10));
    }
    push_char(s, digit_char(v % 10));
    proof {
        let n = v as nat;
        if n >= 100 {
            assert(decimal(n / 100) == seq![decimal_digit(n / 100)]);
            assert(decimal(n / 10) == seq![decimal_digit(n / 100), decimal_digit((n / 10) % 10)]);
        } else if n >= 10 {
            assert(decimal(n / 10) == seq![decimal_digit(n / 10)]);
        }
    }
}

/// The lowercase hexadecimal digit for `d` (`0 <= d < 16`).
pub open spec fn hex_digit(d: nat) -> char {
    if d < 10 { (('0' as u32) + d) as char } else { (('a' as u32) + d - 10) as char }
}

/// Two lowercase hexadecimal digits for the byte `v`.
pub open spec fn hex_byte(v: u8) -> Seq<char> {
    seq![hex_digit(v as nat / 16), hex_digit(v as nat % 16)]
}

fn hex_digit_char(d: u8) -> (c: char)
    requires
        d < 16,
    ensures
        c == hex_digit(d as nat),
{
    match d {
        0 => '0',
        1 => '1',
        2 => '2',
        3 => '3',
        4 => '4',
        5 => '5',
        6 => '6',
        7 => '7',
        8 => '8',
        9 => '9',
        10 => 'a',
        11 => 'b',
        12 => 'c',
        13 => 'd',
        14 => 'e',
        _ => 'f',
    }
}

/// Appends the two lowercase hexadecimal digits of `v`.
pub fn push_hex_u8(s: &mut String, v: u8)
    ensures
        final(s)@ == old(s)@ + hex_byte(v),
{
    push_char(s, hex_digit_char(v / 16));
    push_char(s, hex_digit_char(v % 16));
}

/// The value of a hexadecimal digit, either case.
pub open spec fn hex_value(c: char) -> Option<nat> {
    if '0' <= c <= '9' {
        Some((c as u32 - '0' as u32) as nat)
    } else if 'a' <= c <= 'f' {
        Some((c as u32 - 'a' as u32 + 10) as nat)
    } else if 'A' <= c <= 'F' {
        Some((c as u32 - 'A' as u32 + 10) as nat)
    } else {
        None
    }
}

pub fn hex_value_of(c: char) -> (v: Option<u8>)
    ensures
        v matches Some(d) ==> hex_value(c) == Some(d as nat),
        v is None ==> hex_value(c) is None,
{
    if '0' <= c && c <= '9' {
        Some((c as u32 - '0' as u32) as u8)
    } else if 'a' <= c && c <= 'f' {
        Some((c as u32 - 'a' as u32 + 10) as u8)
    } else if 'A' <= c && c <= 'F' {
        Some((c as u32 - 'A' as u32 + 10) as u8)
    } else {
        None
    }
}

/// Unicode `White_Space`, the set `char::is_whitespace` tests.
pub open spec fn is_whitespace(c: char) -> bool {
    let v = c as u32;
    ||| 0x09 <= v <= 0x0d
    ||| v == 0x20
    ||| v == 0x85
    ||| v == 0xa0
    ||| v == 0x1680
    ||| 0x2000 <= v <= 0x200a
    ||| v == 0x2028
    ||| v == 0x2029
    ||| v == 0x202f
    ||| v == 0x205f
    ||| v == 0x3000
}

pub fn is_whitespace_char(c: char) -> (b: bool)
    ensures
        b == is_whitespace(c),
{
    let v = c as u32;
    (0x09 <= v && v <= 0x0d) || v == 0x20 || v == 0x85 || v == 0xa0 || v == 0x1680
        || (0x2000 <= v && v <= 0x200a) || v == 0x2028 || v == 0x2029 || v == 0x202f
        || v == 0x205f || v == 0x3000
}

/// Number of leading whitespace characters of `s`.
pub open spec fn leading_ws(s: Seq<char>) -> nat
    decreases s.len(),
{
    if s.len() > 0 && is_whitespace(s[0]) { 1 + leading_ws(s.drop_first()) } else { 0 }
}

/// Number of trailing whitespace characters of `s`.
pub open spec fn trailing_ws(s: Seq<char>) -> nat
    decreases s.len(),
{
    if s.len() > 0 && is_whitespace(s.last()) { 1 + trailing_ws(s.drop_last()) } else { 0 }
}

/// `s` without leading and trailing whitespace (what `str::trim` keeps).
pub open spec fn trimmed(s: Seq<char>) -> Seq<char> {
    if leading_ws(s) == s.len() {
        Seq::empty()
    } else {
        s.subrange(leading_ws(s) as int, s.len() - trailing_ws(s))
    }
}

/// `s` without its leading run of `c` (what `str::trim_start_matches(c)` keeps).
pub open spec fn strip_leading(s: Seq<char>, c: char) -> Seq<char>
    decreases s.len(),
{
    if s.len() > 0 && s[0] == c { strip_leading(s.drop_first(), c) } else { s }
}

proof fn lemma_leading_ws(s: Seq<char>, i: int)
    requires
        0 <= i <= s.len(),
        forall|j: int| 0 <= j < i ==> is_whitespace(#[trigger] s[j]),
    ensures
        leading_ws(s) >= i,
        i < s.len() && !is_whitespace(s[i]) ==> leading_ws(s) == i,
        i == s.len() ==> leading_ws(s) == s.len(),
    decreases i,
{
    if i > 0 {
        lemma_leading_ws(s.drop_first(), i - 1);
    } else if s.len() > 0 && !is_whitespace(s[0]) {
    }
}

proof fn lemma_trailing_ws(s: Seq<char>, i: int)
    requires
        0 <= i <= s.len(),
        forall|j: int| s.len() - i <= j < s.len() ==> is_whitespace(#[trigger] s[j]),
    ensures
        trailing_ws(s) >= i,
        i < s.len() && !is_whitespace(s[s.len() - i - 1]) ==> trailing_ws(s) == i,
    decreases i,
{
    if i > 0 {
        assert forall|j: int| s.drop_last().len() - (i - 1) <= j < s.drop_last().len() implies is_whitespace(#[trigger] s.drop_last()[j]) by {
            assert(s.drop_last()[j] == s[j]);
        }
        lemma_trailing_ws(s.drop_last(), i - 1);
    }
}

/// The characters of `s` with leading and trailing whitespace removed.
pub fn trim_chars(s: &Vec<char>) -> (t: Vec<char>)
    ensures
        t@ == trimmed(s@),
{
    let mut lo: usize = 0;
    while lo < s.len() && !is_whitespace_char(s[lo]) == false
        invariant
            lo <= s.len(),
            forall|j: int| 0 <= j < lo ==> is_whitespace(#[trigger] s@[j]),
        decreases s.len() - lo,
    {
        lo += 1;
    }
    proof {
        lemma_leading_ws(s@, lo as int);
    }
    let mut t: Vec<char> = Vec::new();
    if lo == s.len() {
        return t;
    }
    let mut hi: usize = s.len();
    while hi > lo && is_whitespace_char(s[hi - 1])
        invariant
            lo < s.len(),
            lo <= hi <= s.len(),
            !is_whitespace(s@[lo as int]),
            forall|j: int| hi <= j < s.len() ==> is_whitespace(#[trigger] s@[j]),
        decreases hi,
    {
        hi -= 1;
    }
    proof {
        lemma_trailing_ws(s@, s.len() - hi);
    }
    let mut i: usize = lo;
    while i < hi
        invariant
            lo <= i <= hi <= s.len(),
            t@ == s@.subrange(lo as int, i as int),
        decreases hi - i,
    {
        t.push(s[i]);
        proof {
            assert(s@.subrange(lo as int, i as int).push(s@[i as int]) =~= s@.subrange(lo as int, i + 1));
        }
        i += 1;
    }
    t
}

/// The characters of `s` without its leading run of `c`.
pub fn strip_leading_chars(s: &Vec<char>, c: char) -> (t: Vec<char>)
    ensures
        t@ == strip_leading(s@, c),
{
    let mut lo: usize = 0;
    proof {
        assert(s@.subrange(0, s@.len() as int) =~= s@);
    }
    while lo < s.len() && s[lo] == c
        invariant
            lo <= s.len(),
            strip_leading(s@, c) == strip_leading(s@.subrange(lo as int, s@.len() as int), c),
        decreases s.len() - lo,
    {
        proof {
            let rest = s@.subrange(lo as int, s@.len() as int);
            assert(rest.drop_first() =~= s@.subrange(lo + 1, s@.len() as int));
        }
        lo += 1;
    }
    let mut t: Vec<char> = Vec::new();
    let mut i: usize = lo;
    while i < s.len()
        invariant
            lo <= i <= s.len(),
            t@ == s@.subrange(lo as int, i as int),
        decreases s.len() - i,
    {
        t.push(s[i]);
        proof {
            assert(s@.subrange(lo as int, i as int).push(s@[i as int]) =~= s@.subrange(lo as int, i + 1));
        }
        i += 1;
    }
    t
}

/// Whether the characters `a` spell `b`.
pub fn same_chars(a: &Vec<char>, b: &str) -> (r: bool)
    ensures
        r == (a@ == b@),
{
    let bv = chars_of(b);
    if a.len() != bv.len() {
        return false;
    }
    let mut i: usize = 0;
    while i < a.len()
        invariant
            a@.len() == bv@.len(),
            bv@ == b@,
            i <= a.len(),
            forall|j: int| 0 <= j < i ==> a@[j] == bv@[j],
        decreases a.len() - i,
    {
        if a[i] != bv[i] {
            return false;
        }
        i += 1;
    }
    proof {
        assert(a@ =~= bv@);
    }
    true
}

proof fn lemma_leading_ws_props(s: Seq<char>)
    ensures
        leading_ws(s) <= s.len(),
        forall|j: int| 0 <= j < leading_ws(s) ==> is_whitespace(#[trigger] s[j]),
        leading_ws(s) < s.len() ==> !is_whitespace(s[leading_ws(s) as int]),
    decreases s.len(),
{
    if s.len() > 0 && is_whitespace(s[0]) {
        let t = s.drop_first();
        lemma_leading_ws_props(t);
        assert forall|j: int| 0 <= j < leading_ws(s) implies is_whitespace(#[trigger] s[j]) by {
            if j > 0 {
                assert(s[j] == t[j - 1]);
            }
        }
        if leading_ws(s) < s.len() {
            assert(s[leading_ws(s) as int] == t[leading_ws(t) as int]);
        }
    }
}

proof fn lemma_trailing_ws_props(s: Seq<char>)
    ensures
        trailing_ws(s) <= s.len(),
        forall|j: int| s.len() - trailing_ws(s) <= j < s.len() ==> is_whitespace(#[trigger] s[j]),
        trailing_ws(s) < s.len() ==> !is_whitespace(s[s.len() - trailing_ws(s) - 1]),
    decreases s.len(),
{
    if s.len() > 0 && is_whitespace(s.last()) {
        let t = s.drop_last();
        lemma_trailing_ws_props(t);
        assert forall|j: int| s.len() - trailing_ws(s) <= j < s.len() implies is_whitespace(#[trigger] s[j]) by {
            if j < s.len() - 1 {
                assert(s[j] == t[j]);
            }
        }
        if trailing_ws(s) < s.len() {
            assert(s[s.len() - trailing_ws(s) - 1] == t[t.len() - trailing_ws(t) - 1]);
        }
    }
}

/// Law: trimming keeps one stretch of the text, in place: everything before and after it
/// is whitespace, and the stretch is empty or begins and ends with a character that is
/// not whitespace.
pub proof fn lemma_trim_keeps_middle(s: Seq<char>)
    ensures
        exists|lo: int, hi: int| {
            &&& 0 <= lo <= hi <= s.len()
            &&& #[trigger] s.subrange(lo, hi) == trimmed(s)
            &&& forall|j: int| 0 <= j < lo ==> is_whitespace(#[trigger] s[j])
            &&& forall|j: int| hi <= j < s.len() ==> is_whitespace(#[trigger] s[j])
        },
        trimmed(s).len() > 0 ==> !is_whitespace(trimmed(s)[0]) && !is_whitespace(trimmed(s).last()),
{
    lemma_leading_ws_props(s);
    lemma_trailing_ws_props(s);
    let lo = leading_ws(s) as int;
    if lo == s.len() {
        assert(s.subrange(lo, lo) =~= trimmed(s));
        assert(s.subrange(lo, lo) == trimmed(s));
    } else {
        let hi = s.len() - trailing_ws(s);
        if hi <= lo {
            assert(is_whitespace(s[lo]));
        }
        assert(s.subrange(lo, hi) == trimmed(s));
        assert(trimmed(s)[0] == s[lo]);
        assert(trimmed(s).last() == s[hi - 1]);
    }
}

} // verus!
