//! Character classes and scanning helpers shared by the option grammars.
use vstd::prelude::*;
use vstd::std_specs::iter::IteratorSpec;

verus! {

/// Rust's `char::is_whitespace`: the Unicode White_Space property.
pub open spec fn is_ws(c: char) -> bool {
    let u = c as u32;
    (9 <= u <= 13) || u == 32 || u == 0x85 || u == 0xa0 || u == 0x1680 || (0x2000 <= u <= 0x200a)
        || u == 0x2028 || u == 0x2029 || u == 0x202f || u == 0x205f || u == 0x3000
}

pub open spec fn is_digit(c: char) -> bool {
    '0' <= c <= '9'
}

pub open spec fn is_ascii_alpha(c: char) -> bool {
    ('a' <= c <= 'z') || ('A' <= c <= 'Z')
}

/// A character that continues a keyword.
pub open spec fn is_word_char(c: char) -> bool {
    is_ascii_alpha(c) || is_digit(c) || c == '_' || c == '-'
}

/// `w` equals the lower-case ASCII word `k`, ignoring ASCII case.
pub open spec fn eq_ignore_case(w: Seq<char>, k: Seq<char>) -> bool {
    &&& w.len() == k.len()
    &&& forall|i: int|
        0 <= i < w.len() ==> (w[i] == k[i] || ('a' <= k[i] <= 'z' && w[i] as u32 + 32 == k[i] as u32))
}

/// The length of the longest prefix of `s` whose characters satisfy `p`.
pub open spec fn span(s: Seq<char>, p: spec_fn(char) -> bool) -> nat
    decreases s.len(),
{
    if s.len() == 0 || !p(s[0]) {
        0
    } else {
        1 + span(s.drop_first(), p)
    }
}

pub open spec fn digit_value(c: char) -> nat {
    (c as u32 - '0' as u32) as nat
}

/// The number that the decimal digits `s` spell.
pub open spec fn dec_value(s: Seq<char>) -> nat
    decreases s.len(),
{
    if s.len() == 0 {
        0
    } else {
        dec_value(s.drop_last()) * 10 + digit_value(s.last())
    }
}

/// `span` is the first index whose character fails `p`.
pub proof fn lemma_span(s: Seq<char>, p: spec_fn(char) -> bool, i: nat)
    requires
        i <= s.len(),
        forall|k: int| 0 <= k < i ==> p(#[trigger] s[k]),
        i == s.len() || !p(s[i as int]),
    ensures
        span(s, p) == i,
    decreases i,
{
    if i > 0 {
        let t = s.drop_first();
        assert forall|k: int| 0 <= k < i - 1 implies p(#[trigger] t[k]) by {
            assert(t[k] == s[k + 1]);
        }
        if i < s.len() {
            assert(t[i - 1] == s[i as int]);
        }
        lemma_span(t, p, (i - 1) as nat);
    }
}

pub proof fn lemma_span_le(s: Seq<char>, p: spec_fn(char) -> bool)
    ensures
        span(s, p) <= s.len(),
    decreases s.len(),
{
    if s.len() > 0 && p(s[0]) {
        lemma_span_le(s.drop_first(), p);
    }
}

/// A longer run of digits never spells a smaller number.
pub proof fn lemma_dec_value_grows(s: Seq<char>, k: nat)
    requires
        k <= s.len(),
    ensures
        dec_value(s.take(k as int)) <= dec_value(s),
    decreases s.len() - k,
{
    if k < s.len() {
        lemma_dec_value_grows(s, k + 1);
        assert(s.take(k as int + 1).drop_last() =~= s.take(k as int));
    } else {
        assert(s.take(k as int) =~= s);
    }
}

pub fn is_whitespace(c: char) -> (r: bool)
    ensures
        r == is_ws(c),
{
    let u = c as u32;
    (9 <= u && u <= 13) || u == 32 || u == 0x85 || u == 0xa0 || u == 0x1680 || (0x2000 <= u && u
        <= 0x200a) || u == 0x2028 || u == 0x2029 || u == 0x202f || u == 0x205f || u == 0x3000
}

pub fn is_word_char_exec(c: char) -> (r: bool)
    ensures
        r == is_word_char(c),
{
    ('a' <= c && c <= 'z') || ('A' <= c && c <= 'Z') || ('0' <= c && c <= '9') || c == '_' || c
        == '-'
}

/// The characters of `s`.
pub fn chars_of(s: &str) -> (r: Vec<char>)
    ensures
        r@ == s@,
{
    broadcast use vstd::string::group_string_axioms;
    let mut r: Vec<char> = Vec::new();
    for c in it: s.chars()
        invariant
            r@ == it.seq().take(it.index() as int),
    {
        r.push(c);
        assert(r@ =~= it.seq().take(it.index() as int + 1));
    }
    assert(r@ =~= s@);
    r
}

/// `chars[start..end]` equals the lower-case ASCII word `k`, ignoring case.
pub fn eq_ignore_case_at(chars: &Vec<char>, start: usize, end: usize, k: &Vec<char>) -> (r: bool)
    requires
        start <= end <= chars@.len(),
    ensures
        r == eq_ignore_case(chars@.subrange(start as int, end as int), k@),
{
    if end - start != k.len() {
        return false;
    }
    let ghost w = chars@.subrange(start as int, end as int);
    let mut i: usize = 0;
    while i < k.len()
        invariant
            start <= end <= chars@.len(),
            end - start == k@.len(),
            w == chars@.subrange(start as int, end as int),
            i <= k@.len(),
            forall|j: int|
                0 <= j < i ==> (w[j] == k@[j] || ('a' <= k@[j] <= 'z' && w[j] as u32 + 32
                    == k@[j] as u32)),
        decreases k@.len() - i,
    {
        let a = chars[start + i];
        let b = k[i];
        if !(a == b || ('a' <= b && b <= 'z' && a as u32 == b as u32 - 32)) {
            assert(w[i as int] == a);
            return false;
        }
        i = i + 1;
    }
    true
}

} // verus!
