//! The canvas the image is composed onto: the terminal window, the image
//! itself, or a fixed size.
use vstd::prelude::*;
use crate::codec::{dec, push_dec};
use crate::lex::{chars_of, eq_ignore_case, eq_ignore_case_at, span, dec_value, lemma_span, lemma_span_le};

verus! {

#[derive(Debug, Clone, Copy, PartialEq, Eq, Structural)]
pub enum CanvasSize {
    Window,
    Image,
    /// Width in columns and height in character rows.
    Exact(u32, u32),
}

/// The text is no canvas size.
#[derive(Debug, PartialEq, Eq, Structural)]
pub struct CanvasSizeParseError();

/// The characters that `split_ascii_whitespace` splits at.
pub open spec fn is_ascii_ws(c: char) -> bool {
    c == ' ' || c == '\t' || c == '\n' || c == '\x0C' || c == '\r'
}

/// The maximal runs of characters that are not ASCII whitespace.
pub open spec fn words(s: Seq<char>) -> Seq<Seq<char>>
    decreases s.len(),
{
    let i = span(s, |c: char| is_ascii_ws(c));
    let r = s.skip(i as int);
    let n = span(r, |c: char| !is_ascii_ws(c));
    if i < s.len() && 0 < n <= r.len() {
        seq![r.take(n as int)] + words(r.skip(n as int))
    } else {
        Seq::empty()
    }
}

/// `w` without a leading `+`.
pub open spec fn unsigned_part(w: Seq<char>) -> Seq<char> {
    if w.len() > 0 && w[0] == '+' { w.skip(1) } else { w }
}

pub open spec fn all_digits(d: Seq<char>) -> bool {
    forall|k: int| 0 <= k < d.len() ==> '0' <= #[trigger] d[k] <= '9'
}

/// The `u32` that a text spells: an optional `+` and decimal digits.
pub open spec fn u32_of(w: Seq<char>) -> Option<u32> {
    let d = unsigned_part(w);
    if d.len() > 0 && all_digits(d) && dec_value(d) <= u32::MAX {
        Some(dec_value(d) as u32)
    } else {
        None
    }
}

/// The canvas size that the text `s` spells.
pub open spec fn canvas_size_of(s: Seq<char>) -> Option<CanvasSize> {
    if eq_ignore_case(s, seq!['w', 'i', 'n', 'd', 'o', 'w']) {
        Some(CanvasSize::Window)
    } else if eq_ignore_case(s, seq!['i', 'm', 'a', 'g', 'e']) {
        Some(CanvasSize::Image)
    } else {
        let ws = words(s);
        if ws.len() == 2 && u32_of(ws[0]) is Some && u32_of(ws[1]) is Some {
            Some(CanvasSize::Exact(u32_of(ws[0])->0, u32_of(ws[1])->0))
        } else {
            None
        }
    }
}

fn is_ascii_ws_exec(c: char) -> (r: bool)
    ensures
        r == is_ascii_ws(c),
{
    c == ' ' || c == '\t' || c == '\n' || c == '\x0C' || c == '\r'
}

/// The next word of `c` at or after `pos`: `None` when only whitespace is left.
fn next_word(c: &Vec<char>, pos: usize) -> (r: Option<(usize, usize)>)
    requires
        pos <= c@.len(),
    ensures
        r is None ==> words(c@.skip(pos as int)) == Seq::<Seq<char>>::empty(),
        r is Some ==> ({
            let (a, b) = r->0;
            &&& pos <= a < b <= c@.len()
            &&& words(c@.skip(pos as int)) == seq![c@.subrange(a as int, b as int)] + words(
                c@.skip(b as int),
            )
        }),
{
    let ghost s = c@.skip(pos as int);
    let n = c.len();
    let mut a = pos;
    while a < n && is_ascii_ws_exec(c[a])
        invariant
            pos <= a <= n,
            n == c@.len(),
            s == c@.skip(pos as int),
            forall|k: int| 0 <= k < a - pos ==> is_ascii_ws(#[trigger] s[k]),
        decreases n - a,
    {
        a = a + 1;
    }
    proof {
        lemma_span(s, |c: char| is_ascii_ws(c), (a - pos) as nat);
    }
    if a == n {
        return None;
    }
    let ghost r = s.skip(a - pos);
    assert(r =~= c@.skip(a as int));
    let mut b = a + 1;
    while b < n && !is_ascii_ws_exec(c[b])
        invariant
            a < b <= n,
            n == c@.len(),
            r == c@.skip(a as int),
            !is_ascii_ws(r[0]),
            forall|k: int| 0 <= k < b - a ==> !is_ascii_ws(#[trigger] r[k]),
        decreases n - b,
    {
        b = b + 1;
    }
    proof {
        lemma_span(r, |c: char| !is_ascii_ws(c), (b - a) as nat);
        assert(r.take(b - a) =~= c@.subrange(a as int, b as int));
        assert(r.skip(b - a) =~= c@.skip(b as int));
    }
    Some((a, b))
}

/// The `u32` that `c[a..b]` spells.
fn parse_u32(c: &Vec<char>, a: usize, b: usize) -> (r: Option<u32>)
    requires
        a <= b <= c@.len(),
    ensures
        r == u32_of(c@.subrange(a as int, b as int)),
{
    let ghost w = c@.subrange(a as int, b as int);
    let mut i = a;
    if i < b && c[i] == '+' {
        i = i + 1;
    }
    let ghost d = unsigned_part(w);
    assert(d =~= c@.subrange(i as int, b as int));
    if i == b {
        return None;
    }
    let start = i;
    let mut value: u64 = 0;
    while i < b
        invariant
            a <= start <= i <= b <= c@.len(),
            d == c@.subrange(start as int, b as int),
            w == c@.subrange(a as int, b as int),
            d == unsigned_part(w),
            d.len() > 0,
            forall|k: int| 0 <= k < i - start ==> '0' <= #[trigger] d[k] <= '9',
            value as nat == dec_value(d.take(i - start)),
            value <= u32::MAX,
        decreases b - i,
    {
        let ch = c[i];
        if !('0' <= ch && ch <= '9') {
            assert(d[i - start] == ch);
            assert(!all_digits(d));
            return None;
        }
        assert(d.take(i - start + 1).drop_last() =~= d.take(i - start));
        assert(d.take(i - start + 1).last() == ch);
        value = value * 10 + (ch as u32 - '0' as u32) as u64;
        if value > u32::MAX as u64 {
            proof {
                let t = i - start + 1;
                assert(value as nat == dec_value(d.take(t)));
                crate::lex::lemma_dec_value_grows(d, t as nat);
                assert(dec_value(d) > u32::MAX);
            }
            return None;
        }
        i = i + 1;
    }
    assert(d.take(d.len() as int) =~= d);
    Some(value as u32)
}

impl CanvasSize {
    pub fn is_window(&self) -> (r: bool)
        ensures
            r == (*self is Window),
    {
        matches!(self, CanvasSize::Window)
    }

    pub fn is_image(&self) -> (r: bool)
        ensures
            r == (*self is Image),
    {
        matches!(self, CanvasSize::Image)
    }

    pub fn is_exact(&self) -> (r: bool)
        ensures
            r == (*self is Exact),
    {
        matches!(self, CanvasSize::Exact(_, _))
    }

    /// Parses a canvas size: `window`, `image` or `"<width> <height>"`.
    pub fn parse(value: &str) -> (r: Result<CanvasSize, CanvasSizeParseError>)
        ensures
            r == (match canvas_size_of(value@) {
                Some(c) => Ok::<CanvasSize, CanvasSizeParseError>(c),
                None => Err(CanvasSizeParseError()),
            }),
    {
        let c = chars_of(value);
        let n = c.len();
        proof {
            assert(c@.subrange(0, n as int) =~= value@);
            assert(c@.skip(0) =~= value@);
        }
        if eq_ignore_case_at(&c, 0, n, &vec!['w', 'i', 'n', 'd', 'o', 'w']) {
            return Ok(CanvasSize::Window);
        }
        if eq_ignore_case_at(&c, 0, n, &vec!['i', 'm', 'a', 'g', 'e']) {
            return Ok(CanvasSize::Image);
        }
        let Some((a1, b1)) = next_word(&c, 0) else {
            return Err(CanvasSizeParseError());
        };
        let Some(width) = parse_u32(&c, a1, b1) else {
            return Err(CanvasSizeParseError());
        };
        let Some((a2, b2)) = next_word(&c, b1) else {
            return Err(CanvasSizeParseError());
        };
        let Some(height) = parse_u32(&c, a2, b2) else {
            return Err(CanvasSizeParseError());
        };
        if let Some(_) = next_word(&c, b2) {
            return Err(CanvasSizeParseError());
        }
        Ok(CanvasSize::Exact(width, height))
    }
}

/// The canvas size's text: `window`, `image` or `<width> <height>`.
pub open spec fn canvas_size_text(c: CanvasSize) -> Seq<char> {
    match c {
        CanvasSize::Window => seq!['w', 'i', 'n', 'd', 'o', 'w'],
        CanvasSize::Image => seq!['i', 'm', 'a', 'g', 'e'],
        CanvasSize::Exact(w, h) => dec(w as nat) + seq![' '] + dec(h as nat),
    }
}

impl CanvasSize {
    /// The canvas size's text, which `parse` reads back.
    pub fn to_string(&self) -> (r: String)
        ensures
            r@ == canvas_size_text(*self),
    {
        proof {
            reveal_strlit("window");
            reveal_strlit("image");
        }
        match *self {
            CanvasSize::Window => "window".to_owned(),
            CanvasSize::Image => "image".to_owned(),
            CanvasSize::Exact(w, h) => {
                let mut out = String::new();
                push_dec(&mut out, w);
                out.push(' ');
                push_dec(&mut out, h);
                assert(out@ =~= canvas_size_text(*self));
                out
            },
        }
    }
}

impl std::str::FromStr for CanvasSize {
    type Err = CanvasSizeParseError;

    /// Parses as `parse` does.
    fn from_str(value: &str) -> (r: Result<CanvasSize, CanvasSizeParseError>)
        ensures
            r == (match canvas_size_of(value@) {
                Some(c) => Ok::<CanvasSize, CanvasSizeParseError>(c),
                None => Err(CanvasSizeParseError()),
            }),
    {
        CanvasSize::parse(value)
    }
}

/// A word of digits followed by a space and another word of digits.
proof fn lemma_words_pair(a: Seq<char>, b: Seq<char>)
    requires
        a.len() > 0,
        b.len() > 0,
        forall|k: int| 0 <= k < a.len() ==> '0' <= #[trigger] a[k] <= '9',
        forall|k: int| 0 <= k < b.len() ==> '0' <= #[trigger] b[k] <= '9',
    ensures
        words(a + seq![' '] + b) == seq![a, b],
{
    let s = a + seq![' '] + b;
    assert(span(s, |c: char| is_ascii_ws(c)) == 0);
    assert(s.skip(0) =~= s);
    assert forall|k: int| 0 <= k < a.len() implies !is_ascii_ws(#[trigger] s[k]) by {
        assert(s[k] == a[k]);
    }
    assert(s[a.len() as int] == ' ');
    lemma_span(s, |c: char| !is_ascii_ws(c), a.len());
    assert(s.take(a.len() as int) =~= a);
    let t = s.skip(a.len() as int);
    assert(t =~= seq![' '] + b);
    assert(t[0] == ' ');
    assert(!is_ascii_ws(t[1]));
    lemma_span(t, |c: char| is_ascii_ws(c), 1);
    let r = t.skip(1);
    assert(r =~= b);
    lemma_span(r, |c: char| !is_ascii_ws(c), b.len());
    assert(r.take(b.len() as int) =~= b);
    let e = r.skip(b.len() as int);
    assert(e =~= Seq::<char>::empty());
    assert(span(e, |c: char| is_ascii_ws(c)) == 0);
    assert(words(e) =~= Seq::<Seq<char>>::empty());
    assert(words(t) =~= seq![b]);
    assert(words(s) =~= seq![a, b]);
}

proof fn lemma_u32_text(v: u32)
    ensures
        u32_of(dec(v as nat)) == Some(v),
{
    crate::style::lemma_dec_text(v as nat);
    let d = dec(v as nat);
    assert(unsigned_part(d) == d);
    assert(all_digits(d));
}

/// Parsing a canvas size's text gives the canvas size back.
pub proof fn lemma_parse_canvas_size_text(c: CanvasSize)
    ensures
        canvas_size_of(canvas_size_text(c)) == Some(c),
{
    match c {
        CanvasSize::Window => {},
        CanvasSize::Image => {
            assert(!eq_ignore_case(seq!['i', 'm', 'a', 'g', 'e'], seq!['w', 'i', 'n', 'd', 'o', 'w']));
        },
        CanvasSize::Exact(w, h) => {
            let a = dec(w as nat);
            let b = dec(h as nat);
            crate::style::lemma_dec_text(w as nat);
            crate::style::lemma_dec_text(h as nat);
            assert forall|k: int| 0 <= k < a.len() implies '0' <= #[trigger] a[k] <= '9' by {
                assert(crate::lex::is_digit(a[k]));
            }
            assert forall|k: int| 0 <= k < b.len() implies '0' <= #[trigger] b[k] <= '9' by {
                assert(crate::lex::is_digit(b[k]));
            }
            lemma_words_pair(a, b);
            lemma_u32_text(w);
            lemma_u32_text(h);
            let s = canvas_size_text(c);
            assert(s[0] == a[0]);
            assert(!eq_ignore_case(s, seq!['w', 'i', 'n', 'd', 'o', 'w']));
            assert(!eq_ignore_case(s, seq!['i', 'm', 'a', 'g', 'e']));
        },
    }
}

} // verus!
