//! The placement language: `center`, `tile`, `cover`, `contain`,
//! `shrink-to-fit`, or a position `[position] x y [size]`.
use vstd::prelude::*;
use crate::lex::{
    is_ws, is_digit, is_ascii_alpha, is_word_char, eq_ignore_case, span, dec_value, lemma_span,
    lemma_dec_value_grows, lemma_span_le, is_whitespace, is_word_char_exec, chars_of, eq_ignore_case_at,
};
use crate::size::Size;
use crate::codec::{dec, push_dec, digit_char};

verus! {

/// How a source image is laid onto the canvas.
#[derive(Debug, Clone, Copy, PartialEq, Eq, Structural)]
pub enum Style {
    Center,
    Tile,
    /// Top left corner (`None`: centred on the canvas) and size.
    Position(Option<i32>, Option<i32>, Size),
    Cover,
    Contain,
    ShrinkToFit,
}

/// The style text is not in the grammar.
#[derive(Debug, PartialEq, Eq, Structural)]
pub struct StyleParseError();

#[derive(Debug, Clone, Copy, PartialEq, Eq, Structural)]
pub enum StyleToken {
    Center,
    Tile,
    Cover,
    Contain,
    ShrinkToFit,
    Position,
    Int(i32),
    Slash,
    Asterisk,
}

/// What scanning finds at the front of a text.
pub enum Scan {
    /// Nothing but whitespace is left.
    End,
    /// A token, and how many characters it took with the whitespace before it.
    Token(StyleToken, nat),
    /// Text that is no token.
    Bad,
}

pub open spec fn kw_center() -> Seq<char> { seq!['c', 'e', 'n', 't', 'e', 'r'] }
pub open spec fn kw_tile() -> Seq<char> { seq!['t', 'i', 'l', 'e'] }
pub open spec fn kw_cover() -> Seq<char> { seq!['c', 'o', 'v', 'e', 'r'] }
pub open spec fn kw_contain() -> Seq<char> { seq!['c', 'o', 'n', 't', 'a', 'i', 'n'] }
pub open spec fn kw_shrink_to_fit() -> Seq<char> {
    seq!['s', 'h', 'r', 'i', 'n', 'k', '-', 't', 'o', '-', 'f', 'i', 't']
}
pub open spec fn kw_shrinktofit() -> Seq<char> {
    seq!['s', 'h', 'r', 'i', 'n', 'k', 't', 'o', 'f', 'i', 't']
}
pub open spec fn kw_position() -> Seq<char> { seq!['p', 'o', 's', 'i', 't', 'i', 'o', 'n'] }

/// The keyword that the word `w` spells, ignoring ASCII case.
pub open spec fn keyword(w: Seq<char>) -> Option<StyleToken> {
    if eq_ignore_case(w, kw_center()) {
        Some(StyleToken::Center)
    } else if eq_ignore_case(w, kw_tile()) {
        Some(StyleToken::Tile)
    } else if eq_ignore_case(w, kw_cover()) {
        Some(StyleToken::Cover)
    } else if eq_ignore_case(w, kw_contain()) {
        Some(StyleToken::Contain)
    } else if eq_ignore_case(w, kw_shrink_to_fit()) || eq_ignore_case(w, kw_shrinktofit()) {
        Some(StyleToken::ShrinkToFit)
    } else if eq_ignore_case(w, kw_position()) {
        Some(StyleToken::Position)
    } else {
        None
    }
}

/// The token at the front of `s`. Keywords are ASCII, so a word ends at the
/// first character that is not an ASCII letter or digit, `_` or `-`.
/// An integer is an optional sign and decimal digits whose value fits an `i32`.
pub open spec fn next_token(s: Seq<char>) -> Scan {
    let i = span(s, |c: char| is_ws(c));
    if i >= s.len() {
        Scan::End
    } else {
        let r = s.skip(i as int);
        let c = r[0];
        if c == '/' {
            Scan::Token(StyleToken::Slash, i + 1)
        } else if c == '*' {
            Scan::Token(StyleToken::Asterisk, i + 1)
        } else if is_ascii_alpha(c) {
            let n = span(r, |c: char| is_word_char(c));
            match keyword(r.take(n as int)) {
                Some(t) => Scan::Token(t, i + n),
                None => Scan::Bad,
            }
        } else {
            let j: nat = if c == '+' || c == '-' { 1 } else { 0 };
            let d = r.skip(j as int);
            let n = span(d, |c: char| is_digit(c));
            let v = dec_value(d.take(n as int));
            if n == 0 || v > i32::MAX {
                Scan::Bad
            } else {
                Scan::Token(StyleToken::Int((if c == '-' { -(v as int) } else { v as int }) as i32), i + j + n)
            }
        }
    }
}

/// The tokens of `s`, and whether scanning stopped at text that is no token.
pub open spec fn lex(s: Seq<char>) -> (Seq<StyleToken>, bool)
    decreases s.len(),
{
    match next_token(s) {
        Scan::End => (Seq::empty(), false),
        Scan::Bad => (Seq::empty(), true),
        Scan::Token(t, n) => if 1 <= n <= s.len() {
            let rest = lex(s.skip(n as int));
            (seq![t] + rest.0, rest.1)
        } else {
            (Seq::empty(), false)
        },
    }
}

/// Splits a style text into tokens. After the first text that is no token,
/// every further request fails.
pub struct StyleTokenizer {
    chars: Vec<char>,
    pos: usize,
    err: bool,
}

impl StyleTokenizer {
    /// The tokens still to come, and whether they end in an error.
    pub closed spec fn pending(&self) -> (Seq<StyleToken>, bool) {
        if self.err {
            (Seq::empty(), true)
        } else {
            lex(self.chars@.skip(self.pos as int))
        }
    }

    pub closed spec fn wf(&self) -> bool {
        self.pos <= self.chars@.len()
    }

    pub fn new(src: &str) -> (r: StyleTokenizer)
        ensures
            r.wf(),
            r.pending() == lex(src@),
    {
        let chars = chars_of(src);
        let r = StyleTokenizer { chars, pos: 0, err: false };
        assert(r.chars@.skip(0) =~= src@);
        r
    }

    /// The next token, `None` at the end, or an error.
    pub fn next(&mut self) -> (r: Option<Result<StyleToken, StyleParseError>>)
        requires
            old(self).wf(),
        ensures
            final(self).wf(),
            ({
                let (ts, bad) = old(self).pending();
                if ts.len() > 0 {
                    r == Some(Ok::<StyleToken, StyleParseError>(ts[0]))
                        && final(self).pending() == (ts.drop_first(), bad)
                } else if bad {
                    r == Some(Err::<StyleToken, StyleParseError>(StyleParseError()))
                        && final(self).pending() == (ts, bad)
                } else {
                    r is None && final(self).pending() == (ts, bad)
                }
            }),
    {
        if self.err {
            return Some(Err(StyleParseError()));
        }
        let ghost s = self.chars@.skip(self.pos as int);
        let ghost origin = self.pos as nat;
        assert(old(self).pending() == lex(s));
        let n = self.chars.len();
        let mut i = self.pos;
        while i < n && is_whitespace(self.chars[i])
            invariant
                self.pos <= i <= n,
                n == self.chars@.len(),
                s == self.chars@.skip(self.pos as int),
                forall|k: int| 0 <= k < i - self.pos ==> is_ws(#[trigger] s[k]),
            decreases n - i,
        {
            i = i + 1;
        }
        let ghost ws = (i - self.pos) as nat;
        proof {
            lemma_span(s, |c: char| is_ws(c), ws);
        }
        if i == n {
            return None;
        }
        let ghost r = s.skip(ws as int);
        assert(r =~= self.chars@.skip(i as int));
        let c = self.chars[i];
        if c == '/' {
            self.pos = i + 1;
            proof { self.lemma_lex_step(s, origin, StyleToken::Slash, ws + 1); }
            return Some(Ok(StyleToken::Slash));
        }
        if c == '*' {
            self.pos = i + 1;
            proof { self.lemma_lex_step(s, origin, StyleToken::Asterisk, ws + 1); }
            return Some(Ok(StyleToken::Asterisk));
        }
        if ('a' <= c && c <= 'z') || ('A' <= c && c <= 'Z') {
            let mut j = i + 1;
            while j < n && is_word_char_exec(self.chars[j])
                invariant
                    i < j <= n,
                    n == self.chars@.len(),
                    r == self.chars@.skip(i as int),
                    forall|k: int| 0 <= k < j - i ==> is_word_char(#[trigger] r[k]),
                decreases n - j,
            {
                j = j + 1;
            }
            proof {
                lemma_span(r, |c: char| is_word_char(c), (j - i) as nat);
                assert(r.take((j - i) as int) =~= self.chars@.subrange(i as int, j as int));
            }
            let tok;
            if eq_ignore_case_at(&self.chars, i, j, &vec!['c', 'e', 'n', 't', 'e', 'r']) {
                tok = StyleToken::Center;
            } else if eq_ignore_case_at(&self.chars, i, j, &vec!['t', 'i', 'l', 'e']) {
                tok = StyleToken::Tile;
            } else if eq_ignore_case_at(&self.chars, i, j, &vec!['c', 'o', 'v', 'e', 'r']) {
                tok = StyleToken::Cover;
            } else if eq_ignore_case_at(&self.chars, i, j, &vec!['c', 'o', 'n', 't', 'a', 'i', 'n']) {
                tok = StyleToken::Contain;
            } else if eq_ignore_case_at(
                &self.chars,
                i,
                j,
                &vec!['s', 'h', 'r', 'i', 'n', 'k', '-', 't', 'o', '-', 'f', 'i', 't'],
            ) || eq_ignore_case_at(
                &self.chars,
                i,
                j,
                &vec!['s', 'h', 'r', 'i', 'n', 'k', 't', 'o', 'f', 'i', 't'],
            ) {
                tok = StyleToken::ShrinkToFit;
            } else if eq_ignore_case_at(&self.chars, i, j, &vec!['p', 'o', 's', 'i', 't', 'i', 'o', 'n']) {
                tok = StyleToken::Position;
            } else {
                self.err = true;
                return Some(Err(StyleParseError()));
            }
            self.pos = j;
            proof { self.lemma_lex_step(s, origin, tok, ws + (j - i) as nat); }
            return Some(Ok(tok));
        }
        let mut k = i;
        let negative = c == '-';
        if c == '+' || c == '-' {
            k = k + 1;
        }
        let ghost d = r.skip((k - i) as int);
        assert(d =~= self.chars@.skip(k as int));
        let mut value: i32 = 0;
        let mut m = k;
        while m < n && '0' <= self.chars[m] && self.chars[m] <= '9'
            invariant
                k <= m <= n,
                i <= k,
                origin <= i,
                self.pos == origin,
                s == self.chars@.skip(origin as int),
                r == s.skip(ws as int),
                r == self.chars@.skip(i as int),
                ws == i - origin,
                r[0] == c,
                !(c == '/' || c == '*' || is_ascii_alpha(c)),
                k == i + (if c == '+' || c == '-' { 1int } else { 0int }),
                negative == (c == '-'),
                span(s, |c: char| is_ws(c)) == ws,
                ws < s.len(),
                old(self).pending() == lex(s),
                self.chars@ == old(self).chars@,
                !self.err,
                n == self.chars@.len(),
                0 <= value,
                d == self.chars@.skip(k as int),
                forall|q: int| 0 <= q < m - k ==> is_digit(#[trigger] d[q]),
                value as nat == dec_value(d.take(m - k)),
            decreases n - m,
        {
            let ch = self.chars[m];
            let digit: i32 = (ch as u32 - '0' as u32) as i32;
            assert(d.take(m - k + 1).drop_last() =~= d.take(m - k));
            assert(d.take(m - k + 1).last() == ch);
            if value > i32::MAX / 10 || value * 10 > i32::MAX - digit {
                proof {
                    let t = m - k + 1;
                    assert(dec_value(d.take(t)) == dec_value(d.take(m - k)) * 10 + crate::lex::digit_value(ch));
                    assert(dec_value(d.take(t)) > i32::MAX);
                    let full = span(d, |c: char| is_digit(c));
                    lemma_span_le(d, |c: char| is_digit(c));
                    assert(full >= t) by {
                        lemma_span_at_least(d, |c: char| is_digit(c), t as nat);
                    }
                    lemma_dec_value_grows(d.take(full as int), t as nat);
                    assert(d.take(full as int).take(t) =~= d.take(t));
                    assert(dec_value(d.take(full as int)) > i32::MAX);
                    assert(r.skip(k - i) == d);
                }
                assert(next_token(s) == Scan::Bad);
                assert(lex(s) == (Seq::<StyleToken>::empty(), true));
                self.err = true;
                return Some(Err(StyleParseError()));
            }
            value = value * 10 + digit;
            m = m + 1;
        }
        proof {
            lemma_span(d, |c: char| is_digit(c), (m - k) as nat);
        }
        if m == k {
            self.err = true;
            return Some(Err(StyleParseError()));
        }
        let v = if negative { -value } else { value };
        self.pos = m;
        proof {
            self.lemma_lex_step(s, origin, StyleToken::Int(v), ws + (m - i) as nat);
        }
        Some(Ok(StyleToken::Int(v)))
    }

    /// After taking `n` characters of `s` for token `t`, what is pending is
    /// the rest of what was.
    proof fn lemma_lex_step(&self, s: Seq<char>, origin: nat, t: StyleToken, n: nat)
        requires
            next_token(s) == Scan::Token(t, n),
            1 <= n <= s.len(),
            !self.err,
            origin <= self.chars@.len(),
            s == self.chars@.skip(origin as int),
            self.pos == origin + n,
        ensures
            lex(s).0.len() > 0,
            lex(s).0[0] == t,
            self.pending() == (lex(s).0.drop_first(), lex(s).1),
    {
        assert(self.chars@.skip(self.pos as int) =~= s.skip(n as int));
        let rest = lex(s.skip(n as int));
        assert((seq![t] + rest.0).drop_first() =~= rest.0);
    }
}

/// `span` is at least `t` when the first `t` characters satisfy `p`.
proof fn lemma_span_at_least(s: Seq<char>, p: spec_fn(char) -> bool, t: nat)
    requires
        t <= s.len(),
        forall|k: int| 0 <= k < t ==> p(#[trigger] s[k]),
    ensures
        span(s, p) >= t,
    decreases t,
{
    if t > 0 {
        let u = s.drop_first();
        assert forall|k: int| 0 <= k < t - 1 implies p(#[trigger] u[k]) by {
            assert(u[k] == s[k + 1]);
        }
        lemma_span_at_least(u, p, (t - 1) as nat);
    }
}

/// The x or y of a position: `*` (centred) or an integer.
pub open spec fn coord(t: StyleToken) -> Option<Option<i32>> {
    match t {
        StyleToken::Asterisk => Some(None),
        StyleToken::Int(v) => Some(Some(v)),
        _ => None,
    }
}

/// The size part of a position.
pub open spec fn size_of(ts: Seq<StyleToken>) -> Option<Size> {
    if ts.len() == 0 {
        Some(Size::Scale(1))
    } else if ts.len() == 1 {
        match ts[0] {
            StyleToken::Int(z) => if z >= 1 { Some(Size::Scale(z)) } else { None },
            _ => None,
        }
    } else if ts.len() == 2 {
        match (ts[0], ts[1]) {
            (StyleToken::Asterisk, StyleToken::Asterisk) => Some(Size::Scale(1)),
            (StyleToken::Asterisk, StyleToken::Int(h)) => if h >= 0 {
                Some(Size::Height(h as u32))
            } else {
                None
            },
            (StyleToken::Int(w), StyleToken::Asterisk) => if w >= 0 {
                Some(Size::Width(w as u32))
            } else {
                None
            },
            (StyleToken::Int(w), StyleToken::Int(h)) => if w >= 0 && h >= 0 {
                Some(Size::Exact(w as u32, h as u32))
            } else {
                None
            },
            _ => None,
        }
    } else if ts.len() == 3 {
        match (ts[0], ts[1], ts[2]) {
            (StyleToken::Int(1), StyleToken::Slash, StyleToken::Int(d)) => if d >= 1 {
                Some(Size::Scale((-d) as i32))
            } else {
                None
            },
            _ => None,
        }
    } else {
        None
    }
}

/// A position whose x is given, from the tokens that follow x.
pub open spec fn position_of(x: Option<i32>, ts: Seq<StyleToken>) -> Option<Style> {
    if ts.len() >= 1 && coord(ts[0]) is Some && size_of(ts.skip(1)) is Some {
        Some(Style::Position(x, coord(ts[0])->0, size_of(ts.skip(1))->0))
    } else {
        None
    }
}

pub open spec fn simple(t: StyleToken) -> Option<Style> {
    match t {
        StyleToken::Center => Some(Style::Center),
        StyleToken::Tile => Some(Style::Tile),
        StyleToken::Cover => Some(Style::Cover),
        StyleToken::Contain => Some(Style::Contain),
        StyleToken::ShrinkToFit => Some(Style::ShrinkToFit),
        _ => None,
    }
}

/// The style that a whole token sequence spells.
pub open spec fn grammar(ts: Seq<StyleToken>) -> Option<Style> {
    if ts.len() == 0 {
        None
    } else if simple(ts[0]) is Some {
        if ts.len() == 1 { simple(ts[0]) } else { None }
    } else {
        match ts[0] {
            StyleToken::Position => if ts.len() >= 2 && coord(ts[1]) is Some {
                position_of(coord(ts[1])->0, ts.skip(2))
            } else {
                None
            },
            StyleToken::Int(x) => position_of(Some(x), ts.skip(1)),
            StyleToken::Asterisk => position_of(None, ts.skip(1)),
            _ => None,
        }
    }
}

/// The style that the text `s` spells, if any.
pub open spec fn style_of(s: Seq<char>) -> Option<Style> {
    let (ts, bad) = lex(s);
    if bad { None } else { grammar(ts) }
}

pub open spec fn as_result(o: Option<Style>) -> Result<Style, StyleParseError> {
    match o {
        Some(st) => Ok(st),
        None => Err(StyleParseError()),
    }
}

impl StyleToken {
    pub fn expect_int(&self) -> (r: Result<i32, StyleParseError>)
        ensures
            r == (match *self {
                StyleToken::Int(v) => Ok::<i32, StyleParseError>(v),
                _ => Err(StyleParseError()),
            }),
    {
        match self {
            StyleToken::Int(value) => Ok(*value),
            _ => Err(StyleParseError()),
        }
    }
}

impl StyleTokenizer {
    /// Succeeds when no token is left.
    pub fn expect_end(&mut self) -> (r: Result<(), StyleParseError>)
        requires
            old(self).wf(),
        ensures
            final(self).wf(),
            r is Ok <==> old(self).pending().0.len() == 0 && !old(self).pending().1,
            r is Err ==> r == Err::<(), StyleParseError>(StyleParseError()),
            old(self).pending().0.len() > 0 ==> final(self).pending() == (
                old(self).pending().0.drop_first(),
                old(self).pending().1,
            ),
            old(self).pending().0.len() == 0 ==> final(self).pending() == old(self).pending(),
    {
        let None = self.next() else {
            return Err(StyleParseError());
        };
        Ok(())
    }

    /// The next token, which must be an integer.
    pub fn expect_int(&mut self) -> (r: Result<i32, StyleParseError>)
        requires
            old(self).wf(),
        ensures
            final(self).wf(),
            ({
                let (ts, bad) = old(self).pending();
                &&& ts.len() > 0 ==> final(self).pending() == (ts.drop_first(), bad)
                &&& r == (if ts.len() > 0 && ts[0] is Int {
                    Ok::<i32, StyleParseError>(ts[0]->Int_0)
                } else {
                    Err(StyleParseError())
                })
            }),
    {
        let Some(token) = self.next() else {
            return Err(StyleParseError());
        };
        let token = match token {
            Ok(t) => t,
            Err(e) => return Err(e),
        };
        match token {
            StyleToken::Int(value) => Ok(value),
            _ => Err(StyleParseError()),
        }
    }

    /// The next token, which must be an integer or `*` (`None`).
    pub fn expect_int_or_asterisk(&mut self) -> (r: Result<Option<i32>, StyleParseError>)
        requires
            old(self).wf(),
        ensures
            final(self).wf(),
            ({
                let (ts, bad) = old(self).pending();
                &&& ts.len() > 0 ==> final(self).pending() == (ts.drop_first(), bad)
                &&& r == (if ts.len() > 0 && coord(ts[0]) is Some {
                    Ok::<Option<i32>, StyleParseError>(coord(ts[0])->0)
                } else {
                    Err(StyleParseError())
                })
            }),
    {
        let Some(token) = self.next() else {
            return Err(StyleParseError());
        };
        let token = match token {
            Ok(t) => t,
            Err(e) => return Err(e),
        };
        match token {
            StyleToken::Asterisk => Ok(None),
            StyleToken::Int(value) => Ok(Some(value)),
            _ => Err(StyleParseError()),
        }
    }
}

/// Parses what follows x in a position: y and the optional size.
pub fn parse_position_rest(x: Option<i32>, tokenizer: StyleTokenizer) -> (r: Result<Style, StyleParseError>)
    requires
        tokenizer.wf(),
    ensures
        r == as_result(
            if tokenizer.pending().1 { None } else { position_of(x, tokenizer.pending().0) },
        ),
{
    let mut tokenizer = tokenizer;
    let ghost ts = tokenizer.pending().0;
    let ghost bad = tokenizer.pending().1;
    let y = match tokenizer.expect_int_or_asterisk() {
        Ok(y) => y,
        Err(e) => return Err(e),
    };
    let ghost rest = ts.skip(1);
    assert(ts.drop_first() =~= rest);
    let Some(token1) = tokenizer.next() else {
        return Ok(Style::Position(x, y, Size::Scale(1)));
    };
    let token1 = match token1 {
        Ok(t) => t,
        Err(e) => return Err(e),
    };
    assert(rest.drop_first() =~= ts.skip(2));
    let Some(token2) = tokenizer.next() else {
        let z = match token1.expect_int() {
            Ok(z) => z,
            Err(e) => return Err(e),
        };
        if z < 1 {
            return Err(StyleParseError());
        }
        assert(rest =~= seq![token1]);
        return Ok(Style::Position(x, y, Size::Scale(z)));
    };
    let token2 = match token2 {
        Ok(t) => t,
        Err(e) => return Err(e),
    };
    assert(ts.skip(2).drop_first() =~= ts.skip(3));
    match (token1, token2) {
        (StyleToken::Asterisk, StyleToken::Asterisk) => {
            match tokenizer.expect_end() {
                Ok(()) => {},
                Err(e) => return Err(e),
            }
            assert(rest =~= seq![token1, token2]);
            Ok(Style::Position(x, y, Size::Scale(1)))
        },
        (StyleToken::Asterisk, StyleToken::Int(h)) => {
            if h < 0 {
                return Err(StyleParseError());
            }
            match tokenizer.expect_end() {
                Ok(()) => {},
                Err(e) => return Err(e),
            }
            assert(rest =~= seq![token1, token2]);
            Ok(Style::Position(x, y, Size::Height(h as u32)))
        },
        (StyleToken::Int(w), StyleToken::Asterisk) => {
            if w < 0 {
                return Err(StyleParseError());
            }
            match tokenizer.expect_end() {
                Ok(()) => {},
                Err(e) => return Err(e),
            }
            assert(rest =~= seq![token1, token2]);
            Ok(Style::Position(x, y, Size::Width(w as u32)))
        },
        (StyleToken::Int(w), StyleToken::Int(h)) => {
            if w < 0 || h < 0 {
                return Err(StyleParseError());
            }
            match tokenizer.expect_end() {
                Ok(()) => {},
                Err(e) => return Err(e),
            }
            assert(rest =~= seq![token1, token2]);
            Ok(Style::Position(x, y, Size::Exact(w as u32, h as u32)))
        },
        (StyleToken::Int(1), StyleToken::Slash) => {
            let divisor = match tokenizer.expect_int() {
                Ok(d) => d,
                Err(e) => return Err(e),
            };
            if divisor < 1 {
                return Err(StyleParseError());
            }
            match tokenizer.expect_end() {
                Ok(()) => {},
                Err(e) => return Err(e),
            }
            assert(ts.skip(3).drop_first() =~= ts.skip(4));
            assert(rest =~= seq![token1, token2, StyleToken::Int(divisor)]);
            Ok(Style::Position(x, y, Size::Scale(-divisor)))
        },
        _ => Err(StyleParseError()),
    }
}

impl Style {
    /// Parses a style text.
    pub fn parse(value: &str) -> (r: Result<Style, StyleParseError>)
        ensures
            r == as_result(style_of(value@)),
    {
        let mut tokenizer = StyleTokenizer::new(value);
        let ghost ts = tokenizer.pending().0;
        let Some(token) = tokenizer.next() else {
            return Err(StyleParseError());
        };
        let token = match token {
            Ok(t) => t,
            Err(e) => return Err(e),
        };
        assert(ts.drop_first() =~= ts.skip(1));
        match token {
            StyleToken::Center | StyleToken::Contain | StyleToken::Cover | StyleToken::Tile
            | StyleToken::ShrinkToFit => {
                match tokenizer.expect_end() {
                    Ok(()) => {},
                    Err(e) => return Err(e),
                }
                match token {
                    StyleToken::Center => Ok(Style::Center),
                    StyleToken::Contain => Ok(Style::Contain),
                    StyleToken::Cover => Ok(Style::Cover),
                    StyleToken::Tile => Ok(Style::Tile),
                    _ => Ok(Style::ShrinkToFit),
                }
            },
            StyleToken::Position => {
                let x = match tokenizer.expect_int_or_asterisk() {
                    Ok(x) => x,
                    Err(e) => return Err(e),
                };
                assert(ts.skip(1).drop_first() =~= ts.skip(2));
                parse_position_rest(x, tokenizer)
            },
            StyleToken::Int(x) => parse_position_rest(Some(x), tokenizer),
            StyleToken::Asterisk => parse_position_rest(None, tokenizer),
            _ => Err(StyleParseError()),
        }
    }
}

/// The decimal text of an integer, with `-` when negative.
pub open spec fn int_text(v: int) -> Seq<char> {
    if v < 0 { seq!['-'] + dec((-v) as nat) } else { dec(v as nat) }
}

pub open spec fn coord_text(c: Option<i32>) -> Seq<char> {
    match c {
        Some(v) => int_text(v as int),
        None => seq!['*'],
    }
}

pub open spec fn size_text(size: Size) -> Seq<char> {
    match size {
        Size::Scale(z) => if z < 0 {
            seq![' ', '1', '/'] + int_text(-(z as int))
        } else {
            seq![' '] + int_text(z as int)
        },
        Size::Exact(w, h) => seq![' '] + dec(w as nat) + seq![' '] + dec(h as nat),
        Size::Width(w) => seq![' '] + dec(w as nat) + seq![' ', '*'],
        Size::Height(h) => seq![' ', '*', ' '] + dec(h as nat),
    }
}

/// The canonical text of a style.
pub open spec fn display(st: Style) -> Seq<char> {
    match st {
        Style::Center => kw_center(),
        Style::Tile => kw_tile(),
        Style::Cover => kw_cover(),
        Style::Contain => kw_contain(),
        Style::ShrinkToFit => kw_shrink_to_fit(),
        Style::Position(x, y, size) => coord_text(x) + seq![' '] + coord_text(y) + size_text(size),
    }
}

fn push_int(out: &mut String, v: i64)
    requires
        -0xffff_ffff <= v <= 0xffff_ffff,
    ensures
        final(out)@ == old(out)@ + int_text(v as int),
{
    if v < 0 {
        out.push('-');
        push_dec(out, (-v) as u32);
    } else {
        push_dec(out, v as u32);
    }
    assert(final(out)@ =~= old(out)@ + int_text(v as int));
}

fn push_coord(out: &mut String, c: Option<i32>)
    ensures
        final(out)@ == old(out)@ + coord_text(c),
{
    match c {
        Some(v) => push_int(out, v as i64),
        None => {
            out.push('*');
            assert(final(out)@ =~= old(out)@ + coord_text(c));
        },
    }
}

impl Style {
    /// The style's canonical text, which `parse` reads back.
    pub fn to_string(&self) -> (r: String)
        ensures
            r@ == display(*self),
    {
        proof {
            reveal_strlit("center");
            reveal_strlit("tile");
            reveal_strlit("cover");
            reveal_strlit("contain");
            reveal_strlit("shrink-to-fit");
        }
        match *self {
            Style::Center => "center".to_owned(),
            Style::Tile => "tile".to_owned(),
            Style::Cover => "cover".to_owned(),
            Style::Contain => "contain".to_owned(),
            Style::ShrinkToFit => "shrink-to-fit".to_owned(),
            Style::Position(x, y, size) => {
                let mut out = String::new();
                push_coord(&mut out, x);
                out.push(' ');
                push_coord(&mut out, y);
                let ghost head = out@;
                match size {
                    Size::Scale(z) => {
                        if z < 0 {
                            out.push(' ');
                            out.push('1');
                            out.push('/');
                            push_int(&mut out, -(z as i64));
                        } else {
                            out.push(' ');
                            push_int(&mut out, z as i64);
                        }
                    },
                    Size::Exact(w, h) => {
                        out.push(' ');
                        push_dec(&mut out, w);
                        out.push(' ');
                        push_dec(&mut out, h);
                    },
                    Size::Width(w) => {
                        out.push(' ');
                        push_dec(&mut out, w);
                        out.push(' ');
                        out.push('*');
                    },
                    Size::Height(h) => {
                        out.push(' ');
                        out.push('*');
                        out.push(' ');
                        push_dec(&mut out, h);
                    },
                }
                assert(out@ =~= head + size_text(size));
                assert(out@ =~= display(*self));
                out
            },
        }
    }
}

proof fn lemma_digit_char(d: nat)
    requires
        d < 10,
    ensures
        is_digit(digit_char(d)),
        crate::lex::digit_value(digit_char(d)) == d,
{
    if d == 0 { assert('0' as u32 == 48); }
    else if d == 1 { assert('1' as u32 == 49); }
    else if d == 2 { assert('2' as u32 == 50); }
    else if d == 3 { assert('3' as u32 == 51); }
    else if d == 4 { assert('4' as u32 == 52); }
    else if d == 5 { assert('5' as u32 == 53); }
    else if d == 6 { assert('6' as u32 == 54); }
    else if d == 7 { assert('7' as u32 == 55); }
    else if d == 8 { assert('8' as u32 == 56); }
    else { assert('9' as u32 == 57); }
}

/// Decimal text is non-empty, all digits, and spells its number.
pub proof fn lemma_dec_text(n: nat)
    ensures
        dec(n).len() >= 1,
        forall|i: int| 0 <= i < dec(n).len() ==> is_digit(#[trigger] dec(n)[i]),
        dec_value(dec(n)) == n,
    decreases n,
{
    lemma_digit_char(n % 10);
    if n < 10 {
        assert(dec(n).drop_last() =~= Seq::<char>::empty());
        assert(dec(n).last() == digit_char(n));
        assert(dec_value(Seq::<char>::empty()) == 0);
        assert(dec_value(dec(n)) == 0 * 10 + crate::lex::digit_value(digit_char(n)));
    } else {
        lemma_dec_text(n / 10);
        let t = dec(n / 10);
        let c = digit_char(n % 10);
        assert(dec(n) == t.push(c));
        assert(t.push(c).drop_last() =~= t);
        assert(t.push(c).last() == c);
        assert(dec_value(dec(n)) == dec_value(t) * 10 + crate::lex::digit_value(c));
        assert(n == (n / 10) * 10 + n % 10);
        assert forall|i: int| 0 <= i < dec(n).len() implies is_digit(#[trigger] dec(n)[i]) by {
            if i < t.len() {
                assert(dec(n)[i] == t[i]);
            }
        }
    }
}

/// Leading whitespace does not change the tokens.
proof fn lemma_lex_space(t: Seq<char>)
    ensures
        lex(seq![' '] + t) == lex(t),
{
    let s = seq![' '] + t;
    assert(s.drop_first() =~= t);
    let i = span(t, |c: char| is_ws(c));
    assert(span(s, |c: char| is_ws(c)) == i + 1);
    crate::lex::lemma_span_le(t, |c: char| is_ws(c));
    assert(s.skip(i as int + 1) =~= t.skip(i as int));
    match next_token(t) {
        Scan::Token(tok, n) => {
            if 1 <= n <= t.len() {
                assert(s.skip(n as int + 1) =~= t.skip(n as int));
            }
        },
        _ => {},
    }
}

/// A one-character token followed by other text.
proof fn lemma_lex_mark(c: char, rest: Seq<char>)
    requires
        c == '*' || c == '/',
    ensures
        lex(seq![c] + rest) == (
            seq![if c == '*' { StyleToken::Asterisk } else { StyleToken::Slash }] + lex(rest).0,
            lex(rest).1,
        ),
{
    let s = seq![c] + rest;
    assert(span(s, |c: char| is_ws(c)) == 0);
    assert(s.skip(0) =~= s);
    assert(s.skip(1) =~= rest);
}

/// An integer's text, followed by a space, a slash or nothing, is one token.
proof fn lemma_lex_int(v: int, rest: Seq<char>)
    requires
        -i32::MAX <= v <= i32::MAX,
        rest.len() == 0 || rest[0] == ' ' || rest[0] == '/',
    ensures
        lex(int_text(v) + rest) == (seq![StyleToken::Int(v as i32)] + lex(rest).0, lex(rest).1),
{
    let a: nat = if v < 0 { (-v) as nat } else { v as nat };
    lemma_dec_text(a);
    let s = int_text(v) + rest;
    let j: nat = if v < 0 { 1 } else { 0 };
    assert(s[0] == int_text(v)[0]);
    assert(span(s, |c: char| is_ws(c)) == 0);
    assert(s.skip(0) =~= s);
    let d = s.skip(j as int);
    assert(d =~= dec(a) + rest);
    assert forall|k: int| 0 <= k < dec(a).len() implies is_digit(#[trigger] d[k]) by {
        assert(d[k] == dec(a)[k]);
    }
    if rest.len() > 0 {
        assert(d[dec(a).len() as int] == rest[0]);
    }
    lemma_span(d, |c: char| is_digit(c), dec(a).len());
    assert(d.take(dec(a).len() as int) =~= dec(a));
    assert(s.skip((j + dec(a).len()) as int) =~= rest);
}

pub open spec fn coord_ok(c: Option<i32>) -> bool {
    match c {
        Some(v) => v != i32::MIN,
        None => true,
    }
}

/// The styles that parsing can produce: integers other than `i32::MIN`, a
/// non-zero zoom, and derived or exact sides that fit an `i32`.
pub open spec fn displayable(st: Style) -> bool {
    match st {
        Style::Position(x, y, size) => coord_ok(x) && coord_ok(y) && match size {
            Size::Scale(z) => z != 0 && z != i32::MIN,
            Size::Width(w) => w <= i32::MAX,
            Size::Height(h) => h <= i32::MAX,
            Size::Exact(w, h) => w <= i32::MAX && h <= i32::MAX,
        },
        _ => true,
    }
}

pub open spec fn coord_token(c: Option<i32>) -> StyleToken {
    match c {
        Some(v) => StyleToken::Int(v),
        None => StyleToken::Asterisk,
    }
}

proof fn lemma_lex_coord(c: Option<i32>, rest: Seq<char>)
    requires
        coord_ok(c),
        rest.len() == 0 || rest[0] == ' ',
    ensures
        lex(coord_text(c) + rest) == (seq![coord_token(c)] + lex(rest).0, lex(rest).1),
{
    match c {
        Some(v) => lemma_lex_int(v as int, rest),
        None => lemma_lex_mark('*', rest),
    }
}

proof fn lemma_lex_word(w: Seq<char>, t: StyleToken)
    requires
        keyword(w) == Some(t),
        w.len() > 0,
        is_ascii_alpha(w[0]),
        forall|k: int| 0 <= k < w.len() ==> is_word_char(#[trigger] w[k]),
    ensures
        lex(w) == (seq![t], false),
{
    assert(span(w, |c: char| is_ws(c)) == 0);
    assert(w.skip(0) =~= w);
    lemma_span(w, |c: char| is_word_char(c), w.len());
    assert(w.take(w.len() as int) =~= w);
    assert(w.skip(w.len() as int) =~= Seq::<char>::empty());
    assert(span(Seq::<char>::empty(), |c: char| is_ws(c)) == 0);
    assert(next_token(Seq::<char>::empty()) == Scan::End);
    assert(lex(Seq::<char>::empty()) == (Seq::<StyleToken>::empty(), false));
    assert(next_token(w) == Scan::Token(t, w.len()));
    assert(seq![t] + Seq::<StyleToken>::empty() =~= seq![t]);
}

proof fn lemma_lex_empty()
    ensures
        lex(Seq::<char>::empty()) == (Seq::<StyleToken>::empty(), false),
{
    assert(span(Seq::<char>::empty(), |c: char| is_ws(c)) == 0);
}

proof fn lemma_lex_scale(z: i32)
    requires
        z != 0,
        z != i32::MIN,
    ensures
        lex(size_text(Size::Scale(z))).1 == false,
        size_of(lex(size_text(Size::Scale(z))).0) == Some(Size::Scale(z)),
{
    let e = Seq::<char>::empty();
    lemma_lex_empty();
    let text = size_text(Size::Scale(z));
    if z < 0 {
        let m = -(z as int);
        lemma_lex_int(m, e);
        assert(int_text(m) + e =~= int_text(m));
        lemma_lex_mark('/', int_text(m));
        assert(int_text(1) =~= seq!['1']) by {
            assert(dec(1) == seq!['1']);
        }
        lemma_lex_int(1, seq!['/'] + int_text(m));
        lemma_lex_space(seq!['1'] + (seq!['/'] + int_text(m)));
        assert(text =~= seq![' '] + (seq!['1'] + (seq!['/'] + int_text(m))));
        assert(lex(text).0 =~= seq![StyleToken::Int(1), StyleToken::Slash, StyleToken::Int(m as i32)]);
    } else {
        lemma_lex_int(z as int, e);
        assert(int_text(z as int) + e =~= int_text(z as int));
        lemma_lex_space(int_text(z as int));
        assert(lex(text).0 =~= seq![StyleToken::Int(z)]);
    }
}

proof fn lemma_lex_exact(w: u32, h: u32)
    requires
        w <= i32::MAX,
        h <= i32::MAX,
    ensures
        lex(size_text(Size::Exact(w, h))).1 == false,
        size_of(lex(size_text(Size::Exact(w, h))).0) == Some(Size::Exact(w, h)),
{
    let e = Seq::<char>::empty();
    lemma_lex_empty();
    assert(int_text(w as int) == dec(w as nat));
    assert(int_text(h as int) == dec(h as nat));
    lemma_lex_int(h as int, e);
    assert(dec(h as nat) + e =~= dec(h as nat));
    lemma_lex_space(dec(h as nat));
    lemma_lex_int(w as int, seq![' '] + dec(h as nat));
    lemma_lex_space(dec(w as nat) + (seq![' '] + dec(h as nat)));
    let text = size_text(Size::Exact(w, h));
    assert(text =~= seq![' '] + (dec(w as nat) + (seq![' '] + dec(h as nat))));
    assert(lex(text).0 =~= seq![StyleToken::Int(w as i32), StyleToken::Int(h as i32)]);
}

proof fn lemma_lex_width(w: u32)
    requires
        w <= i32::MAX,
    ensures
        lex(size_text(Size::Width(w))).1 == false,
        size_of(lex(size_text(Size::Width(w))).0) == Some(Size::Width(w)),
{
    let e = Seq::<char>::empty();
    lemma_lex_empty();
    assert(int_text(w as int) == dec(w as nat));
    lemma_lex_mark('*', e);
    assert(seq!['*'] + e =~= seq!['*']);
    lemma_lex_space(seq!['*']);
    assert(seq![' ', '*'] =~= seq![' '] + seq!['*']);
    lemma_lex_int(w as int, seq![' ', '*']);
    lemma_lex_space(dec(w as nat) + seq![' ', '*']);
    let text = size_text(Size::Width(w));
    assert(text =~= seq![' '] + (dec(w as nat) + seq![' ', '*']));
    assert(lex(text).0 =~= seq![StyleToken::Int(w as i32), StyleToken::Asterisk]);
}

proof fn lemma_lex_height(h: u32)
    requires
        h <= i32::MAX,
    ensures
        lex(size_text(Size::Height(h))).1 == false,
        size_of(lex(size_text(Size::Height(h))).0) == Some(Size::Height(h)),
{
    let e = Seq::<char>::empty();
    lemma_lex_empty();
    assert(int_text(h as int) == dec(h as nat));
    lemma_lex_int(h as int, e);
    assert(dec(h as nat) + e =~= dec(h as nat));
    lemma_lex_space(dec(h as nat));
    lemma_lex_mark('*', seq![' '] + dec(h as nat));
    lemma_lex_space(seq!['*'] + (seq![' '] + dec(h as nat)));
    let text = size_text(Size::Height(h));
    assert(text =~= seq![' '] + (seq!['*'] + (seq![' '] + dec(h as nat))));
    assert(lex(text).0 =~= seq![StyleToken::Asterisk, StyleToken::Int(h as i32)]);
}

/// The tokens of a size's text.
proof fn lemma_lex_size(size: Size)
    requires
        displayable(Style::Position(None, None, size)),
    ensures
        lex(size_text(size)).1 == false,
        size_of(lex(size_text(size)).0) == Some(size),
{
    match size {
        Size::Scale(z) => lemma_lex_scale(z),
        Size::Exact(w, h) => lemma_lex_exact(w, h),
        Size::Width(w) => lemma_lex_width(w),
        Size::Height(h) => lemma_lex_height(h),
    }
}

#[verifier::spinoff_prover]
#[verifier::rlimit(100)]
proof fn lemma_parse_display_position(x: Option<i32>, y: Option<i32>, size: Size)
    requires
        displayable(Style::Position(x, y, size)),
    ensures
        style_of(display(Style::Position(x, y, size))) == Some(Style::Position(x, y, size)),
{
    let st = Style::Position(x, y, size);
    let st_text = size_text(size);
    lemma_lex_size(size);
    assert(st_text[0] == ' ');
    lemma_lex_coord(y, st_text);
    lemma_lex_space(coord_text(y) + st_text);
    lemma_lex_coord(x, seq![' '] + (coord_text(y) + st_text));
    assert(display(st) =~= coord_text(x) + (seq![' '] + (coord_text(y) + st_text)));
    let ts = lex(display(st)).0;
    let sz = lex(st_text).0;
    assert(ts =~= seq![coord_token(x), coord_token(y)] + sz);
    let rest = ts.skip(1);
    assert(rest =~= seq![coord_token(y)] + sz);
    assert(rest.skip(1) =~= sz);
    assert(coord(ts[0]) == Some(x));
    assert(coord(rest[0]) == Some(y));
    assert(position_of(x, rest) == Some(st));
    assert(simple(ts[0]) is None);
    assert(grammar(ts) == Some(st));
}

/// Parsing a style's canonical text gives the style back, for every style
/// that parsing can produce.
pub proof fn lemma_parse_display(st: Style)
    requires
        displayable(st),
    ensures
        style_of(display(st)) == Some(st),
{
    match st {
        Style::Center => lemma_lex_word(kw_center(), StyleToken::Center),
        Style::Tile => lemma_lex_word(kw_tile(), StyleToken::Tile),
        Style::Cover => lemma_lex_word(kw_cover(), StyleToken::Cover),
        Style::Contain => lemma_lex_word(kw_contain(), StyleToken::Contain),
        Style::ShrinkToFit => lemma_lex_word(kw_shrink_to_fit(), StyleToken::ShrinkToFit),
        Style::Position(x, y, size) => lemma_parse_display_position(x, y, size),
    }
}

pub open spec fn int_ok(t: StyleToken) -> bool {
    t matches StyleToken::Int(v) ==> v != i32::MIN
}

/// No integer token is `i32::MIN`: the digits' value is at most `i32::MAX`.
proof fn lemma_lex_ints(s: Seq<char>)
    ensures
        forall|i: int| 0 <= i < lex(s).0.len() ==> int_ok(#[trigger] lex(s).0[i]),
    decreases s.len(),
{
    match next_token(s) {
        Scan::Token(t, n) => {
            if 1 <= n <= s.len() {
                lemma_lex_ints(s.skip(n as int));
                let rest = lex(s.skip(n as int)).0;
                assert forall|i: int| 0 <= i < lex(s).0.len() implies int_ok(#[trigger] lex(s).0[i]) by {
                    if i > 0 {
                        assert(lex(s).0[i] == rest[i - 1]);
                    }
                }
            }
        },
        _ => {},
    }
}

/// Every style that a text parses to has a canonical text that parses back to it.
pub proof fn lemma_parsed_style_round_trips(s: Seq<char>)
    requires
        style_of(s) is Some,
    ensures
        displayable(style_of(s)->0),
        style_of(display(style_of(s)->0)) == style_of(s),
{
    let ts = lex(s).0;
    lemma_lex_ints(s);
    assert forall|i: int| 0 <= i < ts.len() && i < 6 implies int_ok(#[trigger] ts[i]) by {}
    lemma_parse_display(style_of(s)->0);
}

impl std::str::FromStr for Style {
    type Err = StyleParseError;

    /// Parses as `parse` does.
    fn from_str(value: &str) -> (r: Result<Style, StyleParseError>)
        ensures
            r == as_result(style_of(value@)),
    {
        Style::parse(value)
    }
}

} // verus!
