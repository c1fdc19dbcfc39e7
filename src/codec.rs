//! The differential half-block encoder.
//!
//! The output is specified as a sequence of tokens (`Tok`): cursor moves,
//! colour selections, resets and glyphs. `render` turns a token sequence into
//! the exact characters written, and `encode` gives the tokens that the
//! encoder emits for a (previous, current) frame pair.
use vstd::prelude::*;
use crate::pixel::{Frame, Rgb, Rgba, transparent_black};

verus! {

pub const UPPER_HALF: char = '\u{2580}';
pub const LOWER_HALF: char = '\u{2584}';
pub const FULL_BLOCK: char = '\u{2588}';
pub const ESC: char = '\u{1b}';

/// One unit of encoder output.
pub enum Tok {
    /// `CSI n <dir>` with `dir` one of `A` (up), `B` (down), `C` (right), `D` (left).
    Move(char, nat),
    /// `CSI 0 m`.
    Reset,
    /// `CSI 38;2;r;g;b m`.
    Fg(Rgba),
    /// `CSI 48;2;r;g;b m`.
    Bg(Rgba),
    /// A printed character: space or a block glyph.
    Glyph(char),
}

pub open spec fn digit_char(d: nat) -> char {
    if d == 0 { '0' }
    else if d == 1 { '1' }
    else if d == 2 { '2' }
    else if d == 3 { '3' }
    else if d == 4 { '4' }
    else if d == 5 { '5' }
    else if d == 6 { '6' }
    else if d == 7 { '7' }
    else if d == 8 { '8' }
    else { '9' }
}

/// The decimal digits of `n`, without leading zeros.
pub open spec fn dec(n: nat) -> Seq<char>
    decreases n,
{
    if n < 10 {
        seq![digit_char(n)]
    } else {
        dec(n / 10).push(digit_char(n % 10))
    }
}

pub open spec fn csi() -> Seq<char> {
    seq![ESC, '[']
}

pub open spec fn render_color(code: char, c: Rgba) -> Seq<char> {
    csi() + seq![code, '8', ';', '2', ';'] + dec(c.r as nat) + seq![';'] + dec(c.g as nat)
        + seq![';'] + dec(c.b as nat) + seq!['m']
}

pub open spec fn render_tok(t: Tok) -> Seq<char> {
    match t {
        Tok::Move(dir, n) => if n == 1 {
            csi().push(dir)
        } else {
            (csi() + dec(n)).push(dir)
        },
        Tok::Reset => csi() + seq!['0', 'm'],
        Tok::Fg(c) => render_color('3', c),
        Tok::Bg(c) => render_color('4', c),
        Tok::Glyph(ch) => seq![ch],
    }
}

/// The characters of a token sequence.
pub open spec fn render(toks: Seq<Tok>) -> Seq<char>
    decreases toks.len(),
{
    if toks.len() == 0 {
        Seq::empty()
    } else {
        render(toks.drop_last()) + render_tok(toks.last())
    }
}

pub open spec fn is_transparent(p: Rgba, thr: u8) -> bool {
    p.a < thr
}

/// A space, preceded by a reset unless both tracked colours are transparent.
pub open spec fn space_toks(fg: Rgba, bg: Rgba, thr: u8) -> Seq<Tok> {
    if is_transparent(bg, thr) && is_transparent(fg, thr) {
        seq![Tok::Glyph(' ')]
    } else {
        seq![Tok::Reset, Tok::Glyph(' ')]
    }
}

/// Tokens for a cell whose upper pixel is `t` and lower pixel `b`, given the
/// tracked colours `fg` and `bg`; with the tracked colours after it.
pub open spec fn paint_pair(t: Rgba, b: Rgba, fg: Rgba, bg: Rgba, thr: u8) -> (Seq<Tok>, Rgba, Rgba) {
    if t == b {
        if is_transparent(t, thr) {
            (space_toks(fg, bg, thr), t, t)
        } else {
            (seq![Tok::Fg(t), Tok::Glyph(FULL_BLOCK)], t, t)
        }
    } else if is_transparent(t, thr) && is_transparent(b, thr) {
        (space_toks(fg, bg, thr), t, b)
    } else if is_transparent(t, thr) {
        (seq![Tok::Reset, Tok::Fg(b), Tok::Glyph(LOWER_HALF)], b, t)
    } else if is_transparent(b, thr) {
        (seq![Tok::Reset, Tok::Fg(t), Tok::Glyph(UPPER_HALF)], t, b)
    } else if fg == b && bg == t {
        (seq![Tok::Glyph(LOWER_HALF)], fg, bg)
    } else if fg == t && bg == b {
        (seq![Tok::Glyph(UPPER_HALF)], fg, bg)
    } else if fg == b {
        (seq![Tok::Bg(t), Tok::Glyph(LOWER_HALF)], fg, t)
    } else if fg == t {
        (seq![Tok::Bg(b), Tok::Glyph(UPPER_HALF)], fg, b)
    } else if bg == t {
        (seq![Tok::Fg(b), Tok::Glyph(LOWER_HALF)], b, bg)
    } else if bg == b {
        (seq![Tok::Fg(t), Tok::Glyph(UPPER_HALF)], t, bg)
    } else {
        (seq![Tok::Bg(t), Tok::Fg(b), Tok::Glyph(LOWER_HALF)], b, t)
    }
}

/// Tokens for a cell of the lone last row (odd height), whose pixel is `c`,
/// given the tracked foreground `fg`.
pub open spec fn paint_single(c: Rgba, fg: Rgba, thr: u8) -> Seq<Tok> {
    if is_transparent(c, thr) {
        if is_transparent(fg, thr) {
            seq![Tok::Glyph(' ')]
        } else {
            seq![Tok::Reset, Tok::Glyph(' ')]
        }
    } else if c == fg {
        seq![Tok::Glyph(UPPER_HALF)]
    } else {
        seq![Tok::Fg(c), Tok::Glyph(UPPER_HALF)]
    }
}

/// Relative cursor moves from column `cx` of row `cy` to column `x` of row `y`:
/// horizontal first, then vertical.
pub open spec fn move_toks(cx: nat, cy: nat, x: nat, y: nat) -> Seq<Tok> {
    let h = if x > cx {
        seq![Tok::Move('C', (x - cx) as nat)]
    } else if x < cx {
        seq![Tok::Move('D', (cx - x) as nat)]
    } else {
        Seq::empty()
    };
    let v = if y > cy {
        seq![Tok::Move('B', (y - cy) as nat)]
    } else if y < cy {
        seq![Tok::Move('A', (cy - y) as nat)]
    } else {
        Seq::empty()
    };
    h + v
}

/// The encoder's state while scanning: tokens so far, the cursor, and the
/// tracked foreground and background colours.
pub struct EncState {
    pub toks: Seq<Tok>,
    pub cx: nat,
    pub cy: nat,
    pub fg: Rgba,
    pub bg: Rgba,
}

/// The inputs of one encoding.
pub struct EncJob {
    pub prev: Frame,
    pub cur: Frame,
    pub thr: u8,
    pub full_width: bool,
}

impl EncJob {
    pub open spec fn wf(self) -> bool {
        &&& self.prev.wf()
        &&& self.cur.wf()
        &&& self.prev.width == self.cur.width
        &&& self.prev.height == self.cur.height
    }

    pub open spec fn width(self) -> nat {
        self.cur.width as nat
    }

    /// Number of character rows: two pixel rows each, the last one possibly alone.
    pub open spec fn rows(self) -> nat {
        ((self.cur.height as nat + 1) / 2) as nat
    }

    /// Row `ly` holds a single pixel row.
    pub open spec fn is_single(self, ly: nat) -> bool {
        2 * ly + 1 == self.cur.height
    }

    /// The cell at column `x` of row `ly` differs from the previous frame.
    pub open spec fn changed(self, x: nat, ly: nat) -> bool {
        let y = 2 * ly;
        if self.is_single(ly) {
            self.cur.at(x as int, y as int) != self.prev.at(x as int, y as int)
        } else {
            self.cur.at(x as int, y as int) != self.prev.at(x as int, y as int)
                || self.cur.at(x as int, y as int + 1) != self.prev.at(x as int, y as int + 1)
        }
    }

    /// The tokens that paint the cell and the tracked colours after them.
    pub open spec fn paint(self, st: EncState, x: nat, ly: nat) -> (Seq<Tok>, Rgba, Rgba) {
        let y = 2 * ly;
        let t = self.cur.at(x as int, y as int);
        if self.is_single(ly) {
            (paint_single(t, st.fg, self.thr), t, st.bg)
        } else {
            paint_pair(t, self.cur.at(x as int, y as int + 1), st.fg, st.bg, self.thr)
        }
    }

    /// The cursor column after painting column `x`: a terminal that does not
    /// wrap leaves the cursor on its last column.
    pub open spec fn next_x(self, x: nat) -> nat {
        if self.full_width && x + 1 == self.width() {
            x
        } else {
            x + 1
        }
    }

    /// The state after visiting the cell at column `x` of row `ly`.
    pub open spec fn step(self, st: EncState, x: nat, ly: nat) -> EncState {
        if self.changed(x, ly) {
            let p = self.paint(st, x, ly);
            EncState {
                toks: st.toks + move_toks(st.cx, st.cy, x, ly) + p.0,
                cx: self.next_x(x),
                cy: ly,
                fg: p.1,
                bg: p.2,
            }
        } else {
            st
        }
    }

    /// The state after the cells `0..x` of row `ly`, the row starting from `st`.
    pub open spec fn row(self, st: EncState, ly: nat, x: nat) -> EncState
        decreases x,
    {
        if x == 0 {
            EncState { fg: transparent_black(), bg: transparent_black(), ..st }
        } else {
            self.step(self.row(st, ly, (x - 1) as nat), (x - 1) as nat, ly)
        }
    }

    /// The state after the whole row `ly`: a row that left the cursor on it
    /// ends with a reset.
    pub open spec fn end_row(self, st: EncState, ly: nat) -> EncState {
        let s = self.row(st, ly, self.width());
        if s.cy == ly {
            EncState { toks: s.toks.push(Tok::Reset), ..s }
        } else {
            s
        }
    }

    /// The state after the rows `0..k`.
    pub open spec fn rows_done(self, k: nat) -> EncState
        decreases k,
    {
        if k == 0 {
            EncState {
                toks: Seq::empty(),
                cx: 0,
                cy: 0,
                fg: transparent_black(),
                bg: transparent_black(),
            }
        } else {
            self.end_row(self.rows_done((k - 1) as nat), (k - 1) as nat)
        }
    }

    /// Moves that leave the cursor at the bottom right of the image area.
    pub open spec fn padding(self, st: EncState) -> Seq<Tok> {
        let h = if st.cx < self.width() {
            seq![Tok::Move('C', (self.width() - st.cx) as nat)]
        } else {
            Seq::empty()
        };
        let v = if st.cy + 1 < self.rows() {
            seq![Tok::Move('B', (self.rows() - 1 - st.cy) as nat)]
        } else {
            Seq::empty()
        };
        h + v
    }

    /// Every token the encoder emits: nothing for a frame with a zero side.
    pub open spec fn encode(self) -> Seq<Tok> {
        if self.rows() == 0 || self.width() == 0 {
            Seq::empty()
        } else {
            let s = self.rows_done(self.rows());
            s.toks + self.padding(s)
        }
    }
}

/// The exact text that the encoder writes for `prev` followed by `cur`.
pub open spec fn encoded(prev: Frame, cur: Frame, thr: u8, full_width: bool) -> Seq<char> {
    render(EncJob { prev, cur, thr, full_width }.encode())
}

pub proof fn lemma_render_push(toks: Seq<Tok>, t: Tok)
    ensures
        render(toks.push(t)) == render(toks) + render_tok(t),
{
    assert(toks.push(t).drop_last() =~= toks);
}

/// Rendering distributes over concatenation.
pub proof fn lemma_render_concat(a: Seq<Tok>, b: Seq<Tok>)
    ensures
        render(a + b) == render(a) + render(b),
    decreases b.len(),
{
    if b.len() == 0 {
        assert(a + b =~= a);
        assert(render(b) =~= Seq::<char>::empty());
        assert(render(a) + render(b) =~= render(a));
    } else {
        lemma_render_concat(a, b.drop_last());
        assert((a + b).drop_last() =~= a + b.drop_last());
        assert((a + b).last() == b.last());
        assert(render(a + b) =~= render(a) + render(b));
    }
}

proof fn lemma_render_small(a: Tok, b: Tok, c: Tok)
    ensures
        render(seq![a]) == render_tok(a),
        render(seq![a, b]) == render_tok(a) + render_tok(b),
        render(seq![a, b, c]) == render_tok(a) + render_tok(b) + render_tok(c),
{
    lemma_render_push(Seq::empty(), a);
    assert(Seq::<Tok>::empty().push(a) =~= seq![a]);
    assert(render(Seq::<Tok>::empty()) =~= Seq::<char>::empty());
    assert(render(seq![a]) =~= render_tok(a));
    lemma_render_push(seq![a], b);
    assert(seq![a].push(b) =~= seq![a, b]);
    lemma_render_push(seq![a, b], c);
    assert(seq![a, b].push(c) =~= seq![a, b, c]);
}

fn digit(d: u32) -> (c: char)
    requires
        d < 10,
    ensures
        c == digit_char(d as nat),
{
    match d {
        0 => '0',
        1 => '1',
        2 => '2',
        3 => '3',
        4 => '4',
        5 => '5',
        6 => '6',
        7 => '7',
        8 => '8',
        _ => '9',
    }
}

/// Appends the decimal digits of `n`.
pub(crate) fn push_dec(lines: &mut String, n: u32)
    ensures
        final(lines)@ == old(lines)@ + dec(n as nat),
    decreases n,
{
    if n >= 10 {
        push_dec(lines, n / 10);
    }
    lines.push(digit(n % 10));
    proof {
        if n >= 10 {
            assert(dec(n as nat) == dec((n / 10) as nat).push(digit_char((n % 10) as nat)));
        }
        assert(final(lines)@ =~= old(lines)@ + dec(n as nat));
    }
}

fn push_csi(lines: &mut String)
    ensures
        final(lines)@ == old(lines)@ + csi(),
{
    lines.push(ESC);
    lines.push('[');
    assert(final(lines)@ =~= old(lines)@ + csi());
}

fn emit_move(lines: &mut String, dir: char, n: u32)
    requires
        n > 0,
    ensures
        final(lines)@ == old(lines)@ + render_tok(Tok::Move(dir, n as nat)),
{
    push_csi(lines);
    if n != 1 {
        push_dec(lines, n);
    }
    lines.push(dir);
    assert(final(lines)@ =~= old(lines)@ + render_tok(Tok::Move(dir, n as nat)));
}

fn emit_reset(lines: &mut String)
    ensures
        final(lines)@ == old(lines)@ + render_tok(Tok::Reset),
{
    push_csi(lines);
    lines.push('0');
    lines.push('m');
    assert(final(lines)@ =~= old(lines)@ + render_tok(Tok::Reset));
}

fn emit_color(lines: &mut String, code: char, c: Rgba)
    ensures
        final(lines)@ == old(lines)@ + render_color(code, c),
{
    push_csi(lines);
    lines.push(code);
    lines.push('8');
    lines.push(';');
    lines.push('2');
    lines.push(';');
    push_dec(lines, c.r as u32);
    lines.push(';');
    push_dec(lines, c.g as u32);
    lines.push(';');
    push_dec(lines, c.b as u32);
    lines.push('m');
    assert(final(lines)@ =~= old(lines)@ + render_color(code, c));
}

fn emit_fg(lines: &mut String, c: Rgba)
    ensures
        final(lines)@ == old(lines)@ + render_tok(Tok::Fg(c)),
{
    emit_color(lines, '3', c);
}

fn emit_bg(lines: &mut String, c: Rgba)
    ensures
        final(lines)@ == old(lines)@ + render_tok(Tok::Bg(c)),
{
    emit_color(lines, '4', c);
}

fn emit_glyph(lines: &mut String, ch: char)
    ensures
        final(lines)@ == old(lines)@ + render_tok(Tok::Glyph(ch)),
{
    lines.push(ch);
}

/// Writes the relative moves from (`curr_x`, `curr_line_y`) to (`x`, `line_y`).
fn move_cursor(curr_x: u32, curr_line_y: u32, x: u32, line_y: u32, lines: &mut String)
    ensures
        final(lines)@ == old(lines)@ + render(
            move_toks(curr_x as nat, curr_line_y as nat, x as nat, line_y as nat),
        ),
{
    let ghost h: Seq<Tok> = if x > curr_x {
        seq![Tok::Move('C', (x - curr_x) as nat)]
    } else if x < curr_x {
        seq![Tok::Move('D', (curr_x - x) as nat)]
    } else {
        Seq::empty()
    };
    let ghost v: Seq<Tok> = if line_y > curr_line_y {
        seq![Tok::Move('B', (line_y - curr_line_y) as nat)]
    } else if line_y < curr_line_y {
        seq![Tok::Move('A', (curr_line_y - line_y) as nat)]
    } else {
        Seq::empty()
    };
    proof {
        let any = Tok::Reset;
        if h.len() == 1 {
            lemma_render_small(h[0], any, any);
            assert(h =~= seq![h[0]]);
        }
        if v.len() == 1 {
            lemma_render_small(v[0], any, any);
            assert(v =~= seq![v[0]]);
        }
        assert(render(Seq::<Tok>::empty()) =~= Seq::<char>::empty());
        lemma_render_concat(h, v);
    }
    if x != curr_x {
        if x > curr_x {
            emit_move(lines, 'C', x - curr_x);
        } else {
            emit_move(lines, 'D', curr_x - x);
        }
    }
    let ghost mid = lines@;
    if line_y != curr_line_y {
        if line_y > curr_line_y {
            emit_move(lines, 'B', line_y - curr_line_y);
        } else {
            emit_move(lines, 'A', curr_line_y - line_y);
        }
    }
    assert(mid =~= old(lines)@ + render(h));
    assert(final(lines)@ =~= old(lines)@ + render(h) + render(v));
}

fn emit_space(lines: &mut String, fg: Rgba, bg: Rgba, thr: u8)
    ensures
        final(lines)@ == old(lines)@ + render(space_toks(fg, bg, thr)),
{
    proof {
        lemma_render_small(Tok::Reset, Tok::Glyph(' '), Tok::Reset);
        lemma_render_small(Tok::Glyph(' '), Tok::Reset, Tok::Reset);
    }
    if bg.a < thr && fg.a < thr {
        emit_glyph(lines, ' ');
    } else {
        emit_reset(lines);
        emit_glyph(lines, ' ');
    }
    assert(final(lines)@ =~= old(lines)@ + render(space_toks(fg, bg, thr)));
}

/// Paints a cell of two pixel rows; returns the tracked colours after it.
fn paint_pair_into(lines: &mut String, t: Rgba, b: Rgba, fg: Rgba, bg: Rgba, thr: u8) -> (r: (Rgba, Rgba))
    ensures
        final(lines)@ == old(lines)@ + render(paint_pair(t, b, fg, bg, thr).0),
        r.0 == paint_pair(t, b, fg, bg, thr).1,
        r.1 == paint_pair(t, b, fg, bg, thr).2,
{
    let ghost p = paint_pair(t, b, fg, bg, thr).0;
    proof {
        if p.len() == 1 {
            lemma_render_small(p[0], p[0], p[0]);
            assert(p =~= seq![p[0]]);
        } else if p.len() == 2 {
            lemma_render_small(p[0], p[1], p[1]);
            assert(p =~= seq![p[0], p[1]]);
        } else if p.len() == 3 {
            lemma_render_small(p[0], p[1], p[2]);
            assert(p =~= seq![p[0], p[1], p[2]]);
        }
    }
    let r;
    if t == b {
        if t.a < thr {
            emit_space(lines, fg, bg, thr);
        } else {
            emit_fg(lines, t);
            emit_glyph(lines, FULL_BLOCK);
        }
        r = (t, t);
    } else if t.a < thr && b.a < thr {
        emit_space(lines, fg, bg, thr);
        r = (t, b);
    } else if t.a < thr {
        emit_reset(lines);
        emit_fg(lines, b);
        emit_glyph(lines, LOWER_HALF);
        r = (b, t);
    } else if b.a < thr {
        emit_reset(lines);
        emit_fg(lines, t);
        emit_glyph(lines, UPPER_HALF);
        r = (t, b);
    } else if fg == b && bg == t {
        emit_glyph(lines, LOWER_HALF);
        r = (fg, bg);
    } else if fg == t && bg == b {
        emit_glyph(lines, UPPER_HALF);
        r = (fg, bg);
    } else if fg == b {
        emit_bg(lines, t);
        emit_glyph(lines, LOWER_HALF);
        r = (fg, t);
    } else if fg == t {
        emit_bg(lines, b);
        emit_glyph(lines, UPPER_HALF);
        r = (fg, b);
    } else if bg == t {
        emit_fg(lines, b);
        emit_glyph(lines, LOWER_HALF);
        r = (b, bg);
    } else if bg == b {
        emit_fg(lines, t);
        emit_glyph(lines, UPPER_HALF);
        r = (t, bg);
    } else {
        emit_bg(lines, t);
        emit_fg(lines, b);
        emit_glyph(lines, LOWER_HALF);
        r = (b, t);
    }
    assert(final(lines)@ =~= old(lines)@ + render(p));
    r
}

/// Paints a cell of the lone last pixel row.
fn paint_single_into(lines: &mut String, c: Rgba, fg: Rgba, thr: u8)
    ensures
        final(lines)@ == old(lines)@ + render(paint_single(c, fg, thr)),
{
    let ghost p = paint_single(c, fg, thr);
    proof {
        if p.len() == 1 {
            lemma_render_small(p[0], p[0], p[0]);
            assert(p =~= seq![p[0]]);
        } else {
            lemma_render_small(p[0], p[1], p[1]);
            assert(p =~= seq![p[0], p[1]]);
        }
    }
    if c.a < thr {
        if fg.a < thr {
            emit_glyph(lines, ' ');
        } else {
            emit_reset(lines);
            emit_glyph(lines, ' ');
        }
    } else if c == fg {
        emit_glyph(lines, UPPER_HALF);
    } else {
        emit_fg(lines, c);
        emit_glyph(lines, UPPER_HALF);
    }
    assert(final(lines)@ =~= old(lines)@ + render(p));
}

/// Encodes `image` against `prev_frame` (what the terminal shows now) into
/// `lines`, which is cleared first. The cursor is assumed at the top left of
/// the image area, and is left at its bottom right.
pub fn image_to_ansi_into(
    prev_frame: &Frame,
    image: &Frame,
    alpha_threshold: u8,
    full_width: bool,
    lines: &mut String,
)
    requires
        prev_frame.wf(),
        image.wf(),
        prev_frame.width == image.width,
        prev_frame.height == image.height,
    ensures
        final(lines)@ == encoded(*prev_frame, *image, alpha_threshold, full_width),
{
    let ghost job = EncJob { prev: *prev_frame, cur: *image, thr: alpha_threshold, full_width };
    let width = image.width;
    let height = image.height;
    let row_count: u32 = ((height as u64 + 1) / 2) as u32;

    lines.clear();
    if row_count == 0 || width == 0 {
        assert(lines@ =~= render(job.encode()));
        return;
    }

    let mut curr_line_y: u32 = 0;
    let mut curr_x: u32 = 0;
    let mut line_y: u32 = 0;
    assert(lines@ =~= render(job.rows_done(0).toks));
    while line_y < row_count
        invariant
            job == (EncJob { prev: *prev_frame, cur: *image, thr: alpha_threshold, full_width }),
            job.wf(),
            width == image.width,
            height == image.height,
            row_count == job.rows(),
            line_y <= row_count,
            lines@ == render(job.rows_done(line_y as nat).toks),
            curr_x == job.rows_done(line_y as nat).cx,
            curr_line_y == job.rows_done(line_y as nat).cy,
            curr_x <= width,
            curr_line_y <= line_y,
            curr_line_y < row_count,
        decreases row_count - line_y,
    {
        let y: u32 = line_y * 2;
        let single = y + 1 == height;
        let ghost st0 = job.rows_done(line_y as nat);
        let mut prev_fg = Rgba::transparent();
        let mut prev_bg = Rgba::transparent();
        let mut x: u32 = 0;
        while x < width
            invariant
                job == (EncJob { prev: *prev_frame, cur: *image, thr: alpha_threshold, full_width }),
                job.wf(),
                width == image.width,
                height == image.height,
                row_count == job.rows(),
                line_y < row_count,
                y == 2 * line_y,
                single == job.is_single(line_y as nat),
                st0 == job.rows_done(line_y as nat),
                x <= width,
                lines@ == render(job.row(st0, line_y as nat, x as nat).toks),
                curr_x == job.row(st0, line_y as nat, x as nat).cx,
                curr_line_y == job.row(st0, line_y as nat, x as nat).cy,
                prev_fg == job.row(st0, line_y as nat, x as nat).fg,
                prev_bg == job.row(st0, line_y as nat, x as nat).bg,
                curr_x <= width,
                curr_line_y <= line_y,
            decreases width - x,
        {
            let ghost s = job.row(st0, line_y as nat, x as nat);
            let top = image.get_pixel(x, y);
            let changed;
            if single {
                changed = top != prev_frame.get_pixel(x, y);
            } else {
                changed = top != prev_frame.get_pixel(x, y)
                    || image.get_pixel(x, y + 1) != prev_frame.get_pixel(x, y + 1);
            }
            if changed {
                move_cursor(curr_x, curr_line_y, x, line_y, lines);
                if single {
                    paint_single_into(lines, top, prev_fg, alpha_threshold);
                    prev_fg = top;
                } else {
                    let bottom = image.get_pixel(x, y + 1);
                    let (f, b) = paint_pair_into(lines, top, bottom, prev_fg, prev_bg, alpha_threshold);
                    prev_fg = f;
                    prev_bg = b;
                }
                if full_width && x + 1 == width {
                    curr_x = x;
                } else {
                    curr_x = x + 1;
                }
                curr_line_y = line_y;
                proof {
                    let m = move_toks(s.cx, s.cy, x as nat, line_y as nat);
                    let p = job.paint(s, x as nat, line_y as nat).0;
                    lemma_render_concat(s.toks, m);
                    lemma_render_concat(s.toks + m, p);
                }
            }
            x = x + 1;
        }
        if curr_line_y == line_y {
            proof {
                lemma_render_push(job.row(st0, line_y as nat, width as nat).toks, Tok::Reset);
            }
            emit_reset(lines);
        }
        line_y = line_y + 1;
    }

    let ghost s = job.rows_done(row_count as nat);
    let ghost pad_h: Seq<Tok> = if s.cx < job.width() {
        seq![Tok::Move('C', (job.width() - s.cx) as nat)]
    } else {
        Seq::empty()
    };
    let ghost pad_v: Seq<Tok> = if s.cy + 1 < job.rows() {
        seq![Tok::Move('B', (job.rows() - 1 - s.cy) as nat)]
    } else {
        Seq::empty()
    };
    proof {
        let any = Tok::Reset;
        assert(render(Seq::<Tok>::empty()) =~= Seq::<char>::empty());
        if pad_h.len() == 1 {
            lemma_render_small(pad_h[0], any, any);
            assert(pad_h =~= seq![pad_h[0]]);
        }
        if pad_v.len() == 1 {
            lemma_render_small(pad_v[0], any, any);
            assert(pad_v =~= seq![pad_v[0]]);
        }
        lemma_render_concat(pad_h, pad_v);
        lemma_render_concat(s.toks, pad_h + pad_v);
    }
    let ghost before = lines@;
    let dx = width - curr_x;
    if dx > 0 {
        emit_move(lines, 'C', dx);
    }
    let ghost mid = lines@;
    let dy = row_count - 1 - curr_line_y;
    if dy > 0 {
        emit_move(lines, 'B', dy);
    }
    assert(mid =~= before + render(pad_h));
    assert(lines@ =~= before + render(pad_h) + render(pad_v));
}

/// The text that paints `image` over a terminal showing `prev_frame`.
pub fn image_to_ansi(prev_frame: &Frame, image: &Frame, alpha_threshold: u8, full_width: bool) -> (r: String)
    requires
        prev_frame.wf(),
        image.wf(),
        prev_frame.width == image.width,
        prev_frame.height == image.height,
    ensures
        r@ == encoded(*prev_frame, *image, alpha_threshold, full_width),
{
    let mut lines = String::new();
    image_to_ansi_into(prev_frame, image, alpha_threshold, full_width, &mut lines);
    lines
}

/// What the encoder emits when nothing changed: the reset that closes the
/// first row, then the moves to the bottom right corner; nothing for a frame
/// with a zero side.
pub open spec fn unchanged_toks(f: Frame) -> Seq<Tok> {
    let rows = (f.height as nat + 1) / 2;
    if rows == 0 || f.width == 0 {
        Seq::empty()
    } else {
        seq![Tok::Reset, Tok::Move('C', f.width as nat)] + (if rows > 1 {
            seq![Tok::Move('B', (rows - 1) as nat)]
        } else {
            Seq::empty()
        })
    }
}

proof fn lemma_unchanged_row(job: EncJob, st: EncState, ly: nat, x: nat)
    requires
        job.wf(),
        job.prev == job.cur,
        x <= job.width(),
    ensures
        job.row(st, ly, x) == (EncState { fg: transparent_black(), bg: transparent_black(), ..st }),
    decreases x,
{
    if x > 0 {
        lemma_unchanged_row(job, st, ly, (x - 1) as nat);
    }
}

proof fn lemma_unchanged_rows(job: EncJob, k: nat)
    requires
        job.wf(),
        job.prev == job.cur,
        k <= job.rows(),
    ensures
        k == 0 ==> job.rows_done(k).toks == Seq::<Tok>::empty(),
        k > 0 ==> job.rows_done(k).toks == seq![Tok::Reset],
        job.rows_done(k).cx == 0,
        job.rows_done(k).cy == 0,
    decreases k,
{
    if k > 0 {
        lemma_unchanged_rows(job, (k - 1) as nat);
        lemma_unchanged_row(job, job.rows_done((k - 1) as nat), (k - 1) as nat, job.width());
        if k == 1 {
            assert(Seq::<Tok>::empty().push(Tok::Reset) =~= seq![Tok::Reset]);
        }
    }
}

/// Encoding a frame against itself paints nothing: the output is the closing
/// reset of the first row and the moves to the bottom right corner, with no
/// glyph and no colour.
pub proof fn lemma_encode_identical(f: Frame, thr: u8, full_width: bool)
    requires
        f.wf(),
    ensures
        (EncJob { prev: f, cur: f, thr, full_width }).encode() == unchanged_toks(f),
{
    let job = EncJob { prev: f, cur: f, thr, full_width };
    if job.rows() > 0 && job.width() > 0 {
        lemma_unchanged_rows(job, job.rows());
        let s = job.rows_done(job.rows());
        assert(job.encode() =~= unchanged_toks(f));
    }
}

proof fn lemma_row_cursor(job: EncJob, st: EncState, ly: nat, x: nat)
    requires
        job.wf(),
        x <= job.width(),
        st.cy <= ly,
        st.cy == ly ==> st.cx == 0,
    ensures
        job.row(st, ly, x).cy <= ly,
        job.row(st, ly, x).cy == ly ==> job.row(st, ly, x).cx <= x,
        job.row(st, ly, x).cy != ly ==> job.row(st, ly, x).toks == st.toks,
    decreases x,
{
    if x > 0 {
        lemma_row_cursor(job, st, ly, (x - 1) as nat);
    }
}

proof fn lemma_rows_cursor(job: EncJob, k: nat)
    requires
        job.wf(),
        k <= job.rows(),
    ensures
        k == 0 ==> job.rows_done(k).cx == 0 && job.rows_done(k).cy == 0,
        k > 0 ==> job.rows_done(k).cy < k,
    decreases k,
{
    if k > 0 {
        lemma_rows_cursor(job, (k - 1) as nat);
        lemma_row_cursor(job, job.rows_done((k - 1) as nat), (k - 1) as nat, job.width());
    }
}

/// Within a row the cursor only moves right: once the encoder has painted in
/// row `ly`, the move to the next changed column `x` is a single rightward
/// skip (or nothing), so the columns written in a row strictly increase.
pub proof fn lemma_moves_within_row_go_right(job: EncJob, ly: nat, x: nat)
    requires
        job.wf(),
        ly < job.rows(),
        x < job.width(),
    ensures
        ({
            let s = job.row(job.rows_done(ly), ly, x);
            s.cy == ly ==> s.cx <= x && move_toks(s.cx, s.cy, x, ly) == (if s.cx < x {
                seq![Tok::Move('C', (x - s.cx) as nat)]
            } else {
                Seq::<Tok>::empty()
            })
        }),
{
    lemma_rows_cursor(job, ly);
    lemma_row_cursor(job, job.rows_done(ly), ly, x);
    let s = job.row(job.rows_done(ly), ly, x);
    if s.cy == ly {
        assert(move_toks(s.cx, s.cy, x, ly) =~= (if s.cx < x {
            seq![Tok::Move('C', (x - s.cx) as nat)]
        } else {
            Seq::<Tok>::empty()
        }));
    }
}

/// The colours a terminal draws with; `None` is the terminal's default.
pub struct Pen {
    pub fg: Option<Rgb>,
    pub bg: Option<Rgb>,
}

pub open spec fn default_pen() -> Pen {
    Pen { fg: None, bg: None }
}

pub open spec fn rgb_of(p: Rgba) -> Rgb {
    Rgb { r: p.r, g: p.g, b: p.b }
}

/// The pen after one token.
pub open spec fn pen_step(p: Pen, t: Tok) -> Pen {
    match t {
        Tok::Reset => default_pen(),
        Tok::Fg(c) => Pen { fg: Some(rgb_of(c)), ..p },
        Tok::Bg(c) => Pen { bg: Some(rgb_of(c)), ..p },
        _ => p,
    }
}

/// The pen after a token sequence, starting from `p`.
pub open spec fn pen_from(p: Pen, toks: Seq<Tok>) -> Pen
    decreases toks.len(),
{
    if toks.len() == 0 {
        p
    } else {
        pen_step(pen_from(p, toks.drop_last()), toks.last())
    }
}

/// The pen after a token sequence written to a terminal in its default state.
pub open spec fn pen_after(toks: Seq<Tok>) -> Pen {
    pen_from(default_pen(), toks)
}

/// The colours a glyph shows in the upper and lower half of its cell.
pub open spec fn shows(ch: char, p: Pen) -> (Option<Rgb>, Option<Rgb>) {
    if ch == UPPER_HALF {
        (p.fg, p.bg)
    } else if ch == LOWER_HALF {
        (p.bg, p.fg)
    } else if ch == FULL_BLOCK {
        (p.fg, p.fg)
    } else {
        (p.bg, p.bg)
    }
}

/// How a pixel should look: transparent pixels show the terminal's default.
pub open spec fn look(p: Rgba, thr: u8) -> Option<Rgb> {
    if is_transparent(p, thr) { None } else { Some(rgb_of(p)) }
}

pub open spec fn is_block(t: Tok) -> bool {
    t == Tok::Glyph(UPPER_HALF) || t == Tok::Glyph(LOWER_HALF) || t == Tok::Glyph(FULL_BLOCK)
}

impl EncJob {
    /// How the upper and lower half of the cell at column `x` of row `ly`
    /// should look; the lone last row has nothing below.
    pub open spec fn wanted(self, x: nat, ly: nat) -> (Option<Rgb>, Option<Rgb>) {
        let y = 2 * ly;
        if self.is_single(ly) {
            (look(self.cur.at(x as int, y as int), self.thr), None)
        } else {
            (
                look(self.cur.at(x as int, y as int), self.thr),
                look(self.cur.at(x as int, y as int + 1), self.thr),
            )
        }
    }
}

/// The encoder's tracked colours agree with the terminal's pen. A full block
/// sets only the foreground while the encoder tracks both as its colour;
/// the encoder then always matches the foreground first.
pub open spec fn tracks(p: Pen, fg: Rgba, bg: Rgba, thr: u8) -> bool {
    &&& p.fg == look(fg, thr)
    &&& (p.bg == look(bg, thr) || (fg == bg && !is_transparent(fg, thr)))
}

/// Every block glyph is drawn with a foreground set since the last reset.
pub open spec fn blocks_have_fg(toks: Seq<Tok>) -> bool {
    forall|j: int| 0 <= j < toks.len() && #[trigger] is_block(toks[j]) ==> pen_after(toks.take(j + 1)).fg is Some
}

proof fn lemma_pen_concat(p: Pen, a: Seq<Tok>, b: Seq<Tok>)
    ensures
        pen_from(p, a + b) == pen_from(pen_from(p, a), b),
    decreases b.len(),
{
    if b.len() == 0 {
        assert(a + b =~= a);
    } else {
        lemma_pen_concat(p, a, b.drop_last());
        assert((a + b).drop_last() =~= a + b.drop_last());
    }
}

proof fn lemma_pen_small(p: Pen, a: Tok, b: Tok, c: Tok)
    ensures
        pen_from(p, seq![a]) == pen_step(p, a),
        pen_from(p, seq![a, b]) == pen_step(pen_step(p, a), b),
        pen_from(p, seq![a, b, c]) == pen_step(pen_step(pen_step(p, a), b), c),
{
    assert(seq![a].drop_last() =~= Seq::<Tok>::empty());
    assert(pen_from(p, Seq::<Tok>::empty()) == p);
    assert(pen_from(p, seq![a]) == pen_step(pen_from(p, seq![a].drop_last()), seq![a].last()));
    assert(seq![a, b].drop_last() =~= seq![a]);
    assert(pen_from(p, seq![a, b]) == pen_step(pen_from(p, seq![a, b].drop_last()), seq![a, b].last()));
    assert(seq![a, b, c].drop_last() =~= seq![a, b]);
    assert(pen_from(p, seq![a, b, c]) == pen_step(pen_from(p, seq![a, b, c].drop_last()), seq![a, b, c].last()));
}

/// Appending tokens keeps the block property when each new block glyph has a
/// foreground.
proof fn lemma_blocks_extend(a: Seq<Tok>, b: Seq<Tok>)
    requires
        blocks_have_fg(a),
        forall|j: int| 0 <= j < b.len() && #[trigger] is_block(b[j]) ==> pen_after((a + b).take(a.len() + j + 1)).fg is Some,
    ensures
        blocks_have_fg(a + b),
{
    let c = a + b;
    assert forall|j: int| 0 <= j < c.len() && #[trigger] is_block(c[j]) implies pen_after(c.take(j + 1)).fg is Some by {
        if j < a.len() {
            assert(c.take(j + 1) =~= a.take(j + 1));
            assert(c[j] == a[j]);
        } else {
            assert(c[j] == b[j - a.len()]);
        }
    }
}

/// The tokens of a step: moves, then paint tokens of which only the last is a glyph.
proof fn lemma_paint_shape(job: EncJob, st: EncState, x: nat, ly: nat)
    ensures
        ({
            let p = job.paint(st, x, ly).0;
            &&& 1 <= p.len() <= 3
            &&& p.last() is Glyph
            &&& forall|j: int| 0 <= j < p.len() - 1 ==> !(#[trigger] p[j] is Glyph)
        }),
{
}

proof fn lemma_moves_keep_pen(p: Pen, cx: nat, cy: nat, x: nat, y: nat)
    ensures
        pen_from(p, move_toks(cx, cy, x, y)) == p,
        forall|j: int| 0 <= j < move_toks(cx, cy, x, y).len() ==> #[trigger] move_toks(cx, cy, x, y)[j] is Move,
{
    let m = move_toks(cx, cy, x, y);
    let any = Tok::Reset;
    if m.len() == 1 {
        lemma_pen_small(p, m[0], any, any);
        assert(m =~= seq![m[0]]);
    } else if m.len() == 2 {
        lemma_pen_small(p, m[0], m[1], any);
        assert(m =~= seq![m[0], m[1]]);
    } else {
        assert(m.len() == 0);
    }
}

/// One painted cell: the tracked colours keep agreeing with the pen, the
/// glyph shows the cell's pixels, and a block glyph has a foreground.
proof fn lemma_paint_cell(job: EncJob, st: EncState, pen: Pen, x: nat, ly: nat)
    requires
        job.thr > 0,
        tracks(pen, st.fg, st.bg, job.thr),
        job.is_single(ly) ==> st.bg == transparent_black() && pen.bg is None,
    ensures
        ({
            let (p, fg, bg) = job.paint(st, x, ly);
            let after = pen_from(pen, p);
            &&& tracks(after, fg, bg, job.thr)
            &&& job.is_single(ly) ==> bg == transparent_black() && after.bg is None
            &&& shows(p.last()->Glyph_0, after) == job.wanted(x, ly)
            &&& is_block(p.last()) ==> after.fg is Some
        }),
{
    let (p, fg, bg) = job.paint(st, x, ly);
    if p.len() == 1 {
        lemma_pen_small(pen, p[0], p[0], p[0]);
        assert(p =~= seq![p[0]]);
    } else if p.len() == 2 {
        lemma_pen_small(pen, p[0], p[1], p[1]);
        assert(p =~= seq![p[0], p[1]]);
    } else {
        lemma_pen_small(pen, p[0], p[1], p[2]);
        assert(p =~= seq![p[0], p[1], p[2]]);
    }
}

proof fn lemma_row_pen(job: EncJob, st: EncState, ly: nat, x: nat)
    requires
        job.wf(),
        job.thr > 0,
        x <= job.width(),
        pen_after(st.toks) == default_pen(),
        blocks_have_fg(st.toks),
    ensures
        ({
            let s = job.row(st, ly, x);
            &&& tracks(pen_after(s.toks), s.fg, s.bg, job.thr)
            &&& job.is_single(ly) ==> s.bg == transparent_black() && pen_after(s.toks).bg is None
            &&& blocks_have_fg(s.toks)
        }),
    decreases x,
{
    if x > 0 {
        let xp = (x - 1) as nat;
        lemma_row_pen(job, st, ly, xp);
        let s0 = job.row(st, ly, xp);
        if job.changed(xp, ly) {
            let m = move_toks(s0.cx, s0.cy, xp, ly);
            let p = job.paint(s0, xp, ly).0;
            let pen0 = pen_after(s0.toks);
            lemma_moves_keep_pen(pen0, s0.cx, s0.cy, xp, ly);
            lemma_pen_concat(default_pen(), s0.toks, m);
            lemma_pen_concat(default_pen(), s0.toks + m, p);
            lemma_paint_cell(job, s0, pen0, xp, ly);
            lemma_paint_shape(job, s0, xp, ly);
            lemma_blocks_extend(s0.toks, m);
            let a = s0.toks + m;
            assert forall|j: int| 0 <= j < p.len() && #[trigger] is_block(p[j]) implies pen_after(
                (a + p).take(a.len() + j + 1),
            ).fg is Some by {
                if j < p.len() - 1 {
                    assert(!(p[j] is Glyph));
                } else {
                    assert((a + p).take(a.len() + j + 1) =~= a + p);
                }
            }
            lemma_blocks_extend(a, p);
        }
    }
}

proof fn lemma_rows_pen(job: EncJob, k: nat)
    requires
        job.wf(),
        job.thr > 0,
        k <= job.rows(),
    ensures
        pen_after(job.rows_done(k).toks) == default_pen(),
        blocks_have_fg(job.rows_done(k).toks),
    decreases k,
{
    if k > 0 {
        let ly = (k - 1) as nat;
        lemma_rows_pen(job, ly);
        lemma_rows_cursor(job, ly);
        let st = job.rows_done(ly);
        lemma_row_pen(job, st, ly, job.width());
        lemma_row_cursor(job, st, ly, job.width());
        let s = job.row(st, ly, job.width());
        if s.cy == ly {
            assert(s.toks.push(Tok::Reset).drop_last() =~= s.toks);
            assert(s.toks.push(Tok::Reset) =~= s.toks + seq![Tok::Reset]);
            lemma_blocks_extend(s.toks, seq![Tok::Reset]);
        }
    }
}

proof fn lemma_encode_blocks(job: EncJob)
    requires
        job.wf(),
        job.thr > 0,
    ensures
        blocks_have_fg(job.encode()),
{
    if job.rows() > 0 && job.width() > 0 {
        lemma_rows_pen(job, job.rows());
        let s = job.rows_done(job.rows());
        let pad = job.padding(s);
        assert forall|j: int| 0 <= j < pad.len() implies !is_block(#[trigger] pad[j]) by {
            assert(pad[j] is Move);
        }
        lemma_blocks_extend(s.toks, pad);
    } else {
        assert(job.encode() =~= Seq::<Tok>::empty());
    }
}

/// Every glyph the encoder writes shows the cell's pixels with the colours
/// then in effect, a transparent pixel showing the terminal's default. This
/// needs a threshold above zero, which makes the encoder's initial tracked
/// colour, transparent black, count as transparent.
pub proof fn lemma_glyph_shows_cell(job: EncJob, ly: nat, x: nat)
    requires
        job.wf(),
        job.thr > 0,
        ly < job.rows(),
        x < job.width(),
        job.changed(x, ly),
    ensures
        ({
            let s = job.row(job.rows_done(ly), ly, x);
            let t = job.step(s, x, ly);
            &&& t.toks.last() is Glyph
            &&& shows(t.toks.last()->Glyph_0, pen_after(t.toks)) == job.wanted(x, ly)
        }),
{
    lemma_rows_pen(job, ly);
    let st = job.rows_done(ly);
    lemma_row_pen(job, st, ly, x);
    let s0 = job.row(st, ly, x);
    let m = move_toks(s0.cx, s0.cy, x, ly);
    let p = job.paint(s0, x, ly).0;
    let pen0 = pen_after(s0.toks);
    lemma_moves_keep_pen(pen0, s0.cx, s0.cy, x, ly);
    lemma_pen_concat(default_pen(), s0.toks, m);
    lemma_pen_concat(default_pen(), s0.toks + m, p);
    lemma_paint_cell(job, s0, pen0, x, ly);
    lemma_paint_shape(job, s0, x, ly);
    assert((s0.toks + m + p).last() == p.last());
}

proof fn lemma_fg_stays_unset(toks: Seq<Tok>, i: int, m: int)
    requires
        0 <= i < m <= toks.len(),
        toks[i] == Tok::Reset,
        forall|k: int| i < k < m ==> !(#[trigger] toks[k] is Fg),
    ensures
        pen_after(toks.take(m)).fg is None,
    decreases m - i,
{
    let t = toks.take(m);
    assert(t.drop_last() =~= toks.take(m - 1));
    assert(t.last() == toks[m - 1]);
    if m - 1 > i {
        lemma_fg_stays_unset(toks, i, m - 1);
    }
}

/// After a reset the encoder selects a foreground colour before it writes
/// its next block glyph (threshold above zero, as for the glyph colours).
pub proof fn lemma_reset_then_fg_before_block(job: EncJob, i: int, j: int)
    requires
        job.wf(),
        job.thr > 0,
        0 <= i < j < job.encode().len(),
        job.encode()[i] == Tok::Reset,
        is_block(job.encode()[j]),
    ensures
        exists|k: int| i < k < j && (#[trigger] job.encode()[k]) is Fg,
{
    let toks = job.encode();
    lemma_encode_blocks(job);
    assert(pen_after(toks.take(j + 1)).fg is Some);
    if !(exists|k: int| i < k < j && (#[trigger] toks[k]) is Fg) {
        assert(!(toks[j] is Fg));
        lemma_fg_stays_unset(toks, i, j + 1);
    }
}

impl EncJob {
    /// Every pixel of the cell at column `x` of row `ly` is transparent.
    pub open spec fn cell_clear(self, x: nat, ly: nat) -> bool {
        let y = 2 * ly;
        &&& is_transparent(self.cur.at(x as int, y as int), self.thr)
        &&& (self.is_single(ly) || is_transparent(self.cur.at(x as int, y as int + 1), self.thr))
    }
}

/// Unchanged cells leave the scan's state as it was.
proof fn lemma_unchanged_span(job: EncJob, st: EncState, ly: nat, a: nat, b: nat)
    requires
        a <= b,
        forall|q: nat| a <= q < b ==> !(#[trigger] job.changed(q, ly)),
    ensures
        job.row(st, ly, b) == job.row(st, ly, a),
    decreases b - a,
{
    if a < b {
        lemma_unchanged_span(job, st, ly, a, (b - 1) as nat);
        assert(!job.changed((b - 1) as nat, ly));
    }
}

/// After a cell with an opaque pixel, the tracked foreground is opaque.
proof fn lemma_opaque_cell_fg(job: EncJob, st: EncState, x: nat, ly: nat)
    requires
        !job.cell_clear(x, ly),
    ensures
        !is_transparent(job.paint(st, x, ly).1, job.thr),
{
}

/// The state inside a run of changed, fully transparent cells, from the second on.
proof fn lemma_run_state(job: EncJob, ly: nat, x0: nat, x1: nat, x: nat)
    requires
        job.wf(),
        x0 < x <= x1 < job.width(),
        forall|q: nat| x0 <= q <= x1 ==> #[trigger] job.changed(q, ly) && job.cell_clear(q, ly),
    ensures
        ({
            let s = job.row(job.rows_done(ly), ly, x);
            &&& s.cy == ly
            &&& s.cx == x
            &&& is_transparent(s.fg, job.thr)
            &&& !job.is_single(ly) ==> is_transparent(s.bg, job.thr)
        }),
    decreases x - x0,
{
    if x > x0 + 1 {
        lemma_run_state(job, ly, x0, x1, (x - 1) as nat);
    }
    assert(job.changed((x - 1) as nat, ly) && job.cell_clear((x - 1) as nat, ly));
}

/// A run of changed cells whose pixels are all transparent, after an opaque
/// painted cell of the same row (at `p`, with nothing changed in between):
/// the first cell of the run is a reset and a space after the cursor move,
/// each later cell a bare space with no move, and no colour is selected.
pub proof fn lemma_transparent_run(job: EncJob, ly: nat, p: nat, x0: nat, x1: nat)
    requires
        job.wf(),
        ly < job.rows(),
        p < x0 <= x1 < job.width(),
        job.changed(p, ly),
        !job.cell_clear(p, ly),
        forall|q: nat| p < q < x0 ==> !(#[trigger] job.changed(q, ly)),
        forall|q: nat| x0 <= q <= x1 ==> #[trigger] job.changed(q, ly) && job.cell_clear(q, ly),
    ensures
        forall|x: nat|
            x0 <= x <= x1 ==> ({
                let s = #[trigger] job.row(job.rows_done(ly), ly, x);
                job.step(s, x, ly).toks == s.toks + (if x == x0 {
                    move_toks(s.cx, s.cy, x, ly) + seq![Tok::Reset, Tok::Glyph(' ')]
                } else {
                    seq![Tok::Glyph(' ')]
                })
            }),
{
    let st = job.rows_done(ly);
    lemma_opaque_cell_fg(job, job.row(st, ly, p), p, ly);
    lemma_unchanged_span(job, st, ly, p + 1, x0);
    assert forall|x: nat| x0 <= x <= x1 implies ({
        let s = #[trigger] job.row(job.rows_done(ly), ly, x);
        job.step(s, x, ly).toks == s.toks + (if x == x0 {
            move_toks(s.cx, s.cy, x, ly) + seq![Tok::Reset, Tok::Glyph(' ')]
        } else {
            seq![Tok::Glyph(' ')]
        })
    }) by {
        let s = job.row(st, ly, x);
        assert(x0 <= x <= x1);
        assert(job.changed(x, ly));
        assert(job.cell_clear(x, ly));
        if x == x0 {
            assert(!is_transparent(s.fg, job.thr));
            assert(s.toks + move_toks(s.cx, s.cy, x, ly) + seq![Tok::Reset, Tok::Glyph(' ')] =~= s.toks
                + (move_toks(s.cx, s.cy, x, ly) + seq![Tok::Reset, Tok::Glyph(' ')]));
        } else {
            lemma_run_state(job, ly, x0, x1, x);
            assert(move_toks(s.cx, s.cy, x, ly) =~= Seq::<Tok>::empty());
            assert(s.toks + Seq::<Tok>::empty() + seq![Tok::Glyph(' ')] =~= s.toks + seq![Tok::Glyph(' ')]);
        }
    }
}

/// A terminal's cursor and the cells written so far.
pub struct Screen {
    pub col: int,
    pub row: int,
    pub written: Seq<(int, int)>,
}

impl EncJob {
    /// The screen after one token: moves shift the cursor, a glyph writes the
    /// cell under the cursor and advances it, except on the last column of a
    /// terminal that does not wrap.
    pub open spec fn screen_step(self, sc: Screen, t: Tok) -> Screen {
        match t {
            Tok::Move(d, n) => if d == 'C' {
                Screen { col: sc.col + n, ..sc }
            } else if d == 'D' {
                Screen { col: sc.col - n, ..sc }
            } else if d == 'B' {
                Screen { row: sc.row + n, ..sc }
            } else {
                Screen { row: sc.row - n, ..sc }
            },
            Tok::Glyph(_) => Screen {
                col: if self.full_width && sc.col + 1 == self.width() { sc.col } else { sc.col + 1 },
                row: sc.row,
                written: sc.written.push((sc.col, sc.row)),
            },
            _ => sc,
        }
    }

    pub open spec fn screen_from(self, sc: Screen, toks: Seq<Tok>) -> Screen
        decreases toks.len(),
    {
        if toks.len() == 0 {
            sc
        } else {
            self.screen_step(self.screen_from(sc, toks.drop_last()), toks.last())
        }
    }

    /// The screen after the tokens, the cursor starting at the image's top left.
    pub open spec fn screen_after(self, toks: Seq<Tok>) -> Screen {
        self.screen_from(Screen { col: 0, row: 0, written: Seq::empty() }, toks)
    }

    /// The changed cells of row `ly` among columns `0..x`, left to right.
    pub open spec fn changed_in_row(self, ly: nat, x: nat) -> Seq<(int, int)>
        decreases x,
    {
        if x == 0 {
            Seq::empty()
        } else {
            let r = self.changed_in_row(ly, (x - 1) as nat);
            if self.changed((x - 1) as nat, ly) {
                r.push(((x - 1) as int, ly as int))
            } else {
                r
            }
        }
    }

    /// The changed cells of rows `0..k`, row by row.
    pub open spec fn changed_before(self, k: nat) -> Seq<(int, int)>
        decreases k,
    {
        if k == 0 {
            Seq::empty()
        } else {
            self.changed_before((k - 1) as nat) + self.changed_in_row((k - 1) as nat, self.width())
        }
    }
}

proof fn lemma_screen_concat(job: EncJob, sc: Screen, a: Seq<Tok>, b: Seq<Tok>)
    ensures
        job.screen_from(sc, a + b) == job.screen_from(job.screen_from(sc, a), b),
    decreases b.len(),
{
    if b.len() == 0 {
        assert(a + b =~= a);
    } else {
        lemma_screen_concat(job, sc, a, b.drop_last());
        assert((a + b).drop_last() =~= a + b.drop_last());
    }
}

proof fn lemma_screen_small(job: EncJob, sc: Screen, a: Tok, b: Tok, c: Tok)
    ensures
        job.screen_from(sc, seq![a]) == job.screen_step(sc, a),
        job.screen_from(sc, seq![a, b]) == job.screen_step(job.screen_step(sc, a), b),
        job.screen_from(sc, seq![a, b, c]) == job.screen_step(job.screen_step(job.screen_step(sc, a), b), c),
{
    assert(seq![a].drop_last() =~= Seq::<Tok>::empty());
    assert(job.screen_from(sc, Seq::<Tok>::empty()) == sc);
    assert(job.screen_from(sc, seq![a]) == job.screen_step(job.screen_from(sc, seq![a].drop_last()), seq![a].last()));
    assert(seq![a, b].drop_last() =~= seq![a]);
    assert(job.screen_from(sc, seq![a, b]) == job.screen_step(job.screen_from(sc, seq![a, b].drop_last()), seq![a, b].last()));
    assert(seq![a, b, c].drop_last() =~= seq![a, b]);
    assert(job.screen_from(sc, seq![a, b, c]) == job.screen_step(job.screen_from(sc, seq![a, b, c].drop_last()), seq![a, b, c].last()));
}

/// The moves bring the cursor to their target and write nothing.
proof fn lemma_screen_moves(job: EncJob, sc: Screen, cx: nat, cy: nat, x: nat, y: nat)
    requires
        sc.col == cx,
        sc.row == cy,
    ensures
        job.screen_from(sc, move_toks(cx, cy, x, y)) == (Screen { col: x as int, row: y as int, ..sc }),
{
    let m = move_toks(cx, cy, x, y);
    let any = Tok::Reset;
    if m.len() == 1 {
        lemma_screen_small(job, sc, m[0], any, any);
        assert(m =~= seq![m[0]]);
    } else if m.len() == 2 {
        lemma_screen_small(job, sc, m[0], m[1], any);
        assert(m =~= seq![m[0], m[1]]);
    } else {
        assert(m.len() == 0);
    }
}

/// Painting a cell writes that one cell and leaves the cursor where the
/// encoder expects it.
proof fn lemma_screen_paint(job: EncJob, sc: Screen, st: EncState, x: nat, ly: nat)
    requires
        sc.col == x,
        sc.row == ly,
    ensures
        job.screen_from(sc, job.paint(st, x, ly).0) == (Screen {
            col: job.next_x(x) as int,
            row: ly as int,
            written: sc.written.push((x as int, ly as int)),
        }),
{
    let p = job.paint(st, x, ly).0;
    lemma_paint_shape(job, st, x, ly);
    if p.len() == 1 {
        lemma_screen_small(job, sc, p[0], p[0], p[0]);
        assert(p =~= seq![p[0]]);
    } else if p.len() == 2 {
        lemma_screen_small(job, sc, p[0], p[1], p[1]);
        assert(p =~= seq![p[0], p[1]]);
    } else {
        lemma_screen_small(job, sc, p[0], p[1], p[2]);
        assert(p =~= seq![p[0], p[1], p[2]]);
    }
}

proof fn lemma_row_screen(job: EncJob, st: EncState, ly: nat, x: nat)
    requires
        job.screen_after(st.toks).col == st.cx,
        job.screen_after(st.toks).row == st.cy,
    ensures
        ({
            let s = job.row(st, ly, x);
            let sc = job.screen_after(s.toks);
            &&& sc.col == s.cx
            &&& sc.row == s.cy
            &&& sc.written == job.screen_after(st.toks).written + job.changed_in_row(ly, x)
        }),
    decreases x,
{
    if x == 0 {
        assert(job.screen_after(st.toks).written + Seq::<(int, int)>::empty() =~= job.screen_after(st.toks).written);
    } else {
        let xp = (x - 1) as nat;
        lemma_row_screen(job, st, ly, xp);
        let s0 = job.row(st, ly, xp);
        if job.changed(xp, ly) {
            let m = move_toks(s0.cx, s0.cy, xp, ly);
            let p = job.paint(s0, xp, ly).0;
            let e = Screen { col: 0, row: 0, written: Seq::empty() };
            let sc0 = job.screen_after(s0.toks);
            lemma_screen_concat(job, e, s0.toks, m);
            lemma_screen_concat(job, e, s0.toks + m, p);
            lemma_screen_moves(job, sc0, s0.cx, s0.cy, xp, ly);
            lemma_screen_paint(job, job.screen_from(sc0, m), s0, xp, ly);
            assert(job.screen_after(st.toks).written + job.changed_in_row(ly, xp).push((xp as int, ly as int))
                =~= (job.screen_after(st.toks).written + job.changed_in_row(ly, xp)).push((xp as int, ly as int)));
        }
    }
}

proof fn lemma_rows_screen(job: EncJob, k: nat)
    ensures
        job.screen_after(job.rows_done(k).toks).col == job.rows_done(k).cx,
        job.screen_after(job.rows_done(k).toks).row == job.rows_done(k).cy,
        job.screen_after(job.rows_done(k).toks).written == job.changed_before(k),
    decreases k,
{
    if k > 0 {
        let ly = (k - 1) as nat;
        lemma_rows_screen(job, ly);
        let st = job.rows_done(ly);
        lemma_row_screen(job, st, ly, job.width());
        let s = job.row(st, ly, job.width());
        if s.cy == ly {
            assert(s.toks.push(Tok::Reset).drop_last() =~= s.toks);
        }
    } else {
        assert(job.screen_after(Seq::<Tok>::empty()).written =~= Seq::<(int, int)>::empty());
    }
}

proof fn lemma_changed_in_row_order(job: EncJob, ly: nat, x: nat)
    ensures
        forall|i: int| 0 <= i < job.changed_in_row(ly, x).len() ==> {
            let c = #[trigger] job.changed_in_row(ly, x)[i];
            &&& c.1 == ly
            &&& 0 <= c.0 < x
            &&& job.changed(c.0 as nat, ly)
        },
        forall|i: int, j: int|
            0 <= i < j < job.changed_in_row(ly, x).len() ==> (#[trigger] job.changed_in_row(ly, x)[i]).0
                < (#[trigger] job.changed_in_row(ly, x)[j]).0,
        forall|c: nat| c < x && #[trigger] job.changed(c, ly) ==> job.changed_in_row(ly, x).contains((c as int, ly as int)),
    decreases x,
{
    if x > 0 {
        let xp = (x - 1) as nat;
        lemma_changed_in_row_order(job, ly, xp);
        let r = job.changed_in_row(ly, xp);
        if job.changed(xp, ly) {
            let q = r.push((xp as int, ly as int));
            assert forall|c: nat| c < x && #[trigger] job.changed(c, ly) implies q.contains((c as int, ly as int)) by {
                if c == xp {
                    assert(q[r.len() as int] == (xp as int, ly as int));
                } else {
                    let k = choose|k: int| 0 <= k < r.len() && r[k] == (c as int, ly as int);
                    assert(q[k] == r[k]);
                }
            }
        }
    }
}

/// The encoder writes exactly the changed cells, each once, row by row, and
/// within a row from left to right: on a terminal that moves its cursor as
/// the tokens say, the cells written, in order, are the changed cells in
/// row-major order.
pub proof fn lemma_writes_changed_cells(job: EncJob)
    ensures
        job.screen_after(job.encode()).written == job.changed_before(job.rows()),
{
    if job.rows() == 0 || job.width() == 0 {
        assert(job.screen_after(Seq::<Tok>::empty()).written =~= Seq::<(int, int)>::empty());
        assert(job.changed_before(job.rows()) =~= Seq::<(int, int)>::empty()) by {
            lemma_changed_before_empty_rows(job, job.rows());
        }
    } else {
        lemma_rows_screen(job, job.rows());
        let s = job.rows_done(job.rows());
        let pad = job.padding(s);
        let e = Screen { col: 0, row: 0, written: Seq::empty() };
        lemma_screen_concat(job, e, s.toks, pad);
        let sc = job.screen_after(s.toks);
        let any = Tok::Reset;
        if pad.len() == 1 {
            lemma_screen_small(job, sc, pad[0], any, any);
            assert(pad =~= seq![pad[0]]);
        } else if pad.len() == 2 {
            lemma_screen_small(job, sc, pad[0], pad[1], any);
            assert(pad =~= seq![pad[0], pad[1]]);
        } else {
            assert(pad.len() == 0);
        }
    }
}

proof fn lemma_changed_before_empty_rows(job: EncJob, k: nat)
    requires
        job.rows() == 0 || job.width() == 0,
        k <= job.rows(),
    ensures
        job.changed_before(k) =~= Seq::<(int, int)>::empty(),
    decreases k,
{
    if k > 0 {
        lemma_changed_before_empty_rows(job, (k - 1) as nat);
        assert(job.changed_in_row((k - 1) as nat, 0) =~= Seq::<(int, int)>::empty());
    }
}

/// Within each row, the columns the encoder writes strictly increase, and
/// they are exactly that row's changed cells.
pub proof fn lemma_row_columns_increase(job: EncJob, ly: nat)
    ensures
        forall|i: int, j: int|
            0 <= i < j < job.changed_in_row(ly, job.width()).len() ==> (#[trigger] job.changed_in_row(
                ly,
                job.width(),
            )[i]).0 < (#[trigger] job.changed_in_row(ly, job.width())[j]).0,
        forall|c: nat|
            c < job.width() ==> (#[trigger] job.changed(c, ly) <==> job.changed_in_row(ly, job.width()).contains(
                (c as int, ly as int),
            )),
{
    lemma_changed_in_row_order(job, ly, job.width());
    let r = job.changed_in_row(ly, job.width());
    assert forall|c: nat| c < job.width() && r.contains((c as int, ly as int)) implies #[trigger] job.changed(c, ly) by {
        let k = choose|k: int| 0 <= k < r.len() && r[k] == (c as int, ly as int);
        assert(job.changed(r[k].0 as nat, ly));
    }
}

} // verus!
