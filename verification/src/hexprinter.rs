//! The line canvas: accumulates colored byte cells and labels for one
//! output line at a time and flushes complete, fixed-format lines into a
//! [`StyledOut`] sink.
//!
//! A flushed line shows the line's base address (or a blank field of equal
//! width when it repeats the previous line's base address), one two-digit
//! hex group per column, an ASCII column, and the accumulated labels.  The
//! whole behaviour is mirrored by spec-level transition functions over
//! [`CanvasModel`], and every method's contract states exactly which
//! transition it performs.

use vstd::prelude::*;
use crate::hexfmt::{glyph, glyph_of, hex_addr, hex_digits, push_char, push_hex_addr, push_hex_digits};
use crate::style::{out_text, print_spec, raw_spec, StyledOut, TextStyle};

verus! {

/// One filled column slot: a byte value with its foreground and background
/// color indices.
#[derive(PartialEq, Eq, Structural, Clone, Copy, Debug)]
pub struct ByteCell {
    pub value: u8,
    pub fg: u8,
    pub bg: u8,
}

/// A label attached to the current line.
pub struct Label {
    pub text: String,
    pub style: TextStyle,
}

impl View for Label {
    type V = (Seq<char>, TextStyle);

    open spec fn view(&self) -> (Seq<char>, TextStyle) {
        (self.text@, self.style)
    }
}

/// The mathematical state of the canvas: configuration, the in-progress
/// line, and everything emitted so far.
#[verifier::ext_equal]
pub ghost struct CanvasModel {
    pub cols: u64,
    pub break_on_bounds: bool,
    pub bytes: Seq<Option<ByteCell>>,
    pub labels: Seq<(Seq<char>, TextStyle)>,
    pub line_addr: u64,
    pub last_line_addr: Option<u64>,
    pub out: Seq<(TextStyle, Seq<char>)>,
    pub has_data: bool,
}

impl CanvasModel {
    /// The configuration is usable: at least one column, and column counts
    /// representable as indices.
    pub open spec fn cols_ok(self) -> bool {
        1 <= self.cols && self.cols as int <= usize::MAX as int
    }

    /// Between operations the in-progress line is never full.
    pub open spec fn tidy(self) -> bool {
        self.bytes.len() < self.cols as int
    }

    /// The absolute address of the next column slot.
    pub open spec fn pos(self) -> int {
        self.line_addr + self.bytes.len()
    }
}

/// The address column for a line that shows its base address, followed by
/// the divider.
pub open spec fn addr_field(v: int) -> Seq<char> {
    hex_addr(v) + seq![' ', '|', ' ']
}

/// The address column for a line whose base address repeats the previous
/// line's: a blank field of the same width, followed by the divider.
pub open spec fn blank_field() -> Seq<char> {
    seq![' ', ' ', ' ', ' ', ' ', ' ', ' ', ' ', ' ', ' ', ' ', '|', ' ']
}

/// What the hex column prints for one cell.
pub open spec fn hex_cell(c: Option<ByteCell>) -> (TextStyle, Seq<char>) {
    match c {
        Option::Some(b) => (
            TextStyle::spec_colored(b.fg, b.bg, false),
            hex_digits(b.value as int, 2) + seq![' '],
        ),
        Option::None => (TextStyle::spec_plain(), seq![' ', ' ', ' ']),
    }
}

/// What the ASCII column prints for one cell.
pub open spec fn ascii_cell(c: Option<ByteCell>) -> (TextStyle, Seq<char>) {
    match c {
        Option::Some(b) => (TextStyle::spec_colored(b.fg, b.bg, true), seq![glyph(b.value)]),
        Option::None => (TextStyle::spec_plain(), seq![' ']),
    }
}

/// The output after printing the first `n` hex cells, with a grouping space
/// after every eighth column when `group` is set.
pub open spec fn emit_hex(
    out: Seq<(TextStyle, Seq<char>)>,
    cells: Seq<Option<ByteCell>>,
    group: bool,
    n: int,
) -> Seq<(TextStyle, Seq<char>)>
    decreases n,
{
    if n <= 0 {
        out
    } else {
        let prev = emit_hex(out, cells, group, n - 1);
        let piece = hex_cell(cells[n - 1]);
        let after = print_spec(prev, piece.0, piece.1);
        if group && n % 8 == 0 {
            print_spec(after, TextStyle::spec_plain(), seq![' '])
        } else {
            after
        }
    }
}

/// The output after printing the first `n` ASCII cells.
pub open spec fn emit_ascii(
    out: Seq<(TextStyle, Seq<char>)>,
    cells: Seq<Option<ByteCell>>,
    n: int,
) -> Seq<(TextStyle, Seq<char>)>
    decreases n,
{
    if n <= 0 {
        out
    } else {
        let prev = emit_ascii(out, cells, n - 1);
        let piece = ascii_cell(cells[n - 1]);
        print_spec(prev, piece.0, piece.1)
    }
}

/// The output after printing the first `n` labels, each followed by a
/// plain separating space.
pub open spec fn emit_labels(
    out: Seq<(TextStyle, Seq<char>)>,
    labels: Seq<(Seq<char>, TextStyle)>,
    n: int,
) -> Seq<(TextStyle, Seq<char>)>
    decreases n,
{
    if n <= 0 {
        out
    } else {
        let prev = emit_labels(out, labels, n - 1);
        let after = print_spec(prev, labels[n - 1].1, labels[n - 1].0);
        print_spec(after, TextStyle::spec_plain(), seq![' '])
    }
}

/// The current line padded with empty cells out to the full column count.
pub open spec fn padded_cells(m: CanvasModel) -> Seq<Option<ByteCell>> {
    m.bytes + Seq::new((m.cols - m.bytes.len()) as nat, |i: int| Option::None)
}

/// Unconditional flush: emit the whole line and reset it.
pub open spec fn flush_force_spec(m: CanvasModel) -> CanvasModel {
    let cells = padded_cells(m);
    let o1 = if m.last_line_addr == Option::Some(m.line_addr) {
        print_spec(m.out, TextStyle::spec_plain(), blank_field())
    } else {
        print_spec(m.out, TextStyle::spec_plain(), addr_field(m.line_addr as int))
    };
    let o2 = emit_hex(o1, cells, m.cols % 8 == 0, m.cols as int);
    let o3 = print_spec(o2, TextStyle::spec_plain(), seq!['|', ' ']);
    let o4 = emit_ascii(o3, cells, m.cols as int);
    let o5 = print_spec(o4, TextStyle::spec_plain(), seq![' ', '|', ' ']);
    let o6 = emit_labels(o5, m.labels, m.labels.len() as int);
    let o7 = raw_spec(o6, seq!['\n']);
    CanvasModel {
        bytes: Seq::empty(),
        labels: Seq::empty(),
        last_line_addr: Option::Some(m.line_addr),
        out: o7,
        has_data: false,
        ..m
    }
}

/// Conditional flush: a line with no data is kept, not emitted.
pub open spec fn flush_spec(m: CanvasModel) -> CanvasModel {
    if m.has_data {
        flush_force_spec(m)
    } else {
        m
    }
}

/// Appending one colored byte; a line that reaches the column count is
/// flushed and the base address moves to the next line.
pub open spec fn push_byte_spec(m: CanvasModel, byte: u8, fg: u8, bg: u8) -> CanvasModel {
    let m1 = CanvasModel {
        bytes: m.bytes.push(Option::Some(ByteCell { value: byte, fg, bg })),
        has_data: true,
        ..m
    };
    if m1.bytes.len() == m.cols as int {
        let m2 = flush_spec(m1);
        CanvasModel { line_addr: (m.line_addr + m.cols) as u64, ..m2 }
    } else {
        m1
    }
}

/// The line-change part of `set_addr`: flush a nonempty line when the base
/// changes, and emit one gap marker when more than a full line of address
/// space is skipped.
pub open spec fn set_addr_jump(m: CanvasModel, base: int) -> CanvasModel {
    if base != m.line_addr {
        let ma = if m.bytes.len() > 0 { flush_spec(m) } else { m };
        let mb = if base > m.line_addr + m.cols {
            CanvasModel { out: raw_spec(ma.out, seq!['.', '.', '.', '\n']), ..ma }
        } else {
            ma
        };
        CanvasModel { line_addr: base as u64, ..mb }
    } else {
        m
    }
}

/// The column part of `set_addr`: re-entering an already-written column
/// flushes what is buffered and starts a fresh pass over the same line.
pub open spec fn set_addr_restart(m: CanvasModel, col: int) -> CanvasModel {
    if col < m.bytes.len() {
        CanvasModel { bytes: Seq::empty(), ..flush_spec(m) }
    } else {
        m
    }
}

/// The padding part of `set_addr`: unwritten leading columns are filled
/// with empty cells.
pub open spec fn set_addr_pad(m: CanvasModel, col: int) -> CanvasModel {
    if m.bytes.len() < col {
        CanvasModel {
            bytes: m.bytes + Seq::new((col - m.bytes.len()) as nat, |i: int| Option::None),
            ..m
        }
    } else {
        m
    }
}

/// Aligning the canvas to the display line containing `addr`.
pub open spec fn set_addr_spec(m: CanvasModel, addr: u64) -> CanvasModel {
    let base = addr as int / m.cols as int * m.cols as int;
    let col = addr as int % m.cols as int;
    set_addr_pad(set_addr_restart(set_addr_jump(m, base), col), col)
}

/// Attaching a label marks the line as having data.
pub open spec fn add_label_spec(m: CanvasModel, text: Seq<char>, style: TextStyle) -> CanvasModel {
    CanvasModel { labels: m.labels.push((text, style)), has_data: true, ..m }
}

/// A boundary request: a flush only when breaking on boundaries is enabled.
pub open spec fn bound_spec(m: CanvasModel) -> CanvasModel {
    if m.break_on_bounds {
        flush_spec(m)
    } else {
        m
    }
}

/// The canvas as freshly constructed.
pub open spec fn new_canvas_spec(cols: u64, break_on_bounds: bool) -> CanvasModel {
    CanvasModel {
        cols,
        break_on_bounds,
        bytes: Seq::empty(),
        labels: Seq::empty(),
        line_addr: 0,
        last_line_addr: Option::None,
        out: Seq::empty(),
        has_data: false,
    }
}

/// The flat text emitted by the hex column extends whatever was already
/// emitted.
proof fn lemma_emit_hex_extends(
    out: Seq<(TextStyle, Seq<char>)>,
    cells: Seq<Option<ByteCell>>,
    group: bool,
    n: int,
)
    ensures
        out_text(emit_hex(out, cells, group, n)).len() >= out_text(out).len(),
        out_text(emit_hex(out, cells, group, n)).subrange(0, out_text(out).len() as int)
            == out_text(out),
    decreases n,
{
    if n <= 0 {
        assert(out_text(out).subrange(0, out_text(out).len() as int) =~= out_text(out));
    } else {
        lemma_emit_hex_extends(out, cells, group, n - 1);
        let prev = emit_hex(out, cells, group, n - 1);
        let piece = hex_cell(cells[n - 1]);
        let after = print_spec(prev, piece.0, piece.1);
        crate::style::lemma_print_text(prev, piece.0, piece.1);
        if group && n % 8 == 0 {
            crate::style::lemma_print_text(after, TextStyle::spec_plain(), seq![' ']);
        }
        assert(out_text(emit_hex(out, cells, group, n)).subrange(0, out_text(out).len() as int)
            =~= out_text(out));
    }
}

proof fn lemma_emit_ascii_extends(
    out: Seq<(TextStyle, Seq<char>)>,
    cells: Seq<Option<ByteCell>>,
    n: int,
)
    ensures
        out_text(emit_ascii(out, cells, n)).len() >= out_text(out).len(),
        out_text(emit_ascii(out, cells, n)).subrange(0, out_text(out).len() as int) == out_text(
            out,
        ),
    decreases n,
{
    if n <= 0 {
        assert(out_text(out).subrange(0, out_text(out).len() as int) =~= out_text(out));
    } else {
        lemma_emit_ascii_extends(out, cells, n - 1);
        let prev = emit_ascii(out, cells, n - 1);
        let piece = ascii_cell(cells[n - 1]);
        crate::style::lemma_print_text(prev, piece.0, piece.1);
        assert(out_text(emit_ascii(out, cells, n)).subrange(0, out_text(out).len() as int)
            =~= out_text(out));
    }
}

proof fn lemma_emit_labels_extends(
    out: Seq<(TextStyle, Seq<char>)>,
    labels: Seq<(Seq<char>, TextStyle)>,
    n: int,
)
    ensures
        out_text(emit_labels(out, labels, n)).len() >= out_text(out).len(),
        out_text(emit_labels(out, labels, n)).subrange(0, out_text(out).len() as int) == out_text(
            out,
        ),
    decreases n,
{
    if n <= 0 {
        assert(out_text(out).subrange(0, out_text(out).len() as int) =~= out_text(out));
    } else {
        lemma_emit_labels_extends(out, labels, n - 1);
        let prev = emit_labels(out, labels, n - 1);
        let after = print_spec(prev, labels[n - 1].1, labels[n - 1].0);
        crate::style::lemma_print_text(prev, labels[n - 1].1, labels[n - 1].0);
        crate::style::lemma_print_text(after, TextStyle::spec_plain(), seq![' ']);
        assert(out_text(emit_labels(out, labels, n)).subrange(0, out_text(out).len() as int)
            =~= out_text(out));
    }
}

/// The flat text of the hex column: the cells' texts in order, with one
/// grouping space after every eighth column when `group` is set.
pub open spec fn hex_row_text(cells: Seq<Option<ByteCell>>, group: bool, n: int) -> Seq<char>
    decreases n,
{
    if n <= 0 {
        Seq::empty()
    } else {
        hex_row_text(cells, group, n - 1) + hex_cell(cells[n - 1]).1 + (if group && n % 8 == 0 {
            seq![' ']
        } else {
            Seq::empty()
        })
    }
}

/// The hex column emits exactly its row text.
pub proof fn lemma_emit_hex_text(
    out: Seq<(TextStyle, Seq<char>)>,
    cells: Seq<Option<ByteCell>>,
    group: bool,
    n: int,
)
    ensures
        out_text(emit_hex(out, cells, group, n)) == out_text(out) + hex_row_text(cells, group, n),
    decreases n,
{
    if n <= 0 {
        assert(out_text(out) + Seq::<char>::empty() =~= out_text(out));
    } else {
        lemma_emit_hex_text(out, cells, group, n - 1);
        let prev = emit_hex(out, cells, group, n - 1);
        let piece = hex_cell(cells[n - 1]);
        let after = print_spec(prev, piece.0, piece.1);
        crate::style::lemma_print_text(prev, piece.0, piece.1);
        if group && n % 8 == 0 {
            crate::style::lemma_print_text(after, TextStyle::spec_plain(), seq![' ']);
            assert(((out_text(out) + hex_row_text(cells, group, n - 1)) + piece.1) + seq![' ']
                =~= out_text(out) + ((hex_row_text(cells, group, n - 1) + piece.1) + seq![' ']));
        } else {
            assert((out_text(out) + hex_row_text(cells, group, n - 1)) + piece.1 =~= out_text(out)
                + ((hex_row_text(cells, group, n - 1) + piece.1) + Seq::<char>::empty()));
        }
    }
}

/// Column grouping: every cell occupies three characters of the hex
/// column.  With a column count that is no multiple of eight, no extra
/// space is inserted anywhere; with a multiple of eight, exactly one extra
/// space follows each group of eight columns.
pub proof fn lemma_hex_row_len(cells: Seq<Option<ByteCell>>, group: bool, n: int)
    requires
        0 <= n,
    ensures
        !group ==> hex_row_text(cells, group, n).len() == 3 * n,
        group ==> hex_row_text(cells, group, n).len() == 3 * n + n / 8,
    decreases n,
{
    if n > 0 {
        lemma_hex_row_len(cells, group, n - 1);
        match cells[n - 1] {
            Option::Some(b) => {
                crate::hexfmt::lemma_hex_digits_len(b.value as int, 2);
                assert(hex_cell(cells[n - 1]).1.len() == 3);
            }
            Option::None => {
                assert(hex_cell(cells[n - 1]).1.len() == 3);
            }
        }
        if group {
            assert(n / 8 == (n - 1) / 8 + (if n % 8 == 0 { 1int } else { 0int })) by (nonlinear_arith)
                requires
                    n >= 1,
            ;
        }
    }
}

/// Repeated-address suppression: the text a flush appends opens with the
/// line's address column, and that column is the blank field exactly when
/// the line's base address repeats the previously flushed line's; it is
/// the written-out hex address otherwise.
pub proof fn lemma_address_column(m: CanvasModel)
    ensures
        ({
            let full = out_text(flush_force_spec(m).out);
            let base = out_text(m.out);
            let field = if m.last_line_addr == Option::Some(m.line_addr) {
                blank_field()
            } else {
                addr_field(m.line_addr as int)
            };
            &&& full.len() >= base.len() + field.len()
            &&& full.subrange(base.len() as int, base.len() + field.len() as int) == field
            &&& full.subrange(0, base.len() as int) == base
        }),
{
    let base = out_text(m.out);
    let field = if m.last_line_addr == Option::Some(m.line_addr) {
        blank_field()
    } else {
        addr_field(m.line_addr as int)
    };
    let cells = padded_cells(m);
    let o1 = print_spec(
        m.out,
        TextStyle::spec_plain(),
        if m.last_line_addr == Option::Some(m.line_addr) {
            blank_field()
        } else {
            addr_field(m.line_addr as int)
        },
    );
    crate::style::lemma_print_text(m.out, TextStyle::spec_plain(), field);
    let o2 = emit_hex(o1, cells, m.cols % 8 == 0, m.cols as int);
    lemma_emit_hex_extends(o1, cells, m.cols % 8 == 0, m.cols as int);
    let o3 = print_spec(o2, TextStyle::spec_plain(), seq!['|', ' ']);
    crate::style::lemma_print_text(o2, TextStyle::spec_plain(), seq!['|', ' ']);
    let o4 = emit_ascii(o3, cells, m.cols as int);
    lemma_emit_ascii_extends(o3, cells, m.cols as int);
    let o5 = print_spec(o4, TextStyle::spec_plain(), seq![' ', '|', ' ']);
    crate::style::lemma_print_text(o4, TextStyle::spec_plain(), seq![' ', '|', ' ']);
    let o6 = emit_labels(o5, m.labels, m.labels.len() as int);
    lemma_emit_labels_extends(o5, m.labels, m.labels.len() as int);
    let o7 = raw_spec(o6, seq!['\n']);
    crate::style::lemma_raw_text(o6, seq!['\n']);
    assert(flush_force_spec(m).out == o7);
    let full = out_text(o7);
    assert(out_text(o1) == base + field);
    assert(out_text(o1).subrange(0, base.len() as int) =~= base);
    assert(out_text(o1).subrange(base.len() as int, base.len() + field.len() as int) =~= field);
    assert(out_text(o2).subrange(0, out_text(o1).len() as int) == out_text(o1));
    assert(out_text(o3).subrange(0, out_text(o2).len() as int) =~= out_text(o2));
    assert(out_text(o4).subrange(0, out_text(o3).len() as int) == out_text(o3));
    assert(out_text(o5).subrange(0, out_text(o4).len() as int) =~= out_text(o4));
    assert(out_text(o6).subrange(0, out_text(o5).len() as int) == out_text(o5));
    assert(full.subrange(0, out_text(o6).len() as int) =~= out_text(o6));
    assert(full.subrange(0, base.len() as int) =~= base);
    assert(full.subrange(base.len() as int, base.len() + field.len() as int) =~= field);
}

/// The line canvas.  Its view is the [`CanvasModel`] it realizes.
pub struct HexPrinter {
    pub cols: u64,
    pub break_on_bounds: bool,
    pub bytes: Vec<Option<ByteCell>>,
    pub labels: Vec<Label>,
    pub line_addr: u64,
    pub last_line_addr: Option<u64>,
    pub printer: StyledOut,
    pub has_data: bool,
}

impl View for HexPrinter {
    type V = CanvasModel;

    open spec fn view(&self) -> CanvasModel {
        CanvasModel {
            cols: self.cols,
            break_on_bounds: self.break_on_bounds,
            bytes: self.bytes@,
            labels: Seq::new(self.labels@.len(), |i: int| self.labels@[i]@),
            line_addr: self.line_addr,
            last_line_addr: self.last_line_addr,
            out: self.printer@,
            has_data: self.has_data,
        }
    }
}

impl HexPrinter {
    pub fn new(cols: u64, break_on_bounds: bool) -> (r: HexPrinter)
        requires
            1 <= cols,
            cols as int <= usize::MAX as int,
        ensures
            r@ == new_canvas_spec(cols, break_on_bounds),
            r@.cols_ok(),
            r@.tidy(),
    {
        let r = HexPrinter {
            cols,
            break_on_bounds,
            bytes: Vec::new(),
            labels: Vec::new(),
            line_addr: 0,
            last_line_addr: Option::None,
            printer: StyledOut::new(),
            has_data: false,
        };
        proof {
            assert(r@ =~~= new_canvas_spec(cols, break_on_bounds));
        }
        r
    }

    /// Emit the line regardless of whether it holds data.
    pub fn flush_line_force(&mut self)
        requires
            old(self)@.cols_ok(),
            old(self)@.bytes.len() <= old(self)@.cols as int,
        ensures
            final(self)@ == flush_force_spec(old(self)@),
            final(self)@.cols_ok(),
            final(self)@.tidy(),
    {
        let ghost m0 = self@;
        let cols = self.cols as usize;
        while self.bytes.len() < cols
            invariant
                self.cols == m0.cols,
                self.break_on_bounds == m0.break_on_bounds,
                cols == m0.cols as int,
                m0.cols_ok(),
                m0.bytes.len() <= self.bytes@.len() <= cols,
                self.bytes@ =~= padded_cells(m0).subrange(0, self.bytes@.len() as int),
                self@.labels == m0.labels,
                self.line_addr == m0.line_addr,
                self.last_line_addr == m0.last_line_addr,
                self.printer@ == m0.out,
                self.has_data == m0.has_data,
            decreases cols - self.bytes.len(),
        {
            self.bytes.push(Option::None);
            proof {
                assert(self.bytes@ =~= padded_cells(m0).subrange(0, self.bytes@.len() as int));
            }
        }
        proof {
            assert(self.bytes@ =~= padded_cells(m0));
        }
        let ghost cells = padded_cells(m0);
        let ghost lbls = m0.labels;

        let same = match self.last_line_addr {
            Option::Some(v) => v == self.line_addr,
            Option::None => false,
        };
        if same {
            self.printer.print(TextStyle::plain(), "           | ");
            proof {
                reveal_strlit("           | ");
                assert("           | "@ =~= blank_field());
            }
        } else {
            let mut field = String::new();
            push_hex_addr(&mut field, self.line_addr);
            push_char(&mut field, ' ');
            push_char(&mut field, '|');
            push_char(&mut field, ' ');
            proof {
                assert(field@ =~= addr_field(m0.line_addr as int));
            }
            self.printer.print(TextStyle::plain(), field.as_str());
        }
        self.last_line_addr = Option::Some(self.line_addr);
        let ghost o1 = self.printer@;

        let group = self.cols % 8 == 0;
        let mut i: usize = 0;
        while i < cols
            invariant
                self.cols == m0.cols,
                self.break_on_bounds == m0.break_on_bounds,
                cols == m0.cols as int,
                m0.cols_ok(),
                i <= cols,
                self.bytes@ == cells,
                cells.len() == cols,
                group == (m0.cols % 8 == 0),
                self@.labels == lbls,
                self.line_addr == m0.line_addr,
                self.last_line_addr == Option::Some(m0.line_addr),
                self.has_data == m0.has_data,
                self.printer@ == emit_hex(o1, cells, group, i as int),
            decreases cols - i,
        {
            match self.bytes[i] {
                Option::Some(b) => {
                    let mut t = String::new();
                    push_hex_digits(&mut t, b.value as u64, 2);
                    push_char(&mut t, ' ');
                    proof {
                        assert(t@ =~= hex_digits(b.value as int, 2) + seq![' ']);
                    }
                    self.printer.print(TextStyle::colored(b.fg, b.bg, false), t.as_str());
                }
                Option::None => {
                    self.printer.print(TextStyle::plain(), "   ");
                    proof {
                        reveal_strlit("   ");
                        assert("   "@ =~= seq![' ', ' ', ' ']);
                    }
                }
            }
            if group && (i + 1) % 8 == 0 {
                self.printer.print(TextStyle::plain(), " ");
                proof {
                    reveal_strlit(" ");
                    assert(" "@ =~= seq![' ']);
                }
            }
            i = i + 1;
        }
        let ghost o2 = self.printer@;

        self.printer.print(TextStyle::plain(), "| ");
        proof {
            reveal_strlit("| ");
            assert("| "@ =~= seq!['|', ' ']);
        }
        let ghost o3 = self.printer@;

        let mut i: usize = 0;
        while i < cols
            invariant
                self.cols == m0.cols,
                self.break_on_bounds == m0.break_on_bounds,
                cols == m0.cols as int,
                m0.cols_ok(),
                i <= cols,
                self.bytes@ == cells,
                cells.len() == cols,
                self@.labels == lbls,
                self.line_addr == m0.line_addr,
                self.last_line_addr == Option::Some(m0.line_addr),
                self.has_data == m0.has_data,
                self.printer@ == emit_ascii(o3, cells, i as int),
            decreases cols - i,
        {
            match self.bytes[i] {
                Option::Some(b) => {
                    let mut t = String::new();
                    push_char(&mut t, glyph_of(b.value));
                    proof {
                        assert(t@ =~= seq![glyph(b.value)]);
                    }
                    self.printer.print(TextStyle::colored(b.fg, b.bg, true), t.as_str());
                }
                Option::None => {
                    self.printer.print(TextStyle::plain(), " ");
                    proof {
                        reveal_strlit(" ");
                        assert(" "@ =~= seq![' ']);
                    }
                }
            }
            i = i + 1;
        }

        self.printer.print(TextStyle::plain(), " | ");
        proof {
            reveal_strlit(" | ");
            assert(" | "@ =~= seq![' ', '|', ' ']);
        }
        let ghost o5 = self.printer@;

        let mut j: usize = 0;
        let nlabels = self.labels.len();
        while j < nlabels
            invariant
                self.cols == m0.cols,
                self.break_on_bounds == m0.break_on_bounds,
                m0.cols_ok(),
                nlabels == self.labels@.len(),
                j <= nlabels,
                self.bytes@ == cells,
                self@.labels == lbls,
                lbls.len() == nlabels,
                self.line_addr == m0.line_addr,
                self.last_line_addr == Option::Some(m0.line_addr),
                self.has_data == m0.has_data,
                self.printer@ == emit_labels(o5, lbls, j as int),
            decreases nlabels - j,
        {
            let style = self.labels[j].style;
            proof {
                assert(lbls[j as int] == self.labels@[j as int]@);
            }
            self.printer.print(style, self.labels[j].text.as_str());
            self.printer.print(TextStyle::plain(), " ");
            proof {
                reveal_strlit(" ");
                assert(" "@ =~= seq![' ']);
            }
            j = j + 1;
        }

        self.printer.raw("\n");
        proof {
            reveal_strlit("\n");
            assert("\n"@ =~= seq!['\n']);
        }

        self.bytes = Vec::new();
        self.labels = Vec::new();
        self.has_data = false;
        proof {
            assert(self@ =~~= flush_force_spec(m0));
        }
    }

    /// Emit the line only when it holds data.
    pub fn flush_line(&mut self)
        requires
            old(self)@.cols_ok(),
            old(self)@.bytes.len() <= old(self)@.cols as int,
        ensures
            final(self)@ == flush_spec(old(self)@),
            final(self)@.cols_ok(),
            final(self)@.bytes.len() <= final(self)@.cols as int,
            old(self)@.has_data ==> final(self)@.tidy(),
            old(self)@.tidy() ==> final(self)@.tidy(),
    {
        if !self.has_data {
            return ;
        }
        self.flush_line_force();
    }

    /// Append one colored byte cell.
    pub fn push_byte(&mut self, byte: u8, fg: u8, bg: u8)
        requires
            old(self)@.cols_ok(),
            old(self)@.tidy(),
            old(self)@.pos() + old(self)@.cols <= u64::MAX,
        ensures
            final(self)@ == push_byte_spec(old(self)@, byte, fg, bg),
            final(self)@.cols_ok(),
            final(self)@.tidy(),
    {
        self.bytes.push(Option::Some(ByteCell { value: byte, fg, bg }));
        self.has_data = true;
        if self.bytes.len() == self.cols as usize {
            self.flush_line();
            self.line_addr = self.line_addr + self.cols;
        }
        proof {
            assert(self@ =~~= push_byte_spec(old(self)@, byte, fg, bg));
        }
    }

    /// Align the canvas to the display line containing `addr`.
    pub fn set_addr(&mut self, addr: u64)
        requires
            old(self)@.cols_ok(),
            old(self)@.tidy(),
        ensures
            final(self)@ == set_addr_spec(old(self)@, addr),
            final(self)@.cols_ok(),
            final(self)@.tidy(),
            final(self)@.pos() == addr,
    {
        let ghost m0 = self@;
        proof {
            vstd::arithmetic::div_mod::lemma_fundamental_div_mod(addr as int, self.cols as int);
            vstd::arithmetic::div_mod::lemma_mod_division_less_than_divisor(
                addr as int,
                self.cols as int,
            );
            assert(self.cols as int * (addr as int / self.cols as int) + addr as int
                % self.cols as int == addr as int);
            assert((addr as int / self.cols as int) * (self.cols as int) == (self.cols as int) * (
            addr as int / self.cols as int)) by (nonlinear_arith);
            assert((addr as int / self.cols as int) * (self.cols as int) + addr as int
                % self.cols as int == addr as int);
        }
        let base = addr / self.cols * self.cols;
        let col = (addr % self.cols) as usize;
        proof {
            assert(base == addr as int / m0.cols as int * m0.cols as int);
            assert(col == addr as int % m0.cols as int);
            assert(base + col == addr);
        }
        if base != self.line_addr {
            if self.bytes.len() > 0 {
                self.flush_line();
            }
            if base > self.line_addr && base - self.line_addr > self.cols {
                self.printer.raw("...\n");
                proof {
                    reveal_strlit("...\n");
                    assert("...\n"@ =~= seq!['.', '.', '.', '\n']);
                }
            }
            self.line_addr = base;
        }
        proof {
            assert(self@ =~~= set_addr_jump(m0, base as int));
        }
        let ghost m1 = self@;
        if col < self.bytes.len() {
            self.flush_line();
            self.bytes.clear();
        }
        proof {
            assert(self@ =~~= set_addr_restart(m1, col as int));
        }
        let ghost m2 = self@;
        while self.bytes.len() < col
            invariant
                m2.bytes.len() <= self.bytes@.len() <= col,
                col < m2.cols,
                self@ == (CanvasModel { bytes: self.bytes@, ..m2 }),
                self.bytes@ =~= m2.bytes + Seq::new(
                    (self.bytes@.len() - m2.bytes.len()) as nat,
                    |i: int| Option::None,
                ),
            decreases col - self.bytes.len(),
        {
            self.bytes.push(Option::None);
            proof {
                assert(self.bytes@ =~= m2.bytes + Seq::new(
                    (self.bytes@.len() - m2.bytes.len()) as nat,
                    |i: int| Option::None,
                ));
            }
        }
        proof {
            assert(self@ =~~= set_addr_pad(m2, col as int));
            assert(self@ =~~= set_addr_spec(m0, addr));
        }
    }

    /// Attach a label to the current line.
    pub fn add_label(&mut self, label: String, style: TextStyle)
        ensures
            final(self)@ == add_label_spec(old(self)@, label@, style),
    {
        let ghost m0 = self@;
        self.labels.push(Label { text: label, style });
        self.has_data = true;
        proof {
            assert(self@.labels =~= m0.labels.push((label@, style)));
            assert(self@ =~~= add_label_spec(m0, label@, style));
        }
    }

    /// Request a fresh line at a logical boundary.
    pub fn bound(&mut self)
        requires
            old(self)@.cols_ok(),
            old(self)@.tidy(),
        ensures
            final(self)@ == bound_spec(old(self)@),
            final(self)@.cols_ok(),
            final(self)@.tidy(),
    {
        if self.break_on_bounds {
            self.flush_line();
        }
    }
}

} // verus!
