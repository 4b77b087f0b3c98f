//! The render driver: walks the content blocks in address order, drives
//! one sweep of background ranges (sections, compact labels) and one of
//! foreground ranges (symbols, verbose labels), and feeds each byte with
//! its resolved colors into the line canvas.
//!
//! The whole pass is mirrored by the spec function [`render_spec`], and
//! [`run_inner`] returns exactly the styled runs that it describes.

use vstd::prelude::*;
use crate::blocks::{Block, Section};
use crate::hexprinter::{
    bound_spec, flush_spec, new_canvas_spec, set_addr_spec, push_byte_spec, CanvasModel,
    HexPrinter,
};
use crate::style::{StyledRun, TextStyle};
use crate::sweep::{
    active_at, adv_fold, cut, event_seq, fg_color, ranges_ok, SectionEvents,
};

verus! {

/// The background palette: two low-contrast shades that section stripes
/// alternate between by declaration index.
pub open spec fn bg_color(i: int) -> u8 {
    if i % 2 == 0 { 232 } else { 236 }
}

/// The highest index below `n` of a range of `s` active at `a`, if any.
pub open spec fn top_active(s: Seq<Section>, a: int, n: int) -> Option<int>
    decreases n,
{
    if n <= 0 {
        Option::None
    } else if active_at(s, a, n - 1) {
        Option::Some(n - 1)
    } else {
        top_active(s, a, n - 1)
    }
}

/// `top_active` returns the maximum active index, or nothing when no range
/// is active.
pub proof fn lemma_top_active_props(s: Seq<Section>, a: int, n: int)
    requires
        0 <= n <= s.len(),
    ensures
        match top_active(s, a, n) {
            Option::Some(i) => 0 <= i < n && active_at(s, a, i) && forall|j: int|
                i < j < n ==> !active_at(s, a, j),
            Option::None => forall|j: int| 0 <= j < n ==> !active_at(s, a, j),
        },
    decreases n,
{
    if n > 0 {
        lemma_top_active_props(s, a, n - 1);
    }
}

/// The foreground color of a byte: derived from the topmost active symbol,
/// or the neutral index when no symbol is active.
pub open spec fn byte_fg(syms: Seq<Section>, a: int) -> u8 {
    match top_active(syms, a, syms.len() as int) {
        Option::Some(i) => fg_color(i),
        Option::None => 8,
    }
}

/// The background color of a byte: derived from the topmost active
/// section, or the first shade when no section is active.
pub open spec fn byte_bg(secs: Seq<Section>, a: int) -> u8 {
    match top_active(secs, a, secs.len() as int) {
        Option::Some(i) => bg_color(i),
        Option::None => bg_color(0),
    }
}

/// Advancing one sweep from watermark `hi` to address `a`: the canvas
/// receives the effects of the events between the two cut positions, and
/// the watermark never moves backwards.
pub open spec fn sweep_adv(
    m: CanvasModel,
    s: Seq<Section>,
    hi: int,
    a: int,
    show_addr: bool,
) -> (CanvasModel, int) {
    let new_hi = if a > hi { a } else { hi };
    let ev = event_seq(s);
    (adv_fold(m, s, ev, cut(ev, hi), cut(ev, new_hi), Option::None, show_addr).0, new_hi)
}

/// The state after rendering the first `j` bytes of one block: the canvas
/// and the two sweep watermarks.
pub open spec fn render_bytes(
    m: CanvasModel,
    secs: Seq<Section>,
    syms: Seq<Section>,
    hi_sec: int,
    hi_sym: int,
    base: u64,
    body: Seq<u8>,
    j: int,
) -> (CanvasModel, int, int)
    decreases j,
{
    if j <= 0 {
        (m, hi_sec, hi_sym)
    } else {
        let prev = render_bytes(m, secs, syms, hi_sec, hi_sym, base, body, j - 1);
        let a = base + j - 1;
        let s1 = sweep_adv(prev.0, secs, prev.1, a, false);
        let s2 = sweep_adv(s1.0, syms, prev.2, a, true);
        (
            push_byte_spec(s2.0, body[j - 1], byte_fg(syms, s2.1), byte_bg(secs, s1.1)),
            s1.1,
            s2.1,
        )
    }
}

/// The state after rendering one whole block: close annotations ending
/// just before it, align the canvas, render its bytes, and request a
/// boundary.
pub open spec fn render_block(
    m: CanvasModel,
    secs: Seq<Section>,
    syms: Seq<Section>,
    hi_sec: int,
    hi_sym: int,
    b: Block,
) -> (CanvasModel, int, int) {
    let pre = if b.addr != 0 {
        let s1 = sweep_adv(m, secs, hi_sec, b.addr - 1, false);
        let s2 = sweep_adv(s1.0, syms, hi_sym, b.addr - 1, true);
        (s2.0, s1.1, s2.1)
    } else {
        (m, hi_sec, hi_sym)
    };
    let aligned = set_addr_spec(pre.0, b.addr);
    let done = render_bytes(
        aligned,
        secs,
        syms,
        pre.1,
        pre.2,
        b.addr,
        b.body@,
        b.body@.len() as int,
    );
    (bound_spec(done.0), done.1, done.2)
}

/// The state after rendering the first `k` blocks.
pub open spec fn render_blocks(
    m: CanvasModel,
    secs: Seq<Section>,
    syms: Seq<Section>,
    hi_sec: int,
    hi_sym: int,
    blocks: Seq<Block>,
    k: int,
) -> (CanvasModel, int, int)
    decreases k,
{
    if k <= 0 {
        (m, hi_sec, hi_sym)
    } else {
        let prev = render_blocks(m, secs, syms, hi_sec, hi_sym, blocks, k - 1);
        render_block(prev.0, secs, syms, prev.1, prev.2, blocks[k - 1])
    }
}

/// The complete output of one render pass: every block in order, then both
/// sweeps advanced to the end of the address space to close every open
/// range, then a final conditional flush.
pub open spec fn render_spec(
    blocks: Seq<Block>,
    secs: Seq<Section>,
    syms: Seq<Section>,
    cols: u64,
    break_on_bounds: bool,
) -> Seq<(TextStyle, Seq<char>)> {
    let m0 = new_canvas_spec(cols, break_on_bounds);
    let done = render_blocks(m0, secs, syms, -1, -1, blocks, blocks.len() as int);
    let f1 = sweep_adv(done.0, secs, done.1, u64::MAX as int, false);
    let f2 = sweep_adv(f1.0, syms, done.2, u64::MAX as int, true);
    flush_spec(f2.0).out
}

/// The cells of a line rendered from `body` with no annotation active:
/// neutral foreground, first background shade.
pub open spec fn plain_cells(body: Seq<u8>, j: int) -> Seq<Option<crate::hexprinter::ByteCell>> {
    Seq::new(j as nat, |i: int| Option::Some(crate::hexprinter::ByteCell {
        value: body[i],
        fg: 8,
        bg: 232,
    }))
}

/// A sweep over no ranges at all never touches the canvas.
proof fn lemma_sweep_adv_empty(m: CanvasModel, h: int, a: int, show_addr: bool)
    ensures
        sweep_adv(m, Seq::empty(), h, a, show_addr).0 == m,
{
    assert(event_seq(Seq::<Section>::empty()) == Seq::<crate::sweep::SweepEvent>::empty());
    assert(cut(Seq::<crate::sweep::SweepEvent>::empty(), h) == 0);
    let new_hi = if a > h { a } else { h };
    assert(cut(Seq::<crate::sweep::SweepEvent>::empty(), new_hi) == 0);
}

/// With no annotation ranges the sweeps never touch the canvas, and the
/// first `j` bytes of a block fill the current line cell by cell.
proof fn lemma_bytes_plain(m: CanvasModel, h1: int, h2: int, base: u64, body: Seq<u8>, j: int)
    requires
        1 <= m.cols,
        m.bytes == Seq::<Option<crate::hexprinter::ByteCell>>::empty(),
        !m.has_data,
        0 <= j < m.cols,
        j <= body.len(),
    ensures
        render_bytes(m, Seq::empty(), Seq::empty(), h1, h2, base, body, j).0 == (CanvasModel {
            bytes: plain_cells(body, j),
            has_data: j > 0,
            ..m
        }),
    decreases j,
{
    let secs = Seq::<Section>::empty();
    let syms = Seq::<Section>::empty();
    if j == 0 {
        assert(render_bytes(m, secs, syms, h1, h2, base, body, 0).0 == m);
        assert(plain_cells(body, 0) =~= m.bytes);
        assert((CanvasModel { bytes: plain_cells(body, 0), has_data: false, ..m }) =~~= m);
    } else {
        lemma_bytes_plain(m, h1, h2, base, body, j - 1);
        let prev = render_bytes(m, secs, syms, h1, h2, base, body, j - 1);
        let a = base + j - 1;
        let s1 = sweep_adv(prev.0, secs, prev.1, a, false);
        let s2 = sweep_adv(s1.0, syms, prev.2, a, true);
        lemma_sweep_adv_empty(prev.0, prev.1, a, false);
        lemma_sweep_adv_empty(s1.0, prev.2, a, true);
        assert(byte_fg(syms, s2.1) == 8);
        assert(byte_bg(secs, s1.1) == 232);
        let pushed = push_byte_spec(prev.0, body[j - 1], 8, 232);
        assert(prev.0.bytes.len() + 1 == j);
        assert(j < m.cols as int);
        assert(pushed.bytes =~= plain_cells(body, j));
        assert(render_bytes(m, secs, syms, h1, h2, base, body, j).0 == pushed);
        assert(pushed =~~= (CanvasModel { bytes: plain_cells(body, j), has_data: j > 0, ..m }));
    }
}

/// With no annotation ranges, a block exactly one line wide whose start
/// the canvas is aligned to fills the line and flushes it once, moving
/// the base address one line forward.
proof fn lemma_block_bytes_full(m: CanvasModel, h1: int, h2: int, base: u64, body: Seq<u8>)
    requires
        1 <= m.cols,
        m.bytes == Seq::<Option<crate::hexprinter::ByteCell>>::empty(),
        !m.has_data,
        body.len() == m.cols,
        m.line_addr == base,
        base + m.cols <= u64::MAX,
    ensures
        render_bytes(m, Seq::empty(), Seq::empty(), h1, h2, base, body, m.cols as int).0
            == (CanvasModel {
            line_addr: (base + m.cols) as u64,
            ..crate::hexprinter::flush_force_spec(CanvasModel {
                bytes: plain_cells(body, m.cols as int),
                has_data: true,
                ..m
            })
        }),
{
    let secs = Seq::<Section>::empty();
    let syms = Seq::<Section>::empty();
    let cols = m.cols as int;
    lemma_bytes_plain(m, h1, h2, base, body, cols - 1);
    let prev = render_bytes(m, secs, syms, h1, h2, base, body, cols - 1);
    let a = base + cols - 1;
    let s1 = sweep_adv(prev.0, secs, prev.1, a, false);
    let s2 = sweep_adv(s1.0, syms, prev.2, a, true);
    lemma_sweep_adv_empty(prev.0, prev.1, a, false);
    lemma_sweep_adv_empty(s1.0, prev.2, a, true);
    assert(byte_fg(syms, s2.1) == 8);
    assert(byte_bg(secs, s1.1) == 232);
    let m_full = CanvasModel { bytes: plain_cells(body, cols), has_data: true, ..m };
    let pushed = push_byte_spec(prev.0, body[cols - 1], 8, 232);
    assert(prev.0.bytes.len() + 1 == cols);
    assert(prev.0.bytes.push(Option::Some(crate::hexprinter::ByteCell {
        value: body[cols - 1],
        fg: 8,
        bg: 232,
    })) =~= plain_cells(body, cols));
    assert((CanvasModel { bytes: plain_cells(body, cols), has_data: true, ..prev.0 })
        =~~= m_full);
    assert(pushed == (CanvasModel {
        line_addr: (base + m.cols) as u64,
        ..crate::hexprinter::flush_force_spec(m_full)
    }));
    assert(render_bytes(m, secs, syms, h1, h2, base, body, cols).0 == pushed);
}

/// Round-trip rendering: a single block at the start of the address
/// space, exactly one line wide, with no annotation ranges, renders as
/// exactly one flushed line holding all of its bytes, and nothing else —
/// no gap marker, no further line.
pub proof fn lemma_single_line_round_trip(b: Block, cols: u64, break_on_bounds: bool)
    requires
        1 <= cols,
        b.addr == 0,
        b.body@.len() == cols,
    ensures
        render_spec(seq![b], Seq::empty(), Seq::empty(), cols, break_on_bounds)
            == crate::hexprinter::flush_force_spec(CanvasModel {
            cols,
            break_on_bounds,
            bytes: plain_cells(b.body@, cols as int),
            labels: Seq::empty(),
            line_addr: 0,
            last_line_addr: Option::None,
            out: Seq::empty(),
            has_data: true,
        }).out,
{
    let secs = Seq::<Section>::empty();
    let syms = Seq::<Section>::empty();
    let m0 = new_canvas_spec(cols, break_on_bounds);
    let blocks = seq![b];
    assert(blocks[0] == b);
    assert(render_blocks(m0, secs, syms, -1, -1, blocks, 0) == (m0, -1int, -1int));
    assert(0int / cols as int == 0 && 0int % cols as int == 0) by (nonlinear_arith)
        requires
            1 <= cols,
    ;
    let aligned = set_addr_spec(m0, 0);
    assert(aligned =~~= m0);
    let m_full = CanvasModel {
        cols,
        break_on_bounds,
        bytes: plain_cells(b.body@, cols as int),
        labels: Seq::empty(),
        line_addr: 0,
        last_line_addr: Option::None,
        out: Seq::empty(),
        has_data: true,
    };
    lemma_block_bytes_full(m0, -1, -1, 0, b.body@);
    let done = render_bytes(m0, secs, syms, -1, -1, 0, b.body@, cols as int);
    assert((CanvasModel { bytes: plain_cells(b.body@, cols as int), has_data: true, ..m0 })
        =~~= m_full);
    let flushed = crate::hexprinter::flush_force_spec(m_full);
    assert(done.0 == (CanvasModel { line_addr: (0 + cols) as u64, ..flushed }));
    assert(!done.0.has_data);
    assert(bound_spec(done.0) == done.0);
    assert(render_blocks(m0, secs, syms, -1, -1, blocks, 1) == render_block(
        m0,
        secs,
        syms,
        -1,
        -1,
        b,
    ));
    let endst = render_blocks(m0, secs, syms, -1, -1, blocks, 1);
    assert(endst.0 == done.0);
    let f1 = sweep_adv(endst.0, secs, endst.1, u64::MAX as int, false);
    let f2 = sweep_adv(f1.0, syms, endst.2, u64::MAX as int, true);
    lemma_sweep_adv_empty(endst.0, endst.1, u64::MAX as int, false);
    lemma_sweep_adv_empty(f1.0, endst.2, u64::MAX as int, true);
    assert(flush_spec(f2.0) == f2.0);
    assert(render_spec(blocks, secs, syms, cols, break_on_bounds) == flushed.out);
}

/// Gap detection: two one-line blocks separated by more than one full
/// line of address space render with exactly one gap marker between their
/// two lines — a single marker for the whole jump, not one per skipped
/// line, and no other output.
pub proof fn lemma_gap_marker_once(b1: Block, b2: Block, cols: u64, break_on_bounds: bool)
    requires
        1 <= cols,
        b1.addr == 0,
        b1.body@.len() == cols,
        b2.body@.len() == cols,
        b2.addr as int % cols as int == 0,
        b2.addr > 2 * cols,
        b2.addr + cols <= u64::MAX,
    ensures
        ({
            let line1 = crate::hexprinter::flush_force_spec(CanvasModel {
                cols,
                break_on_bounds,
                bytes: plain_cells(b1.body@, cols as int),
                labels: Seq::empty(),
                line_addr: 0,
                last_line_addr: Option::None,
                out: Seq::empty(),
                has_data: true,
            });
            let gapped = crate::style::raw_spec(line1.out, seq!['.', '.', '.', '\n']);
            render_spec(seq![b1, b2], Seq::empty(), Seq::empty(), cols, break_on_bounds)
                == crate::hexprinter::flush_force_spec(CanvasModel {
                cols,
                break_on_bounds,
                bytes: plain_cells(b2.body@, cols as int),
                labels: Seq::empty(),
                line_addr: b2.addr,
                last_line_addr: Option::Some(0),
                out: gapped,
                has_data: true,
            }).out
        }),
{
    let secs = Seq::<Section>::empty();
    let syms = Seq::<Section>::empty();
    let m0 = new_canvas_spec(cols, break_on_bounds);
    let blocks = seq![b1, b2];
    assert(blocks[0] == b1);
    assert(blocks[1] == b2);
    assert(render_blocks(m0, secs, syms, -1, -1, blocks, 0) == (m0, -1int, -1int));
    assert(0int / cols as int == 0 && 0int % cols as int == 0) by (nonlinear_arith)
        requires
            1 <= cols,
    ;
    // first block: exactly as in the single-line case
    let aligned1 = set_addr_spec(m0, 0);
    assert(aligned1 =~~= m0);
    let m_full1 = CanvasModel {
        cols,
        break_on_bounds,
        bytes: plain_cells(b1.body@, cols as int),
        labels: Seq::empty(),
        line_addr: 0,
        last_line_addr: Option::None,
        out: Seq::empty(),
        has_data: true,
    };
    lemma_block_bytes_full(m0, -1, -1, 0, b1.body@);
    let done1 = render_bytes(m0, secs, syms, -1, -1, 0, b1.body@, cols as int);
    assert((CanvasModel { bytes: plain_cells(b1.body@, cols as int), has_data: true, ..m0 })
        =~~= m_full1);
    let line1 = crate::hexprinter::flush_force_spec(m_full1);
    assert(done1.0 == (CanvasModel { line_addr: (0 + cols) as u64, ..line1 }));
    assert(bound_spec(done1.0) == done1.0);
    let st1 = render_blocks(m0, secs, syms, -1, -1, blocks, 1);
    assert(st1.0 == done1.0);
    let m_a = st1.0;
    assert(m_a.line_addr == cols);
    assert(m_a.bytes == Seq::<Option<crate::hexprinter::ByteCell>>::empty());
    assert(!m_a.has_data);
    assert(m_a.out == line1.out);
    assert(m_a.last_line_addr == Option::Some(0u64));
    // second block: the sweeps still have nothing to do
    let s1 = sweep_adv(m_a, secs, st1.1, b2.addr - 1, false);
    let s2 = sweep_adv(s1.0, syms, st1.2, b2.addr - 1, true);
    lemma_sweep_adv_empty(m_a, st1.1, b2.addr - 1, false);
    lemma_sweep_adv_empty(s1.0, st1.2, b2.addr - 1, true);
    assert(s2.0 == m_a);
    // aligning to the second block emits one gap marker and nothing else
    vstd::arithmetic::div_mod::lemma_fundamental_div_mod(b2.addr as int, cols as int);
    assert((b2.addr as int / cols as int) * (cols as int) == (cols as int) * (b2.addr as int
        / cols as int)) by (nonlinear_arith);
    assert(b2.addr as int / cols as int * cols as int == b2.addr);
    let gapped = crate::style::raw_spec(line1.out, seq!['.', '.', '.', '\n']);
    let aligned2 = set_addr_spec(m_a, b2.addr);
    let m_b = CanvasModel { line_addr: b2.addr, out: gapped, ..m_a };
    assert(b2.addr > m_a.line_addr + m_a.cols);
    assert(aligned2 =~~= m_b);
    // and the second block fills its own line
    let m_full2 = CanvasModel {
        cols,
        break_on_bounds,
        bytes: plain_cells(b2.body@, cols as int),
        labels: Seq::empty(),
        line_addr: b2.addr,
        last_line_addr: Option::Some(0),
        out: gapped,
        has_data: true,
    };
    lemma_block_bytes_full(m_b, s1.1, s2.1, b2.addr, b2.body@);
    let done2 = render_bytes(m_b, secs, syms, s1.1, s2.1, b2.addr, b2.body@, cols as int);
    assert((CanvasModel { bytes: plain_cells(b2.body@, cols as int), has_data: true, ..m_b })
        =~~= m_full2);
    let line2 = crate::hexprinter::flush_force_spec(m_full2);
    assert(done2.0 == (CanvasModel { line_addr: (b2.addr + cols) as u64, ..line2 }));
    assert(bound_spec(done2.0) == done2.0);
    let st2 = render_blocks(m0, secs, syms, -1, -1, blocks, 2);
    assert(st2 == render_block(st1.0, secs, syms, st1.1, st1.2, b2));
    assert(st2.0 == done2.0);
    let f1 = sweep_adv(st2.0, secs, st2.1, u64::MAX as int, false);
    let f2 = sweep_adv(f1.0, syms, st2.2, u64::MAX as int, true);
    lemma_sweep_adv_empty(st2.0, st2.1, u64::MAX as int, false);
    lemma_sweep_adv_empty(f1.0, st2.2, u64::MAX as int, true);
    assert(flush_spec(f2.0) == f2.0);
    assert(render_spec(blocks, secs, syms, cols, break_on_bounds) == line2.out);
}

/// The configuration read once per invocation.
#[derive(Debug)]
pub struct Args {
    pub filename: String,
    pub cols: u64,
    pub break_on_bounds: bool,
    pub hide_empty: bool,
    pub demangle: bool,
}

/// Render `blocks` with the `sections` ranges as background stripes and
/// the `symbols` ranges as verbose foreground annotations, returning the
/// styled output runs.
#[verifier::rlimit(100)]
pub fn run_inner(
    blocks: Vec<Block>,
    sections: Vec<Section>,
    symbols: Vec<Section>,
    cols: u64,
    break_on_bounds: bool,
) -> (out: Vec<StyledRun>)
    requires
        1 <= cols,
        cols as int <= usize::MAX as int,
        ranges_ok(sections@),
        ranges_ok(symbols@),
        forall|k: int|
            0 <= k < blocks@.len() ==> (#[trigger] blocks@[k]).addr + blocks@[k].body@.len()
                + cols <= u64::MAX,
    ensures
        Seq::new(out@.len(), |i: int| out@[i]@) == render_spec(
            blocks@,
            sections@,
            symbols@,
            cols,
            break_on_bounds,
        ),
{
    let ghost blks = blocks@;
    let ghost secs = sections@;
    let ghost syms = symbols@;
    let mut printer = HexPrinter::new(cols, break_on_bounds);
    let ghost m_init = printer@;

    let mut symbol_events = SectionEvents::new(symbols);
    let mut section_events = SectionEvents::new(sections);

    let nb = blocks.len();
    let mut bi: usize = 0;
    while bi < nb
        invariant
            nb == blks.len(),
            blocks@ == blks,
            bi <= nb,
            ranges_ok(secs),
            ranges_ok(syms),
            forall|k: int|
                0 <= k < blks.len() ==> (#[trigger] blks[k]).addr + blks[k].body@.len() + cols
                    <= u64::MAX,
            section_events.wf(),
            symbol_events.wf(),
            section_events.symbols@ == secs,
            symbol_events.symbols@ == syms,
            printer@.cols_ok(),
            printer@.tidy(),
            printer@.cols == cols,
            printer@.break_on_bounds == break_on_bounds,
            m_init == new_canvas_spec(cols, break_on_bounds),
            ({
                let st = render_blocks(m_init, secs, syms, -1, -1, blks, bi as int);
                printer@ == st.0 && section_events.hi_val() == st.1 && symbol_events.hi_val()
                    == st.2
            }),
        decreases nb - bi,
    {
        let ghost st_prev = render_blocks(m_init, secs, syms, -1, -1, blks, bi as int);
        let b_addr = blocks[bi].addr;
        if b_addr != 0 {
            section_events.advance(b_addr - 1, &mut printer, false);
            symbol_events.advance(b_addr - 1, &mut printer, true);
        }
        printer.set_addr(b_addr);
        let ghost m2g = printer@;
        let ghost hi1g = section_events.hi_val();
        let ghost hi2g = symbol_events.hi_val();
        proof {
            let pre = if blks[bi as int].addr != 0 {
                let s1 = sweep_adv(st_prev.0, secs, st_prev.1, blks[bi as int].addr - 1, false);
                let s2 = sweep_adv(s1.0, syms, st_prev.2, blks[bi as int].addr - 1, true);
                (s2.0, s1.1, s2.1)
            } else {
                (st_prev.0, st_prev.1, st_prev.2)
            };
            assert(hi1g == pre.1);
            assert(hi2g == pre.2);
            assert(m2g == set_addr_spec(pre.0, blks[bi as int].addr));
        }

        let nbytes = blocks[bi].body.len();
        let mut j: usize = 0;
        while j < nbytes
            invariant
                nb == blks.len(),
                blocks@ == blks,
                bi < nb,
                j <= nbytes,
                nbytes == blks[bi as int].body@.len(),
                b_addr == blks[bi as int].addr,
                ranges_ok(secs),
                ranges_ok(syms),
                forall|k: int|
                    0 <= k < blks.len() ==> (#[trigger] blks[k]).addr + blks[k].body@.len() + cols
                        <= u64::MAX,
                section_events.wf(),
                symbol_events.wf(),
                section_events.symbols@ == secs,
                symbol_events.symbols@ == syms,
                printer@.cols_ok(),
                printer@.tidy(),
                printer@.cols == cols,
                printer@.break_on_bounds == break_on_bounds,
                printer@.pos() <= b_addr + j,
                ({
                    let stb = render_bytes(
                        m2g,
                        secs,
                        syms,
                        hi1g,
                        hi2g,
                        b_addr,
                        blks[bi as int].body@,
                        j as int,
                    );
                    printer@ == stb.0 && section_events.hi_val() == stb.1
                        && symbol_events.hi_val() == stb.2
                }),
            decreases nbytes - j,
        {
            let ghost stb_prev = render_bytes(
                m2g,
                secs,
                syms,
                hi1g,
                hi2g,
                b_addr,
                blks[bi as int].body@,
                j as int,
            );
            let a = b_addr + j as u64;
            section_events.advance(a, &mut printer, false);
            symbol_events.advance(a, &mut printer, true);
            proof {
                let s1 = sweep_adv(stb_prev.0, secs, stb_prev.1, a as int, false);
                let s2 = sweep_adv(s1.0, syms, stb_prev.2, a as int, true);
                assert(section_events.hi_val() == s1.1);
                assert(symbol_events.hi_val() == s2.1);
                assert(printer@ == s2.0);
            }
            let byte = blocks[bi].body[j];
            let sy = symbol_events.get();
            let fg: u8 = match sy {
                Option::Some(i) => (i % 7 + 1) as u8,
                Option::None => 8,
            };
            let se = section_events.get();
            let bgi: usize = match se {
                Option::Some(i) => i,
                Option::None => 0,
            };
            let bg: u8 = if bgi % 2 == 0 { 232 } else { 236 };
            proof {
                lemma_top_active_props(syms, symbol_events.hi_val(), syms.len() as int);
                lemma_top_active_props(secs, section_events.hi_val(), secs.len() as int);
                assert(fg == byte_fg(syms, symbol_events.hi_val()));
                assert(bg == byte_bg(secs, section_events.hi_val()));
            }
            printer.push_byte(byte, fg, bg);
            j = j + 1;
        }
        printer.bound();
        bi = bi + 1;
        proof {
            let done = render_bytes(
                m2g,
                secs,
                syms,
                hi1g,
                hi2g,
                b_addr,
                blks[bi as int - 1].body@,
                blks[bi as int - 1].body@.len() as int,
            );
            assert(printer@ == bound_spec(done.0));
            assert(render_blocks(m_init, secs, syms, -1, -1, blks, bi as int)
                == render_block(st_prev.0, secs, syms, st_prev.1, st_prev.2, blks[bi as int - 1]));
        }
    }
    section_events.advance(u64::MAX, &mut printer, false);
    symbol_events.advance(u64::MAX, &mut printer, true);
    printer.flush_line();
    proof {
        assert(printer@.out == render_spec(blks, secs, syms, cols, break_on_bounds));
    }
    let out = printer.printer.runs;
    out
}

} // verus!
