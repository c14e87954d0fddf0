//! Scanner for SVG path data.
//!
//! The grammar accepted is the SVG path mini-language: the command letters
//! `MmLlHhVvCcSsQqTtAaZz`, numbers with an optional sign and at most one
//! decimal point, single-digit flags for arcs, and optional commas between
//! arguments. Repeated arguments implicitly continue the previous command;
//! for `M`/`m` the continuation arguments describe lines.
//!
//! The scanner works on bytes and yields the commands as operators with
//! number spans into the source, leaving the numeric evaluation (and the
//! coordinate bookkeeping it needs) to the caller. A number span holds one
//! to thirty-two digit-or-dot bytes, among them at least one digit and at
//! most one dot, which is exactly what the number grammar admits.
//!
//! The grammar itself is written down as a specification scanner over the
//! byte sequence (`spec_scan` and the `s_`-prefixed functions it is built
//! from); the executable scanner is proved to return exactly its commands,
//! consumed position and error flag, and `validate_svg` accepts a string
//! exactly when that scanner consumes it whole without error.

use vstd::prelude::*;
use vstd::string::StringSliceAdditionalSpecFns;

verus! {

/// A decimal digit byte.
pub open spec fn is_digit(b: u8) -> bool {
    48 <= b <= 57
}

/// One unsigned number in the source: the bytes `src[start..end]`, negated
/// when a `-` sign preceded them.
#[derive(Copy, Clone, PartialEq, Eq, Structural, Debug)]
pub struct SvgNumber {
    pub neg: bool,
    pub start: usize,
    pub end: usize,
}

/// A well-formed number span: short, made of digits and at most one dot,
/// and holding at least one digit.
pub open spec fn num_wf(src: Seq<u8>, n: SvgNumber) -> bool {
    &&& n.start < n.end <= src.len()
    &&& n.end - n.start <= 32
    &&& forall|j: int| n.start <= j < n.end ==> is_digit(#[trigger] src[j]) || src[j] == 0x2e
    &&& exists|j: int| n.start <= j < n.end && is_digit(#[trigger] src[j])
}

/// One argument of a command: a number, or a single-digit arc flag.
#[derive(Copy, Clone, PartialEq, Eq, Structural, Debug)]
pub enum SvgArg {
    Num(SvgNumber),
    Flag(bool),
}

/// One scanned command: its letter as written, its arguments, and whether
/// it continues a previous command's argument run (for `M`/`m`, such a
/// continuation describes a line).
///
/// `ctx` is the byte that stood under the cursor when the scan of this
/// command began: the command's own letter in the common case, an
/// argument byte for an implicit repetition, a stray sign after a broken
/// argument run, or zero at the start of input. The evaluation of the
/// smooth commands `S` and `T` consults it: their control point reflects
/// only when it is a curve letter.
pub struct SvgCmd {
    pub op: u8,
    pub implicit: bool,
    pub ctx: u8,
    pub args: Vec<SvgArg>,
}

/// How many number arguments each command letter takes (arcs also carry
/// two flags, placed between the third and fourth number).
pub open spec fn op_num_count(op: u8) -> int {
    if op == 0x5a || op == 0x7a {  // Z z
        0
    } else if op == 0x48 || op == 0x68 || op == 0x56 || op == 0x76 {  // H h V v
        1
    } else if op == 0x4d || op == 0x6d || op == 0x4c || op == 0x6c || op == 0x54 || op == 0x74 {
        2  // M m L l T t
    } else if op == 0x53 || op == 0x73 || op == 0x51 || op == 0x71 {  // S s Q q
        4
    } else if op == 0x43 || op == 0x63 {  // C c
        6
    } else if op == 0x41 || op == 0x61 {  // A a
        5
    } else {
        -1
    }
}

/// Whether a letter is an arc command, whose argument run is three
/// numbers, two flags, then two numbers.
pub open spec fn op_is_arc(op: u8) -> bool {
    op == 0x41 || op == 0x61
}

/// A well-formed scanned command: a known letter with the right number of
/// arguments, every number span well-formed, and flags exactly at the arc
/// positions.
pub open spec fn cmd_wf(src: Seq<u8>, c: SvgCmd) -> bool {
    &&& op_num_count(c.op) >= 0
    &&& if op_is_arc(c.op) {
        &&& c.args@.len() == 7
        &&& forall|j: int|
            0 <= j < 7 && j != 3 && j != 4 ==> ((#[trigger] c.args@[j]) matches SvgArg::Num(n)
                && num_wf(src, n))
        &&& (c.args@[3] matches SvgArg::Flag(_))
        &&& (c.args@[4] matches SvgArg::Flag(_))
    } else {
        &&& c.args@.len() == op_num_count(c.op)
        &&& forall|j: int|
            0 <= j < c.args@.len() ==> ((#[trigger] c.args@[j]) matches SvgArg::Num(n) && num_wf(
                src,
                n,
            ))
    }
}

/// The result of scanning a path string: the commands up to the first
/// error, how many bytes were consumed, and whether a malformed command
/// letter was hit (in which case `pos` points just past it).
pub struct SvgScan {
    pub cmds: Vec<SvgCmd>,
    pub pos: usize,
    pub error: bool,
}


/// Cursor of the specification scanner: the matching model of the byte
/// cursor below.
pub struct SpecCur {
    pub pos: int,
    pub cur: u8,
    pub done: bool,
}

/// One scanned command, at the specification level.
pub struct SpecCmd {
    pub op: u8,
    pub implicit: bool,
    pub ctx: u8,
    pub args: Seq<SvgArg>,
}

/// The complete result of scanning a byte sequence.
pub struct ScanModel {
    pub cmds: Seq<SpecCmd>,
    pub pos: int,
    pub error: bool,
}

/// A sound cursor: within the source, and at its end exactly when done.
pub open spec fn s_ok(src: Seq<u8>, c: SpecCur) -> bool {
    c.pos <= src.len() && (c.done ==> c.pos == src.len())
}

/// One cursor step.
pub open spec fn s_advance(src: Seq<u8>, c: SpecCur) -> SpecCur {
    if c.pos == src.len() {
        SpecCur { pos: c.pos, cur: 0, done: true }
    } else {
        SpecCur { pos: c.pos + 1, cur: src[c.pos], done: c.done }
    }
}

/// Whitespace skipping.
pub open spec fn s_skip_ws(src: Seq<u8>, c: SpecCur) -> SpecCur
    decreases src.len() - c.pos + (if c.done {
        0int
    } else {
        1int
    }),
{
    if !s_ok(src, c) {
        c
    } else if c.cur == 0x09 || c.cur == 0x20 || c.cur == 0x0a || c.cur == 0x0c || c.cur == 0x0d {
        if c.done {
            c
        } else {
            s_skip_ws(src, s_advance(src, c))
        }
    } else {
        c
    }
}

/// One optional comma amid whitespace.
pub open spec fn s_skip_comma_ws(src: Seq<u8>, c: SpecCur) -> SpecCur {
    let c1 = s_skip_ws(src, c);
    if c1.cur == 0x2c {
        s_skip_ws(src, s_advance(src, c1))
    } else {
        c1
    }
}

/// The number scanner's collection walk.
pub open spec fn s_number_loop(
    src: Seq<u8>,
    c: SpecCur,
    start: int,
    n: int,
    digits: int,
    has_decimal: bool,
) -> (Option<SvgNumber>, SpecCur)
    decreases src.len() - c.pos + (if c.done {
        0int
    } else {
        1int
    }),
{
    let finish = if digits == 0 {
        (None::<SvgNumber>, c)
    } else {
        (
            Some(SvgNumber { neg: false, start: start as usize, end: (start + n) as usize }),
            c,
        )
    };
    if !s_ok(src, c) || c.done {
        finish
    } else if c.cur == 0x2e {
        if has_decimal {
            finish
        } else if n == 32 {
            (None::<SvgNumber>, c)
        } else {
            s_number_loop(src, s_advance(src, c), start, n + 1, digits, true)
        }
    } else if 0x30 <= c.cur <= 0x39 {
        if n == 32 {
            (None::<SvgNumber>, c)
        } else {
            s_number_loop(src, s_advance(src, c), start, n + 1, digits + 1, has_decimal)
        }
    } else {
        finish
    }
}

/// An unsigned number.
pub open spec fn s_number(src: Seq<u8>, c: SpecCur) -> (Option<SvgNumber>, SpecCur) {
    let start = if c.done {
        c.pos
    } else {
        c.pos - 1
    };
    s_number_loop(src, c, start, 0, 0, false)
}

/// A number with an optional sign.
pub open spec fn s_coord(src: Seq<u8>, c: SpecCur) -> (Option<SvgNumber>, SpecCur) {
    if c.cur == 0x2b {
        s_number(src, s_advance(src, c))
    } else if c.cur == 0x2d {
        let (r, c1) = s_number(src, s_advance(src, c));
        match r {
            Some(n) => (Some(SvgNumber { neg: true, start: n.start, end: n.end }), c1),
            None => (None::<SvgNumber>, c1),
        }
    } else {
        s_number(src, c)
    }
}

/// An arc flag.
pub open spec fn s_boolean(src: Seq<u8>, c: SpecCur) -> (Option<bool>, SpecCur) {
    if c.cur == 0x30 {
        (Some(false), s_advance(src, c))
    } else if c.cur == 0x31 {
        (Some(true), s_advance(src, c))
    } else {
        (None::<bool>, c)
    }
}

/// `count` further numbers, each preceded by comma-whitespace.
pub open spec fn s_more_coords(src: Seq<u8>, c: SpecCur, count: int, args: Seq<SvgArg>) -> (
    bool,
    SpecCur,
    Seq<SvgArg>,
)
    decreases count,
{
    if count <= 0 {
        (true, c, args)
    } else {
        let (r, c1) = s_coord(src, s_skip_comma_ws(src, c));
        match r {
            Some(n) => s_more_coords(src, c1, count - 1, args.push(SvgArg::Num(n))),
            None => (false, c1, args),
        }
    }
}

/// The tail of an arc argument run, after its first radius.
pub open spec fn s_scan_arc_rest(
    src: Seq<u8>,
    c: SpecCur,
    args: Seq<SvgArg>,
    lead_sep: bool,
) -> (u8, SpecCur, Seq<SvgArg>) {
    let (okr, cr, argsr) = if lead_sep {
        s_more_coords(src, c, 1, args)
    } else {
        let (r, c1) = s_coord(src, c);
        match r {
            Some(n) => (true, c1, args.push(SvgArg::Num(n))),
            None => (false, c1, args),
        }
    };
    if !okr {
        (2u8, cr, argsr)
    } else {
        let (oka, ca, argsa) = s_more_coords(src, cr, 1, argsr);
        if !oka {
            (2u8, ca, argsa)
        } else {
            let cf1 = s_skip_comma_ws(src, ca);
            let (f1, cf1b) = s_boolean(src, cf1);
            match f1 {
                None => (2u8, cf1b, argsa),
                Some(b1) => {
                    let argsb1 = argsa.push(SvgArg::Flag(b1));
                    let cf2 = s_skip_comma_ws(src, cf1b);
                    let (f2, cf2b) = s_boolean(src, cf2);
                    match f2 {
                        None => (2u8, cf2b, argsb1),
                        Some(b2) => {
                            let argsb2 = argsb1.push(SvgArg::Flag(b2));
                            let (okp, cp, argsp) = s_more_coords(src, cf2b, 2, argsb2);
                            if !okp {
                                (2u8, cp, argsp)
                            } else {
                                (1u8, s_skip_comma_ws(src, cp), argsp)
                            }
                        },
                    }
                },
            }
        }
    }
}

/// The argument run of an explicitly written command letter.
pub open spec fn s_scan_explicit(src: Seq<u8>, c: SpecCur, op: u8) -> (u8, SpecCur, Seq<SvgArg>) {
    if op == 0x41 || op == 0x61 {
        let (r, c1) = s_coord(src, c);
        match r {
            Some(n) => s_scan_arc_rest(src, c1, seq![SvgArg::Num(n)], true),
            None => (2u8, c1, Seq::<SvgArg>::empty()),
        }
    } else if op_num_count(op) < 0 || op == 0x5a || op == 0x7a {
        (0u8, c, Seq::<SvgArg>::empty())
    } else {
        let count = op_num_count(op);
        let (r, c1) = s_coord(src, c);
        match r {
            Some(n) => {
                let args1 = seq![SvgArg::Num(n)];
                let (okm, c2, args2) = if count > 1 {
                    s_more_coords(src, c1, count - 1, args1)
                } else {
                    (true, c1, args1)
                };
                if !okm {
                    (2u8, c2, args2)
                } else {
                    (1u8, s_skip_comma_ws(src, c2), args2)
                }
            },
            None => (2u8, c1, Seq::<SvgArg>::empty()),
        }
    }
}

/// An implicit repetition of the previous command's argument run.
pub open spec fn s_scan_continuation(src: Seq<u8>, c: SpecCur, op: u8) -> (
    u8,
    SpecCur,
    Seq<SvgArg>,
) {
    if op_num_count(op) < 0 || op == 0x5a || op == 0x7a {
        (0u8, c, Seq::<SvgArg>::empty())
    } else {
        let soft: int = if op == 0x48 || op == 0x68 || op == 0x56 || op == 0x76 || op == 0x41 || op
            == 0x61 {
            1
        } else {
            2
        };
        let (r, c1) = s_coord(src, c);
        match r {
            Some(n) => {
                let args1 = seq![SvgArg::Num(n)];
                let (oks, c2, args2) = if soft == 2 {
                    s_more_coords(src, c1, 1, args1)
                } else {
                    (true, c1, args1)
                };
                if !oks {
                    (0u8, c2, Seq::<SvgArg>::empty())
                } else if op == 0x41 || op == 0x61 {
                    s_scan_arc_rest(src, c2, args2, false)
                } else {
                    let rest: int = if op == 0x53 || op == 0x73 || op == 0x51 || op == 0x71 {
                        2
                    } else if op == 0x43 || op == 0x63 {
                        4
                    } else {
                        0
                    };
                    let (okr, c3, args3) = if rest > 0 {
                        s_more_coords(src, c2, rest, args2)
                    } else {
                        (true, c2, args2)
                    };
                    if !okr {
                        (2u8, c3, args3)
                    } else {
                        (1u8, s_skip_comma_ws(src, c3), args3)
                    }
                }
            },
            None => (0u8, c1, Seq::<SvgArg>::empty()),
        }
    }
}

/// The command-letter phase of one scan step.
pub open spec fn s_scan_letter(
    src: Seq<u8>,
    c: SpecCur,
    ctx: u8,
    cmds: Seq<SpecCmd>,
    fuel: nat,
) -> ScanModel
    decreases fuel, 1int,
{
    let c1 = s_skip_ws(src, c);
    let cmd_pos = c1.pos;
    let op = c1.cur;
    let was_done = c1.done;
    let c2 = s_skip_ws(src, s_advance(src, c1));
    if op == 0x5a || op == 0x7a {
        s_scan_loop(
            src,
            c2,
            0,
            c2.cur,
            cmds.push(SpecCmd { op, implicit: false, ctx, args: Seq::<SvgArg>::empty() }),
            fuel,
        )
    } else {
        let (taken, c3, args) = s_scan_explicit(src, c2, op);
        if taken == 1 {
            s_scan_loop(src, c3, op, c3.cur, cmds.push(SpecCmd { op, implicit: false, ctx, args }), fuel)
        } else if taken == 2 {
            ScanModel { cmds, pos: c3.pos, error: false }
        } else if !was_done || op != 0 {
            ScanModel { cmds, pos: cmd_pos, error: true }
        } else {
            ScanModel { cmds, pos: c3.pos, error: false }
        }
    }
}

/// The scanner's main loop: one fuel unit per scanned command.
pub open spec fn s_scan_loop(
    src: Seq<u8>,
    c: SpecCur,
    cont: u8,
    ctx: u8,
    cmds: Seq<SpecCmd>,
    fuel: nat,
) -> ScanModel
    decreases fuel, 0int,
{
    if fuel == 0 {
        ScanModel { cmds, pos: c.pos, error: false }
    } else {
        let fuel2 = (fuel - 1) as nat;
        if cont != 0 {
            let (taken, c1, args) = s_scan_continuation(src, c, cont);
            if taken == 1 {
                s_scan_loop(
                    src,
                    c1,
                    cont,
                    c1.cur,
                    cmds.push(SpecCmd { op: cont, implicit: true, ctx, args }),
                    fuel2,
                )
            } else if taken == 2 {
                ScanModel { cmds, pos: c1.pos, error: false }
            } else {
                s_scan_letter(src, c1, ctx, cmds, fuel2)
            }
        } else {
            s_scan_letter(src, c, ctx, cmds, fuel2)
        }
    }
}

/// What scanning a whole byte sequence yields: the commands up to the
/// first error, the bytes consumed, and whether a malformed command
/// letter was hit. This is the grammar the scanner accepts, stated as a
/// function of the bytes alone.
pub open spec fn spec_scan(src: Seq<u8>) -> ScanModel {
    s_scan_loop(
        src,
        s_skip_ws(src, s_advance(src, SpecCur { pos: 0, cur: 0, done: false })),
        0,
        0,
        Seq::<SpecCmd>::empty(),
        (src.len() + 2) as nat,
    )
}

/// A byte sequence that is valid SVG path data: the scan consumes every
/// byte without hitting a malformed command letter.
pub open spec fn svg_valid(src: Seq<u8>) -> bool {
    !spec_scan(src).error && spec_scan(src).pos == src.len()
}

impl SvgCmd {
    /// The specification-level value of a scanned command.
    pub open spec fn model(&self) -> SpecCmd {
        SpecCmd { op: self.op, implicit: self.implicit, ctx: self.ctx, args: self.args@ }
    }
}

/// The specification-level values of a scanned command sequence.
pub open spec fn models_of(cmds: Seq<SvgCmd>) -> Seq<SpecCmd> {
    cmds.map_values(|c: SvgCmd| c.model())
}

/// Appending a command appends its model.
proof fn lemma_models_push(s: Seq<SvgCmd>, c: SvgCmd)
    ensures
        models_of(s.push(c)) == models_of(s).push(c.model()),
{
    assert(models_of(s.push(c)) =~= models_of(s).push(c.model()));
}

/// Byte cursor over the source. `cur` is the byte at `pos - 1`, or zero
/// once the input is exhausted.
struct Scanner<'a> {
    buf: &'a [u8],
    cur: u8,
    pos: usize,
    done: bool,
}

impl<'a> Scanner<'a> {
    /// The cursor as the specification scanner sees it.
    spec fn model(&self) -> SpecCur {
        SpecCur { pos: self.pos as int, cur: self.cur, done: self.done }
    }

    /// The cursor stays within the source and `cur` mirrors it.
    spec fn wf(&self) -> bool {
        &&& self.pos <= self.buf@.len()
        &&& (self.done ==> self.pos == self.buf@.len() && self.cur == 0)
        &&& (!self.done ==> 1 <= self.pos && self.cur == self.buf@[self.pos - 1])
    }

    fn new(buf: &'a [u8]) -> (s: Self)
        ensures
            s.wf(),
            s.buf@ == buf@,
            s.pos <= 1,
            s.model() == s_advance(buf@, SpecCur { pos: 0, cur: 0, done: false }),
    {
        let mut s = Scanner { buf, cur: 0, pos: 0, done: false };
        s.advance();
        s
    }

    /// Steps to the next byte, or marks the end of input.
    fn advance(&mut self)
        requires
            old(self).pos <= old(self).buf@.len(),
            old(self).done ==> old(self).pos == old(self).buf@.len(),
        ensures
            final(self).wf(),
            final(self).buf == old(self).buf,
            old(self).pos <= final(self).pos,
            final(self).pos <= old(self).pos + 1,
            old(self).pos < old(self).buf@.len() ==> final(self).pos == old(self).pos + 1
                && !final(self).done,
            old(self).pos == old(self).buf@.len() ==> final(self).done && final(self).pos == old(
                self,
            ).pos,
            final(self).model() == s_advance(old(self).buf@, old(self).model()),
    {
        if self.pos == self.buf.len() {
            self.done = true;
            self.cur = 0;
        } else {
            self.cur = self.buf[self.pos];
            self.pos = self.pos + 1;
        }
    }

    /// Consumes `b` if it is the current byte.
    fn accept(&mut self, b: u8) -> (r: bool)
        requires
            old(self).wf(),
        ensures
            final(self).wf(),
            final(self).buf == old(self).buf,
            old(self).pos <= final(self).pos,
            r == (old(self).cur == b),
            r ==> final(self).model() == s_advance(old(self).buf@, old(self).model()),
            !r ==> final(self).model() == old(self).model(),
    {
        if self.cur == b {
            self.advance();
            return true;
        }
        false
    }

    /// Skips whitespace.
    fn skip_whitespace(&mut self)
        requires
            old(self).wf(),
        ensures
            final(self).wf(),
            final(self).buf == old(self).buf,
            old(self).pos <= final(self).pos,
            final(self).model() == s_skip_ws(old(self).buf@, old(self).model()),
    {
        let ghost tgt = s_skip_ws(self.buf@, self.model());
        loop
            invariant
                self.wf(),
                self.buf == old(self).buf,
                old(self).pos <= self.pos,
                s_skip_ws(self.buf@, self.model()) == tgt,
            ensures
                self.wf(),
                self.buf == old(self).buf,
                old(self).pos <= self.pos,
                self.model() == tgt,
            decreases self.buf@.len() - self.pos + (if self.done {
                0int
            } else {
                1int
            }),
        {
            let c = self.cur;
            if c == 0x09 || c == 0x20 || c == 0x0a || c == 0x0c || c == 0x0d {
                if self.done {
                    break;
                }
                self.advance();
            } else {
                break;
            }
        }
    }

    /// Skips whitespace, one optional comma, and more whitespace.
    fn skip_comma_whitespace(&mut self)
        requires
            old(self).wf(),
        ensures
            final(self).wf(),
            final(self).buf == old(self).buf,
            old(self).pos <= final(self).pos,
            final(self).model() == s_skip_comma_ws(old(self).buf@, old(self).model()),
    {
        self.skip_whitespace();
        if self.accept(0x2c) {
            self.skip_whitespace();
        }
    }

    /// Scans an unsigned number: digits with at most one dot, at most
    /// thirty-two bytes, at least one digit.
    fn number(&mut self) -> (r: Option<SvgNumber>)
        requires
            old(self).wf(),
        ensures
            final(self).wf(),
            final(self).buf == old(self).buf,
            old(self).pos <= final(self).pos,
            r matches Some(n) ==> num_wf(final(self).buf@, n) && !n.neg,
            (r, final(self).model()) == s_number(old(self).buf@, old(self).model()),
    {
        let ghost tgt = s_number(self.buf@, self.model());
        let start = if self.done {
            self.pos
        } else {
            self.pos - 1
        };
        let mut n: usize = 0;
        let mut digits: usize = 0;
        let mut has_decimal = false;
        loop
            invariant
                tgt == s_number(old(self).buf@, old(self).model()),
                s_number_loop(
                    self.buf@,
                    self.model(),
                    start as int,
                    n as int,
                    digits as int,
                    has_decimal,
                ) == tgt,
                self.wf(),
                self.buf == old(self).buf,
                old(self).pos <= self.pos,
                start + n <= self.buf@.len(),
                n <= 32,
                digits <= n,
                start + n == (if self.done {
                    self.pos as int
                } else {
                    self.pos - 1
                }),
                forall|j: int|
                    start <= j < start + n ==> is_digit(#[trigger] self.buf@[j]) || self.buf@[j]
                        == 0x2e,
                digits > 0 ==> exists|j: int|
                    start <= j < start + n && is_digit(#[trigger] self.buf@[j]),
            ensures
                self.wf(),
                self.buf == old(self).buf,
                old(self).pos <= self.pos,
                start + n <= self.buf@.len(),
                n <= 32,
                forall|j: int|
                    start <= j < start + n ==> is_digit(#[trigger] self.buf@[j]) || self.buf@[j]
                        == 0x2e,
                digits > 0 ==> exists|j: int|
                    start <= j < start + n && is_digit(#[trigger] self.buf@[j]),
                s_number_loop(
                    self.buf@,
                    self.model(),
                    start as int,
                    n as int,
                    digits as int,
                    has_decimal,
                ) == tgt,
                self.done || !(self.cur == 0x2e && !has_decimal) && !(0x30 <= self.cur <= 0x39),
            decreases self.buf@.len() - self.pos + (if self.done {
                0int
            } else {
                1int
            }),
        {
            let c = self.cur;
            if self.done {
                break;
            }
            if c == 0x2e {
                if has_decimal {
                    break;
                }
                if n == 32 {
                    proof {
                        assert(tgt == (None::<SvgNumber>, self.model()));
                    }
                    return None;
                }
                n = n + 1;
                has_decimal = true;
            } else if c >= 0x30 && c <= 0x39 {
                if n == 32 {
                    proof {
                        assert(tgt == (None::<SvgNumber>, self.model()));
                    }
                    return None;
                }
                n = n + 1;
                digits = digits + 1;
            } else {
                break;
            }
            self.advance();
        }
        if digits == 0 {
            return None;
        }
        Some(SvgNumber { neg: false, start, end: start + n })
    }

    /// Scans a number with an optional leading sign.
    fn coord(&mut self) -> (r: Option<SvgNumber>)
        requires
            old(self).wf(),
        ensures
            final(self).wf(),
            final(self).buf == old(self).buf,
            old(self).pos <= final(self).pos,
            r matches Some(n) ==> num_wf(final(self).buf@, n),
            (r, final(self).model()) == s_coord(old(self).buf@, old(self).model()),
    {
        if self.cur == 0x2b {
            self.advance();
            self.number()
        } else if self.cur == 0x2d {
            self.advance();
            match self.number() {
                Some(n) => Some(SvgNumber { neg: true, start: n.start, end: n.end }),
                None => None,
            }
        } else {
            self.number()
        }
    }

    /// Scans an arc flag: a single `0` or `1`.
    fn boolean(&mut self) -> (r: Option<bool>)
        requires
            old(self).wf(),
        ensures
            final(self).wf(),
            final(self).buf == old(self).buf,
            old(self).pos <= final(self).pos,
            (r, final(self).model()) == s_boolean(old(self).buf@, old(self).model()),
    {
        if self.cur == 0x30 {
            self.advance();
            Some(false)
        } else if self.cur == 0x31 {
            self.advance();
            Some(true)
        } else {
            None
        }
    }

    /// Scans `count` further numbers separated by comma-whitespace and
    /// appends them to `args`.
    fn more_coords(&mut self, count: usize, args: &mut Vec<SvgArg>) -> (r: bool)
        requires
            old(self).wf(),
        ensures
            final(self).wf(),
            final(self).buf == old(self).buf,
            old(self).pos <= final(self).pos,
            r ==> final(args)@.len() == old(args)@.len() + count,
            r ==> forall|j: int|
                0 <= j < final(args)@.len() ==> if j < old(args)@.len() {
                    final(args)@[j] == old(args)@[j]
                } else {
                    (#[trigger] final(args)@[j]) matches SvgArg::Num(n) && num_wf(
                        final(self).buf@,
                        n,
                    )
                },
            (r, final(self).model(), final(args)@) == s_more_coords(
                old(self).buf@,
                old(self).model(),
                count as int,
                old(args)@,
            ),
    {
        let ghost tgt = s_more_coords(self.buf@, self.model(), count as int, args@);
        let ghost args0 = args@;
        let mut got: usize = 0;
        while got < count
            invariant
                tgt == s_more_coords(old(self).buf@, old(self).model(), count as int, args0),
                args0 == old(args)@,
                s_more_coords(self.buf@, self.model(), count - got, args@) == tgt,
                self.wf(),
                self.buf == old(self).buf,
                old(self).pos <= self.pos,
                got <= count,
                args@.len() == args0.len() + got,
                forall|j: int|
                    0 <= j < args@.len() ==> if j < args0.len() {
                        args@[j] == args0[j]
                    } else {
                        (#[trigger] args@[j]) matches SvgArg::Num(n) && num_wf(self.buf@, n)
                    },
            decreases count - got,
        {
            self.skip_comma_whitespace();
            match self.coord() {
                Some(n) => {
                    args.push(SvgArg::Num(n));
                },
                None => {
                    return false;
                },
            }
            got = got + 1;
        }
        true
    }
}

/// Scans SVG path data into its command stream, stopping at the first
/// malformed byte. `pos` tells how far the scanner got; on a malformed
/// command letter `error` is set and `pos` points just past that letter.
pub fn scan_svg(src: &[u8]) -> (r: SvgScan)
    ensures
        r.pos <= src@.len(),
        forall|c: int| 0 <= c < r.cmds@.len() ==> cmd_wf(src@, #[trigger] r.cmds@[c]),
        src@.len() == 0 ==> !r.error && r.pos == 0 && r.cmds@.len() == 0,
        models_of(r.cmds@) == spec_scan(src@).cmds,
        r.pos as int == spec_scan(src@).pos,
        r.error == spec_scan(src@).error,
{
    let mut cmds: Vec<SvgCmd> = Vec::new();
    let mut sc = Scanner::new(src);
    sc.skip_whitespace();
    // Nothing yet scanned: the state is "expect a command letter".
    let mut cont: u8 = 0;
    let mut ctx: u8 = 0;
    let mut fuel: u128 = src.len() as u128 + 2;
    proof {
        assert(models_of(cmds@) =~= Seq::<SpecCmd>::empty());
    }
    loop
        invariant_except_break
            s_scan_loop(src@, sc.model(), cont, ctx, models_of(cmds@), fuel as nat) == spec_scan(
                src@,
            ),
        invariant
            sc.wf(),
            sc.buf@ == src@,
            forall|c: int| 0 <= c < cmds@.len() ==> cmd_wf(src@, #[trigger] cmds@[c]),
            src@.len() == 0 ==> cont == 0 && cmds@.len() == 0,
        ensures
            sc.wf(),
            sc.buf@ == src@,
            forall|c: int| 0 <= c < cmds@.len() ==> cmd_wf(src@, #[trigger] cmds@[c]),
            sc.pos <= src@.len(),
            spec_scan(src@) == (ScanModel {
                cmds: models_of(cmds@),
                pos: sc.pos as int,
                error: false,
            }),
        decreases fuel,
    {
        if fuel == 0 {
            // Unreachable: every scanned command consumes at least one
            // byte of input.
            proof {
                assert(s_scan_loop(src@, sc.model(), cont, ctx, models_of(cmds@), 0nat)
                    == (ScanModel { cmds: models_of(cmds@), pos: sc.pos as int, error: false }));
            }
            break;
        }
        let ghost it_model = sc.model();
        let ghost it_cont = cont;
        let ghost it_ctx = ctx;
        let ghost it_models = models_of(cmds@);
        let ghost it_fuel = fuel as nat;
        let ghost it_spec = s_scan_loop(src@, it_model, it_cont, it_ctx, it_models, it_fuel);
        fuel = fuel - 1;
        if cont != 0 {
            // Try to continue the previous command's argument run.
            let op = cont;
            let mut args: Vec<SvgArg> = Vec::new();
            let taken = scan_continuation(&mut sc, op, &mut args);
            if taken == 1 {
                let ghost pre = cmds@;
                let ghost argsv = args@;
                cmds.push(SvgCmd { op, implicit: true, ctx, args });
                proof {
                    lemma_models_push(pre, cmds@.last());
                    assert(it_spec == s_scan_loop(
                        src@,
                        sc.model(),
                        it_cont,
                        sc.model().cur,
                        it_models.push(
                            SpecCmd { op: it_cont, implicit: true, ctx: it_ctx, args: argsv },
                        ),
                        (it_fuel - 1) as nat,
                    ));
                    assert(models_of(cmds@) == it_models.push(cmds@.last().model()));
                }
                ctx = sc.cur;
                continue;
            }
            if taken == 2 {
                // Arguments went missing midway: the stream ends here.
                proof {
                    assert(it_spec == (ScanModel {
                        cmds: it_models,
                        pos: sc.model().pos,
                        error: false,
                    }));
                }
                break;
            }
            cont = 0;
        }
        // Expect a command letter.
        let ghost lt_model = sc.model();
        proof {
            assert(it_spec == s_scan_letter(src@, lt_model, it_ctx, it_models, (it_fuel - 1) as nat));
        }
        sc.skip_whitespace();
        let cmd_pos = sc.pos;
        let op = sc.cur;
        let was_done = sc.done;
        proof {
            if src@.len() == 0 {
                assert(sc.done);
                assert(op == 0);
            }
        }
        sc.advance();
        sc.skip_whitespace();
        if op == 0x5a || op == 0x7a {
            let ghost pre = cmds@;
            cmds.push(SvgCmd { op, implicit: false, ctx, args: Vec::new() });
            proof {
                lemma_models_push(pre, cmds@.last());
                assert(it_spec == s_scan_loop(
                    src@,
                    sc.model(),
                    0,
                    sc.model().cur,
                    it_models.push(
                        SpecCmd {
                            op,
                            implicit: false,
                            ctx: it_ctx,
                            args: Seq::<SvgArg>::empty(),
                        },
                    ),
                    (it_fuel - 1) as nat,
                ));
                assert(models_of(cmds@) == it_models.push(cmds@.last().model()));
            }
            ctx = sc.cur;
            continue;
        }
        let mut args: Vec<SvgArg> = Vec::new();
        let taken = scan_explicit(&mut sc, op, &mut args);
        if taken == 1 {
            let ghost pre = cmds@;
            let ghost argsv = args@;
            cmds.push(SvgCmd { op, implicit: false, ctx, args });
            proof {
                lemma_models_push(pre, cmds@.last());
                assert(it_spec == s_scan_loop(
                    src@,
                    sc.model(),
                    op,
                    sc.model().cur,
                    it_models.push(SpecCmd { op, implicit: false, ctx: it_ctx, args: argsv }),
                    (it_fuel - 1) as nat,
                ));
                assert(models_of(cmds@) == it_models.push(cmds@.last().model()));
            }
            ctx = sc.cur;
            cont = op;
            continue;
        }
        if taken == 2 {
            proof {
                assert(it_spec == (ScanModel {
                    cmds: it_models,
                    pos: sc.model().pos,
                    error: false,
                }));
            }
            break;
        }
        // Not a command letter at all.
        if !was_done || op != 0 {
            proof {
                assert(it_spec == (ScanModel {
                    cmds: it_models,
                    pos: cmd_pos as int,
                    error: true,
                }));
            }
            return SvgScan { cmds, pos: cmd_pos, error: true };
        }
        proof {
            assert(it_spec == (ScanModel { cmds: it_models, pos: sc.model().pos, error: false }));
        }
        return SvgScan { cmds, pos: sc.pos, error: false };
    }
    let pos = sc.pos;
    SvgScan { cmds, pos, error: false }
}

/// Scans the arguments of an explicitly written command `op`. Returns 1
/// when all arguments were there, 2 when they broke off midway (the
/// stream ends), and 0 when `op` is no command letter.
fn scan_explicit(sc: &mut Scanner, op: u8, args: &mut Vec<SvgArg>) -> (r: u8)
    requires
        old(sc).wf(),
        old(args)@ == Seq::<SvgArg>::empty(),
    ensures
        final(sc).wf(),
        final(sc).buf == old(sc).buf,
        old(sc).pos <= final(sc).pos,
        r == 1 ==> (forall|ctx: u8|
            cmd_wf(final(sc).buf@, (SvgCmd { op, implicit: false, ctx, args: *final(args) }))),
        r == 1 ==> op_num_count(op) >= 0,
        r == 0 || r == 1 || r == 2,
        (r, final(sc).model(), final(args)@) == s_scan_explicit(
            old(sc).buf@,
            old(sc).model(),
            op,
        ),
{
    let count: usize = if op == 0x48 || op == 0x68 || op == 0x56 || op == 0x76 {
        1
    } else if op == 0x4d || op == 0x6d || op == 0x4c || op == 0x6c || op == 0x54 || op == 0x74 {
        2
    } else if op == 0x53 || op == 0x73 || op == 0x51 || op == 0x71 {
        4
    } else if op == 0x43 || op == 0x63 {
        6
    } else if op == 0x41 || op == 0x61 {
        return scan_arc_args(sc, args, false);
    } else {
        return 0;
    };
    // The first coordinate of an explicit command is scanned without a
    // separator: whitespace was already skipped after the letter.
    match sc.coord() {
        Some(n) => {
            args.push(SvgArg::Num(n));
        },
        None => {
            return 2;
        },
    }
    if count > 1 {
        if !sc.more_coords(count - 1, args) {
            return 2;
        }
    }
    sc.skip_comma_whitespace();
    1
}

/// Scans an implicit repetition of command `op`. Returns 1 when a full
/// argument run followed, 2 when one began but broke off midway, and 0
/// when no repetition follows (the next token starts a new command).
fn scan_continuation(sc: &mut Scanner, op: u8, args: &mut Vec<SvgArg>) -> (r: u8)
    requires
        old(sc).wf(),
        old(args)@ == Seq::<SvgArg>::empty(),
    ensures
        final(sc).wf(),
        final(sc).buf == old(sc).buf,
        old(sc).pos <= final(sc).pos,
        r == 1 ==> (forall|ctx: u8|
            cmd_wf(final(sc).buf@, (SvgCmd { op, implicit: true, ctx, args: *final(args) }))),
        r == 0 || r == 1 || r == 2,
        (r, final(sc).model(), final(args)@) == s_scan_continuation(
            old(sc).buf@,
            old(sc).model(),
            op,
        ),
{
    // The soft retry group: if its scan fails, a new command letter is
    // expected instead, and nothing of the run is kept.
    let soft: usize = if op == 0x48 || op == 0x68 || op == 0x56 || op == 0x76 || op == 0x41 || op
        == 0x61 {
        1
    } else if op == 0x4d || op == 0x6d || op == 0x4c || op == 0x6c || op == 0x54 || op == 0x74
        || op == 0x43 || op == 0x63 || op == 0x53 || op == 0x73 || op == 0x51 || op == 0x71 {
        2
    } else {
        return 0;
    };
    match sc.coord() {
        Some(n) => {
            args.push(SvgArg::Num(n));
        },
        None => {
            args.truncate(0);
            proof {
                assert(args@ =~= Seq::<SvgArg>::empty());
            }
            return 0;
        },
    }
    if soft == 2 {
        if !sc.more_coords(1, args) {
            args.truncate(0);
            proof {
                assert(args@ =~= Seq::<SvgArg>::empty());
            }
            return 0;
        }
    }
    if op == 0x41 || op == 0x61 {
        return scan_arc_rest(sc, args, false);
    }
    let rest: usize = if op == 0x48 || op == 0x68 || op == 0x56 || op == 0x76 {
        0
    } else if op == 0x4d || op == 0x6d || op == 0x4c || op == 0x6c || op == 0x54 || op == 0x74 {
        0
    } else if op == 0x53 || op == 0x73 || op == 0x51 || op == 0x71 {
        2
    } else {
        4
    };
    if rest > 0 {
        if !sc.more_coords(rest, args) {
            return 2;
        }
    }
    sc.skip_comma_whitespace();
    1
}

/// Scans a full arc argument run: radii, rotation, the two flags and the
/// end point. With `have_rx` the first radius is already in `args`.
fn scan_arc_args(sc: &mut Scanner, args: &mut Vec<SvgArg>, have_rx: bool) -> (r: u8)
    requires
        old(sc).wf(),
        !have_rx ==> old(args)@ == Seq::<SvgArg>::empty(),
        have_rx ==> old(args)@.len() == 1 && (old(args)@[0] matches SvgArg::Num(n) && num_wf(
            old(sc).buf@,
            n,
        )),
    ensures
        final(sc).wf(),
        final(sc).buf == old(sc).buf,
        old(sc).pos <= final(sc).pos,
        r == 1 ==> (forall|op: u8, ctx: u8|
            op_is_arc(op) ==> cmd_wf(
                final(sc).buf@,
                (SvgCmd { op, implicit: have_rx, ctx, args: *final(args) }),
            )),
        r == 1 || r == 2,
        (r, final(sc).model(), final(args)@) == ({
            if have_rx {
                s_scan_arc_rest(old(sc).buf@, old(sc).model(), old(args)@, true)
            } else {
                let (n, c1) = s_coord(old(sc).buf@, old(sc).model());
                match n {
                    Some(num) => s_scan_arc_rest(
                        old(sc).buf@,
                        c1,
                        old(args)@.push(SvgArg::Num(num)),
                        true,
                    ),
                    None => (2u8, c1, old(args)@),
                }
            }
        }),
{
    if !have_rx {
        match sc.coord() {
            Some(n) => {
                args.push(SvgArg::Num(n));
            },
            None => {
                return 2;
            },
        }
    }
    scan_arc_rest(sc, args, true)
}

/// Scans the rest of an arc run after its first radius. An implicit arc
/// repetition admits no separator between its radii, as the grammar has
/// it.
fn scan_arc_rest(sc: &mut Scanner, args: &mut Vec<SvgArg>, lead_sep: bool) -> (r: u8)
    requires
        old(sc).wf(),
        old(args)@.len() == 1,
        old(args)@[0] matches SvgArg::Num(n) && num_wf(old(sc).buf@, n),
    ensures
        final(sc).wf(),
        final(sc).buf == old(sc).buf,
        old(sc).pos <= final(sc).pos,
        r == 1 ==> (forall|op: u8, ctx: u8, implicit: bool|
            op_is_arc(op) ==> cmd_wf(
                final(sc).buf@,
                (SvgCmd { op, implicit, ctx, args: *final(args) }),
            )),
        r == 1 || r == 2,
        (r, final(sc).model(), final(args)@) == s_scan_arc_rest(
            old(sc).buf@,
            old(sc).model(),
            old(args)@,
            lead_sep,
        ),
{
    if lead_sep {
        if !sc.more_coords(1, args) {
            return 2;
        }
    } else {
        match sc.coord() {
            Some(n) => {
                args.push(SvgArg::Num(n));
            },
            None => {
                return 2;
            },
        }
    }
    if !sc.more_coords(1, args) {
        return 2;
    }
    sc.skip_comma_whitespace();
    let f1 = match sc.boolean() {
        Some(f) => f,
        None => {
            return 2;
        },
    };
    args.push(SvgArg::Flag(f1));
    sc.skip_comma_whitespace();
    let f2 = match sc.boolean() {
        Some(f) => f,
        None => {
            return 2;
        },
    };
    args.push(SvgArg::Flag(f2));
    if !sc.more_coords(2, args) {
        return 2;
    }
    sc.skip_comma_whitespace();
    1
}

/// Returns `Ok` when the whole string is valid SVG path data, and
/// otherwise the byte position of the first invalid character: one before
/// the place where the scan stopped, as the specification scanner
/// determines it.
pub fn validate_svg(svg: &str) -> (r: Result<(), usize>)
    ensures
        (r matches Ok(_)) <==> svg_valid(svg.spec_bytes()),
        r matches Err(p) ==> p as int == (if spec_scan(svg.spec_bytes()).pos == 0 {
            0int
        } else {
            spec_scan(svg.spec_bytes()).pos - 1
        }),
        r matches Err(p) ==> p == 0 || p < svg.spec_bytes().len(),
        svg.spec_bytes().len() == 0 ==> r matches Ok(_),
{
    let bytes = svg.as_bytes();
    let blen = bytes.len();
    proof {
        assert(blen as int == svg.spec_bytes().len());
    }
    let scan = scan_svg(bytes);
    let pos = scan.pos;
    if scan.error || pos != svg.len() {
        Err(if pos == 0 {
            0
        } else {
            pos - 1
        })
    } else {
        Ok(())
    }
}

} // verus!
