use vstd::prelude::*;
use crate::bytes::{le_u16, le_u32, le_u64, read_le_u16, read_le_u32, read_le_u64, u32_le_bytes, u64_le_bytes,
    u32_to_le_bytes, u64_to_le_bytes};
use crate::subsystem::fs::inode::{FsError, FsResult};

verus! {

pub const TRACE_BUFFER_SIZE: usize = 16 * 1024;

/// Kinds of trace records; a record is the kind as a little endian 16-bit word, the time in
/// microseconds as a 64-bit word, and the pid as a 32-bit word. Kind 0 ends the records.
#[derive(Debug, Clone, Copy, PartialEq, Eq, Structural)]
pub enum Trace {
    Eob,
    SchedEntry,
    SchedExit,
}

impl Trace {
    pub fn code(&self) -> (r: u16)
        ensures
            *self is Eob ==> r == 0,
            *self is SchedEntry ==> r == 1,
            *self is SchedExit ==> r == 2,
    {
        match self {
            Trace::Eob => 0,
            Trace::SchedEntry => 1,
            Trace::SchedExit => 2,
        }
    }
}

/// The decimal digits of `n`.
pub open spec fn decimal(n: nat) -> Seq<u8>
    decreases n,
{
    if n < 10 {
        seq![(0x30 + n) as u8]
    } else {
        decimal(n / 10).push((0x30 + n % 10) as u8)
    }
}

/// `k` pieces of one `0` each.
pub open spec fn zero_pieces(k: int) -> Seq<Seq<u8>>
    decreases k,
{
    if k <= 0 {
        Seq::empty()
    } else {
        zero_pieces(k - 1).push(seq![0x30u8])
    }
}

/// The pieces that formatting writes for a record's head: `[`, the seconds, `.`, the
/// microseconds padded with zeros to six digits, `] `, the kind's name and a tab and bar.
pub open spec fn header_pieces(timestamp: u64, name: Seq<u8>) -> Seq<Seq<u8>> {
    let micros = decimal((timestamp % 1_000_000) as nat);
    seq![seq![0x5bu8], decimal((timestamp / 1_000_000) as nat), seq![0x2eu8]] + zero_pieces(6 - micros.len())
        + seq![micros, seq![0x5du8, 0x20u8], name, seq![0x09u8, 0x7cu8, 0x20u8]]
}

/// The pieces that formatting writes for the pid: `pid`, `: `, its digits and a newline.
pub open spec fn pid_pieces(pid: u32) -> Seq<Seq<u8>> {
    seq![seq![0x70u8, 0x69u8, 0x64u8], seq![0x3au8, 0x20u8], decimal(pid as nat), seq![0x0au8]]
}

/// What one formatting call leaves in an output of `cap` bytes holding `out`: pieces are
/// written in order while each fits whole; the first that does not ends the call.
pub open spec fn write_pieces(out: Seq<u8>, cap: int, pieces: Seq<Seq<u8>>) -> Seq<u8>
    decreases pieces.len(),
{
    if pieces.len() == 0 {
        out
    } else if out.len() + pieces[0].len() > cap {
        out
    } else {
        write_pieces(out + pieces[0], cap, pieces.drop_first())
    }
}

pub open spec fn kind_name(cmd: int) -> Seq<u8> {
    if cmd == 1 {
        seq![0x53u8, 0x63, 0x68, 0x65, 0x64, 0x45, 0x6e, 0x74, 0x72, 0x79]
    } else {
        seq![0x53u8, 0x63, 0x68, 0x65, 0x64, 0x45, 0x78, 0x69, 0x74]
    }
}

/// The text that reading the records of `src` from `pos` on adds to `out`, in an output of
/// `cap` bytes: one line per record of a known kind, stopping at kind 0, at a record cut off
/// by the end, or at the end; records of unknown kinds are skipped by their kind word.
pub open spec fn render(src: Seq<u8>, pos: int, out: Seq<u8>, cap: int) -> Seq<u8>
    decreases src.len() - pos,
{
    if pos < 0 || pos + 2 > src.len() {
        out
    } else {
        let cmd = le_u16(src, pos);
        if cmd == 0 {
            out
        } else if cmd == 1 || cmd == 2 {
            if pos + 10 > src.len() {
                out
            } else {
                let with_head = write_pieces(out, cap, header_pieces(le_u64(src, pos + 2) as u64, kind_name(cmd)));
                if pos + 14 > src.len() {
                    with_head
                } else {
                    render(src, pos + 14, write_pieces(with_head, cap, pid_pieces(le_u32(src, pos + 10) as u32)), cap)
                }
            }
        } else {
            render(src, pos + 2, out, cap)
        }
    }
}

pub proof fn lemma_write_pieces_len(out: Seq<u8>, cap: int, pieces: Seq<Seq<u8>>)
    requires
        out.len() <= cap,
    ensures
        write_pieces(out, cap, pieces).len() <= cap,
        write_pieces(out, cap, pieces).len() >= out.len(),
        write_pieces(out, cap, pieces).subrange(0, out.len() as int) == out,
    decreases pieces.len(),
{
    if pieces.len() > 0 && out.len() + pieces[0].len() <= cap {
        let next = out + pieces[0];
        lemma_write_pieces_len(next, cap, pieces.drop_first());
        let w = write_pieces(next, cap, pieces.drop_first());
        assert forall|k: int| 0 <= k < out.len() implies w[k] == out[k] by {
            assert(w.subrange(0, next.len() as int)[k] == next[k]);
        }
        assert(w.subrange(0, out.len() as int) =~= out);
    } else if pieces.len() > 0 {
        assert(out.subrange(0, out.len() as int) =~= out);
    } else {
        assert(out.subrange(0, out.len() as int) =~= out);
    }
}

pub proof fn lemma_render_len(src: Seq<u8>, pos: int, out: Seq<u8>, cap: int)
    requires
        out.len() <= cap,
    ensures
        render(src, pos, out, cap).len() <= cap,
    decreases src.len() - pos,
{
    if 0 <= pos && pos + 2 <= src.len() {
        let cmd = le_u16(src, pos);
        if cmd == 1 || cmd == 2 {
            if pos + 10 <= src.len() {
                let with_head = write_pieces(out, cap, header_pieces(le_u64(src, pos + 2) as u64, kind_name(cmd)));
                lemma_write_pieces_len(out, cap, header_pieces(le_u64(src, pos + 2) as u64, kind_name(cmd)));
                if pos + 14 <= src.len() {
                    lemma_write_pieces_len(with_head, cap, pid_pieces(le_u32(src, pos + 10) as u32));
                    lemma_render_len(src, pos + 14, write_pieces(with_head, cap, pid_pieces(le_u32(src, pos + 10) as u32)), cap);
                }
            }
        } else if cmd != 0 {
            lemma_render_len(src, pos + 2, out, cap);
        }
    }
}

pub open spec fn pow10(k: nat) -> nat
    decreases k,
{
    if k == 0 {
        1
    } else {
        10 * pow10((k - 1) as nat)
    }
}

pub proof fn lemma_decimal_len_bound(n: nat, k: nat)
    requires
        k >= 1,
        n < pow10(k),
    ensures
        1 <= decimal(n).len() <= k,
    decreases k,
{
    if n >= 10 {
        assert(k >= 2) by {
            if k == 1 {
                assert(pow10(1) == 10) by {
                    reveal_with_fuel(pow10, 2);
                }
            }
        }
        assert(n / 10 < pow10((k - 1) as nat));
        lemma_decimal_len_bound(n / 10, (k - 1) as nat);
    }
}

pub proof fn lemma_decimal_len(n: nat)
    ensures
        1 <= decimal(n).len(),
        n < 1_000_000 ==> decimal(n).len() <= 6,
{
    assert(pow10(6) == 1_000_000) by {
        reveal_with_fuel(pow10, 7);
    }
    if n < 1_000_000 {
        lemma_decimal_len_bound(n, 6);
    } else {
        assert(n < pow10(n + 1)) by {
            lemma_pow10_grows(n + 1);
        }
        lemma_decimal_len_bound(n, n + 1);
    }
}

pub proof fn lemma_pow10_grows(k: nat)
    ensures
        pow10(k) > k,
    decreases k,
{
    if k > 0 {
        lemma_pow10_grows((k - 1) as nat);
    }
}

/// The decimal digits of `n`.
pub fn decimal_digits(n: u64) -> (r: Vec<u8>)
    ensures
        r@ == decimal(n as nat),
    decreases n,
{
    if n < 10 {
        let mut r: Vec<u8> = Vec::new();
        r.push(0x30 + n as u8);
        r
    } else {
        let mut r = decimal_digits(n / 10);
        r.push(0x30 + (n % 10) as u8);
        r
    }
}

/// Output being written: a buffer of fixed length and how much of it is written.
pub struct CursorMut {
    pub buffer: Vec<u8>,
    pub cursor: usize,
}

impl CursorMut {
    pub open spec fn written(&self) -> Seq<u8> {
        self.buffer@.subrange(0, self.cursor as int)
    }

    pub open spec fn wf(&self) -> bool {
        self.cursor <= self.buffer@.len()
    }

    /// Writes `s` whole if it fits; fails without writing otherwise.
    pub fn write_str(&mut self, s: &[u8]) -> (r: bool)
        requires
            old(self).wf(),
        ensures
            final(self).wf(),
            final(self).buffer@.len() == old(self).buffer@.len(),
            r == (old(self).cursor + s@.len() <= old(self).buffer@.len()),
            r ==> final(self).written() == old(self).written() + s@,
            !r ==> final(self).written() == old(self).written() && final(self).buffer@ == old(self).buffer@
                && final(self).cursor == old(self).cursor,
            final(self).buffer@.subrange(final(self).cursor as int, final(self).buffer@.len() as int)
                == old(self).buffer@.subrange(final(self).cursor as int, old(self).buffer@.len() as int),
    {
        let _n = s.len();
        if s.len() > self.buffer.len() - self.cursor {
            return false;
        }
        crate::bytes::copy_into(&mut self.buffer, self.cursor, s, 0, s.len());
        self.cursor = self.cursor + s.len();
        proof {
            assert(self.written() =~= old(self).written() + s@);
            assert(self.buffer@.subrange(self.cursor as int, self.buffer@.len() as int) =~= old(self).buffer@.subrange(
                self.cursor as int,
                old(self).buffer@.len() as int,
            ));
        }
        true
    }

    /// Writes `pieces` in order while each fits whole, as one formatting call does.
    pub fn write_pieces(&mut self, pieces: &Vec<Vec<u8>>)
        requires
            old(self).wf(),
        ensures
            final(self).wf(),
            final(self).buffer@.len() == old(self).buffer@.len(),
            final(self).written() == write_pieces(old(self).written(), old(self).buffer@.len() as int, pieces@.map_values(
                |p: Vec<u8>| p@,
            )),
    {
        let ghost all = pieces@.map_values(|p: Vec<u8>| p@);
        let ghost cap = self.buffer@.len() as int;
        let mut i: usize = 0;
        assert(all.skip(0) =~= all);
        while i < pieces.len()
            invariant
                self.wf(),
                self.buffer@.len() == cap,
                cap == old(self).buffer@.len(),
                i <= pieces@.len(),
                all == pieces@.map_values(|p: Vec<u8>| p@),
                write_pieces(old(self).written(), cap, all) == write_pieces(self.written(), cap, all.skip(i as int)),
            decreases pieces@.len() - i,
        {
            let ghost before = self.written();
            let ghost rest = all.skip(i as int);
            assert(rest[0] == pieces@[i as int]@);
            let ok = self.write_str(pieces[i].as_slice());
            if !ok {
                assert(write_pieces(before, cap, rest) == before);
                return;
            }
            assert(rest.drop_first() =~= all.skip(i + 1));
            i += 1;
        }
        assert(all.skip(pieces@.len() as int) =~= Seq::<Seq<u8>>::empty());
    }
}

/// The bytes and fill of a trace buffer holding `buf` filled to `size`, after appending as
/// much of `data` as there is room for.
pub open spec fn extended(buf: Seq<u8>, size: int, data: Seq<u8>) -> (Seq<u8>, int) {
    let n = vstd::math::min(data.len() as int, TRACE_BUFFER_SIZE - size);
    (buf.subrange(0, size) + data.subrange(0, n) + buf.subrange(size + n, TRACE_BUFFER_SIZE as int), size + n)
}

/// The code of a record kind.
pub open spec fn trace_code(cmd: Trace) -> u16 {
    match cmd {
        Trace::Eob => 0,
        Trace::SchedEntry => 1,
        Trace::SchedExit => 2,
    }
}

/// The kind word of a record of kind `cmd`, little endian.
pub open spec fn code_bytes(cmd: Trace) -> Seq<u8> {
    seq![(trace_code(cmd) % 0x100) as u8, (trace_code(cmd) / 0x100) as u8]
}

/// The trace records of one core.
pub struct TraceBuffer {
    pub buffer: Vec<u8>,
    pub size: usize,
}

impl TraceBuffer {
    pub open spec fn wf(&self) -> bool {
        self.buffer@.len() == TRACE_BUFFER_SIZE && self.size <= TRACE_BUFFER_SIZE
    }

    /// An empty buffer, all zero.
    pub fn new() -> (r: Self)
        ensures
            r.wf(),
            r.size == 0,
            r.buffer@ == Seq::new(TRACE_BUFFER_SIZE as nat, |_i: int| 0u8),
    {
        let mut buffer: Vec<u8> = Vec::new();
        let mut i: usize = 0;
        while i < TRACE_BUFFER_SIZE
            invariant
                i <= TRACE_BUFFER_SIZE,
                buffer@ == Seq::new(i as nat, |_i: int| 0u8),
            decreases TRACE_BUFFER_SIZE - i,
        {
            buffer.push(0);
            i += 1;
            assert(buffer@ =~= Seq::new(i as nat, |_i: int| 0u8));
        }
        TraceBuffer { buffer, size: 0 }
    }

    /// Appends as much of `buf` as there is room for.
    pub fn extend(&mut self, buf: &[u8])
        requires
            old(self).wf(),
        ensures
            final(self).wf(),
            ({
                let n = vstd::math::min(buf@.len() as int, TRACE_BUFFER_SIZE - old(self).size);
                &&& final(self).size == old(self).size + n
                &&& final(self).buffer@ == old(self).buffer@.subrange(0, old(self).size as int) + buf@.subrange(0, n)
                    + old(self).buffer@.subrange(old(self).size + n, TRACE_BUFFER_SIZE as int)
            }),
    {
        let size = self.size;
        let remaining = TRACE_BUFFER_SIZE - size;
        let _n = buf.len();
        let to_write = if buf.len() < remaining { buf.len() } else { remaining };
        crate::bytes::copy_into(&mut self.buffer, size, buf, 0, to_write);
        self.size = self.size + to_write;
    }

    /// Appends a record of kind `cmd` at `now` microseconds for task `pid`.
    pub fn record(&mut self, cmd: Trace, now: u64, pid: u32)
        requires
            old(self).wf(),
        ensures
            final(self).wf(),
            ({
                let (b1, s1) = extended(old(self).buffer@, old(self).size as int, code_bytes(cmd));
                let (b2, s2) = extended(b1, s1, u64_le_bytes(now));
                let (b3, s3) = extended(b2, s2, u32_le_bytes(pid));
                final(self).buffer@ == b3 && final(self).size == s3
            }),
    {
        let code = cmd.code();
        assert(code == trace_code(cmd));
        let mut word: Vec<u8> = Vec::new();
        word.push((code % 0x100) as u8);
        word.push((code / 0x100) as u8);
        assert(word@ =~= code_bytes(cmd));
        self.extend(word.as_slice());
        let time = u64_to_le_bytes(now);
        self.extend(time.as_slice());
        let param = u32_to_le_bytes(pid);
        self.extend(param.as_slice());
    }

    /// The records as text, one line per record, as much as fits in `buffer`; returns the
    /// bytes written. Only offset 0 can be read.
    pub fn read(&self, offset: u64, buffer: &mut Vec<u8>) -> (r: FsResult<usize>)
        requires
            self.wf(),
        ensures
            offset > 0 ==> r == Err::<usize, FsError>(FsError::EndOfFile) && final(buffer)@ == old(buffer)@,
            offset == 0 ==> ({
                let text = render(self.buffer@, 0, Seq::empty(), old(buffer)@.len() as int);
                &&& r == Ok::<usize, FsError>(text.len() as usize)
                &&& final(buffer)@.len() == old(buffer)@.len()
                &&& final(buffer)@.subrange(0, text.len() as int) == text
            }),
    {
        if offset > 0 {
            return Err(FsError::EndOfFile);
        }
        let ghost cap = buffer@.len() as int;
        let mut taken: Vec<u8> = Vec::new();
        core::mem::swap(buffer, &mut taken);
        let mut out = CursorMut { buffer: taken, cursor: 0 };
        let src = self.buffer.as_slice();
        let mut pos: usize = 0;
        assert(out.written() =~= Seq::<u8>::empty());
        while pos + 2 <= src.len()
            invariant_except_break
                render(self.buffer@, 0, Seq::empty(), cap) == render(self.buffer@, pos as int, out.written(), cap),
            invariant
                self.wf(),
                src@ == self.buffer@,
                out.wf(),
                out.buffer@.len() == cap,
                cap == old(buffer)@.len(),
                pos <= src@.len(),
            ensures
                render(self.buffer@, 0, Seq::empty(), cap) == out.written(),
            decreases src@.len() - pos,
        {
            let cmd = read_le_u16(src, pos);
            if cmd == 0 {
                break;
            }
            if cmd == 1 || cmd == 2 {
                if pos + 10 > src.len() {
                    break;
                }
                let timestamp = read_le_u64(src, pos + 2);
                let mut pieces: Vec<Vec<u8>> = Vec::new();
                let mut open: Vec<u8> = Vec::new();
                open.push(0x5b);
                let ghost open_v = open@;
                pieces.push(open);
                let secs = decimal_digits(timestamp / 1_000_000);
                let ghost secs_v = secs@;
                pieces.push(secs);
                let mut dot: Vec<u8> = Vec::new();
                dot.push(0x2e);
                let ghost dot_v = dot@;
                pieces.push(dot);
                assert(pieces@.map_values(|p: Vec<u8>| p@) =~= seq![open_v, secs_v, dot_v]);
                assert(open_v =~= seq![0x5bu8]);
                assert(dot_v =~= seq![0x2eu8]);
                let micros = decimal_digits(timestamp % 1_000_000);
                proof {
                    lemma_decimal_len((timestamp % 1_000_000) as nat);
                }
                let mut pad: usize = 0;
                let ghost base = pieces@.map_values(|p: Vec<u8>| p@);
                assert(base + zero_pieces(0) =~= base);
                while pad + micros.len() < 6
                    invariant
                        pad + micros@.len() <= 6,
                        micros@.len() >= 1,
                        pieces@.map_values(|p: Vec<u8>| p@) == base + zero_pieces(pad as int),
                    decreases 6 - pad - micros@.len(),
                {
                    let mut zero: Vec<u8> = Vec::new();
                    zero.push(0x30);
                    assert(zero@ =~= seq![0x30u8]);
                    let ghost prev = pieces@;
                    pieces.push(zero);
                    assert(pieces@.map_values(|p: Vec<u8>| p@) =~= prev.map_values(|p: Vec<u8>| p@).push(seq![0x30u8]));
                    pad += 1;
                    assert(pieces@.map_values(|p: Vec<u8>| p@) =~= base + zero_pieces(pad as int));
                }
                let ghost head = pieces@.map_values(|p: Vec<u8>| p@);
                let ghost micros_v = micros@;
                pieces.push(micros);
                let mut close: Vec<u8> = Vec::new();
                close.push(0x5d);
                close.push(0x20);
                let ghost close_v = close@;
                pieces.push(close);
                let mut name: Vec<u8> = Vec::new();
                if cmd == 1 {
                    name.push(0x53); name.push(0x63); name.push(0x68); name.push(0x65); name.push(0x64);
                    name.push(0x45); name.push(0x6e); name.push(0x74); name.push(0x72); name.push(0x79);
                } else {
                    name.push(0x53); name.push(0x63); name.push(0x68); name.push(0x65); name.push(0x64);
                    name.push(0x45); name.push(0x78); name.push(0x69); name.push(0x74);
                }
                let ghost name_v = name@;
                pieces.push(name);
                let mut bar: Vec<u8> = Vec::new();
                bar.push(0x09);
                bar.push(0x7c);
                bar.push(0x20);
                let ghost bar_v = bar@;
                pieces.push(bar);
                proof {
                    assert(pieces@.map_values(|p: Vec<u8>| p@) =~= head.push(micros_v).push(close_v).push(name_v).push(bar_v));
                    assert(close_v =~= seq![0x5du8, 0x20u8]);
                    assert(bar_v =~= seq![0x09u8, 0x7cu8, 0x20u8]);
                    assert(name_v =~= kind_name(cmd as int));
                    assert(base =~= seq![seq![0x5bu8], decimal((timestamp / 1_000_000) as nat), seq![0x2eu8]]);
                    assert(pieces@.map_values(|p: Vec<u8>| p@) =~= header_pieces(timestamp, kind_name(cmd as int)));
                    lemma_decimal_len((timestamp % 1_000_000) as nat);
                }
                out.write_pieces(&pieces);
                if pos + 14 > src.len() {
                    break;
                }
                let pid = read_le_u32(src, pos + 10);
                let mut params: Vec<Vec<u8>> = Vec::new();
                let mut label: Vec<u8> = Vec::new();
                label.push(0x70);
                label.push(0x69);
                label.push(0x64);
                let ghost label_v = label@;
                params.push(label);
                let mut colon: Vec<u8> = Vec::new();
                colon.push(0x3a);
                colon.push(0x20);
                let ghost colon_v = colon@;
                params.push(colon);
                let digits = decimal_digits(pid as u64);
                let ghost digits_v = digits@;
                params.push(digits);
                let mut newline: Vec<u8> = Vec::new();
                newline.push(0x0a);
                let ghost newline_v = newline@;
                params.push(newline);
                proof {
                    assert(params@.map_values(|p: Vec<u8>| p@) =~= seq![label_v, colon_v, digits_v, newline_v]);
                    assert(label_v =~= seq![0x70u8, 0x69u8, 0x64u8]);
                    assert(colon_v =~= seq![0x3au8, 0x20u8]);
                    assert(newline_v =~= seq![0x0au8]);
                    assert(params@.map_values(|p: Vec<u8>| p@) =~= pid_pieces(pid));
                }
                out.write_pieces(&params);
                pos = pos + 14;
            } else {
                pos = pos + 2;
            }
        }
        proof {
            lemma_render_len(self.buffer@, 0, Seq::empty(), cap);
        }
        let written = out.cursor;
        *buffer = out.buffer;
        Ok(written)
    }
}

/// The file that turns tracing on and off.
pub struct TraceEnableFile {}

impl TraceEnableFile {
    /// `y` and a newline when tracing is on, `n` and a newline when off, if the buffer has
    /// room for both. Only offset 0 can be read.
    pub fn read(&self, offset: u64, buffer: &mut Vec<u8>, enabled: bool) -> (r: FsResult<usize>)
        ensures
            offset > 0 ==> r == Err::<usize, FsError>(FsError::EndOfFile) && final(buffer)@ == old(buffer)@,
            offset == 0 && old(buffer)@.len() < 2 ==> r == Ok::<usize, FsError>(0) && final(buffer)@ == old(buffer)@,
            offset == 0 && old(buffer)@.len() >= 2 ==> r == Ok::<usize, FsError>(2) && final(buffer)@.len() == old(buffer)@.len()
                && final(buffer)@[0] == (if enabled { 0x79u8 } else { 0x6eu8 }) && final(buffer)@[1] == 0x0au8
                && final(buffer)@.subrange(2, final(buffer)@.len() as int) == old(buffer)@.subrange(2, old(buffer)@.len() as int),
    {
        if offset > 0 {
            return Err(FsError::EndOfFile);
        }
        let mut text: Vec<u8> = Vec::new();
        if enabled {
            text.push(0x79);
        } else {
            text.push(0x6e);
        }
        text.push(0x0a);
        let mut taken: Vec<u8> = Vec::new();
        core::mem::swap(buffer, &mut taken);
        let mut cursor = CursorMut { buffer: taken, cursor: 0 };
        let _ = cursor.write_str(text.as_slice());
        let written = cursor.cursor;
        *buffer = cursor.buffer;
        proof {
            if old(buffer)@.len() >= 2 {
                assert(buffer@.subrange(0, 2)[0] == text@[0]);
                assert(buffer@.subrange(0, 2)[1] == text@[1]);
            } else {
                assert(buffer@ =~= old(buffer)@);
            }
        }
        Ok(written)
    }

    /// Turns tracing on for a first byte `1` or `y`, off for `0` or `n`; returns the bytes
    /// taken. Only offset 0 can be written.
    pub fn write(&self, offset: u64, buffer: &[u8], enabled: &mut bool) -> (r: FsResult<usize>)
        ensures
            offset > 0 ==> r == Err::<usize, FsError>(FsError::EndOfFile) && *final(enabled) == *old(enabled),
            offset == 0 && buffer@.len() == 0 ==> r == Ok::<usize, FsError>(0) && *final(enabled) == *old(enabled),
            offset == 0 && buffer@.len() > 0 && (buffer@[0] == 0x31 || buffer@[0] == 0x79) ==> r == Ok::<usize, FsError>(1)
                && *final(enabled),
            offset == 0 && buffer@.len() > 0 && (buffer@[0] == 0x30 || buffer@[0] == 0x6e) ==> r == Ok::<usize, FsError>(1)
                && !*final(enabled),
            offset == 0 && buffer@.len() > 0 && !(buffer@[0] == 0x31 || buffer@[0] == 0x79 || buffer@[0] == 0x30
                || buffer@[0] == 0x6e) ==> r == Ok::<usize, FsError>(0) && *final(enabled) == *old(enabled),
    {
        if offset > 0 {
            return Err(FsError::EndOfFile);
        }
        if buffer.len() == 0 {
            return Ok(0);
        }
        if buffer[0] == 0x31 || buffer[0] == 0x79 {
            *enabled = true;
            Ok(1)
        } else if buffer[0] == 0x30 || buffer[0] == 0x6e {
            *enabled = false;
            Ok(1)
        } else {
            Ok(0)
        }
    }
}

/// The file whose writes zero the trace buffers.
pub struct TraceClearFile {}

impl TraceClearFile {
    /// Zeroes the bytes of every core's buffer; their sizes stay. Only offset 0 can be written.
    pub fn write(&self, offset: u64, buffer: &[u8], buffers: &mut Vec<TraceBuffer>) -> (r: FsResult<usize>)
        requires
            forall|i: int| 0 <= i < old(buffers)@.len() ==> (#[trigger] old(buffers)@[i]).wf(),
        ensures
            offset > 0 ==> r == Err::<usize, FsError>(FsError::EndOfFile),
            offset == 0 ==> r == Ok::<usize, FsError>(0),
            final(buffers)@.len() == old(buffers)@.len(),
            forall|i: int| 0 <= i < final(buffers)@.len() ==> (#[trigger] final(buffers)@[i]).wf(),
            offset == 0 ==> forall|i: int| 0 <= i < final(buffers)@.len() ==> (#[trigger] final(buffers)@[i]).buffer@
                == Seq::new(TRACE_BUFFER_SIZE as nat, |_j: int| 0u8) && final(buffers)@[i].size == old(buffers)@[i].size,
    {
        if offset > 0 {
            return Err(FsError::EndOfFile);
        }
        let mut cpu: usize = 0;
        while cpu < buffers.len()
            invariant
                cpu <= buffers@.len(),
                buffers@.len() == old(buffers)@.len(),
                forall|i: int| 0 <= i < buffers@.len() ==> (#[trigger] buffers@[i]).wf(),
                forall|i: int| 0 <= i < cpu ==> (#[trigger] buffers@[i]).buffer@ == Seq::new(TRACE_BUFFER_SIZE as nat, |_j: int| 0u8),
                forall|i: int| 0 <= i < buffers@.len() ==> (#[trigger] buffers@[i]).size == old(buffers)@[i].size,
            decreases buffers@.len() - cpu,
        {
            let mut b = buffers.remove(cpu);
            crate::bytes::zero_from(&mut b.buffer, 0);
            assert(b.buffer@ =~= Seq::new(TRACE_BUFFER_SIZE as nat, |_j: int| 0u8));
            buffers.insert(cpu, b);
            cpu += 1;
        }
        Ok(0)
    }
}

/// The file that reads the trace buffer of core `cpu`.
pub struct TraceBufferFile {
    pub cpu: usize,
}

impl TraceBufferFile {
    pub fn new(cpu: usize) -> (r: Self)
        ensures
            r.cpu == cpu,
    {
        Self { cpu }
    }

    pub fn read(&self, offset: u64, buffer: &mut Vec<u8>, buffers: &Vec<TraceBuffer>) -> (r: FsResult<usize>)
        requires
            self.cpu < buffers@.len(),
            buffers@[self.cpu as int].wf(),
        ensures
            offset > 0 ==> r == Err::<usize, FsError>(FsError::EndOfFile),
            offset == 0 ==> r == Ok::<usize, FsError>(render(buffers@[self.cpu as int].buffer@, 0, Seq::empty(), old(buffer)@.len() as int).len() as usize),
    {
        buffers[self.cpu].read(offset, buffer)
    }
}

} // verus!
