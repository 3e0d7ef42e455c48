//! A cycle tracer for an instruction trace: it finds the markers a guest
//! program emits to announce its trace channels, turns writes to those
//! channels into nested timing records, and notes the instructions that
//! took unusually many cycles.
use std::collections::BTreeSet;
use vstd::prelude::*;
use vstd::string::StringExecFns;
use vstd::wrapping::u32_specs::{wrapping_add, wrapping_sub};

verus! {

broadcast use vstd::std_specs::btree::group_btree_axioms;

/// An instruction whose cycle count since the previous one reaches this
/// many cycles is recorded as significant.
pub const SIGNIFICANT_CYCLES: u32 = 1094;

/// Marker state once all three channels are known.
pub const MARKERS_FOUND: u32 = 999;

/// Bytes of the guest's message channel.
pub const MSG_CHANNEL_BYTES: u32 = 512;

/// Bytes of the tracer's copy of the message channel (one word of slack).
pub const MSG_BUFFER_BYTES: usize = 516;

/// The text shown for one level of nesting.
pub const PAD_CHAR: &'static str = "····";

/// One event of an instruction trace.
pub enum TraceEvent {
    /// An instruction starts at `cycle`, at address `pc`.
    InstructionStart { cycle: u32, pc: u32, insn: u32 },
    /// A register is written.
    RegisterSet { idx: usize, value: u32 },
    /// A word of memory is written.
    MemorySet { addr: u32, value: u32 },
}

/// A timed section that has ended.
pub struct FinishedRecord {
    pub name: String,
    pub indents: usize,
    pub num_instructions: u32,
    pub num_cycles: u32,
    pub start_significant_cycles: usize,
    pub end_significant_cycles: usize,
}

/// A timed section that has started and not yet ended.
pub struct PendingRecord {
    pub name: String,
    pub num_pending_records: usize,
    pub cur_num_instructions: u32,
    pub cur_num_cycles: u32,
    pub start_significant_cycles: usize,
}

/// An instruction that took at least `SIGNIFICANT_CYCLES` cycles, with the
/// memory writes and newly touched pages that came before it.
pub struct SignificantCycleRecord {
    pub latest_io_addrs: Vec<u32>,
    pub latest_accessed_new_pages: Vec<u32>,
    pub pc: u32,
    pub current_cycle: u32,
    pub insn: u32,
    pub previous_cycle: u32,
}

/// The tracer's state.
pub struct CycleTracer {
    pub init_state_machine: u32,
    pub trace_msg_channel: u32,
    pub trace_msg_len_channel: u32,
    pub trace_cycle_channel: u32,
    pub finished_records: Vec<FinishedRecord>,
    pub pending_records: Vec<PendingRecord>,
    pub msg_channel_buffer: [u8; 516],
    pub msg_len_channel_buffer: u32,
    pub num_instructions: u32,
    pub latest_cycle_count: u32,
    pub page_accessed: BTreeSet<u32>,
    pub latest_io_addrs: Vec<u32>,
    pub latest_accessed_new_pages: Vec<u32>,
    pub significant_cycles: Vec<SignificantCycleRecord>,
}

impl View for PendingRecord {
    type V = (Seq<char>, usize, u32, u32, usize);

    open spec fn view(&self) -> Self::V {
        (
            self.name@,
            self.num_pending_records,
            self.cur_num_instructions,
            self.cur_num_cycles,
            self.start_significant_cycles,
        )
    }
}

impl View for FinishedRecord {
    type V = (Seq<char>, usize, u32, u32, usize, usize);

    open spec fn view(&self) -> Self::V {
        (
            self.name@,
            self.indents,
            self.num_instructions,
            self.num_cycles,
            self.start_significant_cycles,
            self.end_significant_cycles,
        )
    }
}

pub open spec fn pending_view(s: Seq<PendingRecord>) -> Seq<(Seq<char>, usize, u32, u32, usize)> {
    s.map_values(|r: PendingRecord| r@)
}

pub open spec fn finished_view(s: Seq<FinishedRecord>) -> Seq<(Seq<char>, usize, u32, u32, usize, usize)> {
    s.map_values(|r: FinishedRecord| r@)
}

/// A channel address after an `li zero, imm` marker adjusts it by the
/// instruction's signed 12-bit immediate.
pub open spec fn li_adjust(channel: u32, insn: u32) -> u32 {
    let abs = (insn >> 20u32) & 0xfffu32;
    if (insn >> 31u32) & 1u32 == 1u32 {
        wrapping_sub(channel, (4096 - abs) as u32)
    } else {
        wrapping_add(channel, abs)
    }
}

/// One step of the marker recogniser on instruction `insn` at `pc`:
/// `(state, msg channel, length channel, cycle channel)` before and after.
/// The guest announces itself with `nop; lui zero, 0xcdcdd; li zero, -0x233`,
/// then gives each channel's address as an `auipc zero` and an `li zero` pair.
pub open spec fn marker_step(m: (u32, u32, u32, u32), pc: u32, insn: u32) -> (u32, u32, u32, u32) {
    let (state, msg, len, cyc) = m;
    let target = wrapping_add(pc, insn & 0xfffff000u32);
    if state == MARKERS_FOUND {
        m
    } else if insn == 0x00000013 {
        (if state == 0 { 1 } else { 0 }, msg, len, cyc)
    } else if insn == 0xcdcdd037 {
        (if state == 1 { 2 } else { 0 }, msg, len, cyc)
    } else if insn == 0xdcd00013 {
        (if state == 2 { 3 } else { 0 }, msg, len, cyc)
    } else if insn & 0xfffu32 == 0x017 {
        if state == 3 {
            (4, target, len, cyc)
        } else if state == 5 {
            (6, msg, target, cyc)
        } else if state == 7 {
            (8, msg, len, target)
        } else {
            (0, msg, len, cyc)
        }
    } else if insn & 0xfffffu32 == 0x13 {
        if state == 4 {
            (5, li_adjust(msg, insn), len, cyc)
        } else if state == 6 {
            (7, msg, li_adjust(len, insn), cyc)
        } else if state == 8 {
            (MARKERS_FOUND, msg, len, li_adjust(cyc, insn))
        } else {
            (0, msg, len, cyc)
        }
    } else {
        m
    }
}

/// The message buffer after the guest writes `value` at `addr`: a write
/// inside the message channel lands there as four little-endian bytes.
pub open spec fn buffer_after_write(buf: Seq<u8>, channel: u32, addr: u32, value: u32) -> Seq<u8> {
    if channel <= addr < channel + MSG_CHANNEL_BYTES {
        let o = addr - channel;
        buf.update(o, (value & 0xff) as u8).update(o + 1, ((value >> 8u32) & 0xff) as u8).update(
            o + 2,
            ((value >> 16u32) & 0xff) as u8,
        ).update(o + 3, ((value >> 24u32) & 0xff) as u8)
    } else {
        buf
    }
}

/// The first `len` bytes of the message buffer, or all of it when `len`
/// reaches past its end.
pub open spec fn message_bytes(buf: Seq<u8>, len: u32) -> Seq<u8> {
    if len <= buf.len() {
        buf.take(len as int)
    } else {
        buf
    }
}

/// A section's name decoded from the bytes the guest wrote, with each
/// malformed UTF-8 sequence replaced by U+FFFD.
pub uninterp spec fn utf8_lossy(b: Seq<u8>) -> Seq<char>;

/// Relies on `String::from_utf8_lossy`: the text of the bytes, a function of
/// the bytes alone.
#[verifier::external_body]
fn text_from_bytes(b: &[u8]) -> (r: String)
    ensures
        r@ == utf8_lossy(b@),
{
    String::from_utf8_lossy(b).into_owned()
}

/// The record a pending section becomes when it ends.
pub open spec fn finish(
    p: (Seq<char>, usize, u32, u32, usize),
    num_instructions: u32,
    cycle: u32,
    end: usize,
) -> (Seq<char>, usize, u32, u32, usize, usize) {
    (p.0, p.1, wrapping_sub(num_instructions, p.2), wrapping_sub(cycle, p.3), p.4, end)
}

impl CycleTracer {
    /// The state of a tracer that has seen nothing.
    pub open spec fn is_fresh(&self) -> bool {
        &&& self.init_state_machine == 0
        &&& self.trace_msg_channel == 0
        &&& self.trace_msg_len_channel == 0
        &&& self.trace_cycle_channel == 0
        &&& self.finished_records@.len() == 0
        &&& self.pending_records@.len() == 0
        &&& self.msg_channel_buffer@ == Seq::new(516, |i: int| 0u8)
        &&& self.msg_len_channel_buffer == 0
        &&& self.num_instructions == 0
        &&& self.latest_cycle_count == 0
        &&& self.page_accessed@ == Set::<u32>::empty()
        &&& self.latest_io_addrs@.len() == 0
        &&& self.latest_accessed_new_pages@.len() == 0
        &&& self.significant_cycles@.len() == 0
    }

    /// A tracer that has seen nothing.
    pub fn new() -> (r: CycleTracer)
        ensures
            r.is_fresh(),
    {
        let r = CycleTracer {
            init_state_machine: 0,
            trace_msg_channel: 0,
            trace_msg_len_channel: 0,
            trace_cycle_channel: 0,
            finished_records: Vec::new(),
            pending_records: Vec::new(),
            msg_channel_buffer: [0u8; 516],
            msg_len_channel_buffer: 0,
            num_instructions: 0,
            latest_cycle_count: 0,
            page_accessed: BTreeSet::new(),
            latest_io_addrs: Vec::new(),
            latest_accessed_new_pages: Vec::new(),
            significant_cycles: Vec::new(),
        };
        assert(r.msg_channel_buffer@ =~= Seq::new(516, |i: int| 0u8));
        r
    }

    /// Takes one event of the trace into account.
    pub fn handle_event(&mut self, event: TraceEvent)
        ensures
            match event {
                TraceEvent::InstructionStart { cycle, pc, insn } => {
                    let significant = wrapping_sub(cycle, old(self).latest_cycle_count)
                        >= SIGNIFICANT_CYCLES;
                    let n = old(self).significant_cycles@.len();
                    &&& final(self).significant_cycles@.len() == if significant {
                        n + 1
                    } else {
                        n
                    }
                    &&& final(self).significant_cycles@.take(n as int) == old(self).significant_cycles@
                    &&& significant ==> {
                        let rec = final(self).significant_cycles@[n as int];
                        &&& rec.latest_io_addrs@ == old(self).latest_io_addrs@
                        &&& rec.latest_accessed_new_pages@ == old(self).latest_accessed_new_pages@
                        &&& rec.pc == pc
                        &&& rec.current_cycle == cycle
                        &&& rec.insn == insn
                        &&& rec.previous_cycle == old(self).latest_cycle_count
                    }
                    &&& final(self).latest_io_addrs@.len() == 0
                    &&& final(self).latest_accessed_new_pages@.len() == 0
                    &&& final(self).latest_cycle_count == cycle
                    &&& final(self).num_instructions == wrapping_add(old(self).num_instructions, 1)
                    &&& (
                        final(self).init_state_machine,
                        final(self).trace_msg_channel,
                        final(self).trace_msg_len_channel,
                        final(self).trace_cycle_channel,
                    ) == marker_step(
                        (
                            old(self).init_state_machine,
                            old(self).trace_msg_channel,
                            old(self).trace_msg_len_channel,
                            old(self).trace_cycle_channel,
                        ),
                        pc,
                        insn,
                    )
                    &&& final(self).finished_records == old(self).finished_records
                    &&& final(self).pending_records == old(self).pending_records
                    &&& final(self).msg_channel_buffer == old(self).msg_channel_buffer
                    &&& final(self).msg_len_channel_buffer == old(self).msg_len_channel_buffer
                    &&& final(self).page_accessed == old(self).page_accessed
                },
                TraceEvent::RegisterSet { .. } => *final(self) == *old(self),
                TraceEvent::MemorySet { addr, value } => {
                    let page = addr >> 10u32;
                    let buf = buffer_after_write(
                        old(self).msg_channel_buffer@,
                        old(self).trace_msg_channel,
                        addr,
                        value,
                    );
                    let opened = (
                        utf8_lossy(message_bytes(buf, value)),
                        old(self).pending_records@.len() as usize,
                        old(self).num_instructions,
                        old(self).latest_cycle_count,
                        old(self).significant_cycles@.len() as usize,
                    );
                    let pend = if addr == old(self).trace_msg_len_channel {
                        pending_view(old(self).pending_records@).push(opened)
                    } else {
                        pending_view(old(self).pending_records@)
                    };
                    let closes = addr == old(self).trace_cycle_channel && pend.len() > 0;
                    &&& final(self).page_accessed@ == old(self).page_accessed@.insert(page)
                    &&& final(self).latest_accessed_new_pages@ == if old(self).page_accessed@.contains(
                        page,
                    ) {
                        old(self).latest_accessed_new_pages@
                    } else {
                        old(self).latest_accessed_new_pages@.push(page)
                    }
                    &&& final(self).latest_io_addrs@ == old(self).latest_io_addrs@.push(addr)
                    &&& final(self).msg_channel_buffer@ == buf
                    &&& pending_view(final(self).pending_records@) == if closes {
                        pend.drop_last()
                    } else {
                        pend
                    }
                    &&& finished_view(final(self).finished_records@) == if closes {
                        finished_view(old(self).finished_records@).push(
                            finish(
                                pend.last(),
                                old(self).num_instructions,
                                old(self).latest_cycle_count,
                                old(self).significant_cycles@.len() as usize,
                            ),
                        )
                    } else {
                        finished_view(old(self).finished_records@)
                    }
                    &&& final(self).init_state_machine == old(self).init_state_machine
                    &&& final(self).trace_msg_channel == old(self).trace_msg_channel
                    &&& final(self).trace_msg_len_channel == old(self).trace_msg_len_channel
                    &&& final(self).trace_cycle_channel == old(self).trace_cycle_channel
                    &&& final(self).msg_len_channel_buffer == old(self).msg_len_channel_buffer
                    &&& final(self).num_instructions == old(self).num_instructions
                    &&& final(self).latest_cycle_count == old(self).latest_cycle_count
                    &&& final(self).significant_cycles == old(self).significant_cycles
                },
            },
    {
        match event {
            TraceEvent::InstructionStart { cycle, pc, insn } => {
                if cycle.wrapping_sub(self.latest_cycle_count) >= SIGNIFICANT_CYCLES {
                    let mut addrs: Vec<u32> = Vec::new();
                    let mut pages: Vec<u32> = Vec::new();
                    core::mem::swap(&mut addrs, &mut self.latest_io_addrs);
                    core::mem::swap(&mut pages, &mut self.latest_accessed_new_pages);
                    let rec = SignificantCycleRecord {
                        latest_io_addrs: addrs,
                        latest_accessed_new_pages: pages,
                        pc,
                        current_cycle: cycle,
                        insn,
                        previous_cycle: self.latest_cycle_count,
                    };
                    self.significant_cycles.push(rec);
                }
                self.latest_io_addrs.clear();
                self.latest_accessed_new_pages.clear();
                self.latest_cycle_count = cycle;
                self.num_instructions = self.num_instructions.wrapping_add(1);
                self.step_markers(pc, insn);
            },
            TraceEvent::RegisterSet { .. } => {},
            TraceEvent::MemorySet { addr, value } => {
                let page_idx = addr >> 10;
                if !self.page_accessed.contains(&page_idx) {
                    self.page_accessed.insert(page_idx);
                    self.latest_accessed_new_pages.push(page_idx);
                } else {
                    assert(self.page_accessed@.insert(page_idx) =~= self.page_accessed@);
                }
                self.latest_io_addrs.push(addr);
                if addr >= self.trace_msg_channel && addr - self.trace_msg_channel < MSG_CHANNEL_BYTES {
                    let o = (addr - self.trace_msg_channel) as usize;
                    self.msg_channel_buffer[o] = (value & 0xff) as u8;
                    self.msg_channel_buffer[o + 1] = ((value >> 8) & 0xff) as u8;
                    self.msg_channel_buffer[o + 2] = ((value >> 16) & 0xff) as u8;
                    self.msg_channel_buffer[o + 3] = ((value >> 24) & 0xff) as u8;
                }
                if addr == self.trace_msg_len_channel {
                    let len: usize = if (value as usize) <= MSG_BUFFER_BYTES {
                        value as usize
                    } else {
                        MSG_BUFFER_BYTES
                    };
                    let mut bytes: Vec<u8> = Vec::new();
                    let mut i: usize = 0;
                    while i < len
                        invariant
                            i <= len <= MSG_BUFFER_BYTES,
                            self.msg_channel_buffer@.len() == MSG_BUFFER_BYTES,
                            bytes@ == self.msg_channel_buffer@.take(i as int),
                        decreases len - i,
                    {
                        bytes.push(self.msg_channel_buffer[i]);
                        i = i + 1;
                        assert(self.msg_channel_buffer@.take(i as int) =~= self.msg_channel_buffer@.take(
                            i - 1,
                        ).push(self.msg_channel_buffer@[i - 1]));
                    }
                    assert(bytes@ =~= message_bytes(self.msg_channel_buffer@, value));
                    let name = text_from_bytes(bytes.as_slice());
                    let rec = PendingRecord {
                        name,
                        num_pending_records: self.pending_records.len(),
                        cur_num_instructions: self.num_instructions,
                        cur_num_cycles: self.latest_cycle_count,
                        start_significant_cycles: self.significant_cycles.len(),
                    };
                    self.pending_records.push(rec);
                }
                if addr == self.trace_cycle_channel {
                    if let Some(elem) = self.pending_records.pop() {
                        let rec = FinishedRecord {
                            name: elem.name,
                            indents: elem.num_pending_records,
                            num_instructions: self.num_instructions.wrapping_sub(
                                elem.cur_num_instructions,
                            ),
                            num_cycles: self.latest_cycle_count.wrapping_sub(elem.cur_num_cycles),
                            start_significant_cycles: elem.start_significant_cycles,
                            end_significant_cycles: self.significant_cycles.len(),
                        };
                        self.finished_records.push(rec);
                    }
                }
            },
        }
    }

    fn step_markers(&mut self, pc: u32, insn: u32)
        ensures
            (
                final(self).init_state_machine,
                final(self).trace_msg_channel,
                final(self).trace_msg_len_channel,
                final(self).trace_cycle_channel,
            ) == marker_step(
                (
                    old(self).init_state_machine,
                    old(self).trace_msg_channel,
                    old(self).trace_msg_len_channel,
                    old(self).trace_cycle_channel,
                ),
                pc,
                insn,
            ),
            final(self).finished_records == old(self).finished_records,
            final(self).pending_records == old(self).pending_records,
            final(self).msg_channel_buffer == old(self).msg_channel_buffer,
            final(self).msg_len_channel_buffer == old(self).msg_len_channel_buffer,
            final(self).num_instructions == old(self).num_instructions,
            final(self).latest_cycle_count == old(self).latest_cycle_count,
            final(self).page_accessed == old(self).page_accessed,
            final(self).latest_io_addrs == old(self).latest_io_addrs,
            final(self).latest_accessed_new_pages == old(self).latest_accessed_new_pages,
            final(self).significant_cycles == old(self).significant_cycles,
    {
        if self.init_state_machine == MARKERS_FOUND {
            return;
        }
        if insn == 0x00000013 {
            // nop
            if self.init_state_machine == 0 {
                self.init_state_machine = 1;
            } else {
                self.init_state_machine = 0;
            }
        } else if insn == 0xcdcdd037 {
            // lui zero, 0xcdcdd
            if self.init_state_machine == 1 {
                self.init_state_machine = 2;
            } else {
                self.init_state_machine = 0;
            }
        } else if insn == 0xdcd00013 {
            // li zero, -0x233
            if self.init_state_machine == 2 {
                self.init_state_machine = 3;
            } else {
                self.init_state_machine = 0;
            }
        } else if insn & 0x00000fff == 0x017 {
            // auipc zero, imm
            let target = pc.wrapping_add(insn & 0xfffff000);
            if self.init_state_machine == 3 {
                self.trace_msg_channel = target;
                self.init_state_machine = 4;
            } else if self.init_state_machine == 5 {
                self.trace_msg_len_channel = target;
                self.init_state_machine = 6;
            } else if self.init_state_machine == 7 {
                self.trace_cycle_channel = target;
                self.init_state_machine = 8;
            } else {
                self.init_state_machine = 0;
            }
        } else if insn & 0x000fffff == 0x13 {
            // li zero, imm (12 bits, signed)
            if self.init_state_machine == 4 {
                self.trace_msg_channel = adjust_channel(self.trace_msg_channel, insn);
                self.init_state_machine = 5;
            } else if self.init_state_machine == 6 {
                self.trace_msg_len_channel = adjust_channel(self.trace_msg_len_channel, insn);
                self.init_state_machine = 7;
            } else if self.init_state_machine == 8 {
                self.trace_cycle_channel = adjust_channel(self.trace_cycle_channel, insn);
                self.init_state_machine = MARKERS_FOUND;
            } else {
                self.init_state_machine = 0;
            }
        }
    }
}

impl Default for CycleTracer {
    fn default() -> (r: CycleTracer)
        ensures
            r.is_fresh(),
    {
        CycleTracer::new()
    }
}

fn adjust_channel(channel: u32, insn: u32) -> (r: u32)
    ensures
        r == li_adjust(channel, insn),
{
    let abs = (insn >> 20) & 0xfff;
    let neg = ((insn >> 31) & 1) == 1;
    assert(abs <= 0xfff) by (bit_vector)
        requires
            abs == (insn >> 20u32) & 0xfffu32,
    ;
    if neg {
        channel.wrapping_sub(4096 - abs)
    } else {
        channel.wrapping_add(abs)
    }
}

/// `n` copies of the padding text.
pub open spec fn pad_repeat(n: nat) -> Seq<char>
    decreases n,
{
    if n == 0 {
        Seq::empty()
    } else {
        pad_repeat((n - 1) as nat) + PAD_CHAR@
    }
}

/// The indentation for nesting level `n`: the padding `n` times, then a
/// space unless `n` is zero.
pub open spec fn indent_text(n: nat) -> Seq<char> {
    if n == 0 {
        Seq::empty()
    } else {
        pad_repeat(n) + " "@
    }
}

/// The indentation for nesting level `indent_amount`.
pub fn compute_indent(indent_amount: usize) -> (r: String)
    ensures
        r@ == indent_text(indent_amount as nat),
{
    let mut indent = String::new();
    let mut i: usize = 0;
    while i < indent_amount
        invariant
            i <= indent_amount,
            indent@ == pad_repeat(i as nat),
        decreases indent_amount - i,
    {
        indent.append(PAD_CHAR);
        i = i + 1;
    }
    if indent_amount != 0 {
        indent.append(" ");
    }
    indent
}

} // verus!
