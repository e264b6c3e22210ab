//! Low-level driver routines for 16550a UART.
use vstd::prelude::*;
use crate::console::{reacts, Console, Reaction, INPUT_BUF_LEN};
use crate::filesystem::bytes::zeros;
use crate::memory_layout::UART0;

verus! {

/// Receive holding register (for input bytes).
pub const RHR: u64 = 0;

/// Transmit holding register (for output bytes).
pub const THR: u64 = 0;

/// Interrupt enable register.
pub const IER: u64 = 1;

/// FIFO control register.
pub const FCR: u64 = 2;

/// Interrupt status register.
pub const ISR: u64 = 2;

/// Line control register.
pub const LCR: u64 = 3;

/// Line status register.
pub const LSR: u64 = 5;

pub const IER_RX_ENABLE: u8 = 1;

pub const IER_TX_ENABLE: u8 = 2;

pub const FCR_FIFO_ENABLE: u8 = 1;

/// Clear the content of the two FIFOs.
pub const FCR_FIFO_CLEAR: u8 = 6;

pub const LCR_EIGHT_BITS: u8 = 3;

/// Special mode to set baud rate.
pub const LCR_BAUD_LATCH: u8 = 128;

/// Input is waiting to be read from RHR.
pub const LSR_RX_READY: u8 = 1;

/// THR can accept another character to send.
pub const LSR_TX_IDLE: u8 = 32;

/// The address of a control register.
pub fn register(reg: u64) -> (r: u64)
    requires
        reg < 8,
    ensures
        r == UART0 + reg,
{
    UART0 + reg
}

/// The transmit output buffer, a ring of `SIZE` bytes.
pub struct TransmitBuffer<const SIZE: usize> {
    pub buffer: Vec<u8>,
    /// Write next at this place, modulo the size.
    pub write_at: usize,
    /// Read next from this place, modulo the size.
    pub read_at: usize,
}

impl<const SIZE: usize> View for TransmitBuffer<SIZE> {
    type V = Seq<u8>;

    /// The bytes that wait to be sent.
    open spec fn view(&self) -> Seq<u8> {
        Seq::new((self.write_at - self.read_at) as nat, |i: int| self.buffer@[(self.read_at + i) % (SIZE as int)])
    }
}

impl<const SIZE: usize> TransmitBuffer<SIZE> {
    pub open spec fn wf(&self) -> bool {
        &&& SIZE > 0
        &&& self.buffer@.len() == SIZE
        &&& self.read_at <= self.write_at <= self.read_at + SIZE
        &&& self.read_at + SIZE <= usize::MAX
    }

    pub fn new() -> (this: Self)
        requires
            SIZE > 0,
        ensures
            this.wf(),
            this@ == Seq::<u8>::empty(),
    {
        let this = TransmitBuffer { buffer: zeros(SIZE), write_at: 0, read_at: 0 };
        proof {
            assert(this@ =~= Seq::<u8>::empty());
        }
        this
    }

    pub fn is_empty(&self) -> (r: bool)
        requires
            self.wf(),
        ensures
            r == (self@.len() == 0),
    {
        self.write_at == self.read_at
    }

    pub fn is_full(&self) -> (r: bool)
        requires
            self.wf(),
        ensures
            r == (self@.len() == SIZE),
    {
        self.write_at == self.read_at + SIZE
    }

    /// Adds a byte at the end.
    pub fn queue(&mut self, value: u8)
        requires
            old(self).wf(),
            old(self)@.len() < SIZE,
        ensures
            final(self).wf(),
            final(self)@ == old(self)@.push(value),
            final(self).read_at == old(self).read_at,
    {
        let ghost b0 = *self;
        let at = self.write_at % SIZE;
        self.buffer.set(at, value);
        self.write_at = self.write_at + 1;
        proof {
            assert forall|i: int| 0 <= i < b0@.len() implies #[trigger] self@[i] == b0@[i] by {
                lemma_other_place(b0.read_at + i, b0.write_at as int, SIZE as int);
            }
            assert(self@ =~= b0@.push(value));
        }
    }

    /// Takes the first byte.
    pub fn dequeue(&mut self) -> (value: u8)
        requires
            old(self).wf(),
            old(self)@.len() > 0,
            old(self).read_at + SIZE < usize::MAX,
        ensures
            final(self).wf(),
            value == old(self)@[0],
            final(self)@ == old(self)@.skip(1),
            final(self).read_at == old(self).read_at + 1,
    {
        let ghost b0 = *self;
        let value = self.buffer[self.read_at % SIZE];
        self.read_at = self.read_at + 1;
        proof {
            assert(self@ =~= b0@.skip(1));
        }
        value
    }
}

/// Two indices less than a ring apart are different places of it.
pub proof fn lemma_other_place(i: int, j: int, size: int)
    requires
        0 <= i < j,
        j < i + size,
    ensures
        i % size != j % size,
{
    if i % size == j % size {
        vstd::arithmetic::div_mod::lemma_fundamental_div_mod(i, size);
        vstd::arithmetic::div_mod::lemma_fundamental_div_mod(j, size);
        let d = j / size - i / size;
        assert(j - i == size * d) by (nonlinear_arith)
            requires
                i == size * (i / size) + i % size,
                j == size * (j / size) + j % size,
                i % size == j % size,
                d == j / size - i / size,
        ;
        assert(false) by (nonlinear_arith)
            requires
                0 < j - i < size,
                j - i == size * d,
        ;
    }
}

/// How far a character to be sent came.
#[derive(Clone, Copy, Debug, PartialEq, Eq, Structural)]
pub enum PutProgress {
    /// The kernel has panicked; nothing is sent any more.
    Panicked,
    /// Wait for space in the buffer.
    Sleep,
    /// The character is in the buffer; the UART may be told to send.
    Queued,
}

/// A UART: the characters that wait to be sent.
pub struct UART {
    pub tx: TransmitBuffer<32>,
    pub panicked: bool,
}

/// What a character to be sent comes to.
pub open spec fn put_came_to(u0: UART, u1: UART, c: u8, r: PutProgress) -> bool {
    if u0.panicked {
        r == PutProgress::Panicked && u1 == u0
    } else if u0.tx@.len() == 32 {
        r == PutProgress::Sleep && u1 == u0
    } else {
        r == PutProgress::Queued && u1.tx@ == u0.tx@.push(c)
    }
}

/// What sending the next character comes to.
pub open spec fn send_came_to(u0: UART, u1: UART, line_status: u8, r: Option<u8>) -> bool {
    if u0.tx@.len() == 0 || line_status & LSR_TX_IDLE == 0 {
        r == None::<u8> && u1 == u0
    } else {
        r == Some(u0.tx@[0]) && u1.tx@ == u0.tx@.skip(1)
    }
}

/// Characters are sent in the order in which they were queued, each of them once, and none while bit 5 of
/// the line status is not set: what was sent and what still waits make up what was queued. One waits for
/// room only where 32 are waiting.
pub proof fn lemma_sent(u0: UART, u1: UART, u2: UART, c: u8, put: PutProgress, line_status: u8, sent: Option<u8>)
    requires
        put_came_to(u0, u1, c, put),
        send_came_to(u1, u2, line_status, sent),
        u0.tx@.len() <= 32,
    ensures
        put == PutProgress::Queued ==> u1.tx@ == u0.tx@.push(c) && u1.tx@.len() <= 32,
        put != PutProgress::Queued ==> u1.tx@ == u0.tx@,
        put == PutProgress::Sleep <==> !u0.panicked && u0.tx@.len() == 32,
        put == PutProgress::Panicked <==> u0.panicked,
        sent matches Some(x) ==> line_status & 0x20 != 0 && u1.tx@ == seq![x] + u2.tx@,
        sent is None ==> u2.tx@ == u1.tx@ && (line_status & 0x20 == 0 || u1.tx@.len() == 0),
{
    if let Some(x) = sent {
        assert(u1.tx@ =~= seq![x] + u2.tx@);
    }
}

impl UART {
    pub open spec fn wf(&self) -> bool {
        self.tx.wf()
    }

    pub fn new() -> (this: Self)
        ensures
            this.wf(),
            this.tx@ == Seq::<u8>::empty(),
            !this.panicked,
    {
        UART { tx: TransmitBuffer::new(), panicked: false }
    }

    fn is_panicked(&self) -> (r: bool)
        ensures
            r == self.panicked,
    {
        self.panicked
    }

    /// The registers to write, in order, to set the UART up: no interrupts while the baud rate
    /// of 38.4K is set, a word length of 8 bits, no parity, FIFOs, and then interrupts.
    pub fn init(&self) -> (r: Vec<(u64, u8)>)
        ensures
            r@ == seq![
                (IER, 0u8),
                (LCR, LCR_BAUD_LATCH),
                (0u64, 3u8),
                (1u64, 0u8),
                (LCR, LCR_EIGHT_BITS),
                (FCR, FCR_FIFO_ENABLE | FCR_FIFO_CLEAR),
                (IER, IER_TX_ENABLE | IER_RX_ENABLE),
            ],
    {
        let mut r: Vec<(u64, u8)> = Vec::new();
        r.push((IER, 0x00));
        r.push((LCR, LCR_BAUD_LATCH));
        r.push((0, 0x03));
        r.push((1, 0x00));
        r.push((LCR, LCR_EIGHT_BITS));
        r.push((FCR, FCR_FIFO_ENABLE | FCR_FIFO_CLEAR));
        r.push((IER, IER_TX_ENABLE | IER_RX_ENABLE));
        proof {
            assert(r@ =~= seq![
                (IER, 0u8),
                (LCR, LCR_BAUD_LATCH),
                (0u64, 3u8),
                (1u64, 0u8),
                (LCR, LCR_EIGHT_BITS),
                (FCR, FCR_FIFO_ENABLE | FCR_FIFO_CLEAR),
                (IER, IER_TX_ENABLE | IER_RX_ENABLE),
            ]);
        }
        r
    }

    /// Adds a character to the output buffer, unless it is full or the kernel has panicked.
    pub fn putc(&mut self, c: u8) -> (r: PutProgress)
        requires
            old(self).wf(),
        ensures
            final(self).wf(),
            final(self).panicked == old(self).panicked,
            put_came_to(*old(self), *final(self), c, r),
    {
        if self.is_panicked() {
            return PutProgress::Panicked;
        }
        if self.tx.is_full() {
            return PutProgress::Sleep;
        }
        self.tx.queue(c);
        PutProgress::Queued
    }

    /// The next character to write to the transmit holding register, given the line status. It
    /// leaves the buffer, so whoever waits for space has to be woken. `None` means that the
    /// buffer is empty, or that the UART cannot take another byte; it will interrupt when it
    /// can.
    pub fn send(&mut self, line_status: u8) -> (r: Option<u8>)
        requires
            old(self).wf(),
            old(self).tx.read_at < usize::MAX - 32,
        ensures
            final(self).wf(),
            final(self).panicked == old(self).panicked,
            send_came_to(*old(self), *final(self), line_status, r),
    {
        if self.tx.is_empty() || line_status & LSR_TX_IDLE == 0 {
            return None;
        }
        Some(self.tx.dequeue())
    }

    /// Whether a character can be written to the transmit holding register without use of the
    /// buffer, given the line status. Nothing is sent once the kernel has panicked.
    pub fn putc_blocking(&self, line_status: u8) -> (r: bool)
        ensures
            r == (!self.panicked && line_status & LSR_TX_IDLE != 0),
    {
        !self.is_panicked() && line_status & LSR_TX_IDLE != 0
    }

    /// Whether input waits in the receive holding register, given the line status.
    pub fn getc(&self, line_status: u8) -> (r: bool)
        ensures
            r == (line_status & LSR_RX_READY != 0),
    {
        line_status & 0x01 != 0
    }
}

/// A UART as it is when the kernel starts.
pub fn get() -> (r: UART)
    ensures
        r.wf(),
        r.tx@ == Seq::<u8>::empty(),
        !r.panicked,
{
    UART::new()
}


/// The console takes characters one after another.
pub open spec fn all_handled(c0: Console, received: Seq<u8>, c1: Console, reactions: Seq<Reaction>) -> bool
    decreases received.len(),
{
    &&& reactions.len() == received.len()
    &&& if received.len() == 0 {
        c1 == c0
    } else {
        exists|mid: Console|
            all_handled(c0, received.drop_last(), mid, reactions.drop_last()) && #[trigger] reacts(
                mid,
                received.last(),
                c1,
                reactions.last(),
            )
    }
}

/// Handles a UART interrupt: the characters that have arrived go to the console, in order. The
/// UART may be ready for more output too, so `UART::send` has to be called afterwards.
pub fn uartintr(console: &mut Console, received: &Vec<u8>) -> (reactions: Vec<Reaction>)
    requires
        old(console).wf(),
        old(console).edit_index + received@.len() < usize::MAX,
    ensures
        final(console).wf(),
        all_handled(*old(console), received@, *final(console), reactions@),
{
    let ghost c0 = *console;
    let mut reactions: Vec<Reaction> = Vec::new();
    let mut i: usize = 0;
    while i < received.len()
        invariant
            i <= received@.len(),
            console.wf(),
            console.edit_index <= c0.edit_index + i,
            c0.edit_index + received@.len() < usize::MAX,
            all_handled(c0, received@.take(i as int), *console, reactions@),
        decreases received@.len() - i,
    {
        let ghost mid = *console;
        let ghost before = reactions@;
        let r = console.handle_interrupt(received[i]);
        reactions.push(r);
        proof {
            assert(received@.take(i + 1).drop_last() =~= received@.take(i as int));
            assert(reactions@.drop_last() =~= before);
            assert(reacts(mid, received@.take(i + 1).last(), *console, reactions@.last()));
        }
        i = i + 1;
    }
    proof {
        assert(received@.take(received@.len() as int) =~= received@);
    }
    reactions
}


/// A character that only stands for itself: no end of line or file, no erasing, no listing.
pub open spec fn is_plain(c: u8) -> bool {
    c != 0 && c != 4 && c != 8 && c != 10 && c != 13 && c != 16 && c != 21 && c != 0x7f
}

/// Plain characters wait in the line that is edited.
proof fn lemma_typed(c0: Console, line: Seq<u8>, c1: Console, reactions: Seq<Reaction>)
    requires
        c0.editing() == Seq::<u8>::empty(),
        c0.input().len() + line.len() < INPUT_BUF_LEN,
        forall|i: int| 0 <= i < line.len() ==> is_plain(#[trigger] line[i]),
        all_handled(c0, line, c1, reactions),
    ensures
        c1.input() == c0.input(),
        c1.editing() == line,
    decreases line.len(),
{
    if line.len() == 0 {
        assert(line =~= Seq::<u8>::empty());
    } else {
        let mid = choose|mid: Console|
            all_handled(c0, line.drop_last(), mid, reactions.drop_last()) && #[trigger] reacts(mid, line.last(), c1, reactions.last());
        lemma_typed(c0, line.drop_last(), mid, reactions.drop_last());
        assert(is_plain(line[line.len() - 1]));
        assert(line.drop_last().push(line.last()) =~= line);
    }
}

/// A line of plain characters that is typed, with a newline at its end, can be read as it was
/// typed, behind what could be read before.
pub proof fn lemma_line_typed(c0: Console, line: Seq<u8>, c1: Console, reactions: Seq<Reaction>)
    requires
        c0.editing() == Seq::<u8>::empty(),
        c0.input().len() + line.len() < INPUT_BUF_LEN,
        forall|i: int| 0 <= i < line.len() ==> is_plain(#[trigger] line[i]),
        all_handled(c0, line.push(10), c1, reactions),
    ensures
        c1.input() == c0.input() + line.push(10),
        c1.editing() == Seq::<u8>::empty(),
{
    let typed = line.push(10);
    assert(typed.drop_last() =~= line);
    let mid = choose|mid: Console|
        all_handled(c0, typed.drop_last(), mid, reactions.drop_last()) && #[trigger] reacts(mid, typed.last(), c1, reactions.last());
    lemma_typed(c0, line, mid, reactions.drop_last());
}


/// What can be done to a transmit buffer: a byte is put in, or taken out.
pub enum Transmission {
    Queued(u8),
    Dequeued(u8),
}

/// The buffer held `states[i]` before step `i`, and was empty at first.
pub open spec fn is_transmission(states: Seq<Seq<u8>>, steps: Seq<Transmission>) -> bool {
    &&& states.len() == steps.len() + 1
    &&& states[0] == Seq::<u8>::empty()
    &&& forall|i: int| 0 <= i < steps.len() ==> match #[trigger] steps[i] {
        Transmission::Queued(c) => states[i + 1] == states[i].push(c),
        Transmission::Dequeued(c) => states[i].len() > 0 && c == states[i][0] && states[i + 1] == states[i].skip(1),
    }
}

/// The bytes that were put in.
pub open spec fn bytes_queued(steps: Seq<Transmission>) -> Seq<u8>
    decreases steps.len(),
{
    if steps.len() == 0 {
        Seq::empty()
    } else {
        match steps.last() {
            Transmission::Queued(c) => bytes_queued(steps.drop_last()).push(c),
            Transmission::Dequeued(_) => bytes_queued(steps.drop_last()),
        }
    }
}

/// The bytes that were taken out.
pub open spec fn bytes_dequeued(steps: Seq<Transmission>) -> Seq<u8>
    decreases steps.len(),
{
    if steps.len() == 0 {
        Seq::empty()
    } else {
        match steps.last() {
            Transmission::Queued(_) => bytes_dequeued(steps.drop_last()),
            Transmission::Dequeued(c) => bytes_dequeued(steps.drop_last()).push(c),
        }
    }
}

/// Over any history, the bytes that were taken out, followed by those that wait, are the bytes
/// that were put in, in their order.
pub proof fn lemma_sent_in_order(states: Seq<Seq<u8>>, steps: Seq<Transmission>)
    requires
        is_transmission(states, steps),
    ensures
        bytes_dequeued(steps) + states.last() == bytes_queued(steps),
    decreases steps.len(),
{
    if steps.len() == 0 {
        assert(bytes_dequeued(steps) + states.last() =~= bytes_queued(steps));
    } else {
        let n = steps.len() - 1;
        let s = states.drop_last();
        let t = steps.drop_last();
        assert(is_transmission(s, t)) by {
            assert forall|i: int| 0 <= i < t.len() implies match #[trigger] t[i] {
                Transmission::Queued(c) => s[i + 1] == s[i].push(c),
                Transmission::Dequeued(c) => s[i].len() > 0 && c == s[i][0] && s[i + 1] == s[i].skip(1),
            } by {
                assert(t[i] == steps[i]);
            }
        }
        lemma_sent_in_order(s, t);
        assert(s.last() == states[n]);
        assert(states.last() == states[n + 1]);
        assert(steps[n] == steps.last());
        assert(bytes_dequeued(steps) + states.last() =~= bytes_queued(steps));
    }
}


} // verus!
