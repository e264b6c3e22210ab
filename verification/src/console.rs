//! Console input and output, to the uart. Reads are line at a time. Implements special input
//! characters:
//!   newline -- end of line
//!   control-h -- backspace
//!   control-u -- kill line
//!   control-d -- end of file
//!   control-p -- print process list
use vstd::prelude::*;
use crate::allocator::KernelAllocator;
use crate::filesystem::bytes::zeros;
use crate::riscv::paging::{is_page, own_only, user_byte, written, PageTable};

verus! {

/// The code of a control character.
pub open spec fn ctrl_spec(x: u8) -> u8 {
    ((x - 64) % 256) as u8
}

fn ctrl(x: u8) -> (r: u8)
    ensures
        r == ctrl_spec(x),
{
    x.wrapping_sub(64)
}

/// Bytes of input that the console holds.
pub const INPUT_BUF_LEN: usize = 128;

/// Bytes that are read of user memory at a time.
const WRITE_LEN: usize = 256;

/// Input that was typed: up to `read_index` it was read, up to `write_index` it can be read,
/// and up to `edit_index` it is being edited.
pub struct Console {
    pub buf: Vec<u8>,
    pub read_index: usize,
    pub write_index: usize,
    pub edit_index: usize,
}

/// What has to be done after an input character.
pub struct Reaction {
    /// Characters to send to the uart.
    pub echo: Vec<u8>,
    /// Whether to wake whoever waits for input.
    pub wake: bool,
    /// Whether to print the process list.
    pub dump: bool,
}

/// A read of the console by a process.
pub struct ReadRequest {
    pub dst: u64,
    pub n: usize,
    pub target: usize,
}

/// How far a read of the console came.
#[derive(Clone, Copy, Debug, PartialEq, Eq, Structural)]
pub enum ReadProgress {
    /// Wait for input.
    Sleep,
    /// The read is complete, with this many bytes.
    Done(usize),
    /// The process was killed while it waited.
    Killed,
}

/// The characters that rub out the last one on the screen.
pub open spec fn rubout() -> Seq<u8> {
    seq![8u8, 32u8, 8u8]
}

/// Rubs out the last `k` characters.
pub open spec fn rubouts(k: nat) -> Seq<u8>
    decreases k,
{
    if k == 0 {
        Seq::empty()
    } else {
        rubouts((k - 1) as nat) + rubout()
    }
}

/// Number of bytes that a read of at most `n` bytes takes from the input `s`: up to and with
/// the end of the line, and not the end of file.
pub open spec fn read_end(s: Seq<u8>, n: int) -> int
    decreases n,
{
    if n <= 0 || s.len() == 0 || s[0] == 4 {
        0
    } else if s[0] == 10 {
        1
    } else {
        1 + read_end(s.skip(1), n - 1)
    }
}

/// Number of bytes from `va` on, `n` at most, that user code may access.
pub open spec fn access_end(ram: Seq<crate::allocator::Frame>, root: int, va: int, n: int) -> int
    decreases n,
{
    if n <= 0 || user_byte(ram, root, va) is None {
        0
    } else {
        1 + access_end(ram, root, va + 1, n - 1)
    }
}

/// How the console goes from `c0` to `c1` when character `c` comes in.
pub open spec fn reacts(c0: Console, c: u8, c1: Console, r: Reaction) -> bool {
    let input = c0.input();
    let line = c0.editing();
    let x = if c == 13 { 10u8 } else { c };
    if c == ctrl_spec(80) {
        &&& r.dump && !r.wake && r.echo@ == Seq::<u8>::empty()
        &&& c1.input() == input && c1.editing() == line
    } else if c == ctrl_spec(85) {
        &&& !r.dump && !r.wake && r.echo@ == rubouts(line.len())
        &&& c1.input() == input && c1.editing() == Seq::<u8>::empty()
    } else if c == 0x7f || c == ctrl_spec(72) {
        &&& !r.dump && !r.wake
        &&& c1.input() == input
        &&& if line.len() > 0 {
            r.echo@ == rubout() && c1.editing() == line.drop_last()
        } else {
            r.echo@ == Seq::<u8>::empty() && c1.editing() == line
        }
    } else if c == 0 || input.len() + line.len() >= INPUT_BUF_LEN {
        &&& !r.dump && !r.wake && r.echo@ == Seq::<u8>::empty()
        &&& c1.input() == input && c1.editing() == line
    } else {
        &&& !r.dump
        &&& r.echo@ == seq![x]
        &&& r.wake == (x == 10 || x == ctrl_spec(68) || input.len() + line.len() + 1 == INPUT_BUF_LEN)
        &&& if r.wake {
            c1.input() == input + line.push(x) && c1.editing() == Seq::<u8>::empty()
        } else {
            c1.input() == input && c1.editing() == line.push(x)
        }
    }
}

/// What going on with a read of the console comes to.
pub open spec fn read_came_to(
    c0: Console,
    c1: Console,
    a0: KernelAllocator,
    a1: KernelAllocator,
    root: int,
    req0: ReadRequest,
    req1: ReadRequest,
    killed: bool,
    r: ReadProgress,
) -> bool {
    let s = c0.input();
    let n = req0.n as int;
    let so_far = req0.target - n;
    let e = read_end(s, n);
    let ok = access_end(a0.frames(), root, req0.dst as int, e);
    &&& req1.target == req0.target
    &&& req1.n == n - ok
    &&& req1.dst == req0.dst + ok
    &&& written(a0.frames(), a1.frames(), root, req0.dst as int, s.take(ok))
    &&& if ok < e {
        r == ReadProgress::Done((so_far + ok) as usize) && c1.input() == s.skip(ok + 1)
    } else if e == n || (e > 0 && s[e - 1] == 10) {
        r == ReadProgress::Done((so_far + e) as usize) && c1.input() == s.skip(e)
    } else if e < s.len() {
        &&& r == ReadProgress::Done((so_far + e) as usize)
        &&& c1.input() == if so_far + e > 0 { s.skip(e) } else { s.skip(e + 1) }
    } else {
        r == (if killed { ReadProgress::Killed } else { ReadProgress::Sleep }) && c1.input() == Seq::<u8>::empty()
    }
}

impl Console {
    pub open spec fn wf(&self) -> bool {
        &&& self.buf@.len() == INPUT_BUF_LEN
        &&& self.read_index <= self.write_index <= self.edit_index <= self.read_index + INPUT_BUF_LEN
        &&& forall|i: int| 0 <= i < self.editing().len() ==> #[trigger] self.editing()[i] != 10 && self.editing()[i] != 4
    }

    /// Character number `i` of all that were typed.
    pub open spec fn char_at(&self, i: int) -> u8 {
        self.buf@[i % 128]
    }

    /// The input that can be read.
    pub open spec fn input(&self) -> Seq<u8> {
        Seq::new((self.write_index - self.read_index) as nat, |i: int| self.char_at(self.read_index + i))
    }

    /// The line that is being edited.
    pub open spec fn editing(&self) -> Seq<u8> {
        Seq::new((self.edit_index - self.write_index) as nat, |i: int| self.char_at(self.write_index + i))
    }

    pub fn new() -> (this: Self)
        ensures
            this.wf(),
            this.read_index == 0,
            this.write_index == 0,
            this.edit_index == 0,
            this.input() == Seq::<u8>::empty(),
            this.editing() == Seq::<u8>::empty(),
    {
        let this = Console { buf: zeros(INPUT_BUF_LEN), read_index: 0, write_index: 0, edit_index: 0 };
        proof {
            assert(this.input() =~= Seq::<u8>::empty());
            assert(this.editing() =~= Seq::<u8>::empty());
        }
        this
    }

    /// The characters that rub out the last one on the screen.
    pub fn backspace() -> (r: Vec<u8>)
        ensures
            r@ == rubout(),
    {
        let mut r: Vec<u8> = Vec::new();
        r.push(0x08);
        r.push(0x20);
        r.push(0x08);
        proof {
            assert(r@ =~= rubout());
        }
        r
    }

    /// The characters that print `c`. For echoing input characters and for messages, but not
    /// for writes by user code.
    pub fn putc(c: u8) -> (r: Vec<u8>)
        ensures
            r@ == seq![c],
    {
        let mut r: Vec<u8> = Vec::new();
        r.push(c);
        proof {
            assert(r@ =~= seq![c]);
        }
        r
    }

    /// Writes to the console by user code: the characters to send, as many of the `n` bytes
    /// from `src` on as user code may access.
    pub fn write(a: &KernelAllocator, pagetable: &PageTable, src: u64, n: usize) -> (r: Vec<u8>)
        requires
            a.wf(),
            pagetable.wf(a),
            own_only(a.frames(), pagetable.root()),
        ensures
            r@.len() == access_end(a.frames(), pagetable.root(), src as int, n as int),
            forall|i: int| 0 <= i < r@.len() ==> user_byte(a.frames(), pagetable.root(), src + i) == Some(#[trigger] r@[i]),
    {
        let mut r: Vec<u8> = Vec::new();
        let ghost ram = a.frames();
        let ghost root = pagetable.root();
        while r.len() < n
            invariant
                a.wf(),
                pagetable.wf(a),
                own_only(a.frames(), pagetable.root()),
                ram == a.frames(),
                root == pagetable.root(),
                r@.len() <= n,
                forall|i: int| 0 <= i < r@.len() ==> user_byte(ram, root, src + i) == Some(#[trigger] r@[i]),
            decreases n - r@.len(),
        {
            let done = r.len();
            proof {
                if done > 0 {
                    assert(user_byte(ram, root, src + (done - 1)) == Some(r@[done - 1]));
                    assert(is_page((src + (done - 1)) / 4096));
                }
            }
            let from = src + done as u64;
            let len = if n - done < WRITE_LEN {
                n - done
            } else {
                WRITE_LEN
            };
            let mut piece = zeros(len);
            let read = pagetable.read(a, &mut piece, from);
            if let Err(k) = read {
                piece.truncate(k);
            }
            let ghost got = piece@;
            let ghost r0 = r@;
            r.append(&mut piece);
            proof {
                assert forall|i: int| 0 <= i < r@.len() implies user_byte(ram, root, src + i) == Some(#[trigger] r@[i]) by {
                    if i < done {
                        assert(r@[i] == r0[i]);
                    } else {
                        assert(r@[i] == got[i - done]);
                        assert(user_byte(ram, root, from + (i - done)) == Some(got[i - done]));
                        assert(from + (i - done) == src + i);
                    }
                }
            }
            if let Err(k) = read {
                proof {
                    assert(user_byte(ram, root, from + k) is None);
                    assert(from + k == src + r@.len());
                    assert forall|i: int| 0 <= i < r@.len() implies (#[trigger] user_byte(ram, root, src + i)) is Some by {
                        assert(user_byte(ram, root, src + i) == Some(r@[i]));
                    }
                    lemma_access(ram, root, src as int, n as int, r@.len() as int);
                }
                return r;
            }
        }
        proof {
            assert forall|i: int| 0 <= i < n implies (#[trigger] user_byte(ram, root, src + i)) is Some by {
                assert(user_byte(ram, root, src + i) == Some(r@[i]));
            }
            lemma_access(ram, root, src as int, n as int, n as int);
        }
        r
    }

    /// Handles an input character: does erase and kill processing, appends to the line, and
    /// makes the line readable when it is complete.
    #[verifier::rlimit(40)]
    pub fn handle_interrupt(&mut self, c: u8) -> (r: Reaction)
        requires
            old(self).wf(),
            old(self).edit_index < usize::MAX,
        ensures
            final(self).wf(),
            final(self).read_index == old(self).read_index,
            final(self).edit_index <= old(self).edit_index + 1,
            reacts(*old(self), c, *final(self), r),
    {
        let ghost c0 = *self;
        let ghost line0 = self.editing();
        let mut r = Reaction { echo: Vec::new(), wake: false, dump: false };
        if c == ctrl(80) {
            r.dump = true;
        } else if c == ctrl(85) {
            while self.edit_index != self.write_index && self.buf[(self.edit_index - 1) % INPUT_BUF_LEN] != 10
                invariant
                    self.wf(),
                    c0.wf(),
                    *self == (Console { edit_index: self.edit_index, ..c0 }),
                    self.edit_index <= c0.edit_index,
                    !r.wake,
                    !r.dump,
                    line0 == c0.editing(),
                    r.echo@ == rubouts((c0.edit_index - self.edit_index) as nat),
                decreases self.edit_index,
            {
                let ghost before = *self;
                self.edit_index = self.edit_index - 1;
                let mut b = Self::backspace();
                r.echo.append(&mut b);
                proof {
                    assert forall|i: int| 0 <= i < self.editing().len() implies #[trigger] self.editing()[i] != 10 && self.editing()[i] != 4 by {
                        assert(self.editing()[i] == before.editing()[i]);
                    }
                }
            }
            proof {
                if self.edit_index != self.write_index {
                    let k = self.editing().len() - 1;
                    assert(self.editing()[k] == self.char_at(self.edit_index - 1));
                }
                assert(self.editing() =~= Seq::<u8>::empty());
                assert(self.input() =~= c0.input());
            }
        } else if c == 0x7f || c == ctrl(72) {
            if self.edit_index != self.write_index {
                self.edit_index = self.edit_index - 1;
                r.echo = Self::backspace();
                proof {
                    assert(self.editing() =~= line0.drop_last());
                    assert(self.input() =~= c0.input());
                }
            }
        } else {
            if c == 0 {
                return r;
            }
            if self.edit_index - self.read_index >= INPUT_BUF_LEN {
                return r;
            }
            let x: u8 = if c == 13 {
                10
            } else {
                c
            };
            r.echo = Self::putc(x);
            let at = self.edit_index % INPUT_BUF_LEN;
            self.buf.set(at, x);
            self.edit_index = self.edit_index + 1;
            proof {
                assert forall|i: int| c0.read_index <= i < c0.edit_index implies #[trigger] self.char_at(i) == c0.char_at(i) by {
                    lemma_ring(i, c0.edit_index as int);
                }
                assert(self.input() =~= c0.input());
                assert(self.editing() =~= line0.push(x));
            }
            if x == 10 || x == ctrl(68) || self.edit_index - self.read_index == INPUT_BUF_LEN {
                self.write_index = self.edit_index;
                r.wake = true;
                proof {
                    assert forall|i: int| 0 <= i < self.input().len() implies #[trigger] self.input()[i] == (c0.input() + line0.push(x))[i] by {
                        if i < c0.input().len() {
                            assert(self.char_at(c0.read_index + i) == c0.char_at(c0.read_index + i));
                        } else if i < self.input().len() - 1 {
                            assert(self.char_at(c0.read_index + i) == c0.char_at(c0.read_index + i));
                            assert(line0[i - c0.input().len()] == c0.char_at(c0.write_index + (i - c0.input().len())));
                        }
                    }
                    assert(self.input() =~= c0.input() + line0.push(x));
                    assert(self.editing() =~= Seq::<u8>::empty());
                }
            }
        }
        r
    }

    /// The bytes that a read of at most `n` bytes takes from the input.
    fn peek(&self, n: usize) -> (r: Vec<u8>)
        requires
            self.wf(),
        ensures
            r@ == self.input().take(read_end(self.input(), n as int)),
            r@.len() == read_end(self.input(), n as int),
    {
        let ghost s = self.input();
        let mut r: Vec<u8> = Vec::new();
        let mut at = self.read_index;
        proof {
            assert(s.skip(0) =~= s);
            lemma_read_end(s, n as int);
        }
        while r.len() < n && at != self.write_index
            invariant
                self.wf(),
                s == self.input(),
                r@.len() <= n,
                r@.len() <= s.len(),
                at == self.read_index + r@.len(),
                r@ =~= s.take(r@.len() as int),
                read_end(s, n as int) == r@.len() + read_end(s.skip(r@.len() as int), n - r@.len()),
            decreases n - r@.len(),
        {
            let ghost k = r@.len() as int;
            let c = self.buf[at % INPUT_BUF_LEN];
            proof {
                assert(c == s[k]);
                assert(s.skip(k)[0] == s[k]);
                assert(s.skip(k).skip(1) =~= s.skip(k + 1));
            }
            if c == ctrl(68) {
                return r;
            }
            r.push(c);
            at = at + 1;
            if c == 10 {
                proof {
                    assert(r@ =~= s.take(k + 1));
                }
                return r;
            }
        }
        r
    }

    /// Moves past `n` characters of the input.
    fn skip(&mut self, n: usize)
        requires
            old(self).wf(),
            n <= old(self).input().len(),
        ensures
            final(self).wf(),
            final(self).input() == old(self).input().skip(n as int),
            final(self).editing() == old(self).editing(),
            final(self).read_index == old(self).read_index + n,
            final(self).write_index == old(self).write_index,
            final(self).edit_index == old(self).edit_index,
    {
        let ghost c0 = *self;
        self.read_index = self.read_index + n;
        proof {
            assert(self.input() =~= c0.input().skip(n as int));
            assert(self.editing() =~= c0.editing());
        }
    }

    /// Goes on with a read of the console, up to a whole input line. `killed` tells whether the
    /// process was told to end.
    #[verifier::rlimit(60)]
    pub fn read(&mut self, a: &mut KernelAllocator, pagetable: &PageTable, req: &mut ReadRequest, killed: bool) -> (r: ReadProgress)
        requires
            old(self).wf(),
            old(a).wf(),
            pagetable.wf(old(a)),
            own_only(old(a).frames(), pagetable.root()),
            old(req).n <= old(req).target,
            old(req).dst + old(req).n <= u64::MAX,
        ensures
            final(self).wf(),
            final(self).editing() == old(self).editing(),
            final(self).read_index == old(self).read_index + (old(self).input().len() - final(self).input().len()),
            final(self).write_index == old(self).write_index,
            final(self).edit_index == old(self).edit_index,
            final(a).wf(),
            pagetable.wf(final(a)),
            final(a).free() == old(a).free(),
            read_came_to(*old(self), *final(self), *old(a), *final(a), pagetable.root(), *old(req), *final(req), killed, r),
    {
        let ghost c0 = *self;
        let ghost s = self.input();
        let ghost n0 = req.n as int;
        let ghost ram0 = a.frames();
        let ghost root = pagetable.root();
        let ghost dst0 = req.dst as int;
        let ghost e = read_end(s, n0);
        let n = req.n;
        let bytes = self.peek(n);
        let len = bytes.len();
        proof {
            lemma_read_end(s, n0);
        }
        match pagetable.write(a, req.dst, &bytes) {
            Err(k) => {
                proof {
                    assert forall|i: int| 0 <= i < k implies (#[trigger] user_byte(ram0, root, dst0 + i)) is Some by {}
                    lemma_access(ram0, root, dst0, e, k as int);
                    assert(s.take(e).take(k as int) =~= s.take(k as int));
                }
                self.skip(k + 1);
                req.dst = req.dst + k as u64;
                req.n = n - k;
                return ReadProgress::Done(req.target - req.n);
            },
            Ok(_) => {
                proof {
                    assert forall|i: int| 0 <= i < e implies (#[trigger] user_byte(ram0, root, dst0 + i)) is Some by {}
                    lemma_access(ram0, root, dst0, e, e);
                }
            },
        }
        self.skip(len);
        req.dst = req.dst + len as u64;
        req.n = n - len;
        if req.n == 0 || (len > 0 && bytes[len - 1] == 10) {
            return ReadProgress::Done(req.target - req.n);
        }
        if self.read_index == self.write_index {
            proof {
                assert(self.input() =~= Seq::<u8>::empty());
                assert(e == s.len());
            }
            if killed {
                return ReadProgress::Killed;
            }
            return ReadProgress::Sleep;
        }
        // end of file
        proof {
            assert(self.input().len() > 0);
            assert(self.input().len() == s.skip(e).len());
            assert(e < s.len());
        }
        if req.n == req.target {
            self.skip(1);
            proof {
                assert(s.skip(e).skip(1) =~= s.skip(e + 1));
            }
        }
        ReadProgress::Done(req.target - req.n)
    }
}

proof fn lemma_read_end(s: Seq<u8>, n: int)
    ensures
        0 <= read_end(s, n),
        n >= 0 ==> read_end(s, n) <= n,
        read_end(s, n) <= s.len(),
    decreases n,
{
    if n > 0 && s.len() > 0 && s[0] != 4 && s[0] != 10 {
        lemma_read_end(s.skip(1), n - 1);
    }
}

/// Two places of the ring are the same only for indices a whole ring apart.
proof fn lemma_ring(i: int, j: int)
    requires
        0 <= i < j,
        j < i + 128,
    ensures
        i % 128 != j % 128,
{
}

/// The longest accessible prefix, from its length.
pub proof fn lemma_access(ram: Seq<crate::allocator::Frame>, root: int, va: int, n: int, k: int)
    requires
        0 <= k <= n,
        forall|i: int| 0 <= i < k ==> (#[trigger] user_byte(ram, root, va + i)) is Some,
        k < n ==> user_byte(ram, root, va + k) is None,
    ensures
        access_end(ram, root, va, n) == k,
    decreases n,
{
    if k > 0 {
        assert(user_byte(ram, root, va + 0) is Some);
        assert forall|i: int| 0 <= i < k - 1 implies (#[trigger] user_byte(ram, root, va + 1 + i)) is Some by {
            assert(user_byte(ram, root, va + (i + 1)) is Some);
        }
        lemma_access(ram, root, va + 1, n - 1, k - 1);
    }
}

/// A character that is typed and rubbed out leaves no trace: backspace (8) and delete (127) take away
/// the last character of the line, and on the screen.
pub proof fn lemma_rubbed_out(c0: Console, c: u8, c1: Console, r1: Reaction, b: u8, c2: Console, r2: Reaction)
    requires
        reacts(c0, c, c1, r1),
        reacts(c1, b, c2, r2),
        b == 8 || b == 127,
        c >= 32,
        c != 127,
        c0.input().len() + c0.editing().len() < 127,
    ensures
        c1.editing() == c0.editing().push(c),
        r1.echo@ == seq![c],
        !r1.wake,
        c2.editing() == c0.editing(),
        c2.input() == c0.input(),
        r2.echo@ == seq![8u8, 32u8, 8u8],
{
    assert(c0.editing().push(c).drop_last() =~= c0.editing());
}

/// What control characters do: 21 rubs out the whole line and nothing of what can be read, 16 asks for
/// the list of processes and changes nothing, 4 and 10 and also 13, which counts as 10, end the line,
/// which can then be read. No character gets lost but where there is no room, and then none is echoed.
pub proof fn lemma_control_characters(c0: Console, c: u8, c1: Console, r: Reaction)
    requires
        reacts(c0, c, c1, r),
    ensures
        r.dump <==> c == 16,
        c == 16 ==> c1.input() == c0.input() && c1.editing() == c0.editing() && r.echo@.len() == 0,
        c == 21 ==> c1.input() == c0.input() && c1.editing().len() == 0 && r.echo@.len() == 3 * c0.editing().len(),
        (c == 4 || c == 10 || c == 13) && c0.input().len() + c0.editing().len() < 128 ==> {
            &&& c1.input() == c0.input() + c0.editing().push(if c == 4 { 4 } else { 10 })
            &&& c1.editing().len() == 0
            &&& r.wake
        },
        r.wake ==> c1.editing().len() == 0 && c1.input().len() > c0.input().len(),
        !r.wake ==> c1.input() == c0.input(),
        c0.input().is_prefix_of(c1.input()),
        c0.input().len() + c0.editing().len() >= 128 && c != 21 && c != 8 && c != 127 ==> c1.input() == c0.input() && c1.editing() == c0.editing()
            && r.echo@.len() == 0,
        c1.input().len() + c1.editing().len() == 128 && c0.input().len() + c0.editing().len() < 128 ==> r.wake,
{
    lemma_rubouts(c0.editing().len());
}

proof fn lemma_rubouts(k: nat)
    ensures
        rubouts(k).len() == 3 * k,
    decreases k,
{
    if k > 0 {
        lemma_rubouts((k - 1) as nat);
    }
}

/// Where a read ends.
proof fn lemma_read_stops(s: Seq<u8>, n: int)
    requires
        0 <= n,
    ensures
        ({
            let e = read_end(s, n);
            &&& 0 <= e <= n
            &&& e <= s.len()
            &&& forall|i: int| 0 <= i < e ==> #[trigger] s[i] != 4
            &&& forall|i: int| 0 <= i < e - 1 ==> #[trigger] s[i] != 10
            &&& e == n || e == s.len() || s[e] == 4 || (e > 0 && s[e - 1] == 10)
        }),
    decreases n,
{
    if n > 0 && s.len() > 0 && s[0] != 4 && s[0] != 10 {
        let t = s.skip(1);
        lemma_read_stops(t, n - 1);
        let e = read_end(s, n);
        assert forall|i: int| 0 <= i < e implies #[trigger] s[i] != 4 by {
            if i > 0 {
                assert(t[i - 1] == s[i]);
            }
        }
        assert forall|i: int| 0 <= i < e - 1 implies #[trigger] s[i] != 10 by {
            if i > 0 {
                assert(t[i - 1] == s[i]);
            }
        }
    }
}

/// What is in memory after bytes were written there.
proof fn lemma_written_bytes(a0: KernelAllocator, a1: KernelAllocator, root: int, va: int, s: Seq<u8>, e: int)
    requires
        0 <= e <= s.len(),
        written(a0.frames(), a1.frames(), root, va, s.take(e)),
    ensures
        forall|i: int| 0 <= i < e ==> user_byte(a1.frames(), root, va + i) == Some(#[trigger] s[i]),
{
    assert forall|i: int| 0 <= i < e implies user_byte(a1.frames(), root, va + i) == Some(#[trigger] s[i]) by {
        assert(user_byte(a1.frames(), root, va + i) == Some(s.take(e)[va + i - va]));
    }
}

/// A read whose memory user code may access.
proof fn lemma_all_accessible(a: KernelAllocator, root: int, va: int, n: int, e: int)
    requires
        0 <= e <= n,
        forall|x: int| va <= x < va + n ==> (#[trigger] user_byte(a.frames(), root, x)) is Some,
    ensures
        access_end(a.frames(), root, va, e) == e,
{
    lemma_access(a.frames(), root, va, e, e);
}

/// What a program that reads the console gets: what was typed, in order, up to the end of a line (10),
/// or as much as it asked for, or up to an end of file (4), which it does not get. It waits only where
/// what was typed has neither, and is given all the same what there is. An end of file with nothing
/// before it is taken away.
pub proof fn lemma_console_read(
    c0: Console,
    c1: Console,
    a0: KernelAllocator,
    a1: KernelAllocator,
    root: int,
    req0: ReadRequest,
    req1: ReadRequest,
    killed: bool,
    r: ReadProgress,
)
    requires
        read_came_to(c0, c1, a0, a1, root, req0, req1, killed, r),
        req0.n <= req0.target,
        forall|x: int| req0.dst <= x < req0.dst + req0.n ==> (#[trigger] user_byte(a0.frames(), root, x)) is Some,
    ensures
        ({
            let s = c0.input();
            let got = req0.n - req1.n;
            let before = req0.target - req0.n;
            &&& 0 <= got <= req0.n
            &&& got <= s.len()
            &&& forall|i: int| 0 <= i < got ==> user_byte(a1.frames(), root, req0.dst + i) == Some(#[trigger] s[i])
            &&& forall|i: int| 0 <= i < got ==> #[trigger] s[i] != 4
            &&& forall|i: int| 0 <= i < got - 1 ==> #[trigger] s[i] != 10
            &&& r matches ReadProgress::Done(k) ==> {
                &&& k == before + got
                &&& got == req0.n || (got > 0 && s[got - 1] == 10) || (got < s.len() && s[got] == 4)
                &&& c1.input() == s.skip(if k == 0 && req0.n > 0 { 1 } else { got })
            }
            &&& !(r is Done) ==> {
                &&& got == s.len() < req0.n
                &&& forall|i: int| 0 <= i < s.len() ==> #[trigger] s[i] != 10
                &&& c1.input().len() == 0
                &&& r is Killed <==> killed
                &&& req1.target - req1.n == before + got
                &&& req1.dst == req0.dst + got
            }
        }),
{
    let s = c0.input();
    let n = req0.n as int;
    let e = read_end(s, n);
    lemma_read_stops(s, n);
    lemma_all_accessible(a0, root, req0.dst as int, n, e);
    lemma_written_bytes(a0, a1, root, req0.dst as int, s, e);
}

} // verus!
