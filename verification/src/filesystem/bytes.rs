//! Integers in rows of bytes, least significant byte first.
use vstd::prelude::*;

verus! {

/// The 16-bit integer at `at`.
pub open spec fn le16(s: Seq<u8>, at: int) -> int {
    s[at] + s[at + 1] * 256
}

/// The 32-bit integer at `at`.
pub open spec fn le32(s: Seq<u8>, at: int) -> int {
    s[at] + s[at + 1] * 256 + s[at + 2] * 65536 + s[at + 3] * 16777216
}

/// The 64-bit integer at `at`.
pub open spec fn le64(s: Seq<u8>, at: int) -> int {
    le32(s, at) + le32(s, at + 4) * 4294967296
}

/// Same bytes outside of `n` bytes from `at` on.
pub open spec fn kept_around(old: Seq<u8>, new: Seq<u8>, at: int, n: int) -> bool {
    &&& new.len() == old.len()
    &&& forall|i: int| 0 <= i < old.len() && !(at <= i < at + n) ==> #[trigger] new[i] == old[i]
}

pub fn get_u16(s: &Vec<u8>, at: usize) -> (v: u16)
    requires
        at + 2 <= s.len(),
    ensures
        v == le16(s@, at as int),
{
    s[at] as u16 + s[at + 1] as u16 * 256
}

pub fn get_u32(s: &Vec<u8>, at: usize) -> (v: u32)
    requires
        at + 4 <= s.len(),
    ensures
        v == le32(s@, at as int),
{
    s[at] as u32 + s[at + 1] as u32 * 256 + s[at + 2] as u32 * 65536 + s[at + 3] as u32 * 16777216
}

pub fn get_u64(s: &Vec<u8>, at: usize) -> (v: u64)
    requires
        at + 8 <= s.len(),
    ensures
        v == le64(s@, at as int),
{
    get_u32(s, at) as u64 + get_u32(s, at + 4) as u64 * 4294967296
}

pub fn put_u16(s: &mut Vec<u8>, at: usize, v: u16)
    requires
        at + 2 <= old(s).len(),
    ensures
        le16(final(s)@, at as int) == v,
        kept_around(old(s)@, final(s)@, at as int, 2),
{
    s.set(at, (v % 256) as u8);
    s.set(at + 1, (v / 256) as u8);
}

pub fn put_u32(s: &mut Vec<u8>, at: usize, v: u32)
    requires
        at + 4 <= old(s).len(),
    ensures
        le32(final(s)@, at as int) == v,
        kept_around(old(s)@, final(s)@, at as int, 4),
{
    s.set(at, (v % 256) as u8);
    s.set(at + 1, (v / 256 % 256) as u8);
    s.set(at + 2, (v / 65536 % 256) as u8);
    s.set(at + 3, (v / 16777216) as u8);
}

pub fn put_u64(s: &mut Vec<u8>, at: usize, v: u64)
    requires
        at + 8 <= old(s).len(),
    ensures
        le64(final(s)@, at as int) == v,
        kept_around(old(s)@, final(s)@, at as int, 8),
{
    let ghost s0 = s@;
    put_u32(s, at, (v % 4294967296) as u32);
    let ghost s1 = s@;
    put_u32(s, at + 4, (v / 4294967296) as u32);
    proof {
        assert(s@[at as int] == s1[at as int]);
        assert(s@[at + 1] == s1[at + 1]);
        assert(s@[at + 2] == s1[at + 2]);
        assert(s@[at + 3] == s1[at + 3]);
    }
}

/// `src` written over the bytes of `s` from `at` on.
pub open spec fn spliced(s: Seq<u8>, at: int, src: Seq<u8>) -> Seq<u8> {
    Seq::new(s.len(), |i: int| if at <= i < at + src.len() { src[i - at] } else { s[i] })
}

/// Copies `n` bytes of `src` from `from` on over the bytes of `s` from `at` on.
pub fn copy_into(s: &mut Vec<u8>, at: usize, src: &Vec<u8>, from: usize, n: usize)
    requires
        at + n <= old(s).len(),
        from + n <= src.len(),
    ensures
        final(s)@ == spliced(old(s)@, at as int, src@.subrange(from as int, from + n)),
{
    let ghost s0 = s@;
    let end = at + n;
    let src_end = from + n;
    let mut i: usize = 0;
    while i < n
        invariant
            i <= n,
            end == at + n,
            src_end == from + n,
            end <= s@.len(),
            src_end <= src@.len(),
            s@ =~= spliced(s0, at as int, src@.subrange(from as int, from + i)),
        decreases n - i,
    {
        s.set(at + i, src[from + i]);
        i = i + 1;
    }
}

/// The `n` bytes of `s` from `at` on.
pub fn slice_of(s: &Vec<u8>, at: usize, n: usize) -> (r: Vec<u8>)
    requires
        at + n <= s.len(),
    ensures
        r@ == s@.subrange(at as int, at + n),
{
    let mut r: Vec<u8> = Vec::new();
    let end = at + n;
    let mut i: usize = 0;
    while i < n
        invariant
            i <= n,
            end == at + n,
            end <= s@.len(),
            r@ =~= s@.subrange(at as int, at + i),
        decreases n - i,
    {
        r.push(s[at + i]);
        i = i + 1;
    }
    r
}

/// `n` zero bytes.
pub fn zeros(n: usize) -> (r: Vec<u8>)
    ensures
        r@ == Seq::new(n as nat, |i: int| 0u8),
{
    let mut r: Vec<u8> = Vec::new();
    let mut i: usize = 0;
    while i < n
        invariant
            i <= n,
            r@ =~= Seq::new(i as nat, |k: int| 0u8),
        decreases n - i,
    {
        r.push(0);
        i = i + 1;
    }
    r
}

/// Integers away from the changed bytes keep their values.
pub proof fn lemma_le_kept(old: Seq<u8>, new: Seq<u8>, at: int, n: int, pos: int)
    requires
        kept_around(old, new, at, n),
        0 <= pos,
    ensures
        pos + 2 <= old.len() && (pos + 2 <= at || at + n <= pos) ==> le16(new, pos) == le16(old, pos),
        pos + 4 <= old.len() && (pos + 4 <= at || at + n <= pos) ==> le32(new, pos) == le32(old, pos),
{
    if pos + 2 <= old.len() && (pos + 2 <= at || at + n <= pos) {
        assert(new[pos] == old[pos]);
        assert(new[pos + 1] == old[pos + 1]);
    }
    if pos + 4 <= old.len() && (pos + 4 <= at || at + n <= pos) {
        assert(new[pos] == old[pos]);
        assert(new[pos + 1] == old[pos + 1]);
        assert(new[pos + 2] == old[pos + 2]);
        assert(new[pos + 3] == old[pos + 3]);
    }
}

} // verus!
