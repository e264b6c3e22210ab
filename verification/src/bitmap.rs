//! Rows of bits.
use vstd::prelude::*;

verus! {

/// Bit `i` of a row of bytes, least significant bit of each byte first.
pub open spec fn bit_at(bytes: Seq<u8>, i: int) -> bool {
    bytes[i / 8] & (1u8 << ((i % 8) as u8)) != 0
}

/// The smallest number of bytes that holds `bits` bits.
pub fn require_bytes(bits: usize) -> (r: usize)
    requires
        bits > 0,
    ensures
        r == (bits + 7) / 8,
{
    (bits - 1) / 8 + 1
}

/// The byte that holds bit `bit_index`.
fn byte_index(bit_index: usize) -> (r: usize)
    ensures
        r == bit_index / 8,
{
    bit_index / 8
}

/// The mask of bit `bit_index` within its byte.
fn bit_mask(bit_index: usize) -> (r: u8)
    ensures
        r == mask_of(bit_index as int),
{
    1u8 << ((bit_index % 8) as u8)
}

/// Setting or clearing one bit of a byte leaves the others alone.
proof fn lemma_bit(x: u8, i: u8, j: u8)
    by (bit_vector)
    requires
        i < 8,
        j < 8,
    ensures
        (x | (1u8 << i)) & (1u8 << j) != 0 <==> i == j || x & (1u8 << j) != 0,
        (x & !(1u8 << i)) & (1u8 << j) != 0 <==> i != j && x & (1u8 << j) != 0,
        0u8 & (1u8 << j) == 0,
{
}

/// Sets bit `i` of a row of bytes to `value`.
pub fn set_bit(bytes: &mut Vec<u8>, i: usize, value: bool)
    requires
        i / 8 < old(bytes)@.len(),
    ensures
        final(bytes)@.len() == old(bytes)@.len(),
        forall|j: int| 0 <= j < final(bytes)@.len() * 8 ==> #[trigger] bit_at(final(bytes)@, j) == if j == i {
            value
        } else {
            bit_at(old(bytes)@, j)
        },
        forall|k: int| 0 <= k < final(bytes)@.len() && k != i as int / 8 ==> #[trigger] final(bytes)@[k] == old(bytes)@[k],
{
    let ghost bytes0 = bytes@;
    let k = byte_index(i);
    let x = bytes[k];
    if value {
        bytes.set(k, x | bit_mask(i));
    } else {
        bytes.set(k, x & !bit_mask(i));
    }
    proof {
        assert forall|j: int| 0 <= j < bytes@.len() * 8 implies #[trigger] bit_at(bytes@, j) == if j == i {
            value
        } else {
            bit_at(bytes0, j)
        } by {
            lemma_bit(x, (i as int % 8) as u8, (j % 8) as u8);
        }
    }
}

/// Whether bit `i` of a row of bytes is set.
pub fn get_bit(bytes: &Vec<u8>, i: usize) -> (b: bool)
    requires
        i / 8 < bytes@.len(),
    ensures
        b == bit_at(bytes@, i as int),
{
    bytes[byte_index(i)] & bit_mask(i) != 0
}

/// A row of `BITS` bits.
pub struct Bitmap<const BITS: usize> {
    pub bitmap: Vec<u8>,
}

impl<const BITS: usize> View for Bitmap<BITS> {
    type V = Seq<bool>;

    open spec fn view(&self) -> Seq<bool> {
        Seq::new(BITS as nat, |i: int| bit_at(self.bitmap@, i))
    }
}

impl<const BITS: usize> Bitmap<BITS> {
    pub open spec fn wf(&self) -> bool {
        BITS > 0 && self.bitmap@.len() == (BITS + 7) / 8
    }

    /// A row of cleared bits.
    pub fn new() -> (this: Self)
        requires
            BITS > 0,
        ensures
            this.wf(),
            this@ == Seq::new(BITS as nat, |i: int| false),
    {
        let n = require_bytes(BITS);
        let mut bitmap: Vec<u8> = Vec::new();
        let mut k: usize = 0;
        while k < n
            invariant
                k <= n,
                bitmap@.len() == k,
                forall|j: int| 0 <= j < k ==> #[trigger] bitmap@[j] == 0,
            decreases n - k,
        {
            bitmap.push(0);
            k = k + 1;
        }
        let this = Bitmap { bitmap };
        proof {
            assert forall|i: int| 0 <= i < BITS implies !(#[trigger] bit_at(bitmap@, i)) by {
                lemma_bit(0, 0, (i % 8) as u8);
            }
            assert(this@ =~= Seq::new(BITS as nat, |i: int| false));
        }
        this
    }

    /// Number of bits.
    pub fn bits(&self) -> (r: usize)
        ensures
            r == BITS,
    {
        BITS
    }

    /// Number of bytes.
    pub fn bytes(&self) -> (r: usize)
        requires
            BITS > 0,
        ensures
            r == (BITS + 7) / 8,
    {
        require_bytes(BITS)
    }

    /// Sets the first cleared bit and returns its index.
    pub fn allocate(&mut self) -> (r: Option<usize>)
        requires
            old(self).wf(),
        ensures
            final(self).wf(),
            match r {
                Some(i) => {
                    &&& i < BITS
                    &&& !old(self)@[i as int]
                    &&& forall|j: int| 0 <= j < i ==> #[trigger] old(self)@[j]
                    &&& final(self)@ == old(self)@.update(i as int, true)
                },
                None => {
                    &&& forall|j: int| 0 <= j < BITS ==> #[trigger] old(self)@[j]
                    &&& *final(self) == *old(self)
                },
            },
    {
        let mut i: usize = 0;
        while i < self.bits()
            invariant
                self.wf(),
                i <= BITS,
                *self == *old(self),
                forall|j: int| 0 <= j < i ==> #[trigger] self@[j],
            decreases BITS - i,
        {
            if let Some(false) = self.get(i) {
                let _ = self.set(i, true);
                return Some(i);
            }
            i = i + 1;
        }
        None
    }

    /// Clears bit `index`, which must be set.
    pub fn deallocate(&mut self, index: usize) -> (r: Result<(), ()>)
        requires
            old(self).wf(),
        ensures
            final(self).wf(),
            r is Ok <==> index < BITS && old(self)@[index as int],
            r is Ok ==> final(self)@ == old(self)@.update(index as int, false),
            r is Err ==> *final(self) == *old(self),
    {
        match self.get(index) {
            Some(true) => self.set(index, false),
            _ => Err(()),
        }
    }

    /// Whether bit `index` is set.
    pub fn get(&self, index: usize) -> (r: Option<bool>)
        requires
            self.wf(),
        ensures
            r == if index < BITS { Some(self@[index as int]) } else { None },
    {
        if index < BITS {
            Some(get_bit(&self.bitmap, index))
        } else {
            None
        }
    }

    /// Sets bit `index` to `value`.
    pub fn set(&mut self, index: usize, value: bool) -> (r: Result<(), ()>)
        requires
            old(self).wf(),
        ensures
            final(self).wf(),
            r is Ok <==> index < BITS,
            r is Ok ==> final(self)@ == old(self)@.update(index as int, value),
            r is Err ==> *final(self) == *old(self),
    {
        let ghost before = *self;
        if index < BITS {
            set_bit(&mut self.bitmap, index, value);
            proof {
                assert(self@ =~= before@.update(index as int, value));
            }
            Ok(())
        } else {
            Err(())
        }
    }
}

/// A bit that was allocated can be given back, which restores the row.
pub proof fn lemma_deallocate_undoes_allocate(before: Seq<bool>, i: int)
    requires
        0 <= i < before.len(),
        !before[i],
    ensures
        before.update(i, true).update(i, false) == before,
{
    assert(before.update(i, true).update(i, false) =~= before);
}


/// The mask of bit `i` within its byte.
pub open spec fn mask_of(i: int) -> u8 {
    1u8 << ((i % 8) as u8)
}

/// A mask has exactly one bit set.
pub proof fn lemma_one_bit(i: int)
    requires
        0 <= i,
    ensures
        forall|k: u8| k < 8 ==> (#[trigger] (mask_of(i) & (1u8 << k)) != 0 <==> k == i % 8),
{
    let a = (i % 8) as u8;
    assert forall|k: u8| k < 8 implies (#[trigger] (mask_of(i) & (1u8 << k)) != 0 <==> k == i % 8) by {
        assert(a < 8 && k < 8 ==> ((1u8 << a) & (1u8 << k) != 0 <==> k == a)) by (bit_vector);
    }
}

/// No two bits share both a byte and a mask.
pub proof fn lemma_bits_apart(i: int, j: int)
    requires
        0 <= i,
        0 <= j,
    ensures
        i / 8 == j / 8 && mask_of(i) == mask_of(j) <==> i == j,
{
    let a = (i % 8) as u8;
    let b = (j % 8) as u8;
    assert(a < 8 && b < 8 && a != b ==> 1u8 << a != 1u8 << b) by (bit_vector);
}


} // verus!
