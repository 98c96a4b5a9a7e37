//! Dense array of fixed-width cells packed into 64-bit words. Cells never
//! straddle word boundaries: each word holds `64 / bits` whole cells.

use vstd::prelude::*;
use vstd::pervasive::VecAdditionalExecFns;

verus! {

/// The low `bits` bits set, as a 64-bit mask.
pub open spec fn mask64(bits: nat) -> u64 {
    if bits == 0 {
        0u64
    } else {
        u64::MAX >> ((64 - bits) as u64)
    }
}

/// How many whole cells of `bits` bits fit in one 64-bit word.
pub open spec fn cells_per_word(bits: nat) -> nat
    recommends
        bits >= 1,
{
    (64 as nat) / bits
}

/// How many words back `size` cells of `bits` bits.
pub open spec fn words_for(size: nat, bits: nat) -> nat {
    if bits == 0 {
        0
    } else {
        ((size + cells_per_word(bits) - 1) as nat) / cells_per_word(bits)
    }
}

/// The value of cell `i` in packed word data.
pub open spec fn cell_value(data: Seq<u64>, bits: nat, i: nat) -> u64 {
    if bits == 0 {
        0u64
    } else {
        (data[(i / cells_per_word(bits)) as int] >> (((i % cells_per_word(bits)) * bits) as u64))
            & mask64(bits)
    }
}

/// Where cell `i` lives: its word index is within the storage, its bit
/// offset leaves room for the cell, and the address is invertible.
pub proof fn lemma_cell_addr(i: nat, size: nat, bits: nat)
    requires
        1 <= bits <= 64,
        i < size,
    ensures
        cells_per_word(bits) >= 1,
        i % cells_per_word(bits) < cells_per_word(bits),
        (i % cells_per_word(bits)) * bits + bits <= 64,
        i / cells_per_word(bits) < words_for(size, bits),
        i / cells_per_word(bits) * cells_per_word(bits) + i % cells_per_word(bits) == i,
{
    let cpw = cells_per_word(bits);
    vstd::arithmetic::div_mod::lemma_div_non_zero(64, bits as int);
    assert(cpw >= 1);
    vstd::arithmetic::div_mod::lemma_fundamental_div_mod(64, bits as int);
    vstd::arithmetic::div_mod::lemma_remainder(64, bits as int);
    vstd::arithmetic::mul::lemma_mul_is_commutative(cpw as int, bits as int);
    assert(cpw * bits <= 64);
    vstd::arithmetic::div_mod::lemma_mod_division_less_than_divisor(i as int, cpw as int);
    let mi = (i % cpw) as int;
    vstd::arithmetic::mul::lemma_mul_inequality(mi + 1, cpw as int, bits as int);
    assert((mi + 1) * bits as int == mi * bits as int + bits as int) by (nonlinear_arith);
    vstd::arithmetic::div_mod::lemma_fundamental_div_mod(i as int, cpw as int);
    vstd::arithmetic::div_mod::lemma_div_is_ordered(i as int, size as int - 1, cpw as int);
    vstd::arithmetic::div_mod::lemma_div_plus_one(size as int - 1, cpw as int);
    assert(words_for(size, bits) == ((size + cpw - 1) as nat) / cpw);
    assert(size as int - 1 + cpw as int == size as int + cpw as int - 1);
}

/// Distinct cells in the same word sit at distinct, non-overlapping offsets.
pub proof fn lemma_cells_disjoint(i: nat, j: nat, bits: nat)
    requires
        1 <= bits <= 64,
        i != j,
        i / cells_per_word(bits) == j / cells_per_word(bits),
    ensures
        (i % cells_per_word(bits)) * bits + bits <= (j % cells_per_word(bits)) * bits || (j
            % cells_per_word(bits)) * bits + bits <= (i % cells_per_word(bits)) * bits,
{
    let cpw = cells_per_word(bits);
    vstd::arithmetic::div_mod::lemma_div_non_zero(64, bits as int);
    assert(cpw >= 1);
    vstd::arithmetic::div_mod::lemma_fundamental_div_mod(i as int, cpw as int);
    vstd::arithmetic::div_mod::lemma_fundamental_div_mod(j as int, cpw as int);
    let ci = i % cpw;
    let cj = j % cpw;
    assert(ci != cj);
    if ci < cj {
        vstd::arithmetic::mul::lemma_mul_inequality(ci as int + 1, cj as int, bits as int);
        assert((ci as int + 1) * bits as int == ci as int * bits as int + bits as int)
            by (nonlinear_arith);
    } else {
        vstd::arithmetic::mul::lemma_mul_inequality(cj as int + 1, ci as int, bits as int);
        assert((cj as int + 1) * bits as int == cj as int * bits as int + bits as int)
            by (nonlinear_arith);
    }
}

proof fn lemma_bv_set_same(word: u64, v: u64, off: u64, bits: u64)
    by (bit_vector)
    requires
        1 <= bits <= 64,
        off + bits <= 64,
    ensures
        (((word & !((u64::MAX >> ((64 - bits) as u64)) << off)) | ((v & (u64::MAX >> ((64 - bits) as u64))) << off))
            >> off) & (u64::MAX >> ((64 - bits) as u64)) == v & (u64::MAX >> ((64 - bits) as u64)),
{
}

proof fn lemma_bv_set_other(word: u64, v: u64, off: u64, off2: u64, bits: u64)
    by (bit_vector)
    requires
        1 <= bits <= 64,
        off + bits <= 64,
        off2 + bits <= 64,
        off + bits <= off2 || off2 + bits <= off,
    ensures
        (((word & !((u64::MAX >> ((64 - bits) as u64)) << off)) | ((v & (u64::MAX >> ((64 - bits) as u64))) << off))
            >> off2) & (u64::MAX >> ((64 - bits) as u64)) == (word >> off2) & (u64::MAX >> ((64 - bits) as u64)),
{
}

proof fn lemma_bv_masked_le(x: u64, off: u64, bits: u64)
    by (bit_vector)
    requires
        1 <= bits <= 64,
    ensures
        (x >> off) & (u64::MAX >> ((64 - bits) as u64)) <= (u64::MAX >> ((64 - bits) as u64)),
        x & (u64::MAX >> ((64 - bits) as u64)) <= (u64::MAX >> ((64 - bits) as u64)),
        x <= (u64::MAX >> ((64 - bits) as u64)) ==> x & (u64::MAX >> ((64 - bits) as u64)) == x,
{
}

proof fn lemma_bv_zero_word(off: u64, bits: u64)
    by (bit_vector)
    requires
        1 <= bits <= 64,
    ensures
        (0u64 >> off) & (u64::MAX >> ((64 - bits) as u64)) == 0u64,
{
}

/// A logical array of `size` cells, each `bits` bits wide, packed into
/// 64-bit words so that no cell straddles a word boundary. Width zero means
/// every cell reads zero and no words are stored.
#[derive(Clone, Debug)]
pub struct BitStorage {
    /// The packed words, exactly `words_for(size, bits)` of them.
    pub data: Vec<u64>,
    /// Bits per cell, at most 64.
    pub bits: usize,
    /// Number of cells.
    pub size: usize,
}

impl View for BitStorage {
    type V = Seq<u64>;

    open spec fn view(&self) -> Seq<u64> {
        Seq::new(self.size_spec(), |i: int| cell_value(self.data@, self.bits_spec(), i as nat))
    }
}

impl BitStorage {
    /// Bits per cell.
    pub open spec fn bits_spec(&self) -> nat {
        self.bits as nat
    }

    /// Number of cells.
    pub open spec fn size_spec(&self) -> nat {
        self.size as nat
    }

    pub open spec fn wf(&self) -> bool {
        &&& self.bits_spec() <= 64
        &&& self.size_spec() <= usize::MAX - 64
        &&& self.data@.len() == words_for(self.size_spec(), self.bits_spec())
    }

    /// Build storage for `size` cells of `bits` bits each, zeroed, or over
    /// the given words, whose count must match exactly.
    pub fn new(bits: usize, size: usize, data: Option<Vec<u64>>) -> (r: Result<
        BitStorage,
        String,
    >)
        requires
            size <= usize::MAX - 64,
        ensures
            r is Ok <==> (bits <= 64 && (match data {
                Some(d) => d@.len() == words_for(size as nat, bits as nat),
                None => true,
            })),
            r matches Ok(s) ==> {
                &&& s.wf()
                &&& s.bits_spec() == bits as nat
                &&& s.size_spec() == size as nat
                &&& s@.len() == size as nat
                &&& (match data {
                    Some(d) => s.data@ == d@,
                    None => s@ == Seq::new(size as nat, |i: int| 0u64),
                })
            },
    {
        if bits > 64 {
            return Err("bits per entry must be at most 64".to_string());
        }
        let words: usize = if bits == 0 {
            0
        } else {
            let cpw: usize = 64 / bits;
            proof {
                vstd::arithmetic::div_mod::lemma_fundamental_div_mod(64, bits as int);
                vstd::arithmetic::div_mod::lemma_mod_division_less_than_divisor(64, bits as int);
            }
            (size + cpw - 1) / cpw
        };
        match data {
            Some(d) => {
                if d.len() != words {
                    Err("word data does not match the storage geometry".to_string())
                } else {
                    let s = BitStorage { data: d, bits, size };
                    Ok(s)
                }
            },
            None => {
                let d: Vec<u64> = vec![0u64; words];
                let s = BitStorage { data: d, bits, size };
                proof {
                    if bits > 0 {
                        assert forall|i: int| 0 <= i < size implies s@[i] == 0u64 by {
                            lemma_cell_addr(i as nat, size as nat, bits as nat);
                            lemma_bv_zero_word(
                                (((i as nat) % cells_per_word(bits as nat)) * bits as nat) as u64,
                                bits as u64,
                            );
                        }
                    }
                    assert(s@ =~= Seq::new(size as nat, |i: int| 0u64));
                }
                Ok(s)
            },
        }
    }

    /// Number of cells.
    pub fn size(&self) -> (r: usize)
        ensures
            r as nat == self.size_spec(),
    {
        self.size
    }

    /// Bits per cell.
    pub fn bits(&self) -> (r: usize)
        ensures
            r as nat == self.bits_spec(),
    {
        self.bits
    }

    /// Extract cell `index`.
    pub fn get(&self, index: usize) -> (r: u64)
        requires
            self.wf(),
            index < self.size_spec(),
        ensures
            r == self@[index as int],
            r <= mask64(self.bits_spec()),
    {
        if self.bits == 0 {
            return 0;
        }
        proof {
            lemma_cell_addr(index as nat, self.size as nat, self.bits as nat);
        }
        let cpw: usize = 64 / self.bits;
        let w: usize = index / cpw;
        let off: usize = (index % cpw) * self.bits;
        let mask: u64 = u64::MAX >> ((64 - self.bits) as u64);
        let r = (self.data[w] >> (off as u64)) & mask;
        proof {
            lemma_bv_masked_le(self.data@[w as int], off as u64, self.bits as u64);
        }
        r
    }

    /// Overwrite cell `index` with `value`, which is masked to the cell
    /// width; every other cell keeps its value.
    pub fn set(&mut self, index: usize, value: u64)
        requires
            old(self).wf(),
            index < old(self).size_spec(),
        ensures
            final(self).wf(),
            final(self).bits_spec() == old(self).bits_spec(),
            final(self).size_spec() == old(self).size_spec(),
            final(self).data@.len() == old(self).data@.len(),
            final(self)@ == old(self)@.update(
                index as int,
                value & mask64(old(self).bits_spec()),
            ),
    {
        if self.bits == 0 {
            proof {
                assert(value & 0u64 == 0u64) by (bit_vector);
                assert(self@ =~= old(self)@.update(index as int, value & mask64(0)));
            }
            return;
        }
        proof {
            lemma_cell_addr(index as nat, self.size as nat, self.bits as nat);
        }
        let cpw: usize = 64 / self.bits;
        let w: usize = index / cpw;
        let off: usize = (index % cpw) * self.bits;
        let mask: u64 = u64::MAX >> ((64 - self.bits) as u64);
        let word: u64 = self.data[w];
        let nw: u64 = (word & !(mask << (off as u64))) | ((value & mask) << (off as u64));
        self.data.set(w, nw);
        proof {
            let bits = old(self).bits_spec();
            let size = old(self).size_spec();
            let cpwn = cells_per_word(bits);
            assert forall|j: int| 0 <= j < size implies self@[j] == old(self)@.update(
                index as int,
                value & mask64(bits),
            )[j] by {
                lemma_cell_addr(j as nat, size, bits);
                let offj = (((j as nat) % cpwn) * bits) as u64;
                if j == index {
                    lemma_bv_set_same(word, value, off as u64, bits as u64);
                    lemma_bv_masked_le(value, 0, bits as u64);
                } else if (j as nat) / cpwn == (index as nat) / cpwn {
                    lemma_cells_disjoint(j as nat, index as nat, bits);
                    lemma_bv_set_other(word, value, off as u64, offj, bits as u64);
                } else {
                    assert(self.data@[((j as nat) / cpwn) as int] == old(self).data@[((
                    j as nat) / cpwn) as int]);
                }
            }
            assert(self@ =~= old(self)@.update(index as int, value & mask64(bits)));
        }
    }

    /// Overwrite cell `index` and hand back the value it held.
    pub fn get_and_set(&mut self, index: usize, value: u64) -> (r: u64)
        requires
            old(self).wf(),
            index < old(self).size_spec(),
        ensures
            final(self).wf(),
            final(self).bits_spec() == old(self).bits_spec(),
            final(self).size_spec() == old(self).size_spec(),
            final(self).data@.len() == old(self).data@.len(),
            r == old(self)@[index as int],
            r <= mask64(old(self).bits_spec()),
            final(self)@ == old(self)@.update(
                index as int,
                value & mask64(old(self).bits_spec()),
            ),
    {
        let r = self.get(index);
        self.set(index, value);
        r
    }
}

} // verus!

verus! {

proof fn lemma_bv_mask_absorb(v: u64, bits: u64)
    by (bit_vector)
    requires
        bits <= 64,
        v <= (if bits == 0 {
            0u64
        } else {
            u64::MAX >> ((64 - bits) as u64)
        }),
    ensures
        v & (if bits == 0 {
            0u64
        } else {
            u64::MAX >> ((64 - bits) as u64)
        }) == v,
{
}

proof fn lemma_bv_mask_step(b1: u64, b2: u64)
    by (bit_vector)
    requires
        b1 < b2 <= 64,
    ensures
        (if b1 == 0 {
            0u64
        } else {
            u64::MAX >> ((64 - b1) as u64)
        }) + 1 <= u64::MAX >> ((64 - b2) as u64),
{
}

proof fn lemma_bv_mask_mono(b1: u64, b2: u64)
    by (bit_vector)
    requires
        b1 <= b2 <= 64,
    ensures
        (if b1 == 0 {
            0u64
        } else {
            u64::MAX >> ((64 - b1) as u64)
        }) <= (if b2 == 0 {
            0u64
        } else {
            u64::MAX >> ((64 - b2) as u64)
        }),
{
}

proof fn lemma_bv_mask_small(bits: u64)
    by (bit_vector)
    requires
        1 <= bits <= 32,
    ensures
        (u64::MAX >> ((64 - bits) as u64)) <= 0xffff_ffffu64,
{
}

/// A value that fits under the mask passes through it unchanged.
pub proof fn lemma_mask64_absorb(v: u64, bits: nat)
    requires
        bits <= 64,
        v <= mask64(bits),
    ensures
        v & mask64(bits) == v,
{
    lemma_bv_mask_absorb(v, bits as u64);
}

/// Widening a cell by at least one bit leaves room for one more id.
pub proof fn lemma_mask64_step(b1: nat, b2: nat)
    requires
        b1 < b2 <= 64,
    ensures
        mask64(b1) + 1 <= mask64(b2),
{
    lemma_bv_mask_step(b1 as u64, b2 as u64);
}

/// Masks grow with the cell width.
pub proof fn lemma_mask64_mono(b1: nat, b2: nat)
    requires
        b1 <= b2 <= 64,
    ensures
        mask64(b1) <= mask64(b2),
{
    lemma_bv_mask_mono(b1 as u64, b2 as u64);
}

/// A mask of at most 32 bits fits a 32-bit value.
pub proof fn lemma_mask64_u32(bits: nat)
    requires
        bits <= 32,
    ensures
        mask64(bits) <= u32::MAX as u64,
{
    if bits >= 1 {
        lemma_bv_mask_small(bits as u64);
    }
}

} // verus!

verus! {

/// Packing never takes more words than cells.
pub proof fn lemma_words_le_size(size: nat, bits: nat)
    requires
        1 <= bits <= 64,
        size >= 1,
    ensures
        words_for(size, bits) <= size,
{
    let cpw = cells_per_word(bits);
    vstd::arithmetic::div_mod::lemma_div_non_zero(64, bits as int);
    assert(cpw >= 1);
    assert(size + cpw - 1 <= size * cpw) by (nonlinear_arith)
        requires
            size >= 1,
            cpw >= 1,
    ;
    vstd::arithmetic::div_mod::lemma_div_is_ordered(
        size as int + cpw as int - 1,
        size as int * cpw as int,
        cpw as int,
    );
    vstd::arithmetic::mul::lemma_mul_is_commutative(size as int, cpw as int);
    vstd::arithmetic::div_mod::lemma_div_multiples_vanish(size as int, cpw as int);
}

} // verus!
