//! The addressable memory unit and the CPU core.
//!
//! Memory is a flat byte store whose length is fixed at construction;
//! every access reduces its address modulo that length, so addresses wrap
//! instead of being bounds-checked.  `open` builds the full CHIP-8 store
//! of 4096 bytes, addressed 0x000 through 0xFFF.  The store also owns the
//! LIFO call-return stack used by the call and return opcodes; the stack
//! itself is unbounded and only a return from an empty stack fails.
//!
//! The CPU bundles the store with sixteen byte registers, the 12-bit
//! index register and program counter, the auxiliary device pack, and a
//! seeded pseudo-random generator.

use vstd::prelude::*;
use vstd::arithmetic::div_mod::{lemma_add_mod_noop, lemma_mod_add_multiples_vanish, lemma_mod_bound, lemma_mod_self_0, lemma_mod_twice, lemma_small_mod};
use vstd::slice::slice_subrange;
use vstd::string::StringSliceAdditionalSpecFns;
use crate::aux::Auxillary;
use crate::graphics::PixMap;
use crate::keyboard::{Keyboard, KeyEventKind};
use crate::sound::Sound;

verus! {

/// Highest memory address of the standard machine; the store built by
/// `open` holds one byte for every address from 0 up to here.
pub const CHIP8_MEM_SIZE: usize = 0xFFF;

/// Number of general registers.
pub const CHIP8_REGISTER_COUNT: usize = 16;

/// Address where loaded programs begin.
pub const CHIP8_PROGRAM_START: u16 = 0x200;

/// An address reduced into the 12-bit program-counter space.
pub open spec fn mask12(a: int) -> u16 {
    (a % 4096) as u16
}

/// The byte of `bytes` at wrapped address `a`.
pub open spec fn mem_at(bytes: Seq<u8>, a: int) -> u8 {
    bytes[a % (bytes.len() as int)]
}

/// `bytes` with `v` written at wrapped address `a`.
pub open spec fn mem_store(bytes: Seq<u8>, a: int, v: u8) -> Seq<u8> {
    bytes.update(a % (bytes.len() as int), v)
}

/// `bytes` with `data` written at consecutive wrapped addresses from `a`.
pub open spec fn mem_store_seq(bytes: Seq<u8>, a: int, data: Seq<u8>) -> Seq<u8>
    decreases data.len(),
{
    if data.len() == 0 {
        bytes
    } else {
        mem_store_seq(mem_store(bytes, a, data[0]), a + 1, data.drop_first())
    }
}

/// The big-endian 16-bit word of `bytes` at wrapped address `a`.
pub open spec fn word_at(bytes: Seq<u8>, a: int) -> u16 {
    ((mem_at(bytes, a) as int) * 256 + (mem_at(bytes, a + 1) as int)) as u16
}

/// Writing a sequence and then one more byte is writing the longer
/// sequence.
pub proof fn lemma_mem_store_seq_snoc(bytes: Seq<u8>, a: int, data: Seq<u8>, v: u8)
    requires
        bytes.len() >= 1,
    ensures
        mem_store_seq(bytes, a, data.push(v)) == mem_store(
            mem_store_seq(bytes, a, data),
            a + data.len(),
            v,
        ),
    decreases data.len(),
{
    if data.len() == 0 {
        assert(data.push(v)[0] == v);
        assert(data.push(v).drop_first() =~= Seq::<u8>::empty());
        assert(mem_store_seq(mem_store(bytes, a, v), a + 1, Seq::<u8>::empty()) == mem_store(
            bytes,
            a,
            v,
        ));
        assert(mem_store_seq(bytes, a, data.push(v)) == mem_store_seq(
            mem_store(bytes, a, v),
            a + 1,
            Seq::<u8>::empty(),
        ));
    } else {
        assert(data.push(v)[0] == data[0]);
        assert(data.push(v).drop_first() =~= data.drop_first().push(v));
        lemma_mem_store_seq_snoc(mem_store(bytes, a, data[0]), a + 1, data.drop_first(), v);
        assert(mem_store_seq(bytes, a, data.push(v)) == mem_store_seq(
            mem_store(bytes, a, data[0]),
            a + 1,
            data.drop_first().push(v),
        ));
        assert(mem_store_seq(bytes, a, data) == mem_store_seq(
            mem_store(bytes, a, data[0]),
            a + 1,
            data.drop_first(),
        ));
    }
}

/// A bulk write never changes the length of the store.
pub proof fn lemma_mem_store_seq_len(bytes: Seq<u8>, a: int, data: Seq<u8>)
    requires
        bytes.len() >= 1,
    ensures
        mem_store_seq(bytes, a, data).len() == bytes.len(),
    decreases data.len(),
{
    if data.len() > 0 {
        lemma_mem_store_seq_len(mem_store(bytes, a, data[0]), a + 1, data.drop_first());
        assert(mem_store_seq(bytes, a, data) == mem_store_seq(
            mem_store(bytes, a, data[0]),
            a + 1,
            data.drop_first(),
        ));
    }
}

/// Stepping a reduced address is reducing the stepped address.
proof fn lemma_mod_step(a: int, m: int)
    requires
        m > 0,
    ensures
        0 <= a % m < m,
        (a % m) % m == a % m,
        ((a % m) + 1) % m == (a + 1) % m,
        (a % m) + 1 < m ==> (a + 1) % m == (a % m) + 1,
        (a % m) + 1 == m ==> (a + 1) % m == 0,
{
    lemma_mod_bound(a, m);
    lemma_mod_twice(a, m);
    lemma_add_mod_noop(a, 1, m);
    if m == 1 {
        assert(((a % m) + 1) % m == (a + 1) % m);
    } else {
        lemma_small_mod(1nat, m as nat);
        assert(1int % m == 1);
    }
    if (a % m) + 1 < m {
        lemma_small_mod(((a % m) + 1) as nat, m as nat);
    } else {
        lemma_mod_self_0(m);
    }
}

/// True for the ASCII code of a hexadecimal digit.
pub open spec fn is_hex_digit(b: u8) -> bool {
    (48 <= b <= 57)  // '0' to '9'
     || (97 <= b <= 102)  // 'a' to 'f'
     || (65 <= b <= 70)  // 'A' to 'F'

}

/// The value of the hexadecimal digit with ASCII code `b`.
pub open spec fn hex_value(b: u8) -> u8 {
    if 48 <= b <= 57 {
        (b - 48) as u8
    } else if 97 <= b <= 102 {
        (b - 87) as u8
    } else {
        (b - 55) as u8
    }
}

/// The bytes encoded by the hexadecimal digits of `s`, two digits per
/// byte, high nibble first.  Bytes of `s` that are not hexadecimal
/// digits are skipped, and a trailing unpaired digit encodes nothing.
pub open spec fn hex_bytes(s: Seq<u8>) -> Seq<u8>
    decreases s.len(), 1int,
{
    if s.len() == 0 {
        Seq::empty()
    } else if is_hex_digit(s[0]) {
        hex_pair(s.drop_first(), hex_value(s[0]))
    } else {
        hex_bytes(s.drop_first())
    }
}

/// The bytes encoded by `s` once the high nibble `hi` has been read and
/// awaits its partner digit.
pub open spec fn hex_pair(s: Seq<u8>, hi: u8) -> Seq<u8>
    decreases s.len(), 0int,
{
    if s.len() == 0 {
        Seq::empty()
    } else if is_hex_digit(s[0]) {
        seq![(hi * 16 + hex_value(s[0])) as u8] + hex_bytes(s.drop_first())
    } else {
        hex_pair(s.drop_first(), hi)
    }
}

/// The first `n` elements of `s`, or all of `s` when it is shorter.
pub open spec fn take_at_most(s: Seq<u8>, n: int) -> Seq<u8> {
    if n < s.len() {
        s.take(n)
    } else {
        s
    }
}

/// A hexadecimal text never encodes more bytes than it has characters.
proof fn lemma_hex_bytes_len(s: Seq<u8>)
    ensures
        hex_bytes(s).len() <= s.len(),
    decreases s.len(), 1int,
{
    if s.len() > 0 {
        if is_hex_digit(s[0]) {
            lemma_hex_pair_len(s.drop_first(), hex_value(s[0]));
        } else {
            lemma_hex_bytes_len(s.drop_first());
        }
    }
}

proof fn lemma_hex_pair_len(s: Seq<u8>, hi: u8)
    ensures
        hex_pair(s, hi).len() <= s.len() + 1,
    decreases s.len(), 0int,
{
    if s.len() > 0 {
        if is_hex_digit(s[0]) {
            lemma_hex_bytes_len(s.drop_first());
        } else {
            lemma_hex_pair_len(s.drop_first(), hi);
        }
    }
}

/// The value of the hexadecimal digit `b`, or `None` for any other byte.
fn hex_digit_value(b: u8) -> (r: Option<u8>)
    ensures
        is_hex_digit(b) ==> (r matches Some(v) && v == hex_value(b) && v < 16),
        !is_hex_digit(b) ==> r is None,
{
    if b >= 48 && b <= 57 {
        Some(b - 48)
    } else if b >= 97 && b <= 102 {
        Some(b - 87)
    } else if b >= 65 && b <= 70 {
        Some(b - 55)
    } else {
        None
    }
}

/// The flat byte store and the call-return stack.
pub struct MemoryStick {
    memory: Vec<u8>,
    callstack: Vec<u16>,
}

impl MemoryStick {
    /// The bytes of the store, indexed by address.
    pub closed spec fn spec_bytes(&self) -> Seq<u8> {
        self.memory@
    }

    /// The call-return stack, most recent address last.
    pub closed spec fn spec_stack(&self) -> Seq<u16> {
        self.callstack@
    }

    /// The store holds at least one byte, so wrapped addressing is
    /// defined.
    pub open spec fn wf(&self) -> bool {
        self.spec_bytes().len() >= 1
    }

    /// The standard 4096-byte store with an empty call stack.
    pub fn open() -> (r: Self)
        ensures
            r.wf(),
            r.spec_bytes().len() == 4096,
            forall|a: int| 0 <= a < 4096 ==> #[trigger] r.spec_bytes()[a] == 0,
            r.spec_stack().len() == 0,
    {
        Self::alloced(CHIP8_MEM_SIZE)
    }

    /// A zeroed store holding one byte for every address from 0 to
    /// `max`, with an empty call stack.
    pub fn alloced(max: usize) -> (r: Self)
        requires
            max < usize::MAX,
        ensures
            r.wf(),
            r.spec_bytes().len() == max + 1,
            forall|a: int| 0 <= a <= max ==> #[trigger] r.spec_bytes()[a] == 0,
            r.spec_stack().len() == 0,
    {
        let mut memory: Vec<u8> = Vec::new();
        let mut i: usize = 0;
        while i < max + 1
            invariant
                max < usize::MAX,
                i <= max + 1,
                memory@.len() == i,
                forall|a: int| 0 <= a < i ==> #[trigger] memory@[a] == 0,
            decreases max + 1 - i,
        {
            memory.push(0);
            i = i + 1;
        }
        Self { memory, callstack: Vec::new() }
    }

    /// The byte at wrapped address `a`.
    pub(crate) fn read_at(&self, a: usize) -> (r: u8)
        requires
            self.wf(),
        ensures
            r == mem_at(self.spec_bytes(), a as int),
    {
        let idx = a % self.memory.len();
        self.memory[idx]
    }

    /// The byte at wrapped address `pointer`.
    pub(crate) fn derefrence(&self, pointer: u16) -> (r: u8)
        requires
            self.wf(),
        ensures
            r == mem_at(self.spec_bytes(), pointer as int),
    {
        self.read_at(pointer as usize)
    }

    /// Write `v` at wrapped address `a`.
    pub(crate) fn poke(&mut self, a: usize, v: u8)
        requires
            old(self).wf(),
        ensures
            final(self).wf(),
            final(self).spec_bytes() == mem_store(old(self).spec_bytes(), a as int, v),
            final(self).spec_stack() == old(self).spec_stack(),
    {
        let idx = a % self.memory.len();
        self.memory[idx] = v;
    }

    /// A mutable borrow of the byte at wrapped address `a`; the store
    /// afterwards holds whatever the caller wrote through it.
    pub(crate) fn byte_mut(&mut self, a: usize) -> (r: &mut u8)
        requires
            old(self).wf(),
        ensures
            *r == mem_at(old(self).spec_bytes(), a as int),
            final(self).wf(),
            final(self).spec_bytes() == mem_store(old(self).spec_bytes(), a as int, *final(r)),
            final(self).spec_stack() == old(self).spec_stack(),
    {
        let len = self.memory.len();
        &mut self.memory[a % len]
    }

    /// The whole store as a byte slice.
    pub(crate) fn arena(&self) -> (r: &[u8])
        ensures
            r@ == self.spec_bytes(),
    {
        self.memory.as_slice()
    }

    /// The big-endian 16-bit word at wrapped address `addr`.
    pub fn u16(&self, addr: u16) -> (r: u16)
        requires
            self.wf(),
        ensures
            r == word_at(self.spec_bytes(), addr as int),
    {
        let hi = self.read_at(addr as usize);
        let lo = self.read_at(addr as usize + 1);
        (hi as u16) * 256 + (lo as u16)
    }

    /// Write `binary` at consecutive wrapped addresses from `addr`.
    pub fn load_binary(&mut self, addr: u16, binary: &[u8])
        requires
            old(self).wf(),
        ensures
            final(self).wf(),
            final(self).spec_bytes() == mem_store_seq(
                old(self).spec_bytes(),
                addr as int,
                binary@,
            ),
            final(self).spec_stack() == old(self).spec_stack(),
    {
        let ghost bytes0 = self.spec_bytes();
        let len = self.memory.len();
        let mut cur: usize = addr as usize % len;
        let mut k: usize = 0;
        while k < binary.len()
            invariant
                self.wf(),
                len == self.spec_bytes().len(),
                bytes0.len() == len as int,
                len >= 1,
                k <= binary@.len(),
                cur as int == (addr + k) % (len as int),
                self.spec_bytes() == mem_store_seq(bytes0, addr as int, binary@.take(k as int)),
                self.spec_stack() == old(self).spec_stack(),
            decreases binary@.len() - k,
        {
            proof {
                lemma_mem_store_seq_snoc(bytes0, addr as int, binary@.take(k as int), binary@[k as int]);
                assert(binary@.take(k as int).push(binary@[k as int]) =~= binary@.take(
                    k as int + 1,
                ));
                lemma_mem_store_seq_len(bytes0, addr as int, binary@.take(k as int));
                lemma_mod_step(addr + k, len as int);
            }
            self.poke(cur, binary[k]);
            cur = cur + 1;
            if cur == len {
                cur = 0;
            }
            k = k + 1;
        }
        proof {
            assert(binary@.take(binary@.len() as int) =~= binary@);
        }
    }

    /// Write the whole contents of another store from `addr`.
    pub fn load_memory(&mut self, addr: u16, other: MemoryStick)
        requires
            old(self).wf(),
        ensures
            final(self).wf(),
            final(self).spec_bytes() == mem_store_seq(
                old(self).spec_bytes(),
                addr as int,
                other.spec_bytes(),
            ),
            final(self).spec_stack() == old(self).spec_stack(),
    {
        let bytes = other.arena();
        self.load_binary(addr, bytes);
    }

    /// Write `vals` at consecutive wrapped addresses from `base_ptr`.
    pub fn fill(&mut self, base_ptr: u16, vals: &[u8])
        requires
            old(self).wf(),
        ensures
            final(self).wf(),
            final(self).spec_bytes() == mem_store_seq(
                old(self).spec_bytes(),
                base_ptr as int,
                vals@,
            ),
            final(self).spec_stack() == old(self).spec_stack(),
    {
        self.load_binary(base_ptr, vals)
    }

    /// Write the even-length prefix of `binary` from `addr`, reading it
    /// as big-endian 16-bit instruction words; a trailing odd byte is
    /// dropped.
    pub fn load_big_binary_instructions(&mut self, addr: u16, binary: &[u8])
        requires
            old(self).wf(),
        ensures
            final(self).wf(),
            final(self).spec_bytes() == mem_store_seq(
                old(self).spec_bytes(),
                addr as int,
                binary@.take(binary@.len() as int - (binary@.len() as int % 2)),
            ),
            final(self).spec_stack() == old(self).spec_stack(),
    {
        let ghost bytes0 = self.spec_bytes();
        let ghost even = binary@.len() as int - (binary@.len() as int % 2);
        let nb = binary.len();
        let pairs = nb / 2;
        let len = self.memory.len();
        let mut cur: usize = addr as usize % len;
        let mut p: usize = 0;
        while p < pairs
            invariant
                self.wf(),
                len == self.spec_bytes().len(),
                bytes0.len() == len as int,
                len >= 1,
                nb == binary@.len(),
                pairs == nb / 2,
                p <= pairs,
                cur as int == (addr + 2 * p) % (len as int),
                self.spec_bytes() == mem_store_seq(
                    bytes0,
                    addr as int,
                    binary@.take(2 * p as int),
                ),
                self.spec_stack() == old(self).spec_stack(),
            decreases pairs - p,
        {
            let k = p * 2;
            assert(k + 2 <= nb);
            let pair = slice_subrange(binary, k, k + 2);
            let word = read_word_be(pair);
            let hi = (word / 256) as u8;
            let lo = (word % 256) as u8;
            proof {
                assert(pair@[0] == binary@[k as int]);
                assert(pair@[1] == binary@[k as int + 1]);
                assert(hi == binary@[k as int] && lo == binary@[k as int + 1]);
                lemma_mem_store_seq_snoc(bytes0, addr as int, binary@.take(k as int), binary@[k as int]);
                assert(binary@.take(k as int).push(binary@[k as int]) =~= binary@.take(
                    k as int + 1,
                ));
                lemma_mem_store_seq_len(bytes0, addr as int, binary@.take(k as int));
                lemma_mod_step(addr + k, len as int);
            }
            self.poke(cur, hi);
            cur = cur + 1;
            if cur == len {
                cur = 0;
            }
            proof {
                lemma_mem_store_seq_snoc(
                    bytes0,
                    addr as int,
                    binary@.take(k as int + 1),
                    binary@[k as int + 1],
                );
                assert(binary@.take(k as int + 1).push(binary@[k as int + 1]) =~= binary@.take(
                    k as int + 2,
                ));
                lemma_mem_store_seq_len(bytes0, addr as int, binary@.take(k as int + 1));
                lemma_mod_step(addr + k + 1, len as int);
            }
            self.poke(cur, lo);
            cur = cur + 1;
            if cur == len {
                cur = 0;
            }
            p = p + 1;
        }
        proof {
            assert(2 * p as int == even);
        }
    }

    /// Decode `hex` and write at most `limit` of its encoded bytes at
    /// consecutive wrapped addresses from `addr`.
    fn load_hex_bounded(&mut self, addr: u16, hex: &str, limit: usize)
        requires
            old(self).wf(),
        ensures
            final(self).wf(),
            final(self).spec_bytes() == mem_store_seq(
                old(self).spec_bytes(),
                addr as int,
                take_at_most(hex_bytes(hex.spec_bytes()), limit as int),
            ),
            final(self).spec_stack() == old(self).spec_stack(),
    {
        let ghost bytes0 = self.spec_bytes();
        let ghost full = hex_bytes(hex.spec_bytes());
        let s = hex.as_bytes();
        let len = self.memory.len();
        let mut cur: usize = addr as usize % len;
        let mut count: usize = 0;
        let mut i: usize = 0;
        let mut pending: Option<u8> = None;
        let ghost mut written: Seq<u8> = Seq::empty();
        proof {
            assert(s@.skip(0) =~= s@);
        }
        while i < s.len() && count < limit
            invariant
                self.wf(),
                len == self.spec_bytes().len(),
                bytes0.len() == len as int,
                len >= 1,
                i <= s@.len(),
                count == written.len(),
                count <= limit,
                cur as int == (addr + count) % (len as int),
                s@ == hex.spec_bytes(),
                full == written + (match pending {
                    Some(hi) => hex_pair(s@.skip(i as int), hi),
                    None => hex_bytes(s@.skip(i as int)),
                }),
                (match pending {
                    Some(hi) => hi < 16,
                    None => true,
                }),
                written == take_at_most(full, count as int),
                self.spec_bytes() == mem_store_seq(bytes0, addr as int, written),
                self.spec_stack() == old(self).spec_stack(),
            decreases s@.len() - i,
        {
            let b = s[i];
            proof {
                assert(s@.skip(i as int)[0] == s@[i as int]);
                assert(s@.skip(i as int).drop_first() =~= s@.skip(i as int + 1));
            }
            match hex_digit_value(b) {
                Some(v) => {
                    match pending {
                        None => {
                            pending = Some(v);
                        },
                        Some(hi) => {
                            let byte = hi * 16 + v;
                            proof {
                                lemma_mem_store_seq_snoc(bytes0, addr as int, written, byte);
                                lemma_mem_store_seq_len(bytes0, addr as int, written);
                                lemma_mod_step(addr + count, len as int);
                                assert(full == written.push(byte) + hex_bytes(
                                    s@.skip(i as int + 1),
                                ));
                                assert(full.len() >= written.len() + 1);
                                assert forall|j: int| 0 <= j < written.len() + 1 implies #[trigger] full[j]
                                    == written.push(byte)[j] by {
                                    assert(full[j] == (written.push(byte) + hex_bytes(
                                        s@.skip(i as int + 1),
                                    ))[j]);
                                }
                                assert(written.push(byte) =~= take_at_most(
                                    full,
                                    count as int + 1,
                                ));
                            }
                            self.poke(cur, byte);
                            cur = cur + 1;
                            if cur == len {
                                cur = 0;
                            }
                            count = count + 1;
                            proof {
                                written = written.push(byte);
                            }
                            pending = None;
                        },
                    }
                },
                None => {},
            }
            i = i + 1;
        }
        proof {
            if count == limit {
                assert(written == take_at_most(full, limit as int));
            } else {
                assert(i as int == s@.len());
                assert(s@.skip(i as int) =~= Seq::<u8>::empty());
                assert(match pending {
                    Some(hi) => hex_pair(Seq::<u8>::empty(), hi) =~= Seq::<u8>::empty(),
                    None => hex_bytes(Seq::<u8>::empty()) =~= Seq::<u8>::empty(),
                });
                assert(full =~= written + Seq::<u8>::empty());
                assert(full =~= written);
                assert(take_at_most(full, limit as int) == full);
            }
        }
    }

    /// Decode `hex` and write every encoded byte at consecutive wrapped
    /// addresses from `addr`.
    pub fn load_hex(&mut self, addr: u16, hex: &str)
        requires
            old(self).wf(),
        ensures
            final(self).wf(),
            final(self).spec_bytes() == mem_store_seq(
                old(self).spec_bytes(),
                addr as int,
                hex_bytes(hex.spec_bytes()),
            ),
            final(self).spec_stack() == old(self).spec_stack(),
    {
        let n = hex.as_bytes().len();
        proof {
            lemma_hex_bytes_len(hex.spec_bytes());
        }
        self.load_hex_bounded(addr, hex, n);
        proof {
            assert(take_at_most(hex_bytes(hex.spec_bytes()), n as int) == hex_bytes(
                hex.spec_bytes(),
            ));
        }
    }

    /// Decode `hex` and write at most `n` of its encoded bytes at
    /// consecutive wrapped addresses from `addr`.
    pub fn loadn_hex(&mut self, addr: u16, hex: &str, n: u16)
        requires
            old(self).wf(),
        ensures
            final(self).wf(),
            final(self).spec_bytes() == mem_store_seq(
                old(self).spec_bytes(),
                addr as int,
                take_at_most(hex_bytes(hex.spec_bytes()), n as int),
            ),
            final(self).spec_stack() == old(self).spec_stack(),
    {
        self.load_hex_bounded(addr, hex, n as usize)
    }

    /// Push a return address.
    pub fn push(&mut self, ptr: u16)
        ensures
            final(self).spec_bytes() == old(self).spec_bytes(),
            final(self).spec_stack() == old(self).spec_stack().push(ptr),
    {
        self.callstack.push(ptr)
    }

    /// Pop the most recent return address; `None` when the stack is
    /// empty.
    pub fn pop(&mut self) -> (r: Option<u16>)
        ensures
            final(self).spec_bytes() == old(self).spec_bytes(),
            old(self).spec_stack().len() == 0 ==> (r is None && final(self).spec_stack()
                == old(self).spec_stack()),
            old(self).spec_stack().len() > 0 ==> (r == Some(old(self).spec_stack().last())
                && final(self).spec_stack() == old(self).spec_stack().drop_last()),
    {
        self.callstack.pop()
    }
}

/// Load a 16-glyph font (5 bytes per glyph) from its hexadecimal text at
/// the bottom of memory.
pub fn load_font(memory: &mut MemoryStick, hex: &str)
    requires
        old(memory).wf(),
    ensures
        final(memory).wf(),
        final(memory).spec_bytes() == mem_store_seq(
            old(memory).spec_bytes(),
            0,
            take_at_most(hex_bytes(hex.spec_bytes()), 80),
        ),
        final(memory).spec_stack() == old(memory).spec_stack(),
{
    memory.loadn_hex(0, hex, 16 * 5)
}

/// Load one 5-byte glyph for the hex digit `ch` from its hexadecimal
/// text.
pub fn load_charfont(memory: &mut MemoryStick, ch: u8, hex: &str)
    requires
        old(memory).wf(),
    ensures
        final(memory).wf(),
        final(memory).spec_bytes() == mem_store_seq(
            old(memory).spec_bytes(),
            (ch % 16) as int * 5,
            take_at_most(hex_bytes(hex.spec_bytes()), 5),
        ),
        final(memory).spec_stack() == old(memory).spec_stack(),
{
    memory.loadn_hex(((ch % 16) as u16) * 5, hex, 5)
}

/// Relies on oorandom's Rand32 type: the seeded 32-bit PCG generator
/// behind the RND opcode.
#[verifier::external_type_specification]
#[verifier::external_body]
pub struct ExRand32(oorandom::Rand32);

/// Relies on oorandom's Rand32::new: builds the generator from a seed.
/// Nothing is assumed about the state it produces.
pub assume_specification[ oorandom::Rand32::new ](seed: u64) -> oorandom::Rand32;

/// Relies on oorandom's Rand32::rand_u32: the next pseudo-random 32-bit
/// value.  Nothing is assumed about the value returned.
pub assume_specification[ oorandom::Rand32::rand_u32 ](rng: &mut oorandom::Rand32) -> u32;

/// The byte the random source yields from two 32-bit draws: the first
/// draw picks one of the four byte positions of the second, whose low
/// byte after that shift is the result.
fn extract_random_byte(r1: u32, r2: u32) -> (b: u8)
    ensures
        b == ((r2 >> ((((r1 % 16) % 4) * 8) % 25) as u32) % 256) as u8,
{
    let a = ((r1 % 16) % 4) * 8 % 25;
    ((r2 >> a) % 256) as u8
}

/// Relies on byteorder's BigEndian::read_u16: the big-endian 16-bit word
/// held by the first two bytes of the buffer.
#[verifier::external_body]
fn read_word_be(buf: &[u8]) -> (r: u16)
    requires
        buf@.len() >= 2,
    ensures
        r as int == (buf@[0] as int) * 256 + (buf@[1] as int),
{
    <byteorder::BigEndian as byteorder::ByteOrder>::read_u16(buf)
}

/// The observable state of the CPU: execution cursor, registers, memory,
/// stack, and the devices of the auxiliary pack.
pub struct CpuView {
    pub pc: u16,
    pub regi: u16,
    pub regs: Seq<u8>,
    pub mem: Seq<u8>,
    pub stack: Seq<u16>,
    pub keys: Seq<KeyEventKind>,
    pub pix: Seq<u8>,
    pub pix_dirty: bool,
    pub sound_playing: bool,
}

impl CpuView {
    /// Cursors are reduced to 12 bits, the register file has sixteen
    /// entries, and every device buffer has its fixed shape.
    pub open spec fn wf(self) -> bool {
        &&& self.pc < 0x1000
        &&& self.regi < 0x1000
        &&& self.regs.len() == 16
        &&& self.mem.len() >= 1
        &&& self.keys.len() == 16
        &&& self.pix.len() == 2048
        &&& forall|p: int| 0 <= p < 2048 ==> #[trigger] self.pix[p] <= 1
    }

    /// The general register picked by the low nibble of `x`.
    pub open spec fn reg(self, x: int) -> u8 {
        self.regs[x % 16]
    }

    /// This view with the register picked by `x` set to `v`.
    pub open spec fn with_reg(self, x: int, v: u8) -> CpuView {
        CpuView { regs: self.regs.update(x % 16, v), ..self }
    }
}

/// The CPU type used by the machine.
pub type DefaultCpu = DenseCpu;

/// The CPU core.
pub struct DenseCpu {
    pc: u16,
    regi: u16,
    registers: [u8; 16],
    aux_pack: Auxillary,
    memory: MemoryStick,
    rgen: oorandom::Rand32,
}

/// The fixed seed of the random source; a fixed seed keeps runs
/// reproducible for golden-output testing.
pub const C8_RANDOM_SEED: u64 = 0xFCFB;

impl View for DenseCpu {
    type V = CpuView;

    closed spec fn view(&self) -> CpuView {
        CpuView {
            pc: self.pc,
            regi: self.regi,
            regs: self.registers@,
            mem: self.memory.spec_bytes(),
            stack: self.memory.spec_stack(),
            keys: self.aux_pack.spec_keyboard().spec_keys(),
            pix: self.aux_pack.spec_graphics().spec_pixels(),
            pix_dirty: self.aux_pack.spec_graphics().spec_dirty(),
            sound_playing: self.aux_pack.spec_sound().spec_playing(),
        }
    }
}

impl DenseCpu {
    pub open spec fn wf(&self) -> bool {
        self@.wf()
    }

    /// The auxiliary pack carried by this CPU.
    pub closed spec fn spec_aux(&self) -> Auxillary {
        self.aux_pack
    }

    /// The memory unit carried by this CPU.
    pub closed spec fn spec_memory(&self) -> MemoryStick {
        self.memory
    }

    /// A CPU over the given memory and devices, with cleared registers,
    /// the program counter at the program start, and the seeded random
    /// source.
    pub fn new(memory: MemoryStick, aux: Auxillary) -> (r: Self)
        requires
            memory.wf(),
        ensures
            r@.pc == CHIP8_PROGRAM_START,
            r@.regi == 0,
            r@.regs.len() == 16,
            forall|j: int| 0 <= j < 16 ==> #[trigger] r@.regs[j] == 0,
            r@.mem == memory.spec_bytes(),
            r@.stack == memory.spec_stack(),
            r@.keys == aux.spec_keyboard().spec_keys(),
            r@.pix == aux.spec_graphics().spec_pixels(),
            r@.pix_dirty == aux.spec_graphics().spec_dirty(),
            r@.sound_playing == aux.spec_sound().spec_playing(),
    {
        Self {
            pc: CHIP8_PROGRAM_START,
            regi: 0,
            registers: [0u8; 16],
            memory,
            aux_pack: aux,
            rgen: oorandom::Rand32::new(C8_RANDOM_SEED),
        }
    }

    /// The sixteen general registers.
    pub fn registery(&self) -> (r: &[u8])
        ensures
            r@ == self@.regs,
    {
        self.registers.as_slice()
    }

    /// The register picked by the low nibble of `ptr`.
    pub fn register(&self, ptr: u8) -> (r: &u8)
        requires
            self.wf(),
        ensures
            *r == self@.reg(ptr as int),
    {
        &self.registers[(ptr % 16) as usize]
    }

    /// Set the register picked by the low nibble of `ptr`.
    pub(crate) fn set_register(&mut self, ptr: u8, v: u8)
        requires
            old(self).wf(),
        ensures
            final(self).wf(),
            final(self)@ == old(self)@.with_reg(ptr as int, v),
    {
        self.registers[(ptr % 16) as usize] = v;
    }

    /// The index register.
    pub fn register_i(&self) -> (r: u16)
        ensures
            r == self@.regi,
    {
        self.regi
    }

    /// Set the index register, reduced to 12 bits.
    pub fn set_register_i(&mut self, i: u16)
        requires
            old(self).wf(),
        ensures
            final(self).wf(),
            final(self)@ == (CpuView { regi: mask12(i as int), ..old(self)@ }),
    {
        self.regi = i % 0x1000;
    }

    /// The byte at the address held by the index register.
    pub fn deref_i(&self) -> (r: u8)
        requires
            self.wf(),
        ensures
            r == mem_at(self@.mem, self@.regi as int),
    {
        self.memory.derefrence(self.regi)
    }

    /// A mutable borrow of the byte at the index register's address.
    pub fn deref_i_mut(&mut self) -> (r: &mut u8)
        requires
            old(self).wf(),
        ensures
            *r == mem_at(old(self)@.mem, old(self)@.regi as int),
            final(self).wf(),
            final(self)@ == (CpuView {
                mem: mem_store(old(self)@.mem, old(self)@.regi as int, *final(r)),
                ..old(self)@
            }),
    {
        let i = self.regi;
        self.memory.byte_mut(i as usize)
    }

    /// Write `v` at wrapped address `a`.
    pub(crate) fn store_byte(&mut self, a: u16, v: u8)
        requires
            old(self).wf(),
        ensures
            final(self).wf(),
            final(self)@ == (CpuView { mem: mem_store(old(self)@.mem, a as int, v), ..old(self)@ }),
    {
        self.memory.poke(a as usize, v);
    }

    /// The program counter.
    pub fn program_counter(&self) -> (r: u16)
        ensures
            r == self@.pc,
    {
        self.pc
    }

    /// The instruction word at the program counter.
    pub fn instruction(&self) -> (r: u16)
        requires
            self.wf(),
        ensures
            r == word_at(self@.mem, self@.pc as int),
    {
        self.memory.u16(self.pc)
    }

    /// Jump to `addr`, reduced to 12 bits.
    pub fn jump(&mut self, addr: u16)
        requires
            old(self).wf(),
        ensures
            final(self).wf(),
            final(self)@ == (CpuView { pc: mask12(addr as int), ..old(self)@ }),
    {
        self.pc = addr % 0x1000;
    }

    /// Advance the program counter past `n` further addresses, wrapping
    /// at the 12-bit boundary.
    pub fn jumpn(&mut self, n: u16)
        requires
            old(self).wf(),
        ensures
            final(self).wf(),
            final(self)@ == (CpuView { pc: mask12(old(self)@.pc + n), ..old(self)@ }),
    {
        let m = n % 0x1000;
        proof {
            lemma_add_mod_noop(old(self)@.pc as int, n as int, 4096);
            lemma_small_mod(old(self)@.pc as nat, 4096nat);
        }
        let t = self.pc + m;
        self.jump(t);
    }

    /// Advance the program counter to the next instruction word.
    pub fn inc_instruction(&mut self)
        requires
            old(self).wf(),
        ensures
            final(self).wf(),
            final(self)@ == (CpuView { pc: mask12(old(self)@.pc + 2), ..old(self)@ }),
    {
        let t = self.pc + 2;
        self.jump(t);
    }

    /// Step the program counter back one instruction word, wrapping at
    /// the 12-bit boundary.
    pub fn dec_instruction(&mut self)
        requires
            old(self).wf(),
        ensures
            final(self).wf(),
            final(self)@ == (CpuView { pc: mask12(old(self)@.pc - 2), ..old(self)@ }),
    {
        proof {
            lemma_mod_add_multiples_vanish(old(self)@.pc - 2, 4096);
        }
        let t = self.pc + 0x1000 - 2;
        self.jump(t);
    }

    /// Step the program counter forward one address.
    pub fn inc(&mut self)
        requires
            old(self).wf(),
        ensures
            final(self).wf(),
            final(self)@ == (CpuView { pc: mask12(old(self)@.pc + 1), ..old(self)@ }),
    {
        let t = self.pc + 1;
        self.jump(t);
    }

    /// Step the program counter back one address, wrapping at the
    /// 12-bit boundary.
    pub fn dec(&mut self)
        requires
            old(self).wf(),
        ensures
            final(self).wf(),
            final(self)@ == (CpuView { pc: mask12(old(self)@.pc - 1), ..old(self)@ }),
    {
        proof {
            lemma_mod_add_multiples_vanish(old(self)@.pc - 1, 4096);
        }
        let t = self.pc + 0x1000 - 1;
        self.jump(t);
    }

    /// Push the current program counter and jump to `addr`.
    pub fn call(&mut self, addr: u16)
        requires
            old(self).wf(),
        ensures
            final(self).wf(),
            final(self)@ == (CpuView {
                pc: mask12(addr as int),
                stack: old(self)@.stack.push(old(self)@.pc),
                ..old(self)@
            }),
    {
        let pc = self.pc;
        self.memory.push(pc);
        self.jump(addr);
    }

    /// Return to the most recent pushed address; false when the call
    /// stack is empty.
    pub fn ret(&mut self) -> (r: bool)
        requires
            old(self).wf(),
        ensures
            final(self).wf(),
            old(self)@.stack.len() == 0 ==> (!r && final(self)@ == old(self)@),
            old(self)@.stack.len() > 0 ==> (r && final(self)@ == (CpuView {
                pc: mask12(old(self)@.stack.last() as int),
                stack: old(self)@.stack.drop_last(),
                ..old(self)@
            })),
    {
        match self.memory.pop() {
            Some(addr) => {
                self.jump(addr);
                true
            },
            None => false,
        }
    }

    /// The next pseudo-random byte, extracted from the 32-bit generator
    /// by the byte position drawn first.
    pub fn random(&mut self) -> (r: u8)
        requires
            old(self).wf(),
        ensures
            final(self).wf(),
            final(self)@ == old(self)@,
    {
        let r1 = self.rgen.rand_u32();
        let a = ((r1 % 16) % 4) * 8 % 25;
        let r2 = self.rgen.rand_u32();
        ((r2 >> a) % 256) as u8
    }

    /// Copy registers 0 through `reg` out of memory, reading upward
    /// from `addr`.
    pub fn fill_registers(&mut self, addr: u16, reg: u8)
        requires
            old(self).wf(),
            reg < 16,
        ensures
            final(self).wf(),
            final(self)@ == (CpuView {
                regs: Seq::new(
                    16,
                    |j: int|
                        if j <= reg {
                            mem_at(old(self)@.mem, addr + j)
                        } else {
                            old(self)@.regs[j]
                        },
                ),
                ..old(self)@
            }),
    {
        let mut j: usize = 0;
        while j <= reg as usize
            invariant
                self.wf(),
                reg < 16,
                j <= reg as usize + 1,
                self@ == (CpuView { regs: self@.regs, ..old(self)@ }),
                forall|t: int| 0 <= t < j ==> self@.regs[t] == mem_at(old(self)@.mem, addr + t),
                forall|t: int| j <= t < 16 ==> self@.regs[t] == old(self)@.regs[t],
            decreases reg as usize + 1 - j,
        {
            let b = self.memory.read_at(addr as usize + j);
            self.registers[j] = b;
            j = j + 1;
        }
        proof {
            assert(self@.regs =~= Seq::new(
                16,
                |j: int|
                    if j <= reg {
                        mem_at(old(self)@.mem, addr + j)
                    } else {
                        old(self)@.regs[j]
                    },
            ));
        }
    }

    /// Copy registers 0 through `reg` into memory, writing upward from
    /// `addr`.
    pub fn load_registers(&mut self, addr: u16, reg: u8)
        requires
            old(self).wf(),
            reg < 16,
        ensures
            final(self).wf(),
            final(self)@ == (CpuView {
                mem: mem_store_seq(
                    old(self)@.mem,
                    addr as int,
                    old(self)@.regs.take(reg as int + 1),
                ),
                ..old(self)@
            }),
    {
        let mut j: usize = 0;
        while j <= reg as usize
            invariant
                self.wf(),
                reg < 16,
                j <= reg as usize + 1,
                self@ == (CpuView { mem: self@.mem, ..old(self)@ }),
                old(self)@.mem.len() >= 1,
                self@.mem == mem_store_seq(
                    old(self)@.mem,
                    addr as int,
                    old(self)@.regs.take(j as int),
                ),
            decreases reg as usize + 1 - j,
        {
            proof {
                lemma_mem_store_seq_snoc(
                    old(self)@.mem,
                    addr as int,
                    old(self)@.regs.take(j as int),
                    old(self)@.regs[j as int],
                );
                assert(old(self)@.regs.take(j as int).push(old(self)@.regs[j as int])
                    =~= old(self)@.regs.take(j as int + 1));
                lemma_mem_store_seq_len(old(self)@.mem, addr as int, old(self)@.regs.take(j as int));
            }
            let b = self.registers[j];
            self.memory.poke(addr as usize + j, b);
            j = j + 1;
        }
    }

    /// The memory unit.
    pub fn memory(&self) -> (r: &MemoryStick)
        ensures
            *r == self.spec_memory(),
            r.spec_bytes() == self@.mem,
            r.spec_stack() == self@.stack,
    {
        &self.memory
    }

    /// The memory unit, for writing.
    pub fn memory_mut(&mut self) -> (r: &mut MemoryStick)
        ensures
            *r == old(self).spec_memory(),
            r.spec_bytes() == old(self)@.mem,
            r.spec_stack() == old(self)@.stack,
            final(self).spec_memory() == *final(r),
            final(self)@ == (CpuView {
                mem: final(r).spec_bytes(),
                stack: final(r).spec_stack(),
                ..old(self)@
            }),
    {
        &mut self.memory
    }

    /// The auxiliary device pack.
    pub(crate) fn aux(&self) -> (r: &Auxillary)
        ensures
            *r == self.spec_aux(),
            r.spec_keyboard().spec_keys() == self@.keys,
            r.spec_graphics().spec_pixels() == self@.pix,
            r.spec_graphics().spec_dirty() == self@.pix_dirty,
            r.spec_sound().spec_playing() == self@.sound_playing,
    {
        &self.aux_pack
    }

    /// The auxiliary device pack, for writing.
    pub(crate) fn aux_mut(&mut self) -> (r: &mut Auxillary)
        ensures
            *r == old(self).spec_aux(),
            r.spec_keyboard().spec_keys() == old(self)@.keys,
            r.spec_graphics().spec_pixels() == old(self)@.pix,
            r.spec_graphics().spec_dirty() == old(self)@.pix_dirty,
            r.spec_sound().spec_playing() == old(self)@.sound_playing,
            final(self).spec_aux() == *final(r),
            final(self)@ == (CpuView {
                keys: final(r).spec_keyboard().spec_keys(),
                pix: final(r).spec_graphics().spec_pixels(),
                pix_dirty: final(r).spec_graphics().spec_dirty(),
                sound_playing: final(r).spec_sound().spec_playing(),
                ..old(self)@
            }),
    {
        &mut self.aux_pack
    }

    /// The keyboard snapshot, for writing.
    pub(crate) fn keyboard_mut(&mut self) -> (r: &mut Keyboard)
        ensures
            (*r).spec_keys() == old(self)@.keys,
            final(self)@ == (CpuView { keys: final(r).spec_keys(), ..old(self)@ }),
    {
        self.aux_pack.keyboard_mut()
    }

    /// Turn every display pixel off.
    pub(crate) fn clear_display(&mut self)
        requires
            old(self).wf(),
        ensures
            final(self).wf(),
            final(self)@ == (CpuView {
                pix: Seq::new(2048, |p: int| 0u8),
                pix_dirty: true,
                ..old(self)@
            }),
    {
        let g = self.aux_pack.graphics_mut();
        g.clear();
        proof {
            assert(self@.pix =~= Seq::new(2048, |p: int| 0u8));
        }
    }

    /// Toggle one display pixel for a set sprite bit; report a collision
    /// with a pixel that was already on.
    pub(crate) fn pixel_decide(&mut self, x: u8, y: u8, bit: u8) -> (r: bool)
        requires
            old(self).wf(),
        ensures
            final(self).wf(),
            final(self)@ == (CpuView {
                pix: (if bit > 0 {
                    old(self)@.pix.update(
                        crate::graphics::pix_index(x as int, y as int),
                        (if old(self)@.pix[crate::graphics::pix_index(x as int, y as int)] == 0 {
                            1u8
                        } else {
                            0u8
                        }),
                    )
                } else {
                    old(self)@.pix
                }),
                pix_dirty: (bit > 0 || old(self)@.pix_dirty),
                ..old(self)@
            }),
            r == (bit > 0 && old(self)@.pix[crate::graphics::pix_index(x as int, y as int)] > 0),
    {
        let g = self.aux_pack.graphics_mut();
        g.decide(x, y, bit)
    }
}

} // verus!
