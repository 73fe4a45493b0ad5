use vstd::prelude::*;

verus! {

/// Number of bytes of VM memory.
pub const MEMORY_SIZE: usize = 65536;

/// The byte at `addr`, where every address outside `mem` reads as zero.
pub open spec fn byte_at(mem: Seq<u8>, addr: int) -> u8 {
    if 0 <= addr < mem.len() {
        mem[addr]
    } else {
        0
    }
}

/// The eight bytes starting at `addr`, read with `byte_at`.
pub open spec fn window(mem: Seq<u8>, addr: int) -> Seq<u8> {
    Seq::new(8, |i: int| byte_at(mem, addr + i))
}

/// `mem` with `bytes` written from `addr` on; writes that fall outside
/// `mem` are dropped and the length never changes.
pub open spec fn write_bytes(mem: Seq<u8>, addr: int, bytes: Seq<u8>) -> Seq<u8> {
    Seq::new(
        mem.len(),
        |j: int|
            if addr <= j < addr + bytes.len() {
                bytes[j - addr]
            } else {
                mem[j]
            },
    )
}

/// The little-endian value of the first eight bytes of `b`.
#[verifier::opaque]
pub open spec fn u64_from_le(b: Seq<u8>) -> u64 {
    (b[0] as u64) | ((b[1] as u64) << 8u64) | ((b[2] as u64) << 16u64) | ((b[3] as u64) << 24u64)
        | ((b[4] as u64) << 32u64) | ((b[5] as u64) << 40u64) | ((b[6] as u64) << 48u64) | ((
    b[7] as u64) << 56u64)
}

/// Byte `k` (counted from the least significant) of `v`.
pub open spec fn u64_byte(v: u64, k: u64) -> u8 {
    ((v >> (8 * k)) & 0xff) as u8
}

/// The eight little-endian bytes of `v`.
pub open spec fn u64_to_le(v: u64) -> Seq<u8> {
    seq![
        u64_byte(v, 0),
        u64_byte(v, 1),
        u64_byte(v, 2),
        u64_byte(v, 3),
        u64_byte(v, 4),
        u64_byte(v, 5),
        u64_byte(v, 6),
        u64_byte(v, 7),
    ]
}

/// Decoding the encoding of a word gives the word back.
pub proof fn lemma_u64_le_roundtrip(v: u64)
    ensures
        u64_from_le(u64_to_le(v)) == v,
        u64_to_le(v).len() == 8,
{
    reveal(u64_from_le);
    let b = u64_to_le(v);
    assert(b[0] == u64_byte(v, 0));
    assert(b[7] == u64_byte(v, 7));
    assert(((((v >> 0u64) & 0xff) as u8) as u64) | (((((v >> 8u64) & 0xff) as u8) as u64) << 8u64)
        | (((((v >> 16u64) & 0xff) as u8) as u64) << 16u64) | (((((v >> 24u64) & 0xff) as u8) as u64)
        << 24u64) | (((((v >> 32u64) & 0xff) as u8) as u64) << 32u64) | (((((v >> 40u64) & 0xff)
        as u8) as u64) << 40u64) | (((((v >> 48u64) & 0xff) as u8) as u64) << 48u64) | (((((v
        >> 56u64) & 0xff) as u8) as u64) << 56u64) == v) by (bit_vector);
}

/// Encoding the value of eight bytes gives those bytes back.
pub proof fn lemma_le_u64_roundtrip(b: Seq<u8>)
    requires
        b.len() == 8,
    ensures
        u64_to_le(u64_from_le(b)) == b,
{
    reveal(u64_from_le);
    let (b0, b1, b2, b3, b4, b5, b6, b7) = (b[0], b[1], b[2], b[3], b[4], b[5], b[6], b[7]);
    let v = u64_from_le(b);
    assert(v == (b0 as u64) | ((b1 as u64) << 8u64) | ((b2 as u64) << 16u64) | ((b3 as u64)
        << 24u64) | ((b4 as u64) << 32u64) | ((b5 as u64) << 40u64) | ((b6 as u64) << 48u64) | ((
    b7 as u64) << 56u64));
    assert({
        let w = (b0 as u64) | ((b1 as u64) << 8u64) | ((b2 as u64) << 16u64) | ((b3 as u64)
            << 24u64) | ((b4 as u64) << 32u64) | ((b5 as u64) << 40u64) | ((b6 as u64) << 48u64)
            | ((b7 as u64) << 56u64);
        &&& ((w >> 0u64) & 0xff) as u8 == b0
        &&& ((w >> 8u64) & 0xff) as u8 == b1
        &&& ((w >> 16u64) & 0xff) as u8 == b2
        &&& ((w >> 24u64) & 0xff) as u8 == b3
        &&& ((w >> 32u64) & 0xff) as u8 == b4
        &&& ((w >> 40u64) & 0xff) as u8 == b5
        &&& ((w >> 48u64) & 0xff) as u8 == b6
        &&& ((w >> 56u64) & 0xff) as u8 == b7
    }) by (bit_vector);
    assert(u64_to_le(v) =~= b);
}

/// A word written at `addr` reads back unchanged, when all its bytes fit in
/// memory.
pub proof fn lemma_read_after_write(mem: Seq<u8>, addr: int, v: u64)
    requires
        0 <= addr,
        addr + 8 <= mem.len(),
    ensures
        u64_from_le(window(write_bytes(mem, addr, u64_to_le(v)), addr)) == v,
        write_bytes(mem, addr, u64_to_le(v)).len() == mem.len(),
{
    lemma_u64_le_roundtrip(v);
    assert(window(write_bytes(mem, addr, u64_to_le(v)), addr) =~= u64_to_le(v));
}

/// Writing a word leaves the words that do not overlap it unchanged.
pub proof fn lemma_write_elsewhere(mem: Seq<u8>, addr: int, v: u64, other: int)
    requires
        other + 8 <= addr || addr + 8 <= other,
    ensures
        window(write_bytes(mem, addr, u64_to_le(v)), other) == window(mem, other),
{
    lemma_u64_le_roundtrip(v);
    assert(window(write_bytes(mem, addr, u64_to_le(v)), other) =~= window(mem, other));
}

/// A byte written at an address inside memory reads back unchanged, and the
/// other bytes keep their values.
pub proof fn lemma_byte_read_after_write(mem: Seq<u8>, addr: int, b: u8, other: int)
    requires
        0 <= addr < mem.len(),
    ensures
        byte_at(write_bytes(mem, addr, seq![b]), addr) == b,
        other != addr ==> byte_at(write_bytes(mem, addr, seq![b]), other) == byte_at(mem, other),
{
}

/// Stores the eight little-endian bytes of `val` in `data` from `addr` on;
/// bytes that fall past the end are dropped.
pub fn store_u64_le(data: &mut Vec<u8>, addr: usize, val: u64)
    ensures
        final(data)@ == write_bytes(old(data)@, addr as int, u64_to_le(val)),
    no_unwind
{
    let ghost old_data = data@;
    let mut k: usize = 0;
    let mut x: u64 = val;
    assert(val >> 0u64 == val) by (bit_vector);
    while k < 8
        invariant
            k <= 8,
            data@ == write_bytes(old_data, addr as int, u64_to_le(val).take(k as int)),
            x == val >> (8 * k) as u64,
        decreases 8 - k,
    {
        let byte = (x & 0xff) as u8;
        assert(byte == u64_byte(val, k as u64)) by (bit_vector)
            requires
                x == val >> (8 * k) as u64,
                byte == (x & 0xff) as u8,
                k < 8,
        ;
        if addr < data.len() && k < data.len() - addr {
            data[addr + k] = byte;
        }
        proof {
            let s = u64_to_le(val);
            assert(s[k as int] == u64_byte(val, k as u64));
        }
        assert(x >> 8u64 == val >> (8 * (k + 1)) as u64) by (bit_vector)
            requires
                x == val >> (8 * k) as u64,
                k < 8,
        ;
        x = x >> 8u64;
        k = k + 1;
        assert(data@ =~= write_bytes(old_data, addr as int, u64_to_le(val).take(k as int)));
    }
    assert(u64_to_le(val).take(8) =~= u64_to_le(val));
}

/// The byte-addressed memory of the machine.
pub struct Memory {
    data: Vec<u8>,
}

impl View for Memory {
    type V = Seq<u8>;

    closed spec fn view(&self) -> Seq<u8> {
        self.data@
    }
}

impl Memory {
    /// Memory always holds exactly `MEMORY_SIZE` bytes.
    #[verifier::type_invariant]
    spec fn wf(self) -> bool {
        self.data@.len() == MEMORY_SIZE
    }

    /// A memory of `MEMORY_SIZE` zero bytes.
    pub fn new() -> (m: Self)
        ensures
            m@ == Seq::new(MEMORY_SIZE as nat, |i: int| 0u8),
    {
        let mut data: Vec<u8> = Vec::new();
        let mut i: usize = 0;
        while i < MEMORY_SIZE
            invariant
                i <= MEMORY_SIZE,
                data@ == Seq::new(i as nat, |j: int| 0u8),
            decreases MEMORY_SIZE - i,
        {
            data.push(0u8);
            i = i + 1;
        }
        Memory { data }
    }

    /// Copies `program` to `offset` and on, as far as memory reaches.
    pub fn load_program(&mut self, program: &[u8], offset: usize)
        requires
            offset <= old(self)@.len(),
            offset + program@.len() <= usize::MAX,
        ensures
            final(self)@ == write_bytes(
                old(self)@,
                offset as int,
                program@.take(
                    if offset + program@.len() <= old(self)@.len() {
                        program@.len() as int
                    } else {
                        old(self)@.len() - offset
                    },
                ),
            ),
    {
        proof {
            use_type_invariant(&*self);
        }
        let total = self.data.len();
        let end = if offset + program.len() < total {
            offset + program.len()
        } else {
            total
        };
        let len = end - offset;
        let ghost old_data = self.data@;
        let mut i: usize = 0;
        while i < len
            invariant
                i <= len,
                len == end - offset,
                end <= total,
                total == old_data.len(),
                total == MEMORY_SIZE,
                len <= program@.len(),
                self.data@ == write_bytes(old_data, offset as int, program@.take(i as int)),
            decreases len - i,
        {
            self.data[offset + i] = program[i];
            i = i + 1;
            assert(self.data@ =~= write_bytes(old_data, offset as int, program@.take(i as int)));
        }
    }

    /// The byte at `addr`; addresses past the end read as zero.
    pub fn read_byte(&self, addr: usize) -> (b: u8)
        ensures
            b == byte_at(self@, addr as int),
            self@.len() == MEMORY_SIZE,
    {
        proof {
            use_type_invariant(self);
        }
        if addr < self.data.len() {
            self.data[addr]
        } else {
            0
        }
    }

    /// Stores `val` at `addr`; a write past the end is ignored.
    pub fn write_byte(&mut self, addr: usize, val: u8)
        ensures
            final(self)@ == write_bytes(old(self)@, addr as int, seq![val]),
            final(self)@.len() == MEMORY_SIZE,
    {
        proof {
            use_type_invariant(&*self);
        }
        if addr < self.data.len() {
            self.data[addr] = val;
        }
        assert(self@ =~= write_bytes(old(self)@, addr as int, seq![val]));
    }

    /// The little-endian word at `addr`; `addr + 7` must not overflow.
    /// Bytes past the end of memory read as zero.
    pub fn read_u64(&self, addr: usize) -> (v: u64)
        requires
            addr <= usize::MAX - 7,
        ensures
            v == u64_from_le(window(self@, addr as int)),
            self@.len() == MEMORY_SIZE,
    {
        proof {
            reveal(u64_from_le);
            use_type_invariant(self);
        }
        let b0 = self.read_at(addr, 0);
        let b1 = self.read_at(addr, 1);
        let b2 = self.read_at(addr, 2);
        let b3 = self.read_at(addr, 3);
        let b4 = self.read_at(addr, 4);
        let b5 = self.read_at(addr, 5);
        let b6 = self.read_at(addr, 6);
        let b7 = self.read_at(addr, 7);
        (b0 as u64) | ((b1 as u64) << 8u64) | ((b2 as u64) << 16u64) | ((b3 as u64) << 24u64) | ((
        b4 as u64) << 32u64) | ((b5 as u64) << 40u64) | ((b6 as u64) << 48u64) | ((b7 as u64)
            << 56u64)
    }

    /// The byte at `addr + k`, computed without overflow.
    fn read_at(&self, addr: usize, k: usize) -> (b: u8)
        requires
            k < 8,
        ensures
            b == byte_at(self@, addr + k),
    {
        if addr < self.data.len() && k < self.data.len() - addr {
            self.data[addr + k]
        } else {
            0
        }
    }

    /// Stores the eight little-endian bytes of `val` from `addr` on; bytes
    /// past the end are dropped; `addr + 7` must not overflow.
    pub fn write_u64(&mut self, addr: usize, val: u64)
        requires
            addr <= usize::MAX - 7,
        ensures
            final(self)@ == write_bytes(old(self)@, addr as int, u64_to_le(val)),
            final(self)@.len() == MEMORY_SIZE,
            addr + 8 <= MEMORY_SIZE ==> u64_from_le(window(final(self)@, addr as int)) == val,
    {
        proof {
            use_type_invariant(&*self);
            if addr + 8 <= MEMORY_SIZE {
                lemma_read_after_write(self@, addr as int, val);
            }
        }
        store_u64_le(&mut self.data, addr, val);
    }

    /// All bytes of memory.
    pub fn as_slice(&self) -> (s: &[u8])
        ensures
            s@ == self@,
            s@.len() == MEMORY_SIZE,
    {
        proof {
            use_type_invariant(self);
        }
        self.data.as_slice()
    }
}

impl Default for Memory {
    fn default() -> (m: Self)
        ensures
            m@ == Seq::new(MEMORY_SIZE as nat, |i: int| 0u8),
    {
        Self::new()
    }
}

} // verus!
