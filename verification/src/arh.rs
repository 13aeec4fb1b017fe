//! The archive header: a fixed binary layout holding, per member file, a
//! 64-bit name hash and its sizes. Member byte offsets in the data file are
//! not stored; they are reconstructed by rounding each member's on-disk size
//! up to the archive's alignment and summing.
//!
//! Layout, little-endian throughout:
//! - offset 0: 4-byte magic tag (ASCII "arh2")
//! - offset 4: 4-byte member count N
//! - offset 8: 4-byte alignment (a power of two)
//! - offset 12: 4-byte reserved field
//! - offset 16: N entries of 16 bytes each: 8-byte name hash, 4-byte on-disk
//!   size, 4-byte logical size (zero meaning "stored raw").

use vstd::prelude::*;
use vstd::arithmetic::power2::{pow2, lemma_pow2_adds, lemma_pow2_strictly_increases, lemma2_to64};
use vstd::arithmetic::div_mod::{lemma_fundamental_div_mod, lemma_fundamental_div_mod_converse};
use vstd::bytes::{spec_u32_from_le_bytes, spec_u64_from_le_bytes, spec_u32_to_le_bytes, spec_u64_to_le_bytes, u32_to_le_bytes, u64_to_le_bytes, lemma_auto_spec_u32_to_from_le_bytes, lemma_auto_spec_u64_to_from_le_bytes};
use crate::read_binary::{ReadBinary, ByteReader};

verus! {

/// How reading a header can fail: `ReadError` when the byte source ends
/// before the declared entries are fully read, `FormatError` when the magic
/// tag is wrong or the alignment is not a power of two.
#[derive(Clone, Copy, Debug, PartialEq, Eq, Structural)]
pub enum ArhError {
    ReadError,
    FormatError,
}

/// The magic tag: ASCII "arh2" read as a little-endian `u32`.
pub const ARH_MAGIC: u32 = 0x32687261;

/// True when `a` is 2^k for some k < 32.
pub open spec fn is_alignment(a: u32) -> bool {
    exists|k: nat| k < 32 && a == pow2(k)
}

/// Rounds `x` up to the next multiple of `a`.
pub open spec fn round_up(x: int, a: int) -> int
    recommends
        a >= 1,
{
    ((x + a - 1) / a) * a
}

/// A power of two below 2^32 is at least 1.
pub proof fn lemma_alignment_pos(a: u32)
    requires
        is_alignment(a),
    ensures
        a >= 1,
{
    let k = choose|k: nat| k < 32 && a == pow2(k);
    vstd::arithmetic::power2::lemma_pow2_pos(k);
}

/// A power of two below 2^32 divides 2^32.
pub proof fn lemma_alignment_divides(a: u32)
    requires
        is_alignment(a),
    ensures
        a >= 1,
        0x100000000int % (a as int) == 0,
        (0x100000000int / (a as int)) * (a as int) == 0x100000000,
{
    lemma_alignment_pos(a);
    let k = choose|k: nat| k < 32 && a == pow2(k);
    lemma_pow2_adds(k, (32 - k) as nat);
    lemma2_to64();
    assert(pow2(32) == 0x100000000);
    let m = pow2((32 - k) as nat) as int;
    assert(pow2(32) == pow2(k) * pow2((32 - k) as nat));
    assert(m * (a as int) == 0x100000000) by (nonlinear_arith)
        requires
            (a as int) * m == 0x100000000,
    ;
    lemma_fundamental_div_mod_converse(0x100000000int, a as int, m, 0);
}

/// Basic facts of alignment rounding: the result is a multiple of `a`, is at
/// least `x`, and stays within 2^32 for a 32-bit `x`.
pub proof fn lemma_round_up_props(x: int, a: u32)
    requires
        0 <= x < 0x100000000,
        is_alignment(a),
    ensures
        round_up(x, a as int) % (a as int) == 0,
        x <= round_up(x, a as int) <= 0x100000000,
        round_up(x, a as int) < x + a,
{
    lemma_alignment_divides(a);
    let ai = a as int;
    let q = (x + ai - 1) / ai;
    let r = (x + ai - 1) % ai;
    lemma_fundamental_div_mod(x + ai - 1, ai);
    assert(x + ai - 1 == ai * q + r);
    assert(q * ai == ai * q) by (nonlinear_arith);
    assert(round_up(x, ai) == q * ai);
    assert((q * ai) % ai == 0) by {
        vstd::arithmetic::div_mod::lemma_mod_multiples_basic(q, ai);
    }
    let m = 0x100000000int / ai;
    assert(m * ai == 0x100000000);
    assert(q * ai == x + ai - 1 - r);
    assert(q * ai <= x + ai - 1);
    assert(q * ai >= x);
    assert(q * ai < (m + 1) * ai) by (nonlinear_arith)
        requires
            q * ai <= x + ai - 1,
            x < 0x100000000,
            m * ai == 0x100000000,
            ai >= 1,
    ;
    assert(q <= m) by (nonlinear_arith)
        requires
            q * ai < (m + 1) * ai,
            ai >= 1,
    ;
    assert(q * ai <= m * ai) by (nonlinear_arith)
        requires
            q <= m,
            ai >= 1,
    ;
}

/// Decides whether `a` is a power of two.
pub fn is_power_of_two(a: u32) -> (b: bool)
    ensures
        b == is_alignment(a),
{
    let mut p: u64 = 1;
    let mut k: u64 = 0;
    proof {
        lemma2_to64();
    }
    while k < 32
        invariant
            0 <= k <= 32,
            p == pow2(k as nat),
            p <= 0x100000000,
            forall|j: nat| j < k ==> a != pow2(j),
        decreases 32 - k,
    {
        if a as u64 == p {
            proof {
                assert(a == pow2(k as nat));
            }
            return true;
        }
        proof {
            lemma_pow2_adds(k as nat, 1);
            lemma2_to64();
            assert(pow2((k + 1) as nat) == pow2(k as nat) * 2) by (nonlinear_arith)
                requires
                    pow2((k + 1) as nat) == pow2(k as nat) * pow2(1),
                    pow2(1) == 2,
            ;
            if k + 1 < 32 {
                lemma_pow2_strictly_increases((k + 1) as nat, 32);
            }
            assert(pow2(32) == 0x100000000);
        }
        p = p * 2;
        k = k + 1;
    }
    false
}

/// Sum of the alignment-rounded sizes of a run of members: the byte length
/// that the run occupies in the data file.
pub open spec fn offset_sum(sizes: Seq<u32>, a: int) -> int
    decreases sizes.len(),
{
    if sizes.len() == 0 {
        0
    } else {
        offset_sum(sizes.drop_last(), a) + round_up(sizes.last() as int, a)
    }
}

/// The sum of rounded sizes is nonnegative and bounded by count * 2^32,
/// and every prefix sum is a multiple of the alignment.
pub proof fn lemma_offset_sum_props(sizes: Seq<u32>, a: u32)
    requires
        is_alignment(a),
    ensures
        0 <= offset_sum(sizes, a as int) <= sizes.len() * 0x100000000,
        offset_sum(sizes, a as int) % (a as int) == 0,
    decreases sizes.len(),
{
    lemma_alignment_pos(a);
    if sizes.len() == 0 {
        vstd::arithmetic::div_mod::lemma_mod_multiples_basic(0, a as int);
    } else {
        lemma_offset_sum_props(sizes.drop_last(), a);
        lemma_round_up_props(sizes.last() as int, a);
        assert((sizes.len() - 1) * 0x100000000 + 0x100000000 == sizes.len() * 0x100000000)
            by (nonlinear_arith);
        vstd::arithmetic::div_mod::lemma_mod_multiples_basic(0, a as int);
        vstd::arithmetic::div_mod::lemma_add_mod_noop(
            offset_sum(sizes.drop_last(), a as int),
            round_up(sizes.last() as int, a as int),
            a as int,
        );
    }
}

/// The mathematical value of one member descriptor.
#[verifier::ext_equal]
pub struct DescView {
    pub filename_hash: u64,
    pub disk_size: u32,
    pub file_size: u32,
    pub file_pos: u64,
    pub filename: Seq<char>,
}

/// The mathematical value of a parsed header.
#[verifier::ext_equal]
pub struct ArhView {
    pub magic: u32,
    pub file_count: u32,
    pub alignment: u32,
    pub unk_2: u32,
    pub file_descriptors: Seq<DescView>,
}

/// One archive member: its name hash, sizes, derived data-file offset, and
/// the resolved name when one has been supplied (empty until then).
pub struct ArhFileDescriptor {
    pub filename_hash: u64,
    pub disk_size: u32,
    pub file_size: u32,
    pub file_pos: u64,
    pub filename: String,
}

impl View for ArhFileDescriptor {
    type V = DescView;

    open spec fn view(&self) -> DescView {
        DescView {
            filename_hash: self.filename_hash,
            disk_size: self.disk_size,
            file_size: self.file_size,
            file_pos: self.file_pos,
            filename: self.filename@,
        }
    }
}

/// A parsed archive header: the four header scalars and the member
/// descriptors in on-disk order.
pub struct Arh {
    pub magic: u32,
    pub file_count: u32,
    pub alignment: u32,
    pub unk_2: u32,
    pub file_descriptors: Vec<ArhFileDescriptor>,
}

impl View for Arh {
    type V = ArhView;

    open spec fn view(&self) -> ArhView {
        ArhView {
            magic: self.magic,
            file_count: self.file_count,
            alignment: self.alignment,
            unk_2: self.unk_2,
            file_descriptors: self.file_descriptors@.map_values(|d: ArhFileDescriptor| d@),
        }
    }
}

/// Byte offset of entry `i` within the header file.
pub open spec fn entry_base(i: int) -> int {
    16 + 16 * i
}

/// The on-disk sizes of the first `n` entries, as stored in the header bytes.
pub open spec fn spec_entry_sizes(bytes: Seq<u8>, n: int) -> Seq<u32>
    recommends
        0 <= n,
{
    Seq::new(n as nat, |i: int| spec_u32_from_le_bytes(bytes.subrange(entry_base(i) + 8, entry_base(i) + 12)))
}

/// Entry `i` as parsed from the header bytes: its stored fields, its derived
/// offset (the rounded sizes of all earlier entries summed), and no name.
pub open spec fn spec_desc(bytes: Seq<u8>, a: u32, i: int) -> DescView {
    DescView {
        filename_hash: spec_u64_from_le_bytes(bytes.subrange(entry_base(i), entry_base(i) + 8)),
        disk_size: spec_u32_from_le_bytes(bytes.subrange(entry_base(i) + 8, entry_base(i) + 12)),
        file_size: spec_u32_from_le_bytes(bytes.subrange(entry_base(i) + 12, entry_base(i) + 16)),
        file_pos: offset_sum(spec_entry_sizes(bytes, i), a as int) as u64,
        filename: Seq::empty(),
    }
}

/// What parsing a header byte sequence yields: the header value, or
/// `ReadError` when the bytes end before the declared entries do, or
/// `FormatError` when the magic tag is wrong or the alignment is not a
/// power of two (in particular when it is zero).
pub open spec fn spec_parse(bytes: Seq<u8>) -> Result<ArhView, ArhError> {
    if bytes.len() < 16 {
        Err(ArhError::ReadError)
    } else {
        let magic = spec_u32_from_le_bytes(bytes.subrange(0, 4));
        let n = spec_u32_from_le_bytes(bytes.subrange(4, 8));
        let a = spec_u32_from_le_bytes(bytes.subrange(8, 12));
        let unk = spec_u32_from_le_bytes(bytes.subrange(12, 16));
        if magic != ARH_MAGIC {
            Err(ArhError::FormatError)
        } else if !is_alignment(a) {
            Err(ArhError::FormatError)
        } else if bytes.len() < 16 + 16 * n {
            Err(ArhError::ReadError)
        } else {
            Ok(
                ArhView {
                    magic,
                    file_count: n,
                    alignment: a,
                    unk_2: unk,
                    file_descriptors: Seq::new(n as nat, |i: int| spec_desc(bytes, a, i)),
                },
            )
        }
    }
}

impl Arh {
    /// An empty header: all scalars zero, no descriptors.
    pub fn create() -> (r: Arh)
        ensures
            r@ == (ArhView {
                magic: 0,
                file_count: 0,
                alignment: 0,
                unk_2: 0,
                file_descriptors: Seq::<DescView>::empty(),
            }),
    {
        let r = Arh {
            magic: 0,
            file_count: 0,
            alignment: 0,
            unk_2: 0,
            file_descriptors: Vec::new(),
        };
        proof {
            assert(r@.file_descriptors =~= Seq::<DescView>::empty());
            assert(r@ =~= (ArhView {
                magic: 0,
                file_count: 0,
                alignment: 0,
                unk_2: 0,
                file_descriptors: Seq::<DescView>::empty(),
            }));
        }
        r
    }

    /// Parses `bytes` as a header file, replacing this header's contents on
    /// success and leaving them untouched on failure.
    pub fn read(&mut self, bytes: &[u8]) -> (r: Result<(), ArhError>)
        ensures
            match spec_parse(bytes@) {
                Ok(v) => r is Ok && final(self)@ == v,
                Err(e) => r == Result::<(), ArhError>::Err(e) && final(self)@ == old(self)@,
            },
    {
        let mut reader = ByteReader::new(bytes);
        let mut magic: u32 = 0;
        let mut file_count: u32 = 0;
        let mut alignment: u32 = 0;
        let mut unk_2: u32 = 0;
        if reader.read_le_u32(&mut magic).is_err() {
            return Err(ArhError::ReadError);
        }
        if reader.read_le_u32(&mut file_count).is_err() {
            return Err(ArhError::ReadError);
        }
        if reader.read_le_u32(&mut alignment).is_err() {
            return Err(ArhError::ReadError);
        }
        if reader.read_le_u32(&mut unk_2).is_err() {
            return Err(ArhError::ReadError);
        }
        if magic != ARH_MAGIC {
            return Err(ArhError::FormatError);
        }
        if !is_power_of_two(alignment) {
            return Err(ArhError::FormatError);
        }
        if (bytes.len() as u64) < 16 + 16 * (file_count as u64) {
            return Err(ArhError::ReadError);
        }
        let mut descs: Vec<ArhFileDescriptor> = Vec::new();
        let mut cur_pos: u64 = 0;
        let mut i: u32 = 0;
        while i < file_count
            invariant
                reader.bytes() == bytes@,
                reader.cursor() == 16 + 16 * (i as nat),
                bytes@.len() >= 16 + 16 * (file_count as int),
                i <= file_count,
                is_alignment(alignment),
                cur_pos == offset_sum(spec_entry_sizes(bytes@, i as int), alignment as int),
                cur_pos <= (i as int) * 0x100000000,
                descs@.len() == i as int,
                forall|j: int|
                    0 <= j < i as int ==> descs@.map_values(|d: ArhFileDescriptor| d@)[j]
                        == spec_desc(bytes@, alignment, j),
            decreases file_count - i,
        {
            let mut next_filename_hash: u64 = 0;
            let mut next_disk_size: u32 = 0;
            let mut next_file_size: u32 = 0;
            proof {
                assert(16 + 16 * (i as int) + 16 <= 16 + 16 * (file_count as int))
                    by (nonlinear_arith)
                    requires
                        i < file_count,
                ;
            }
            let r1 = reader.read_le_u64(&mut next_filename_hash);
            let r2 = reader.read_le_u32(&mut next_disk_size);
            let r3 = reader.read_le_u32(&mut next_file_size);
            let fd = ArhFileDescriptor {
                filename_hash: next_filename_hash,
                disk_size: next_disk_size,
                file_size: next_file_size,
                file_pos: cur_pos,
                filename: String::new(),
            };
            proof {
                lemma_round_up_props(next_disk_size as int, alignment);
                lemma_alignment_pos(alignment);
                assert(fd@ =~= spec_desc(bytes@, alignment, i as int));
                assert(spec_entry_sizes(bytes@, i as int + 1).drop_last() =~= spec_entry_sizes(
                    bytes@,
                    i as int,
                ));
                assert((i as int) * 0x100000000 + 0x100000000 == (i as int + 1) * 0x100000000)
                    by (nonlinear_arith);
                assert((i as int + 1) * 0x100000000 <= 0xFFFFFFFFint * 0x100000000)
                    by (nonlinear_arith)
                    requires
                        i as int + 1 <= 0xFFFFFFFF,
                ;
            }
            let xu: u64 = next_disk_size as u64;
            let au: u64 = alignment as u64;
            let rounded: u64 = ((xu + au - 1) / au) * au;
            cur_pos = cur_pos + rounded;
            descs.push(fd);
            i = i + 1;
        }
        let header = Arh { magic, file_count, alignment, unk_2, file_descriptors: descs };
        proof {
            let v = spec_parse(bytes@).unwrap();
            assert(header@.file_descriptors =~= v.file_descriptors);
            assert(header@ =~= v);
        }
        *self = header;
        Ok(())
    }
}

/// Offset reconstruction, stated of every header that parses: the first
/// member sits at offset 0, each later member sits at the previous member's
/// offset plus its alignment-rounded on-disk size, and every offset is a
/// multiple of the alignment.
pub proof fn lemma_offset_reconstruction(bytes: Seq<u8>)
    requires
        spec_parse(bytes) is Ok,
    ensures
        spec_parse(bytes).unwrap().file_descriptors.len() == spec_parse(
            bytes,
        ).unwrap().file_count,
        spec_parse(bytes).unwrap().file_count > 0 ==> spec_parse(
            bytes,
        ).unwrap().file_descriptors[0].file_pos == 0,
        forall|i: int|
            1 <= i < spec_parse(bytes).unwrap().file_descriptors.len()
                ==> #[trigger] spec_parse(bytes).unwrap().file_descriptors[i].file_pos as int
                == spec_parse(bytes).unwrap().file_descriptors[i - 1].file_pos as int + round_up(
                spec_parse(bytes).unwrap().file_descriptors[i - 1].disk_size as int,
                spec_parse(bytes).unwrap().alignment as int,
            ),
        forall|i: int|
            0 <= i < spec_parse(bytes).unwrap().file_descriptors.len()
                ==> #[trigger] spec_parse(bytes).unwrap().file_descriptors[i].file_pos as int
                % (spec_parse(bytes).unwrap().alignment as int) == 0,
{
    let v = spec_parse(bytes).unwrap();
    let a = v.alignment;
    let n = v.file_descriptors.len() as int;
    assert forall|i: int| 0 <= i < n implies {
        &&& #[trigger] v.file_descriptors[i].file_pos as int == offset_sum(
            spec_entry_sizes(bytes, i),
            a as int,
        )
        &&& v.file_descriptors[i].file_pos as int % (a as int) == 0
    } by {
        lemma_offset_sum_props(spec_entry_sizes(bytes, i), a);
        assert((i as int) * 0x100000000 <= 0xFFFFFFFFint * 0x100000000) by (nonlinear_arith)
            requires
                i <= 0xFFFFFFFF,
        ;
    }
    assert forall|i: int| 1 <= i < n implies #[trigger] v.file_descriptors[i].file_pos as int
        == v.file_descriptors[i - 1].file_pos as int + round_up(
        v.file_descriptors[i - 1].disk_size as int,
        a as int,
    ) by {
        let s = spec_entry_sizes(bytes, i);
        assert(s.drop_last() =~= spec_entry_sizes(bytes, i - 1));
        assert(s.last() == v.file_descriptors[i - 1].disk_size);
    }
}

/// Parsing is a function of the bytes alone: equal header bytes parse to
/// equal headers, offsets included.
pub proof fn lemma_parse_deterministic(b1: Seq<u8>, b2: Seq<u8>)
    requires
        b1 == b2,
    ensures
        spec_parse(b1) == spec_parse(b2),
{
}

/// The 16 bytes of one entry as the header file stores it.
pub open spec fn spec_desc_bytes(d: DescView) -> Seq<u8> {
    spec_u64_to_le_bytes(d.filename_hash) + spec_u32_to_le_bytes(d.disk_size)
        + spec_u32_to_le_bytes(d.file_size)
}

/// The entry table as the header file stores it.
pub open spec fn spec_descs_bytes(descs: Seq<DescView>) -> Seq<u8>
    decreases descs.len(),
{
    if descs.len() == 0 {
        Seq::empty()
    } else {
        spec_descs_bytes(descs.drop_last()) + spec_desc_bytes(descs.last())
    }
}

/// The whole header file as serialized from a header value.
pub open spec fn spec_serialize(v: ArhView) -> Seq<u8> {
    spec_u32_to_le_bytes(v.magic) + spec_u32_to_le_bytes(v.file_count) + spec_u32_to_le_bytes(
        v.alignment,
    ) + spec_u32_to_le_bytes(v.unk_2) + spec_descs_bytes(v.file_descriptors)
}

impl Arh {
    /// Serializes this header back into the exact on-disk byte layout.
    pub fn write_header(&self) -> (out: Vec<u8>)
        ensures
            out@ == spec_serialize(self@),
    {
        proof {
            lemma_auto_spec_u32_to_from_le_bytes();
            lemma_auto_spec_u64_to_from_le_bytes();
        }
        let mut out = u32_to_le_bytes(self.magic);
        let mut piece = u32_to_le_bytes(self.file_count);
        out.append(&mut piece);
        let mut piece = u32_to_le_bytes(self.alignment);
        out.append(&mut piece);
        let mut piece = u32_to_le_bytes(self.unk_2);
        out.append(&mut piece);
        let ghost head: Seq<u8> = out@;
        let ghost descs = self@.file_descriptors;
        let mut i: usize = 0;
        while i < self.file_descriptors.len()
            invariant
                descs == self@.file_descriptors,
                descs.len() == self.file_descriptors.len(),
                i <= self.file_descriptors.len(),
                head == spec_u32_to_le_bytes(self.magic) + spec_u32_to_le_bytes(self.file_count)
                    + spec_u32_to_le_bytes(self.alignment) + spec_u32_to_le_bytes(self.unk_2),
                out@ == head + spec_descs_bytes(descs.take(i as int)),
            decreases self.file_descriptors.len() - i,
        {
            let mut piece8 = u64_to_le_bytes(self.file_descriptors[i].filename_hash);
            out.append(&mut piece8);
            let mut piece = u32_to_le_bytes(self.file_descriptors[i].disk_size);
            out.append(&mut piece);
            let mut piece = u32_to_le_bytes(self.file_descriptors[i].file_size);
            out.append(&mut piece);
            proof {
                assert(descs.take(i as int + 1).drop_last() =~= descs.take(i as int));
                assert(descs.take(i as int + 1).last() == descs[i as int]);
                assert(out@ =~= head + spec_descs_bytes(descs.take(i as int + 1)));
            }
            i = i + 1;
        }
        proof {
            assert(descs.take(descs.len() as int) =~= descs);
        }
        out
    }
}

/// Round trip: a header file of exactly the declared length, parsed and then
/// serialized again, comes back byte-identical.
pub proof fn lemma_parse_then_serialize(bytes: Seq<u8>)
    requires
        spec_parse(bytes) is Ok,
        bytes.len() == 16 + 16 * (spec_parse(bytes).unwrap().file_count as int),
    ensures
        spec_serialize(spec_parse(bytes).unwrap()) == bytes,
{
    lemma_auto_spec_u32_to_from_le_bytes();
    lemma_auto_spec_u64_to_from_le_bytes();
    let v = spec_parse(bytes).unwrap();
    let n = v.file_descriptors.len() as int;
    assert(spec_u32_to_le_bytes(v.magic) == bytes.subrange(0, 4));
    assert(spec_u32_to_le_bytes(v.file_count) == bytes.subrange(4, 8));
    assert(spec_u32_to_le_bytes(v.alignment) == bytes.subrange(8, 12));
    assert(spec_u32_to_le_bytes(v.unk_2) == bytes.subrange(12, 16));
    lemma_descs_bytes_exact(bytes, v, n);
    assert(v.file_descriptors.take(n) =~= v.file_descriptors);
    assert(spec_serialize(v) =~= bytes);
}

/// The serialized entry table of the first `i` parsed entries is exactly the
/// corresponding run of the header bytes.
proof fn lemma_descs_bytes_exact(bytes: Seq<u8>, v: ArhView, i: int)
    requires
        spec_parse(bytes) == Ok::<ArhView, ArhError>(v),
        0 <= i <= v.file_descriptors.len(),
    ensures
        spec_descs_bytes(v.file_descriptors.take(i)) == bytes.subrange(16, 16 + 16 * i),
    decreases i,
{
    lemma_auto_spec_u32_to_from_le_bytes();
    lemma_auto_spec_u64_to_from_le_bytes();
    if i == 0 {
        assert(spec_descs_bytes(v.file_descriptors.take(0)) =~= bytes.subrange(16, 16));
    } else {
        lemma_descs_bytes_exact(bytes, v, i - 1);
        let d = v.file_descriptors[i - 1];
        let b = entry_base(i - 1);
        assert(d == spec_desc(bytes, v.alignment, i - 1));
        assert(spec_u64_to_le_bytes(d.filename_hash) == bytes.subrange(b, b + 8));
        assert(spec_u32_to_le_bytes(d.disk_size) == bytes.subrange(b + 8, b + 12));
        assert(spec_u32_to_le_bytes(d.file_size) == bytes.subrange(b + 12, b + 16));
        assert(v.file_descriptors.take(i).drop_last() =~= v.file_descriptors.take(i - 1));
        assert(v.file_descriptors.take(i).last() == d);
        assert(spec_descs_bytes(v.file_descriptors.take(i)) =~= bytes.subrange(16, 16 + 16 * i));
    }
}

/// The 64-bit hash of a member name: what xxHash64 with seed 0 returns for
/// the name's UTF-8 bytes. A function of the characters alone.
pub uninterp spec fn name_hash(s: Seq<char>) -> u64;

/// Relies on xxhash_rust::xxh64::xxh64: computes the xxHash64 (seed 0) of
/// the name's UTF-8 bytes, a value depending on those bytes alone.
#[verifier::external_body]
fn hash_of_name(s: &str) -> (h: u64)
    ensures
        h == name_hash(s@),
{
    xxhash_rust::xxh64::xxh64(s.as_bytes(), 0)
}

/// Relies on str's PartialEq: two string slices compare equal exactly when
/// their character sequences are equal.
#[verifier::external_body]
fn str_eq(a: &str, b: &str) -> (r: bool)
    ensures
        r == (a@ == b@),
{
    a == b
}

/// A lookup for `name` stops at this descriptor: either it was already
/// resolved to `name`, or its stored hash is the hash of `name`.
pub open spec fn desc_matches(d: DescView, name: Seq<char>) -> bool {
    d.filename == name || d.filename_hash == name_hash(name)
}

/// The index of the first descriptor a lookup for `name` stops at, if any.
pub open spec fn spec_find_index(descs: Seq<DescView>, name: Seq<char>) -> Option<int>
    decreases descs.len(),
{
    if descs.len() == 0 {
        None
    } else if desc_matches(descs[0], name) {
        Some(0)
    } else {
        match spec_find_index(descs.skip(1), name) {
            Some(i) => Some(i + 1),
            None => None,
        }
    }
}

/// A scan that found no match before `i` finds the first match at `i`, and
/// one that ran off the end found none.
proof fn lemma_find_index_prefix(descs: Seq<DescView>, name: Seq<char>, i: int)
    requires
        0 <= i <= descs.len(),
        forall|j: int| 0 <= j < i ==> !desc_matches(#[trigger] descs[j], name),
    ensures
        i < descs.len() && desc_matches(descs[i], name) ==> spec_find_index(descs, name)
            == Some(i),
        i == descs.len() ==> spec_find_index(descs, name) is None,
    decreases i,
{
    if i == 0 {
    } else {
        let rest = descs.skip(1);
        assert(!desc_matches(descs[0], name));
        assert(forall|j: int| 0 <= j < i - 1 ==> !desc_matches(#[trigger] rest[j], name));
        lemma_find_index_prefix(rest, name, i - 1);
        if i < descs.len() {
            assert(rest[i - 1] == descs[i]);
        }
    }
}

/// A found lookup index lies within the descriptor table.
pub proof fn lemma_find_index_in_range(descs: Seq<DescView>, name: Seq<char>)
    ensures
        spec_find_index(descs, name) is Some ==> 0 <= spec_find_index(descs, name).unwrap()
            < descs.len(),
    decreases descs.len(),
{
    if descs.len() > 0 && !desc_matches(descs[0], name) {
        lemma_find_index_in_range(descs.skip(1), name);
    }
}

impl Arh {
    /// Looks `filename` up among the descriptors: the first one already
    /// resolved to that name, or whose stored hash is the hash of that name,
    /// is returned by index, its resolved name set to `filename`. Returns
    /// `None`, changing nothing, when no descriptor matches. The first hash
    /// match is trusted to be the unique one; hashes are assumed not to
    /// collide within one archive.
    pub fn find_file_by_name(&mut self, filename: &str) -> (r: Option<usize>)
        ensures
            match spec_find_index(old(self)@.file_descriptors, filename@) {
                None => r is None && final(self)@ == old(self)@,
                Some(k) => {
                    &&& r is Some
                    &&& r.unwrap() as int == k
                    &&& final(self)@ == (ArhView {
                        file_descriptors: old(self)@.file_descriptors.update(
                            k,
                            DescView {
                                filename: filename@,
                                ..old(self)@.file_descriptors[k]
                            },
                        ),
                        ..old(self)@
                    })
                },
            },
    {
        let ghost descs0 = self@.file_descriptors;
        let hash = hash_of_name(filename);
        let mut i: usize = 0;
        let n = self.file_descriptors.len();
        while i < n
            invariant
                n == self.file_descriptors.len(),
                i <= n,
                self@.file_descriptors == descs0,
                self@ == old(self)@,
                hash == name_hash(filename@),
                forall|j: int| 0 <= j < i ==> !desc_matches(#[trigger] descs0[j], filename@),
            decreases n - i,
        {
            if str_eq(self.file_descriptors[i].filename.as_str(), filename) {
                proof {
                    lemma_find_index_prefix(descs0, filename@, i as int);
                    assert(descs0.update(
                        i as int,
                        DescView { filename: filename@, ..descs0[i as int] },
                    ) =~= descs0);
                    assert(final(self)@ =~= (ArhView {
                        file_descriptors: descs0.update(
                            i as int,
                            DescView { filename: filename@, ..descs0[i as int] },
                        ),
                        ..old(self)@
                    }));
                }
                return Some(i);
            }
            if self.file_descriptors[i].filename_hash == hash {
                let resolved = ArhFileDescriptor {
                    filename_hash: self.file_descriptors[i].filename_hash,
                    disk_size: self.file_descriptors[i].disk_size,
                    file_size: self.file_descriptors[i].file_size,
                    file_pos: self.file_descriptors[i].file_pos,
                    filename: filename.to_owned(),
                };
                self.file_descriptors.set(i, resolved);
                proof {
                    lemma_find_index_prefix(descs0, filename@, i as int);
                    assert(final(self)@.file_descriptors =~= descs0.update(
                        i as int,
                        DescView { filename: filename@, ..descs0[i as int] },
                    ));
                    assert(final(self)@ =~= (ArhView {
                        file_descriptors: descs0.update(
                            i as int,
                            DescView { filename: filename@, ..descs0[i as int] },
                        ),
                        ..old(self)@
                    }));
                }
                return Some(i);
            }
            i = i + 1;
        }
        proof {
            lemma_find_index_prefix(descs0, filename@, n as int);
        }
        None
    }
}

/// The name a bulk resolution assigns to hash `h`: the last candidate in the
/// list whose hash is `h` (later candidates win on a collision), if any.
pub open spec fn spec_lookup_name(names: Seq<Seq<char>>, h: u64) -> Option<Seq<char>>
    decreases names.len(),
{
    if names.len() == 0 {
        None
    } else if name_hash(names.last()) == h {
        Some(names.last())
    } else {
        spec_lookup_name(names.drop_last(), h)
    }
}

/// What bulk resolution does to one descriptor: assigns the candidate name
/// mapped to its hash, or leaves it as it is when no candidate hashes to it.
pub open spec fn spec_resolve_desc(d: DescView, names: Seq<Seq<char>>) -> DescView {
    match spec_lookup_name(names, d.filename_hash) {
        Some(n) => DescView { filename: n, ..d },
        None => d,
    }
}

/// How many descriptors a bulk resolution resolves: those whose hash some
/// candidate name hashes to.
pub open spec fn spec_num_resolved(descs: Seq<DescView>, names: Seq<Seq<char>>) -> int
    decreases descs.len(),
{
    if descs.len() == 0 {
        0
    } else {
        spec_num_resolved(descs.drop_last(), names) + if spec_lookup_name(
            names,
            descs.last().filename_hash,
        ) is Some {
            1int
        } else {
            0int
        }
    }
}

impl Arh {
    /// Bulk resolution: hashes every candidate name and assigns to each
    /// descriptor whose stored hash matches a candidate's hash that
    /// candidate as its resolved name, overwriting any earlier resolution.
    /// Among candidates with equal hashes the last one wins. Returns how
    /// many descriptors were resolved. Never fails; the candidate list may
    /// be longer or shorter than the descriptor table.
    pub fn supply_filenames(&mut self, filenames: &Vec<String>) -> (count: usize)
        ensures
            final(self)@ == (ArhView {
                file_descriptors: old(self)@.file_descriptors.map_values(
                    (|d: DescView| spec_resolve_desc(d, filenames.deep_view())),
                ),
                ..old(self)@
            }),
            count == spec_num_resolved(old(self)@.file_descriptors, filenames.deep_view()),
    {
        broadcast use vstd::std_specs::hash::group_hash_axioms;

        let ghost names = filenames.deep_view();
        let mut hashes: std::collections::HashMap<u64, usize> = std::collections::HashMap::new();
        let mut j: usize = 0;
        while j < filenames.len()
            invariant
                j <= filenames.len(),
                names == filenames.deep_view(),
                names.len() == filenames.len(),
                forall|h: u64| #[trigger]
                    hashes@.contains_key(h) <==> spec_lookup_name(names.take(j as int), h)
                        is Some,
                forall|h: u64| #[trigger]
                    hashes@.contains_key(h) ==> hashes@[h] < j && names[hashes@[h] as int]
                        == spec_lookup_name(names.take(j as int), h).unwrap(),
            decreases filenames.len() - j,
        {
            let h = hash_of_name(filenames[j].as_str());
            hashes.insert(h, j);
            proof {
                assert(filenames[j as int]@ == names[j as int]);
                let longer = names.take(j as int + 1);
                assert(longer.drop_last() =~= names.take(j as int));
                assert(longer.last() == names[j as int]);
            }
            j = j + 1;
        }
        proof {
            assert(names.take(names.len() as int) =~= names);
        }
        let ghost descs0 = self@.file_descriptors;
        let mut count: usize = 0;
        let mut i: usize = 0;
        let n = self.file_descriptors.len();
        while i < n
            invariant
                n == self.file_descriptors.len(),
                i <= n,
                count <= i,
                names == filenames.deep_view(),
                descs0 == old(self)@.file_descriptors,
                descs0.len() == n,
                self@.magic == old(self)@.magic,
                self@.file_count == old(self)@.file_count,
                self@.alignment == old(self)@.alignment,
                self@.unk_2 == old(self)@.unk_2,
                self@.file_descriptors.len() == n,
                forall|h: u64| #[trigger]
                    hashes@.contains_key(h) <==> spec_lookup_name(names, h) is Some,
                forall|h: u64| #[trigger]
                    hashes@.contains_key(h) ==> hashes@[h] < filenames.len() && names[hashes@[h] as int]
                        == spec_lookup_name(names, h).unwrap(),
                forall|k: int|
                    0 <= k < i ==> self@.file_descriptors[k] == spec_resolve_desc(
                        #[trigger] descs0[k],
                        names,
                    ),
                forall|k: int| i <= k < n ==> self@.file_descriptors[k] == #[trigger] descs0[k],
                count == spec_num_resolved(descs0.take(i as int), names),
            decreases n - i,
        {
            let fd_hash = self.file_descriptors[i].filename_hash;
            match hashes.get(&fd_hash) {
                Some(idx) => {
                    let resolved = ArhFileDescriptor {
                        filename_hash: self.file_descriptors[i].filename_hash,
                        disk_size: self.file_descriptors[i].disk_size,
                        file_size: self.file_descriptors[i].file_size,
                        file_pos: self.file_descriptors[i].file_pos,
                        filename: filenames[*idx].clone(),
                    };
                    self.file_descriptors.set(i, resolved);
                    count = count + 1;
                    proof {
                        assert(self@.file_descriptors[i as int] =~= spec_resolve_desc(
                            descs0[i as int],
                            names,
                        ));
                    }
                },
                None => {
                    proof {
                        assert(self@.file_descriptors[i as int] == descs0[i as int]);
                        assert(descs0[i as int] =~= spec_resolve_desc(descs0[i as int], names));
                    }
                },
            }
            proof {
                let pre = descs0.take(i as int + 1);
                assert(pre.drop_last() =~= descs0.take(i as int));
                assert(pre.last() == descs0[i as int]);
            }
            i = i + 1;
        }
        proof {
            assert(descs0.take(n as int) =~= descs0);
            assert(final(self)@.file_descriptors =~= descs0.map_values(
                (|d: DescView| spec_resolve_desc(d, names)),
            ));
            assert(final(self)@ =~= (ArhView {
                file_descriptors: old(self)@.file_descriptors.map_values(
                    (|d: DescView| spec_resolve_desc(d, names)),
                ),
                ..old(self)@
            }));
        }
        count
    }
}

/// Resolution is idempotent: resolving a descriptor table against a name
/// list a second time leaves every resolved name as the first pass set it.
pub proof fn lemma_resolve_idempotent(descs: Seq<DescView>, names: Seq<Seq<char>>)
    ensures
        descs.map_values((|d: DescView| spec_resolve_desc(d, names))).map_values(
            (|d: DescView| spec_resolve_desc(d, names)),
        ) == descs.map_values((|d: DescView| spec_resolve_desc(d, names))),
{
    let once = descs.map_values((|d: DescView| spec_resolve_desc(d, names)));
    let twice = once.map_values((|d: DescView| spec_resolve_desc(d, names)));
    assert forall|k: int| 0 <= k < descs.len() implies twice[k] == once[k] by {
        let d = descs[k];
        assert(spec_resolve_desc(d, names).filename_hash == d.filename_hash);
        assert(spec_resolve_desc(spec_resolve_desc(d, names), names) == spec_resolve_desc(
            d,
            names,
        ));
    }
    assert(twice =~= once);
}

} // verus!
