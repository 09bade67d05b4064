//! The reference file: a little-endian header followed by fixed-size records.
//!
//! Layout: a `u32` count of records and a `u16` dimension (which must be
//! `VECTOR_DIM`), then one record per reference vector: `VECTOR_DIM`
//! little-endian `f64` components followed by one label byte (1 for fraud).
use vstd::prelude::*;
use crate::vector::{Label, VECTOR_DIM};
use crate::order::{order_key, order_key_spec};

verus! {

/// Bytes before the first record: a `u32` count and a `u16` dimension.
pub const HEADER_SIZE: usize = 6;

/// Bytes of one record: the components and a label byte.
pub const RECORD_SIZE: usize = 113;

/// Bytes of the components of one record.
pub const COMPONENTS_SIZE: usize = 112;

/// The little-endian unsigned value of `n` bytes of `s` from `off` on.
pub open spec fn le_value(s: Seq<u8>, off: int, n: nat) -> int
    decreases n,
{
    if n == 0 {
        0
    } else {
        s[off] + 256 * le_value(s, off + 1, (n - 1) as nat)
    }
}

/// `256` to the power `n`.
pub open spec fn pow256(n: nat) -> int
    decreases n,
{
    if n == 0 {
        1
    } else {
        256 * pow256((n - 1) as nat)
    }
}

proof fn lemma_le_value_bound(s: Seq<u8>, off: int, n: nat)
    ensures
        0 <= le_value(s, off, n) < pow256(n),
    decreases n,
{
    if n > 0 {
        lemma_le_value_bound(s, off + 1, (n - 1) as nat);
        let r = le_value(s, off + 1, (n - 1) as nat);
        let p = pow256((n - 1) as nat);
        let b = s[off] as int;
        assert(b + 256 * r < 256 * p) by (nonlinear_arith)
            requires
                0 <= b < 256,
                0 <= r < p,
        ;
    }
}

/// Reads `n` little-endian bytes of `bytes` from `off` on.
fn read_le(bytes: &Vec<u8>, off: usize, n: usize) -> (v: u64)
    requires
        n <= 8,
        off + n <= bytes.len(),
    ensures
        v == le_value(bytes@, off as int, n as nat),
{
    proof {
        reveal_with_fuel(pow256, 9);
        assert(pow256(8) == 0x1_0000_0000_0000_0000);
    }
    let mut v: u64 = 0;
    let mut i: usize = n;
    while i > 0
        invariant
            n <= 8,
            off + n <= bytes.len(),
            i <= n,
            v == le_value(bytes@, off + i, (n - i) as nat),
            pow256(8) == 0x1_0000_0000_0000_0000,
        decreases i,
    {
        i = i - 1;
        proof {
            lemma_le_value_bound(bytes@, off + i + 1, (n - i - 1) as nat);
            lemma_pow256_mono((n - i - 1) as nat, 7);
        }
        let b = bytes[off + i];
        assert(v * 256 + b < 0x1_0000_0000_0000_0000) by (nonlinear_arith)
            requires
                v < pow256((n - i - 1) as nat),
                pow256((n - i - 1) as nat) <= pow256(7),
                pow256(8) == 256 * pow256(7),
                pow256(8) == 0x1_0000_0000_0000_0000,
                b < 256,
        ;
        v = v * 256 + b as u64;
    }
    v
}

proof fn lemma_pow256_mono(a: nat, b: nat)
    requires
        a <= b,
    ensures
        pow256(a) <= pow256(b),
    decreases b,
{
    if a < b {
        lemma_pow256_mono(a, (b - 1) as nat);
        lemma_pow256_pos((b - 1) as nat);
    }
}

proof fn lemma_pow256_pos(a: nat)
    ensures
        pow256(a) > 0,
    decreases a,
{
    if a > 0 {
        lemma_pow256_pos((a - 1) as nat);
    }
}

/// The count of records that the header announces.
pub open spec fn header_count(bytes: Seq<u8>) -> int {
    le_value(bytes, 0, 4)
}

/// The dimension that the header announces.
pub open spec fn header_dim(bytes: Seq<u8>) -> int {
    le_value(bytes, 4, 2)
}

/// The header is present and announces vectors of `VECTOR_DIM` components.
pub open spec fn header_valid(bytes: Seq<u8>) -> bool {
    bytes.len() >= HEADER_SIZE && header_dim(bytes) == VECTOR_DIM
}

/// Where the record `index` begins.
pub open spec fn record_offset(index: int) -> int {
    HEADER_SIZE + index * RECORD_SIZE
}

/// Whether the file holds the whole record `index`, label byte included.
pub open spec fn has_record(bytes: Seq<u8>, index: int) -> bool {
    0 <= index && record_offset(index) + RECORD_SIZE <= bytes.len()
}

/// The bit pattern of component `dim` of record `index`.
pub open spec fn component_bits(bytes: Seq<u8>, index: int, dim: int) -> u64 {
    le_value(bytes, record_offset(index) + 8 * dim, 8) as u64
}

/// The order key of component `dim` of record `index`.
pub open spec fn component_key(bytes: Seq<u8>, index: int, dim: int) -> u64 {
    order_key_spec(component_bits(bytes, index, dim))
}

/// The label that the label byte of record `index` encodes.
pub open spec fn record_label(bytes: Seq<u8>, index: int) -> Label {
    if bytes[record_offset(index) + COMPONENTS_SIZE] == 1 {
        Label::Fraud
    } else {
        Label::Legit
    }
}

/// Byte `k` of the little-endian form of `v`: its digit `k` in base 256.
pub open spec fn le_byte(v: int, k: int) -> u8
    decreases k,
{
    if k <= 0 {
        (v % 256) as u8
    } else {
        le_byte(v / 256, k - 1)
    }
}

/// Byte `i` of the reference file that holds the records whose component
/// bit patterns are `vectors` and whose label bytes are `labels`.
pub open spec fn encoded_byte(vectors: Seq<Seq<u64>>, labels: Seq<u8>, i: int) -> u8 {
    if i < 4 {
        le_byte(vectors.len() as int, i)
    } else if i < HEADER_SIZE {
        le_byte(VECTOR_DIM as int, i - 4)
    } else {
        let j = (i - HEADER_SIZE) / (RECORD_SIZE as int);
        let r = (i - HEADER_SIZE) % (RECORD_SIZE as int);
        if r < COMPONENTS_SIZE {
            le_byte(vectors[j][r / 8] as int, r % 8)
        } else {
            labels[j]
        }
    }
}

/// The reference file that holds the records whose component bit patterns
/// are `vectors` and whose label bytes are `labels`: the header, then each
/// record's components in little-endian order and its label byte.
pub open spec fn encode_file(vectors: Seq<Seq<u64>>, labels: Seq<u8>) -> Seq<u8> {
    Seq::new(
        (HEADER_SIZE + vectors.len() * RECORD_SIZE) as nat,
        |i: int| encoded_byte(vectors, labels, i),
    )
}

/// `n` bytes that spell `v` in little-endian order read back as `v`.
proof fn lemma_le_value_of_bytes(s: Seq<u8>, off: int, n: nat, v: int)
    requires
        0 <= v < pow256(n),
        0 <= off,
        off + n <= s.len(),
        forall|k: int| 0 <= k < n ==> s[off + k] == #[trigger] le_byte(v, k),
    ensures
        le_value(s, off, n) == v,
    decreases n,
{
    if n > 0 {
        let m = (n - 1) as nat;
        assert forall|k: int| 0 <= k < m implies s[(off + 1) + k] == #[trigger] le_byte(v / 256, k) by {
            assert(s[off + (k + 1)] == le_byte(v, k + 1));
            assert(off + (k + 1) == (off + 1) + k);
        }
        assert(v / 256 < pow256(m)) by (nonlinear_arith)
            requires
                0 <= v < 256 * pow256(m),
        ;
        lemma_le_value_of_bytes(s, off + 1, m, v / 256);
        assert(s[off + 0] == le_byte(v, 0));
        assert(off + 0 == off);
    }
}

/// A reference file written from record vectors and label bytes reads back
/// as what was written: its header checks out and announces as many records
/// as were written, every record lies in the file, each component reads back
/// bit for bit, and each record's label is fraud exactly where its label
/// byte is 1.
pub proof fn lemma_encoding_round_trip(vectors: Seq<Seq<u64>>, labels: Seq<u8>)
    requires
        labels.len() == vectors.len(),
        vectors.len() <= u32::MAX,
        forall|j: int| 0 <= j < vectors.len() ==> (#[trigger] vectors[j]).len() == VECTOR_DIM,
    ensures
        header_valid(encode_file(vectors, labels)),
        header_count(encode_file(vectors, labels)) == vectors.len(),
        encode_file(vectors, labels).len() == record_offset(vectors.len() as int),
        forall|j: int| 0 <= j < vectors.len() ==> #[trigger] has_record(encode_file(vectors, labels), j),
        forall|j: int, d: int|
            0 <= j < vectors.len() && 0 <= d < VECTOR_DIM ==> #[trigger] component_bits(
                encode_file(vectors, labels),
                j,
                d,
            ) == vectors[j][d],
        forall|j: int|
            0 <= j < vectors.len() ==> #[trigger] record_label(encode_file(vectors, labels), j) == if labels[j]
                == 1 {
                Label::Fraud
            } else {
                Label::Legit
            },
{
    let b = encode_file(vectors, labels);
    let n = vectors.len() as int;
    reveal_with_fuel(pow256, 9);
    assert(pow256(4) == 0x1_0000_0000);
    assert(pow256(8) == 0x1_0000_0000_0000_0000);
    assert(n * RECORD_SIZE >= 0) by (nonlinear_arith)
        requires
            n >= 0,
    ;
    assert forall|k: int| 0 <= k < 4 implies b[0 + k] == #[trigger] le_byte(n, k) by {
        assert(0 + k == k);
    }
    lemma_le_value_of_bytes(b, 0, 4, n);
    assert forall|k: int| 0 <= k < 2 implies b[4 + k] == #[trigger] le_byte(VECTOR_DIM as int, k) by {
        assert(4 + k - 4 == k);
    }
    lemma_le_value_of_bytes(b, 4, 2, VECTOR_DIM as int);
    assert forall|j: int| 0 <= j < n implies #[trigger] has_record(b, j) by {
        assert((j + 1) * RECORD_SIZE <= n * RECORD_SIZE) by (nonlinear_arith)
            requires
                0 <= j < n,
        ;
    }
    assert forall|j: int, d: int| 0 <= j < n && 0 <= d < VECTOR_DIM implies #[trigger] component_bits(b, j, d)
        == vectors[j][d] by {
        let off = record_offset(j) + 8 * d;
        assert((j + 1) * RECORD_SIZE <= n * RECORD_SIZE) by (nonlinear_arith)
            requires
                0 <= j < n,
        ;
        assert forall|k: int| 0 <= k < 8 implies b[off + k] == #[trigger] le_byte(vectors[j][d] as int, k) by {
            let i = off + k;
            vstd::arithmetic::div_mod::lemma_fundamental_div_mod_converse(
                i - HEADER_SIZE,
                RECORD_SIZE as int,
                j,
                8 * d + k,
            );
            vstd::arithmetic::div_mod::lemma_fundamental_div_mod_converse(8 * d + k, 8, d, k);
        }
        lemma_le_value_of_bytes(b, off, 8, vectors[j][d] as int);
    }
    assert forall|j: int| 0 <= j < n implies #[trigger] record_label(b, j) == if labels[j] == 1 {
        Label::Fraud
    } else {
        Label::Legit
    } by {
        let i = record_offset(j) + COMPONENTS_SIZE;
        assert((j + 1) * RECORD_SIZE <= n * RECORD_SIZE) by (nonlinear_arith)
            requires
                0 <= j < n,
        ;
        vstd::arithmetic::div_mod::lemma_fundamental_div_mod_converse(
            i - HEADER_SIZE,
            RECORD_SIZE as int,
            j,
            COMPONENTS_SIZE as int,
        );
    }
}

/// The header, read byte by byte: it checks out exactly when the file has
/// its six bytes and the two dimension bytes, least significant first, are
/// 14 and 0; and the count it announces is its first four bytes, least
/// significant first.
pub proof fn lemma_header_bytes(b: Seq<u8>)
    ensures
        header_valid(b) <==> b.len() >= HEADER_SIZE && b[4] == VECTOR_DIM && b[5] == 0,
        b.len() >= HEADER_SIZE ==> header_count(b) == b[0] + 256 * b[1] + 65536 * b[2] + 16777216 * b[3],
{
    reveal_with_fuel(le_value, 5);
    if b.len() >= HEADER_SIZE {
        assert(header_dim(b) == b[4] + 256 * b[5]);
        assert(header_count(b) == b[0] + 256 * (b[1] + 256 * (b[2] + 256 * b[3])));
    }
}

/// Whether the header checks out, as `FraudRepository::new` requires.
pub fn header_ok(bytes: &Vec<u8>) -> (ok: bool)
    ensures
        ok == header_valid(bytes@),
{
    bytes.len() >= HEADER_SIZE && read_le(bytes, 4, 2) == VECTOR_DIM as u64
}

/// The reference vectors, held as the bytes of the reference file.
pub struct FraudRepository {
    bytes: Vec<u8>,
    count: usize,
}

/// The count of records that the header announces fits in a `u32`, and in
/// the file when the repository is complete.
pub proof fn lemma_count_fits(repo: &FraudRepository)
    ensures
        0 <= repo.spec_len() <= u32::MAX,
{
    lemma_le_value_bound(repo@, 0, 4);
    reveal_with_fuel(pow256, 5);
}

impl View for FraudRepository {
    type V = Seq<u8>;

    closed spec fn view(&self) -> Seq<u8> {
        self.bytes@
    }
}

impl FraudRepository {
    #[verifier::type_invariant]
    spec fn inv(self) -> bool {
        &&& header_valid(self.bytes@)
        &&& self.count == header_count(self.bytes@)
    }

    /// The count of records that the header announces.
    pub open spec fn spec_len(&self) -> int {
        header_count(self@)
    }

    /// Every record that the header announces lies in the file.
    pub open spec fn complete(&self) -> bool {
        record_offset(self.spec_len()) <= self@.len()
    }

    /// Takes the bytes of a reference file whose header announces vectors of
    /// `VECTOR_DIM` components.
    pub fn new(bytes: Vec<u8>) -> (repo: Self)
        requires
            header_valid(bytes@),
        ensures
            repo@ == bytes@,
    {
        let count = read_le(&bytes, 0, 4);
        proof {
            lemma_le_value_bound(bytes@, 0, 4);
            reveal_with_fuel(pow256, 5);
        }
        let count = count as usize;
        FraudRepository { bytes, count }
    }

    /// The count of records that the header announces.
    pub fn len(&self) -> (n: usize)
        ensures
            n == self.spec_len(),
    {
        proof {
            use_type_invariant(self);
        }
        self.count
    }

    /// Whether the file holds the whole record `index`.
    pub fn has_record_at(&self, index: usize) -> (ok: bool)
        ensures
            ok == has_record(self@, index as int),
    {
        let n = self.bytes.len();
        assert(self@ == self.bytes@);
        n >= HEADER_SIZE && index <= (n - HEADER_SIZE) / RECORD_SIZE && (n - HEADER_SIZE) - index * RECORD_SIZE
            >= RECORD_SIZE
    }

    /// Whether every record that the header announces lies in the file.
    pub fn is_complete(&self) -> (ok: bool)
        ensures
            ok == self.complete(),
    {
        proof {
            use_type_invariant(self);
        }
        let n = self.bytes.len();
        self.count <= (n - HEADER_SIZE) / RECORD_SIZE
    }

    /// The bit pattern of component `dim` of record `index`.
    pub fn get_component(&self, index: usize, dim: usize) -> (bits: u64)
        requires
            dim < VECTOR_DIM,
            record_offset(index as int) + COMPONENTS_SIZE <= self@.len(),
        ensures
            bits == component_bits(self@, index as int, dim as int),
    {
        assert(self@ == self.bytes@);
        // The file's length, a `usize`, bounds the offsets below.
        let _length: usize = self.bytes.len();
        let offset = HEADER_SIZE + index * RECORD_SIZE;
        read_le(&self.bytes, offset + dim * 8, 8)
    }

    /// The order key of component `dim` of record `index`.
    pub fn get_key(&self, index: usize, dim: usize) -> (key: u64)
        requires
            dim < VECTOR_DIM,
            record_offset(index as int) + COMPONENTS_SIZE <= self@.len(),
        ensures
            key == component_key(self@, index as int, dim as int),
    {
        order_key(self.get_component(index, dim))
    }

    /// The bit patterns of the components of record `index`.
    pub fn get_vector(&self, index: usize) -> (vector: [u64; VECTOR_DIM])
        requires
            record_offset(index as int) + COMPONENTS_SIZE <= self@.len(),
        ensures
            forall|d: int| 0 <= d < VECTOR_DIM ==> vector[d] == component_bits(self@, index as int, d),
    {
        let mut vector = [0u64; VECTOR_DIM];
        let mut i: usize = 0;
        while i < VECTOR_DIM
            invariant
                i <= VECTOR_DIM,
                record_offset(index as int) + COMPONENTS_SIZE <= self@.len(),
                forall|d: int| 0 <= d < i ==> vector[d] == component_bits(self@, index as int, d),
            decreases VECTOR_DIM - i,
        {
            let bits = self.get_component(index, i);
            vector[i] = bits;
            i = i + 1;
        }
        vector
    }

    /// The label of record `index`.
    pub fn get_label(&self, index: usize) -> (label: Label)
        requires
            has_record(self@, index as int),
        ensures
            label == record_label(self@, index as int),
    {
        assert(self@ == self.bytes@);
        // The file's length, a `usize`, bounds the offsets below.
        let _length: usize = self.bytes.len();
        let offset = HEADER_SIZE + index * RECORD_SIZE + VECTOR_DIM * 8;
        if self.bytes[offset] == 1 {
            Label::Fraud
        } else {
            Label::Legit
        }
    }
}

} // verus!
