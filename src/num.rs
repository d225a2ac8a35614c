//! Integers with machine semantics.
use vstd::prelude::*;
use vstd::arithmetic::div_mod::{lemma_breakdown, lemma_mod_multiples_vanish, lemma_small_mod};
use byteorder::{ByteOrder, LittleEndian};

verus! {

/// Different width numeric types.
#[derive(Debug, Copy, Clone, PartialEq, Eq, Structural, PartialOrd, Ord, Hash)]
pub enum DataType {
    N8,
    N16,
    N32,
    N64,
}

/// Variable data type integer with machine semantics: the stored value is
/// read at the declared width, the bits above it are ignored.
#[derive(Debug, Copy, Clone, Hash)]
pub struct Integer(pub DataType, pub u64);

/// Arithmetic operation flags returned by some functions on integers.
#[derive(Debug, Default, Copy, Clone, PartialEq, Eq, Structural)]
pub struct Flags {
    pub zero: bool,
    pub sign: bool,
    pub overflow: bool,
}

/// Number of bytes of a data type.
pub open spec fn width_bytes(t: DataType) -> nat {
    match t {
        DataType::N8 => 1,
        DataType::N16 => 2,
        DataType::N32 => 4,
        DataType::N64 => 8,
    }
}

/// Number of distinct values of a data type.
pub open spec fn modulus(t: DataType) -> int {
    match t {
        DataType::N8 => 0x100,
        DataType::N16 => 0x1_0000,
        DataType::N32 => 0x1_0000_0000,
        DataType::N64 => 0x1_0000_0000_0000_0000,
    }
}

/// Smallest value whose top bit is set at a data type.
pub open spec fn half(t: DataType) -> int {
    modulus(t) / 2
}

/// Whether `v` is representable as a signed value of type `t`.
pub open spec fn fits_signed(t: DataType, v: int) -> bool {
    -half(t) <= v < half(t)
}

/// The flags of a result whose zero and sign bits are defined.
pub open spec fn result_flags(r: Integer, overflow: bool) -> Flags {
    Flags { zero: r.uval() == 0, sign: r.uval() >= half(r.0), overflow }
}

pub open spec fn word_name(t: DataType) -> Seq<char> {
    match t {
        DataType::N8 => seq!['b', 'y', 't', 'e'],
        DataType::N16 => seq!['w', 'o', 'r', 'd'],
        DataType::N32 => seq!['d', 'w', 'o', 'r', 'd'],
        DataType::N64 => seq!['q', 'w', 'o', 'r', 'd'],
    }
}

pub open spec fn type_tag(t: DataType) -> Seq<char> {
    match t {
        DataType::N8 => seq!['n', '8'],
        DataType::N16 => seq!['n', '1', '6'],
        DataType::N32 => seq!['n', '3', '2'],
        DataType::N64 => seq!['n', '6', '4'],
    }
}

/// `256` to the power `k`.
pub open spec fn pow256(k: nat) -> int
    decreases k,
{
    if k == 0 {
        1
    } else {
        256 * pow256((k - 1) as nat)
    }
}

/// The number that a little-endian byte sequence encodes.
pub open spec fn le_value(s: Seq<u8>) -> int
    decreases s.len(),
{
    if s.len() == 0 {
        0
    } else {
        s[0] + 256 * le_value(s.drop_first())
    }
}

/// The `k` low bytes of `v`, least significant first.
pub open spec fn le_bytes(v: int, k: nat) -> Seq<u8>
    decreases k,
{
    if k == 0 {
        seq![]
    } else {
        seq![(v % 256) as u8] + le_bytes(v / 256, (k - 1) as nat)
    }
}

/// The integer that `from_bytes` reads.
pub open spec fn decode(bytes: Seq<u8>, t: DataType) -> Integer {
    Integer(t, le_value(bytes) as u64)
}

/// The bytes that `to_bytes` writes.
pub open spec fn encode(x: Integer) -> Seq<u8> {
    le_bytes(x.uval(), width_bytes(x.0))
}

proof fn lemma_pow256_modulus(t: DataType)
    ensures
        pow256(width_bytes(t)) == modulus(t),
{
    reveal_with_fuel(pow256, 9);
}

proof fn lemma_le_value_bound(s: Seq<u8>)
    ensures
        0 <= le_value(s) < pow256(s.len()),
    decreases s.len(),
{
    if s.len() > 0 {
        lemma_le_value_bound(s.drop_first());
    }
}

proof fn lemma_le_round_trip(v: int, k: nat)
    requires
        0 <= v,
    ensures
        le_value(le_bytes(v, k)) == v % pow256(k),
        le_bytes(v, k).len() == k,
    decreases k,
{
    if k > 0 {
        lemma_le_round_trip(v / 256, (k - 1) as nat);
        let s = le_bytes(v, k);
        assert(s.drop_first() =~= le_bytes(v / 256, (k - 1) as nat));
        lemma_pow256_positive((k - 1) as nat);
        lemma_breakdown(v, 256, pow256((k - 1) as nat));
    }
}

proof fn lemma_pow256_positive(k: nat)
    ensures
        pow256(k) > 0,
    decreases k,
{
    if k > 0 {
        lemma_pow256_positive((k - 1) as nat);
    }
}

/// Reading back the bytes of an integer gives the same integer.
pub proof fn lemma_bytes_round_trip(x: Integer)
    ensures
        encode(x).len() == width_bytes(x.0),
        decode(encode(x), x.0).0 == x.0,
        decode(encode(x), x.0).uval() == x.uval(),
        decode(encode(x), x.0).1 as int == x.uval(),
{
    lemma_pow256_modulus(x.0);
    lemma_le_round_trip(x.uval(), width_bytes(x.0));
}

/// Casting to a type no wider than the source keeps the low bits, whether
/// the source is read as signed or unsigned.
pub proof fn lemma_narrowing_ignores_sign(x: Integer, new_type: DataType)
    requires
        width_bytes(new_type) <= width_bytes(x.0),
    ensures
        x.read(true) % modulus(new_type) == x.read(false) % modulus(new_type),
{
    if x.uval() >= half(x.0) {
        lemma_mod_multiples_vanish(
            -(modulus(x.0) / modulus(new_type)),
            x.uval(),
            modulus(new_type),
        );
        lemma_modulus_divides(x.0, new_type);
    }
}

/// Casting to a type at least as wide as the source keeps the value read
/// with the same signedness: sign extension for signed, zero extension for
/// unsigned.
pub proof fn lemma_widening_keeps_value(x: Integer, new_type: DataType, signed: bool)
    requires
        width_bytes(x.0) <= width_bytes(new_type),
    ensures
        Integer(new_type, (x.read(signed) % modulus(new_type)) as u64).read(signed) == x.read(signed),
{
    lemma_modulus_grows(x.0, new_type);
    let mn = modulus(new_type);
    let v = x.read(signed) % mn;
    if x.read(signed) >= 0 {
        lemma_small_mod(x.read(signed) as nat, mn as nat);
    } else {
        lemma_mod_multiples_vanish(1, x.read(signed), mn);
        lemma_small_mod((mn + x.read(signed)) as nat, mn as nat);
    }
    lemma_small_mod(v as nat, mn as nat);
}

proof fn lemma_modulus_grows(a: DataType, b: DataType)
    ensures
        width_bytes(a) <= width_bytes(b) ==> modulus(a) <= modulus(b) && half(a) <= half(b),
        modulus(b) == 2 * half(b),
{
}

proof fn lemma_modulus_divides(a: DataType, b: DataType)
    ensures
        width_bytes(b) <= width_bytes(a) ==> modulus(b) * (-(modulus(a) / modulus(b))) == -modulus(a),
{
    match (a, b) {
        (DataType::N8, DataType::N8) => {},
        (DataType::N16, DataType::N8) => {},
        (DataType::N16, DataType::N16) => {},
        (DataType::N32, DataType::N8) => {},
        (DataType::N32, DataType::N16) => {},
        (DataType::N32, DataType::N32) => {},
        (DataType::N64, DataType::N8) => {},
        (DataType::N64, DataType::N16) => {},
        (DataType::N64, DataType::N32) => {},
        (DataType::N64, DataType::N64) => {},
        _ => {},
    }
}

/// Relies on byteorder's `LittleEndian::read_u16`: the first two bytes, least
/// significant first.
#[verifier::external_body]
fn read_le16(buf: &[u8]) -> (r: u16)
    requires
        buf@.len() == 2,
    ensures
        r as int == le_value(buf@),
{
    LittleEndian::read_u16(buf)
}

/// Relies on byteorder's `LittleEndian::read_u32`: the first four bytes, least
/// significant first.
#[verifier::external_body]
fn read_le32(buf: &[u8]) -> (r: u32)
    requires
        buf@.len() == 4,
    ensures
        r as int == le_value(buf@),
{
    LittleEndian::read_u32(buf)
}

/// Relies on byteorder's `LittleEndian::read_u64`: the first eight bytes, least
/// significant first.
#[verifier::external_body]
fn read_le64(buf: &[u8]) -> (r: u64)
    requires
        buf@.len() == 8,
    ensures
        r as int == le_value(buf@),
{
    LittleEndian::read_u64(buf)
}

/// Relies on byteorder's `LittleEndian::write_u16`: `n` as two bytes, least
/// significant first.
#[verifier::external_body]
fn write_le16(buf: &mut Vec<u8>, n: u16)
    requires
        old(buf)@.len() == 2,
    ensures
        final(buf)@ == le_bytes(n as int, 2),
{
    LittleEndian::write_u16(buf, n)
}

/// Relies on byteorder's `LittleEndian::write_u32`: `n` as four bytes, least
/// significant first.
#[verifier::external_body]
fn write_le32(buf: &mut Vec<u8>, n: u32)
    requires
        old(buf)@.len() == 4,
    ensures
        final(buf)@ == le_bytes(n as int, 4),
{
    LittleEndian::write_u32(buf, n)
}

/// Relies on byteorder's `LittleEndian::write_u64`: `n` as eight bytes, least
/// significant first.
#[verifier::external_body]
fn write_le64(buf: &mut Vec<u8>, n: u64)
    requires
        old(buf)@.len() == 8,
    ensures
        final(buf)@ == le_bytes(n as int, 8),
{
    LittleEndian::write_u64(buf, n)
}

fn modulus_of(t: DataType) -> (r: u128)
    ensures
        r as int == modulus(t),
{
    match t {
        DataType::N8 => 0x100,
        DataType::N16 => 0x1_0000,
        DataType::N32 => 0x1_0000_0000,
        DataType::N64 => 0x1_0000_0000_0000_0000,
    }
}

impl Integer {
    /// The value read as unsigned at the declared width.
    pub open spec fn uval(self) -> int {
        self.1 as int % modulus(self.0)
    }

    /// The value read as two's complement at the declared width.
    pub open spec fn sval(self) -> int {
        if self.uval() < half(self.0) {
            self.uval()
        } else {
            self.uval() - modulus(self.0)
        }
    }

    /// The value read as signed or unsigned.
    pub open spec fn read(self, signed: bool) -> int {
        if signed {
            self.sval()
        } else {
            self.uval()
        }
    }

    fn unsigned(self) -> (r: u128)
        ensures
            r as int == self.uval(),
            r < 0x1_0000_0000_0000_0000,
    {
        (self.1 as u128) % modulus_of(self.0)
    }

    fn signed(self) -> (r: i128)
        ensures
            r as int == self.sval(),
            -0x8000_0000_0000_0000 <= r < 0x8000_0000_0000_0000,
    {
        let m = modulus_of(self.0);
        let u = self.unsigned();
        if u < m / 2 {
            u as i128
        } else {
            (u as i128) - (m as i128)
        }
    }

    /// An integer of type `t` holding `v` modulo its width.
    fn wrapped(t: DataType, v: u128) -> (r: Integer)
        ensures
            r.0 == t,
            r.1 as int == v as int % modulus(t),
            r.uval() == v as int % modulus(t),
    {
        let r = Integer(t, (v % modulus_of(t)) as u64);
        assert(r.uval() == v as int % modulus(t)) by {
            assert(0 <= v as int % modulus(t) < modulus(t));
        }
        r
    }

    /// Create a pointer-sized integer.
    pub fn from_ptr(value: u64) -> (r: Integer)
        ensures
            r.0 == DataType::N64,
            r.1 == value,
    {
        Integer(DataType::N64, value)
    }

    /// Create a boolean-based integer.
    pub fn from_bool(value: bool, data_type: DataType) -> (r: Integer)
        ensures
            r.0 == data_type,
            r.1 == (if value { 1u64 } else { 0u64 }),
    {
        Integer(data_type, if value { 1 } else { 0 })
    }

    /// Read an integer of a specific type from little-endian bytes.
    pub fn from_bytes(bytes: &[u8], data_type: DataType) -> (r: Integer)
        requires
            bytes@.len() == width_bytes(data_type),
        ensures
            r == decode(bytes@, data_type),
            r.1 as int == le_value(bytes@),
    {
        proof {
            lemma_le_value_bound(bytes@);
            lemma_pow256_modulus(data_type);
        }
        let v: u64 = match data_type {
            DataType::N8 => {
                assert(le_value(bytes@) == bytes@[0] + 256 * le_value(bytes@.drop_first()));
                assert(bytes@.drop_first().len() == 0);
                bytes[0] as u64
            },
            DataType::N16 => read_le16(bytes) as u64,
            DataType::N32 => read_le32(bytes) as u64,
            DataType::N64 => read_le64(bytes),
        };
        Integer(data_type, v)
    }

    /// Convert this integer into little-endian bytes.
    pub fn to_bytes(self) -> (r: Vec<u8>)
        ensures
            r@ == encode(self),
            r@.len() == width_bytes(self.0),
    {
        let n = self.0.bytes();
        let mut buf: Vec<u8> = vec![0; n];
        let u = self.unsigned();
        proof {
            lemma_le_round_trip(self.uval(), width_bytes(self.0));
        }
        match self.0 {
            DataType::N8 => {
                buf.set(0, u as u8);
                assert(buf@ =~= le_bytes(self.uval(), 1));
            },
            DataType::N16 => write_le16(&mut buf, u as u16),
            DataType::N32 => write_le32(&mut buf, u as u32),
            DataType::N64 => write_le64(&mut buf, u as u64),
        }
        buf
    }

    /// Wrapping addition.
    pub fn add(self, other: Integer) -> (r: Integer)
        requires
            self.0 == other.0,
        ensures
            r.0 == self.0,
            r.1 as int == (self.uval() + other.uval()) % modulus(self.0),
    {
        Integer::wrapped(self.0, self.unsigned() + other.unsigned())
    }

    /// Wrapping subtraction.
    pub fn sub(self, other: Integer) -> (r: Integer)
        requires
            self.0 == other.0,
        ensures
            r.0 == self.0,
            r.1 as int == (self.uval() - other.uval()) % modulus(self.0),
    {
        let m = modulus_of(self.0);
        let r = Integer::wrapped(self.0, self.unsigned() + m - other.unsigned());
        proof {
            lemma_mod_multiples_vanish(1, self.uval() - other.uval(), modulus(self.0));
        }
        r
    }

    /// Wrapping multiplication.
    pub fn mul(self, other: Integer) -> (r: Integer)
        requires
            self.0 == other.0,
        ensures
            r.0 == self.0,
            r.1 as int == (self.uval() * other.uval()) % modulus(self.0),
    {
        let a = self.unsigned();
        let b = other.unsigned();
        assert(a * b < 0x1_0000_0000_0000_0000_0000_0000_0000_0000) by (nonlinear_arith)
            requires
                a < 0x1_0000_0000_0000_0000,
                b < 0x1_0000_0000_0000_0000,
        ;
        Integer::wrapped(self.0, a * b)
    }

    /// Bitwise and.
    pub fn bitand(self, other: Integer) -> (r: Integer)
        requires
            self.0 == other.0,
        ensures
            r.0 == self.0,
            r.1 as int == (self.1 & other.1) as int % modulus(self.0),
    {
        Integer::wrapped(self.0, (self.1 & other.1) as u128)
    }

    /// Bitwise or.
    pub fn bitor(self, other: Integer) -> (r: Integer)
        requires
            self.0 == other.0,
        ensures
            r.0 == self.0,
            r.1 as int == (self.1 | other.1) as int % modulus(self.0),
    {
        Integer::wrapped(self.0, (self.1 | other.1) as u128)
    }

    /// Bitwise not.
    pub fn bitnot(self) -> (r: Integer)
        ensures
            r.0 == self.0,
            r.1 as int == (!self.1) as int % modulus(self.0),
    {
        Integer::wrapped(self.0, (!self.1) as u128)
    }

    /// Whether both integers hold the same bits at their width.
    pub fn equal(self, other: Integer) -> (r: bool)
        requires
            self.0 == other.0,
        ensures
            r == (self.uval() == other.uval()),
    {
        self.unsigned() == other.unsigned()
    }

    pub fn less_than(self, other: Integer, signed: bool) -> (r: bool)
        requires
            self.0 == other.0,
        ensures
            r == (self.read(signed) < other.read(signed)),
    {
        if signed {
            self.signed() < other.signed()
        } else {
            self.unsigned() < other.unsigned()
        }
    }

    pub fn less_equal(self, other: Integer, signed: bool) -> (r: bool)
        requires
            self.0 == other.0,
        ensures
            r == (self.read(signed) <= other.read(signed)),
    {
        if signed {
            self.signed() <= other.signed()
        } else {
            self.unsigned() <= other.unsigned()
        }
    }

    pub fn greater_than(self, other: Integer, signed: bool) -> (r: bool)
        requires
            self.0 == other.0,
        ensures
            r == (self.read(signed) > other.read(signed)),
    {
        if signed {
            self.signed() > other.signed()
        } else {
            self.unsigned() > other.unsigned()
        }
    }

    pub fn greater_equal(self, other: Integer, signed: bool) -> (r: bool)
        requires
            self.0 == other.0,
        ensures
            r == (self.read(signed) >= other.read(signed)),
    {
        if signed {
            self.signed() >= other.signed()
        } else {
            self.unsigned() >= other.unsigned()
        }
    }

    /// Cast the integer to another type.
    /// - If the target type is smaller, it will get truncated.
    /// - If the target type is bigger, if signed is true the value will be
    ///   sign-extended and otherwise zero-extended.
    pub fn cast(self, new_type: DataType, signed: bool) -> (r: Integer)
        ensures
            r.0 == new_type,
            r.1 as int == self.read(signed) % modulus(new_type),
    {
        let m = modulus_of(new_type);
        if signed {
            let s = self.signed();
            if s < 0 {
                let r = Integer::wrapped(new_type, (s + 0x1_0000_0000_0000_0000) as u128);
                proof {
                    lemma_mod_multiples_vanish(
                        0x1_0000_0000_0000_0000int / modulus(new_type),
                        s as int,
                        modulus(new_type),
                    );
                }
                r
            } else {
                Integer::wrapped(new_type, s as u128)
            }
        } else {
            Integer::wrapped(new_type, self.unsigned())
        }
    }

    /// Addition with flags, overflow read on the signed values.
    pub fn flagged_add(self, other: Integer) -> (r: (Integer, Flags))
        requires
            self.0 == other.0,
        ensures
            r.0.0 == self.0,
            r.0.1 as int == (self.uval() + other.uval()) % modulus(self.0),
            r.1 == result_flags(r.0, !fits_signed(self.0, self.sval() + other.sval())),
    {
        let h = (modulus_of(self.0) / 2) as i128;
        let s = self.signed() + other.signed();
        let sum = self.add(other);
        let flags = Flags { zero: sum.1 == 0, sign: sum.1 as u128 >= h as u128, overflow: s < -h || s >= h };
        (sum, flags)
    }

    /// Subtraction with flags, overflow read on the signed values.
    pub fn flagged_sub(self, other: Integer) -> (r: (Integer, Flags))
        requires
            self.0 == other.0,
        ensures
            r.0.0 == self.0,
            r.0.1 as int == (self.uval() - other.uval()) % modulus(self.0),
            r.1 == result_flags(r.0, !fits_signed(self.0, self.sval() - other.sval())),
    {
        let h = (modulus_of(self.0) / 2) as i128;
        let s = self.signed() - other.signed();
        let diff = self.sub(other);
        let flags = Flags { zero: diff.1 == 0, sign: diff.1 as u128 >= h as u128, overflow: s < -h || s >= h };
        (diff, flags)
    }

    /// Multiplication with flags: zero and sign are reported clear, overflow
    /// is read on the signed values.
    pub fn flagged_mul(self, other: Integer) -> (r: (Integer, Flags))
        requires
            self.0 == other.0,
        ensures
            r.0.0 == self.0,
            r.0.1 as int == (self.uval() * other.uval()) % modulus(self.0),
            r.1 == (Flags {
                zero: false,
                sign: false,
                overflow: !fits_signed(self.0, self.sval() * other.sval()),
            }),
    {
        let h = (modulus_of(self.0) / 2) as i128;
        let a = self.signed();
        let b = other.signed();
        assert(-0x4000_0000_0000_0000_0000_0000_0000_0000 <= a * b
            <= 0x4000_0000_0000_0000_0000_0000_0000_0000) by (nonlinear_arith)
            requires
                -0x8000_0000_0000_0000 <= a <= 0x8000_0000_0000_0000,
                -0x8000_0000_0000_0000 <= b <= 0x8000_0000_0000_0000,
        ;
        let p = a * b;
        let product = self.mul(other);
        (product, Flags { zero: false, sign: false, overflow: p < -h || p >= h })
    }

    /// Bitwise and with flags; overflow is clear.
    pub fn flagged_and(self, other: Integer) -> (r: (Integer, Flags))
        requires
            self.0 == other.0,
        ensures
            r.0.0 == self.0,
            r.0.1 as int == (self.1 & other.1) as int % modulus(self.0),
            r.1 == result_flags(r.0, false),
    {
        let h = modulus_of(self.0) / 2;
        let and = self.bitand(other);
        assert(and.uval() == and.1 as int) by {
            assert(0 <= and.1 < modulus(self.0));
            lemma_small_mod(and.1 as nat, modulus(self.0) as nat);
        }
        (and, Flags { zero: and.1 == 0, sign: and.1 as u128 >= h, overflow: false })
    }

    /// Bitwise or with flags; overflow is clear.
    pub fn flagged_or(self, other: Integer) -> (r: (Integer, Flags))
        requires
            self.0 == other.0,
        ensures
            r.0.0 == self.0,
            r.0.1 as int == (self.1 | other.1) as int % modulus(self.0),
            r.1 == result_flags(r.0, false),
    {
        let h = modulus_of(self.0) / 2;
        let or = self.bitor(other);
        assert(or.uval() == or.1 as int) by {
            assert(0 <= or.1 < modulus(self.0));
            lemma_small_mod(or.1 as nat, modulus(self.0) as nat);
        }
        (or, Flags { zero: or.1 == 0, sign: or.1 as u128 >= h, overflow: false })
    }
}

impl PartialEq for Integer {
    fn eq(&self, other: &Integer) -> (r: bool) {
        self.0 == other.0 && self.unsigned() == other.unsigned()
    }
}

impl vstd::std_specs::cmp::PartialEqSpecImpl for Integer {
    open spec fn obeys_eq_spec() -> bool {
        true
    }

    open spec fn eq_spec(&self, other: &Integer) -> bool {
        self.0 == other.0 && self.uval() == other.uval()
    }
}

impl Eq for Integer {}

impl DataType {
    /// Word representation of the data type.
    pub fn name(&self) -> (r: &'static str)
        ensures
            r@ == word_name(*self),
    {
        match self {
            DataType::N8 => {
                proof { reveal_strlit("byte"); }
                "byte"
            },
            DataType::N16 => {
                proof { reveal_strlit("word"); }
                "word"
            },
            DataType::N32 => {
                proof { reveal_strlit("dword"); }
                "dword"
            },
            DataType::N64 => {
                proof { reveal_strlit("qword"); }
                "qword"
            },
        }
    }

    /// Short tag of the data type, as used when printing values.
    pub fn tag(&self) -> (r: &'static str)
        ensures
            r@ == type_tag(*self),
    {
        match self {
            DataType::N8 => {
                proof { reveal_strlit("n8"); }
                "n8"
            },
            DataType::N16 => {
                proof { reveal_strlit("n16"); }
                "n16"
            },
            DataType::N32 => {
                proof { reveal_strlit("n32"); }
                "n32"
            },
            DataType::N64 => {
                proof { reveal_strlit("n64"); }
                "n64"
            },
        }
    }

    /// Number of bytes this data type needs to be stored.
    pub fn bytes(&self) -> (r: usize)
        ensures
            r == width_bytes(*self),
    {
        match self {
            DataType::N8 => 1,
            DataType::N16 => 2,
            DataType::N32 => 4,
            DataType::N64 => 8,
        }
    }

    /// Number of bits this data types needs to be stored.
    pub fn bits(&self) -> (r: usize)
        ensures
            r == 8 * width_bytes(*self),
    {
        self.bytes() * 8
    }
}

} // verus!
