//! Keys of the tree: the `KeyTrait` that key types implement, the two key types
//! the library offers (`ArrayKey` and `VectorKey`), and `IntoKey`, the conversion
//! from strings and integers into keys.
//!
//! A key stands for a byte string. Strings are encoded as their UTF-8 bytes followed
//! by a zero terminator, so that no string key is a proper prefix of another;
//! unsigned integers as their big-endian bytes, so that the byte order of keys is the
//! numeric order; signed 32-bit integers as the big-endian bytes of their
//! two's-complement bit pattern.
use vstd::prelude::*;
use vstd::string::StringSliceAdditionalSpecFns;
use crate::bytes::{copy_range, lemma_lex_step, lex_lt};

verus! {

/// A type whose values stand for byte strings and can be rebuilt from them.
pub trait KeyTrait: View<V = Seq<u8>> + Sized {
    /// The bytes of the key.
    fn as_slice(&self) -> (r: &[u8])
        ensures
            r@ == self@,
    ;

    /// A key holding exactly the bytes of `slice`.
    fn new_from_slice(slice: &[u8]) -> (r: Self)
        ensures
            r@ == slice@,
    ;
}

/// Conversion of a value into a key of type `K`.
pub trait IntoKey<K: KeyTrait> {
    /// The bytes of the key this value converts into.
    spec fn key_bytes(&self) -> Seq<u8>;

    fn into_key(self) -> (k: K)
        ensures
            k@ == self.key_bytes(),
    ;
}

/// Bytes of a string key: UTF-8 followed by a zero terminator.
pub open spec fn str_key_bytes(s: &str) -> Seq<u8> {
    s.spec_bytes().push(0u8)
}

/// Big-endian bytes of a `u64`.
pub open spec fn u64_key_bytes(x: u64) -> Seq<u8> {
    seq![
        (x >> 56u64) as u8,
        (x >> 48u64) as u8,
        (x >> 40u64) as u8,
        (x >> 32u64) as u8,
        (x >> 24u64) as u8,
        (x >> 16u64) as u8,
        (x >> 8u64) as u8,
        x as u8,
    ]
}

/// Big-endian bytes of a `u32`.
pub open spec fn u32_key_bytes(x: u32) -> Seq<u8> {
    seq![(x >> 24u32) as u8, (x >> 16u32) as u8, (x >> 8u32) as u8, x as u8]
}

/// The bytes a string converts into.
pub fn str_to_key_bytes(s: &str) -> (r: Vec<u8>)
    ensures
        r@ == str_key_bytes(s),
{
    let mut r = s.as_bytes_vec();
    r.push(0u8);
    r
}

/// The bytes a `u64` converts into.
pub fn u64_to_key_bytes(x: u64) -> (r: Vec<u8>)
    ensures
        r@ == u64_key_bytes(x),
{
    let mut r: Vec<u8> = Vec::new();
    r.push((x >> 56u64) as u8);
    r.push((x >> 48u64) as u8);
    r.push((x >> 40u64) as u8);
    r.push((x >> 32u64) as u8);
    r.push((x >> 24u64) as u8);
    r.push((x >> 16u64) as u8);
    r.push((x >> 8u64) as u8);
    r.push(x as u8);
    proof {
        assert(r@ =~= u64_key_bytes(x));
    }
    r
}

/// The bytes a `u32` converts into.
pub fn u32_to_key_bytes(x: u32) -> (r: Vec<u8>)
    ensures
        r@ == u32_key_bytes(x),
{
    let mut r: Vec<u8> = Vec::new();
    r.push((x >> 24u32) as u8);
    r.push((x >> 16u32) as u8);
    r.push((x >> 8u32) as u8);
    r.push(x as u8);
    proof {
        assert(r@ =~= u32_key_bytes(x));
    }
    r
}

/// The number whose big-endian bytes are the first eight bytes of `b`, with
/// missing bytes read as zero.
pub open spec fn be_u64_of(b: Seq<u8>) -> u64 {
    let g = |i: int| if i < b.len() { b[i] as u64 } else { 0u64 };
    (g(0) << 56u64) | (g(1) << 48u64) | (g(2) << 40u64) | (g(3) << 32u64) | (g(4) << 24u64) | (
    g(5) << 16u64) | (g(6) << 8u64) | g(7)
}

/// Reading back the big-endian bytes of a `u64` gives the number.
pub proof fn lemma_u64_key_roundtrip(x: u64)
    ensures
        be_u64_of(u64_key_bytes(x)) == x,
{
    let b = u64_key_bytes(x);
    assert(be_u64_of(b) == ((((x >> 56u64) as u8) as u64) << 56u64) | ((((x >> 48u64) as u8) as u64)
        << 48u64) | ((((x >> 40u64) as u8) as u64) << 40u64) | ((((x >> 32u64) as u8) as u64)
        << 32u64) | ((((x >> 24u64) as u8) as u64) << 24u64) | ((((x >> 16u64) as u8) as u64)
        << 16u64) | ((((x >> 8u64) as u8) as u64) << 8u64) | ((x as u8) as u64));
    assert(((((x >> 56u64) as u8) as u64) << 56u64) | ((((x >> 48u64) as u8) as u64) << 48u64) | ((((
    x >> 40u64) as u8) as u64) << 40u64) | ((((x >> 32u64) as u8) as u64) << 32u64) | ((((x
        >> 24u64) as u8) as u64) << 24u64) | ((((x >> 16u64) as u8) as u64) << 16u64) | ((((x
        >> 8u64) as u8) as u64) << 8u64) | ((x as u8) as u64) == x) by (bit_vector);
}

/// Keys made from `u64` values sort like the values: the byte order of two such
/// keys is the numeric order of the numbers.
pub proof fn lemma_u64_key_order(a: u64, b: u64)
    ensures
        a < b <==> lex_lt(u64_key_bytes(a), u64_key_bytes(b)),
{
    let x = u64_key_bytes(a);
    let y = u64_key_bytes(b);
    assert(x.skip(0) == x);
    assert(y.skip(0) == y);
    lemma_lex_step(x, y, 0);
    lemma_lex_step(x, y, 1);
    lemma_lex_step(x, y, 2);
    lemma_lex_step(x, y, 3);
    lemma_lex_step(x, y, 4);
    lemma_lex_step(x, y, 5);
    lemma_lex_step(x, y, 6);
    lemma_lex_step(x, y, 7);
    assert(!lex_lt(x.skip(8), y.skip(8)));
    assert(a < b <==> (if ((a >> 56u64) as u8) != ((b >> 56u64) as u8) {
        ((a >> 56u64) as u8) < ((b >> 56u64) as u8)
    } else if ((a >> 48u64) as u8) != ((b >> 48u64) as u8) {
        ((a >> 48u64) as u8) < ((b >> 48u64) as u8)
    } else if ((a >> 40u64) as u8) != ((b >> 40u64) as u8) {
        ((a >> 40u64) as u8) < ((b >> 40u64) as u8)
    } else if ((a >> 32u64) as u8) != ((b >> 32u64) as u8) {
        ((a >> 32u64) as u8) < ((b >> 32u64) as u8)
    } else if ((a >> 24u64) as u8) != ((b >> 24u64) as u8) {
        ((a >> 24u64) as u8) < ((b >> 24u64) as u8)
    } else if ((a >> 16u64) as u8) != ((b >> 16u64) as u8) {
        ((a >> 16u64) as u8) < ((b >> 16u64) as u8)
    } else if ((a >> 8u64) as u8) != ((b >> 8u64) as u8) {
        ((a >> 8u64) as u8) < ((b >> 8u64) as u8)
    } else {
        (a as u8) < (b as u8)
    })) by (bit_vector);
}

/// Keys made from `u32` values sort like the values: the byte order of two such
/// keys is the numeric order of the numbers.
pub proof fn lemma_u32_key_order(a: u32, b: u32)
    ensures
        a < b <==> lex_lt(u32_key_bytes(a), u32_key_bytes(b)),
{
    let x = u32_key_bytes(a);
    let y = u32_key_bytes(b);
    assert(x.skip(0) == x);
    assert(y.skip(0) == y);
    lemma_lex_step(x, y, 0);
    lemma_lex_step(x, y, 1);
    lemma_lex_step(x, y, 2);
    lemma_lex_step(x, y, 3);
    assert(!lex_lt(x.skip(4), y.skip(4)));
    assert(a < b <==> (if ((a >> 24u32) as u8) != ((b >> 24u32) as u8) {
        ((a >> 24u32) as u8) < ((b >> 24u32) as u8)
    } else if ((a >> 16u32) as u8) != ((b >> 16u32) as u8) {
        ((a >> 16u32) as u8) < ((b >> 16u32) as u8)
    } else if ((a >> 8u32) as u8) != ((b >> 8u32) as u8) {
        ((a >> 8u32) as u8) < ((b >> 8u32) as u8)
    } else {
        (a as u8) < (b as u8)
    })) by (bit_vector);
}

/// Keys made from non-negative `i32` values sort like the values.
pub proof fn lemma_i32_key_order<K: KeyTrait>(a: i32, b: i32)
    requires
        0 <= a,
        0 <= b,
    ensures
        a < b <==> lex_lt(<i32 as IntoKey<K>>::key_bytes(&a), <i32 as IntoKey<K>>::key_bytes(&b)),
{
    assert((a as u32) as int == a as int);
    assert((b as u32) as int == b as int);
    lemma_u32_key_order(a as u32, b as u32);
}

/// The key bytes of a `u32` read back, most significant byte first, as the number.
pub proof fn lemma_u32_key_big_endian(x: u32)
    ensures
        u32_key_bytes(x).len() == 4,
        u32_key_bytes(x)[0] as int * 0x1000000 + u32_key_bytes(x)[1] as int * 0x10000
            + u32_key_bytes(x)[2] as int * 0x100 + u32_key_bytes(x)[3] as int == x as int,
{
    assert(((x >> 24u32) as u8) as int * 0x1000000 + ((x >> 16u32) as u8) as int * 0x10000 + ((x
        >> 8u32) as u8) as int * 0x100 + (x as u8) as int == x as int) by (bit_vector);
}

/// Reads the first eight bytes of `b` as a big-endian number (missing bytes are zero).
pub fn be_u64_from(b: &[u8]) -> (r: u64)
    ensures
        r == be_u64_of(b@),
{
    let g0: u64 = if 0 < b.len() { b[0] as u64 } else { 0 };
    let g1: u64 = if 1 < b.len() { b[1] as u64 } else { 0 };
    let g2: u64 = if 2 < b.len() { b[2] as u64 } else { 0 };
    let g3: u64 = if 3 < b.len() { b[3] as u64 } else { 0 };
    let g4: u64 = if 4 < b.len() { b[4] as u64 } else { 0 };
    let g5: u64 = if 5 < b.len() { b[5] as u64 } else { 0 };
    let g6: u64 = if 6 < b.len() { b[6] as u64 } else { 0 };
    let g7: u64 = if 7 < b.len() { b[7] as u64 } else { 0 };
    (g0 << 56u64) | (g1 << 48u64) | (g2 << 40u64) | (g3 << 32u64) | (g4 << 24u64) | (g5 << 16u64) | (
    g6 << 8u64) | g7
}

/// A key of the byte-array kind: its type names the key width `N` it is meant for.
#[derive(Clone, Debug, PartialEq, Eq, PartialOrd, Ord, Hash)]
pub struct ArrayKey<const N: usize> {
    bytes: Vec<u8>,
}

impl<const N: usize> View for ArrayKey<N> {
    type V = Seq<u8>;

    closed spec fn view(&self) -> Seq<u8> {
        self.bytes@
    }
}

impl<const N: usize> KeyTrait for ArrayKey<N> {
    fn as_slice(&self) -> (r: &[u8]) {
        self.bytes.as_slice()
    }

    fn new_from_slice(slice: &[u8]) -> (r: Self) {
        ArrayKey { bytes: copy_range(slice, 0, slice.len()) }
    }
}

impl<const N: usize> ArrayKey<N> {
    /// A key holding exactly `bytes`.
    pub fn from_bytes(bytes: Vec<u8>) -> (r: Self)
        ensures
            r@ == bytes@,
    {
        ArrayKey { bytes }
    }

    /// Number of bytes in the key.
    pub fn len(&self) -> (r: usize)
        ensures
            r == self@.len(),
    {
        self.bytes.len()
    }

    /// The key read as a big-endian `u64` (its first eight bytes, missing ones zero).
    pub fn to_be_u64(&self) -> (r: u64)
        ensures
            r == be_u64_of(self@),
    {
        be_u64_from(self.bytes.as_slice())
    }
}

/// A key of variable length.
#[derive(Clone, Debug, PartialEq, Eq, PartialOrd, Ord, Hash)]
pub struct VectorKey {
    bytes: Vec<u8>,
}

impl View for VectorKey {
    type V = Seq<u8>;

    closed spec fn view(&self) -> Seq<u8> {
        self.bytes@
    }
}

impl KeyTrait for VectorKey {
    fn as_slice(&self) -> (r: &[u8]) {
        self.bytes.as_slice()
    }

    fn new_from_slice(slice: &[u8]) -> (r: Self) {
        VectorKey { bytes: copy_range(slice, 0, slice.len()) }
    }
}

impl VectorKey {
    /// A key holding exactly `bytes`.
    pub fn from_bytes(bytes: Vec<u8>) -> (r: Self)
        ensures
            r@ == bytes@,
    {
        VectorKey { bytes }
    }

    /// Number of bytes in the key.
    pub fn len(&self) -> (r: usize)
        ensures
            r == self@.len(),
    {
        self.bytes.len()
    }

    /// The key read as a big-endian `u64` (its first eight bytes, missing ones zero).
    pub fn to_be_u64(&self) -> (r: u64)
        ensures
            r == be_u64_of(self@),
    {
        be_u64_from(self.bytes.as_slice())
    }
}

impl<const N: usize> IntoKey<ArrayKey<N>> for ArrayKey<N> {
    open spec fn key_bytes(&self) -> Seq<u8> {
        self@
    }

    fn into_key(self) -> (k: ArrayKey<N>) {
        self
    }
}

impl<'a, const N: usize> IntoKey<ArrayKey<N>> for &'a ArrayKey<N> {
    open spec fn key_bytes(&self) -> Seq<u8> {
        (**self)@
    }

    fn into_key(self) -> (k: ArrayKey<N>) {
        ArrayKey::new_from_slice(self.as_slice())
    }
}

impl IntoKey<VectorKey> for VectorKey {
    open spec fn key_bytes(&self) -> Seq<u8> {
        self@
    }

    fn into_key(self) -> (k: VectorKey) {
        self
    }
}

impl<'a> IntoKey<VectorKey> for &'a VectorKey {
    open spec fn key_bytes(&self) -> Seq<u8> {
        (**self)@
    }

    fn into_key(self) -> (k: VectorKey) {
        VectorKey::new_from_slice(self.as_slice())
    }
}

impl<'a, K: KeyTrait> IntoKey<K> for &'a str {
    open spec fn key_bytes(&self) -> Seq<u8> {
        str_key_bytes(*self)
    }

    fn into_key(self) -> (k: K) {
        let b = str_to_key_bytes(self);
        K::new_from_slice(b.as_slice())
    }
}

impl<K: KeyTrait> IntoKey<K> for u64 {
    open spec fn key_bytes(&self) -> Seq<u8> {
        u64_key_bytes(*self)
    }

    fn into_key(self) -> (k: K) {
        let b = u64_to_key_bytes(self);
        K::new_from_slice(b.as_slice())
    }
}

impl<K: KeyTrait> IntoKey<K> for usize {
    open spec fn key_bytes(&self) -> Seq<u8> {
        u64_key_bytes(*self as u64)
    }

    fn into_key(self) -> (k: K) {
        let b = u64_to_key_bytes(self as u64);
        K::new_from_slice(b.as_slice())
    }
}

impl<K: KeyTrait> IntoKey<K> for i32 {
    open spec fn key_bytes(&self) -> Seq<u8> {
        u32_key_bytes(*self as u32)
    }

    fn into_key(self) -> (k: K) {
        let b = u32_to_key_bytes(self as u32);
        K::new_from_slice(b.as_slice())
    }
}

impl<'a, const N: usize> From<&'a str> for ArrayKey<N> {
    fn from(s: &'a str) -> (r: Self)
        ensures
            r@ == str_key_bytes(s),
    {
        ArrayKey { bytes: str_to_key_bytes(s) }
    }
}

impl<const N: usize> From<u64> for ArrayKey<N> {
    fn from(x: u64) -> (r: Self)
        ensures
            r@ == u64_key_bytes(x),
    {
        ArrayKey { bytes: u64_to_key_bytes(x) }
    }
}

impl<const N: usize> From<usize> for ArrayKey<N> {
    fn from(x: usize) -> (r: Self)
        ensures
            r@ == u64_key_bytes(x as u64),
    {
        ArrayKey { bytes: u64_to_key_bytes(x as u64) }
    }
}

impl<const N: usize> From<i32> for ArrayKey<N> {
    fn from(x: i32) -> (r: Self)
        ensures
            r@ == u32_key_bytes(x as u32),
    {
        ArrayKey { bytes: u32_to_key_bytes(x as u32) }
    }
}

impl<'a> From<&'a str> for VectorKey {
    fn from(s: &'a str) -> (r: Self)
        ensures
            r@ == str_key_bytes(s),
    {
        VectorKey { bytes: str_to_key_bytes(s) }
    }
}


// The conversions above state the bytes they produce in their own `ensures`; the
// generic specification of `From` is not claimed for them.
impl<'a, const N: usize> vstd::std_specs::convert::FromSpecImpl<&'a str> for ArrayKey<N> {
    open spec fn obeys_from_spec() -> bool {
        false
    }

    open spec fn from_spec(v: &'a str) -> Self {
        choose|k: Self| k@ == str_key_bytes(v)
    }
}

impl<const N: usize> vstd::std_specs::convert::FromSpecImpl<u64> for ArrayKey<N> {
    open spec fn obeys_from_spec() -> bool {
        false
    }

    open spec fn from_spec(v: u64) -> Self {
        choose|k: Self| k@ == u64_key_bytes(v)
    }
}

impl<const N: usize> vstd::std_specs::convert::FromSpecImpl<usize> for ArrayKey<N> {
    open spec fn obeys_from_spec() -> bool {
        false
    }

    open spec fn from_spec(v: usize) -> Self {
        choose|k: Self| k@ == u64_key_bytes(v as u64)
    }
}

impl<const N: usize> vstd::std_specs::convert::FromSpecImpl<i32> for ArrayKey<N> {
    open spec fn obeys_from_spec() -> bool {
        false
    }

    open spec fn from_spec(v: i32) -> Self {
        choose|k: Self| k@ == u32_key_bytes(v as u32)
    }
}

impl<'a> vstd::std_specs::convert::FromSpecImpl<&'a str> for VectorKey {
    open spec fn obeys_from_spec() -> bool {
        false
    }

    open spec fn from_spec(v: &'a str) -> Self {
        choose|k: Self| k@ == str_key_bytes(v)
    }
}

} // verus!
