//! Position hashers: the functions that place strings on the ring.
use vstd::prelude::*;

verus! {

/// A position on the ring.
pub type Position = u128;

/// How strings are turned into ring positions.
#[derive(Debug)]
pub enum Hasher {
    /// The IEEE CRC-32 checksum of the string's UTF-8 bytes.
    Crc32,
    /// The MD5 digest of the string's UTF-8 bytes, read as a big-endian number.
    Md5,
    /// A fixed position, written in decimal, whatever the string.
    Mock(String),
}

/// What a hasher is, with the text of a fixed position as characters.
pub enum HasherView {
    Crc32,
    Md5,
    Mock(Seq<char>),
}

impl View for Hasher {
    type V = HasherView;

    open spec fn view(&self) -> HasherView {
        match self {
            Hasher::Crc32 => HasherView::Crc32,
            Hasher::Md5 => HasherView::Md5,
            Hasher::Mock(text) => HasherView::Mock(text@),
        }
    }
}

/// The IEEE CRC-32 checksum of the UTF-8 encoding of `s`.
pub uninterp spec fn crc32_of(s: Seq<char>) -> u32;

/// The 16-byte MD5 digest of the UTF-8 encoding of `s`.
pub uninterp spec fn md5_of(s: Seq<char>) -> Seq<u8>;

pub open spec fn is_digit(c: char) -> bool {
    48 <= (c as u32) <= 57
}

pub open spec fn digit_value(c: char) -> nat {
    ((c as u32) - 48) as nat
}

pub open spec fn digit_char(d: nat) -> char {
    (d + 48) as char
}

/// The number that a string of decimal digits stands for.
pub open spec fn decimal_value(s: Seq<char>) -> nat
    decreases s.len(),
{
    if s.len() == 0 {
        0
    } else {
        decimal_value(s.drop_last()) * 10 + digit_value(s.last())
    }
}

/// The decimal digits of `n`, without leading zeros.
pub open spec fn decimal_text(n: nat) -> Seq<char>
    decreases n,
{
    if n < 10 {
        seq![digit_char(n)]
    } else {
        decimal_text(n / 10).push(digit_char(n % 10))
    }
}

/// `s` is the decimal text of a position: digits only, at least one, and
/// a value that fits.
pub open spec fn is_position_text(s: Seq<char>) -> bool {
    &&& s.len() > 0
    &&& forall|i: int| 0 <= i < s.len() ==> is_digit(#[trigger] s[i])
    &&& decimal_value(s) <= u128::MAX
}

/// The number that bytes stand for, the most significant first.
pub open spec fn big_endian_value(b: Seq<u8>) -> nat
    decreases b.len(),
{
    if b.len() == 0 {
        0
    } else {
        big_endian_value(b.drop_last()) * 256 + b.last() as nat
    }
}

impl HasherView {
    /// A fixed position must be the decimal text of a `u128`.
    pub open spec fn wf(self) -> bool {
        match self {
            HasherView::Mock(text) => is_position_text(text),
            _ => true,
        }
    }

    /// The position that this hasher gives the string `s`.
    pub open spec fn position_of(self, s: Seq<char>) -> u128 {
        match self {
            HasherView::Crc32 => crc32_of(s) as u128,
            HasherView::Md5 => big_endian_value(md5_of(s)) as u128,
            HasherView::Mock(text) => decimal_value(text) as u128,
        }
    }
}

/// Relies on `crc::crc32::checksum_ieee`, applied to the UTF-8 bytes of `s`.
#[verifier::external_body]
fn crc32_checksum(s: &str) -> (r: u32)
    ensures
        r == crc32_of(s@),
{
    crc::crc32::checksum_ieee(s.as_bytes())
}

/// Relies on `md5::compute`, applied to the UTF-8 bytes of `s`: its digest's bytes.
#[verifier::external_body]
fn md5_digest(s: &str) -> (r: [u8; 16])
    ensures
        r@ == md5_of(s@),
{
    md5::compute(s.as_bytes()).0
}

/// Relies on `format!` with std's `Display` for `str` and `u64`: the text
/// followed by the number in decimal.
#[verifier::external_body]
pub(crate) fn replica_key(target: &str, index: u64) -> (r: String)
    ensures
        r@ == target@ + decimal_text(index as nat),
{
    format!("{}{}", target, index)
}

proof fn lemma_decimal_prefix_le(s: Seq<char>, k: int)
    requires
        0 <= k <= s.len(),
    ensures
        decimal_value(s.take(k)) <= decimal_value(s),
    decreases s.len(),
{
    if k < s.len() {
        lemma_decimal_prefix_le(s.drop_last(), k);
        assert(s.drop_last().take(k) =~= s.take(k));
    } else {
        assert(s.take(k) =~= s);
    }
}

/// Reads the decimal text of a fixed position.
fn parse_position(text: &str) -> (r: u128)
    requires
        is_position_text(text@),
    ensures
        r == decimal_value(text@),
{
    let n = text.unicode_len();
    let mut value: u128 = 0;
    let mut i: usize = 0;
    while i < n
        invariant
            n == text@.len(),
            i <= n,
            is_position_text(text@),
            value == decimal_value(text@.take(i as int)),
        decreases n - i,
    {
        let c = text.get_char(i);
        proof {
            lemma_decimal_prefix_le(text@, i + 1);
            assert(text@.take(i + 1).drop_last() =~= text@.take(i as int));
            assert(is_digit(text@[i as int]));
        }
        value = value * 10 + ((c as u32) - 48) as u128;
        i = i + 1;
    }
    assert(text@.take(n as int) =~= text@);
    value
}

/// The number of values that `n` bytes can hold.
pub open spec fn byte_space(n: nat) -> nat
    decreases n,
{
    if n == 0 {
        1
    } else {
        256 * byte_space((n - 1) as nat)
    }
}

proof fn lemma_big_endian_bound(b: Seq<u8>)
    ensures
        big_endian_value(b) < byte_space(b.len()),
    decreases b.len(),
{
    if b.len() > 0 {
        lemma_big_endian_bound(b.drop_last());
        let v = big_endian_value(b.drop_last());
        let m = byte_space(b.drop_last().len());
        assert(v * 256 + b.last() < m * 256) by (nonlinear_arith)
            requires
                v < m,
                b.last() < 256,
        ;
    }
}

/// Reads a 16-byte digest as a big-endian number.
fn position_from_digest(digest: [u8; 16]) -> (r: u128)
    ensures
        r == big_endian_value(digest@),
{
    let mut value: u128 = 0;
    let mut i: usize = 0;
    proof {
        reveal_with_fuel(byte_space, 17);
    }
    assert(byte_space(16) == 0x1_0000_0000_0000_0000_0000_0000_0000_0000);
    while i < 16
        invariant
            i <= 16,
            digest@.len() == 16,
            value == big_endian_value(digest@.take(i as int)),
            byte_space(16) == 0x1_0000_0000_0000_0000_0000_0000_0000_0000,
        decreases 16 - i,
    {
        proof {
            assert(digest@.take(i + 1).drop_last() =~= digest@.take(i as int));
            lemma_big_endian_bound(digest@.take(i + 1));
            lemma_byte_space_grows(i as nat + 1, 16);
        }
        value = value * 256 + digest[i] as u128;
        i = i + 1;
    }
    assert(digest@.take(16) =~= digest@);
    value
}

proof fn lemma_byte_space_grows(m: nat, n: nat)
    requires
        m <= n,
    ensures
        byte_space(m) <= byte_space(n),
    decreases n,
{
    if m < n {
        lemma_byte_space_grows(m, (n - 1) as nat);
    }
}

/// The position of `value` under `hasher`.
pub fn hash(hasher: &Hasher, value: &str) -> (r: Position)
    requires
        hasher@.wf(),
    ensures
        r == hasher@.position_of(value@),
{
    match hasher {
        Hasher::Crc32 => crc32_checksum(value) as u128,
        Hasher::Md5 => position_from_digest(md5_digest(value)),
        Hasher::Mock(text) => parse_position(text.as_str()),
    }
}

} // verus!
