//! Byte order, byte swapping, C strings and shell quoting.

use vstd::prelude::*;

verus! {

/// Byte order of a container's scalar fields.
#[derive(Debug, Clone, Copy, PartialEq, Eq, Structural)]
pub enum Endian {
    BigEndian,
    LittleEndian,
}

impl Default for Endian {
    fn default() -> (r: Endian)
        ensures
            r == Endian::BigEndian,
    {
        Endian::BigEndian
    }
}

/// Byte `i` (0 = least significant) of `x`.
pub open spec fn byte_of(x: u64, i: u64) -> u64 {
    (x >> (8 * i)) & 0xff
}

/// Reverses the two bytes of `x`.
pub fn bswap16(x: u16) -> (r: u16)
    ensures
        byte_of(r as u64, 0) == byte_of(x as u64, 1),
        byte_of(r as u64, 1) == byte_of(x as u64, 0),
{
    let r: u16 = ((x & 0xff) << 8) | (x >> 8);
    assert(((r as u64) >> 0) & 0xff == ((x as u64) >> 8) & 0xff && ((r as u64) >> 8) & 0xff
        == ((x as u64) >> 0) & 0xff) by (bit_vector)
        requires
            r == ((x & 0xff) << 8) | (x >> 8),
    ;
    r
}

/// Reverses the four bytes of `x`.
pub fn bswap32(x: u32) -> (r: u32)
    ensures
        forall|i: u64| i < 4 ==> #[trigger] byte_of(r as u64, i) == byte_of(x as u64, (3 - i) as u64),
{
    let r: u32 = ((x & 0xff) << 24) | ((x & 0xff00) << 8) | ((x >> 8) & 0xff00) | (x >> 24);
    assert(((r as u64) >> 0) & 0xff == ((x as u64) >> 24) & 0xff && ((r as u64) >> 8) & 0xff
        == ((x as u64) >> 16) & 0xff && ((r as u64) >> 16) & 0xff == ((x as u64) >> 8) & 0xff
        && ((r as u64) >> 24) & 0xff == ((x as u64) >> 0) & 0xff) by (bit_vector)
        requires
            r == ((x & 0xff) << 24) | ((x & 0xff00) << 8) | ((x >> 8) & 0xff00) | (x >> 24),
    ;
    assert forall|i: u64| i < 4 implies #[trigger] byte_of(r as u64, i) == byte_of(x as u64, (3 - i) as u64) by {
        if i == 0 {
        } else if i == 1 {
        } else if i == 2 {
        } else {
        }
    }
    r
}

/// Reverses the eight bytes of `x`.
pub fn bswap64(x: u64) -> (r: u64)
    ensures
        forall|i: u64| i < 8 ==> #[trigger] byte_of(r, i) == byte_of(x, (7 - i) as u64),
{
    let lo: u64 = bswap32(x as u32) as u64;
    let hi: u64 = bswap32((x >> 32) as u32) as u64;
    let r: u64 = (lo << 32) | hi;
    assert forall|i: u64| i < 8 implies #[trigger] byte_of(r, i) == byte_of(x, (7 - i) as u64) by {
        let xl = x as u32;
        let xh = (x >> 32) as u32;
        assert(xl as u64 == x & 0xffff_ffff) by (bit_vector)
            requires
                xl == x as u32,
        ;
        assert(xh as u64 == x >> 32) by (bit_vector)
            requires
                xh == (x >> 32) as u32,
        ;
        assert(byte_of(lo, 0) == byte_of(xl as u64, 3));
        assert(byte_of(lo, 1) == byte_of(xl as u64, 2));
        assert(byte_of(lo, 2) == byte_of(xl as u64, 1));
        assert(byte_of(lo, 3) == byte_of(xl as u64, 0));
        assert(byte_of(hi, 0) == byte_of(xh as u64, 3));
        assert(byte_of(hi, 1) == byte_of(xh as u64, 2));
        assert(byte_of(hi, 2) == byte_of(xh as u64, 1));
        assert(byte_of(hi, 3) == byte_of(xh as u64, 0));
        assert(lo < 0x1_0000_0000 && hi < 0x1_0000_0000 ==> {
            &&& (((lo << 32) | hi) >> 0) & 0xff == (hi >> 0) & 0xff
            &&& (((lo << 32) | hi) >> 8) & 0xff == (hi >> 8) & 0xff
            &&& (((lo << 32) | hi) >> 16) & 0xff == (hi >> 16) & 0xff
            &&& (((lo << 32) | hi) >> 24) & 0xff == (hi >> 24) & 0xff
            &&& (((lo << 32) | hi) >> 32) & 0xff == (lo >> 0) & 0xff
            &&& (((lo << 32) | hi) >> 40) & 0xff == (lo >> 8) & 0xff
            &&& (((lo << 32) | hi) >> 48) & 0xff == (lo >> 16) & 0xff
            &&& (((lo << 32) | hi) >> 56) & 0xff == (lo >> 24) & 0xff
        }) by (bit_vector);
        assert({
            &&& ((x & 0xffff_ffff) >> 0) & 0xff == (x >> 0) & 0xff
            &&& ((x & 0xffff_ffff) >> 8) & 0xff == (x >> 8) & 0xff
            &&& ((x & 0xffff_ffff) >> 16) & 0xff == (x >> 16) & 0xff
            &&& ((x & 0xffff_ffff) >> 24) & 0xff == (x >> 24) & 0xff
            &&& ((x >> 32) >> 0) & 0xff == (x >> 32) & 0xff
            &&& ((x >> 32) >> 8) & 0xff == (x >> 40) & 0xff
            &&& ((x >> 32) >> 16) & 0xff == (x >> 48) & 0xff
            &&& ((x >> 32) >> 24) & 0xff == (x >> 56) & 0xff
        }) by (bit_vector);
    }
    r
}

/// Values whose bytes can be put in the opposite order.
pub trait Swap: Sized {
    /// The value with its bytes reversed.
    spec fn swapped(&self) -> Self;

    fn bswap(&mut self)
        ensures
            *final(self) == old(self).swapped(),
    ;
}

impl Swap for u16 {
    open spec fn swapped(&self) -> u16 {
        (((*self & 0xff) << 8) | (*self >> 8)) as u16
    }

    fn bswap(&mut self) {
        let x: u16 = *self;
        *self = ((x & 0xff) << 8) | (x >> 8);
    }
}

impl Swap for u32 {
    open spec fn swapped(&self) -> u32 {
        (((*self & 0xff) << 24) | ((*self & 0xff00) << 8) | ((*self >> 8) & 0xff00) | (*self
            >> 24)) as u32
    }

    fn bswap(&mut self) {
        let x: u32 = *self;
        *self = ((x & 0xff) << 24) | ((x & 0xff00) << 8) | ((x >> 8) & 0xff00) | (x >> 24);
    }
}

impl Swap for u8 {
    open spec fn swapped(&self) -> u8 {
        *self
    }

    fn bswap(&mut self) {
    }
}

/// Brings a value read in byte order `end` to the value it denotes, for a
/// little-endian host: big-endian values are swapped, others kept.
pub fn bswap_from<T: Swap>(t: &mut T, end: Endian)
    ensures
        end == Endian::BigEndian ==> *final(t) == old(t).swapped(),
        end == Endian::LittleEndian ==> *final(t) == *old(t),
{
    if end == Endian::BigEndian {
        t.bswap();
    }
}

/// Integers that convert to `usize` the way `as` does.
pub trait ToUi {
    spec fn spec_to_ui(&self) -> usize;

    fn to_ui(&self) -> (r: usize)
        ensures
            r == self.spec_to_ui(),
    ;
}

impl ToUi for u32 {
    open spec fn spec_to_ui(&self) -> usize {
        *self as usize
    }

    fn to_ui(&self) -> usize {
        *self as usize
    }
}

impl ToUi for u16 {
    open spec fn spec_to_ui(&self) -> usize {
        *self as usize
    }

    fn to_ui(&self) -> usize {
        *self as usize
    }
}

impl ToUi for u8 {
    open spec fn spec_to_ui(&self) -> usize {
        *self as usize
    }

    fn to_ui(&self) -> usize {
        *self as usize
    }
}

impl ToUi for i32 {
    open spec fn spec_to_ui(&self) -> usize {
        *self as usize
    }

    fn to_ui(&self) -> usize {
        *self as usize
    }
}

impl ToUi for i16 {
    open spec fn spec_to_ui(&self) -> usize {
        *self as usize
    }

    fn to_ui(&self) -> usize {
        *self as usize
    }
}

impl ToUi for i8 {
    open spec fn spec_to_ui(&self) -> usize {
        *self as usize
    }

    fn to_ui(&self) -> usize {
        *self as usize
    }
}

/// Access to the value inside an `Option` known to hold one.
pub trait OptionExt<T> {
    spec fn spec_is_some(&self) -> bool;

    spec fn spec_inner(&self) -> T;

    fn unwrap_ref(&self) -> (r: &T)
        requires
            self.spec_is_some(),
        ensures
            *r == self.spec_inner(),
    ;
}

impl<T> OptionExt<T> for Option<T> {
    open spec fn spec_is_some(&self) -> bool {
        self is Some
    }

    open spec fn spec_inner(&self) -> T {
        self->0
    }

    fn unwrap_ref(&self) -> (r: &T) {
        self.as_ref().unwrap()
    }
}

/// Index of the first zero byte of `s`, or its length if it has none.
pub open spec fn first_nul(s: Seq<u8>) -> nat
    decreases s.len(),
{
    if s.len() == 0 {
        0
    } else if s[0] == 0 {
        0
    } else {
        1 + first_nul(s.drop_first())
    }
}

/// The bytes of a NUL-terminated string stored in `s`.
pub open spec fn cstr_bytes(s: Seq<u8>) -> Seq<u8> {
    s.take(first_nul(s) as int)
}

proof fn lemma_first_nul(s: Seq<u8>, i: int)
    requires
        0 <= i <= s.len(),
        forall|j: int| 0 <= j < i ==> s[j] != 0,
    ensures
        first_nul(s) == i + first_nul(s.skip(i)),
        first_nul(s) <= s.len(),
    decreases i,
{
    lemma_first_nul_le(s);
    if i == 0 {
        assert(s.skip(0) =~= s);
    } else {
        let t = s.drop_first();
        assert forall|j: int| 0 <= j < i - 1 implies t[j] != 0 by {
            assert(t[j] == s[j + 1]);
        }
        lemma_first_nul(t, i - 1);
        assert(t.skip(i - 1) =~= s.skip(i));
    }
}

proof fn lemma_first_nul_le(s: Seq<u8>)
    ensures
        first_nul(s) <= s.len(),
        first_nul(s) < s.len() ==> s[first_nul(s) as int] == 0,
        forall|j: int| 0 <= j < first_nul(s) ==> s[j] != 0,
    decreases s.len(),
{
    if s.len() > 0 && s[0] != 0 {
        let t = s.drop_first();
        lemma_first_nul_le(t);
        assert forall|j: int| 0 <= j < first_nul(s) implies s[j] != 0 by {
            if j > 0 {
                assert(s[j] == t[j - 1]);
            }
        }
    }
}

/// The bytes of `chs` before its first zero byte (all of it if none).
pub fn trim_to_null(chs: &[u8]) -> (r: &[u8])
    ensures
        r@ == cstr_bytes(chs@),
        r@.len() <= chs@.len(),
        forall|j: int| 0 <= j < r@.len() ==> r@[j] != 0,
{
    proof {
        lemma_first_nul_le(chs@);
    }
    let mut i: usize = 0;
    while i < chs.len() && chs[i] != 0
        invariant
            0 <= i <= chs@.len(),
            forall|j: int| 0 <= j < i ==> chs@[j] != 0,
        decreases chs@.len() - i,
    {
        i = i + 1;
    }
    proof {
        lemma_first_nul(chs@, i as int);
        if i < chs@.len() {
            assert(first_nul(chs@.skip(i as int)) == 0);
        } else {
            assert(chs@.skip(i as int).len() == 0);
        }
    }
    let r = &chs[0..i];
    assert(r@ =~= cstr_bytes(chs@));
    r
}

/// What `String::from_utf8_lossy` makes of a byte string.
pub uninterp spec fn lossy_of(b: Seq<u8>) -> Seq<char>;

/// The characters that ASCII bytes stand for.
pub open spec fn ascii_chars(b: Seq<u8>) -> Seq<char> {
    Seq::new(b.len(), |i: int| b[i] as char)
}

/// Relies on `String::from_utf8_lossy`: the text depends on the bytes alone,
/// and ASCII bytes, being valid UTF-8, come back as the same characters.
#[verifier::external_body]
fn lossy_string(b: &[u8]) -> (r: String)
    ensures
        r@ == lossy_of(b@),
        (forall|i: int| 0 <= i < b@.len() ==> b@[i] < 128) ==> r@ == ascii_chars(b@),
{
    String::from_utf8_lossy(b).to_string()
}

/// The text of the NUL-terminated string in `chs`, invalid UTF-8 replaced.
pub fn from_cstr(chs: &[u8]) -> (r: String)
    ensures
        r@ == lossy_of(cstr_bytes(chs@)),
{
    let truncated = trim_to_null(chs);
    lossy_string(truncated)
}

/// Whether byte `c` is printed as itself: printable ASCII and the
/// whitespace controls tab to carriage return.
pub open spec fn is_print(c: u8) -> bool {
    if c >= 32 {
        c < 127
    } else {
        9 <= c <= 13
    }
}

fn isprint(c: u8) -> (r: bool)
    ensures
        r == is_print(c),
{
    if c >= 32 {
        c < 127
    } else {
        let bit: u32 = 1u32 << (c as u32);
        let r = bit & 0x3e00 != 0;
        assert(r == (9 <= c <= 13)) by (bit_vector)
            requires
                c < 32,
                bit == 1u32 << (c as u32),
                r == (bit & 0x3e00 != 0),
        ;
        r
    }
}

/// Lower-case hexadecimal digit of `d` (below 16).
pub open spec fn hex_digit(d: u8) -> u8 {
    if d < 10 {
        (48 + d) as u8
    } else {
        (87 + d) as u8
    }
}

/// How one byte of an argument is written between double quotes.
pub open spec fn quote_byte(c: u8) -> Seq<u8> {
    if c == 10 {
        seq![92u8, 110u8]
    } else if c == 36 || c == 96 || c == 92 || c == 34 {
        seq![92u8, c]
    } else if !is_print(c) {
        seq![92u8, 92u8, 120u8, hex_digit(c / 16), hex_digit(c % 16)]
    } else {
        seq![c]
    }
}

/// The quoted bytes of `a`, without the surrounding quotes.
pub open spec fn quote_body(a: Seq<u8>) -> Seq<u8>
    decreases a.len(),
{
    if a.len() == 0 {
        Seq::empty()
    } else {
        quote_body(a.drop_last()) + quote_byte(a.last())
    }
}

/// One argument as a double-quoted shell word.
pub open spec fn quote_arg(a: Seq<u8>) -> Seq<u8> {
    seq![34u8] + quote_body(a) + seq![34u8]
}

/// The arguments as quoted shell words separated by single spaces.
pub open spec fn shell_quote_bytes(args: Seq<Seq<u8>>) -> Seq<u8>
    decreases args.len(),
{
    if args.len() == 0 {
        Seq::empty()
    } else if args.len() == 1 {
        quote_arg(args[0])
    } else {
        shell_quote_bytes(args.drop_last()) + seq![32u8] + quote_arg(args.last())
    }
}

/// The UTF-8 bytes of each argument.
pub open spec fn args_bytes(args: Seq<String>) -> Seq<Seq<u8>> {
    args.map_values(|s: String| vstd::utf8::encode_utf8(s@))
}

pub open spec fn all_ascii(b: Seq<u8>) -> bool {
    forall|i: int| 0 <= i < b.len() ==> b[i] < 128
}

proof fn lemma_quote_byte_ascii(c: u8)
    ensures
        all_ascii(quote_byte(c)),
        quote_byte(c).len() <= 5,
{
}

fn push_hex(out: &mut Vec<u8>, d: u8)
    requires
        d < 16,
    ensures
        final(out)@ == old(out)@.push(hex_digit(d)),
{
    if d < 10 {
        out.push(48 + d);
    } else {
        out.push(87 + d);
    }
}

fn push_quoted_byte(out: &mut Vec<u8>, c: u8)
    ensures
        final(out)@ == old(out)@ + quote_byte(c),
{
    let ghost start = out@;
    if c == 10 {
        out.push(92);
        out.push(110);
    } else if c == 36 || c == 96 || c == 92 || c == 34 {
        out.push(92);
        out.push(c);
    } else if !isprint(c) {
        out.push(92);
        out.push(92);
        out.push(120);
        push_hex(out, c / 16);
        push_hex(out, c % 16);
    } else {
        out.push(c);
    }
    assert(out@ =~= start + quote_byte(c));
}

fn push_quoted_arg(out: &mut Vec<u8>, a: &[u8])
    ensures
        final(out)@ == old(out)@ + quote_arg(a@),
{
    let ghost start = out@;
    out.push(34);
    let mut i: usize = 0;
    while i < a.len()
        invariant
            0 <= i <= a@.len(),
            out@ == start + seq![34u8] + quote_body(a@.take(i as int)),
        decreases a@.len() - i,
    {
        push_quoted_byte(out, a[i]);
        proof {
            let t = a@.take(i as int + 1);
            assert(t.drop_last() =~= a@.take(i as int));
            assert(t.last() == a@[i as int]);
        }
        i = i + 1;
    }
    assert(a@.take(i as int) =~= a@);
    out.push(34);
    assert(out@ =~= start + quote_arg(a@));
}

proof fn lemma_quote_ascii(args: Seq<Seq<u8>>)
    ensures
        all_ascii(shell_quote_bytes(args)),
    decreases args.len(),
{
    if args.len() > 0 {
        lemma_body_ascii(args.last());
        if args.len() > 1 {
            lemma_quote_ascii(args.drop_last());
        } else {
            lemma_body_ascii(args[0]);
        }
    }
}

proof fn lemma_body_ascii(a: Seq<u8>)
    ensures
        all_ascii(quote_body(a)),
    decreases a.len(),
{
    if a.len() > 0 {
        lemma_body_ascii(a.drop_last());
        lemma_quote_byte_ascii(a.last());
    }
}

/// Joins the arguments into one shell command line, each as a double-quoted
/// word in which `$`, backquote, backslash, double quote and newline are
/// escaped and other unprintable bytes are written as `\\xNN`.
pub fn shell_quote(args: &[String]) -> (r: String)
    ensures
        r@ == ascii_chars(shell_quote_bytes(args_bytes(args@))),
{
    let ghost ab = args_bytes(args@);
    let mut sb: Vec<u8> = Vec::new();
    let mut k: usize = 0;
    while k < args.len()
        invariant
            0 <= k <= args@.len(),
            ab == args_bytes(args@),
            sb@ == shell_quote_bytes(ab.take(k as int)),
        decreases args@.len() - k,
    {
        if sb.len() != 0 {
            sb.push(32);
        }
        let arg: &str = args[k].as_str();
        push_quoted_arg(&mut sb, arg.as_bytes());
        proof {
            let t = ab.take(k as int + 1);
            assert(t.drop_last() =~= ab.take(k as int));
            assert(t.last() == ab[k as int]);
            if k == 0 {
                assert(t.len() == 1);
            } else {
                assert(shell_quote_bytes(ab.take(k as int)).len() > 0) by {
                    let p = ab.take(k as int);
                    if p.len() > 1 {
                        assert(quote_arg(p.last()).len() >= 2);
                    }
                }
            }
        }
        k = k + 1;
    }
    assert(ab.take(k as int) =~= ab);
    proof {
        lemma_quote_ascii(ab);
    }
    lossy_string(sb.as_slice())
}

} // verus!
