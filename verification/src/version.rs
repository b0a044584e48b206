use vstd::prelude::*;
use vstd::string::StringSliceAdditionalSpecFns;

verus! {

/// A protocol version: a major number below 1024 and a minor number below
/// 64, packed into sixteen bits with the major number on top.
#[derive(Clone, Copy, Hash, PartialEq, Eq, PartialOrd, Ord, Debug)]
pub struct Version(u16);

impl Version {
    /// The sixteen bits of the version.
    pub closed spec fn raw(self) -> u16 {
        self.0
    }

    /// The version with the bits `v`.
    pub fn from_raw(v: u16) -> (version: Self)
        ensures
            version.raw() == v,
    {
        Version(v)
    }

    /// The version `major.minor`.
    pub fn new(major: u16, minor: u16) -> (version: Self)
        requires
            major < 1024,
            minor < 64,
        ensures
            version.raw() == major * 64 + minor,
    {
        assert((major << 6) | minor == major * 64 + minor) by (bit_vector)
            requires
                major < 1024,
                minor < 64,
        ;
        Version((major << 6) | minor)
    }

    /// The sixteen bits of the version.
    pub fn into_raw(self) -> (v: u16)
        ensures
            v == self.raw(),
    {
        self.0
    }

    /// The major number.
    pub fn major(self) -> (major: u16)
        ensures
            major == self.raw() / 64,
    {
        let bits: u16 = self.0;
        assert(bits >> 6 == bits / 64) by (bit_vector);
        self.0 >> 6
    }

    /// The minor number.
    pub fn minor(self) -> (minor: u16)
        ensures
            minor == self.raw() % 64,
    {
        let bits: u16 = self.0;
        assert(bits & 0x3F == bits % 64) by (bit_vector);
        self.0 & 0x3F
    }
}

/// The value of a digit: `0` to `9`, then `A` to `Z` or `a` to `z` for 10 to
/// 35; none for any other byte.
pub open spec fn digit_of(b: u8) -> Option<int> {
    if 48 <= b <= 57 {
        Some(b - 48)
    } else if 65 <= b <= 90 {
        Some(b - 65 + 10)
    } else if 97 <= b <= 122 {
        Some(b - 97 + 10)
    } else {
        None
    }
}

/// Whether every byte is a digit of the number system with base `radix`.
pub open spec fn all_digits(bytes: Seq<u8>, radix: int) -> bool {
    forall|i: int|
        0 <= i < bytes.len() ==> digit_of(#[trigger] bytes[i]) is Some && digit_of(
            bytes[i],
        ).unwrap() < radix
}

/// The number that the first `upto` digits spell in base `radix`.
pub open spec fn digits_value(bytes: Seq<u8>, radix: int, upto: int) -> int
    decreases upto,
{
    if upto <= 0 {
        0
    } else {
        digits_value(bytes, radix, upto - 1) * radix + digit_of(bytes[upto - 1]).unwrap()
    }
}

/// Whether `bytes` spell a number in base `radix` that fits sixteen bits.
pub open spec fn spells_u16(bytes: Seq<u8>, radix: int) -> bool {
    &&& 2 <= radix <= 36
    &&& all_digits(bytes, radix)
    &&& digits_value(bytes, radix, bytes.len() as int) <= u16::MAX
}

/// More digits never spell a smaller number.
pub proof fn lemma_digits_value_grows(bytes: Seq<u8>, radix: int, shorter: int, longer: int)
    requires
        1 <= radix,
        all_digits(bytes, radix),
        0 <= shorter <= longer <= bytes.len(),
    ensures
        0 <= digits_value(bytes, radix, shorter) <= digits_value(bytes, radix, longer),
    decreases longer,
{
    if shorter < longer {
        lemma_digits_value_grows(bytes, radix, shorter, longer - 1);
        let head = digits_value(bytes, radix, longer - 1);
        assert(digit_of(bytes[longer - 1]) is Some);
        assert(head <= head * radix) by (nonlinear_arith)
            requires
                0 <= head,
                1 <= radix,
        ;
    } else if shorter > 0 {
        lemma_digits_value_grows(bytes, radix, shorter - 1, shorter - 1);
        let head = digits_value(bytes, radix, shorter - 1);
        assert(digit_of(bytes[shorter - 1]) is Some);
        assert(0 <= head * radix) by (nonlinear_arith)
            requires
                0 <= head,
                1 <= radix,
        ;
    }
}

/// Reads a number in base `radix`; `None` if the base is not between 2 and
/// 36, if a byte is no digit of that base, or if the number does not fit
/// sixteen bits.
pub fn parse_u16(v: &str, radix: u32) -> (val: Option<u16>)
    ensures
        val is Some <==> spells_u16(v.spec_bytes(), radix as int),
        val matches Some(n) ==> n == digits_value(
            v.spec_bytes(),
            radix as int,
            v.spec_bytes().len() as int,
        ),
{
    if radix < 2 || radix > 36 {
        return None;
    }
    let b = v.as_bytes();
    let ghost bytes = v.spec_bytes();
    let mut val: u32 = 0;
    let mut i: usize = 0;
    while i < b.len()
        invariant
            2 <= radix <= 36,
            b@ == bytes,
            bytes == v.spec_bytes(),
            i <= bytes.len(),
            all_digits(bytes.take(i as int), radix as int),
            val == digits_value(bytes, radix as int, i as int),
            val <= u16::MAX,
        decreases bytes.len() - i,
    {
        let c: u8 = b[i];
        let d: u32 = if c >= 48 && c <= 57 {
            (c - 48) as u32
        } else if c >= 65 && c <= 90 {
            (c - 65) as u32 + 10
        } else if c >= 97 && c <= 122 {
            (c - 97) as u32 + 10
        } else {
            proof {
                assert(digit_of(bytes[i as int]) is None);
            }
            return None;
        };
        if d >= radix {
            proof {
                assert(digit_of(bytes[i as int]).unwrap() >= radix);
            }
            return None;
        }
        assert(val * radix + d <= 65535 * 36 + 35) by (nonlinear_arith)
            requires
                val <= 65535,
                radix <= 36,
                d <= 35,
        ;
        let next: u32 = val * radix + d;
        proof {
            assert forall|k: int| 0 <= k < i + 1 implies digit_of(
                #[trigger] bytes.take(i + 1)[k],
            ) is Some && digit_of(bytes.take(i + 1)[k]).unwrap() < radix by {
                if k < i {
                    assert(bytes.take(i as int)[k] == bytes[k]);
                }
            }
        }
        if next > 65535 {
            proof {
                assert(digits_value(bytes, radix as int, i + 1) == next);
                if all_digits(bytes, radix as int) {
                    lemma_digits_value_grows(
                        bytes,
                        radix as int,
                        i + 1,
                        bytes.len() as int,
                    );
                }
            }
            return None;
        }
        val = next;
        i = i + 1;
    }
    proof {
        assert(bytes.take(bytes.len() as int) == bytes);
    }
    Some(val as u16)
}

/// Reads a number in base `radix` from text that spells one.
pub fn const_parse_u16(v: &str, radix: u32) -> (val: u16)
    requires
        spells_u16(v.spec_bytes(), radix as int),
    ensures
        val == digits_value(v.spec_bytes(), radix as int, v.spec_bytes().len() as int),
{
    match parse_u16(v, radix) {
        Some(val) => val,
        None => 0,
    }
}

} // verus!
