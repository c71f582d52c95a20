//! A stable fingerprint of a program: a 64-bit hash of its wire bytes,
//! optionally salted with a corpus index, rendered as sixteen hex digits.
//! The same bytes give the same name in every process and on every machine.

use vstd::prelude::*;

use vstd::bytes::spec_u64_to_le_bytes;
use vstd::bytes::u64_to_le_bytes;

use crate::input::SyscallInput;
use crate::wire::wire_program;

verus! {

/// The hash offset basis.
pub const FNV_OFFSET: u64 = 0xcbf29ce484222325;

/// The hash multiplier.
pub const FNV_PRIME: u64 = 0x100000001b3;

/// One step of the rolling hash: mix one byte in.
pub open spec fn hash_step(h: u64, b: u8) -> u64 {
    vstd::wrapping::u64_specs::wrapping_mul(h ^ (b as u64), FNV_PRIME)
}

/// The rolling hash of a byte string.
pub open spec fn hash_bytes(s: Seq<u8>) -> u64
    decreases s,
{
    if s.len() == 0 {
        FNV_OFFSET
    } else {
        hash_step(hash_bytes(s.drop_last()), s.last())
    }
}

/// The rolling hash, computed byte by byte.
pub fn fingerprint64(bytes: &Vec<u8>) -> (r: u64)
    ensures
        r == hash_bytes(bytes@),
{
    let mut h: u64 = FNV_OFFSET;
    let mut i: usize = 0;
    proof {
        assert(bytes@.take(0) =~= Seq::<u8>::empty());
    }
    while i < bytes.len()
        invariant
            i <= bytes@.len(),
            h == hash_bytes(bytes@.take(i as int)),
        decreases bytes@.len() - i,
    {
        let b = bytes[i];
        h = (h ^ (b as u64)).wrapping_mul(FNV_PRIME);
        proof {
            assert(bytes@.take(i + 1 as int).drop_last() =~= bytes@.take(i as int));
            assert(bytes@.take(i + 1 as int).last() == bytes@[i as int]);
        }
        i = i + 1;
    }
    proof {
        assert(bytes@.take(bytes@.len() as int) =~= bytes@);
    }
    h
}

/// The lower-case hex digit for a value below sixteen.
pub open spec fn hex_digit(v: u64) -> char {
    if v == 0 {
        '0'
    } else if v == 1 {
        '1'
    } else if v == 2 {
        '2'
    } else if v == 3 {
        '3'
    } else if v == 4 {
        '4'
    } else if v == 5 {
        '5'
    } else if v == 6 {
        '6'
    } else if v == 7 {
        '7'
    } else if v == 8 {
        '8'
    } else if v == 9 {
        '9'
    } else if v == 10 {
        'a'
    } else if v == 11 {
        'b'
    } else if v == 12 {
        'c'
    } else if v == 13 {
        'd'
    } else if v == 14 {
        'e'
    } else {
        'f'
    }
}

/// Sixteen hex digits of a 64-bit value, most significant first.
pub open spec fn hex16(h: u64) -> Seq<char> {
    Seq::new(16, |i: int| hex_digit((h >> ((60 - 4 * i) as u64)) & 0xf))
}

/// The hex digit as a one-character string slice.
fn hex_digit_str(v: u64) -> (r: &'static str)
    requires
        v < 16,
    ensures
        r@ =~= seq![hex_digit(v)],
{
    proof {
        reveal_strlit("0");
        reveal_strlit("1");
        reveal_strlit("2");
        reveal_strlit("3");
        reveal_strlit("4");
        reveal_strlit("5");
        reveal_strlit("6");
        reveal_strlit("7");
        reveal_strlit("8");
        reveal_strlit("9");
        reveal_strlit("a");
        reveal_strlit("b");
        reveal_strlit("c");
        reveal_strlit("d");
        reveal_strlit("e");
        reveal_strlit("f");
    }
    if v == 0 {
        "0"
    } else if v == 1 {
        "1"
    } else if v == 2 {
        "2"
    } else if v == 3 {
        "3"
    } else if v == 4 {
        "4"
    } else if v == 5 {
        "5"
    } else if v == 6 {
        "6"
    } else if v == 7 {
        "7"
    } else if v == 8 {
        "8"
    } else if v == 9 {
        "9"
    } else if v == 10 {
        "a"
    } else if v == 11 {
        "b"
    } else if v == 12 {
        "c"
    } else if v == 13 {
        "d"
    } else if v == 14 {
        "e"
    } else {
        "f"
    }
}

/// The sixteen-digit hex rendering of a 64-bit value.
pub fn to_hex16(h: u64) -> (r: String)
    ensures
        r@ == hex16(h),
{
    let mut s = String::new();
    let mut k: usize = 0;
    proof {
        assert(s@ =~= hex16(h).take(0));
    }
    while k < 16
        invariant
            k <= 16,
            s@ == hex16(h).take(k as int),
        decreases 16 - k,
    {
        let shift: u64 = 60 - 4 * (k as u64);
        let nibble = (h >> shift) & 0xf;
        proof {
            assert((h >> shift) & 0xf < 16) by (bit_vector);
        }
        let d = hex_digit_str(nibble);
        vstd::string::StringExecFns::append(&mut s, d);
        proof {
            assert(hex16(h)[k as int] == hex_digit(nibble));
            assert(s@ =~= hex16(h).take(k + 1));
        }
        k = k + 1;
    }
    proof {
        assert(hex16(h).take(16) =~= hex16(h));
    }
    s
}

/// The bytes a program's name is derived from: the wire form, preceded by
/// the corpus index when one is given.
pub open spec fn name_bytes(p: Seq<crate::call::CallV>, salt: Option<u64>) -> Seq<u8> {
    match salt {
        Some(s) => spec_u64_to_le_bytes(s) + wire_program(p),
        None => wire_program(p),
    }
}

impl SyscallInput {
    /// A stable name for this program: the hex fingerprint of its wire
    /// bytes, salted by the corpus index when one is given.
    pub fn generate_name(&self, salt: Option<u64>) -> (r: String)
        requires
            self@.len() <= u32::MAX,
        ensures
            r@ == hex16(hash_bytes(name_bytes(self@, salt))),
    {
        let wire = self.target_bytes();
        let bytes: Vec<u8> = match salt {
            Some(s) => {
                let mut b = u64_to_le_bytes(s);
                let mut w = wire;
                b.append(&mut w);
                b
            },
            None => wire,
        };
        proof {
            assert(bytes@ =~= name_bytes(self@, salt));
        }
        let h = fingerprint64(&bytes);
        to_hex16(h)
    }
}

} // verus!
