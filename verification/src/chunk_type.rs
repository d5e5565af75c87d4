//! PNG chunk type codes: four ASCII letters whose case bits carry the
//! chunk's properties (critical, public, reserved, safe-to-copy).

use vstd::prelude::*;
use vstd::string::StringSliceAdditionalSpecFns;

verus! {

/// Is the byte an ASCII letter?
pub open spec fn spec_is_alpha(b: u8) -> bool {
    (65 <= b <= 90) || (97 <= b <= 122)
}

/// Are all bytes ASCII letters?
pub open spec fn spec_all_alpha(s: Seq<u8>) -> bool {
    forall|i: int| 0 <= i < s.len() ==> spec_is_alpha(s[i])
}

/// A four-byte PNG chunk type code.
#[derive(Debug, PartialEq, Eq)]
pub struct ChunkType {
    pub code: [u8; 4],
}

impl ChunkType {
    /// The code as seen in contracts.
    pub open spec fn spec_code(&self) -> Seq<u8> {
        self.code@
    }

    /// A code is valid when its reserved bit is clear and every byte is an
    /// ASCII letter.
    pub open spec fn spec_is_valid(&self) -> bool {
        self.code@[2] & 0x20 == 0 && spec_all_alpha(self.code@)
    }

    pub fn bytes(&self) -> (r: [u8; 4])
        ensures
            r@ == self.spec_code(),
    {
        self.code
    }

    pub fn is_valid(&self) -> (r: bool)
        ensures
            r == self.spec_is_valid(),
    {
        if !self.is_reserved_bit_valid() {
            return false;
        }
        let mut i: usize = 0;
        while i < 4
            invariant
                0 <= i <= 4,
                self.code@.len() == 4,
                forall|j: int| 0 <= j < i ==> spec_is_alpha(self.code@[j]),
            decreases 4 - i,
        {
            let b = self.code[i];
            if !(65 <= b && b <= 90) && !(97 <= b && b <= 122) {
                return false;
            }
            i += 1;
        }
        true
    }

    /// Critical chunks have the case bit of the first byte clear.
    pub fn is_critical(&self) -> (r: bool)
        ensures
            r == (self.spec_code()[0] & 0x20 == 0),
    {
        self.code[0] & 0x20 == 0
    }

    /// Public chunks have the case bit of the second byte clear.
    pub fn is_public(&self) -> (r: bool)
        ensures
            r == (self.spec_code()[1] & 0x20 == 0),
    {
        self.code[1] & 0x20 == 0
    }

    /// The reserved bit is the case bit of the third byte.
    pub fn is_reserved_bit_valid(&self) -> (r: bool)
        ensures
            r == (self.spec_code()[2] & 0x20 == 0),
    {
        self.code[2] & 0x20 == 0
    }

    /// Safe-to-copy chunks have the case bit of the fourth byte set.
    pub fn is_safe_to_copy(&self) -> (r: bool)
        ensures
            r == (self.spec_code()[3] & 0x20 != 0),
    {
        self.code[3] & 0x20 != 0
    }

    /// Parse a code from a string. The string must be four bytes of ASCII
    /// letters; the reserved bit is not checked here.
    pub fn from_str(s: &str) -> (r: Result<ChunkType, &'static str>)
        ensures
            r is Ok <==> (s.spec_bytes().len() == 4 && spec_all_alpha(s.spec_bytes())),
            r matches Ok(ct) ==> ct.spec_code() == s.spec_bytes(),
            s.spec_bytes().len() != 4 ==> (r matches Err(m) && m@ == "str len is not 4"@),
            s.spec_bytes().len() == 4 && !spec_all_alpha(s.spec_bytes()) ==> (r matches Err(m)
                && m@ == "str char not valid"@),
    {
        let b = s.as_bytes();
        if b.len() != 4 {
            Err("str len is not 4")
        } else {
            let mut i: usize = 0;
            while i < 4
                invariant
                    0 <= i <= 4,
                    b@ == s.spec_bytes(),
                    b@.len() == 4,
                    forall|j: int| 0 <= j < i ==> spec_is_alpha(b@[j]),
                decreases 4 - i,
            {
                let u = b[i];
                if !(65 <= u && u <= 90) && !(97 <= u && u <= 122) {
                    proof {
                        assert(!spec_is_alpha(b@[i as int]));
                        assert(!spec_all_alpha(b@));
                    }
                    return Err("str char not valid");
                }
                i += 1;
            }
            let code = [b[0], b[1], b[2], b[3]];
            proof {
                assert(code@ =~= b@);
            }
            Ok(ChunkType { code })
        }
    }

    /// Accept a four-byte code when it is valid.
    pub fn try_from(value: [u8; 4]) -> (r: Result<ChunkType, &'static str>)
        ensures
            r is Ok <==> (value@[2] & 0x20 == 0 && spec_all_alpha(value@)),
            r matches Ok(ct) ==> ct.spec_code() == value@,
            r matches Err(m) ==> m@ == "val in not valid"@,
    {
        let ct = ChunkType { code: value };
        if ct.is_valid() {
            Ok(ct)
        } else {
            Err("val in not valid")
        }
    }

    /// The code as a `String`.
    ///
    /// Relies on `String::from_utf8`: decoding bytes that are ASCII letters
    /// yields exactly those characters, and never fails on them.
    #[verifier::external_body]
    pub fn string(&self) -> (r: String)
        requires
            spec_all_alpha(self.spec_code()),
        ensures
            r@.len() == 4,
            forall|i: int| 0 <= i < 4 ==> r@[i] == self.spec_code()[i] as char,
    {
        String::from_utf8(self.code.to_vec()).unwrap()
    }
}

} // verus!
