//! Digest values: the two fixed-width families, their zero values,
//! and the canonical lowercase-hex text form with its inverse parse.

use vstd::prelude::*;

use crate::errors::RushError;

verus! {

/// The digest algorithm a whole build runs under.
#[derive(Clone, Copy, Debug, PartialEq, Eq, Structural)]
pub enum HashMethod {
    Md5,
    Blake3,
}

/// Width in bytes of the digests the method produces.
pub open spec fn digest_width(m: HashMethod) -> nat {
    match m {
        HashMethod::Md5 => 16,
        HashMethod::Blake3 => 32,
    }
}

/// The all-zero byte string of the method's width: the digest of an
/// empty directory.
pub open spec fn zero_bytes(m: HashMethod) -> Seq<u8> {
    Seq::new(digest_width(m), |i: int| 0u8)
}

impl HashMethod {
    /// The label stored in persisted descriptors.
    pub open spec fn label_spec(self) -> Seq<char> {
        match self {
            HashMethod::Md5 => seq!['m', 'd', '5'],
            HashMethod::Blake3 => seq!['b', 'l', 'a', 'k', 'e', '3'],
        }
    }

    pub fn as_str(&self) -> (r: &'static str)
        ensures
            r@ == self.label_spec(),
    {
        proof {
            reveal_strlit("md5");
            reveal_strlit("blake3");
        }
        match self {
            HashMethod::Md5 => "md5",
            HashMethod::Blake3 => "blake3",
        }
    }

    pub fn width(&self) -> (w: usize)
        ensures
            w as nat == digest_width(*self),
    {
        match self {
            HashMethod::Md5 => 16,
            HashMethod::Blake3 => 32,
        }
    }
}

/// A fixed-width content digest: the 16-byte family or the 32-byte
/// family, tagged so that the two can never be confused.
#[derive(Debug)]
pub enum Digest {
    D16(Vec<u8>),
    D32(Vec<u8>),
}

impl View for Digest {
    type V = Seq<u8>;

    open spec fn view(&self) -> Seq<u8> {
        match self {
            Digest::D16(b) => b@,
            Digest::D32(b) => b@,
        }
    }
}

impl Digest {
    /// The tag matches the width it promises.
    pub open spec fn wf(self) -> bool {
        match self {
            Digest::D16(b) => b@.len() == 16,
            Digest::D32(b) => b@.len() == 32,
        }
    }

    /// The digest belongs to the method's family.
    pub open spec fn of_method(self, m: HashMethod) -> bool {
        self.wf() && self@.len() == digest_width(m)
    }

    /// The family's zero digest.
    pub fn zero(m: &HashMethod) -> (d: Digest)
        ensures
            d@ == zero_bytes(*m),
            d.of_method(*m),
    {
        let width = m.width();
        let mut b: Vec<u8> = Vec::new();
        let mut i: usize = 0;
        while i < width
            invariant
                i <= width,
                b@.len() == i,
                forall|k: int| 0 <= k < i ==> b@[k] == 0u8,
            decreases width - i,
        {
            b.push(0u8);
            i = i + 1;
        }
        let d = match m {
            HashMethod::Md5 => Digest::D16(b),
            HashMethod::Blake3 => Digest::D32(b),
        };
        proof {
            assert(d@ =~= zero_bytes(*m));
        }
        d
    }

    /// Decides whether the tag matches the byte width.
    pub fn is_wf(&self) -> (r: bool)
        ensures
            r == self.wf(),
    {
        match self {
            Digest::D16(b) => b.len() == 16,
            Digest::D32(b) => b.len() == 32,
        }
    }

    pub fn len(&self) -> (n: usize)
        ensures
            n == self@.len(),
    {
        match self {
            Digest::D16(b) => b.len(),
            Digest::D32(b) => b.len(),
        }
    }

    /// A copy of the digest: same family, same bytes.
    pub fn duplicate(&self) -> (d: Digest)
        ensures
            d@ == self@,
            d is D16 <==> *self is D16,
            d.wf() == self.wf(),
    {
        match self {
            Digest::D16(b) => {
                let mut c: Vec<u8> = Vec::new();
                let mut i: usize = 0;
                while i < b.len()
                    invariant
                        i <= b@.len(),
                        c@ =~= b@.take(i as int),
                    decreases b@.len() - i,
                {
                    c.push(b[i]);
                    i = i + 1;
                }
                assert(c@ =~= b@);
                Digest::D16(c)
            },
            Digest::D32(b) => {
                let mut c: Vec<u8> = Vec::new();
                let mut i: usize = 0;
                while i < b.len()
                    invariant
                        i <= b@.len(),
                        c@ =~= b@.take(i as int),
                    decreases b@.len() - i,
                {
                    c.push(b[i]);
                    i = i + 1;
                }
                assert(c@ =~= b@);
                Digest::D32(c)
            },
        }
    }

    /// The raw digest bytes.
    pub fn bytes(&self) -> (b: &Vec<u8>)
        ensures
            b@ == self@,
    {
        match self {
            Digest::D16(b) => b,
            Digest::D32(b) => b,
        }
    }
}

/// Byte-wise equality of two byte vectors.
pub fn bytes_eq(a: &Vec<u8>, b: &Vec<u8>) -> (r: bool)
    ensures
        r == (a@ == b@),
{
    if a.len() != b.len() {
        proof {
            assert(a@ != b@);
        }
        return false;
    }
    let n = a.len();
    let mut i: usize = 0;
    while i < n
        invariant
            i <= n,
            n == a@.len() && n == b@.len(),
            forall|k: int| 0 <= k < i ==> a@[k] == b@[k],
        decreases n - i,
    {
        if a[i] != b[i] {
            return false;
        }
        i = i + 1;
    }
    proof {
        assert(a@ =~= b@);
    }
    true
}

impl PartialEq for Digest {
    /// Digests are equal when their families and their bytes agree.
    fn eq(&self, other: &Digest) -> (r: bool) {
        match (self, other) {
            (Digest::D16(a), Digest::D16(b)) => bytes_eq(a, b),
            (Digest::D32(a), Digest::D32(b)) => bytes_eq(a, b),
            _ => false,
        }
    }
}

impl vstd::std_specs::cmp::PartialEqSpecImpl for Digest {
    open spec fn obeys_eq_spec() -> bool {
        true
    }

    open spec fn eq_spec(&self, other: &Digest) -> bool {
        (*self is D16 <==> *other is D16) && self@ == other@
    }
}

/// Whether the byte is an ASCII hex digit, upper or lower case.
pub open spec fn is_hex_digit(c: u8) -> bool {
    (48 <= c && c <= 57) || (97 <= c && c <= 102) || (65 <= c && c <= 70)
}

/// Numeric value of an ASCII hex digit.
pub open spec fn hex_val(c: u8) -> u8 {
    if 48 <= c && c <= 57 {
        (c - 48) as u8
    } else if 97 <= c && c <= 102 {
        (c - 87) as u8
    } else {
        (c - 55) as u8
    }
}

/// The lowercase ASCII hex digit for a value below sixteen.
pub open spec fn hex_digit_char(v: u8) -> u8 {
    if v < 10 {
        (48 + v) as u8
    } else {
        (87 + v) as u8
    }
}

/// Canonical lowercase hex text of a byte string: two digits per byte,
/// high digit first.
pub open spec fn hex_bytes(bs: Seq<u8>) -> Seq<u8> {
    Seq::new(
        2 * bs.len(),
        |i: int| if i % 2 == 0 { hex_digit_char(bs[i / 2] / 16) } else { hex_digit_char(bs[i / 2] % 16) },
    )
}

/// The byte string a hex text denotes, pairing digits high-first.
pub open spec fn unhex(h: Seq<u8>) -> Seq<u8> {
    Seq::new(h.len() / 2, |i: int| (16 * hex_val(h[2 * i]) + hex_val(h[2 * i + 1])) as u8)
}

impl Digest {
    /// Canonical lowercase hex text of the digest.
    pub fn to_hex(&self) -> (h: Vec<u8>)
        requires
            self.wf(),
        ensures
            h@ == hex_bytes(self@),
    {
        let bs = self.bytes();
        let n = bs.len();
        let mut out: Vec<u8> = Vec::new();
        let mut i: usize = 0;
        while i < n
            invariant
                i <= n,
                n == bs@.len(),
                bs@ == self@,
                out@.len() == 2 * i,
                forall|k: int| 0 <= k < 2 * i ==> out@[k] == hex_bytes(bs@)[k],
            decreases n - i,
        {
            let b = bs[i];
            out.push(hex_digit_exec(b / 16));
            out.push(hex_digit_exec(b % 16));
            i = i + 1;
        }
        proof {
            assert(out@ =~= hex_bytes(self@));
        }
        out
    }

    /// Parses a hex text back into a digest. Succeeds exactly on texts of
    /// 32 or 64 hex digits; the length picks the family.
    pub fn from_hex(h: &Vec<u8>) -> (r: Result<Digest, RushError>)
        ensures
            r is Ok <==> ((h@.len() == 32 || h@.len() == 64) && (forall|k: int|
                0 <= k < h@.len() ==> is_hex_digit(h@[k]))),
            r matches Ok(d) ==> d.wf() && d@ == unhex(h@),
            r matches Err(e) ==> e == RushError::Format,
    {
        if h.len() != 32 && h.len() != 64 {
            return Err(RushError::Format);
        }
        let n = h.len() / 2;
        let mut out: Vec<u8> = Vec::new();
        let mut i: usize = 0;
        while i < n
            invariant
                i <= n,
                n == h@.len() / 2,
                h@.len() == 32 || h@.len() == 64,
                out@.len() == i,
                forall|k: int| 0 <= k < 2 * i ==> is_hex_digit(h@[k]),
                forall|k: int| 0 <= k < i ==> out@[k] == unhex(h@)[k],
            decreases n - i,
        {
            let hi = h[2 * i];
            let lo = h[2 * i + 1];
            if !is_hex_digit_exec(hi) || !is_hex_digit_exec(lo) {
                return Err(RushError::Format);
            }
            out.push(16 * hex_val_exec(hi) + hex_val_exec(lo));
            i = i + 1;
        }
        proof {
            assert(out@ =~= unhex(h@));
        }
        let d = if h.len() == 32 {
            Digest::D16(out)
        } else {
            Digest::D32(out)
        };
        Ok(d)
    }
}

fn hex_digit_exec(v: u8) -> (c: u8)
    requires
        v < 16,
    ensures
        c == hex_digit_char(v),
{
    if v < 10 {
        48 + v
    } else {
        87 + v
    }
}

fn is_hex_digit_exec(c: u8) -> (r: bool)
    ensures
        r == is_hex_digit(c),
{
    (48 <= c && c <= 57) || (97 <= c && c <= 102) || (65 <= c && c <= 70)
}

fn hex_val_exec(c: u8) -> (v: u8)
    requires
        is_hex_digit(c),
    ensures
        v == hex_val(c),
        v < 16,
{
    if 48 <= c && c <= 57 {
        c - 48
    } else if 97 <= c && c <= 102 {
        c - 87
    } else {
        c - 55
    }
}

/// The canonical hex text of any byte string is made of lowercase hex
/// digits, and parsing it returns the original bytes: the text form and
/// its parse are mutually inverse.
pub proof fn lemma_hex_round_trip(bs: Seq<u8>)
    ensures
        hex_bytes(bs).len() == 2 * bs.len(),
        forall|k: int| 0 <= k < 2 * bs.len() ==> is_hex_digit(#[trigger] hex_bytes(bs)[k]),
        unhex(hex_bytes(bs)) == bs,
{
    assert forall|k: int| 0 <= k < 2 * bs.len() implies is_hex_digit(#[trigger] hex_bytes(bs)[k]) by {
        let b = bs[k / 2];
        assert(b / 16 < 16 && b % 16 < 16);
    }
    assert forall|i: int| 0 <= i < bs.len() implies unhex(hex_bytes(bs))[i] == bs[i] by {
        let b = bs[i];
        assert(hex_bytes(bs)[2 * i] == hex_digit_char(b / 16));
        assert(hex_bytes(bs)[2 * i + 1] == hex_digit_char(b % 16));
        assert(hex_val(hex_digit_char(b / 16)) == b / 16);
        assert(hex_val(hex_digit_char(b % 16)) == b % 16);
        assert(16 * (b / 16) + b % 16 == b);
    }
    assert(unhex(hex_bytes(bs)) =~= bs);
}

} // verus!
