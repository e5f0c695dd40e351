//! What the components share: error kinds and errors, IPv4 masks and subnets, and the
//! addresses and messages exchanged with the traffic monitor.
use vstd::prelude::*;
use crate::text::{quad_of_text, dotted, dec_text, quad_from_text, dotted_text, byte_text, lemma_dotted_round_trip, byte_of_text, byte_from_chars};

verus! {

/// The kinds of error the components report.
#[derive(Clone, Copy, Debug, PartialEq, Eq)]
pub enum ErrorKind {
    NotFound,
    AlreadyStarted,
    NoResource,
    PerfTestFailed,
    CommandFailed,
    OpcodeNotRecognized,
    NotASocketAddr,
    BadWrite,
    ConnectionInterrupted,
    BadMode,
    NoStream,
    UnexpectedEof,
    EmptyGraph,
    AlreadyExists,
    InconsistentState,
    InvalidData,
    DockerInit,
    /// An error of another kind, carried along.
    Wrapped,
}

/// The text that names an error kind.
pub open spec fn kind_text(k: ErrorKind) -> Seq<char> {
    match k {
        ErrorKind::NotFound => "Not Found"@,
        ErrorKind::AlreadyStarted => "Already Started"@,
        ErrorKind::NoResource => "No Resource"@,
        ErrorKind::PerfTestFailed => "Performance Test Failed"@,
        ErrorKind::CommandFailed => "Command Failed"@,
        ErrorKind::OpcodeNotRecognized => "Opcode Not Recognized"@,
        ErrorKind::Wrapped => "Wrapped error"@,
        ErrorKind::NotASocketAddr => "Not A Socket Address"@,
        ErrorKind::BadWrite => "Bad Write"@,
        ErrorKind::ConnectionInterrupted => "Connection Interrupted"@,
        ErrorKind::BadMode => "Bad Mode"@,
        ErrorKind::NoStream => "No Stream"@,
        ErrorKind::UnexpectedEof => "Unexpected EOF"@,
        ErrorKind::EmptyGraph => "Empty Graph"@,
        ErrorKind::AlreadyExists => "Already Exists"@,
        ErrorKind::InconsistentState => "Inconsistent State"@,
        ErrorKind::InvalidData => "Invalid Data"@,
        ErrorKind::DockerInit => "Docker Initialization"@,
    }
}

impl ErrorKind {
    /// The text that names the kind.
    pub fn text(&self) -> (s: &'static str)
        ensures
            s@ == kind_text(*self),
    {
        match self {
            ErrorKind::NotFound => "Not Found",
            ErrorKind::AlreadyStarted => "Already Started",
            ErrorKind::NoResource => "No Resource",
            ErrorKind::PerfTestFailed => "Performance Test Failed",
            ErrorKind::CommandFailed => "Command Failed",
            ErrorKind::OpcodeNotRecognized => "Opcode Not Recognized",
            ErrorKind::Wrapped => "Wrapped error",
            ErrorKind::NotASocketAddr => "Not A Socket Address",
            ErrorKind::BadWrite => "Bad Write",
            ErrorKind::ConnectionInterrupted => "Connection Interrupted",
            ErrorKind::BadMode => "Bad Mode",
            ErrorKind::NoStream => "No Stream",
            ErrorKind::UnexpectedEof => "Unexpected EOF",
            ErrorKind::EmptyGraph => "Empty Graph",
            ErrorKind::AlreadyExists => "Already Exists",
            ErrorKind::InconsistentState => "Inconsistent State",
            ErrorKind::InvalidData => "Invalid Data",
            ErrorKind::DockerInit => "Docker Initialization",
        }
    }
}

/// What `str::to_uppercase` gives for a text.
pub uninterp spec fn uppercase(s: Seq<char>) -> Seq<char>;

/// The text in upper case, by `str::to_uppercase`.
#[verifier::external_body]
pub(crate) fn to_upper(s: &str) -> (r: String)
    ensures
        r@ == uppercase(s@),
{
    s.to_uppercase()
}

/// An error: where it arose (in upper case), its kind and a message.
#[derive(Clone, Debug)]
pub struct Error {
    pub location: String,
    pub kind: ErrorKind,
    pub message: String,
}

/// `[LOCATION]: Error type: KIND \t Error message: MESSAGE.`
pub open spec fn error_text(location: Seq<char>, kind: ErrorKind, message: Seq<char>) -> Seq<char> {
    "["@ + location + "]: Error type: "@ + kind_text(kind) + " \t Error message: "@ + message + "."@
}

impl Error {
    /// An error raised at `location`.
    pub fn new(location: &str, kind: ErrorKind, message: &str) -> (e: Error)
        ensures
            e.location@ == uppercase(location@),
            e.kind == kind,
            e.message@ == message@,
    {
        Error { location: to_upper(location), kind, message: message.to_owned() }
    }

    /// A producer of errors raised at `location`.
    pub fn producer(location: &str) -> (p: ErrorProducer)
        ensures
            p.location@ == location@,
    {
        ErrorProducer { location: location.to_owned() }
    }

    /// The text of the error.
    pub fn text(&self) -> (s: String)
        ensures
            s@ == error_text(self.location@, self.kind, self.message@),
    {
        let open = "[";
        let type_label = "]: Error type: ";
        let message_label = " \t Error message: ";
        let end = ".";
        let mut s = String::from_str(open);
        s.append(self.location.as_str());
        s.append(type_label);
        s.append(self.kind.text());
        s.append(message_label);
        s.append(self.message.as_str());
        s.append(end);
        proof {
            assert(s@ =~= error_text(self.location@, self.kind, self.message@));
        }
        s
    }
}

/// Makes errors raised at one location.
#[derive(Clone, Debug)]
pub struct ErrorProducer {
    pub location: String,
}

impl ErrorProducer {
    /// An error of the given kind and message, raised at the producer's location.
    pub fn create(&self, kind: ErrorKind, message: &str) -> (e: Error)
        ensures
            e.location@ == uppercase(self.location@),
            e.kind == kind,
            e.message@ == message@,
    {
        Error::new(self.location.as_str(), kind, message)
    }
}

/// The 32-bit value of four bytes, the first the most significant.
pub open spec fn be_value(b: Seq<u8>) -> int {
    b[0] * 0x100_0000 + b[1] * 0x1_0000 + b[2] * 0x100 + b[3]
}

/// The 32-bit value of four bytes, the first the least significant.
pub open spec fn le_value(b: Seq<u8>) -> int {
    b[3] * 0x100_0000 + b[2] * 0x1_0000 + b[1] * 0x100 + b[0]
}

/// Byte `k` of `x`, counting from the least significant.
pub open spec fn byte_at(x: u32, k: u32) -> u8 {
    ((x >> (8 * k)) & 0xff) as u8
}

/// The four bytes of `x`, the most significant first.
pub open spec fn be_bytes(x: u32) -> Seq<u8> {
    seq![byte_at(x, 3), byte_at(x, 2), byte_at(x, 1), byte_at(x, 0)]
}

/// The four bytes of `x`, the most significant first.
pub fn to_be_bytes(x: u32) -> (b: [u8; 4])
    ensures
        b@ == be_bytes(x),
        be_value(b@) == x,
{
    let b0 = ((x >> 24) & 0xff) as u8;
    let b1 = ((x >> 16) & 0xff) as u8;
    let b2 = ((x >> 8) & 0xff) as u8;
    let b3 = ((x >> 0) & 0xff) as u8;
    proof {
        assert(b0 * 0x100_0000 + b1 * 0x1_0000 + b2 * 0x100 + b3 == x) by (bit_vector)
            requires
                b0 == ((x >> 24) & 0xff) as u8,
                b1 == ((x >> 16) & 0xff) as u8,
                b2 == ((x >> 8) & 0xff) as u8,
                b3 == ((x >> 0) & 0xff) as u8,
        ;
    }
    let b = [b0, b1, b2, b3];
    proof {
        assert(b@ =~= be_bytes(x));
    }
    b
}

/// The value of four bytes, the first the most significant.
pub fn from_be_bytes(b: [u8; 4]) -> (x: u32)
    ensures
        x == be_value(b@),
{
    let x = ((b[0] as u32) << 24) | ((b[1] as u32) << 16) | ((b[2] as u32) << 8) | (b[3] as u32);
    let (b0, b1, b2, b3) = (b[0], b[1], b[2], b[3]);
    proof {
        assert(((b0 as u32) << 24) | ((b1 as u32) << 16) | ((b2 as u32) << 8) | (b3 as u32) == b0 * 0x100_0000
            + b1 * 0x1_0000 + b2 * 0x100 + b3) by (bit_vector);
    }
    x
}

/// A value read as an IPv4 address, the first byte the most significant.
pub trait ToU32IpAddr {
    fn to_u32(&self) -> u32;
}

impl ToU32IpAddr for [u8; 4] {
    /// The address of the four octets, the first the most significant.
    fn to_u32(&self) -> (x: u32)
        ensures
            x == be_value(self@),
    {
        from_be_bytes(*self)
    }
}

/// A network mask of four bytes.
#[derive(Clone, Copy, Debug, PartialEq, Eq)]
pub struct IpMask {
    pub bytes: [u8; 4],
}

/// The number of trailing zero bits of `b` from bit `k` on, up to bit 8.
pub open spec fn zero_bits_from(b: u8, k: u32) -> nat
    decreases 8 - k,
{
    if k >= 8 {
        0
    } else if (b >> k) & 1 == 0 {
        1 + zero_bits_from(b, (k + 1) as u32)
    } else {
        0
    }
}

/// The number of zero bits at the end of the mask, read from its last byte backwards, over
/// its first `i` bytes.
pub open spec fn mask_zeros(bytes: Seq<u8>, i: nat) -> nat
    decreases i,
{
    if i == 0 {
        0
    } else if bytes[i - 1] == 0 {
        8 + mask_zeros(bytes, (i - 1) as nat)
    } else {
        zero_bits_from(bytes[i - 1], 0)
    }
}

/// The prefix length of a mask: 32 less its trailing zero bits.
pub open spec fn cidr_of(bytes: Seq<u8>) -> int {
    32 - mask_zeros(bytes, 4)
}

/// Byte `j` of the mask of an `n`-bit prefix.
pub open spec fn prefix_byte(n: nat, j: nat) -> u8 {
    if n >= 8 * (j + 1) {
        0xff
    } else if n <= 8 * j {
        0
    } else {
        (0xff00u16 >> ((n - 8 * j) as u32)) as u8
    }
}

proof fn lemma_zero_bits_bound(b: u8, k: u32)
    ensures
        zero_bits_from(b, k) <= 8 - k || k > 8,
    decreases 8 - k,
{
    if k < 8 {
        lemma_zero_bits_bound(b, (k + 1) as u32);
    }
}

proof fn lemma_mask_zeros_bound(bytes: Seq<u8>, i: nat)
    ensures
        mask_zeros(bytes, i) <= 8 * i,
    decreases i,
{
    if i > 0 {
        lemma_mask_zeros_bound(bytes, (i - 1) as nat);
        lemma_zero_bits_bound(bytes[i - 1], 0);
    }
}

impl IpMask {
    /// The mask of these four bytes.
    pub fn from_bytes(bytes: [u8; 4]) -> (m: IpMask)
        ensures
            m.bytes == bytes,
    {
        IpMask { bytes }
    }

    /// The mask written `a.b.c.d`.
    pub fn from_text(s: &str) -> (m: IpMask)
        requires
            quad_of_text(s@) is Some,
        ensures
            m.bytes@ == quad_of_text(s@)->Some_0,
    {
        let bytes = quad_from_text(s).unwrap();
        IpMask { bytes }
    }

    /// The prefix length of the mask (the CIDR notation): 32 less the number of zero bits
    /// that end it.
    pub fn to_cidr(&self) -> (c: u8)
        ensures
            c == cidr_of(self.bytes@),
    {
        let mut zeros_count: u8 = 0;
        let mut i: usize = 4;
        proof {
            lemma_mask_zeros_bound(self.bytes@, 4);
        }
        while i > 0
            invariant
                i <= 4,
                zeros_count == 8 * (4 - i),
                mask_zeros(self.bytes@, 4) == 8 * (4 - i) + mask_zeros(self.bytes@, i as nat),
            decreases i,
        {
            let b = self.bytes[i - 1];
            let mut bit_count: u32 = 0;
            let mut ended = false;
            while bit_count < 8
                invariant_except_break
                    !ended,
                invariant
                    bit_count <= 8,
                    zeros_count == 8 * (4 - i) + bit_count,
                    zero_bits_from(b, 0) == bit_count + zero_bits_from(b, bit_count),
                ensures
                    !ended ==> bit_count == 8,
                    ended ==> bit_count < 8 && (b >> bit_count) & 1 != 0,
                    zeros_count == 8 * (4 - i) + bit_count,
                    zero_bits_from(b, 0) == bit_count + zero_bits_from(b, bit_count),
                decreases 8 - bit_count,
            {
                if (b >> bit_count) & 1 == 0 {
                    zeros_count = zeros_count + 1;
                    bit_count = bit_count + 1;
                } else {
                    ended = true;
                    break;
                }
            }
            if ended || b != 0 {
                proof {
                    if !ended {
                        assert(zero_bits_from(b, 8) == 0);
                        lemma_all_zero_bits(b);
                    } else {
                        assert(b != 0) by (bit_vector)
                            requires
                                bit_count < 8,
                                (b >> bit_count) & 1 != 0,
                        ;
                    }
                    lemma_zero_bits_bound(b, 0);
                }
                return 32 - zeros_count;
            }
            i = i - 1;
        }
        32 - zeros_count
    }

    /// `a.b.c.d`, the bytes of the mask.
    pub fn text(&self) -> (s: String)
        ensures
            s@ == dotted(self.bytes@),
    {
        dotted_text(self.bytes)
    }
}

proof fn lemma_all_zero_bits(b: u8)
    requires
        zero_bits_from(b, 0) == 8,
    ensures
        b == 0,
{
    lemma_zero_bits_all(b, 0);
    assert((b >> 0u32) & 1 == 0 && (b >> 1u32) & 1 == 0 && (b >> 2u32) & 1 == 0 && (b >> 3u32) & 1 == 0);
    assert((b >> 4u32) & 1 == 0 && (b >> 5u32) & 1 == 0 && (b >> 6u32) & 1 == 0 && (b >> 7u32) & 1 == 0);
    assert(b == 0) by (bit_vector)
        requires
            (b >> 0u32) & 1 == 0 && (b >> 1u32) & 1 == 0 && (b >> 2u32) & 1 == 0 && (b >> 3u32) & 1 == 0,
            (b >> 4u32) & 1 == 0 && (b >> 5u32) & 1 == 0 && (b >> 6u32) & 1 == 0 && (b >> 7u32) & 1 == 0,
    ;
}

/// When the run of zero bits from bit `k` reaches bit 8, every bit from `k` on is zero.
proof fn lemma_zero_bits_all(b: u8, k: u32)
    requires
        k <= 8,
        zero_bits_from(b, k) == 8 - k,
    ensures
        forall|j: u32| k <= j < 8 ==> (b >> j) & 1 == 0,
    decreases 8 - k,
{
    if k < 8 {
        if (b >> k) & 1 != 0 {
            assert(zero_bits_from(b, k) == 0);
        }
        lemma_zero_bits_all(b, (k + 1) as u32);
    }
}

/// Zero bits from `k` up to a one bit at `m` make a run of `m - k`.
proof fn lemma_zero_bits_run(b: u8, k: u32, m: u32)
    requires
        k <= m < 8,
        forall|j: u32| k <= j < m ==> #[trigger] ((b >> j) & 1) == 0,
        (b >> m) & 1 == 1,
    ensures
        zero_bits_from(b, k) == m - k,
    decreases m - k,
{
    if k < m {
        lemma_zero_bits_run(b, (k + 1) as u32, m);
    }
}


/// Setting bit `r` (from the most significant) of the mask byte of an `r`-bit prefix gives
/// the mask byte of an `r + 1`-bit prefix.
proof fn lemma_prefix_byte_step(r: u32)
    requires
        r < 8,
    ensures
        ((0xff00u16 >> r) as u8) | (0x80u8 >> r) == (0xff00u16 >> ((r + 1) as u32)) as u8,
{
    assert(((0xff00u16 >> r) as u8) | (0x80u8 >> r) == (0xff00u16 >> ((r + 1) as u32)) as u8) by (bit_vector)
        requires
            r < 8,
    ;
}

/// The mask of a prefix of `prefix` bits, set bit by bit from the most significant.
pub fn mask_of_prefix(prefix: u8) -> (mask: [u8; 4])
    requires
        prefix <= 32,
    ensures
        forall|j: int| 0 <= j < 4 ==> #[trigger] mask@[j] == prefix_byte(prefix as nat, j as nat),
{
    let mut mask: [u8; 4] = [0u8; 4];
    let mut mask_index: usize = 0;
    let c: u8 = 0b1000_0000;
    let mut i: u8 = 0;
    while i < prefix
        invariant
            prefix <= 32,
            c == 0x80u8,
            i <= prefix,
            i == 0 ==> mask_index == 0,
            i > 0 ==> mask_index == (i - 1) / 8,
            forall|j: int| 0 <= j < 4 ==> #[trigger] mask@[j] == prefix_byte(i as nat, j as nat),
        decreases prefix - i,
    {
        if i != 0 && i % 8 == 0 {
            mask_index = mask_index + 1;
        }
        let ghost before = mask@;
        proof {
            assert(mask_index == i / 8);
            let r = (i % 8) as u32;
            lemma_prefix_byte_step(r);
            assert(c >> (i % 8) == 0x80u8 >> r) by (bit_vector)
                requires
                    c == 0x80u8,
                    r == (i % 8) as u32,
            ;
        }
        mask[mask_index] = mask[mask_index] | (c >> (i % 8));
        proof {
            assert forall|j: int| 0 <= j < 4 implies #[trigger] mask@[j] == prefix_byte((i + 1) as nat, j as nat) by {
                if j != mask_index {
                    assert(mask@[j] == before[j]);
                } else {
                    let r = (i % 8) as u32;
                    if r == 0 {
                        assert(before[j] == 0);
                        assert((0xff00u16 >> 0u32) as u8 == 0) by (bit_vector);
                    }
                    if r == 7 {
                        assert((0xff00u16 >> 8u32) as u8 == 0xff) by (bit_vector);
                    }
                }
            }
        }
        i = i + 1;
    }
    mask
}

/// An IPv4 subnet: an address and a mask.
#[derive(Clone, Copy, Debug, PartialEq, Eq)]
pub struct Subnet {
    pub ip: [u8; 4],
    pub mask: IpMask,
}

/// The only slash of `s` is at position `i`.
pub open spec fn slash_alone(s: Seq<char>, i: int) -> bool {
    &&& 0 <= i < s.len()
    &&& s[i] == '/'
    &&& forall|j: int| 0 <= j < s.len() && j != i ==> s[j] != '/'
}

/// The address and the prefix of a subnet written `a.b.c.d/n`: one slash, an address before
/// it and a prefix of at most 32 bits after it.
pub open spec fn subnet_of_text(s: Seq<char>) -> Option<(Seq<u8>, u8)> {
    if exists|i: int| #[trigger] slash_alone(s, i) {
        let i = choose|i: int| #[trigger] slash_alone(s, i);
        match (quad_of_text(s.subrange(0, i)), byte_of_text(s.subrange(i + 1, s.len() as int))) {
            (Some(q), Some(p)) => if p <= 32 {
                Some((q, p))
            } else {
                None
            },
            _ => None,
        }
    } else {
        None
    }
}

impl Subnet {
    /// The subnet of the address `ip` with a prefix of `prefix` bits.
    pub fn from_parts(ip: [u8; 4], prefix: u8) -> (s: Subnet)
        requires
            prefix <= 32,
        ensures
            s.ip == ip,
            forall|j: int| 0 <= j < 4 ==> #[trigger] s.mask.bytes@[j] == prefix_byte(prefix as nat, j as nat),
    {
        Subnet { ip, mask: IpMask::from_bytes(mask_of_prefix(prefix)) }
    }

    /// The subnet of the address written `a.b.c.d` with a prefix of `prefix` bits; the text
    /// must be an address and the prefix at most 32 bits.
    pub fn from_address(ip: &str, prefix: u8) -> (s: Subnet)
        requires
            prefix <= 32,
            quad_of_text(ip@) is Some,
        ensures
            s.ip@ == quad_of_text(ip@)->0,
            forall|j: int| 0 <= j < 4 ==> #[trigger] s.mask.bytes@[j] == prefix_byte(prefix as nat, j as nat),
    {
        let bytes = match quad_from_text(ip) {
            Some(bytes) => bytes,
            None => [0u8; 4],
        };
        Subnet::from_parts(bytes, prefix)
    }

    /// The subnet written `a.b.c.d/n`, if the text is an address, one slash and a prefix of
    /// at most 32 bits.
    pub fn from_text(value: &str) -> (r: Option<Subnet>)
        ensures
            match subnet_of_text(value@) {
                Some((q, prefix)) => r matches Some(s) && s.ip@ == q && forall|j: int|
                    0 <= j < 4 ==> #[trigger] s.mask.bytes@[j] == prefix_byte(prefix as nat, j as nat),
                None => r is None,
            },
    {
        let n = value.unicode_len();
        let mut slashes: usize = 0;
        let mut at: usize = 0;
        let mut i: usize = 0;
        while i < n
            invariant
                n == value@.len(),
                i <= n,
                slashes <= i,
                slashes == 0 ==> forall|j: int| 0 <= j < i ==> value@[j] != '/',
                slashes >= 1 ==> at < i && value@[at as int] == '/' && forall|j: int| 0 <= j < at ==> value@[j] != '/',
                slashes == 1 ==> forall|j: int| 0 <= j < i && j != at ==> value@[j] != '/',
                slashes >= 2 ==> exists|j: int| 0 <= j < i && j != at && value@[j] == '/',
            decreases n - i,
        {
            if value.get_char(i) == '/' {
                if slashes == 0 {
                    at = i;
                }
                if slashes < 2 {
                    slashes = slashes + 1;
                }
            }
            i = i + 1;
        }
        if slashes != 1 {
            proof {
                if slashes >= 2 {
                    let j = choose|j: int| 0 <= j < n && j != at && value@[j] == '/';
                    assert forall|x: int| !#[trigger] slash_alone(value@, x) by {
                        if slash_alone(value@, x) {
                            if x != at {
                                assert(value@[at as int] == '/');
                            } else {
                                assert(value@[j] == '/');
                            }
                        }
                    }
                }
            }
            return None;
        }
        proof {
            assert(slash_alone(value@, at as int));
            assert forall|x: int| #[trigger] slash_alone(value@, x) implies x == at by {
                if x != at {
                    assert(value@[at as int] == '/');
                }
            }
        }
        let address = value.substring_char(0, at);
        let mut digits: Vec<char> = Vec::new();
        let mut k: usize = at + 1;
        while k < n
            invariant
                n == value@.len(),
                at < n,
                at + 1 <= k <= n,
                digits@ == value@.subrange(at + 1, k as int),
            decreases n - k,
        {
            digits.push(value.get_char(k));
            proof {
                assert(digits@ =~= value@.subrange(at + 1, k + 1));
            }
            k = k + 1;
        }
        match byte_from_chars(&digits) {
            Some(prefix) => if prefix <= 32 {
                match quad_from_text(address) {
                    Some(bytes) => Some(Subnet::from_parts(bytes, prefix)),
                    None => None,
                }
            } else {
                None
            },
            None => None,
        }
    }

    /// `a.b.c.d/n`: the address and the prefix length of the mask.
    pub fn text(&self) -> (s: String)
        ensures
            s@ == dotted(self.ip@) + "/"@ + dec_text(cidr_of(self.mask.bytes@) as nat),
    {
        let slash = "/";
        let mut s = dotted_text(self.ip);
        s.append(slash);
        let c = self.mask.to_cidr();
        let t = byte_text(c);
        s.append(t.as_str());
        s
    }
}

/// The trailing zero bits of the partial byte of an `n`-bit prefix, `0 < n % 8`.
proof fn lemma_partial_zeros(r: u32)
    requires
        1 <= r <= 7,
    ensures
        zero_bits_from((0xff00u16 >> r) as u8, 0) == 8 - r,
{
    let b = (0xff00u16 >> r) as u8;
    let m = (8 - r) as u32;
    assert(forall|j: u32| j < m ==> #[trigger] ((b >> j) & 1) == 0) by (bit_vector)
        requires
            1 <= r <= 7,
            b == (0xff00u16 >> r) as u8,
            m == 8 - r,
    ;
    assert((b >> m) & 1 == 1) by (bit_vector)
        requires
            1 <= r <= 7,
            b == (0xff00u16 >> r) as u8,
            m == 8 - r,
    ;
    lemma_zero_bits_run(b, 0, m);
}

proof fn lemma_mask_zeros_prefix(n: nat, bytes: Seq<u8>, i: nat)
    requires
        n <= 32,
        bytes.len() == 4,
        forall|j: int| 0 <= j < 4 ==> #[trigger] bytes[j] == prefix_byte(n, j as nat),
        i <= 4,
        8 * i >= n,
    ensures
        mask_zeros(bytes, i) == 8 * i - n,
    decreases i,
{
    if i > 0 {
        let j = (i - 1) as nat;
        if n <= 8 * j {
            assert(bytes[j as int] == 0);
            lemma_mask_zeros_prefix(n, bytes, j);
        } else if n >= 8 * i {
            assert(bytes[j as int] == 0xff);
            assert((0xffu8 >> 0u32) & 1 == 1) by (bit_vector);
            assert(zero_bits_from(0xffu8, 0) == 0);
        } else {
            let r = (n - 8 * j) as u32;
            assert(bytes[j as int] == (0xff00u16 >> r) as u8);
            lemma_partial_zeros(r);
            assert((0xff00u16 >> r) as u8 != 0) by (bit_vector)
                requires
                    1 <= r <= 7,
            ;
        }
    }
}

/// The prefix length of the mask of an `n`-bit prefix is `n`: writing a subnet as `a.b.c.d/n`
/// gives back the prefix it was made with.
pub proof fn lemma_prefix_cidr(n: nat, bytes: Seq<u8>)
    requires
        n <= 32,
        bytes.len() == 4,
        forall|j: int| 0 <= j < 4 ==> #[trigger] bytes[j] == prefix_byte(n, j as nat),
    ensures
        cidr_of(bytes) == n,
{
    lemma_mask_zeros_prefix(n, bytes, 4);
}

/// A rate report of the traffic monitor: a destination address and a throughput.
#[derive(Clone, Copy, Debug, PartialEq, Eq)]
pub struct Message {
    pub dst: u32,
    pub throughput: u32,
}

/// An address as the kernel side of the monitor writes it: the first byte of `a.b.c.d` is
/// the least significant.
#[derive(Clone, Copy, Debug, PartialEq, Eq)]
pub struct SocketAddr {
    pub addr: u32,
}

/// A number's decimal text centred in three columns, the odd space on the right.
pub open spec fn centred3(t: Seq<char>) -> Seq<char> {
    if t.len() == 1 {
        seq![' '] + t + seq![' ']
    } else if t.len() == 2 {
        t + seq![' ']
    } else {
        t
    }
}

proof fn lemma_dec_text_len(n: nat)
    ensures
        n < 10 ==> dec_text(n).len() == 1,
        10 <= n < 100 ==> dec_text(n).len() == 2,
        100 <= n < 1000 ==> dec_text(n).len() == 3,
{
    if 10 <= n < 1000 {
        if n / 10 >= 10 {
            assert(dec_text(n / 100).len() == 1);
            assert(dec_text(n / 10).len() == 2);
        } else {
            assert(dec_text(n / 10).len() == 1);
        }
    }
}

/// The decimal text of a byte centred in three columns.
fn centred_byte_text(b: u8) -> (s: String)
    ensures
        s@ == centred3(dec_text(b as nat)),
{
    let space = " ";
    proof {
        reveal_strlit(" ");
        lemma_dec_text_len(b as nat);
    }
    let t = byte_text(b);
    if b < 10 {
        let mut s = String::from_str(space);
        s.append(t.as_str());
        s.append(space);
        s
    } else if b < 100 {
        let mut s = t;
        s.append(space);
        s
    } else {
        t
    }
}

impl SocketAddr {
    pub fn new(addr: u32) -> (s: SocketAddr)
        ensures
            s.addr == addr,
    {
        SocketAddr { addr }
    }

    /// The address written `a.b.c.d`, `a` going to the least significant byte.
    pub fn from_text(value: &str) -> (s: SocketAddr)
        requires
            quad_of_text(value@) is Some,
        ensures
            s.addr == le_value(quad_of_text(value@)->Some_0),
    {
        let v = quad_from_text(value).unwrap();
        let (v0, v1, v2, v3) = (v[0], v[1], v[2], v[3]);
        let mut addr: u32 = 0;
        addr = addr | ((v3 as u32) << 24);
        addr = addr | ((v2 as u32) << 16);
        addr = addr | ((v1 as u32) << 8);
        addr = addr | ((v0 as u32) << 0);
        proof {
            assert(((((0u32 | ((v3 as u32) << 24)) | ((v2 as u32) << 16)) | ((v1 as u32) << 8)) | ((v0 as u32) << 0))
                == v3 * 0x100_0000 + v2 * 0x1_0000 + v1 * 0x100 + v0) by (bit_vector);
        }
        SocketAddr { addr }
    }

    /// `d.c.b.a`, the bytes of the address from the most significant, each centred in
    /// three columns.
    pub fn text(&self) -> (s: String)
        ensures
            s@ == centred3(dec_text(byte_at(self.addr, 3) as nat)) + "."@ + centred3(dec_text(byte_at(self.addr, 2) as nat))
                + "."@ + centred3(dec_text(byte_at(self.addr, 1) as nat)) + "."@ + centred3(
                dec_text(byte_at(self.addr, 0) as nat),
            ),
    {
        let dot = ".";
        let octets = to_be_bytes(self.addr);
        let mut s = centred_byte_text(octets[0]);
        s.append(dot);
        let t1 = centred_byte_text(octets[1]);
        s.append(t1.as_str());
        s.append(dot);
        let t2 = centred_byte_text(octets[2]);
        s.append(t2.as_str());
        s.append(dot);
        let t3 = centred_byte_text(octets[3]);
        s.append(t3.as_str());
        s
    }
}

/// An address as the user side of the monitor writes it: the first byte of `a.b.c.d` is the
/// most significant.
#[derive(Clone, Copy, Debug, PartialEq, Eq)]
pub struct MonitorIpAddr {
    pub addr: u32,
}

impl MonitorIpAddr {
    pub fn new(addr: u32) -> (m: MonitorIpAddr)
        ensures
            m.addr == addr,
    {
        MonitorIpAddr { addr }
    }

    /// The address written `a.b.c.d`, `a` going to the most significant byte.
    pub fn from_text(value: &str) -> (m: MonitorIpAddr)
        requires
            quad_of_text(value@) is Some,
        ensures
            m.addr == be_value(quad_of_text(value@)->Some_0),
    {
        let bytes = quad_from_text(value).unwrap();
        MonitorIpAddr { addr: from_be_bytes(bytes) }
    }

    /// The four bytes of the address, the most significant first.
    pub fn octets(&self) -> (b: [u8; 4])
        ensures
            b@ == be_bytes(self.addr),
    {
        to_be_bytes(self.addr)
    }

    /// `a.b.c.d`, the bytes of the address from the most significant.
    pub fn to_string(&self) -> (s: String)
        ensures
            s@ == dotted(be_bytes(self.addr)),
    {
        dotted_text(to_be_bytes(self.addr))
    }
}

/// The four bytes of `x` give `x` back.
pub proof fn lemma_be_value_of_bytes(x: u32)
    ensures
        be_value(be_bytes(x)) == x,
{
    let (b0, b1, b2, b3) = (byte_at(x, 3), byte_at(x, 2), byte_at(x, 1), byte_at(x, 0));
    assert(b0 * 0x100_0000 + b1 * 0x1_0000 + b2 * 0x100 + b3 == x) by (bit_vector)
        requires
            b0 == ((x >> 24) & 0xff) as u8,
            b1 == ((x >> 16) & 0xff) as u8,
            b2 == ((x >> 8) & 0xff) as u8,
            b3 == ((x >> 0) & 0xff) as u8,
    ;
}

/// The value of four bytes gives the four bytes back.
pub proof fn lemma_be_bytes_of_value(b: Seq<u8>)
    requires
        b.len() == 4,
    ensures
        0 <= be_value(b) <= u32::MAX,
        be_bytes(be_value(b) as u32) == b,
{
    let (b0, b1, b2, b3) = (b[0], b[1], b[2], b[3]);
    let x: u32 = (((b0 as u32) << 24) | ((b1 as u32) << 16) | ((b2 as u32) << 8) | (b3 as u32)) as u32;
    assert(((b0 as u32) << 24) | ((b1 as u32) << 16) | ((b2 as u32) << 8) | (b3 as u32) == b0 * 0x100_0000 + b1
        * 0x1_0000 + b2 * 0x100 + b3) by (bit_vector);
    assert(((x >> 24) & 0xff) as u8 == b0 && ((x >> 16) & 0xff) as u8 == b1 && ((x >> 8) & 0xff) as u8 == b2 && ((x
        >> 0) & 0xff) as u8 == b3) by (bit_vector)
        requires
            x == ((b0 as u32) << 24) | ((b1 as u32) << 16) | ((b2 as u32) << 8) | (b3 as u32),
    ;
    assert(be_bytes(x) =~= b);
}

/// Reading back the text of a monitor address gives the address: the text is a dotted quad
/// whose value, the first byte the most significant, is the address.
pub proof fn lemma_monitor_text_round_trip(m: MonitorIpAddr)
    ensures
        quad_of_text(dotted(be_bytes(m.addr))) == Some(be_bytes(m.addr)),
        be_value(quad_of_text(dotted(be_bytes(m.addr)))->Some_0) == m.addr,
{
    lemma_dotted_round_trip(be_bytes(m.addr));
    lemma_be_value_of_bytes(m.addr);
}

} // verus!
