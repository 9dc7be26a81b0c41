//! The packet codec: framing over a byte stream.
//!
//! A packet is carried as one self-delimiting textual object: a message is
//! `{"Message":[<id>,<payload>]}` where `<id>` is the decimal id and
//! `<payload>` is the payload's own self-delimiting encoding, and a
//! shutdown signal is the bare word `"Shutdown"`. Consecutive packets are
//! simply concatenated; the decoder finds the boundary from the text alone.
//!
//! The decoder distinguishes four outcomes: a complete packet, a clean end
//! of input before any byte of a new packet, input that stops in the middle
//! of a packet (more bytes may still arrive), and a malformed packet.

use vstd::prelude::*;
use crate::packet::Packet;

verus! {

pub const QUOTE: u8 = 34;
pub const BACKSLASH: u8 = 92;
pub const LBRACE: u8 = 123;
pub const RBRACE: u8 = 125;
pub const LBRACKET: u8 = 91;
pub const RBRACKET: u8 = 93;
pub const COMMA: u8 = 44;

/// Whether a byte may occur in an unquoted primitive token: a digit, a
/// letter, a sign, or a decimal point.
pub open spec fn is_prim_byte(b: u8) -> bool {
    (48 <= b && b <= 57) || (97 <= b && b <= 122) || (65 <= b && b <= 90)
        || b == 45 || b == 43 || b == 46
}

/// Whether a byte is a decimal digit.
pub open spec fn is_digit(b: u8) -> bool {
    48 <= b && b <= 57
}

/// Where a scan of one textual value ends: at an index, or the input ran
/// out first, or the value cannot start here at all.
pub enum ScanRes {
    End(int),
    More,
    Bad,
}

/// Scans the remainder of a quoted string starting just after some prefix
/// of it, honouring backslash escapes; `esc` says whether the previous byte
/// was an unconsumed escape. Ends just after the closing quote.
pub open spec fn scan_string(s: Seq<u8>, j: int, esc: bool) -> ScanRes
    decreases s.len() - j
        when 0 <= j <= s.len()
{
    if j >= s.len() {
        ScanRes::More
    } else if esc {
        scan_string(s, j + 1, false)
    } else if s[j] == QUOTE {
        ScanRes::End(j + 1)
    } else if s[j] == BACKSLASH {
        scan_string(s, j + 1, true)
    } else {
        scan_string(s, j + 1, false)
    }
}

/// Scans the remainder of a bracketed value (object or array) whose opening
/// bracket was already consumed; `depth` open brackets are outstanding and
/// `instr`/`esc` describe a quoted string in progress. Ends just after the
/// bracket that closes the outermost one.
pub open spec fn scan_container(s: Seq<u8>, j: int, depth: nat, instr: bool, esc: bool) -> ScanRes
    decreases s.len() - j
        when 0 <= j <= s.len() && depth >= 1
{
    if j >= s.len() {
        ScanRes::More
    } else if esc {
        scan_container(s, j + 1, depth, true, false)
    } else if instr {
        if s[j] == BACKSLASH {
            scan_container(s, j + 1, depth, true, true)
        } else if s[j] == QUOTE {
            scan_container(s, j + 1, depth, false, false)
        } else {
            scan_container(s, j + 1, depth, true, false)
        }
    } else if s[j] == QUOTE {
        scan_container(s, j + 1, depth, true, false)
    } else if s[j] == LBRACE || s[j] == LBRACKET {
        scan_container(s, j + 1, depth + 1, false, false)
    } else if s[j] == RBRACE || s[j] == RBRACKET {
        if depth == 1 {
            ScanRes::End(j + 1)
        } else {
            scan_container(s, j + 1, (depth - 1) as nat, false, false)
        }
    } else {
        scan_container(s, j + 1, depth, false, false)
    }
}

/// Scans to the end of a run of primitive bytes starting at `j`.
pub open spec fn scan_prim(s: Seq<u8>, j: int) -> int
    decreases s.len() - j
        when 0 <= j <= s.len()
{
    if j < s.len() && is_prim_byte(s[j]) {
        scan_prim(s, j + 1)
    } else {
        j
    }
}

/// Scans to the end of a run of decimal digits starting at `j`.
pub open spec fn scan_digits(s: Seq<u8>, j: int) -> int
    decreases s.len() - j
        when 0 <= j <= s.len()
{
    if j < s.len() && is_digit(s[j]) {
        scan_digits(s, j + 1)
    } else {
        j
    }
}

/// Scans one self-delimiting textual value that starts exactly at `j`: a
/// quoted string, a bracketed object or array, or a primitive token. A
/// primitive that runs to the end of the input is not yet delimited, so the
/// scan asks for more bytes.
pub open spec fn scan_value(s: Seq<u8>, j: int) -> ScanRes {
    if !(0 <= j <= s.len()) {
        ScanRes::Bad
    } else if j == s.len() {
        ScanRes::More
    } else if s[j] == QUOTE {
        scan_string(s, j + 1, false)
    } else if s[j] == LBRACE || s[j] == LBRACKET {
        scan_container(s, j + 1, 1, false, false)
    } else if is_prim_byte(s[j]) {
        if scan_prim(s, j + 1) >= s.len() {
            ScanRes::More
        } else {
            ScanRes::End(scan_prim(s, j + 1))
        }
    } else {
        ScanRes::Bad
    }
}

/// A payload is a valid frame filling exactly when it is one self-delimiting
/// value: scanned in front of the closing bracket that follows it inside a
/// message frame, the scan ends exactly at its end.
pub open spec fn valid_payload(p: Seq<u8>) -> bool {
    scan_value(p.push(RBRACKET), 0) == ScanRes::End(p.len() as int)
}

/// The decimal digits of `n`, most significant first, without a sign and
/// without leading zeros (`0` itself is the single digit `0`).
pub open spec fn dec_digits(n: nat) -> Seq<u8>
    decreases n
{
    if n < 10 {
        seq![(n + 48) as u8]
    } else {
        dec_digits(n / 10).push((n % 10 + 48) as u8)
    }
}

/// The value of a string of decimal digits, most significant first.
pub open spec fn dec_val(ds: Seq<u8>) -> int
    decreases ds.len()
{
    if ds.len() == 0 {
        0
    } else {
        dec_val(ds.drop_last()) * 10 + (ds.last() - 48)
    }
}

/// The bytes `{"Message":[` that open a message frame.
pub open spec fn header_seq() -> Seq<u8> {
    seq![123u8, 34u8, 77u8, 101u8, 115u8, 115u8, 97u8, 103u8, 101u8, 34u8, 58u8, 91u8]
}

/// The bytes `"Shutdown"` that form a whole shutdown frame.
pub open spec fn shutdown_seq() -> Seq<u8> {
    seq![34u8, 83u8, 104u8, 117u8, 116u8, 100u8, 111u8, 119u8, 110u8, 34u8]
}

/// The frame that carries a packet on the wire.
pub open spec fn frame(p: Packet<Seq<u8>>) -> Seq<u8> {
    match p {
        Packet::Message(id, payload) =>
            header_seq() + dec_digits(id as nat) + seq![COMMA] + payload + seq![RBRACKET, RBRACE],
        Packet::Shutdown => shutdown_seq(),
    }
}

/// A packet that the codec can carry: a message payload must be one
/// self-delimiting value; a shutdown signal always fits.
pub open spec fn wf_packet(p: Packet<Seq<u8>>) -> bool {
    match p {
        Packet::Message(_, payload) => valid_payload(payload),
        Packet::Shutdown => true,
    }
}

/// Appends the decimal digits of `n` to `out`.
pub fn push_decimal(out: &mut Vec<u8>, n: u64)
    ensures
        final(out)@ == old(out)@ + dec_digits(n as nat),
    decreases n,
{
    let ghost orig = out@;
    if n >= 10 {
        push_decimal(out, n / 10);
    }
    out.push((n % 10) as u8 + 48);
    proof {
        if n < 10 {
            assert(orig + dec_digits(n as nat) =~= orig.push(((n % 10) + 48) as u8));
        } else {
            assert(orig + dec_digits(n as nat)
                =~= (orig + dec_digits((n / 10) as nat)).push(((n % 10) + 48) as u8));
        }
    }
}

/// Whether the whole literal `lit` stands in `s` at position `j`.
pub open spec fn has_lit(s: Seq<u8>, j: int, lit: Seq<u8>) -> bool {
    0 <= j && j + lit.len() <= s.len() && s.subrange(j, j + lit.len()) == lit
}

/// Whether `s` ends before the literal `lit` standing at `j` is complete,
/// matching it as far as `s` goes.
pub open spec fn has_lit_prefix(s: Seq<u8>, j: int, lit: Seq<u8>) -> bool {
    0 <= j <= s.len() && s.len() - j < lit.len()
        && s.subrange(j, s.len() as int) == lit.subrange(0, s.len() - j)
}

/// What decoding at a position yields: a packet and the position just after
/// its frame; a clean end of input before any byte of a packet; input that
/// stops in the middle of a packet; or a malformed packet.
pub enum SpecParse {
    Found(Packet<Seq<u8>>, int),
    CleanEnd,
    NeedMore,
    Malformed,
}

/// Decodes the body of a message frame, `j` standing just after the opening
/// `{"Message":[`: the decimal id, a comma, one self-delimiting payload,
/// and the closing `]}`.
pub open spec fn parse_message(s: Seq<u8>, j: int) -> SpecParse {
    let k = scan_digits(s, j);
    if k == s.len() {
        SpecParse::NeedMore
    } else if k == j {
        SpecParse::Malformed
    } else if dec_val(s.subrange(j, k)) > u64::MAX {
        SpecParse::Malformed
    } else if s[k] != COMMA {
        SpecParse::Malformed
    } else {
        match scan_value(s, k + 1) {
            ScanRes::More => SpecParse::NeedMore,
            ScanRes::Bad => SpecParse::Malformed,
            ScanRes::End(m) => {
                if m == s.len() {
                    SpecParse::NeedMore
                } else if s[m] != RBRACKET {
                    SpecParse::Malformed
                } else if m + 1 == s.len() {
                    SpecParse::NeedMore
                } else if s[m + 1] != RBRACE {
                    SpecParse::Malformed
                } else {
                    SpecParse::Found(
                        Packet::Message(dec_val(s.subrange(j, k)) as u64, s.subrange(k + 1, m)),
                        m + 2,
                    )
                }
            },
        }
    }
}

/// Decodes one frame of `s` starting at `i`.
pub open spec fn parse(s: Seq<u8>, i: int) -> SpecParse {
    if !(0 <= i <= s.len()) {
        SpecParse::Malformed
    } else if i == s.len() {
        SpecParse::CleanEnd
    } else if s[i] == QUOTE {
        if has_lit(s, i, shutdown_seq()) {
            SpecParse::Found(Packet::Shutdown, i + shutdown_seq().len())
        } else if has_lit_prefix(s, i, shutdown_seq()) {
            SpecParse::NeedMore
        } else {
            SpecParse::Malformed
        }
    } else if s[i] == LBRACE {
        if has_lit(s, i, header_seq()) {
            parse_message(s, i + header_seq().len())
        } else if has_lit_prefix(s, i, header_seq()) {
            SpecParse::NeedMore
        } else {
            SpecParse::Malformed
        }
    } else {
        SpecParse::Malformed
    }
}

/// Serializes one packet to its frame.
pub fn encode_packet(p: &Packet<Vec<u8>>) -> (out: Vec<u8>)
    ensures
        out@ == frame(p@),
{
    let mut out: Vec<u8> = Vec::new();
    match p {
        Packet::Shutdown => {
            out.push(34);
            out.push(83);
            out.push(104);
            out.push(117);
            out.push(116);
            out.push(100);
            out.push(111);
            out.push(119);
            out.push(110);
            out.push(34);
            proof {
                assert(out@ =~= shutdown_seq());
            }
        },
        Packet::Message(id, payload) => {
            out.push(123);
            out.push(34);
            out.push(77);
            out.push(101);
            out.push(115);
            out.push(115);
            out.push(97);
            out.push(103);
            out.push(101);
            out.push(34);
            out.push(58);
            out.push(91);
            proof {
                assert(out@ =~= header_seq());
            }
            push_decimal(&mut out, *id);
            out.push(COMMA);
            proof {
                assert(out@ =~= header_seq() + dec_digits(*id as nat) + seq![COMMA]
                    + payload@.subrange(0, 0));
            }
            let mut i: usize = 0;
            while i < payload.len()
                invariant
                    i <= payload.len(),
                    out@ == header_seq() + dec_digits(*id as nat) + seq![COMMA]
                        + payload@.subrange(0, i as int),
                decreases payload.len() - i,
            {
                out.push(payload[i]);
                i += 1;
                proof {
                    assert(out@ =~= header_seq() + dec_digits(*id as nat) + seq![COMMA]
                        + payload@.subrange(0, i as int));
                }
            }
            out.push(RBRACKET);
            out.push(RBRACE);
            proof {
                assert(payload@.subrange(0, payload@.len() as int) =~= payload@);
                assert(out@ =~= frame(p@));
            }
        },
    }
    out
}

/// Whether a byte may occur in an unquoted primitive token.
pub fn prim_byte(b: u8) -> (r: bool)
    ensures
        r == is_prim_byte(b),
{
    (48 <= b && b <= 57) || (97 <= b && b <= 122) || (65 <= b && b <= 90)
        || b == 45 || b == 43 || b == 46
}

/// Whether a byte is a decimal digit.
pub fn digit_byte(b: u8) -> (r: bool)
    ensures
        r == is_digit(b),
{
    48 <= b && b <= 57
}

/// Where an executable scan of one textual value ends.
pub enum ScanEx {
    End(usize),
    More,
    Bad,
}

/// The result of an executable scan, as the specification states it.
pub open spec fn scan_ex_view(r: ScanEx) -> ScanRes {
    match r {
        ScanEx::End(k) => ScanRes::End(k as int),
        ScanEx::More => ScanRes::More,
        ScanEx::Bad => ScanRes::Bad,
    }
}

/// Scans one self-delimiting textual value of `buf` starting at `j`.
pub fn scan_value_exec(buf: &[u8], j: usize) -> (r: ScanEx)
    requires
        j <= buf@.len(),
    ensures
        scan_ex_view(r) == scan_value(buf@, j as int),
        r matches ScanEx::End(k) ==> j < k <= buf@.len(),
{
    if j == buf.len() {
        return ScanEx::More;
    }
    let b = buf[j];
    if b == 34 {
        let mut k: usize = j + 1;
        let mut esc: bool = false;
        while k < buf.len()
            invariant
                j + 1 <= k <= buf@.len(),
                j < buf@.len(),
                buf@[j as int] == 34,
                scan_string(buf@, j + 1, false) == scan_string(buf@, k as int, esc),
            decreases buf@.len() - k,
        {
            let ghost k0 = k as int;
            let ghost esc0 = esc;
            let b2 = buf[k];
            if esc {
                esc = false;
                k += 1;
            } else if b2 == 34 {
                proof {
                    assert(scan_string(buf@, k as int, false) == ScanRes::End(k + 1));
                }
                return ScanEx::End(k + 1);
            } else if b2 == 92 {
                esc = true;
                k += 1;
            } else {
                k += 1;
            }
            proof {
                assert(scan_string(buf@, k0, esc0) == scan_string(buf@, k as int, esc));
            }
        }
        ScanEx::More
    } else if b == 123 || b == 91 {
        let mut k: usize = j + 1;
        let mut depth: usize = 1;
        let mut instr: bool = false;
        let mut esc: bool = false;
        while k < buf.len()
            invariant
                j + 1 <= k <= buf@.len(),
                j < buf@.len(),
                buf@[j as int] == 123 || buf@[j as int] == 91,
                1 <= depth <= k,
                esc ==> instr,
                scan_container(buf@, j + 1, 1, false, false)
                    == scan_container(buf@, k as int, depth as nat, instr, esc),
            decreases buf@.len() - k,
        {
            let ghost k0 = k as int;
            let ghost d0 = depth as nat;
            let ghost i0 = instr;
            let ghost e0 = esc;
            let b2 = buf[k];
            if esc {
                esc = false;
                k += 1;
            } else if instr {
                if b2 == 92 {
                    esc = true;
                    k += 1;
                } else if b2 == 34 {
                    instr = false;
                    k += 1;
                } else {
                    k += 1;
                }
            } else if b2 == 34 {
                instr = true;
                k += 1;
            } else if b2 == 123 || b2 == 91 {
                depth += 1;
                k += 1;
            } else if b2 == 125 || b2 == 93 {
                if depth == 1 {
                    proof {
                        assert(scan_container(buf@, k as int, 1nat, false, false)
                            == ScanRes::End(k + 1));
                    }
                    return ScanEx::End(k + 1);
                }
                depth -= 1;
                k += 1;
            } else {
                k += 1;
            }
            proof {
                assert(scan_container(buf@, k0, d0, i0, e0)
                    == scan_container(buf@, k as int, depth as nat, instr, esc));
            }
        }
        ScanEx::More
    } else if prim_byte(b) {
        let mut k: usize = j + 1;
        while k < buf.len() && prim_byte(buf[k])
            invariant
                j + 1 <= k <= buf@.len(),
                scan_prim(buf@, j + 1) == scan_prim(buf@, k as int),
            decreases buf@.len() - k,
        {
            k += 1;
        }
        if k == buf.len() {
            ScanEx::More
        } else {
            ScanEx::End(k)
        }
    } else {
        ScanEx::Bad
    }
}

/// How a literal compares against the input at a position: it stands there
/// whole, the input ran out while it still matched, or they differ.
pub enum LitCheck {
    Full,
    Partial,
    Mismatch,
}

/// Compares the literal `lit` against `buf` at position `j`.
pub fn check_lit(buf: &[u8], j: usize, lit: &Vec<u8>) -> (r: LitCheck)
    requires
        j <= buf@.len(),
    ensures
        r matches LitCheck::Full <==> has_lit(buf@, j as int, lit@),
        r matches LitCheck::Partial <==> has_lit_prefix(buf@, j as int, lit@),
{
    let mut i: usize = 0;
    let mut p: usize = j;
    while i < lit.len() && p < buf.len()
        invariant
            0 <= i <= lit@.len(),
            p == j + i,
            p <= buf@.len(),
            buf@.subrange(j as int, p as int) == lit@.subrange(0, i as int),
        decreases lit@.len() - i,
    {
        if buf[p] != lit[i] {
            proof {
                if has_lit(buf@, j as int, lit@) {
                    assert(buf@.subrange(j as int, j + lit@.len())[i as int] == lit@[i as int]);
                    assert(false);
                }
                if has_lit_prefix(buf@, j as int, lit@) {
                    assert(buf@.subrange(j as int, buf@.len() as int)[i as int] == lit@.subrange(
                        0,
                        buf@.len() - j,
                    )[i as int]);
                    assert(false);
                }
            }
            return LitCheck::Mismatch;
        }
        i += 1;
        p += 1;
        proof {
            assert(buf@.subrange(j as int, p as int) =~= buf@.subrange(j as int, p - 1).push(
                buf@[p - 1],
            ));
            assert(lit@.subrange(0, i as int) =~= lit@.subrange(0, i - 1).push(lit@[i - 1]));
        }
    }
    if i == lit.len() {
        proof {
            assert(buf@.subrange(j as int, j + lit@.len()) == lit@.subrange(0, lit@.len() as int));
            assert(lit@.subrange(0, lit@.len() as int) =~= lit@);
        }
        LitCheck::Full
    } else {
        proof {
            assert(p == buf@.len());
            assert(buf@.subrange(j as int, buf@.len() as int) == lit@.subrange(0, buf@.len() - j));
        }
        LitCheck::Partial
    }
}

/// The literal `"Shutdown"`, as bytes.
pub fn shutdown_lit() -> (v: Vec<u8>)
    ensures
        v@ == shutdown_seq(),
{
    let mut v: Vec<u8> = Vec::new();
    v.push(34);
    v.push(83);
    v.push(104);
    v.push(117);
    v.push(116);
    v.push(100);
    v.push(111);
    v.push(119);
    v.push(110);
    v.push(34);
    proof {
        assert(v@ =~= shutdown_seq());
    }
    v
}

/// The literal `{"Message":[`, as bytes.
pub fn header_lit() -> (v: Vec<u8>)
    ensures
        v@ == header_seq(),
{
    let mut v: Vec<u8> = Vec::new();
    v.push(123);
    v.push(34);
    v.push(77);
    v.push(101);
    v.push(115);
    v.push(115);
    v.push(97);
    v.push(103);
    v.push(101);
    v.push(34);
    v.push(58);
    v.push(91);
    proof {
        assert(v@ =~= header_seq());
    }
    v
}

/// Copies the bytes of `buf` between `a` and `b` into a fresh vector.
pub fn copy_range(buf: &[u8], a: usize, b: usize) -> (v: Vec<u8>)
    requires
        a <= b <= buf@.len(),
    ensures
        v@ == buf@.subrange(a as int, b as int),
{
    let mut v: Vec<u8> = Vec::new();
    let mut i: usize = a;
    while i < b
        invariant
            a <= i <= b <= buf@.len(),
            v@ == buf@.subrange(a as int, i as int),
        decreases b - i,
    {
        v.push(buf[i]);
        i += 1;
        proof {
            assert(buf@.subrange(a as int, i as int) =~= buf@.subrange(a as int, i - 1).push(
                buf@[i - 1],
            ));
        }
    }
    proof {
        assert(v@ =~= buf@.subrange(a as int, b as int));
    }
    v
}

/// Whether `p` can fill the payload slot of a message frame.
pub fn payload_ok(p: &Vec<u8>) -> (b: bool)
    ensures
        b == valid_payload(p@),
{
    let mut buf = copy_range(p.as_slice(), 0, p.len());
    proof {
        assert(buf@ =~= p@);
    }
    buf.push(93);
    proof {
        assert(buf@ =~= p@.push(RBRACKET));
    }
    match scan_value_exec(buf.as_slice(), 0) {
        ScanEx::End(k) => k == p.len(),
        ScanEx::More => false,
        ScanEx::Bad => false,
    }
}

/// Appends all of `src` to `out`.
pub fn append_bytes(out: &mut Vec<u8>, src: &Vec<u8>)
    ensures
        final(out)@ == old(out)@ + src@,
{
    let ghost orig = out@;
    let mut i: usize = 0;
    proof {
        assert(out@ =~= orig + src@.subrange(0, 0));
    }
    while i < src.len()
        invariant
            i <= src@.len(),
            out@ == orig + src@.subrange(0, i as int),
        decreases src@.len() - i,
    {
        out.push(src[i]);
        i += 1;
        proof {
            assert(out@ =~= orig + src@.subrange(0, i as int));
        }
    }
    proof {
        assert(orig + src@.subrange(0, src@.len() as int) =~= orig + src@);
    }
}

/// What the executable decoder yields.
#[derive(Debug, PartialEq, Eq)]
pub enum Decoded {
    Found(Packet<Vec<u8>>, usize),
    CleanEnd,
    NeedMore,
    Malformed,
}

/// The result of the executable decoder, as the specification states it.
pub open spec fn decoded_view(r: Decoded) -> SpecParse {
    match r {
        Decoded::Found(p, n) => SpecParse::Found(p@, n as int),
        Decoded::CleanEnd => SpecParse::CleanEnd,
        Decoded::NeedMore => SpecParse::NeedMore,
        Decoded::Malformed => SpecParse::Malformed,
    }
}

/// Decodes one frame of `buf` starting at `start`.
pub fn decode_packet(buf: &[u8], start: usize) -> (r: Decoded)
    requires
        start <= buf@.len(),
    ensures
        decoded_view(r) == parse(buf@, start as int),
        r matches Decoded::Found(p, n) ==> start < n <= buf@.len(),
{
    if start == buf.len() {
        return Decoded::CleanEnd;
    }
    let b = buf[start];
    if b == 34 {
        let lit = shutdown_lit();
        match check_lit(buf, start, &lit) {
            LitCheck::Full => Decoded::Found(Packet::Shutdown, start + 10),
            LitCheck::Partial => Decoded::NeedMore,
            LitCheck::Mismatch => Decoded::Malformed,
        }
    } else if b == 123 {
        let lit = header_lit();
        match check_lit(buf, start, &lit) {
            LitCheck::Partial => Decoded::NeedMore,
            LitCheck::Mismatch => Decoded::Malformed,
            LitCheck::Full => {
                let q: usize = start + 12;
                let ghost qs = q as int;
                let mut k: usize = q;
                let mut val: u64 = 0;
                let mut over: bool = false;
                while k < buf.len() && digit_byte(buf[k])
                    invariant
                        q <= k <= buf@.len(),
                        scan_digits(buf@, qs) == scan_digits(buf@, k as int),
                        qs == q as int,
                        !over ==> val == dec_val(buf@.subrange(qs, k as int)),
                        over ==> dec_val(buf@.subrange(qs, k as int)) > u64::MAX,
                    decreases buf@.len() - k,
                {
                    let ghost pre = buf@.subrange(qs, k as int);
                    let d: u8 = buf[k] - 48;
                    let ghost oldval = val;
                    let ghost oldover = over;
                    if over {
                    } else if val > (u64::MAX - d as u64) / 10 {
                        over = true;
                    } else {
                        proof {
                            assert(oldval * 10 + d <= u64::MAX) by (nonlinear_arith)
                                requires
                                    oldval <= (u64::MAX - d) / 10,
                                    0 <= d <= 9,
                            ;
                        }
                        val = val * 10 + d as u64;
                    }
                    k += 1;
                    proof {
                        let cur = buf@.subrange(qs, k as int);
                        assert(cur.drop_last() =~= pre);
                        assert(cur.last() == buf@[k - 1]);
                        assert(dec_val(cur) == dec_val(pre) * 10 + (buf@[k - 1] - 48));
                        if !oldover && oldval > (u64::MAX - d as u64) / 10 {
                            assert(oldval * 10 + d > u64::MAX) by (nonlinear_arith)
                                requires
                                    oldval > (u64::MAX - d) / 10,
                                    0 <= d <= 9,
                            ;
                        }
                        if oldover {
                            assert(dec_val(pre) * 10 + (buf@[k - 1] - 48) > u64::MAX)
                                by (nonlinear_arith)
                                requires
                                    dec_val(pre) > u64::MAX,
                                    0 <= buf@[k - 1] - 48 <= 9,
                            ;
                        }
                    }
                }
                proof {
                    assert(scan_digits(buf@, k as int) == k as int);
                }
                if k == buf.len() {
                    Decoded::NeedMore
                } else if k == q {
                    Decoded::Malformed
                } else if over {
                    Decoded::Malformed
                } else if buf[k] != 44 {
                    Decoded::Malformed
                } else {
                    match scan_value_exec(buf, k + 1) {
                        ScanEx::More => Decoded::NeedMore,
                        ScanEx::Bad => Decoded::Malformed,
                        ScanEx::End(m) => {
                            if m == buf.len() {
                                Decoded::NeedMore
                            } else if buf[m] != 93 {
                                Decoded::Malformed
                            } else if m + 1 == buf.len() {
                                Decoded::NeedMore
                            } else if buf[m + 1] != 125 {
                                Decoded::Malformed
                            } else {
                                let payload = copy_range(buf, k + 1, m);
                                Decoded::Found(Packet::Message(val, payload), m + 2)
                            }
                        },
                    }
                }
            },
        }
    } else {
        Decoded::Malformed
    }
}

/// How a whole inbound byte sequence ends, once its complete frames are
/// consumed: cleanly between frames, at a shutdown frame, in the middle of
/// a frame, or at a malformed frame.
#[derive(Clone, Copy, Debug, PartialEq, Eq, Structural)]
pub enum StreamEnd {
    Clean,
    Shut,
    Truncated,
    Malformed,
}

/// The message frames of `s` from `i` on, in order, up to a shutdown frame
/// or the end of the input, together with the way the sequence ends.
pub open spec fn parse_stream(s: Seq<u8>, i: int) -> (Seq<(u64, Seq<u8>)>, StreamEnd)
    decreases s.len() - i
        when 0 <= i <= s.len()
{
    match parse(s, i) {
        SpecParse::CleanEnd => (Seq::empty(), StreamEnd::Clean),
        SpecParse::NeedMore => (Seq::empty(), StreamEnd::Truncated),
        SpecParse::Malformed => (Seq::empty(), StreamEnd::Malformed),
        SpecParse::Found(p, n) => match p {
            Packet::Shutdown => (Seq::empty(), StreamEnd::Shut),
            Packet::Message(id, pl) => if i < n <= s.len() {
                (seq![(id, pl)] + parse_stream(s, n).0, parse_stream(s, n).1)
            } else {
                (Seq::empty(), StreamEnd::Malformed)
            },
        },
    }
}

/// A scan result moved right by `off` bytes.
pub open spec fn shift_res(r: ScanRes, off: int) -> ScanRes {
    match r {
        ScanRes::End(k) => ScanRes::End(k + off),
        ScanRes::More => ScanRes::More,
        ScanRes::Bad => ScanRes::Bad,
    }
}

pub proof fn lemma_scan_prim_bounds(s: Seq<u8>, j: int)
    requires
        0 <= j <= s.len(),
    ensures
        j <= scan_prim(s, j) <= s.len(),
    decreases s.len() - j,
{
    if j < s.len() && is_prim_byte(s[j]) {
        lemma_scan_prim_bounds(s, j + 1);
    }
}

pub proof fn lemma_scan_string_offset(pre: Seq<u8>, s: Seq<u8>, j: int, esc: bool)
    requires
        0 <= j <= s.len(),
    ensures
        scan_string(pre + s, pre.len() + j, esc) == shift_res(
            scan_string(s, j, esc),
            pre.len() as int,
        ),
    decreases s.len() - j,
{
    if j < s.len() {
        assert((pre + s)[pre.len() + j] == s[j]);
        lemma_scan_string_offset(pre, s, j + 1, false);
        lemma_scan_string_offset(pre, s, j + 1, true);
    }
}

pub proof fn lemma_scan_container_offset(
    pre: Seq<u8>,
    s: Seq<u8>,
    j: int,
    depth: nat,
    instr: bool,
    esc: bool,
)
    requires
        0 <= j <= s.len(),
        depth >= 1,
    ensures
        scan_container(pre + s, pre.len() + j, depth, instr, esc) == shift_res(
            scan_container(s, j, depth, instr, esc),
            pre.len() as int,
        ),
    decreases s.len() - j,
{
    if j < s.len() {
        assert((pre + s)[pre.len() + j] == s[j]);
        lemma_scan_container_offset(pre, s, j + 1, depth, true, false);
        lemma_scan_container_offset(pre, s, j + 1, depth, true, true);
        lemma_scan_container_offset(pre, s, j + 1, depth, false, false);
        lemma_scan_container_offset(pre, s, j + 1, depth + 1, false, false);
        if depth > 1 {
            lemma_scan_container_offset(pre, s, j + 1, (depth - 1) as nat, false, false);
        }
    }
}

pub proof fn lemma_scan_prim_offset(pre: Seq<u8>, s: Seq<u8>, j: int)
    requires
        0 <= j <= s.len(),
    ensures
        scan_prim(pre + s, pre.len() + j) == pre.len() + scan_prim(s, j),
    decreases s.len() - j,
{
    if j < s.len() {
        assert((pre + s)[pre.len() + j] == s[j]);
        if is_prim_byte(s[j]) {
            lemma_scan_prim_offset(pre, s, j + 1);
        }
    }
}

pub proof fn lemma_scan_value_offset(pre: Seq<u8>, s: Seq<u8>, j: int)
    requires
        0 <= j <= s.len(),
    ensures
        scan_value(pre + s, pre.len() + j) == shift_res(scan_value(s, j), pre.len() as int),
{
    if j < s.len() {
        assert((pre + s)[pre.len() + j] == s[j]);
        lemma_scan_string_offset(pre, s, j + 1, false);
        lemma_scan_container_offset(pre, s, j + 1, 1, false, false);
        lemma_scan_prim_offset(pre, s, j + 1);
    }
}

pub proof fn lemma_scan_string_ext(s: Seq<u8>, t: Seq<u8>, j: int, esc: bool)
    requires
        0 <= j <= s.len(),
        scan_string(s, j, esc) matches ScanRes::End(e),
    ensures
        scan_string(s + t, j, esc) == scan_string(s, j, esc),
    decreases s.len() - j,
{
    if j < s.len() {
        assert((s + t)[j] == s[j]);
        if esc {
            lemma_scan_string_ext(s, t, j + 1, false);
        } else if s[j] == QUOTE {
        } else if s[j] == BACKSLASH {
            lemma_scan_string_ext(s, t, j + 1, true);
        } else {
            lemma_scan_string_ext(s, t, j + 1, false);
        }
    }
}

pub proof fn lemma_scan_container_ext(
    s: Seq<u8>,
    t: Seq<u8>,
    j: int,
    depth: nat,
    instr: bool,
    esc: bool,
)
    requires
        0 <= j <= s.len(),
        depth >= 1,
        scan_container(s, j, depth, instr, esc) matches ScanRes::End(e),
    ensures
        scan_container(s + t, j, depth, instr, esc) == scan_container(s, j, depth, instr, esc),
    decreases s.len() - j,
{
    if j < s.len() {
        assert((s + t)[j] == s[j]);
        if esc {
            lemma_scan_container_ext(s, t, j + 1, depth, true, false);
        } else if instr {
            if s[j] == BACKSLASH {
                lemma_scan_container_ext(s, t, j + 1, depth, true, true);
            } else if s[j] == QUOTE {
                lemma_scan_container_ext(s, t, j + 1, depth, false, false);
            } else {
                lemma_scan_container_ext(s, t, j + 1, depth, true, false);
            }
        } else if s[j] == QUOTE {
            lemma_scan_container_ext(s, t, j + 1, depth, true, false);
        } else if s[j] == LBRACE || s[j] == LBRACKET {
            lemma_scan_container_ext(s, t, j + 1, depth + 1, false, false);
        } else if s[j] == RBRACE || s[j] == RBRACKET {
            if depth > 1 {
                lemma_scan_container_ext(s, t, j + 1, (depth - 1) as nat, false, false);
            }
        } else {
            lemma_scan_container_ext(s, t, j + 1, depth, false, false);
        }
    }
}

pub proof fn lemma_scan_prim_ext(s: Seq<u8>, t: Seq<u8>, j: int)
    requires
        0 <= j <= s.len(),
        scan_prim(s, j) < s.len(),
    ensures
        scan_prim(s + t, j) == scan_prim(s, j),
    decreases s.len() - j,
{
    lemma_scan_prim_bounds(s, j);
    if j < s.len() {
        assert((s + t)[j] == s[j]);
        if is_prim_byte(s[j]) {
            lemma_scan_prim_ext(s, t, j + 1);
        }
    }
}

pub proof fn lemma_scan_value_ext(s: Seq<u8>, t: Seq<u8>, j: int)
    requires
        0 <= j <= s.len(),
        scan_value(s, j) matches ScanRes::End(e),
    ensures
        scan_value(s + t, j) == scan_value(s, j),
{
    if j < s.len() {
        assert((s + t)[j] == s[j]);
        if s[j] == QUOTE {
            lemma_scan_string_ext(s, t, j + 1, false);
        } else if s[j] == LBRACE || s[j] == LBRACKET {
            lemma_scan_container_ext(s, t, j + 1, 1, false, false);
        } else if is_prim_byte(s[j]) {
            lemma_scan_prim_ext(s, t, j + 1);
        }
    }
}

/// The decimal digits of `n` are a nonempty string of digits whose value
/// is `n` again.
pub proof fn lemma_dec_digits(n: nat)
    ensures
        dec_digits(n).len() >= 1,
        forall|i: int| 0 <= i < dec_digits(n).len() ==> is_digit(#[trigger] dec_digits(n)[i]),
        dec_val(dec_digits(n)) == n,
    decreases n,
{
    if n < 10 {
        let ds = dec_digits(n);
        assert(ds.len() == 1);
        assert(ds.last() == (n + 48) as u8);
        assert(ds.last() - 48 == n);
        assert(dec_val(ds.drop_last()) == 0);
        assert(dec_val(ds) == n);
    } else {
        lemma_dec_digits(n / 10);
        let ds = dec_digits(n);
        assert(ds.drop_last() =~= dec_digits(n / 10));
        assert(0 <= n % 10 < 10);
        assert(ds.last() == (n % 10 + 48) as u8);
        assert(ds.last() - 48 == n % 10);
        assert(dec_val(ds) == dec_val(dec_digits(n / 10)) * 10 + (n % 10));
        assert((n / 10) * 10 + n % 10 == n) by (nonlinear_arith);
        assert(dec_val(ds) == n);
    }
}

/// A run of digits that ends just before a byte that is no digit is
/// scanned exactly to its end.
pub proof fn lemma_scan_digits_at(s: Seq<u8>, j: int, e: int)
    requires
        0 <= j <= e < s.len(),
        forall|t: int| j <= t < e ==> is_digit(#[trigger] s[t]),
        !is_digit(s[e]),
    ensures
        scan_digits(s, j) == e,
    decreases e - j,
{
    if j < e {
        lemma_scan_digits_at(s, j + 1, e);
    }
}

/// Round trip: a frame written for any packet the codec can carry decodes
/// to that packet again, whatever bytes follow it on the stream.
#[verifier::rlimit(60)]
pub proof fn lemma_parse_frame(p: Packet<Seq<u8>>, rest: Seq<u8>)
    requires
        wf_packet(p),
    ensures
        parse(frame(p) + rest, 0) == SpecParse::Found(p, frame(p).len() as int),
{
    let s = frame(p) + rest;
    match p {
        Packet::Shutdown => {
            assert(s.subrange(0, 10) =~= shutdown_seq());
            assert(s[0] == s.subrange(0, 10)[0]);
            assert(has_lit(s, 0, shutdown_seq()));
        },
        Packet::Message(id, pl) => {
            let hdr = header_seq();
            let ds = dec_digits(id as nat);
            lemma_dec_digits(id as nat);
            let dl = ds.len() as int;
            let k = 12 + dl;
            let m = k + 1 + pl.len();
            assert(s =~= hdr + ds + seq![COMMA] + pl + seq![RBRACKET, RBRACE] + rest);
            assert(s.len() == m + 2 + rest.len());
            assert(s.subrange(0, 12) =~= hdr);
            assert(s[0] == s.subrange(0, 12)[0]);
            assert(has_lit(s, 0, hdr));
            // the digits of the id, closed off by the comma
            assert(s.subrange(12, k) =~= ds);
            assert(forall|t: int| 12 <= t < k ==> #[trigger] s[t] == ds[t - 12]);
            assert(s[k] == 44) by {
                assert(s[k] == (seq![COMMA])[0]);
            }
            lemma_scan_digits_at(s, 12, k);
            assert(dec_val(s.subrange(12, k)) == id);
            // the payload, closed off by the bracket
            let u = pl.push(RBRACKET);
            let tail = seq![RBRACE] + rest;
            lemma_scan_value_ext(u, tail, 0);
            assert(scan_value(u + tail, 0) == ScanRes::End(pl.len() as int));
            let pre = hdr + ds + seq![COMMA];
            lemma_scan_value_offset(pre, u + tail, 0);
            assert(pre + (u + tail) =~= s);
            assert(pre.len() == k + 1);
            assert(scan_value(s, k + 1) == ScanRes::End(m));
            assert(s[m] == 93) by {
                assert(s[m] == (seq![RBRACKET, RBRACE])[0]);
            }
            assert(s[m + 1] == 125) by {
                assert(s[m + 1] == (seq![RBRACKET, RBRACE])[1]);
            }
            assert(s.subrange(k + 1, m) =~= pl);
            assert(parse_message(s, 12) == SpecParse::Found(
                Packet::Message(id, pl),
                m + 2,
            ));
            assert(frame(p).len() == m + 2);
        },
    }
}

} // verus!
