//! Wire codec, encode side: building a complete HTTP response for a
//! status code and a body.
//!
//! The response is the status line `HTTP/1.1 <code> <reason>`, the two
//! fixed headers `Connection: keep-alive` and `Transfer-Encoding:
//! chunked`, a blank line, and the body in chunked framing: the body is
//! cut into chunks of at most 500 bytes, each preceded by its size in
//! lowercase hexadecimal and a line break and followed by a line break,
//! and a zero-size chunk marker closes the body.

use vstd::prelude::*;
use vstd::string::StrSliceExecFns;
use vstd::string::StringExecFns;
use vstd::utf8::encode_utf8;

use crate::request::Request;
use crate::request::ReqModel;

verus! {

/// Encoding fails only for a status code outside 100..=999, which no
/// reason phrase exists for.
#[derive(Clone, Copy, Debug, PartialEq, Eq, Structural)]
pub enum EncodeError {
    InvalidStatusCode,
}

/// The text `<code> <reason phrase>` that the status line carries for
/// a status code; the code's decimal digits, a space, and the phrase.
pub uninterp spec fn status_text(code: u16) -> Seq<char>;

/// Relies on `http::StatusCode`: `from_u16` accepts exactly the codes
/// 100..=999, and the `Display` of a status code — a function of the
/// code alone — is its decimal value followed by its canonical reason
/// phrase, which `http` lists as `OK`, `Bad Request`, `Not Found` and
/// `Not Implemented` for the codes used here.
#[verifier::external_body]
fn status_line(code: u16) -> (r: Option<String>)
    ensures
        r is Some <==> 100 <= code <= 999,
        r matches Some(s) ==> s@ == status_text(code),
        r is Some && code == 200 ==> r->0@ == "200 OK"@,
        r is Some && code == 400 ==> r->0@ == "400 Bad Request"@,
        r is Some && code == 404 ==> r->0@ == "404 Not Found"@,
        r is Some && code == 501 ==> r->0@ == "501 Not Implemented"@,
{
    match http::StatusCode::from_u16(code) {
        Ok(sc) => Some(format!("{}", sc)),
        Err(_) => None,
    }
}

/// The ASCII byte of one lowercase hexadecimal digit.
pub open spec fn hex_digit(d: nat) -> u8 {
    if d < 10 {
        (0x30 + d) as u8
    } else {
        (0x57 + d) as u8
    }
}

/// The ASCII bytes of `n` in lowercase hexadecimal, no leading zeros.
pub open spec fn hex_bytes(n: nat) -> Seq<u8>
    decreases n,
{
    if n < 16 {
        seq![hex_digit(n)]
    } else {
        hex_bytes(n / 16).push(hex_digit(n % 16))
    }
}

/// A carriage return and a line feed, the chunk line break.
pub open spec fn crlf() -> Seq<u8> {
    seq![13u8, 10u8]
}

/// The terminal marker of a chunked body: a zero-size chunk.
pub open spec fn chunk_terminal() -> Seq<u8> {
    seq![0x30u8, 13u8, 10u8, 13u8, 10u8]
}

/// The chunked framing of a body: chunks of at most 500 bytes, each
/// as size line, bytes, line break; closed by the terminal marker.
pub open spec fn chunk_stream(data: Seq<u8>) -> Seq<u8>
    decreases data.len(),
{
    if data.len() == 0 {
        chunk_terminal()
    } else {
        let k: int = if data.len() < 500 {
            data.len() as int
        } else {
            500
        };
        hex_bytes(k as nat) + crlf() + data.take(k) + crlf() + chunk_stream(data.skip(k))
    }
}

/// The response head: status line, the two fixed headers, blank line.
pub open spec fn head_chars(code: u16) -> Seq<char> {
    "HTTP/1.1 "@ + status_text(code)
        + "\nConnection: keep-alive\nTransfer-Encoding: chunked\n\n"@
}

/// Every byte a response carries: the UTF-8 head, then the chunked body.
pub open spec fn response_bytes(code: u16, data: Seq<u8>) -> Seq<u8> {
    encode_utf8(head_chars(code)) + chunk_stream(data)
}

/// Whether a byte is a lowercase hexadecimal digit.
pub open spec fn is_hex_digit(b: u8) -> bool {
    0x30 <= b <= 0x39 || 0x61 <= b <= 0x66
}

/// The value of one hexadecimal digit byte.
pub open spec fn hex_digit_val(b: u8) -> nat {
    if b <= 0x39 {
        (b - 0x30) as nat
    } else {
        (b - 0x57) as nat
    }
}

/// Index of the first byte at or after `i` that is not a hexadecimal
/// digit, or the sequence's end.
pub open spec fn hex_end(b: Seq<u8>, i: int) -> int
    decreases b.len() - i,
{
    if i < 0 || i >= b.len() {
        b.len() as int
    } else if !is_hex_digit(b[i]) {
        i
    } else {
        hex_end(b, i + 1)
    }
}

/// `hex_end` stays between its start and the sequence's end.
proof fn lemma_hex_end_bounds(b: Seq<u8>, i: int)
    requires
        0 <= i <= b.len(),
    ensures
        i <= hex_end(b, i) <= b.len(),
    decreases b.len() - i,
{
    if i < b.len() && is_hex_digit(b[i]) {
        lemma_hex_end_bounds(b, i + 1);
    }
}

/// `hex_end` is unchanged by moving the start over digits.
proof fn lemma_hex_end_range(b: Seq<u8>, a: int, c: int)
    requires
        0 <= a <= c <= b.len(),
        forall|j: int| a <= j < c ==> is_hex_digit(b[j]),
    ensures
        hex_end(b, a) == hex_end(b, c),
    decreases c - a,
{
    if a < c {
        lemma_hex_end_range(b, a + 1, c);
    }
}

/// The number a sequence of hexadecimal digit bytes denotes.
pub open spec fn hex_value(s: Seq<u8>) -> nat
    decreases s.len(),
{
    if s.len() == 0 {
        0
    } else {
        hex_value(s.drop_last()) * 16 + hex_digit_val(s.last())
    }
}

/// Reading a chunked body back: size lines in hexadecimal, each
/// chunk's bytes, down to the zero-size terminal marker. `None` when
/// the framing is not well formed.
pub open spec fn dechunk(b: Seq<u8>) -> Option<Seq<u8>>
    decreases b.len(),
    via dechunk_decreases
{
    let e = hex_end(b, 0);
    if e == 0 || e + 2 > b.len() {
        None
    } else if b[e] != 13 || b[e + 1] != 10 {
        None
    } else {
        let k = hex_value(b.take(e)) as int;
        if k == 0 {
            if b.len() == e + 4 && b[e + 2] == 13 && b[e + 3] == 10 {
                Some(Seq::empty())
            } else {
                None
            }
        } else if b.len() >= e + 2 + k + 2 && b[e + 2 + k] == 13 && b[e + 2 + k + 1] == 10 {
            match dechunk(b.skip(e + 2 + k + 2)) {
                None => None,
                Some(rest) => Some(b.subrange(e + 2, e + 2 + k) + rest),
            }
        } else {
            None
        }
    }
}

#[via_fn]
proof fn dechunk_decreases(b: Seq<u8>) {
    lemma_hex_end_bounds(b, 0);
}

/// Every byte of a hexadecimal rendering is a hexadecimal digit.
proof fn lemma_hex_bytes_digits(n: nat)
    ensures
        forall|j: int| 0 <= j < hex_bytes(n).len() ==> is_hex_digit(hex_bytes(n)[j]),
    decreases n,
{
    if n < 16 {
        lemma_hex_digit_val(n);
    } else {
        lemma_hex_bytes_digits(n / 16);
        lemma_hex_digit_val(n % 16);
        assert forall|j: int| 0 <= j < hex_bytes(n).len() implies is_hex_digit(
            hex_bytes(n)[j],
        ) by {
            if j < hex_bytes(n / 16).len() {
                assert(hex_bytes(n)[j] == hex_bytes(n / 16)[j]);
            }
        }
    }
}

/// A digit byte reads back as the digit it renders.
proof fn lemma_hex_digit_val(d: nat)
    requires
        d < 16,
    ensures
        hex_digit_val(hex_digit(d)) == d,
        is_hex_digit(hex_digit(d)),
{
    if d < 10 {
        assert(0x30 + d <= 255);
        assert(hex_digit(d) == 0x30 + d);
    } else {
        assert(0x57 + d <= 255);
        assert(hex_digit(d) == 0x57 + d);
    }
}

/// Reading a hexadecimal rendering back yields the number.
proof fn lemma_hex_round_trip(n: nat)
    ensures
        hex_value(hex_bytes(n)) == n,
    decreases n,
{
    if n < 16 {
        lemma_hex_digit_val(n);
        assert(hex_bytes(n).drop_last() =~= Seq::<u8>::empty());
        assert(hex_value(Seq::<u8>::empty()) == 0);
    } else {
        lemma_hex_round_trip(n / 16);
        lemma_hex_digit_val(n % 16);
        assert(hex_bytes(n).drop_last() =~= hex_bytes(n / 16));
        assert(n == (n / 16) * 16 + n % 16) by (nonlinear_arith);
    }
}

/// Law: the chunked framing of any body reads back as exactly that
/// body — the declared sizes cover the payload in full and the
/// terminal zero-size marker closes it.
pub proof fn lemma_chunk_round_trip(data: Seq<u8>)
    ensures
        dechunk(chunk_stream(data)) == Some(data),
    decreases data.len(),
{
    let b = chunk_stream(data);
    if data.len() == 0 {
        assert(is_hex_digit(b[0]));
        assert(!is_hex_digit(b[1]));
        assert(hex_end(b, 1) == 1);
        assert(hex_end(b, 0) == 1);
        assert(b.take(1) =~= seq![0x30u8]);
        assert(seq![0x30u8].drop_last() =~= Seq::<u8>::empty());
        assert(hex_value(Seq::<u8>::empty()) == 0);
        assert(hex_value(b.take(1)) == 0);
        assert(data =~= Seq::<u8>::empty());
    } else {
        let k: int = if data.len() < 500 {
            data.len() as int
        } else {
            500
        };
        let h = hex_bytes(k as nat);
        let hl = h.len() as int;
        assert(b == h + crlf() + data.take(k) + crlf() + chunk_stream(data.skip(k)));
        lemma_hex_bytes_digits(k as nat);
        assert forall|j: int| 0 <= j < hl implies is_hex_digit(b[j]) by {
            assert(b[j] == h[j]);
        }
        assert(b[hl] == 13);
        assert(!is_hex_digit(b[hl]));
        lemma_hex_end_range(b, 0, hl);
        assert(hex_end(b, hl) == hl);
        assert(b.take(hl) =~= h);
        lemma_hex_round_trip(k as nat);
        assert(hex_value(b.take(hl)) == k);
        assert(b[hl + 1] == 10);
        assert(b[hl + 2 + k] == 13);
        assert(b[hl + 2 + k + 1] == 10);
        assert(b.len() >= hl + 2 + k + 2);
        lemma_chunk_round_trip(data.skip(k));
        assert(b.skip(hl + 2 + k + 2) =~= chunk_stream(data.skip(k)));
        assert(b.subrange(hl + 2, hl + 2 + k) =~= data.take(k));
        assert(data.take(k) + data.skip(k) =~= data);
    }
}

/// Law: what follows the head of an encoded response reads back, as a
/// chunked body, to exactly the payload that was encoded.
pub proof fn lemma_response_body_recoverable(code: u16, data: Seq<u8>)
    ensures
        dechunk(
            response_bytes(code, data).skip(encode_utf8(head_chars(code)).len() as int),
        ) == Some(data),
{
    assert(response_bytes(code, data).skip(encode_utf8(head_chars(code)).len() as int)
        =~= chunk_stream(data));
    lemma_chunk_round_trip(data);
}

/// One lowercase hexadecimal digit; mirrors `hex_digit`.
fn hex_digit_exec(d: usize) -> (r: u8)
    requires
        d < 16,
    ensures
        r == hex_digit(d as nat),
{
    if d < 10 {
        (0x30 + d) as u8
    } else {
        (0x57 + d) as u8
    }
}

/// The ASCII bytes of `n` in lowercase hexadecimal; mirrors `hex_bytes`.
fn hex_vec(n: usize) -> (r: Vec<u8>)
    ensures
        r@ == hex_bytes(n as nat),
    decreases n,
{
    if n < 16 {
        let mut v: Vec<u8> = Vec::new();
        v.push(hex_digit_exec(n));
        proof {
            assert(v@ =~= hex_bytes(n as nat));
        }
        v
    } else {
        let mut v = hex_vec(n / 16);
        v.push(hex_digit_exec(n % 16));
        v
    }
}

/// Appends the chunked framing of `data` to `out`.
fn chunk_body(data: &[u8], out: &mut Vec<u8>)
    ensures
        final(out)@ == old(out)@ + chunk_stream(data@),
{
    let n = data.len();
    let mut off: usize = 0;
    proof {
        assert(data@.skip(0) =~= data@);
    }
    while off < n
        invariant
            off <= n,
            n == data@.len(),
            old(out)@ + chunk_stream(data@) == out@ + chunk_stream(data@.skip(off as int)),
        decreases n - off,
    {
        let k = if n - off < 500 {
            n - off
        } else {
            500
        };
        let ghost before = out@;
        let size = hex_vec(k);
        out.extend_from_slice(size.as_slice());
        out.push(13);
        out.push(10);
        let mut i = off;
        while i < off + k
            invariant
                off <= i <= off + k,
                off + k <= n,
                n == data@.len(),
                out@ == before + hex_bytes(k as nat) + crlf() + data@.subrange(
                    off as int,
                    i as int,
                ),
            decreases off + k - i,
        {
            proof {
                assert(data@.subrange(off as int, i + 1) =~= data@.subrange(off as int, i as int).push(
                    data@[i as int],
                ));
                assert((before + hex_bytes(k as nat) + crlf() + data@.subrange(off as int, i as int)).push(
                    data@[i as int],
                ) =~= before + hex_bytes(k as nat) + crlf() + data@.subrange(off as int, i + 1));
            }
            out.push(data[i]);
            i += 1;
        }
        out.push(13);
        out.push(10);
        proof {
            let rem = data@.skip(off as int);
            assert(rem.take(k as int) =~= data@.subrange(off as int, off + k));
            assert(rem.skip(k as int) =~= data@.skip(off + k));
            assert(chunk_stream(rem) == hex_bytes(k as nat) + crlf() + rem.take(k as int) + crlf()
                + chunk_stream(rem.skip(k as int)));
            assert(out@ =~= before + (hex_bytes(k as nat) + crlf() + rem.take(k as int) + crlf()));
            assert(before + (hex_bytes(k as nat) + crlf() + rem.take(k as int) + crlf())
                + chunk_stream(data@.skip(off + k)) =~= before + chunk_stream(rem));
        }
        off += k;
    }
    out.push(0x30);
    out.push(13);
    out.push(10);
    out.push(13);
    out.push(10);
    proof {
        assert(data@.skip(n as int).len() == 0);
        assert(out@ =~= old(out)@ + chunk_stream(data@));
    }
}

/// Builds every byte of the response for a status code and a body:
/// the head with the code's status text, then the body in chunked
/// framing. Fails exactly on codes outside 100..=999.
pub fn encode_response(code: u16, data: &[u8]) -> (r: Result<Vec<u8>, EncodeError>)
    ensures
        r is Ok <==> 100 <= code <= 999,
        r matches Ok(bytes) ==> bytes@ == response_bytes(code, data@),
        r matches Err(e) ==> e == EncodeError::InvalidStatusCode,
{
    let st = match status_line(code) {
        None => {
            return Err(EncodeError::InvalidStatusCode);
        },
        Some(s) => s,
    };
    let mut head = String::from_str("HTTP/1.1 ");
    head.append(st.as_str());
    head.append("\nConnection: keep-alive\nTransfer-Encoding: chunked\n\n");
    let mut out = head.as_str().as_bytes_vec();
    chunk_body(data, &mut out);
    Ok(out)
}

impl Request {
    /// Builds the response bytes as `encode_response` does and records
    /// the code that is about to be sent for the request log; nothing
    /// is recorded when the code is invalid.
    pub fn response(&mut self, code: u16, data: &[u8]) -> (r: Result<Vec<u8>, EncodeError>)
        ensures
            r is Ok <==> 100 <= code <= 999,
            r matches Ok(bytes) ==> bytes@ == response_bytes(code, data@),
            r is Ok ==> final(self)@ == (ReqModel { response_code: code, ..old(self)@ }),
            r is Err ==> *final(self) == *old(self) && r->Err_0 == EncodeError::InvalidStatusCode,
    {
        let bytes = encode_response(code, data)?;
        self.response_code = code;
        proof {
            assert(self@ =~= ReqModel { response_code: code, ..old(self)@ });
        }
        Ok(bytes)
    }
}

} // verus!
