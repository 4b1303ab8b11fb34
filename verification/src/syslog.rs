//! Decoder for vis-encoded syslog lines.  Device logs arrive in 7-bit form:
//! bytes 0x80..0x9f appear as `\M^x`, 0xa1..0xf7 as `\M-x`, and a backslash
//! or 0xa0 as a three-digit octal escape.  Decoding maps those escapes back
//! to bytes and re-reads the result as UTF-8, falling back to the original
//! line when the decoded bytes are not valid UTF-8.

use vstd::prelude::*;

use vstd::string::StrSliceExecFns;
use vstd::string::StringSliceAdditionalSpecFns;
use vstd::utf8::encode_utf8;
use vstd::utf8::valid_utf8;
use vstd::utf8::decode_utf8;

verus! {

/// An ASCII digit byte, as the octal-escape test accepts it.
pub open spec fn is_digit_byte(b: u8) -> bool {
    (b & 0xf0) == 0x30
}

/// The vis-decoding of the bytes from position `i` on: escapes of four
/// bytes are mapped back, everything else is copied as is.
pub open spec fn vis_decode(b: Seq<u8>, i: int) -> Seq<u8>
    decreases b.len() - i,
    when 0 <= i <= b.len()
{
    if i >= b.len() {
        Seq::empty()
    } else if b[i] != 0x5c || i + 4 > b.len() {
        seq![b[i]] + vis_decode(b, i + 1)
    } else if b[i + 1] == 0x4d && b[i + 2] == 0x5e {
        seq![((b[i + 3] & 0x7f) + 0x40) as u8] + vis_decode(b, i + 4)
    } else if b[i + 1] == 0x4d && b[i + 2] == 0x2d {
        seq![(b[i + 3] | 0x80) as u8] + vis_decode(b, i + 4)
    } else if is_digit_byte(b[i + 1]) && is_digit_byte(b[i + 2]) && is_digit_byte(b[i + 3]) {
        seq![((((b[i + 1] & 0x3) as u8) << 6) | (((b[i + 2] & 0x7) as u8) << 3) | ((b[i + 3]
            & 0x7) as u8)) as u8] + vis_decode(b, i + 4)
    } else {
        seq![b[i]] + vis_decode(b, i + 1)
    }
}

fn vis_decode_exec(b: &Vec<u8>) -> (r: Vec<u8>)
    ensures
        r@ == vis_decode(b@, 0),
{
    let mut out: Vec<u8> = Vec::new();
    let mut i: usize = 0;
    proof {
        assert(Seq::<u8>::empty() + vis_decode(b@, 0) =~= vis_decode(b@, 0));
    }
    while i < b.len()
        invariant
            0 <= i <= b@.len(),
            b@.len() == b.len(),
            vis_decode(b@, 0) == out@ + vis_decode(b@, i as int),
        decreases b@.len() - i,
    {
        if b[i] != 0x5c || b.len() - i < 4 {
            out.push(b[i]);
            proof {
                assert(out@ + vis_decode(b@, i + 1 as int) =~= vis_decode(b@, 0));
            }
            i = i + 1;
        } else if b[i + 1] == 0x4d && b[i + 2] == 0x5e {
            let w = b[i + 3];
            proof {
                assert((w & 0x7f) <= 0x7f) by (bit_vector);
            }
            out.push((w & 0x7f) + 0x40);
            proof {
                assert(out@ + vis_decode(b@, i + 4 as int) =~= vis_decode(b@, 0));
            }
            i = i + 4;
        } else if b[i + 1] == 0x4d && b[i + 2] == 0x2d {
            out.push(b[i + 3] | 0x80);
            proof {
                assert(out@ + vis_decode(b@, i + 4 as int) =~= vis_decode(b@, 0));
            }
            i = i + 4;
        } else if (b[i + 1] & 0xf0) == 0x30 && (b[i + 2] & 0xf0) == 0x30 && (b[i + 3] & 0xf0)
            == 0x30 {
            let x = b[i + 1];
            let y = b[i + 2];
            let z = b[i + 3];
            proof {
                assert(((x & 0x3) as u8) << 6 <= 0xc0) by (bit_vector);
                assert(((y & 0x7) as u8) << 3 <= 0x38) by (bit_vector);
                assert((z & 0x7) <= 0x7) by (bit_vector);
            }
            out.push((((x & 0x3) << 6) | ((y & 0x7) << 3)) | (z & 0x7));
            proof {
                assert(out@ + vis_decode(b@, i + 4 as int) =~= vis_decode(b@, 0));
            }
            i = i + 4;
        } else {
            out.push(b[i]);
            proof {
                assert(out@ + vis_decode(b@, i + 1 as int) =~= vis_decode(b@, 0));
            }
            i = i + 1;
        }
    }
    proof {
        assert(vis_decode(b@, b@.len() as int) =~= Seq::<u8>::empty());
        assert(out@ + Seq::<u8>::empty() =~= out@);
    }
    out
}

/// What decoding a line yields: the vis-decoded bytes read back as UTF-8,
/// or the line unchanged when they are not valid UTF-8.
pub open spec fn spec_decode_syslog(s: Seq<char>) -> Seq<char> {
    let out = vis_decode(encode_utf8(s), 0);
    if valid_utf8(out) {
        decode_utf8(out)
    } else {
        s
    }
}

/// Relies on `String::from_utf8`: succeeds exactly on valid UTF-8 input and
/// yields the string those bytes encode.
#[verifier::external_body]
fn bytes_to_string(bytes: Vec<u8>) -> (r: Option<String>)
    ensures
        r is Some <==> valid_utf8(bytes@),
        r is Some ==> r.unwrap()@ == decode_utf8(bytes@),
{
    String::from_utf8(bytes).ok()
}

/// Decode a vis-encoded syslog line to readable text; a line whose decoded
/// bytes are not valid UTF-8 comes back unchanged.
pub fn decode_syslog(line: &str) -> (r: String)
    ensures
        r@ == spec_decode_syslog(line@),
{
    let bytes = line.as_bytes_vec();
    proof {
        assert(bytes@ == encode_utf8(line@));
    }
    let out = vis_decode_exec(&bytes);
    match bytes_to_string(out) {
        Some(s) => s,
        None => line.to_owned(),
    }
}

} // verus!
