//! The frame delivered to a subscriber:
//!
//! ```text
//! MSG <subject> <sid> <size>\r\n
//! <size bytes of payload>\r\n
//! ```
//!
//! `<sid>` is the receiving subscriber's own sid.
use vstd::prelude::*;

verus! {

/// The decimal digits of `n`, most significant first.
pub open spec fn decimal_of(n: nat) -> Seq<u8>
    decreases n,
{
    if n < 10 {
        seq![(48 + n) as u8]
    } else {
        decimal_of(n / 10).push((48 + n % 10) as u8)
    }
}

/// The `MSG` frame that carries `payload`, published to `subject`, to the
/// subscription `sid`.
pub open spec fn msg_frame(subject: Seq<u8>, sid: Seq<u8>, payload: Seq<u8>) -> Seq<u8> {
    seq![77u8, 83, 71, 32] + subject + seq![32u8] + sid + seq![32u8] + decimal_of(payload.len()) + seq![
        13u8,
        10,
    ] + payload + seq![13u8, 10]
}

fn append(out: &mut Vec<u8>, s: &[u8])
    ensures
        final(out)@ == old(out)@ + s@,
{
    let mut i: usize = 0;
    while i < s.len()
        invariant
            i <= s@.len(),
            out@ == old(out)@ + s@.subrange(0, i as int),
        decreases s@.len() - i,
    {
        out.push(s[i]);
        i = i + 1;
        proof {
            assert(s@.subrange(0, i as int) =~= s@.subrange(0, i - 1).push(s@[i - 1]));
            assert(out@ =~= old(out)@ + s@.subrange(0, i as int));
        }
    }
    proof {
        assert(s@.subrange(0, s@.len() as int) =~= s@);
    }
}

/// Appends the decimal digits of `n`.
pub fn write_decimal(out: &mut Vec<u8>, n: usize)
    ensures
        final(out)@ == old(out)@ + decimal_of(n as nat),
    decreases n,
{
    if n >= 10 {
        write_decimal(out, n / 10);
    }
    let d = (n % 10) as u8;
    out.push(48 + d);
    proof {
        if n < 10 {
            assert(out@ =~= old(out)@ + decimal_of(n as nat));
        } else {
            assert(out@ =~= old(out)@ + decimal_of(n as nat));
        }
    }
}

/// The frame that delivers `payload`, published to `subject`, to the
/// subscription with sid `sid`.
pub fn format_msg(subject: &[u8], sid: &[u8], payload: &[u8]) -> (r: Vec<u8>)
    ensures
        r@ == msg_frame(subject@, sid@, payload@),
{
    let mut out: Vec<u8> = Vec::new();
    out.push(77);
    out.push(83);
    out.push(71);
    out.push(32);
    append(&mut out, subject);
    out.push(32);
    append(&mut out, sid);
    out.push(32);
    write_decimal(&mut out, payload.len());
    out.push(13);
    out.push(10);
    append(&mut out, payload);
    out.push(13);
    out.push(10);
    proof {
        assert(out@ =~= msg_frame(subject@, sid@, payload@));
    }
    out
}

} // verus!
