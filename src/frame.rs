//! Line framing shared by the control and telemetry channels: every message
//! travels as one payload followed by a single newline byte.
use vstd::prelude::*;

verus! {

/// The byte that ends each message on the wire.
pub const NEWLINE: u8 = 10;

/// What a payload looks like once it is framed as a wire line.
pub open spec fn framed(payload: Seq<u8>) -> Seq<u8> {
    payload.push(NEWLINE)
}

/// What remains of a received line once its trailing newline, if any, is
/// removed.
pub open spec fn unframed(line: Seq<u8>) -> Seq<u8> {
    if line.len() > 0 && line.last() == NEWLINE {
        line.drop_last()
    } else {
        line
    }
}

/// Appends the newline terminator to an encoded message.
pub fn frame_line(payload: Vec<u8>) -> (line: Vec<u8>)
    ensures
        line@ == framed(payload@),
{
    let mut line = payload;
    line.push(NEWLINE);
    line
}

/// Strips the terminator from a received line, leaving the encoded message.
pub fn line_payload(line: &[u8]) -> (payload: Vec<u8>)
    ensures
        payload@ == unframed(line@),
{
    let mut end: usize = line.len();
    if end > 0 && line[end - 1] == NEWLINE {
        end = end - 1;
    }
    let mut payload: Vec<u8> = Vec::new();
    let mut i: usize = 0;
    while i < end
        invariant
            end <= line@.len(),
            i <= end,
            payload@ == line@.subrange(0, i as int),
        decreases end - i,
    {
        payload.push(line[i]);
        i = i + 1;
    }
    proof {
        assert(payload@ =~= unframed(line@));
    }
    payload
}

} // verus!
