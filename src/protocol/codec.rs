//! Framing of commands and responses.
//!
//! Request frame: `[CmdType u8][PayloadLen u32 BE][Payload]`.
//! Response frame: `[Status u8][PayloadLen u32 BE][Payload]`.
use vstd::prelude::*;
use crate::bytes::{be32, from_be32, push_all, push_be32, read_be32, copy_range, lemma_be32_round_trip};
use crate::error::{msg, AtlasError, Result};
use super::command::{Command, CommandView};
use super::response::{payload_view, Response, Status};

verus! {

/// Header size: one type or status byte and a four-byte length.
pub const HEADER_SIZE: usize = 5;

/// Largest payload accepted on the wire (16 MiB).
pub const MAX_PAYLOAD_SIZE: u32 = 16777216;

/// The payload that carries a command.
pub open spec fn command_payload(c: CommandView) -> Seq<u8> {
    match c {
        CommandView::Get { key } => be32(key.len() as u32) + key,
        CommandView::Put { key, value } => be32(key.len() as u32) + key + value,
        CommandView::Delete { key } => be32(key.len() as u32) + key,
        CommandView::Ping => Seq::empty(),
    }
}

/// A command can be framed: its lengths fit the 32-bit fields.
pub open spec fn command_fits(c: CommandView) -> bool {
    match c {
        CommandView::Get { key } => 4 + key.len() as int <= u32::MAX,
        CommandView::Put { key, value } => 4 + key.len() as int + value.len() <= u32::MAX,
        CommandView::Delete { key } => 4 + key.len() as int <= u32::MAX,
        CommandView::Ping => true,
    }
}

/// The frame of a command.
pub open spec fn command_frame(c: CommandView) -> Seq<u8> {
    seq![c.command_type().spec_code()] + be32(command_payload(c).len() as u32)
        + command_payload(c)
}

/// The key carried at the front of a GET or DELETE payload, if well formed.
pub open spec fn payload_key(p: Seq<u8>) -> Option<Seq<u8>> {
    if p.len() < 4 || p.len() < 4 + from_be32(p) as int {
        None
    } else {
        Some(p.subrange(4, 4 + from_be32(p) as int))
    }
}

/// The command that a payload of the given type byte carries, if any.
pub open spec fn payload_command(t: u8, p: Seq<u8>) -> Option<CommandView> {
    if t == 1 {
        match payload_key(p) {
            Some(k) => Some(CommandView::Get { key: k }),
            None => None,
        }
    } else if t == 2 {
        match payload_key(p) {
            Some(k) => Some(
                CommandView::Put { key: k, value: p.subrange(4 + k.len() as int, p.len() as int) },
            ),
            None => None,
        }
    } else if t == 3 {
        match payload_key(p) {
            Some(k) => Some(CommandView::Delete { key: k }),
            None => None,
        }
    } else if t == 4 {
        if p.len() == 0 {
            Some(CommandView::Ping)
        } else {
            None
        }
    } else {
        None
    }
}

/// The declared payload length of a frame header.
pub open spec fn frame_len(b: Seq<u8>) -> int {
    from_be32(b.subrange(1, 5)) as int
}

/// The payload of a frame whose header and payload are complete and within limits.
pub open spec fn frame_payload(b: Seq<u8>) -> Option<Seq<u8>> {
    if b.len() < 5 || frame_len(b) > MAX_PAYLOAD_SIZE || b.len() < 5 + frame_len(b) {
        None
    } else {
        Some(b.subrange(5, 5 + frame_len(b)))
    }
}

/// The command that the bytes begin with, if they begin with a valid frame.
pub open spec fn decoded_command(b: Seq<u8>) -> Option<CommandView> {
    match frame_payload(b) {
        Some(p) => payload_command(b[0], p),
        None => None,
    }
}

/// The status that a byte stands for.
pub open spec fn status_of(t: u8) -> Option<Status> {
    if t == 0 {
        Some(Status::Success)
    } else if t == 1 {
        Some(Status::NotFound)
    } else if t == 2 {
        Some(Status::Error)
    } else {
        None
    }
}

/// The frame of a response: an absent payload is sent as an empty one.
pub open spec fn response_frame(status: Status, payload: Option<Seq<u8>>) -> Seq<u8> {
    let p = match payload {
        Some(p) => p,
        None => Seq::empty(),
    };
    seq![status.spec_code()] + be32(p.len() as u32) + p
}

/// The response (status, payload) that the bytes begin with, if any; an
/// empty payload reads back as none.
pub open spec fn decoded_response(b: Seq<u8>) -> Option<(Status, Option<Seq<u8>>)> {
    match frame_payload(b) {
        Some(p) => match status_of(b[0]) {
            Some(s) => Some((s, if p.len() == 0 { None } else { Some(p) })),
            None => None,
        },
        None => None,
    }
}

/// Encodes a command as a frame.
pub fn encode_command(command: &Command) -> (r: Vec<u8>)
    requires
        command_fits(command@),
    ensures
        r@ == command_frame(command@),
{
    let cmd_type = command.command_type().code();
    let mut payload: Vec<u8> = Vec::new();
    match command {
        Command::Get { key } => {
            push_be32(&mut payload, key.len() as u32);
            push_all(&mut payload, key.as_slice());
        },
        Command::Put { key, value } => {
            push_be32(&mut payload, key.len() as u32);
            push_all(&mut payload, key.as_slice());
            push_all(&mut payload, value.as_slice());
        },
        Command::Delete { key } => {
            push_be32(&mut payload, key.len() as u32);
            push_all(&mut payload, key.as_slice());
        },
        Command::Ping => {},
    }
    assert(payload@ =~= command_payload(command@));
    let mut message: Vec<u8> = Vec::new();
    message.push(cmd_type);
    push_be32(&mut message, payload.len() as u32);
    push_all(&mut message, payload.as_slice());
    assert(message@ =~= command_frame(command@));
    message
}

/// Checks the header of a frame and returns its payload bounds.
fn frame_bounds(bytes: &[u8]) -> (r: Result<usize>)
    ensures
        r is Ok <==> frame_payload(bytes@) is Some,
        r matches Ok(end) ==> end == 5 + frame_len(bytes@) && end <= bytes@.len(),
        r matches Err(e) ==> e is Protocol,
{
    if bytes.len() < HEADER_SIZE {
        return Err(AtlasError::Protocol(msg("Incomplete header")));
    }
    let payload_len = read_be32(bytes, 1);
    if payload_len > MAX_PAYLOAD_SIZE {
        return Err(AtlasError::Protocol(msg("Payload too large")));
    }
    let total_len = HEADER_SIZE + payload_len as usize;
    if bytes.len() < total_len {
        return Err(AtlasError::Protocol(msg("Incomplete payload")));
    }
    Ok(total_len)
}

/// Reads the key at the front of a GET, PUT or DELETE payload.
fn decode_key(payload: &[u8]) -> (r: Result<Vec<u8>>)
    ensures
        r is Ok <==> payload_key(payload@) is Some,
        r matches Ok(k) ==> payload_key(payload@) == Some(k@),
        r matches Ok(k) ==> 4 + k@.len() <= payload@.len(),
        r matches Err(e) ==> e is Protocol,
{
    if payload.len() < 4 {
        return Err(AtlasError::Protocol(msg("command: missing key length")));
    }
    let key_len = read_be32(payload, 0);
    if (payload.len() - 4) < key_len as usize {
        return Err(AtlasError::Protocol(msg("command: incomplete key")));
    }
    Ok(copy_range(payload, 4, 4 + key_len as usize))
}

/// Decodes a GET payload.
fn decode_get_command(payload: &[u8]) -> (r: Result<Command>)
    ensures
        r is Ok <==> payload_command(1, payload@) is Some,
        r matches Ok(c) ==> payload_command(1, payload@) == Some(c@),
        r matches Err(e) ==> e is Protocol,
{
    let key = decode_key(payload)?;
    Ok(Command::Get { key })
}

/// Decodes a PUT payload: the value is the rest after the key.
fn decode_put_command(payload: &[u8]) -> (r: Result<Command>)
    ensures
        r is Ok <==> payload_command(2, payload@) is Some,
        r matches Ok(c) ==> payload_command(2, payload@) == Some(c@),
        r matches Err(e) ==> e is Protocol,
{
    let key = match decode_key(payload) {
        Ok(k) => k,
        Err(e) => return Err(e),
    };
    let plen = payload.len();
    let value = copy_range(payload, 4 + key.len(), plen);
    Ok(Command::Put { key, value })
}

/// Decodes a DELETE payload.
fn decode_delete_command(payload: &[u8]) -> (r: Result<Command>)
    ensures
        r is Ok <==> payload_command(3, payload@) is Some,
        r matches Ok(c) ==> payload_command(3, payload@) == Some(c@),
        r matches Err(e) ==> e is Protocol,
{
    let key = decode_key(payload)?;
    Ok(Command::Delete { key })
}

/// Decodes a PING payload, which must be empty.
fn decode_ping_command(payload: &[u8]) -> (r: Result<Command>)
    ensures
        r is Ok <==> payload_command(4, payload@) is Some,
        r matches Ok(c) ==> payload_command(4, payload@) == Some(c@),
        r matches Err(e) ==> e is Protocol,
{
    if payload.len() != 0 {
        return Err(AtlasError::Protocol(msg("PING command: unexpected payload")));
    }
    Ok(Command::Ping)
}

/// Decodes the command frame at the front of `bytes`.
pub fn decode_command(bytes: &[u8]) -> (r: Result<Command>)
    ensures
        r is Ok <==> decoded_command(bytes@) is Some,
        r matches Ok(c) ==> decoded_command(bytes@) == Some(c@),
        r matches Err(e) ==> e is Protocol,
{
    let total_len = frame_bounds(bytes)?;
    let payload = vstd::slice::slice_subrange(bytes, HEADER_SIZE, total_len);
    let cmd_type = bytes[0];
    if cmd_type == 1 {
        decode_get_command(payload)
    } else if cmd_type == 2 {
        decode_put_command(payload)
    } else if cmd_type == 3 {
        decode_delete_command(payload)
    } else if cmd_type == 4 {
        decode_ping_command(payload)
    } else {
        Err(AtlasError::Protocol(msg("Unknown command type")))
    }
}

/// Encodes a response as a frame.
pub fn encode_response(response: &Response) -> (r: Vec<u8>)
    requires
        response.payload matches Some(p) ==> p@.len() <= u32::MAX,
    ensures
        r@ == response_frame(response.status, payload_view(response.payload)),
{
    let mut message: Vec<u8> = Vec::new();
    message.push(response.status.code());
    match &response.payload {
        Some(p) => {
            push_be32(&mut message, p.len() as u32);
            push_all(&mut message, p.as_slice());
        },
        None => {
            push_be32(&mut message, 0);
        },
    }
    assert(message@ =~= response_frame(response.status, payload_view(response.payload)));
    message
}

/// Decodes the response frame at the front of `bytes`.
pub fn decode_response(bytes: &[u8]) -> (r: Result<Response>)
    ensures
        r is Ok <==> decoded_response(bytes@) is Some,
        r matches Ok(resp) ==> decoded_response(bytes@) == Some(
            (resp.status, payload_view(resp.payload)),
        ),
        r matches Err(e) ==> e is Protocol,
{
    let total_len = frame_bounds(bytes)?;
    let status_byte = bytes[0];
    let status = if status_byte == 0 {
        Status::Success
    } else if status_byte == 1 {
        Status::NotFound
    } else if status_byte == 2 {
        Status::Error
    } else {
        return Err(AtlasError::Protocol(msg("Unknown response status")));
    };
    let payload = if total_len > HEADER_SIZE {
        Some(copy_range(bytes, HEADER_SIZE, total_len))
    } else {
        None
    };
    Ok(Response { status, payload })
}

/// Relies on `std::io::Read::read_exact`: fills a buffer of `n` bytes from
/// the stream, or fails; the bytes depend on the stream.
#[verifier::external_body]
fn read_exact_n<R: std::io::Read>(reader: &mut R, n: usize) -> (r: Result<Vec<u8>>)
    requires
        n <= MAX_PAYLOAD_SIZE,
    ensures
        r matches Ok(b) ==> b@.len() == n,
        r matches Err(e) ==> e is Io,
{
    let mut buf = vec![0u8; n];
    match reader.read_exact(&mut buf) {
        Ok(()) => Ok(buf),
        Err(e) => Err(AtlasError::Io(e.to_string())),
    }
}

/// Relies on `std::io::Write::write_all`: hands all the bytes to the
/// stream, or fails.
#[verifier::external_body]
fn write_all_bytes<W: std::io::Write>(writer: &mut W, bytes: &[u8]) -> (r: Result<()>)
    ensures
        r matches Err(e) ==> e is Io,
{
    match writer.write_all(bytes) {
        Ok(()) => Ok(()),
        Err(e) => Err(AtlasError::Io(e.to_string())),
    }
}

/// Relies on `std::io::Write::flush`: pushes buffered bytes on, or fails.
#[verifier::external_body]
fn flush_writer<W: std::io::Write>(writer: &mut W) -> (r: Result<()>)
    ensures
        r matches Err(e) ==> e is Io,
{
    match writer.flush() {
        Ok(()) => Ok(()),
        Err(e) => Err(AtlasError::Io(e.to_string())),
    }
}

/// Writes a whole frame, then flushes.
fn write_frame<W: std::io::Write>(writer: &mut W, bytes: &[u8]) -> (r: Result<()>)
    ensures
        r matches Err(e) ==> e is Io,
{
    write_all_bytes(writer, bytes)?;
    flush_writer(writer)
}

/// The payload length that a frame header announces, if within the limit.
pub fn header_payload_len(header: &[u8]) -> (r: Result<usize>)
    requires
        header@.len() == 5,
    ensures
        r is Ok <==> frame_len(header@) <= MAX_PAYLOAD_SIZE,
        r matches Ok(n) ==> n == frame_len(header@),
        r matches Err(e) ==> e is Protocol,
{
    let payload_len = read_be32(header, 1);
    if payload_len > MAX_PAYLOAD_SIZE {
        return Err(AtlasError::Protocol(msg("Payload too large")));
    }
    Ok(payload_len as usize)
}

/// Reads one frame: its header, then the payload it announces; a length
/// over the limit fails with `Protocol` before any payload is read.
fn read_frame<R: std::io::Read>(reader: &mut R) -> (r: Result<Vec<u8>>)
    ensures
        r matches Ok(b) ==> frame_payload(b@) is Some && b@.len() == 5 + frame_len(b@),
        r matches Err(e) ==> e is Io || e is Protocol,
{
    let mut frame = read_exact_n(reader, HEADER_SIZE)?;
    let payload_len = header_payload_len(frame.as_slice())?;
    let ghost header = frame@;
    let payload = read_exact_n(reader, payload_len)?;
    push_all(&mut frame, payload.as_slice());
    assert(frame@.subrange(1, 5) =~= header.subrange(1, 5));
    assert(frame@.subrange(5, 5 + frame_len(frame@)) =~= payload@);
    Ok(frame)
}

/// Reads one command from a stream: the frame is read whole, then decoded.
pub fn read_command<R: std::io::Read>(reader: &mut R) -> (r: Result<Command>)
    ensures
        r matches Ok(c) ==> exists|b: Seq<u8>| #[trigger] decoded_command(b) == Some(c@),
        r matches Err(e) ==> e is Io || e is Protocol,
{
    let frame = read_frame(reader)?;
    decode_command(frame.as_slice())
}

/// Writes one command to a stream as its frame, then flushes.
pub fn write_command<W: std::io::Write>(writer: &mut W, command: &Command) -> (r: Result<()>)
    requires
        command_fits(command@),
    ensures
        r matches Err(e) ==> e is Io,
{
    let bytes = encode_command(command);
    write_frame(writer, bytes.as_slice())
}

/// Reads one response from a stream: the frame is read whole, then decoded.
pub fn read_response<R: std::io::Read>(reader: &mut R) -> (r: Result<Response>)
    ensures
        r matches Ok(resp) ==> exists|b: Seq<u8>| #[trigger] decoded_response(b) == Some(
            (resp.status, payload_view(resp.payload)),
        ),
        r matches Err(e) ==> e is Io || e is Protocol,
{
    let frame = read_frame(reader)?;
    decode_response(frame.as_slice())
}

/// Writes one response to a stream as its frame, then flushes.
pub fn write_response<W: std::io::Write>(writer: &mut W, response: &Response) -> (r: Result<()>)
    requires
        response.payload matches Some(p) ==> p@.len() <= u32::MAX,
    ensures
        r matches Err(e) ==> e is Io,
{
    let bytes = encode_response(response);
    write_frame(writer, bytes.as_slice())
}

/// Decoding a framed command gives the command back.
pub proof fn lemma_command_round_trip(c: CommandView)
    requires
        command_fits(c),
        command_payload(c).len() <= MAX_PAYLOAD_SIZE,
    ensures
        decoded_command(command_frame(c)) == Some(c),
{
    let p = command_payload(c);
    let f = command_frame(c);
    lemma_be32_round_trip(p.len() as u32);
    assert(f.subrange(1, 5) =~= be32(p.len() as u32));
    assert(f.subrange(5, 5 + frame_len(f)) =~= p);
    match c {
        CommandView::Get { key } => {
            lemma_be32_round_trip(key.len() as u32);
            assert(p.subrange(0, 4) =~= be32(key.len() as u32));
            assert(p.subrange(4, 4 + key.len() as int) =~= key);
        },
        CommandView::Put { key, value } => {
            lemma_be32_round_trip(key.len() as u32);
            assert(p.subrange(0, 4) =~= be32(key.len() as u32));
            assert(p.subrange(4, 4 + key.len() as int) =~= key);
            assert(p.subrange(4 + key.len() as int, p.len() as int) =~= value);
        },
        CommandView::Delete { key } => {
            lemma_be32_round_trip(key.len() as u32);
            assert(p.subrange(0, 4) =~= be32(key.len() as u32));
            assert(p.subrange(4, 4 + key.len() as int) =~= key);
        },
        CommandView::Ping => {},
    }
}

/// Decoding a framed response gives back its status, and its payload when
/// that is not empty.
pub proof fn lemma_response_round_trip(status: Status, payload: Seq<u8>)
    requires
        0 < payload.len() <= MAX_PAYLOAD_SIZE,
    ensures
        decoded_response(response_frame(status, Some(payload))) == Some((status, Some(payload))),
{
    let f = response_frame(status, Some(payload));
    lemma_be32_round_trip(payload.len() as u32);
    assert(f.subrange(1, 5) =~= be32(payload.len() as u32));
    assert(f.subrange(5, 5 + frame_len(f)) =~= payload);
}

} // verus!
