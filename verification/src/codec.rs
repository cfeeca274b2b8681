//! The line codec: buffers raw bytes from a connection, frames complete
//! lines into parsed commands, and buffers serialized responses for the
//! write side.

use vstd::prelude::*;

verus! {

use bytes::BytesMut;
use crate::command::{Command, CommandView, spec_parse_command};
use crate::response::{Response, resp_text};
use crate::text::{find_index, lemma_find_index};
use vstd::string::{StringExecFns, StringSliceAdditionalSpecFns};
use vstd::utf8::{valid_utf8, decode_utf8, encode_utf8, encode_utf8_valid_utf8,
    encode_utf8_decode_utf8};

#[verifier::external_type_specification]
#[verifier::external_body]
pub struct ExBytesMut(BytesMut);

/// The bytes a `BytesMut` buffer holds, front to back.
pub uninterp spec fn bm_bytes(b: BytesMut) -> Seq<u8>;

/// Relies on `BytesMut::new`: an empty buffer.
#[verifier::external_body]
fn bm_new() -> (b: BytesMut)
    ensures
        bm_bytes(b) == Seq::<u8>::empty(),
{
    BytesMut::new()
}

/// Relies on `BytesMut::len`: the number of bytes the buffer holds.
#[verifier::external_body]
fn bm_len(b: &BytesMut) -> (n: usize)
    ensures
        n == bm_bytes(*b).len(),
{
    b.len()
}

/// Relies on `BytesMut`'s deref to `[u8]`: the byte at index `i`.
#[verifier::external_body]
fn bm_byte(b: &BytesMut, i: usize) -> (r: u8)
    requires
        i < bm_bytes(*b).len(),
    ensures
        r == bm_bytes(*b)[i as int],
{
    b[i]
}

/// Relies on `BytesMut::extend_from_slice`: appends the given bytes.
#[verifier::external_body]
fn bm_extend_from_slice(b: &mut BytesMut, data: &[u8])
    ensures
        bm_bytes(*final(b)) == bm_bytes(*old(b)) + data@,
{
    b.extend_from_slice(data)
}

/// Relies on `BytesMut::split_to`: splits off and returns the first `at`
/// bytes, leaving the rest; it panics where `at` exceeds the length.
#[verifier::external_body]
fn bm_split_to(b: &mut BytesMut, at: usize) -> (r: BytesMut)
    requires
        at <= bm_bytes(*old(b)).len(),
    ensures
        bm_bytes(r) == bm_bytes(*old(b)).take(at as int),
        bm_bytes(*final(b)) == bm_bytes(*old(b)).skip(at as int),
{
    b.split_to(at)
}

/// Relies on `BytesMut::truncate`: keeps the first `len` bytes and drops
/// the rest.
#[verifier::external_body]
fn bm_truncate(b: &mut BytesMut, len: usize)
    requires
        len <= bm_bytes(*old(b)).len(),
    ensures
        bm_bytes(*final(b)) == bm_bytes(*old(b)).take(len as int),
{
    b.truncate(len)
}

/// Relies on `BytesMut`'s `AsRef<[u8]>`: the buffer's bytes as a slice.
#[verifier::external_body]
fn bm_as_slice<'a>(b: &'a BytesMut) -> (r: &'a [u8])
    ensures
        r@ == bm_bytes(*b),
{
    b.as_ref()
}

/// Relies on `core::str::from_utf8`: `Some` exactly on UTF-8 input, and the
/// returned string slice is backed by those same bytes.
#[verifier::external_body]
fn bytes_to_str<'a>(b: &'a [u8]) -> (r: Option<&'a str>)
    ensures
        match r {
            Some(s) => s.spec_bytes() == b@,
            None => !valid_utf8(b@),
        },
{
    core::str::from_utf8(b).ok()
}

/// What one framed line means: parse errors (invalid UTF-8 included) are
/// values delivered to the caller, never connection-level failures.
pub open spec fn line_result(bytes: Seq<u8>) -> Result<CommandView, Seq<char>> {
    if valid_utf8(bytes) {
        spec_parse_command(decode_utf8(bytes))
    } else {
        Err("invalid utf-8"@)
    }
}

/// A codec over one connection: buffers inbound bytes until a newline
/// frames a command line, and buffers outbound response lines until the
/// socket can take them. The socket itself stays outside: bytes are handed
/// in with `feed` and out with `pending`/`consume`.
pub struct CommandCodec {
    rd: BytesMut,
    wr: BytesMut,
}

impl CommandCodec {
    /// The buffered inbound bytes, not yet framed into lines.
    pub closed spec fn rd_bytes(&self) -> Seq<u8> {
        bm_bytes(self.rd)
    }

    /// The buffered outbound bytes, not yet written to the socket.
    pub closed spec fn wr_bytes(&self) -> Seq<u8> {
        bm_bytes(self.wr)
    }

    /// A codec with empty buffers.
    pub fn new() -> (c: CommandCodec)
        ensures
            c.rd_bytes() == Seq::<u8>::empty(),
            c.wr_bytes() == Seq::<u8>::empty(),
    {
        CommandCodec { rd: bm_new(), wr: bm_new() }
    }

    /// Hand the codec bytes read from the socket.
    pub fn feed(&mut self, data: &[u8])
        ensures
            final(self).rd_bytes() == old(self).rd_bytes() + data@,
            final(self).wr_bytes() == old(self).wr_bytes(),
    {
        bm_extend_from_slice(&mut self.rd, data);
    }

    /// Whether a complete line is buffered, waiting to be framed.
    pub fn has_line(&self) -> (r: bool)
        ensures
            r == (find_index(self.rd_bytes(), 10u8) is Some),
    {
        self.find_newline().is_some()
    }

    /// Position of the first newline byte of the read buffer, if any.
    fn find_newline(&self) -> (r: Option<usize>)
        ensures
            match r {
                Some(i) => find_index(self.rd_bytes(), 10u8) == Some(i as int),
                None => find_index(self.rd_bytes(), 10u8) is None,
            },
    {
        proof {
            lemma_find_index(self.rd_bytes(), 10u8);
        }
        let n = bm_len(&self.rd);
        let mut i: usize = 0;
        while i < n
            invariant
                n == self.rd_bytes().len(),
                0 <= i <= n,
                forall|j: int| 0 <= j < i ==> self.rd_bytes()[j] != 10u8,
            decreases n - i,
        {
            if bm_byte(&self.rd, i) == 10u8 {
                proof {
                    lemma_find_index(self.rd_bytes(), 10u8);
                }
                return Some(i);
            }
            i += 1;
        }
        None
    }

    /// Frame the next complete line, if one is buffered, and parse it: the
    /// line is everything up to the first newline (the newline itself
    /// excluded and consumed), and the parse result — the command, or the
    /// error to report for that line — is one delivered item.
    pub fn next_command(&mut self) -> (r: Option<Result<Command, &'static str>>)
        ensures
            final(self).wr_bytes() == old(self).wr_bytes(),
            match find_index(old(self).rd_bytes(), 10u8) {
                None => r is None && final(self).rd_bytes() == old(self).rd_bytes(),
                Some(p) => final(self).rd_bytes() == old(self).rd_bytes().skip(p + 1) && match r {
                    Some(Ok(c)) => line_result(old(self).rd_bytes().take(p)) == Ok::<
                        CommandView,
                        Seq<char>,
                    >(c@),
                    Some(Err(m)) => line_result(old(self).rd_bytes().take(p)) == Err::<
                        CommandView,
                        Seq<char>,
                    >(m@),
                    None => false,
                },
            },
    {
        let pos = match self.find_newline() {
            None => {
                return None;
            },
            Some(pos) => pos,
        };
        proof {
            lemma_find_index(self.rd_bytes(), 10u8);
        }
        let _len = bm_len(&self.rd);
        let ghost before = self.rd_bytes();
        let mut line = bm_split_to(&mut self.rd, pos + 1);
        bm_truncate(&mut line, pos);
        proof {
            assert(bm_bytes(line) =~= before.take(pos as int));
        }
        let sl = bm_as_slice(&line);
        match bytes_to_str(sl) {
            None => Some(Err("invalid utf-8")),
            Some(st) => {
                proof {
                    encode_utf8_valid_utf8(st@);
                    encode_utf8_decode_utf8(st@);
                }
                match Command::from_str(st) {
                    Ok(c) => Some(Ok(c)),
                    Err(m) => Some(Err(m)),
                }
            },
        }
    }

    /// Serialize a response into the outbound buffer: its wire text and a
    /// trailing newline.
    pub fn buffer(&mut self, response: Response)
        ensures
            final(self).rd_bytes() == old(self).rd_bytes(),
            final(self).wr_bytes() == old(self).wr_bytes() + encode_utf8(
                resp_text(response@).push('\n'),
            ),
    {
        let mut text = response.to_text();
        text.append("\n");
        proof {
            reveal_strlit("\n");
            assert(text@ =~= resp_text(response@).push('\n'));
        }
        bm_extend_from_slice(&mut self.wr, text.as_str().as_bytes());
    }

    /// The outbound bytes not yet taken by the socket.
    pub fn pending<'a>(&'a self) -> (r: &'a [u8])
        ensures
            r@ == self.wr_bytes(),
    {
        bm_as_slice(&self.wr)
    }

    /// Whether outbound bytes are waiting to be written.
    pub fn has_pending(&self) -> (r: bool)
        ensures
            r == (self.wr_bytes().len() > 0),
    {
        bm_len(&self.wr) > 0
    }

    /// Drop the first `n` outbound bytes, after the socket accepted them.
    pub fn consume(&mut self, n: usize)
        requires
            n <= old(self).wr_bytes().len(),
        ensures
            final(self).rd_bytes() == old(self).rd_bytes(),
            final(self).wr_bytes() == old(self).wr_bytes().skip(n as int),
    {
        let _ = bm_split_to(&mut self.wr, n);
    }
}

} // verus!
