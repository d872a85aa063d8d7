use vstd::prelude::*;
use vstd::utf8::{decode_utf8, encode_utf8, valid_utf8};
use crate::protocol::{
    frame_of, message_of, parse, serialize, FRAME_LEN, Message, MessageModel, ParseError, SerializeError,
};

verus! {

#[verifier::external_type_specification]
#[verifier::external_body]
pub struct ExIoError(std::io::Error);

/// Why a frame could not be read or sent.
#[derive(Debug)]
pub enum NetError {
    ParseError(ParseError),
    SerializeError(SerializeError),
    IoError(std::io::Error),
}

impl From<ParseError> for NetError {
    fn from(e: ParseError) -> (r: Self) {
        NetError::ParseError(e)
    }
}

impl vstd::std_specs::convert::FromSpecImpl<ParseError> for NetError {
    open spec fn obeys_from_spec() -> bool {
        true
    }

    open spec fn from_spec(v: ParseError) -> Self {
        NetError::ParseError(v)
    }
}

impl From<SerializeError> for NetError {
    fn from(e: SerializeError) -> (r: Self) {
        NetError::SerializeError(e)
    }
}

impl vstd::std_specs::convert::FromSpecImpl<SerializeError> for NetError {
    open spec fn obeys_from_spec() -> bool {
        true
    }

    open spec fn from_spec(v: SerializeError) -> Self {
        NetError::SerializeError(v)
    }
}

impl From<std::io::Error> for NetError {
    fn from(e: std::io::Error) -> (r: Self) {
        NetError::IoError(e)
    }
}

impl vstd::std_specs::convert::FromSpecImpl<std::io::Error> for NetError {
    open spec fn obeys_from_spec() -> bool {
        true
    }

    open spec fn from_spec(v: std::io::Error) -> Self {
        NetError::IoError(v)
    }
}

/// The text that `String::from_utf8_lossy` makes of some bytes.
pub uninterp spec fn lossy_text(b: Seq<u8>) -> Seq<char>;

/// Relies on `String::from_utf8_lossy`: valid UTF-8 is decoded as it is, and
/// every invalid sequence becomes a replacement character.
#[verifier::external_body]
fn utf8_lossy(b: &[u8]) -> (r: String)
    ensures
        r@ == lossy_text(b@),
        valid_utf8(b@) ==> r@ == decode_utf8(b@),
{
    String::from_utf8_lossy(b).to_string()
}

/// `r` is what decoding the frame bytes `b` gives: the message that their text
/// holds, or why it holds none.
pub open spec fn decodes_to(b: Seq<u8>, r: Result<Message, NetError>) -> bool {
    match r {
        Ok(m) => message_of(lossy_text(b)) == Ok::<MessageModel, ParseError>(m@),
        Err(NetError::ParseError(e)) => message_of(lossy_text(b)) == Err::<MessageModel, ParseError>(
            e,
        ),
        Err(_) => false,
    }
}

/// Decodes the bytes of one frame read from the stream. Bytes that are valid
/// UTF-8 are read as the text they encode.
pub fn decode_frame(bytes: &[u8]) -> (r: Result<Message, NetError>)
    ensures
        decodes_to(bytes@, r),
        valid_utf8(bytes@) ==> lossy_text(bytes@) == decode_utf8(bytes@),
{
    let text = utf8_lossy(bytes);
    match parse(text.as_str()) {
        Ok(m) => Ok(m),
        Err(e) => Err(NetError::from(e)),
    }
}

/// Encodes a message into the bytes of one frame to write to the stream.
pub fn encode_frame(message: &Message) -> (r: Result<Vec<u8>, NetError>)
    ensures
        match r {
            Ok(v) => frame_of(message@) is Ok && v@ == encode_utf8(frame_of(message@)->Ok_0),
            Err(NetError::SerializeError(e)) => frame_of(message@) == Err::<
                Seq<char>,
                SerializeError,
            >(e),
            Err(_) => false,
        },
{
    match serialize(message) {
        Ok(s) => Ok(s.as_str().as_bytes_vec()),
        Err(e) => Err(NetError::from(e)),
    }
}

/// After `chunk` is added to the held bytes `pending`: the whole frame handed
/// out, if there is one, and the bytes then held.
pub open spec fn receive_spec(pending: Seq<u8>, chunk: Seq<u8>) -> (Option<Seq<u8>>, Seq<u8>) {
    let all = pending + chunk;
    if all.len() >= FRAME_LEN {
        (Some(all.subrange(0, FRAME_LEN as int)), all.subrange(FRAME_LEN as int, all.len() as int))
    } else {
        (None, all)
    }
}

/// Collects the bytes of partial reads until a whole frame is there.
pub struct FrameReader {
    pending: Vec<u8>,
}

impl View for FrameReader {
    type V = Seq<u8>;

    closed spec fn view(&self) -> Seq<u8> {
        self.pending@
    }
}

impl FrameReader {
    pub fn new() -> (r: FrameReader)
        ensures
            r@ == Seq::<u8>::empty(),
    {
        FrameReader { pending: Vec::new() }
    }

    /// Number of bytes held back for the next frame.
    pub fn pending_len(&self) -> (r: usize)
        ensures
            r == self@.len(),
    {
        self.pending.len()
    }

    /// Keeps the bytes that one read gave, after those already held.
    pub fn push_bytes(&mut self, chunk: &[u8])
        ensures
            final(self)@ == old(self)@ + chunk@,
    {
        let mut i: usize = 0;
        while i < chunk.len()
            invariant
                i <= chunk@.len(),
                self@ == old(self)@ + chunk@.subrange(0, i as int),
            decreases chunk@.len() - i,
        {
            self.pending.push(chunk[i]);
            assert(chunk@.subrange(0, i + 1) =~= chunk@.subrange(0, i as int).push(chunk@[i as int]));
            assert(self@ =~= old(self)@ + chunk@.subrange(0, i + 1));
            i = i + 1;
        }
        assert(chunk@.subrange(0, chunk@.len() as int) =~= chunk@);
    }

    /// Hands out the first whole frame, once enough bytes are held; the bytes
    /// after it stay for the next one.
    pub fn take_frame(&mut self) -> (r: Option<Vec<u8>>)
        ensures
            old(self)@.len() >= FRAME_LEN ==> (r matches Some(f) && f@ == old(self)@.subrange(
                0,
                FRAME_LEN as int,
            )),
            old(self)@.len() >= FRAME_LEN ==> final(self)@ == old(self)@.subrange(
                FRAME_LEN as int,
                old(self)@.len() as int,
            ),
            old(self)@.len() < FRAME_LEN ==> r is None && final(self)@ == old(self)@,
    {
        let n = self.pending.len();
        if n < FRAME_LEN {
            return None;
        }
        let mut frame: Vec<u8> = Vec::new();
        let mut rest: Vec<u8> = Vec::new();
        let mut i: usize = 0;
        while i < n
            invariant
                n == self.pending@.len(),
                FRAME_LEN <= n,
                i <= n,
                i <= FRAME_LEN ==> frame@ == self.pending@.subrange(0, i as int) && rest@.len() == 0,
                i > FRAME_LEN ==> frame@ == self.pending@.subrange(0, FRAME_LEN as int) && rest@
                    == self.pending@.subrange(FRAME_LEN as int, i as int),
            decreases n - i,
        {
            let byte = self.pending[i];
            if i < FRAME_LEN {
                frame.push(byte);
                assert(frame@ =~= self.pending@.subrange(0, i + 1));
            } else {
                rest.push(byte);
                assert(rest@ =~= self.pending@.subrange(FRAME_LEN as int, i + 1));
            }
            i = i + 1;
        }
        if n == FRAME_LEN {
            assert(rest@ =~= self.pending@.subrange(FRAME_LEN as int, n as int));
        }
        self.pending = rest;
        Some(frame)
    }

    /// Takes the bytes that one read gave and decodes the first whole frame
    /// once there is one. `None` means that the frame is not complete yet.
    pub fn receive(&mut self, chunk: &[u8]) -> (r: Option<Result<Message, NetError>>)
        ensures
            final(self)@ == receive_spec(old(self)@, chunk@).1,
            match receive_spec(old(self)@, chunk@).0 {
                None => r is None,
                Some(f) => r matches Some(res) && decodes_to(f, res) && (valid_utf8(f)
                    ==> lossy_text(f) == decode_utf8(f)),
            },
    {
        self.push_bytes(chunk);
        match self.take_frame() {
            None => None,
            Some(frame) => Some(decode_frame(frame.as_slice())),
        }
    }
}

} // verus!
