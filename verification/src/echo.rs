//! The echo service: the device sends back what it reads, and the client puts the
//! pieces together again.

use vstd::prelude::*;
use vstd::slice::slice_subrange;
use vstd::utf8::{encode_utf8, encode_utf8_decode_utf8, valid_utf8};

verus! {

/// How many bytes are read at a time.
pub const CHUNK: usize = 1024;

// ---------------------------------------------------------------------------
// The device
// ---------------------------------------------------------------------------

/// What is written back after a read put `n` bytes at the front of `buf`:
/// nothing where the stream is at its end.
pub open spec fn written_back(buf: Seq<u8>, n: int) -> Option<Seq<u8>> {
    if n == 0 {
        None
    } else {
        Some(buf.take(n))
    }
}

/// One stream being echoed.
#[derive(Debug)]
pub struct Echo {
    total: u64,
}

impl View for Echo {
    type V = nat;

    closed spec fn view(&self) -> nat {
        self.total as nat
    }
}

impl Echo {
    /// Nothing was echoed yet.
    pub fn new() -> (echo: Echo)
        ensures
            echo@ == 0,
    {
        Echo { total: 0 }
    }

    /// How many bytes were echoed.
    pub fn total(&self) -> (total: u64)
        ensures
            total == self@,
    {
        self.total
    }

    /// A read put `n` bytes at the front of `buf`: what is to be written back.
    pub fn accept<'a>(&mut self, buf: &'a [u8], n: usize) -> (back: Option<&'a [u8]>)
        requires
            n <= buf@.len(),
            old(self)@ + n <= u64::MAX,
        ensures
            final(self)@ == old(self)@ + n,
            match back {
                Some(bytes) => written_back(buf@, n as int) == Some(bytes@),
                None => written_back(buf@, n as int) is None,
            },
    {
        if n == 0 {
            return None;
        }
        self.total += n as u64;
        Some(slice_subrange(buf, 0, n))
    }
}

// ---------------------------------------------------------------------------
// The client
// ---------------------------------------------------------------------------

/// What came back, after a read put `n` more bytes at the front of `chunk`.
pub open spec fn extended(bytes: Seq<u8>, chunk: Seq<u8>, n: int) -> Seq<u8> {
    bytes + chunk.take(n)
}

/// What came back so far.
#[derive(Debug)]
pub struct Reply {
    bytes: Vec<u8>,
}

impl View for Reply {
    type V = Seq<u8>;

    closed spec fn view(&self) -> Seq<u8> {
        self.bytes@
    }
}

/// The words for why bytes are no UTF-8.
pub uninterp spec fn utf8_fault(bytes: Seq<u8>) -> Seq<char>;

/// Hands bytes to `String::from_utf8`: the text whose UTF-8 encoding they are, where
/// there is one; otherwise the error as its `Display` writes it.
#[verifier::external_body]
fn text_of(bytes: Vec<u8>) -> (text: Result<String, String>)
    ensures
        match text {
            Ok(text) => encode_utf8(text@) == bytes@,
            Err(fault) => !valid_utf8(bytes@) && fault@ == utf8_fault(bytes@),
        },
{
    String::from_utf8(bytes).map_err(|error| error.to_string())
}

impl Reply {
    /// Nothing came back yet.
    pub fn new() -> (reply: Reply)
        ensures
            reply@ == Seq::<u8>::empty(),
    {
        Reply { bytes: Vec::new() }
    }

    /// A read put `n` bytes at the front of `chunk`.
    pub fn extend(&mut self, chunk: &[u8], n: usize)
        requires
            n <= chunk@.len(),
        ensures
            final(self)@ == extended(old(self)@, chunk@, n as int),
    {
        let piece = slice_subrange(chunk, 0, n);
        self.bytes.extend_from_slice(piece);
        assert(self@ =~= old(self)@ + chunk@.take(n as int));
    }

    /// How many bytes came back.
    pub fn len(&self) -> (len: usize)
        ensures
            len == self@.len(),
    {
        self.bytes.len()
    }

    /// The bytes that came back.
    pub fn bytes(&self) -> (bytes: &[u8])
        ensures
            bytes@ == self@,
    {
        self.bytes.as_slice()
    }

    /// Whether what came back is what was sent.
    pub fn is_echo_of(&self, message: &[u8]) -> (yes: bool)
        ensures
            yes == (self@ == message@),
    {
        if self.bytes.len() != message.len() {
            return false;
        }
        let mut i: usize = 0;
        while i < message.len()
            invariant
                i <= message@.len(),
                self@.len() == message@.len(),
                forall|k: int| 0 <= k < i ==> self@[k] == message@[k],
            decreases message.len() - i,
        {
            if self.bytes[i] != message[i] {
                assert(self@[i as int] != message@[i as int]);
                return false;
            }
            i += 1;
        }
        assert(self@ =~= message@);
        true
    }

    /// What came back, as text.
    pub fn into_text(self) -> (text: Result<String, String>)
        ensures
            match text {
                Ok(text) => encode_utf8(text@) == self@,
                Err(fault) => !valid_utf8(self@) && fault@ == utf8_fault(self@),
            },
    {
        text_of(self.bytes)
    }
}

// ---------------------------------------------------------------------------
// How much a connection may hold
// ---------------------------------------------------------------------------

/// The limits of a QUIC connection to a device. The defaults are sized for the
/// internet and would not fit in its memory.
#[derive(Clone, Copy, Debug, PartialEq, Eq, Structural)]
pub struct TransportLimits {
    pub bidi_streams: u32,
    pub uni_streams: u32,
    pub stream_receive_window: u32,
    pub receive_window: u32,
    pub send_window: u64,
}

impl TransportLimits {
    /// A stream is echoed in whole chunks, and what it may hold fits in what its
    /// connection may hold, in both directions.
    pub open spec fn valid(self) -> bool {
        &&& self.bidi_streams == 1
        &&& self.uni_streams == 0
        &&& CHUNK <= self.stream_receive_window <= self.receive_window
        &&& self.receive_window == self.send_window
    }

    /// For a board with room to spare.
    pub fn roomy() -> (limits: TransportLimits)
        ensures
            limits.valid(),
            limits.stream_receive_window == 16 * 1024,
            limits.receive_window == 32 * 1024,
    {
        TransportLimits {
            bidi_streams: 1,
            uni_streams: 0,
            stream_receive_window: 16 * 1024,
            receive_window: 32 * 1024,
            send_window: 32 * 1024,
        }
    }

    /// For a board whose memory is short.
    pub fn small() -> (limits: TransportLimits)
        ensures
            limits.valid(),
            limits.stream_receive_window == 4 * 1024,
            limits.receive_window == 8 * 1024,
    {
        TransportLimits {
            bidi_streams: 1,
            uni_streams: 0,
            stream_receive_window: 4 * 1024,
            receive_window: 8 * 1024,
            send_window: 8 * 1024,
        }
    }
}

// ---------------------------------------------------------------------------
// Laws
// ---------------------------------------------------------------------------

/// A read: `n` bytes at the front of a buffer.
pub struct ReadStep {
    pub buf: Seq<u8>,
    pub n: int,
}

/// What a stream gave over some reads.
pub open spec fn given(reads: Seq<ReadStep>) -> Seq<u8>
    decreases reads.len(),
{
    if reads.len() == 0 {
        Seq::empty()
    } else {
        given(reads.drop_last()) + reads.last().buf.take(reads.last().n)
    }
}

/// What the device wrote over some reads.
pub open spec fn echoed(reads: Seq<ReadStep>) -> Seq<u8>
    decreases reads.len(),
{
    if reads.len() == 0 {
        Seq::empty()
    } else {
        let earlier = echoed(reads.drop_last());
        match written_back(reads.last().buf, reads.last().n) {
            Some(bytes) => earlier + bytes,
            None => earlier,
        }
    }
}

/// What the client holds after some reads.
pub open spec fn collected(reads: Seq<ReadStep>) -> Seq<u8>
    decreases reads.len(),
{
    if reads.len() == 0 {
        Seq::empty()
    } else {
        extended(collected(reads.drop_last()), reads.last().buf, reads.last().n)
    }
}

/// However the network cuts the two directions into pieces, the client ends with
/// the message that it sent.
pub proof fn law_echo_returns_the_message(
    message: Seq<u8>,
    there: Seq<ReadStep>,
    back: Seq<ReadStep>,
)
    requires
        given(there) == message,
        given(back) == echoed(there),
    ensures
        collected(back) == message,
{
    lemma_echoed_is_given(there);
    lemma_collected_is_given(back);
}

proof fn lemma_echoed_is_given(reads: Seq<ReadStep>)
    ensures
        echoed(reads) == given(reads),
    decreases reads.len(),
{
    if reads.len() > 0 {
        lemma_echoed_is_given(reads.drop_last());
        assert(echoed(reads) =~= given(reads));
    }
}

proof fn lemma_collected_is_given(reads: Seq<ReadStep>)
    ensures
        collected(reads) == given(reads),
    decreases reads.len(),
{
    if reads.len() > 0 {
        lemma_collected_is_given(reads.drop_last());
    }
}

/// Text that was sent as its UTF-8 bytes comes back as the same text.
pub proof fn law_text_survives_the_echo(sent: Seq<char>, back: Seq<char>)
    requires
        encode_utf8(back) == encode_utf8(sent),
    ensures
        back == sent,
        valid_utf8(encode_utf8(sent)),
{
    broadcast use vstd::utf8::encode_utf8_valid_utf8;

    encode_utf8_decode_utf8(sent);
    encode_utf8_decode_utf8(back);
}

} // verus!
