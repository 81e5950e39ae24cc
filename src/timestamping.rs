//! A timestamping service: it accepts one transaction type, which records a
//! public key and a piece of data, and a generator of such transactions.
use vstd::prelude::*;
use rand::{Rng, SeedableRng, XorShiftRng};
use crate::keys::copy_bytes;
use crate::storage::{Error, Patch};

verus! {

/// The identifier of the timestamping service.
pub const TIMESTAMPING_SERVICE: u16 = 129;

/// The message type of a timestamping transaction.
pub const TIMESTAMPING_TRANSACTION_MESSAGE_ID: u16 = 128;

/// Length of a public key.
pub const PUBLIC_KEY_LENGTH: usize = 32;

/// Length of the fixed part of a timestamping transaction's body: the public
/// key, then the data's offset and length as little-endian `u32`s.
pub const TIMESTAMP_TX_SIZE: usize = 40;

/// The `u32` stored little-endian in `b` at `at`.
pub open spec fn u32_le(b: Seq<u8>, at: int) -> int {
    b[at] + 256 * b[at + 1] + 65536 * b[at + 2] + 16777216 * b[at + 3]
}

/// Why a raw message could not be read as a transaction.
pub enum MessageError {
    /// The message is of another type.
    IncorrectMessageType { message_type: u16 },
    /// The body is shorter than the transaction's fixed part.
    UnexpectedlyShortPayload { actual_size: usize, minimum_size: usize },
    /// A variable-length field starts inside the fixed part.
    IncorrectSegmentReference { position: usize, value: u32 },
    /// A variable-length field runs past the end of the body.
    IncorrectSegmentSize { position: usize, value: u32 },
}

/// A message as received: its type and its body.
pub struct RawTransaction {
    pub message_type: u16,
    pub body: Vec<u8>,
}

impl RawTransaction {
    /// A message of type `message_type` with body `body`.
    pub fn new(message_type: u16, body: Vec<u8>) -> (r: RawTransaction)
        ensures
            r.message_type == message_type,
            r.body == body,
    {
        RawTransaction { message_type, body }
    }

    /// The type the message declares.
    pub fn message_type(&self) -> (r: u16)
        ensures
            r == self.message_type,
    {
        self.message_type
    }
}

/// A transaction that timestamps `data` on behalf of `pub_key`.
pub struct TimestampTx {
    pub pub_key: Vec<u8>,
    pub data: Vec<u8>,
}

/// What decoding the body `b` of a timestamping transaction gives.
pub open spec fn decode_timestamp(b: Seq<u8>) -> Result<(Seq<u8>, Seq<u8>), MessageError> {
    if b.len() < TIMESTAMP_TX_SIZE {
        Err(
            MessageError::UnexpectedlyShortPayload {
                actual_size: b.len() as usize,
                minimum_size: TIMESTAMP_TX_SIZE,
            },
        )
    } else if u32_le(b, 32) < TIMESTAMP_TX_SIZE {
        Err(MessageError::IncorrectSegmentReference { position: 32, value: u32_le(b, 32) as u32 })
    } else if u32_le(b, 32) + u32_le(b, 36) > b.len() {
        Err(MessageError::IncorrectSegmentSize { position: 36, value: u32_le(b, 36) as u32 })
    } else {
        Ok((b.subrange(0, 32), b.subrange(u32_le(b, 32), u32_le(b, 32) + u32_le(b, 36))))
    }
}

/// The fields of a decoded transaction.
pub open spec fn tx_fields(r: Result<TimestampTx, MessageError>) -> Result<(Seq<u8>, Seq<u8>), MessageError> {
    match r {
        Ok(tx) => Ok((tx.pub_key@, tx.data@)),
        Err(e) => Err(e),
    }
}

/// Reads the little-endian `u32` at `at`.
fn read_u32_le(b: &[u8], at: usize) -> (r: u32)
    requires
        at + 4 <= b@.len(),
    ensures
        r == u32_le(b@, at as int),
{
    (b[at] as u32) + 256 * (b[at + 1] as u32) + 65536 * (b[at + 2] as u32) + 16777216 * (b[at + 3] as u32)
}

/// The bytes of `b` from `start` up to `end`.
fn slice_bytes(b: &[u8], start: usize, end: usize) -> (r: Vec<u8>)
    requires
        start <= end <= b@.len(),
    ensures
        r@ == b@.subrange(start as int, end as int),
{
    let mut r: Vec<u8> = Vec::with_capacity(end - start);
    let mut i: usize = start;
    while i < end
        invariant
            start <= i <= end,
            end <= b@.len(),
            r@ == b@.subrange(start as int, i as int),
        decreases end - i,
    {
        r.push(b[i]);
        i = i + 1;
    }
    r
}

impl TimestampTx {
    /// A transaction for `pub_key` over `data`.
    pub fn new(pub_key: &[u8], data: &[u8]) -> (r: TimestampTx)
        ensures
            r.pub_key@ == pub_key@,
            r.data@ == data@,
    {
        TimestampTx { pub_key: copy_bytes(pub_key), data: copy_bytes(data) }
    }

    /// Reads a transaction from the body of `raw`.
    pub fn from_raw(raw: RawTransaction) -> (r: Result<TimestampTx, MessageError>)
        ensures
            tx_fields(r) == decode_timestamp(raw.body@),
    {
        let b = raw.body.as_slice();
        if b.len() < TIMESTAMP_TX_SIZE {
            return Err(
                MessageError::UnexpectedlyShortPayload {
                    actual_size: b.len(),
                    minimum_size: TIMESTAMP_TX_SIZE,
                },
            );
        }
        let offset = read_u32_le(b, 32);
        let len = read_u32_le(b, 36);
        if (offset as usize) < TIMESTAMP_TX_SIZE {
            return Err(MessageError::IncorrectSegmentReference { position: 32, value: offset });
        }
        if (offset as u64) + (len as u64) > b.len() as u64 {
            return Err(MessageError::IncorrectSegmentSize { position: 36, value: len });
        }
        let pub_key = slice_bytes(b, 0, PUBLIC_KEY_LENGTH);
        let data = slice_bytes(b, offset as usize, offset as usize + len as usize);
        Ok(TimestampTx { pub_key, data })
    }

    /// Executing a timestamp changes no state and always succeeds.
    pub fn execute(&self, _view: &Patch) -> (r: Result<(), Error>)
        ensures
            r is Ok,
    {
        Ok(())
    }
}

/// The service that handles timestamping transactions.
pub struct TimestampingService {}

impl TimestampingService {
    /// The service.
    pub fn new() -> (r: TimestampingService) {
        TimestampingService {}
    }

    /// The identifier the service's messages carry.
    pub fn service_id(&self) -> (r: u16)
        ensures
            r == TIMESTAMPING_SERVICE,
    {
        TIMESTAMPING_SERVICE
    }

    /// Reads a timestamping transaction from `raw`; a message of another
    /// type is refused.
    pub fn tx_from_raw(&self, raw: RawTransaction) -> (r: Result<TimestampTx, MessageError>)
        ensures
            raw.message_type != TIMESTAMPING_TRANSACTION_MESSAGE_ID ==> r == Err::<TimestampTx, MessageError>(
                MessageError::IncorrectMessageType { message_type: raw.message_type },
            ),
            raw.message_type == TIMESTAMPING_TRANSACTION_MESSAGE_ID ==> tx_fields(r)
                == decode_timestamp(raw.body@),
    {
        if raw.message_type() != TIMESTAMPING_TRANSACTION_MESSAGE_ID {
            return Err(MessageError::IncorrectMessageType { message_type: raw.message_type() });
        }
        TimestampTx::from_raw(raw)
    }
}

#[verifier::external_type_specification]
#[verifier::external_body]
pub struct ExXorShiftRng(XorShiftRng);

/// Relies on `SeedableRng::from_seed` of rand's `XorShiftRng`, which panics
/// on an all-zero seed.
#[verifier::external_body]
fn seeded_rng(seed: [u32; 4]) -> (r: XorShiftRng)
    requires
        seed@[0] != 0 || seed@[1] != 0 || seed@[2] != 0 || seed@[3] != 0,
{
    XorShiftRng::from_seed(seed)
}

/// Relies on `Rng::fill_bytes` of rand's `XorShiftRng`, which overwrites each
/// byte of a buffer of `len` bytes.
#[verifier::external_body]
fn random_bytes(rng: &mut XorShiftRng, len: usize) -> (r: Vec<u8>)
    ensures
        r@.len() == len,
{
    let mut data = vec![0u8; len];
    rng.fill_bytes(&mut data);
    data
}

/// Produces timestamping transactions for one public key, each with
/// `data_size` bytes of pseudo-random data.
pub struct TimestampingTxGenerator {
    rand: XorShiftRng,
    data_size: usize,
    public_key: Vec<u8>,
}

impl TimestampingTxGenerator {
    /// How many bytes of data each transaction gets.
    pub closed spec fn spec_data_size(&self) -> usize {
        self.data_size
    }

    /// The key every transaction is made for.
    pub closed spec fn spec_public_key(&self) -> Seq<u8> {
        self.public_key@
    }

    /// A generator for `public_key`, seeded with a fixed seed so that every
    /// generator yields the same sequence of data.
    pub fn new(data_size: usize, public_key: &[u8]) -> (r: TimestampingTxGenerator)
        ensures
            r.spec_data_size() == data_size,
            r.spec_public_key() == public_key@,
    {
        let seed: [u32; 4] = [192, 168, 56, 1];
        TimestampingTxGenerator {
            rand: seeded_rng(seed),
            data_size,
            public_key: copy_bytes(public_key),
        }
    }

    /// The next transaction: the generator's key with fresh data. There is
    /// always one.
    pub fn next(&mut self) -> (r: Option<TimestampTx>)
        ensures
            final(self).spec_data_size() == old(self).spec_data_size(),
            final(self).spec_public_key() == old(self).spec_public_key(),
            r matches Some(tx) && tx.pub_key@ == old(self).spec_public_key() && tx.data@.len()
                == old(self).spec_data_size(),
    {
        let data = random_bytes(&mut self.rand, self.data_size);
        Some(TimestampTx::new(self.public_key.as_slice(), data.as_slice()))
    }
}

} // verus!
