//! The size-declared protocol: the sender announces the total size and the
//! chunk size in two raw eight-byte headers, then sends the bytes in chunks
//! whose sizes both sides derive from those two numbers.
use vstd::prelude::*;

use crate::codec::{append_bytes, be_value, encode_u64_be, read_u64_at, u64_header, lemma_u64_header};
use crate::error::TransferError;

verus! {

/// Length in bytes of the two headers that open the stream.
pub const DECLARED_HEADER_LEN: usize = 16;

/// Sizes of the chunks in which `total` bytes travel, `chunk` at a time, in
/// order: all full but the last, which holds what is left.
pub open spec fn chunk_sizes(total: nat, chunk: nat) -> Seq<nat>
    decreases total,
{
    if total == 0 || chunk == 0 {
        Seq::empty()
    } else if total <= chunk {
        seq![total]
    } else {
        seq![chunk] + chunk_sizes((total - chunk) as nat, chunk)
    }
}

/// The two headers that open a size-declared stream.
pub open spec fn declared_header(total: u64, chunk: u64) -> Seq<u8> {
    u64_header(total) + u64_header(chunk)
}

/// The whole wire form of `data` sent in chunks of `chunk` bytes: the chunks
/// follow the headers back to back, so together they are `data` itself.
pub open spec fn declared_wire(data: Seq<u8>, chunk: u64) -> Seq<u8> {
    declared_header(data.len() as u64, chunk) + data
}

/// What a receiver makes of a size-declared stream.
pub open spec fn parse_declared(s: Seq<u8>) -> Result<Seq<u8>, TransferError> {
    if s.len() < 16 {
        Err(TransferError::Framing)
    } else if be_value(s.subrange(8, 16)) == 0 {
        Err(TransferError::ZeroChunkSize)
    } else if s.len() < 16 + be_value(s.subrange(0, 8)) {
        Err(TransferError::Framing)
    } else {
        Ok(s.subrange(16, 16 + be_value(s.subrange(0, 8)) as int))
    }
}

/// The bookkeeping of one size-declared transfer, on either side: how many
/// bytes the file has, how large a chunk is, and how many bytes have gone.
pub struct TransferSession {
    total_size: u64,
    chunk_size: u64,
    done: u64,
}

impl TransferSession {
    /// Size of the file, in bytes.
    pub closed spec fn total(&self) -> nat {
        self.total_size as nat
    }

    /// Size of a full chunk, in bytes.
    pub closed spec fn chunk(&self) -> nat {
        self.chunk_size as nat
    }

    /// Bytes sent or received so far.
    pub closed spec fn done(&self) -> nat {
        self.done as nat
    }

    /// The chunk size is positive and no more bytes have gone than exist.
    pub open spec fn wf(&self) -> bool {
        &&& 0 < self.chunk() <= u64::MAX
        &&& self.done() <= self.total() <= u64::MAX
    }

    /// Sizes of the chunks still to go.
    pub open spec fn remaining_chunks(&self) -> Seq<nat> {
        chunk_sizes((self.total() - self.done()) as nat, self.chunk())
    }

    /// A sender's session for a file of `total_size` bytes; fails on a chunk
    /// size of zero.
    pub fn new(total_size: u64, chunk_size: u64) -> (r: Result<TransferSession, TransferError>)
        ensures
            chunk_size == 0 <==> r == Err::<TransferSession, TransferError>(TransferError::ZeroChunkSize),
            chunk_size > 0 <==> r is Ok,
            r is Ok ==> {
                let s = r->Ok_0;
                &&& s.wf()
                &&& s.total() == total_size
                &&& s.chunk() == chunk_size
                &&& s.done() == 0
            },
    {
        if chunk_size == 0 {
            Err(TransferError::ZeroChunkSize)
        } else {
            Ok(TransferSession { total_size, chunk_size, done: 0 })
        }
    }

    /// A receiver's session, from the two headers at the start of `header`.
    pub fn from_header(header: &[u8]) -> (r: Result<TransferSession, TransferError>)
        ensures
            header@.len() < 16 ==> r == Err::<TransferSession, TransferError>(TransferError::Framing),
            header@.len() >= 16 ==> {
                let total = be_value(header@.subrange(0, 8));
                let chunk = be_value(header@.subrange(8, 16));
                &&& chunk == 0 <==> r == Err::<TransferSession, TransferError>(TransferError::ZeroChunkSize)
                &&& chunk > 0 <==> r is Ok
                &&& r is Ok ==> {
                    let s = r->Ok_0;
                    &&& s.wf()
                    &&& s.total() == total
                    &&& s.chunk() == chunk
                    &&& s.done() == 0
                }
            },
    {
        if header.len() < DECLARED_HEADER_LEN {
            return Err(TransferError::Framing);
        }
        let total_size = read_u64_at(header, 0);
        let chunk_size = read_u64_at(header, 8);
        TransferSession::new(total_size, chunk_size)
    }

    /// The two headers a sender writes before any data.
    pub fn header(&self) -> (r: Vec<u8>)
        ensures
            r@ == declared_header(self.total() as u64, self.chunk() as u64),
            r@.len() == 16,
    {
        let mut r: Vec<u8> = Vec::new();
        let t = encode_u64_be(self.total_size);
        let c = encode_u64_be(self.chunk_size);
        append_bytes(&mut r, t.as_slice());
        append_bytes(&mut r, c.as_slice());
        proof {
            lemma_u64_header(self.total_size);
            lemma_u64_header(self.chunk_size);
        }
        r
    }

    pub fn total_size(&self) -> (r: u64)
        ensures
            r == self.total(),
    {
        self.total_size
    }

    pub fn chunk_size(&self) -> (r: u64)
        ensures
            r == self.chunk(),
    {
        self.chunk_size
    }

    /// Bytes sent or received so far.
    pub fn bytes_done(&self) -> (r: u64)
        ensures
            r == self.done(),
    {
        self.done
    }

    /// Whether every byte has gone.
    pub fn is_complete(&self) -> (r: bool)
        requires
            self.wf(),
        ensures
            r == (self.done() == self.total()),
            r == (self.remaining_chunks().len() == 0),
    {
        proof {
            lemma_chunk_sizes_shape((self.total() - self.done()) as nat, self.chunk());
        }
        self.done >= self.total_size
    }

    /// The size of the next chunk: the chunk size, or what is left if that is
    /// less; zero once every byte has gone.
    pub fn next_chunk_len(&self) -> (r: u64)
        requires
            self.wf(),
        ensures
            r as nat == if self.chunk() <= self.total() - self.done() {
                self.chunk()
            } else {
                (self.total() - self.done()) as nat
            },
            r == 0 <==> self.remaining_chunks().len() == 0,
            r > 0 ==> r == self.remaining_chunks()[0],
    {
        proof {
            lemma_chunk_sizes_shape((self.total() - self.done()) as nat, self.chunk());
        }
        let left = self.total_size - self.done;
        if self.chunk_size <= left {
            self.chunk_size
        } else {
            left
        }
    }

    /// Counts the next chunk as sent or received.
    pub fn record_chunk(&mut self, n: u64)
        requires
            old(self).wf(),
            n > 0,
            old(self).remaining_chunks().len() > 0,
            n == old(self).remaining_chunks()[0],
        ensures
            final(self).wf(),
            final(self).total() == old(self).total(),
            final(self).chunk() == old(self).chunk(),
            final(self).done() == old(self).done() + n,
            final(self).remaining_chunks() == old(self).remaining_chunks().drop_first(),
    {
        proof {
            lemma_chunk_sizes_shape((self.total() - self.done()) as nat, self.chunk());
            let left = (self.total() - self.done()) as nat;
            if left > self.chunk() {
                assert(chunk_sizes(left, self.chunk()).drop_first() =~= chunk_sizes(
                    (left - self.chunk()) as nat,
                    self.chunk(),
                ));
            }
        }
        self.done = self.done + n;
    }
}

/// The first chunk is the chunk size, or all that is left if that is less.
pub proof fn lemma_chunk_sizes_shape(total: nat, chunk: nat)
    requires
        chunk > 0,
    ensures
        total == 0 <==> chunk_sizes(total, chunk).len() == 0,
        total > 0 ==> chunk_sizes(total, chunk)[0] == if chunk <= total {
            chunk
        } else {
            total
        },
{
}

/// The sizes of the chunks in which `total_size` bytes travel, in order, as
/// the session hands them out; fails on a chunk size of zero.
pub fn plan_chunks(total_size: u64, chunk_size: u64) -> (r: Result<Vec<u64>, TransferError>)
    ensures
        chunk_size == 0 <==> r == Err::<Vec<u64>, TransferError>(TransferError::ZeroChunkSize),
        chunk_size > 0 <==> r is Ok,
        r is Ok ==> r->Ok_0@.map_values(|n: u64| n as nat) == chunk_sizes(
            total_size as nat,
            chunk_size as nat,
        ),
{
    let mut session = match TransferSession::new(total_size, chunk_size) {
        Ok(s) => s,
        Err(e) => return Err(e),
    };
    let mut sizes: Vec<u64> = Vec::new();
    while !session.is_complete()
        invariant
            session.wf(),
            session.total() == total_size,
            session.chunk() == chunk_size,
            sizes@.map_values(|n: u64| n as nat) + session.remaining_chunks() == chunk_sizes(
                total_size as nat,
                chunk_size as nat,
            ),
        decreases session.total() - session.done(),
    {
        let n = session.next_chunk_len();
        let ghost before = sizes@;
        sizes.push(n);
        session.record_chunk(n);
        proof {
            assert(sizes@.map_values(|n: u64| n as nat) =~= before.map_values(|n: u64| n as nat).push(
                n as nat,
            ));
        }
        assert(sizes@.map_values(|n: u64| n as nat) + session.remaining_chunks() =~= chunk_sizes(
            total_size as nat,
            chunk_size as nat,
        ));
    }
    assert(sizes@.map_values(|n: u64| n as nat) =~= chunk_sizes(
        total_size as nat,
        chunk_size as nat,
    ));
    Ok(sizes)
}

/// The whole wire form of `data` sent in chunks of `chunk_size` bytes, built
/// chunk by chunk as a sender writes it; fails on a chunk size of zero.
pub fn encode_declared(data: &[u8], chunk_size: u64) -> (r: Result<Vec<u8>, TransferError>)
    requires
        data@.len() <= u64::MAX,
    ensures
        chunk_size == 0 <==> r == Err::<Vec<u8>, TransferError>(TransferError::ZeroChunkSize),
        chunk_size > 0 <==> r is Ok,
        r is Ok ==> r->Ok_0@ == declared_wire(data@, chunk_size),
{
    let mut session = match TransferSession::new(data.len() as u64, chunk_size) {
        Ok(s) => s,
        Err(e) => return Err(e),
    };
    let mut wire = session.header();
    let len = data.len();
    while !session.is_complete()
        invariant
            len == data@.len(),
            session.wf(),
            session.total() == data@.len(),
            session.chunk() == chunk_size,
            wire@ == declared_header(data@.len() as u64, chunk_size) + data@.subrange(
                0,
                session.done() as int,
            ),
        decreases session.total() - session.done(),
    {
        let n = session.next_chunk_len();
        let start = session.bytes_done() as usize;
        let end = start + n as usize;
        append_bytes(&mut wire, vstd::slice::slice_subrange(data, start, end));
        session.record_chunk(n);
        assert(data@.subrange(0, start as int) + data@.subrange(start as int, end as int)
            =~= data@.subrange(0, end as int));
    }
    assert(data@.subrange(0, data@.len() as int) =~= data@);
    Ok(wire)
}

/// The file's bytes read back from a size-declared stream, chunk by chunk as
/// a receiver reads them; fails when the stream ends early or announces a
/// chunk size of zero.
pub fn decode_declared(wire: &[u8]) -> (r: Result<Vec<u8>, TransferError>)
    ensures
        match r {
            Ok(d) => parse_declared(wire@) == Ok::<Seq<u8>, TransferError>(d@),
            Err(e) => parse_declared(wire@) == Err::<Seq<u8>, TransferError>(e),
        },
{
    let mut session = match TransferSession::from_header(wire) {
        Ok(s) => s,
        Err(e) => return Err(e),
    };
    let ghost total = be_value(wire@.subrange(0, 8));
    let mut data: Vec<u8> = Vec::new();
    let len = wire.len();
    while !session.is_complete()
        invariant
            len == wire@.len(),
            session.wf(),
            total == be_value(wire@.subrange(0, 8)),
            session.total() == total,
            wire@.len() >= 16,
            be_value(wire@.subrange(8, 16)) > 0,
            data@ == wire@.subrange(16, 16 + session.done() as int),
            16 + session.done() <= wire@.len(),
        decreases session.total() - session.done(),
    {
        let n = session.next_chunk_len();
        let start = DECLARED_HEADER_LEN + session.bytes_done() as usize;
        if ((len - start) as u64) < n {
            return Err(TransferError::Framing);
        }
        let end = start + n as usize;
        append_bytes(&mut data, vstd::slice::slice_subrange(wire, start, end));
        session.record_chunk(n);
        assert(data@ =~= wire@.subrange(16, end as int));
    }
    Ok(data)
}

/// The receiver recovers exactly the bytes the sender sent, for any chunk
/// size of at least one byte.
pub proof fn lemma_declared_round_trip(data: Seq<u8>, chunk: u64)
    requires
        chunk > 0,
        data.len() <= u64::MAX,
    ensures
        parse_declared(declared_wire(data, chunk)) == Ok::<Seq<u8>, TransferError>(data),
{
    let w = declared_wire(data, chunk);
    lemma_u64_header(data.len() as u64);
    lemma_u64_header(chunk);
    assert(w.subrange(0, 8) =~= u64_header(data.len() as u64));
    assert(w.subrange(8, 16) =~= u64_header(chunk));
    assert(w.subrange(16, 16 + data.len() as int) =~= data);
}

/// `total` bytes take `ceil(total / chunk)` chunks; every chunk but the last
/// is full, and the last holds `total - chunk * (count - 1)` bytes, which is
/// more than zero and at most `chunk`.
pub proof fn lemma_chunk_count(total: nat, chunk: nat)
    requires
        chunk > 0,
    ensures
        chunk_sizes(total, chunk).len() == (total + chunk - 1) / chunk as int,
        forall|i: int|
            0 <= i < chunk_sizes(total, chunk).len() - 1 ==> #[trigger] chunk_sizes(total, chunk)[i]
                == chunk,
        total > 0 ==> {
            let c = chunk_sizes(total, chunk);
            &&& c.last() == total - chunk * (c.len() - 1)
            &&& 0 < c.last() <= chunk
        },
    decreases total,
{
    let c = chunk_sizes(total, chunk);
    if total == 0 {
        assert((chunk - 1) as int / chunk as int == 0) by {
            vstd::arithmetic::div_mod::lemma_fundamental_div_mod_converse(
                chunk - 1,
                chunk as int,
                0,
                chunk - 1,
            );
        }
    } else if total <= chunk {
        vstd::arithmetic::div_mod::lemma_fundamental_div_mod_converse(
            total + chunk - 1,
            chunk as int,
            1,
            total - 1,
        );
    } else {
        let rest = (total - chunk) as nat;
        lemma_chunk_count(rest, chunk);
        let c2 = chunk_sizes(rest, chunk);
        assert(c == seq![chunk] + c2);
        let q = (rest + chunk - 1) / chunk as int;
        let m = (rest + chunk - 1) % chunk as int;
        vstd::arithmetic::div_mod::lemma_fundamental_div_mod(rest + chunk - 1, chunk as int);
        vstd::arithmetic::div_mod::lemma_mod_bound(rest + chunk - 1, chunk as int);
        assert(total + chunk - 1 == (q + 1) * chunk + m) by (nonlinear_arith)
            requires
                rest + chunk - 1 == chunk * q + m,
                total == rest + chunk,
        ;
        vstd::arithmetic::div_mod::lemma_fundamental_div_mod_converse(
            total + chunk - 1,
            chunk as int,
            q + 1,
            m,
        );
        assert forall|i: int| 0 <= i < c.len() - 1 implies #[trigger] c[i] == chunk by {
            if i > 0 {
                assert(c[i] == c2[i - 1]);
            }
        }
        assert(c.last() == c2.last());
        assert(chunk * (c.len() - 1) == chunk * (c2.len() - 1) + chunk) by (nonlinear_arith)
            requires
                c.len() == c2.len() + 1,
        ;
    }
}

} // verus!
