//! A counter-mode keystream: the bookkeeping around a block cipher that runs
//! elsewhere.
//!
//! The generator has one block encrypted per value of a 16-bit block counter
//! and hands the result out byte by byte. The block that is encrypted holds
//! the nonce in its first two bytes, the low byte first, and the block counter
//! in its last two bytes, the high byte first.

use vstd::prelude::*;

verus! {

/// The number of bytes of a cipher block.
pub const BLOCK_SIZE: usize = 16;

/// The number of bytes of a cipher key.
pub const KEY_SIZE: usize = 32;

/// A block cipher that encrypts single blocks under the key it was made with.
pub trait BlockCipher {
    /// Encrypts one block.
    fn encrypt_block(&self, block: &[u8; 16]) -> [u8; 16];
}

/// The block that is encrypted for the block counter `counter` under `nonce`.
pub open spec fn counter_block(nonce: u16, counter: u16) -> [u8; 16] {
    [
        (nonce % 256) as u8,
        (nonce / 256) as u8,
        0u8,
        0u8,
        0u8,
        0u8,
        0u8,
        0u8,
        0u8,
        0u8,
        0u8,
        0u8,
        0u8,
        0u8,
        (counter / 256) as u8,
        (counter % 256) as u8,
    ]
}

/// How many blocks must be encrypted to hand out `count` bytes when `offset`
/// bytes of the current block are used up.
pub open spec fn refills(offset: int, count: int) -> int {
    if count == 0 {
        0
    } else {
        (offset + count - 1) / (BLOCK_SIZE as int)
    }
}

/// How many bytes of the current block are used up after `count` bytes were
/// handed out, when `offset` of them were used up before.
pub open spec fn offset_after(offset: int, count: int) -> int {
    if count == 0 {
        offset
    } else {
        (offset + count - 1) % (BLOCK_SIZE as int) + 1
    }
}

/// The bytes of some blocks, block after block.
pub open spec fn bytes_of(blocks: Seq<[u8; 16]>) -> Seq<u8> {
    Seq::new(blocks.len() * BLOCK_SIZE as nat, |i: int| blocks[i / 16]@[i % 16])
}

/// Whether `answers` can be what `cipher` makes of the blocks of `nonce` from
/// the block counter `first` on.
pub open spec fn answers_to<E: BlockCipher>(
    cipher: &E,
    nonce: u16,
    first: u16,
    answers: Seq<[u8; 16]>,
) -> bool {
    forall|t: int|
        0 <= t < answers.len() ==> call_ensures(
            E::encrypt_block,
            (cipher, &counter_block(nonce, (first + t) as u16)),
            #[trigger] answers[t],
        )
}

/// Whether two ciphers make the same of every block.
pub open spec fn same_cipher<E1: BlockCipher, E2: BlockCipher>(first: &E1, second: &E2) -> bool {
    forall|block: [u8; 16], x: [u8; 16], y: [u8; 16]|
        #![trigger
            call_ensures(E1::encrypt_block, (first, &block), x),
            call_ensures(E2::encrypt_block, (second, &block), y),
        ]
        call_ensures(E1::encrypt_block, (first, &block), x) && call_ensures(
            E2::encrypt_block,
            (second, &block),
            y,
        ) ==> x == y
}

/// Two ciphers that make the same of every block give the same stream for
/// the same nonce: which of them encrypts the blocks does not show in the
/// bytes handed out.
pub proof fn lemma_same_cipher_same_stream<E1: BlockCipher, E2: BlockCipher>(
    first: &E1,
    second: &E2,
    nonce: u16,
    counter: u16,
    one: Seq<[u8; 16]>,
    other: Seq<[u8; 16]>,
)
    requires
        same_cipher(first, second),
        answers_to(first, nonce, counter, one),
        answers_to(second, nonce, counter, other),
        one.len() == other.len(),
    ensures
        one == other,
        bytes_of(one) == bytes_of(other),
{
    assert forall|t: int| 0 <= t < one.len() implies one[t] == other[t] by {
        let block = counter_block(nonce, (counter + t) as u16);
        assert(call_ensures(E1::encrypt_block, (first, &block), one[t]));
        assert(call_ensures(E2::encrypt_block, (second, &block), other[t]));
    }
    assert(one =~= other);
}

/// The state of a generator.
pub struct KeystreamView {
    /// The nonce of the stream.
    pub nonce: u16,
    /// The number of blocks encrypted since the nonce was set.
    pub counter: u16,
    /// The block last encrypted.
    pub buffer: Seq<u8>,
    /// The number of bytes of `buffer` that were handed out.
    pub offset: int,
}

impl KeystreamView {
    /// The bytes of the current block that were not handed out.
    pub open spec fn unread(self) -> Seq<u8> {
        self.buffer.skip(self.offset)
    }
}

/// The state of a counter-mode keystream generator. The cipher that encrypts
/// its blocks is handed to it with each request.
pub struct HardwareAesCounter {
    nonce: u16,
    counter: u16,
    buf: [u8; 16],
    i: usize,
}

impl View for HardwareAesCounter {
    type V = KeystreamView;

    closed spec fn view(&self) -> KeystreamView {
        KeystreamView {
            nonce: self.nonce,
            counter: self.counter,
            buffer: self.buf@,
            offset: self.i as int,
        }
    }
}

impl HardwareAesCounter {
    #[verifier::type_invariant]
    spec fn well_formed(self) -> bool {
        self.i <= BLOCK_SIZE
    }

    /// A generator with nonce zero, at the start of its stream.
    pub fn new() -> (g: Self)
        ensures
            g@.nonce == 0,
            g@.counter == 0,
            g@.offset == BLOCK_SIZE,
            g@.buffer == Seq::new(BLOCK_SIZE as nat, |j: int| 0u8),
    {
        let g = HardwareAesCounter { nonce: 0, counter: 0, buf: [0u8; 16], i: BLOCK_SIZE };
        assert(g.buf@ =~= Seq::new(BLOCK_SIZE as nat, |j: int| 0u8));
        g
    }

    /// Starts the stream of `nonce` from its first block.
    pub fn reset(&mut self, nonce: u16)
        ensures
            final(self)@ == (KeystreamView {
                nonce,
                counter: 0,
                buffer: old(self)@.buffer,
                offset: BLOCK_SIZE as int,
            }),
    {
        proof {
            use_type_invariant(&*self);
        }
        self.nonce = nonce;
        self.counter = 0;
        self.i = BLOCK_SIZE;
    }

    /// The number of blocks that can still be encrypted before the block
    /// counter is used up.
    pub fn blocks_left(&self) -> (n: u16)
        ensures
            n == u16::MAX - self@.counter,
    {
        u16::MAX - self.counter
    }

    /// The number of bytes of the current block that were not handed out.
    pub fn buffered(&self) -> (n: usize)
        ensures
            n == BLOCK_SIZE - self@.offset,
            0 <= self@.offset <= BLOCK_SIZE,
            self@.buffer.len() == BLOCK_SIZE,
    {
        proof {
            use_type_invariant(self);
        }
        BLOCK_SIZE - self.i
    }

    /// Tells whether the block counter lasts for `count` more bytes.
    pub fn can_squeeze(&self, count: usize) -> (r: bool)
        ensures
            r == (refills(self@.offset, count as int) <= u16::MAX - self@.counter),
    {
        proof {
            use_type_invariant(self);
        }
        if count == 0 {
            return true;
        }
        let more: usize = count - 1;
        let blocks: usize = more / BLOCK_SIZE + (self.i + more % BLOCK_SIZE) / BLOCK_SIZE;
        assert(blocks == (self.i + more) / 16);
        blocks <= (u16::MAX - self.counter) as usize
    }

    /// The block to encrypt next, if the current block is used up.
    pub fn pending_block(&self) -> (r: Option<[u8; 16]>)
        ensures
            r == if self@.offset == BLOCK_SIZE {
                Some(counter_block(self@.nonce, self@.counter))
            } else {
                None
            },
    {
        if self.i == BLOCK_SIZE {
            let block: [u8; 16] = [
                (self.nonce % 256) as u8,
                (self.nonce / 256) as u8,
                0,
                0,
                0,
                0,
                0,
                0,
                0,
                0,
                0,
                0,
                0,
                0,
                (self.counter / 256) as u8,
                (self.counter % 256) as u8,
            ];
            assert(block@ =~= counter_block(self.nonce, self.counter)@);
            Some(block)
        } else {
            None
        }
    }

    /// Takes in the encryption of the pending block.
    pub fn refill(&mut self, encrypted: [u8; 16])
        requires
            old(self)@.offset == BLOCK_SIZE,
            old(self)@.counter < u16::MAX,
        ensures
            final(self)@ == (KeystreamView {
                nonce: old(self)@.nonce,
                counter: (old(self)@.counter + 1) as u16,
                buffer: encrypted@,
                offset: 0,
            }),
    {
        proof {
            use_type_invariant(&*self);
        }
        self.buf = encrypted;
        self.counter = self.counter + 1;
        self.i = 0;
    }

    /// Hands out the next byte of the current block.
    pub fn next_byte(&mut self) -> (b: u8)
        requires
            old(self)@.offset < BLOCK_SIZE,
        ensures
            0 <= old(self)@.offset,
            b == old(self)@.buffer[old(self)@.offset],
            final(self)@ == (KeystreamView { offset: old(self)@.offset + 1, ..old(self)@ }),
    {
        proof {
            use_type_invariant(&*self);
        }
        let b: u8 = self.buf[self.i];
        self.i = self.i + 1;
        b
    }

    /// Hands out the next `count` bytes of the stream as `squeeze` does, if
    /// the block counter lasts for them, and nothing otherwise.
    pub fn try_squeeze<E: BlockCipher>(&mut self, cipher: &E, count: usize) -> (r: Option<Vec<u8>>)
        ensures
            r is Some <==> refills(old(self)@.offset, count as int) <= u16::MAX - old(
                self,
            )@.counter,
            r is None ==> final(self)@ == old(self)@,
            r matches Some(out) ==> {
                &&& out@.len() == count
                &&& final(self)@.nonce == old(self)@.nonce
                &&& final(self)@.counter == old(self)@.counter + refills(
                    old(self)@.offset,
                    count as int,
                )
                &&& final(self)@.offset == offset_after(old(self)@.offset, count as int)
                &&& exists|answers: Seq<[u8; 16]>|
                    {
                        &&& answers.len() == refills(old(self)@.offset, count as int)
                        &&& #[trigger] answers_to(
                            cipher,
                            old(self)@.nonce,
                            old(self)@.counter,
                            answers,
                        )
                        &&& out@ == (old(self)@.unread() + bytes_of(answers)).take(count as int)
                        &&& final(self)@.buffer == if answers.len() == 0 {
                            old(self)@.buffer
                        } else {
                            answers.last()@
                        }
                    }
            },
    {
        if self.can_squeeze(count) {
            Some(self.squeeze(cipher, count))
        } else {
            None
        }
    }

    /// Hands out the next `count` bytes of the stream: what is left of the
    /// current block first, then block after block as `cipher` encrypts them,
    /// each block once and in the order of the block counter.
    pub fn squeeze<E: BlockCipher>(&mut self, cipher: &E, count: usize) -> (out: Vec<u8>)
        requires
            refills(old(self)@.offset, count as int) <= u16::MAX - old(self)@.counter,
        ensures
            out@.len() == count,
            final(self)@.nonce == old(self)@.nonce,
            final(self)@.counter == old(self)@.counter + refills(
                old(self)@.offset,
                count as int,
            ),
            final(self)@.offset == offset_after(old(self)@.offset, count as int),
            exists|answers: Seq<[u8; 16]>|
                {
                    &&& answers.len() == refills(old(self)@.offset, count as int)
                    &&& #[trigger] answers_to(
                        cipher,
                        old(self)@.nonce,
                        old(self)@.counter,
                        answers,
                    )
                    &&& out@ == (old(self)@.unread() + bytes_of(answers)).take(count as int)
                    &&& final(self)@.buffer == if answers.len() == 0 {
                        old(self)@.buffer
                    } else {
                        answers.last()@
                    }
                },
    {
        proof {
            use_type_invariant(&*self);
        }
        let ghost start = self@;
        let ghost mut answers: Seq<[u8; 16]> = Seq::empty();
        let mut out: Vec<u8> = Vec::new();
        let mut j: usize = 0;
        proof {
            assert(out@ =~= (start.unread() + bytes_of(answers)).take(0));
        }
        while j < count
            invariant
                j <= count,
                0 <= start.offset <= BLOCK_SIZE,
                start.buffer.len() == BLOCK_SIZE,
                refills(start.offset, count as int) <= u16::MAX - start.counter,
                self@.nonce == start.nonce,
                self@.counter == start.counter + refills(start.offset, j as int),
                self@.offset == offset_after(start.offset, j as int),
                self@.buffer.len() == BLOCK_SIZE,
                answers.len() == refills(start.offset, j as int),
                answers_to(cipher, start.nonce, start.counter, answers),
                out@ == (start.unread() + bytes_of(answers)).take(j as int),
                self@.buffer == if answers.len() == 0 {
                    start.buffer
                } else {
                    answers.last()@
                },
            decreases count - j,
        {
            let ghost stream = start.unread() + bytes_of(answers);
            let ghost before = answers;
            match self.pending_block() {
                Some(block) => {
                    let encrypted = cipher.encrypt_block(&block);
                    self.refill(encrypted);
                    proof {
                        answers = before.push(encrypted);
                        assert forall|t: int| 0 <= t < answers.len() implies call_ensures(
                            E::encrypt_block,
                            (cipher, &counter_block(start.nonce, (start.counter + t) as u16)),
                            #[trigger] answers[t],
                        ) by {
                            if t < before.len() {
                                assert(answers[t] == before[t]);
                            }
                        }
                    }
                },
                None => {},
            }
            let b: u8 = self.next_byte();
            proof {
                let longer = start.unread() + bytes_of(answers);
                let at = j as int;
                assert(stream.len() >= at);
                assert forall|t: int| 0 <= t < at implies longer[t] == stream[t] by {
                    if t >= start.unread().len() {
                        let u = t - start.unread().len();
                        assert(bytes_of(answers)[u] == answers[u / 16]@[u % 16]);
                        assert(bytes_of(before)[u] == before[u / 16]@[u % 16]);
                        assert(u / 16 < before.len());
                    }
                }
                assert(longer.len() > at);
                if at >= start.unread().len() {
                    let u = at - start.unread().len();
                    assert(u / 16 == answers.len() - 1);
                    assert(bytes_of(answers)[u] == answers[u / 16]@[u % 16]);
                }
                assert(longer[at] == b);
                assert(longer.take(at + 1) =~= stream.take(at).push(b));
            }
            out.push(b);
            j = j + 1;
        }
        out
    }
}

} // verus!
