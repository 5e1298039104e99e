use std::cell::RefCell;

use dilithium_harness::keystream::{BlockCipher, HardwareAesCounter, BLOCK_SIZE, KEY_SIZE};

/// Hands every block back as it is, and keeps what it was asked to encrypt.
struct Echo {
    asked: RefCell<Vec<[u8; 16]>>,
}

impl Echo {
    fn new() -> Echo {
        Echo { asked: RefCell::new(Vec::new()) }
    }

    fn asked(&self) -> Vec<[u8; 16]> {
        self.asked.borrow().clone()
    }
}

impl BlockCipher for Echo {
    fn encrypt_block(&self, block: &[u8; 16]) -> [u8; 16] {
        self.asked.borrow_mut().push(*block);
        *block
    }
}

/// Adds its key to every byte.
struct Shift {
    key: u8,
}

impl BlockCipher for Shift {
    fn encrypt_block(&self, block: &[u8; 16]) -> [u8; 16] {
        block.map(|b| b.wrapping_add(self.key))
    }
}

fn block(nonce: u16, counter: u16) -> [u8; 16] {
    let mut b: [u8; 16] = [0; 16];
    b[..2].copy_from_slice(&nonce.to_le_bytes());
    b[14..].copy_from_slice(&counter.to_be_bytes());
    b
}

#[test]
fn keystream_sizes() {
    assert_eq!(BLOCK_SIZE, 16);
    assert_eq!(KEY_SIZE, 32);
}

#[test]
fn keystream_starts_with_the_block_of_counter_zero() {
    let cipher: Echo = Echo::new();
    let mut generator: HardwareAesCounter = HardwareAesCounter::new();
    assert_eq!(generator.squeeze(&cipher, 16), vec![0u8; 16]);
    assert_eq!(cipher.asked(), vec![[0u8; 16]]);
}

#[test]
fn keystream_block_holds_nonce_and_counter() {
    let cipher: Echo = Echo::new();
    let mut generator: HardwareAesCounter = HardwareAesCounter::new();
    generator.reset(0x1234);
    let out: Vec<u8> = generator.squeeze(&cipher, 48);
    let expected: Vec<u8> =
        [block(0x1234, 0), block(0x1234, 1), block(0x1234, 2)].concat();
    assert_eq!(expected[..2], [0x34, 0x12]);
    assert_eq!(expected[46..], [0x00, 0x02]);
    assert_eq!(out, expected);
    assert_eq!(cipher.asked(), vec![block(0x1234, 0), block(0x1234, 1), block(0x1234, 2)]);
}

#[test]
fn keystream_counter_is_big_endian() {
    let cipher: Echo = Echo::new();
    let mut generator: HardwareAesCounter = HardwareAesCounter::new();
    generator.reset(1);
    let out: Vec<u8> = generator.squeeze(&cipher, 16 * 258);
    assert_eq!(out[16 * 256..16 * 257], block(1, 256));
    assert_eq!(out[16 * 256 + 14..16 * 256 + 16], [0x01, 0x00]);
    assert_eq!(out[16 * 257 + 14..16 * 257 + 16], [0x01, 0x01]);
    assert_eq!(generator.blocks_left(), u16::MAX - 258);
}

#[test]
fn keystream_encrypts_only_when_a_block_is_used_up() {
    let cipher: Echo = Echo::new();
    let mut generator: HardwareAesCounter = HardwareAesCounter::new();
    assert_eq!(generator.squeeze(&cipher, 0), Vec::<u8>::new());
    assert!(cipher.asked().is_empty());
    generator.squeeze(&cipher, 1);
    assert_eq!(cipher.asked().len(), 1);
    generator.squeeze(&cipher, 15);
    assert_eq!(cipher.asked().len(), 1);
    generator.squeeze(&cipher, 1);
    assert_eq!(cipher.asked().len(), 2);
    generator.squeeze(&cipher, 32);
    assert_eq!(cipher.asked().len(), 4);
    assert_eq!(generator.blocks_left(), u16::MAX - 4);
}

#[test]
fn keystream_in_pieces_is_the_same_stream() {
    let mut whole: HardwareAesCounter = HardwareAesCounter::new();
    whole.reset(77);
    let expected: Vec<u8> = whole.squeeze(&Shift { key: 3 }, 100);
    let mut pieces: HardwareAesCounter = HardwareAesCounter::new();
    pieces.reset(77);
    let cipher: Shift = Shift { key: 3 };
    let mut out: Vec<u8> = Vec::new();
    for n in [1usize, 0, 15, 16, 17, 3, 48] {
        out.extend(pieces.squeeze(&cipher, n));
    }
    assert_eq!(out, expected);
    assert_eq!(expected[0], 77 + 3);
    assert_eq!(expected[1], 3);
    assert_eq!(expected[31], 1 + 3);
}

#[test]
fn keystream_reset_starts_a_new_stream() {
    let cipher: Echo = Echo::new();
    let mut generator: HardwareAesCounter = HardwareAesCounter::new();
    generator.reset(5);
    generator.squeeze(&cipher, 20);
    assert_eq!(generator.blocks_left(), u16::MAX - 2);
    generator.reset(6);
    assert_eq!(generator.blocks_left(), u16::MAX);
    assert_eq!(generator.squeeze(&cipher, 16), block(6, 0).to_vec());
    assert_eq!(cipher.asked(), vec![block(5, 0), block(5, 1), block(6, 0)]);
}

#[test]
fn keystream_step_by_step() {
    let mut generator: HardwareAesCounter = HardwareAesCounter::new();
    generator.reset(0xabcd);
    assert_eq!(generator.buffered(), 0);
    assert_eq!(generator.pending_block(), Some(block(0xabcd, 0)));
    let mut encrypted: [u8; 16] = [0; 16];
    for (i, b) in encrypted.iter_mut().enumerate() {
        *b = 100 + i as u8;
    }
    generator.refill(encrypted);
    assert_eq!(generator.buffered(), 16);
    assert_eq!(generator.pending_block(), None);
    for i in 0..16u8 {
        assert_eq!(generator.pending_block(), None);
        assert_eq!(generator.next_byte(), 100 + i);
    }
    assert_eq!(generator.pending_block(), Some(block(0xabcd, 1)));
    assert_eq!(generator.blocks_left(), u16::MAX - 1);
}

#[test]
fn keystream_ends_with_the_block_counter() {
    let cipher: Shift = Shift { key: 1 };
    let mut generator: HardwareAesCounter = HardwareAesCounter::new();
    assert!(generator.can_squeeze(16 * 65535));
    assert!(!generator.can_squeeze(16 * 65535 + 1));
    assert!(generator.can_squeeze(0));
    assert!(!generator.can_squeeze(usize::MAX));
    let all: Vec<u8> = generator.try_squeeze(&cipher, 16 * 65535).unwrap();
    assert_eq!(all.len(), 16 * 65535);
    assert_eq!(all[16 * 65534 + 14..], [0x00, 0xff]);
    assert_eq!(generator.blocks_left(), 0);
    assert!(generator.can_squeeze(0));
    assert!(!generator.can_squeeze(1));
    assert_eq!(generator.try_squeeze(&cipher, 1), None);
    assert_eq!(generator.try_squeeze(&cipher, 0), Some(Vec::new()));
    generator.reset(9);
    assert_eq!(generator.try_squeeze(&cipher, 3), Some(vec![10, 1, 1]));
    assert!(generator.can_squeeze(13));
    assert!(generator.can_squeeze(13 + 16 * 65534));
    assert!(!generator.can_squeeze(14 + 16 * 65534));
}
