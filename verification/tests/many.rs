use compression::container::{compress, decompress};
use compression::hamming::{decode, encode, flip_bit};
use compression::utils::{protect, recover};

struct Lcg(u64);

impl Lcg {
    fn next(&mut self) -> u64 {
        self.0 = self.0.wrapping_mul(6364136223846793005).wrapping_add(1442695040888963407);
        self.0 >> 33
    }
}

#[test]
fn many_texts_round_trip() {
    let alphabet: Vec<char> = "abcdefghij klmnopqrstuvwxyz\n0123456789äöüß€日本語🙂".chars().collect();
    let mut rng = Lcg(7);
    for round in 0..200 {
        let symbols = 1 + (rng.next() as usize) % alphabet.len();
        let len = 1 + (rng.next() as usize) % (20 + 10 * round);
        let text: String = (0..len)
            .map(|_| {
                let a = (rng.next() as usize) % symbols;
                let b = (rng.next() as usize) % symbols;
                alphabet[a.min(b)]
            })
            .collect();
        let bytes = compress(&text);
        assert_eq!(decompress(&bytes).unwrap(), text);
    }
}

#[test]
fn many_blocks_survive_one_wrong_bit() {
    let mut rng = Lcg(11);
    for _ in 0..500 {
        let mut block = [0u8; 7];
        for byte in block.iter_mut() {
            *byte = rng.next() as u8;
        }
        let mut code = [0u8; 8];
        code.copy_from_slice(&encode(block));
        assert_eq!(decode(code, true), Ok((Some(block.to_vec()), 0)));
        let at = (rng.next() % 64) as usize;
        let mut noisy = [0u8; 8];
        noisy.copy_from_slice(&flip_bit(code, at));
        assert_eq!(decode(noisy, true), Ok((Some(block.to_vec()), 1)));
    }
}

#[test]
fn many_streams_round_trip() {
    let mut rng = Lcg(13);
    for blocks in 0..40 {
        let bytes: Vec<u8> = (0..7 * blocks).map(|_| rng.next() as u8).collect();
        let out = protect(&bytes).unwrap();
        assert_eq!(out.len(), 8 * blocks);
        assert_eq!(recover(&out, true), Ok((Some(bytes), 0)));
    }
}
