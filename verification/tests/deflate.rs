//! The parts of the zlib decoder, and what holds of whole streams.
use qoder_statusline::adler::adler32;
use qoder_statusline::bits::Bits;
use qoder_statusline::block::{decode_block, stored, Flow};
use qoder_statusline::huffman::Huffman;
use qoder_statusline::inflate::zlib_decompress;
use qoder_statusline::tables::{dynamic_tables, fixed_tables};

/// `aaaaaaaaaa` in a block with the fixed codes: a literal and a repetition.
const FIXED: &[u8] = &[75, 76, 132, 1, 0];

/// A block that brings its own codes, and what it holds.
const DYNAMIC: &[u8] = &[
    21, 203, 201, 17, 192, 64, 16, 194, 192, 88, 97, 184, 242, 143, 192, 235, 175, 170, 165, 203,
    136, 89, 218, 122, 186, 130, 7, 195, 107, 187, 11, 113, 147, 235, 54, 85, 224, 87, 100, 147, 27,
    195, 62, 217, 18, 104, 172, 55, 145, 80, 237, 67, 146, 123, 123, 233, 254, 179, 243, 4, 158, 206,
    18, 15, 64, 252, 1,
];
const DYNAMIC_TEXT: &str = "dcfhbaheddhhgcdcgabcaeaehggghcfbachdegeggfgdfaecfbdeebbhhbfbgcaeggbaagfedaeabbadgeecafffcgghgbegdegeefagfagcafhffehaaafe";

/// A whole stream around a block.
fn stream(block: &[u8], output: &[u8]) -> Vec<u8> {
    let mut data = vec![0x78, 0x9c];
    data.extend_from_slice(block);
    data.extend_from_slice(&adler32(output).to_be_bytes());
    data
}

/// A stream with one stored block.
fn stored_stream(output: &[u8]) -> Vec<u8> {
    let len = output.len() as u16;
    let mut block = vec![1u8];
    block.extend_from_slice(&len.to_le_bytes());
    block.extend_from_slice(&(!len).to_le_bytes());
    block.extend_from_slice(output);
    stream(&block, output)
}

#[test]
fn bits_come_lowest_first() {
    let data = [0b1011_0010, 0xff];
    let mut bits = Bits::new(&data);
    assert_eq!(bits.get(3), Some(0b010));
    assert_eq!(bits.get(4), Some(0b0110));
    assert_eq!(bits.get(0), Some(0));
    assert_eq!(bits.get(9), Some(0b1_1111_1111));
    assert_eq!(bits.get(1), None);
}

#[test]
fn bytes_follow_after_alignment() {
    let data = [0xff, 1, 2, 3];
    let mut bits = Bits::new(&data);
    assert_eq!(bits.get(3), Some(7));
    bits.align();
    assert_eq!(bits.take_bytes(2), Some(&[1u8, 2][..]));
    bits.align();
    assert_eq!(bits.take_bytes(2), None);
    assert_eq!(bits.take_bytes(1), Some(&[3u8][..]));
    assert_eq!(bits.take_bytes(0), Some(&[][..]));
}

#[test]
fn codes_are_assigned_in_order() {
    // 0 for symbol 1, 10 for symbol 0, 110 and 111 for symbols 2 and 3
    let table = Huffman::build(&[2, 1, 3, 3]).unwrap();
    let data = [0b1101_1010, 0b0000_0001];
    let mut bits = Bits::new(&data);
    assert_eq!(table.decode(&mut bits), Some(1));
    assert_eq!(table.decode(&mut bits), Some(0));
    assert_eq!(table.decode(&mut bits), Some(2));
    assert_eq!(table.decode(&mut bits), Some(3));
    assert_eq!(table.decode(&mut bits), Some(1));
}

#[test]
fn codes_need_room() {
    assert!(Huffman::build(&[1, 1, 1]).is_none());
    assert!(Huffman::build(&[1, 2, 2, 2]).is_none());
    assert!(Huffman::build(&[1, 1]).is_some());
    assert!(Huffman::build(&[]).is_some());
    // a code that no symbol has, and one that the data cuts off
    let table = Huffman::build(&[1]).unwrap();
    let data = [0xff, 0xff];
    assert_eq!(table.decode(&mut Bits::new(&data)), None);
    assert_eq!(table.decode(&mut Bits::new(&[])), None);
}

#[test]
fn fixed_codes() {
    let (lit, dist) = fixed_tables();
    // 10010001 for the literal 97
    assert_eq!(lit.decode(&mut Bits::new(&[0b1000_1001])), Some(97));
    // 0000000 for the end of a block
    assert_eq!(lit.decode(&mut Bits::new(&[0])), Some(256));
    // 00011 for the distance symbol 3
    assert_eq!(dist.decode(&mut Bits::new(&[0b0001_1000])), Some(3));
}

#[test]
fn fixed_block_decodes() {
    let (lit, dist) = fixed_tables();
    let mut bits = Bits::new(FIXED);
    assert_eq!(bits.get(3), Some(3));
    let mut out = Vec::new();
    let flow = decode_block(&mut bits, &lit, &dist, &mut out, 100);
    assert!(matches!(flow, Some(Flow::Continue)));
    assert_eq!(out, b"aaaaaaaaaa");
    assert_eq!(zlib_decompress(&stream(FIXED, &out), 100).unwrap(), out);
}

#[test]
fn block_stops_at_the_limit() {
    let (lit, dist) = fixed_tables();
    let mut bits = Bits::new(FIXED);
    assert_eq!(bits.get(3), Some(3));
    let mut out = Vec::new();
    let flow = decode_block(&mut bits, &lit, &dist, &mut out, 4);
    assert!(matches!(flow, Some(Flow::Capped)));
    assert_eq!(out, b"aaaa");
}

#[test]
fn dynamic_block_decodes() {
    let mut bits = Bits::new(DYNAMIC);
    assert_eq!(bits.get(3), Some(5));
    let (lit, dist) = dynamic_tables(&mut bits).unwrap();
    let mut out = Vec::new();
    assert!(matches!(decode_block(&mut bits, &lit, &dist, &mut out, 1000), Some(Flow::Continue)));
    assert_eq!(String::from_utf8(out).unwrap(), DYNAMIC_TEXT);
    let whole = zlib_decompress(&stream(DYNAMIC, DYNAMIC_TEXT.as_bytes()), 1000).unwrap();
    assert_eq!(whole, DYNAMIC_TEXT.as_bytes());
}

#[test]
fn tables_that_are_cut_off() {
    for n in 0..10 {
        let mut bits = Bits::new(&DYNAMIC[..n]);
        if bits.get(3).is_some() {
            assert!(dynamic_tables(&mut bits).is_none());
        }
    }
}

#[test]
fn stored_block_is_copied() {
    let data = [3, 0, 0xfc, 0xff, 7, 8, 9];
    let mut out = vec![1];
    assert!(matches!(stored(&mut Bits::new(&data), &mut out, 100), Some(Flow::Continue)));
    assert_eq!(out, [1, 7, 8, 9]);

    let mut out = vec![1];
    assert!(matches!(stored(&mut Bits::new(&data), &mut out, 3), Some(Flow::Capped)));
    assert_eq!(out, [1, 7, 8]);
}

#[test]
fn stored_block_checks_its_length() {
    let mut out = Vec::new();
    assert!(stored(&mut Bits::new(&[3, 0, 0xfd, 0xff, 7, 8, 9]), &mut out, 100).is_none());
    assert!(stored(&mut Bits::new(&[3, 0, 0xfc, 0xff, 7, 8]), &mut out, 100).is_none());
    assert!(stored(&mut Bits::new(&[3, 0, 0xfc]), &mut out, 100).is_none());
}

#[test]
fn repetition_needs_what_it_repeats() {
    // the repetition of FIXED without the two literals before it
    let (lit, dist) = fixed_tables();
    let mut bits = Bits::new(FIXED);
    assert_eq!(bits.get(19), Some(0b1000_1001 << 11 | 0b1000_1001 << 3 | 3));
    let mut out = Vec::new();
    assert!(decode_block(&mut bits, &lit, &dist, &mut out, 100).is_none());
}

#[test]
fn checksums() {
    assert_eq!(adler32(b"Wikipedia"), 0x11e6_0398);
    assert_eq!(adler32(b""), 1);
    assert_eq!(adler32(&[0xff; 6000]), 0xa497_59ea);
    assert_eq!(adler32(&[0xff; 1]), 0x0100_0100);
}

#[test]
fn streams_need_their_header() {
    assert!(zlib_decompress(&[], 10).is_none());
    assert!(zlib_decompress(&[0x78], 10).is_none());
    // another method of compression
    assert!(zlib_decompress(&[0x79, 0x9c, 3, 0], 10).is_none());
    // a preset dictionary
    assert!(zlib_decompress(&[0x78, 0xbc, 3, 0], 10).is_none());
    assert_eq!(zlib_decompress(&[0x78, 0x9c, 3, 0], 10).unwrap(), b"");
    // a type of block that there is not
    assert!(zlib_decompress(&[0x78, 0x9c, 7, 0], 10).is_none());
}

#[test]
fn limit_gives_the_start() {
    let all = DYNAMIC_TEXT.as_bytes();
    let data = stream(DYNAMIC, all);
    for max in 0..=all.len() + 1 {
        assert_eq!(zlib_decompress(&data, max).unwrap(), &all[..max.min(all.len())]);
    }
    let data = stored_stream(b"hello");
    for max in 0..=6 {
        assert_eq!(zlib_decompress(&data, max).unwrap(), &b"hello"[..max.min(5)]);
    }
}

#[test]
fn limit_is_never_passed() {
    // one literal and the end of the block, at a limit of nothing
    assert_eq!(zlib_decompress(&[0x78, 0x9c, 0x4b, 0x04, 0x00], 0).unwrap(), b"");
    assert_eq!(zlib_decompress(&[0x78, 0x9c, 0x4b, 0x04, 0x00], 1).unwrap(), b"a");
    // a stored block that fills the limit, then a compressed one
    for compressed in [FIXED, DYNAMIC] {
        let mut data = vec![0x78, 0x9c, 0, 2, 0, 0xfd, 0xff, b'x', b'y'];
        data.extend_from_slice(compressed);
        assert_eq!(zlib_decompress(&data, 2).unwrap(), b"xy");
        assert_eq!(zlib_decompress(&data, 3).unwrap().len(), 3);
    }
}

#[test]
fn block_at_the_limit_puts_nothing_out() {
    let (lit, dist) = fixed_tables();
    let mut bits = Bits::new(FIXED);
    assert_eq!(bits.get(3), Some(3));
    let mut out = vec![1, 2];
    assert!(matches!(decode_block(&mut bits, &lit, &dist, &mut out, 2), Some(Flow::Capped)));
    assert_eq!(out, [1, 2]);
}

#[test]
fn fault_keeps_what_came_before() {
    let (lit, dist) = fixed_tables();
    // a copy of three bytes from one byte back, with nothing to copy from
    let mut out = Vec::new();
    assert!(decode_block(&mut Bits::new(&[0x40, 0x00]), &lit, &dist, &mut out, 100).is_none());
    assert_eq!(out, b"");
    // two literals, and then the data ends
    let mut bits = Bits::new(&FIXED[..3]);
    assert_eq!(bits.get(3), Some(3));
    assert!(decode_block(&mut bits, &lit, &dist, &mut out, 100).is_none());
    assert_eq!(out, b"aa");
}

#[test]
fn more_bytes_change_nothing() {
    let all = DYNAMIC_TEXT.as_bytes();
    let mut data = stream(DYNAMIC, all);
    data.extend_from_slice(b"what comes next in a pack");
    assert_eq!(zlib_decompress(&data, 1000).unwrap(), all);
}

#[test]
fn fewer_bytes_give_nothing_else() {
    let all = DYNAMIC_TEXT.as_bytes();
    let data = stream(DYNAMIC, all);
    for n in 0..data.len() {
        let out = zlib_decompress(&data[..n], 1000);
        if n < 2 + DYNAMIC.len() {
            assert!(out.is_none());
        } else {
            // the checksum alone is cut off
            assert_eq!(out.unwrap(), all);
        }
    }
}

#[test]
fn several_blocks_follow_each_other() {
    // a stored block that is not the last, then one with the fixed codes
    let mut block = vec![0u8, 2, 0, 0xfd, 0xff, b'x', b'a'];
    block.extend_from_slice(FIXED);
    let output = b"xaaaaaaaaaaa";
    assert_eq!(zlib_decompress(&stream(&block, output), 100).unwrap(), output);
}

/// Bits as a compressor puts them into bytes.
struct Writer {
    bytes: Vec<u8>,
    n: usize,
}

impl Writer {
    fn bit(&mut self, bit: u32) {
        if self.n % 8 == 0 {
            self.bytes.push(0);
        }
        *self.bytes.last_mut().unwrap() |= (bit as u8) << (self.n % 8);
        self.n += 1;
    }

    /// A number, the lowest bit first.
    fn number(&mut self, value: u32, n: u32) {
        for i in 0..n {
            self.bit(value >> i & 1);
        }
    }

    /// A code, the highest bit first.
    fn code(&mut self, code: &str) {
        for c in code.chars() {
            self.bit(u32::from(c == '1'));
        }
    }
}

#[test]
fn codes_are_written_and_read() {
    let mut w = Writer { bytes: Vec::new(), n: 0 };
    w.number(1, 1);
    w.number(2, 2);
    // 257 lengths of the one code, 4 of the other, 18 of the code length code
    w.number(0, 5);
    w.number(3, 5);
    w.number(14, 4);
    for symbol in [16, 17, 18, 0, 8, 7, 9, 6, 10, 5, 11, 4, 12, 3, 13, 2, 14, 1] {
        w.number(
            match symbol {
                16 | 17 | 18 => 2,
                1 | 2 => 3,
                _ => 0,
            },
            3,
        );
    }
    let (again, zeros, many_zeros, one, two) = ("00", "01", "10", "110", "111");
    // nothing up to the letter a, then nothing up to the end of the block
    w.code(many_zeros);
    w.number(97 - 11, 7);
    w.code(one);
    w.code(many_zeros);
    w.number(138 - 11, 7);
    for _ in 0..2 {
        w.code(zeros);
        w.number(10 - 3, 3);
    }
    w.code(one);
    // four distances
    w.code(two);
    w.code(again);
    w.number(0, 2);
    // the letter three times, and the end
    w.code("0001");
    assert_eq!(zlib_decompress(&stream(&w.bytes, b"aaa"), 10).unwrap(), b"aaa");

    let mut bits = Bits::new(&w.bytes);
    assert_eq!(bits.get(3), Some(5));
    let (lit, dist) = dynamic_tables(&mut bits).unwrap();
    assert_eq!(lit.decode(&mut bits), Some(97));
    assert_eq!(dist.decode(&mut Bits::new(&[0b01])), Some(2));
}
