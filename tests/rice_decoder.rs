use rice_decoder::bit_reader::BitReader;
use rice_decoder::error::DecodeError;
use rice_decoder::rice::RiceDecoder;

#[test]
fn it_works() {}

#[test]
fn full_byte_reads_back_unchanged() {
    let buf = [0b1011_0010u8];
    let mut r = BitReader::new(&buf);
    assert_eq!(r.read_bits(8), Ok(0xB2));
    for b in [0x00u8, 0x01, 0x80, 0x7F, 0xFF, 0x5A] {
        let one = [b, 0x33];
        let mut r = BitReader::new(&one);
        assert_eq!(r.read_bits(8), Ok(b as u32));
    }
}

#[test]
fn read_crosses_byte_boundary() {
    let buf = [0xFFu8, 0x01];
    let mut r = BitReader::new(&buf);
    assert_eq!(r.read_bits(9), Ok(0x1FF));
    assert_eq!(r.bits_remaining(), 7);
}

#[test]
fn bits_come_least_significant_first() {
    let buf = [0b0000_0110u8];
    let mut r = BitReader::new(&buf);
    assert_eq!(r.read_bits(1), Ok(0));
    assert_eq!(r.read_bits(1), Ok(1));
    assert_eq!(r.read_bits(2), Ok(0b01));
    assert_eq!(r.read_bits(4), Ok(0));
}

#[test]
fn thirty_two_bit_read() {
    let buf = [0x78u8, 0x56, 0x34, 0x12, 0xAB];
    let mut r = BitReader::new(&buf);
    assert_eq!(r.read_bits(32), Ok(0x1234_5678));
    assert_eq!(r.read_bits(8), Ok(0xAB));
    let mut r = BitReader::new(&buf);
    assert_eq!(r.read_bits(4), Ok(0x8));
    assert_eq!(r.read_bits(32), Ok(0xB123_4567));
}

#[test]
fn zero_width_read() {
    let empty: [u8; 0] = [];
    let mut r = BitReader::new(&empty);
    assert_eq!(r.read_bits(0), Ok(0));
    assert_eq!(r.bits_remaining(), 0);
    let buf = [0xFFu8];
    let mut r = BitReader::new(&buf);
    assert_eq!(r.read_bits(3), Ok(7));
    assert_eq!(r.read_bits(0), Ok(0));
    assert_eq!(r.bits_remaining(), 5);
}

#[test]
fn width_ceiling() {
    let empty: [u8; 0] = [];
    let mut r = BitReader::new(&empty);
    assert_eq!(r.read_bits(33), Err(DecodeError::InvalidBitWidth));
    let buf = [0xFFu8; 16];
    let mut r = BitReader::new(&buf);
    assert_eq!(r.read_bits(33), Err(DecodeError::InvalidBitWidth));
    assert_eq!(r.read_bits(u32::MAX), Err(DecodeError::InvalidBitWidth));
    assert_eq!(r.bits_remaining(), 128);
}

#[test]
fn exhaustion() {
    let empty: [u8; 0] = [];
    let mut r = BitReader::new(&empty);
    assert_eq!(r.read_bits(1), Err(DecodeError::StreamExhausted));
    let buf = [0x01u8];
    let mut r = BitReader::new(&buf);
    assert_eq!(r.read_bits(9), Err(DecodeError::StreamExhausted));
}

#[test]
fn failed_read_keeps_cursor() {
    let buf = [0x01u8];
    let mut r = BitReader::new(&buf);
    assert_eq!(r.read_bits(9), Err(DecodeError::StreamExhausted));
    assert_eq!(r.bits_remaining(), 8);
    assert_eq!(r.read_bits(8), Ok(1));
    assert_eq!(r.bits_remaining(), 0);
}

#[test]
fn bits_remaining_counts_down() {
    let buf = [0xA5u8, 0x3C, 0x0F];
    let mut r = BitReader::new(&buf);
    assert_eq!(r.bits_remaining(), 24);
    assert_eq!(r.read_bits(3), Ok(0b101));
    assert_eq!(r.bits_remaining(), 21);
    assert_eq!(r.read_bits(5), Ok(0b10100));
    assert_eq!(r.bits_remaining(), 16);
    assert_eq!(r.read_bits(10), Ok(0x33C));
    assert_eq!(r.bits_remaining(), 6);
    let mut reads = 0;
    while r.read_bits(1).is_ok() {
        reads += 1;
    }
    assert_eq!(reads, 6);
    assert_eq!(r.read_bits(1), Err(DecodeError::StreamExhausted));
}

#[test]
fn single_bit_reads_match_bits_remaining() {
    let buf = [0x12u8, 0x34, 0x56, 0x78, 0x9A];
    let mut r = BitReader::new(&buf);
    let mut reads = 0u64;
    let remaining = r.bits_remaining();
    while r.read_bits(1).is_ok() {
        reads += 1;
    }
    assert_eq!(reads, remaining);
    assert_eq!(reads, 40);
}

#[test]
fn rice_unary_only() {
    let buf = [0b0000_0111u8];
    let mut d = RiceDecoder::new(&buf, 0);
    assert_eq!(d.read_value(), Ok(3));
    assert_eq!(d.reader().bits_remaining(), 4);
    assert_eq!(d.read_value(), Ok(0));
    assert_eq!(d.k(), 0);
}

#[test]
fn rice_quotient_and_remainder() {
    // quotient 2 (bits 1,1,0), remainder 5 in three bits (1,0,1)
    let buf = [0b0010_1011u8];
    let mut d = RiceDecoder::new(&buf, 3);
    assert_eq!(d.read_value(), Ok((2 << 3) + 5));
    assert_eq!(d.reader().bits_remaining(), 2);
    // quotient 3 (bits 1,1,1,0), remainder 5
    let buf = [0b0101_0111u8];
    let mut d = RiceDecoder::new(&buf, 3);
    assert_eq!(d.read_value(), Ok(29));
}

#[test]
fn rice_sequential_decode() {
    // two codes for 21 with k = 3, then four zero bits
    let buf = [0b1110_1011u8, 0b0000_1010];
    let mut d = RiceDecoder::new(&buf, 3);
    assert_eq!(d.read_value(), Ok(21));
    assert_eq!(d.reader().bits_remaining(), 10);
    assert_eq!(d.read_value(), Ok(21));
    assert_eq!(d.reader().bits_remaining(), 4);
    assert_eq!(d.read_value(), Ok(0));
    assert_eq!(d.reader().bits_remaining(), 0);
    assert_eq!(d.read_value(), Err(DecodeError::StreamExhausted));
    // the second code decodes the same way at the start of a fresh stream
    let alone = [0b0010_1011u8];
    let mut fresh = RiceDecoder::new(&alone, 3);
    assert_eq!(fresh.read_value(), Ok(21));
}

#[test]
fn rice_round_trip_of_written_codes() {
    // k = 2: 6 = q 1, r 2 -> bits 1,0,0,1 ; 1 = q 0, r 1 -> bits 0,1,0 ;
    // 9 = q 2, r 1 -> bits 1,1,0,1,0
    // stream: 1,0,0,1, 0,1,0, 1 | 1,0,1,0
    let buf = [0b1010_1001u8, 0b0000_0101];
    let mut d = RiceDecoder::new(&buf, 2);
    assert_eq!(d.read_value(), Ok(6));
    assert_eq!(d.read_value(), Ok(1));
    assert_eq!(d.read_value(), Ok(9));
    assert_eq!(d.reader().bits_remaining(), 4);
}

#[test]
fn rice_unterminated_prefix_is_exhaustion() {
    let buf = [0xFFu8, 0xFF];
    let mut d = RiceDecoder::new(&buf, 1);
    assert_eq!(d.read_value(), Err(DecodeError::StreamExhausted));
    assert_eq!(d.reader().bits_remaining(), 16);
    let empty: [u8; 0] = [];
    let mut d = RiceDecoder::new(&empty, 0);
    assert_eq!(d.read_value(), Err(DecodeError::StreamExhausted));
}

#[test]
fn rice_short_remainder_is_exhaustion() {
    let buf = [0x00u8];
    let mut d = RiceDecoder::new(&buf, 8);
    assert_eq!(d.read_value(), Err(DecodeError::StreamExhausted));
    assert_eq!(d.reader().bits_remaining(), 8);
    let mut d = RiceDecoder::new(&buf, 7);
    assert_eq!(d.read_value(), Ok(0));
}

#[test]
fn rice_wide_parameter_is_invalid() {
    let buf = [0x00u8; 8];
    let mut d = RiceDecoder::new(&buf, 33);
    assert_eq!(d.read_value(), Err(DecodeError::InvalidBitWidth));
    assert_eq!(d.reader().bits_remaining(), 64);
    // the unary prefix is read first: an unterminated one is reported first
    let ones = [0xFFu8];
    let mut d = RiceDecoder::new(&ones, 33);
    assert_eq!(d.read_value(), Err(DecodeError::StreamExhausted));
}

#[test]
fn rice_largest_values() {
    let buf = [0xFEu8, 0xFF, 0xFF, 0xFF, 0x01];
    let mut d = RiceDecoder::new(&buf, 32);
    assert_eq!(d.read_value(), Ok(u32::MAX));
    assert_eq!(d.reader().bits_remaining(), 7);
    let buf = [0x00u8, 0xFF, 0xFF, 0xFF, 0x01];
    let mut d = RiceDecoder::new(&buf, 32);
    assert_eq!(d.read_value(), Ok(0xFFFF_FF80));
}

#[test]
fn rice_value_overflow() {
    // quotient 1 with k = 32 is 2^32
    let buf = [0x01u8, 0x00, 0x00, 0x00, 0x00];
    let mut d = RiceDecoder::new(&buf, 32);
    assert_eq!(d.read_value(), Err(DecodeError::ValueOverflow));
    assert_eq!(d.reader().bits_remaining(), 40);
    // quotient 2 with k = 31 is 2^32
    let buf = [0x03u8, 0x00, 0x00, 0x00, 0x00];
    let mut d = RiceDecoder::new(&buf, 31);
    assert_eq!(d.read_value(), Err(DecodeError::ValueOverflow));
    // quotient 1 with k = 31 and all-ones remainder is u32::MAX
    let buf = [0xFDu8, 0xFF, 0xFF, 0xFF, 0x01];
    let mut d = RiceDecoder::new(&buf, 31);
    assert_eq!(d.read_value(), Ok(u32::MAX));
}
