//! What the device writes to its UART for a hex dump.
use vstd::prelude::*;

verus! {

/// The lowercase hex digit of a nibble.
pub open spec fn hex_digit(n: u8) -> u8 {
    if n < 10 {
        (0x30u8 + n) as u8
    } else {
        (0x61u8 + n - 10) as u8
    }
}

/// The hex dump of `bytes` as one line: two lowercase digits per byte, high
/// nibble first, then `\r\n`.
pub open spec fn hex_line_spec(bytes: Seq<u8>) -> Seq<u8>
    decreases bytes.len(),
{
    if bytes.len() == 0 {
        seq![0x0Du8, 0x0Au8]
    } else {
        seq![hex_digit(bytes[0] >> 4u8), hex_digit(bytes[0] & 0x0Fu8)] + hex_line_spec(bytes.skip(1))
    }
}

/// The bytes that the hex dump of `bytes` writes to the UART.
pub fn hex_line(bytes: &[u8]) -> (line: Vec<u8>)
    ensures
        line@ == hex_line_spec(bytes@),
{
    let hex: [u8; 16] = [
        0x30, 0x31, 0x32, 0x33, 0x34, 0x35, 0x36, 0x37, 0x38, 0x39, 0x61, 0x62, 0x63, 0x64, 0x65,
        0x66,
    ];
    assert forall|n: u8| n < 16 implies #[trigger] hex@[n as int] == hex_digit(n) by {}
    let mut line: Vec<u8> = Vec::new();
    let mut i: usize = 0;
    assert(bytes@.skip(0) =~= bytes@);
    assert(line@ + hex_line_spec(bytes@) =~= hex_line_spec(bytes@));
    while i < bytes.len()
        invariant
            i <= bytes@.len(),
            forall|n: u8| n < 16 ==> #[trigger] hex@[n as int] == hex_digit(n),
            line@ + hex_line_spec(bytes@.skip(i as int)) == hex_line_spec(bytes@),
        decreases bytes@.len() - i,
    {
        let b = bytes[i];
        let hi = b >> 4u8;
        let lo = b & 0x0Fu8;
        assert(hi < 16 && lo < 16) by (bit_vector)
            requires
                hi == b >> 4u8,
                lo == b & 0x0Fu8,
        ;
        let ghost before = line@;
        line.push(hex[hi as usize]);
        line.push(hex[lo as usize]);
        proof {
            let rest = bytes@.skip(i as int);
            assert(rest[0] == b);
            assert(rest.skip(1) =~= bytes@.skip(i + 1));
            assert(hex_line_spec(rest) == seq![hex_digit(hi), hex_digit(lo)] + hex_line_spec(rest.skip(1)));
            assert(line@ =~= before + seq![hex_digit(hi), hex_digit(lo)]);
            assert(line@ + hex_line_spec(bytes@.skip(i + 1)) =~= before + hex_line_spec(rest));
        }
        i = i + 1;
    }
    let ghost before = line@;
    line.push(0x0D);
    line.push(0x0A);
    assert(bytes@.skip(i as int) =~= Seq::<u8>::empty());
    assert(line@ =~= before + seq![0x0Du8, 0x0Au8]);
    line
}

} // verus!
