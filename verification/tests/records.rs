use rust_os::node::File;
use rust_os::codec::{encode_fields, SECTOR_SIZE, TYPE_FILE};

#[test]
fn record_round_trip() {
    // encoding a file header and decoding it back reproduces name, size
    // and type flag
    let mut f = File::new(7, b"/docs/readme".to_vec());
    f.set_data(b"hi".to_vec());
    let block = f.to_block();
    assert_eq!(block.len(), SECTOR_SIZE);
    assert_eq!(block[156], TYPE_FILE);
    let g = File::from_block(&block, 7);
    assert_eq!(g.name, b"/docs/readme".to_vec());
    assert_eq!(g.size, 2);
    assert_eq!(g.block_id, 7);
}

#[test]
fn checksum_field_matches_recomputation() {
    // the stored checksum equals the header sum taken with the checksum
    // field blanked to spaces
    let mut f = File::new(0, b"/x".to_vec());
    f.set_data(b"abc".to_vec());
    let block = f.to_block();
    let mut sum: u64 = 0;
    for (i, b) in block.iter().enumerate() {
        if i > 147 && i < 155 {
            sum += 32;
        } else {
            sum += *b as u64;
        }
    }
    let stored = std::str::from_utf8(&block[148..154]).unwrap();
    let stored = u64::from_str_radix(stored, 8).unwrap();
    assert_eq!(stored, sum);
    assert_eq!(f.checksum, sum);
}

#[test]
fn magic_sequence_present() {
    let mut f = File::new(0, b"/x".to_vec());
    let block = f.to_block();
    assert_eq!(&block[257..265], b"ustar\x0000");
}

#[test]
fn size_field_is_octal() {
    let mut f = File::new(0, b"/x".to_vec());
    f.set_data(vec![0u8; 513]);
    let block = f.to_block();
    let field = std::str::from_utf8(&block[125..135]).unwrap();
    assert_eq!(u64::from_str_radix(field, 8).unwrap(), 513);
    let (enc, ck) = encode_fields(&f.name, f.size, &f.time, &f.prefix, TYPE_FILE);
    assert_eq!(enc, block);
    assert_eq!(ck, f.checksum);
}
