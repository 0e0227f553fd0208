//! zlib streams as `zlib` and git write them.
use qoder_statusline::inflate::zlib_decompress;

const REAL: &[u8] = &[
    120, 1, 13, 140, 65, 10, 195, 32, 16, 0, 123, 246, 21, 123, 47, 136, 70, 99, 54, 80, 74, 75,
    15, 125, 135, 110, 54, 198, 196, 52, 37, 145, 66, 251, 250, 122, 26, 24, 152, 41, 62, 130,
    182, 253, 105, 11, 51, 83, 1, 107, 201, 40, 203, 132, 118, 104, 199, 48, 96, 139, 72, 218,
    143, 24, 168, 211, 65, 243, 16, 122, 231, 140, 65, 37, 202, 247, 205, 64, 219, 186, 166, 34,
    74, 125, 124, 26, 169, 100, 213, 62, 70, 222, 225, 49, 37, 90, 248, 149, 103, 184, 84, 200,
    60, 203, 233, 119, 139, 171, 79, 89, 214, 230, 10, 186, 67, 227, 218, 166, 119, 29, 156, 21,
    42, 37, 68, 205, 97, 76, 251, 81, 224, 121, 135, 157, 51, 251, 131, 197, 31, 139, 161, 46,
    180,
];
const L0: &[u8] = &[
    120, 1, 1, 123, 0, 132, 255, 111, 98, 106, 101, 99, 116, 32, 49, 98, 56, 101, 51, 100, 99,
    100, 50, 51, 51, 56, 53, 53, 48, 97, 101, 53, 49, 57, 56, 98, 100, 98, 50, 97, 55, 98, 97,
    101, 53, 54, 100, 102, 53, 98, 102, 50, 101, 48, 10, 116, 121, 112, 101, 32, 116, 97, 103,
    10, 116, 97, 103, 32, 118, 50, 46, 48, 46, 51, 10, 116, 97, 103, 103, 101, 114, 32, 83, 111,
    109, 101, 111, 110, 101, 32, 60, 97, 64, 98, 46, 99, 62, 32, 49, 55, 53, 53, 48, 48, 48, 48,
    48, 48, 32, 43, 48, 56, 48, 48, 10, 10, 114, 101, 108, 101, 97, 115, 101, 32, 50, 46, 48,
    46, 51, 10, 247, 212, 35, 18,
];
const L1: &[u8] = &[
    120, 1, 37, 203, 65, 10, 194, 48, 16, 70, 225, 125, 78, 49, 123, 33, 76, 18, 198, 70, 16,
    241, 14, 158, 96, 38, 249, 27, 16, 53, 210, 6, 193, 219, 139, 237, 91, 125, 155, 215, 237,
    142, 50, 40, 88, 70, 170, 165, 198, 148, 178, 8, 43, 36, 156, 178, 85, 139, 58, 153, 66,
    142, 117, 22, 155, 35, 216, 141, 239, 27, 52, 180, 185, 161, 141, 62, 209, 179, 79, 127, 54,
    44, 116, 235, 79, 244, 23, 232, 172, 87, 243, 229, 66, 97, 18, 225, 45, 58, 112, 102, 118,
    110, 193, 3, 186, 130, 246, 237, 7, 247, 212, 35, 18,
];
const L6: &[u8] = &[
    120, 156, 37, 203, 65, 10, 194, 48, 16, 70, 225, 125, 78, 49, 123, 33, 76, 18, 198, 70, 16,
    241, 14, 158, 96, 38, 249, 27, 16, 53, 210, 6, 193, 219, 139, 237, 91, 125, 155, 215, 237,
    142, 50, 40, 88, 70, 170, 165, 198, 148, 178, 8, 43, 36, 156, 178, 85, 139, 58, 153, 66,
    142, 117, 22, 155, 35, 216, 141, 239, 27, 52, 180, 185, 161, 141, 62, 209, 179, 79, 127, 54,
    44, 116, 235, 79, 244, 23, 232, 172, 87, 243, 229, 66, 97, 18, 225, 45, 58, 112, 102, 118,
    110, 193, 3, 186, 130, 246, 237, 7, 247, 212, 35, 18,
];
const L9: &[u8] = &[
    120, 218, 37, 203, 65, 10, 194, 48, 16, 70, 225, 125, 78, 49, 123, 33, 76, 18, 198, 70, 16,
    241, 14, 158, 96, 38, 249, 27, 16, 53, 210, 6, 193, 219, 139, 237, 91, 125, 155, 215, 237,
    142, 50, 40, 88, 70, 170, 165, 198, 148, 178, 8, 43, 36, 156, 178, 85, 139, 58, 153, 66,
    142, 117, 22, 155, 35, 216, 141, 239, 27, 52, 180, 185, 161, 141, 62, 209, 179, 79, 127, 54,
    44, 116, 235, 79, 244, 23, 232, 172, 87, 243, 229, 66, 97, 18, 225, 45, 58, 112, 102, 118,
    110, 193, 3, 186, 130, 246, 237, 7, 247, 212, 35, 18,
];
const BIG_Z: &[u8] = &[
    120, 218, 203, 79, 202, 74, 77, 46, 81, 72, 36, 18, 112, 149, 84, 22, 164, 42, 148, 36, 166,
    115, 21, 165, 22, 164, 38, 150, 40, 228, 100, 230, 165, 42, 140, 178, 135, 31, 155, 11, 0,
    136, 68, 197, 100,
];
const TEXT: &str = "object 1b8e3dcd2338550ae5198bdb2a7bae56df5bf2e0\ntype tag\ntag v2.0.3\ntagger Someone <a@b.c> 1755000000 +0800\n\nrelease 2.0.3\n";
const BIG_TEXT: &str = "object aaaaaaaaaaaaaaaaaaaaaaaaaaaaaaaaaaaaaaaa\ntype tag\nrepeat line repeat line repeat line repeat line repeat line repeat line repeat line repeat line repeat line repeat line repeat line repeat line repeat line repeat line repeat line repeat line repeat line repeat line repeat line repeat line repeat line repeat line repeat line repeat line repeat line repeat line repeat line repeat line repeat line repeat line repeat line repeat line repeat line repeat line repeat line repeat line repeat line repeat line repeat line repeat line \n";

#[test]
fn real_loose_tag_object() {
    let out = zlib_decompress(REAL, 4096).unwrap();
    assert_eq!(out.len(), 157);
    let text = String::from_utf8_lossy(&out);
    assert!(text.starts_with("tag 149\0object 44c304ec84d5fbd8588c1af8bc71b1edb9663380\n"));
    assert!(text.contains("\ntype commit\n"));
}

#[test]
fn all_levels_roundtrip() {
    for compressed in [L0, L1, L6, L9] {
        assert_eq!(zlib_decompress(compressed, 4096).unwrap(), TEXT.as_bytes());
    }
}

#[test]
fn distance_copies() {
    assert_eq!(zlib_decompress(BIG_Z, 4096).unwrap(), BIG_TEXT.as_bytes());
}

#[test]
fn output_cap() {
    let out = zlib_decompress(BIG_Z, 16).unwrap();
    assert_eq!(out, BIG_TEXT.as_bytes()[..16]);
}

#[test]
fn rejects_garbage() {
    assert!(zlib_decompress(&[], 256).is_none());
    assert!(zlib_decompress(&[0x11, 0x22], 256).is_none()); // no deflate stream
    assert!(zlib_decompress(&[0x78, 0x9c], 256).is_none()); // no block
    assert!(zlib_decompress(&[0x78, 0x9c, 0xff, 0xff, 0xff, 0xff], 256).is_none()); // no such kind of block
}

#[test]
fn adler_mismatch() {
    let mut broken = L6.to_vec();
    *broken.last_mut().unwrap() ^= 0xff;
    assert!(zlib_decompress(&broken, 4096).is_none());
}
