use sc2replay::utils::{
    decode, decode_iso, decode_utf8, jump_to_offset, pack_u8_vec, snd, split_file_list, unpack_u64_vec,
};

#[test]
fn pack_groups_four_bytes_little_endian() {
    assert_eq!(pack_u8_vec(&[1, 2, 3, 4, 5, 6, 7, 8]), vec![0x04030201, 0x08070605]);
}

#[test]
fn pack_drops_an_incomplete_word() {
    assert_eq!(pack_u8_vec(&[1, 2, 3, 4, 5]), vec![0x04030201]);
    assert_eq!(pack_u8_vec(&[1, 2]), Vec::<u64>::new());
}

#[test]
fn unpack_gives_the_low_four_bytes_of_each_word() {
    assert_eq!(unpack_u64_vec(&[0x04030201, 0xAABBCCDD]), vec![1, 2, 3, 4, 0xDD, 0xCC, 0xBB, 0xAA]);
    assert_eq!(unpack_u64_vec(&[0x1_0000_0005]), vec![5, 0, 0, 0]);
}

#[test]
fn unpack_undoes_pack() {
    let bytes: Vec<u8> = (0u8..32).collect();
    assert_eq!(unpack_u64_vec(&pack_u8_vec(&bytes)), bytes);
}

#[test]
fn pack_undoes_unpack() {
    let words = vec![0xDEADBEEF, 0, 0x12345678];
    assert_eq!(pack_u8_vec(&unpack_u64_vec(&words)), words);
}

#[test]
fn snd_gives_the_second_slice() {
    let a = [1u8, 2];
    let b = [3u8];
    assert_eq!(snd((&a, &b)), &[3u8][..]);
}

#[test]
fn decode_utf8_accepts_and_refuses() {
    assert_eq!(decode_utf8("héllo".as_bytes()), Ok("héllo".to_string()));
    assert_eq!(decode_utf8(&[0xff, 0xfe]), Err(()));
}

#[test]
fn decode_reads_windows_1252() {
    assert_eq!(decode(&[0x80, 0x41]), Ok("\u{20ac}A".to_string()));
    assert_eq!(decode(b"replay.details"), Ok("replay.details".to_string()));
}

#[test]
fn decode_iso_reads_latin1() {
    assert_eq!(decode_iso(&[0xe9, 0x41]), Ok("éA".to_string()));
}

#[test]
fn jump_to_offset_moves_to_an_absolute_offset() {
    let data: Vec<u8> = (0u8..20).collect();
    let current = &data[5..];
    assert_eq!(jump_to_offset(10, 20, 15, current), &data[10..]);
    assert_eq!(jump_to_offset(5, 20, 15, current), current);
}


#[test]
fn packing_unpacked_words_keeps_their_low_bits() {
    let words = [0x1_0403_0201u64, 0x0807_0605, 0xFFFF_FFFF_FFFF_FFFF];
    assert_eq!(pack_u8_vec(&unpack_u64_vec(&words)), vec![0x0403_0201, 0x0807_0605, 0xFFFF_FFFF]);
}

#[test]
fn list_file_splits_at_crlf() {
    let names = split_file_list(b"replay.details\r\nreplay.game.events\r\n");
    assert_eq!(names, vec!["replay.details".to_string(), "replay.game.events".to_string(), String::new()]);
    assert_eq!(split_file_list(b""), vec![String::new()]);
    assert_eq!(split_file_list(b"a\rb\nc\r\n\x80"), vec!["a\rb\nc".to_string(), "\u{20ac}".to_string()]);
    let text = "x\r\n\r\ny";
    let expected: Vec<String> = text.split("\r\n").map(String::from).collect();
    assert_eq!(split_file_list(text.as_bytes()), expected);
}
