use hexdump::hexdump;

#[test]
fn test_hexdump_empty() {
    let input: Vec<u8> = vec![];
    assert_eq!(hexdump(&input), "");
}

#[test]
fn test_hexdump_single_line() {
    let input: Vec<u8> = vec![0x00, 0x01, 0x02, 0x03];
    assert_eq!(hexdump(&input), "00000000 0100 0302\n");
}

#[test]
fn test_hexdump_multiple_lines() {
    let input: Vec<u8> = (0..32).collect();
    let expected = "\
        00000000 0100 0302 0504 0706 0908 0b0a 0d0c 0f0e\n\
        00000010 1110 1312 1514 1716 1918 1b1a 1d1c 1f1e\n";
    assert_eq!(hexdump(&input), expected);
}

#[test]
fn test_hexdump_partial_line() {
    let input: Vec<u8> = (0..20).collect();
    let expected = "\
        00000000 0100 0302 0504 0706 0908 0b0a 0d0c 0f0e\n\
        00000010 1110 1312\n";
    assert_eq!(hexdump(&input), expected);
}

#[test]
fn test_hexdump_one_byte() {
    assert_eq!(hexdump(&[0xff]), "00000000 ff\n");
}

#[test]
fn test_hexdump_odd_tail() {
    let input: Vec<u8> = (0..17).collect();
    let expected = "\
        00000000 0100 0302 0504 0706 0908 0b0a 0d0c 0f0e\n\
        00000010 10\n";
    assert_eq!(hexdump(&input), expected);
}

#[test]
fn test_hexdump_exactly_sixteen() {
    let input: Vec<u8> = (0x10..0x20).collect();
    assert_eq!(hexdump(&input), "00000000 1110 1312 1514 1716 1918 1b1a 1d1c 1f1e\n");
}

#[test]
fn test_hexdump_line_count_is_ceiling() {
    for n in 0..64usize {
        let input: Vec<u8> = (0..n).map(|i| (i % 256) as u8).collect();
        let lines = hexdump(&input).matches('\n').count();
        assert_eq!(lines, (n + 15) / 16);
    }
}

#[test]
fn test_hexdump_line_offsets() {
    let input: Vec<u8> = (0..40).collect();
    let text = hexdump(&input);
    let offsets: Vec<&str> = text.lines().map(|l| &l[..8]).collect();
    assert_eq!(offsets, vec!["00000000", "00000010", "00000020"]);
}

#[test]
fn test_hexdump_round_trip() {
    let input: Vec<u8> = (0..20).collect();
    let text = hexdump(&input);
    let mut recovered: Vec<u8> = Vec::new();
    for line in text.lines() {
        for token in line.split(' ').skip(1) {
            if token.len() == 4 {
                // a two-byte group is shown swapped: undo the swap
                recovered.push(u8::from_str_radix(&token[2..4], 16).unwrap());
                recovered.push(u8::from_str_radix(&token[0..2], 16).unwrap());
            } else {
                recovered.push(u8::from_str_radix(token, 16).unwrap());
            }
        }
    }
    assert_eq!(recovered, input);
}
