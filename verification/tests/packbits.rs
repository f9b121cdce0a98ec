use svgy::packbits::rle_encode_channel;

#[test]
fn literal_run() {
    // No 3-in-a-row: single literal block of 4, control byte = len-1 = 3.
    assert_eq!(rle_encode_channel(&[1, 2, 3, 4]), vec![3, 1, 2, 3, 4]);
}

#[test]
fn repeat_run() {
    // Five identical bytes: control = run + 125 = 130, then the byte.
    assert_eq!(rle_encode_channel(&[7, 7, 7, 7, 7]), vec![130, 7]);
}

#[test]
fn empty() {
    assert_eq!(rle_encode_channel(&[]), Vec::<u8>::new());
}

/// What a reader of the format makes of the blocks.
fn unpack(mut s: &[u8]) -> Vec<u8> {
    let mut out = Vec::new();
    while let Some((&c, rest)) = s.split_first() {
        if c < 128 {
            let n = usize::from(c) + 1;
            out.extend_from_slice(&rest[..n]);
            s = &rest[n..];
        } else {
            out.extend(std::iter::repeat(rest[0]).take(usize::from(c) - 125));
            s = &rest[1..];
        }
    }
    out
}

#[test]
fn a_reader_gets_back_what_was_encoded() {
    let mut input = vec![1, 2, 2, 3, 3, 3, 4];
    input.extend(std::iter::repeat(9).take(300));
    input.extend(0..=255);
    input.extend([5, 5]);
    let out = rle_encode_channel(&input);
    assert_eq!(unpack(&out), input);
}

#[test]
fn long_runs_and_literals_are_split_into_blocks() {
    // 131 equal bytes: one full run of 130 and a literal of one.
    assert_eq!(rle_encode_channel(&[4; 131]), vec![255, 4, 0, 4]);
    // 129 distinct bytes: a literal block of 128 and one of one.
    let distinct: Vec<u8> = (0..129).collect();
    let out = rle_encode_channel(&distinct);
    assert_eq!(out[0], 127);
    assert_eq!(out[129], 0);
    assert_eq!(out.len(), 131);
}
