use deflate::length_encode::{encode_lengths, enforce_max_code_lengths, huffman_lengths_from_frequency, EncodedLength};
use deflate::huffman_table::NUM_LITERALS_AND_LENGTHS;
use deflate::tables::FIXED_CODE_LENGTHS;

fn lit(value: u8) -> EncodedLength {
    EncodedLength::Length(value)
}

fn zero(repeats: u8) -> EncodedLength {
    match repeats {
        0..=1 => EncodedLength::Length(0),
        2..=10 => EncodedLength::RepeatZero3Bits(repeats),
        _ => EncodedLength::RepeatZero7Bits(repeats),
    }
}

fn copy(copies: u8) -> EncodedLength {
    EncodedLength::CopyPrevious(copies)
}

#[test]
fn test_encode_lengths() {
    let enc = encode_lengths(&FIXED_CODE_LENGTHS).unwrap();
    // There are no lengths lower than 6 in the fixed table
    assert_eq!(enc.1[0..7], [0, 0, 0, 0, 0, 0, 0]);
    // Neither are there any lengths above 9
    assert_eq!(enc.1[10..16], [0, 0, 0, 0, 0, 0]);
    // Also there are no zero-length codes so there shouldn't be any repetitions of zero
    assert_eq!(enc.1[17..19], [0, 0]);

    let test_lengths = [0, 0, 5, 0, 15, 1, 0, 0, 0, 2, 4, 4, 4, 4, 3, 5, 5, 5, 5];
    let enc = encode_lengths(&test_lengths).unwrap().0;
    assert_eq!(enc,
               vec![lit(0), lit(0), lit(5), lit(0), lit(15), lit(1), zero(3), lit(2), lit(4),
                    copy(3), lit(3), lit(5), copy(3)]);
    let test_lengths = [0, 0, 0, 5, 2, 3, 0, 0, 0];
    let enc = encode_lengths(&test_lengths).unwrap().0;
    assert_eq!(enc, vec![zero(3), lit(5), lit(2), lit(3), zero(3)]);

    let test_lengths = [0, 0, 0, 3, 3, 3, 5, 4, 4, 4, 4, 0, 0];
    let enc = encode_lengths(&test_lengths).unwrap().0;
    assert_eq!(enc,
               vec![zero(3), lit(3), lit(3), lit(3), lit(5), lit(4), copy(3), lit(0), lit(0)]);


    let lens = [0, 0, 4, 0, 0, 4, 0, 0, 0, 0, 0, 4, 4, 0, 0, 0, 0, 0, 0, 0, 0, 0, 3, 0, 0, 0,
                0, 0, 0, 0, 0, 0, 0, 0, 0, 0, 0, 0, 0, 0, 0, 0, 0, 0, 0, 0, 0, 0, 0, 0, 0, 0,
                0, 0, 0, 4, 0, 0, 0, 0, 0, 0, 0, 0, 0, 0, 0, 0, 0, 0, 0, 0, 0, 0, 0, 0, 0, 0,
                0, 0, 0, 0, 0, 0, 0, 0, 0, 0, 0, 0, 0, 0, 0, 0, 0, 0, 0, 0, 0, 0, 0, 0, 0, 0,
                0, 0, 0, 0, 0, 0, 0, 0, 0, 0, 0, 0, 0, 0, 0, 0, 0, 0, 0, 0, 0, 0, 0, 0, 0, 0,
                0, 0, 0, 0, 0, 0, 0, 0, 0, 0, 0, 0, 0, 0, 0, 0, 0, 0, 0, 0, 0, 0, 0, 0, 0, 0,
                0, 0, 0, 0, 0, 0, 0, 0, 0, 0, 0, 0, 0, 0, 0, 0, 0, 0, 0, 0, 0, 0, 0, 0, 0, 0,
                0, 0, 0, 0, 0, 0, 0, 0, 0, 0, 0, 0, 0, 0, 0, 0, 0, 0, 0, 0, 0, 0, 0, 0, 0, 0,
                0, 0, 0, 0, 0, 0, 0, 0, 0, 0, 0, 0, 0, 0, 0, 0, 0, 0, 0, 0, 0, 0, 0, 0, 0, 0,
                0, 0, 0, 0, 0, 0, 0, 0, 0, 0, 0, 0, 0, 0, 0, 0, 0, 0, 0, 0, 0, 0, 4, 0, 0, 0,
                0, 0, 0, 0, 0, 0, 0, 0, 0, 0, 0, 0, 0, 0, 0, 0, 0, 0, 0, 0, 0, 0, 0, 0, 0, 1,
                1];

    let _ = encode_lengths(&lens).unwrap().0;

    let lens = [0, 0, 0, 0, 0, 0, 0, 0, 0, 0, 9, 0, 0, 9, 0, 0, 0, 0, 0, 0, 0, 0, 0, 0, 0, 0,
                0, 0, 0, 0, 0, 0, 6, 0, 0, 0, 8, 0, 0, 0, 0, 8, 0, 0, 7, 8, 7, 8, 6, 6, 8, 0,
                7, 6, 7, 8, 7, 7, 8, 0, 0, 0, 0, 0, 8, 8, 0, 8, 7, 0, 10, 8, 0, 8, 0, 10, 10,
                8, 8, 10, 8, 0, 8, 7, 0, 10, 0, 7, 0, 0, 0, 0, 0, 0, 0, 0, 0, 6, 7, 7, 7, 6,
                7, 8, 8, 6, 0, 0, 8, 8, 7, 8, 8, 0, 7, 6, 6, 8, 8, 8, 10, 10, 0, 0, 0, 0, 0,
                0, 0, 0, 0, 0, 0, 0, 0, 0, 0, 0, 0, 0, 0, 0, 0, 0, 0, 0, 0, 0, 0, 0, 0, 0, 0,
                0, 0, 0, 0, 0, 0, 0, 0, 0, 0, 0, 0, 0, 0, 0, 0, 0, 0, 0, 0, 0, 0, 0, 0, 0, 0,
                0, 0, 0, 0, 0, 0, 0, 0, 0, 0, 0, 0, 0, 0, 0, 0, 0, 0, 0, 0, 0, 0, 0, 0, 0, 0,
                0, 0, 0, 0, 0, 0, 0, 0, 0, 0, 0, 0, 0, 0, 0, 0, 0, 0, 0, 0, 0, 0, 0, 0, 0, 0,
                0, 0, 0, 0, 0, 0, 0, 0, 0, 0, 0, 0, 0, 0, 0, 0, 0, 0, 0, 0, 0, 0, 0, 0, 0, 10,
                4, 3, 3, 4, 4, 5, 5, 5, 5, 5, 8, 8, 6, 7, 8, 10, 10, 0, 9 /* litlen */,
                0, 0, 0, 0, 0, 0, 0, 8, 8, 8, 8, 6, 6, 5, 5, 5, 5, 6, 5, 5, 4, 4, 4, 4, 4, 4,
                3, 4, 3, 4];

    let enc = encode_lengths(&lens).unwrap().0;

    assert_eq!(&enc[..10],
               &[zero(10), lit(9), lit(0), lit(0), lit(9), zero(18), lit(6), zero(3), lit(8),
                 zero(4)]);
    assert_eq!(&enc[10..20],
               &[lit(8), lit(0), lit(0), lit(7), lit(8), lit(7), lit(8), lit(6), lit(6),
                 lit(8)]);

    let enc = encode_lengths(&[1, 1, 1, 2]).unwrap().0;
    assert_eq!(enc, vec![lit(1), lit(1), lit(1), lit(2)]);
    let enc = encode_lengths(&[0, 0, 3]).unwrap().0;
    assert_eq!(enc, vec![lit(0), lit(0), lit(3)]);
    let enc = encode_lengths(&[0, 0, 0, 5, 2]).unwrap().0;
    assert_eq!(enc, vec![zero(3), lit(5), lit(2)]);

    let enc = encode_lengths(&[0, 0, 0, 5, 0]).unwrap().0;
    assert!(*enc.last().unwrap() != lit(5));

    let enc = encode_lengths(&[0, 4, 4, 4, 4, 0]).unwrap().0;
    assert_eq!(*enc.last().unwrap(), zero(0));
}

#[test]
fn test_lengths_from_frequencies() {
    let frequencies = [1, 1, 5, 7, 10, 14];

    let expected = [4, 4, 3, 2, 2, 2];
    let res = huffman_lengths_from_frequency(&frequencies, 4);

    assert_eq!(expected, res.as_slice());

    let frequencies = [1, 5, 1, 7, 10, 14];
    let expected = [4, 3, 4, 2, 2, 2];

    let res = huffman_lengths_from_frequency(&frequencies, 4);

    assert_eq!(expected, res.as_slice());

    let frequencies = [0, 25, 0, 10, 2, 4];

    let res = huffman_lengths_from_frequency(&frequencies, 4);
    assert_eq!(res[0], 0);
    assert_eq!(res[2], 0);
    assert!(res[1] < 4);

    // Only one value
    let frequencies = [0, 0, 0, 0, 0, 0, 0, 0, 55, 0, 0, 0];
    let res = huffman_lengths_from_frequency(&frequencies, 5);
    let expected = [0, 0, 0, 0, 0, 0, 0, 0, 1, 0, 0, 0];
    assert_eq!(expected, res.as_slice());

    // No values
    let frequencies = [0; 30];
    let res = huffman_lengths_from_frequency(&frequencies, 5);
    for (a, b) in frequencies.iter().zip(res.iter()) {
        assert_eq!(*a, (*b).into());
    }
    // assert_eq!(frequencies, res.as_slice());

    let mut frequencies = vec![3; NUM_LITERALS_AND_LENGTHS];
    frequencies[55] = u16::MAX / 3;
    frequencies[125] = u16::MAX / 3;

    let res = huffman_lengths_from_frequency(&frequencies, 15);
    assert_eq!(res.len(), NUM_LITERALS_AND_LENGTHS);
    assert!(res[55] < 3);
    assert!(res[125] < 3);
}

#[test]
/// Test if the bit lengths for a set of frequencies are optimal (give the best compression
/// give the provided frequencies).
fn optimal_lengths() {
    let freqs = [0, 0, 0, 0, 0, 0, 0, 0, 0, 0, 44, 0, 0, 0, 0, 0, 0, 0, 0, 0, 0, 0, 0, 0, 0,
                 0, 0, 0, 0, 0, 0, 0, 68, 0, 14, 0, 0, 0, 0, 3, 7, 6, 1, 0, 12, 14, 9, 2, 6,
                 9, 4, 1, 1, 4, 1, 1, 0, 0, 1, 3, 0, 6, 0, 0, 0, 4, 4, 1, 2, 5, 3, 2, 2, 9, 0,
                 0, 3, 1, 5, 5, 8, 0, 6, 10, 5, 2, 0, 0, 1, 2, 0, 8, 11, 4, 0, 1, 3, 31, 13,
                 23, 22, 56, 22, 8, 11, 43, 0, 7, 33, 15, 45, 40, 16, 1, 28, 37, 35, 26, 3, 7,
                 11, 9, 1, 1, 0, 1, 0, 0, 0, 0, 0, 0, 0, 0, 0, 0, 0, 0, 0, 0, 0, 0, 0, 0, 0,
                 0, 0, 0, 0, 0, 0, 0, 0, 0, 0, 0, 0, 0, 0, 0, 0, 0, 0, 0, 0, 0, 0, 0, 0, 0, 0,
                 0, 0, 0, 0, 0, 0, 0, 0, 0, 0, 0, 0, 0, 0, 0, 0, 0, 0, 0, 0, 0, 0, 0, 0, 0, 0,
                 0, 0, 0, 0, 0, 0, 0, 0, 0, 0, 0, 0, 0, 0, 0, 0, 0, 0, 0, 0, 0, 0, 0, 0, 0, 0,
                 0, 0, 0, 0, 0, 0, 0, 0, 0, 0, 0, 0, 0, 0, 0, 0, 0, 0, 0, 0, 0, 0, 0, 0, 0, 0,
                 0, 0, 0, 0, 0, 0, 0, 1, 126, 114, 66, 31, 41, 25, 15, 21, 20, 16, 15, 10, 7,
                 5, 1, 1];


    let lens = huffman_lengths_from_frequency(&freqs, 15);

    // Lengths produced by miniz for this frequency table for comparison
    // the number of total bits encoded with these huffman codes is 7701
    // NOTE: There can be more than one set of optimal lengths for a set of frequencies,
    // (though there may be a difference in how well the table itself can be represented)
    // so testing for a specific length table is not ideal since different algorithms
    // may produce different length tables.
    // let lens3 = [0, 0, 0, 0, 0, 0, 0, 0, 0, 0, 5, 0, 0, 0, 0, 0, 0, 0, 0, 0, 0,
    // 0, 0, 0, 0, 0,
    // 0, 0, 0, 0, 0, 0, 4, 0, 7, 0, 0, 0, 0, 9, 8, 8, 10, 0, 7, 7, 7, 10, 8, 7, 8,
    // 10, 10, 8, 10, 10, 0, 0, 10, 9, 0, 8, 0, 0, 0, 8, 8, 10, 9, 8, 9, 9, 9, 7, 0,
    // 0, 9, 10, 8, 8, 7, 0, 8, 7, 8, 9, 0, 0, 10, 9, 0, 7, 7, 8, 0, 10, 9, 6, 7, 6,
    // 6, 5, 6, 7, 7, 5, 0, 8, 5, 7, 5, 5, 6, 10, 6, 5, 5, 6, 9, 8, 7, 7, 10, 10, 0,
    // 10, 0, 0, 0, 0, 0, 0, 0, 0, 0, 0, 0, 0, 0, 0, 0, 0, 0, 0, 0, 0, 0, 0, 0, 0,
    // 0, 0, 0, 0, 0, 0, 0, 0, 0, 0, 0, 0, 0, 0, 0, 0, 0, 0, 0, 0, 0, 0, 0, 0, 0, 0,
    // 0, 0, 0, 0, 0, 0, 0, 0, 0, 0, 0, 0, 0, 0, 0, 0, 0, 0, 0, 0, 0, 0, 0, 0, 0, 0,
    // 0, 0, 0, 0, 0, 0, 0, 0, 0, 0, 0, 0, 0, 0, 0, 0, 0, 0, 0, 0, 0, 0, 0, 0, 0, 0,
    // 0, 0, 0, 0, 0, 0, 0, 0, 0, 0, 0, 0, 0, 0, 0, 0, 0, 0, 0, 0, 0, 0, 0, 0, 0, 0,
    // 0, 0, 10, 4, 4, 4, 5, 5, 6, 7, 6, 6, 6, 6, 7, 8, 8, 10, 10];
    //


    let num_bits = lens.iter().zip(freqs.iter()).fold(0, |a, (&f, &l)| a + (f as u16 * l));
    assert_eq!(num_bits, 7701);
}

fn kraft(lens: &[u8], max_len: u8) -> u32 {
    lens.iter().filter(|&&l| l != 0).map(|&l| 1u32 << (max_len - l)).sum()
}

#[test]
fn lengths_form_complete_code() {
    // Every used symbol gets a code, and the codes fill the code space exactly.
    let cases: Vec<(Vec<u16>, usize)> = vec![
        (vec![1, 1, 5, 7, 10, 14], 4),
        (vec![0, 25, 0, 10, 2, 4], 4),
        (vec![1, 1, 1, 1, 1, 1, 1, 1, 1, 1, 1, 1, 1, 1, 1, 1], 4),
        (vec![1, 2, 4, 8, 16, 32, 64, 128, 256, 512, 1024, 2048, 4096, 8192, 16384, 32768], 7),
        (vec![3, 0, 0, 9], 7),
    ];
    for (freqs, max_len) in cases {
        let lens = huffman_lengths_from_frequency(&freqs, max_len);
        assert_eq!(lens.len(), freqs.len());
        for (f, l) in freqs.iter().zip(lens.iter()) {
            assert_eq!(*f == 0, *l == 0);
            assert!(*l as usize <= max_len);
        }
        assert_eq!(kraft(&lens, max_len as u8), 1u32 << max_len);
        // A more frequent symbol never gets a longer code.
        for a in 0..freqs.len() {
            for b in 0..freqs.len() {
                if 0 < freqs[a] && freqs[a] < freqs[b] {
                    assert!(lens[a] >= lens[b]);
                }
            }
        }
    }
    // A single used symbol gets a code of length one, half the code space.
    let lens = huffman_lengths_from_frequency(&[0, 7, 0], 5);
    assert_eq!(lens, vec![0, 1, 0]);
    assert_eq!(kraft(&lens, 5), 16);
}

#[test]
fn encode_lengths_runs() {
    let enc = |v: Vec<u8>| encode_lengths(&v).unwrap().0;
    // A run of zeros: repeat codes of 138, then the rest as one code if at least three.
    assert_eq!(enc(vec![0; 140]), vec![zero(138), lit(0), lit(0)]);
    assert_eq!(enc(vec![0; 141]), vec![zero(138), zero(3)]);
    assert_eq!(enc(vec![0; 10]), vec![zero(10)]);
    assert_eq!(enc(vec![0; 11]), vec![zero(11)]);
    // A run of another value: the value, then copies of six, then the rest.
    assert_eq!(enc(vec![5; 7]), vec![lit(5), copy(6)]);
    assert_eq!(enc(vec![5; 8]), vec![lit(5), copy(6), lit(5)]);
    assert_eq!(enc(vec![5; 10]), vec![lit(5), copy(6), copy(3)]);
    assert_eq!(enc(vec![5, 5, 3, 0, 0, 0, 4]), vec![lit(5), lit(5), lit(3), zero(3), lit(4)]);
    // A single zero at the end is written as it is.
    assert_eq!(enc(vec![2, 0]), vec![lit(2), lit(0)]);
    assert!(encode_lengths(&[]).is_none());
}

#[test]
fn limiting_code_lengths_keeps_unused_counts() {
    // Code lengths 1, 2, 3, 4, 5, 5 (a complete code) limited to 4 bits.
    let mut num_codes = [0u16; 33];
    num_codes[0] = 7;
    num_codes[1] = 1;
    num_codes[2] = 1;
    num_codes[3] = 1;
    num_codes[4] = 1;
    num_codes[5] = 2;
    enforce_max_code_lengths(&mut num_codes, 6, 4);
    assert_eq!(&num_codes[..5], &[7, 1, 1, 0, 4]);
    // Entries above the limit are left as they were.
    assert_eq!(num_codes[5], 2);
}
