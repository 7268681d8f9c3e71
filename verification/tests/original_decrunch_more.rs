use exomizer::original::encoding::{encoding_header, encoding_text_exec, parse_encoding_exec};
use exomizer::original::matches::Match;
use exomizer::original::stream::{do_output_backwards, path_items, path_matches, PathItem, PathNode};
use exomizer::original::{arrange_output, decrunch_raw, decrunch_raw_checked, CrunchInfo, DecrunchOptions, ProtoFlags, TraitFlags};
use exomizer::simple::dynamic::{decrunch, decrunch_exact, DynProto};
use exomizer::simple::DecrunchError;

const DEMO_UNCOMPRESSED: &[u8] = br##"Exomizer is a program that compresses files in a way that tries to be as efficient as possible but still allows them to be decompressed in environments where CPU speed and RAM are limited. For some popular 8-bit computers using 6502 compatible CPUs it can also generate executable files that decompress themselves in memory when run.

The exomizer program itself is a console application written in ANSI-C.

Exomizer operates in two major modes. It has a raw mode that compresses plain files and produces plain files. This mode is used by the raw subcommand. All other subcommands use the second mode. It requires all source files to be targeted to be decrunched at specific addresses in the 16-bit address space of the target computer. In this mode, no file can be larger than 64kB since all data must be addressable using 16-bits. The targeted mode has the following features:

It reads plain or .prg files to any given address.
It can produce stand-alone self-decrunching files for the following targets:
Commodore VIC20, C64, C65, C16/plus4, C128 and PET 4032
Atari 400/800 XL/XE
Apple ][+ and //e
Oric-1 and Oric Atmos
BBC Micro B
It can produce files for both "in memory" and "from disk" decrunching.
It handles RLE-sequences well, no packer is necessary.
It is able to link/combine more than one source file into the same crunched target file.
Included in the downloadable zip file are the source code and a precompiled binary for Win32. It also includes a makefile for Gnu make and gcc so it should be easy to build on any system where these tools are available.

Any suggestions, comments and/or bug reports can be sent to me, the author.
"##;

const DEMO_COMPRESSED_P61_FAST: &[u8] = &[
    16, 17, 1, 2, 0, 0, 0, 0, 68, 69, 85, 85, 86, 118, 103, 137, 83, 52, 52, 69, 69, 117, 88, 122,
    50, 18, 17, 67, 53, 102, 87, 55, 33, 34, 10, 255, 46, 114, 111, 104, 116, 117, 97, 32, 176,
    101, 168, 232, 44, 169, 109, 43, 216, 100, 52, 110, 155, 115, 27, 98, 73, 81, 97, 168, 99, 84,
    185, 180, 211, 112, 81, 169, 217, 103, 117, 172, 93, 47, 100, 164, 132, 146, 110, 80, 45, 180,
    99, 5, 106, 147, 167, 105, 36, 186, 103, 204, 206, 13, 121, 55, 65, 10, 115, 101, 189, 108, 98,
    97, 21, 105, 100, 118, 175, 114, 34, 43, 36, 111, 172, 230, 197, 140, 131, 216, 90, 119, 209,
    109, 56, 50, 121, 40, 83, 57, 42, 139, 100, 60, 43, 196, 83, 70, 97, 101, 37, 11, 58, 117, 213,
    186, 215, 85, 89, 105, 76, 45, 99, 2, 103, 199, 18, 26, 101, 107, 55, 96, 82, 117, 164, 71,
    247, 177, 102, 28, 68, 134, 32, 89, 84, 235, 100, 117, 241, 99, 110, 21, 168, 94, 226, 210, 73,
    123, 46, 50, 51, 44, 87, 98, 107, 121, 84, 236, 98, 174, 75, 74, 112, 100, 234, 100, 220, 32,
    143, 137, 50, 176, 136, 178, 114, 117, 208, 19, 25, 164, 140, 112, 232, 112, 117, 122, 19, 182,
    100, 131, 111, 71, 110, 163, 119, 80, 49, 210, 200, 168, 36, 172, 73, 72, 89, 29, 116, 108,
    187, 134, 147, 91, 103, 105, 165, 117, 149, 42, 109, 120, 207, 6, 134, 146, 131, 34, 5, 26,
    241, 70, 210, 52, 146, 171, 109, 20, 195, 24, 13, 47, 107, 135, 145, 108, 49, 166, 157, 214,
    225, 171, 44, 6, 104, 173, 3, 142, 219, 4, 32, 181, 225, 213, 237, 97, 112, 177, 147, 44, 108,
    64, 181, 235, 178, 24, 123, 227, 117, 113, 77, 79, 45, 69, 76, 178, 82, 185, 12, 100, 151, 6,
    102, 180, 103, 208, 37, 163, 178, 251, 32, 34, 107, 146, 48, 174, 138, 93, 102, 75, 28, 89, 57,
    121, 59, 14, 170, 182, 198, 107, 171, 22, 70, 98, 153, 33, 115, 153, 219, 117, 100, 115, 112,
    26, 237, 41, 168, 66, 153, 21, 105, 105, 77, 210, 67, 144, 45, 180, 115, 93, 116, 65, 91, 46,
    114, 79, 51, 166, 49, 45, 32, 174, 10, 101, 47, 128, 97, 220, 43, 91, 93, 207, 168, 112, 15,
    244, 250, 69, 88, 47, 76, 37, 180, 48, 10, 56, 67, 7, 52, 73, 149, 105, 88, 105, 125, 72, 43,
    84, 69, 140, 80, 170, 56, 159, 49, 187, 67, 167, 52, 115, 184, 117, 24, 47, 54, 130, 168, 53,
    196, 30, 32, 77, 48, 50, 44, 73, 86, 83, 27, 171, 142, 230, 45, 225, 10, 58, 115, 210, 35, 69,
    159, 7, 156, 50, 243, 118, 1, 111, 128, 197, 169, 45, 239, 77, 142, 148, 63, 226, 176, 183, 83,
    116, 64, 23, 228, 46, 173, 235, 232, 100, 7, 121, 20, 113, 118, 105, 103, 107, 99, 147, 4, 238,
    220, 73, 46, 120, 213, 171, 97, 87, 237, 45, 185, 187, 17, 136, 190, 24, 149, 117, 101, 34, 64,
    86, 36, 212, 227, 148, 153, 97, 215, 48, 218, 45, 116, 84, 55, 69, 169, 127, 42, 45, 215, 232,
    139, 30, 32, 118, 176, 42, 51, 209, 236, 116, 131, 200, 92, 217, 122, 78, 96, 145, 146, 17,
    105, 239, 66, 107, 64, 133, 140, 73, 114, 51, 169, 65, 234, 145, 49, 7, 123, 13, 40, 254, 0,
    181, 241, 233, 109, 185, 76, 117, 78, 2, 15, 92, 141, 117, 102, 176, 111, 199, 103, 28, 212,
    20, 208, 75, 48, 119, 147, 80, 34, 246, 99, 158, 33, 122, 196, 144, 117, 97, 159, 1, 101, 168,
    135, 214, 128, 189, 195, 14, 128, 115, 183, 224, 219, 197, 28, 105, 183, 193, 33, 244, 208, 82,
    75, 222, 110, 80, 31, 59, 154, 104, 136, 230, 197, 228, 138, 98, 99, 75, 180, 14, 239, 19, 107,
    65, 60, 1, 21, 165, 119, 185, 57, 42, 249, 11, 178, 137, 137, 234, 224, 195, 77, 136, 106, 16,
    106, 120, 118, 72, 243, 224, 17, 128, 223, 129, 74, 38, 190, 12, 222, 52, 57, 28, 62, 72, 41,
    198, 38, 254, 100, 106, 189, 14, 74, 119, 26, 82, 80, 219, 30, 130, 94, 99, 233, 122, 238, 75,
    120, 159, 69, 100, 255, 67, 45, 73, 83, 78, 65, 16, 234, 38, 206, 129, 61, 114, 119, 72, 189,
    252, 249, 163, 61, 44, 94, 68, 122, 0, 210, 98, 188, 101, 130, 212, 231, 215, 203, 109, 75,
    101, 103, 22, 9, 209, 49, 96, 37, 64, 219, 74, 35, 238, 40, 125, 72, 52, 252, 118, 140, 153,
    12, 160, 22, 241, 199, 141, 192, 55, 224, 242, 135, 242, 154, 138, 65, 178, 173, 110, 208, 126,
    247, 11, 124, 148, 28, 85, 80, 67, 68, 134, 32, 113, 191, 50, 48, 53, 54, 15, 81, 162, 7, 18,
    29, 237, 56, 70, 118, 237, 152, 189, 11, 126, 208, 115, 232, 229, 70, 153, 109, 78, 201, 119,
    128, 254, 25, 77, 199, 65, 82, 68, 218, 69, 131, 149, 208, 255, 114, 63, 250, 188, 83, 250,
    150, 118, 14, 23, 197, 192, 219, 1, 226, 33, 59, 143, 122, 49, 204, 27, 172, 206, 223, 31, 165,
    132, 196, 111, 11, 157, 38, 178, 141, 105, 221, 180, 9, 136, 48, 29, 12, 246, 154, 97, 70, 104,
    121, 157, 32, 164, 177, 135, 33, 0, 54, 72, 52, 116, 116, 196, 26, 206, 0, 0, 128,
];

const DEMO_ENCODING: &str =
    "1011010200000000,2122,3212114335665737,533434454575587A,4445555556766789";

fn options(proto: u8, forward: bool, reverse: bool, enc: Option<&str>) -> DecrunchOptions {
    DecrunchOptions::builder()
        .flags_proto(proto)
        .direction_forward(forward)
        .write_reverse(reverse)
        .imported_encoding(enc.map(|s| s.to_string()))
        .build()
        .unwrap()
}

#[test]
fn original_decrunch_backwards_input() {
    let reversed: Vec<u8> = DEMO_COMPRESSED_P61_FAST.iter().rev().copied().collect();
    let output = decrunch_raw(&reversed, &options(61, false, false, None)).unwrap();
    assert_eq!(DEMO_UNCOMPRESSED, &output[..]);
}

#[test]
fn original_decrunch_without_write_reverse_gives_reversed_data() {
    let output = decrunch_raw(DEMO_COMPRESSED_P61_FAST, &options(61, true, false, None)).unwrap();
    let expected: Vec<u8> = DEMO_UNCOMPRESSED.iter().rev().copied().collect();
    assert_eq!(expected, output);
}

#[test]
fn encoding_header_matches_stream_start() {
    let tabs = parse_encoding_exec(DEMO_ENCODING.as_bytes(), true).unwrap();
    assert_eq!(tabs.len(), 5);
    assert_eq!(tabs[0], vec![1, 0, 1, 1, 0, 1, 0, 2, 0, 0, 0, 0, 0, 0, 0, 0]);
    assert_eq!(tabs[1], vec![2, 1, 2, 2]);
    assert_eq!(tabs[4][15], 9);
    assert_eq!(tabs[3][15], 10);
    let header = encoding_header(61, &tabs);
    assert_eq!(header.len(), 34);
    assert_eq!(header, DEMO_COMPRESSED_P61_FAST[..34].to_vec());
    // the stream without its header decrunches with the encoding imported
    let rest: Vec<u8> = DEMO_COMPRESSED_P61_FAST[34..].to_vec();
    let output = decrunch_raw(&rest, &options(61, true, true, Some(DEMO_ENCODING))).unwrap();
    assert_eq!(DEMO_UNCOMPRESSED, &output[..]);
}

#[test]
fn original_decrunch_with_imported_encoding() {
    let enc = "1011010200000000,2122,3212114335665737,5334344545755879,4445555556766789";
    let tabs = parse_encoding_exec(enc.as_bytes(), true).unwrap();
    let data = b"abcabcabcabc";
    let path = vec![
        PathItem { index: 0, len: 9, offset: 3, latest_offset: 0 },
        PathItem { index: 9, len: 3, offset: 0, latest_offset: 0 },
    ];
    let (stream, _) = do_output_backwards(&[], 61, 0, &tabs, data, Some(&path), false).unwrap();
    let output = decrunch_raw(&stream, &options(61, false, false, Some(enc))).unwrap();
    assert_eq!(data.to_vec(), output);
    let (with_header, _) = do_output_backwards(&[], 61, 0, &tabs, data, Some(&path), true).unwrap();
    assert_eq!(decrunch_raw(&with_header, &options(61, false, false, None)).unwrap(), data.to_vec());
}

#[test]
fn original_decrunch_bad_imported_encoding() {
    let r = decrunch_raw(
        &DEMO_COMPRESSED_P61_FAST[34..],
        &options(61, true, true, Some("10110102000000x0,2122,3212114335665737,533434454575587A,4445555556766789")),
    );
    assert_eq!(r, Err(DecrunchError::DecodingError));
    let r = decrunch_raw(&DEMO_COMPRESSED_P61_FAST[34..], &options(61, true, true, Some("1011,2122")));
    assert_eq!(r, Err(DecrunchError::DecodingError));
}

#[test]
fn original_decrunch_truncated() {
    let r = decrunch_raw_checked(&DEMO_COMPRESSED_P61_FAST[..100], &options(61, true, true, None));
    assert_eq!(r, Err(DecrunchError::EndOfInput));
    let r = decrunch_raw_checked(&[], &options(39, true, false, None));
    assert_eq!(r, Err(DecrunchError::EndOfInput));
}

fn zero_encoding(four: bool) -> Vec<Vec<u8>> {
    let mut tabs = vec![vec![0u8; 16], vec![0u8; 4], vec![0u8; 16], vec![0u8; 16]];
    if four {
        tabs.push(vec![0u8; 16]);
    }
    tabs
}

fn roundtrip(proto: u8, data: &[u8], path: &Vec<PathItem>) -> Vec<u8> {
    let tabs = zero_encoding(proto & 16 != 0);
    let (stream, _info) = do_output_backwards(&[], proto, 0, &tabs, data, Some(path), true).unwrap();
    decrunch_raw(&stream, &options(proto, false, false, None)).unwrap()
}

#[test]
fn written_stream_decrunches_to_its_data() {
    let data = b"abcabc";
    let path = vec![
        PathItem { index: 0, len: 3, offset: 3, latest_offset: 0 },
        PathItem { index: 3, len: 3, offset: 0, latest_offset: 0 },
    ];
    for proto in [0u8, 1, 2, 3, 4, 5, 8, 9, 13, 16, 17, 32, 33, 37, 39, 61, 63] {
        assert_eq!(roundtrip(proto, data, &path), data.to_vec(), "proto {proto}");
    }
}

#[test]
fn written_stream_with_single_literals_and_rle() {
    let data = b"xyaaaaaaaz";
    let path = vec![
        PathItem { index: 0, len: 1, offset: 0, latest_offset: 0 },
        PathItem { index: 1, len: 1, offset: 0, latest_offset: 0 },
        PathItem { index: 2, len: 6, offset: 1, latest_offset: 0 },
        PathItem { index: 8, len: 2, offset: 0, latest_offset: 0 },
    ];
    for proto in [1u8, 5, 9, 13, 39, 61] {
        assert_eq!(roundtrip(proto, data, &path), data.to_vec(), "proto {proto}");
    }
}

#[test]
fn written_stream_info() {
    let data = b"abcabc";
    let path = vec![
        PathItem { index: 0, len: 3, offset: 3, latest_offset: 0 },
        PathItem { index: 3, len: 3, offset: 0, latest_offset: 0 },
    ];
    let tabs = zero_encoding(false);
    let (_, info) = do_output_backwards(&[], 1, 0, &tabs, data, Some(&path), true).unwrap();
    assert_eq!(info.max_len, 3);
    assert_eq!(info.max_offset, 3);
    assert_eq!(info.traits_used, TraitFlags::LitSeq);
}

#[test]
fn written_stream_rejects_uncodable_offset() {
    let data = b"abcabc";
    let path = vec![
        PathItem { index: 0, len: 3, offset: 300, latest_offset: 0 },
        PathItem { index: 3, len: 3, offset: 0, latest_offset: 0 },
    ];
    let tabs = zero_encoding(false);
    assert!(do_output_backwards(&[], 1, 0, &tabs, data, Some(&path), true).is_none());
    let bad = vec![PathItem { index: 5, len: 3, offset: 0, latest_offset: 0 }];
    assert!(do_output_backwards(&[], 1, 0, &tabs, data, Some(&bad), true).is_none());
}

#[test]
fn proto_flags_numbers() {
    assert_eq!(ProtoFlags::from_num(16), ProtoFlags::FourOffsetTables);
    assert_eq!(ProtoFlags::from_num(61), ProtoFlags::Composed(61));
    assert_eq!(ProtoFlags::from_num(0), ProtoFlags::Empty);
    assert_eq!(ProtoFlags::OrderBe.union(ProtoFlags::CopyGt7).as_num(), 3);
    assert_eq!(ProtoFlags::from_num(39).intersection(ProtoFlags::ReuseOffset), ProtoFlags::ReuseOffset);
    assert!(ProtoFlags::from_num(61).contains(ProtoFlags::AlignStart));
    assert!(!ProtoFlags::from_num(61).contains(ProtoFlags::CopyGt7));
    assert!(ProtoFlags::Empty.contains(ProtoFlags::Empty));
    assert!(ProtoFlags::Empty.is_empty());
    let p: ProtoFlags = 61u8.into();
    assert_eq!(u8::from(p), 61);
    assert_eq!(TraitFlags::from_num(7).as_num(), 7);
    assert_eq!(TraitFlags::from_num(2), TraitFlags::Len1Seq);
    assert_eq!(TraitFlags::LitSeq.union(TraitFlags::Len0123SeqMirrors), TraitFlags::Composed(5));
}

#[test]
fn encoding_text_of_tables() {
    let tabs: Vec<Vec<u8>> = vec![vec![0, 1, 2], vec![1], vec![10], vec![0], vec![15, 3]];
    let text = encoding_text_exec(true, &tabs);
    assert_eq!(
        String::from_utf8(text.clone()).unwrap(),
        "0120000000000000,1000,A000000000000000,0000000000000000,F300000000000000"
    );
    let three: Vec<Vec<u8>> = vec![vec![], vec![2, 2], vec![4], vec![9]];
    let text3 = encoding_text_exec(false, &three);
    assert_eq!(
        String::from_utf8(text3.clone()).unwrap(),
        "0000000000000000,2200,4000000000000000,9000000000000000"
    );
    let back = parse_encoding_exec(&text3, false).unwrap();
    assert_eq!(back[1], vec![2, 2, 0, 0]);
    assert_eq!(back[3][0], 9);
}

#[test]
fn written_stream_decrunches_with_simple_decruncher() {
    let data = b"xyaaaaaaazabcabc";
    let path = vec![
        PathItem { index: 0, len: 1, offset: 0, latest_offset: 0 },
        PathItem { index: 1, len: 1, offset: 0, latest_offset: 0 },
        PathItem { index: 2, len: 6, offset: 1, latest_offset: 0 },
        PathItem { index: 8, len: 1, offset: 0, latest_offset: 0 },
        PathItem { index: 9, len: 2, offset: 0, latest_offset: 0 },
        PathItem { index: 11, len: 2, offset: 3, latest_offset: 0 },
        PathItem { index: 13, len: 3, offset: 0, latest_offset: 0 },
    ];
    for proto in [9u8, 13, 25, 29, 41, 45, 57, 61] {
        let tabs = zero_encoding(proto & 16 != 0);
        let (mut stream, _info) = do_output_backwards(&[], proto, 0, &tabs, data, Some(&path), true).unwrap();
        stream.reverse();
        let p = DynProto::from_num(proto).unwrap();
        let mut exact = vec![0u8; data.len()];
        decrunch_exact(p, &stream, &mut exact).unwrap();
        assert_eq!(exact, data.to_vec(), "proto {proto}");
        let mut longer = vec![7u8; data.len() + 5];
        let tail = decrunch(p, &stream, &mut longer).unwrap().to_vec();
        assert_eq!(tail, data.to_vec(), "proto {proto}");
        assert_eq!(&longer[..5], &[7u8; 5]);
    }
}

#[test]
fn headerless_stream_decrunches_with_exported_encoding() {
    let data = b"abcabcabcabcxyzxyz";
    for proto in [9u8, 13, 25, 41, 61] {
        // with ReuseOffset the first copy comes right after a literal that
        // follows another copy of the same offset, so it reuses that offset
        let latest = if proto & 32 != 0 { 3 } else { 0 };
        let path = vec![
            PathItem { index: 0, len: 9, offset: 3, latest_offset: latest },
            PathItem { index: 9, len: 3, offset: 0, latest_offset: 0 },
            PathItem { index: 12, len: 3, offset: 3, latest_offset: 0 },
            PathItem { index: 15, len: 3, offset: 0, latest_offset: 0 },
        ];
        let four = proto & 16 != 0;
        let mut tabs: Vec<Vec<u8>> = vec![vec![1, 0, 3, 2], vec![1, 1], vec![2, 0, 3], vec![1, 2, 3]];
        if four {
            tabs.insert(3, vec![0, 4]);
        }
        let text = String::from_utf8(encoding_text_exec(four, &tabs)).unwrap();
        let (stream, _) = do_output_backwards(&[], proto, 0, &tabs, data, Some(&path), false).unwrap();
        let output = decrunch_raw(&stream, &options(proto, false, false, Some(&text)));
        assert_eq!(output, Ok(data.to_vec()), "proto {proto}");
        let (with_header, _) = do_output_backwards(&[], proto, 0, &tabs, data, Some(&path), true).unwrap();
        assert_eq!(decrunch_raw(&with_header, &options(proto, false, false, None)), Ok(data.to_vec()), "proto {proto}");
    }
}

#[test]
fn crunch_settings_pair_with_decrunch_settings() {
    let data = b"abcabcxyzxyz";
    let path = vec![
        PathItem { index: 0, len: 3, offset: 3, latest_offset: 0 },
        PathItem { index: 3, len: 3, offset: 0, latest_offset: 0 },
        PathItem { index: 6, len: 3, offset: 3, latest_offset: 0 },
        PathItem { index: 9, len: 3, offset: 0, latest_offset: 0 },
    ];
    // the path is the same for the data and for its reverse
    let tabs = zero_encoding(false);
    for forward in [false, true] {
        for write_reverse in [false, true] {
            let input: Vec<u8> = if forward { data.iter().rev().copied().collect() } else { data.to_vec() };
            let (mut out, _) = do_output_backwards(&[], 9, 0, &tabs, &input, Some(&path), true).unwrap();
            if forward {
                out.reverse();
            }
            if write_reverse {
                out.reverse();
            }
            let decrunched = decrunch_raw(&out, &options(9, forward != write_reverse, write_reverse, None));
            assert_eq!(decrunched, Ok(data.to_vec()), "forward {forward} write_reverse {write_reverse}");
        }
    }
}

#[test]
fn crunch_info_merge_and_output_arrangement() {
    let a = CrunchInfo { traits_used: TraitFlags::LitSeq, max_len: 7, max_offset: 100, needed_safety_offset: 3 };
    let b = CrunchInfo { traits_used: TraitFlags::Len1Seq, max_len: 9, max_offset: 50, needed_safety_offset: 3 };
    let m = a.merge(b);
    assert_eq!(m.traits_used.as_num(), 3);
    assert_eq!((m.max_len, m.max_offset, m.needed_safety_offset), (9, 100, 3));
    for (forward, write_reverse, expected) in
        [(false, false, vec![1u8, 2, 3]), (true, false, vec![3, 2, 1]), (false, true, vec![3, 2, 1]), (true, true, vec![1, 2, 3])]
    {
        let mut out = vec![1u8, 2, 3];
        arrange_output(&mut out, forward, write_reverse);
        assert_eq!(out, expected);
    }
}

#[test]
fn path_walk_from_search_nodes() {
    let node = |index: usize, offset: u32, len: u16, prev: Option<usize>, latest_offset: u32| PathNode {
        index,
        m: Match { offset, len },
        prev,
        latest_offset,
    };
    let nodes = vec![
        node(0, 3, 3, Some(3), 0),
        node(1, 0, 1, Some(2), 0),
        node(2, 0, 1, Some(3), 0),
        node(3, 0, 3, Some(6), 3),
        node(4, 0, 1, Some(5), 0),
        node(5, 0, 1, Some(6), 0),
        node(6, 0, 0, None, 7),
    ];
    let items = path_items(&nodes);
    assert_eq!(items.len(), 2);
    assert_eq!((items[0].index, items[0].len, items[0].offset, items[0].latest_offset), (0, 3, 3, 3));
    assert_eq!((items[1].index, items[1].len, items[1].offset, items[1].latest_offset), (3, 3, 0, 7));
    assert_eq!(path_matches(&nodes), vec![Match { offset: 3, len: 3 }, Match { offset: 0, len: 3 }]);
    assert!(path_items(&Vec::new()).is_empty());
}

#[test]
fn writer_keeps_prefix_and_notes_largest_offset() {
    let enc = "1011010200000000,2122,3212114335665737,5334344545755879,4445555556766789";
    let tabs = parse_encoding_exec(enc.as_bytes(), true).unwrap();
    let data = b"abcabcabcabcxyxy";
    let path = vec![
        PathItem { index: 0, len: 9, offset: 3, latest_offset: 0 },
        PathItem { index: 9, len: 3, offset: 0, latest_offset: 0 },
        PathItem { index: 12, len: 2, offset: 2, latest_offset: 0 },
        PathItem { index: 14, len: 2, offset: 0, latest_offset: 0 },
    ];
    let head = [7u8, 8, 9];
    let (stream, info) = do_output_backwards(&head, 61, 0, &tabs, data, Some(&path), false).unwrap();
    assert_eq!(&stream[..3], &head);
    assert_eq!(info.max_offset, 3);
    assert!(info.traits_used.as_num() < 8);
}
