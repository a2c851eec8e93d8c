use noita_eye_messages::alphabet::{default_ascii_alphabet, Alphabet, AlphabetError};
use noita_eye_messages::arx::{ARXKey, ARXRound};
use noita_eye_messages::bigcount::BigCount;
use noita_eye_messages::cipher::ARXCipher;
use noita_eye_messages::compare::{
    char_num,
    is_alpha,
    is_alphanum,
    is_lower_alpha,
    is_lower_atoi,
    is_num,
    is_ord,
    is_upper_alpha,
    is_upper_atoi,
};
use noita_eye_messages::csv::{export_csv_messages, parse_csv_alphabet, parse_csv_messages, parse_txt_messages, InvalidFormatErrorKind};
use noita_eye_messages::freq::{freq_dist_error, sort_desc, sorted_scaled_freqs, UnitTotals};
use noita_eye_messages::keydump::KeyDumpMeta;
use noita_eye_messages::keystream::{
    error_correction,
    get_key_bit,
    get_key_byte,
    sub32_message,
    CAULDRON_KEY,
    CAULDRON_KEY_LEN,
};
use noita_eye_messages::messages::{AcceleratedMessageList, Message};
use noita_eye_messages::partition::get_worker_slice;
use noita_eye_messages::render::format_hex_char;
use noita_eye_messages::smallbuf::UnitBuf;
use noita_eye_messages::stackvec::StackVec;
use noita_eye_messages::wire::{decode_varint, encode_varint};

fn ascii_alphabet() -> Alphabet {
    let mut alphabet = Alphabet::new(String::from("ASCII"));
    for u in 0x20u8..=0x7e {
        alphabet.add_unit(u, (u as char).to_string()).unwrap();
    }
    alphabet
}

fn message_of(name: &str, data: &[u8]) -> Message {
    let mut buf = UnitBuf::new();
    for &b in data {
        buf.push(b);
    }
    Message { name: String::from(name), data: buf }
}

#[test]
fn varint_round_trips() {
    for v in [0u64, 1, 127, 128, 300, 524288, u64::MAX] {
        let mut buf: Vec<u8> = Vec::new();
        encode_varint(&mut buf, v);
        assert_eq!(decode_varint(&buf, 0), Some((v, buf.len())));
    }
    assert_eq!(decode_varint(&vec![0u8], 0), Some((0, 1)));
    // A padded zero is not canonical and is refused.
    assert_eq!(decode_varint(&vec![0x80u8, 0x00], 0), None);
    // A truncated varint is refused.
    assert_eq!(decode_varint(&vec![0x80u8], 0), None);
}

#[test]
fn key_encoding_round_trips() {
    let mut key = ARXKey::new();
    key.rounds.push(ARXRound { add: 3, rot: 1, xor: 0 });
    key.rounds.push(ARXRound { add: 0, rot: 0, xor: 5 });
    let enc = key.encode_to_buffer();
    let back = ARXKey::from_buffer(&enc).unwrap();
    assert_eq!(back.encode_to_buffer(), enc);
    assert_eq!(back.rounds.len(), 2);
    assert_eq!(*back.rounds.get(0), ARXRound { add: 3, rot: 1, xor: 0 });
    assert_eq!(*back.rounds.get(1), ARXRound { add: 0, rot: 0, xor: 5 });

    // Trailing bytes make a buffer invalid as one whole key.
    let mut padded = enc.clone();
    padded.push(0);
    assert!(ARXKey::from_buffer(&padded).is_err());

    // More than eight rounds are refused.
    let mut big = ARXKey::new();
    for _ in 0..8 {
        big.rounds.push(ARXRound { add: 1, rot: 1, xor: 1 });
    }
    let mut enc9 = Vec::new();
    encode_varint(&mut enc9, 9);
    for _ in 0..9 {
        enc9.extend_from_slice(&[1, 1, 1]);
    }
    assert!(ARXKey::from_buffer(&enc9).is_err());
}

#[test]
fn key_decoding_rejects_bad_rotation() {
    // A rotation is a bit position: one round with rot 9 is no key.
    let buf = vec![1u8, 3, 9, 7];
    assert!(ARXKey::from_buffer(&buf).is_err());
    // rot 7 on the same shape decodes.
    let good = vec![1u8, 3, 7, 7];
    let k = ARXKey::from_buffer(&good).unwrap();
    assert_eq!(*k.rounds.get(0), ARXRound { add: 3, rot: 7, xor: 7 });
}

#[test]
fn stock_ascii_alphabet_shape() {
    let a = default_ascii_alphabet();
    assert_eq!(a.len(), 256);
    assert_eq!(a.get_name().as_str(), "ASCII");
    assert_eq!(a.get_unit(b'A').unwrap().grapheme.as_str(), "A");
    assert_eq!(a.get_unit(0x1f).unwrap().grapheme.as_str(), "");
    assert_eq!(a.get_unit(0xff).unwrap().grapheme.as_str(), "");
    assert_eq!(a.get_unit_min(), 0x20);
}

#[test]
fn key_rendering_is_stable_and_exact() {
    let mut key = ARXKey::new();
    key.rounds.push(ARXRound { add: 3, rot: 1, xor: 0 });
    key.rounds.push(ARXRound { add: 0, rot: 0, xor: 5 });
    assert_eq!(key.to_string(), "[a3->r1->x5]");
    assert_eq!(key.to_string(), key.to_string());

    let noop = ARXKey::new();
    assert_eq!(noop.to_string(), "[no-op key]");

    let mut one = ARXKey::new();
    one.rounds.push(ARXRound { add: 255, rot: 7, xor: 128 });
    assert_eq!(one.to_string(), "[a255->r7->x128]");

    let cipher = ARXCipher::new(Some("2")).unwrap();
    let net = key.encode_to_buffer();
    assert_eq!(cipher.net_key_to_string(&net).unwrap(), "[a3->r1->x5]");
}

#[test]
fn hex_escapes() {
    assert_eq!(format_hex_char(0x1f), "\\x1f");
    assert_eq!(format_hex_char(0x05), "\\x5");
    assert_eq!(format_hex_char(0xff), "\\xff");
    assert_eq!(format_hex_char(0x00), "\\x0");
}

#[test]
fn byte_classes() {
    assert_eq!(char_num('A'), 65);
    assert!(is_upper_alpha(b'A') && !is_upper_alpha(b'a'));
    assert!(is_lower_alpha(b'z') && !is_lower_alpha(b'Z'));
    assert!(is_num(b'0') && !is_num(b'a'));
    assert!(is_alpha(b'Q') && is_alpha(b'q') && !is_alpha(b'1'));
    assert!(is_alphanum(b'1') && !is_alphanum(b' '));
    assert!(is_upper_atoi(b'I') && !is_upper_atoi(b'J'));
    assert!(is_lower_atoi(b'i') && !is_lower_atoi(b'j'));
    assert!(is_ord(b'A') && is_ord(b'i') && is_ord(b'7') && !is_ord(b'z'));
}

#[test]
fn worker_slices_tile_the_range() {
    assert_eq!(get_worker_slice(255, 0, 4), (0, 63));
    assert_eq!(get_worker_slice(255, 1, 4), (64, 127));
    assert_eq!(get_worker_slice(255, 3, 4), (192, 255));
    assert_eq!(get_worker_slice(255, 0, 1), (0, 255));
    // Uneven splits stay adjacent and cover everything.
    let mut next = 0u64;
    for w in 0..3u32 {
        let (lo, hi) = get_worker_slice(255, w, 3);
        assert_eq!(lo, next);
        next = hi + 1;
    }
    assert_eq!(next, 256);
}

#[test]
fn unit_totals_count_exactly() {
    let msgs = vec![message_of("a", &[1, 2, 2, 3]), message_of("b", &[2, 3, 3])];
    let totals = UnitTotals::from_messages(&msgs);
    assert_eq!(totals.data[0], 0);
    assert_eq!(totals.data[1], 1);
    assert_eq!(totals.data[2], 3);
    assert_eq!(totals.data[3], 3);

    let imd = AcceleratedMessageList::from_messages(&msgs).data;
    let t2 = UnitTotals::from_interleaved_message_data(&imd);
    assert_eq!(t2.data, totals.data);
}

#[test]
fn frequency_errors_are_exact() {
    // Counts 2,1,1 of 4 units scale to 0.5, 0.25, 0.25 of the scale.
    let msgs = vec![message_of("a", &[9, 9, 4, 7])];
    let totals = UnitTotals::from_messages(&msgs);
    let freqs = sorted_scaled_freqs(&totals, 4);
    assert_eq!(freqs[0], 500_000_000);
    assert_eq!(freqs[1], 250_000_000);
    assert_eq!(freqs[2], 250_000_000);
    assert_eq!(freqs[3], 0);

    let zeros = vec![0i64; 256];
    assert_eq!(freq_dist_error(&freqs, &zeros), 1_000_000_000);
    assert_eq!(freq_dist_error(&freqs, &freqs), 0);
}

#[test]
fn sorting_is_descending() {
    let v = vec![3i64, 9, 1, 9, 0];
    let s = sort_desc(v);
    assert_eq!(s, vec![9, 9, 3, 1, 0]);
}

#[test]
fn keystream_reads() {
    // The first byte is the key's top eight bits.
    let mut left = CAULDRON_KEY_LEN;
    let b = get_key_byte(&mut left);
    assert_eq!(b as u32, (CAULDRON_KEY >> 23) & 0xff);
    assert_eq!(left, 23);
    let bit = get_key_bit(&mut left);
    assert_eq!(bit, (CAULDRON_KEY >> 22) & 1 > 0);
    assert_eq!(left, 22);
    // Reading past the end wraps around the key.
    let mut left2 = 4u32;
    let b2 = get_key_byte(&mut left2);
    assert_eq!(left2, CAULDRON_KEY_LEN - 8 + 4);
    let expected = (((CAULDRON_KEY << 4) & 0xff) | ((CAULDRON_KEY >> left2) & 0xff)) & 0xff;
    assert_eq!(b2 as u32, expected);
}

#[test]
fn sub32_shifts_bytes() {
    assert_eq!(sub32_message(&vec![72, 33, 31, 0]), vec![40, 1, 255, 224]);
}

#[test]
fn majority_vote_corrects_errors() {
    let messages = vec![
        vec![0b1010_1010u8, 0xff],
        vec![0b1010_1010, 0xff, 9],
        vec![0b0010_1011, 0x0f],
    ];
    let fixed = error_correction(&messages);
    assert_eq!(fixed, vec![0b1010_1010, 0xff]);
}

#[test]
fn alphabet_rules() {
    let mut alphabet = Alphabet::new(String::from("tiny"));
    assert_eq!(alphabet.len(), 0);
    alphabet.add_unit(65, String::from("A")).unwrap();
    assert_eq!(alphabet.add_unit(65, String::from("B")), Err(AlphabetError::DuplicateUnit));
    assert_eq!(alphabet.add_unit(66, String::from("A")), Err(AlphabetError::DuplicateGrapheme));
    assert_eq!(alphabet.add_unit(66, String::from("AB")), Err(AlphabetError::InvalidGrapheme));
    assert_eq!(alphabet.add_unit(66, String::from("")), Err(AlphabetError::InvalidGrapheme));
    alphabet.add_anonymous_unit(0).unwrap();
    assert_eq!(alphabet.add_anonymous_unit(0), Err(AlphabetError::DuplicateUnit));
    assert_eq!(alphabet.len(), 2);
    assert!(alphabet.get_unit(65).unwrap().is_printable());
    assert!(!alphabet.get_unit(0).unwrap().is_printable());
    assert!(alphabet.get_unit(1).is_none());
    assert_eq!(alphabet.get_unit_idx(&String::from("A")), Some(65));
    assert_eq!(alphabet.get_unit_idx(&String::from("B")), None);
    assert_eq!(alphabet.get_unit_idx(&String::from("")), None);
    assert_eq!(alphabet.get_unit_min(), 65);

    let full = ascii_alphabet();
    assert_eq!(full.len(), 95);
    assert_eq!(full.get_unit_min(), 0x20);
}

#[test]
fn csv_round_trip() {
    let alphabet = ascii_alphabet();
    let text = b"hello,72,101,108\nworld, 33 ,255\n";
    let msgs = parse_csv_messages(text, &alphabet).unwrap();
    assert_eq!(msgs.len(), 2);
    assert_eq!(msgs[0].name, "hello");
    assert_eq!(msgs[0].data.len(), 3);
    assert_eq!(msgs[0].data.get(0), 72);
    // 255 is not in the printable alphabet and is dropped.
    assert_eq!(msgs[1].data.len(), 1);
    assert_eq!(msgs[1].data.get(0), 33);

    let out = export_csv_messages(&msgs);
    assert_eq!(out, "hello,72,101,108\nworld,33");
}

fn csv_error_kind(text: &[u8], alphabet: &Alphabet) -> InvalidFormatErrorKind {
    match parse_csv_messages(text, alphabet) {
        Err(e) => e.kind,
        Ok(_) => panic!("expected a format error"),
    }
}

#[test]
fn csv_errors() {
    let alphabet = ascii_alphabet();
    assert_eq!(csv_error_kind(b",72\n", &alphabet), InvalidFormatErrorKind::EmptyMessageName);
    assert_eq!(csv_error_kind(b"a,xyz\n", &alphabet), InvalidFormatErrorKind::InvalidDatum);
    assert_eq!(csv_error_kind(b"a,999\n", &alphabet), InvalidFormatErrorKind::InvalidDatum);
    assert_eq!(csv_error_kind(b"a,0\n", &alphabet), InvalidFormatErrorKind::EmptyMessage);
    assert_eq!(csv_error_kind(b"\n\n", &alphabet), InvalidFormatErrorKind::NoMessages);
}

#[test]
fn csv_errors_carry_row_and_column() {
    let alphabet = ascii_alphabet();
    // The bad cell is the third of the second row; rows and columns
    // count from zero.
    let e = match parse_csv_messages(b"ok,72\nalso, 101 ,nope\n", &alphabet) {
        Err(e) => e,
        Ok(_) => panic!("expected a format error"),
    };
    assert_eq!(e.kind, InvalidFormatErrorKind::InvalidDatum);
    assert_eq!(e.row, 1);
    assert_eq!(e.col, 2);
    // A row whose units the alphabet all drops reports the column
    // after its last cell.
    let e2 = match parse_csv_messages(b"a,0,1\n", &alphabet) {
        Err(e) => e,
        Ok(_) => panic!("expected a format error"),
    };
    assert_eq!(e2.kind, InvalidFormatErrorKind::EmptyMessage);
    assert_eq!(e2.row, 0);
    assert_eq!(e2.col, 3);
}

#[test]
fn dump_header_refuses_noise() {
    let meta = KeyDumpMeta {
        build_hash: String::from("deadbeef"),
        cipher_name: String::from("arx"),
        cipher_config: None,
    };
    let bytes = meta.encode();
    let (back, keys) = noita_eye_messages::keydump::read_dump(&bytes).unwrap();
    assert_eq!(back.build_hash, b"deadbeef".to_vec());
    assert_eq!(back.cipher_config, None);
    assert_eq!(keys.len(), 0);

    let mut broken = bytes.clone();
    broken[1] = 99;
    assert!(noita_eye_messages::keydump::read_dump(&broken).is_none());
}

#[test]
fn big_counts_are_exact() {
    let a = BigCount::from_u64(u64::MAX);
    let b = a.add(&BigCount::from_u64(1));
    assert_eq!(b, BigCount { lo: 0, hi: 1 });
    let c = b.mul_u64(524288);
    assert_eq!(c, BigCount { lo: 0, hi: 524288 });
    assert!(BigCount::new().is_zero());
    assert!(!c.is_zero());
    let d = c.add_u64(7);
    assert_eq!(d, BigCount { lo: 7, hi: 524288 });
}

#[test]
fn bounded_vector_behaves() {
    let mut v: StackVec<u8, 4> = StackVec::new();
    assert_eq!(v.len(), 0);
    v.push(10);
    v.push(20);
    v.push(30);
    assert_eq!(v.len(), 3);
    assert_eq!(*v.get(1), 20);
    v.set(1, 21);
    assert_eq!(*v.get(1), 21);
    assert_eq!(v.pop(), 30);
    assert_eq!(v.len(), 2);
    v.resize(4, 9);
    assert_eq!(v.len(), 4);
    assert_eq!(*v.get(3), 9);
    v.resize(1, 0);
    assert_eq!(v.len(), 1);
    assert_eq!(*v.get(0), 10);

    let mut it = v.iter();
    assert_eq!(it.next(), Some(&10));
    assert_eq!(it.next(), None);

    let mut w: StackVec<u8, 3> = StackVec::new();
    w.push(1);
    w.push(2);
    w.push(3);
    let mut both = w.iter();
    assert_eq!(both.next_back(), Some(&3));
    assert_eq!(both.next(), Some(&1));
    assert_eq!(both.next_back(), Some(&2));
    assert_eq!(both.next(), None);
    assert_eq!(both.next_back(), None);
}

#[test]
fn alphabet_csv_parses() {
    let text = b"tiny\n65,A,0.5\n66,B,0.5\n";
    let alphabet = parse_csv_alphabet(text).unwrap();
    assert_eq!(alphabet.len(), 2);
    assert_eq!(alphabet.get_unit_idx(&String::from("B")), Some(66));
    assert_eq!(alphabet.get_name(), "tiny");

    let dup = b"tiny\n65,A,0.5\n65,B,0.5\n";
    assert!(matches!(
        parse_csv_alphabet(dup),
        Err(e) if e.kind == InvalidFormatErrorKind::BadAlphabetUnit
    ));
    let short = b"tiny\n65,A\n";
    assert!(matches!(
        parse_csv_alphabet(short),
        Err(e) if e.kind == InvalidFormatErrorKind::MissingAlphabetWeight
    ));
    let wide = b"tiny\n65,A,0.5,9\n";
    assert!(matches!(
        parse_csv_alphabet(wide),
        Err(e) if e.kind == InvalidFormatErrorKind::UnexpectedDatum
    ));
    let empty = b"tiny\n";
    assert!(matches!(
        parse_csv_alphabet(empty),
        Err(e) if e.kind == InvalidFormatErrorKind::EmptyAlphabet
    ));
    let nameless = b"";
    assert!(matches!(
        parse_csv_alphabet(nameless),
        Err(e) if e.kind == InvalidFormatErrorKind::MissingAlphabetName
    ));
}

#[test]
fn txt_messages_parse() {
    let alphabet = ascii_alphabet();
    let text = b"Hi!\nok\n";
    let msgs = parse_txt_messages(text, &alphabet).unwrap();
    assert_eq!(msgs.len(), 2);
    assert_eq!(msgs[0].name, "message-0");
    assert_eq!(msgs[1].name, "message-1");
    assert_eq!(msgs[0].data.len(), 3);
    assert_eq!(msgs[0].data.get(0), b'H');
    assert_eq!(msgs[0].data.get(2), b'!');
    assert_eq!(msgs[1].data.len(), 2);

    // A line whose graphemes the alphabet does not know keeps nothing.
    assert!(matches!(
        parse_txt_messages("\u{00e9}\n".as_bytes(), &alphabet),
        Err(e) if e.kind == InvalidFormatErrorKind::EmptyMessage
    ));
    assert!(matches!(
        parse_txt_messages(b"", &alphabet),
        Err(e) if e.kind == InvalidFormatErrorKind::NoMessages
    ));
}

#[test]
fn semaphore_can_be_retaken() {
    let gate = noita_eye_messages::threading::Semaphore::new();
    let guard = gate.lock();
    drop(guard);
    let guard2 = gate.lock();
    drop(guard2);
}
