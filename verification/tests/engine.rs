use noita_eye_messages::alphabet::Alphabet;
use noita_eye_messages::arx::{decrypt_byte, encrypt_byte, ARXCodecContext, ARXKey, ARXRound};
use noita_eye_messages::arx_enum::{ARXKeyCursor, ARXWorkerContext};
use noita_eye_messages::bigcount::BigCount;
use noita_eye_messages::cipher::{deserialise_cipher, parse_round_count, ARXCipher, StandardCipherError};
use noita_eye_messages::coordinator::{derive_worker_total, drain_worker, CoordinatorState};
use noita_eye_messages::expr::{EvalError, Expr, Value};
use noita_eye_messages::keydump::{read_dump, KeyDumpMeta};
use noita_eye_messages::messages::{AcceleratedMessageList, InterleavedMessageData, Message};
use noita_eye_messages::predicate::{compile_predicate, eval_expr, is_match, UserCondition};
use noita_eye_messages::smallbuf::UnitBuf;
use noita_eye_messages::worker::{TaskPacket, WorkerRun};

fn ascii_alphabet() -> Alphabet {
    let mut alphabet = Alphabet::new(String::from("ASCII"));
    for u in 0x20u8..=0x7e {
        alphabet.add_unit(u, (u as char).to_string()).unwrap();
    }
    alphabet
}

fn message_of(name: &str, data: &[u8]) -> Message {
    let mut buf = UnitBuf::new();
    for &b in data {
        buf.push(b);
    }
    Message { name: String::from(name), data: buf }
}

fn interleave(datas: &[&[u8]]) -> InterleavedMessageData {
    let msgs: Vec<Message> = datas
        .iter()
        .enumerate()
        .map(|(i, d)| message_of(&format!("m{}", i), d))
        .collect();
    AcceleratedMessageList::from_messages(&msgs).data
}

fn key_of(rounds: &[(u8, u8, u8)]) -> ARXKey {
    let mut key = ARXKey::new();
    for &(add, rot, xor) in rounds {
        key.rounds.push(ARXRound { add, rot, xor });
    }
    key
}

#[test]
fn round_trip_one_message() {
    // Encrypt then decrypt "Hello" under a two-round key.
    let _alphabet = ascii_alphabet();
    let key = key_of(&[(3, 1, 0), (0, 0, 5)]);
    let plain = [72u8, 101, 108, 108, 111];

    let imd = interleave(&[&plain]);
    let enc_ctx = ARXCodecContext::<false>::new(&imd, &key);
    let ct = enc_ctx.get_output_message(0);
    let mut ct_bytes = Vec::new();
    for u in 0..ct.len() {
        ct_bytes.push(ct.get(u));
    }

    let imd2 = interleave(&[ct_bytes.as_slice()]);
    let dec_ctx = ARXCodecContext::<true>::new(&imd2, &key);
    let pt = dec_ctx.get_output_message(0);
    let mut pt_bytes = Vec::new();
    for u in 0..pt.len() {
        pt_bytes.push(pt.get(u));
    }
    assert_eq!(pt_bytes, plain.to_vec());
}

#[test]
fn byte_round_trips_edge_keys() {
    for &rounds in &[
        &[(255u8, 7u8, 255u8)][..],
        &[(0, 0, 0)][..],
        &[(1, 3, 77), (200, 6, 13), (255, 7, 255)][..],
    ] {
        let key = key_of(rounds);
        for b in [0u8, 1, 127, 128, 255] {
            assert_eq!(encrypt_byte(decrypt_byte(b, &key), &key), b);
            assert_eq!(decrypt_byte(encrypt_byte(b, &key), &key), b);
        }
    }
}

#[test]
fn keyspace_count_three_rounds() {
    // 524288^3 keys for a three-round cipher on one worker.
    let cipher = ARXCipher::new(Some("3")).unwrap();
    let ctx = cipher.create_worker_context();
    let total = ctx.get_total_keys();
    assert_eq!(total, BigCount::from_u64(144115188075855872));
}

#[test]
fn partition_disjointness_four_workers() {
    let cipher = ARXCipher::new(Some("1")).unwrap();
    let expected = [(0u16, 64u16), (64, 128), (128, 192), (192, 256)];
    let mut sum = BigCount::new();
    for w in 0..4u32 {
        let ctx = cipher.create_worker_context_parallel(w, 4);
        assert_eq!((ctx.a_lo, ctx.a_hi_excl), expected[w as usize]);
        sum = sum.add(&ctx.get_total_keys());
    }
    assert_eq!(sum, BigCount::from_u64(524288));
}

#[test]
fn worker_total_capping() {
    // A cap above the cipher's bound is brought down to it.
    assert_eq!(derive_worker_total(false, Some(1000), 4096, 256), 256);
    assert_eq!(derive_worker_total(false, None, 8, 256), 8);
    assert_eq!(derive_worker_total(false, Some(2), 8, 256), 2);
    assert_eq!(derive_worker_total(true, Some(1000), 4096, 256), 1);
}

#[test]
fn predicate_specialization_constant_folds() {
    // in(0,0) == 42, so `in(0,0) - 42` folds to the constant zero and
    // never matches.
    let imd = interleave(&[&[42u8, 1, 2]]);
    let cond = UserCondition::new(&String::from("in(0,0) - 42")).unwrap();
    let in_errs: Vec<i64> = Vec::new();
    let compiled = compile_predicate(&cond.into_expr(), &imd, &in_errs, 0).unwrap();
    assert!(matches!(compiled, Expr::IntLit(0)));

    let key = key_of(&[(9, 2, 17)]);
    let codec = ARXCodecContext::<true>::new(&imd, &key);
    let out_errs: Vec<i64> = Vec::new();
    let v = eval_expr(&compiled, &codec, &in_errs, &out_errs);
    assert_eq!(is_match(&v), Ok(false));
}

#[test]
fn predicate_out_of_range_constant_rejected() {
    let imd = interleave(&[&[42u8]]);
    let cond = UserCondition::new(&String::from("in(0,5)")).unwrap();
    let in_errs: Vec<i64> = Vec::new();
    assert!(compile_predicate(&cond.into_expr(), &imd, &in_errs, 0).is_err());
}

#[test]
fn compiled_predicate_agrees_with_source() {
    // A condition with non-constant parts evaluates the same compiled
    // and uncompiled, key by key.
    let imd = interleave(&[&[10u8, 20, 30]]);
    let cond = UserCondition::new(&String::from("out(0, in(0,1) % 3) > 15 && !(out(0,0) == 0)"))
        .unwrap();
    let expr = cond.into_expr();
    let in_errs: Vec<i64> = Vec::new();
    let out_errs: Vec<i64> = Vec::new();
    let compiled = compile_predicate(&expr, &imd, &in_errs, 0).unwrap();
    for &rounds in &[&[(0u8, 0u8, 0u8)][..], &[(17, 5, 99)][..], &[(255, 7, 255), (1, 1, 1)][..]] {
        let key = key_of(rounds);
        let codec = ARXCodecContext::<true>::new(&imd, &key);
        let direct = eval_expr(&expr, &codec, &in_errs, &out_errs);
        let fast = eval_expr(&compiled, &codec, &in_errs, &out_errs);
        assert_eq!(direct, fast);
    }
}

#[test]
fn eval_errors_surface() {
    let imd = interleave(&[&[1u8]]);
    let key = key_of(&[(0, 0, 0)]);
    let codec = ARXCodecContext::<true>::new(&imd, &key);
    let in_errs: Vec<i64> = Vec::new();
    let out_errs: Vec<i64> = Vec::new();

    let div = UserCondition::new(&String::from("1 / 0")).unwrap();
    assert_eq!(div.eval_condition(&codec, &in_errs, &out_errs), Err(EvalError::DivByZero));

    let ovf = UserCondition::new(&String::from("9223372036854775807 + 1")).unwrap();
    assert_eq!(ovf.eval_condition(&codec, &in_errs, &out_errs), Err(EvalError::Overflow));

    let oob = UserCondition::new(&String::from("in(7, 0)")).unwrap();
    assert_eq!(oob.eval_condition(&codec, &in_errs, &out_errs), Err(EvalError::OutOfBounds));
}

#[test]
fn condition_type_errors_rejected() {
    assert!(UserCondition::new(&String::from("true + 1")).is_err());
    assert!(UserCondition::new(&String::from("unknown_binding(1)")).is_err());
    assert!(UserCondition::new(&String::from("1 +")).is_err());
    assert!(UserCondition::new(&String::from("in(0,0) > 0")).is_ok());
}

#[test]
fn coordinator_drains_all_matches() {
    // Predicate `true`, one round, two workers: every one of the
    // 524288 keys is a match and all of them arrive.
    let imd = interleave(&[&[72u8, 101, 108]]);
    let langs: Vec<Vec<i64>> = Vec::new();
    let cipher = ARXCipher::new(Some("1")).unwrap();
    let keys_total = {
        let mut t = BigCount::new();
        for w in 0..2u32 {
            t = t.add(&cipher.create_worker_context_parallel(w, 2).get_total_keys());
        }
        t
    };
    assert_eq!(keys_total, BigCount::from_u64(524288));

    let mut coordinator = CoordinatorState::new(2, keys_total);
    let mut matches: Vec<Vec<u8>> = Vec::new();
    for w in 0..2u32 {
        let ctx = cipher.create_worker_context_parallel(w, 2);
        let cond = UserCondition::new(&String::from("true")).unwrap();
        let mut run: WorkerRun<true> = WorkerRun::new(w, &imd, &langs, cond, ctx).unwrap();
        let ok = drain_worker(&mut run, &mut coordinator, &mut matches);
        assert!(ok);
    }
    assert!(coordinator.is_done());
    assert_eq!(coordinator.keys_checked(), coordinator.keys_total());
    assert_eq!(matches.len(), 524288);
}

#[test]
fn empty_keyspace_finishes_with_zero_keys() {
    // A context with no rounds holds no keys: the worker sends only
    // its terminal packet and reports nothing checked.
    let imd = interleave(&[&[1u8, 2]]);
    let langs: Vec<Vec<i64>> = Vec::new();
    let ctx = ARXWorkerContext { round_count: 0, a_lo: 0, a_hi_excl: 256 };
    let cond = UserCondition::new(&String::from("true")).unwrap();
    let mut run: WorkerRun<true> = WorkerRun::new(9, &imd, &langs, cond, ctx).unwrap();
    match run.next_packet() {
        Some(TaskPacket::Finished { worker_id }) => assert_eq!(worker_id, 9),
        _ => panic!("expected an immediate terminal packet"),
    }
    assert!(run.next_packet().is_none());
}

#[test]
fn worker_reports_matches_in_order() {
    // Match exactly the keys whose first output byte is zero; the
    // reported keys decode and re-encode unchanged.
    let imd = interleave(&[&[7u8]]);
    let langs: Vec<Vec<i64>> = Vec::new();
    let cipher = ARXCipher::new(Some("1")).unwrap();
    let ctx = cipher.create_worker_context();
    let cond = UserCondition::new(&String::from("out(0,0) == 0")).unwrap();
    let mut run: WorkerRun<true> = WorkerRun::new(0, &imd, &langs, cond, ctx).unwrap();
    let mut coordinator = CoordinatorState::new(1, BigCount::from_u64(524288));
    let mut matches: Vec<Vec<u8>> = Vec::new();
    assert!(drain_worker(&mut run, &mut coordinator, &mut matches));
    // 2048 (xor, rot) pairs per add value map 7 to 0 exactly once each.
    assert_eq!(matches.len(), 2048);
    for net in &matches {
        let k = ARXKey::from_buffer(net).unwrap();
        assert_eq!(&k.encode_to_buffer(), net);
        let dk = decrypt_byte(7, &k);
        assert_eq!(dk, 0);
    }
}

#[test]
fn worker_enumeration_is_deterministic() {
    // The same partition visited twice gives byte-identical key lists.
    let cipher = ARXCipher::new(Some("1")).unwrap();
    let ctx = cipher.create_worker_context_parallel(1, 16);
    let walk = || {
        let mut seen: Vec<Vec<u8>> = Vec::new();
        let mut cursor = ARXKeyCursor::start(&ctx).unwrap();
        loop {
            seen.push(cursor.current().encode_to_buffer());
            if !cursor.advance() {
                break;
            }
        }
        seen
    };
    let a = walk();
    let b = walk();
    assert_eq!(a.len(), 32768);
    assert_eq!(a, b);
}

#[test]
fn resume_from_dump() {
    // Write a header and ten keys; reading recovers the header and
    // exactly those keys.
    let meta = KeyDumpMeta {
        build_hash: String::from("abc"),
        cipher_name: String::from("arx"),
        cipher_config: Some(String::from("2")),
    };
    let mut dump = meta.encode();
    let cipher = ARXCipher::new(Some("2")).unwrap();
    let ctx = cipher.create_worker_context();
    let mut cursor = ARXKeyCursor::start(&ctx).unwrap();
    let mut written: Vec<Vec<u8>> = Vec::new();
    for _ in 0..10 {
        let enc = cursor.current().encode_to_buffer();
        dump.extend_from_slice(&enc);
        written.push(enc);
        cursor.advance();
    }
    let (meta_back, keys_back) = read_dump(&dump).unwrap();
    assert_eq!(meta_back.build_hash, b"abc".to_vec());
    assert_eq!(meta_back.cipher_name, b"arx".to_vec());
    assert_eq!(meta_back.cipher_config, Some(b"2".to_vec()));
    assert_eq!(keys_back.len(), 10);
    for (k, w) in keys_back.iter().zip(written.iter()) {
        assert_eq!(&k.encode_to_buffer(), w);
    }
}

#[test]
fn cipher_registry_and_config() {
    assert_eq!(parse_round_count("3"), Some(3));
    assert_eq!(parse_round_count("8"), Some(8));
    assert_eq!(parse_round_count("0"), None);
    assert_eq!(parse_round_count("9"), None);
    assert_eq!(parse_round_count(""), None);
    assert_eq!(parse_round_count("2x"), None);
    assert_eq!(parse_round_count("999999999999999999999"), None);

    assert!(deserialise_cipher("arx", Some("2")).is_ok());
    assert!(matches!(
        deserialise_cipher("caesar", Some("2")),
        Err(StandardCipherError::UnknownCipher)
    ));
    assert!(matches!(
        deserialise_cipher("arx", None),
        Err(StandardCipherError::MissingConfiguration)
    ));
    assert!(matches!(
        deserialise_cipher("arx", Some("0")),
        Err(StandardCipherError::BadConfiguration { .. })
    ));
}

#[test]
fn evaluation_value_shapes() {
    let imd = interleave(&[&[5u8]]);
    let key = key_of(&[(0, 0, 0)]);
    let codec = ARXCodecContext::<true>::new(&imd, &key);
    let in_errs: Vec<i64> = Vec::new();
    let out_errs: Vec<i64> = Vec::new();
    let cond = UserCondition::new(&String::from("in(0,0) * 2 - 3")).unwrap();
    let expr_val = eval_expr(&cond.into_expr(), &codec, &in_errs, &out_errs);
    assert_eq!(expr_val, Ok(Value::Int(7)));
}
