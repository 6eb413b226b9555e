use ctr::cipher::{KeyIvInit, StreamCipher};
use srt_protocol::connection::ConnectionSettings;
use srt_protocol::encryption::{
    decrypted_packet, make_iv, CipherSettings, Decryption, DecryptionError, KeyMaterialError,
    KeySize,
};
use srt_protocol::output::Output;
use srt_protocol::packet::{
    ControlTypes, DataEncryption, DataPacket, KeyingMaterialMessage, SrtControlPacket,
};
use srt_protocol::receiver::{Receiver, ReceiverContext};
use srt_protocol::seq_number::SeqNumber;
use srt_protocol::statistics::SocketStatistics;
use srt_protocol::time::{Duration, Instant, TimeStamp};
use srt_protocol::timers::Timers;

const PASSPHRASE: &[u8] = b"correct horse battery";

fn salt() -> Vec<u8> {
    (0u8..16).map(|i| i.wrapping_mul(17).wrapping_add(3)).collect()
}

fn key(len: usize, seed: u8) -> Vec<u8> {
    (0..len).map(|i| (i as u8).wrapping_mul(31).wrapping_add(seed)).collect()
}

fn wrap(passphrase: &[u8], salt: &[u8], keys: &[u8], key_len: usize) -> Vec<u8> {
    let mut kek = vec![0u8; key_len];
    pbkdf2::pbkdf2_hmac::<sha1::Sha1>(passphrase, &salt[8..16], 2048, &mut kek);
    let mut out = vec![0u8; keys.len() + 8];
    match key_len {
        16 => aes_kw::KekAes128::try_from(&kek[..]).unwrap().wrap(keys, &mut out).unwrap(),
        24 => aes_kw::KekAes192::try_from(&kek[..]).unwrap().wrap(keys, &mut out).unwrap(),
        _ => aes_kw::KekAes256::try_from(&kek[..]).unwrap().wrap(keys, &mut out).unwrap(),
    }
    out
}

fn iv_for(salt: &[u8], seq: u32) -> Vec<u8> {
    let mut iv = vec![0u8; 16];
    iv[..14].copy_from_slice(&salt[..14]);
    for (i, b) in seq.to_be_bytes().iter().enumerate() {
        iv[10 + i] ^= b;
    }
    iv
}

fn encrypt(key: &[u8], salt: &[u8], seq: u32, plain: &[u8]) -> Vec<u8> {
    let iv = iv_for(salt, seq);
    let mut data = plain.to_vec();
    match key.len() {
        16 => ctr::Ctr128BE::<aes::Aes128>::new_from_slices(key, &iv)
            .unwrap()
            .apply_keystream(&mut data),
        24 => ctr::Ctr128BE::<aes::Aes192>::new_from_slices(key, &iv)
            .unwrap()
            .apply_keystream(&mut data),
        _ => ctr::Ctr128BE::<aes::Aes256>::new_from_slices(key, &iv)
            .unwrap()
            .apply_keystream(&mut data),
    }
    data
}

fn material(even: Option<&[u8]>, odd: Option<&[u8]>, key_len: usize) -> KeyingMaterialMessage {
    let mut keys = Vec::new();
    if let Some(k) = even {
        keys.extend_from_slice(k);
    }
    if let Some(k) = odd {
        keys.extend_from_slice(k);
    }
    KeyingMaterialMessage {
        even: even.is_some(),
        odd: odd.is_some(),
        salt: salt(),
        wrapped_keys: wrap(PASSPHRASE, &salt(), &keys, key_len),
    }
}

fn copy(m: &KeyingMaterialMessage) -> KeyingMaterialMessage {
    KeyingMaterialMessage {
        even: m.even,
        odd: m.odd,
        salt: m.salt.clone(),
        wrapped_keys: m.wrapped_keys.clone(),
    }
}

fn decryption(key_size: KeySize) -> Decryption {
    Decryption::new(Some(CipherSettings { key_size, passphrase: PASSPHRASE.to_vec() }))
}

fn data(seq: u32, encryption: DataEncryption, payload: Vec<u8>) -> DataPacket {
    DataPacket {
        seq_number: SeqNumber::new_truncate(seq),
        msg_number: 3,
        timestamp: TimeStamp::from_micros(9),
        dest_socket_id: 4,
        encryption,
        payload,
    }
}

#[test]
fn key_sizes_in_bytes() {
    assert_eq!(KeySize::Aes128.bytes(), 16);
    assert_eq!(KeySize::Aes192.bytes(), 24);
    assert_eq!(KeySize::Aes256.bytes(), 32);
}

#[test]
fn counter_block_mixes_salt_and_sequence_number() {
    let iv = make_iv(&salt(), SeqNumber::new_truncate(0x0102_0304));
    assert_eq!(iv, iv_for(&salt(), 0x0102_0304));
    assert_eq!(iv[14], 0);
    assert_eq!(iv[15], 0);
    assert_eq!(iv[9], salt()[9]);
    assert_eq!(iv[10], salt()[10] ^ 1);
    assert_eq!(iv[13], salt()[13] ^ 4);
    let short = make_iv(&[9, 8, 7], SeqNumber::new_truncate(0x0102_0304));
    assert_eq!(short, vec![9, 8, 7, 0, 0, 0, 0, 0, 0, 0, 1, 2, 3, 4, 0, 0]);
}

#[test]
fn plain_packet_passes_through() {
    let d = decryption(KeySize::Aes128);
    let packet = data(5, DataEncryption::Plain, vec![1, 2, 3]);
    assert_eq!(d.decrypt(packet), Ok((0, data(5, DataEncryption::Plain, vec![1, 2, 3]))));
    let none = Decryption::new(None);
    assert_eq!(
        none.decrypt(data(5, DataEncryption::Plain, vec![1])),
        Ok((0, data(5, DataEncryption::Plain, vec![1])))
    );
}

#[test]
fn encrypted_packet_needs_a_key() {
    let none = Decryption::new(None);
    assert_eq!(
        none.decrypt(data(5, DataEncryption::Even, vec![1])),
        Err(DecryptionError::NoCipher)
    );
    let d = decryption(KeySize::Aes128);
    assert_eq!(
        d.decrypt(data(5, DataEncryption::Even, vec![1])),
        Err(DecryptionError::MissingKey)
    );
    assert_eq!(d.decrypt(data(5, DataEncryption::Odd, vec![1])), Err(DecryptionError::MissingKey));
}

#[test]
fn new_key_material_is_echoed_and_decrypts() {
    let mut d = decryption(KeySize::Aes128);
    let even = key(16, 5);
    let km = material(Some(&even), None, 16);
    assert_eq!(d.refresh_key_material(copy(&km)), Ok(Some(copy(&km))));
    let plain = b"a payload that is longer than one block of the cipher".to_vec();
    let cipher = encrypt(&even, &salt(), 77, &plain);
    assert_ne!(cipher, plain);
    assert_eq!(
        d.decrypt(data(77, DataEncryption::Even, cipher.clone())),
        Ok((plain.len(), data(77, DataEncryption::Plain, plain.clone())))
    );
    let other = d.decrypt(data(78, DataEncryption::Even, cipher)).unwrap();
    assert_ne!(other.1.payload, plain);
    assert_eq!(d.decrypt(data(77, DataEncryption::Odd, plain)), Err(DecryptionError::MissingKey));
}

#[test]
fn duplicate_key_material_is_not_answered() {
    let mut d = decryption(KeySize::Aes128);
    let km = material(Some(&key(16, 5)), None, 16);
    assert!(d.refresh_key_material(copy(&km)).unwrap().is_some());
    assert_eq!(d.refresh_key_material(copy(&km)), Ok(None));
    assert_eq!(d.refresh_key_material(copy(&km)), Ok(None));
    let next = material(None, Some(&key(16, 9)), 16);
    assert_eq!(d.refresh_key_material(copy(&next)), Ok(Some(copy(&next))));
    assert_eq!(d.refresh_key_material(copy(&km)), Ok(Some(copy(&km))));
}

#[test]
fn refreshed_key_leaves_the_other_stream_readable() {
    let mut d = decryption(KeySize::Aes128);
    let even = key(16, 5);
    let odd = key(16, 9);
    d.refresh_key_material(material(Some(&even), None, 16)).unwrap();
    d.refresh_key_material(material(None, Some(&odd), 16)).unwrap();
    let plain = vec![42u8; 40];
    assert_eq!(
        d.decrypt(data(1, DataEncryption::Even, encrypt(&even, &salt(), 1, &plain))).unwrap().1.payload,
        plain
    );
    assert_eq!(
        d.decrypt(data(2, DataEncryption::Odd, encrypt(&odd, &salt(), 2, &plain))).unwrap().1.payload,
        plain
    );
    let newer = key(16, 77);
    d.refresh_key_material(material(Some(&newer), None, 16)).unwrap();
    assert_eq!(
        d.decrypt(data(3, DataEncryption::Odd, encrypt(&odd, &salt(), 3, &plain))).unwrap().1.payload,
        plain
    );
    assert_eq!(
        d.decrypt(data(4, DataEncryption::Even, encrypt(&newer, &salt(), 4, &plain))).unwrap().1.payload,
        plain
    );
    assert_ne!(
        d.decrypt(data(5, DataEncryption::Even, encrypt(&even, &salt(), 5, &plain))).unwrap().1.payload,
        plain
    );
}

#[test]
fn both_keys_come_in_one_message() {
    let mut d = decryption(KeySize::Aes128);
    let even = key(16, 1);
    let odd = key(16, 2);
    let km = material(Some(&even), Some(&odd), 16);
    assert_eq!(km.wrapped_keys.len(), 40);
    assert!(d.refresh_key_material(km).unwrap().is_some());
    let plain = vec![7u8; 33];
    assert_eq!(
        d.decrypt(data(9, DataEncryption::Odd, encrypt(&odd, &salt(), 9, &plain))),
        Ok((33, data(9, DataEncryption::Plain, plain.clone())))
    );
    assert_eq!(
        d.decrypt(data(9, DataEncryption::Even, encrypt(&even, &salt(), 9, &plain))),
        Ok((33, data(9, DataEncryption::Plain, plain)))
    );
}

#[test]
fn longer_keys_work_alike() {
    let plain = b"sixteen byte blk and a bit".to_vec();
    let mut d = decryption(KeySize::Aes192);
    let k = key(24, 3);
    assert!(d.refresh_key_material(material(None, Some(&k), 24)).unwrap().is_some());
    assert_eq!(
        d.decrypt(data(6, DataEncryption::Odd, encrypt(&k, &salt(), 6, &plain))).unwrap().1.payload,
        plain
    );
    let mut d = decryption(KeySize::Aes256);
    let k = key(32, 4);
    assert!(d.refresh_key_material(material(Some(&k), None, 32)).unwrap().is_some());
    assert_eq!(
        d.decrypt(data(6, DataEncryption::Even, encrypt(&k, &salt(), 6, &plain))).unwrap().1.payload,
        plain
    );
    assert_eq!(
        d.refresh_key_material(material(Some(&key(16, 4)), None, 16)),
        Err(KeyMaterialError::Malformed)
    );
}

#[test]
fn key_material_that_does_not_unwrap_is_refused() {
    let mut d = decryption(KeySize::Aes128);
    let even = key(16, 5);
    let good = material(Some(&even), None, 16);
    d.refresh_key_material(copy(&good)).unwrap();
    let mut tampered = material(Some(&key(16, 6)), None, 16);
    tampered.wrapped_keys[3] ^= 1;
    assert_eq!(d.refresh_key_material(tampered), Err(KeyMaterialError::Unauthenticated));
    let mut foreign = material(Some(&key(16, 6)), None, 16);
    foreign.wrapped_keys = wrap(b"another passphrase", &salt(), &key(16, 6), 16);
    assert_eq!(d.refresh_key_material(foreign), Err(KeyMaterialError::Unauthenticated));
    let plain = vec![1u8; 20];
    assert_eq!(
        d.decrypt(data(1, DataEncryption::Even, encrypt(&even, &salt(), 1, &plain))).unwrap().1.payload,
        plain
    );
    assert_eq!(d.refresh_key_material(good), Ok(None));
}

#[test]
fn malformed_key_material_is_refused() {
    let mut d = decryption(KeySize::Aes128);
    let mut short_salt = material(Some(&key(16, 5)), None, 16);
    short_salt.salt.pop();
    assert_eq!(d.refresh_key_material(short_salt), Err(KeyMaterialError::Malformed));
    let mut no_key = material(Some(&key(16, 5)), None, 16);
    no_key.even = false;
    assert_eq!(d.refresh_key_material(no_key), Err(KeyMaterialError::Malformed));
    let mut wrong_count = material(Some(&key(16, 5)), None, 16);
    wrong_count.odd = true;
    assert_eq!(d.refresh_key_material(wrong_count), Err(KeyMaterialError::Malformed));
    let mut none = Decryption::new(None);
    assert_eq!(
        none.refresh_key_material(material(Some(&key(16, 5)), None, 16)),
        Err(KeyMaterialError::NoCipher)
    );
}

#[test]
fn install_keys_takes_what_the_unwrap_gave() {
    let mut d = decryption(KeySize::Aes128);
    let km = material(Some(&key(16, 5)), None, 16);
    assert_eq!(d.install_keys(copy(&km), None), Err(KeyMaterialError::Unauthenticated));
    assert_eq!(
        d.decrypt(data(1, DataEncryption::Even, vec![0; 4])),
        Err(DecryptionError::MissingKey)
    );
    assert_eq!(d.install_keys(copy(&km), Some(key(24, 1))), Err(KeyMaterialError::Malformed));
    let mut short_salt = copy(&km);
    short_salt.salt.pop();
    assert_eq!(
        d.install_keys(short_salt, Some(key(16, 1))),
        Err(KeyMaterialError::Malformed)
    );
    assert_eq!(
        Decryption::new(None).install_keys(copy(&km), Some(key(16, 1))),
        Err(KeyMaterialError::NoCipher)
    );
    assert_eq!(
        d.decrypt(data(1, DataEncryption::Even, vec![0; 4])),
        Err(DecryptionError::MissingKey)
    );
    let other = key(16, 50);
    assert_eq!(d.install_keys(copy(&km), Some(other.clone())), Ok(Some(copy(&km))));
    let plain = vec![9u8; 18];
    assert_eq!(
        d.decrypt(data(1, DataEncryption::Even, encrypt(&other, &salt(), 1, &plain))).unwrap().1.payload,
        plain
    );
}

#[test]
fn context_counts_decryption_and_answers_key_refresh() {
    let mut receiver = Receiver::new(ConnectionSettings {
        socket_start_time: Instant::from_micros(0),
        recv_tsbpd_latency: Duration::from_millis(120),
        init_seq_num: SeqNumber::new_truncate(100),
        recv_buffer_size: 8,
        cipher: Some(CipherSettings { key_size: KeySize::Aes128, passphrase: PASSPHRASE.to_vec() }),
    });
    let mut timers = Timers::new(Duration::from_millis(5000));
    let mut output = Output::new();
    let mut stats = SocketStatistics::new();
    let even = key(16, 5);
    let km = material(Some(&even), None, 16);
    let plain = vec![8u8; 100];
    {
        let mut context = ReceiverContext::new(&mut timers, &mut output, &mut stats, &mut receiver);
        context.handle_data_packet(
            Instant::from_micros(0),
            data(100, DataEncryption::Even, encrypt(&even, &salt(), 100, &plain)),
        );
    }
    assert_eq!(stats.rx_data, 1);
    assert_eq!(stats.rx_bytes, 116);
    assert_eq!(stats.rx_decrypt_errors, 1);
    assert_eq!(stats.rx_decrypt_error_bytes, 116);
    assert_eq!(stats.rx_unique_data, 0);
    assert!(receiver.is_flushed());
    {
        let mut context = ReceiverContext::new(&mut timers, &mut output, &mut stats, &mut receiver);
        context.handle_key_refresh_request(Instant::from_micros(5), copy(&km));
        context.handle_key_refresh_request(Instant::from_micros(6), copy(&km));
        let mut bad = copy(&km);
        bad.wrapped_keys[0] ^= 0x80;
        context.handle_key_refresh_request(Instant::from_micros(7), bad);
    }
    let sent = output.take_packets();
    assert_eq!(sent.len(), 1);
    assert_eq!(sent[0].time, Instant::from_micros(5));
    assert_eq!(
        sent[0].packet,
        ControlTypes::Srt(SrtControlPacket::KeyRefreshResponse(copy(&km)))
    );
    {
        let mut context = ReceiverContext::new(&mut timers, &mut output, &mut stats, &mut receiver);
        context.handle_data_packet(
            Instant::from_micros(10),
            data(100, DataEncryption::Even, encrypt(&even, &salt(), 100, &plain)),
        );
        context.handle_data_packet(Instant::from_micros(11), data(101, DataEncryption::Plain, vec![1]));
    }
    assert_eq!(stats.rx_data, 3);
    assert_eq!(stats.rx_decrypted_data, 1);
    assert_eq!(stats.rx_decrypt_errors, 1);
    assert_eq!(stats.rx_unique_data, 2);
    assert_eq!(stats.rx_unique_bytes, 116 + 17);
    let released = receiver.arq.pop_ready(Instant::from_micros(1_000_000));
    assert_eq!(released.len(), 2);
    assert_eq!(released[0].payload, plain);
    assert_eq!(released[1].payload, vec![1]);
}

#[test]
fn handle_decrypted_packet_takes_the_result_of_decryption() {
    let mut receiver = Receiver::new(ConnectionSettings {
        socket_start_time: Instant::from_micros(0),
        recv_tsbpd_latency: Duration::from_millis(120),
        init_seq_num: SeqNumber::new_truncate(100),
        recv_buffer_size: 8,
        cipher: None,
    });
    let mut timers = Timers::new(Duration::from_millis(5000));
    let mut output = Output::new();
    let mut stats = SocketStatistics::new();
    {
        let mut context = ReceiverContext::new(&mut timers, &mut output, &mut stats, &mut receiver);
        context.handle_decrypted_packet(
            Instant::from_micros(0),
            30,
            Ok((14, data(100, DataEncryption::Plain, vec![5; 14]))),
        );
        context.handle_decrypted_packet(
            Instant::from_micros(1),
            40,
            Err(DecryptionError::CipherFailure),
        );
    }
    assert_eq!(stats.rx_data, 0);
    assert_eq!(stats.rx_decrypted_data, 1);
    assert_eq!(stats.rx_unique_data, 1);
    assert_eq!(stats.rx_unique_bytes, 30);
    assert_eq!(stats.rx_decrypt_errors, 1);
    assert_eq!(stats.rx_decrypt_error_bytes, 40);
}

#[test]
fn cipher_that_gives_nothing_is_a_failure() {
    assert_eq!(
        decrypted_packet(SeqNumber::new_truncate(5), 3, TimeStamp::from_micros(9), 4, 2, None),
        Err(DecryptionError::CipherFailure)
    );
    assert_eq!(
        decrypted_packet(
            SeqNumber::new_truncate(5),
            3,
            TimeStamp::from_micros(9),
            4,
            2,
            Some(vec![1, 2])
        ),
        Ok((2, data(5, DataEncryption::Plain, vec![1, 2])))
    );
}
