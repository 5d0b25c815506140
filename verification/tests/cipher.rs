use elma::crypt::crypt_top10;
use elma::state::crypt_whole_state;

#[test]
/// Generate random u8 data to simulate top10 lists, encrypting it and
/// decrypting it, and testing whether it returns the same unencrypted data.
fn decrypt_encrypt_top10() {
    let mut initial: Vec<u8> = vec![];
    for _ in 0..688 {
        initial.push(rand::random::<u8>());
    }
    let decrypted = crypt_top10(&initial);
    let encrypted = crypt_top10(&decrypted);
    assert_eq!(initial, encrypted);
}

#[test]
/// The top10 cipher touches only the first 688 bytes and keeps the rest.
fn crypt_top10_keeps_tail() {
    let mut data: Vec<u8> = vec![];
    for _ in 0..700 {
        data.push(rand::random::<u8>());
    }
    let once = crypt_top10(&data);
    assert_eq!(&once[688..], &data[688..]);
    assert_ne!(&once[..688], &data[..688]);
    let twice = crypt_top10(&once);
    assert_eq!(twice, data);
}

#[test]
/// The known keystream head of the top10 cipher: ciphering zero bytes
/// exposes the masks, and the first mask is the low byte of the first seed.
fn crypt_top10_first_mask() {
    let zeros = vec![0u8; 688];
    let masks = crypt_top10(&zeros);
    assert_eq!(masks[0], 0x15);
}

#[test]
/// The state cipher applied twice over its region table is the identity.
fn decrypt_encrypt_state() {
    let mut initial: Vec<u8> = vec![];
    for _ in 0..67910 {
        initial.push(rand::random::<u8>());
    }
    let mut buf = initial.clone();
    crypt_whole_state(&mut buf);
    assert_ne!(buf, initial);
    // The trailing end marker lies past the region table and stays plain.
    assert_eq!(&buf[67906..], &initial[67906..]);
    crypt_whole_state(&mut buf);
    assert_eq!(buf, initial);
}

#[test]
/// The state cipher's first mask is the low byte of the state seed.
fn crypt_state_first_mask() {
    let mut buf = vec![0u8; 67910];
    crypt_whole_state(&mut buf);
    assert_eq!(buf[0], 0x17);
    // Each region restarts the keystream, so each region starts with 0x17.
    assert_eq!(buf[4], 0x17);
    assert_eq!(buf[61924], 0x17);
}
