use enprot::prot::{decimal_string, decode_hex, ProtBlob};

fn sample() -> ProtBlob {
    ProtBlob {
        pbkdf_alg: "argon2".to_string(),
        pbkdf_params: vec![("m".to_string(), 65536), ("t".to_string(), 3), ("p".to_string(), 1)],
        salt: vec![0x01, 0x02],
        cipher_alg: "aes-256-gcm".to_string(),
        iv: vec![1, 2, 3, 4, 5, 6, 7, 8, 9, 10, 11, 12],
        ad: vec![],
        ciphertext: vec![0xde, 0xad, 0xbe, 0xef],
    }
}

#[test]
fn payload_text() {
    assert_eq!(
        sample().to_text(),
        "$argon2$m=65536,t=3,p=1$0102$aes-256-gcm$iv=0102030405060708090a0b0c,ad=$deadbeef"
    );
}

#[test]
fn payload_round_trip() {
    let text = sample().to_text();
    let b = ProtBlob::parse(&text).unwrap_or_else(|e| panic!("{}", e));
    assert_eq!(b.pbkdf_alg, "argon2");
    assert_eq!(b.pbkdf_params, sample().pbkdf_params);
    assert_eq!(b.salt, vec![0x01, 0x02]);
    assert_eq!(b.cipher_alg, "aes-256-gcm");
    assert_eq!(b.iv, sample().iv);
    assert_eq!(b.ad, Vec::<u8>::new());
    assert_eq!(b.ciphertext, sample().ciphertext);
    assert_eq!(b.to_text(), text);
}

#[test]
fn payload_without_parameters() {
    let b = ProtBlob {
        pbkdf_alg: "legacy".to_string(),
        pbkdf_params: vec![],
        salt: vec![],
        cipher_alg: "aes-256-siv".to_string(),
        iv: vec![],
        ad: vec![0xff],
        ciphertext: vec![],
    };
    let text = b.to_text();
    assert_eq!(text, "$legacy$$$aes-256-siv$iv=,ad=ff$");
    let back = ProtBlob::parse(&text).unwrap_or_else(|e| panic!("{}", e));
    assert!(back.pbkdf_params.is_empty());
    assert_eq!(back.ad, vec![0xff]);
}

#[test]
fn malformed_payloads() {
    let bad = [
        "",
        "argon2$m=1$$aes$iv=,ad=$",
        "$argon2$m=1$$aes$iv=,ad=",
        "$argon2$m=1$aes$iv=,ad=$",
        "$argon2$m=x$$aes$iv=,ad=$",
        "$argon2$m=1$0$aes$iv=,ad=$",
        "$argon2$m=1$$aes$iv=0,ad=$",
        "$argon2$m=1$$aes$ad=,iv=$",
        "$argon2$m=1$$aes$iv=,ad=$zz",
        "$argon2$m=1,$$aes$iv=,ad=$",
        "$argon2$i=1$$aes$iv=,ad=$",
        "$argon2$m=1,m=2$$aes$iv=,ad=$",
        "$pbkdf2-sha256$i=1,t=1$$aes$iv=,ad=$",
        "$bcrypt$$$aes$iv=,ad=$",
    ];
    for t in bad {
        assert_eq!(ProtBlob::parse(t).err(), Some("Malformed protected payload"), "{}", t);
    }
    // upper-case hexadecimal is read too
    let b = ProtBlob::parse("$argon2$$$y$iv=AB,ad=$CD").unwrap_or_else(|e| panic!("{}", e));
    assert_eq!((b.iv, b.ciphertext), (vec![0xab], vec![0xcd]));
}

#[test]
fn numbers_and_hex() {
    assert_eq!(decimal_string(0), "0");
    assert_eq!(decimal_string(1000), "1000");
    assert_eq!(decimal_string(usize::MAX), usize::MAX.to_string());
    assert_eq!(decode_hex("00ff10"), Some(vec![0, 255, 16]));
    assert_eq!(decode_hex("0"), None);
    assert_eq!(decode_hex("g0"), None);
    assert_eq!(decode_hex(""), Some(vec![]));
}
