use enprot::transform::{names_contain, plan_region, region_state, RegionState, Step};

fn words(ws: &[&str]) -> Vec<String> {
    ws.iter().map(|w| w.to_string()).collect()
}

#[test]
fn states_from_directives() {
    assert_eq!(region_state(&words(&[])), RegionState::Plain);
    assert_eq!(region_state(&words(&["store:ab12"])), RegionState::Stored);
    assert_eq!(region_state(&words(&["prot:$argon2$m=8"])), RegionState::Encrypted);
    assert_eq!(region_state(&words(&["prot:$x", "store:ab12"])), RegionState::EncryptedAndStored);
    assert_eq!(region_state(&words(&["restore:ab12", "protect"])), RegionState::Plain);
}

#[test]
fn name_membership() {
    let ns = words(&["Agent_007", "GEHEIM"]);
    assert!(names_contain(&ns, "GEHEIM"));
    assert!(!names_contain(&ns, "geheim"));
    assert!(!names_contain(&words(&[]), "GEHEIM"));
}

#[test]
fn encrypt_then_store() {
    let (steps, s) = plan_region(RegionState::Plain, false, false, true, true);
    assert_eq!(steps, vec![Step::Encrypt, Step::Store]);
    assert_eq!(s, RegionState::EncryptedAndStored);
    let (steps, s) = plan_region(s, true, true, false, false);
    assert_eq!(steps, vec![Step::Fetch, Step::Decrypt]);
    assert_eq!(s, RegionState::Plain);
}

#[test]
fn steps_that_do_not_apply_are_skipped() {
    let (steps, s) = plan_region(RegionState::Plain, true, true, false, false);
    assert!(steps.is_empty());
    assert_eq!(s, RegionState::Plain);
    let (steps, s) = plan_region(RegionState::Encrypted, false, false, true, false);
    assert!(steps.is_empty());
    assert_eq!(s, RegionState::Encrypted);
    let (steps, s) = plan_region(RegionState::Stored, false, false, true, false);
    assert_eq!(steps, vec![Step::Encrypt]);
    assert_eq!(s, RegionState::Encrypted);
    let (steps, s) = plan_region(RegionState::EncryptedAndStored, false, true, false, false);
    assert_eq!(steps, vec![Step::Decrypt]);
    assert_eq!(s, RegionState::Plain);
}

use enprot::doc::{blocks_to_string, parse_document};
use enprot::prot::ProtBlob;
use enprot::transform::{apply_answer, next_action, Action, Answer, Ops, Request, Walk};

const DOC: &str = "top\n<( BEGIN A )>\nsecret\n<( END A )>\n<( BEGIN B )>\nplain\n<( END B )>\n";

fn ops(fetch: &[&str], decrypt: &[&str], encrypt: &[&str], store: &[&str]) -> Ops {
    Ops { fetch: words(fetch), decrypt: words(decrypt), encrypt: words(encrypt), store: words(store) }
}

fn blob() -> ProtBlob {
    ProtBlob {
        pbkdf_alg: "argon2".to_string(),
        pbkdf_params: vec![("m".to_string(), 8)],
        salt: vec![0x5a],
        cipher_alg: "aes-256-siv".to_string(),
        iv: vec![],
        ad: vec![],
        ciphertext: vec![0xab],
    }
}

#[test]
fn encrypt_then_decrypt_restores_document() {
    let mut walk = Walk { blocks: parse_document(DOC, "<(", ")>").unwrap(), second: false };
    let ops_e = ops(&[], &[], &["A"], &[]);
    let path = match next_action(&mut walk, &ops_e) {
        Action::Ask { path, request: Request::Encrypt { name, plaintext } } => {
            assert_eq!(name, "A");
            assert_eq!(plaintext, "secret\n");
            path
        }
        _ => panic!("expected an encryption request"),
    };
    assert!(apply_answer(&mut walk, &path, Answer::Sealed(blob()), "<(", ")>").is_ok());
    assert!(matches!(next_action(&mut walk, &ops_e), Action::Done));
    let sealed = blocks_to_string(&walk.blocks);
    assert_eq!(
        sealed,
        "top\n<( BEGIN A prot:$argon2$m=8$5a$aes-256-siv$iv=,ad=$ab )>\n<( END A )>\n<( BEGIN B )>\nplain\n<( END B )>\n"
    );

    let mut walk = Walk { blocks: parse_document(&sealed, "<(", ")>").unwrap(), second: false };
    let ops_d = ops(&[], &["A"], &[], &[]);
    let path = match next_action(&mut walk, &ops_d) {
        Action::Ask { path, request: Request::Decrypt { name, payload } } => {
            assert_eq!(name, "A");
            assert_eq!(payload, blob().to_text());
            path
        }
        _ => panic!("expected a decryption request"),
    };
    // a body that does not nest is refused and leaves the walk as it was
    let bad = apply_answer(&mut walk, &path, Answer::Plaintext("<( END X )>\n".to_string()), "<(", ")>");
    assert!(bad.is_err());
    assert_eq!(blocks_to_string(&walk.blocks), sealed);
    assert!(apply_answer(&mut walk, &path, Answer::Plaintext("secret\n".to_string()), "<(", ")>").is_ok());
    assert!(matches!(next_action(&mut walk, &ops_d), Action::Done));
    assert_eq!(blocks_to_string(&walk.blocks), DOC);
}

#[test]
fn store_then_fetch_restores_document() {
    let mut walk = Walk { blocks: parse_document(DOC, "<(", ")>").unwrap(), second: false };
    let ops_s = ops(&[], &[], &[], &["B"]);
    let path = match next_action(&mut walk, &ops_s) {
        Action::Ask { path, request: Request::WriteStore { body } } => {
            assert_eq!(body, "plain\n");
            path
        }
        _ => panic!("expected a store request"),
    };
    assert!(apply_answer(&mut walk, &path, Answer::Stored(vec![0x12, 0x34]), "<(", ")>").is_ok());
    assert!(matches!(next_action(&mut walk, &ops_s), Action::Done));
    let stored = blocks_to_string(&walk.blocks);
    assert_eq!(stored, "top\n<( BEGIN A )>\nsecret\n<( END A )>\n<( BEGIN B store:1234 )>\n<( END B )>\n");

    let mut walk = Walk { blocks: parse_document(&stored, "<(", ")>").unwrap(), second: false };
    let ops_f = ops(&["B"], &[], &[], &[]);
    let path = match next_action(&mut walk, &ops_f) {
        Action::Ask { path, request: Request::ReadStore { digest_hex } } => {
            assert_eq!(digest_hex, "1234");
            path
        }
        _ => panic!("expected a fetch request"),
    };
    let corrupt = Answer::Body { text: "plain\n".to_string(), digest: vec![0x99] };
    assert_eq!(apply_answer(&mut walk, &path, corrupt, "<(", ")>"), Err("CAS corruption"));
    let good = Answer::Body { text: "plain\n".to_string(), digest: vec![0x12, 0x34] };
    assert!(apply_answer(&mut walk, &path, good, "<(", ")>").is_ok());
    assert!(matches!(next_action(&mut walk, &ops_f), Action::Done));
    assert_eq!(blocks_to_string(&walk.blocks), DOC);
}

#[test]
fn untargeted_names_need_nothing() {
    let mut walk = Walk { blocks: parse_document(DOC, "<(", ")>").unwrap(), second: false };
    let ops_x = ops(&["X"], &["X"], &["X"], &["X"]);
    assert!(matches!(next_action(&mut walk, &ops_x), Action::Done));
    assert_eq!(blocks_to_string(&walk.blocks), DOC);
}
