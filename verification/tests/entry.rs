use session_wrapper::entry::{entry_paths, hex, input_digest, EntryInputs, PieceDigest, SHORT};
use session_wrapper::identifier::Identifier;
use sha2::Digest;

fn identifier(value: &str) -> Identifier {
    value.parse().expect("identifier")
}

fn piece(path: &str, byte: u8) -> PieceDigest {
    PieceDigest {
        path: path.as_bytes().to_vec(),
        content: vec![byte; 32],
    }
}

fn clone_piece(p: &PieceDigest) -> PieceDigest {
    PieceDigest {
        path: p.path.clone(),
        content: p.content.clone(),
    }
}

fn digest_of(profile: &Identifier, path: &str, content: u8, pieces: &[PieceDigest]) -> Vec<u8> {
    let profile_path = path.as_bytes().to_vec();
    let profile_content = vec![content; 32];
    let pieces: Vec<PieceDigest> = pieces.iter().map(clone_piece).collect();
    input_digest(&EntryInputs {
        profile,
        profile_path: &profile_path,
        profile_content: &profile_content,
        pieces: &pieces,
    })
}

#[test]
fn identical_inputs_produce_one_digest() {
    let work = identifier("work");
    let pieces = [piece("/c/settings/base.json", 1)];
    assert_eq!(
        digest_of(&work, "/c/profiles/work.yaml", 9, &pieces),
        digest_of(&work, "/c/profiles/work.yaml", 9, &pieces)
    );
}

#[test]
fn a_changed_piece_content_names_a_new_entry() {
    let work = identifier("work");
    assert_ne!(
        digest_of(&work, "/c/profiles/work.yaml", 9, &[piece("/c/settings/base.json", 1)]),
        digest_of(&work, "/c/profiles/work.yaml", 9, &[piece("/c/settings/base.json", 2)])
    );
}

#[test]
fn a_changed_piece_path_names_a_new_entry() {
    let work = identifier("work");
    assert_ne!(
        digest_of(&work, "/c/profiles/work.yaml", 9, &[piece("/c/settings/base.json", 1)]),
        digest_of(&work, "/c/profiles/work.yaml", 9, &[piece("/c/settings/other.json", 1)])
    );
}

#[test]
fn a_reordered_piece_list_names_a_new_entry() {
    let work = identifier("work");
    let a = piece("/c/settings/base.json", 1);
    let b = piece("/c/settings/work.json", 2);
    assert_ne!(
        digest_of(&work, "/c/profiles/work.yaml", 9, &[clone_piece(&a), clone_piece(&b)]),
        digest_of(&work, "/c/profiles/work.yaml", 9, &[b, a])
    );
}

#[test]
fn a_changed_profile_name_names_a_new_entry() {
    let pieces = [piece("/c/settings/base.json", 1)];
    assert_ne!(
        digest_of(&identifier("work"), "/c/profiles/work.yaml", 9, &pieces),
        digest_of(&identifier("home"), "/c/profiles/work.yaml", 9, &pieces)
    );
}

#[test]
fn a_changed_profile_content_names_a_new_entry() {
    let work = identifier("work");
    let pieces = [piece("/c/settings/base.json", 1)];
    assert_ne!(
        digest_of(&work, "/c/profiles/work.yaml", 9, &pieces),
        digest_of(&work, "/c/profiles/work.yaml", 8, &pieces)
    );
}

#[test]
fn field_framing_resists_boundary_imitation() {
    let work = identifier("work");
    let left = [piece("/a/bc", 1), piece("/d", 1)];
    let right = [piece("/a/b", 1), piece("/cd", 1)];
    assert_ne!(
        digest_of(&work, "/c/p.yaml", 0, &left),
        digest_of(&work, "/c/p.yaml", 0, &right)
    );
}

#[test]
fn a_non_utf8_path_is_hashed_as_raw_bytes() {
    let work = identifier("work");
    let left = [PieceDigest {
        path: vec![b'/', b'p', 0x80],
        content: vec![1; 32],
    }];
    let right = [PieceDigest {
        path: vec![b'/', b'p', 0x81],
        content: vec![1; 32],
    }];
    assert_ne!(
        digest_of(&work, "/c/p.yaml", 0, &left),
        digest_of(&work, "/c/p.yaml", 0, &right)
    );
}

#[test]
fn the_digest_is_sha256_of_the_framed_fields() {
    let work = identifier("work");
    let mut preimage: Vec<u8> = Vec::new();
    for field in [
        b"session-wrapper-composed-v1".as_slice(),
        b"work",
        b"/p",
        &[7u8; 32],
    ] {
        preimage.extend_from_slice(&(field.len() as u64).to_be_bytes());
        preimage.extend_from_slice(field);
    }
    let expected = sha2::Sha256::digest(&preimage).to_vec();
    assert_eq!(digest_of(&work, "/p", 7, &[]), expected);
}

#[test]
fn an_entry_is_named_by_twelve_lowercase_hex_characters() {
    let work = identifier("work");
    let digest = digest_of(&work, "/c/p.yaml", 0, &[]);
    let full = hex(&digest);
    assert_eq!(full.len(), 64);
    assert!(full
        .bytes()
        .all(|b| b.is_ascii_hexdigit() && !b.is_ascii_uppercase()));
    let (settings, provenance) = entry_paths(&b"/s/composed".to_vec(), &work, &digest);
    let short = &full[..SHORT];
    assert_eq!(
        String::from_utf8(settings).expect("utf-8"),
        format!("/s/composed/profile-work-{short}.json")
    );
    assert_eq!(
        String::from_utf8(provenance).expect("utf-8"),
        format!("/s/composed/profile-work-{short}.compose.json")
    );
}

#[test]
fn hex_renders_each_byte_as_two_digits() {
    assert_eq!(hex(&vec![0x00, 0x0f, 0xa5, 0xff]), "000fa5ff");
}
